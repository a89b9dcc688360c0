//! What the firmware draws into the display buffers.
//!
//! The data panel OLED has 128 x 32 pixels in four pages of 128 bytes, each
//! byte eight vertically stacked pixels. It shows six glyphs side by side;
//! a glyph is 21 columns by four pages, stored page by page. The waypoint
//! OLED shows a test pattern.
use vstd::prelude::*;
use vstd::arithmetic::div_mod::{lemma_div_denominator, lemma_fundamental_div_mod};

verus! {

/// Columns of one panel glyph.
pub const GLYPH_COLUMNS: usize = 21;

/// Pages (rows of bytes) of one panel glyph.
pub const GLYPH_PAGES: usize = 4;

/// Bytes of one panel glyph.
pub const GLYPH_BYTES: usize = 84;

/// Bytes in one page of the data panel display.
pub const PAGE_BYTES: usize = 128;

/// Bytes of the data panel display buffer.
pub const PANEL_BUFFER_BYTES: usize = 512;

/// Glyphs that the data panel shows.
pub const PANEL_GLYPHS: usize = 6;

/// Glyphs in the panel's glyph table: the digits 0 to 9, then a blank.
pub const GLYPH_TABLE_LEN: usize = 11;

/// Index of the blank glyph.
pub const BLANK_GLYPH: u8 = 10;

/// Bytes of the waypoint display buffer.
pub const WAYPOINT_BUFFER_BYTES: usize = 1024;

/// The first display column of the glyph at `index`.
pub open spec fn glyph_offset(index: int) -> int {
    index * GLYPH_COLUMNS + 1
}

/// The byte of the glyph that lands on display byte `k` when the glyph is
/// drawn at `offset`, if one does.
pub open spec fn glyph_byte_at(offset: int, k: int, columns: int) -> Option<int> {
    if offset <= k < offset + columns {
        Some(k - offset)
    } else if offset + PAGE_BYTES <= k < offset + PAGE_BYTES + columns {
        Some(k - offset - PAGE_BYTES + GLYPH_COLUMNS)
    } else if offset + 2 * PAGE_BYTES <= k < offset + 2 * PAGE_BYTES + columns {
        Some(k - offset - 2 * PAGE_BYTES + 2 * GLYPH_COLUMNS)
    } else if offset + 3 * PAGE_BYTES <= k < offset + 3 * PAGE_BYTES + columns {
        Some(k - offset - 3 * PAGE_BYTES + 3 * GLYPH_COLUMNS)
    } else {
        None
    }
}

/// Bytes of a display buffer that the six panel glyphs reach: the last
/// page of the last glyph ends there.
pub open spec fn panel_extent() -> int {
    glyph_offset(PANEL_GLYPHS - 1) + 3 * PAGE_BYTES + GLYPH_COLUMNS
}

/// The buffer with the first `columns` columns of `figure` drawn at
/// glyph position `index`.
pub open spec fn columns_drawn(buffer: Seq<u8>, index: int, figure: Seq<u8>, columns: int) -> Seq<u8> {
    Seq::new(
        buffer.len(),
        |k: int|
            match glyph_byte_at(glyph_offset(index), k, columns) {
                Some(g) => figure[g],
                None => buffer[k],
            },
    )
}

/// The buffer with `figure` drawn at glyph position `index`.
pub open spec fn figure_drawn(buffer: Seq<u8>, index: int, figure: Seq<u8>) -> Seq<u8> {
    columns_drawn(buffer, index, figure, GLYPH_COLUMNS as int)
}

/// Draws `figure` at glyph position `index` of the data panel buffer.
pub fn draw_figure(buffer: &mut [u8], index: usize, figure: &[u8])
    requires
        glyph_offset(index as int) + 3 * PAGE_BYTES + GLYPH_COLUMNS <= old(buffer)@.len(),
        figure@.len() >= GLYPH_BYTES,
    ensures
        final(buffer)@ == figure_drawn(old(buffer)@, index as int, figure@),
        final(buffer)@.len() == old(buffer)@.len(),
        forall|i: int, p: int|
            0 <= i < 21 && 0 <= p < 4 ==> #[trigger] final(buffer)@[index * 21 + 1 + i + 128 * p]
                == figure@[21 * p + i],
        forall|k: int|
            0 <= k < old(buffer)@.len() && !(exists|p: int|
                0 <= p < 4 && #[trigger] (128 * p) + index * 21 + 1 <= k < 128 * p + index * 21 + 22) ==> #[trigger] final(buffer)@[k]
                == old(buffer)@[k],
{
    let len = buffer.len();
    let offset = index * 21 + 1;
    let ghost start = buffer@;
    for i in 0..21
        invariant
            len == start.len(),
            offset == glyph_offset(index as int),
            offset + 3 * PAGE_BYTES + GLYPH_COLUMNS <= start.len(),
            figure@.len() >= GLYPH_BYTES,
            buffer@ == columns_drawn(start, index as int, figure@, i as int),
    {
        buffer[offset + i] = figure[i];
        buffer[offset + i + 128] = figure[i + 21];
        buffer[offset + i + 256] = figure[i + 42];
        buffer[offset + i + 384] = figure[i + 63];
        assert(buffer@ =~= columns_drawn(start, index as int, figure@, i + 1));
    }
    proof {
        lemma_figure_drawn_bytes(start, index as int, figure@);
    }
}

/// Drawing a figure at glyph position `index` puts byte `21 * p + i` of the
/// figure, column `i` of page `p`, on display byte `index * 21 + 1 + i +
/// 128 * p`, and leaves every other byte as it was.
pub proof fn lemma_figure_drawn_bytes(buffer: Seq<u8>, index: int, figure: Seq<u8>)
    requires
        0 <= index,
        index * 21 + 1 + 20 + 384 < buffer.len(),
    ensures
        figure_drawn(buffer, index, figure).len() == buffer.len(),
        forall|i: int, p: int|
            0 <= i < 21 && 0 <= p < 4 ==> #[trigger] figure_drawn(buffer, index, figure)[index * 21 + 1
                + i + 128 * p] == figure[21 * p + i],
        forall|k: int|
            0 <= k < buffer.len() && !(exists|p: int|
                0 <= p < 4 && #[trigger] (128 * p) + index * 21 + 1 <= k < 128 * p + index * 21 + 22) ==> #[trigger] figure_drawn(
                buffer,
                index,
                figure,
            )[k] == buffer[k],
{
    let d = figure_drawn(buffer, index, figure);
    assert forall|i: int, p: int| 0 <= i < 21 && 0 <= p < 4 implies #[trigger] d[index * 21 + 1 + i + 128 * p]
        == figure[21 * p + i] by {
        let o = index * 21 + 1;
        let k = index * 21 + 1 + i + 128 * p;
        if p == 0 {
            assert(glyph_byte_at(o, k, 21) == Some(i));
        } else if p == 1 {
            assert(glyph_byte_at(o, k, 21) == Some(21 + i));
        } else if p == 2 {
            assert(glyph_byte_at(o, k, 21) == Some(42 + i));
        } else {
            assert(glyph_byte_at(o, k, 21) == Some(63 + i));
        }
    }
    assert forall|k: int|
        0 <= k < buffer.len() && !(exists|p: int|
            0 <= p < 4 && #[trigger] (128 * p) + index * 21 + 1 <= k < 128 * p + index * 21 + 22) implies #[trigger] d[k]
        == buffer[k] by {
        let o = index * 21 + 1;
        if o <= k < o + 21 {
            assert((128 * 0) + index * 21 + 1 <= k < 128 * 0 + index * 21 + 22);
        } else if o + 128 <= k < o + 149 {
            assert((128 * 1) + index * 21 + 1 <= k < 128 * 1 + index * 21 + 22);
        } else if o + 256 <= k < o + 277 {
            assert((128 * 2) + index * 21 + 1 <= k < 128 * 2 + index * 21 + 22);
        } else if o + 384 <= k < o + 405 {
            assert((128 * 3) + index * 21 + 1 <= k < 128 * 3 + index * 21 + 22);
        }
    }
}

/// The buffer after the first `n` glyphs of `glyphs` were drawn, left to
/// right, each as the figure of that index in `figures`.
pub open spec fn panel_drawn(buffer: Seq<u8>, glyphs: Seq<u8>, figures: Seq<Vec<u8>>, n: int) -> Seq<u8>
    decreases n,
{
    if n <= 0 {
        buffer
    } else {
        figure_drawn(
            panel_drawn(buffer, glyphs, figures, n - 1),
            n - 1,
            figures[glyphs[n - 1] as int]@,
        )
    }
}

/// Six glyph indices that the table of figures holds, each with a figure
/// of full size.
pub open spec fn glyphs_drawable(glyphs: Seq<u8>, figures: Seq<Vec<u8>>) -> bool {
    &&& glyphs.len() >= PANEL_GLYPHS
    &&& forall|i: int|
        0 <= i < PANEL_GLYPHS ==> #[trigger] glyphs[i] < figures.len() && figures[glyphs[i] as int]@.len()
            >= GLYPH_BYTES
}

/// Draws the six panel glyphs: glyph `i` shows the figure `figures[glyphs[i]]`.
pub fn draw_panel(buffer: &mut [u8], glyphs: &[u8], figures: &[Vec<u8>])
    requires
        old(buffer)@.len() >= panel_extent(),
        glyphs_drawable(glyphs@, figures@),
    ensures
        final(buffer)@ == panel_drawn(old(buffer)@, glyphs@, figures@, PANEL_GLYPHS as int),
{
    let ghost start = buffer@;
    for i in 0..6
        invariant
            start.len() >= panel_extent(),
            buffer@.len() == start.len(),
            glyphs_drawable(glyphs@, figures@),
            buffer@ == panel_drawn(start, glyphs@, figures@, i as int),
    {
        let figure = figures[glyphs[i] as usize].as_slice();
        draw_figure(buffer, i, figure);
    }
}

/// The place value of digit `i` of a six-digit number, most significant
/// first.
pub open spec fn place_value(i: int) -> int {
    if i == 0 {
        100000
    } else if i == 1 {
        10000
    } else if i == 2 {
        1000
    } else if i == 3 {
        100
    } else if i == 4 {
        10
    } else {
        1
    }
}

/// The glyph for digit `i` of `value` on the six-digit panel: the value is
/// taken modulo one million, leading zeros are blank, and the last digit
/// always shows.
pub open spec fn value_glyph(value: u32, i: int) -> u8 {
    let leading = (value % 1000000) as int / place_value(i);
    if leading == 0 && i < 5 {
        BLANK_GLYPH
    } else {
        (leading % 10) as u8
    }
}

/// The six glyphs that show `value`.
pub open spec fn value_glyphs_spec(value: u32) -> Seq<u8> {
    Seq::new(PANEL_GLYPHS as nat, |i: int| value_glyph(value, i))
}

fn place_value_of(i: usize) -> (place: u32)
    requires
        i < PANEL_GLYPHS,
    ensures
        place == place_value(i as int),
{
    if i == 0 {
        100000
    } else if i == 1 {
        10000
    } else if i == 2 {
        1000
    } else if i == 3 {
        100
    } else if i == 4 {
        10
    } else {
        1
    }
}

/// The glyph indices that show `value` on the panel.
pub fn value_glyphs(value: u32) -> (glyphs: Vec<u8>)
    ensures
        glyphs@ == value_glyphs_spec(value),
        forall|i: int| 0 <= i < PANEL_GLYPHS ==> #[trigger] glyphs@[i] <= BLANK_GLYPH,
{
    let shown = value % 1000000;
    let mut glyphs: Vec<u8> = Vec::new();
    let mut i: usize = 0;
    while i < 6
        invariant
            i <= PANEL_GLYPHS,
            shown == value % 1000000,
            glyphs@ == value_glyphs_spec(value).take(i as int),
        decreases PANEL_GLYPHS - i,
    {
        let leading = shown / place_value_of(i);
        let glyph = if leading == 0 && i < 5 {
            BLANK_GLYPH
        } else {
            (leading % 10) as u8
        };
        glyphs.push(glyph);
        i += 1;
        assert(glyphs@ =~= value_glyphs_spec(value).take(i as int));
    }
    glyphs
}

/// The digit that a glyph shows, a blank counting as 0.
pub open spec fn glyph_digit(glyph: u8) -> int {
    if glyph == BLANK_GLYPH {
        0
    } else {
        glyph as int
    }
}

/// The panel shows `value` modulo one million in decimal: its glyphs, read
/// as digits with blanks as 0, make up that number, and exactly the leading
/// zeros before the last digit are blank.
pub proof fn lemma_value_glyphs_read_back(value: u32)
    ensures
        glyph_digit(value_glyph(value, 0)) * 100000 + glyph_digit(value_glyph(value, 1)) * 10000
            + glyph_digit(value_glyph(value, 2)) * 1000 + glyph_digit(value_glyph(value, 3)) * 100
            + glyph_digit(value_glyph(value, 4)) * 10 + glyph_digit(value_glyph(value, 5)) == value
            % 1000000,
        forall|i: int|
            0 <= i < PANEL_GLYPHS ==> (#[trigger] value_glyph(value, i) == BLANK_GLYPH <==> (i < 5
                && (value % 1000000) < place_value(i))),
{
    let s = (value % 1000000) as int;
    assert forall|i: int| 0 <= i < PANEL_GLYPHS implies glyph_digit(#[trigger] value_glyph(value, i)) == (s
        / place_value(i)) % 10 && (value_glyph(value, i) == BLANK_GLYPH <==> (i < 5 && s < place_value(i))) by {
        let p = place_value(i);
        assert(s / p >= 0);
        assert(s / p == 0 <==> s < p);
    }
    lemma_fundamental_div_mod(s, 10);
    lemma_fundamental_div_mod(s / 10, 10);
    lemma_fundamental_div_mod(s / 100, 10);
    lemma_fundamental_div_mod(s / 1000, 10);
    lemma_fundamental_div_mod(s / 10000, 10);
    lemma_div_denominator(s, 10, 10);
    lemma_div_denominator(s, 100, 10);
    lemma_div_denominator(s, 1000, 10);
    lemma_div_denominator(s, 10000, 10);
    lemma_div_denominator(s, 100000, 10);
    assert(s / 100000 < 10);
}

/// Draws `value` on the panel, taken modulo one million, with blank leading
/// zeros.
pub fn draw_value(buffer: &mut [u8], value: u32, figures: &[Vec<u8>])
    requires
        old(buffer)@.len() >= panel_extent(),
        glyphs_drawable(value_glyphs_spec(value), figures@),
    ensures
        final(buffer)@ == panel_drawn(old(buffer)@, value_glyphs_spec(value), figures@, PANEL_GLYPHS as int),
{
    let glyphs = value_glyphs(value);
    draw_panel(buffer, glyphs.as_slice(), figures);
}

/// Two glyph positions of the panel never share a display byte.
pub proof fn lemma_glyph_cells_disjoint(a: int, b: int, k: int)
    requires
        0 <= a < PANEL_GLYPHS,
        0 <= b < PANEL_GLYPHS,
        a != b,
    ensures
        !(glyph_byte_at(glyph_offset(a), k, GLYPH_COLUMNS as int) is Some && glyph_byte_at(
            glyph_offset(b),
            k,
            GLYPH_COLUMNS as int,
        ) is Some),
{
}

/// Figures drawn at any two glyph positions whose display bytes do not
/// overlap give the same buffer in either order.
pub proof fn lemma_disjoint_draws_commute(buffer: Seq<u8>, a: int, f: Seq<u8>, b: int, g: Seq<u8>)
    requires
        forall|k: int|
            !(#[trigger] glyph_byte_at(glyph_offset(a), k, GLYPH_COLUMNS as int) is Some
                && glyph_byte_at(glyph_offset(b), k, GLYPH_COLUMNS as int) is Some),
    ensures
        figure_drawn(figure_drawn(buffer, a, f), b, g) == figure_drawn(figure_drawn(buffer, b, g), a, f),
{
    assert(figure_drawn(figure_drawn(buffer, a, f), b, g) =~= figure_drawn(figure_drawn(buffer, b, g), a, f));
}

/// Figures drawn at two different glyph positions of the panel give the
/// same buffer in either order.
pub proof fn lemma_draw_figure_commutes(buffer: Seq<u8>, a: int, f: Seq<u8>, b: int, g: Seq<u8>)
    requires
        0 <= a < PANEL_GLYPHS,
        0 <= b < PANEL_GLYPHS,
        a != b,
    ensures
        figure_drawn(figure_drawn(buffer, a, f), b, g) == figure_drawn(figure_drawn(buffer, b, g), a, f),
{
    assert forall|k: int|
        !(#[trigger] glyph_byte_at(glyph_offset(a), k, GLYPH_COLUMNS as int) is Some
            && glyph_byte_at(glyph_offset(b), k, GLYPH_COLUMNS as int) is Some) by {
        lemma_glyph_cells_disjoint(a, b, k);
    }
    lemma_disjoint_draws_commute(buffer, a, f, b, g);
}

/// Drawing the same figure at the same position twice gives the buffer
/// that drawing it once gives.
pub proof fn lemma_draw_figure_idempotent(buffer: Seq<u8>, a: int, f: Seq<u8>)
    ensures
        figure_drawn(figure_drawn(buffer, a, f), a, f) == figure_drawn(buffer, a, f),
{
    assert(figure_drawn(figure_drawn(buffer, a, f), a, f) =~= figure_drawn(buffer, a, f));
}

/// Drawing glyphs keeps the size of the buffer.
pub proof fn lemma_panel_drawn_len(buffer: Seq<u8>, glyphs: Seq<u8>, figures: Seq<Vec<u8>>, n: int)
    ensures
        panel_drawn(buffer, glyphs, figures, n).len() == buffer.len(),
    decreases n,
{
    if n > 0 {
        lemma_panel_drawn_len(buffer, glyphs, figures, n - 1);
    }
}

/// After the first `n` glyphs were drawn, a display byte of glyph position
/// `i < n` holds the matching byte of that glyph's figure.
pub proof fn lemma_panel_shows_glyph(
    buffer: Seq<u8>,
    glyphs: Seq<u8>,
    figures: Seq<Vec<u8>>,
    n: int,
    i: int,
    k: int,
)
    requires
        0 <= i < n <= PANEL_GLYPHS,
        0 <= k < buffer.len(),
        glyph_byte_at(glyph_offset(i), k, GLYPH_COLUMNS as int) is Some,
    ensures
        panel_drawn(buffer, glyphs, figures, n)[k] == figures[glyphs[i] as int]@[glyph_byte_at(
            glyph_offset(i),
            k,
            GLYPH_COLUMNS as int,
        ).unwrap()],
    decreases n,
{
    lemma_panel_drawn_len(buffer, glyphs, figures, n - 1);
    if i < n - 1 {
        lemma_panel_shows_glyph(buffer, glyphs, figures, n - 1, i, k);
        lemma_glyph_cells_disjoint(i, n - 1, k);
    }
}

/// A display byte outside the first `n` glyph positions keeps what it held.
pub proof fn lemma_panel_keeps_other_bytes(
    buffer: Seq<u8>,
    glyphs: Seq<u8>,
    figures: Seq<Vec<u8>>,
    n: int,
    k: int,
)
    requires
        0 <= n <= PANEL_GLYPHS,
        0 <= k < buffer.len(),
        forall|i: int| 0 <= i < n ==> #[trigger] glyph_byte_at(glyph_offset(i), k, GLYPH_COLUMNS as int) is None,
    ensures
        panel_drawn(buffer, glyphs, figures, n)[k] == buffer[k],
    decreases n,
{
    if n > 0 {
        lemma_panel_drawn_len(buffer, glyphs, figures, n - 1);
        assert(glyph_byte_at(glyph_offset(n - 1), k, GLYPH_COLUMNS as int) is None);
        lemma_panel_keeps_other_bytes(buffer, glyphs, figures, n - 1, k);
    }
}

/// The waypoint test pattern byte at position `i` of a frame drawn with
/// counter `counter`.
pub open spec fn waypoint_byte(counter: int, i: int) -> u8 {
    ((i + (counter + i) % 255) % 256) as u8
}

/// Fills the waypoint display buffer with the test pattern for the frame
/// whose counter is `counter`, and answers the counter for the next frame.
pub fn draw_waypoint_pattern(buffer: &mut [u8], counter: usize) -> (next: usize)
    requires
        old(buffer)@.len() == WAYPOINT_BUFFER_BYTES,
        counter + WAYPOINT_BUFFER_BYTES <= usize::MAX,
    ensures
        final(buffer)@.len() == WAYPOINT_BUFFER_BYTES,
        forall|i: int| 0 <= i < WAYPOINT_BUFFER_BYTES ==> #[trigger] final(buffer)@[i] == waypoint_byte(counter as int, i),
        next == counter + WAYPOINT_BUFFER_BYTES,
{
    let mut c = counter;
    let mut i: usize = 0;
    while i < 1024
        invariant
            buffer@.len() == WAYPOINT_BUFFER_BYTES,
            i <= WAYPOINT_BUFFER_BYTES,
            c == counter + i,
            counter + WAYPOINT_BUFFER_BYTES <= usize::MAX,
            forall|k: int| 0 <= k < i ==> #[trigger] buffer@[k] == waypoint_byte(counter as int, k),
        decreases WAYPOINT_BUFFER_BYTES - i,
    {
        buffer[i] = ((i + c % 255) % 256) as u8;
        c += 1;
        i += 1;
    }
    c
}

} // verus!
