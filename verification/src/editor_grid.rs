//! The pixel grid of the glyph editor: 21 columns by 32 rows of pixels, a
//! glyph of the data panel. Its bytes are the display bytes of the glyph,
//! four pages of 21 columns, each byte eight pixels of one column with the
//! top pixel in the lowest bit.
use vstd::prelude::*;
use vstd::arithmetic::div_mod::{lemma_fundamental_div_mod, lemma_fundamental_div_mod_converse};

use crate::glyph_text::{
    data_text, format_values, lemma_data_text_reads_back, parse_text_values, parse_values,
};

verus! {

/// Columns of the grid.
pub const SIZE_X: usize = 21;

/// Rows of the grid.
pub const SIZE_Y: usize = 32;

/// Size of one grid cell on screen, in scaled pixels.
pub const TILE_SIZE: usize = 8;

/// Pixels of the grid.
pub const GRID_PIXELS: usize = 672;

/// Pages (rows of bytes) of the grid.
pub const GRID_PAGES: usize = 4;

/// Bytes of a glyph.
pub const GLYPH_DATA_BYTES: usize = 84;

/// The bit for pixel `i` of a column byte, where the pixel is set.
pub open spec fn bit_of(set: bool, i: u8) -> u8 {
    if set {
        1u8 << i
    } else {
        0u8
    }
}

/// Whether bit `i` of `value` is set.
pub open spec fn bit_set(value: u8, i: u8) -> bool {
    value & (1u8 << i) != 0
}

/// Pixel `i` of column `x` of page `page`.
pub open spec fn page_pixel(pixels: Seq<bool>, x: int, page: int, i: int) -> bool {
    pixels[x + (page * 8 + i) * SIZE_X]
}

/// The byte of the first `n` pixels of column `x` of page `page`.
pub open spec fn column_prefix(pixels: Seq<bool>, x: int, page: int, n: int) -> u8
    decreases n,
{
    if n <= 0 {
        0
    } else {
        column_prefix(pixels, x, page, n - 1) | bit_of(page_pixel(pixels, x, page, n - 1), (n - 1) as u8)
    }
}

/// The display byte of column `x` of page `page`.
pub open spec fn column_byte(pixels: Seq<bool>, x: int, page: int) -> u8 {
    column_prefix(pixels, x, page, 8)
}

/// The bytes of a glyph, page by page.
pub open spec fn glyph_bytes(pixels: Seq<bool>) -> Seq<u8> {
    Seq::new(GLYPH_DATA_BYTES as nat, |k: int| column_byte(pixels, k % (SIZE_X as int), k / (SIZE_X as int)))
}

/// Byte `k` of `values`, or 0 where there is none.
pub open spec fn byte_or_zero(values: Seq<u8>, k: int) -> u8 {
    if 0 <= k < values.len() {
        values[k]
    } else {
        0
    }
}

/// The pixels of the glyph with the given bytes; missing bytes count as 0.
pub open spec fn pixels_from_bytes(values: Seq<u8>) -> Seq<bool> {
    Seq::new(
        GRID_PIXELS as nat,
        |q: int|
            {
                let x = q % (SIZE_X as int);
                let row = q / (SIZE_X as int);
                bit_set(byte_or_zero(values, x + (row / 8) * SIZE_X), (row % 8) as u8)
            },
    )
}

/// The grid moved by `dx` columns and `dy` rows towards the top left,
/// what leaves on one side coming back on the other.
pub open spec fn rotated(pixels: Seq<bool>, dx: int, dy: int) -> Seq<bool> {
    Seq::new(
        GRID_PIXELS as nat,
        |q: int|
            pixels[(q % (SIZE_X as int) + dx) % (SIZE_X as int) + ((q / (SIZE_X as int) + dy) % (
            SIZE_Y as int)) * SIZE_X],
    )
}

/// Each bit of eight packed pixels is the pixel it came from.
proof fn lemma_pack_bits(b0: bool, b1: bool, b2: bool, b3: bool, b4: bool, b5: bool, b6: bool, b7: bool, i: u8)
    by (bit_vector)
    requires
        i < 8,
    ensures
        bit_set(
            0u8 | bit_of(b0, 0) | bit_of(b1, 1) | bit_of(b2, 2) | bit_of(b3, 3) | bit_of(b4, 4)
                | bit_of(b5, 5) | bit_of(b6, 6) | bit_of(b7, 7),
            i,
        ) == if i == 0 {
            b0
        } else if i == 1 {
            b1
        } else if i == 2 {
            b2
        } else if i == 3 {
            b3
        } else if i == 4 {
            b4
        } else if i == 5 {
            b5
        } else if i == 6 {
            b6
        } else {
            b7
        },
{
}

/// Packing the eight bits of a byte gives the byte back.
proof fn lemma_unpack_bits(v: u8)
    by (bit_vector)
    ensures
        0u8 | bit_of(bit_set(v, 0), 0) | bit_of(bit_set(v, 1), 1) | bit_of(bit_set(v, 2), 2) | bit_of(
            bit_set(v, 3),
            3,
        ) | bit_of(bit_set(v, 4), 4) | bit_of(bit_set(v, 5), 5) | bit_of(bit_set(v, 6), 6) | bit_of(
            bit_set(v, 7),
            7,
        ) == v,
{
}

/// The display byte of a column, written out.
proof fn lemma_column_byte_unfolded(pixels: Seq<bool>, x: int, page: int)
    ensures
        column_byte(pixels, x, page) == 0u8 | bit_of(page_pixel(pixels, x, page, 0), 0) | bit_of(
            page_pixel(pixels, x, page, 1),
            1,
        ) | bit_of(page_pixel(pixels, x, page, 2), 2) | bit_of(page_pixel(pixels, x, page, 3), 3)
            | bit_of(page_pixel(pixels, x, page, 4), 4) | bit_of(page_pixel(pixels, x, page, 5), 5)
            | bit_of(page_pixel(pixels, x, page, 6), 6) | bit_of(page_pixel(pixels, x, page, 7), 7),
{
    reveal_with_fuel(column_prefix, 9);
}

/// Bit `i` of a column's display byte is pixel `i` of that column.
pub proof fn lemma_column_byte_bit(pixels: Seq<bool>, x: int, page: int, i: int)
    requires
        0 <= i < 8,
    ensures
        bit_set(column_byte(pixels, x, page), i as u8) == page_pixel(pixels, x, page, i),
{
    lemma_column_byte_unfolded(pixels, x, page);
    lemma_pack_bits(
        page_pixel(pixels, x, page, 0),
        page_pixel(pixels, x, page, 1),
        page_pixel(pixels, x, page, 2),
        page_pixel(pixels, x, page, 3),
        page_pixel(pixels, x, page, 4),
        page_pixel(pixels, x, page, 5),
        page_pixel(pixels, x, page, 6),
        page_pixel(pixels, x, page, 7),
        i as u8,
    );
}

/// Where pixel `q` of the grid lies: column, page and bit.
proof fn lemma_pixel_position(q: int)
    requires
        0 <= q < GRID_PIXELS,
    ensures
        ({
            let x = q % (SIZE_X as int);
            let row = q / (SIZE_X as int);
            &&& 0 <= x < SIZE_X
            &&& 0 <= row < SIZE_Y
            &&& 0 <= row / 8 < GRID_PAGES
            &&& 0 <= row % 8 < 8
            &&& q == x + ((row / 8) * 8 + row % 8) * SIZE_X
            &&& 0 <= x + (row / 8) * SIZE_X < GLYPH_DATA_BYTES
            &&& (x + (row / 8) * SIZE_X) % (SIZE_X as int) == x
            &&& (x + (row / 8) * SIZE_X) / (SIZE_X as int) == row / 8
        }),
{
    let x = q % (SIZE_X as int);
    let row = q / (SIZE_X as int);
    lemma_fundamental_div_mod(q, SIZE_X as int);
    lemma_fundamental_div_mod(row, 8);
    lemma_fundamental_div_mod_converse(x + (row / 8) * SIZE_X, SIZE_X as int, row / 8, x);
}

/// Where byte `k` of a glyph lies: column and page.
proof fn lemma_byte_position(k: int)
    requires
        0 <= k < GLYPH_DATA_BYTES,
    ensures
        ({
            let x = k % (SIZE_X as int);
            let page = k / (SIZE_X as int);
            &&& 0 <= x < SIZE_X
            &&& 0 <= page < GRID_PAGES
            &&& k == x + page * SIZE_X
        }),
{
    lemma_fundamental_div_mod(k, SIZE_X as int);
}

/// A pixel's position from its column, page and bit.
proof fn lemma_pixel_of_position(x: int, page: int, i: int)
    requires
        0 <= x < SIZE_X,
        0 <= page < GRID_PAGES,
        0 <= i < 8,
    ensures
        ({
            let q = x + (page * 8 + i) * SIZE_X;
            &&& 0 <= q < GRID_PIXELS
            &&& q % (SIZE_X as int) == x
            &&& q / (SIZE_X as int) == page * 8 + i
            &&& (page * 8 + i) / 8 == page
            &&& (page * 8 + i) % 8 == i
        }),
{
    let q = x + (page * 8 + i) * SIZE_X;
    lemma_fundamental_div_mod_converse(q, SIZE_X as int, page * 8 + i, x);
    lemma_fundamental_div_mod_converse(page * 8 + i, 8, page, i);
}

/// Bit `i` of byte `k` of a glyph is the pixel in column `k % 21` of row
/// `(k / 21) * 8 + i`: the bytes run page by page, column by column, the
/// top pixel of each column in the lowest bit.
pub proof fn lemma_glyph_bytes_bits(pixels: Seq<bool>)
    ensures
        glyph_bytes(pixels).len() == 84,
        forall|k: int, i: int|
            0 <= k < 84 && 0 <= i < 8 ==> (#[trigger] glyph_bytes(pixels)[k] & (1u8 << (i as u8)) != 0)
                == #[trigger] pixels[(k % 21) + ((k / 21) * 8 + i) * 21],
{
    assert forall|k: int, i: int| 0 <= k < 84 && 0 <= i < 8 implies (#[trigger] glyph_bytes(pixels)[k] & (1u8
        << (i as u8)) != 0) == #[trigger] pixels[(k % 21) + ((k / 21) * 8 + i) * 21] by {
        lemma_column_byte_bit(pixels, k % 21, k / 21, i);
    }
}

/// Drawing bytes into the grid sets the pixel in column `x` of row `row`
/// exactly when bit `row % 8` of byte `x + (row / 8) * 21` is set, a
/// missing byte counting as 0.
pub proof fn lemma_pixels_from_bytes_bits(values: Seq<u8>)
    ensures
        pixels_from_bytes(values).len() == 672,
        forall|x: int, row: int|
            0 <= x < 21 && 0 <= row < 32 ==> #[trigger] pixels_from_bytes(values)[x + row * 21] == (((if x
                + (row / 8) * 21 < values.len() {
                values[x + (row / 8) * 21]
            } else {
                0u8
            }) & (1u8 << ((row % 8) as u8))) != 0),
{
    assert forall|x: int, row: int| 0 <= x < 21 && 0 <= row < 32 implies #[trigger] pixels_from_bytes(values)[x
        + row * 21] == (((if x + (row / 8) * 21 < values.len() {
        values[x + (row / 8) * 21]
    } else {
        0u8
    }) & (1u8 << ((row % 8) as u8))) != 0) by {
        lemma_fundamental_div_mod_converse(x + row * 21, SIZE_X as int, row, x);
    }
}

/// Reading the bytes of a grid and drawing them again gives the same grid.
pub proof fn lemma_pixels_bytes_roundtrip(pixels: Seq<bool>)
    requires
        pixels.len() == GRID_PIXELS,
    ensures
        pixels_from_bytes(glyph_bytes(pixels)) == pixels,
{
    let bytes = glyph_bytes(pixels);
    assert forall|q: int| 0 <= q < GRID_PIXELS implies #[trigger] pixels_from_bytes(bytes)[q] == pixels[q] by {
        lemma_pixel_position(q);
        let x = q % (SIZE_X as int);
        let row = q / (SIZE_X as int);
        lemma_column_byte_bit(pixels, x, row / 8, row % 8);
    }
    assert(pixels_from_bytes(bytes) =~= pixels);
}

/// Drawing bytes into the grid and reading the glyph's bytes back gives
/// the first 84 of them, with 0 for those missing.
pub proof fn lemma_bytes_pixels_roundtrip(values: Seq<u8>)
    ensures
        glyph_bytes(pixels_from_bytes(values)) == Seq::new(
            GLYPH_DATA_BYTES as nat,
            |k: int| byte_or_zero(values, k),
        ),
{
    let padded = Seq::new(GLYPH_DATA_BYTES as nat, |k: int| byte_or_zero(values, k));
    let pixels = pixels_from_bytes(values);
    assert forall|k: int| 0 <= k < GLYPH_DATA_BYTES implies #[trigger] glyph_bytes(pixels)[k] == padded[k] by {
        lemma_byte_position(k);
        let x = k % (SIZE_X as int);
        let page = k / (SIZE_X as int);
        lemma_column_byte_unfolded(pixels, x, page);
        assert forall|i: int| 0 <= i < 8 implies #[trigger] page_pixel(pixels, x, page, i) == bit_set(padded[k], i as u8) by {
            lemma_pixel_of_position(x, page, i);
        }
        assert(page_pixel(pixels, x, page, 0) == bit_set(padded[k], 0));
        assert(page_pixel(pixels, x, page, 1) == bit_set(padded[k], 1));
        assert(page_pixel(pixels, x, page, 2) == bit_set(padded[k], 2));
        assert(page_pixel(pixels, x, page, 3) == bit_set(padded[k], 3));
        assert(page_pixel(pixels, x, page, 4) == bit_set(padded[k], 4));
        assert(page_pixel(pixels, x, page, 5) == bit_set(padded[k], 5));
        assert(page_pixel(pixels, x, page, 6) == bit_set(padded[k], 6));
        assert(page_pixel(pixels, x, page, 7) == bit_set(padded[k], 7));
        lemma_unpack_bits(padded[k]);
    }
    assert(glyph_bytes(pixels) =~= padded);
}

/// What the editor copies it pastes back unchanged: reading the text form
/// of a grid gives the same grid.
pub proof fn lemma_copy_paste_restores_grid(pixels: Seq<bool>)
    requires
        pixels.len() == GRID_PIXELS,
    ensures
        pixels_from_bytes(parse_values(data_text(glyph_bytes(pixels)))) == pixels,
{
    lemma_data_text_reads_back(glyph_bytes(pixels));
    lemma_pixels_bytes_roundtrip(pixels);
}

/// What the editor pastes it copies as the text of the pasted bytes: the
/// first 84 fields of the pasted text, with 0 for those missing.
pub proof fn lemma_paste_copy_gives_pasted_bytes(text: Seq<char>)
    ensures
        data_text(glyph_bytes(pixels_from_bytes(parse_values(text)))) == data_text(
            Seq::new(GLYPH_DATA_BYTES as nat, |k: int| byte_or_zero(parse_values(text), k)),
        ),
{
    lemma_bytes_pixels_roundtrip(parse_values(text));
}

/// Moving a glyph left and then right gives it back.
pub proof fn lemma_shift_left_right(pixels: Seq<bool>)
    requires
        pixels.len() == GRID_PIXELS,
    ensures
        rotated(rotated(pixels, 1, 0), (SIZE_X - 1) as int, 0) == pixels,
        rotated(rotated(pixels, (SIZE_X - 1) as int, 0), 1, 0) == pixels,
{
    assert forall|q: int| 0 <= q < GRID_PIXELS implies #[trigger] rotated(rotated(pixels, 1, 0), (SIZE_X - 1) as int, 0)[q] == pixels[q]
        && rotated(rotated(pixels, (SIZE_X - 1) as int, 0), 1, 0)[q] == pixels[q] by {
        lemma_pixel_position(q);
        let x = q % (SIZE_X as int);
        let y = q / (SIZE_X as int);
        lemma_fundamental_div_mod(q, SIZE_X as int);
        let a = (x + 20) % 21 + (y % 32) * 21;
        lemma_fundamental_div_mod_converse(a, SIZE_X as int, y, (x + 20) % 21);
        let b = (x + 1) % 21 + (y % 32) * 21;
        lemma_fundamental_div_mod_converse(b, SIZE_X as int, y, (x + 1) % 21);
    }
    assert(rotated(rotated(pixels, 1, 0), (SIZE_X - 1) as int, 0) =~= pixels);
    assert(rotated(rotated(pixels, (SIZE_X - 1) as int, 0), 1, 0) =~= pixels);
}

/// Moving a glyph up and then down gives it back.
pub proof fn lemma_shift_up_down(pixels: Seq<bool>)
    requires
        pixels.len() == GRID_PIXELS,
    ensures
        rotated(rotated(pixels, 0, 1), 0, (SIZE_Y - 1) as int) == pixels,
        rotated(rotated(pixels, 0, (SIZE_Y - 1) as int), 0, 1) == pixels,
{
    assert forall|q: int| 0 <= q < GRID_PIXELS implies #[trigger] rotated(rotated(pixels, 0, 1), 0, (SIZE_Y - 1) as int)[q] == pixels[q]
        && rotated(rotated(pixels, 0, (SIZE_Y - 1) as int), 0, 1)[q] == pixels[q] by {
        lemma_pixel_position(q);
        let x = q % (SIZE_X as int);
        let y = q / (SIZE_X as int);
        lemma_fundamental_div_mod(q, SIZE_X as int);
        let a = (x % 21) + ((y + 31) % 32) * 21;
        lemma_fundamental_div_mod_converse(a, SIZE_X as int, (y + 31) % 32, x % 21);
        let b = (x % 21) + ((y + 1) % 32) * 21;
        lemma_fundamental_div_mod_converse(b, SIZE_X as int, (y + 1) % 32, x % 21);
    }
    assert(rotated(rotated(pixels, 0, 1), 0, (SIZE_Y - 1) as int) =~= pixels);
    assert(rotated(rotated(pixels, 0, (SIZE_Y - 1) as int), 0, 1) =~= pixels);
}

/// The pixels of the glyph editor.
pub struct EditorGrid {
    pixels: Vec<bool>,
}

impl View for EditorGrid {
    type V = Seq<bool>;

    closed spec fn view(&self) -> Seq<bool> {
        self.pixels@
    }
}

impl EditorGrid {
    #[verifier::type_invariant]
    spec fn grid_size(&self) -> bool {
        self.pixels@.len() == GRID_PIXELS
    }

    /// An empty grid.
    pub fn new() -> (grid: Self)
        ensures
            grid@ == Seq::new(GRID_PIXELS as nat, |q: int| false),
    {
        let grid = EditorGrid { pixels: vec![false; GRID_PIXELS] };
        assert(grid@ =~= Seq::new(GRID_PIXELS as nat, |q: int| false));
        grid
    }

    /// The smallest size of the grid on screen, in unscaled pixels: the
    /// tiles with a one-pixel gap around each.
    pub fn calc_min_size() -> (size: (usize, usize))
        ensures
            size.0 == SIZE_X * TILE_SIZE + SIZE_X + 1,
            size.1 == SIZE_Y * TILE_SIZE + SIZE_Y + 1,
            size.0 == 190 && size.1 == 289,
    {
        (SIZE_X * TILE_SIZE + SIZE_X + 1, SIZE_Y * TILE_SIZE + SIZE_Y + 1)
    }

    /// The pixel in column `x` of row `y`.
    pub fn pixel(&self, x: usize, y: usize) -> (set: bool)
        requires
            x < SIZE_X,
            y < SIZE_Y,
        ensures
            set == self@[x + y * SIZE_X],
            self@.len() == GRID_PIXELS,
    {
        proof {
            use_type_invariant(self);
        }
        self.pixels[x + y * SIZE_X]
    }

    /// A click on the cell at column `x` of row `y` flips the pixel at
    /// `x + y * SIZE_X`. (A click just beyond the last column lands on the
    /// first pixel of the next row, as the index says.)
    pub fn click(&mut self, x: usize, y: usize)
        requires
            x + y * SIZE_X < GRID_PIXELS,
        ensures
            final(self)@ == old(self)@.update(x + y * SIZE_X, !old(self)@[x + y * SIZE_X]),
            old(self)@.len() == GRID_PIXELS,
    {
        proof {
            use_type_invariant(&*self);
        }
        let index = x + y * SIZE_X;
        let mut pixels = self.pixels.clone();
        assert(pixels@ =~= self.pixels@);
        let flipped = !pixels[index];
        pixels.set(index, flipped);
        self.pixels = pixels;
    }

    /// The display bytes of the glyph, page by page.
    pub fn glyph_data(&self) -> (bytes: Vec<u8>)
        ensures
            bytes@ == glyph_bytes(self@),
            self@.len() == GRID_PIXELS,
            bytes@.len() == 84,
            forall|k: int, i: int|
                0 <= k < 84 && 0 <= i < 8 ==> (#[trigger] bytes@[k] & (1u8 << (i as u8)) != 0)
                    == #[trigger] self@[(k % 21) + ((k / 21) * 8 + i) * 21],
    {
        proof {
            lemma_glyph_bytes_bits(self@);
        }
        proof {
            use_type_invariant(self);
        }
        let mut bytes: Vec<u8> = Vec::new();
        let mut k: usize = 0;
        while k < GLYPH_DATA_BYTES
            invariant
                self@.len() == GRID_PIXELS,
                k <= GLYPH_DATA_BYTES,
                bytes@ == glyph_bytes(self@).take(k as int),
            decreases GLYPH_DATA_BYTES - k,
        {
            let x = k % SIZE_X;
            let y = k / SIZE_X;
            proof {
                lemma_byte_position(k as int);
            }
            let mut value = 0u8;
            let mut i: usize = 0;
            while i < 8
                invariant
                    self@.len() == GRID_PIXELS,
                    x < SIZE_X,
                    y < GRID_PAGES,
                    i <= 8,
                    value == column_prefix(self@, x as int, y as int, i as int),
                decreases 8 - i,
            {
                let bit = 1u8 << (i as u8);
                if self.pixels[x + (y * 8 + i) * SIZE_X] {
                    value |= bit;
                } else {
                    assert(value | 0u8 == value) by (bit_vector);
                }
                i += 1;
            }
            bytes.push(value);
            k += 1;
            assert(bytes@ =~= glyph_bytes(self@).take(k as int));
        }
        assert(glyph_bytes(self@).take(GLYPH_DATA_BYTES as int) =~= glyph_bytes(self@));
        bytes
    }

    /// The text form of the glyph, as the editor copies it to the
    /// clipboard: `[`, the 84 display bytes in decimal separated by
    /// commas, `]`.
    pub fn get_data(&self) -> (text: String)
        ensures
            text@ == data_text(glyph_bytes(self@)),
            self@.len() == GRID_PIXELS,
            parse_values(text@).len() == 84,
            forall|k: int, i: int|
                0 <= k < 84 && 0 <= i < 8 ==> (#[trigger] parse_values(text@)[k] & (1u8 << (i as u8))
                    != 0) == #[trigger] self@[(k % 21) + ((k / 21) * 8 + i) * 21],
    {
        proof {
            lemma_glyph_bytes_bits(self@);
            lemma_data_text_reads_back(glyph_bytes(self@));
        }
        let bytes = self.glyph_data();
        format_values(bytes.as_slice())
    }

    /// Sets every pixel from the glyph bytes `values`; missing bytes count
    /// as 0 and bytes beyond the glyph are ignored.
    pub fn set_bytes(&mut self, values: &[u8])
        ensures
            final(self)@ == pixels_from_bytes(values@),
            final(self)@.len() == 672,
            forall|x: int, row: int|
                0 <= x < 21 && 0 <= row < 32 ==> #[trigger] final(self)@[x + row * 21] == (((if x + (row
                    / 8) * 21 < values@.len() {
                    values@[x + (row / 8) * 21]
                } else {
                    0u8
                }) & (1u8 << ((row % 8) as u8))) != 0),
    {
        proof {
            lemma_pixels_from_bytes_bits(values@);
        }
        let mut pixels: Vec<bool> = Vec::new();
        let mut q: usize = 0;
        while q < GRID_PIXELS
            invariant
                q <= GRID_PIXELS,
                pixels@ == pixels_from_bytes(values@).take(q as int),
            decreases GRID_PIXELS - q,
        {
            let x = q % SIZE_X;
            let row = q / SIZE_X;
            let k = x + (row / 8) * SIZE_X;
            let value = if k < values.len() {
                values[k]
            } else {
                0
            };
            let shift = (row % 8) as u8;
            pixels.push((value & (1u8 << shift)) != 0);
            q += 1;
            assert(pixels@ =~= pixels_from_bytes(values@).take(q as int));
        }
        assert(pixels_from_bytes(values@).take(GRID_PIXELS as int) =~= pixels_from_bytes(values@));
        self.pixels = pixels;
    }

    /// Reads a glyph from its text form, as the editor pastes it from the
    /// clipboard: the text is cut at its commas, each field's digits are
    /// read in decimal (0 where there are none or the value exceeds 255),
    /// and the pixels are set from these bytes.
    pub fn set_data(&mut self, data: &str)
        ensures
            final(self)@ == pixels_from_bytes(parse_values(data@)),
    {
        let values = parse_text_values(data);
        self.set_bytes(values.as_slice());
    }

    /// Moves the grid by `dx` columns and `dy` rows towards the top left,
    /// what leaves on one side coming back on the other.
    fn rotate(&mut self, dx: usize, dy: usize)
        requires
            dx < SIZE_X,
            dy < SIZE_Y,
        ensures
            final(self)@ == rotated(old(self)@, dx as int, dy as int),
    {
        proof {
            use_type_invariant(&*self);
        }
        let mut pixels: Vec<bool> = Vec::new();
        let mut q: usize = 0;
        while q < GRID_PIXELS
            invariant
                self@.len() == GRID_PIXELS,
                dx < SIZE_X,
                dy < SIZE_Y,
                q <= GRID_PIXELS,
                pixels@ == rotated(self@, dx as int, dy as int).take(q as int),
            decreases GRID_PIXELS - q,
        {
            let x = (q % SIZE_X + dx) % SIZE_X;
            let y = (q / SIZE_X + dy) % SIZE_Y;
            pixels.push(self.pixels[x + y * SIZE_X]);
            q += 1;
            assert(pixels@ =~= rotated(self@, dx as int, dy as int).take(q as int));
        }
        assert(rotated(self@, dx as int, dy as int).take(GRID_PIXELS as int) =~= rotated(
            self@,
            dx as int,
            dy as int,
        ));
        self.pixels = pixels;
    }

    /// Moves the glyph one column to the left; the leftmost column comes
    /// back on the right.
    pub fn shift_left(&mut self)
        ensures
            final(self)@ == rotated(old(self)@, 1, 0),
    {
        self.rotate(1, 0);
    }

    /// Moves the glyph one column to the right; the rightmost column comes
    /// back on the left.
    pub fn shift_right(&mut self)
        ensures
            final(self)@ == rotated(old(self)@, (SIZE_X - 1) as int, 0),
    {
        self.rotate(SIZE_X - 1, 0);
    }

    /// Moves the glyph one row up; the top row comes back at the bottom.
    pub fn shift_up(&mut self)
        ensures
            final(self)@ == rotated(old(self)@, 0, 1),
    {
        self.rotate(0, 1);
    }

    /// Moves the glyph one row down; the bottom row comes back at the top.
    pub fn shift_down(&mut self)
        ensures
            final(self)@ == rotated(old(self)@, 0, (SIZE_Y - 1) as int),
    {
        self.rotate(0, SIZE_Y - 1);
    }
}

impl Default for EditorGrid {
    /// An empty grid.
    fn default() -> (grid: Self)
        ensures
            grid@ == Seq::new(GRID_PIXELS as nat, |q: int| false),
    {
        EditorGrid::new()
    }
}

/// Clicking a cell twice gives the grid back.
pub proof fn lemma_click_twice(pixels: Seq<bool>, index: int)
    requires
        0 <= index < pixels.len(),
    ensures
        pixels.update(index, !pixels[index]).update(index, !pixels.update(index, !pixels[index])[index])
            == pixels,
{
    assert(pixels.update(index, !pixels[index]).update(index, !pixels.update(index, !pixels[index])[index])
        =~= pixels);
}

} // verus!
