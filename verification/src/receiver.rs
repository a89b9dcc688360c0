//! The receive side of the serial link: USB packets are collected in a
//! fixed buffer, frames are found in it and parsed, and the writes to the
//! navigation indicator update the six digits of the data panel.
use vstd::prelude::*;

use crate::dcs_bios::{
    check_for_start_of_frame, figure_index_of, frame_sync_at, get_figure_index, start_of_frame,
    start_of_frame_overruns, sync_check_overruns, ReceiveState, AJS37_DCS_BIOS_ADDRESS_END,
    AJS37_DCS_BIOS_ADDRESS_START, AJS37_NAV_INDICATOR_DATA_1, AJS37_NAV_INDICATOR_DATA_2,
    AJS37_NAV_INDICATOR_DATA_3, AJS37_NAV_INDICATOR_DATA_4, AJS37_NAV_INDICATOR_DATA_5,
    AJS37_NAV_INDICATOR_DATA_6, PANEL_DIGITS, USB_SERIAL_INPUT_BUFFER_SIZE,
};

verus! {

/// A little-endian 16-bit word.
pub open spec fn le_u16(low: u8, high: u8) -> u16 {
    (low as int + 256 * (high as int)) as u16
}

/// Position on the panel of the first digit written to `address`, for the
/// six navigation indicator addresses.
pub open spec fn nav_indicator_slot(address: u16) -> Option<int> {
    if address == AJS37_NAV_INDICATOR_DATA_1 {
        Some(0)
    } else if address == AJS37_NAV_INDICATOR_DATA_2 {
        Some(1)
    } else if address == AJS37_NAV_INDICATOR_DATA_3 {
        Some(2)
    } else if address == AJS37_NAV_INDICATOR_DATA_4 {
        Some(3)
    } else if address == AJS37_NAV_INDICATOR_DATA_5 {
        Some(4)
    } else if address == AJS37_NAV_INDICATOR_DATA_6 {
        Some(5)
    } else {
        None
    }
}

/// The panel digits after `count` characters, starting at `read`, were
/// written to the indicator whose first digit is at `slot`: the characters
/// are every second byte, the `i`-th of them lands on digit `slot + i`, and
/// what lies beyond the last digit is dropped. A write of `length` bytes
/// carries `length / 2` characters.
pub open spec fn apply_indicator_write(
    digits: Seq<u8>,
    buffer: Seq<u8>,
    read: int,
    slot: int,
    count: int,
) -> Seq<u8> {
    Seq::new(
        digits.len(),
        |j: int|
            if slot <= j < slot + count {
                figure_index_of(buffer[read + 2 * (j - slot)])
            } else {
                digits[j]
            },
    )
}

/// The parser's position while it walks through the received bytes.
pub struct ParseCursor {
    pub read: int,
    pub state: ReceiveState,
    pub digits: Seq<u8>,
    pub signaled: bool,
}

/// What one step of the parser does.
pub enum ParseStep {
    /// It consumed a field and goes on.
    Advance(ParseCursor),
    /// It needs more bytes and stops.
    Wait(ParseCursor),
    /// Its start-of-frame test runs off the end of the buffer.
    Overrun,
}

/// One step of the parser over the bytes below `write`.
pub open spec fn parse_step(buffer: Seq<u8>, write: int, c: ParseCursor) -> ParseStep {
    match c.state {
        ReceiveState::WaitingForSync => ParseStep::Wait(c),
        ReceiveState::ReceivingAddress => {
            if sync_check_overruns(buffer, c.read, write) {
                ParseStep::Overrun
            } else {
                let read = if start_of_frame(buffer, c.read, write) {
                    c.read + 4
                } else {
                    c.read
                };
                if read + 2 >= write {
                    ParseStep::Wait(ParseCursor { read: read, ..c })
                } else {
                    ParseStep::Advance(
                        ParseCursor {
                            read: read + 2,
                            state: ReceiveState::ReceivingLength(
                                le_u16(buffer[read], buffer[read + 1]),
                            ),
                            ..c
                        },
                    )
                }
            }
        },
        ReceiveState::ReceivingLength(address) => {
            if sync_check_overruns(buffer, c.read, write) {
                ParseStep::Overrun
            } else if c.read + 2 >= write {
                ParseStep::Wait(c)
            } else {
                ParseStep::Advance(
                    ParseCursor {
                        read: c.read + 2,
                        state: ReceiveState::ReceivingData(
                            (address, le_u16(buffer[c.read], buffer[c.read + 1])),
                        ),
                        ..c
                    },
                )
            }
        },
        ReceiveState::ReceivingData((address, length)) => {
            if c.read + length >= write {
                ParseStep::Wait(c)
            } else {
                match nav_indicator_slot(address) {
                    Some(slot) => ParseStep::Advance(
                        ParseCursor {
                            read: c.read + length,
                            state: ReceiveState::ReceivingAddress,
                            digits: apply_indicator_write(c.digits, buffer, c.read, slot, (length / 2) as int),
                            signaled: true,
                        },
                    ),
                    None => ParseStep::Advance(
                        ParseCursor {
                            read: c.read + length,
                            state: ReceiveState::ReceivingAddress,
                            ..c
                        },
                    ),
                }
            }
        },
    }
}

/// Rank of a state in the parser's termination measure.
pub open spec fn state_rank(state: ReceiveState) -> int {
    match state {
        ReceiveState::ReceivingData(_) => 2,
        ReceiveState::ReceivingAddress => 1,
        _ => 0,
    }
}

/// A measure that every `Advance` step decreases.
pub open spec fn parse_measure(write: int, c: ParseCursor) -> nat {
    if c.read <= write {
        (3 * (write - c.read) + state_rank(c.state)) as nat
    } else {
        0
    }
}

/// The parser run until it needs more bytes (`Some`) or overruns (`None`).
pub open spec fn parse_run(buffer: Seq<u8>, write: int, c: ParseCursor) -> Option<ParseCursor>
    decreases parse_measure(write, c),
{
    match parse_step(buffer, write, c) {
        ParseStep::Overrun => None,
        ParseStep::Wait(d) => Some(d),
        ParseStep::Advance(d) => {
            proof {
                lemma_parse_step_decreases(buffer, write, c);
            }
            parse_run(buffer, write, d)
        },
    }
}

/// Every step that consumes a field lowers the parser's measure.
pub proof fn lemma_parse_step_decreases(buffer: Seq<u8>, write: int, c: ParseCursor)
    ensures
        parse_step(buffer, write, c) matches ParseStep::Advance(d) ==> parse_measure(write, d)
            < parse_measure(write, c),
{
}

/// The search for the start of a frame: it looks at each offset below
/// `write - 4` in turn and stops behind the first sync sequence it finds.
/// Gives the new read offset and whether a frame was found.
pub open spec fn sync_search(buffer: Seq<u8>, read: int, write: int) -> (int, bool)
    decreases write - read,
{
    if write > 4 && read < write - 4 {
        if start_of_frame(buffer, read, write) {
            (read + 4, true)
        } else {
            sync_search(buffer, read + 1, write)
        }
    } else {
        (read, false)
    }
}

/// The buffer after the bytes from `read` to `write` were moved to its
/// start; the rest of it keeps what it held.
pub open spec fn compacted(buffer: Seq<u8>, read: int, write: int) -> Seq<u8> {
    Seq::new(buffer.len(), |k: int| if k < write - read { buffer[read + k] } else { buffer[k] })
}

/// What a receiver holds.
pub struct ReceiverView {
    pub buffer: Seq<u8>,
    pub read: int,
    pub write: int,
    pub state: ReceiveState,
    pub digits: Seq<u8>,
}

/// The invariant of a receiver: the buffer has its fixed size, the offsets
/// lie in it in order, and the panel digits are glyph indices.
pub open spec fn receiver_inv(m: ReceiverView) -> bool {
    &&& m.buffer.len() == USB_SERIAL_INPUT_BUFFER_SIZE
    &&& m.digits.len() == PANEL_DIGITS
    &&& 0 <= m.read <= m.write <= USB_SERIAL_INPUT_BUFFER_SIZE
    &&& forall|i: int| 0 <= i < m.digits.len() ==> m.digits[i] <= 10
}

/// The receiver after a packet was stored behind the received bytes.
pub open spec fn accepted(m: ReceiverView, packet: Seq<u8>) -> ReceiverView {
    ReceiverView {
        buffer: m.buffer.take(m.write) + packet + m.buffer.skip(m.write + packet.len()),
        write: m.write + packet.len(),
        ..m
    }
}

/// The receiver after the received bytes were forgotten.
pub open spec fn reset_view(m: ReceiverView) -> ReceiverView {
    ReceiverView { read: 0, write: 0, state: ReceiveState::WaitingForSync, ..m }
}

/// Two receivers that stand at the same place of the same received bytes:
/// they differ at most in buffer bytes at or beyond the write offset.
pub open spec fn receivers_agree(m1: ReceiverView, m2: ReceiverView) -> bool {
    &&& m1.read == m2.read
    &&& m1.write == m2.write
    &&& m1.state == m2.state
    &&& m1.digits == m2.digits
    &&& forall|j: int| 0 <= j < m1.write ==> m1.buffer[j] == m2.buffer[j]
}

/// Where the parser starts: behind the sync sequence that the search found
/// when no frame had been found yet, else where the last poll stopped.
pub open spec fn parse_start(m: ReceiverView) -> ParseCursor {
    if m.state is WaitingForSync {
        let (read, found) = sync_search(m.buffer, m.read, m.write);
        ParseCursor {
            read: read,
            state: if found {
                ReceiveState::ReceivingAddress
            } else {
                ReceiveState::WaitingForSync
            },
            digits: m.digits,
            signaled: false,
        }
    } else {
        ParseCursor { read: m.read, state: m.state, digits: m.digits, signaled: false }
    }
}

/// One poll of the receiver over the bytes received so far: the receiver
/// after it, and whether the panel digits were signalled. `None` where the
/// firmware stops: its start-of-frame test runs off the end of the buffer,
/// or the parser ends beyond the received bytes, so that they cannot be
/// moved to the start of the buffer.
pub open spec fn poll_spec(m: ReceiverView) -> Option<(ReceiverView, bool)> {
    match parse_run(m.buffer, m.write, parse_start(m)) {
        None => None,
        Some(c) => {
            if c.read > m.write {
                None
            } else {
                Some(
                    (
                        ReceiverView {
                            buffer: compacted(m.buffer, c.read, m.write),
                            read: 0,
                            write: m.write - c.read,
                            state: c.state,
                            digits: c.digits,
                        },
                        c.signaled,
                    ),
                )
            }
        },
    }
}

/// The search never moves the read offset back.
proof fn lemma_sync_search_advances(buffer: Seq<u8>, read: int, write: int)
    ensures
        sync_search(buffer, read, write).0 >= read,
    decreases write - read,
{
    if write > 4 && read < write - 4 && !start_of_frame(buffer, read, write) {
        lemma_sync_search_advances(buffer, read + 1, write);
    }
}

/// The parser never moves the read offset back, keeps the number of panel
/// digits, and keeps them glyph indices.
proof fn lemma_parse_run_keeps_digits(buffer: Seq<u8>, write: int, c: ParseCursor)
    requires
        c.digits.len() == PANEL_DIGITS,
        forall|i: int| 0 <= i < c.digits.len() ==> c.digits[i] <= 10,
    ensures
        parse_run(buffer, write, c) matches Some(d) ==> {
            &&& d.read >= c.read
            &&& d.digits.len() == PANEL_DIGITS
            &&& forall|i: int| 0 <= i < d.digits.len() ==> d.digits[i] <= 10
        },
    decreases parse_measure(write, c),
{
    lemma_parse_step_decreases(buffer, write, c);
    if let ParseStep::Advance(d) = parse_step(buffer, write, c) {
        lemma_parse_run_keeps_digits(buffer, write, d);
    }
}

/// A poll that the firmware gets through leaves the receiver well formed,
/// with every parsed byte removed from the buffer: the read offset is back
/// at zero and the panel digits are still glyph indices.
pub proof fn lemma_poll_keeps_receiver_invariant(m: ReceiverView)
    requires
        receiver_inv(m),
        poll_spec(m) is Some,
    ensures
        receiver_inv(poll_spec(m).unwrap().0),
        poll_spec(m).unwrap().0.read == 0,
        poll_spec(m).unwrap().0.buffer.len() == m.buffer.len(),
{
    lemma_sync_search_advances(m.buffer, m.read, m.write);
    lemma_parse_run_keeps_digits(m.buffer, m.write, parse_start(m));
}

/// A write to an address other than the six indicator addresses is
/// skipped: the parser moves on to the next address right behind its data,
/// and the panel digits and the signal stay as they were.
pub proof fn lemma_other_write_keeps_digits(buffer: Seq<u8>, write: int, c: ParseCursor)
    requires
        c.state matches ReceiveState::ReceivingData((address, length)) && nav_indicator_slot(
            address,
        ) is None && c.read + length < write,
    ensures
        parse_step(buffer, write, c) == ParseStep::Advance(
            ParseCursor {
                read: c.read + c.state->ReceivingData_0.1,
                state: ReceiveState::ReceivingAddress,
                digits: c.digits,
                signaled: c.signaled,
            },
        ),
{
}

/// A complete write to the indicator address of digit `k` signals the
/// panel: the `i`-th character of its data lands on digit `k + i`, as its
/// glyph index, for every `i` below half its length with `k + i < 6`; the
/// other digits keep their values. The parser moves on to the next address
/// right behind the data.
pub proof fn lemma_indicator_write_sets_digits(buffer: Seq<u8>, write: int, c: ParseCursor, k: int)
    requires
        c.state matches ReceiveState::ReceivingData((address, length)) && nav_indicator_slot(
            address,
        ) == Some(k) && c.read + length < write,
        c.digits.len() == PANEL_DIGITS,
    ensures
        parse_step(buffer, write, c) matches ParseStep::Advance(d) && {
            let length = c.state->ReceivingData_0.1;
            &&& d.read == c.read + length
            &&& d.state == ReceiveState::ReceivingAddress
            &&& d.signaled
            &&& d.digits.len() == PANEL_DIGITS
            &&& forall|i: int|
                0 <= i < length / 2 && k + i < PANEL_DIGITS ==> #[trigger] d.digits[k + i]
                    == figure_index_of(buffer[c.read + 2 * i])
            &&& forall|j: int|
                0 <= j < PANEL_DIGITS && !(k <= j < k + length / 2) ==> #[trigger] d.digits[j]
                    == c.digits[j]
        },
{
    let length = c.state->ReceivingData_0.1;
    assert forall|i: int| 0 <= i < length / 2 && k + i < PANEL_DIGITS implies #[trigger] apply_indicator_write(
        c.digits,
        buffer,
        c.read,
        k,
        (length / 2) as int,
    )[k + i] == figure_index_of(buffer[c.read + 2 * i]) by {
        assert(c.read + 2 * ((k + i) - k) == c.read + 2 * i);
    }
}

/// The glyph index of an ASCII character, written out: `'0'` to `'9'` give
/// 0 to 9, anything else the blank glyph 10.
pub open spec fn ascii_digit_glyph(c: u8) -> u8 {
    if 48 <= c <= 57 {
        (c - 48) as u8
    } else {
        10u8
    }
}

/// The six indicator addresses `0x46A8`, `0x46AA`, ..., `0x46B2` stand for
/// panel digits 0 to 5 in that order: a complete write of `length` bytes to
/// address `0x46A8 + 2 * j` puts its `i`-th character (every second byte of
/// the data) on panel digit `j + i` as its glyph index, for every `i` below
/// `length / 2` with `j + i < 6`, signals, and keeps every other digit.
pub proof fn lemma_indicator_address_positions(
    buffer: Seq<u8>,
    write: int,
    c: ParseCursor,
    j: int,
    length: u16,
)
    requires
        0 <= j < 6,
        c.state == ReceiveState::ReceivingData(((0x46A8 + 2 * j) as u16, length)),
        c.read + length < write,
        c.digits.len() == 6,
    ensures
        parse_step(buffer, write, c) matches ParseStep::Advance(d) && {
            &&& d.signaled
            &&& d.read == c.read + length
            &&& d.state == ReceiveState::ReceivingAddress
            &&& d.digits.len() == 6
            &&& forall|i: int|
                0 <= i < length / 2 && j + i < 6 ==> #[trigger] d.digits[j + i] == ascii_digit_glyph(
                    buffer[c.read + 2 * i],
                )
            &&& forall|m: int| 0 <= m < 6 && !(j <= m < j + length / 2) ==> #[trigger] d.digits[m] == c.digits[m]
        },
{
    assert(nav_indicator_slot(((0x46A8 + 2 * j) as u16)) == Some(j));
    lemma_indicator_write_sets_digits(buffer, write, c, j);
}

/// A frame with a single one-character write to address `0x46A8 + 2 * j`,
/// followed by one more byte that is no sync byte, sets panel digit `j` to
/// the character's glyph index, keeps the other five digits, signals, and
/// leaves only the last byte in the buffer, waiting for the next address.
pub proof fn lemma_single_digit_frame(m: ReceiverView, j: int, ch: u8)
    requires
        receiver_inv(m),
        m.state == ReceiveState::WaitingForSync,
        m.read == 0,
        m.write == 11,
        0 <= j < 6,
        m.buffer[0] == 0x55 && m.buffer[1] == 0x55 && m.buffer[2] == 0x55 && m.buffer[3] == 0x55,
        m.buffer[4] == 0xA8 + 2 * j,
        m.buffer[5] == 0x46,
        m.buffer[6] == 2 && m.buffer[7] == 0,
        m.buffer[8] == ch,
        m.buffer[10] != 0x55,
    ensures
        poll_spec(m) matches Some((n, signaled)) && {
            &&& signaled
            &&& n.digits[j] == ascii_digit_glyph(ch)
            &&& forall|i: int| 0 <= i < 6 && i != j ==> #[trigger] n.digits[i] == m.digits[i]
            &&& n.state == ReceiveState::ReceivingAddress
            &&& n.read == 0
            &&& n.write == 1
            &&& n.buffer[0] == m.buffer[10]
        },
{
    let b = m.buffer;
    assert(start_of_frame(b, 0, 11));
    assert(sync_search(b, 0, 11) == (4int, true));
    let c0 = parse_start(m);
    assert(c0.read == 4 && c0.state == ReceiveState::ReceivingAddress);
    assert(!start_of_frame(b, 4, 11));
    let address = le_u16(b[4], b[5]);
    assert(address == 0x46A8 + 2 * j);
    let c1 = ParseCursor { read: 6, state: ReceiveState::ReceivingLength(address), ..c0 };
    assert(parse_step(b, 11, c0) == ParseStep::Advance(c1));
    assert(le_u16(b[6], b[7]) == 2);
    let c2 = ParseCursor { read: 8, state: ReceiveState::ReceivingData((address, 2u16)), ..c0 };
    assert(parse_step(b, 11, c1) == ParseStep::Advance(c2));
    lemma_indicator_address_positions(b, 11, c2, j, 2);
    let c3 = match parse_step(b, 11, c2) {
        ParseStep::Advance(d) => d,
        _ => c2,
    };
    assert(c3.read == 10 && c3.state == ReceiveState::ReceivingAddress);
    assert(c3.digits[j + 0] == ascii_digit_glyph(b[8int + 2 * 0]));
    assert(!start_of_frame(b, 10, 11));
    assert(parse_step(b, 11, c3) == ParseStep::Wait(c3));
    assert(parse_run(b, 11, c3) == Some(c3));
    assert(parse_run(b, 11, c2) == Some(c3));
    assert(parse_run(b, 11, c1) == Some(c3));
    assert(parse_run(b, 11, c0) == Some(c3));
}

/// Without a sync sequence among the received bytes no frame is found.
proof fn lemma_sync_search_without_sync(buffer: Seq<u8>, read: int, write: int)
    requires
        read <= write,
        forall|j: int| read <= j && j + 4 <= write ==> !frame_sync_at(buffer, j),
    ensures
        !sync_search(buffer, read, write).1,
        read <= sync_search(buffer, read, write).0 <= write,
    decreases write - read,
{
    if write > 4 && read < write - 4 {
        lemma_sync_search_without_sync(buffer, read + 1, write);
    }
}

/// While the received bytes hold no sync sequence, a poll finds no frame:
/// it answers that nothing was signalled, keeps waiting, and keeps the
/// panel digits.
pub proof fn lemma_no_sync_no_signal(m: ReceiverView)
    requires
        receiver_inv(m),
        m.state == ReceiveState::WaitingForSync,
        forall|j: int| m.read <= j && j + 4 <= m.write ==> !frame_sync_at(m.buffer, j),
    ensures
        poll_spec(m) matches Some((next, signaled)) && {
            &&& !signaled
            &&& next.state == ReceiveState::WaitingForSync
            &&& next.digits == m.digits
            &&& receiver_inv(next)
        },
{
    lemma_sync_search_without_sync(m.buffer, m.read, m.write);
    lemma_poll_keeps_receiver_invariant(m);
}

/// The search for a frame looks only at received bytes.
proof fn lemma_sync_search_received_only(b1: Seq<u8>, b2: Seq<u8>, read: int, write: int)
    requires
        0 <= read,
        write <= b1.len(),
        write <= b2.len(),
        forall|j: int| 0 <= j < write ==> b1[j] == b2[j],
    ensures
        sync_search(b1, read, write) == sync_search(b2, read, write),
    decreases write - read,
{
    if write > 4 && read < write - 4 {
        assert(start_of_frame(b1, read, write) == start_of_frame(b2, read, write));
        lemma_sync_search_received_only(b1, b2, read + 1, write);
    }
}

/// Two parser runs over buffers that agree on the received bytes end
/// alike, where both stop within the received bytes.
proof fn lemma_parse_run_received_only(b1: Seq<u8>, b2: Seq<u8>, write: int, c: ParseCursor)
    requires
        0 <= c.read,
        write <= b1.len(),
        write <= b2.len(),
        forall|j: int| 0 <= j < write ==> b1[j] == b2[j],
        parse_run(b1, write, c) matches Some(d) && d.read <= write,
        parse_run(b2, write, c) matches Some(d) && d.read <= write,
    ensures
        parse_run(b1, write, c) == parse_run(b2, write, c),
    decreases parse_measure(write, c),
{
    lemma_parse_step_decreases(b1, write, c);
    lemma_parse_step_decreases(b2, write, c);
    match c.state {
        ReceiveState::ReceivingAddress => {
            if c.read + 4 <= write {
                assert(start_of_frame(b1, c.read, write) == start_of_frame(b2, c.read, write));
            }
        },
        ReceiveState::ReceivingData((address, length)) => {
            if let Some(slot) = nav_indicator_slot(address) {
                if c.read + length < write {
                    assert(apply_indicator_write(c.digits, b1, c.read, slot, (length / 2) as int)
                        =~= apply_indicator_write(c.digits, b2, c.read, slot, (length / 2) as int));
                }
            }
        },
        _ => {},
    }
    if let ParseStep::Advance(d) = parse_step(b1, write, c) {
        assert(parse_step(b1, write, c) == parse_step(b2, write, c));
        lemma_parse_run_received_only(b1, b2, write, d);
    }
}

/// A poll that the firmware gets through reads only received bytes: two
/// receivers that differ only in the buffer bytes at or beyond the write
/// offset, where both polls get through, signal alike and end alike, up to
/// such bytes again. After `reset` the write offset is zero, so what polls
/// signal afterwards comes from bytes accepted after the reset alone.
pub proof fn lemma_poll_reads_received_bytes_only(m1: ReceiverView, m2: ReceiverView)
    requires
        receiver_inv(m1),
        receiver_inv(m2),
        m1.read == m2.read,
        m1.write == m2.write,
        m1.state == m2.state,
        m1.digits == m2.digits,
        forall|j: int| 0 <= j < m1.write ==> m1.buffer[j] == m2.buffer[j],
        poll_spec(m1) is Some,
        poll_spec(m2) is Some,
    ensures
        ({
            let (n1, s1) = poll_spec(m1).unwrap();
            let (n2, s2) = poll_spec(m2).unwrap();
            &&& s1 == s2
            &&& n1.read == n2.read
            &&& n1.write == n2.write
            &&& n1.state == n2.state
            &&& n1.digits == n2.digits
            &&& forall|j: int| 0 <= j < n1.write ==> n1.buffer[j] == n2.buffer[j]
        }),
{
    lemma_sync_search_received_only(m1.buffer, m2.buffer, m1.read, m1.write);
    lemma_sync_search_advances(m1.buffer, m1.read, m1.write);
    assert(parse_start(m1) == parse_start(m2));
    lemma_parse_run_received_only(m1.buffer, m2.buffer, m1.write, parse_start(m1));
    lemma_parse_run_keeps_digits(m1.buffer, m1.write, parse_start(m1));
    let c = parse_run(m1.buffer, m1.write, parse_start(m1)).unwrap();
    let n1 = poll_spec(m1).unwrap().0;
    let n2 = poll_spec(m2).unwrap().0;
    assert forall|j: int| 0 <= j < n1.write implies n1.buffer[j] == n2.buffer[j] by {
        assert(n1.buffer[j] == m1.buffer[c.read + j]);
        assert(n2.buffer[j] == m2.buffer[c.read + j]);
    }
}

/// Forgetting the received bytes, as after an endpoint error, leaves
/// nothing of them that matters: two receivers with the same panel digits
/// agree after a reset, whatever bytes and parser state each held before.
pub proof fn lemma_reset_forgets_received_bytes(m1: ReceiverView, m2: ReceiverView)
    requires
        m1.digits == m2.digits,
    ensures
        receivers_agree(reset_view(m1), reset_view(m2)),
{
}

/// Receivers that agree still agree after both store the same packet.
pub proof fn lemma_accept_keeps_agreement(m1: ReceiverView, m2: ReceiverView, packet: Seq<u8>)
    requires
        receivers_agree(m1, m2),
        receiver_inv(m1),
        receiver_inv(m2),
        m1.write + packet.len() <= USB_SERIAL_INPUT_BUFFER_SIZE,
    ensures
        receivers_agree(accepted(m1, packet), accepted(m2, packet)),
{
    let a1 = accepted(m1, packet);
    let a2 = accepted(m2, packet);
    assert forall|j: int| 0 <= j < a1.write implies a1.buffer[j] == a2.buffer[j] by {
        if j < m1.write {
            assert(a1.buffer[j] == m1.buffer[j]);
            assert(a2.buffer[j] == m2.buffer[j]);
        } else {
            assert(a1.buffer[j] == packet[j - m1.write]);
            assert(a2.buffer[j] == packet[j - m1.write]);
        }
    }
}

/// Receivers that agree, where both polls get through, signal alike and
/// agree afterwards. With the two lemmas above this gives the law of an
/// endpoint error: after `reset`, every signal comes from records whose
/// sync, address, length and data were all received after the reset; of
/// the bytes before it only the panel digits remain.
pub proof fn lemma_poll_keeps_agreement(m1: ReceiverView, m2: ReceiverView)
    requires
        receivers_agree(m1, m2),
        receiver_inv(m1),
        receiver_inv(m2),
        poll_spec(m1) is Some,
        poll_spec(m2) is Some,
    ensures
        poll_spec(m1).unwrap().1 == poll_spec(m2).unwrap().1,
        receivers_agree(poll_spec(m1).unwrap().0, poll_spec(m2).unwrap().0),
{
    lemma_poll_reads_received_bytes_only(m1, m2);
}

/// The start-of-frame test would have run off the end of the buffer.
#[derive(Clone, Copy, Debug, PartialEq, Eq)]
pub struct ReceiveFault;

/// Reads a little-endian 16-bit word.
fn read_le_u16(low: u8, high: u8) -> (word: u16)
    ensures
        word == le_u16(low, high),
{
    low as u16 + (high as u16) * 256
}

/// Panel position of the first digit written to `address`.
fn indicator_slot(address: u16) -> (slot: Option<usize>)
    ensures
        match nav_indicator_slot(address) {
            Some(s) => slot == Some(s as usize),
            None => slot is None,
        },
{
    if address == AJS37_NAV_INDICATOR_DATA_1 {
        Some(0)
    } else if address == AJS37_NAV_INDICATOR_DATA_2 {
        Some(1)
    } else if address == AJS37_NAV_INDICATOR_DATA_3 {
        Some(2)
    } else if address == AJS37_NAV_INDICATOR_DATA_4 {
        Some(3)
    } else if address == AJS37_NAV_INDICATOR_DATA_5 {
        Some(4)
    } else if address == AJS37_NAV_INDICATOR_DATA_6 {
        Some(5)
    } else {
        None
    }
}

/// The serial receive side of the data panel: the input buffer with its
/// read and write offsets, the parser state, and the six panel digits.
pub struct DcsBiosReceiver {
    input_buffer: Vec<u8>,
    read_offset: usize,
    write_offset: usize,
    receive_state: ReceiveState,
    data: Vec<u8>,
}

impl View for DcsBiosReceiver {
    type V = ReceiverView;

    closed spec fn view(&self) -> ReceiverView {
        ReceiverView {
            buffer: self.input_buffer@,
            read: self.read_offset as int,
            write: self.write_offset as int,
            state: self.receive_state,
            digits: self.data@,
        }
    }
}

impl DcsBiosReceiver {
    #[verifier::type_invariant]
    spec fn well_formed(&self) -> bool {
        receiver_inv(self@)
    }

    /// A receiver with an empty buffer, waiting for a frame, with all
    /// panel digits at glyph 0.
    pub fn new() -> (receiver: Self)
        ensures
            receiver@.buffer == Seq::new(USB_SERIAL_INPUT_BUFFER_SIZE as nat, |k: int| 0u8),
            receiver@.read == 0,
            receiver@.write == 0,
            receiver@.state == ReceiveState::WaitingForSync,
            receiver@.digits == Seq::new(PANEL_DIGITS as nat, |k: int| 0u8),
            receiver_inv(receiver@),
    {
        let receiver = DcsBiosReceiver {
            input_buffer: vec![0u8; USB_SERIAL_INPUT_BUFFER_SIZE],
            read_offset: 0,
            write_offset: 0,
            receive_state: ReceiveState::WaitingForSync,
            data: vec![0u8; PANEL_DIGITS],
        };
        assert(receiver@.buffer =~= Seq::new(USB_SERIAL_INPUT_BUFFER_SIZE as nat, |k: int| 0u8));
        assert(receiver@.digits =~= Seq::new(PANEL_DIGITS as nat, |k: int| 0u8));
        receiver
    }

    /// Room left in the buffer behind the received bytes.
    pub fn free_space(&self) -> (room: usize)
        ensures
            room == USB_SERIAL_INPUT_BUFFER_SIZE - self@.write,
            receiver_inv(self@),
    {
        proof {
            use_type_invariant(self);
        }
        USB_SERIAL_INPUT_BUFFER_SIZE - self.write_offset
    }

    /// The parser state.
    pub fn state(&self) -> (state: ReceiveState)
        ensures
            state == self@.state,
    {
        self.receive_state
    }

    /// Offset of the first byte not yet parsed.
    pub fn read_offset(&self) -> (read: usize)
        ensures
            read == self@.read,
    {
        self.read_offset
    }

    /// Offset behind the last received byte.
    pub fn write_offset(&self) -> (write: usize)
        ensures
            write == self@.write,
    {
        self.write_offset
    }

    /// The glyph indices of the six panel digits.
    pub fn digits(&self) -> (digits: Vec<u8>)
        ensures
            digits@ == self@.digits,
    {
        self.data.clone()
    }

    /// Stores a received USB packet behind the bytes received before.
    pub fn accept(&mut self, packet: &[u8])
        requires
            packet@.len() <= USB_SERIAL_INPUT_BUFFER_SIZE - old(self)@.write,
        ensures
            final(self)@ == accepted(old(self)@, packet@),
            receiver_inv(final(self)@),
    {
        proof {
            use_type_invariant(&*self);
        }
        let ghost old_buffer = self.input_buffer@;
        let start = self.write_offset;
        let mut buffer = self.input_buffer.clone();
        assert(buffer@ =~= old_buffer);
        let mut k: usize = 0;
        while k < packet.len()
            invariant
                start == old(self)@.write,
                start + packet@.len() <= USB_SERIAL_INPUT_BUFFER_SIZE,
                buffer@.len() == old_buffer.len(),
                old_buffer.len() == USB_SERIAL_INPUT_BUFFER_SIZE,
                k <= packet@.len(),
                forall|i: int|
                    0 <= i < old_buffer.len() ==> #[trigger] buffer@[i] == if start <= i < start
                        + k {
                        packet@[i - start]
                    } else {
                        old_buffer[i]
                    },
            decreases packet@.len() - k,
        {
            buffer.set(start + k, packet[k]);
            k = k + 1;
        }
        self.input_buffer = buffer;
        self.write_offset = start + packet.len();
        assert(self.input_buffer@ =~= old_buffer.take(start as int) + packet@ + old_buffer.skip(
            start + packet@.len(),
        ));
    }

    /// Forgets the received bytes and waits for a new frame, as after an
    /// error on the USB endpoint. The panel digits stay.
    pub fn reset(&mut self)
        ensures
            final(self)@ == reset_view(old(self)@),
            receiver_inv(final(self)@),
    {
        proof {
            use_type_invariant(&*self);
        }
        self.receive_state = ReceiveState::WaitingForSync;
        self.read_offset = 0;
        self.write_offset = 0;
    }

    /// Parses what was received so far: looks for the start of a frame if
    /// none was found yet, parses writes until a field is incomplete,
    /// updates the panel digits from the navigation indicator writes, and
    /// moves the unparsed bytes to the start of the buffer. Answers whether
    /// the panel digits were signalled, or a fault where the firmware stops.
    pub fn poll(&mut self) -> (result: Result<bool, ReceiveFault>)
        ensures
            match poll_spec(old(self)@) {
                None => result is Err,
                Some((next, signaled)) => {
                    &&& result == Ok::<bool, ReceiveFault>(signaled)
                    &&& final(self)@ == next
                },
            },
            result is Err ==> final(self)@ == old(self)@,
            receiver_inv(final(self)@),
    {
        proof {
            use_type_invariant(&*self);
        }
        let ghost m = self@;
        let write_offset = self.write_offset;
        let mut read_offset = self.read_offset;
        let mut state = self.receive_state;
        if let ReceiveState::WaitingForSync = state {
            let mut found = false;
            while write_offset > 4 && read_offset < write_offset - 4
                invariant_except_break
                    !found,
                    sync_search(m.buffer, read_offset as int, write_offset as int) == sync_search(
                        m.buffer,
                        m.read,
                        m.write,
                    ),
                invariant
                    self@ == m,
                    write_offset == m.write,
                    receiver_inv(m),
                    read_offset <= write_offset,
                ensures
                    (read_offset as int, found) == sync_search(m.buffer, m.read, m.write),
                    read_offset <= write_offset,
                decreases write_offset - read_offset,
            {
                if check_for_start_of_frame(self.input_buffer.as_slice(), read_offset, write_offset) {
                    found = true;
                    read_offset = read_offset + 4;
                    break;
                }
                read_offset = read_offset + 1;
            }
            if found {
                state = ReceiveState::ReceivingAddress;
            }
        }
        let mut signaled = false;
        let mut digits = self.data.clone();
        assert(digits@ =~= self.data@);
        assert(parse_start(m) == ParseCursor { read: read_offset as int, state, digits: digits@, signaled });
        let ghost target = parse_run(m.buffer, m.write, parse_start(m));
        loop
            invariant_except_break
                read_offset <= write_offset,
                target == parse_run(
                    m.buffer,
                    m.write,
                    ParseCursor { read: read_offset as int, state, digits: digits@, signaled },
                ),
            invariant
                old(self)@ == m,
                target == parse_run(m.buffer, m.write, parse_start(m)),
                self.input_buffer@ == m.buffer,
                self.read_offset == m.read,
                self.write_offset == m.write,
                self.receive_state == m.state,
                self.data@ == m.digits,
                write_offset == m.write,
                receiver_inv(m),
                digits@.len() == PANEL_DIGITS,
                forall|i: int| 0 <= i < digits@.len() ==> digits@[i] <= 10,
                read_offset <= write_offset + 4,
            ensures
                target == Some(
                    ParseCursor { read: read_offset as int, state, digits: digits@, signaled },
                ),
            decreases parse_measure(
                write_offset as int,
                ParseCursor { read: read_offset as int, state, digits: digits@, signaled },
            ),
        {
            let ghost cur = ParseCursor { read: read_offset as int, state, digits: digits@, signaled };
            proof {
                lemma_parse_step_decreases(m.buffer, m.write, cur);
            }
            match state {
                ReceiveState::ReceivingAddress => {
                    if start_of_frame_overruns(self.input_buffer.as_slice(), read_offset, write_offset) {
                        assert(parse_run(m.buffer, m.write, cur) is None);
                        assert(target is None);
                        assert(poll_spec(m) is None);
                        return Err(ReceiveFault);
                    }
                    if check_for_start_of_frame(self.input_buffer.as_slice(), read_offset, write_offset) {
                        read_offset = read_offset + 4;
                    }
                    if read_offset + 2 >= write_offset {
                        break;
                    }
                    let address = read_le_u16(self.input_buffer[read_offset], self.input_buffer[read_offset + 1]);
                    state = ReceiveState::ReceivingLength(address);
                    read_offset = read_offset + 2;
                },
                ReceiveState::ReceivingLength(address) => {
                    if start_of_frame_overruns(self.input_buffer.as_slice(), read_offset, write_offset) {
                        assert(parse_run(m.buffer, m.write, cur) is None);
                        assert(target is None);
                        assert(poll_spec(m) is None);
                        return Err(ReceiveFault);
                    }
                    if read_offset + 2 >= write_offset {
                        break;
                    }
                    let length = read_le_u16(self.input_buffer[read_offset], self.input_buffer[read_offset + 1]);
                    state = ReceiveState::ReceivingData((address, length));
                    read_offset = read_offset + 2;
                },
                ReceiveState::ReceivingData((address, length)) => {
                    if read_offset + length as usize >= write_offset {
                        break;
                    }
                    if AJS37_DCS_BIOS_ADDRESS_START <= address && address < AJS37_DCS_BIOS_ADDRESS_END {
                        if let Some(offset) = indicator_slot(address) {
                            let ghost before = digits@;
                            let half = length / 2;
                            let mut i: u16 = 0;
                            while i < half
                                invariant
                                    self.input_buffer@ == m.buffer,
                                    self.read_offset == m.read,
                                    self.write_offset == m.write,
                                    self.receive_state == m.state,
                                    read_offset + length < write_offset,
                                    write_offset <= USB_SERIAL_INPUT_BUFFER_SIZE,
                                    m.buffer.len() == USB_SERIAL_INPUT_BUFFER_SIZE,
                                    offset < PANEL_DIGITS,
                                    half == length / 2,
                                    i <= half,
                                    before.len() == PANEL_DIGITS,
                                    digits@ == apply_indicator_write(
                                        before,
                                        m.buffer,
                                        read_offset as int,
                                        offset as int,
                                        i as int,
                                    ),
                                decreases half - i,
                            {
                                let j = offset + i as usize;
                                if j < digits.len() {
                                    let glyph = get_figure_index(&self.input_buffer[read_offset + (i as usize) * 2]);
                                    digits.set(j, glyph);
                                }
                                i = i + 1;
                                assert(digits@ =~= apply_indicator_write(
                                    before,
                                    m.buffer,
                                    read_offset as int,
                                    offset as int,
                                    i as int,
                                ));
                            }
                            signaled = true;
                        }
                    }
                    state = ReceiveState::ReceivingAddress;
                    read_offset = read_offset + length as usize;
                },
                ReceiveState::WaitingForSync => {
                    break;
                },
            }
        }
        if read_offset > write_offset {
            assert(poll_spec(m) is None);
            return Err(ReceiveFault);
        }
        let mut buffer = self.input_buffer.clone();
        assert(buffer@ =~= m.buffer);
        let count = write_offset - read_offset;
        if read_offset > 0 {
            let mut k: usize = 0;
            while k < count
                invariant
                    count == write_offset - read_offset,
                    read_offset <= write_offset,
                    write_offset == m.write,
                    receiver_inv(m),
                    k <= count,
                    buffer@.len() == m.buffer.len(),
                    forall|i: int|
                        0 <= i < m.buffer.len() ==> #[trigger] buffer@[i] == if i < k {
                            m.buffer[read_offset + i]
                        } else {
                            m.buffer[i]
                        },
                decreases count - k,
            {
                let byte = buffer[read_offset + k];
                buffer.set(k, byte);
                k = k + 1;
            }
        }
        assert(buffer@ =~= compacted(m.buffer, read_offset as int, m.write));
        self.read_offset = 0;
        self.write_offset = count;
        self.input_buffer = buffer;
        self.data = digits;
        self.receive_state = state;
        assert(poll_spec(m) == Some((self@, signaled)));
        Ok(signaled)
    }
}

} // verus!
