//! The DCS-BIOS export stream as the data panel reads it.
//!
//! DCS-BIOS sends frames that open with four `0x55` bytes and hold a series
//! of writes, each a little-endian address, a little-endian length and that
//! many data bytes. The panel keeps the writes to the six navigation
//! indicator addresses of the AJS37 and turns their ASCII digits into glyph
//! indices.
use vstd::prelude::*;

verus! {

/// Size of the buffer that USB packets are read into.
pub const USB_SERIAL_INPUT_BUFFER_SIZE: usize = 256;

/// First DCS-BIOS address of the AJS37 module.
pub const AJS37_DCS_BIOS_ADDRESS_START: u16 = 0x4600;

/// End (exclusive) of the DCS-BIOS address range of the AJS37 module.
pub const AJS37_DCS_BIOS_ADDRESS_END: u16 = 0x4800;

/// Addresses of the six navigation indicator digits.
pub const AJS37_NAV_INDICATOR_DATA_1: u16 = 0x46A8;
pub const AJS37_NAV_INDICATOR_DATA_2: u16 = 0x46AA;
pub const AJS37_NAV_INDICATOR_DATA_3: u16 = 0x46AC;
pub const AJS37_NAV_INDICATOR_DATA_4: u16 = 0x46AE;
pub const AJS37_NAV_INDICATOR_DATA_5: u16 = 0x46B0;
pub const AJS37_NAV_INDICATOR_DATA_6: u16 = 0x46B2;

/// Number of digits that the data panel shows.
pub const PANEL_DIGITS: usize = 6;

/// Where the receiver stands in the DCS-BIOS export stream.
#[derive(Clone, Copy, Debug, PartialEq, Eq)]
pub enum ReceiveState {
    /// Looking for the four `0x55` bytes that open a frame.
    WaitingForSync,
    /// Expecting the little-endian address of the next write.
    ReceivingAddress,
    /// Expecting the length of the write to the given address.
    ReceivingLength(u16),
    /// Expecting the given number of data bytes for the given address.
    ReceivingData((u16, u16)),
}

/// Index of the panel glyph for an ASCII character: the digits `'0'`..`'9'`
/// map to glyphs 0 to 9, anything else to glyph 10, the blank one.
pub open spec fn figure_index_of(value: u8) -> u8 {
    if 0x30 <= value <= 0x39 {
        (value - 0x30) as u8
    } else {
        10
    }
}

/// Maps an ASCII character sent by DCS-BIOS to the index of its panel glyph.
pub fn get_figure_index(value: &u8) -> (index: u8)
    ensures
        index == figure_index_of(*value),
        index <= 10,
        0x30 <= *value <= 0x39 ==> index == *value - 0x30,
        !(0x30 <= *value <= 0x39) ==> index == 10,
{
    match *value {
        0x30 => 0,
        0x31 => 1,
        0x32 => 2,
        0x33 => 3,
        0x34 => 4,
        0x35 => 5,
        0x36 => 6,
        0x37 => 7,
        0x38 => 8,
        0x39 => 9,
        _ => 10,
    }
}

/// The four bytes at `read` are all `0x55`.
pub open spec fn frame_sync_at(buffer: Seq<u8>, read: int) -> bool {
    &&& 0 <= read
    &&& read + 4 <= buffer.len()
    &&& buffer[read] == 0x55
    &&& buffer[read + 1] == 0x55
    &&& buffer[read + 2] == 0x55
    &&& buffer[read + 3] == 0x55
}

/// What the start-of-frame test answers: `read` lies below `write + 4`
/// and a sync sequence stands at `read`. The test looks at the buffer, not
/// only at the bytes below `write`.
pub open spec fn start_of_frame(buffer: Seq<u8>, read: int, write: int) -> bool {
    read < write + 4 && frame_sync_at(buffer, read)
}

/// The start-of-frame test runs off the end of the buffer: it gets past the
/// offset test, and every byte from `read` to the end of the buffer is
/// `0x55` while fewer than four remain. The firmware stops there with an
/// index out of bounds.
pub open spec fn sync_check_overruns(buffer: Seq<u8>, read: int, write: int) -> bool {
    &&& read < write + 4
    &&& read + 4 > buffer.len()
    &&& forall|j: int| read <= j < buffer.len() ==> buffer[j] == 0x55
}

/// Tests whether a frame starts at `read_offset`.
pub fn check_for_start_of_frame(input_buffer: &[u8], read_offset: usize, write_offset: usize) -> (found: bool)
    requires
        write_offset + 4 <= usize::MAX,
        !sync_check_overruns(input_buffer@, read_offset as int, write_offset as int),
    ensures
        found == start_of_frame(input_buffer@, read_offset as int, write_offset as int),
        found <==> {
            &&& read_offset < write_offset + 4
            &&& read_offset + 4 <= input_buffer@.len()
            &&& input_buffer@[read_offset as int] == 0x55
            &&& input_buffer@[read_offset + 1] == 0x55
            &&& input_buffer@[read_offset + 2] == 0x55
            &&& input_buffer@[read_offset + 3] == 0x55
        },
{
    if read_offset < write_offset + 4 && input_buffer[read_offset] == 0x55 && input_buffer[
        read_offset + 1] == 0x55 && input_buffer[read_offset + 2] == 0x55 && input_buffer[
        read_offset + 3] == 0x55 {
        return true;
    }
    false
}

/// Tells whether the start-of-frame test would run off the end of the buffer.
pub fn start_of_frame_overruns(input_buffer: &[u8], read_offset: usize, write_offset: usize) -> (overruns: bool)
    ensures
        overruns == sync_check_overruns(input_buffer@, read_offset as int, write_offset as int),
{
    if write_offset < read_offset && read_offset - write_offset >= 4 {
        return false;
    }
    if read_offset <= input_buffer.len() && input_buffer.len() - read_offset >= 4 {
        return false;
    }
    let mut j = read_offset;
    while j < input_buffer.len()
        invariant
            read_offset <= j,
            forall|k: int| read_offset <= k < j ==> input_buffer@[k] == 0x55,
        decreases input_buffer.len() - j,
    {
        if input_buffer[j] != 0x55 {
            return false;
        }
        j = j + 1;
    }
    true
}

} // verus!
