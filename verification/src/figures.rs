//! Geometry of the figures shown on the waypoint panel.
//!
//! The waypoint OLED has 128 x 64 pixels and shows two figures side by side,
//! so each figure is 64 pixels wide and 64 pixels tall, eight vertically
//! stacked pixels to a byte.
use vstd::prelude::*;

verus! {

/// Width of one waypoint figure in pixels.
pub const FIGURE_WIDTH: usize = 64;

/// Height of one waypoint figure in pixels.
pub const FIGURE_HEIGHT: usize = 64;

/// Number of vertically stacked pixels packed into one display byte.
pub const FIGURE_PIXELS_PER_BYTE: usize = 8;

/// Bytes of one waypoint figure: `FIGURE_WIDTH * FIGURE_HEIGHT /
/// FIGURE_PIXELS_PER_BYTE`.
pub const FIGURE_BYTES: usize = 512;

/// The blank waypoint figure, all pixels off.
pub fn none_figure() -> (figure: Vec<u8>)
    ensures
        figure@ == Seq::new(FIGURE_BYTES as nat, |k: int| 0u8),
{
    let figure = vec![0u8; FIGURE_BYTES];
    assert(figure@ =~= Seq::new(FIGURE_BYTES as nat, |k: int| 0u8));
    figure
}

} // verus!
