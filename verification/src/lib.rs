//! Verified logic of the AJS37 data panel firmware and of its glyph editor:
//! the DCS-BIOS frame receiver, the panel and waypoint display rendering,
//! the stepper motor sequencer, and the editor's pixel grid with its text
//! form for glyphs.
pub mod dcs_bios;
pub mod editor_grid;
pub mod figures;
pub mod glyph_text;
pub mod panel;
pub mod receiver;
pub mod stepper;
