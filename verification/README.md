# data_panel

Verified logic of a DCS World cockpit peripheral for the AJS37: a data panel
with six digits on a 128 x 32 OLED, a waypoint OLED and a dial driven by a
stepper motor, fed over USB serial by DCS-BIOS; and of the desktop editor
used to draw the panel's glyphs.

- `src/dcs_bios.rs`: the receive states and the byte-level tests of the
  DCS-BIOS stream (start of frame, digit characters).
- `src/receiver.rs`: the receive buffer and frame parser, specified as a
  step function over the received bytes, with its termination measure and
  invariant.
- `src/panel.rs`: drawing glyphs, numbers and the waypoint test pattern
  into display buffers.
- `src/stepper.rs`: the stepper motor sequencer, one step at a time.
- `src/editor_grid.rs`, `src/glyph_text.rs`: the editor's pixel grid, its
  display bytes and its clipboard text form, with the proof that copying
  and pasting a glyph gives it back.
- `app/`: the desktop glyph editor (window, mouse, clipboard).
- `tests/`: scenario tests.
