use data_panel::panel::{
    draw_figure, draw_panel, draw_value, draw_waypoint_pattern, value_glyphs,
};
use data_panel::stepper::{Stepper, ACC_STEP, MIN_DELAY, START_DELAY, STEPS};

fn figure_of(seed: u8) -> Vec<u8> {
    (0..84).map(|i| seed.wrapping_mul(100).wrapping_add(i as u8)).collect()
}

fn glyph_table() -> Vec<Vec<u8>> {
    (0..11).map(|k| vec![k as u8 + 1; 84]).collect()
}

#[test]
fn draw_figure_places_four_pages() {
    let mut buffer = [0u8; 512];
    let figure = figure_of(0);
    draw_figure(&mut buffer, 2, &figure);
    let offset = 2 * 21 + 1;
    for i in 0..21 {
        assert_eq!(buffer[offset + i], figure[i]);
        assert_eq!(buffer[offset + i + 128], figure[i + 21]);
        assert_eq!(buffer[offset + i + 256], figure[i + 42]);
        assert_eq!(buffer[offset + i + 384], figure[i + 63]);
    }
    assert_eq!(buffer[offset - 1], 0);
    assert_eq!(buffer[offset + 21], 0);
    assert_eq!(buffer.iter().filter(|b| **b != 0).count(), 83);
}

#[test]
fn last_glyph_fits_the_panel_buffer() {
    let mut buffer = [0u8; 512];
    draw_figure(&mut buffer, 5, &vec![9u8; 84]);
    assert_eq!(buffer[106], 9);
    assert_eq!(buffer[510], 9);
    assert_eq!(buffer[511], 0);
}

#[test]
fn value_glyphs_blank_leading_zeros() {
    assert_eq!(value_glyphs(1234), vec![10, 10, 1, 2, 3, 4]);
    assert_eq!(value_glyphs(0), vec![10, 10, 10, 10, 10, 0]);
    assert_eq!(value_glyphs(1234567), vec![2, 3, 4, 5, 6, 7]);
    assert_eq!(value_glyphs(100200), vec![1, 0, 0, 2, 0, 0]);
    assert_eq!(value_glyphs(1000000), vec![10, 10, 10, 10, 10, 0]);
    assert_eq!(value_glyphs(u32::MAX), vec![9, 6, 7, 2, 9, 5]);
}

#[test]
fn draw_value_draws_each_glyph() {
    let table = glyph_table();
    let mut buffer = [0u8; 512];
    draw_value(&mut buffer, 42, &table);
    for (i, glyph) in [10usize, 10, 10, 10, 4, 2].iter().enumerate() {
        let offset = i * 21 + 1;
        assert_eq!(buffer[offset], *glyph as u8 + 1);
        assert_eq!(buffer[offset + 20 + 384], *glyph as u8 + 1);
    }
    assert_eq!(buffer[0], 0);
}

#[test]
fn draw_panel_shows_digits() {
    let table = glyph_table();
    let mut buffer = [0u8; 512];
    draw_panel(&mut buffer, &[8, 8, 8, 8, 8, 8], &table);
    for i in 0..6 {
        assert_eq!(buffer[i * 21 + 1 + 128], 9);
    }
    draw_panel(&mut buffer, &[0, 1, 2, 3, 4, 10], &table);
    assert_eq!(buffer[1], 1);
    assert_eq!(buffer[22], 2);
    assert_eq!(buffer[106], 11);
}

#[test]
fn waypoint_pattern_counts_up() {
    let mut buffer = [0u8; 1024];
    let next = draw_waypoint_pattern(&mut buffer, 0);
    assert_eq!(next, 1024);
    assert_eq!(buffer[0], 0);
    assert_eq!(buffer[1], 2);
    assert_eq!(buffer[100], 200);
    assert_eq!(buffer[255], 255);
    assert_eq!(buffer[300], ((300 + 300 % 255) % 256) as u8);
    let next = draw_waypoint_pattern(&mut buffer, next);
    assert_eq!(next, 2048);
    assert_eq!(buffer[0], ((1024 % 255) % 256) as u8);
}

#[test]
fn stepper_starts_counter_clockwise() {
    let mut stepper = Stepper::new();
    assert_eq!(stepper.delay, START_DELAY);
    assert_eq!(stepper.step(false), 3);
    assert_eq!(stepper.delay, START_DELAY);
    assert_eq!(stepper.step(false), 2);
    assert_eq!(stepper.delay, START_DELAY - ACC_STEP);
    assert_eq!(stepper.count, 2);
}

#[test]
fn reference_switch_starts_clockwise_sweep() {
    let mut stepper = Stepper::new();
    stepper.step(false);
    stepper.step(false);
    assert_eq!(stepper.step(true), 3);
    assert!(stepper.direction);
    assert_eq!(stepper.count, 1);
    assert_eq!(stepper.delay, START_DELAY);
    assert_eq!(stepper.step(false), 0);
    assert_eq!(stepper.step(false), 1);
}

#[test]
fn sweep_accelerates_brakes_and_turns() {
    let mut stepper = Stepper::new();
    stepper.step(true);
    let mut min_seen = START_DELAY;
    for _ in 1..STEPS {
        stepper.step(false);
        assert!(stepper.delay >= MIN_DELAY && stepper.delay <= START_DELAY);
        min_seen = min_seen.min(stepper.delay);
    }
    assert_eq!(min_seen, MIN_DELAY);
    assert_eq!(stepper.count, STEPS);
    assert!(stepper.direction);
    stepper.step(false);
    assert_eq!(stepper.count, 0);
    assert!(!stepper.direction);
    assert_eq!(stepper.delay, START_DELAY);
}

#[test]
fn figures_at_different_positions_commute() {
    let first = figure_of(1);
    let second = figure_of(2);
    let mut a = [7u8; 512];
    let mut b = [7u8; 512];
    draw_figure(&mut a, 1, &first);
    draw_figure(&mut a, 4, &second);
    draw_figure(&mut b, 4, &second);
    draw_figure(&mut b, 1, &first);
    assert_eq!(a, b);
}

#[test]
fn coils_step_to_neighbours() {
    let mut stepper = Stepper::new();
    let mut coil = stepper.coil;
    for n in 0..5000 {
        let trigger = n % 1777 == 0;
        let clockwise = trigger || stepper.direction;
        let next = stepper.step(trigger);
        if clockwise {
            assert_eq!(next, (coil + 1) % 4);
        } else {
            assert_eq!(next, (coil + 3) % 4);
        }
        assert!(stepper.delay >= MIN_DELAY && stepper.delay <= START_DELAY);
        coil = next;
    }
}

#[test]
fn draw_value_fits_a_511_byte_buffer() {
    let table = glyph_table();
    let mut buffer = vec![0u8; 511];
    draw_value(&mut buffer, 987654, &table);
    assert_eq!(buffer[1], 10);
    assert_eq!(buffer[510], 5);
    assert_eq!(buffer[0], 0);
    assert_eq!(buffer[127], 0);
}

#[test]
fn blank_waypoint_figure_is_all_zero() {
    let figure = data_panel::figures::none_figure();
    assert_eq!(figure.len(), 512);
    assert!(figure.iter().all(|b| *b == 0));
}

#[test]
fn switch_sweep_then_reverses() {
    let mut stepper = Stepper::new();
    stepper.step(false);
    let mut coil = stepper.coil;
    let first = stepper.step(true);
    assert_eq!(first, (coil + 1) % 4);
    assert_eq!(stepper.delay, START_DELAY);
    coil = first;
    for _ in 0..STEPS {
        let next = stepper.step(false);
        assert_eq!(next, (coil + 1) % 4);
        coil = next;
    }
    assert!(!stepper.direction);
    let next = stepper.step(false);
    assert_eq!(next, (coil + 3) % 4);
}

#[test]
fn delay_stays_whole_speed_steps() {
    let mut stepper = Stepper::new();
    let mut previous = stepper.delay;
    for n in 0..6000 {
        stepper.step(n % 2311 == 5);
        assert_eq!((START_DELAY - stepper.delay) % ACC_STEP, 0);
        assert!(stepper.delay == START_DELAY || stepper.delay.abs_diff(previous) <= ACC_STEP);
        previous = stepper.delay;
    }
}

#[test]
fn drawing_a_figure_twice_equals_once() {
    let figure = figure_of(3);
    let mut once = [5u8; 512];
    let mut twice = [5u8; 512];
    draw_figure(&mut once, 3, &figure);
    draw_figure(&mut twice, 3, &figure);
    draw_figure(&mut twice, 3, &figure);
    assert_eq!(once, twice);
}
