use data_panel::editor_grid::EditorGrid;

fn zeros_text() -> String {
    let mut text = String::from("[");
    for k in 0..84 {
        if k > 0 {
            text.push(',');
        }
        text.push('0');
    }
    text.push(']');
    text
}

#[test]
fn empty_grid_copies_as_zeros() {
    let grid = EditorGrid::new();
    assert_eq!(grid.get_data(), zeros_text());
    let grid = EditorGrid::default();
    assert_eq!(grid.get_data(), zeros_text());
}

#[test]
fn min_size_counts_tiles_and_gaps() {
    assert_eq!(EditorGrid::calc_min_size(), (190, 289));
}

#[test]
fn click_flips_pixels_into_column_bytes() {
    let mut grid = EditorGrid::new();
    grid.click(0, 0);
    assert!(grid.pixel(0, 0));
    assert!(grid.get_data().starts_with("[1,0,"));
    grid.click(0, 1);
    assert!(grid.get_data().starts_with("[3,0,"));
    grid.click(20, 7);
    grid.click(1, 8);
    let text = grid.get_data();
    let fields: Vec<&str> = text.trim_matches(|c| c == '[' || c == ']').split(',').collect();
    assert_eq!(fields.len(), 84);
    assert_eq!(fields[0], "3");
    assert_eq!(fields[20], "128");
    assert_eq!(fields[22], "1");
    grid.click(0, 0);
    assert!(!grid.pixel(0, 0));
    assert!(grid.get_data().starts_with("[2,0,"));
}

#[test]
fn click_past_last_column_wraps_to_next_row() {
    let mut grid = EditorGrid::new();
    grid.click(21, 0);
    assert!(grid.pixel(0, 1));
}

#[test]
fn copy_then_paste_restores_grid() {
    let mut grid = EditorGrid::new();
    for (x, y) in [(0, 0), (5, 3), (20, 31), (7, 16), (13, 9)] {
        grid.click(x, y);
    }
    let text = grid.get_data();
    let mut other = EditorGrid::new();
    other.set_data(&text);
    for y in 0..32 {
        for x in 0..21 {
            assert_eq!(other.pixel(x, y), grid.pixel(x, y));
        }
    }
    assert_eq!(other.get_data(), text);
}

#[test]
fn paste_reads_digits_of_each_field() {
    let mut grid = EditorGrid::new();
    grid.set_data("[255, 1 ,a7b,300,,-4]");
    let text = grid.get_data();
    assert!(text.starts_with("[255,1,7,0,0,4,0,"));
    for y in 0..8 {
        assert!(grid.pixel(0, y));
    }
    assert!(grid.pixel(1, 0));
    assert!(!grid.pixel(1, 1));
}

#[test]
fn paste_of_garbage_clears_grid() {
    let mut grid = EditorGrid::new();
    grid.click(3, 3);
    grid.set_data("no glyph here");
    assert_eq!(grid.get_data(), zeros_text());
}

#[test]
fn paste_keeps_first_bytes_of_long_text() {
    let mut text = String::from("[");
    for k in 0..90 {
        if k > 0 {
            text.push(',');
        }
        text.push_str(&(k % 256).to_string());
    }
    text.push(']');
    let mut grid = EditorGrid::new();
    grid.set_data(&text);
    let copied = grid.get_data();
    let fields: Vec<&str> = copied.trim_matches(|c| c == '[' || c == ']').split(',').collect();
    assert_eq!(fields.len(), 84);
    for k in 0..84 {
        assert_eq!(fields[k], k.to_string());
    }
}

#[test]
fn shifts_rotate_the_glyph() {
    let mut grid = EditorGrid::new();
    grid.click(0, 0);
    grid.shift_left();
    assert!(grid.pixel(20, 0));
    assert!(!grid.pixel(0, 0));
    grid.shift_right();
    assert!(grid.pixel(0, 0));
    grid.shift_up();
    assert!(grid.pixel(0, 31));
    grid.shift_down();
    assert!(grid.pixel(0, 0));
    grid.shift_down();
    assert!(grid.pixel(0, 1));
    grid.shift_right();
    assert!(grid.pixel(1, 1));
}
