use minesweeper::config::{
    board_height_isize, board_height_usize, board_width_isize, board_width_usize, bombs,
    cell_size_i32, cell_size_plus_separation_i32, cell_size_plus_separation_usize, cell_size_u32,
    cell_size_usize, window_height_u32, window_width_u32, Config, CELL_SEPARATION, CELL_SIZE,
};

#[test]
fn cell_sizes() {
    assert_eq!(CELL_SIZE, 32);
    assert_eq!(CELL_SEPARATION, 4);
    assert_eq!(cell_size_usize(), 32);
    assert_eq!(cell_size_u32(), 32);
    assert_eq!(cell_size_i32(), 32);
    assert_eq!(cell_size_plus_separation_usize(), 36);
    assert_eq!(cell_size_plus_separation_i32(), 36);
}

#[test]
fn board_sizes_come_from_the_configuration() {
    let config = Config { width: 9, height: 7, bombs: 10 };
    assert_eq!(board_width_usize(&config), 9);
    assert_eq!(board_height_usize(&config), 7);
    assert_eq!(board_width_isize(&config), 9);
    assert_eq!(board_height_isize(&config), 7);
    assert_eq!(bombs(&config), 10);
}

#[test]
fn signed_sizes_wrap_round() {
    let config = Config { width: usize::MAX, height: isize::MAX as usize + 1, bombs: 0 };
    assert_eq!(board_width_isize(&config), -1);
    assert_eq!(board_height_isize(&config), isize::MIN);
    let edge = Config { width: isize::MAX as usize, height: 0, bombs: 0 };
    assert_eq!(board_width_isize(&edge), isize::MAX);
    assert_eq!(board_height_isize(&edge), 0);
}

#[test]
fn window_sizes() {
    let config = Config { width: 9, height: 7, bombs: 10 };
    assert_eq!(window_width_u32(&config), 320);
    assert_eq!(window_height_u32(&config), 248);
    let single = Config { width: 1, height: 1, bombs: 0 };
    assert_eq!(window_width_u32(&single), 32);
    assert_eq!(window_height_u32(&single), 32);
}

#[test]
fn window_sizes_keep_the_low_bits() {
    let wide = Config { width: 119_304_648, height: 1, bombs: 0 };
    assert_eq!(window_width_u32(&wide), 28);
    let fits = Config { width: 119_304_647, height: 1, bombs: 0 };
    assert_eq!(window_width_u32(&fits), u32::MAX - 7);
}

#[test]
fn playable_configurations() {
    assert!(Config { width: 9, height: 7, bombs: 10 }.is_playable());
    assert!(Config { width: 1, height: 1, bombs: 1 }.is_playable());
    assert!(Config { width: 3, height: 2, bombs: 6 }.is_playable());
    assert!(!Config { width: 3, height: 2, bombs: 7 }.is_playable());
    assert!(!Config { width: 0, height: 2, bombs: 0 }.is_playable());
    assert!(!Config { width: 2, height: 0, bombs: 0 }.is_playable());
    assert!(!Config { width: usize::MAX, height: 2, bombs: 0 }.is_playable());
}
