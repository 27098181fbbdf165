use minefield::MineField;
use std::time::Duration;

#[test]
fn test_a() {
    assert_eq!(true, true);
}

#[test]
fn new_board_is_closed_and_unstarted() {
    let mf = MineField::new(4, 3, 5);
    assert_eq!((mf.w, mf.h, mf.m), (4, 3, 5));
    assert_eq!(mf.s, 0);
    assert_eq!((mf.r, mf.c), (0, 0));
    assert_eq!(mf.f, vec![vec![0u8; 4]; 3]);
    assert!(!mf.is_explosion());
    assert!(!mf.is_success());
    assert!(!mf.is_end());
    for r in 0..3 {
        for c in 0..4 {
            assert!(!mf.is_opened(r, c));
        }
    }
}

#[test]
fn new_board_has_default_timing() {
    let mf = MineField::new(2, 2, 1);
    assert_eq!(mf.b, 80);
    assert_eq!(mf.t, 0);
    assert_eq!(mf.ms, Duration::from_millis(10));
    assert_eq!(mf.ms.as_millis(), 10);
}

#[test]
fn new_board_without_rows_has_no_grid() {
    let mf = MineField::new(3, 0, 0);
    assert!(mf.f.is_empty());
}

#[test]
fn cursor_stops_at_the_edges() {
    let mut mf = MineField::new(3, 2, 1);
    mf.up();
    assert_eq!((mf.r, mf.c), (0, 0));
    mf.left();
    assert_eq!((mf.r, mf.c), (0, 0));
    mf.down();
    assert_eq!((mf.r, mf.c), (1, 0));
    mf.down();
    assert_eq!((mf.r, mf.c), (1, 0));
    mf.right();
    mf.right();
    assert_eq!((mf.r, mf.c), (1, 2));
    mf.right();
    assert_eq!((mf.r, mf.c), (1, 2));
    mf.up();
    mf.left();
    assert_eq!((mf.r, mf.c), (0, 1));
}

#[test]
fn cursor_moves_touch_nothing_else() {
    let mut mf = MineField::new(3, 3, 2);
    mf.down();
    mf.right();
    assert_eq!(mf.s, 0);
    assert_eq!(mf.t, 0);
    assert_eq!(mf.f, vec![vec![0u8; 3]; 3]);
}

#[test]
fn update_m_takes_cells_of_the_grid_only() {
    let mut mf = MineField::new(4, 3, 1);
    assert!(mf.update_m(3, 2));
    assert_eq!((mf.c, mf.r), (3, 2));
    assert!(!mf.update_m(4, 0));
    assert_eq!((mf.c, mf.r), (3, 2));
    assert!(!mf.update_m(0, 3));
    assert_eq!((mf.c, mf.r), (3, 2));
    assert!(!mf.update_m(4, 3));
    assert_eq!((mf.c, mf.r), (3, 2));
    assert!(mf.update_m(0, 0));
    assert_eq!((mf.c, mf.r), (0, 0));
}

#[test]
fn end_flags_sit_above_the_count() {
    let mut mf = MineField::new(2, 2, 1);
    mf.s = 5;
    assert!(!mf.is_end());
    mf.explosion();
    assert_eq!(mf.s, 0x8005);
    assert!(mf.is_explosion());
    assert!(!mf.is_success());
    assert!(mf.is_end());
    mf.explosion();
    assert_eq!(mf.s, 0x8005);

    let mut won = MineField::new(2, 2, 1);
    won.s = 3;
    won.success();
    assert_eq!(won.s, 0x4003);
    assert!(won.is_success());
    assert!(!won.is_explosion());
    assert!(won.is_end());
}

#[test]
fn is_end_is_false_up_to_the_largest_count() {
    let mut mf = MineField::new(2, 2, 1);
    mf.s = 0x3fff;
    assert!(!mf.is_end());
    mf.s = 0x4000;
    assert!(mf.is_end());
}

#[test]
fn cell_value_is_the_low_nibble() {
    assert_eq!(MineField::get_v(0x00), 0);
    assert_eq!(MineField::get_v(0x13), 3);
    assert_eq!(MineField::get_v(0x9f), 15);
    assert_eq!(MineField::get_v(0xf8), 8);
}

#[test]
fn mine_is_the_value_fifteen() {
    assert!(MineField::is_mine(0x0f));
    assert!(!MineField::is_mine(0x08));
    assert!(!MineField::is_mine(0x00));
    // An open mine is a mine by its value, not by its byte.
    assert!(!MineField::is_mine(0x1f));
    assert!(MineField::is_mine(MineField::get_v(0x1f)));
}

#[test]
fn set_m_makes_a_closed_mine() {
    let mut u = 0x93u8;
    MineField::set_m(&mut u);
    assert_eq!(u, 0x0f);
    assert!(!MineField::is_o(u));
    assert!(!MineField::is_e(u));
}

#[test]
fn set_o_opens_and_keeps_the_value() {
    let mut u = 0x03u8;
    MineField::set_o(&mut u, false);
    assert_eq!(u, 0x13);
    assert!(MineField::is_o(u));
    assert!(!MineField::is_e(u));
    MineField::set_o(&mut u, false);
    assert_eq!(u, 0x13);
}

#[test]
fn set_o_at_the_end_marks_closed_cells_only() {
    let mut closed = 0x0fu8;
    MineField::set_o(&mut closed, true);
    assert_eq!(closed, 0x9f);
    assert!(MineField::is_o(closed));
    assert!(MineField::is_e(closed));

    let mut open = 0x12u8;
    MineField::set_o(&mut open, true);
    assert_eq!(open, 0x12);
    assert!(!MineField::is_e(open));
}

#[test]
fn set_e_sets_the_top_bit() {
    let mut u = 0x25u8;
    assert!(!MineField::is_e(u));
    MineField::set_e(&mut u);
    assert_eq!(u, 0xa5);
    assert!(MineField::is_e(u));
    assert!(!MineField::is_o(u));
}

#[test]
fn reserved_mark_bits_are_left_alone() {
    let mut u = 0x62u8;
    MineField::set_o(&mut u, true);
    assert_eq!(u, 0xf2);
    assert_eq!(MineField::get_v(u), 2);
}
