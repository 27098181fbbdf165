use minefield::MineField;

/// The order of the `n` cells that starts with `first` and goes on with the
/// other cells by their number.
fn order(n: u16, first: &[u16]) -> Vec<u16> {
    let mut p: Vec<u16> = first.to_vec();
    for k in 0..n {
        if !first.contains(&k) {
            p.push(k);
        }
    }
    p
}

fn opened(mf: &MineField) -> Vec<(u16, u16)> {
    let mut at = Vec::new();
    for r in 0..mf.h {
        for c in 0..mf.w {
            if mf.is_opened(r, c) {
                at.push((r, c));
            }
        }
    }
    at
}

fn count(mf: &MineField) -> u16 {
    mf.s & 0x3fff
}

#[test]
fn first_reveal_in_the_corner_opens_all_but_the_mine() {
    let mut mf = MineField::new(3, 3, 1);
    assert!(mf.click_with(&order(9, &[8])));
    assert_eq!(
        mf.f,
        vec![
            vec![0x10, 0x10, 0x10],
            vec![0x10, 0x11, 0x11],
            vec![0x10, 0x11, 0x0f]
        ]
    );
    assert_eq!(count(&mf), 8);
    assert!(mf.is_success());
    assert!(!mf.is_explosion());
    assert_eq!(mf.s, 0x4008);
}

#[test]
fn reveal_floods_up_to_the_numbers_and_no_further() {
    // A wall of mines down the middle column.
    let mut mf = MineField::new(5, 5, 5);
    assert!(mf.click_with(&order(25, &[2, 7, 12, 17, 22])));
    let mut left = Vec::new();
    for r in 0..5 {
        left.push((r, 0));
        left.push((r, 1));
    }
    assert_eq!(opened(&mf), left);
    assert_eq!(count(&mf), 10);
    assert!(!mf.is_end());
    assert_eq!(mf.f[0], vec![0x10, 0x12, 0x0f, 2, 0]);
    assert_eq!(mf.f[2], vec![0x10, 0x13, 0x0f, 3, 0]);
}

#[test]
fn reveal_of_a_numbered_cell_opens_that_cell_only() {
    let mut mf = MineField::new(5, 5, 5);
    assert!(mf.update_m(1, 2));
    assert!(mf.click_with(&order(25, &[2, 7, 12, 17, 22])));
    assert_eq!(opened(&mf), vec![(2, 1)]);
    assert_eq!(mf.s, 1);
}

#[test]
fn game_is_won_by_the_reveal_that_opens_the_last_cell() {
    // One row: two free cells, a number, the mine, a number, two free cells.
    let mut mf = MineField::new(7, 1, 1);
    assert!(mf.click_with(&order(7, &[3])));
    assert_eq!(mf.f, vec![vec![0x10, 0x10, 0x11, 0x0f, 1, 0, 0]]);
    assert_eq!(mf.s, 3);
    assert!(!mf.is_success());
    assert!(mf.update_m(6, 0));
    assert!(mf.click());
    assert_eq!(mf.f, vec![vec![0x10, 0x10, 0x11, 0x0f, 0x11, 0x10, 0x10]]);
    assert_eq!(mf.s, 0x4006);
    assert!(mf.is_success());
}

#[test]
fn reveal_of_an_open_cell_changes_nothing() {
    let mut mf = MineField::new(7, 1, 1);
    assert!(mf.click_with(&order(7, &[3])));
    let before = mf.f.clone();
    assert!(mf.update_m(1, 0));
    assert!(mf.click());
    assert_eq!(mf.f, before);
    assert_eq!(mf.s, 3);
}

#[test]
fn reveal_of_a_mine_loses_the_game() {
    let mut mf = MineField::new(7, 1, 1);
    assert!(mf.click_with(&order(7, &[3])));
    let before = mf.f.clone();
    assert!(mf.update_m(3, 0));
    assert!(!mf.click());
    assert!(mf.is_explosion());
    assert!(!mf.is_success());
    assert_eq!(mf.s, 0x8003);
    // The mine stays closed.
    assert_eq!(mf.f, before);
}

#[test]
fn nothing_is_revealed_after_a_loss() {
    let mut mf = MineField::new(7, 1, 1);
    assert!(mf.click_with(&order(7, &[3])));
    assert!(mf.update_m(3, 0));
    assert!(!mf.click());
    let before = mf.f.clone();
    // A closed cell without a mine stays closed, and the loss is not
    // reported again.
    assert!(mf.update_m(6, 0));
    assert!(mf.click());
    assert_eq!(mf.f, before);
    assert_eq!(mf.s, 0x8003);
    // Nor on the mine itself.
    assert!(mf.update_m(3, 0));
    assert!(mf.click());
    assert_eq!(mf.s, 0x8003);
    assert!(mf.click_with(&order(7, &[0])));
    assert_eq!(mf.f, before);
}

#[test]
fn nothing_is_revealed_after_a_win() {
    let mut mf = MineField::new(3, 3, 1);
    assert!(mf.click_with(&order(9, &[8])));
    let before = mf.f.clone();
    assert!(mf.update_m(2, 2));
    assert!(mf.click());
    assert_eq!(mf.f, before);
    assert_eq!(mf.s, 0x4008);
    assert!(!mf.is_explosion());
}

#[test]
fn board_full_of_mines_is_lost_at_the_first_reveal() {
    let mut mf = MineField::new(3, 2, 6);
    assert!(!mf.click_with(&order(6, &[])));
    assert_eq!(mf.f, vec![vec![0x0f; 3]; 2]);
    assert_eq!(mf.s, 0x8000);
    assert!(mf.is_explosion());
    assert!(!mf.is_success());
}

#[test]
fn board_with_one_free_cell_is_won_at_the_first_reveal() {
    let mut mf = MineField::new(3, 3, 8);
    assert!(mf.update_m(1, 1));
    assert!(mf.click());
    assert_eq!(mf.f[1][1], 0x18);
    assert_eq!(mf.s, 0x4001);
}

#[test]
fn board_without_mines_is_won_at_the_first_reveal() {
    let mut mf = MineField::new(4, 3, 0);
    assert!(mf.click());
    assert_eq!(mf.f, vec![vec![0x10u8; 4]; 3]);
    assert_eq!(mf.s, 0x4000 + 12);
}

#[test]
fn mines_are_placed_once() {
    let mut mf = MineField::new(7, 1, 1);
    assert!(mf.click_with(&order(7, &[3])));
    assert!(mf.update_m(6, 0));
    // Another order does not move the mine.
    assert!(mf.click_with(&order(7, &[5])));
    assert_eq!(mf.f, vec![vec![0x10, 0x10, 0x11, 0x0f, 0x11, 0x10, 0x10]]);
}

#[test]
fn first_click_is_safe_whatever_the_shuffle() {
    for round in 0..100u16 {
        let mut mf = MineField::new(8, 6, 20);
        assert!(mf.update_m(round % 8, round % 6));
        assert!(mf.click());
        assert!(!mf.is_explosion());
        assert!(mf.is_opened(mf.r, mf.c));
        let mut mines = 0;
        let mut open = 0;
        for r in 0..6u16 {
            for c in 0..8u16 {
                let u = mf.f[r as usize][c as usize];
                if MineField::get_v(u) == 15 {
                    mines += 1;
                    assert!(!mf.is_opened(r, c));
                } else if mf.is_opened(r, c) {
                    open += 1;
                }
            }
        }
        assert_eq!(mines, 20);
        assert_eq!(count(&mf), open);
        assert_eq!(mf.is_success(), open + 20 == 48);
    }
}

#[test]
fn open_reveals_a_cell_by_its_position() {
    let mut mf = MineField::new(5, 5, 5);
    mf.start_with(&order(25, &[2, 7, 12, 17, 22]));
    assert!(mf.open(4, 4));
    let mut right = Vec::new();
    for r in 0..5 {
        right.push((r, 3));
        right.push((r, 4));
    }
    assert_eq!(opened(&mf), right);
    assert_eq!(mf.s, 10);
    // The cursor has not moved and the game goes on.
    assert_eq!((mf.r, mf.c), (0, 0));
    assert!(!mf.is_end());
}

#[test]
fn open_on_a_mine_reports_it_and_opens_nothing() {
    let mut mf = MineField::new(5, 5, 5);
    mf.start_with(&order(25, &[2, 7, 12, 17, 22]));
    let before = mf.f.clone();
    assert!(!mf.open(2, 2));
    assert_eq!(mf.f, before);
    assert_eq!(mf.s, 0);
    assert!(!mf.is_explosion());
}

#[test]
fn open_on_an_open_cell_counts_nothing() {
    let mut mf = MineField::new(5, 5, 5);
    mf.start_with(&order(25, &[2, 7, 12, 17, 22]));
    assert!(mf.open(0, 1));
    assert_eq!(mf.s, 1);
    assert!(mf.open(0, 1));
    assert_eq!(mf.s, 1);
    assert_eq!(opened(&mf), vec![(0, 1)]);
}

#[test]
fn flood_passes_through_a_gap_in_the_diagonal() {
    // Two mines in opposite corners: every other cell is reached.
    let mut mf = MineField::new(4, 4, 2);
    assert!(mf.update_m(1, 0));
    assert!(mf.click_with(&order(16, &[3, 12])));
    assert_eq!(count(&mf), 14);
    assert!(mf.is_success());
    assert_eq!(mf.f[0], vec![0x10, 0x10, 0x11, 0x0f]);
    assert_eq!(mf.f[3], vec![0x0f, 0x11, 0x10, 0x10]);
}
