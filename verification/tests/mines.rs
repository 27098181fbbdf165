use minefield::MineField;

/// The order of the `n` cells that starts with `first` and goes on with the
/// other cells by their number.
fn order(n: u16, first: &[u16]) -> Vec<u16> {
    let mut p: Vec<u16> = first.to_vec();
    for k in 0..n {
        if !first.contains(&k) {
            p.push(k);
        }
    }
    p
}

fn mines(mf: &MineField) -> Vec<(usize, usize)> {
    let mut at = Vec::new();
    for (r, row) in mf.f.iter().enumerate() {
        for (c, u) in row.iter().enumerate() {
            if MineField::get_v(*u) == 15 {
                at.push((r, c));
            }
        }
    }
    at
}

/// The number of mines around a cell, counted the slow way.
fn around(mf: &MineField, r: usize, c: usize) -> u8 {
    let mut n = 0;
    for j in 0..mf.f.len() {
        for i in 0..mf.f[j].len() {
            let near = j + 1 >= r && j <= r + 1 && i + 1 >= c && i <= c + 1;
            if near && (j, i) != (r, c) && MineField::get_v(mf.f[j][i]) == 15 {
                n += 1;
            }
        }
    }
    n
}

#[test]
fn deal_holds_every_cell_once() {
    let p = MineField::deal(200);
    assert_eq!(p.len(), 200);
    let mut sorted = p.clone();
    sorted.sort();
    let all: Vec<u16> = (0..200).collect();
    assert_eq!(sorted, all);
}

#[test]
fn deal_is_shuffled() {
    let all: Vec<u16> = (0..1000).collect();
    let p = MineField::deal(1000);
    let q = MineField::deal(1000);
    assert_ne!(p, all);
    assert_ne!(p, q);
}

#[test]
fn deal_of_nothing_is_empty() {
    assert!(MineField::deal(0).is_empty());
}

#[test]
fn start_with_puts_the_mine_where_the_order_says() {
    let mut mf = MineField::new(3, 3, 1);
    mf.start_with(&order(9, &[8]));
    assert_eq!(
        mf.f,
        vec![vec![0, 0, 0], vec![0, 1, 1], vec![0, 1, 0x0f]]
    );
    assert_eq!(mf.s, 0);
}

#[test]
fn start_with_passes_over_the_cursor() {
    let mut mf = MineField::new(3, 3, 2);
    assert!(mf.update_m(1, 1));
    // The cursor's cell is the second of the order: the third takes its mine.
    mf.start_with(&order(9, &[0, 4, 2]));
    assert_eq!(mines(&mf), vec![(0, 0), (0, 2)]);
    assert_eq!(
        mf.f,
        vec![vec![0x0f, 2, 0x0f], vec![1, 2, 1], vec![0, 0, 0]]
    );
}

#[test]
fn start_with_takes_the_first_cells_when_the_cursor_comes_later() {
    let mut mf = MineField::new(3, 2, 2);
    mf.start_with(&order(6, &[5, 3, 0]));
    assert_eq!(mines(&mf), vec![(1, 0), (1, 2)]);
    assert_eq!(mf.f, vec![vec![1, 2, 1], vec![0x0f, 2, 0x0f]]);
}

#[test]
fn start_with_fills_all_when_mines_equal_cells() {
    let mut mf = MineField::new(3, 2, 6);
    mf.start_with(&order(6, &[4, 0]));
    assert_eq!(mf.f, vec![vec![0x0f; 3]; 2]);
}

#[test]
fn start_with_all_but_one_leaves_the_cursor_free() {
    let mut mf = MineField::new(3, 3, 8);
    assert!(mf.update_m(2, 1));
    mf.start_with(&order(9, &[5]));
    assert_eq!(mines(&mf).len(), 8);
    assert_eq!(mf.f[1][2], 5);
}

#[test]
fn start_with_counts_up_to_eight() {
    let mut mf = MineField::new(3, 3, 8);
    assert!(mf.update_m(1, 1));
    mf.start_with(&order(9, &[]));
    assert_eq!(mf.f[1][1], 8);
}

#[test]
fn start_places_the_mines_away_from_the_cursor() {
    for round in 0..50u16 {
        let mut mf = MineField::new(6, 5, 12);
        assert!(mf.update_m(round % 6, round % 5));
        mf.start();
        assert_eq!(mines(&mf).len(), 12);
        assert_ne!(MineField::get_v(mf.f[mf.r as usize][mf.c as usize]), 15);
        for r in 0..5 {
            for c in 0..6 {
                let u = mf.f[r][c];
                assert!(!MineField::is_o(u));
                if MineField::get_v(u) != 15 {
                    assert_eq!(u, around(&mf, r, c));
                }
            }
        }
    }
}

#[test]
fn start_with_as_many_mines_as_cells_mines_the_cursor_too() {
    let mut mf = MineField::new(4, 4, 16);
    mf.start();
    assert_eq!(mf.f, vec![vec![0x0f; 4]; 4]);
}

#[test]
fn start_without_mines_leaves_the_grid_blank() {
    let mut mf = MineField::new(4, 2, 0);
    mf.start();
    assert_eq!(mf.f, vec![vec![0u8; 4]; 2]);
}

#[test]
fn get_k_counts_the_neighbours_within_the_grid() {
    let m = 0x0fu8;
    let f = vec![vec![m, 0, m], vec![0, 0, 0], vec![m, m, m]];
    assert_eq!(MineField::get_k(3, 3, &f, 1, 1), 5);
    assert_eq!(MineField::get_k(3, 3, &f, 0, 1), 2);
    assert_eq!(MineField::get_k(3, 3, &f, 1, 0), 3);
    assert_eq!(MineField::get_k(3, 3, &f, 1, 2), 3);
    // A mine does not count itself.
    assert_eq!(MineField::get_k(3, 3, &f, 0, 0), 0);
    assert_eq!(MineField::get_k(3, 3, &f, 2, 1), 2);
    assert_eq!(MineField::get_k(3, 3, &f, 2, 2), 1);
}

#[test]
fn get_k_on_a_single_cell_is_zero() {
    let f = vec![vec![0x0fu8]];
    assert_eq!(MineField::get_k(1, 1, &f, 0, 0), 0);
}

#[test]
fn get_k_does_not_wrap_around_the_edges() {
    let m = 0x0fu8;
    let f = vec![vec![0, 0, 0, m], vec![0, 0, 0, m]];
    assert_eq!(MineField::get_k(4, 2, &f, 0, 0), 0);
    assert_eq!(MineField::get_k(4, 2, &f, 1, 0), 0);
    assert_eq!(MineField::get_k(4, 2, &f, 0, 2), 2);
}

#[test]
fn get_k_counts_open_mines_by_their_value() {
    let f = vec![vec![0x9fu8, 0x00], vec![0x13, 0x02]];
    assert_eq!(MineField::get_k(2, 2, &f, 1, 1), 1);
    assert_eq!(MineField::get_k(2, 2, &f, 0, 0), 0);
}
