use minefield::{MineField, WR};

/// A renderer that keeps what it is given and fails at a chosen write.
struct Sink {
    cells: Vec<(u16, u16, u16, u16, u16, String)>,
    fail_at: Option<usize>,
}

impl Sink {
    fn new() -> Sink {
        Sink { cells: Vec::new(), fail_at: None }
    }

    fn text(&self) -> String {
        self.cells.iter().map(|d| d.5.clone()).collect()
    }
}

impl WR<u8> for Sink {
    type Error = String;

    fn wr(&mut self, x: u16, y: u16, st: u16, bgc: u16, fgc: u16, msg: &String) -> Result<(), String> {
        if self.fail_at == Some(self.cells.len()) {
            return Err(format!("write {} failed", self.cells.len()));
        }
        self.cells.push((x, y, st, bgc, fgc, msg.clone()));
        Ok(())
    }

    fn reg(&mut self, _c: Vec<u8>) {}

    fn col(&self, n: u16) -> u8 {
        n as u8
    }
}

fn order(n: u16, first: &[u16]) -> Vec<u16> {
    let mut p: Vec<u16> = first.to_vec();
    for k in 0..n {
        if !first.contains(&k) {
            p.push(k);
        }
    }
    p
}

#[test]
fn refresh_draws_rows_from_the_top() {
    let mf = MineField::new(3, 2, 1);
    let mut g = Sink::new();
    assert!(mf.refresh(&mut g).is_ok());
    let at: Vec<(u16, u16)> = g.cells.iter().map(|d| (d.0, d.1)).collect();
    assert_eq!(at, vec![(0, 0), (1, 0), (2, 0), (0, 1), (1, 1), (2, 1)]);
    // The cursor blinks over the first cell; the others are closed.
    assert_eq!(g.cells[0], (0, 0, 3, 0, 1, String::from("+")));
    assert_eq!(g.cells[1], (1, 0, 3, 0, 1, String::from("L")));
    assert_eq!(g.text(), "+LLLLL");
}

#[test]
fn refresh_leaves_the_board_alone() {
    let mut mf = MineField::new(7, 1, 1);
    assert!(mf.click_with(&order(7, &[3])));
    let before = (mf.s, mf.f.clone(), mf.r, mf.c, mf.t);
    let mut g = Sink::new();
    assert!(mf.refresh(&mut g).is_ok());
    assert_eq!((mf.s, mf.f.clone(), mf.r, mf.c, mf.t), before);
}

#[test]
fn refresh_stops_at_the_first_failure() {
    let mf = MineField::new(3, 2, 1);
    let mut g = Sink::new();
    g.fail_at = Some(4);
    assert_eq!(mf.refresh(&mut g), Err(String::from("write 4 failed")));
    assert_eq!(g.cells.len(), 4);
}

#[test]
fn refresh_adds_to_what_was_drawn() {
    let mf = MineField::new(2, 1, 0);
    let mut g = Sink::new();
    assert!(mf.refresh(&mut g).is_ok());
    assert!(mf.refresh(&mut g).is_ok());
    assert_eq!(g.text(), "+L+L");
}

#[test]
fn open_cells_show_their_value() {
    let mut mf = MineField::new(7, 1, 1);
    assert!(mf.click_with(&order(7, &[3])));
    mf.t = 40;
    let mut g = Sink::new();
    assert!(mf.refresh(&mut g).is_ok());
    assert_eq!(g.text(), "__1LLLL");
    assert_eq!(g.cells[0], (0, 0, 3, 2, 3, String::from("_")));
    assert_eq!(g.cells[2], (2, 0, 3, 2, 3, String::from("1")));
    assert_eq!(g.cells[3], (3, 0, 3, 0, 1, String::from("L")));
}

#[test]
fn c_maps_every_value_of_an_open_cell() {
    let mut mf = MineField::new(2, 1, 0);
    mf.f[0][1] = 0x10;
    let glyphs = "_12345678......@";
    for v in 0..16u8 {
        let (s, bgc, fgc) = mf.c(0, 1, 0x10 | v);
        assert_eq!(s, glyphs[v as usize..v as usize + 1]);
        assert_eq!((bgc, fgc), (2, 3));
    }
}

#[test]
fn c_shows_closed_cells_alike() {
    let mf = MineField::new(2, 1, 0);
    assert_eq!(mf.c(0, 1, 0x00), (String::from("L"), 0, 1));
    assert_eq!(mf.c(0, 1, 0x0f), (String::from("L"), 0, 1));
    assert_eq!(mf.c(0, 1, 0x05), (String::from("L"), 0, 1));
}

#[test]
fn c_picks_the_colors_from_the_byte() {
    let mut mf = MineField::new(2, 1, 0);
    mf.f[0][1] = 0x90;
    assert_eq!(mf.c(0, 1, 0x93), (String::from("3"), 4, 5));
    assert_eq!(mf.c(0, 1, 0x13), (String::from("3"), 2, 3));
    assert_eq!(mf.c(0, 1, 0x03), (String::from("3"), 0, 1));
    // The end-of-game mark goes before the opened flag.
    assert_eq!(mf.c(0, 1, 0x80), (String::from("_"), 4, 5));
}

#[test]
fn cursor_glyph_shows_in_the_first_half_period() {
    let mut mf = MineField::new(2, 1, 0);
    mf.f[0][0] = 0x12;
    assert_eq!(mf.c(0, 0, 0x12).0, "+");
    mf.t = 39;
    assert_eq!(mf.c(0, 0, 0x12).0, "+");
    mf.t = 40;
    assert_eq!(mf.c(0, 0, 0x12).0, "2");
    mf.t = 79;
    assert_eq!(mf.c(0, 0, 0x12).0, "2");
}

#[test]
fn cursor_is_hidden_once_the_game_is_won() {
    let mut mf = MineField::new(3, 3, 1);
    assert!(mf.click_with(&order(9, &[8])));
    assert!(mf.is_blink());
    assert_eq!(mf.c(0, 0, mf.f[0][0]).0, "_");
}

#[test]
fn mine_that_went_off_shows_under_the_cursor() {
    let mut mf = MineField::new(7, 1, 1);
    assert!(mf.click_with(&order(7, &[3])));
    assert!(mf.update_m(3, 0));
    assert!(!mf.click());
    assert_eq!(mf.c(0, 3, mf.f[0][3]), (String::from("*"), 0, 1));
    mf.t = 40;
    assert_eq!(mf.c(0, 3, mf.f[0][3]).0, "*");
    // Elsewhere the cursor still blinks after a loss.
    assert!(mf.update_m(0, 0));
    assert_eq!(mf.c(0, 0, mf.f[0][0]).0, "_");
    mf.t = 0;
    assert_eq!(mf.c(0, 0, mf.f[0][0]).0, "+");
    assert_eq!(mf.c(0, 3, mf.f[0][3]).0, "L");
}

#[test]
fn is_blink_follows_the_tick_counter() {
    let mut mf = MineField::new(2, 2, 1);
    let mut g = Sink::new();
    for n in 0..200u32 {
        let t = (n % 80) as u16;
        assert_eq!(mf.t, t);
        assert_eq!(mf.is_blink(), t < 40);
        assert!(mf.tick(&mut g).is_ok());
    }
}

#[test]
fn tick_wraps_at_the_blink_period() {
    let mut mf = MineField::new(2, 2, 1);
    let mut g = Sink::new();
    for _ in 0..79 {
        assert!(mf.tick(&mut g).is_ok());
    }
    assert_eq!(mf.t, 79);
    assert!(mf.tick(&mut g).is_ok());
    assert_eq!(mf.t, 0);
}

#[test]
fn tick_draws_twice_in_a_period() {
    let mut mf = MineField::new(2, 2, 1);
    let mut g = Sink::new();
    for n in 1..=80usize {
        assert!(mf.tick(&mut g).is_ok());
        let frames = if n < 40 {
            0
        } else if n < 80 {
            1
        } else {
            2
        };
        assert_eq!(g.cells.len(), 4 * frames);
    }
    // The first frame shows the cell under the cursor, the second the cursor.
    assert_eq!(g.text(), "LLLL+LLL");
}

#[test]
fn tick_counts_even_when_the_drawing_fails() {
    let mut mf = MineField::new(2, 2, 1);
    mf.t = 39;
    let mut g = Sink::new();
    g.fail_at = Some(0);
    assert_eq!(mf.tick(&mut g), Err(String::from("write 0 failed")));
    assert_eq!(mf.t, 40);
    mf.t = 79;
    assert!(mf.tick(&mut g).is_err());
    assert_eq!(mf.t, 0);
}

#[test]
fn tick_with_a_period_of_one_draws_every_time() {
    let mut mf = MineField::new(1, 1, 0);
    mf.b = 1;
    let mut g = Sink::new();
    assert!(mf.tick(&mut g).is_ok());
    assert_eq!(mf.t, 0);
    assert!(mf.tick(&mut g).is_ok());
    assert_eq!(g.cells.len(), 2);
}

#[test]
fn reset_tick_starts_the_period_again() {
    let mut mf = MineField::new(2, 1, 0);
    mf.t = 57;
    let mut g = Sink::new();
    assert!(mf.reset_tick(&mut g).is_ok());
    assert_eq!(mf.t, 0);
    assert_eq!(g.text(), "+L");
    g.fail_at = Some(2);
    mf.t = 12;
    assert!(mf.reset_tick(&mut g).is_err());
    assert_eq!(mf.t, 0);
}

#[test]
fn ending_opens_every_cell_and_marks_the_closed_ones() {
    let mut mf = MineField::new(7, 1, 1);
    assert!(mf.click_with(&order(7, &[3])));
    mf.t = 40;
    let mut g = Sink::new();
    assert!(mf.ending(&mut g).is_ok());
    assert_eq!(mf.f, vec![vec![0x10, 0x10, 0x11, 0x9f, 0x91, 0x90, 0x90]]);
    assert_eq!(mf.s, 3);
    assert_eq!(g.text(), "__1@1__");
    let pairs: Vec<(u16, u16)> = g.cells.iter().map(|d| (d.3, d.4)).collect();
    assert_eq!(pairs, vec![(2, 3), (2, 3), (2, 3), (4, 5), (4, 5), (4, 5), (4, 5)]);
}

#[test]
fn ending_after_a_loss_shows_the_mine_that_went_off() {
    let mut mf = MineField::new(7, 1, 1);
    assert!(mf.click_with(&order(7, &[3])));
    assert!(mf.update_m(3, 0));
    assert!(!mf.click());
    let mut g = Sink::new();
    assert!(mf.ending(&mut g).is_ok());
    assert_eq!(g.text(), "__1*1__");
    assert_eq!(mf.s, 0x8003);
    // Every cell is open now, so a reveal does nothing.
    assert!(mf.click());
    assert_eq!(mf.s, 0x8003);
}

#[test]
fn ending_opens_the_cells_even_when_the_drawing_fails() {
    let mut mf = MineField::new(2, 1, 0);
    let mut g = Sink::new();
    g.fail_at = Some(1);
    assert_eq!(mf.ending(&mut g), Err(String::from("write 1 failed")));
    assert_eq!(mf.f, vec![vec![0x90, 0x90]]);
}

#[test]
fn renderer_keeps_its_other_duties() {
    let mut g = Sink::new();
    g.reg(vec![1, 2, 3]);
    assert_eq!(g.col(7), 7);
}
