use minesweeper::config::Config;
use minesweeper::game::{Cell, CellState, CellType, Game, GameError, VictoryState};

/// One draw per cell: 0 (a mine whenever the target is positive) at the given positions,
/// `n` (never a mine) elsewhere.
fn draws_with_mines(width: i8, height: i8, mines: &[(i8, i8)]) -> Vec<usize> {
    let n = width as usize * height as usize;
    let mut d = vec![n; n];
    for &(x, y) in mines {
        d[x as usize + y as usize * width as usize] = 0;
    }
    d
}

fn board(width: i8, height: i8, percent: i8, mines: &[(i8, i8)]) -> Game {
    Game::with_draws(width, height, percent, &draws_with_mines(width, height, mines)).unwrap()
}

fn cell(g: &Game, x: i8, y: i8) -> Cell {
    *g.get_cell(x, y)
}

fn states(g: &Game) -> Vec<CellState> {
    let mut v = Vec::new();
    for y in 0..g.height() {
        for x in 0..g.width() {
            v.push(cell(g, x, y).state);
        }
    }
    v
}

fn mines_present(g: &Game) -> usize {
    let mut c = 0;
    for y in 0..g.height() {
        for x in 0..g.width() {
            if cell(g, x, y).cell_type == CellType::Mine {
                c += 1;
            }
        }
    }
    c
}

#[test]
fn config_defaults() {
    let c = Config::new();
    assert_eq!((c.width, c.height, c.mine_percent, c.debugOn), (8, 8, 5, false));
}

#[test]
fn new_rejects_non_positive_sizes() {
    assert!(matches!(Game::new(0, 8, 5), Err(GameError::InvalidDimensions)));
    assert!(matches!(Game::new(8, -1, 5), Err(GameError::InvalidDimensions)));
    assert!(matches!(Game::with_draws(-3, 4, 5, &vec![]), Err(GameError::InvalidDimensions)));
}

#[test]
fn new_starts_hidden_at_centre() {
    let g = Game::new(8, 6, 20).unwrap();
    assert_eq!(g.cursor(), (4, 3));
    assert_eq!(g.correct_flag_count(), 0);
    assert!(states(&g).iter().all(|s| *s == CellState::Hidden));
    assert_eq!(g.mine_count(), mines_present(&g));
}

#[test]
fn full_density_mines_every_cell() {
    let g = Game::new(4, 4, 100).unwrap();
    assert_eq!(g.mine_count(), 16);
    assert_eq!(mines_present(&g), 16);
}

#[test]
fn mines_follow_the_draws() {
    // 4 x 4 at 50 percent: the target is 8, so draws below 8 lay a mine.
    let mut d = vec![8usize; 16];
    d[0] = 7;
    d[5] = 0;
    d[15] = 3;
    let g = Game::with_draws(4, 4, 50, &d).unwrap();
    assert_eq!(g.mine_count(), 3);
    assert_eq!(cell(&g, 0, 0).cell_type, CellType::Mine);
    assert_eq!(cell(&g, 1, 1).cell_type, CellType::Mine);
    assert_eq!(cell(&g, 3, 3).cell_type, CellType::Mine);
    assert_eq!(cell(&g, 1, 0).cell_type, CellType::Count(2));
}

#[test]
fn reset_clears_flags_and_hides_every_cell() {
    let mut g = board(5, 5, 40, &[(0, 0), (4, 4)]);
    g.flag(0, 0);
    g.flag(1, 3);
    g.click(2, 2);
    assert_eq!(g.correct_flag_count(), 1);
    g.reset_with_draws(&draws_with_mines(5, 5, &[(2, 2), (3, 1), (0, 4)]));
    assert_eq!(g.correct_flag_count(), 0);
    assert!(states(&g).iter().all(|s| *s == CellState::Hidden));
    assert_eq!(g.mine_count(), 3);
    assert_eq!(mines_present(&g), 3);
    assert_eq!(cell(&g, 0, 0).cell_type, CellType::Count(0));
}

#[test]
fn restart_recentres_and_hides() {
    let mut g = Game::new(6, 6, 10).unwrap();
    g.move_cursor(1, 1);
    g.flag(0, 0);
    g.restart();
    assert_eq!(g.cursor(), (3, 3));
    assert_eq!(g.correct_flag_count(), 0);
    assert!(states(&g).iter().all(|s| *s == CellState::Hidden));
    assert_eq!(g.mine_count(), mines_present(&g));
}

#[test]
fn counts_match_neighbouring_mines() {
    let g = board(4, 3, 50, &[(0, 0), (1, 0), (3, 2)]);
    let expected = [
        [None, None, Some(1), Some(0)],
        [Some(2), Some(2), Some(2), Some(1)],
        [Some(0), Some(0), Some(1), None],
    ];
    for y in 0..3 {
        for x in 0..4 {
            let t = cell(&g, x, y).cell_type;
            match expected[y as usize][x as usize] {
                None => assert_eq!(t, CellType::Mine),
                Some(n) => assert_eq!(t, CellType::Count(n)),
            }
        }
    }
}

#[test]
fn counts_in_a_corner_of_eight_mines() {
    let g = board(3, 3, 100, &[(0, 0), (1, 0), (2, 0), (0, 1), (2, 1), (0, 2), (1, 2), (2, 2)]);
    assert_eq!(cell(&g, 1, 1).cell_type, CellType::Count(8));
}

#[test]
fn reveal_twice_is_reveal_once() {
    let mut g = board(6, 6, 10, &[(2, 2), (5, 0)]);
    g.reveal_from(0, 5);
    let once = states(&g);
    g.reveal_from(0, 5);
    assert_eq!(states(&g), once);
}

#[test]
fn flood_never_reveals_a_mine() {
    let mut g = board(7, 7, 10, &[(3, 3), (6, 6), (0, 6)]);
    g.reveal_from(0, 0);
    for y in 0..7 {
        for x in 0..7 {
            let c = cell(&g, x, y);
            if c.cell_type == CellType::Mine {
                assert_eq!(c.state, CellState::Hidden);
            }
        }
    }
}

#[test]
fn flood_stops_at_numbers() {
    let mut g = board(5, 1, 50, &[(4, 0)]);
    g.reveal_from(0, 0);
    let s = states(&g);
    assert_eq!(&s[..4], &[CellState::Revealed; 4]);
    assert_eq!(s[4], CellState::Hidden);
    assert_eq!(cell(&g, 3, 0).cell_type, CellType::Count(1));
}

#[test]
fn reveal_of_a_number_opens_only_that_cell() {
    let mut g = board(4, 4, 10, &[(0, 0)]);
    g.reveal_from(1, 1);
    let s = states(&g);
    assert_eq!(s.iter().filter(|c| **c == CellState::Revealed).count(), 1);
    assert_eq!(cell(&g, 1, 1).state, CellState::Revealed);
}

#[test]
fn flag_twice_restores_the_cell() {
    let mut g = board(4, 4, 20, &[(1, 1), (2, 3)]);
    let before = g.correct_flag_count();
    g.flag(1, 1);
    assert_eq!(cell(&g, 1, 1).state, CellState::Flagged);
    assert_eq!(g.correct_flag_count(), before + 1);
    g.flag(1, 1);
    assert_eq!(cell(&g, 1, 1).state, CellState::Hidden);
    assert_eq!(g.correct_flag_count(), before);
    g.flag(0, 0);
    g.flag(0, 0);
    assert_eq!(cell(&g, 0, 0).state, CellState::Hidden);
    assert_eq!(g.correct_flag_count(), before);
}

#[test]
fn flag_leaves_a_revealed_cell_alone() {
    let mut g = board(4, 4, 20, &[(3, 3)]);
    g.click(2, 2);
    assert_eq!(cell(&g, 2, 2).state, CellState::Revealed);
    assert_eq!(g.flag(2, 2), VictoryState::Continue);
    assert_eq!(cell(&g, 2, 2).state, CellState::Revealed);
}

#[test]
fn move_cursor_wraps_around() {
    let mut g = Game::new(8, 8, 5).unwrap();
    assert_eq!(g.move_cursor(-4, 0), VictoryState::Continue);
    assert_eq!(g.cursor().0, 0);
    g.move_cursor(-1, 0);
    assert_eq!(g.cursor().0, 7);
    g.move_cursor(1, 0);
    assert_eq!(g.cursor().0, 0);
    g.move_cursor(0, 4);
    assert_eq!(g.cursor().1, 0);
    g.move_cursor(0, -1);
    assert_eq!(g.cursor().1, 7);
}

#[test]
fn move_cursor_by_large_steps() {
    let mut g = Game::new(3, 5, 0).unwrap();
    g.move_cursor(-128, 127);
    // x: (1 - 128) mod 3 = 2; y: (2 + 127) mod 5 = 4
    assert_eq!(g.cursor(), (2, 4));
}

#[test]
fn flagging_both_mines_wins() {
    let mut g = board(4, 4, 20, &[(0, 3), (2, 1)]);
    assert_eq!(g.mine_count(), 2);
    assert_eq!(g.flag(0, 3), VictoryState::Continue);
    assert_eq!(g.flag(2, 1), VictoryState::Won);
}

#[test]
fn flagging_one_mine_and_one_safe_cell_continues() {
    let mut g = board(4, 4, 20, &[(0, 3), (2, 1)]);
    assert_eq!(g.flag(0, 3), VictoryState::Continue);
    assert_eq!(g.flag(3, 3), VictoryState::Continue);
    assert_eq!(g.correct_flag_count(), 1);
}

#[test]
fn clicking_a_mine_loses_without_change() {
    let mut g = board(5, 5, 20, &[(1, 1), (4, 4)]);
    g.flag(4, 4);
    g.click(3, 0);
    let before = states(&g);
    assert_eq!(g.click(1, 1), VictoryState::Over);
    assert_eq!(states(&g), before);
    assert_eq!(cell(&g, 1, 1).state, CellState::Hidden);
}

#[test]
fn clicking_a_safe_cell_continues() {
    let mut g = board(5, 5, 20, &[(1, 1)]);
    assert_eq!(g.click(4, 4), VictoryState::Continue);
    assert_eq!(cell(&g, 4, 4).state, CellState::Revealed);
}

#[test]
fn click_and_flag_at_cursor() {
    let mut g = board(3, 3, 20, &[(0, 0)]);
    assert_eq!(g.cursor(), (1, 1));
    assert_eq!(g.click_at_cursor(), VictoryState::Continue);
    assert_eq!(cell(&g, 1, 1).state, CellState::Revealed);
    g.move_cursor(-1, -1);
    assert_eq!(g.flag_at_cursor(), VictoryState::Won);
    assert_eq!(cell(&g, 0, 0).state, CellState::Flagged);
    assert_eq!(g.click_at_cursor(), VictoryState::Over);
}

#[test]
fn zero_percent_has_no_mines_and_first_flag_wins() {
    let mut g = Game::new(8, 8, 0).unwrap();
    assert_eq!(g.mine_count(), 0);
    assert_eq!(mines_present(&g), 0);
    assert_eq!(g.flag(5, 2), VictoryState::Won);
}

#[test]
fn single_mine_flood_scenario() {
    let mut g = board(8, 8, 5, &[(3, 3)]);
    assert_eq!(g.mine_count(), 1);
    assert_eq!(g.click(0, 0), VictoryState::Continue);
    for y in 0..8i8 {
        for x in 0..8i8 {
            let c = cell(&g, x, y);
            if (x, y) == (3, 3) {
                assert_eq!(c.state, CellState::Hidden);
            } else if (x - 3).abs() <= 1 && (y - 3).abs() <= 1 {
                assert_eq!(c.cell_type, CellType::Count(1));
                assert_eq!(c.state, CellState::Revealed);
            } else {
                assert_eq!(c.cell_type, CellType::Count(0));
                assert_eq!(c.state, CellState::Revealed);
            }
        }
    }
}

#[test]
fn neighbours_and_bounds() {
    let g = board(3, 2, 0, &[]);
    assert_eq!(
        g.get_adjacents_slice(0, 0),
        [(-1, -1), (0, -1), (1, -1), (-1, 1), (0, 1), (1, 1), (-1, 0), (1, 0)]
    );
    assert!(g.is_oob(-1, 0));
    assert!(g.is_oob(3, 0));
    assert!(g.is_oob(0, 2));
    assert!(!g.is_oob(2, 1));
}

#[test]
fn draw_shows_cursor_and_cells() {
    let mut g = board(2, 2, 50, &[(1, 1)]);
    g.flag(1, 1);
    g.reveal_from(0, 1);
    // cursor at (1, 1)
    let yellow = "\x1b[48;5;242m";
    let white = "\x1b[48;5;240m";
    let reset = "\x1b[0m";
    let expected = format!(
        "\u{1F532}{w}\u{1F532}{r}\r\n{w}1 {r}{y}\u{26F3}{r}\r\n\r\n\r\n",
        w = white,
        r = reset,
        y = yellow
    );
    assert_eq!(g.draw(), expected);
}

#[test]
fn draw_shows_revealed_mine_and_blank() {
    let mut g = board(2, 1, 50, &[]);
    g.reveal_from(0, 0);
    let expected = "\x1b[48;5;240m  \x1b[0m\x1b[48;5;242m  \x1b[0m\r\n\r\n\r\n";
    assert_eq!(g.draw(), expected);
    let m = board(1, 1, 100, &[(0, 0)]);
    assert_eq!(cell(&m, 0, 0).cell_type, CellType::Mine);
}
