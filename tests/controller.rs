use minesweeper::controller::{action_for, apply, handle_key, Action, Key};
use minesweeper::game::{CellState, Game, VictoryState};

fn board(width: i8, height: i8, mines: &[(i8, i8)]) -> Game {
    let n = width as usize * height as usize;
    let mut d = vec![n; n];
    for &(x, y) in mines {
        d[x as usize + y as usize * width as usize] = 0;
    }
    Game::with_draws(width, height, 50, &d).unwrap()
}

#[test]
fn keys_map_to_actions() {
    assert_eq!(action_for(Key::Left), Some(Action::Left));
    assert_eq!(action_for(Key::Right), Some(Action::Right));
    assert_eq!(action_for(Key::Up), Some(Action::Up));
    assert_eq!(action_for(Key::Down), Some(Action::Down));
    assert_eq!(action_for(Key::Enter), Some(Action::Reset));
    assert_eq!(action_for(Key::Char('f')), Some(Action::Flag));
    assert_eq!(action_for(Key::Char(' ')), Some(Action::Reveal));
    assert_eq!(action_for(Key::Char('c')), Some(Action::Quit));
    assert_eq!(action_for(Key::Char('x')), None);
    assert_eq!(action_for(Key::Other), None);
}

#[test]
fn unknown_key_changes_nothing() {
    let mut g = board(4, 4, &[(0, 0)]);
    assert_eq!(handle_key(&mut g, Key::Char('q')), None);
    assert_eq!(g.cursor(), (2, 2));
    assert_eq!(g.get_cell(2, 2).state, CellState::Hidden);
}

#[test]
fn arrow_keys_move_the_cursor() {
    let mut g = board(4, 4, &[(0, 0)]);
    assert_eq!(handle_key(&mut g, Key::Left), Some((Action::Left, VictoryState::Continue)));
    assert_eq!(g.cursor(), (1, 2));
    handle_key(&mut g, Key::Up);
    assert_eq!(g.cursor(), (1, 1));
    handle_key(&mut g, Key::Right);
    handle_key(&mut g, Key::Right);
    handle_key(&mut g, Key::Right);
    assert_eq!(g.cursor(), (0, 1));
    handle_key(&mut g, Key::Down);
    assert_eq!(g.cursor(), (0, 2));
}

#[test]
fn space_reveals_and_f_flags() {
    let mut g = board(3, 3, &[(0, 0)]);
    assert_eq!(handle_key(&mut g, Key::Char(' ')), Some((Action::Reveal, VictoryState::Continue)));
    assert_eq!(g.get_cell(1, 1).state, CellState::Revealed);
    handle_key(&mut g, Key::Left);
    handle_key(&mut g, Key::Up);
    assert_eq!(handle_key(&mut g, Key::Char('f')), Some((Action::Flag, VictoryState::Won)));
}

#[test]
fn reveal_on_a_mine_is_over() {
    let mut g = board(3, 3, &[(1, 1)]);
    assert_eq!(apply(&mut g, Action::Reveal), VictoryState::Over);
    assert_eq!(g.get_cell(1, 1).state, CellState::Hidden);
}

#[test]
fn enter_restarts_and_quit_changes_nothing() {
    let mut g = board(5, 5, &[(0, 0)]);
    apply(&mut g, Action::Left);
    apply(&mut g, Action::Flag);
    assert_eq!(apply(&mut g, Action::Quit), VictoryState::Continue);
    assert_eq!(g.cursor(), (1, 2));
    assert_eq!(apply(&mut g, Action::Reset), VictoryState::Continue);
    assert_eq!(g.cursor(), (2, 2));
    assert_eq!(g.correct_flag_count(), 0);
    assert_eq!(g.get_cell(1, 2).state, CellState::Hidden);
}
