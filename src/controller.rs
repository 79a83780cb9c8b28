use vstd::prelude::*;
use crate::game::{click_post, flag_post, restart_post, Game, GameView, VictoryState};

verus! {

/// A key press, as far as the game cares.
#[derive(Clone, Copy, Debug, PartialEq, Eq, Structural)]
pub enum Key {
    Left,
    Right,
    Up,
    Down,
    Enter,
    Char(char),
    Other,
}

/// What the player asked for.
#[derive(Clone, Copy, Debug, PartialEq, Eq, Structural)]
pub enum Action {
    Left,
    Right,
    Up,
    Down,
    Reveal,
    Flag,
    Reset,
    Quit,
}

pub open spec fn action_spec(key: Key) -> Option<Action> {
    match key {
        Key::Left => Some(Action::Left),
        Key::Right => Some(Action::Right),
        Key::Up => Some(Action::Up),
        Key::Down => Some(Action::Down),
        Key::Enter => Some(Action::Reset),
        Key::Char(c) => if c == 'f' {
            Some(Action::Flag)
        } else if c == ' ' {
            Some(Action::Reveal)
        } else if c == 'c' {
            Some(Action::Quit)
        } else {
            None
        },
        Key::Other => None,
    }
}

/// Arrows move, space reveals, `f` flags, Enter starts over, `c` quits; any other key
/// does nothing.
pub fn action_for(key: Key) -> (r: Option<Action>)
    ensures
        r == action_spec(key),
{
    match key {
        Key::Left => Some(Action::Left),
        Key::Right => Some(Action::Right),
        Key::Up => Some(Action::Up),
        Key::Down => Some(Action::Down),
        Key::Enter => Some(Action::Reset),
        Key::Char(c) => if c == 'f' {
            Some(Action::Flag)
        } else if c == ' ' {
            Some(Action::Reveal)
        } else if c == 'c' {
            Some(Action::Quit)
        } else {
            None
        },
        Key::Other => None,
    }
}

/// The cursor after a move by `(dx, dy)`, wrapped around the edges.
pub open spec fn moved(v: GameView, dx: int, dy: int) -> GameView {
    GameView {
        cursor_x: (v.cursor_x + dx + v.width) % v.width,
        cursor_y: (v.cursor_y + dy + v.height) % v.height,
        ..v
    }
}

/// What carrying out `a` on the game `v` leads to: the game `nv` and the outcome `r`.
pub open spec fn applied(v: GameView, a: Action, nv: GameView, r: VictoryState) -> bool {
    match a {
        Action::Left => nv == moved(v, -1, 0) && r == VictoryState::Continue,
        Action::Right => nv == moved(v, 1, 0) && r == VictoryState::Continue,
        Action::Up => nv == moved(v, 0, -1) && r == VictoryState::Continue,
        Action::Down => nv == moved(v, 0, 1) && r == VictoryState::Continue,
        Action::Reveal => click_post(v, v.cursor_x, v.cursor_y, nv, r),
        Action::Flag => flag_post(v, v.cursor_x, v.cursor_y, nv, r),
        Action::Reset => restart_post(v, nv) && r == VictoryState::Continue,
        Action::Quit => nv == v && r == VictoryState::Continue,
    }
}

/// Carries out one action on the game. Quitting is left to the caller and changes nothing.
pub fn apply(game: &mut Game, action: Action) -> (r: VictoryState)
    requires
        old(game)@.wf(),
    ensures
        final(game)@.wf(),
        applied(old(game)@, action, final(game)@, r),
{
    match action {
        Action::Left => game.move_cursor(-1, 0),
        Action::Right => game.move_cursor(1, 0),
        Action::Up => game.move_cursor(0, -1),
        Action::Down => game.move_cursor(0, 1),
        Action::Reveal => game.click_at_cursor(),
        Action::Flag => game.flag_at_cursor(),
        Action::Reset => {
            game.restart();
            VictoryState::Continue
        },
        Action::Quit => VictoryState::Continue,
    }
}

/// Turns one key press into its effect on the game: `None` when the key means nothing,
/// else the action taken and how the round stands after it.
pub fn handle_key(game: &mut Game, key: Key) -> (r: Option<(Action, VictoryState)>)
    requires
        old(game)@.wf(),
    ensures
        final(game)@.wf(),
        action_spec(key) is None ==> r is None && final(game)@ == old(game)@,
        action_spec(key) matches Some(a) ==> r matches Some(p) && p.0 == a && applied(old(game)@, a, final(game)@, p.1),
{
    match action_for(key) {
        None => None,
        Some(a) => {
            let s = apply(game, a);
            Some((a, s))
        },
    }
}

} // verus!
