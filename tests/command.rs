use minesweeper::command::{parse_command, run_command, Command, CommandError};
use minesweeper::game::{CellState, Game, VictoryState};

fn parse(s: &str) -> Result<Command, CommandError> {
    parse_command(&s.chars().collect())
}

#[test]
fn parses_flag_and_click() {
    assert_eq!(parse("f 3 4\n"), Ok(Command::Flag(3, 4)));
    assert_eq!(parse("c 1 2"), Ok(Command::Click(1, 2)));
    assert_eq!(parse("reveal 0 7"), Ok(Command::Click(0, 7)));
    assert_eq!(parse("ff 0 7"), Ok(Command::Click(0, 7)));
}

#[test]
fn trims_and_reads_signs() {
    assert_eq!(parse("x +3 -0"), Ok(Command::Click(3, 0)));
    assert_eq!(parse("f \t5\t \r\n"), Err(CommandError::NotANumber));
    assert_eq!(parse("f \t5\t\r\n"), Err(CommandError::TokenCount));
    assert_eq!(parse("f 2\t \t5\r\n"), Ok(Command::Flag(2, 5)));
    assert_eq!(parse("f -128 127"), Ok(Command::Flag(-128, 127)));
    assert_eq!(parse("f 0007 01"), Ok(Command::Flag(7, 1)));
}

#[test]
fn wrong_word_count_is_refused() {
    assert_eq!(parse("f 3"), Err(CommandError::TokenCount));
    assert_eq!(parse(""), Err(CommandError::TokenCount));
    assert_eq!(parse("f  3 4"), Err(CommandError::TokenCount));
    assert_eq!(parse("f 3 4 "), Err(CommandError::TokenCount));
    assert_eq!(parse("f 3 4 5"), Err(CommandError::TokenCount));
}

#[test]
fn bad_numbers_are_refused() {
    assert_eq!(parse("f x 4"), Err(CommandError::NotANumber));
    assert_eq!(parse("f 3 "), Err(CommandError::NotANumber));
    assert_eq!(parse("f 200 1"), Err(CommandError::NotANumber));
    assert_eq!(parse("f -129 1"), Err(CommandError::NotANumber));
    assert_eq!(parse("f 128 1"), Err(CommandError::NotANumber));
    assert_eq!(parse("f - 1"), Err(CommandError::NotANumber));
    assert_eq!(parse("f 1 99999999999"), Err(CommandError::NotANumber));
}

#[test]
fn commands_outside_the_board_are_refused() {
    let mut g = Game::with_draws(4, 4, 10, &vec![16; 16]).unwrap();
    assert_eq!(run_command(&mut g, Command::Flag(-1, 0)), Err(CommandError::OutOfBounds));
    assert_eq!(run_command(&mut g, Command::Click(0, 4)), Err(CommandError::OutOfBounds));
    assert_eq!(g.get_cell(0, 0).state, CellState::Hidden);
}

#[test]
fn commands_on_the_board_are_carried_out() {
    let mut d = vec![16usize; 16];
    d[5] = 0;
    let mut g = Game::with_draws(4, 4, 10, &d).unwrap();
    assert_eq!(run_command(&mut g, Command::Click(3, 3)), Ok(VictoryState::Continue));
    assert_eq!(g.get_cell(3, 3).state, CellState::Revealed);
    assert_eq!(run_command(&mut g, Command::Flag(1, 1)), Ok(VictoryState::Won));
    assert_eq!(run_command(&mut g, Command::Click(1, 1)), Ok(VictoryState::Over));
}

#[test]
fn trims_unicode_white_space() {
    assert_eq!(parse("f \u{A0}3 4"), Ok(Command::Flag(3, 4)));
    assert_eq!(parse("c 3\u{3000} \u{2003}4\u{85}"), Ok(Command::Click(3, 4)));
    assert_eq!(parse("c 3\u{200B} 4"), Err(CommandError::NotANumber));
}
