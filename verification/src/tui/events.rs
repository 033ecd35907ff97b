use vstd::prelude::*;

use crate::tui::geometry::Direction;

verus! {

/// What the player asked for.
#[derive(Clone, Copy, Debug, PartialEq, Eq, Structural)]
pub enum UserInput {
    Direction(Direction),
    Quit,
}

/// What the game reacts to: the player's input, or a new size of the terminal.
#[derive(Clone, Copy, Debug, PartialEq, Eq, Structural)]
pub enum Event {
    UserInput(UserInput),
    Resize,
}

/// A key of the keyboard, as far as the game tells keys apart.
#[derive(Clone, Copy, Debug, PartialEq, Eq, Structural)]
pub enum KeyCode {
    Left,
    Right,
    Up,
    Down,
    Char(char),
    Other,
}

/// A key press.
#[derive(Clone, Copy, Debug, PartialEq, Eq, Structural)]
pub struct KeyEvent {
    pub code: KeyCode,
}

/// What happened at the terminal, as far as the game tells events apart.
#[derive(Clone, Copy, Debug, PartialEq, Eq, Structural)]
pub enum TerminalEvent {
    Key(KeyEvent),
    Resize,
    Other,
}

/// The player's input that a key stands for: the arrow keys and `h`, `l`, `k`, `j` move the
/// tiles, `q` quits; other keys mean nothing.
pub open spec fn key_input(code: KeyCode) -> Option<UserInput> {
    match code {
        KeyCode::Left | KeyCode::Char('h') => Some(UserInput::Direction(Direction::Left)),
        KeyCode::Right | KeyCode::Char('l') => Some(UserInput::Direction(Direction::Right)),
        KeyCode::Up | KeyCode::Char('k') => Some(UserInput::Direction(Direction::Up)),
        KeyCode::Down | KeyCode::Char('j') => Some(UserInput::Direction(Direction::Down)),
        KeyCode::Char('q') => Some(UserInput::Quit),
        _ => None,
    }
}

/// The player's input that a key press stands for, if any.
pub fn handle_key_event(ke: KeyEvent) -> (r: Option<UserInput>)
    ensures
        r == key_input(ke.code),
{
    match ke {
        KeyEvent { code } => match code {
            KeyCode::Left | KeyCode::Char('h') => Some(UserInput::Direction(Direction::Left)),
            KeyCode::Right | KeyCode::Char('l') => Some(UserInput::Direction(Direction::Right)),
            KeyCode::Up | KeyCode::Char('k') => Some(UserInput::Direction(Direction::Up)),
            KeyCode::Down | KeyCode::Char('j') => Some(UserInput::Direction(Direction::Down)),
            KeyCode::Char('q') => Some(UserInput::Quit),
            _ => None,
        },
    }
}

/// The event that the game reacts to for what happened at the terminal: a resize, or a key that
/// stands for an input; nothing for anything else, which the game waits past.
pub fn event_from(te: TerminalEvent) -> (r: Option<Event>)
    ensures
        te is Resize ==> r == Some(Event::Resize),
        te matches TerminalEvent::Key(ke) ==> r == match key_input(ke.code) {
            Some(u) => Some(Event::UserInput(u)),
            None => None::<Event>,
        },
        te is Other ==> r is None,
{
    match te {
        TerminalEvent::Resize => Some(Event::Resize),
        TerminalEvent::Key(ke) => match handle_key_event(ke) {
            Some(u) => Some(Event::UserInput(u)),
            None => None,
        },
        TerminalEvent::Other => None,
    }
}

} // verus!
