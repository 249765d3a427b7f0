use vstd::prelude::*;

use crate::game_field::{cells, blank_board, Field, FieldSize};

verus! {

/// The keys that the screens react to; every other key is `Other`.
#[derive(Clone, Copy, Debug, PartialEq, Eq, Structural)]
pub enum Key {
    Escape,
    Left,
    Right,
    Up,
    Down,
    Return,
    PageUp,
    PageDown,
    F1,
    W,
    A,
    S,
    D,
    Other,
}

/// The buttons of the screens, named after their interface ids; a click on
/// anything else is `Other`.
#[derive(Clone, Copy, Debug, PartialEq, Eq, Structural)]
pub enum Button {
    Start,
    Continue,
    LeaderBoard,
    Exit,
    FourByFour,
    SixBySix,
    Back,
    Return,
    NewGame,
    ToMenu,
    Yes,
    No,
    Hard,
    Easy,
    Enter,
    Music,
    EndGame,
    Random,
    Other,
}

/// An event as a screen sees it.
#[derive(Clone, Copy, Debug, PartialEq, Eq, Structural)]
pub enum Input {
    /// The window's close button.
    CloseRequested,
    /// A key was pressed.
    KeyDown(Key),
    /// A button was clicked.
    Click(Button),
    /// The text of an input field changed.
    ValueChange,
    /// Anything else.
    Other,
}

/// The screens of the game.
#[derive(Clone, Copy, Debug, PartialEq, Eq, Structural)]
pub enum Screen {
    MainMenu,
    FieldChoose,
    Game,
    Exit,
    Help,
    Leader,
    PauseMenu,
    /// The end of a game, where the player enters a name for the leader
    /// board; it carries the game's score, difficulty and size.
    EndGame { score: u32, hard: bool, size: FieldSize },
}

/// What happens to the stack of screens.
#[derive(Clone, Copy, Debug, PartialEq, Eq, Structural)]
pub enum Transition {
    /// The current screen stays.
    Stay,
    /// The current screen closes and the one below it comes back.
    Pop,
    /// A screen opens on top of the current one.
    Push(Screen),
    /// A screen replaces the current one.
    Switch(Screen),
    /// The game ends.
    Quit,
}

/// What a menu screen asks of its caller after an event.
#[derive(Clone, Copy, Debug, PartialEq, Eq, Structural)]
pub enum Action {
    /// Change the screens as given.
    Go(Transition),
    /// Lower the music's volume, and stay.
    VolumeDown,
    /// Raise the music's volume, and stay.
    VolumeUp,
    /// Read the saved game and let `continue_saved` decide on its size.
    ContinueSaved,
    /// Save a new blank game of the given size (see `new_game_field`), then
    /// switch to the game screen.
    StartNew(FieldSize),
    /// Save the screen's game, whose difficulty has just been set, then
    /// switch to the game screen.
    SaveAndPlay,
    /// Enter the player on the leader board, save the record of no game, then
    /// switch to the main menu.
    SubmitScore,
    /// Take the player's name from the input field, and stay.
    ReadName,
}

/// The main menu.
pub fn main_menu_event(input: &Input) -> (r: Action)
    ensures
        r == match *input {
            Input::CloseRequested => Action::Go(Transition::Push(Screen::Exit)),
            Input::KeyDown(Key::Escape) => Action::Go(Transition::Push(Screen::Exit)),
            Input::KeyDown(Key::F1) => Action::Go(Transition::Push(Screen::Help)),
            Input::KeyDown(Key::PageDown) => Action::VolumeDown,
            Input::KeyDown(Key::PageUp) => Action::VolumeUp,
            Input::Click(Button::Start) => Action::Go(Transition::Push(Screen::FieldChoose)),
            Input::Click(Button::Continue) => Action::ContinueSaved,
            Input::Click(Button::LeaderBoard) => Action::Go(Transition::Push(Screen::Leader)),
            Input::Click(Button::Exit) => Action::Go(Transition::Push(Screen::Exit)),
            _ => Action::Go(Transition::Stay),
        },
{
    match *input {
        Input::CloseRequested => Action::Go(Transition::Push(Screen::Exit)),
        Input::KeyDown(key) => match key {
            Key::Escape => Action::Go(Transition::Push(Screen::Exit)),
            Key::F1 => Action::Go(Transition::Push(Screen::Help)),
            Key::PageDown => Action::VolumeDown,
            Key::PageUp => Action::VolumeUp,
            _ => Action::Go(Transition::Stay),
        },
        Input::Click(button) => match button {
            Button::Start => Action::Go(Transition::Push(Screen::FieldChoose)),
            Button::Continue => Action::ContinueSaved,
            Button::LeaderBoard => Action::Go(Transition::Push(Screen::Leader)),
            Button::Exit => Action::Go(Transition::Push(Screen::Exit)),
            _ => Action::Go(Transition::Stay),
        },
        _ => Action::Go(Transition::Stay),
    }
}

/// The main menu's "continue" button, once the saved game is read: a saved
/// game of size 4 or 6 is resumed, and the record of no game leaves the menu
/// as it is.
pub fn continue_saved(size: FieldSize) -> (r: Transition)
    ensures
        r == if size == FieldSize::Empty {
            Transition::Stay
        } else {
            Transition::Switch(Screen::Game)
        },
{
    match size {
        FieldSize::Four => Transition::Switch(Screen::Game),
        FieldSize::Six => Transition::Switch(Screen::Game),
        FieldSize::Empty => Transition::Stay,
    }
}

/// The screen where the size of a new game is chosen.
pub fn field_choose_event(input: &Input) -> (r: Action)
    ensures
        r == match *input {
            Input::CloseRequested => Action::Go(Transition::Push(Screen::Exit)),
            Input::KeyDown(Key::Escape) => Action::Go(Transition::Pop),
            Input::Click(Button::FourByFour) => Action::StartNew(FieldSize::Four),
            Input::Click(Button::SixBySix) => Action::StartNew(FieldSize::Six),
            Input::Click(Button::Back) => Action::Go(Transition::Pop),
            _ => Action::Go(Transition::Stay),
        },
{
    match *input {
        Input::CloseRequested => Action::Go(Transition::Push(Screen::Exit)),
        Input::KeyDown(Key::Escape) => Action::Go(Transition::Pop),
        Input::Click(button) => match button {
            Button::FourByFour => Action::StartNew(FieldSize::Four),
            Button::SixBySix => Action::StartNew(FieldSize::Six),
            Button::Back => Action::Go(Transition::Pop),
            _ => Action::Go(Transition::Stay),
        },
        _ => Action::Go(Transition::Stay),
    }
}

/// The game that the size chooser saves: a blank board of the chosen size,
/// with no flag set and a score of 0.  Both sizes are recorded as `Four`;
/// the board that is set tells them apart.
pub fn new_game_field(size: FieldSize) -> (r: Field)
    requires
        size != FieldSize::Empty,
    ensures
        !r.skip && !r.hard && !r.loose && r.score == 0 && r.size == FieldSize::Four,
        size == FieldSize::Four ==> r.field_4.is_some() && cells(r.field_4.unwrap())
            == blank_board(4) && r.field_6.is_none(),
        size == FieldSize::Six ==> r.field_4.is_none() && r.field_6.is_some() && cells(
            r.field_6.unwrap(),
        ) == blank_board(6),
{
    if size == FieldSize::Four {
        let board: [[u32; 4]; 4] = [[0, 0, 0, 0], [0, 0, 0, 0], [0, 0, 0, 0], [0, 0, 0, 0]];
        assert(cells(board) =~~= blank_board(4));
        Field {
            skip: false,
            hard: false,
            loose: false,
            score: 0,
            size: FieldSize::Four,
            field_4: Some(board),
            field_6: None,
        }
    } else {
        let board: [[u32; 6]; 6] = [
            [0, 0, 0, 0, 0, 0],
            [0, 0, 0, 0, 0, 0],
            [0, 0, 0, 0, 0, 0],
            [0, 0, 0, 0, 0, 0],
            [0, 0, 0, 0, 0, 0],
            [0, 0, 0, 0, 0, 0],
        ];
        assert(cells(board) =~~= blank_board(6));
        Field {
            skip: false,
            hard: false,
            loose: false,
            score: 0,
            size: FieldSize::Four,
            field_4: None,
            field_6: Some(board),
        }
    }
}

/// The screen where the difficulty of the game at hand is chosen; a choice
/// sets the game's `hard` flag.
pub fn difficulty_event(field: &mut Field, input: &Input) -> (r: Action)
    ensures
        r == match *input {
            Input::CloseRequested => Action::Go(Transition::Push(Screen::Exit)),
            Input::KeyDown(Key::Escape) => Action::Go(Transition::Pop),
            Input::Click(Button::Easy) => Action::SaveAndPlay,
            Input::Click(Button::Hard) => Action::SaveAndPlay,
            _ => Action::Go(Transition::Stay),
        },
        *input == Input::Click(Button::Easy) ==> *final(field) == (Field {
            hard: false,
            ..*old(field)
        }),
        *input == Input::Click(Button::Hard) ==> *final(field) == (Field {
            hard: true,
            ..*old(field)
        }),
        *input != Input::Click(Button::Easy) && *input != Input::Click(Button::Hard)
            ==> *final(field) == *old(field),
{
    match *input {
        Input::CloseRequested => Action::Go(Transition::Push(Screen::Exit)),
        Input::KeyDown(Key::Escape) => Action::Go(Transition::Pop),
        Input::Click(Button::Easy) => {
            field.hard = false;
            Action::SaveAndPlay
        },
        Input::Click(Button::Hard) => {
            field.hard = true;
            Action::SaveAndPlay
        },
        _ => Action::Go(Transition::Stay),
    }
}

/// The pause menu, over a game.
pub fn pause_menu_event(input: &Input) -> (r: Action)
    ensures
        r == match *input {
            Input::CloseRequested => Action::Go(Transition::Push(Screen::Exit)),
            Input::KeyDown(Key::Escape) => Action::Go(Transition::Pop),
            Input::Click(Button::Return) => Action::Go(Transition::Pop),
            Input::Click(Button::NewGame) => Action::Go(Transition::Push(Screen::FieldChoose)),
            Input::Click(Button::ToMenu) => Action::Go(Transition::Switch(Screen::MainMenu)),
            _ => Action::Go(Transition::Stay),
        },
{
    match *input {
        Input::CloseRequested => Action::Go(Transition::Push(Screen::Exit)),
        Input::KeyDown(Key::Escape) => Action::Go(Transition::Pop),
        Input::Click(button) => match button {
            Button::Return => Action::Go(Transition::Pop),
            Button::NewGame => Action::Go(Transition::Push(Screen::FieldChoose)),
            Button::ToMenu => Action::Go(Transition::Switch(Screen::MainMenu)),
            _ => Action::Go(Transition::Stay),
        },
        _ => Action::Go(Transition::Stay),
    }
}

/// The screen that asks whether to quit.
pub fn exit_event(input: &Input) -> (r: Action)
    ensures
        r == match *input {
            Input::KeyDown(Key::Escape) => Action::Go(Transition::Pop),
            Input::Click(Button::Yes) => Action::Go(Transition::Quit),
            Input::Click(Button::No) => Action::Go(Transition::Pop),
            _ => Action::Go(Transition::Stay),
        },
{
    match *input {
        Input::KeyDown(Key::Escape) => Action::Go(Transition::Pop),
        Input::Click(Button::Yes) => Action::Go(Transition::Quit),
        Input::Click(Button::No) => Action::Go(Transition::Pop),
        _ => Action::Go(Transition::Stay),
    }
}

/// The help screen.
pub fn help_event(input: &Input) -> (r: Action)
    ensures
        r == match *input {
            Input::KeyDown(Key::Escape) => Action::Go(Transition::Pop),
            Input::Click(Button::Back) => Action::Go(Transition::Pop),
            _ => Action::Go(Transition::Stay),
        },
{
    match *input {
        Input::KeyDown(Key::Escape) => Action::Go(Transition::Pop),
        Input::Click(Button::Back) => Action::Go(Transition::Pop),
        _ => Action::Go(Transition::Stay),
    }
}

/// The leader board screen.
pub fn leader_event(input: &Input) -> (r: Action)
    ensures
        r == match *input {
            Input::KeyDown(Key::Escape) => Action::Go(Transition::Pop),
            Input::KeyDown(Key::PageDown) => Action::VolumeDown,
            Input::KeyDown(Key::PageUp) => Action::VolumeUp,
            _ => Action::Go(Transition::Stay),
        },
{
    match *input {
        Input::KeyDown(Key::Escape) => Action::Go(Transition::Pop),
        Input::KeyDown(Key::PageDown) => Action::VolumeDown,
        Input::KeyDown(Key::PageUp) => Action::VolumeUp,
        _ => Action::Go(Transition::Stay),
    }
}

/// The text that the name field of the end screen starts with.
pub open spec fn name_prompt() -> Seq<char> {
    "enter your name here"@
}

/// The screen at the end of a game, where the player's name is asked.  The
/// "enter" button takes a name that is neither empty nor the prompt.
pub fn end_game_event(input: &Input, name: &String) -> (r: Action)
    ensures
        r == match *input {
            Input::CloseRequested => Action::Go(Transition::Push(Screen::Exit)),
            Input::KeyDown(Key::Escape) => Action::Go(Transition::Pop),
            Input::Click(Button::Enter) => if name@ == name_prompt() || name@.len() == 0 {
                Action::Go(Transition::Stay)
            } else {
                Action::SubmitScore
            },
            Input::ValueChange => Action::ReadName,
            _ => Action::Go(Transition::Stay),
        },
{
    match *input {
        Input::CloseRequested => Action::Go(Transition::Push(Screen::Exit)),
        Input::KeyDown(Key::Escape) => Action::Go(Transition::Pop),
        Input::Click(Button::Enter) => {
            let prompt = "enter your name here".to_owned();
            let blank = String::new();
            proof {
                if name@.len() == 0 {
                    assert(name@ =~= blank@);
                }
            }
            if name.eq(&prompt) || name.eq(&blank) {
                Action::Go(Transition::Stay)
            } else {
                Action::SubmitScore
            }
        },
        Input::ValueChange => Action::ReadName,
        _ => Action::Go(Transition::Stay),
    }
}

} // verus!
