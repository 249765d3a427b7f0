use game2048::game_field::{Field, FieldSize};
use game2048::screens::{
    continue_saved, difficulty_event, end_game_event, exit_event, field_choose_event, help_event,
    leader_event, main_menu_event, new_game_field, pause_menu_event, Action, Button, Input, Key,
    Screen, Transition,
};

fn go(t: Transition) -> Action {
    Action::Go(t)
}

#[test]
fn main_menu_decisions() {
    assert_eq!(main_menu_event(&Input::CloseRequested), go(Transition::Push(Screen::Exit)));
    assert_eq!(main_menu_event(&Input::KeyDown(Key::Escape)), go(Transition::Push(Screen::Exit)));
    assert_eq!(main_menu_event(&Input::KeyDown(Key::F1)), go(Transition::Push(Screen::Help)));
    assert_eq!(main_menu_event(&Input::KeyDown(Key::PageDown)), Action::VolumeDown);
    assert_eq!(main_menu_event(&Input::KeyDown(Key::PageUp)), Action::VolumeUp);
    assert_eq!(main_menu_event(&Input::KeyDown(Key::Left)), go(Transition::Stay));
    assert_eq!(
        main_menu_event(&Input::Click(Button::Start)),
        go(Transition::Push(Screen::FieldChoose))
    );
    assert_eq!(main_menu_event(&Input::Click(Button::Continue)), Action::ContinueSaved);
    assert_eq!(
        main_menu_event(&Input::Click(Button::LeaderBoard)),
        go(Transition::Push(Screen::Leader))
    );
    assert_eq!(main_menu_event(&Input::Click(Button::Exit)), go(Transition::Push(Screen::Exit)));
    assert_eq!(main_menu_event(&Input::Click(Button::Back)), go(Transition::Stay));
    assert_eq!(main_menu_event(&Input::Other), go(Transition::Stay));
}

#[test]
fn continue_resumes_only_a_saved_game() {
    assert_eq!(continue_saved(FieldSize::Four), Transition::Switch(Screen::Game));
    assert_eq!(continue_saved(FieldSize::Six), Transition::Switch(Screen::Game));
    assert_eq!(continue_saved(FieldSize::Empty), Transition::Stay);
}

#[test]
fn field_choose_decisions() {
    assert_eq!(field_choose_event(&Input::CloseRequested), go(Transition::Push(Screen::Exit)));
    assert_eq!(field_choose_event(&Input::KeyDown(Key::Escape)), go(Transition::Pop));
    assert_eq!(
        field_choose_event(&Input::Click(Button::FourByFour)),
        Action::StartNew(FieldSize::Four)
    );
    assert_eq!(
        field_choose_event(&Input::Click(Button::SixBySix)),
        Action::StartNew(FieldSize::Six)
    );
    assert_eq!(field_choose_event(&Input::Click(Button::Back)), go(Transition::Pop));
    assert_eq!(field_choose_event(&Input::KeyDown(Key::F1)), go(Transition::Stay));
}

#[test]
fn new_game_fields_are_blank() {
    let f = new_game_field(FieldSize::Four);
    assert_eq!(f.field_4, Some([[0u32; 4]; 4]));
    assert_eq!(f.field_6, None);
    assert_eq!(f.size, FieldSize::Four);
    assert_eq!(f.score, 0);
    assert!(!f.skip && !f.hard && !f.loose);
    let g = new_game_field(FieldSize::Six);
    assert_eq!(g.field_4, None);
    assert_eq!(g.field_6, Some([[0u32; 6]; 6]));
    assert_eq!(g.size, FieldSize::Four);
}

#[test]
fn difficulty_sets_the_flag() {
    let mut f = Field::default(FieldSize::Four);
    assert_eq!(difficulty_event(&mut f, &Input::Click(Button::Hard)), Action::SaveAndPlay);
    assert!(f.hard);
    assert_eq!(difficulty_event(&mut f, &Input::Click(Button::Easy)), Action::SaveAndPlay);
    assert!(!f.hard);
    assert_eq!(difficulty_event(&mut f, &Input::CloseRequested), go(Transition::Push(Screen::Exit)));
    assert_eq!(difficulty_event(&mut f, &Input::KeyDown(Key::Escape)), go(Transition::Pop));
    assert_eq!(difficulty_event(&mut f, &Input::Click(Button::Start)), go(Transition::Stay));
    assert!(!f.hard);
    assert_eq!(f.field_4, Some([[0, 0, 0, 0], [0, 0, 0, 0], [0, 0, 0, 0], [0, 0, 0, 2]]));
}

#[test]
fn pause_menu_decisions() {
    assert_eq!(pause_menu_event(&Input::CloseRequested), go(Transition::Push(Screen::Exit)));
    assert_eq!(pause_menu_event(&Input::KeyDown(Key::Escape)), go(Transition::Pop));
    assert_eq!(pause_menu_event(&Input::Click(Button::Return)), go(Transition::Pop));
    assert_eq!(
        pause_menu_event(&Input::Click(Button::NewGame)),
        go(Transition::Push(Screen::FieldChoose))
    );
    assert_eq!(
        pause_menu_event(&Input::Click(Button::ToMenu)),
        go(Transition::Switch(Screen::MainMenu))
    );
    assert_eq!(pause_menu_event(&Input::ValueChange), go(Transition::Stay));
}

#[test]
fn exit_decisions() {
    assert_eq!(exit_event(&Input::KeyDown(Key::Escape)), go(Transition::Pop));
    assert_eq!(exit_event(&Input::Click(Button::Yes)), go(Transition::Quit));
    assert_eq!(exit_event(&Input::Click(Button::No)), go(Transition::Pop));
    assert_eq!(exit_event(&Input::CloseRequested), go(Transition::Stay));
}

#[test]
fn help_decisions() {
    assert_eq!(help_event(&Input::KeyDown(Key::Escape)), go(Transition::Pop));
    assert_eq!(help_event(&Input::Click(Button::Back)), go(Transition::Pop));
    assert_eq!(help_event(&Input::CloseRequested), go(Transition::Stay));
}

#[test]
fn leader_screen_decisions() {
    assert_eq!(leader_event(&Input::KeyDown(Key::Escape)), go(Transition::Pop));
    assert_eq!(leader_event(&Input::KeyDown(Key::PageDown)), Action::VolumeDown);
    assert_eq!(leader_event(&Input::KeyDown(Key::PageUp)), Action::VolumeUp);
    assert_eq!(leader_event(&Input::CloseRequested), go(Transition::Stay));
}

#[test]
fn end_game_takes_a_real_name() {
    let prompt = String::from("enter your name here");
    let empty = String::new();
    let name = String::from("Denis");
    let enter = Input::Click(Button::Enter);
    assert_eq!(end_game_event(&enter, &prompt), go(Transition::Stay));
    assert_eq!(end_game_event(&enter, &empty), go(Transition::Stay));
    assert_eq!(end_game_event(&enter, &name), Action::SubmitScore);
    assert_eq!(end_game_event(&Input::ValueChange, &name), Action::ReadName);
    assert_eq!(end_game_event(&Input::CloseRequested, &name), go(Transition::Push(Screen::Exit)));
    assert_eq!(end_game_event(&Input::KeyDown(Key::Escape), &name), go(Transition::Pop));
    assert_eq!(end_game_event(&Input::Click(Button::Back), &name), go(Transition::Stay));
}
