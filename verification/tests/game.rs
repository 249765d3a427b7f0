use game2048::game::{
    event_ready, finish_game, game_event, game_turn, power_of_2, random_moves, random_moves_with,
    save_on_stop, saved_score, turn_is_ready, GameAction,
};
use game2048::game_field::{do_game_step_4, do_game_step_6, Field, FieldSize, Usermove};
use game2048::screens::{Button, Input, Key, Screen, Transition};

fn game4(board: [[u32; 4]; 4]) -> Field {
    let mut f = Field::default(FieldSize::Four);
    f.field_4 = Some(board);
    f
}

fn game6(board: [[u32; 6]; 6]) -> Field {
    let mut f = Field::default(FieldSize::Six);
    f.field_6 = Some(board);
    f
}

fn sum4(f: &[[u32; 4]; 4]) -> u32 {
    f.iter().flatten().sum()
}

fn sum6(f: &[[u32; 6]; 6]) -> u32 {
    f.iter().flatten().sum()
}

/// Cells that differ between the two boards: each must hold a new 2 where
/// the first had an empty cell.
fn new_twos4(before: &[[u32; 4]; 4], after: &[[u32; 4]; 4]) -> usize {
    let mut n = 0;
    for i in 0..4 {
        for j in 0..4 {
            if before[i][j] != after[i][j] {
                assert_eq!(before[i][j], 0);
                assert_eq!(after[i][j], 2);
                n += 1;
            }
        }
    }
    n
}

const MOVABLE: [[u32; 4]; 4] = [[2, 2, 0, 0], [0, 4, 0, 0], [0, 0, 0, 0], [0, 0, 0, 8]];
const LOCKED: [[u32; 4]; 4] = [[2, 4, 2, 4], [4, 2, 4, 2], [2, 4, 2, 4], [4, 2, 4, 2]];

#[test]
fn a_turn_moves_then_adds_one_tile() {
    let mut f = game4(MOVABLE);
    assert!(game_turn(&mut f, &Usermove::Left));
    let mut moved = MOVABLE;
    do_game_step_4(&Usermove::Left, &mut moved);
    let board = f.field_4.unwrap();
    assert_eq!(new_twos4(&moved, &board), 1);
    assert_eq!(f.score, sum4(&MOVABLE) + 2);
    assert_eq!(f.score, 18);
    assert!(!f.loose);
    assert_eq!(f.field_6, None);
}

#[test]
fn a_hard_turn_adds_two_tiles() {
    let mut f = game4(MOVABLE);
    f.hard = true;
    assert!(game_turn(&mut f, &Usermove::Up));
    let mut moved = MOVABLE;
    do_game_step_4(&Usermove::Up, &mut moved);
    assert_eq!(new_twos4(&moved, &f.field_4.unwrap()), 2);
    assert_eq!(f.score, sum4(&MOVABLE) + 4);
}

#[test]
fn a_hard_turn_with_one_empty_cell_adds_one_tile() {
    // Moving right changes nothing here, but the board can still move down.
    let board = [[2, 4, 2, 4], [4, 2, 4, 2], [2, 4, 2, 4], [0, 2, 4, 2]];
    let mut f = game4(board);
    f.hard = true;
    assert!(game_turn(&mut f, &Usermove::Right));
    assert_eq!(f.field_4.unwrap()[3][0], 2);
    assert_eq!(f.score, sum4(&board) + 2);
}

#[test]
fn a_turn_on_a_stuck_board_loses_the_game() {
    let mut f = game4(LOCKED);
    assert!(!game_turn(&mut f, &Usermove::Left));
    assert!(f.loose);
    assert_eq!(f.field_4, Some(LOCKED));
    assert_eq!(f.score, 48);
}

#[test]
fn a_turn_on_the_six_board() {
    let mut board = [[0u32; 6]; 6];
    board[0][0] = 4;
    board[0][5] = 4;
    let mut f = game6(board);
    assert!(game_turn(&mut f, &Usermove::Right));
    let mut moved = board;
    do_game_step_6(&Usermove::Right, &mut moved);
    assert_eq!(moved[0][5], 8);
    let after = f.field_6.unwrap();
    assert_eq!(after[0][5], 8);
    assert_eq!(sum6(&after), 10);
    assert_eq!(f.score, 10);
    assert_eq!(f.field_4, None);
}

#[test]
fn power_of_2_gives_the_exponent() {
    assert_eq!(power_of_2(0), 0);
    assert_eq!(power_of_2(1), 0);
    assert_eq!(power_of_2(2), 1);
    assert_eq!(power_of_2(4), 2);
    assert_eq!(power_of_2(1024), 10);
    assert_eq!(power_of_2(3), 1);
    assert_eq!(power_of_2(1 << 31), 31);
    assert_eq!(power_of_2(u32::MAX), 31);
}

#[test]
fn finishing_a_game_that_counts_goes_to_the_end_screen() {
    let mut f = game4(LOCKED);
    f.score = 48;
    f.hard = true;
    let t = finish_game(&mut f);
    assert_eq!(t, Transition::Push(Screen::EndGame { score: 48, hard: true, size: FieldSize::Four }));
    assert_eq!(f.field_4, Some(LOCKED));
}

#[test]
fn finishing_a_random_game_drops_it() {
    let mut f = game4(LOCKED);
    f.skip = true;
    assert_eq!(finish_game(&mut f), Transition::Switch(Screen::MainMenu));
    assert_eq!(f.size, FieldSize::Empty);
    assert_eq!(f.field_4, None);
    assert!(!f.skip);
}

#[test]
fn game_screen_keys() {
    let mut f = game4(MOVABLE);
    assert_eq!(game_event(&mut f, &Input::CloseRequested), GameAction::Go(Transition::Push(Screen::Exit)));
    assert_eq!(
        game_event(&mut f, &Input::KeyDown(Key::Escape)),
        GameAction::Go(Transition::Push(Screen::PauseMenu))
    );
    assert_eq!(game_event(&mut f, &Input::KeyDown(Key::PageDown)), GameAction::VolumeDown);
    assert_eq!(game_event(&mut f, &Input::KeyDown(Key::PageUp)), GameAction::VolumeUp);
    assert_eq!(game_event(&mut f, &Input::KeyDown(Key::W)), GameAction::Redraw);
    assert_eq!(game_event(&mut f, &Input::KeyDown(Key::D)), GameAction::Redraw);
    assert_eq!(game_event(&mut f, &Input::KeyDown(Key::F1)), GameAction::Go(Transition::Stay));
    assert_eq!(game_event(&mut f, &Input::Click(Button::Music)), GameAction::Go(Transition::Stay));
    assert_eq!(f.field_4, Some(MOVABLE));
    assert_eq!(game_event(&mut f, &Input::KeyDown(Key::Left)), GameAction::Turned(true));
    assert_eq!(f.score, 18);
}

#[test]
fn return_ends_only_a_lost_game() {
    let mut f = game4(MOVABLE);
    assert_eq!(game_event(&mut f, &Input::KeyDown(Key::Return)), GameAction::Go(Transition::Stay));
    let mut g = game4(LOCKED);
    assert_eq!(game_event(&mut g, &Input::KeyDown(Key::Down)), GameAction::Turned(false));
    assert!(g.loose);
    assert_eq!(
        game_event(&mut g, &Input::KeyDown(Key::Return)),
        GameAction::Go(Transition::Push(Screen::EndGame { score: 48, hard: false, size: FieldSize::Four }))
    );
    g.skip = true;
    assert_eq!(
        game_event(&mut g, &Input::KeyDown(Key::Return)),
        GameAction::Go(Transition::Switch(Screen::MainMenu))
    );
    assert_eq!(g.size, FieldSize::Empty);
}

#[test]
fn end_button_ends_the_game_at_any_time() {
    let mut f = game4(MOVABLE);
    f.score = 16;
    assert_eq!(
        game_event(&mut f, &Input::Click(Button::EndGame)),
        GameAction::Go(Transition::Push(Screen::EndGame { score: 16, hard: false, size: FieldSize::Four }))
    );
}

#[test]
fn random_game_is_marked_and_grows() {
    let mut f = game4(MOVABLE);
    let r = game_event(&mut f, &Input::Click(Button::Random));
    assert!(matches!(r, GameAction::Randomized(Some(_))));
    assert!(f.skip);
    if r == GameAction::Randomized(Some(false)) {
        assert!(f.loose);
        let mut board = f.field_4.unwrap();
        assert!(!game2048::game_field::test_4(&mut board));
    } else {
        assert!(!f.loose);
    }
    let board = f.field_4.unwrap();
    assert!(sum4(&board) > sum4(&MOVABLE));
    assert_eq!(f.score, sum4(&board));
    assert_eq!(sum4(&board) % 2, 0);
}

#[test]
fn random_moves_on_the_six_board() {
    let mut board = [[0u32; 6]; 6];
    board[5][5] = 2;
    let mut f = game6(board);
    let last_moved = random_moves(&mut f).unwrap();
    assert!(f.skip);
    assert_eq!(f.loose, !last_moved);
    let after = f.field_6.unwrap();
    assert!(sum6(&after) >= 4);
    assert_eq!(f.score, sum6(&after));
}

#[test]
fn random_moves_on_a_stuck_board_lose() {
    let mut f = game4(LOCKED);
    assert_eq!(random_moves(&mut f), Some(false));
    assert!(f.loose && f.skip);
    assert_eq!(f.field_4, Some(LOCKED));
    assert_eq!(f.score, 48);
}

#[test]
fn save_on_stop_needs_a_board_of_the_size() {
    assert!(save_on_stop(&Field::default(FieldSize::Four)));
    // A 6x6 game is recorded with size four and no 4x4 board.
    assert!(!save_on_stop(&Field::default(FieldSize::Six)));
    assert!(save_on_stop(&Field::empty()));
    let mut f = Field::default(FieldSize::Six);
    f.size = FieldSize::Six;
    assert!(save_on_stop(&f));
}

#[test]
fn saved_score_reads_the_board() {
    assert_eq!(saved_score(&game4(LOCKED)), Some(48));
    assert_eq!(saved_score(&Field::empty()), None);
    let mut big = [[0u32; 4]; 4];
    big[0][0] = u32::MAX;
    big[3][3] = 1;
    assert_eq!(saved_score(&game4(big)), None);
    big[3][3] = 0;
    assert_eq!(saved_score(&game4(big)), Some(u32::MAX));
    let mut board = [[0u32; 6]; 6];
    board[2][3] = 64;
    board[0][0] = 2;
    assert_eq!(saved_score(&game6(board)), Some(66));
}

#[test]
fn readiness_of_a_turn() {
    assert!(turn_is_ready(&game4(MOVABLE), &Usermove::Left));
    assert!(!turn_is_ready(&Field::empty(), &Usermove::Left));
    let mut board = [[0u32; 4]; 4];
    board[0][0] = u32::MAX - 3;
    let mut f = game4(board);
    assert!(turn_is_ready(&f, &Usermove::Left));
    f.hard = true;
    assert!(!turn_is_ready(&f, &Usermove::Left));
    board[0][0] = u32::MAX;
    board[1][1] = 1;
    assert!(!turn_is_ready(&game4(board), &Usermove::Down));
}

#[test]
fn readiness_of_a_stuck_board_needs_only_its_sum() {
    let mut board = LOCKED;
    board[0][0] = u32::MAX - 46;
    // Sum: u32::MAX - 46 + 46 = u32::MAX, and a stuck board gets no new tile.
    assert!(turn_is_ready(&game4(board), &Usermove::Left));
}

#[test]
fn random_moves_with_stops_before_an_overflow() {
    let mut board = [[0u32; 4]; 4];
    board[0][0] = u32::MAX - 1;
    board[3][3] = 2;
    let mut f = game4(board);
    assert_eq!(random_moves_with(&mut f, 0, 0), None);
    assert!(f.skip);
    assert_eq!(f.field_4, Some(board));
}

#[test]
fn random_moves_with_plays_the_drawn_pair() {
    // y = 2 picks up and right; the first turn, up, moves the tile.
    let mut board = [[0u32; 4]; 4];
    board[3][0] = 2;
    let mut f = game4(board);
    let r = random_moves_with(&mut f, 0, 2);
    assert!(r.is_some());
    assert!(f.skip);
    let after = f.field_4.unwrap();
    assert_eq!(f.score, sum4(&after));
    assert!(sum4(&after) >= 4);
    assert_eq!(sum4(&after) % 2, 0);
}

#[test]
fn random_moves_with_on_a_stuck_board() {
    let mut f = game4(LOCKED);
    assert_eq!(random_moves_with(&mut f, 99, 1), Some(false));
    assert!(f.loose);
    assert_eq!(f.field_4, Some(LOCKED));
}

#[test]
fn readiness_of_events() {
    let none = Field::empty();
    assert!(!event_ready(&none, &Input::KeyDown(Key::Up)));
    assert!(event_ready(&none, &Input::KeyDown(Key::Escape)));
    assert!(!event_ready(&none, &Input::Click(Button::Random)));
    assert!(event_ready(&game4(MOVABLE), &Input::Click(Button::Random)));
    assert!(event_ready(&none, &Input::Click(Button::EndGame)));
    assert!(event_ready(&game4(MOVABLE), &Input::KeyDown(Key::Up)));
}

#[test]
fn the_default_field_has_no_board() {
    let f = <Field as Default>::default();
    assert_eq!(f.size, FieldSize::Four);
    assert_eq!(f.field_4, None);
    assert_eq!(f.field_6, None);
    assert_eq!(f.score, 0);
    assert!(!f.skip && !f.hard && !f.loose);
}
