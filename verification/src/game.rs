use vstd::prelude::*;

use crate::board_laws::{
    law_spawn_adds_two, law_step_keeps_sum, law_sum_bound_fits, lemma_spawn_leaves_empty,
};
use crate::screens::{Button, Input, Key, Screen, Transition};
use crate::game_field::{
    any_move_changes, can_move, cells, find_empty, game_step, grid_score, grid_sum, has_empty,
    has_two_empty, lemma_cells_square, lemma_grid_sum_prefix, lemma_line_sum_prefix,
    spawn, spawned, step, Field, FieldSize, Usermove,
};

verus! {

/// How many new tiles a turn adds to the board `h` that the move left: one,
/// or two on the hard difficulty, as far as `h` has empty cells.
pub open spec fn spawn_count(h: Seq<Seq<u32>>, hard: bool) -> int {
    if !has_empty(h) {
        0
    } else if hard && has_two_empty(h) {
        2
    } else {
        1
    }
}

/// The score after a turn with the move `m` on `g` fits in a `u32`.
pub open spec fn turn_fits(g: Seq<Seq<u32>>, m: Usermove, hard: bool) -> bool {
    grid_sum(g) + (if can_move(g) {
        2 * spawn_count(step(m, g), hard)
    } else {
        0int
    }) <= u32::MAX
}

/// `b` is a board that a turn with the move `m` can give on `g`: the tiles
/// move, then one new tile (two on the hard difficulty) appears.
pub open spec fn turn_result(g: Seq<Seq<u32>>, m: Usermove, hard: bool, b: Seq<Seq<u32>>) -> bool {
    exists|mid: Seq<Seq<u32>>|
        #[trigger] spawned(step(m, g), mid) && if hard {
            spawned(mid, b)
        } else {
            b == mid
        }
}

/// Plays one turn on a board: when some move changes it, the tiles move in
/// the direction `m` and new tiles appear; the result is whether the board
/// could move, and the score of the board afterwards.
fn turn_board<const N: usize>(board: &mut [[u32; N]; N], m: &Usermove, hard: bool) -> (r: (
    bool,
    u32,
))
    requires
        N > 0,
        turn_fits(cells(*old(board)), *m, hard),
    ensures
        r.0 == can_move(cells(*old(board))),
        r.0 ==> turn_result(cells(*old(board)), *m, hard, cells(*final(board))),
        !r.0 ==> *final(board) == *old(board),
        r.1 == grid_sum(cells(*final(board))),
        r.1 == grid_sum(cells(*old(board))) + if r.0 {
            2 * spawn_count(step(*m, cells(*old(board))), hard)
        } else {
            0int
        },
{
    let ghost g = cells(*board);
    proof {
        lemma_cells_square(*board);
        law_sum_bound_fits(g);
    }
    if any_move_changes(board) {
        game_step(m, board);
        let ghost h = cells(*board);
        proof {
            law_step_keeps_sum(*m, g);
            lemma_cells_square(*board);
        }
        spawn(board);
        let ghost mid = cells(*board);
        proof {
            law_spawn_adds_two(h, mid);
            if has_empty(h) {
                lemma_spawn_leaves_empty(h, mid, N as nat);
            }
        }
        if hard {
            spawn(board);
            proof {
                law_spawn_adds_two(mid, cells(*board));
            }
        }
        assert(spawned(step(*m, g), mid));
        let score = grid_score(board);
        (true, score)
    } else {
        let score = grid_score(board);
        (false, score)
    }
}

/// The board of a game: the 4x4 one when it is set, else the 6x6 one.
pub open spec fn board_of(f: Field) -> Seq<Seq<u32>> {
    if f.field_4.is_some() {
        cells(f.field_4.unwrap())
    } else {
        cells(f.field_6.unwrap())
    }
}

/// The game has a board.
pub open spec fn has_board(f: Field) -> bool {
    f.field_4.is_some() || f.field_6.is_some()
}

/// A turn with the move `m` can take the game `f0` to `f1`.  When some move
/// changes the board, the tiles move and new tiles appear; otherwise the
/// board stays and the game is marked lost.  Either way the score becomes the
/// sum of the board.
pub open spec fn turned(f0: Field, m: Usermove, f1: Field) -> bool {
    let g = board_of(f0);
    &&& f1.skip == f0.skip
    &&& f1.hard == f0.hard
    &&& f1.size == f0.size
    &&& f1.score == grid_sum(board_of(f1))
    &&& f0.field_4.is_some() ==> f1.field_4.is_some() && f1.field_6 == f0.field_6
    &&& f0.field_4.is_none() ==> f1.field_4.is_none() && f1.field_6.is_some()
    &&& if can_move(g) {
        turn_result(g, m, f0.hard, board_of(f1)) && f1.loose == f0.loose
    } else {
        f1.field_4 == f0.field_4 && f1.field_6 == f0.field_6 && f1.loose
    }
}

/// The game has a board, and a turn with the move `m` on it does not
/// overflow the score.
pub open spec fn turn_ready(f: Field, m: Usermove) -> bool {
    has_board(f) && turn_fits(board_of(f), m, f.hard)
}

/// Plays a turn of the game with the player's move: see `turned`.  Returns
/// whether the board could move; when it could not, the game is lost.
pub fn game_turn(field: &mut Field, user_move: &Usermove) -> (moved: bool)
    requires
        turn_ready(*old(field), *user_move),
    ensures
        moved == can_move(board_of(*old(field))),
        turned(*old(field), *user_move, *final(field)),
        final(field).score == grid_sum(board_of(*old(field))) + if moved {
            2 * spawn_count(step(*user_move, board_of(*old(field))), old(field).hard)
        } else {
            0int
        },
{
    match field.field_4 {
        Some(board) => {
            let mut array = board;
            let (moved, score) = turn_board(&mut array, user_move, field.hard);
            if moved {
                field.field_4 = Some(array);
            } else {
                field.loose = true;
            }
            field.score = score;
            moved
        },
        None => {
            let mut array = field.field_6.unwrap();
            let (moved, score) = turn_board(&mut array, user_move, field.hard);
            if moved {
                field.field_6 = Some(array);
            } else {
                field.loose = true;
            }
            field.score = score;
            moved
        },
    }
}

/// The games that the turns with the moves `ms`, one after the other, can
/// give from `f0`.
pub open spec fn turn_seq(f0: Field, ms: Seq<Usermove>, f1: Field) -> bool
    decreases ms.len(),
{
    if ms.len() == 0 {
        f1 == f0
    } else {
        exists|mid: Field| #[trigger] turned(f0, ms[0], mid) && turn_seq(mid, ms.drop_first(), f1)
    }
}

proof fn lemma_turn_seq_push(f0: Field, ms: Seq<Usermove>, f1: Field, m: Usermove, f2: Field)
    requires
        turn_seq(f0, ms, f1),
        turned(f1, m, f2),
    ensures
        turn_seq(f0, ms.push(m), f2),
    decreases ms.len(),
{
    if ms.len() == 0 {
        assert(ms.push(m).drop_first() =~= Seq::<Usermove>::empty());
        assert(turn_seq(f2, ms.push(m).drop_first(), f2));
        assert(turned(f0, ms.push(m)[0], f2));
    } else {
        let mid = choose|mid: Field| #[trigger] turned(f0, ms[0], mid) && turn_seq(mid, ms.drop_first(), f1);
        lemma_turn_seq_push(mid, ms.drop_first(), f1, m, f2);
        assert(ms.push(m).drop_first() =~= ms.drop_first().push(m));
        assert(turn_seq(mid, ms.push(m).drop_first(), f2));
        assert(turned(f0, ms.push(m)[0], mid));
    }
}

/// The moves `a`, `b`, `a`, `b`, ... : `k` pairs of them.
pub open spec fn alternating(k: nat, a: Usermove, b: Usermove) -> Seq<Usermove> {
    Seq::new(2 * k, |i: int| if i % 2 == 0 { a } else { b })
}

/// The pairs of moves that the random game plays, by the number drawn:
/// down and left, left and up, or up and right.
pub open spec fn random_pair(r: int) -> (Usermove, Usermove) {
    if r == 0 {
        (Usermove::Down, Usermove::Left)
    } else if r == 1 {
        (Usermove::Left, Usermove::Up)
    } else {
        (Usermove::Up, Usermove::Right)
    }
}

/// The game `f` marked as one that does not go on the leader board.
pub open spec fn skipped(f: Field) -> Field {
    Field { skip: true, ..f }
}

/// The turns that a random game plays for the drawn numbers `x` and `y`:
/// `(50 + x % 100) / 2` pairs of turns, between 25 and 74, with the pair of
/// moves that `y % 3` picks.
pub open spec fn random_turns(x: usize, y: usize) -> Seq<Usermove> {
    alternating(
        ((50 + x % 100) / 2) as nat,
        random_pair((y % 3) as int).0,
        random_pair((y % 3) as int).1,
    )
}

/// A random game for the drawn numbers `x` and `y` can take `f0` to `f1`
/// with the result `r`.  The game is marked as one that does not go on the
/// leader board, and its turns are played one after the other.  When all of
/// them were played (`Some`), the result tells whether the last one moved the
/// board; the game is marked lost exactly when it did not.  `None` tells that
/// a turn would have overflowed the score: the game stops before it.
pub open spec fn random_played(f0: Field, x: usize, y: usize, r: Option<bool>, f1: Field) -> bool {
    let ms = random_turns(x, y);
    &&& f1.skip
    &&& match r {
        Some(last_moved) => {
            &&& turn_seq(skipped(f0), ms, f1)
            &&& last_moved ==> f1.loose == f0.loose
            &&& !last_moved ==> f1.loose && !can_move(board_of(f1))
        },
        None => exists|j: int|
            0 <= j < ms.len() && #[trigger] turn_seq(skipped(f0), ms.take(j), f1) && !turn_ready(
                f1,
                ms[j],
            ),
    }
}

/// Plays the random game for the drawn numbers `x` and `y`: see
/// `random_played` and `random_turns`.
pub fn random_moves_with(field: &mut Field, x: usize, y: usize) -> (r: Option<bool>)
    requires
        has_board(*old(field)),
    ensures
        random_played(*old(field), x, y, r, *final(field)),
{
    let moves = [Usermove::Down, Usermove::Left, Usermove::Up, Usermove::Right];
    field.skip = true;
    let ghost start = *field;
    let ghost ms = random_turns(x, y);
    let pairs = (50 + x % 100) / 2;
    let first = y % 3;
    let total = 2 * pairs;
    assert(moves@[first as int] == random_pair(first as int).0);
    assert(moves@[first + 1] == random_pair(first as int).1);
    let mut t: usize = 0;
    let mut last_moved = true;
    let ghost mut stuck = false;
    while t < total
        invariant
            stuck ==> field.loose && !can_move(board_of(*field)),
            !stuck ==> field.loose == start.loose,
            last_moved == !stuck,
            total == 2 * pairs,
            50 <= total,
            ms.len() == total,
            t <= total,
            first < 3,
            ms == random_turns(x, y),
            moves@ == seq![Usermove::Down, Usermove::Left, Usermove::Up, Usermove::Right],
            forall|i: int|
                0 <= i < total ==> #[trigger] ms[i] == if i % 2 == 0 {
                    moves@[first as int]
                } else {
                    moves@[first + 1]
                },
            has_board(*field),
            field.hard == start.hard,
            turn_seq(start, ms.take(t as int), *field),
            field.skip,
            start == skipped(*old(field)),
        decreases total - t,
    {
        let m = if t % 2 == 0 {
            moves[first]
        } else {
            moves[first + 1]
        };
        assert(m == ms[t as int]);
        if !turn_is_ready(field, &m) {
            return None;
        }
        let ghost f0 = *field;
        last_moved = game_turn(field, &m);
        proof {
            if !last_moved {
                stuck = true;
            }
            lemma_turn_seq_push(start, ms.take(t as int), f0, m, *field);
            assert(ms.take(t as int).push(m) =~= ms.take(t + 1));
        }
        t = t + 1;
    }
    assert(ms.take(total as int) =~= ms);
    Some(last_moved)
}

/// Plays a random game on the board: draws two numbers and plays the random
/// game for them (see `random_moves_with`).
pub fn random_moves(field: &mut Field) -> (r: Option<bool>)
    requires
        has_board(*old(field)),
    ensures
        exists|x: usize, y: usize| #[trigger] random_played(*old(field), x, y, r, *final(field)),
{
    let x = crate::game_field::random_usize();
    let y = crate::game_field::random_usize();
    random_moves_with(field, x, y)
}

/// The exponent of the largest power of two that is at most `n`; 0 for 0
/// and 1.
pub open spec fn log2_floor(n: nat) -> nat
    decreases n,
{
    if n <= 1 {
        0
    } else {
        1 + log2_floor(n / 2)
    }
}

/// Law: the random game for the drawn numbers `x` and `y` plays
/// `(50 + x % 100) / 2` pairs of turns, and its turn `t` is the move at
/// index `y % 3 + t % 2` of the list down, left, up, right: the turns
/// alternate down and left, left and up, or up and right, as `y % 3` is 0,
/// 1 or 2.
pub proof fn law_random_turn_moves(x: usize, y: usize, t: int)
    requires
        0 <= t < random_turns(x, y).len(),
    ensures
        random_turns(x, y).len() == 2 * ((50 + x % 100) / 2),
        random_turns(x, y)[t] == seq![
            Usermove::Down,
            Usermove::Left,
            Usermove::Up,
            Usermove::Right,
        ][(y % 3) as int + t % 2],
{
    let table = seq![Usermove::Down, Usermove::Left, Usermove::Up, Usermove::Right];
    let r = (y % 3) as int;
    assert(0 <= r < 3);
    if r == 0 {
        assert(table[0] == Usermove::Down && table[1] == Usermove::Left);
    } else if r == 1 {
        assert(table[1] == Usermove::Left && table[2] == Usermove::Up);
    } else {
        assert(table[2] == Usermove::Up && table[3] == Usermove::Right);
    }
}

/// Law: `power_of_2` undoes raising 2 to a power: the exponent of `2^n` is
/// `n`.
pub proof fn law_log2_of_power(n: nat)
    ensures
        log2_floor(vstd::arithmetic::power2::pow2(n)) == n,
    decreases n,
{
    vstd::arithmetic::power2::lemma2_to64();
    if n > 0 {
        vstd::arithmetic::power2::lemma_pow2_unfold(n);
        law_log2_of_power((n - 1) as nat);
        vstd::arithmetic::power2::lemma_pow2_pos((n - 1) as nat);
        assert(vstd::arithmetic::power2::pow2(n) / 2 == vstd::arithmetic::power2::pow2(
            (n - 1) as nat,
        ));
    }
}

/// The exponent of a tile's value, `2^n -> n`, which picks its sprite; 0 for
/// an empty cell.
pub fn power_of_2(i: u32) -> (r: u32)
    ensures
        r == log2_floor(i as nat),
{
    if i == 0 {
        return 0;
    }
    let mut i = i;
    let ghost i0 = i;
    let mut counter: u32 = 0;
    while i != 1
        invariant
            i >= 1,
            counter + log2_floor(i as nat) == log2_floor(i0 as nat),
            counter + i <= i0,
        decreases i,
    {
        i = i / 2;
        counter = counter + 1;
    }
    counter
}

/// The score of a saved game, taken from its board: the 4x4 one when it is
/// set, else the 6x6 one; none when the game has no board or when the sum of
/// its tiles does not fit in a `u32`.
pub fn saved_score(field: &Field) -> (score: Option<u32>)
    ensures
        score == if has_board(*field) && grid_sum(board_of(*field)) <= u32::MAX {
            Some(grid_sum(board_of(*field)) as u32)
        } else {
            None
        },
{
    match field.field_4 {
        Some(board) => bounded_sum(&board),
        None => match field.field_6 {
            Some(board) => bounded_sum(&board),
            None => None,
        },
    }
}

/// Whether the game screen saves the game when it closes: a game of size 4
/// or 6 is saved when it has a board of that size, and the record of no game
/// always.
pub fn save_on_stop(field: &Field) -> (r: bool)
    ensures
        r == match field.size {
            FieldSize::Four => field.field_4.is_some(),
            FieldSize::Six => field.field_6.is_some(),
            FieldSize::Empty => true,
        },
{
    match field.size {
        FieldSize::Four => field.field_4.is_some(),
        FieldSize::Six => field.field_6.is_some(),
        FieldSize::Empty => true,
    }
}


/// What the game screen asks of its caller after an event.
#[derive(Clone, Copy, Debug, PartialEq, Eq, Structural)]
pub enum GameAction {
    /// Change the screens as given.
    Go(Transition),
    /// A turn was played: draw the board again when it moved (`true`), or
    /// show that the game is lost (`false`); stay.
    Turned(bool),
    /// Lower the music's volume, and stay.
    VolumeDown,
    /// Raise the music's volume, and stay.
    VolumeUp,
    /// Load the sprites again and draw the board of the game's size; stay.
    Redraw,
    /// A random game was played: draw the board again, and show the score,
    /// or that the game is lost when its last turn could not move
    /// (`Some(false)`); stay.  `None`: a turn of it would have overflowed
    /// the score (see `random_played`).
    Randomized(Option<bool>),
}

/// The move that an arrow key plays.
pub open spec fn key_move(k: Key) -> Option<Usermove> {
    match k {
        Key::Left => Some(Usermove::Left),
        Key::Right => Some(Usermove::Right),
        Key::Up => Some(Usermove::Up),
        Key::Down => Some(Usermove::Down),
        _ => None,
    }
}

/// The event `input` can be taken on the game `f`: an arrow key plays a
/// turn, which must not overflow the score (see `turn_ready`), and the
/// "random" button plays a random game, which needs a board.
pub open spec fn event_fits(f: Field, input: Input) -> bool {
    match input {
        Input::KeyDown(k) => key_move(k).is_some() ==> turn_ready(f, key_move(k).unwrap()),
        Input::Click(Button::Random) => has_board(f),
        _ => true,
    }
}

/// Ends the game at hand: a game that counts goes to the end screen with its
/// score, difficulty and size; a random game is dropped, the record of no
/// game takes its place, and the main menu comes back.
pub fn finish_game(field: &mut Field) -> (r: Transition)
    ensures
        !old(field).skip ==> r == Transition::Push(
            Screen::EndGame { score: old(field).score, hard: old(field).hard, size: old(field).size },
        ) && *final(field) == *old(field),
        old(field).skip ==> r == Transition::Switch(Screen::MainMenu)
            && final(field).is_empty_record(),
{
    if !field.skip {
        Transition::Push(Screen::EndGame { score: field.score, hard: field.hard, size: field.size })
    } else {
        *field = Field::empty();
        Transition::Switch(Screen::MainMenu)
    }
}

/// The game screen.  The arrow keys play a turn (see `game_turn`), "return"
/// ends a lost game (see `finish_game`), and the "random" button plays a
/// random game (see `random_moves`).
pub fn game_event(field: &mut Field, input: &Input) -> (r: GameAction)
    requires
        event_fits(*old(field), *input),
    ensures
        match *input {
            Input::CloseRequested => r == GameAction::Go(Transition::Push(Screen::Exit))
                && *final(field) == *old(field),
            Input::KeyDown(k) => match k {
                Key::Escape => r == GameAction::Go(Transition::Push(Screen::PauseMenu))
                    && *final(field) == *old(field),
                Key::Left | Key::Right | Key::Up | Key::Down => r == GameAction::Turned(
                    can_move(board_of(*old(field))),
                ) && turned(*old(field), key_move(k).unwrap(), *final(field)),
                Key::Return => if old(field).loose {
                    r matches GameAction::Go(t) && (!old(field).skip ==> t == Transition::Push(
                        Screen::EndGame {
                            score: old(field).score,
                            hard: old(field).hard,
                            size: old(field).size,
                        },
                    ) && *final(field) == *old(field)) && (old(field).skip ==> t
                        == Transition::Switch(Screen::MainMenu) && final(field).is_empty_record())
                } else {
                    r == GameAction::Go(Transition::Stay) && *final(field) == *old(field)
                },
                Key::PageDown => r == GameAction::VolumeDown && *final(field) == *old(field),
                Key::PageUp => r == GameAction::VolumeUp && *final(field) == *old(field),
                Key::W | Key::A | Key::S | Key::D => r == GameAction::Redraw && *final(field)
                    == *old(field),
                _ => r == GameAction::Go(Transition::Stay) && *final(field) == *old(field),
            },
            Input::Click(Button::EndGame) => r matches GameAction::Go(t) && (!old(field).skip ==> t
                == Transition::Push(
                Screen::EndGame {
                    score: old(field).score,
                    hard: old(field).hard,
                    size: old(field).size,
                },
            ) && *final(field) == *old(field)) && (old(field).skip ==> t == Transition::Switch(
                Screen::MainMenu,
            ) && final(field).is_empty_record()),
            Input::Click(Button::Random) => r matches GameAction::Randomized(played) && exists|
                x: usize,
                y: usize,
            | #[trigger] random_played(*old(field), x, y, played, *final(field)),
            _ => r == GameAction::Go(Transition::Stay) && *final(field) == *old(field),
        },
{
    match *input {
        Input::CloseRequested => GameAction::Go(Transition::Push(Screen::Exit)),
        Input::KeyDown(k) => match k {
            Key::Escape => GameAction::Go(Transition::Push(Screen::PauseMenu)),
            Key::Right => {
                assert(key_move(k) == Some(Usermove::Right));
                GameAction::Turned(game_turn(field, &Usermove::Right))
            },
            Key::Left => {
                assert(key_move(k) == Some(Usermove::Left));
                GameAction::Turned(game_turn(field, &Usermove::Left))
            },
            Key::Up => {
                assert(key_move(k) == Some(Usermove::Up));
                GameAction::Turned(game_turn(field, &Usermove::Up))
            },
            Key::Down => {
                assert(key_move(k) == Some(Usermove::Down));
                GameAction::Turned(game_turn(field, &Usermove::Down))
            },
            Key::Return => {
                if field.loose {
                    GameAction::Go(finish_game(field))
                } else {
                    GameAction::Go(Transition::Stay)
                }
            },
            Key::PageDown => GameAction::VolumeDown,
            Key::PageUp => GameAction::VolumeUp,
            Key::W | Key::A | Key::S | Key::D => GameAction::Redraw,
            _ => GameAction::Go(Transition::Stay),
        },
        Input::Click(button) => match button {
            Button::EndGame => GameAction::Go(finish_game(field)),
            Button::Music => GameAction::Go(Transition::Stay),
            Button::Random => GameAction::Randomized(random_moves(field)),
            _ => GameAction::Go(Transition::Stay),
        },
        _ => GameAction::Go(Transition::Stay),
    }
}


/// The sum of the board, when it fits in a `u32`.
fn bounded_sum<const N: usize>(board: &[[u32; N]; N]) -> (r: Option<u32>)
    ensures
        match r {
            Some(s) => s == grid_sum(cells(*board)),
            None => grid_sum(cells(*board)) > u32::MAX,
        },
{
    let ghost g = cells(*board);
    let mut acc: u64 = 0;
    let mut i: usize = 0;
    while i < N
        invariant
            i <= N,
            g == cells(*board),
            acc == grid_sum(g.take(i as int)),
            acc <= u32::MAX,
        decreases N - i,
    {
        let mut j: usize = 0;
        while j < N
            invariant
                i < N,
                j <= N,
                g == cells(*board),
                acc == grid_sum(g.take(i as int)) + crate::line::line_sum(
                    g[i as int].take(j as int),
                ),
                acc <= u32::MAX,
            decreases N - j,
        {
            proof {
                assert(g[i as int].take(j + 1).drop_last() =~= g[i as int].take(j as int));
                assert(g.take(i + 1).drop_last() =~= g.take(i as int));
            }
            let next = acc + board[i][j] as u64;
            if next > 0xffff_ffffu64 {
                proof {
                    lemma_line_sum_prefix(g[i as int], j + 1);
                    lemma_grid_sum_prefix(g, i + 1);
                }
                return None;
            }
            acc = next;
            j = j + 1;
        }
        proof {
            assert(g[i as int].take(N as int) =~= g[i as int]);
            assert(g.take(i + 1).drop_last() =~= g.take(i as int));
        }
        i = i + 1;
    }
    assert(g.take(N as int) =~= g);
    Some(acc as u32)
}

/// How many empty cells the board has, counted up to two.
fn empty_cells_up_to_two<const N: usize>(board: &[[u32; N]; N]) -> (r: u32)
    ensures
        r == if !has_empty(cells(*board)) {
            0u32
        } else if has_two_empty(cells(*board)) {
            2u32
        } else {
            1u32
        },
{
    let ghost g = cells(*board);
    match find_empty(board) {
        None => 0,
        Some((i, j)) => {
            let mut a: usize = 0;
            while a < N
                invariant
                    a <= N,
                    i < N && j < N,
                    g == cells(*board),
                    g[i as int][j as int] == 0,
                    forall|x: int, y: int|
                        0 <= x < a && 0 <= y < N && (x != i || y != j) ==> #[trigger] g[x][y]
                            != 0,
                decreases N - a,
            {
                let mut b: usize = 0;
                while b < N
                    invariant
                        a < N,
                        b <= N,
                        i < N && j < N,
                        g == cells(*board),
                        g[i as int][j as int] == 0,
                        forall|x: int, y: int|
                            0 <= x < a && 0 <= y < N && (x != i || y != j) ==> #[trigger] g[x][y]
                                != 0,
                        forall|y: int| 0 <= y < b && (a != i || y != j) ==> #[trigger] g[a as int][y]
                            != 0,
                    decreases N - b,
                {
                    if board[a][b] == 0 && (a != i || b != j) {
                        assert(g[a as int][b as int] == 0 && g[i as int][j as int] == 0);
                        assert(has_two_empty(g));
                        return 2;
                    }
                    b = b + 1;
                }
                a = a + 1;
            }
            assert(has_empty(g)) by {
                assert(g[i as int][j as int] == 0);
            }
            1
        },
    }
}

/// Decides `turn_fits` on a board.
fn turn_fits_board<const N: usize>(board: &[[u32; N]; N], m: &Usermove, hard: bool) -> (r: bool)
    requires
        N > 0,
    ensures
        r == turn_fits(cells(*board), *m, hard),
{
    let ghost g = cells(*board);
    match bounded_sum(board) {
        None => false,
        Some(sum) => {
            proof {
                lemma_cells_square(*board);
                law_sum_bound_fits(g);
            }
            if !any_move_changes(board) {
                true
            } else {
                let mut after = *board;
                game_step(m, &mut after);
                let empties = empty_cells_up_to_two(&after);
                let count: u64 = if empties == 0 {
                    0
                } else if hard && empties == 2 {
                    2
                } else {
                    1
                };
                sum as u64 + 2 * count <= 0xffff_ffffu64
            }
        },
    }
}

/// Whether a turn with the move `m` can be played on the game: see
/// `turn_ready`.
pub fn turn_is_ready(field: &Field, m: &Usermove) -> (r: bool)
    ensures
        r == turn_ready(*field, *m),
{
    match field.field_4 {
        Some(board) => turn_fits_board(&board, m, field.hard),
        None => match field.field_6 {
            Some(board) => turn_fits_board(&board, m, field.hard),
            None => false,
        },
    }
}

/// Whether the game screen can take the event `input`: see `event_fits`.
pub fn event_ready(field: &Field, input: &Input) -> (r: bool)
    ensures
        r == event_fits(*field, *input),
{
    match *input {
        Input::KeyDown(k) => match k {
            Key::Left => turn_is_ready(field, &Usermove::Left),
            Key::Right => turn_is_ready(field, &Usermove::Right),
            Key::Up => turn_is_ready(field, &Usermove::Up),
            Key::Down => turn_is_ready(field, &Usermove::Down),
            _ => true,
        },
        Input::Click(Button::Random) => field.field_4.is_some() || field.field_6.is_some(),
        _ => true,
    }
}

} // verus!
