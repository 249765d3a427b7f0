use vstd::prelude::*;

use crate::line::{line_sum, slide, slide_fits, slide_line};

verus! {

/// The size of the board of a game, or none for a slot that holds no game.
#[derive(Clone, Copy, Debug, PartialEq, Eq, Structural)]
pub enum FieldSize {
    Four,
    Six,
    Empty,
}

impl Default for FieldSize {
    fn default() -> (r: FieldSize)
        ensures
            r == FieldSize::Four,
    {
        FieldSize::Four
    }
}

/// A move of the player: the direction in which all tiles are pushed.
#[derive(Clone, Copy, Debug, PartialEq, Eq, Structural)]
pub enum Usermove {
    Left,
    Right,
    Up,
    Down,
}

/// A line read from its back end to its front end.
pub open spec fn backward(s: Seq<u32>) -> Seq<u32> {
    Seq::new(s.len(), |i: int| s[s.len() - 1 - i])
}

/// The board as rows of cells: `cells(g)[i][j]` is row `i`, column `j`.
pub open spec fn cells<const N: usize>(g: [[u32; N]; N]) -> Seq<Seq<u32>> {
    Seq::new(N as nat, |i: int| g@[i]@)
}

/// Column `j` of a square board, top to bottom.
pub open spec fn column(g: Seq<Seq<u32>>, j: int) -> Seq<u32> {
    Seq::new(g.len(), |i: int| g[i][j])
}

/// The board after the player's move `m`: every row (for `Left` and
/// `Right`) or column (for `Up` and `Down`) is slid towards that side.
pub open spec fn step(m: Usermove, g: Seq<Seq<u32>>) -> Seq<Seq<u32>> {
    let n = g.len();
    match m {
        Usermove::Left => Seq::new(n, |i: int| slide(g[i])),
        Usermove::Right => Seq::new(n, |i: int| backward(slide(backward(g[i])))),
        Usermove::Up => Seq::new(n, |i: int| Seq::new(n, |j: int| slide(column(g, j))[i])),
        Usermove::Down => Seq::new(
            n,
            |i: int| Seq::new(n, |j: int| backward(slide(backward(column(g, j))))[i]),
        ),
    }
}

/// The move `m` makes no merge that overflows a `u32`.
pub open spec fn step_fits(m: Usermove, g: Seq<Seq<u32>>) -> bool {
    match m {
        Usermove::Left => forall|i: int| 0 <= i < g.len() ==> slide_fits(#[trigger] g[i]),
        Usermove::Right => forall|i: int| 0 <= i < g.len() ==> slide_fits(backward(#[trigger] g[i])),
        Usermove::Up => forall|j: int| 0 <= j < g.len() ==> slide_fits(#[trigger] column(g, j)),
        Usermove::Down => forall|j: int|
            0 <= j < g.len() ==> slide_fits(backward(#[trigger] column(g, j))),
    }
}

/// None of the four moves overflows a `u32`.
pub open spec fn all_steps_fit(g: Seq<Seq<u32>>) -> bool {
    &&& step_fits(Usermove::Up, g)
    &&& step_fits(Usermove::Down, g)
    &&& step_fits(Usermove::Left, g)
    &&& step_fits(Usermove::Right, g)
}

/// The moves up, down, left and right, tried in this order on the board
/// until one changes it, make no merge that overflows a `u32`.
pub open spec fn test_fits(g: Seq<Seq<u32>>) -> bool {
    &&& step_fits(Usermove::Up, g)
    &&& step(Usermove::Up, g) == g ==> step_fits(Usermove::Down, g)
    &&& step(Usermove::Up, g) == g && step(Usermove::Down, g) == g ==> step_fits(
        Usermove::Left,
        g,
    )
    &&& step(Usermove::Up, g) == g && step(Usermove::Down, g) == g && step(Usermove::Left, g) == g
        ==> step_fits(Usermove::Right, g)
}

/// Some move changes the board.
pub open spec fn can_move(g: Seq<Seq<u32>>) -> bool {
    ||| step(Usermove::Up, g) != g
    ||| step(Usermove::Down, g) != g
    ||| step(Usermove::Left, g) != g
    ||| step(Usermove::Right, g) != g
}

/// The board is a square of side `n`.
pub open spec fn is_square(g: Seq<Seq<u32>>, n: nat) -> bool {
    &&& g.len() == n
    &&& forall|i: int| 0 <= i < n ==> (#[trigger] g[i]).len() == n
}

pub proof fn lemma_cells_square<const N: usize>(g: [[u32; N]; N])
    ensures
        is_square(cells(g), N as nat),
{
}

fn reversed<const N: usize>(a: &[u32; N]) -> (r: [u32; N])
    ensures
        r@ == backward(a@),
{
    let mut r: [u32; N] = [0u32; N];
    let mut k: usize = 0;
    while k < N
        invariant
            k <= N,
            r@.len() == N,
            a@.len() == N,
            forall|m: int| 0 <= m < k ==> r@[m] == a@[N - 1 - m],
        decreases N - k,
    {
        r[k] = a[N - 1 - k];
        k = k + 1;
    }
    assert(r@ =~= backward(a@));
    r
}

fn get_column<const N: usize>(g: &[[u32; N]; N], j: usize) -> (c: [u32; N])
    requires
        j < N,
    ensures
        c@ == column(cells(*g), j as int),
{
    let mut c: [u32; N] = [0u32; N];
    let mut i: usize = 0;
    while i < N
        invariant
            i <= N,
            j < N,
            c@.len() == N,
            forall|m: int| 0 <= m < i ==> c@[m] == cells(*g)[m][j as int],
        decreases N - i,
    {
        c[i] = g[i][j];
        i = i + 1;
    }
    assert(c@ =~= column(cells(*g), j as int));
    c
}

fn set_column<const N: usize>(g: &mut [[u32; N]; N], j: usize, c: &[u32; N])
    requires
        j < N,
    ensures
        forall|r: int, k: int|
            0 <= r < N && 0 <= k < N ==> #[trigger] cells(*final(g))[r][k] == if k == j {
                c@[r]
            } else {
                cells(*old(g))[r][k]
            },
{
    let ghost g0 = cells(*g);
    let mut i: usize = 0;
    while i < N
        invariant
            i <= N,
            j < N,
            g0 == cells(*old(g)),
            forall|r: int, k: int|
                0 <= r < N && 0 <= k < N ==> #[trigger] cells(*g)[r][k] == if k == j && r < i {
                    c@[r]
                } else {
                    g0[r][k]
                },
        decreases N - i,
    {
        let ghost before = cells(*g);
        let mut row = g[i];
        assert(row@ == before[i as int]);
        row[j] = c[i];
        g[i] = row;
        assert forall|r: int, k: int| 0 <= r < N && 0 <= k < N implies #[trigger] cells(*g)[r][k]
            == if k == j && r < i + 1 {
            c@[r]
        } else {
            g0[r][k]
        } by {
            if r != i {
                assert(cells(*g)[r] == before[r]);
            }
            assert(before[r][k] == (if k == j && r < i {
                c@[r]
            } else {
                g0[r][k]
            }));
        }
        i = i + 1;
    }
}

/// Moves every tile of a square board in the direction `m`.
pub(crate) fn game_step<const N: usize>(m: &Usermove, field: &mut [[u32; N]; N])
    requires
        step_fits(*m, cells(*old(field))),
    ensures
        cells(*final(field)) == step(*m, cells(*old(field))),
{
    let ghost g0 = cells(*field);
    match *m {
        Usermove::Left => {
            let mut i: usize = 0;
            while i < N
                invariant
                    i <= N,
                    g0 == cells(*old(field)),
                    step_fits(Usermove::Left, g0),
                    forall|r: int|
                        0 <= r < N ==> #[trigger] cells(*field)[r] == if r < i {
                            slide(g0[r])
                        } else {
                            g0[r]
                        },
                decreases N - i,
            {
                let ghost before = cells(*field);
                assert(before[i as int] == g0[i as int]);
                let mut row = field[i];
                assert(row@ == g0[i as int]);
                slide_line(&mut row);
                field[i] = row;
                assert forall|r: int| 0 <= r < N implies #[trigger] cells(*field)[r] == if r < i
                    + 1 {
                    slide(g0[r])
                } else {
                    g0[r]
                } by {
                    if r != i {
                        assert(cells(*field)[r] == before[r]);
                    }
                }
                i = i + 1;
            }
            assert(cells(*field) =~= step(Usermove::Left, g0));
        },
        Usermove::Right => {
            let mut i: usize = 0;
            while i < N
                invariant
                    i <= N,
                    g0 == cells(*old(field)),
                    step_fits(Usermove::Right, g0),
                    forall|r: int|
                        0 <= r < N ==> #[trigger] cells(*field)[r] == if r < i {
                            backward(slide(backward(g0[r])))
                        } else {
                            g0[r]
                        },
                decreases N - i,
            {
                let ghost before = cells(*field);
                assert(before[i as int] == g0[i as int]);
                let mut row = reversed(&field[i]);
                assert(row@ == backward(g0[i as int]));
                slide_line(&mut row);
                let back = reversed(&row);
                field[i] = back;
                assert forall|r: int| 0 <= r < N implies #[trigger] cells(*field)[r] == if r < i
                    + 1 {
                    backward(slide(backward(g0[r])))
                } else {
                    g0[r]
                } by {
                    if r != i {
                        assert(cells(*field)[r] == before[r]);
                    }
                }
                i = i + 1;
            }
            assert(cells(*field) =~= step(Usermove::Right, g0));
        },
        Usermove::Up => {
            let mut j: usize = 0;
            while j < N
                invariant
                    j <= N,
                    g0 == cells(*old(field)),
                    step_fits(Usermove::Up, g0),
                    forall|r: int, k: int|
                        0 <= r < N && 0 <= k < N ==> #[trigger] cells(*field)[r][k] == if k < j {
                            slide(column(g0, k))[r]
                        } else {
                            g0[r][k]
                        },
                decreases N - j,
            {
                let mut c = get_column(field, j);
                assert(c@ =~= column(g0, j as int));
                slide_line(&mut c);
                set_column(field, j, &c);
                j = j + 1;
            }
            assert forall|r: int| 0 <= r < N implies #[trigger] cells(*field)[r] =~= step(
                Usermove::Up,
                g0,
            )[r] by {}
            assert(cells(*field) =~= step(Usermove::Up, g0));
        },
        Usermove::Down => {
            let mut j: usize = 0;
            while j < N
                invariant
                    j <= N,
                    g0 == cells(*old(field)),
                    step_fits(Usermove::Down, g0),
                    forall|r: int, k: int|
                        0 <= r < N && 0 <= k < N ==> #[trigger] cells(*field)[r][k] == if k < j {
                            backward(slide(backward(column(g0, k))))[r]
                        } else {
                            g0[r][k]
                        },
                decreases N - j,
            {
                let c0 = get_column(field, j);
                assert(c0@ =~= column(g0, j as int));
                let mut c = reversed(&c0);
                slide_line(&mut c);
                let back = reversed(&c);
                set_column(field, j, &back);
                j = j + 1;
            }
            assert forall|r: int| 0 <= r < N implies #[trigger] cells(*field)[r] =~= step(
                Usermove::Down,
                g0,
            )[r] by {}
            assert(cells(*field) =~= step(Usermove::Down, g0));
        },
    }
}


/// Moves every tile of the 6x6 board in the direction `step`.
pub fn do_game_step_6(step: &Usermove, field: &mut [[u32; 6]; 6])
    requires
        step_fits(*step, cells(*old(field))),
    ensures
        cells(*final(field)) == self::step(*step, cells(*old(field))),
{
    game_step(step, field);
}

/// Moves every tile of the 4x4 board in the direction `step`.
pub fn do_game_step_4(step: &Usermove, field: &mut [[u32; 4]; 4])
    requires
        step_fits(*step, cells(*old(field))),
    ensures
        cells(*final(field)) == self::step(*step, cells(*old(field))),
{
    game_step(step, field);
}

fn same_grid<const N: usize>(a: &[[u32; N]; N], b: &[[u32; N]; N]) -> (r: bool)
    ensures
        r == (cells(*a) == cells(*b)),
{
    let mut i: usize = 0;
    while i < N
        invariant
            i <= N,
            forall|r: int, k: int| 0 <= r < i && 0 <= k < N ==> cells(*a)[r][k] == cells(*b)[r][k],
        decreases N - i,
    {
        let mut j: usize = 0;
        while j < N
            invariant
                i < N,
                j <= N,
                forall|r: int, k: int|
                    0 <= r < i && 0 <= k < N ==> cells(*a)[r][k] == cells(*b)[r][k],
                forall|k: int| 0 <= k < j ==> cells(*a)[i as int][k] == cells(*b)[i as int][k],
            decreases N - j,
        {
            if a[i][j] != b[i][j] {
                assert(cells(*a)[i as int][j as int] != cells(*b)[i as int][j as int]);
                return false;
            }
            j = j + 1;
        }
        i = i + 1;
    }
    assert forall|r: int| 0 <= r < N implies #[trigger] cells(*a)[r] =~= cells(*b)[r] by {}
    assert(cells(*a) =~= cells(*b));
    true
}

/// Tries the four moves in the order up, down, left, right on a copy of the
/// board and reports whether one of them changes it.
pub(crate) fn any_move_changes<const N: usize>(field: &[[u32; N]; N]) -> (r: bool)
    requires
        test_fits(cells(*field)),
    ensures
        r == can_move(cells(*field)),
{
    let ghost g = cells(*field);
    let moves = [Usermove::Up, Usermove::Down, Usermove::Left, Usermove::Right];
    let mut test = *field;
    let mut k: usize = 0;
    while k < 4
        invariant
            k <= 4,
            g == cells(*field),
            test_fits(g),
            cells(test) == g,
            moves@ == seq![Usermove::Up, Usermove::Down, Usermove::Left, Usermove::Right],
            forall|m: int| 0 <= m < k ==> step(#[trigger] moves@[m], g) == g,
        decreases 4 - k,
    {
        let m = moves[k];
        game_step(&m, &mut test);
        if !same_grid(&test, field) {
            return true;
        }
        k = k + 1;
    }
    assert(step(moves@[0], g) == g);
    assert(step(moves@[1], g) == g);
    assert(step(moves@[2], g) == g);
    assert(step(moves@[3], g) == g);
    false
}

/// Tells whether the player can still move on the 6x6 board: true when one
/// of the four moves changes it.  The board is left as it was.
pub fn test_6(field: &mut [[u32; 6]; 6]) -> (r: bool)
    requires
        test_fits(cells(*old(field))),
    ensures
        *final(field) == *old(field),
        r == can_move(cells(*old(field))),
{
    any_move_changes(field)
}

/// Tells whether the player can still move on the 4x4 board: true when one
/// of the four moves changes it.  The board is left as it was.
pub fn test_4(field: &mut [[u32; 4]; 4]) -> (r: bool)
    requires
        test_fits(cells(*old(field))),
    ensures
        *final(field) == *old(field),
        r == can_move(cells(*old(field))),
{
    any_move_changes(field)
}

/// The sum of all cells of a board, row by row.
pub open spec fn grid_sum(g: Seq<Seq<u32>>) -> int
    decreases g.len(),
{
    if g.len() == 0 {
        0
    } else {
        grid_sum(g.drop_last()) + line_sum(g.last())
    }
}

pub proof fn lemma_line_sum_nonneg(s: Seq<u32>)
    ensures
        line_sum(s) >= 0,
    decreases s.len(),
{
    if s.len() > 0 {
        lemma_line_sum_nonneg(s.drop_last());
    }
}

pub(crate) proof fn lemma_line_sum_prefix(s: Seq<u32>, j: int)
    requires
        0 <= j <= s.len(),
    ensures
        line_sum(s.take(j)) <= line_sum(s),
    decreases s.len() - j,
{
    if j < s.len() {
        lemma_line_sum_prefix(s, j + 1);
        assert(s.take(j + 1).drop_last() =~= s.take(j));
    } else {
        assert(s.take(j) =~= s);
    }
}

pub(crate) proof fn lemma_grid_sum_prefix(g: Seq<Seq<u32>>, i: int)
    requires
        0 <= i <= g.len(),
    ensures
        grid_sum(g.take(i)) <= grid_sum(g),
    decreases g.len() - i,
{
    if i < g.len() {
        lemma_grid_sum_prefix(g, i + 1);
        assert(g.take(i + 1).drop_last() =~= g.take(i));
        lemma_line_sum_nonneg(g[i]);
    } else {
        assert(g.take(i) =~= g);
    }
}

pub(crate) fn grid_score<const N: usize>(field: &[[u32; N]; N]) -> (score: u32)
    requires
        grid_sum(cells(*field)) <= u32::MAX,
    ensures
        score == grid_sum(cells(*field)),
{
    let ghost g = cells(*field);
    let mut score: u32 = 0;
    let mut i: usize = 0;
    while i < N
        invariant
            i <= N,
            g == cells(*field),
            grid_sum(g) <= u32::MAX,
            score == grid_sum(g.take(i as int)),
        decreases N - i,
    {
        let mut j: usize = 0;
        while j < N
            invariant
                i < N,
                j <= N,
                g == cells(*field),
                grid_sum(g) <= u32::MAX,
                score == grid_sum(g.take(i as int)) + line_sum(g[i as int].take(j as int)),
            decreases N - j,
        {
            proof {
                assert(g[i as int].take(j + 1).drop_last() =~= g[i as int].take(j as int));
                assert(g.take(i + 1).drop_last() =~= g.take(i as int));
                lemma_line_sum_prefix(g[i as int], j + 1);
                lemma_grid_sum_prefix(g, i + 1);
            }
            score = score + field[i][j];
            j = j + 1;
        }
        proof {
            assert(g[i as int].take(N as int) =~= g[i as int]);
            assert(g.take(i + 1).drop_last() =~= g.take(i as int));
        }
        i = i + 1;
    }
    assert(g.take(N as int) =~= g);
    score
}

/// The score of a 4x4 board: the sum of its tiles.
pub fn calc_score_4(field: &mut [[u32; 4]; 4]) -> (score: u32)
    requires
        grid_sum(cells(*old(field))) <= u32::MAX,
    ensures
        *final(field) == *old(field),
        score == grid_sum(cells(*old(field))),
{
    grid_score(field)
}

/// The score of a 6x6 board: the sum of its tiles.
pub fn calc_score_6(field: &mut [[u32; 6]; 6]) -> (score: u32)
    requires
        grid_sum(cells(*old(field))) <= u32::MAX,
    ensures
        *final(field) == *old(field),
        score == grid_sum(cells(*old(field))),
{
    grid_score(field)
}


/// Some cell of the board is empty.
pub open spec fn has_empty(g: Seq<Seq<u32>>) -> bool {
    exists|i: int, j: int| 0 <= i < g.len() && 0 <= j < g[i].len() && #[trigger] g[i][j] == 0
}

/// The board with the value `v` put in row `i`, column `j`.
pub open spec fn place(g: Seq<Seq<u32>>, i: int, j: int, v: u32) -> Seq<Seq<u32>> {
    g.update(i, g[i].update(j, v))
}

/// `after` is `before` with a new tile of 2 in one of its empty cells, or,
/// when `before` has no empty cell, `before` itself.
pub open spec fn spawned(before: Seq<Seq<u32>>, after: Seq<Seq<u32>>) -> bool {
    if has_empty(before) {
        exists|i: int, j: int|
            0 <= i < before.len() && 0 <= j < before[i].len() && before[i][j] == 0 && after
                == #[trigger] place(before, i, j, 2)
    } else {
        after == before
    }
}

/// The cell that a random number `x` picks on a board of side `n`:
/// row `x % n`, column `(x / n) % n`.
pub open spec fn picked_cell(x: usize, n: usize) -> (int, int) {
    ((x % n) as int, ((x / n) % n) as int)
}

/// Draws a number from `rand::random::<usize>()`, the thread-local
/// generator of the `rand` crate.  Any `usize` may come back: nothing is
/// stated of the result.
#[verifier::external_body]
pub(crate) fn random_usize() -> usize {
    rand::random::<usize>()
}

/// Puts a tile of 2 in the cell that `x` picks, if that cell is empty, and
/// tells whether it did.
pub fn try_spawn<const N: usize>(field: &mut [[u32; N]; N], x: usize) -> (placed: bool)
    requires
        N > 0,
    ensures
        placed == (cells(*old(field))[picked_cell(x, N).0][picked_cell(x, N).1] == 0),
        placed ==> cells(*final(field)) == place(
            cells(*old(field)),
            picked_cell(x, N).0,
            picked_cell(x, N).1,
            2,
        ),
        !placed ==> *final(field) == *old(field),
{
    let r = x % N;
    let c = (x / N) % N;
    if field[r][c] == 0 {
        let ghost g = cells(*field);
        let mut row = field[r];
        row[c] = 2;
        field[r] = row;
        assert(cells(*field) =~= place(g, r as int, c as int, 2));
        true
    } else {
        false
    }
}

/// The first empty cell of the board in row order, if there is one.
pub(crate) fn find_empty<const N: usize>(field: &[[u32; N]; N]) -> (r: Option<(usize, usize)>)
    ensures
        match r {
            Some((i, j)) => i < N && j < N && cells(*field)[i as int][j as int] == 0,
            None => !has_empty(cells(*field)),
        },
{
    let mut i: usize = 0;
    while i < N
        invariant
            i <= N,
            forall|a: int, b: int| 0 <= a < i && 0 <= b < N ==> cells(*field)[a][b] != 0,
        decreases N - i,
    {
        let mut j: usize = 0;
        while j < N
            invariant
                i < N,
                j <= N,
                forall|a: int, b: int| 0 <= a < i && 0 <= b < N ==> cells(*field)[a][b] != 0,
                forall|b: int| 0 <= b < j ==> cells(*field)[i as int][b] != 0,
            decreases N - j,
        {
            if field[i][j] == 0 {
                return Some((i, j));
            }
            j = j + 1;
        }
        i = i + 1;
    }
    None
}

/// What one drawn number `x` does to the board, after `misses` drawn
/// numbers in a row that picked a full cell.  When `x` picks an empty cell,
/// a 2 goes there and the drawing ends (`None`).  Otherwise the board is left
/// as it is: up to 100 misses the drawing goes on with one miss more; on the
/// miss after that the board is scanned, and the drawing starts over with no
/// misses if it has an empty cell, and ends if it has none.
pub fn spawn_draw<const N: usize>(field: &mut [[u32; N]; N], x: usize, misses: u32) -> (next:
    Option<u32>)
    requires
        N > 0,
    ensures
        cells(*old(field))[picked_cell(x, N).0][picked_cell(x, N).1] == 0 ==> {
            &&& next is None
            &&& cells(*final(field)) == place(
                cells(*old(field)),
                picked_cell(x, N).0,
                picked_cell(x, N).1,
                2,
            )
        },
        cells(*old(field))[picked_cell(x, N).0][picked_cell(x, N).1] != 0 ==> {
            &&& *final(field) == *old(field)
            &&& next == if misses < 100 {
                Some((misses + 1) as u32)
            } else if has_empty(cells(*old(field))) {
                Some(0u32)
            } else {
                None
            }
        },
{
    if try_spawn(field, x) {
        return None;
    }
    if misses < 100 {
        return Some(misses + 1);
    }
    match find_empty(field) {
        Some(_) => Some(0),
        None => None,
    }
}

/// Puts a tile of 2 in a random empty cell of the board: numbers are drawn
/// and handed to `spawn_draw` until it ends the drawing.  The number of
/// times the drawing starts over after a scan is bounded by `u64::MAX`; past
/// that, the first empty cell in row order gets the 2, so that the loop is
/// known to end.
pub(crate) fn spawn<const N: usize>(field: &mut [[u32; N]; N])
    requires
        N > 0,
    ensures
        spawned(cells(*old(field)), cells(*final(field))),
{
    let ghost g = cells(*field);
    let mut misses: u32 = 0;
    let mut rounds: u64 = 0;
    loop
        invariant_except_break
            cells(*field) == g,
            misses <= 100,
        invariant
            N > 0,
        ensures
            spawned(g, cells(*field)),
        decreases u64::MAX - rounds, 100 - misses,
    {
        let x = random_usize();
        match spawn_draw(field, x, misses) {
            None => {
                proof {
                    let (i, j) = picked_cell(x, N);
                    if g[i][j] == 0 {
                        assert(has_empty(g));
                    }
                }
                break ;
            },
            Some(m) => {
                if m == 0 {
                    if rounds == u64::MAX {
                        match find_empty(field) {
                            Some((i, j)) => {
                                let ghost g1 = cells(*field);
                                let mut row = field[i];
                                row[j] = 2;
                                field[i] = row;
                                proof {
                                    assert(cells(*field) =~= place(g1, i as int, j as int, 2));
                                    assert(g[i as int][j as int] == 0);
                                }
                            },
                            None => {},
                        }
                        break ;
                    }
                    rounds = rounds + 1;
                }
                misses = m;
            },
        }
    }
}

/// Puts a tile of 2 in a random empty cell of the 6x6 board, if it has one
/// (see `spawn_draw` for what each drawn number does; after `u64::MAX`
/// fresh starts of the drawing the first empty cell is taken).
pub fn spawn_6(field: &mut [[u32; 6]; 6])
    ensures
        spawned(cells(*old(field)), cells(*final(field))),
{
    spawn(field)
}

/// Puts a tile of 2 in a random empty cell of the 4x4 board, if it has one
/// (see `spawn_draw` for what each drawn number does; after `u64::MAX`
/// fresh starts of the drawing the first empty cell is taken).
pub fn spawn_4(field: &mut [[u32; 4]; 4])
    ensures
        spawned(cells(*old(field)), cells(*final(field))),
{
    spawn(field)
}


/// A saved game: its flags, its score and its board, of which exactly one of
/// `field_4` and `field_6` is set while a game is going on.
#[derive(Debug)]
pub struct Field {
    pub skip: bool,
    pub hard: bool,
    pub loose: bool,
    pub score: u32,
    pub size: FieldSize,
    pub field_4: Option<[[u32; 4]; 4]>,
    pub field_6: Option<[[u32; 6]; 6]>,
}

/// The board of a new game: empty but for a 2 in the bottom right corner.
pub open spec fn start_board(n: nat) -> Seq<Seq<u32>> {
    Seq::new(n, |i: int| Seq::new(n, |j: int| if i == n - 1 && j == n - 1 { 2u32 } else { 0u32 }))
}

/// A board of side `n` whose cells are all empty.
pub open spec fn blank_board(n: nat) -> Seq<Seq<u32>> {
    Seq::new(n, |i: int| Seq::new(n, |j: int| 0u32))
}

impl Field {
    /// The record of no game: size `Empty`, no board, no flag set.
    pub open spec fn is_empty_record(self) -> bool {
        &&& !self.skip
        &&& !self.hard
        &&& !self.loose
        &&& self.score == 0
        &&& self.size == FieldSize::Empty
        &&& self.field_4.is_none()
        &&& self.field_6.is_none()
    }

    /// A new game of the given size, with no flag set and a score of 0.  A
    /// 6x6 game is recorded with the size `Four`, and its board is in
    /// `field_6`: the board that is set tells the sizes apart.
    pub fn default(size: FieldSize) -> (r: Field)
        ensures
            !r.skip && !r.hard && !r.loose && r.score == 0,
            size == FieldSize::Four ==> r.size == FieldSize::Four && r.field_4.is_some()
                && cells(r.field_4.unwrap()) == start_board(4) && r.field_6.is_none(),
            size == FieldSize::Six ==> r.size == FieldSize::Four && r.field_4.is_none()
                && r.field_6.is_some() && cells(r.field_6.unwrap()) == start_board(6),
            size == FieldSize::Empty ==> r.is_empty_record(),
    {
        match size {
            FieldSize::Four => {
                let board: [[u32; 4]; 4] = [[0, 0, 0, 0], [0, 0, 0, 0], [0, 0, 0, 0], [0, 0, 0, 2]];
                assert(cells(board) =~~= start_board(4));
                Field {
                    skip: false,
                    hard: false,
                    loose: false,
                    score: 0,
                    size: FieldSize::Four,
                    field_4: Some(board),
                    field_6: None,
                }
            },
            FieldSize::Six => {
                let board: [[u32; 6]; 6] = [
                    [0, 0, 0, 0, 0, 0],
                    [0, 0, 0, 0, 0, 0],
                    [0, 0, 0, 0, 0, 0],
                    [0, 0, 0, 0, 0, 0],
                    [0, 0, 0, 0, 0, 0],
                    [0, 0, 0, 0, 0, 2],
                ];
                assert(cells(board) =~~= start_board(6));
                Field {
                    skip: false,
                    hard: false,
                    loose: false,
                    score: 0,
                    size: FieldSize::Four,
                    field_4: None,
                    field_6: Some(board),
                }
            },
            FieldSize::Empty => Field::empty(),
        }
    }

    /// The record of no game.
    pub fn empty() -> (r: Field)
        ensures
            r.is_empty_record(),
    {
        Field {
            skip: false,
            hard: false,
            loose: false,
            score: 0,
            size: FieldSize::Empty,
            field_4: None,
            field_6: None,
        }
    }
}


/// Every cell of the board is empty.
pub open spec fn board_empty(g: Seq<Seq<u32>>) -> bool {
    forall|i: int, j: int| 0 <= i < g.len() && 0 <= j < g.len() ==> #[trigger] g[i][j] == 0
}

/// Every cell of the board holds a tile, and no two tiles side by side, in a
/// row or in a column, are equal.
pub open spec fn board_locked(g: Seq<Seq<u32>>) -> bool {
    &&& forall|i: int, j: int| 0 <= i < g.len() && 0 <= j < g.len() ==> #[trigger] g[i][j] != 0
    &&& forall|i: int, j: int, k: int|
        0 <= i < g.len() && 0 <= j && k == j + 1 && k < g.len() ==> #[trigger] g[i][j]
            != #[trigger] g[i][k]
    &&& forall|i: int, k: int, j: int|
        0 <= i && k == i + 1 && k < g.len() && 0 <= j < g.len() ==> #[trigger] g[i][j]
            != #[trigger] g[k][j]
}


/// Two different cells of the board are empty.
pub open spec fn has_two_empty(g: Seq<Seq<u32>>) -> bool {
    exists|i: int, j: int, k: int, l: int|
        0 <= i < g.len() && 0 <= j < g[i].len() && 0 <= k < g.len() && 0 <= l < g[k].len() && (i
            != k || j != l) && #[trigger] g[i][j] == 0 && #[trigger] g[k][l] == 0
}


/// The game that `Default` gives: size `Four`, no board, no flag set and a
/// score of 0, as `default_record` states.
impl Default for Field {
    fn default() -> Self {
        default_record()
    }
}

/// The value of `<Field as Default>::default()`.
pub fn default_record() -> (r: Field)
    ensures
        !r.skip && !r.hard && !r.loose && r.score == 0,
        r.size == FieldSize::Four,
        r.field_4.is_none() && r.field_6.is_none(),
{
    Field {
        skip: false,
        hard: false,
        loose: false,
        score: 0,
        size: FieldSize::Four,
        field_4: None,
        field_6: None,
    }
}

} // verus!
