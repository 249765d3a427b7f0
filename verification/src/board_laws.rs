use vstd::prelude::*;

use crate::game_field::{
    all_steps_fit, backward, board_empty, board_locked, can_move, column, grid_sum, has_empty,
    has_two_empty, is_square, place, spawned, step, step_fits, Usermove,
};
use crate::line::{
    from_line, lemma_slide_tiles, lemma_slide_values, all_tiles, distinct_neighbours, lemma_line_sum_cons, lemma_line_sum_nonzeros,
    lemma_slide_fixed_iff_settled, lemma_slide_len, lemma_slide_sum, line_sum, merge_fits,
    nonzeros, settled, slide, slide_fits,
};

verus! {

proof fn lemma_line_sum_backward(s: Seq<u32>)
    ensures
        line_sum(backward(s)) == line_sum(s),
    decreases s.len(),
{
    if s.len() > 0 {
        let rest = s.drop_last();
        assert(backward(s) =~= seq![s.last()] + backward(rest));
        lemma_line_sum_cons(s.last(), backward(rest));
        lemma_line_sum_backward(rest);
    }
}

/// Two boards with the same number of rows, row by row of equal sums, have
/// equal sums.
proof fn lemma_grid_sum_rowwise(g: Seq<Seq<u32>>, h: Seq<Seq<u32>>)
    requires
        g.len() == h.len(),
        forall|i: int| 0 <= i < g.len() ==> line_sum(#[trigger] g[i]) == line_sum(h[i]),
    ensures
        grid_sum(g) == grid_sum(h),
    decreases g.len(),
{
    if g.len() > 0 {
        lemma_grid_sum_rowwise(g.drop_last(), h.drop_last());
    }
}

/// The sum of the first `c` cells of each of the first `r` rows.
spec fn rect_sum(h: Seq<Seq<u32>>, r: int, c: int) -> int
    decreases r,
{
    if r <= 0 {
        0
    } else {
        rect_sum(h, r - 1, c) + line_sum(h[r - 1].take(c))
    }
}

/// The sum of the first `r` cells of each of the first `c` columns.
spec fn col_rect_sum(h: Seq<Seq<u32>>, r: int, c: int) -> int
    decreases c,
{
    if c <= 0 {
        0
    } else {
        col_rect_sum(h, r, c - 1) + line_sum(column(h, c - 1).take(r))
    }
}

proof fn lemma_take_last(s: Seq<u32>, k: int)
    requires
        0 < k <= s.len(),
    ensures
        line_sum(s.take(k)) == line_sum(s.take(k - 1)) + s[k - 1],
{
    assert(s.take(k).drop_last() =~= s.take(k - 1));
}

proof fn lemma_rect_peel_column(h: Seq<Seq<u32>>, r: int, c: int)
    requires
        0 <= r <= h.len(),
        0 < c,
        forall|i: int| 0 <= i < h.len() ==> c <= (#[trigger] h[i]).len(),
    ensures
        rect_sum(h, r, c) == rect_sum(h, r, c - 1) + line_sum(column(h, c - 1).take(r)),
    decreases r,
{
    if r > 0 {
        lemma_rect_peel_column(h, r - 1, c);
        lemma_take_last(h[r - 1], c);
        lemma_take_last(column(h, c - 1), r);
    } else {
        assert(column(h, c - 1).take(0) =~= Seq::<u32>::empty());
    }
}

proof fn lemma_rect_by_columns(h: Seq<Seq<u32>>, r: int, c: int)
    requires
        0 <= r <= h.len(),
        0 <= c,
        forall|i: int| 0 <= i < h.len() ==> c <= (#[trigger] h[i]).len(),
    ensures
        rect_sum(h, r, c) == col_rect_sum(h, r, c),
    decreases c,
{
    if c > 0 {
        lemma_rect_peel_column(h, r, c);
        lemma_rect_by_columns(h, r, c - 1);
    } else {
        lemma_rect_zero_columns(h, r);
    }
}

proof fn lemma_rect_zero_columns(h: Seq<Seq<u32>>, r: int)
    requires
        0 <= r <= h.len(),
    ensures
        rect_sum(h, r, 0) == 0,
    decreases r,
{
    if r > 0 {
        assert(h[r - 1].take(0) =~= Seq::<u32>::empty());
        lemma_rect_zero_columns(h, r - 1);
    }
}

proof fn lemma_rect_full_rows(h: Seq<Seq<u32>>, n: nat, r: int)
    requires
        is_square(h, n),
        0 <= r <= n,
    ensures
        rect_sum(h, r, n as int) == grid_sum(h.take(r)),
    decreases r,
{
    if r > 0 {
        lemma_rect_full_rows(h, n, r - 1);
        assert(h[r - 1].take(n as int) =~= h[r - 1]);
        assert(h.take(r).drop_last() =~= h.take(r - 1));
    }
}

/// The rows of the transposed board: the columns of `h`.
pub open spec fn transpose(h: Seq<Seq<u32>>) -> Seq<Seq<u32>> {
    Seq::new(h.len(), |j: int| column(h, j))
}

proof fn lemma_col_rect_full(h: Seq<Seq<u32>>, n: nat, c: int)
    requires
        is_square(h, n),
        0 <= c <= n,
    ensures
        col_rect_sum(h, n as int, c) == grid_sum(transpose(h).take(c)),
    decreases c,
{
    if c > 0 {
        lemma_col_rect_full(h, n, c - 1);
        assert(column(h, c - 1).take(n as int) =~= column(h, c - 1));
        assert(transpose(h).take(c).drop_last() =~= transpose(h).take(c - 1));
    }
}

/// Adding up a square board column by column gives the same sum as row by row.
proof fn lemma_grid_sum_transpose(h: Seq<Seq<u32>>, n: nat)
    requires
        is_square(h, n),
    ensures
        grid_sum(transpose(h)) == grid_sum(h),
{
    lemma_rect_by_columns(h, n as int, n as int);
    lemma_rect_full_rows(h, n, n as int);
    lemma_col_rect_full(h, n, n as int);
    assert(h.take(n as int) =~= h);
    assert(transpose(h).take(n as int) =~= transpose(h));
}

/// Law: a move never changes the sum of the tiles on the board; merging two
/// tiles makes one tile of their sum.
pub proof fn law_step_keeps_sum(m: Usermove, g: Seq<Seq<u32>>)
    requires
        is_square(g, g.len()),
        step_fits(m, g),
    ensures
        grid_sum(step(m, g)) == grid_sum(g),
{
    let n = g.len();
    match m {
        Usermove::Left => {
            assert forall|i: int| 0 <= i < n implies line_sum(#[trigger] step(m, g)[i]) == line_sum(
                g[i],
            ) by {
                lemma_slide_sum(g[i]);
            }
            lemma_grid_sum_rowwise(step(m, g), g);
        },
        Usermove::Right => {
            assert forall|i: int| 0 <= i < n implies line_sum(#[trigger] step(m, g)[i]) == line_sum(
                g[i],
            ) by {
                lemma_slide_sum(backward(g[i]));
                lemma_line_sum_backward(slide(backward(g[i])));
                lemma_line_sum_backward(g[i]);
            }
            lemma_grid_sum_rowwise(step(m, g), g);
        },
        Usermove::Up => {
            let cs = Seq::new(n, |j: int| slide(column(g, j)));
            assert forall|j: int| 0 <= j < n implies (#[trigger] cs[j]).len() == n by {
                lemma_slide_len(column(g, j));
            }
            assert(step(m, g) =~= transpose(cs)) by {
                assert forall|i: int| 0 <= i < n implies #[trigger] step(m, g)[i] =~= transpose(
                    cs,
                )[i] by {}
            }
            assert forall|j: int| 0 <= j < n implies line_sum(#[trigger] cs[j]) == line_sum(
                transpose(g)[j],
            ) by {
                lemma_slide_sum(column(g, j));
            }
            lemma_grid_sum_transpose(cs, n);
            lemma_grid_sum_rowwise(cs, transpose(g));
            lemma_grid_sum_transpose(g, n);
        },
        Usermove::Down => {
            let cs = Seq::new(n, |j: int| backward(slide(backward(column(g, j)))));
            assert forall|j: int| 0 <= j < n implies (#[trigger] cs[j]).len() == n by {
                lemma_slide_len(backward(column(g, j)));
            }
            assert(step(m, g) =~= transpose(cs)) by {
                assert forall|i: int| 0 <= i < n implies #[trigger] step(m, g)[i] =~= transpose(
                    cs,
                )[i] by {}
            }
            assert forall|j: int| 0 <= j < n implies line_sum(#[trigger] cs[j]) == line_sum(
                transpose(g)[j],
            ) by {
                lemma_slide_sum(backward(column(g, j)));
                lemma_line_sum_backward(slide(backward(column(g, j))));
                lemma_line_sum_backward(column(g, j));
            }
            lemma_grid_sum_transpose(cs, n);
            lemma_grid_sum_rowwise(cs, transpose(g));
            lemma_grid_sum_transpose(g, n);
        },
    }
}


proof fn lemma_backward_twice(s: Seq<u32>)
    ensures
        backward(backward(s)) == s,
{
    assert(backward(backward(s)) =~= s);
}

/// A line that is settled towards both of its ends is either empty, or full
/// with no two equal neighbours.
proof fn lemma_settled_both_ways(s: Seq<u32>)
    ensures
        (settled(s) && settled(backward(s))) == ((forall|k: int|
            0 <= k < s.len() ==> #[trigger] s[k] == 0) || (all_tiles(s) && distinct_neighbours(s))),
{
    let n = s.len();
    let b = backward(s);
    if settled(s) && settled(b) {
        if !all_tiles(s) {
            let z = choose|z: int| 0 <= z < n && s[z] == 0;
            assert forall|k: int| 0 <= k < n implies #[trigger] s[k] == 0 by {
                if k > z {
                    assert(s[z] == 0);
                } else if k < z {
                    assert(b[n - 1 - z] == 0);
                    assert(b[n - 1 - k] == s[k]);
                }
            }
        } else {
            assert forall|i: int, j: int| 0 <= i && j == i + 1 && j < n implies #[trigger] s[i]
                != #[trigger] s[j] by {
                assert(s[i] != 0);
            }
        }
    }
    if forall|k: int| 0 <= k < n ==> #[trigger] s[k] == 0 {
        assert forall|i: int| 0 <= i < n implies #[trigger] b[i] == 0 by {
            assert(b[i] == s[n - 1 - i]);
        }
    }
    if all_tiles(s) && distinct_neighbours(s) {
        assert forall|i: int| 0 <= i < n implies #[trigger] b[i] != 0 by {
            assert(b[i] == s[n - 1 - i]);
        }
        assert forall|i: int, j: int| 0 <= i && j == i + 1 && j < n && b[i] != 0 implies #[trigger] b[i]
            != #[trigger] b[j] by {
            assert(b[i] == s[n - 1 - i] && b[j] == s[n - 1 - j]);
            assert(s[n - 1 - j] != s[n - 1 - i]);
        }
    }
}

proof fn lemma_backward_slide_fixed(s: Seq<u32>)
    requires
        slide_fits(backward(s)),
    ensures
        (backward(slide(backward(s))) == s) == settled(backward(s)),
{
    lemma_slide_fixed_iff_settled(backward(s));
    lemma_slide_len(backward(s));
    lemma_backward_twice(s);
    lemma_backward_twice(slide(backward(s)));
    if backward(slide(backward(s))) == s {
        assert(slide(backward(s)) == backward(s));
    }
}

/// Row `i` read in the direction of the move `m`.
spec fn row_line(m: Usermove, g: Seq<Seq<u32>>, i: int) -> Seq<u32> {
    if m == Usermove::Left {
        g[i]
    } else {
        backward(g[i])
    }
}

/// Column `j` read in the direction of the move `m`.
spec fn col_line(m: Usermove, g: Seq<Seq<u32>>, j: int) -> Seq<u32> {
    if m == Usermove::Up {
        column(g, j)
    } else {
        backward(column(g, j))
    }
}

proof fn lemma_rows_fixed(m: Usermove, g: Seq<Seq<u32>>)
    requires
        is_square(g, g.len()),
        step_fits(m, g),
        m == Usermove::Left || m == Usermove::Right,
    ensures
        (step(m, g) == g) == (forall|i: int|
            0 <= i < g.len() ==> settled(#[trigger] row_line(m, g, i))),
{
    let n = g.len();
    assert forall|i: int| 0 <= i < n implies (step(m, g)[i] == g[i]) == settled(
        #[trigger] row_line(m, g, i),
    ) by {
        if m == Usermove::Left {
            lemma_slide_fixed_iff_settled(g[i]);
        } else {
            lemma_backward_slide_fixed(g[i]);
        }
    }
    if forall|i: int|
        0 <= i < n ==> settled(#[trigger] row_line(m, g, i)) {
        assert forall|i: int| 0 <= i < n implies #[trigger] step(m, g)[i] == g[i] by {
            assert(settled(row_line(m, g, i)));
        }
        assert(step(m, g) =~= g);
    }
}

proof fn lemma_columns_fixed(m: Usermove, g: Seq<Seq<u32>>)
    requires
        is_square(g, g.len()),
        step_fits(m, g),
        m == Usermove::Up || m == Usermove::Down,
    ensures
        (step(m, g) == g) == (forall|j: int|
            0 <= j < g.len() ==> settled(#[trigger] col_line(m, g, j))),
{
    let n = g.len();
    let f = |j: int|
        if m == Usermove::Up {
            slide(column(g, j))
        } else {
            backward(slide(backward(column(g, j))))
        };
    assert forall|i: int, j: int| 0 <= i < n && 0 <= j < n implies #[trigger] step(m, g)[i][j]
        == f(j)[i] by {}
    assert forall|j: int| 0 <= j < n implies (f(j) == column(g, j)) == settled(
        #[trigger] col_line(m, g, j),
    ) by {
        if m == Usermove::Up {
            lemma_slide_fixed_iff_settled(column(g, j));
        } else {
            lemma_backward_slide_fixed(column(g, j));
        }
    }
    if step(m, g) == g {
        assert forall|j: int| 0 <= j < n implies #[trigger] f(j) == column(g, j) by {
            if m == Usermove::Up {
                lemma_slide_len(column(g, j));
            } else {
                lemma_slide_len(backward(column(g, j)));
            }
            assert forall|i: int| 0 <= i < n implies f(j)[i] == column(g, j)[i] by {
                assert(step(m, g)[i][j] == g[i][j]);
            }
            assert(f(j) =~= column(g, j));
        }
    }
    if forall|j: int|
        0 <= j < n ==> settled(#[trigger] col_line(m, g, j)) {
        assert forall|i: int| 0 <= i < n implies #[trigger] step(m, g)[i] =~= g[i] by {
            assert forall|j: int| 0 <= j < n implies step(m, g)[i][j] == g[i][j] by {
                assert(settled(col_line(m, g, j)));
                assert(f(j) == column(g, j));
                assert(column(g, j)[i] == g[i][j]);
            }
        }
        assert(step(m, g) =~= g);
    }
}

/// A line that is either all empty, or full with no two equal neighbours.
spec fn two_way(s: Seq<u32>) -> bool {
    (forall|k: int| 0 <= k < s.len() ==> #[trigger] s[k] == 0) || (all_tiles(s)
        && distinct_neighbours(s))
}

proof fn lemma_unmoved_lines(g: Seq<Seq<u32>>)
    requires
        is_square(g, g.len()),
        all_steps_fit(g),
    ensures
        !can_move(g) <==> ((forall|i: int| 0 <= i < g.len() ==> two_way(#[trigger] g[i])) && (
        forall|j: int| 0 <= j < g.len() ==> two_way(#[trigger] column(g, j)))),
{
    let n = g.len();
    lemma_rows_fixed(Usermove::Left, g);
    lemma_rows_fixed(Usermove::Right, g);
    lemma_columns_fixed(Usermove::Up, g);
    lemma_columns_fixed(Usermove::Down, g);
    assert forall|i: int| 0 <= i < n implies (settled(#[trigger] row_line(Usermove::Left, g, i))
        && settled(row_line(Usermove::Right, g, i))) == two_way(g[i]) by {
        lemma_settled_both_ways(g[i]);
    }
    assert forall|j: int| 0 <= j < n implies (settled(#[trigger] col_line(Usermove::Up, g, j))
        && settled(col_line(Usermove::Down, g, j))) == two_way(column(g, j)) by {
        lemma_settled_both_ways(column(g, j));
    }
    if !can_move(g) {
        assert forall|i: int| 0 <= i < n implies two_way(#[trigger] g[i]) by {
            assert(settled(row_line(Usermove::Left, g, i)));
            assert(settled(row_line(Usermove::Right, g, i)));
        }
        assert forall|j: int| 0 <= j < n implies two_way(#[trigger] column(g, j)) by {
            assert(settled(col_line(Usermove::Up, g, j)));
            assert(settled(col_line(Usermove::Down, g, j)));
        }
    }
    if (forall|i: int| 0 <= i < n ==> two_way(#[trigger] g[i])) && (forall|j: int|
        0 <= j < n ==> two_way(#[trigger] column(g, j))) {
        assert forall|i: int| 0 <= i < n implies settled(
            #[trigger] row_line(Usermove::Left, g, i),
        ) by {
            assert(two_way(g[i]));
        }
        assert forall|i: int| 0 <= i < n implies settled(
            #[trigger] row_line(Usermove::Right, g, i),
        ) by {
            assert(two_way(g[i]));
        }
        assert forall|j: int| 0 <= j < n implies settled(#[trigger] col_line(Usermove::Up, g, j)) by {
            assert(two_way(column(g, j)));
        }
        assert forall|j: int| 0 <= j < n implies settled(
            #[trigger] col_line(Usermove::Down, g, j),
        ) by {
            assert(two_way(column(g, j)));
        }
    }
}

proof fn lemma_two_way_board(g: Seq<Seq<u32>>)
    requires
        is_square(g, g.len()),
    ensures
        ((forall|i: int| 0 <= i < g.len() ==> two_way(#[trigger] g[i])) && (forall|j: int|
            0 <= j < g.len() ==> two_way(#[trigger] column(g, j)))) <==> (board_empty(g)
            || board_locked(g)),
{
    let n = g.len();
    if (forall|i: int| 0 <= i < n ==> two_way(#[trigger] g[i])) && (forall|j: int|
        0 <= j < n ==> two_way(#[trigger] column(g, j))) {
        if exists|i: int, j: int| 0 <= i < n && 0 <= j < n && #[trigger] g[i][j] == 0 {
            let (zi, zj) = choose|i: int, j: int| 0 <= i < n && 0 <= j < n && #[trigger] g[i][j]
                == 0;
            assert(two_way(g[zi]));
            assert forall|i: int, j: int| 0 <= i < n && 0 <= j < n implies #[trigger] g[i][j]
                == 0 by {
                assert(g[zi][j] == 0);
                assert(column(g, j)[zi] == 0);
                assert(two_way(column(g, j)));
                assert(column(g, j)[i] == g[i][j]);
            }
        } else {
            assert forall|i: int, j: int, k: int|
                0 <= i < n && 0 <= j && k == j + 1 && k < n implies #[trigger] g[i][j]
                != #[trigger] g[i][k] by {
                assert(g[i][j] != 0);
                assert(two_way(g[i]));
            }
            assert forall|i: int, k: int, j: int|
                0 <= i && k == i + 1 && k < n && 0 <= j < n implies #[trigger] g[i][j]
                != #[trigger] g[k][j] by {
                assert(column(g, j)[i] == g[i][j] && column(g, j)[k] == g[k][j]);
                assert(g[i][j] != 0);
                assert(two_way(column(g, j)));
            }
        }
    }
    if board_empty(g) {
        assert forall|i: int| 0 <= i < n implies two_way(#[trigger] g[i]) by {
            assert forall|k: int| 0 <= k < g[i].len() implies #[trigger] g[i][k] == 0 by {}
        }
        assert forall|j: int| 0 <= j < n implies two_way(#[trigger] column(g, j)) by {
            assert forall|k: int| 0 <= k < n implies #[trigger] column(g, j)[k] == 0 by {
                assert(g[k][j] == 0);
            }
        }
    }
    if board_locked(g) {
        assert forall|i: int| 0 <= i < n implies two_way(#[trigger] g[i]) by {
            assert forall|k: int| 0 <= k < g[i].len() implies #[trigger] g[i][k] != 0 by {}
            assert forall|a: int, b: int| 0 <= a && b == a + 1 && b < g[i].len() implies #[trigger] g[i][a]
                != #[trigger] g[i][b] by {}
        }
        assert forall|j: int| 0 <= j < n implies two_way(#[trigger] column(g, j)) by {
            let c = column(g, j);
            assert forall|k: int| 0 <= k < n implies #[trigger] c[k] != 0 by {
                assert(c[k] == g[k][j]);
            }
            assert forall|a: int, b: int| 0 <= a && b == a + 1 && b < n implies #[trigger] c[a]
                != #[trigger] c[b] by {
                assert(c[a] == g[a][j] && c[b] == g[b][j]);
            }
        }
    }
}

/// Law: no move changes the board, so the game is lost, exactly when the
/// board is empty, or full with no two equal tiles side by side.
pub proof fn law_no_move_iff_locked(g: Seq<Seq<u32>>)
    requires
        is_square(g, g.len()),
        all_steps_fit(g),
    ensures
        !can_move(g) <==> (board_empty(g) || board_locked(g)),
{
    lemma_unmoved_lines(g);
    lemma_two_way_board(g);
}


proof fn lemma_line_sum_update(s: Seq<u32>, j: int, v: u32)
    requires
        0 <= j < s.len(),
    ensures
        line_sum(s.update(j, v)) == line_sum(s) - s[j] + v,
    decreases s.len(),
{
    let u = s.update(j, v);
    if j == s.len() - 1 {
        assert(u.drop_last() =~= s.drop_last());
    } else {
        assert(u.drop_last() =~= s.drop_last().update(j, v));
        lemma_line_sum_update(s.drop_last(), j, v);
    }
}

proof fn lemma_grid_sum_update(g: Seq<Seq<u32>>, i: int, r: Seq<u32>)
    requires
        0 <= i < g.len(),
    ensures
        grid_sum(g.update(i, r)) == grid_sum(g) - line_sum(g[i]) + line_sum(r),
    decreases g.len(),
{
    let u = g.update(i, r);
    if i == g.len() - 1 {
        assert(u.drop_last() =~= g.drop_last());
    } else {
        assert(u.drop_last() =~= g.drop_last().update(i, r));
        lemma_grid_sum_update(g.drop_last(), i, r);
    }
}

/// Law: a new tile adds 2 to the sum of the board, and a board with no
/// empty cell gets none.
pub proof fn law_spawn_adds_two(before: Seq<Seq<u32>>, after: Seq<Seq<u32>>)
    requires
        spawned(before, after),
    ensures
        grid_sum(after) == grid_sum(before) + if has_empty(before) {
            2int
        } else {
            0int
        },
{
    if has_empty(before) {
        let (i, j) = choose|i: int, j: int|
            0 <= i < before.len() && 0 <= j < before[i].len() && before[i][j] == 0 && after
                == #[trigger] place(before, i, j, 2);
        lemma_line_sum_update(before[i], j, 2);
        lemma_grid_sum_update(before, i, before[i].update(j, 2));
    }
}

/// After a new tile goes into an empty cell, an empty cell is left exactly
/// when there were two; the board keeps its shape.
pub proof fn lemma_spawn_leaves_empty(before: Seq<Seq<u32>>, after: Seq<Seq<u32>>, n: nat)
    requires
        spawned(before, after),
        has_empty(before),
        is_square(before, n),
    ensures
        has_empty(after) == has_two_empty(before),
        is_square(after, n),
{
    let (i, j) = choose|i: int, j: int|
        0 <= i < before.len() && 0 <= j < before[i].len() && before[i][j] == 0 && after
            == #[trigger] place(before, i, j, 2);
    assert forall|a: int, b: int| 0 <= a < n && 0 <= b < n implies #[trigger] after[a][b] == if a
        == i && b == j {
        2
    } else {
        before[a][b]
    } by {}
    if has_empty(after) {
        let (a, b) = choose|a: int, b: int|
            0 <= a < after.len() && 0 <= b < after[a].len() && #[trigger] after[a][b] == 0;
        assert(before[a][b] == 0);
        assert(before[i][j] == 0);
        assert(has_two_empty(before));
    }
    if has_two_empty(before) {
        let (a, b, c, d) = choose|a: int, b: int, c: int, d: int|
            0 <= a < before.len() && 0 <= b < before[a].len() && 0 <= c < before.len() && 0 <= d
                < before[c].len() && (a != c || b != d) && #[trigger] before[a][b] == 0
                && #[trigger] before[c][d] == 0;
        if a != i || b != j {
            assert(after[a][b] == 0);
        } else {
            assert(after[c][d] == 0);
        }
        assert(has_empty(after));
    }
}

proof fn lemma_merge_fits_of_sum(t: Seq<u32>)
    requires
        line_sum(t) <= u32::MAX,
    ensures
        merge_fits(t),
    decreases t.len(),
{
    if t.len() >= 2 {
        let r = t.subrange(2, t.len() as int);
        assert(t =~= seq![t[0]] + (seq![t[1]] + r));
        lemma_line_sum_cons(t[0], seq![t[1]] + r);
        lemma_line_sum_cons(t[1], r);
        crate::game_field::lemma_line_sum_nonneg(r);
        assert(t.drop_first() =~= seq![t[1]] + r);
        crate::game_field::lemma_line_sum_nonneg(t.drop_first());
        if t[0] == t[1] {
            lemma_merge_fits_of_sum(r);
        } else {
            lemma_merge_fits_of_sum(t.drop_first());
        }
    }
}

proof fn lemma_slide_fits_of_sum(s: Seq<u32>)
    requires
        line_sum(s) <= u32::MAX,
    ensures
        slide_fits(s),
        slide_fits(backward(s)),
{
    lemma_line_sum_nonzeros(s);
    lemma_merge_fits_of_sum(nonzeros(s));
    lemma_line_sum_backward(s);
    lemma_line_sum_nonzeros(backward(s));
    lemma_merge_fits_of_sum(nonzeros(backward(s)));
}

proof fn lemma_row_sum_le(g: Seq<Seq<u32>>, i: int)
    requires
        0 <= i < g.len(),
    ensures
        line_sum(g[i]) <= grid_sum(g),
    decreases g.len(),
{
    crate::game_field::lemma_line_sum_nonneg(g.last());
    if i < g.len() - 1 {
        lemma_row_sum_le(g.drop_last(), i);
    } else {
        lemma_grid_sum_nonneg(g.drop_last());
    }
}

proof fn lemma_grid_sum_nonneg(g: Seq<Seq<u32>>)
    ensures
        grid_sum(g) >= 0,
    decreases g.len(),
{
    if g.len() > 0 {
        lemma_grid_sum_nonneg(g.drop_last());
        crate::game_field::lemma_line_sum_nonneg(g.last());
    }
}

/// Law: no move on a board whose tiles add up to at most `u32::MAX`
/// overflows, since two equal tiles that merge are both counted in the sum.
pub proof fn law_sum_bound_fits(g: Seq<Seq<u32>>)
    requires
        is_square(g, g.len()),
        grid_sum(g) <= u32::MAX,
    ensures
        all_steps_fit(g),
{
    let n = g.len();
    assert forall|i: int| 0 <= i < n implies slide_fits(#[trigger] g[i]) && slide_fits(
        backward(g[i]),
    ) by {
        lemma_row_sum_le(g, i);
        lemma_slide_fits_of_sum(g[i]);
    }
    lemma_grid_sum_transpose(g, n);
    assert forall|j: int| 0 <= j < n implies slide_fits(#[trigger] column(g, j)) && slide_fits(
        backward(column(g, j)),
    ) by {
        lemma_row_sum_le(transpose(g), j);
        lemma_slide_fits_of_sum(column(g, j));
    }
}


/// The board with every row read from its back end.
pub open spec fn mirror(g: Seq<Seq<u32>>) -> Seq<Seq<u32>> {
    Seq::new(g.len(), |i: int| backward(g[i]))
}

/// Law: the four moves are one move seen in a mirror or across the
/// diagonal: right is left on the mirrored board, up is left on the
/// transposed board, and down is right on the transposed board.
pub proof fn law_moves_symmetric(g: Seq<Seq<u32>>)
    requires
        is_square(g, g.len()),
    ensures
        step(Usermove::Right, g) == mirror(step(Usermove::Left, mirror(g))),
        step(Usermove::Up, g) == transpose(step(Usermove::Left, transpose(g))),
        step(Usermove::Down, g) == transpose(step(Usermove::Right, transpose(g))),
{
    let n = g.len();
    assert(step(Usermove::Right, g) =~= mirror(step(Usermove::Left, mirror(g))));
    let tg = transpose(g);
    assert forall|j: int| 0 <= j < n implies (#[trigger] step(Usermove::Left, tg)[j]).len() == n by {
        lemma_slide_len(column(g, j));
    }
    assert forall|j: int| 0 <= j < n implies (#[trigger] step(Usermove::Right, tg)[j]).len() == n by {
        lemma_slide_len(backward(column(g, j)));
    }
    assert forall|i: int| 0 <= i < n implies #[trigger] step(Usermove::Up, g)[i] =~= transpose(
        step(Usermove::Left, tg),
    )[i] by {}
    assert(step(Usermove::Up, g) =~= transpose(step(Usermove::Left, tg)));
    assert forall|i: int| 0 <= i < n implies #[trigger] step(Usermove::Down, g)[i] =~= transpose(
        step(Usermove::Right, tg),
    )[i] by {}
    assert(step(Usermove::Down, g) =~= transpose(step(Usermove::Right, tg)));
}

/// `v` is a value of the board `g` or twice one.
pub open spec fn from_board(v: u32, g: Seq<Seq<u32>>) -> bool {
    exists|a: int, b: int|
        0 <= a < g.len() && 0 <= b < g[a].len() && (v == #[trigger] g[a][b] || v == 2 * g[a][b])
}

/// Law: after a move every cell is empty, holds a tile of the board before,
/// or twice one: tiles only slide or merge in pairs.
pub proof fn law_step_cells(m: Usermove, g: Seq<Seq<u32>>)
    requires
        is_square(g, g.len()),
        step_fits(m, g),
    ensures
        forall|i: int, j: int|
            0 <= i < g.len() && 0 <= j < g.len() ==> #[trigger] step(m, g)[i][j] == 0
                || from_board(step(m, g)[i][j], g),
{
    let n = g.len();
    let h = step(m, g);
    assert forall|i: int, j: int| 0 <= i < n && 0 <= j < n implies #[trigger] h[i][j] == 0
        || from_board(h[i][j], g) by {
        match m {
            Usermove::Left => {
                lemma_slide_values(g[i]);
                if h[i][j] != 0 {
                    assert(from_line(slide(g[i])[j], g[i]));
                    let k = choose|k: int|
                        0 <= k < g[i].len() && (h[i][j] == #[trigger] g[i][k] || h[i][j] == 2
                            * g[i][k]);
                    assert(h[i][j] == g[i][k] || h[i][j] == 2 * g[i][k]);
                }
            },
            Usermove::Right => {
                let r = backward(g[i]);
                lemma_slide_values(r);
                lemma_slide_len(r);
                assert(h[i][j] == slide(r)[n - 1 - j]);
                if h[i][j] != 0 {
                    assert(from_line(slide(r)[n - 1 - j], r));
                    let k = choose|k: int|
                        0 <= k < r.len() && (h[i][j] == #[trigger] r[k] || h[i][j] == 2 * r[k]);
                    assert(r[k] == g[i][n - 1 - k]);
                }
            },
            Usermove::Up => {
                let c = column(g, j);
                lemma_slide_values(c);
                if h[i][j] != 0 {
                    assert(from_line(slide(c)[i], c));
                    let k = choose|k: int|
                        0 <= k < c.len() && (h[i][j] == #[trigger] c[k] || h[i][j] == 2 * c[k]);
                    assert(c[k] == g[k][j]);
                }
            },
            Usermove::Down => {
                let c = backward(column(g, j));
                lemma_slide_values(c);
                lemma_slide_len(c);
                assert(h[i][j] == slide(c)[n - 1 - i]);
                if h[i][j] != 0 {
                    assert(from_line(slide(c)[n - 1 - i], c));
                    let k = choose|k: int|
                        0 <= k < c.len() && (h[i][j] == #[trigger] c[k] || h[i][j] == 2 * c[k]);
                    assert(c[k] == g[n - 1 - k][j]);
                }
            },
        }
    }
}

/// `v` is a power of two.
pub open spec fn power_of_two(v: u32) -> bool {
    exists|e: nat| vstd::arithmetic::power2::pow2(e) == v
}

/// Every tile of the board is a power of two.
pub open spec fn tiles_are_powers(g: Seq<Seq<u32>>) -> bool {
    forall|i: int, j: int|
        0 <= i < g.len() && 0 <= j < g[i].len() ==> #[trigger] g[i][j] == 0 || power_of_two(
            g[i][j],
        )
}

/// Law: a move keeps every tile a power of two.
pub proof fn law_step_keeps_powers(m: Usermove, g: Seq<Seq<u32>>)
    requires
        is_square(g, g.len()),
        step_fits(m, g),
        tiles_are_powers(g),
    ensures
        tiles_are_powers(step(m, g)),
{
    let n = g.len();
    let h = step(m, g);
    law_step_cells(m, g);
    assert forall|i: int, j: int| 0 <= i < h.len() && 0 <= j < h[i].len() implies #[trigger] h[i][j]
        == 0 || power_of_two(h[i][j]) by {
        assert(h[i].len() == n) by {
            if m == Usermove::Left {
                lemma_slide_len(g[i]);
            } else if m == Usermove::Right {
                lemma_slide_len(backward(g[i]));
            }
        }
        if h[i][j] != 0 {
            assert(from_board(h[i][j], g));
            let (a, b) = choose|a: int, b: int|
                0 <= a < g.len() && 0 <= b < g[a].len() && (h[i][j] == #[trigger] g[a][b] || h[i][j]
                    == 2 * g[a][b]);
            assert(g[a][b] != 0);
            assert(power_of_two(g[a][b]));
            let e = choose|e: nat| vstd::arithmetic::power2::pow2(e) == g[a][b];
            if h[i][j] == 2 * g[a][b] {
                vstd::arithmetic::power2::lemma_pow2_unfold(e + 1);
                assert(vstd::arithmetic::power2::pow2(e + 1) == h[i][j]);
            }
        }
    }
}

/// Law: a move at most doubles the largest tile: when no tile is above `b`,
/// none is above `2 * b` afterwards.
pub proof fn law_step_at_most_doubles(m: Usermove, g: Seq<Seq<u32>>, b: int)
    requires
        is_square(g, g.len()),
        step_fits(m, g),
        forall|i: int, j: int| 0 <= i < g.len() && 0 <= j < g.len() ==> #[trigger] g[i][j] <= b,
    ensures
        forall|i: int, j: int|
            0 <= i < g.len() && 0 <= j < g.len() ==> #[trigger] step(m, g)[i][j] <= 2 * b,
{
    let n = g.len();
    let h = step(m, g);
    law_step_cells(m, g);
    assert forall|i: int, j: int| 0 <= i < n && 0 <= j < n implies #[trigger] h[i][j] <= 2 * b by {
        if h[i][j] != 0 {
            assert(from_board(h[i][j], g));
            let (a, c) = choose|a: int, c: int|
                0 <= a < g.len() && 0 <= c < g[a].len() && (h[i][j] == #[trigger] g[a][c] || h[i][j]
                    == 2 * g[a][c]);
            assert(g[a][c] <= b);
        } else {
            assert(g[0][0] <= b);
        }
    }
}


/// 1 for every tile of the line, 0 for every empty cell.
pub open spec fn marks(s: Seq<u32>) -> Seq<u32> {
    Seq::new(s.len(), |i: int| if s[i] != 0 { 1u32 } else { 0u32 })
}

/// The marks of every row of the board.
pub open spec fn mark_board(g: Seq<Seq<u32>>) -> Seq<Seq<u32>> {
    Seq::new(g.len(), |i: int| marks(g[i]))
}

/// The number of tiles on the board.
pub open spec fn tile_count(g: Seq<Seq<u32>>) -> int {
    grid_sum(mark_board(g))
}

proof fn lemma_marks_sum(s: Seq<u32>)
    ensures
        line_sum(marks(s)) == nonzeros(s).len(),
    decreases s.len(),
{
    if s.len() > 0 {
        let r = s.drop_first();
        lemma_marks_sum(r);
        let head: u32 = if s[0] != 0 { 1u32 } else { 0u32 };
        assert(marks(s) =~= seq![head] + marks(r));
        lemma_line_sum_cons(head, marks(r));
    } else {
        assert(marks(s) =~= Seq::<u32>::empty());
    }
}

proof fn lemma_tiles_backward(s: Seq<u32>)
    ensures
        nonzeros(backward(s)).len() == nonzeros(s).len(),
{
    lemma_marks_sum(s);
    lemma_marks_sum(backward(s));
    assert(marks(backward(s)) =~= backward(marks(s)));
    lemma_line_sum_backward(marks(s));
}

proof fn lemma_grid_sum_rowwise_le(g: Seq<Seq<u32>>, h: Seq<Seq<u32>>)
    requires
        g.len() == h.len(),
        forall|i: int| 0 <= i < g.len() ==> line_sum(#[trigger] g[i]) <= line_sum(h[i]),
    ensures
        grid_sum(g) <= grid_sum(h),
    decreases g.len(),
{
    if g.len() > 0 {
        lemma_grid_sum_rowwise_le(g.drop_last(), h.drop_last());
    }
}

proof fn lemma_mark_board_transpose(g: Seq<Seq<u32>>)
    requires
        is_square(g, g.len()),
    ensures
        transpose(mark_board(g)) == Seq::new(g.len(), |j: int| marks(column(g, j))),
{
    let n = g.len();
    assert forall|j: int| 0 <= j < n implies #[trigger] transpose(mark_board(g))[j] =~= Seq::new(
        n,
        |k: int| marks(column(g, k)),
    )[j] by {}
    assert(transpose(mark_board(g)) =~= Seq::new(n, |j: int| marks(column(g, j))));
}

/// Law: a move never makes more tiles; tiles only slide or merge.
pub proof fn law_step_tiles_never_grow(m: Usermove, g: Seq<Seq<u32>>)
    requires
        is_square(g, g.len()),
        step_fits(m, g),
    ensures
        tile_count(step(m, g)) <= tile_count(g),
{
    let n = g.len();
    let h = step(m, g);
    let mh = mark_board(h);
    let mg = mark_board(g);
    if m == Usermove::Left || m == Usermove::Right {
        assert forall|i: int| 0 <= i < n implies line_sum(#[trigger] mh[i]) <= line_sum(mg[i]) by {
            lemma_marks_sum(h[i]);
            lemma_marks_sum(g[i]);
            if m == Usermove::Left {
                lemma_slide_tiles(g[i]);
            } else {
                lemma_slide_tiles(backward(g[i]));
                lemma_tiles_backward(slide(backward(g[i])));
                lemma_tiles_backward(g[i]);
            }
        }
        lemma_grid_sum_rowwise_le(mh, mg);
    } else {
        let line = |j: int|
            if m == Usermove::Up {
                slide(column(g, j))
            } else {
                backward(slide(backward(column(g, j))))
            };
        let cs = Seq::new(n, |j: int| marks(line(j)));
        let cg = Seq::new(n, |j: int| marks(column(g, j)));
        assert forall|j: int| 0 <= j < n implies (#[trigger] cs[j]).len() == n && line(j).len()
            == n by {
            if m == Usermove::Up {
                lemma_slide_len(column(g, j));
            } else {
                lemma_slide_len(backward(column(g, j)));
            }
        }
        assert forall|i: int| 0 <= i < n implies #[trigger] mh[i] =~= transpose(cs)[i] by {
            assert forall|j: int| 0 <= j < n implies mh[i][j] == transpose(cs)[i][j] by {
                assert(h[i][j] == line(j)[i]);
            }
        }
        assert(mh =~= transpose(cs));
        assert forall|j: int| 0 <= j < n implies line_sum(#[trigger] cs[j]) <= line_sum(cg[j]) by {
            lemma_marks_sum(line(j));
            lemma_marks_sum(column(g, j));
            if m == Usermove::Up {
                lemma_slide_tiles(column(g, j));
            } else {
                lemma_slide_tiles(backward(column(g, j)));
                lemma_tiles_backward(slide(backward(column(g, j))));
                lemma_tiles_backward(column(g, j));
            }
        }
        lemma_grid_sum_transpose(cs, n);
        lemma_grid_sum_rowwise_le(cs, cg);
        lemma_mark_board_transpose(g);
        assert(is_square(mg, n));
        lemma_grid_sum_transpose(mg, n);
    }
}

} // verus!
