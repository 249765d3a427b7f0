use vstd::prelude::*;

verus! {

/// The tiles of a line that are not empty, in their order.
pub open spec fn nonzeros(s: Seq<u32>) -> Seq<u32>
    decreases s.len(),
{
    if s.len() == 0 {
        Seq::empty()
    } else if s[0] == 0 {
        nonzeros(s.drop_first())
    } else {
        seq![s[0]] + nonzeros(s.drop_first())
    }
}

/// The one-tile sequence of `v`, or nothing for an empty cell.
pub open spec fn tile(v: u32) -> Seq<u32> {
    if v == 0 {
        Seq::empty()
    } else {
        seq![v]
    }
}

/// Merges equal neighbours of a list of tiles pairwise, from the front:
/// `[2, 2, 2, 4]` becomes `[4, 2, 4]`.  A merged tile is not merged again.
pub open spec fn merge_pairs(t: Seq<u32>) -> Seq<u32>
    decreases t.len(),
{
    if t.len() < 2 {
        t
    } else if t[0] == t[1] {
        seq![(t[0] + t[1]) as u32] + merge_pairs(t.subrange(2, t.len() as int))
    } else {
        seq![t[0]] + merge_pairs(t.drop_first())
    }
}

/// Every merge that `merge_pairs` makes on `t` stays within `u32`.
pub open spec fn merge_fits(t: Seq<u32>) -> bool
    decreases t.len(),
{
    if t.len() < 2 {
        true
    } else if t[0] == t[1] {
        t[0] + t[1] <= u32::MAX && merge_fits(t.subrange(2, t.len() as int))
    } else {
        merge_fits(t.drop_first())
    }
}

/// `n` empty cells.
pub open spec fn zeros(n: nat) -> Seq<u32> {
    Seq::new(n, |_i: int| 0u32)
}

/// `t` followed by empty cells up to length `n`.
pub open spec fn pad(t: Seq<u32>, n: nat) -> Seq<u32> {
    t + zeros((n - t.len()) as nat)
}

/// A line after it is pushed towards its front: the tiles move to the front,
/// equal neighbours merge pairwise, and the rest of the line is empty.
pub open spec fn slide(s: Seq<u32>) -> Seq<u32> {
    pad(merge_pairs(nonzeros(s)), s.len())
}

/// Sliding `s` towards its front makes no merge that overflows a `u32`.
pub open spec fn slide_fits(s: Seq<u32>) -> bool {
    merge_fits(nonzeros(s))
}

/// The sum of the values of a line.
pub open spec fn line_sum(s: Seq<u32>) -> int
    decreases s.len(),
{
    if s.len() == 0 {
        0
    } else {
        line_sum(s.drop_last()) + s.last()
    }
}

/// A line that sliding leaves as it is: no tile stands behind an empty cell,
/// and no two neighbouring tiles are equal.
pub open spec fn settled(s: Seq<u32>) -> bool {
    &&& forall|i: int, j: int| 0 <= i < j < s.len() && s[i] == 0 ==> s[j] == 0
    &&& forall|i: int, j: int|
        0 <= i && j == i + 1 && j < s.len() && s[i] != 0 ==> #[trigger] s[i] != #[trigger] s[j]
}

pub proof fn lemma_nonzeros_add(a: Seq<u32>, b: Seq<u32>)
    ensures
        nonzeros(a + b) == nonzeros(a) + nonzeros(b),
    decreases a.len(),
{
    if a.len() == 0 {
        assert(a + b =~= b);
        assert(nonzeros(a) + nonzeros(b) =~= nonzeros(b));
    } else {
        assert((a + b).drop_first() =~= a.drop_first() + b);
        lemma_nonzeros_add(a.drop_first(), b);
        if a[0] == 0 {
        } else {
            assert(seq![a[0]] + (nonzeros(a.drop_first()) + nonzeros(b)) =~= seq![a[0]]
                + nonzeros(a.drop_first()) + nonzeros(b));
        }
    }
}

pub proof fn lemma_nonzeros_single(v: u32)
    ensures
        nonzeros(seq![v]) == tile(v),
{
    assert(seq![v].drop_first() =~= Seq::<u32>::empty());
    assert(nonzeros(Seq::<u32>::empty()) =~= Seq::<u32>::empty());
    assert(seq![v] + Seq::<u32>::empty() =~= seq![v]);
}

pub proof fn lemma_nonzeros_all_zero(s: Seq<u32>)
    requires
        forall|k: int| 0 <= k < s.len() ==> s[k] == 0,
    ensures
        nonzeros(s) == Seq::<u32>::empty(),
    decreases s.len(),
{
    if s.len() > 0 {
        lemma_nonzeros_all_zero(s.drop_first());
    }
}

pub proof fn lemma_nonzeros_len(s: Seq<u32>)
    ensures
        nonzeros(s).len() <= s.len(),
    decreases s.len(),
{
    if s.len() > 0 {
        lemma_nonzeros_len(s.drop_first());
    }
}

pub proof fn lemma_merge_len(t: Seq<u32>)
    ensures
        merge_pairs(t).len() <= t.len(),
    decreases t.len(),
{
    if t.len() >= 2 {
        if t[0] == t[1] {
            lemma_merge_len(t.subrange(2, t.len() as int));
        } else {
            lemma_merge_len(t.drop_first());
        }
    }
}

pub proof fn lemma_slide_len(s: Seq<u32>)
    ensures
        slide(s).len() == s.len(),
        merge_pairs(nonzeros(s)).len() <= s.len(),
{
    lemma_nonzeros_len(s);
    lemma_merge_len(nonzeros(s));
}

/// A line whose first cell ends up holding `v` after the front merge
/// slides to `v` followed by the slide of the rest.
pub proof fn lemma_slide_cons(tail: Seq<u32>, v: u32, rest: Seq<u32>)
    requires
        tail.len() == rest.len() + 1,
        merge_pairs(nonzeros(tail)) == tile(v) + merge_pairs(nonzeros(rest)),
        v == 0 ==> nonzeros(rest) == Seq::<u32>::empty(),
    ensures
        slide(tail) == seq![v] + slide(rest),
{
    lemma_slide_len(rest);
    if v == 0 {
        assert(merge_pairs(nonzeros(rest)) =~= Seq::<u32>::empty());
        assert(slide(tail) =~= seq![v] + slide(rest));
    } else {
        assert(slide(tail) =~= seq![v] + slide(rest));
    }
}

/// Settles the cell at `col` of a line whose cells before `col` are final:
/// it takes the first tile behind it if it is empty, and merges at most once
/// with the next tile of equal value.
fn settle_cell<const N: usize>(line: &mut [u32; N], col: usize)
    requires
        col < N,
        slide_fits(old(line)@.subrange(col as int, N as int)),
    ensures
        final(line)@.len() == N,
        final(line)@.subrange(0, col as int) == old(line)@.subrange(0, col as int),
        slide(old(line)@.subrange(col as int, N as int)) == seq![final(line)@[col as int]]
            + slide(final(line)@.subrange(col + 1, N as int)),
        slide_fits(final(line)@.subrange(col + 1, N as int)),
{
    let ghost b = line@;
    let ghost tail = b.subrange(col as int, N as int);
    proof {
        assert(b.subrange(col as int, col + 1) =~= seq![b[col as int]]);
        lemma_nonzeros_single(b[col as int]);
    }
    let mut testcol: usize = col + 1;
    loop
        invariant_except_break
            col < testcol <= N,
            line@.subrange(testcol as int, N as int) == b.subrange(testcol as int, N as int),
            forall|k: int| col < k < testcol ==> line@[k] == 0,
            nonzeros(b.subrange(col as int, testcol as int)) == tile(line@[col as int]),
        invariant
            line@.len() == N,
            b.len() == N,
            col < N,
            tail == b.subrange(col as int, N as int),
            line@.subrange(0, col as int) == b.subrange(0, col as int),
            merge_fits(nonzeros(tail)),
        ensures
            merge_pairs(nonzeros(tail)) == tile(line@[col as int]) + merge_pairs(
                nonzeros(line@.subrange(col + 1, N as int)),
            ),
            line@[col as int] == 0 ==> nonzeros(line@.subrange(col + 1, N as int))
                == Seq::<u32>::empty(),
            merge_fits(nonzeros(line@.subrange(col + 1, N as int))),
        decreases N - testcol,
    {
        if testcol >= N {
            proof {
                let after = line@.subrange(col + 1, N as int);
                assert forall|k: int| 0 <= k < after.len() implies after[k] == 0 by {
                    assert(after[k] == line@[col + 1 + k]);
                }
                lemma_nonzeros_all_zero(after);
                assert(tail =~= b.subrange(col as int, testcol as int));
                assert(merge_pairs(Seq::<u32>::empty()) =~= Seq::<u32>::empty());
                assert(merge_pairs(tile(line@[col as int])) =~= tile(line@[col as int]));
                assert(tile(line@[col as int]) + Seq::<u32>::empty() =~= tile(line@[col as int]));
            }
            break ;
        }
        let ghost cur = line@;
        let ghost left = b.subrange(col as int, testcol as int);
        let ghost right = b.subrange(testcol + 1, N as int);
        proof {
            assert(tail =~= left + (seq![b[testcol as int]] + right));
            assert(b.subrange(col as int, testcol + 1) =~= left + seq![b[testcol as int]]);
            assert(b[testcol as int] == cur[testcol as int]) by {
                assert(cur.subrange(testcol as int, N as int)[0] == cur[testcol as int]);
            }
            lemma_nonzeros_add(left, seq![b[testcol as int]] + right);
            lemma_nonzeros_add(seq![b[testcol as int]], right);
            lemma_nonzeros_add(left, seq![b[testcol as int]]);
            lemma_nonzeros_single(b[testcol as int]);
        }
        if line[testcol] != 0 {
            if line[col] == 0 {
                line[col] = line[col] + line[testcol];
                line[testcol] = 0;
                proof {
                    assert(line@.subrange(testcol + 1, N as int) =~= cur.subrange(
                        testcol + 1,
                        N as int,
                    ));
                    assert(cur.subrange(testcol as int, N as int).subrange(1, N - testcol)
                        =~= cur.subrange(testcol + 1, N as int));
                    assert(b.subrange(testcol as int, N as int).subrange(1, N - testcol)
                        =~= right);
                    assert(line@.subrange(0, col as int) =~= cur.subrange(0, col as int));
                }
            } else if line[col] == line[testcol] {
                let ghost x = line@[col as int];
                let ghost nr = nonzeros(right);
                proof {
                    let t = nonzeros(tail);
                    assert(t =~= seq![x, x] + nr);
                    assert(t.subrange(2, t.len() as int) =~= nr);
                    assert(t[0] == x && t[1] == x);
                }
                line[col] = line[col] + line[testcol];
                line[testcol] = 0;
                proof {
                    let after = line@.subrange(col + 1, N as int);
                    let gap = line@.subrange(col + 1, testcol + 1);
                    assert(after =~= gap + right) by {
                        assert(line@.subrange(testcol + 1, N as int) =~= cur.subrange(
                            testcol + 1,
                            N as int,
                        ));
                        assert(cur.subrange(testcol as int, N as int).subrange(1, N - testcol)
                            =~= cur.subrange(testcol + 1, N as int));
                        assert(b.subrange(testcol as int, N as int).subrange(1, N - testcol)
                            =~= right);
                    }
                    lemma_nonzeros_all_zero(gap);
                    lemma_nonzeros_add(gap, right);
                    assert(nonzeros(after) =~= nr);
                    assert(line@.subrange(0, col as int) =~= cur.subrange(0, col as int));
                }
                break ;
            } else {
                proof {
                    let y = b[testcol as int];
                    let x = line@[col as int];
                    let t = nonzeros(tail);
                    let rest = seq![y] + nonzeros(right);
                    assert(t =~= seq![x] + rest);
                    assert(t.drop_first() =~= rest);
                    let after = line@.subrange(col + 1, N as int);
                    let gap = line@.subrange(col + 1, testcol as int);
                    assert(after =~= gap + b.subrange(testcol as int, N as int));
                    assert(b.subrange(testcol as int, N as int) =~= seq![y] + right);
                    lemma_nonzeros_all_zero(gap);
                    lemma_nonzeros_add(gap, b.subrange(testcol as int, N as int));
                    assert(nonzeros(after) =~= rest);
                }
                break ;
            }
        } else {
            proof {
                assert(nonzeros(seq![b[testcol as int]]) =~= Seq::<u32>::empty());
            }
        }
        proof {
            assert forall|k: int| 0 <= k < N - testcol - 1 implies #[trigger] line@.subrange(
                testcol + 1,
                N as int,
            )[k] == b.subrange(testcol + 1, N as int)[k] by {
                assert(cur.subrange(testcol as int, N as int)[k + 1] == b.subrange(
                    testcol as int,
                    N as int,
                )[k + 1]);
                assert(line@[testcol + 1 + k] == cur[testcol + 1 + k]);
            }
            assert(line@.subrange(testcol + 1, N as int) =~= b.subrange(testcol + 1, N as int));
        }
        testcol = testcol + 1;
    }
    proof {
        let rest = line@.subrange(col + 1, N as int);
        lemma_slide_cons(tail, line@[col as int], rest);
    }
}

/// Pushes a line towards its front, the way one row of the board moves left.
pub fn slide_line<const N: usize>(line: &mut [u32; N])
    requires
        slide_fits(old(line)@),
    ensures
        final(line)@ == slide(old(line)@),
{
    let ghost orig = line@;
    proof {
        assert(orig.subrange(0, N as int) =~= orig);
        assert(orig.subrange(0, 0) + slide(orig) =~= slide(orig));
    }
    let mut col: usize = 0;
    while col < N
        invariant
            col <= N,
            line@.len() == N,
            slide(orig) == line@.subrange(0, col as int) + slide(
                line@.subrange(col as int, N as int),
            ),
            slide_fits(line@.subrange(col as int, N as int)),
        decreases N - col,
    {
        let ghost before = line@;
        settle_cell(line, col);
        proof {
            assert(line@.subrange(0, col + 1) =~= line@.subrange(0, col as int) + seq![
                line@[col as int],
            ]);
            assert(slide(orig) =~= line@.subrange(0, col + 1) + slide(
                line@.subrange(col + 1, N as int),
            ));
        }
        col = col + 1;
    }
    proof {
        assert(line@.subrange(N as int, N as int) =~= Seq::<u32>::empty());
        assert(slide(Seq::<u32>::empty()) =~= Seq::<u32>::empty());
        assert(line@.subrange(0, N as int) =~= line@);
    }
}


pub proof fn lemma_line_sum_add(a: Seq<u32>, b: Seq<u32>)
    ensures
        line_sum(a + b) == line_sum(a) + line_sum(b),
    decreases b.len(),
{
    if b.len() == 0 {
        assert(a + b =~= a);
    } else {
        assert((a + b).drop_last() =~= a + b.drop_last());
        lemma_line_sum_add(a, b.drop_last());
    }
}

pub proof fn lemma_line_sum_single(x: u32)
    ensures
        line_sum(seq![x]) == x,
{
    assert(seq![x].drop_last() =~= Seq::<u32>::empty());
    assert(line_sum(Seq::<u32>::empty()) == 0);
    assert(seq![x].last() == x);
}

pub proof fn lemma_line_sum_cons(x: u32, s: Seq<u32>)
    ensures
        line_sum(seq![x] + s) == x + line_sum(s),
{
    lemma_line_sum_add(seq![x], s);
    lemma_line_sum_single(x);
}

pub proof fn lemma_line_sum_zeros(n: nat)
    ensures
        line_sum(zeros(n)) == 0,
    decreases n,
{
    if n > 0 {
        assert(zeros(n).drop_last() =~= zeros((n - 1) as nat));
        lemma_line_sum_zeros((n - 1) as nat);
    }
}

pub proof fn lemma_line_sum_nonzeros(s: Seq<u32>)
    ensures
        line_sum(nonzeros(s)) == line_sum(s),
    decreases s.len(),
{
    if s.len() > 0 {
        assert(s =~= seq![s[0]] + s.drop_first());
        lemma_line_sum_cons(s[0], s.drop_first());
        lemma_line_sum_nonzeros(s.drop_first());
        if s[0] != 0 {
            lemma_line_sum_cons(s[0], nonzeros(s.drop_first()));
        }
    }
}

proof fn lemma_line_sum_merge(t: Seq<u32>)
    requires
        merge_fits(t),
    ensures
        line_sum(merge_pairs(t)) == line_sum(t),
    decreases t.len(),
{
    if t.len() >= 2 {
        if t[0] == t[1] {
            let r = t.subrange(2, t.len() as int);
            assert(t =~= seq![t[0]] + (seq![t[1]] + r));
            lemma_line_sum_cons(t[0], seq![t[1]] + r);
            lemma_line_sum_cons(t[1], r);
            lemma_line_sum_merge(r);
            lemma_line_sum_cons((t[0] + t[1]) as u32, merge_pairs(r));
        } else {
            assert(t =~= seq![t[0]] + t.drop_first());
            lemma_line_sum_cons(t[0], t.drop_first());
            lemma_line_sum_merge(t.drop_first());
            lemma_line_sum_cons(t[0], merge_pairs(t.drop_first()));
        }
    }
}

/// Sliding a line keeps the sum of its tiles.
pub proof fn lemma_slide_sum(s: Seq<u32>)
    requires
        slide_fits(s),
    ensures
        line_sum(slide(s)) == line_sum(s),
{
    let m = merge_pairs(nonzeros(s));
    lemma_slide_len(s);
    lemma_line_sum_add(m, zeros((s.len() - m.len()) as nat));
    lemma_line_sum_zeros((s.len() - m.len()) as nat);
    lemma_line_sum_merge(nonzeros(s));
    lemma_line_sum_nonzeros(s);
}


/// No two neighbouring entries of `t` are equal.
pub open spec fn distinct_neighbours(t: Seq<u32>) -> bool {
    forall|i: int, j: int| 0 <= i && j == i + 1 && j < t.len() ==> #[trigger] t[i] != #[trigger] t[j]
}

/// No entry of `t` is an empty cell.
pub open spec fn all_tiles(t: Seq<u32>) -> bool {
    forall|i: int| 0 <= i < t.len() ==> #[trigger] t[i] != 0
}

proof fn lemma_nonzeros_all_tiles(s: Seq<u32>)
    ensures
        all_tiles(nonzeros(s)),
    decreases s.len(),
{
    if s.len() > 0 {
        lemma_nonzeros_all_tiles(s.drop_first());
        if s[0] != 0 {
            let r = nonzeros(s.drop_first());
            assert forall|i: int| 0 <= i < (seq![s[0]] + r).len() implies #[trigger] (seq![s[0]]
                + r)[i] != 0 by {
                if i > 0 {
                    assert((seq![s[0]] + r)[i] == r[i - 1]);
                }
            }
        }
    }
}

proof fn lemma_nonzeros_of_tiles(t: Seq<u32>)
    requires
        all_tiles(t),
    ensures
        nonzeros(t) == t,
    decreases t.len(),
{
    if t.len() > 0 {
        assert(all_tiles(t.drop_first())) by {
            assert forall|i: int| 0 <= i < t.drop_first().len() implies #[trigger] t.drop_first()[i]
                != 0 by {
                assert(t.drop_first()[i] == t[i + 1]);
            }
        }
        lemma_nonzeros_of_tiles(t.drop_first());
        assert(t =~= seq![t[0]] + t.drop_first());
    }
}

proof fn lemma_nonzeros_empty(s: Seq<u32>)
    requires
        nonzeros(s) == Seq::<u32>::empty(),
    ensures
        forall|k: int| 0 <= k < s.len() ==> #[trigger] s[k] == 0,
    decreases s.len(),
{
    if s.len() > 0 {
        if s[0] != 0 {
            assert(nonzeros(s).len() > 0);
        }
        lemma_nonzeros_empty(s.drop_first());
        assert forall|k: int| 0 <= k < s.len() implies #[trigger] s[k] == 0 by {
            if k > 0 {
                assert(s[k] == s.drop_first()[k - 1]);
            }
        }
    }
}

proof fn lemma_merge_tiles(t: Seq<u32>)
    requires
        all_tiles(t),
        merge_fits(t),
    ensures
        all_tiles(merge_pairs(t)),
    decreases t.len(),
{
    if t.len() >= 2 {
        if t[0] == t[1] {
            let r = t.subrange(2, t.len() as int);
            assert(all_tiles(r)) by {
                assert forall|i: int| 0 <= i < r.len() implies #[trigger] r[i] != 0 by {
                    assert(r[i] == t[i + 2]);
                }
            }
            lemma_merge_tiles(r);
            let m = seq![(t[0] + t[1]) as u32] + merge_pairs(r);
            assert forall|i: int| 0 <= i < m.len() implies #[trigger] m[i] != 0 by {
                if i > 0 {
                    assert(m[i] == merge_pairs(r)[i - 1]);
                }
            }
        } else {
            let r = t.drop_first();
            assert(all_tiles(r)) by {
                assert forall|i: int| 0 <= i < r.len() implies #[trigger] r[i] != 0 by {
                    assert(r[i] == t[i + 1]);
                }
            }
            lemma_merge_tiles(r);
            let m = seq![t[0]] + merge_pairs(r);
            assert forall|i: int| 0 <= i < m.len() implies #[trigger] m[i] != 0 by {
                if i > 0 {
                    assert(m[i] == merge_pairs(r)[i - 1]);
                }
            }
        }
    }
}

/// A merge that keeps the length merged nothing.
proof fn lemma_merge_same_len(t: Seq<u32>)
    requires
        merge_pairs(t).len() == t.len(),
    ensures
        distinct_neighbours(t),
    decreases t.len(),
{
    if t.len() >= 2 {
        if t[0] == t[1] {
            lemma_merge_len(t.subrange(2, t.len() as int));
        } else {
            let r = t.drop_first();
            lemma_merge_same_len(r);
            assert forall|i: int, j: int| 0 <= i && j == i + 1 && j < t.len() implies #[trigger] t[i]
                != #[trigger] t[j] by {
                if i > 0 {
                    assert(t[i] == r[i - 1] && t[j] == r[j - 1]);
                }
            }
        }
    }
}

proof fn lemma_merge_distinct(t: Seq<u32>)
    requires
        distinct_neighbours(t),
    ensures
        merge_pairs(t) == t,
    decreases t.len(),
{
    if t.len() >= 2 {
        assert(t[0] != t[1]);
        let r = t.drop_first();
        assert(distinct_neighbours(r)) by {
            assert forall|i: int, j: int| 0 <= i && j == i + 1 && j < r.len() implies #[trigger] r[i]
                != #[trigger] r[j] by {
                assert(r[i] == t[i + 1] && r[j] == t[j + 1]);
            }
        }
        lemma_merge_distinct(r);
        assert(t =~= seq![t[0]] + r);
    }
}

/// A line that sliding leaves as it is is settled.
proof fn lemma_slide_fixed_settled(s: Seq<u32>)
    requires
        slide_fits(s),
        slide(s) == s,
    ensures
        settled(s),
{
    let m = merge_pairs(nonzeros(s));
    lemma_slide_len(s);
    lemma_nonzeros_all_tiles(s);
    lemma_merge_tiles(nonzeros(s));
    let z = zeros((s.len() - m.len()) as nat);
    assert(s == m + z);
    assert forall|k: int| 0 <= k < s.len() implies (#[trigger] s[k] == 0) == (k >= m.len()) by {
        if k < m.len() {
            assert(s[k] == m[k]);
        } else {
            assert(s[k] == z[k - m.len()]);
        }
    }
    lemma_nonzeros_add(m, z);
    lemma_nonzeros_all_zero(z);
    lemma_nonzeros_of_tiles(m);
    assert(nonzeros(s) =~= m);
    lemma_merge_same_len(m);
    assert forall|i: int, j: int| 0 <= i && j == i + 1 && j < s.len() && s[i] != 0 implies #[trigger] s[i]
        != #[trigger] s[j] by {
        if j < m.len() {
            assert(s[i] == m[i] && s[j] == m[j]);
        }
    }
}

/// A settled line is left as it is by sliding.
proof fn lemma_settled_slide_fixed(s: Seq<u32>)
    requires
        settled(s),
    ensures
        slide(s) == s,
    decreases s.len(),
{
    if s.len() == 0 {
        assert(slide(s) =~= s);
    } else if s[0] == 0 {
        assert forall|k: int| 0 <= k < s.len() implies #[trigger] s[k] == 0 by {
            if k > 0 {
                assert(s[0] == 0);
            }
        }
        lemma_nonzeros_all_zero(s);
        assert(merge_pairs(Seq::<u32>::empty()) =~= Seq::<u32>::empty());
        assert(slide(s) =~= s);
    } else {
        let rest = s.drop_first();
        assert(settled(rest)) by {
            assert forall|i: int, j: int| 0 <= i < j < rest.len() && rest[i] == 0 implies rest[j]
                == 0 by {
                assert(rest[i] == s[i + 1] && rest[j] == s[j + 1]);
            }
            assert forall|i: int, j: int|
                0 <= i && j == i + 1 && j < rest.len() && rest[i] != 0 implies #[trigger] rest[i]
                != #[trigger] rest[j] by {
                assert(rest[i] == s[i + 1] && rest[j] == s[j + 1]);
            }
        }
        lemma_settled_slide_fixed(rest);
        let nr = nonzeros(rest);
        assert(nonzeros(s) == seq![s[0]] + nr);
        if nr.len() == 0 {
            assert(nr =~= Seq::<u32>::empty());
            lemma_nonzeros_empty(rest);
            assert(seq![s[0]] + nr =~= seq![s[0]]);
            assert(merge_pairs(nr) =~= Seq::<u32>::empty());
            assert(merge_pairs(nonzeros(s)) =~= tile(s[0]) + merge_pairs(nr));
        } else {
            if rest[0] == 0 {
                assert forall|k: int| 0 <= k < rest.len() implies #[trigger] rest[k] == 0 by {
                    if k > 0 {
                        assert(rest[0] == 0);
                    }
                }
                lemma_nonzeros_all_zero(rest);
            }
            assert(nr[0] == rest[0]);
            assert(s[0] != s[1]);
            let t = seq![s[0]] + nr;
            assert(t[0] != t[1]);
            assert(t.drop_first() =~= nr);
            assert(merge_pairs(nonzeros(s)) =~= tile(s[0]) + merge_pairs(nr));
        }
        lemma_slide_cons(s, s[0], rest);
        assert(s =~= seq![s[0]] + rest);
    }
}

/// Sliding leaves a line as it is exactly when the line is settled.
pub proof fn lemma_slide_fixed_iff_settled(s: Seq<u32>)
    requires
        slide_fits(s),
    ensures
        (slide(s) == s) == settled(s),
{
    if slide(s) == s {
        lemma_slide_fixed_settled(s);
    }
    if settled(s) {
        lemma_settled_slide_fixed(s);
    }
}


/// `v` is an entry of `s` or twice one.
pub open spec fn from_line(v: u32, s: Seq<u32>) -> bool {
    exists|k: int| 0 <= k < s.len() && (v == #[trigger] s[k] || v == 2 * s[k])
}

proof fn lemma_nonzeros_members(s: Seq<u32>)
    ensures
        forall|i: int|
            0 <= i < nonzeros(s).len() ==> exists|k: int|
                0 <= k < s.len() && #[trigger] nonzeros(s)[i] == s[k],
    decreases s.len(),
{
    if s.len() > 0 {
        let r = s.drop_first();
        lemma_nonzeros_members(r);
        assert forall|i: int| 0 <= i < nonzeros(s).len() implies exists|k: int|
            0 <= k < s.len() && #[trigger] nonzeros(s)[i] == s[k] by {
            if s[0] != 0 && i == 0 {
                assert(nonzeros(s)[0] == s[0]);
            } else {
                let i2 = if s[0] != 0 { i - 1 } else { i };
                assert(nonzeros(s)[i] == nonzeros(r)[i2]);
                let k = choose|k: int| 0 <= k < r.len() && nonzeros(r)[i2] == r[k];
                assert(s[k + 1] == r[k]);
            }
        }
    }
}

proof fn lemma_merge_members(t: Seq<u32>)
    requires
        merge_fits(t),
    ensures
        forall|i: int| 0 <= i < merge_pairs(t).len() ==> #[trigger] from_line(merge_pairs(t)[i], t),
    decreases t.len(),
{
    if t.len() >= 2 {
        if t[0] == t[1] {
            let r = t.subrange(2, t.len() as int);
            lemma_merge_members(r);
            assert forall|i: int| 0 <= i < merge_pairs(t).len() implies #[trigger] from_line(
                merge_pairs(t)[i],
                t,
            ) by {
                if i == 0 {
                    assert(merge_pairs(t)[0] == 2 * t[0]);
                } else {
                    assert(merge_pairs(t)[i] == merge_pairs(r)[i - 1]);
                    assert(from_line(merge_pairs(r)[i - 1], r));
                    let k = choose|k: int|
                        0 <= k < r.len() && (merge_pairs(r)[i - 1] == #[trigger] r[k]
                            || merge_pairs(r)[i - 1] == 2 * r[k]);
                    assert(t[k + 2] == r[k]);
                }
            }
        } else {
            let r = t.drop_first();
            lemma_merge_members(r);
            assert forall|i: int| 0 <= i < merge_pairs(t).len() implies #[trigger] from_line(
                merge_pairs(t)[i],
                t,
            ) by {
                if i == 0 {
                    assert(merge_pairs(t)[0] == t[0]);
                } else {
                    assert(merge_pairs(t)[i] == merge_pairs(r)[i - 1]);
                    assert(from_line(merge_pairs(r)[i - 1], r));
                    let k = choose|k: int|
                        0 <= k < r.len() && (merge_pairs(r)[i - 1] == #[trigger] r[k]
                            || merge_pairs(r)[i - 1] == 2 * r[k]);
                    assert(t[k + 1] == r[k]);
                }
            }
        }
    } else {
        assert forall|i: int| 0 <= i < merge_pairs(t).len() implies #[trigger] from_line(
            merge_pairs(t)[i],
            t,
        ) by {
            assert(merge_pairs(t)[i] == t[i]);
        }
    }
}

/// Every cell of a slid line is empty, a value of the line, or twice one.
pub proof fn lemma_slide_values(s: Seq<u32>)
    requires
        slide_fits(s),
    ensures
        forall|i: int| 0 <= i < s.len() ==> #[trigger] slide(s)[i] == 0 || from_line(slide(s)[i], s),
{
    let t = nonzeros(s);
    let m = merge_pairs(t);
    lemma_slide_len(s);
    lemma_merge_members(t);
    lemma_nonzeros_members(s);
    assert forall|i: int| 0 <= i < s.len() implies #[trigger] slide(s)[i] == 0 || from_line(
        slide(s)[i],
        s,
    ) by {
        if i < m.len() {
            assert(slide(s)[i] == m[i]);
            assert(from_line(m[i], t));
            let k = choose|k: int| 0 <= k < t.len() && (m[i] == #[trigger] t[k] || m[i] == 2 * t[k]);
            let k2 = choose|k2: int| 0 <= k2 < s.len() && #[trigger] t[k] == s[k2];
            assert(s[k2] == t[k]);
        } else {
            assert(slide(s)[i] == zeros((s.len() - m.len()) as nat)[i - m.len()]);
        }
    }
}


/// Sliding never makes more tiles than the line had.
pub proof fn lemma_slide_tiles(s: Seq<u32>)
    requires
        slide_fits(s),
    ensures
        nonzeros(slide(s)).len() <= nonzeros(s).len(),
{
    let t = nonzeros(s);
    let m = merge_pairs(t);
    lemma_slide_len(s);
    lemma_nonzeros_all_tiles(s);
    lemma_merge_tiles(t);
    lemma_merge_len(t);
    let z = zeros((s.len() - m.len()) as nat);
    lemma_nonzeros_add(m, z);
    lemma_nonzeros_all_zero(z);
    lemma_nonzeros_of_tiles(m);
    assert(nonzeros(m) + nonzeros(z) =~= m);
}

} // verus!
