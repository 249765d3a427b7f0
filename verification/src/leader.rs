use vstd::prelude::*;

use crate::game_field::FieldSize;

verus! {

/// A finished game entered on the leader board.
#[derive(Debug)]
pub struct Leader {
    pub name: String,
    pub score: u32,
    pub hard: bool,
    pub size: FieldSize,
}

/// The leader boards: `.0` for the 4x4 board and `.1` for the 6x6 board,
/// one pair for the hard games and one for the normal ones.  Each list is
/// kept in order of score, highest first.
#[derive(Debug)]
pub struct LeaderBoard {
    pub hard_list: (Vec<Leader>, Vec<Leader>),
    pub easy_list: (Vec<Leader>, Vec<Leader>),
}

/// `l` put into `s` after every entry whose score is at least `l`'s, and
/// before the first entry whose score is lower.
pub open spec fn insert_by_score(s: Seq<Leader>, l: Leader) -> Seq<Leader>
    decreases s.len(),
{
    if s.len() == 0 {
        seq![l]
    } else if s[0].score < l.score {
        seq![l] + s
    } else {
        seq![s[0]] + insert_by_score(s.drop_first(), l)
    }
}

/// `s` sorted by score, highest first, entries of equal score keeping their
/// order (a stable sort).
pub open spec fn sort_by_score(s: Seq<Leader>) -> Seq<Leader>
    decreases s.len(),
{
    if s.len() == 0 {
        Seq::empty()
    } else {
        insert_by_score(sort_by_score(s.drop_last()), s.last())
    }
}

/// The scores of `s` never rise from one entry to the next.
pub open spec fn sorted_by_score(s: Seq<Leader>) -> bool {
    forall|i: int, j: int| 0 <= i < j < s.len() ==> #[trigger] s[i].score >= #[trigger] s[j].score
}

/// The list after `l` is entered: `l` joins the list, the list is sorted by
/// score, highest first, and its last entry leaves.
pub open spec fn entered(s: Seq<Leader>, l: Leader) -> Seq<Leader> {
    sort_by_score(s.push(l)).drop_last()
}

proof fn lemma_insert_len(s: Seq<Leader>, l: Leader)
    ensures
        insert_by_score(s, l).len() == s.len() + 1,
    decreases s.len(),
{
    if s.len() > 0 && s[0].score >= l.score {
        lemma_insert_len(s.drop_first(), l);
    }
}

proof fn lemma_sort_len(s: Seq<Leader>)
    ensures
        sort_by_score(s).len() == s.len(),
    decreases s.len(),
{
    if s.len() > 0 {
        lemma_sort_len(s.drop_last());
        lemma_insert_len(sort_by_score(s.drop_last()), s.last());
    }
}

/// Where `l` goes into `s`: the first position whose score is lower than
/// `l`'s, given that no earlier one is.
proof fn lemma_insert_at(s: Seq<Leader>, l: Leader, p: int)
    requires
        0 <= p <= s.len(),
        forall|k: int| 0 <= k < p ==> #[trigger] s[k].score >= l.score,
        p < s.len() ==> s[p].score < l.score,
    ensures
        insert_by_score(s, l) == s.insert(p, l),
    decreases s.len(),
{
    if s.len() == 0 {
        assert(s.insert(p, l) =~= seq![l]);
    } else if p == 0 {
        assert(s.insert(p, l) =~= seq![l] + s);
    } else {
        let r = s.drop_first();
        assert forall|k: int| 0 <= k < p - 1 implies #[trigger] r[k].score >= l.score by {
            assert(r[k] == s[k + 1]);
        }
        lemma_insert_at(r, l, p - 1);
        assert(s.insert(p, l) =~= seq![s[0]] + r.insert(p - 1, l));
    }
}

proof fn lemma_insert_sorted(s: Seq<Leader>, l: Leader)
    requires
        sorted_by_score(s),
    ensures
        sorted_by_score(insert_by_score(s, l)),
    decreases s.len(),
{
    if s.len() > 0 && s[0].score >= l.score {
        let r = s.drop_first();
        assert(sorted_by_score(r)) by {
            assert forall|i: int, j: int| 0 <= i < j < r.len() implies #[trigger] r[i].score
                >= #[trigger] r[j].score by {
                assert(r[i] == s[i + 1] && r[j] == s[j + 1]);
            }
        }
        lemma_insert_sorted(r, l);
        lemma_insert_len(r, l);
        let t = insert_by_score(r, l);
        lemma_insert_members(r, l);
        let u = seq![s[0]] + t;
        assert forall|i: int, j: int| 0 <= i < j < u.len() implies #[trigger] u[i].score
            >= #[trigger] u[j].score by {
            if i == 0 {
                assert(u[j] == t[j - 1]);
                if t[j - 1] == l {
                } else {
                    let k = choose|k: int| 0 <= k < r.len() && r[k] == t[j - 1];
                    assert(s[0].score >= s[k + 1].score);
                }
            } else {
                assert(u[i] == t[i - 1] && u[j] == t[j - 1]);
            }
        }
    } else if s.len() > 0 {
        let u = seq![l] + s;
        assert forall|i: int, j: int| 0 <= i < j < u.len() implies #[trigger] u[i].score
            >= #[trigger] u[j].score by {
            if i == 0 {
                assert(u[j] == s[j - 1]);
                assert(s[0].score >= s[j - 1].score || j - 1 == 0);
            } else {
                assert(u[i] == s[i - 1] && u[j] == s[j - 1]);
            }
        }
    }
}

/// Every entry of `insert_by_score(s, l)` is `l` or an entry of `s`.
proof fn lemma_insert_members(s: Seq<Leader>, l: Leader)
    ensures
        forall|i: int|
            0 <= i < insert_by_score(s, l).len() ==> #[trigger] insert_by_score(s, l)[i] == l
                || exists|k: int| 0 <= k < s.len() && s[k] == insert_by_score(s, l)[i],
    decreases s.len(),
{
    lemma_insert_len(s, l);
    if s.len() > 0 {
        let r = s.drop_first();
        lemma_insert_members(r, l);
        let t = insert_by_score(s, l);
        assert forall|i: int| 0 <= i < t.len() implies #[trigger] t[i] == l || exists|k: int|
            0 <= k < s.len() && s[k] == t[i] by {
            if s[0].score < l.score {
                if i > 0 {
                    assert(t[i] == s[i - 1]);
                }
            } else {
                if i == 0 {
                    assert(t[0] == s[0]);
                } else {
                    let tr = insert_by_score(r, l);
                    assert(t[i] == tr[i - 1]);
                    if tr[i - 1] != l {
                        let k = choose|k: int| 0 <= k < r.len() && r[k] == tr[i - 1];
                        assert(s[k + 1] == t[i]);
                    }
                }
            }
        }
    }
}

/// Law: the list that `sort_by_score` gives is sorted by score.
pub proof fn law_sort_is_sorted(s: Seq<Leader>)
    ensures
        sorted_by_score(sort_by_score(s)),
        sort_by_score(s).len() == s.len(),
    decreases s.len(),
{
    lemma_sort_len(s);
    if s.len() > 0 {
        law_sort_is_sorted(s.drop_last());
        lemma_insert_sorted(sort_by_score(s.drop_last()), s.last());
    } else {
        assert(sort_by_score(s) =~= Seq::<Leader>::empty());
    }
}

/// Sorting a list that is already sorted leaves it as it is.
proof fn lemma_sort_sorted(s: Seq<Leader>)
    requires
        sorted_by_score(s),
    ensures
        sort_by_score(s) == s,
    decreases s.len(),
{
    if s.len() > 0 {
        let d = s.drop_last();
        assert(sorted_by_score(d)) by {
            assert forall|i: int, j: int| 0 <= i < j < d.len() implies #[trigger] d[i].score
                >= #[trigger] d[j].score by {
                assert(d[i] == s[i] && d[j] == s[j]);
            }
        }
        lemma_sort_sorted(d);
        assert forall|k: int| 0 <= k < d.len() implies #[trigger] d[k].score >= s.last().score by {
            assert(d[k] == s[k]);
        }
        lemma_insert_at(d, s.last(), d.len() as int);
        assert(d.insert(d.len() as int, s.last()) =~= s);
    }
}

/// Law: entering a leader keeps the length of the list and its order by
/// score.  On a sorted list that is not empty, a leader whose score is not
/// higher than the lowest score of the list leaves the list as it was;
/// otherwise the leader takes the place after all entries of at least its
/// score, and the last entry leaves.
pub proof fn law_entered(s: Seq<Leader>, l: Leader)
    requires
        sorted_by_score(s),
        s.len() > 0,
    ensures
        entered(s, l).len() == s.len(),
        sorted_by_score(entered(s, l)),
        l.score <= s.last().score ==> entered(s, l) == s,
        l.score > s.last().score ==> entered(s, l) == insert_by_score(s, l).drop_last(),
{
    let p = s.push(l);
    assert(p.drop_last() =~= s);
    assert(p.last() == l);
    lemma_sort_sorted(s);
    assert(sort_by_score(p) == insert_by_score(s, l));
    lemma_insert_len(s, l);
    law_sort_is_sorted(p);
    let e = entered(s, l);
    assert(sorted_by_score(e)) by {
        assert forall|i: int, j: int| 0 <= i < j < e.len() implies #[trigger] e[i].score
            >= #[trigger] e[j].score by {
            assert(e[i] == sort_by_score(p)[i] && e[j] == sort_by_score(p)[j]);
        }
    }
    if l.score <= s.last().score {
        assert forall|k: int| 0 <= k < s.len() implies #[trigger] s[k].score >= l.score by {
            if k < s.len() - 1 {
                assert(s[k].score >= s[s.len() - 1].score);
            }
        }
        lemma_insert_at(s, l, s.len() as int);
        assert(s.insert(s.len() as int, l).drop_last() =~= s);
    }
}

/// Enters `leader` in `list`: it joins the list, the list is sorted by score,
/// highest first (a stable sort), and its last entry is dropped.
fn enter_leader(list: &mut Vec<Leader>, leader: Leader)
    ensures
        final(list)@ == entered(old(list)@, leader),
{
    let ghost s = list@.push(leader);
    list.push(leader);
    let mut sorted: Vec<Leader> = Vec::new();
    let mut idx: usize = 0;
    let n = list.len();
    // Insertion sort: the entries leave `list` from the front, one by one,
    // and each goes after the entries of `sorted` with a score at least its.
    while list.len() > 0
        invariant
            n == s.len(),
            list@.len() <= n,
            list@ == s.subrange(n - list@.len(), n as int),
            sorted@ == sort_by_score(s.subrange(0, n - list@.len())),
        decreases list.len(),
    {
        let ghost done = n - list@.len();
        assert(list@[0] == s[done]);
        let item = list.remove(0);
        assert(item == s[done]);
        let mut p: usize = 0;
        proof {
            lemma_sort_len(s.subrange(0, done));
        }
        while p < sorted.len() && sorted[p].score >= item.score
            invariant
                p <= sorted.len(),
                forall|k: int| 0 <= k < p ==> #[trigger] sorted@[k].score >= item.score,
            decreases sorted.len() - p,
        {
            p = p + 1;
        }
        proof {
            lemma_insert_at(sorted@, item, p as int);
            assert(s.subrange(0, done + 1).drop_last() =~= s.subrange(0, done));
            assert(s.subrange(0, done + 1).last() == item);
        }
        sorted.insert(p, item);
        proof {
            assert(list@ =~= s.subrange(n - list@.len(), n as int));
        }
    }
    proof {
        assert(s.subrange(0, n as int) =~= s);
        lemma_sort_len(s);
    }
    sorted.pop();
    *list = sorted;
}

impl LeaderBoard {
    /// Enters `leader` on the board of its size and difficulty: the leader
    /// joins that list, the list is sorted by score, highest first, and its
    /// last entry leaves.  The other lists are left as they were.
    pub fn add_leader(&mut self, leader: Leader)
        requires
            leader.size != FieldSize::Empty,
        ensures
            !leader.hard && leader.size == FieldSize::Four ==> final(self).easy_list.0@ == entered(
                old(self).easy_list.0@,
                leader,
            ) && final(self).easy_list.1 == old(self).easy_list.1 && final(self).hard_list
                == old(self).hard_list,
            !leader.hard && leader.size == FieldSize::Six ==> final(self).easy_list.1@ == entered(
                old(self).easy_list.1@,
                leader,
            ) && final(self).easy_list.0 == old(self).easy_list.0 && final(self).hard_list
                == old(self).hard_list,
            leader.hard && leader.size == FieldSize::Four ==> final(self).hard_list.0@ == entered(
                old(self).hard_list.0@,
                leader,
            ) && final(self).hard_list.1 == old(self).hard_list.1 && final(self).easy_list
                == old(self).easy_list,
            leader.hard && leader.size == FieldSize::Six ==> final(self).hard_list.1@ == entered(
                old(self).hard_list.1@,
                leader,
            ) && final(self).hard_list.0 == old(self).hard_list.0 && final(self).easy_list
                == old(self).easy_list,
    {
        if !leader.hard {
            match leader.size {
                FieldSize::Four => enter_leader(&mut self.easy_list.0, leader),
                FieldSize::Six => enter_leader(&mut self.easy_list.1, leader),
                FieldSize::Empty => {},
            }
        } else {
            match leader.size {
                FieldSize::Four => enter_leader(&mut self.hard_list.0, leader),
                FieldSize::Six => enter_leader(&mut self.hard_list.1, leader),
                FieldSize::Empty => {},
            }
        }
    }
}


impl Default for Leader {
    fn default() -> (r: Leader)
        ensures
            r.name@ == Seq::<char>::empty(),
            r.score == 0,
            !r.hard,
            r.size == FieldSize::Four,
    {
        Leader { name: String::new(), score: 0, hard: false, size: FieldSize::default() }
    }
}

impl Default for LeaderBoard {
    fn default() -> (r: LeaderBoard)
        ensures
            r.hard_list.0@.len() == 0 && r.hard_list.1@.len() == 0,
            r.easy_list.0@.len() == 0 && r.easy_list.1@.len() == 0,
    {
        LeaderBoard { hard_list: (Vec::new(), Vec::new()), easy_list: (Vec::new(), Vec::new()) }
    }
}

} // verus!
