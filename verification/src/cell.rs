use vstd::prelude::*;

verus! {

/// An aggregate particle attached to some other particle.
///
/// `age < 0` marks an empty cell; a non-negative `age` is the iteration at
/// which the particle attached. `parent` is the flat index of the particle
/// this one attached to; a root is its own parent. `children` counts the
/// occupied cells whose `parent` field refers to this cell (a root counts
/// itself).
#[derive(Copy, Clone)]
pub struct Aggregate {
    pub age: i32,
    pub children: usize,
    pub parent: usize,
}

/// The record stored in every cell that holds no particle.
pub open spec fn empty_aggregate() -> Aggregate {
    Aggregate { age: -1i32, children: 0usize, parent: usize::MAX }
}

impl Aggregate {
    /// True if this record holds a resting particle.
    pub open spec fn occupied(self) -> bool {
        self.age >= 0
    }

    pub fn empty() -> (r: Aggregate)
        ensures
            r == empty_aggregate(),
    {
        Aggregate { age: -1, children: 0, parent: usize::MAX }
    }
}

/// How much one record contributes to the child count of the cell at
/// index `p`: one if it is occupied and attached to `p`, zero otherwise.
pub open spec fn child_contrib(a: Aggregate, p: int) -> int {
    if a.occupied() && a.parent == p {
        1
    } else {
        0
    }
}

/// The number of occupied cells in `s` whose `parent` field refers to
/// index `p`. A self-parented root at `p` counts itself.
pub open spec fn count_children(s: Seq<Aggregate>, p: int) -> int
    decreases s.len(),
{
    if s.len() == 0 {
        0
    } else {
        count_children(s.drop_last(), p) + child_contrib(s.last(), p)
    }
}

pub proof fn lemma_count_bounds(s: Seq<Aggregate>, p: int)
    ensures
        0 <= count_children(s, p) <= s.len(),
    decreases s.len(),
{
    if s.len() > 0 {
        lemma_count_bounds(s.drop_last(), p);
    }
}

/// Replacing the record at index `k` changes the child count of `p` by the
/// difference of the two records' contributions.
pub proof fn lemma_count_update(s: Seq<Aggregate>, k: int, v: Aggregate, p: int)
    requires
        0 <= k < s.len(),
    ensures
        count_children(s.update(k, v), p) == count_children(s, p) - child_contrib(s[k], p)
            + child_contrib(v, p),
    decreases s.len(),
{
    let t = s.update(k, v);
    if k == s.len() - 1 {
        assert(t.drop_last() =~= s.drop_last());
        assert(t.last() == v);
    } else {
        lemma_count_update(s.drop_last(), k, v, p);
        assert(t.drop_last() =~= s.drop_last().update(k, v));
        assert(t.last() == s.last());
    }
}

/// A cell that demonstrably points at `p` forces the count to be positive.
pub proof fn lemma_count_at_least_one(s: Seq<Aggregate>, p: int, k: int)
    requires
        0 <= k < s.len(),
        child_contrib(s[k], p) == 1,
    ensures
        count_children(s, p) >= 1,
    decreases s.len(),
{
    if k == s.len() - 1 {
        lemma_count_bounds(s.drop_last(), p);
    } else {
        lemma_count_at_least_one(s.drop_last(), p, k);
        lemma_count_bounds(s, p);
        assert(count_children(s, p) == count_children(s.drop_last(), p) + child_contrib(s.last(), p));
    }
}

/// If the count is zero, no cell points at `p`.
pub proof fn lemma_count_zero_no_contrib(s: Seq<Aggregate>, p: int, k: int)
    requires
        0 <= k < s.len(),
        count_children(s, p) == 0,
    ensures
        child_contrib(s[k], p) == 0,
{
    if child_contrib(s[k], p) == 1 {
        lemma_count_at_least_one(s, p, k);
        assert(false);
    }
}

/// A cell that demonstrably does not point at `p` leaves room below the
/// maximal count.
pub proof fn lemma_count_lt_len(s: Seq<Aggregate>, p: int, k: int)
    requires
        0 <= k < s.len(),
        child_contrib(s[k], p) == 0,
    ensures
        count_children(s, p) <= s.len() - 1,
    decreases s.len(),
{
    if k == s.len() - 1 {
        lemma_count_bounds(s.drop_last(), p);
    } else {
        lemma_count_lt_len(s.drop_last(), p, k);
    }
}

/// The number of occupied cells in the space.
pub open spec fn occupied_count(s: Seq<Aggregate>) -> int
    decreases s.len(),
{
    if s.len() == 0 {
        0
    } else {
        occupied_count(s.drop_last()) + if s.last().occupied() {
            1int
        } else {
            0
        }
    }
}

/// Replacing one record changes the occupancy count by the difference of
/// the two records' occupancy.
pub proof fn lemma_occupied_count_update(s: Seq<Aggregate>, k: int, v: Aggregate)
    requires
        0 <= k < s.len(),
    ensures
        occupied_count(s.update(k, v)) == occupied_count(s) - (if s[k].occupied() {
            1int
        } else {
            0
        }) + (if v.occupied() {
            1int
        } else {
            0
        }),
    decreases s.len(),
{
    let t = s.update(k, v);
    if k == s.len() - 1 {
        assert(t.drop_last() =~= s.drop_last());
        assert(t.last() == v);
    } else {
        lemma_occupied_count_update(s.drop_last(), k, v);
        assert(t.drop_last() =~= s.drop_last().update(k, v));
        assert(t.last() == s.last());
    }
}

/// A fully empty space holds no particles.
pub proof fn lemma_occupied_count_all_empty(s: Seq<Aggregate>)
    requires
        forall|k: int| 0 <= k < s.len() ==> !s[k].occupied(),
    ensures
        occupied_count(s) == 0,
    decreases s.len(),
{
    if s.len() > 0 {
        lemma_occupied_count_all_empty(s.drop_last());
    }
}

/// A set of distinct indices that all hold particles is a lower bound on
/// the occupancy count.
pub proof fn lemma_occupied_count_at_least(s: Seq<Aggregate>, m: Set<int>)
    requires
        m.finite(),
        forall|i: int| m.contains(i) ==> 0 <= i < s.len() && s[i].occupied(),
    ensures
        m.len() <= occupied_count(s),
    decreases s.len(),
{
    if s.len() == 0 {
        assert(m =~= Set::<int>::empty());
    } else {
        let last = s.len() - 1;
        if m.contains(last) {
            let m2 = m.remove(last);
            vstd::set::axiom_set_remove_len(m, last);
            vstd::set::axiom_set_remove_finite(m, last);
            lemma_occupied_count_at_least(s.drop_last(), m2);
        } else {
            lemma_occupied_count_at_least(s.drop_last(), m);
        }
    }
}

/// Contribution of one pre-pass record to the number of removed cells
/// pointing at `p`: one if the record was not kept and pointed at `p`.
pub open spec fn removed_contrib(a: Aggregate, kept: bool, p: int) -> int {
    if !kept && a.parent == p {
        1
    } else {
        0
    }
}

/// The number of cells removed by a pruning pass (those whose `keep` flag
/// is false) whose record in the pre-pass state `s` pointed at `p`.
pub open spec fn removed_count(s: Seq<Aggregate>, keep: Seq<bool>, p: int) -> int
    decreases s.len(),
{
    if s.len() == 0 {
        0
    } else {
        removed_count(s.drop_last(), keep.drop_last(), p) + removed_contrib(
            s.last(),
            keep.last(),
            p,
        )
    }
}

pub proof fn lemma_removed_nonneg(s: Seq<Aggregate>, keep: Seq<bool>, p: int)
    ensures
        removed_count(s, keep, p) >= 0,
    decreases s.len(),
{
    if s.len() > 0 {
        lemma_removed_nonneg(s.drop_last(), keep.drop_last(), p);
    }
}

/// A pass that keeps everything removes no children from anyone.
pub proof fn lemma_removed_all_kept(s: Seq<Aggregate>, keep: Seq<bool>, p: int)
    requires
        keep.len() == s.len(),
        forall|k: int| 0 <= k < keep.len() ==> keep[k],
    ensures
        removed_count(s, keep, p) == 0,
    decreases s.len(),
{
    if s.len() > 0 {
        lemma_removed_all_kept(s.drop_last(), keep.drop_last(), p);
    }
}

/// Flipping one `keep` flag changes the removed count of `p` by the
/// difference of the record's contributions under the old and new flag.
pub proof fn lemma_removed_update(s: Seq<Aggregate>, keep: Seq<bool>, k: int, b: bool, p: int)
    requires
        keep.len() == s.len(),
        0 <= k < s.len(),
    ensures
        removed_count(s, keep.update(k, b), p) == removed_count(s, keep, p) - removed_contrib(
            s[k],
            keep[k],
            p,
        ) + removed_contrib(s[k], b, p),
    decreases s.len(),
{
    let t = keep.update(k, b);
    if k == s.len() - 1 {
        assert(t.drop_last() =~= keep.drop_last());
        assert(t.last() == b);
    } else {
        lemma_removed_update(s.drop_last(), keep.drop_last(), k, b, p);
        assert(t.drop_last() =~= keep.drop_last().update(k, b));
        assert(t.last() == keep.last());
        assert(s.drop_last()[k] == s[k]);
    }
}

/// When every removed cell was occupied before the pass, the removed count
/// of `p` cannot exceed its recorded child count.
pub proof fn lemma_removed_le_count(s: Seq<Aggregate>, keep: Seq<bool>, p: int)
    requires
        keep.len() == s.len(),
        forall|k: int| 0 <= k < s.len() && !keep[k] ==> s[k].occupied(),
    ensures
        removed_count(s, keep, p) <= count_children(s, p),
    decreases s.len(),
{
    if s.len() > 0 {
        lemma_removed_le_count(s.drop_last(), keep.drop_last(), p);
    }
}

/// A cell at which no removed cell pointed keeps its full child count.
pub proof fn lemma_removed_none(s: Seq<Aggregate>, keep: Seq<bool>, p: int)
    requires
        keep.len() == s.len(),
        forall|k: int| 0 <= k < s.len() ==> keep[k] || s[k].parent != p,
    ensures
        removed_count(s, keep, p) == 0,
    decreases s.len(),
{
    if s.len() > 0 {
        lemma_removed_none(s.drop_last(), keep.drop_last(), p);
    }
}

/// In a fully empty space no cell has children.
pub proof fn lemma_count_all_empty(s: Seq<Aggregate>, p: int)
    requires
        forall|k: int| 0 <= k < s.len() ==> !s[k].occupied(),
    ensures
        count_children(s, p) == 0,
    decreases s.len(),
{
    if s.len() > 0 {
        lemma_count_all_empty(s.drop_last(), p);
    }
}

} // verus!
