use vstd::prelude::*;

use crate::cell::Aggregate;
use crate::cell::count_children;
use crate::cell::lemma_removed_le_count;
use crate::cell::lemma_removed_none;
use crate::cell::lemma_removed_nonneg;
use crate::cell::removed_count;
use crate::space::Space2d;
use crate::space::attached_at;
use crate::space::lemma_sidx_coords;
use crate::space::near;
use crate::space::prune_rel;
use crate::space::pruned_cell;

verus! {

/// Tree consistency: in a well-formed space, every cell's recorded
/// `children` equals the number of occupied cells whose `parent` refers to
/// it. This holds after every operation, since construction, seeding,
/// walking and pruning all return well-formed spaces.
pub proof fn lemma_children_consistent(s: Space2d, i: int)
    requires
        s.wf(),
        0 <= i < s.total(),
    ensures
        s.cells()[i].children == count_children(s.cells(), i),
{
    assert(s.cell_ok(i));
}

/// The cell reached from `i` by following `parent` links `n` times.
pub open spec fn ancestor(s: Seq<Aggregate>, i: int, n: nat) -> int
    decreases n,
{
    if n == 0 {
        i
    } else {
        s[ancestor(s, i, (n - 1) as nat)].parent as int
    }
}

/// The parent chain from `i` stays on occupied cells and ends on a
/// self-parented root after `n` steps.
pub open spec fn rooted_in(s: Space2d, i: int, n: nat) -> bool {
    &&& forall|k: nat| k <= n ==> s.occ(#[trigger] ancestor(s.cells(), i, k))
    &&& s.cells()[ancestor(s.cells(), i, n)].parent == ancestor(s.cells(), i, n)
}

proof fn lemma_ancestor_shift(s: Seq<Aggregate>, i: int, k: nat)
    ensures
        ancestor(s, i, (k + 1) as nat) == ancestor(s, s[i].parent as int, k),
    decreases k,
{
    let p = s[i].parent as int;
    if k == 0 {
        assert(ancestor(s, i, 1) == s[ancestor(s, i, 0)].parent as int);
        assert(ancestor(s, i, 0) == i);
    } else {
        lemma_ancestor_shift(s, i, (k - 1) as nat);
        assert(ancestor(s, i, (k + 1) as nat) == s[ancestor(s, i, k)].parent as int);
        assert(ancestor(s, p, k) == s[ancestor(s, p, (k - 1) as nat)].parent as int);
    }
}

/// No cycles, no dangling chains: from any occupied cell of a well-formed
/// space, following `parent` reaches a self-parented root in finitely many
/// steps, through occupied cells the whole way.
pub proof fn lemma_parent_chain_reaches_root(s: Space2d, i: int)
    requires
        s.wf(),
        s.occ(i),
    ensures
        exists|n: nat| rooted_in(s, i, n),
    decreases s.depth@[i],
{
    assert(s.cell_ok(i));
    let p = s.cells()[i].parent as int;
    if p == i {
        assert(rooted_in(s, i, 0));
    } else {
        lemma_parent_chain_reaches_root(s, p);
        let m = choose|m: nat| rooted_in(s, p, m);
        assert forall|k: nat| k <= m + 1 implies s.occ(#[trigger] ancestor(s.cells(), i, k)) by {
            if k > 0 {
                lemma_ancestor_shift(s.cells(), i, (k - 1) as nat);
            }
        }
        lemma_ancestor_shift(s.cells(), i, m);
        assert(rooted_in(s, i, (m + 1) as nat));
    }
}

/// One walk attachment adds exactly one particle: the attachment cell was
/// free and is now occupied, every other cell keeps its occupancy, and the
/// new particle sits next to a previously occupied cell.
pub proof fn lemma_walk_adds_one(pre: Space2d, post: Space2d, x: int, y: int, age: i32)
    requires
        pre.wf(),
        attached_at(pre, post, x, y, age),
    ensures
        !pre.occ(pre.sidx(x, y)),
        post.occ(pre.sidx(x, y)),
        forall|j: int|
            0 <= j < pre.cells().len() && j != pre.sidx(x, y) ==> (post.occ(j) <==> pre.occ(j)),
        exists|q: int| pre.occ(q) && q != pre.sidx(x, y) && near(pre.rw(), q, pre.sidx(x, y)),
{
    let i = pre.sidx(x, y);
    lemma_sidx_coords(pre, x, y);
    let pu = post.cells()[i].parent as int;
    assert(pre.occ(pu) && pu != i && near(pre.rw(), pu, i));
    assert forall|j: int|
        0 <= j < pre.cells().len() && j != i implies (post.occ(j) <==> pre.occ(j)) by {
        if j == pu {
            assert(post.cells()[j].age == pre.cells()[j].age);
        } else {
            assert(post.cells()[j] == pre.cells()[j]);
        }
    }
}

/// Pruning removes children counts exactly: a kept cell loses one recorded
/// child per removed cell that pointed at it — never more than it had, so
/// the count cannot drop below zero — and a cell at which no removed cell
/// pointed keeps its count unchanged.
pub proof fn lemma_prune_children_exact(
    pre: Space2d,
    post: Space2d,
    keep: Seq<bool>,
    thr: int,
    p: int,
)
    requires
        pre.wf(),
        thr >= 0,
        prune_rel(pre, post, keep, thr),
        0 <= p < keep.len(),
        keep[p],
    ensures
        post.cells()[p].children == pre.cells()[p].children - removed_count(pre.cells(), keep, p),
        0 <= removed_count(pre.cells(), keep, p) <= pre.cells()[p].children,
        (forall|j: int| 0 <= j < keep.len() && !keep[j] ==> pre.cells()[j].parent != p)
            ==> post.cells()[p].children == pre.cells()[p].children,
{
    assert(pre.cell_ok(p));
    lemma_removed_nonneg(pre.cells(), keep, p);
    assert forall|k: int|
        0 <= k < pre.cells().len() && !keep[k] implies pre.cells()[k].occupied() by {}
    lemma_removed_le_count(pre.cells(), keep, p);
    assert(post.cells()[p] == pruned_cell(pre.cells(), keep, p));
    if forall|j: int| 0 <= j < keep.len() && !keep[j] ==> pre.cells()[j].parent != p {
        lemma_removed_none(pre.cells(), keep, p);
    }
}

/// The attraction mask covers the whole 3x3 block (clipped to the logical
/// bounds) around every occupied cell: a particle standing on any in-bounds
/// cell within one step of an aggregate attaches there.
pub proof fn lemma_occupied_marks_block(s: Space2d, x: int, y: int, u: int, v: int)
    requires
        s.wf(),
        s.in_bounds(x, y),
        s.occ(s.sidx(x, y)),
        s.in_bounds(u, v),
        -1 <= u - x <= 1,
        -1 <= v - y <= 1,
    ensures
        s.mask(s.sidx(u, v)),
{
    lemma_sidx_coords(s, x, y);
    lemma_sidx_coords(s, u, v);
    assert(near(s.rw(), s.sidx(x, y), s.sidx(u, v)));
    assert(exists|i: int| s.occ(i) && near(s.rw(), i, s.sidx(u, v)));
}

} // verus!
