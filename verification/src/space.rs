use vstd::prelude::*;

use crate::cell::Aggregate;
use crate::cell::child_contrib;
use crate::cell::count_children;
use crate::cell::empty_aggregate;
use crate::cell::lemma_count_all_empty;
use crate::cell::lemma_count_at_least_one;
use crate::cell::lemma_count_lt_len;
use crate::cell::lemma_count_update;
use crate::cell::lemma_count_zero_no_contrib;
use crate::cell::lemma_removed_all_kept;
use crate::cell::lemma_removed_le_count;
use crate::cell::lemma_removed_nonneg;
use crate::cell::lemma_removed_update;
use crate::cell::removed_count;
use crate::source::PROB_ONE;
use crate::source::UniformRandomSource;
use vstd::array::ArrayAdditionalExecFns;
use vstd::arithmetic::div_mod::lemma_fundamental_div_mod;
use vstd::arithmetic::div_mod::lemma_fundamental_div_mod_converse;

verus! {

/// Number of random draws a single walk may spend before giving up. The
/// walk has no meaningful step limit — termination is almost sure once the
/// space holds any aggregate — but a checkable bound is needed, so it is
/// set beyond what any run can exhaust.
pub const WALK_STEP_BOUND: u64 = 0xFFFF_FFFF_FFFF_FFFF;

/// Two flat indices of the padded storage are near each other if their
/// padded coordinates differ by at most one on each axis: `j` lies in the
/// 3x3 block centered on `i` (which includes `i` itself).
pub open spec fn near(rw: int, i: int, j: int) -> bool {
    &&& -1 <= i % rw - j % rw <= 1
    &&& -1 <= i / rw - j / rw <= 1
}

/// A dense 2D space with one cell of padding on every side. Occupied cells
/// form a forest: roots are planted by seeding, every other particle is
/// attached to a neighbor, and `children` counts record the attachment
/// history. The `neighborhood` mask caches, for every cell, whether some
/// occupied cell lies in the 3x3 block around it.
pub struct Space2d {
    pub width: u32,
    pub height: u32,
    /// For every point in the space, information about a resting particle.
    pub aggregates: Vec<Aggregate>,
    /// The attraction neighborhood: nonzero marks cells where a walking
    /// particle attaches.
    pub neighborhood: Vec<u8>,
    /// Ghost bookkeeping: a bound on each occupied cell's distance to its
    /// root, decreasing strictly along `parent` links. Its existence is what
    /// makes the parent forest provably cycle-free.
    pub depth: Ghost<Map<int, nat>>,
}

impl Space2d {
    /// Width of one padded storage row.
    pub open spec fn rw(self) -> int {
        self.width + 2
    }

    /// Number of cells in the padded storage.
    pub open spec fn total(self) -> int {
        (self.width + 2) * (self.height + 2)
    }

    pub open spec fn cells(self) -> Seq<Aggregate> {
        self.aggregates@
    }

    /// Flat storage index of the logical coordinates `(x, y)`.
    pub open spec fn sidx(self, x: int, y: int) -> int {
        (y + 1) * self.rw() + (x + 1)
    }

    pub open spec fn in_bounds(self, x: int, y: int) -> bool {
        &&& 0 <= x < self.width
        &&& 0 <= y < self.height
    }

    /// Padded column of a flat index.
    pub open spec fn col_of(self, i: int) -> int {
        i % self.rw()
    }

    /// Padded row of a flat index.
    pub open spec fn row_of(self, i: int) -> int {
        i / self.rw()
    }

    /// The flat index lies strictly inside the padding border, i.e. it is
    /// the image of some logical coordinate pair.
    pub open spec fn interior(self, i: int) -> bool {
        &&& 1 <= self.col_of(i) <= self.width
        &&& 1 <= self.row_of(i) <= self.height
    }

    /// The cell at flat index `i` holds a particle.
    pub open spec fn occ(self, i: int) -> bool {
        &&& 0 <= i < self.cells().len()
        &&& self.cells()[i].occupied()
    }

    /// The attraction mask is set at flat index `j`.
    pub open spec fn mask(self, j: int) -> bool {
        self.neighborhood@[j] != 0
    }

    /// Dimension limits: both dimensions positive, small enough for signed
    /// offset arithmetic, and the padded cell count fits the address space.
    pub open spec fn dims_ok(self) -> bool {
        &&& 1 <= self.width
        &&& 1 <= self.height
        &&& self.width + 2 <= i32::MAX
        &&& self.height + 2 <= i32::MAX
        &&& (self.width + 2) * (self.height + 2) <= usize::MAX
    }

    /// Per-cell structural invariant. Every cell's `children` field agrees
    /// with the number of occupied cells attached to it; an occupied cell
    /// lies in the interior, its parent is occupied, and the ghost depth
    /// decreases strictly toward the root; an empty cell is exactly the
    /// sentinel record.
    pub open spec fn cell_ok(self, i: int) -> bool {
        &&& self.cells()[i].children == count_children(self.cells(), i)
        &&& (self.cells()[i].occupied() ==> {
            let p = self.cells()[i].parent as int;
            &&& self.interior(i)
            &&& 0 <= p < self.total()
            &&& self.cells()[p].occupied()
            &&& self.depth@.dom().contains(i)
            &&& (p == i || (self.depth@.dom().contains(p) && self.depth@[p] < self.depth@[i]))
        })
        &&& (!self.cells()[i].occupied() ==> self.cells()[i] == empty_aggregate())
    }

    /// Everything except the mask: dimensions, storage sizes, and the
    /// structural invariant of every cell.
    pub open spec fn wf_core(self) -> bool {
        &&& self.dims_ok()
        &&& self.cells().len() == self.total()
        &&& self.neighborhood@.len() == self.total()
        &&& forall|i: int| 0 <= i < self.total() ==> self.cell_ok(i)
    }

    /// The mask is exact: it is set at `j` if and only if some occupied
    /// cell lies in the 3x3 block around `j`.
    pub open spec fn mask_ok(self) -> bool {
        forall|j: int|
            0 <= j < self.total() ==> (self.mask(j) <==> exists|i: int|
                self.occ(i) && near(self.rw(), i, j))
    }

    pub open spec fn wf(self) -> bool {
        &&& self.wf_core()
        &&& self.mask_ok()
    }
}

/// Buffer for attachment candidates, held on the stack since there can be
/// at most eight: one per neighbor of the attaching cell.
pub struct PotentialParents {
    pub filled: usize,
    pub arr: [usize; 8],
}

impl View for PotentialParents {
    type V = Seq<usize>;

    /// The collected candidates: the filled prefix of the buffer.
    open spec fn view(&self) -> Seq<usize> {
        self.arr@.take(self.filled as int)
    }
}

impl PotentialParents {
    pub open spec fn wf(self) -> bool {
        self.filled <= 8
    }

    pub fn new() -> (r: PotentialParents)
        ensures
            r.wf(),
            r@ == Seq::<usize>::empty(),
    {
        let r = PotentialParents { filled: 0, arr: [0; 8] };
        proof {
            assert(r@ =~= Seq::<usize>::empty());
        }
        r
    }

    pub fn len(&self) -> (r: usize)
        requires
            self.wf(),
        ensures
            r == self@.len(),
    {
        self.filled
    }

    pub fn push(&mut self, element: usize)
        requires
            old(self).wf(),
            old(self)@.len() < 8,
        ensures
            final(self).wf(),
            final(self)@ == old(self)@.push(element),
    {
        self.arr.set(self.filled, element);
        self.filled = self.filled + 1;
        proof {
            assert(self@ =~= old(self)@.push(element));
        }
    }

    pub fn as_slice(&self) -> (r: &[usize])
        requires
            self.wf(),
        ensures
            r@ == self@,
    {
        let r = vstd::slice::slice_subrange(self.arr.as_slice(), 0, self.filled);
        proof {
            assert(r@ =~= self@);
        }
        r
    }
}

/// One particle was attached at logical `(x, y)`: the previously free cell
/// now holds a particle of the given age with no children, its parent is an
/// occupied neighboring cell whose child count grew by one, nothing else
/// changed, and the 3x3 block around the new particle joined the mask.
pub open spec fn attached_at(pre: Space2d, post: Space2d, x: int, y: int, age: i32) -> bool {
    let i = pre.sidx(x, y);
    let pu = post.cells()[i].parent;
    let p = pu as int;
    &&& age >= 0
    &&& pre.in_bounds(x, y)
    &&& !pre.occ(i)
    &&& pre.occ(p)
    &&& p != i
    &&& near(pre.rw(), p, i)
    &&& post.cells() == pre.cells().update(
        i,
        Aggregate { age, children: 0, parent: pu },
    ).update(
        p,
        Aggregate {
            age: pre.cells()[p].age,
            children: (pre.cells()[p].children + 1) as usize,
            parent: pre.cells()[p].parent,
        },
    )
    &&& post.width == pre.width
    &&& post.height == pre.height
    &&& forall|j: int|
        0 <= j < post.total() ==> (post.mask(j) <==> (pre.mask(j) || near(pre.rw(), i, j)))
}

/// Threshold actually used by a pruning pass: the age parameter floored at
/// zero.
pub open spec fn prune_threshold(prune_age: i32) -> int {
    if prune_age < 0 {
        0
    } else {
        prune_age as int
    }
}

/// A cell eligible for pruning at pass start: terminal (no recorded
/// children) and strictly older than the threshold. With a non-negative
/// threshold this implies the cell is occupied.
pub open spec fn is_candidate(s: Seq<Aggregate>, j: int, thr: int) -> bool {
    &&& s[j].children == 0
    &&& s[j].age > thr
}

/// The record at `j` after a pass that removed exactly the cells with a
/// false `keep` flag: removed cells are reset to the empty sentinel, kept
/// cells lose one recorded child per removed cell that pointed at them.
pub open spec fn pruned_cell(s: Seq<Aggregate>, keep: Seq<bool>, j: int) -> Aggregate {
    if !keep[j] {
        empty_aggregate()
    } else {
        Aggregate {
            age: s[j].age,
            children: (s[j].children - removed_count(s, keep, j)) as usize,
            parent: s[j].parent,
        }
    }
}

/// Relation between the space before and after one pruning pass, for a
/// given choice of removals: only pass-start candidates were removed, and
/// every cell's record is the pointwise outcome of those removals.
pub open spec fn prune_rel(pre: Space2d, post: Space2d, keep: Seq<bool>, thr: int) -> bool {
    &&& keep.len() == pre.cells().len()
    &&& post.width == pre.width
    &&& post.height == pre.height
    &&& post.cells().len() == pre.cells().len()
    &&& forall|j: int| 0 <= j < keep.len() && !keep[j] ==> is_candidate(pre.cells(), j, thr)
    &&& forall|j: int|
        0 <= j < keep.len() ==> post.cells()[j] == pruned_cell(pre.cells(), keep, j)
}

/// Everything one pruning pass promises about its removals: the pass
/// relation holds, and a pass with probability one removed every candidate.
pub open spec fn prune_outcome(
    pre: Space2d,
    post: Space2d,
    keep: Seq<bool>,
    thr: int,
    prob: u64,
) -> bool {
    &&& prune_rel(pre, post, keep, thr)
    &&& (prob == PROB_ONE ==> forall|j: int|
        0 <= j < keep.len() && is_candidate(pre.cells(), j, thr) ==> !keep[j])
}

/// The flat index of the neighbor of `(x, y)` at scan offsets
/// `(a - 1, b - 1)` for `a, b` in `[0, 3)`.
pub open spec fn nb_index(pre: Space2d, x: int, y: int, a: int, b: int) -> int {
    pre.sidx(x + a - 1, y + b - 1)
}

/// That neighbor lies in the logical extent and holds a particle.
pub open spec fn nb_occ(pre: Space2d, x: int, y: int, a: int, b: int) -> bool {
    &&& pre.in_bounds(x + a - 1, y + b - 1)
    &&& pre.occ(nb_index(pre, x, y, a, b))
}

/// Capacity bound for the candidate buffer after `l` scan steps: the center
/// step (the fifth) never pushes.
pub open spec fn scan_cap(l: int) -> int {
    if l >= 5 {
        l - 1
    } else {
        l
    }
}

/// Logical coordinates map to an interior flat index whose padded column
/// and row are the coordinates shifted by the border.
pub proof fn lemma_sidx_coords(s: Space2d, x: int, y: int)
    requires
        s.dims_ok(),
        s.in_bounds(x, y),
    ensures
        0 <= s.sidx(x, y) < s.total(),
        s.col_of(s.sidx(x, y)) == x + 1,
        s.row_of(s.sidx(x, y)) == y + 1,
        s.interior(s.sidx(x, y)),
{
    let rw = s.rw();
    let i = s.sidx(x, y);
    lemma_fundamental_div_mod_converse(i, rw, y + 1, x + 1);
    assert(0 <= i && i < s.total()) by (nonlinear_arith)
        requires
            i == (y + 1) * rw + (x + 1),
            s.total() == rw * (s.height + 2),
            0 <= x + 1 < rw,
            0 <= y + 1 < s.height + 2,
            rw >= 3,
    ;
}

/// Walking one step of at most one cell per axis from an interior index
/// stays inside the padded storage, and the padded coordinates move by
/// exactly the offsets.
pub proof fn lemma_block_offsets(s: Space2d, i: int, a: int, b: int)
    requires
        s.dims_ok(),
        0 <= i < s.total(),
        s.interior(i),
        -1 <= a <= 1,
        -1 <= b <= 1,
    ensures
        0 <= i + b * s.rw() + a < s.total(),
        s.col_of(i + b * s.rw() + a) == s.col_of(i) + a,
        s.row_of(i + b * s.rw() + a) == s.row_of(i) + b,
        near(s.rw(), i, i + b * s.rw() + a),
{
    let rw = s.rw();
    let c = s.col_of(i);
    let r = s.row_of(i);
    lemma_fundamental_div_mod(i, rw);
    let j = i + b * rw + a;
    assert(j == (r + b) * rw + (c + a)) by (nonlinear_arith)
        requires
            i == rw * r + c,
            j == i + b * rw + a,
    ;
    lemma_fundamental_div_mod_converse(j, rw, r + b, c + a);
    assert(0 <= j && j < s.total()) by (nonlinear_arith)
        requires
            j == (r + b) * rw + (c + a),
            s.total() == rw * (s.height + 2),
            0 <= c + a < rw,
            0 <= r + b < s.height + 2,
            rw >= 3,
    ;
}

/// Conversely, any index near an interior index is reached from it by one
/// flat offset of at most one cell per axis.
pub proof fn lemma_near_decompose(s: Space2d, i: int, j: int) -> (ab: (int, int))
    requires
        s.dims_ok(),
        0 <= i < s.total(),
        0 <= j < s.total(),
        s.interior(i),
        near(s.rw(), i, j),
    ensures
        -1 <= ab.0 <= 1,
        -1 <= ab.1 <= 1,
        j == i + ab.1 * s.rw() + ab.0,
{
    let rw = s.rw();
    lemma_fundamental_div_mod(i, rw);
    lemma_fundamental_div_mod(j, rw);
    let a = s.col_of(j) - s.col_of(i);
    let b = s.row_of(j) - s.row_of(i);
    assert(j == i + b * rw + a) by (nonlinear_arith)
        requires
            i == rw * (s.row_of(i)) + s.col_of(i),
            j == rw * (s.row_of(j)) + s.col_of(j),
            a == s.col_of(j) - s.col_of(i),
            b == s.row_of(j) - s.row_of(i),
    ;
    assert(-1 <= a <= 1 && -1 <= b <= 1 && j == i + b * s.rw() + a);
    (a, b)
}

impl Space2d {
    /// Build an empty space of the given logical dimensions, with one cell
    /// of padding on every side, no particles and a clear mask.
    pub fn new(w: u32, h: u32) -> (r: Space2d)
        requires
            1 <= w,
            1 <= h,
            w + 2 <= i32::MAX,
            h + 2 <= i32::MAX,
            (w + 2) * (h + 2) <= usize::MAX,
        ensures
            r.wf(),
            r.width == w,
            r.height == h,
            forall|i: int| 0 <= i < r.total() ==> !r.occ(i),
            forall|i: int| 0 <= i < r.total() ==> r.cells()[i] == empty_aggregate(),
            forall|j: int| 0 <= j < r.total() ==> !r.mask(j),
    {
        let nelems: usize = (w as usize + 2) * (h as usize + 2);
        let mut aggregates: Vec<Aggregate> = Vec::new();
        let mut i: usize = 0;
        while i < nelems
            invariant
                i <= nelems,
                aggregates@.len() == i,
                forall|k: int| 0 <= k < i ==> aggregates@[k] == empty_aggregate(),
            decreases nelems - i,
        {
            aggregates.push(Aggregate::empty());
            i = i + 1;
        }
        let mut neighborhood: Vec<u8> = Vec::new();
        let mut j: usize = 0;
        while j < nelems
            invariant
                j <= nelems,
                neighborhood@.len() == j,
                forall|k: int| 0 <= k < j ==> neighborhood@[k] == 0,
            decreases nelems - j,
        {
            neighborhood.push(0);
            j = j + 1;
        }
        let r = Space2d {
            width: w,
            height: h,
            aggregates,
            neighborhood,
            depth: Ghost(Map::empty()),
        };
        proof {
            assert forall|i: int| 0 <= i < r.total() implies r.cell_ok(i) by {
                lemma_count_all_empty(r.cells(), i);
            }
        }
        r
    }

    /// Flat storage index of in-bounds logical coordinates.
    #[inline]
    fn xy_to_index(&self, x: u32, y: u32) -> (r: usize)
        requires
            self.dims_ok(),
            self.in_bounds(x as int, y as int),
        ensures
            r == self.sidx(x as int, y as int),
            0 <= r < self.total(),
            self.interior(r as int),
    {
        proof {
            lemma_sidx_coords(*self, x as int, y as int);
        }
        let rw: usize = self.width as usize + 2;
        (y as usize + 1) * rw + x as usize + 1
    }

    /// Bounds-checked variant: `None` for coordinates outside the logical
    /// extent, so 8-neighbor scans skip rather than read the padding.
    #[inline]
    fn xy_opt_to_index(&self, x: i32, y: i32) -> (r: Option<usize>)
        requires
            self.dims_ok(),
        ensures
            match r {
                Some(i) => self.in_bounds(x as int, y as int) && i == self.sidx(
                    x as int,
                    y as int,
                ),
                None => !self.in_bounds(x as int, y as int),
            },
    {
        if x < 0 || y < 0 || x >= self.width as i32 || y >= self.height as i32 {
            None
        } else {
            Some(self.xy_to_index(x as u32, y as u32))
        }
    }

    /// True if no particle rests at `(x, y)`.
    pub fn in_free_space(&self, x: u32, y: u32) -> (r: bool)
        requires
            self.wf(),
            self.in_bounds(x as int, y as int),
        ensures
            r == !self.occ(self.sidx(x as int, y as int)),
    {
        let idx = self.xy_to_index(x, y);
        self.aggregates[idx].age < 0
    }

    /// True if a particle at `(x, y)` is within the attraction neighborhood
    /// of the aggregate, i.e. would attach here.
    pub fn attaches(&self, x: u32, y: u32) -> (r: bool)
        requires
            self.wf(),
            self.in_bounds(x as int, y as int),
        ensures
            r == self.mask(self.sidx(x as int, y as int)),
    {
        let idx = self.xy_to_index(x, y);
        self.neighborhood[idx] != 0
    }

    /// Reset the whole attraction mask.
    fn clear_neighborhood(&mut self)
        ensures
            final(self).width == old(self).width,
            final(self).height == old(self).height,
            final(self).aggregates == old(self).aggregates,
            final(self).depth == old(self).depth,
            final(self).neighborhood@.len() == old(self).neighborhood@.len(),
            forall|j: int|
                0 <= j < final(self).neighborhood@.len() ==> final(self).neighborhood@[j] == 0,
    {
        let n = self.neighborhood.len();
        let mut i: usize = 0;
        while i < n
            invariant
                i <= n,
                self.width == old(self).width,
                self.height == old(self).height,
                self.aggregates == old(self).aggregates,
                self.depth == old(self).depth,
                self.neighborhood@.len() == n,
                n == old(self).neighborhood@.len(),
                forall|j: int| 0 <= j < i ==> self.neighborhood@[j] == 0,
            decreases n - i,
        {
            self.neighborhood.set(i, 0);
            i = i + 1;
        }
    }

    /// Mark the full 3x3 block centered on the interior index `idx` in the
    /// attraction mask. The padding border makes the unchecked offset
    /// arithmetic safe.
    fn set_neighborhood(&mut self, idx: usize)
        requires
            old(self).dims_ok(),
            old(self).neighborhood@.len() == old(self).total(),
            idx < old(self).total(),
            old(self).interior(idx as int),
        ensures
            final(self).width == old(self).width,
            final(self).height == old(self).height,
            final(self).aggregates == old(self).aggregates,
            final(self).depth == old(self).depth,
            final(self).neighborhood@.len() == old(self).neighborhood@.len(),
            forall|j: int|
                0 <= j < final(self).total() ==> (final(self).mask(j) <==> (old(self).mask(j)
                    || near(old(self).rw(), idx as int, j))),
    {
        let ghost pre = *self;
        let ghost i = idx as int;
        proof {
            lemma_block_offsets(pre, i, -1, -1);
            lemma_block_offsets(pre, i, 0, -1);
            lemma_block_offsets(pre, i, 1, -1);
            lemma_block_offsets(pre, i, -1, 0);
            lemma_block_offsets(pre, i, 0, 0);
            lemma_block_offsets(pre, i, 1, 0);
            lemma_block_offsets(pre, i, -1, 1);
            lemma_block_offsets(pre, i, 0, 1);
            lemma_block_offsets(pre, i, 1, 1);
        }
        let rw: usize = self.width as usize + 2;
        self.neighborhood.set(idx - 1 - rw, 1);
        self.neighborhood.set(idx - rw, 1);
        self.neighborhood.set(idx + 1 - rw, 1);
        self.neighborhood.set(idx - 1, 1);
        self.neighborhood.set(idx, 1);
        self.neighborhood.set(idx + 1, 1);
        self.neighborhood.set(idx - 1 + rw, 1);
        self.neighborhood.set(idx + rw, 1);
        self.neighborhood.set(idx + 1 + rw, 1);
        proof {
            let rwi = pre.rw();
            assert forall|j: int|
                0 <= j < self.total() implies (self.mask(j) <==> (old(self).mask(j) || near(
                old(self).rw(),
                idx as int,
                j,
            ))) by {
                if near(rwi, i, j) {
                    let (a, b) = lemma_near_decompose(pre, i, j);
                    assert(b * rwi == -rwi || b * rwi == 0 || b * rwi == rwi) by (nonlinear_arith)
                        requires
                            -1 <= b <= 1,
                    ;
                    assert(j == i - 1 - rwi || j == i - rwi || j == i + 1 - rwi || j == i - 1 || j
                        == i || j == i + 1 || j == i - 1 + rwi || j == i + rwi || j == i + 1 + rwi);
                    assert(self.neighborhood@[j] == 1);
                }
            }
        }
    }

    /// Plant a root aggregate at `(x, y)`: the cell becomes occupied with
    /// the given age, is its own parent, and counts itself as its one child;
    /// the 3x3 block around it is marked in the attraction mask.
    pub fn set_seed(&mut self, x: u32, y: u32, age: i32)
        requires
            old(self).wf(),
            old(self).in_bounds(x as int, y as int),
            !old(self).occ(old(self).sidx(x as int, y as int)),
            age >= 0,
        ensures
            final(self).wf(),
            final(self).width == old(self).width,
            final(self).height == old(self).height,
            final(self).cells() == old(self).cells().update(
                old(self).sidx(x as int, y as int),
                Aggregate {
                    age,
                    children: 1,
                    parent: old(self).sidx(x as int, y as int) as usize,
                },
            ),
            forall|j: int|
                0 <= j < final(self).total() ==> (final(self).mask(j) <==> (old(self).mask(j)
                    || near(old(self).rw(), old(self).sidx(x as int, y as int), j))),
    {
        let idx = self.xy_to_index(x, y);
        let ghost pre = *self;
        let ghost ii = idx as int;
        let ghost newagg = Aggregate { age, children: 1usize, parent: idx };
        self.aggregates.set(idx, Aggregate { age, children: 1, parent: idx });
        self.depth = Ghost(self.depth@.insert(ii, 0nat));
        proof {
            assert(pre.cell_ok(ii));
            assert(pre.cells()[ii] == empty_aggregate());
            assert(self.cells() =~= pre.cells().update(ii, newagg));
            assert forall|q: int| 0 <= q < self.total() implies self.cell_ok(q) by {
                assert(pre.cell_ok(q));
                lemma_count_update(pre.cells(), ii, newagg, q);
                if self.cells()[q].occupied() && q != ii {
                    // the parent of a previously occupied cell was occupied
                    // before, so it is not the freshly seeded cell
                    assert(pre.cells()[q].parent != ii);
                }
            }
        }
        let ghost mid = *self;
        self.set_neighborhood(idx);
        proof {
            assert(self.cells() == mid.cells() && self.depth == mid.depth);
            assert forall|q: int| 0 <= q < self.total() implies self.cell_ok(q) by {
                assert(mid.cell_ok(q));
            }
            assert forall|j: int|
                0 <= j < self.total() implies (self.mask(j) <==> exists|i: int|
                self.occ(i) && near(self.rw(), i, j)) by {
                if self.mask(j) {
                    if pre.mask(j) {
                        let i = choose|i: int| pre.occ(i) && near(pre.rw(), i, j);
                        assert(self.occ(i) && near(self.rw(), i, j));
                    } else {
                        assert(near(pre.rw(), ii, j));
                        assert(self.occ(ii) && near(self.rw(), ii, j));
                    }
                } else {
                    assert forall|i: int| !(self.occ(i) && near(self.rw(), i, j)) by {
                        if self.occ(i) && near(self.rw(), i, j) {
                            if i == ii {
                                assert(self.mask(j));
                            } else {
                                assert(pre.occ(i));
                                assert(pre.mask(j));
                            }
                        }
                    }
                }
            }
        }
    }

    /// Attach a walking particle at `(x, y)`. The eight neighbors are
    /// scanned with bounds checks (out-of-range neighbors are skipped, never
    /// read from the padding); the occupied ones are collected, and one of
    /// them is chosen as parent, uniformly at random when there is more than
    /// one, to avoid directional bias. The mask guarantees at least one
    /// occupied neighbor, which the precondition records; reaching a
    /// frontier cell without one would be a fatal invariant breach.
    #[verifier::loop_isolation(false)]
    fn set_aggregate<R: UniformRandomSource>(&mut self, x: u32, y: u32, age: i32, rng: &mut R)
        requires
            old(self).wf(),
            old(self).in_bounds(x as int, y as int),
            !old(self).occ(old(self).sidx(x as int, y as int)),
            age >= 0,
            exists|q: int|
                old(self).occ(q) && q != old(self).sidx(x as int, y as int) && near(
                    old(self).rw(),
                    q,
                    old(self).sidx(x as int, y as int),
                ),
        ensures
            final(self).wf(),
            attached_at(*old(self), *final(self), x as int, y as int, age),
    {
        let idx = self.xy_to_index(x, y);
        let ghost pre = *self;
        let ghost ii = idx as int;
        let ghost xi = x as int;
        let ghost yi = y as int;
        proof {
            lemma_sidx_coords(pre, xi, yi);
        }

        let ix = x as i32;
        let iy = y as i32;

        let mut potential_parents = PotentialParents::new();

        let mut b: usize = 0;
        while b < 3
            invariant
                b <= 3,
                *self == pre,
                potential_parents.wf(),
                forall|k: int|
                    0 <= k < potential_parents@.len() ==> {
                        let e = #[trigger] potential_parents@[k] as int;
                        pre.occ(e) && e != ii && near(pre.rw(), e, ii)
                    },
                forall|a2: int, b2: int|
                    0 <= a2 < 3 && 0 <= b2 < b && !(a2 == 1 && b2 == 1) && nb_occ(
                        pre,
                        xi,
                        yi,
                        a2,
                        b2,
                    ) ==> potential_parents@.len() >= 1,
                potential_parents@.len() <= scan_cap(3 * b),
            decreases 3 - b,
        {
            let yoff: i32 = b as i32 - 1;
            let mut a: usize = 0;
            while a < 3
                invariant
                    a <= 3,
                    b < 3,
                    *self == pre,
                    potential_parents.wf(),
                    forall|k: int|
                        0 <= k < potential_parents@.len() ==> {
                            let e = #[trigger] potential_parents@[k] as int;
                            pre.occ(e) && e != ii && near(pre.rw(), e, ii)
                        },
                    forall|a2: int, b2: int|
                        0 <= a2 < 3 && 0 <= b2 < 3 && (b2 < b || (b2 == b && a2 < a)) && !(a2 == 1
                            && b2 == 1) && nb_occ(pre, xi, yi, a2, b2)
                            ==> potential_parents@.len() >= 1,
                    potential_parents@.len() <= scan_cap(3 * b + a),
                decreases 3 - a,
            {
                if !(a == 1 && b == 1) {
                    let xoff: i32 = a as i32 - 1;
                    match self.xy_opt_to_index(ix + xoff, iy + yoff) {
                        Some(i) => {
                            proof {
                                lemma_sidx_coords(pre, xi + a - 1, yi + b - 1);
                            }
                            if self.aggregates[i].age >= 0 {
                                potential_parents.push(i);
                            }
                        },
                        None => {},
                    }
                }
                a = a + 1;
            }
            b = b + 1;
        }

        proof {
            // the occupied neighbor promised by the precondition was met by
            // the scan, so the buffer is not empty
            let q = choose|q: int|
                pre.occ(q) && q != ii && near(pre.rw(), q, ii);
            assert(pre.cell_ok(q));
            let (a0, b0) = lemma_near_decompose(pre, ii, q);
            lemma_block_offsets(pre, ii, a0, b0);
            lemma_fundamental_div_mod(q, pre.rw());
            assert(q == pre.sidx(xi + a0, yi + b0)) by (nonlinear_arith)
                requires
                    q == pre.rw() * (q / pre.rw()) + q % pre.rw(),
                    q % pre.rw() == xi + 1 + a0,
                    q / pre.rw() == yi + 1 + b0,
                    pre.sidx(xi + a0, yi + b0) == (yi + b0 + 1) * pre.rw() + (xi + a0 + 1),
            ;
            assert(nb_occ(pre, xi, yi, a0 + 1, b0 + 1));
            assert(potential_parents@.len() >= 1);
        }

        let np = potential_parents.len();
        let parent: usize = if np == 0 {
            vstd::pervasive::unreached()
        } else if np == 1 {
            potential_parents.as_slice()[0]
        } else {
            let r = rng.below(np as u32);
            potential_parents.as_slice()[r as usize]
        };
        let ghost pp = parent as int;

        let a_new = Aggregate { age, children: 0, parent };
        self.aggregates.set(idx, a_new);
        let ap = self.aggregates[parent];
        proof {
            assert(pre.cell_ok(pp));
            assert(pre.cell_ok(ii));
            lemma_count_lt_len(pre.cells(), pp, ii);
        }
        self.aggregates.set(
            parent,
            Aggregate { age: ap.age, children: ap.children + 1, parent: ap.parent },
        );
        self.depth = Ghost(self.depth@.insert(ii, (pre.depth@[pp] + 1) as nat));
        let ghost pagg = Aggregate {
            age: pre.cells()[pp].age,
            children: (pre.cells()[pp].children + 1) as usize,
            parent: pre.cells()[pp].parent,
        };
        proof {
            assert(pre.cells()[ii] == empty_aggregate());
            assert(self.cells() =~= pre.cells().update(ii, a_new).update(pp, pagg));
            assert forall|q: int| 0 <= q < self.total() implies self.cell_ok(q) by {
                assert(pre.cell_ok(q));
                lemma_count_update(pre.cells(), ii, a_new, q);
                lemma_count_update(pre.cells().update(ii, a_new), pp, pagg, q);
                if self.cells()[q].occupied() && q != ii {
                    assert(pre.cells()[q].occupied());
                    assert(pre.cells()[q].parent != ii);
                }
            }
        }
        let ghost mid = *self;
        self.set_neighborhood(idx);
        proof {
            assert(self.cells() == mid.cells() && self.depth == mid.depth);
            assert forall|q: int| 0 <= q < self.total() implies self.cell_ok(q) by {
                assert(mid.cell_ok(q));
            }
            assert forall|j: int|
                0 <= j < self.total() implies (self.mask(j) <==> exists|i: int|
                self.occ(i) && near(self.rw(), i, j)) by {
                if self.mask(j) {
                    if pre.mask(j) {
                        let i = choose|i: int| pre.occ(i) && near(pre.rw(), i, j);
                        assert(self.occ(i) && near(self.rw(), i, j));
                    } else {
                        assert(near(pre.rw(), ii, j));
                        assert(self.occ(ii) && near(self.rw(), ii, j));
                    }
                } else {
                    assert forall|i: int| !(self.occ(i) && near(self.rw(), i, j)) by {
                        if self.occ(i) && near(self.rw(), i, j) {
                            if i == ii {
                                assert(self.mask(j));
                            } else {
                                assert(pre.occ(i));
                                assert(pre.mask(j));
                            }
                        }
                    }
                }
            }
            assert(self.cells()[ii].parent == parent);
            assert(self.cells() == pre.cells().update(ii, a_new).update(pp, pagg));
        }
    }

    /// One full particle lifetime: spawn on a uniformly random free cell
    /// (rejection sampling over free cells), diffuse by independent
    /// single-cell random steps per axis — a step that would leave the grid
    /// is discarded for that axis alone, while the other axis still moves —
    /// and attach at the first cell within the attraction neighborhood,
    /// stamping it with `iter` as its age.
    ///
    /// Termination cannot be promised for an arbitrary random source, so
    /// the walk gives up after `WALK_STEP_BOUND` draws — a bound no real run
    /// can reach — and then reports `false` with the space left untouched.
    #[verifier::loop_isolation(false)]
    pub fn random_walk<R: UniformRandomSource>(&mut self, iter: i32, rng: &mut R) -> (attached:
        bool)
        requires
            old(self).wf(),
            iter >= 0,
        ensures
            final(self).wf(),
            final(self).width == old(self).width,
            final(self).height == old(self).height,
            attached ==> exists|x: int, y: int|
                attached_at(*old(self), *final(self), x, y, iter),
            !attached ==> *final(self) == *old(self),
    {
        let ghost pre = *self;
        let mut fuel: u64 = WALK_STEP_BOUND;

        // find free space
        let mut x: u32 = rng.below(self.width);
        let mut y: u32 = rng.below(self.height);
        while fuel > 0 && !self.in_free_space(x, y)
            invariant
                *self == pre,
                x < pre.width,
                y < pre.height,
            decreases fuel,
        {
            x = rng.below(self.width);
            y = rng.below(self.height);
            fuel = fuel - 1;
        }
        if !self.in_free_space(x, y) {
            return false;
        }

        // now simulate until it hits another particle
        while fuel > 0 && !self.attaches(x, y)
            invariant
                *self == pre,
                x < pre.width,
                y < pre.height,
                !pre.occ(pre.sidx(x as int, y as int)),
            decreases fuel,
        {
            let ghost oxi = x as int;
            let ghost oyi = y as int;

            let mut x_i32: i32 = x as i32;
            let mut y_i32: i32 = y as i32;

            let dx: i32 = rng.below(3) as i32 - 1;
            let dy: i32 = rng.below(3) as i32 - 1;

            x_i32 = x_i32 + dx;
            y_i32 = y_i32 + dy;

            if x_i32 >= 0 && x_i32 < self.width as i32 {
                x = x_i32 as u32;
            }
            if y_i32 >= 0 && y_i32 < self.height as i32 {
                y = y_i32 as u32;
            }
            proof {
                // the particle only moves while outside the attraction
                // neighborhood, so it can never move onto a particle: an
                // occupied landing cell would have put the old position
                // inside the mask
                lemma_sidx_coords(pre, oxi, oyi);
                lemma_sidx_coords(pre, x as int, y as int);
                if pre.occ(pre.sidx(x as int, y as int)) {
                    assert(near(pre.rw(), pre.sidx(x as int, y as int), pre.sidx(oxi, oyi)));
                    assert(pre.mask(pre.sidx(oxi, oyi)));
                }
            }
            fuel = fuel - 1;
        }
        if self.attaches(x, y) {
            proof {
                let si = pre.sidx(x as int, y as int);
                lemma_sidx_coords(pre, x as int, y as int);
                assert(pre.mask(si));
                assert(exists|q: int| pre.occ(q) && near(pre.rw(), q, si));
                let q = choose|q: int| pre.occ(q) && near(pre.rw(), q, si);
                assert(pre.occ(q) && q != si && near(pre.rw(), q, si));
            }
            self.set_aggregate(x, y, iter, rng);
            true
        } else {
            false
        }
    }

    /// One pruning pass: every cell that is terminal (childless) and
    /// strictly older than the floored threshold at pass start is removed
    /// with probability `prune_probability`, drawn independently per cell;
    /// removing a cell clears it to the empty sentinel and takes one off its
    /// former parent's recorded child count. A cell that only becomes
    /// terminal during the pass is not reconsidered. If anything was
    /// removed the attraction mask is rebuilt from scratch; a pass that
    /// removes nothing leaves the mask untouched.
    ///
    /// `prune_probability` is a fixed-point probability in units of
    /// `1/PROB_ONE`: zero never removes a cell, `PROB_ONE` removes every
    /// candidate.
    #[verifier::loop_isolation(false)]
    pub fn prune<R: UniformRandomSource>(
        &mut self,
        prune_probability: u64,
        prune_age: i32,
        rng: &mut R,
    )
        requires
            old(self).wf(),
            prune_probability <= PROB_ONE,
        ensures
            final(self).wf(),
            final(self).width == old(self).width,
            final(self).height == old(self).height,
            exists|keep: Seq<bool>|
                prune_outcome(
                    *old(self),
                    *final(self),
                    keep,
                    prune_threshold(prune_age),
                    prune_probability,
                ),
            prune_probability == 0 ==> final(self).cells() == old(self).cells()
                && final(self).neighborhood@ == old(self).neighborhood@,
    {
        let ghost pre = *self;
        let ghost thr_g = prune_threshold(prune_age);
        let thr: i32 = if prune_age < 0 {
            0
        } else {
            prune_age
        };
        let n = self.aggregates.len();

        // record the pass-start candidates: terminal and older than the
        // threshold
        let mut cand: Vec<bool> = Vec::new();
        let mut i: usize = 0;
        while i < n
            invariant
                i <= n,
                *self == pre,
                cand@.len() == i,
                forall|j: int| 0 <= j < i ==> cand@[j] == is_candidate(pre.cells(), j, thr_g),
            decreases n - i,
        {
            let a = self.aggregates[i];
            cand.push(a.children == 0 && a.age > thr);
            i = i + 1;
        }

        let mut keep: Ghost<Seq<bool>> = Ghost(Seq::new(n as nat, |j: int| true));
        proof {
            assert forall|j: int| 0 <= j < n implies self.cells()[j] == pruned_cell(
                pre.cells(),
                keep@,
                j,
            ) by {
                lemma_removed_all_kept(pre.cells(), keep@, j);
            }
        }
        let mut removed_any = false;
        let mut t: usize = 0;
        while t < n
            invariant
                t <= n,
                self.wf_core(),
                self.width == pre.width,
                self.height == pre.height,
                self.cells().len() == n,
                n == pre.cells().len(),
                self.neighborhood@ == pre.neighborhood@,
                self.depth == pre.depth,
                keep@.len() == n,
                forall|j: int| t <= j < n ==> keep@[j],
                forall|j: int| 0 <= j < n && !keep@[j] ==> is_candidate(pre.cells(), j, thr_g),
                forall|j: int| 0 <= j < n ==> self.cells()[j] == pruned_cell(pre.cells(), keep@, j),
                removed_any <==> exists|j: int| 0 <= j < n && !keep@[j],
                prune_probability == 0 ==> !removed_any,
                prune_probability == PROB_ONE ==> forall|j: int|
                    0 <= j < t && is_candidate(pre.cells(), j, thr_g) ==> !keep@[j],
            decreases n - t,
        {
            if cand[t] {
                let v = rng.unit();
                if v < prune_probability {
                    let ghost sp0 = *self;
                    let ghost s0 = self.cells();
                    let ghost keep0 = keep@;
                    let ghost ti = t as int;
                    proof {
                        assert(pre.cell_ok(ti));
                        assert(pre.cells()[ti].occupied());
                        // nothing was removed from this cell, so its current
                        // record still carries the pass-start fields
                        lemma_removed_nonneg(pre.cells(), keep0, ti);
                        lemma_removed_le_count(pre.cells(), keep0, ti);
                        assert(removed_count(pre.cells(), keep0, ti) == 0);
                        assert(s0[ti] == pre.cells()[ti]);
                        assert(sp0.cell_ok(ti));
                        assert(count_children(s0, ti) == 0);
                        // its parent was not a candidate, hence was kept
                        let pj = pre.cells()[ti].parent as int;
                        assert(child_contrib(pre.cells()[ti], pj) == 1);
                        lemma_count_at_least_one(pre.cells(), pj, ti);
                        assert(pre.cell_ok(pj));
                        assert(keep0[pj]);
                        // the cell does not point at itself
                        lemma_count_zero_no_contrib(pre.cells(), ti, ti);
                        assert(pj != ti);
                        // the parent lost at most as many children as it had
                        lemma_removed_nonneg(pre.cells(), keep0, pj);
                        lemma_removed_le_count(pre.cells(), keep0, pj);
                        assert(s0[pj] == pruned_cell(pre.cells(), keep0, pj));
                        assert(s0[pj].children == pre.cells()[pj].children - removed_count(
                            pre.cells(),
                            keep0,
                            pj,
                        ));
                        // the parent's current child count is positive: this
                        // cell still points at it
                        assert(child_contrib(s0[ti], pj) == 1);
                        lemma_count_at_least_one(s0, pj, ti);
                        assert(sp0.cell_ok(pj));
                        assert(s0[pj].children >= 1);
                    }
                    let a = self.aggregates[t];
                    let parent = a.parent;
                    self.aggregates.set(t, Aggregate::empty());
                    let pa = self.aggregates[parent];
                    self.aggregates.set(
                        parent,
                        Aggregate { age: pa.age, children: pa.children - 1, parent: pa.parent },
                    );
                    keep = Ghost(keep0.update(ti, false));
                    proof {
                        let pj = parent as int;
                        let s2 = self.cells();
                        let pnew = Aggregate {
                            age: s0[pj].age,
                            children: (s0[pj].children - 1) as usize,
                            parent: s0[pj].parent,
                        };
                        assert(s2 =~= s0.update(ti, empty_aggregate()).update(pj, pnew));
                        // pointwise outcome relation
                        assert forall|j: int| 0 <= j < n implies s2[j] == pruned_cell(
                            pre.cells(),
                            keep@,
                            j,
                        ) by {
                            assert(s0[j] == pruned_cell(pre.cells(), keep0, j));
                            lemma_removed_update(pre.cells(), keep0, ti, false, j);
                        }
                        // structural invariant of every cell
                        let s1 = s0.update(ti, empty_aggregate());
                        assert forall|q: int| 0 <= q < self.total() implies self.cell_ok(q) by {
                            assert(sp0.cell_ok(q));
                            lemma_count_update(s0, ti, empty_aggregate(), q);
                            lemma_count_update(s1, pj, pnew, q);
                            if s2[q].occupied() && q != ti {
                                // no occupied cell pointed at the removed
                                // cell, so every survivor's parent survives
                                lemma_count_zero_no_contrib(s0, ti, q);
                            }
                        }
                        assert(!keep@[ti]);
                        assert(exists|j: int| 0 <= j < n && !keep@[j]);
                    }
                    removed_any = true;
                }
            }
            t = t + 1;
        }

        let ghost mid2 = *self;
        if removed_any {
            // the survivors' neighborhoods are recomputed from scratch
            self.clear_neighborhood();
            let mut k: usize = 0;
            while k < n
                invariant
                    k <= n,
                    self.aggregates == mid2.aggregates,
                    self.depth == mid2.depth,
                    self.width == mid2.width,
                    self.height == mid2.height,
                    self.neighborhood@.len() == mid2.total(),
                    forall|j: int|
                        0 <= j < mid2.total() ==> (self.mask(j) <==> exists|q: int|
                            0 <= q < k && mid2.occ(q) && near(mid2.rw(), q, j)),
                decreases n - k,
            {
                if self.aggregates[k].age >= 0 {
                    proof {
                        assert(mid2.cell_ok(k as int));
                    }
                    let ghost before = *self;
                    self.set_neighborhood(k);
                    proof {
                        assert forall|j: int|
                            0 <= j < mid2.total() implies (self.mask(j) <==> exists|q: int|
                            0 <= q < k + 1 && mid2.occ(q) && near(mid2.rw(), q, j)) by {
                            if self.mask(j) {
                                if before.mask(j) {
                                    let q = choose|q: int|
                                        0 <= q < k && mid2.occ(q) && near(mid2.rw(), q, j);
                                    assert(0 <= q < k + 1 && mid2.occ(q) && near(mid2.rw(), q, j));
                                } else {
                                    assert(0 <= k < k + 1 && mid2.occ(k as int) && near(
                                        mid2.rw(),
                                        k as int,
                                        j,
                                    ));
                                }
                            } else {
                                assert forall|q: int|
                                    !(0 <= q < k + 1 && mid2.occ(q) && near(
                                        mid2.rw(),
                                        q,
                                        j,
                                    )) by {
                                    if 0 <= q < k + 1 && mid2.occ(q) && near(mid2.rw(), q, j) {
                                        if q == k as int {
                                            assert(self.mask(j));
                                        } else {
                                            assert(before.mask(j));
                                        }
                                    }
                                }
                            }
                        }
                    }
                } else {
                    proof {
                        assert forall|j: int|
                            0 <= j < mid2.total() implies (self.mask(j) <==> exists|q: int|
                            0 <= q < k + 1 && mid2.occ(q) && near(mid2.rw(), q, j)) by {
                            if self.mask(j) {
                                let q = choose|q: int|
                                    0 <= q < k && mid2.occ(q) && near(mid2.rw(), q, j);
                                assert(0 <= q < k + 1 && mid2.occ(q) && near(mid2.rw(), q, j));
                            }
                        }
                    }
                }
                k = k + 1;
            }
            proof {
                assert forall|q: int| 0 <= q < self.total() implies self.cell_ok(q) by {
                    assert(mid2.cell_ok(q));
                }
                assert forall|j: int|
                    0 <= j < self.total() implies (self.mask(j) <==> exists|i2: int|
                    self.occ(i2) && near(self.rw(), i2, j)) by {
                    if self.mask(j) {
                        let q = choose|q: int| 0 <= q < n && mid2.occ(q) && near(mid2.rw(), q, j);
                        assert(self.occ(q) && near(self.rw(), q, j));
                    } else {
                        assert forall|i2: int| !(self.occ(i2) && near(self.rw(), i2, j)) by {
                            if self.occ(i2) && near(self.rw(), i2, j) {
                                assert(0 <= i2 < n && mid2.occ(i2) && near(mid2.rw(), i2, j));
                                assert(self.mask(j));
                            }
                        }
                    }
                }
            }
        } else {
            proof {
                // no removal: every record, and hence the whole space, is
                // exactly as it was, and the mask was never touched
                assert forall|j: int| 0 <= j < n implies self.cells()[j] == pre.cells()[j] by {
                    lemma_removed_all_kept(pre.cells(), keep@, j);
                }
                assert(self.cells() =~= pre.cells());
                assert forall|j: int|
                    0 <= j < self.total() implies (self.mask(j) <==> exists|i2: int|
                    self.occ(i2) && near(self.rw(), i2, j)) by {
                    assert(pre.mask(j) <==> exists|i2: int| pre.occ(i2) && near(pre.rw(), i2, j));
                    if self.mask(j) {
                        let q = choose|q: int| pre.occ(q) && near(pre.rw(), q, j);
                        assert(self.occ(q) && near(self.rw(), q, j));
                    } else {
                        assert forall|i2: int| !(self.occ(i2) && near(self.rw(), i2, j)) by {
                            if self.occ(i2) && near(self.rw(), i2, j) {
                                assert(pre.occ(i2) && near(pre.rw(), i2, j));
                                assert(pre.mask(j));
                            }
                        }
                    }
                }
            }
        }
        proof {
            assert(prune_outcome(pre, *self, keep@, thr_g, prune_probability));
        }
    }

    /// The attachment age of the particle at `(x, y)`, or `None` for an
    /// empty cell. Read-only view for rendering collaborators.
    pub fn get_age(&self, x: u32, y: u32) -> (r: Option<u32>)
        requires
            self.wf(),
            self.in_bounds(x as int, y as int),
        ensures
            match r {
                None => !self.occ(self.sidx(x as int, y as int)),
                Some(a) => self.occ(self.sidx(x as int, y as int)) && a == self.cells()[self.sidx(
                    x as int,
                    y as int,
                )].age,
            },
    {
        let idx = self.xy_to_index(x, y);
        let age = self.aggregates[idx].age;
        if age < 0 {
            None
        } else {
            Some(age as u32)
        }
    }
}

} // verus!
