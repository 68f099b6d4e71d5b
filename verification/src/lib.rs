use vstd::prelude::*;

pub mod cell;
pub mod laws;
pub mod source;
pub mod space;

pub use cell::Aggregate;
pub use source::PcgSource;
pub use source::PROB_ONE;
pub use source::SplitMix64;
pub use source::UniformRandomSource;
pub use space::PotentialParents;
pub use space::Space2d;

use crate::cell::child_contrib;
use crate::cell::lemma_count_at_least_one;
use crate::cell::lemma_occupied_count_all_empty;
use crate::cell::lemma_occupied_count_at_least;
use crate::cell::lemma_occupied_count_update;
use crate::cell::occupied_count;
use crate::space::attached_at;
use crate::space::is_candidate;
use crate::space::lemma_sidx_coords;
use crate::space::prune_outcome;
use crate::space::prune_threshold;
use crate::space::pruned_cell;

verus! {

/// The flat indices of the first `n` seed cells, as a set.
pub open spec fn seed_indices(sp: Space2d, seeds: Seq<(u32, u32)>, n: int) -> Set<int>
    decreases n,
{
    if n <= 0 {
        Set::empty()
    } else {
        seed_indices(sp, seeds, n - 1).insert(
            sp.sidx(seeds[n - 1].0 as int, seeds[n - 1].1 as int),
        )
    }
}

/// Distinct in-bounds seeds land on `n` distinct cells: their index set is
/// finite, has exactly `n` elements, and every element is the image of one
/// of the seeds.
proof fn lemma_seed_indices(sp: Space2d, seeds: Seq<(u32, u32)>, n: int)
    requires
        sp.dims_ok(),
        0 <= n <= seeds.len(),
        forall|k: int|
            0 <= k < seeds.len() ==> (#[trigger] seeds[k]).0 < sp.width && seeds[k].1 < sp.height,
        forall|k: int, l: int| 0 <= k < l < seeds.len() ==> seeds[k] != seeds[l],
    ensures
        seed_indices(sp, seeds, n).finite(),
        seed_indices(sp, seeds, n).len() == n,
        forall|i: int| #[trigger]
            seed_indices(sp, seeds, n).contains(i) ==> exists|l: int|
                0 <= l < n && i == sp.sidx(seeds[l].0 as int, seeds[l].1 as int),
    decreases n,
{
    if n > 0 {
        lemma_seed_indices(sp, seeds, n - 1);
        let prev = seed_indices(sp, seeds, n - 1);
        let idx = sp.sidx(seeds[n - 1].0 as int, seeds[n - 1].1 as int);
        if prev.contains(idx) {
            let l = choose|l: int|
                0 <= l < n - 1 && idx == sp.sidx(seeds[l].0 as int, seeds[l].1 as int);
            lemma_sidx_coords(sp, seeds[l].0 as int, seeds[l].1 as int);
            lemma_sidx_coords(sp, seeds[n - 1].0 as int, seeds[n - 1].1 as int);
            assert(seeds[l] == seeds[n - 1]);
            assert(false);
        }
        vstd::set::axiom_set_insert_len(prev, idx);
        assert forall|i: int| #[trigger]
            seed_indices(sp, seeds, n).contains(i) implies exists|l: int|
            0 <= l < n && i == sp.sidx(seeds[l].0 as int, seeds[l].1 as int) by {
            if i == idx {
                assert(0 <= n - 1 < n && i == sp.sidx(
                    seeds[n - 1].0 as int,
                    seeds[n - 1].1 as int,
                ));
            } else {
                let l = choose|l: int|
                    0 <= l < n - 1 && i == sp.sidx(seeds[l].0 as int, seeds[l].1 as int);
                assert(0 <= l < n && i == sp.sidx(seeds[l].0 as int, seeds[l].1 as int));
            }
        }
    }
}

/// Configuration of the periodic pruning pass.
#[derive(Clone, Copy)]
pub struct Pruning {
    /// Per-cell removal probability, fixed-point in units of `1/PROB_ONE`.
    pub probability: u64,
    /// Run one pruning pass every this many iterations.
    pub every: u32,
    /// Protection span: a pass at iteration `i` only removes cells strictly
    /// older than `i - age` (floored at zero).
    pub age: i32,
}

/// Run a whole simulation: build a `width` by `height` space, plant a root
/// at every seed, then run `iterations` random walks — one particle each —
/// with a pruning pass at the configured cadence. Every seed survives the
/// run as a root: a root counts itself among its children, so it is never
/// terminal and never pruned.
#[verifier::loop_isolation(false)]
pub fn simulate_dla<R: UniformRandomSource>(
    rng: &mut R,
    width: u32,
    height: u32,
    iterations: u32,
    seeds: &[(u32, u32)],
    pruning: Option<Pruning>,
) -> (space: Space2d)
    requires
        1 <= width,
        1 <= height,
        width + 2 <= i32::MAX,
        height + 2 <= i32::MAX,
        (width + 2) * (height + 2) <= usize::MAX,
        iterations <= i32::MAX,
        forall|k: int|
            0 <= k < seeds@.len() ==> (#[trigger] seeds@[k]).0 < width && seeds@[k].1 < height,
        forall|k: int, l: int| 0 <= k < l < seeds@.len() ==> seeds@[k] != seeds@[l],
        pruning matches Some(p) ==> p.probability <= PROB_ONE && p.every >= 1 && (iterations == 0
            || iterations - 1 - p.age <= i32::MAX),
    ensures
        space.wf(),
        space.width == width,
        space.height == height,
        forall|k: int|
            0 <= k < seeds@.len() ==> {
                let i = space.sidx((#[trigger] seeds@[k]).0 as int, seeds@[k].1 as int);
                space.occ(i) && space.cells()[i].age == 0 && space.cells()[i].parent == i
            },
        // without walks, the seeds are the only occupied cells
        iterations == 0 ==> occupied_count(space.cells()) == seeds@.len(),
        iterations == 0 ==> forall|j: int|
            space.occ(j) ==> exists|k: int|
                0 <= k < seeds@.len() && j == space.sidx(seeds@[k].0 as int, seeds@[k].1 as int),
        // the seeds stay occupied whatever the random source did, and
        // without pruning each walk adds at most one particle
        seeds@.len() <= occupied_count(space.cells()),
        pruning is None ==> occupied_count(space.cells()) <= seeds@.len() + iterations,
        // a particle's age is the iteration of its walk; seeds carry age zero
        forall|j: int|
            space.occ(j) ==> 0 <= space.cells()[j].age && (space.cells()[j].age == 0
                || space.cells()[j].age < iterations),
{
    let mut space = Space2d::new(width, height);
    proof {
        lemma_occupied_count_all_empty(space.cells());
    }

    let mut k: usize = 0;
    while k < seeds.len()
        invariant
            k <= seeds@.len(),
            space.wf(),
            space.width == width,
            space.height == height,
            forall|l: int|
                0 <= l < k ==> {
                    let i = space.sidx((#[trigger] seeds@[l]).0 as int, seeds@[l].1 as int);
                    space.occ(i) && space.cells()[i].age == 0 && space.cells()[i].parent == i
                },
            forall|j: int|
                space.occ(j) ==> exists|l: int|
                    0 <= l < k && j == space.sidx(seeds@[l].0 as int, seeds@[l].1 as int),
            occupied_count(space.cells()) == k,
        decreases seeds@.len() - k,
    {
        let (sx, sy) = seeds[k];
        proof {
            // distinct seeds land on distinct cells, so this one is free
            if space.occ(space.sidx(sx as int, sy as int)) {
                let l = choose|l: int|
                    0 <= l < k && space.sidx(sx as int, sy as int) == space.sidx(
                        seeds@[l].0 as int,
                        seeds@[l].1 as int,
                    );
                crate::space::lemma_sidx_coords(space, sx as int, sy as int);
                crate::space::lemma_sidx_coords(space, seeds@[l].0 as int, seeds@[l].1 as int);
                assert(seeds@[l] == seeds@[k as int]);
                assert(false);
            }
        }
        let ghost before = space;
        space.set_seed(sx, sy, 0);
        k = k + 1;
        proof {
            crate::space::lemma_sidx_coords(before, sx as int, sy as int);
            lemma_occupied_count_update(
                before.cells(),
                before.sidx(sx as int, sy as int),
                Aggregate {
                    age: 0,
                    children: 1,
                    parent: before.sidx(sx as int, sy as int) as usize,
                },
            );
            assert forall|j: int|
                space.occ(j) implies exists|l: int|
                0 <= l < k && j == space.sidx(seeds@[l].0 as int, seeds@[l].1 as int) by {
                if j == before.sidx(sx as int, sy as int) {
                    assert(0 <= k - 1 < k && j == space.sidx(
                        seeds@[k - 1].0 as int,
                        seeds@[k - 1].1 as int,
                    ));
                } else {
                    assert(before.occ(j));
                    let l0 = choose|l: int|
                        0 <= l < k - 1 && j == before.sidx(seeds@[l].0 as int, seeds@[l].1 as int);
                    assert(0 <= l0 < k && j == space.sidx(seeds@[l0].0 as int, seeds@[l0].1 as int));
                }
            }
        }
    }

    proof {
        assert forall|j: int|
            space.occ(j) implies 0 <= space.cells()[j].age && space.cells()[j].age == 0 by {
            let l = choose|l: int|
                0 <= l < seeds@.len() && j == space.sidx(seeds@[l].0 as int, seeds@[l].1 as int);
            assert(space.cells()[space.sidx(seeds@[l].0 as int, seeds@[l].1 as int)].age == 0);
        }
    }

    let mut it: u32 = 0;
    while it < iterations
        invariant
            it <= iterations,
            space.wf(),
            space.width == width,
            space.height == height,
            forall|l: int|
                0 <= l < seeds@.len() ==> {
                    let i = space.sidx((#[trigger] seeds@[l]).0 as int, seeds@[l].1 as int);
                    space.occ(i) && space.cells()[i].age == 0 && space.cells()[i].parent == i
                },
            it == 0 ==> occupied_count(space.cells()) == seeds@.len(),
            it == 0 ==> forall|j: int|
                space.occ(j) ==> exists|l: int|
                    0 <= l < seeds@.len() && j == space.sidx(
                        seeds@[l].0 as int,
                        seeds@[l].1 as int,
                    ),
            pruning is None ==> occupied_count(space.cells()) <= seeds@.len() + it,
            forall|j: int|
                space.occ(j) ==> 0 <= space.cells()[j].age && (space.cells()[j].age == 0
                    || space.cells()[j].age < it),
        decreases iterations - it,
    {
        let ghost before = space;
        let attached = space.random_walk(it as i32, rng);
        proof {
            if attached {
                let (x, y): (int, int) = choose|x: int, y: int|
                    #![trigger attached_at(before, space, x, y, it as i32)]
                    attached_at(before, space, x, y, it as i32);
                assert(attached_at(before, space, x, y, it as i32));
                crate::space::lemma_sidx_coords(before, x, y);
                assert forall|l: int|
                    0 <= l < seeds@.len() implies {
                    let i = space.sidx((#[trigger] seeds@[l]).0 as int, seeds@[l].1 as int);
                    space.occ(i) && space.cells()[i].age == 0 && space.cells()[i].parent == i
                } by {
                    let i = before.sidx(seeds@[l].0 as int, seeds@[l].1 as int);
                    assert(before.occ(i) && before.cells()[i].age == 0 && before.cells()[i].parent
                        == i);
                    let inew = before.sidx(x, y);
                    assert(i != inew);
                    let pu = space.cells()[inew].parent as int;
                    if i == pu {
                        assert(space.cells()[i].age == before.cells()[i].age);
                        assert(space.cells()[i].parent == before.cells()[i].parent);
                    } else {
                        assert(space.cells()[i] == before.cells()[i]);
                    }
                    assert(space.sidx(seeds@[l].0 as int, seeds@[l].1 as int) == i);
                }
                // this walk occupied exactly one previously free cell
                let inew = before.sidx(x, y);
                let pu = space.cells()[inew].parent as int;
                let s1 = before.cells().update(inew, space.cells()[inew]);
                assert(space.cells() == s1.update(pu, space.cells()[pu]));
                lemma_occupied_count_update(before.cells(), inew, space.cells()[inew]);
                lemma_occupied_count_update(s1, pu, space.cells()[pu]);
                assert(occupied_count(space.cells()) == occupied_count(before.cells()) + 1);
                // and stamped it with this iteration as its age
                assert forall|j: int|
                    space.occ(j) implies 0 <= space.cells()[j].age && (space.cells()[j].age == 0
                    || space.cells()[j].age <= it) by {
                    if j != inew && j != pu {
                        assert(space.cells()[j] == before.cells()[j]);
                        assert(before.occ(j));
                    } else if j == pu {
                        assert(space.cells()[j].age == before.cells()[j].age);
                        assert(before.occ(j));
                    }
                }
            }
        }
        if let Some(p) = pruning {
            if it % p.every == 0 {
                let ghost mid = space;
                space.prune(p.probability, it as i32 - p.age, rng);
                proof {
                    let keep = choose|keep: Seq<bool>|
                        #![trigger prune_outcome(mid, space, keep, prune_threshold((it as i32 - p.age) as i32), p.probability)]
                        prune_outcome(
                            mid,
                            space,
                            keep,
                            prune_threshold((it as i32 - p.age) as i32),
                            p.probability,
                        );
                    assert forall|l: int|
                        0 <= l < seeds@.len() implies {
                        let i = space.sidx((#[trigger] seeds@[l]).0 as int, seeds@[l].1 as int);
                        space.occ(i) && space.cells()[i].age == 0 && space.cells()[i].parent == i
                    } by {
                        let i = mid.sidx(seeds@[l].0 as int, seeds@[l].1 as int);
                        assert(mid.occ(i) && mid.cells()[i].age == 0 && mid.cells()[i].parent
                            == i);
                        // a root counts itself, so it is never terminal and
                        // never a pruning candidate
                        assert(child_contrib(mid.cells()[i], i) == 1);
                        lemma_count_at_least_one(mid.cells(), i, i);
                        assert(mid.cell_ok(i));
                        assert(mid.cells()[i].children >= 1);
                        assert(keep[i]);
                        assert(space.cells()[i] == pruned_cell(mid.cells(), keep, i));
                    }
                    // pruning only clears cells; survivors keep their ages
                    assert forall|j: int|
                        space.occ(j) implies 0 <= space.cells()[j].age && (space.cells()[j].age
                        == 0 || space.cells()[j].age <= it) by {
                        assert(space.cells()[j] == pruned_cell(mid.cells(), keep, j));
                        if keep[j] {
                            assert(space.cells()[j].age == mid.cells()[j].age);
                            assert(mid.occ(j));
                        }
                    }
                }
            }
        }
        it = it + 1;
    }
    proof {
        // the seeds' distinct cells are all still occupied, so they bound
        // the occupancy from below
        lemma_seed_indices(space, seeds@, seeds@.len() as int);
        let m = seed_indices(space, seeds@, seeds@.len() as int);
        assert forall|i: int|
            m.contains(i) implies 0 <= i < space.cells().len() && space.cells()[i].occupied() by {
            let l = choose|l: int|
                0 <= l < seeds@.len() && i == space.sidx(seeds@[l].0 as int, seeds@[l].1 as int);
            assert(space.occ(space.sidx(seeds@[l].0 as int, seeds@[l].1 as int)));
        }
        lemma_occupied_count_at_least(space.cells(), m);
    }
    space
}

} // verus!
