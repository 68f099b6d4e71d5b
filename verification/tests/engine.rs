use dla::Aggregate;
use dla::PcgSource;
use dla::SplitMix64;
use dla::Space2d;
use dla::UniformRandomSource;
use dla::PROB_ONE;

/// Flat storage index of logical `(x, y)` on a `w`-wide grid, mirroring the
/// library's padded layout.
fn flat(w: u32, x: u32, y: u32) -> usize {
    (y as usize + 1) * (w as usize + 2) + x as usize + 1
}

/// Count of occupied cells whose parent field refers to `idx`.
fn count_pointing_at(space: &Space2d, idx: usize) -> usize {
    space.aggregates.iter().filter(|a| a.age >= 0 && a.parent == idx).count()
}

/// All occupied logical coordinates, row-major.
fn occupied_cells(space: &Space2d, w: u32, h: u32) -> Vec<(u32, u32)> {
    let mut out = Vec::new();
    for y in 0..h {
        for x in 0..w {
            if space.get_age(x, y).is_some() {
                out.push((x, y));
            }
        }
    }
    out
}

/// Tree consistency: every cell's recorded `children` equals the number of
/// occupied cells pointing at it.
fn check_children_consistent(space: &Space2d) {
    for (i, a) in space.aggregates.iter().enumerate() {
        assert_eq!(
            a.children, count_pointing_at(space, i),
            "children count wrong at flat index {}",
            i
        );
    }
}

/// Every occupied cell reaches a self-parented root by following parents.
fn check_rooted(space: &Space2d) {
    let n = space.aggregates.len();
    for i in 0..n {
        if space.aggregates[i].age < 0 {
            continue;
        }
        let mut cur = i;
        let mut steps = 0;
        loop {
            assert!(space.aggregates[cur].age >= 0, "chain left the aggregate");
            let p = space.aggregates[cur].parent;
            if p == cur {
                break;
            }
            cur = p;
            steps += 1;
            assert!(steps <= n, "parent chain does not terminate");
        }
    }
}

#[test]
fn new_space_is_empty() {
    let space = Space2d::new(7, 5);
    for y in 0..5 {
        for x in 0..7 {
            assert_eq!(space.get_age(x, y), None);
            assert!(space.in_free_space(x, y));
            assert!(!space.attaches(x, y));
        }
    }
    check_children_consistent(&space);
}

#[test]
fn empty_cells_hold_the_sentinel() {
    let space = Space2d::new(3, 3);
    for a in space.aggregates.iter() {
        assert_eq!(a.age, -1);
        assert_eq!(a.children, 0);
        assert_eq!(a.parent, usize::MAX);
    }
    assert_eq!(space.aggregates.len(), 5 * 5);
    assert_eq!(Aggregate::empty().age, -1);
}

#[test]
fn seed_sets_age_zero_and_marks_block() {
    let mut space = Space2d::new(10, 10);
    space.set_seed(5, 5, 0);
    assert_eq!(space.get_age(5, 5), Some(0));
    assert!(!space.in_free_space(5, 5));
    // the full 3x3 block around the seed attaches
    for y in 4..=6 {
        for x in 4..=6 {
            assert!(space.attaches(x, y), "mask not set at ({}, {})", x, y);
        }
    }
    // and nothing outside it does
    for y in 0..10 {
        for x in 0..10 {
            let inside = (4..=6).contains(&x) && (4..=6).contains(&y);
            assert_eq!(space.attaches(x, y), inside);
        }
    }
    // a root is its own parent and counts itself as a child
    let idx = flat(10, 5, 5);
    assert_eq!(space.aggregates[idx].parent, idx);
    assert_eq!(space.aggregates[idx].children, 1);
    check_children_consistent(&space);
    check_rooted(&space);
}

#[test]
fn seed_block_is_clipped_at_the_corner() {
    let mut space = Space2d::new(10, 10);
    space.set_seed(0, 0, 0);
    assert_eq!(space.get_age(0, 0), Some(0));
    for y in 0..10 {
        for x in 0..10 {
            let inside = x <= 1 && y <= 1;
            assert_eq!(space.attaches(x, y), inside);
        }
    }
}

#[test]
fn walk_attaches_exactly_one_adjacent_particle() {
    let mut space = Space2d::new(10, 10);
    space.set_seed(5, 5, 0);
    let mut rng = SplitMix64::new(42);
    let attached = space.random_walk(1, &mut rng);
    assert!(attached);
    let occupied = occupied_cells(&space, 10, 10);
    assert_eq!(occupied.len(), 2);
    let (nx, ny) = *occupied.iter().find(|&&c| c != (5, 5)).expect("new cell");
    assert_eq!(space.get_age(nx, ny), Some(1));
    // the new particle is adjacent to the only previously occupied cell
    assert!(nx.abs_diff(5) <= 1 && ny.abs_diff(5) <= 1);
    // and attached to it
    assert_eq!(space.aggregates[flat(10, nx, ny)].parent, flat(10, 5, 5));
    assert_eq!(space.aggregates[flat(10, 5, 5)].children, 2);
    check_children_consistent(&space);
    check_rooted(&space);
}

#[test]
fn consistency_holds_after_every_walk() {
    let mut space = Space2d::new(12, 9);
    space.set_seed(6, 4, 0);
    let mut rng = SplitMix64::new(7);
    for i in 1..=20 {
        assert!(space.random_walk(i, &mut rng));
        check_children_consistent(&space);
        check_rooted(&space);
    }
    assert_eq!(occupied_cells(&space, 12, 9).len(), 21);
}

#[test]
fn prune_probability_zero_changes_nothing() {
    let mut space = Space2d::new(10, 10);
    space.set_seed(5, 5, 0);
    let mut rng = SplitMix64::new(3);
    for i in 1..=10 {
        assert!(space.random_walk(i, &mut rng));
    }
    let ages_before: Vec<i32> = space.aggregates.iter().map(|a| a.age).collect();
    let children_before: Vec<usize> = space.aggregates.iter().map(|a| a.children).collect();
    let mask_before: Vec<bool> =
        (0..10).flat_map(|y| (0..10).map(move |x| (x, y))).map(|(x, y)| space.attaches(x, y)).collect();
    space.prune(0, -100, &mut rng);
    let ages_after: Vec<i32> = space.aggregates.iter().map(|a| a.age).collect();
    let children_after: Vec<usize> = space.aggregates.iter().map(|a| a.children).collect();
    let mask_after: Vec<bool> =
        (0..10).flat_map(|y| (0..10).map(move |x| (x, y))).map(|(x, y)| space.attaches(x, y)).collect();
    assert_eq!(ages_before, ages_after);
    assert_eq!(children_before, children_after);
    assert_eq!(mask_before, mask_after);
}

#[test]
fn prune_probability_one_removes_every_old_leaf() {
    let mut space = Space2d::new(10, 10);
    space.set_seed(5, 5, 0);
    let mut rng = SplitMix64::new(11);
    for i in 1..=15 {
        assert!(space.random_walk(i, &mut rng));
    }
    // candidates at pass start: terminal cells strictly older than 0
    let leaves: Vec<usize> = (0..space.aggregates.len())
        .filter(|&i| space.aggregates[i].age > 0 && space.aggregates[i].children == 0)
        .collect();
    assert!(!leaves.is_empty());
    let survivors_children: Vec<(usize, usize, usize)> = (0..space.aggregates.len())
        .filter(|&i| space.aggregates[i].age >= 0 && !leaves.contains(&i))
        .map(|i| {
            let removed_pointing =
                leaves.iter().filter(|&&l| space.aggregates[l].parent == i).count();
            (i, space.aggregates[i].children, removed_pointing)
        })
        .collect();
    space.prune(PROB_ONE, -1, &mut rng);
    for &l in &leaves {
        assert_eq!(space.aggregates[l].age, -1, "candidate leaf survived");
        assert_eq!(space.aggregates[l].parent, usize::MAX);
    }
    // removing a leaf decrements exactly its parent, and no other cell
    for &(i, before, removed_pointing) in &survivors_children {
        assert!(space.aggregates[i].age >= 0, "non-candidate was removed");
        assert_eq!(space.aggregates[i].children, before - removed_pointing);
    }
    // the seed always survives: a root is never terminal
    assert_eq!(space.get_age(5, 5), Some(0));
    check_children_consistent(&space);
    check_rooted(&space);
    // the mask was rebuilt to exactly the survivors' neighborhoods
    for y in 0..10u32 {
        for x in 0..10u32 {
            let expect = (x.saturating_sub(1)..=(x + 1).min(9))
                .any(|u| (y.saturating_sub(1)..=(y + 1).min(9)).any(|v| space.get_age(u, v).is_some()));
            assert_eq!(space.attaches(x, y), expect, "mask wrong at ({}, {})", x, y);
        }
    }
}

#[test]
fn prune_spares_cells_at_or_below_the_threshold() {
    let mut space = Space2d::new(10, 10);
    space.set_seed(5, 5, 0);
    let mut rng = SplitMix64::new(19);
    for i in 1..=8 {
        assert!(space.random_walk(i, &mut rng));
    }
    let young: Vec<usize> = (0..space.aggregates.len())
        .filter(|&i| space.aggregates[i].age >= 0 && space.aggregates[i].age <= 8)
        .collect();
    // threshold 8 protects every cell of age <= 8, i.e. everything
    space.prune(PROB_ONE, 8, &mut rng);
    for &i in &young {
        assert!(space.aggregates[i].age >= 0);
    }
    assert_eq!(occupied_cells(&space, 10, 10).len(), 9);
}

#[test]
fn pcg_source_stays_in_range_and_drives_the_engine() {
    let mut src = PcgSource::new(77);
    let mut seen_nonzero = false;
    for bound in [1u32, 2, 5, 17, 1000] {
        for _ in 0..50 {
            let v = src.below(bound);
            assert!(v < bound);
            seen_nonzero |= v != 0;
        }
    }
    // a generator handing back a constant would fail this
    assert!(seen_nonzero);
    for _ in 0..50 {
        assert!(src.unit() < PROB_ONE);
    }
    let mut a = PcgSource::new(5);
    let mut b = PcgSource::new(5);
    for _ in 0..20 {
        assert_eq!(a.below(100), b.below(100));
    }
    // the engine keeps all its invariants under this source too
    let mut space = Space2d::new(10, 10);
    space.set_seed(5, 5, 0);
    let mut rng = PcgSource::new(1);
    for i in 1..=15 {
        assert!(space.random_walk(i, &mut rng));
    }
    check_children_consistent(&space);
    check_rooted(&space);
    assert_eq!(occupied_cells(&space, 10, 10).len(), 16);
}

#[test]
fn reference_source_is_deterministic_and_in_range() {
    let mut a = SplitMix64::new(12345);
    let mut b = SplitMix64::new(12345);
    for bound in [1u32, 2, 3, 7, 100, 4_000_000] {
        let va = a.below(bound);
        assert_eq!(va, b.below(bound));
        assert!(va < bound);
    }
    let ua = a.unit();
    assert_eq!(ua, b.unit());
    assert!(ua < PROB_ONE);
    let mut c = SplitMix64::new(54321);
    let first: Vec<u32> = (0..8).map(|_| c.below(1000)).collect();
    let mut d = SplitMix64::new(54321);
    let second: Vec<u32> = (0..8).map(|_| d.below(1000)).collect();
    assert_eq!(first, second);
}
