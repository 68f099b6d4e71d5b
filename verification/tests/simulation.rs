use dla::simulate_dla;
use dla::Pruning;
use dla::SplitMix64;
use dla::Space2d;
use dla::PROB_ONE;

/// All occupied logical coordinates, row-major, as one printable string.
fn occupancy(space: &Space2d, w: u32, h: u32) -> String {
    let mut out = String::new();
    for y in 0..h {
        for x in 0..w {
            if space.get_age(x, y).is_some() {
                if !out.is_empty() {
                    out.push(' ');
                }
                out.push_str(&format!("({},{})", x, y));
            }
        }
    }
    out
}

#[test]
fn golden_run_ten_by_ten() {
    // one seed in the middle, exactly five walks, pinned reference source:
    // the final occupancy is a recorded constant
    let mut rng = SplitMix64::new(2024);
    let mut space = Space2d::new(10, 10);
    space.set_seed(5, 5, 0);
    for i in 0..5 {
        assert!(space.random_walk(i, &mut rng));
    }
    assert_eq!(
        occupancy(&space, 10, 10),
        "(2,3) (3,3) (4,4) (5,5) (4,6) (5,7)"
    );
}

#[test]
fn simulate_keeps_seeds_as_roots() {
    let mut rng = SplitMix64::new(99);
    let seeds = [(2u32, 2u32), (7, 6)];
    let space = simulate_dla(&mut rng, 10, 9, 12, &seeds, None);
    for &(x, y) in &seeds {
        assert_eq!(space.get_age(x, y), Some(0));
        let idx = (y as usize + 1) * 12 + x as usize + 1;
        assert_eq!(space.aggregates[idx].parent, idx);
        assert!(space.aggregates[idx].children >= 1);
    }
    // twelve walks on top of two seeds
    let occupied = space.aggregates.iter().filter(|a| a.age >= 0).count();
    assert_eq!(occupied, 14);
}

#[test]
fn simulate_with_pruning_stays_consistent() {
    let mut rng = SplitMix64::new(5);
    let seeds = [(5u32, 5u32)];
    let space = simulate_dla(
        &mut rng,
        11,
        11,
        30,
        &seeds,
        Some(Pruning { probability: PROB_ONE / 2, every: 5, age: 3 }),
    );
    assert_eq!(space.get_age(5, 5), Some(0));
    // tree consistency after the whole run
    for (i, a) in space.aggregates.iter().enumerate() {
        let pointing =
            space.aggregates.iter().filter(|b| b.age >= 0 && b.parent == i).count();
        assert_eq!(a.children, pointing);
    }
    // every occupied cell reaches a self-parented root
    let n = space.aggregates.len();
    for i in 0..n {
        if space.aggregates[i].age < 0 {
            continue;
        }
        let mut cur = i;
        let mut steps = 0;
        while space.aggregates[cur].parent != cur {
            assert!(space.aggregates[cur].age >= 0);
            cur = space.aggregates[cur].parent;
            steps += 1;
            assert!(steps <= n);
        }
    }
}

#[test]
fn simulate_zero_iterations_only_seeds() {
    let mut rng = SplitMix64::new(1);
    let seeds = [(0u32, 0u32), (3, 2)];
    let space = simulate_dla(&mut rng, 4, 3, 0, &seeds, None);
    assert_eq!(space.get_age(0, 0), Some(0));
    assert_eq!(space.get_age(3, 2), Some(0));
    assert_eq!(space.aggregates.iter().filter(|a| a.age >= 0).count(), 2);
}
