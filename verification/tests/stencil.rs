use aster_bench::stencil::{clamp_workers, partition, run, try_run, Grid, RunError};

/// One fixed-point unit, standing for the sample value 1.0.
const ONE: u32 = 1 << 16;

fn filled(w: usize, h: usize, fill: u32) -> Grid {
    Grid::new(w, h, fill)
}

#[test]
fn concrete_five_grid_one_step() {
    // A 5x5 grid filled with one unit, one step: borders zero, and every
    // interior cell is 1/2 + 4 * 1/8 = one unit again.
    let g = run(filled(5, 5, ONE), 1, 1);
    for i in 0..5 {
        for j in 0..5 {
            let expected = if i == 0 || i == 4 || j == 0 || j == 4 { 0 } else { ONE };
            assert_eq!(g.get(i, j), expected, "cell ({}, {})", i, j);
        }
    }
}

#[test]
fn zero_steps_returns_initial() {
    for workers in [1usize, 2, 3, 5] {
        let g = run(filled(4, 5, 77), 0, workers);
        for i in 0..5 {
            for j in 0..4 {
                assert_eq!(g.get(i, j), 77);
            }
        }
    }
}

#[test]
fn repeated_runs_are_identical() {
    let a = run(filled(16, 16, ONE), 10, 4);
    let b = run(filled(16, 16, ONE), 10, 4);
    assert_eq!(a.cells, b.cells);
}

#[test]
fn worker_counts_agree() {
    let reference = run(filled(8, 8, ONE), 3, 1);
    for workers in [2usize, 3, 4, 5, 6, 7, 8] {
        let g = run(filled(8, 8, ONE), 3, workers);
        assert_eq!(g.cells, reference.cells, "workers = {}", workers);
    }
}

#[test]
fn single_worker_equals_full_partition() {
    let h = 12usize;
    let a = run(filled(7, h, ONE), 5, 1);
    let b = run(filled(7, h, ONE), 5, h);
    assert_eq!(a.cells, b.cells);
}

#[test]
fn borders_zero_after_every_step() {
    let mut g = filled(6, 7, ONE);
    for _ in 0..4 {
        g = run(g, 1, 2);
        for i in 0..7 {
            assert_eq!(g.get(i, 0), 0);
            assert_eq!(g.get(i, 5), 0);
        }
        for j in 0..6 {
            assert_eq!(g.get(0, j), 0);
            assert_eq!(g.get(6, j), 0);
        }
    }
}

#[test]
fn partition_concrete_ranges() {
    assert_eq!(partition(5, 2), vec![(0, 2), (2, 5)]);
    assert_eq!(partition(7, 3), vec![(0, 2), (2, 4), (4, 7)]);
    assert_eq!(partition(4, 4), vec![(0, 1), (1, 2), (2, 3), (3, 4)]);
    assert_eq!(partition(3, 1), vec![(0, 3)]);
}

#[test]
fn partition_disjoint_and_covers() {
    for h in 1usize..40 {
        for p in 1usize..=h {
            let ranges = partition(h, p);
            assert_eq!(ranges.len(), p);
            let mut next_row = 0usize;
            for &(start, end) in &ranges {
                assert_eq!(start, next_row, "gap or overlap at h={} p={}", h, p);
                assert!(start < end, "empty range at h={} p={}", h, p);
                next_row = end;
            }
            assert_eq!(next_row, h, "ranges do not reach h={} with p={}", h, p);
        }
    }
}

#[test]
fn partition_is_balanced() {
    for h in 1usize..40 {
        for p in 1usize..=h {
            let ranges = partition(h, p);
            let min = ranges.iter().map(|&(s, e)| e - s).min().unwrap();
            let max = ranges.iter().map(|&(s, e)| e - s).max().unwrap();
            assert!(max - min <= 1, "unbalanced at h={} p={}", h, p);
        }
    }
}

#[test]
fn try_run_rejects_bad_worker_counts() {
    assert!(matches!(try_run(filled(3, 3, ONE), 1, 0), Err(RunError::BadWorkerCount)));
    assert!(matches!(try_run(filled(3, 3, ONE), 1, 4), Err(RunError::BadWorkerCount)));
    let g = match try_run(filled(3, 3, ONE), 1, 3) {
        Ok(g) => g,
        Err(_) => panic!("a worker count within the grid height must be accepted"),
    };
    assert_eq!(g.get(1, 1), ONE);
}

#[test]
fn clamp_workers_caps_and_floors() {
    assert_eq!(clamp_workers(0, 100), 1);
    assert_eq!(clamp_workers(5, 100), 5);
    assert_eq!(clamp_workers(16, 100), 8);
    assert_eq!(clamp_workers(16, 3), 3);
    assert_eq!(clamp_workers(2, 1), 1);
}

#[test]
fn thin_grids_zero_out() {
    // A single row, or a single column, is all border: one step clears it.
    let row = run(filled(9, 1, ONE), 1, 1);
    for j in 0..9 {
        assert_eq!(row.get(0, j), 0);
    }
    let col = run(filled(1, 9, ONE), 1, 4);
    for i in 0..9 {
        assert_eq!(col.get(i, 0), 0);
    }
}

#[test]
fn interior_decays_toward_borders() {
    // After two steps from uniform fill, cells next to the border have lost
    // more than the centre cell. Exact values: see the kernel weights.
    let g = run(filled(7, 7, ONE), 2, 1);
    assert!(g.get(3, 3) > g.get(1, 1));
    assert!(g.get(1, 1) > 0);
}
