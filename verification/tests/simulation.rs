use colorspread::color::Color;
use colorspread::grid::{Grid, SPREAD_CHANCE_SCALE};
use colorspread::sim::{run, sweep};
use rand::SeedableRng;

fn rng_from(seed: u64) -> rand::rngs::StdRng {
    rand::rngs::StdRng::seed_from_u64(seed)
}

fn snapshot(g: &Grid) -> Vec<(bool, Color)> {
    let mut cells = Vec::new();
    for y in 0..g.height {
        for x in 0..g.width {
            cells.push((g.is_alive(y, x), g.color_at(y, x)));
        }
    }
    cells
}

fn live_cells(g: &Grid) -> Vec<(usize, usize)> {
    let mut cells = Vec::new();
    for y in 0..g.height {
        for x in 0..g.width {
            if g.is_alive(y, x) {
                cells.push((y, x));
            }
        }
    }
    cells
}

#[test]
fn new_grid_all_dead_and_zero_colored() {
    let g = Grid::new(5, 7, 4, SPREAD_CHANCE_SCALE / 2);
    for y in 0..7 {
        for x in 0..5 {
            assert!(!g.is_alive(y, x));
            assert_eq!(g.color_at(y, x), Color { red: 0, green: 0, blue: 0 });
        }
    }
}

#[test]
fn place_cell_sets_only_that_cell() {
    let mut g = Grid::new(6, 6, 0, 0);
    let c = Color { red: 9, green: 8, blue: 7 };
    g.place_cell(2, 3, c);
    for y in 0..6 {
        for x in 0..6 {
            if (y, x) == (2, 3) {
                assert!(g.is_alive(y, x));
                assert_eq!(g.color_at(y, x), c);
            } else {
                assert!(!g.is_alive(y, x));
            }
        }
    }
}

#[test]
fn spawn_random_orphan_places_one_interior_cell() {
    for seed in 0..10u64 {
        let mut rng = rng_from(seed);
        let mut g = Grid::new(10, 4, 2, SPREAD_CHANCE_SCALE);
        g.spawn_random_orphan(&mut rng);
        let live = live_cells(&g);
        assert_eq!(live.len(), 1);
        let (y, x) = live[0];
        assert!(y >= 1 && y < 3 && x >= 1 && x < 9);
    }
}

#[test]
fn dead_neighbors_lists_exactly_the_dead_moore_interior_cells() {
    let mut g = Grid::new(7, 7, 0, 0);
    g.place_cell(3, 3, Color { red: 1, green: 1, blue: 1 });
    g.place_cell(2, 2, Color { red: 1, green: 1, blue: 1 });
    g.place_cell(3, 4, Color { red: 1, green: 1, blue: 1 });
    let dn = g.dead_neighbors(3, 3);
    assert_eq!(dn.len(), 6);
    for &(ny, nx) in dn.iter() {
        let dy = ny.abs_diff(3);
        let dx = nx.abs_diff(3);
        assert!(dy <= 1 && dx <= 1 && (dy, dx) != (0, 0));
        assert!(ny >= 1 && ny < 6 && nx >= 1 && nx < 6);
        assert!(!g.is_alive(ny, nx));
    }
    for i in 0..dn.len() {
        for j in (i + 1)..dn.len() {
            assert_ne!(dn[i], dn[j]);
        }
    }
    assert!(!dn.contains(&(2, 2)));
    assert!(!dn.contains(&(3, 4)));
}

#[test]
fn dead_neighbors_never_reaches_the_border() {
    let g = Grid::new(5, 5, 0, 0);
    let dn = g.dead_neighbors(1, 1);
    let mut got = dn.clone();
    got.sort();
    assert_eq!(got, vec![(1, 2), (2, 1), (2, 2)]);
}

#[test]
fn liveness_is_monotonic_across_sweeps() {
    let mut rng = rng_from(7);
    let mut g = Grid::new(8, 6, 6, SPREAD_CHANCE_SCALE / 2);
    for _ in 0..3 {
        g.spawn_random_orphan(&mut rng);
    }
    for _ in 0..10 {
        let before = live_cells(&g);
        sweep(&mut g, &mut rng);
        for &(y, x) in before.iter() {
            assert!(g.is_alive(y, x), "cell ({}, {}) died", y, x);
        }
    }
}

#[test]
fn attempt_spread_with_full_chance_commits_to_one_neighbor() {
    let mut rng = rng_from(5);
    let mut g = Grid::new(5, 5, 0, SPREAD_CHANCE_SCALE);
    let seed_color = Color { red: 40, green: 50, blue: 60 };
    g.place_cell(2, 2, seed_color);
    let committed = g.attempt_spread(2, 2, &mut rng);
    assert!(committed);
    let live = live_cells(&g);
    assert_eq!(live.len(), 2);
    let &(ny, nx) = live.iter().find(|&&p| p != (2, 2)).unwrap();
    assert!(ny.abs_diff(2) <= 1 && nx.abs_diff(2) <= 1);
    assert_eq!(g.color_at(ny, nx), seed_color);
}

#[test]
fn run_terminates_within_the_dead_cell_bound() {
    let mut rng = rng_from(13);
    let mut g = Grid::new(7, 7, 3, SPREAD_CHANCE_SCALE);
    g.place_cell(3, 3, Color { red: 100, green: 100, blue: 100 });
    let sweeps = run(&mut g, &mut rng);
    assert!(sweeps >= 1);
    assert!(sweeps <= 1 + 5 * 5);
    for y in 1..6 {
        for x in 1..6 {
            assert!(g.is_alive(y, x), "interior cell ({}, {}) left dead", y, x);
        }
    }
}

#[test]
fn full_chance_zero_shift_propagates_the_seed_color_everywhere() {
    let mut rng = rng_from(99);
    let mut g = Grid::new(5, 5, 0, SPREAD_CHANCE_SCALE);
    let seed_color = Color { red: 10, green: 200, blue: 33 };
    g.place_cell(2, 2, seed_color);
    run(&mut g, &mut rng);
    for y in 1..4 {
        for x in 1..4 {
            assert!(g.is_alive(y, x));
            assert_eq!(g.color_at(y, x), seed_color);
        }
    }
}

#[test]
fn zero_chance_grid_never_changes_after_seeding() {
    let mut rng = rng_from(21);
    let mut g = Grid::new(6, 6, 5, 0);
    for _ in 0..4 {
        g.spawn_random_orphan(&mut rng);
    }
    let before = snapshot(&g);
    let committed = sweep(&mut g, &mut rng);
    assert!(!committed);
    for _ in 0..5 {
        assert!(!sweep(&mut g, &mut rng));
    }
    assert_eq!(snapshot(&g), before);
    let sweeps = run(&mut g, &mut rng);
    assert_eq!(sweeps, 1);
    assert_eq!(snapshot(&g), before);
}

#[test]
fn smallest_grid_starts_dead_and_zero_colored() {
    let g = Grid::new(3, 3, 0, 0);
    for y in 0..3 {
        for x in 0..3 {
            assert!(!g.is_alive(y, x));
            assert_eq!(g.color_at(y, x), Color { red: 0, green: 0, blue: 0 });
        }
    }
}

#[test]
fn respawn_on_a_live_cell_overwrites_and_keeps_it_alive() {
    // A 3x3 grid has exactly one interior cell, so the random orphan must
    // land on it, overwriting the color of the cell already there.
    let mut rng = rng_from(2);
    let mut g = Grid::new(3, 3, 0, SPREAD_CHANCE_SCALE);
    g.place_cell(1, 1, Color { red: 7, green: 7, blue: 7 });
    let (y, x) = g.spawn_random_orphan(&mut rng);
    assert_eq!((y, x), (1, 1));
    assert!(g.is_alive(1, 1));
    assert_eq!(live_cells(&g).len(), 1);
}

#[test]
fn single_interior_cell_grid_settles_at_once() {
    // The lone interior cell has only border neighbors, which are never
    // spread targets, so even a full spread chance commits nothing.
    let mut rng = rng_from(8);
    let mut g = Grid::new(3, 3, 4, SPREAD_CHANCE_SCALE);
    g.place_cell(1, 1, Color { red: 1, green: 2, blue: 3 });
    let before = snapshot(&g);
    let sweeps = run(&mut g, &mut rng);
    assert_eq!(sweeps, 1);
    assert_eq!(snapshot(&g), before);
    for y in 0..3 {
        for x in 0..3 {
            assert_eq!(g.is_alive(y, x), (y, x) == (1, 1));
        }
    }
}

#[test]
fn surrounded_cell_attempt_is_a_no_op() {
    let mut rng = rng_from(4);
    let mut g = Grid::new(5, 5, 2, SPREAD_CHANCE_SCALE);
    for y in 1..4 {
        for x in 1..4 {
            g.place_cell(y, x, Color { red: y as u8, green: x as u8, blue: 0 });
        }
    }
    let before = snapshot(&g);
    let committed = g.attempt_spread(2, 2, &mut rng);
    assert!(!committed);
    assert_eq!(snapshot(&g), before);
}
