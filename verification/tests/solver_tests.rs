use tilewave::color::HexColor;
use tilewave::grid::Grid;
use tilewave::rng::RandomSource;
use tilewave::solver::initialize;
use tilewave::solver::reset;
use tilewave::solver::solve_fully;
use tilewave::solver::step;
use tilewave::tiles::Catalog;
use tilewave::tiles::TileInfo;

fn tile(name: &str) -> TileInfo {
    TileInfo {
        name: name.to_string(),
        color: HexColor(0, 0, 0),
        friends_top: Vec::new(),
        friends_right: Vec::new(),
        friends_bottom: Vec::new(),
        friends_left: Vec::new(),
        image: String::new(),
        weights_top: None,
        weights_right: None,
        weights_bottom: None,
        weights_left: None,
    }
}

fn ids(v: &[&str]) -> Vec<String> {
    v.iter().map(|s| s.to_string()).collect()
}

/// A tile that permits `others` on all four sides.
fn open_tile(name: &str, others: &[&str]) -> TileInfo {
    let mut t = tile(name);
    t.friends_top = ids(others);
    t.friends_right = ids(others);
    t.friends_bottom = ids(others);
    t.friends_left = ids(others);
    t
}

fn catalog_of(tiles: Vec<TileInfo>) -> Catalog {
    let mut cat = Catalog::new();
    for t in tiles {
        cat.insert(t);
    }
    cat
}

fn domain(grid: &Grid, x: usize, y: usize) -> Vec<String> {
    grid.cell(x, y).clone()
}

/// A 1-cell grid with a single identifier: the domain is already size one,
/// so the very first step reports no progress.
#[test]
fn single_cell_single_tile_steps_false() {
    let cat = catalog_of(vec![open_tile("solo", &["solo"])]);
    let mut grid = initialize(1, 1, &cat);
    let mut rng = RandomSource::with_seed(7);
    assert_eq!(grid.domain_len(0, 0), 1);
    assert!(!step(&mut grid, &cat, &mut rng));
    assert_eq!(domain(&grid, 0, 0), ids(&["solo"]));
    assert!(grid.is_settled());
    assert!(!grid.has_contradiction());
}

/// A 2x1 grid where each tile tolerates only the other beside it: solving
/// always ends in A,B or B,A — never equal cells, never a contradiction.
#[test]
fn two_cell_alternation() {
    let mut a = tile("A");
    a.friends_left = ids(&["B"]);
    a.friends_right = ids(&["B"]);
    let mut b = tile("B");
    b.friends_left = ids(&["A"]);
    b.friends_right = ids(&["A"]);
    let cat = catalog_of(vec![a, b]);
    let all = cat.all_ids();
    let mut saw_ab = false;
    let mut saw_ba = false;
    let mut grid = initialize(2, 1, &cat);
    for seed in 0..64 {
        reset(&mut grid, &all);
        let mut rng = RandomSource::with_seed(seed);
        solve_fully(&mut grid, &cat, &mut rng);
        let left = domain(&grid, 0, 0);
        let right = domain(&grid, 1, 0);
        assert_eq!(left.len(), 1);
        assert_eq!(right.len(), 1);
        assert_ne!(left[0], right[0]);
        assert!(!grid.has_contradiction());
        match (left[0].as_str(), right[0].as_str()) {
            ("A", "B") => saw_ab = true,
            ("B", "A") => saw_ba = true,
            other => panic!("impossible assignment {:?}", other),
        }
    }
    assert!(saw_ab && saw_ba);
}

/// Rules that admit no consistent assignment: the empty domain is left in
/// place, propagation returns normally, and later steps still run.
#[test]
fn contradiction_left_in_place() {
    // Neither tile permits anything anywhere.
    let cat = catalog_of(vec![tile("X"), tile("Y")]);
    let mut grid = initialize(2, 1, &cat);
    let mut rng = RandomSource::with_seed(3);
    assert!(step(&mut grid, &cat, &mut rng));
    assert!(grid.has_contradiction());
    assert!(grid.is_settled());
    assert!(!step(&mut grid, &cat, &mut rng));
    assert!(grid.has_contradiction());
}

/// Three tiles, each forbidding itself as a neighbor, on a larger grid:
/// solving runs to completion without panicking whatever it leaves behind.
#[test]
fn self_forbidding_tiles_run_to_completion() {
    let cat = catalog_of(vec![
        open_tile("r", &["g", "b"]),
        open_tile("g", &["r", "b"]),
        open_tile("b", &["r", "g"]),
    ]);
    for seed in 0..8 {
        let mut grid = initialize(4, 4, &cat);
        let mut rng = RandomSource::with_seed(seed);
        solve_fully(&mut grid, &cat, &mut rng);
        assert!(grid.is_settled());
    }
}

/// Monotonic shrink: over a whole run, no cell's domain ever grows.
#[test]
fn domains_never_grow() {
    let cat = catalog_of(vec![
        open_tile("r", &["g", "b"]),
        open_tile("g", &["r", "b"]),
        open_tile("b", &["r", "g"]),
    ]);
    let mut grid = initialize(5, 4, &cat);
    let mut rng = RandomSource::with_seed(11);
    let mut sizes: Vec<usize> = (0..20).map(|k| grid.cell(k % 5, k / 5).len()).collect();
    while step(&mut grid, &cat, &mut rng) {
        let now: Vec<usize> = (0..20).map(|k| grid.cell(k % 5, k / 5).len()).collect();
        for k in 0..20 {
            assert!(now[k] <= sizes[k], "domain grew at cell {}", k);
        }
        sizes = now;
    }
}

/// Single-choice stability: once a cell's domain has size one, no later
/// step changes it.
#[test]
fn collapsed_cells_stay_fixed() {
    let cat = catalog_of(vec![
        open_tile("r", &["g", "b"]),
        open_tile("g", &["r", "b"]),
        open_tile("b", &["r", "g"]),
    ]);
    let mut grid = initialize(3, 3, &cat);
    let mut rng = RandomSource::with_seed(5);
    let mut pinned: Vec<Option<String>> = vec![None; 9];
    loop {
        for k in 0..9 {
            if let Some(v) = &pinned[k] {
                let d = domain(&grid, k % 3, k / 3);
                assert_eq!(d.len(), 1);
                assert_eq!(&d[0], v);
            }
        }
        if !step(&mut grid, &cat, &mut rng) {
            break;
        }
        for k in 0..9 {
            let d = domain(&grid, k % 3, k / 3);
            if pinned[k].is_none() && d.len() == 1 {
                pinned[k] = Some(d[0].clone());
            }
        }
    }
}

/// Termination: a full solve makes at most width * height * K progressing
/// steps.
#[test]
fn solve_within_step_bound() {
    let cat = catalog_of(vec![
        open_tile("r", &["g", "b"]),
        open_tile("g", &["r", "b"]),
        open_tile("b", &["r", "g"]),
    ]);
    for seed in 0..8 {
        let mut grid = initialize(6, 5, &cat);
        let mut rng = RandomSource::with_seed(seed);
        let mut steps = 0usize;
        while step(&mut grid, &cat, &mut rng) {
            steps += 1;
            assert!(steps <= 6 * 5 * 3, "more steps than cells times identifiers");
        }
        assert!(grid.is_settled());
    }
}

/// Determinism under a fixed seed: two runs from the same catalog, size
/// and seed end in identical grids.
#[test]
fn identical_seeds_identical_grids() {
    let cat = catalog_of(vec![
        open_tile("r", &["g", "b"]),
        open_tile("g", &["r", "b"]),
        open_tile("b", &["r", "g"]),
    ]);
    let mut first = initialize(6, 6, &cat);
    let mut second = initialize(6, 6, &cat);
    let mut rng1 = RandomSource::with_seed(123456789);
    let mut rng2 = RandomSource::with_seed(123456789);
    solve_fully(&mut first, &cat, &mut rng1);
    solve_fully(&mut second, &cat, &mut rng2);
    for y in 0..6 {
        for x in 0..6 {
            assert_eq!(domain(&first, x, y), domain(&second, x, y));
        }
    }
    assert_eq!(rng1, rng2);
}

/// Different seeds reach different final grids at least once.
#[test]
fn different_seeds_vary() {
    let cat = catalog_of(vec![
        open_tile("r", &["g", "b"]),
        open_tile("g", &["r", "b"]),
        open_tile("b", &["r", "g"]),
    ]);
    let mut base = initialize(4, 4, &cat);
    let mut rng = RandomSource::with_seed(0);
    solve_fully(&mut base, &cat, &mut rng);
    let mut varied = false;
    for seed in 1..16 {
        let mut other = initialize(4, 4, &cat);
        let mut r = RandomSource::with_seed(seed);
        solve_fully(&mut other, &cat, &mut r);
        for y in 0..4 {
            for x in 0..4 {
                if domain(&base, x, y) != domain(&other, x, y) {
                    varied = true;
                }
            }
        }
    }
    assert!(varied);
}

/// Propagation correctness: after collapsing the left cell, the right
/// neighbor's domain is exactly its prior domain intersected with what the
/// collapsed tile permits to its right, and the far cell is narrowed only
/// through the chain.
#[test]
fn propagation_reduces_to_intersection() {
    // "a" permits only "b" rightwards; "b" permits "a" and "c"; "c"
    // permits everything.
    let mut a = tile("a");
    a.friends_right = ids(&["b"]);
    a.friends_left = ids(&["b", "c"]);
    let mut b = tile("b");
    b.friends_right = ids(&["a", "c"]);
    b.friends_left = ids(&["a", "c"]);
    let mut c = tile("c");
    c.friends_right = ids(&["a", "b", "c"]);
    c.friends_left = ids(&["a", "b", "c"]);
    let cat = catalog_of(vec![a, b, c]);
    // Find a seed whose first collapse picks "a" in the left cell.
    let mut seen = false;
    for seed in 0..64 {
        let mut grid = initialize(2, 1, &cat);
        let mut rng = RandomSource::with_seed(seed);
        assert!(step(&mut grid, &cat, &mut rng));
        let left = domain(&grid, 0, 0);
        let right = domain(&grid, 1, 0);
        assert_eq!(left.len(), 1);
        match left[0].as_str() {
            // prior domain [a, b, c] intersected with a.friends_right [b]
            "a" => {
                assert_eq!(right, ids(&["b"]));
                seen = true;
            },
            // intersected with b.friends_right [a, c], order preserved
            "b" => assert_eq!(right, ids(&["a", "c"])),
            // intersected with everything: unchanged
            "c" => assert_eq!(right, ids(&["a", "b", "c"])),
            other => panic!("unexpected tile {}", other),
        }
    }
    assert!(seen);
}

/// Reset restores every cell to the full identifier set, in catalog order.
#[test]
fn reset_restores_full_domains() {
    let cat = catalog_of(vec![
        open_tile("r", &["g", "b"]),
        open_tile("g", &["r", "b"]),
        open_tile("b", &["r", "g"]),
    ]);
    let all = cat.all_ids();
    let mut grid = initialize(3, 3, &cat);
    let mut rng = RandomSource::with_seed(2);
    solve_fully(&mut grid, &cat, &mut rng);
    assert!(grid.is_settled());
    reset(&mut grid, &all);
    for y in 0..3 {
        for x in 0..3 {
            assert_eq!(domain(&grid, x, y), ids(&["r", "g", "b"]));
        }
    }
}

/// Weighted draw: with a collapsed neighbor weighting "p" three times as
/// heavily as "q", the empirical pick ratio over many seeded runs comes
/// out near three to one.
#[test]
fn weighted_draw_follows_weights() {
    let mut anchor = tile("L");
    anchor.friends_right = ids(&["p", "q"]);
    anchor.weights_right = Some(vec![("p".to_string(), 3), ("q".to_string(), 1)]);
    let mut p = tile("p");
    p.friends_left = ids(&["L"]);
    let mut q = tile("q");
    q.friends_left = ids(&["L"]);
    let cat = catalog_of(vec![anchor, p, q]);
    let mut picked_p = 0usize;
    let mut picked_q = 0usize;
    for seed in 0..3000 {
        let mut grid = initialize(2, 1, &cat);
        let mut rng = RandomSource::with_seed(seed);
        assert!(step(&mut grid, &cat, &mut rng));
        if domain(&grid, 0, 0) != ids(&["L"]) {
            continue;
        }
        assert_eq!(domain(&grid, 1, 0), ids(&["p", "q"]));
        assert!(step(&mut grid, &cat, &mut rng));
        let got = domain(&grid, 1, 0);
        assert_eq!(got.len(), 1);
        match got[0].as_str() {
            "p" => picked_p += 1,
            "q" => picked_q += 1,
            other => panic!("unexpected pick {}", other),
        }
    }
    let total = picked_p + picked_q;
    assert!(total > 300, "too few anchored runs: {}", total);
    let frac = picked_p as f64 / total as f64;
    assert!(
        frac > 0.65 && frac < 0.85,
        "expected about three to one, got {} of {}",
        picked_p,
        total
    );
}

/// A candidate whose table weight is zero is clamped up to weight one and
/// so still carries selection mass.
#[test]
fn zero_weight_clamped_to_one() {
    let mut anchor = tile("L");
    anchor.friends_right = ids(&["p", "q"]);
    anchor.weights_right = Some(vec![("p".to_string(), 0), ("q".to_string(), 5)]);
    let mut p = tile("p");
    p.friends_left = ids(&["L"]);
    let mut q = tile("q");
    q.friends_left = ids(&["L"]);
    let cat = catalog_of(vec![anchor, p, q]);
    let mut picked_p = 0usize;
    let mut anchored = 0usize;
    for seed in 0..4000 {
        let mut grid = initialize(2, 1, &cat);
        let mut rng = RandomSource::with_seed(seed);
        assert!(step(&mut grid, &cat, &mut rng));
        if domain(&grid, 0, 0) != ids(&["L"]) {
            continue;
        }
        anchored += 1;
        assert!(step(&mut grid, &cat, &mut rng));
        if domain(&grid, 1, 0) == ids(&["p"]) {
            picked_p += 1;
        }
    }
    assert!(anchored > 300);
    // weight 1 against 250: rare but never impossible
    assert!(picked_p > 0, "clamped candidate was never selected");
    assert!(picked_p * 20 < anchored, "clamped candidate selected far too often");
}

/// The snapshot accessor reflects the grid without mutating it.
#[test]
fn snapshot_accessor_reads_only() {
    let cat = catalog_of(vec![open_tile("r", &["g"]), open_tile("g", &["r"])]);
    let grid = initialize(2, 2, &cat);
    for y in 0..2 {
        for x in 0..2 {
            assert_eq!(grid.cell(x, y), &ids(&["r", "g"]));
            assert_eq!(grid.domain_len(x, y), 2);
        }
    }
}

/// The seeded source replays the same draw sequence for the same seed.
#[test]
fn random_source_replays() {
    let mut a = RandomSource::with_seed(99);
    let mut b = RandomSource::with_seed(99);
    for n in [2u64, 3, 7, 100, 1000] {
        let x = a.next_below(n);
        let y = b.next_below(n);
        assert_eq!(x, y);
        assert!(x < n);
    }
    let mut c = RandomSource::from_entropy();
    assert!(c.next_below(10) < 10);
}
