use conservation_spectral_topology::compiler::{dead_code_elimination, jit_compile, Tile};

fn make_tile(id: usize, score: f64, visits: usize, history: Vec<f64>) -> Tile<f64> {
    Tile {
        id,
        score,
        visit_count: visits,
        score_history: history,
    }
}

fn ratio_value(numerator: u128, denominator: u128) -> f64 {
    numerator as f64 / denominator as f64
}

// The default JIT visit threshold of the compiler configuration.
const DEFAULT_JIT_VISIT_THRESHOLD: usize = 10;

#[test]
fn test_dce_removes_zero_visits() {
    let tiles = vec![
        make_tile(0, 1.0, 5, vec![1.0, 1.0, 1.0]),
        make_tile(1, 2.0, 0, vec![2.0]),
        make_tile(2, 3.0, 3, vec![3.0, 3.0]),
    ];
    let result = dead_code_elimination(tiles);
    assert_eq!(result.alive_tiles.len(), 2);
    assert_eq!(result.eliminated_tiles.len(), 1);
    assert_eq!(result.eliminated_tiles[0].id, 1);
    let r = result.elimination_ratio;
    assert!((ratio_value(r.numerator, r.denominator) - 1.0 / 3.0).abs() < 1e-10);
}

#[test]
fn test_dce_no_elimination() {
    let tiles = vec![make_tile(0, 1.0, 1, vec![]), make_tile(1, 2.0, 2, vec![])];
    let result = dead_code_elimination(tiles);
    assert_eq!(result.alive_tiles.len(), 2);
    assert_eq!(result.eliminated_tiles.len(), 0);
    let r = result.elimination_ratio;
    assert!((ratio_value(r.numerator, r.denominator)).abs() < 1e-10);
}

#[test]
fn test_dce_all_dead() {
    let tiles = vec![make_tile(0, 1.0, 0, vec![]), make_tile(1, 2.0, 0, vec![])];
    let result = dead_code_elimination(tiles);
    assert_eq!(result.alive_tiles.len(), 0);
    assert_eq!(result.eliminated_tiles.len(), 2);
    let r = result.elimination_ratio;
    assert!((ratio_value(r.numerator, r.denominator) - 1.0).abs() < 1e-10);
}

#[test]
fn test_dce_empty() {
    let result = dead_code_elimination(Vec::<Tile<f64>>::new());
    assert_eq!(result.alive_tiles.len(), 0);
    let r = result.elimination_ratio;
    assert!((ratio_value(r.numerator, r.denominator)).abs() < 1e-10);
}

#[test]
fn test_jit_above_threshold() {
    let tiles = vec![make_tile(0, 1.0, 20, vec![]), make_tile(1, 2.0, 50, vec![])];
    let result = jit_compile(tiles, DEFAULT_JIT_VISIT_THRESHOLD);
    assert_eq!(result.compiled_tiles.len(), 2);
    assert_eq!(result.deferred_tiles.len(), 0);
}

#[test]
fn test_jit_below_threshold() {
    let tiles = vec![make_tile(0, 1.0, 5, vec![]), make_tile(1, 2.0, 9, vec![])];
    let result = jit_compile(tiles, DEFAULT_JIT_VISIT_THRESHOLD);
    assert_eq!(result.compiled_tiles.len(), 0);
    assert_eq!(result.deferred_tiles.len(), 2);
}

#[test]
fn test_jit_mixed() {
    let tiles = vec![
        make_tile(0, 1.0, 5, vec![]),
        make_tile(1, 2.0, 15, vec![]),
        make_tile(2, 3.0, 10, vec![]),
    ];
    let result = jit_compile(tiles, DEFAULT_JIT_VISIT_THRESHOLD);
    assert_eq!(result.compiled_tiles.len(), 2);
    assert_eq!(result.deferred_tiles.len(), 1);
}

#[test]
fn dce_keeps_input_order_and_payloads() {
    let tiles = vec![
        make_tile(7, 0.5, 0, vec![0.5]),
        make_tile(3, 1.5, 2, vec![1.0, 2.0]),
        make_tile(9, 2.5, 0, vec![]),
        make_tile(1, 3.5, 1, vec![3.5]),
    ];
    let result = dead_code_elimination(tiles);
    let alive: Vec<usize> = result.alive_tiles.iter().map(|t| t.id).collect();
    let dead: Vec<usize> = result.eliminated_tiles.iter().map(|t| t.id).collect();
    assert_eq!(alive, vec![3, 1]);
    assert_eq!(dead, vec![7, 9]);
    assert_eq!(result.alive_tiles[0].score_history, vec![1.0, 2.0]);
    assert_eq!(result.alive_tiles[1].score, 3.5);
    assert_eq!(result.elimination_ratio.numerator, 2);
    assert_eq!(result.elimination_ratio.denominator, 4);
}

#[test]
fn dce_empty_ratio_has_denominator_one() {
    let result = dead_code_elimination(Vec::<Tile<f64>>::new());
    assert_eq!(result.elimination_ratio.numerator, 0);
    assert_eq!(result.elimination_ratio.denominator, 1);
}

#[test]
fn jit_threshold_is_inclusive() {
    let tiles = vec![make_tile(0, 0.0, 9, vec![]), make_tile(1, 0.0, 10, vec![])];
    let result = jit_compile(tiles, 10);
    assert_eq!(result.compiled_tiles[0].id, 1);
    assert_eq!(result.deferred_tiles[0].id, 0);
    assert_eq!(result.compilation_ratio.numerator, 1);
    assert_eq!(result.compilation_ratio.denominator, 2);
}

#[test]
fn jit_threshold_one_matches_dead_code_elimination() {
    let visits = [0usize, 3, 0, 1, 7];
    let tiles = || -> Vec<Tile<f64>> {
        visits
            .iter()
            .enumerate()
            .map(|(i, &v)| make_tile(i, i as f64, v, vec![]))
            .collect()
    };
    let jit = jit_compile(tiles(), 1);
    let dce = dead_code_elimination(tiles());
    let ids = |v: &Vec<Tile<f64>>| v.iter().map(|t| t.id).collect::<Vec<_>>();
    assert_eq!(ids(&jit.compiled_tiles), ids(&dce.alive_tiles));
    assert_eq!(ids(&jit.deferred_tiles), ids(&dce.eliminated_tiles));
    let all = jit_compile(tiles(), 0);
    assert_eq!(all.compiled_tiles.len(), 5);
    assert_eq!(all.deferred_tiles.len(), 0);
}
