use conservation_spectral_topology::cycles::{compute_cycle_metrics, CycleMetrics};

fn make_adjacency(pairs: &[(&str, &[&str])]) -> Vec<(String, Vec<String>)> {
    pairs
        .iter()
        .map(|(k, v)| (k.to_string(), v.iter().map(|s| s.to_string()).collect()))
        .collect()
}

fn value(numerator: u128, denominator: u128) -> f64 {
    numerator as f64 / denominator as f64
}

fn cycle_density(m: &CycleMetrics) -> f64 {
    value(m.cycle_density.numerator, m.cycle_density.denominator)
}

fn edge_density(m: &CycleMetrics) -> f64 {
    value(m.edge_density.numerator, m.edge_density.denominator)
}

#[test]
fn test_empty_graph() {
    let adj = Vec::new();
    let metrics = compute_cycle_metrics(&adj);
    assert_eq!(metrics.self_calls, 0);
    assert_eq!(metrics.mutual_call_pairs, 0);
    assert_eq!(metrics.total_edges, 0);
    // total_nodes uses max(1) for edge_density calc, but 0 for an empty adj
    assert!(metrics.total_nodes <= 1);
}

#[test]
fn test_self_call() {
    let adj = make_adjacency(&[("foo", &["foo", "bar"]), ("bar", &["baz"]), ("baz", &[])]);
    let metrics = compute_cycle_metrics(&adj);
    assert_eq!(metrics.self_calls, 1); // foo calls itself
    assert_eq!(metrics.mutual_call_pairs, 0);
    assert_eq!(metrics.total_edges, 3);
}

#[test]
fn test_mutual_call_pair() {
    let adj = make_adjacency(&[("A", &["B"]), ("B", &["A"])]);
    let metrics = compute_cycle_metrics(&adj);
    assert_eq!(metrics.self_calls, 0);
    assert_eq!(metrics.mutual_call_pairs, 1);
    assert_eq!(metrics.total_edges, 2);
    assert!((cycle_density(&metrics) - 0.5).abs() < 1e-10);
}

#[test]
fn test_mutual_call_no_double_count() {
    let adj = make_adjacency(&[("A", &["B", "C"]), ("B", &["A"]), ("C", &["A"])]);
    let metrics = compute_cycle_metrics(&adj);
    assert_eq!(metrics.mutual_call_pairs, 2); // A↔B and A↔C
}

#[test]
fn test_cycle_density() {
    // 2 self-calls + 1 mutual pair = 3 cyclic, out of 6 total edges
    let adj = make_adjacency(&[("A", &["A", "B"]), ("B", &["A", "B", "C"]), ("C", &["A"])]);
    let metrics = compute_cycle_metrics(&adj);
    assert_eq!(metrics.self_calls, 2); // A and B call themselves
    assert_eq!(metrics.mutual_call_pairs, 1); // A↔B
    assert_eq!(metrics.total_edges, 6);
    assert!((cycle_density(&metrics) - 3.0 / 6.0).abs() < 1e-10);
}

#[test]
fn test_hub_detection() {
    // Create a graph where one node has very high in-degree
    let mut adj = Vec::new();
    adj.push(("hub".to_string(), vec![]));
    for i in 0..20 {
        let caller = format!("caller_{}", i);
        adj.push((caller.clone(), vec!["hub".to_string()]));
    }
    let metrics = compute_cycle_metrics(&adj);
    // hub has in-degree 20, all others have 0 or 1
    // mean ≈ 20/21 ≈ 0.95, std should be moderate, hub should be detected
    assert!(metrics.hub_count >= 1, "hub should be detected, got {}", metrics.hub_count);
}

#[test]
fn test_edge_density() {
    let adj = make_adjacency(&[("A", &["B"]), ("B", &["A"])]);
    let metrics = compute_cycle_metrics(&adj);
    // 2 nodes, 2 edges, possible = 2*1 = 2, density = 1.0
    assert!((edge_density(&metrics) - 1.0).abs() < 1e-10);
}

#[test]
fn test_edge_density_sparse() {
    let adj = make_adjacency(&[("A", &["B"]), ("B", &[]), ("C", &[])]);
    let metrics = compute_cycle_metrics(&adj);
    // 3 nodes, 1 edge, possible = 3*2 = 6, density = 1/6
    assert!((edge_density(&metrics) - 1.0 / 6.0).abs() < 1e-10);
}

#[test]
fn test_nodes_from_callees_only() {
    // Node "C" never appears as a caller but is a callee — should be counted
    let adj = make_adjacency(&[("A", &["B", "C"]), ("B", &[])]);
    let metrics = compute_cycle_metrics(&adj);
    assert_eq!(metrics.total_nodes, 3); // A, B, C
    assert_eq!(metrics.total_edges, 2);
}

#[test]
fn test_single_node() {
    let adj = make_adjacency(&[("A", &[])]);
    let metrics = compute_cycle_metrics(&adj);
    assert_eq!(metrics.total_nodes, 1);
    assert_eq!(metrics.total_edges, 0);
    assert_eq!(edge_density(&metrics), 0.0);
}

#[test]
fn hub_detection_exact_count() {
    // hub: in-degree 20 among 21 nodes; the callers have in-degree 0
    let mut adj = vec![("hub".to_string(), vec![])];
    for i in 0..20 {
        adj.push((format!("caller_{}", i), vec!["hub".to_string()]));
    }
    let metrics = compute_cycle_metrics(&adj);
    assert_eq!(metrics.hub_count, 1);
    assert_eq!(metrics.total_nodes, 21);
    assert_eq!(metrics.total_edges, 20);
}

#[test]
fn no_hub_when_in_degrees_are_equal() {
    // a directed ring: every in-degree is 1, the standard deviation is 0
    let adj = make_adjacency(&[("A", &["B"]), ("B", &["C"]), ("C", &["A"])]);
    let metrics = compute_cycle_metrics(&adj);
    assert_eq!(metrics.hub_count, 0);
    assert_eq!(metrics.self_calls, 0);
    assert_eq!(metrics.mutual_call_pairs, 0);
}

#[test]
fn hub_needs_more_than_two_standard_deviations() {
    // star with 4 leaves: in-degrees [4, 0, 0, 0, 0]; mean 0.8, std 1.6,
    // threshold 0.8 + 3.2 = 4.0, and 4 is not above it
    let adj = make_adjacency(&[
        ("c", &[]),
        ("l1", &["c"]),
        ("l2", &["c"]),
        ("l3", &["c"]),
        ("l4", &["c"]),
    ]);
    let metrics = compute_cycle_metrics(&adj);
    assert_eq!(metrics.hub_count, 0);
    // with 5 leaves: mean 5/6, std sqrt(125)/6 ≈ 1.86, threshold ≈ 4.56 < 5
    let adj = make_adjacency(&[
        ("c", &[]),
        ("l1", &["c"]),
        ("l2", &["c"]),
        ("l3", &["c"]),
        ("l4", &["c"]),
        ("l5", &["c"]),
    ]);
    let metrics = compute_cycle_metrics(&adj);
    assert_eq!(metrics.hub_count, 1);
}

#[test]
fn repeated_callees_count_as_separate_edges() {
    let adj = make_adjacency(&[("A", &["B", "B", "A", "A"]), ("B", &["A"])]);
    let metrics = compute_cycle_metrics(&adj);
    assert_eq!(metrics.total_edges, 5);
    assert_eq!(metrics.self_calls, 1);
    assert_eq!(metrics.mutual_call_pairs, 1);
    assert_eq!(metrics.total_nodes, 2);
    assert_eq!(metrics.cycle_density.numerator, 2);
    assert_eq!(metrics.cycle_density.denominator, 5);
    assert_eq!(metrics.edge_density.numerator, 5);
    assert_eq!(metrics.edge_density.denominator, 2);
}

#[test]
fn mutual_pairs_need_both_directions_between_callers() {
    // "C" is called by A and calls A, but is a callee-only name for B
    let adj = make_adjacency(&[("A", &["B", "C"]), ("B", &["C"]), ("C", &["A"])]);
    let metrics = compute_cycle_metrics(&adj);
    assert_eq!(metrics.mutual_call_pairs, 1); // only A↔C
    // "D" only appears as a callee, so it cannot call back
    let adj = make_adjacency(&[("A", &["D"])]);
    assert_eq!(compute_cycle_metrics(&adj).mutual_call_pairs, 0);
}

#[test]
fn metrics_do_not_depend_on_entry_order() {
    let forward = make_adjacency(&[("A", &["A", "B"]), ("B", &["A", "B", "C"]), ("C", &["A"])]);
    let mut backward = forward.clone();
    backward.reverse();
    let a = compute_cycle_metrics(&forward);
    let b = compute_cycle_metrics(&backward);
    assert_eq!(a.self_calls, b.self_calls);
    assert_eq!(a.mutual_call_pairs, b.mutual_call_pairs);
    assert_eq!(a.hub_count, b.hub_count);
    assert_eq!(a.total_nodes, b.total_nodes);
    assert_eq!(a.total_edges, b.total_edges);
    assert_eq!(a.cycle_density, b.cycle_density);
    assert_eq!(a.edge_density, b.edge_density);
}

#[test]
fn empty_graph_densities_are_zero_over_one() {
    let metrics = compute_cycle_metrics(&Vec::new());
    assert_eq!(metrics.total_nodes, 0);
    assert_eq!(metrics.hub_count, 0);
    assert_eq!(metrics.cycle_density.numerator, 0);
    assert_eq!(metrics.cycle_density.denominator, 1);
    assert_eq!(metrics.edge_density.numerator, 0);
    assert_eq!(metrics.edge_density.denominator, 1);
}
