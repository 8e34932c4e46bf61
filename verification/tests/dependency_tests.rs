use rgctl_analysis::dependency::{DependencyAnalyzer, TraversalConfig, DEFAULT_TRAVERSAL_DEPTH};

#[test]
fn test_circular_dependency_detection() {
    // a = 0, b = 1; a calls b and b calls a.
    let succ = vec![vec![1u32], vec![0u32]];
    let calls = vec![vec![1u32], vec![0u32]];
    let cycles = DependencyAnalyzer::find_circular_dependencies_with_lookup(&succ, &calls);
    assert!(!cycles.is_empty());
    assert!(cycles[0].nodes.len() >= 2);
}

#[test]
fn test_find_callers() {
    // main = 0 calls target = 1; predecessor lists.
    let preds = vec![vec![], vec![0u32]];
    let callers = DependencyAnalyzer::find_callers(&preds, 1);
    assert!(callers.contains(&0));
}

#[test]
fn default_traversal_depth_is_ten() {
    assert_eq!(DEFAULT_TRAVERSAL_DEPTH, 10);
    assert_eq!(TraversalConfig::default_config().max_depth, 10);
}

#[test]
fn impact_radius_respects_traversal_config() {
    // f0 -> f1 -> ... -> f11; predecessors of f(i+1) are [f(i)].
    let mut preds: Vec<Vec<u32>> = vec![Vec::new(); 12];
    for i in 0..11u32 {
        preds[(i + 1) as usize].push(i);
    }
    let limited = DependencyAnalyzer::calculate_impact_radius_with_view(&preds, 11, TraversalConfig::default_config());
    let full = DependencyAnalyzer::calculate_impact_radius_with_view(&preds, 11, TraversalConfig::unlimited());
    assert!(full.affected_nodes.contains(&0));
    assert!(!limited.affected_nodes.contains(&0));
    assert_eq!(limited.affected_nodes, (1..11).collect::<Vec<u32>>());
    assert_eq!(limited.max_depth, 10);
    assert_eq!(full.max_depth, 11);
}

#[test]
fn cycle_without_a_call_edge_is_not_reported() {
    // 0 and 1 reference each other, but only 2 -> 3 -> 2 are calls.
    let succ = vec![vec![1u32], vec![0u32], vec![3u32], vec![2u32]];
    let calls = vec![vec![], vec![], vec![3u32], vec![2u32]];
    let cycles = DependencyAnalyzer::find_circular_dependencies_with_lookup(&succ, &calls);
    assert_eq!(cycles.len(), 1);
    let mut nodes = cycles[0].nodes.clone();
    nodes.sort();
    assert_eq!(nodes, vec![2, 3]);
}

#[test]
fn self_loop_is_no_circular_dependency() {
    let succ = vec![vec![0u32]];
    let calls = vec![vec![0u32]];
    assert!(DependencyAnalyzer::find_circular_dependencies_with_lookup(&succ, &calls).is_empty());
}

#[test]
fn impact_radius_excludes_the_source_on_a_cycle() {
    // 0 -> 1 -> 0: the only dependent of 0 is 1, one step away.
    let preds = vec![vec![1u32], vec![0u32]];
    let r = DependencyAnalyzer::calculate_impact_radius_with_view(&preds, 0, TraversalConfig::unlimited());
    assert_eq!(r.source, 0);
    assert_eq!(r.affected_nodes, vec![1]);
    assert_eq!(r.max_depth, 1);
    let lonely = DependencyAnalyzer::calculate_impact_radius_with_view(&vec![vec![]], 0, TraversalConfig::default_config());
    assert!(lonely.affected_nodes.is_empty());
    assert_eq!(lonely.max_depth, 0);
}

#[test]
fn impact_radius_default_depth_is_ten_steps() {
    let mut preds: Vec<Vec<u32>> = vec![Vec::new(); 12];
    for i in 0..11u32 {
        preds[(i + 1) as usize].push(i);
    }
    let r = DependencyAnalyzer::calculate_impact_radius(&preds, 11);
    assert_eq!(r.affected_nodes, (1..11).collect::<Vec<u32>>());
    assert_eq!(r.max_depth, 10);
}
