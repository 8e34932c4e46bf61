use rgctl_analysis::blast_slice_handoff::{
    dedupe_seeds, filter_handoff_seeds_by_index, resolve_handoff_seeds_for_indices, resolve_handoff_seeds_with_call_graph,
    SliceHandoffSeed,
};
use rgctl_analysis::callgraph::{CallGraph, FunctionRecord, GraphEdgeRecord};

fn func(id: u128, name: &str, params: &[&str]) -> FunctionRecord {
    FunctionRecord { id, name: name.into(), file_path: None, start_line: None, parameters: params.iter().map(|p| p.to_string()).collect() }
}

fn call(from: u128, to: u128, line: &str) -> GraphEdgeRecord {
    GraphEdgeRecord {
        from,
        to,
        is_call: true,
        call_type: None,
        properties: vec![("call_site_line".to_string(), line.to_string())],
    }
}

fn names() -> Vec<(u128, String)> {
    vec![(1, "symbol".into()), (2, "direct".into()), (3, "impacted".into()), (4, "outer".into())]
}

/// 2 -> 1 (line 10, twice at the same line), 1 -> 3 (line 20), 4 -> 3 (line 30)
fn graph() -> CallGraph {
    let functions = vec![func(1, "symbol", &["a", "b"]), func(2, "direct", &[]), func(3, "impacted", &["p"]), func(4, "outer", &[])];
    let edges = vec![call(2, 1, "10"), call(2, 1, "10"), call(1, 3, "20"), call(4, 3, "30")];
    CallGraph::from_backend(&functions, &edges)
}

fn keys(seeds: &[SliceHandoffSeed]) -> Vec<(u128, u128, String, usize, usize)> {
    seeds.iter().map(|s| (s.caller_id, s.callee_id, s.param_name.clone(), s.param_index, s.call_site_line)).collect()
}

#[test]
fn seeds_from_direct_callers_and_impact_zone() {
    let cg = graph();
    let seeds = resolve_handoff_seeds_with_call_graph(&names(), &cg, &vec![2], &vec![2, 3], 1, &"symbol".to_string());
    assert_eq!(
        keys(&seeds),
        vec![
            (2, 1, "a".to_string(), 0, 10),
            (2, 1, "b".to_string(), 1, 10),
            (1, 3, "p".to_string(), 0, 20),
        ]
    );
    assert_eq!(seeds[0].caller_name, "direct");
    assert_eq!(seeds[2].callee_name, "impacted");
}

#[test]
fn parameterless_symbol_gets_input_seed() {
    let functions = vec![func(1, "symbol", &[]), func(2, "direct", &[])];
    let cg = CallGraph::from_backend(&functions, &vec![call(2, 1, "5")]);
    let seeds = resolve_handoff_seeds_with_call_graph(&names(), &cg, &vec![2], &vec![], 1, &"symbol".to_string());
    assert_eq!(keys(&seeds), vec![(2, 1, "input".to_string(), 0, 5)]);
}

#[test]
fn filtering_by_parameter_index() {
    let cg = graph();
    let seeds = resolve_handoff_seeds_with_call_graph(&names(), &cg, &vec![2], &vec![3], 1, &"symbol".to_string());
    let second = filter_handoff_seeds_by_index(&seeds, 1);
    assert_eq!(keys(&second), vec![(2, 1, "b".to_string(), 1, 10)]);
    let firsts = resolve_handoff_seeds_for_indices(&names(), &cg, &vec![2], &vec![3], 1, &"symbol".to_string(), &[0]);
    assert_eq!(keys(&firsts), vec![(2, 1, "a".to_string(), 0, 10), (1, 3, "p".to_string(), 0, 20)]);
}

#[test]
fn dedupe_keeps_first_of_each_identity() {
    let seed = |name: &str, line: usize| SliceHandoffSeed {
        callee_id: 1,
        callee_name: "f".into(),
        caller_id: 2,
        caller_name: "g".into(),
        param_name: name.into(),
        param_index: 0,
        call_site_line: line,
    };
    let out = dedupe_seeds(vec![seed("x", 1), seed("y", 1), seed("z", 2)]);
    assert_eq!(keys(&out), vec![(2, 1, "x".to_string(), 0, 1), (2, 1, "z".to_string(), 0, 2)]);
}
