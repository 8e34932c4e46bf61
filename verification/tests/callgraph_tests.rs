use rgctl_analysis::callgraph::{parse_argument_names, CallGraph, CallType, FunctionRecord, GraphEdgeRecord, TopologicalOrderError};

fn func(id: u128, name: &str, params: &[&str]) -> FunctionRecord {
    FunctionRecord {
        id,
        name: name.to_string(),
        file_path: Some(format!("src/{name}.rs")),
        start_line: Some(id as usize * 10),
        parameters: params.iter().map(|p| p.to_string()).collect(),
    }
}

fn call(from: u128, to: u128, props: &[(&str, &str)]) -> GraphEdgeRecord {
    GraphEdgeRecord {
        from,
        to,
        is_call: true,
        call_type: None,
        properties: props.iter().map(|(k, v)| (k.to_string(), v.to_string())).collect(),
    }
}

fn sample_call_graph() -> CallGraph {
    let functions = vec![func(1, "main", &[]), func(2, "helper", &["x"])];
    let edges = vec![call(1, 2, &[])];
    CallGraph::from_backend(&functions, &edges)
}

#[test]
fn test_call_graph_from_backend() {
    let cg = sample_call_graph();
    assert_eq!(cg.function_count(), 2);
    assert_eq!(cg.call_edge_count(), 1);
}

#[test]
fn test_callers_and_callees() {
    let cg = sample_call_graph();
    let main_id = cg.id_by_name("main").unwrap();
    let helper_id = cg.id_by_name("helper").unwrap();
    assert_eq!(cg.callees(main_id), vec![helper_id]);
    assert_eq!(cg.callers(helper_id), vec![main_id]);
    assert_eq!(cg.name(helper_id), Some("helper"));
    assert_eq!(cg.parameter_at(helper_id, 0), Some("x"));
    assert_eq!(cg.parameter_at(helper_id, 1), None);
    assert!(cg.callees(99).is_empty());
    assert_eq!(cg.id_by_name("nobody"), None);
}

#[test]
fn non_call_edges_and_unknown_nodes_are_skipped() {
    let functions = vec![func(1, "a", &[]), func(2, "b", &[])];
    let mut other = call(1, 2, &[]);
    other.is_call = false;
    let edges = vec![other, call(1, 77, &[]), call(2, 1, &[])];
    let cg = CallGraph::from_backend(&functions, &edges);
    assert_eq!(cg.call_edge_count(), 1);
    assert_eq!(cg.callees(2), vec![1]);
    assert!(cg.callees(1).is_empty());
    assert_eq!(cg.file_paths[0], "src/a.rs");
    assert_eq!(cg.line_numbers[1], 20);
}

#[test]
fn call_site_metadata_and_arguments() {
    let functions = vec![func(1, "caller", &[]), func(2, "callee", &["a", "b"])];
    let mut e1 = call(1, 2, &[("call_site_line", "42"), ("arg_1", "y"), ("arg_0", "x")]);
    e1.call_type = Some(CallType::Indirect);
    let e2 = call(1, 2, &[("call_site_line", "oops"), ("arg_0", "z"), ("arg_1", "w"), ("arg_2", "v")]);
    let cg = CallGraph::from_backend(&functions, &vec![e1, e2]);
    let edges = cg.call_edges_between(1, 2);
    assert_eq!(edges.len(), 2);
    assert_eq!(edges[0].call_site, 42);
    assert_eq!(edges[0].call_type, CallType::Indirect);
    assert_eq!(edges[0].argument_names, vec![(0, "x".to_string()), (1, "y".to_string())]);
    assert_eq!(edges[1].call_site, 0);
    assert_eq!(edges[1].call_type, CallType::Direct);
    assert_eq!(cg.argument_at_call(1, 2, 0), Some("x".to_string()));
    assert_eq!(cg.argument_at_call(1, 2, 2), Some("v".to_string()));
    assert_eq!(cg.argument_at_call(1, 2, 3), None);
    assert!(cg.call_edges_between(2, 1).is_empty());
}

#[test]
fn parse_argument_names_orders_by_index() {
    let props = vec![("arg_2".to_string(), "c".to_string()), ("other".to_string(), "x".to_string()), ("arg_0".to_string(), "a".to_string())];
    assert_eq!(parse_argument_names(&props), vec![(0, "a".to_string()), (2, "c".to_string())]);
}

#[test]
fn topological_order_puts_callers_first() {
    let functions = vec![func(1, "leaf", &[]), func(2, "mid", &[]), func(3, "root", &[])];
    let edges = vec![call(3, 2, &[]), call(2, 1, &[]), call(3, 1, &[]), call(3, 1, &[])];
    let cg = CallGraph::from_backend(&functions, &edges);
    assert_eq!(cg.topological_order(), Ok(vec![3, 2, 1]));
}

#[test]
fn topological_order_fails_on_cycles() {
    let functions = vec![func(1, "a", &[]), func(2, "b", &[]), func(3, "c", &[])];
    let edges = vec![call(1, 2, &[]), call(2, 1, &[]), call(3, 1, &[])];
    let cg = CallGraph::from_backend(&functions, &edges);
    assert_eq!(cg.topological_order(), Err(TopologicalOrderError::CyclesOrDisconnected));
    let looped = CallGraph::from_backend(&functions, &vec![call(1, 1, &[])]);
    assert!(looped.topological_order().is_err());
}

#[test]
fn recursive_functions_are_those_on_cycles() {
    let functions = vec![func(1, "a", &[]), func(2, "b", &[]), func(3, "c", &[]), func(4, "d", &[])];
    let edges = vec![call(1, 2, &[]), call(2, 1, &[]), call(3, 3, &[]), call(3, 4, &[]), call(4, 1, &[])];
    let cg = CallGraph::from_backend(&functions, &edges);
    let mut rec: Vec<u128> = cg.recursive_functions().into_iter().collect();
    rec.sort();
    assert_eq!(rec, vec![1, 2, 3]);
    let dag = CallGraph::from_backend(&functions, &vec![call(1, 2, &[])]);
    assert!(dag.recursive_functions().is_empty());
}

#[test]
fn legacy_edge_and_node_records() {
    let functions = vec![func(1, "a", &["p"]), func(2, "b", &[]), func(3, "c", &[])];
    let edges = vec![call(1, 2, &[("call_site_line", "12")]), call(1, 3, &[]), call(3, 2, &[])];
    let cg = CallGraph::from_backend(&functions, &edges);
    let all = cg.edges();
    let pairs: Vec<(u128, u128)> = all.iter().map(|e| (e.from, e.to)).collect();
    assert_eq!(pairs, vec![(1, 2), (1, 3), (3, 2)]);
    assert_eq!(all[0].call_site, 12);
    assert_eq!(all[0].call_type, CallType::Direct);
    let nodes = cg.nodes();
    assert_eq!(nodes.len(), 3);
    let a = &nodes[&1];
    assert_eq!(a.name, "a");
    assert_eq!(a.file_path, "src/a.rs");
    assert_eq!(a.start_line, 10);
    assert_eq!(a.parameters, vec!["p".to_string()]);
    assert!(a.qualified_name.is_none());
    assert!(!nodes.contains_key(&9));
}

#[test]
fn argument_names_keep_their_index() {
    let functions = vec![func(1, "f", &[]), func(2, "g", &["p", "q", "r"])];
    let edges = vec![call(1, 2, &[("arg_0", "x"), ("arg_2", "z")])];
    let cg = CallGraph::from_backend(&functions, &edges);
    assert_eq!(cg.argument_at_call(1, 2, 0), Some("x".to_string()));
    assert_eq!(cg.argument_at_call(1, 2, 1), None);
    assert_eq!(cg.argument_at_call(1, 2, 2), Some("z".to_string()));
}
