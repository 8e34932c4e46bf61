use rgctl_analysis::blast_engine_snapshot::RowSource;
use rgctl_analysis::blast_radius_scc::{build_from_view_lookup, ImpactError};

#[test]
fn condensation_groups_cycles_and_links_components() {
    // 0 <-> 1 -> 2 <- 3
    let succ: Vec<Vec<u32>> = vec![vec![1], vec![0, 2], vec![], vec![2]];
    let info = vec![Some(false), Some(true), None, Some(false)];
    let c = build_from_view_lookup(&succ, &info);
    assert_eq!(c.members.len(), 3);
    assert!(matches!(c.rows, RowSource::Eager { .. }));
    let s01 = c.node_scc[0];
    let s2 = c.node_scc[2];
    let s3 = c.node_scc[3];
    assert_eq!(c.node_scc[1], s01);
    assert!(s01 != s2 && s2 != s3 && s01 != s3);
    let mut pair = c.members[s01].clone();
    pair.sort();
    assert_eq!(pair, vec![0, 1]);
    assert_eq!(c.representative[s01], Some(1));
    assert_eq!(c.representative[s2], None);
    assert_eq!(c.representative[s3], Some(3));
    let mut dag = c.dag_edges.clone();
    dag.sort();
    let mut expected = vec![(s01, s2), (s3, s2)];
    expected.sort();
    assert_eq!(dag, expected);
    let mut upstream = c.rows.row(s2).unwrap().members();
    upstream.sort();
    let mut want = vec![s01, s2, s3];
    want.sort();
    assert_eq!(upstream, want);
    assert_eq!(c.rows.row(s3).unwrap().members(), vec![s3]);
}

#[test]
fn impact_zone_is_everything_upstream() {
    let succ: Vec<Vec<u32>> = vec![vec![1], vec![0, 2], vec![], vec![2]];
    let info = vec![Some(true); 4];
    let c = build_from_view_lookup(&succ, &info);
    let z = c.impact_zone(2).unwrap();
    assert_eq!(z.scc_id, c.node_scc[2]);
    assert_eq!(z.scc_size, 1);
    let mut impact = z.impact.clone();
    impact.sort();
    assert_eq!(impact, vec![0, 1, 3]);
    let mut direct = z.direct_callers.clone();
    direct.sort();
    assert_eq!(direct, vec![0, 1, 3]);
    let z0 = c.impact_zone(0).unwrap();
    assert_eq!(z0.scc_size, 2);
    assert_eq!(z0.impact, vec![1]);
    assert!(z0.direct_callers.is_empty());
    assert!(c.impact_zone(3).unwrap().impact.is_empty());
    assert_eq!(c.impact_zone(9).err(), Some(ImpactError::NodeNotFound { node: 9 }));
}

#[test]
fn flat_call_graphs_walk_rows_on_demand() {
    // 0 -> 1 -> 2: every node is its own component.
    let succ: Vec<Vec<u32>> = vec![vec![1], vec![2], vec![]];
    let info = vec![Some(true); 3];
    let c = build_from_view_lookup(&succ, &info);
    assert!(matches!(c.rows, RowSource::OnDemand { .. }));
    let mut impact = c.impact_zone(2).unwrap().impact;
    impact.sort();
    assert_eq!(impact, vec![0, 1]);
    assert_eq!(c.impact_zone(1).unwrap().direct_callers, vec![0]);
    // Callee components are listed before their callers.
    assert!(c.node_scc[2] < c.node_scc[1] && c.node_scc[1] < c.node_scc[0]);
}

// a -> b -> c -> d
fn chain_calls() -> Vec<Vec<u32>> {
    vec![vec![1], vec![2], vec![3], vec![]]
}

#[test]
fn test_scc_chain() {
    let succ = chain_calls();
    let c = build_from_view_lookup(&succ, &vec![Some(true); 4]);
    assert_eq!(c.members.len(), 4);
    assert_eq!(c.dag_edges.len(), 3);
}

#[test]
fn test_scc_with_cycle() {
    let mut succ = chain_calls();
    succ[3].push(1); // d -> b
    let c = build_from_view_lookup(&succ, &vec![Some(true); 4]);
    assert_eq!(c.members.len(), 2);
    let large = c.members.iter().find(|m| m.len() == 3).expect("Should have SCC with 3 members");
    assert_eq!(large.len(), 3);
}

#[test]
fn test_blast_radius_lookup() {
    let succ = chain_calls();
    let c = build_from_view_lookup(&succ, &vec![Some(true); 4]);
    let z = c.impact_zone(3).unwrap();
    assert_eq!(z.direct_callers.len(), 1);
    assert_eq!(z.direct_callers, vec![2]);
    assert_eq!(z.impact.len(), 3);
    assert!(!z.impact.contains(&3));
}
