use rgctl_analysis::community::connected_components;

fn sorted(mut v: Vec<u128>) -> Vec<u128> {
    v.sort_unstable();
    v
}

#[test]
fn components_follow_node_order() {
    let nodes = [5u128, 1, 2, 3, 4, 9];
    let edges = [(1u128, 2u128), (3, 4), (2, 9)];
    let comps = connected_components(&nodes, &edges);
    assert_eq!(comps.len(), 3);
    assert_eq!(comps[0], vec![5]);
    assert_eq!(comps[1][0], 1);
    assert_eq!(sorted(comps[1].clone()), vec![1, 2, 9]);
    assert_eq!(comps[2][0], 3);
    assert_eq!(sorted(comps[2].clone()), vec![3, 4]);
}

#[test]
fn edges_join_both_ways() {
    let comps = connected_components(&[2u128, 1], &[(1u128, 2u128)]);
    assert_eq!(comps.len(), 1);
    assert_eq!(comps[0][0], 2);
    assert_eq!(sorted(comps[0].clone()), vec![1, 2]);
}

#[test]
fn self_loops_and_repeats() {
    let comps = connected_components(&[7u128, 7, 8], &[(7u128, 7u128), (8, 8), (8, 8)]);
    assert_eq!(comps, vec![vec![7], vec![8]]);
}

#[test]
fn no_nodes_no_components() {
    assert!(connected_components(&[], &[(1u128, 2u128)]).is_empty());
}
