use rgctl_analysis::centrality::{DegreeCentrality, FlatGraphIndex};

fn index() -> FlatGraphIndex {
    FlatGraphIndex {
        node_count: 4,
        flat_edges: vec![(0, 1), (0, 2), (2, 1), (1, 3), (0, 3)],
        participates: vec![true, true, true, true],
    }
}

#[test]
fn degrees_count_edges() {
    let (ins, outs) = index().filtered_degrees();
    assert_eq!(ins, vec![0, 2, 1, 2]);
    assert_eq!(outs, vec![3, 1, 1, 0]);
}

#[test]
fn adjacency_keeps_edge_order() {
    let adj = index().build_out_adj();
    assert_eq!(adj, vec![vec![1, 2, 3], vec![3], vec![1], vec![]]);
}

#[test]
fn csr_rows_match_adjacency() {
    let idx = index();
    let csr = idx.build_out_csr();
    assert_eq!(csr.offsets, vec![0, 3, 4, 5, 5]);
    assert_eq!(csr.targets, vec![1, 2, 3, 3, 1]);
    let adj = idx.build_out_adj();
    for v in 0..4usize {
        let row: Vec<usize> = csr.neighbors(v).iter().map(|&x| x as usize).collect();
        assert_eq!(row, adj[v]);
    }
}

#[test]
fn degree_centrality_pairs() {
    let d = DegreeCentrality::compute(&index());
    assert_eq!(d, vec![(0, 3), (2, 1), (1, 1), (2, 0)]);
}
