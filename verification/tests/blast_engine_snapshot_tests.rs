use rgctl_analysis::blast_engine_snapshot::{snapshot_header, snapshot_payload_range, SnapshotFrameError};
use rgctl_analysis::blast_engine_snapshot::{
    bitset_to_words, compress_words, decompress_words, incoming_from_dag_edges, parse_bincode_leading_string,
    parse_graph_digest_from_mmap, reachability_row_on_demand, words_from_le_bytes, words_popcount, words_to_bitset, RowError, RowSource,
};
use rgctl_analysis::cfg_pdg_archive::read_v2_digest;

#[test]
fn popcount_sums_words() {
    assert_eq!(words_popcount(&[0b1011, 0, u64::MAX]), 3 + 64);
    assert_eq!(words_popcount(&[]), 0);
}

#[test]
fn incoming_lists_skip_out_of_range() {
    let inc = incoming_from_dag_edges(&[(0, 1), (2, 1), (1, 3), (5, 1), (1, 9)], 4);
    assert_eq!(inc, vec![vec![], vec![0, 2], vec![], vec![1]]);
}

#[test]
fn on_demand_row_holds_ancestors() {
    let inc = incoming_from_dag_edges(&[(0, 1), (1, 2), (3, 2), (4, 0)], 5);
    let row = reachability_row_on_demand(&inc, 2, 5);
    assert_eq!(row.members(), vec![0, 1, 2, 3, 4]);
    let row = reachability_row_on_demand(&inc, 0, 5);
    assert_eq!(row.members(), vec![0, 4]);
    let row = reachability_row_on_demand(&inc, 4, 5);
    assert_eq!(row.members(), vec![4]);
    assert!(row.contains(4));
    assert!(!row.contains(0));
}

#[test]
fn words_round_trip_through_rows() {
    let words = vec![0b1010u64, 1u64 << 63, 0x5];
    let row = words_to_bitset(&words, 130);
    assert_eq!(row.members(), vec![1, 3, 127, 128]);
    let back = bitset_to_words(&row, 130);
    assert_eq!(back, vec![0b1010u64, 1u64 << 63, 0x1]);
    let cut = words_to_bitset(&words, 4);
    assert_eq!(cut.members(), vec![1, 3]);
}

#[test]
fn compressed_rows_round_trip() {
    let words = vec![0u64, 0xdead_beef, u64::MAX, 42];
    let packed = compress_words(&words).unwrap();
    assert_ne!(packed.len(), 0);
    let unpacked = decompress_words(&packed, words.len()).unwrap();
    assert_eq!(unpacked, words);
    assert_eq!(decompress_words(&packed, 3), Err(RowError::SizeMismatch { expected: 24, got: 32 }));
    assert_eq!(decompress_words(&[1, 2, 3], 1), Err(RowError::Decompress));
}

fn payload_with_digest(d: &str) -> Vec<u8> {
    let mut p = (d.len() as u64).to_le_bytes().to_vec();
    p.extend_from_slice(d.as_bytes());
    p.extend_from_slice(&[9, 9, 9]);
    p
}

#[test]
fn leading_string_of_payload() {
    assert_eq!(parse_bincode_leading_string(&payload_with_digest("abc")), Some("abc".to_string()));
    assert_eq!(parse_bincode_leading_string(&[1, 0, 0]), None);
    let mut bad = payload_with_digest("ab");
    bad[8] = 0xff;
    assert_eq!(parse_bincode_leading_string(&bad), None);
    let mut long = 100u64.to_le_bytes().to_vec();
    long.extend_from_slice(b"short");
    assert_eq!(parse_bincode_leading_string(&long), None);
}

#[test]
fn digest_from_snapshot_image() {
    let payload = payload_with_digest("graph-1");
    let mut img = b"RBSE".to_vec();
    img.extend_from_slice(&2u32.to_le_bytes());
    img.extend_from_slice(&(payload.len() as u64).to_le_bytes());
    img.extend_from_slice(&payload);
    assert_eq!(parse_graph_digest_from_mmap(&img), Some("graph-1".to_string()));
    let mut wrong_version = img.clone();
    wrong_version[4] = 3;
    assert_eq!(parse_graph_digest_from_mmap(&wrong_version), None);
    let mut wrong_magic = img.clone();
    wrong_magic[0] = b'X';
    assert_eq!(parse_graph_digest_from_mmap(&wrong_magic), None);
    assert_eq!(parse_graph_digest_from_mmap(&img[..10]), None);
}

#[test]
fn archive_digest_header() {
    let mut img = b"RBCP".to_vec();
    img.extend_from_slice(&2u32.to_le_bytes());
    img.extend_from_slice(&5u32.to_le_bytes());
    img.extend_from_slice(b"abcde");
    assert_eq!(read_v2_digest(&img), Some("abcde".to_string()));
    let mut empty = b"RBCP".to_vec();
    empty.extend_from_slice(&2u32.to_le_bytes());
    empty.extend_from_slice(&0u32.to_le_bytes());
    assert_eq!(read_v2_digest(&empty), None);
    assert_eq!(read_v2_digest(&[1, 2, 3]), None);
}

#[test]
fn row_source_falls_back_and_defaults_to_self() {
    let on_demand = RowSource::from_snapshot(4, Vec::new(), &[(0, 1), (1, 2)]);
    assert!(matches!(on_demand, RowSource::OnDemand { .. }));
    assert_eq!(on_demand.row(2).unwrap().members(), vec![0, 1, 2]);
    assert_eq!(on_demand.row(4).err(), Some(RowError::OutOfRange { scc_id: 4, scc_count: 4 }));

    let words = bitset_to_words(&words_to_bitset(&[0b1011], 4), 4);
    let packed = compress_words(&words).unwrap();
    let sparse = RowSource::from_snapshot(4, vec![(3, packed)], &[]);
    assert_eq!(sparse.row(3).unwrap().members(), vec![0, 1, 3]);
    assert_eq!(sparse.row(2).unwrap().members(), vec![2]);
    assert_eq!(sparse.row(9).err(), Some(RowError::OutOfRange { scc_id: 9, scc_count: 4 }));
}

#[test]
fn compress_round_trip() {
    let words = vec![0b1010u64, 0u64, 1u64 << 63];
    let compressed = compress_words(&words).unwrap();
    let restored = decompress_words(&compressed, words.len()).unwrap();
    assert_eq!(words, restored);
}

#[test]
fn sparse_self_only_rows_omitted() {
    let scc_count = 4;
    let mut rows_words: Vec<Vec<u64>> = (0..scc_count).map(|idx| vec![1u64 << idx]).collect();
    rows_words[2][0] |= 1 << 1;
    let mut rows = Vec::new();
    for (idx, words) in rows_words.iter().enumerate() {
        if words_popcount(words) <= 1 {
            continue;
        }
        rows.push((idx as u32, compress_words(words).unwrap()));
    }
    assert_eq!(rows.len(), 1);
    assert_eq!(rows[0].0, 2);
    let store = RowSource::from_snapshot(scc_count, rows, &[]);
    let loaded: Vec<Vec<usize>> = (0..scc_count).map(|idx| store.row(idx).unwrap().members()).collect();
    assert!(loaded[2].contains(&1));
    assert!(loaded[0].contains(&0));
}

#[test]
fn on_demand_reachability_matches_eager_propagation() {
    let scc_count = 5;
    let dag_edges = vec![(0, 1), (1, 2), (2, 3), (1, 4)];
    let incoming = incoming_from_dag_edges(&dag_edges, scc_count);
    let mut dag: petgraph::graph::DiGraph<(), ()> = petgraph::graph::DiGraph::new();
    for _ in 0..scc_count {
        dag.add_node(());
    }
    for (from, to) in &dag_edges {
        dag.add_edge(petgraph::graph::NodeIndex::new(*from), petgraph::graph::NodeIndex::new(*to), ());
    }
    let sorted = petgraph::algo::toposort(&dag, None).unwrap();
    let mut eager: Vec<bit_set::BitSet> = vec![bit_set::BitSet::new(); scc_count];
    for &scc_idx in sorted.iter() {
        let scc_id = scc_idx.index();
        let mut reach = bit_set::BitSet::new();
        reach.insert(scc_id);
        for parent_idx in dag.neighbors_directed(scc_idx, petgraph::Direction::Incoming) {
            reach.union_with(&eager[parent_idx.index()]);
        }
        eager[scc_id] = reach;
    }
    let on_demand = RowSource::from_dag_on_demand(incoming, scc_count);
    for idx in 0..scc_count {
        let eager_row: Vec<usize> = eager[idx].iter().collect();
        assert_eq!(eager_row, on_demand.row(idx).unwrap().members(), "row {idx}");
    }
}

#[test]
fn snapshot_without_rows_uses_dag_on_demand() {
    let store = RowSource::from_snapshot(3, Vec::new(), &[(0, 1), (1, 2)]);
    assert!(matches!(store, RowSource::OnDemand { .. }));
    let row = store.row(2).unwrap().members();
    assert!(row.contains(&2));
    assert!(row.contains(&1));
    assert!(row.contains(&0));
}

#[test]
fn row_bytes_read_back_as_words() {
    let raw: Vec<u8> = vec![1, 0, 0, 0, 0, 0, 0, 0, 0, 0, 0, 0, 0, 0, 0, 0x80];
    assert_eq!(words_from_le_bytes(&raw, 2), Ok(vec![1u64, 1u64 << 63]));
    assert_eq!(words_from_le_bytes(&raw, 3), Err(RowError::SizeMismatch { expected: 24, got: 16 }));
}

#[test]
fn snapshot_frame_header_and_payload_range() {
    let mut image = snapshot_header(3);
    image.extend_from_slice(&[7, 8, 9]);
    assert_eq!(&image[0..4], b"RBSE");
    assert_eq!(snapshot_payload_range(&image), Ok((16, 19)));
    assert_eq!(snapshot_payload_range(&image[..18]), Err(SnapshotFrameError::PayloadTruncated));
    assert_eq!(snapshot_payload_range(&image[..10]), Err(SnapshotFrameError::Truncated));
    let mut bad = image.clone();
    bad[4] = 9;
    assert_eq!(snapshot_payload_range(&bad), Err(SnapshotFrameError::BadVersion { version: 9 }));
    bad[0] = b'X';
    assert_eq!(snapshot_payload_range(&bad), Err(SnapshotFrameError::BadMagic));
}
