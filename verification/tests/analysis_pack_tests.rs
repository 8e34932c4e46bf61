use rgctl_analysis::analysis_pack::{read_pack_index, record_range, AnalysisPackWriter, PackError, PackIndexEntry};

#[test]
fn pack_index_round_trips_in_id_order() {
    let mut w = AnalysisPackWriter::new();
    w.append(7, 10).unwrap();
    w.append(3, 5).unwrap();
    w.append(7, 2).unwrap();
    let bytes = w.index_file().unwrap();
    assert_eq!(&bytes[0..4], b"RBAP");
    assert_eq!(bytes.len(), 12 + 28 * 2);
    let entries = read_pack_index(&bytes).unwrap();
    assert_eq!(
        entries,
        vec![PackIndexEntry { id: 3, offset: 10, length: 5 }, PackIndexEntry { id: 7, offset: 15, length: 2 }]
    );
}

#[test]
fn pack_index_errors() {
    assert_eq!(read_pack_index(b"RB"), Err(PackError::Truncated));
    assert_eq!(read_pack_index(b"XXXX\x01\0\0\0\0\0\0\0"), Err(PackError::BadMagic));
    assert_eq!(read_pack_index(b"RBAP\x02\0\0\0\0\0\0\0"), Err(PackError::BadVersion { version: 2 }));
    assert_eq!(read_pack_index(b"RBAP\x01\0\0\0\x01\0\0\0"), Err(PackError::Truncated));
    assert_eq!(read_pack_index(b"RBAP\x01\0\0\0\0\0\0\0"), Ok(vec![]));
    let e = PackIndexEntry { id: 1, offset: 4, length: 6 };
    assert_eq!(record_range(e, 10), Ok((4, 10)));
    assert_eq!(record_range(e, 9), Err(PackError::PastEnd));
}
