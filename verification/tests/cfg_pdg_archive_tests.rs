use rgctl_analysis::cfg_pdg_archive::{encode_archive, parse_payload, parse_v2_header, read_v2_digest, ArchiveError, ArchiveFrames};

fn frames(bytes: &[u8]) -> Result<ArchiveFrames, ArchiveError> {
    parse_payload(bytes)
}

#[test]
fn encoded_archive_frames_back_in_id_order() {
    let records = vec![(7u128, vec![1u8, 2, 3]), (3u128, vec![9u8]), (5u128, Vec::new())];
    let image = encode_archive("digest-1", records).unwrap();
    match frames(&image).unwrap() {
        ArchiveFrames::V2 { graph_digest, records } => {
            assert_eq!(graph_digest.as_deref(), Some("digest-1"));
            let ids: Vec<u128> = records.iter().map(|r| r.0).collect();
            assert_eq!(ids, vec![3, 5, 7]);
            assert_eq!(&image[records[0].1..records[0].2], &[9u8]);
            assert_eq!(&image[records[1].1..records[1].2], &[] as &[u8]);
            assert_eq!(&image[records[2].1..records[2].2], &[1u8, 2, 3]);
        }
        ArchiveFrames::V1 { .. } => panic!("expected a v2 image"),
    }
    assert_eq!(read_v2_digest(&image).as_deref(), Some("digest-1"));
}

#[test]
fn empty_archive_bytes() {
    let image = encode_archive("", Vec::new()).unwrap();
    assert_eq!(image, vec![0x52, 0x42, 0x43, 0x50, 2, 0, 0, 0, 0, 0, 0, 0, 0, 0, 0, 0]);
    match frames(&image).unwrap() {
        ArchiveFrames::V2 { graph_digest, records } => {
            assert_eq!(graph_digest, None);
            assert!(records.is_empty());
        }
        ArchiveFrames::V1 { .. } => panic!("expected a v2 image"),
    }
}

#[test]
fn toc_entry_layout() {
    let id: u128 = 0x0102_0304_0506_0708_090a_0b0c_0d0e_0f10;
    let image = encode_archive("d", vec![(id, vec![0xaa, 0xbb])]).unwrap();
    // magic, version, digest length, digest, count
    assert_eq!(&image[8..12], &[1, 0, 0, 0]);
    assert_eq!(image[12], b'd');
    assert_eq!(&image[13..17], &[1, 0, 0, 0]);
    // id big-endian, offset 0, length 2
    assert_eq!(&image[17..33], &id.to_be_bytes());
    assert_eq!(&image[33..41], &[0u8; 8]);
    assert_eq!(&image[41..45], &[2, 0, 0, 0]);
    assert_eq!(&image[45..], &[0xaa, 0xbb]);
    let (digest_len, toc, payload_start) = parse_v2_header(&image).unwrap();
    assert_eq!(digest_len, 1);
    assert_eq!(toc.len(), 1);
    assert_eq!(toc[0].id, id);
    assert_eq!(toc[0].offset, 0);
    assert_eq!(toc[0].length, 2);
    assert_eq!(payload_start, 45);
}

#[test]
fn short_image_is_truncated() {
    assert_eq!(frames(&[0x52, 0x42, 0x43]).err(), Some(ArchiveError::Truncated));
}

#[test]
fn wrong_magic_is_refused() {
    assert_eq!(frames(&[0, 0, 0, 0, 2, 0, 0, 0, 0, 0, 0, 0, 0, 0, 0, 0]).err(), Some(ArchiveError::BadMagic));
}

#[test]
fn unknown_version_is_refused() {
    assert_eq!(
        frames(&[0x52, 0x42, 0x43, 0x50, 3, 0, 0, 0, 0, 0, 0, 0, 0, 0, 0, 0]).err(),
        Some(ArchiveError::UnsupportedVersion(3))
    );
}

#[test]
fn cut_record_is_truncated() {
    let mut image = encode_archive("", vec![(1u128, vec![1u8, 2, 3, 4])]).unwrap();
    image.pop();
    assert_eq!(frames(&image).err(), Some(ArchiveError::RecordTruncated));
}

#[test]
fn cut_table_is_truncated() {
    let image = encode_archive("", vec![(1u128, vec![1u8])]).unwrap();
    assert_eq!(frames(&image[..20]).err(), Some(ArchiveError::TocTruncated));
}

#[test]
fn v1_payload_is_located() {
    let mut image = vec![0x52, 0x42, 0x43, 0x50, 1, 0, 0, 0, 3, 0, 0, 0, 0, 0, 0, 0];
    image.extend_from_slice(&[7, 8, 9]);
    match frames(&image).unwrap() {
        ArchiveFrames::V1 { payload_start, payload_end } => {
            assert_eq!((payload_start, payload_end), (16, 19));
        }
        ArchiveFrames::V2 { .. } => panic!("expected a v1 image"),
    }
    image.pop();
    assert_eq!(frames(&image).err(), Some(ArchiveError::PayloadTruncated));
}
