//! Serialize-then-deserialize round trips for the on-disk records:
//! the reconstructed value is bit-equal, with only the volatile
//! bookkeeping (a remembered file offset) differing.

use vectordb::bufio::{BufIoError, BufferManager};
use vectordb::file_persist::LazyItem;
use vectordb::serializer::metric_distance::MetricResult;
use vectordb::serializer::storage::Storage;
use vectordb::serializer::versioned_vec::{
    deserialize_doc_chain, deserialize_tf_idf_header, serialize_doc_chain,
    serialize_tf_idf_header,
};
use vectordb::tf_idf_index::TFIDFIndexRoot;
use vectordb::versioned_vec::VersionedVec;

#[test]
fn metric_result_round_trip() {
    let mut bufman = BufferManager::new(Vec::new());
    let cursor = bufman.open_cursor().unwrap();
    let values = [
        MetricResult::CosineSimilarity(0x3F80_0000),
        MetricResult::CosineDistance(7),
        MetricResult::EuclideanDistance(0),
        MetricResult::HammingDistance(u32::MAX),
        MetricResult::DotProductDistance(42),
    ];
    let mut offsets = Vec::new();
    for m in &values {
        offsets.push(m.serialize(&mut bufman, cursor).unwrap());
    }
    for (m, off) in values.iter().zip(offsets.iter()) {
        let back = MetricResult::deserialize(&mut bufman, *off).unwrap();
        assert_eq!(back, *m);
    }
}

#[test]
fn metric_result_bad_tag_is_invalid_data() {
    let mut bufman = BufferManager::new(vec![9, 0, 0, 0, 0]);
    let r = MetricResult::deserialize(&mut bufman, 0);
    assert_eq!(r.unwrap_err(), BufIoError::InvalidData);
}

fn storage_eq(a: &Storage, b: &Storage) -> bool {
    match (a, b) {
        (
            Storage::UnsignedByte { mag: m1, quant_vec: q1 },
            Storage::UnsignedByte { mag: m2, quant_vec: q2 },
        ) => m1 == m2 && q1 == q2,
        (
            Storage::SubByte { mag: m1, quant_vec: q1, resolution: r1 },
            Storage::SubByte { mag: m2, quant_vec: q2, resolution: r2 },
        ) => m1 == m2 && q1 == q2 && r1 == r2,
        (
            Storage::HalfPrecisionFP { mag: m1, quant_vec: q1 },
            Storage::HalfPrecisionFP { mag: m2, quant_vec: q2 },
        ) => m1 == m2 && q1 == q2,
        (
            Storage::FullPrecisionFP { mag: m1, vec: v1 },
            Storage::FullPrecisionFP { mag: m2, vec: v2 },
        ) => m1 == m2 && v1 == v2,
        _ => false,
    }
}

#[test]
fn storage_round_trip_every_variant() {
    // half-precision elements carry their 16 raw bits, full-precision
    // their 32: converting through the half crate shows the bit path
    let h1 = half::f16::from_f32(0.5f32).to_bits();
    let h2 = half::f16::from_f32(-1.25f32).to_bits();
    let f1 = 1.0f32.to_bits();
    let f2 = (-0.125f32).to_bits();
    let values = vec![
        Storage::UnsignedByte { mag: 125, quant_vec: vec![1, 2, 3, 255] },
        Storage::UnsignedByte { mag: 0, quant_vec: vec![] },
        Storage::SubByte {
            mag: 0x3F00_0000,
            quant_vec: vec![vec![1, 2], vec![], vec![9]],
            resolution: 2,
        },
        Storage::HalfPrecisionFP { mag: 0x4000_0000, quant_vec: vec![h1, h2] },
        Storage::FullPrecisionFP { mag: f1, vec: vec![f1, f2, 0] },
    ];
    let mut bufman = BufferManager::new(Vec::new());
    let cursor = bufman.open_cursor().unwrap();
    let mut offsets = Vec::new();
    for s in &values {
        offsets.push(s.serialize(&mut bufman, cursor).unwrap());
    }
    for (s, off) in values.iter().zip(offsets.iter()) {
        let back = Storage::deserialize(&mut bufman, *off).unwrap();
        assert!(storage_eq(&back, s));
    }
}

#[test]
fn storage_bad_tag_is_invalid_data() {
    let mut bufman = BufferManager::new(vec![77, 0, 0, 0, 0, 0, 0, 0, 0]);
    let r = Storage::deserialize(&mut bufman, 0);
    match r {
        Err(e) => assert_eq!(e, BufIoError::InvalidData),
        Ok(_) => panic!("an unknown tag must be rejected"),
    }
}

#[test]
fn lazy_item_round_trip_keeps_data_and_tracks_offset() {
    let mut bufman = BufferManager::new(Vec::new());
    let cursor = bufman.open_cursor().unwrap();
    let storage = Storage::UnsignedByte { mag: 9, quant_vec: vec![4, 5, 6] };
    let mut item = LazyItem::Ready(storage, None);
    let off = item.serialize(&mut bufman, cursor).unwrap();
    // the volatile offset flips from unknown to the write position
    match &item {
        LazyItem::Ready(_, Some(o)) => assert_eq!(*o, off),
        _ => panic!("item should be materialized with its offset"),
    }
    let back = LazyItem::deserialize(&mut bufman, off).unwrap();
    match back {
        LazyItem::Ready(s, Some(o)) => {
            assert_eq!(o, off);
            assert!(storage_eq(&s, &Storage::UnsignedByte { mag: 9, quant_vec: vec![4, 5, 6] }));
        }
        _ => panic!("deserialize should materialize"),
    }
    // a pending item and a missing item only report their offsets
    let mut lazy = LazyItem::LazyLoad(123);
    assert_eq!(lazy.serialize(&mut bufman, cursor).unwrap(), 123);
    let mut null = LazyItem::Null;
    assert_eq!(null.serialize(&mut bufman, cursor).unwrap(), u32::MAX);
}

#[test]
fn versioned_chain_round_trips_through_the_file() {
    let mut chain: VersionedVec<(u32, u32)> = VersionedVec::new(3);
    chain.push_sorted(3, (20, 7));
    chain.push_sorted(3, (10, 5));
    chain.push_sorted(4, (30, 9));
    let mut bufman = BufferManager::new(Vec::new());
    let cursor = bufman.open_cursor().unwrap();
    let off = serialize_doc_chain(&mut chain, &mut bufman, cursor).unwrap();
    // tail first: the head record lands last
    assert_eq!(chain.serialized_at, Some(off));
    let back = deserialize_doc_chain(&mut bufman, off).unwrap();
    assert_eq!(back.version, 3);
    assert_eq!(back.list, vec![(10, 5), (20, 7)]);
    let tail = back.next.as_ref().unwrap();
    assert_eq!(tail.version, 4);
    assert_eq!(tail.list, vec![(30, 9)]);
    assert!(tail.next.is_none());
    assert_eq!(back.to_vec(), chain.to_vec());
}

#[test]
fn rewriting_a_serialized_chain_updates_the_next_link_in_place() {
    let mut chain: VersionedVec<(u32, u32)> = VersionedVec::new(1);
    chain.push_sorted(1, (5, 1));
    let mut bufman = BufferManager::new(Vec::new());
    let cursor = bufman.open_cursor().unwrap();
    let off = serialize_doc_chain(&mut chain, &mut bufman, cursor).unwrap();
    let size_after_first = bufman.file_size();
    // a new version segment appends behind the head
    chain.push_sorted(2, (6, 2));
    let off2 = serialize_doc_chain(&mut chain, &mut bufman, cursor).unwrap();
    // the head record is reused, only its next link was rewritten
    assert_eq!(off2, off);
    assert!(bufman.file_size() > size_after_first);
    let back = deserialize_doc_chain(&mut bufman, off2).unwrap();
    assert_eq!(back.to_vec(), vec![(5, 1), (6, 2)]);
}

#[test]
fn tf_idf_header_round_trips_the_document_count() {
    let mut root = TFIDFIndexRoot::new(1);
    root.total_documents_count = 41;
    let mut bufman = BufferManager::new(vec![0u8; 8]);
    let cursor = bufman.open_cursor().unwrap();
    serialize_tf_idf_header(&root, &mut bufman, cursor).unwrap();
    assert_eq!(deserialize_tf_idf_header(&mut bufman, cursor).unwrap(), 41);
    // an empty file has no header to read
    let mut empty = BufferManager::new(Vec::new());
    let c2 = empty.open_cursor().unwrap();
    assert!(deserialize_tf_idf_header(&mut empty, c2).is_err());
}
