//! The dense index service: creation defaults, calibration through a
//! sampling transaction, counter bookkeeping across uploads, and the
//! metadata-filtered query executor.

use vectordb::api_service::WaCustomError;
use vectordb::bufio::BufferManagerFactory;
use vectordb::calibration::{compute_values_range, DenseSamplingData};
use vectordb::dense_index::{generate_level_probs, HNSWHyperParams, HNSWIndex, FX_I_ONE};
use vectordb::fixed::FX_ONE;

fn params() -> HNSWHyperParams {
    HNSWHyperParams {
        num_layers: 3,
        ef_construction: 64,
        ef_search: 32,
        neighbors_count: 16,
        level_0_neighbors_count: 32,
    }
}


fn factory_for(idx: &HNSWIndex) -> BufferManagerFactory {
    let mut factory = BufferManagerFactory::new();
    for v in &idx.vcs.versions {
        factory.get(*v);
    }
    factory
}

fn fxi(x: f64) -> i64 {
    (x * FX_I_ONE as f64) as i64
}

fn margin_percent(p: f64) -> u64 {
    (p * FX_ONE as f64) as u64
}

#[test]
fn level_probability_table_is_geometric() {
    let probs = generate_level_probs(4 * FX_ONE, 3);
    assert_eq!(probs.len(), 4);
    // highest layer first, thinning by the factor at each layer
    assert_eq!(probs[0], (FX_ONE / 64, 3));
    assert_eq!(probs[1], (FX_ONE / 16, 2));
    assert_eq!(probs[2], (FX_ONE / 4, 1));
    assert_eq!(probs[3], (FX_ONE, 0));
}

#[test]
fn dense_index_defaults_and_immediate_configuration() {
    let idx = HNSWIndex::new(b"c".to_vec(), 4, None, params(), 0, margin_percent(1.0));
    assert!(idx.is_configured);
    assert_eq!(idx.values_range, (-FX_I_ONE, FX_I_ONE));
    let sampling = HNSWIndex::new(b"c".to_vec(), 4, None, params(), 2, margin_percent(1.0));
    assert!(!sampling.is_configured);
    let ranged = HNSWIndex::new(
        b"c".to_vec(),
        4,
        Some((fxi(-0.5), fxi(0.5))),
        params(),
        2,
        margin_percent(1.0),
    );
    assert!(ranged.is_configured);
    assert_eq!(ranged.lmdb.values_range, Some((fxi(-0.5), fxi(0.5))));
}

#[test]
fn sampling_transaction_calibrates_and_replays() {
    let mut idx = HNSWIndex::new(b"c".to_vec(), 4, None, params(), 2, margin_percent(1.0));
    // first batch only samples
    idx.run_upload_dense_vectors_in_transaction(
        1,
        vec![(1, vec![fxi(1.0), fxi(0.0), fxi(0.0), fxi(0.0)], None)],
    )
    .unwrap();
    assert!(!idx.is_configured);
    assert_eq!(idx.storage.len(), 0);
    // the batch that reaches the threshold calibrates and replays
    idx.run_upload_dense_vectors_in_transaction(
        1,
        vec![(2, vec![fxi(0.0), fxi(1.0), fxi(0.0), fxi(0.0)], None)],
    )
    .unwrap();
    assert!(idx.is_configured);
    assert_eq!(idx.lmdb.values_range, Some(idx.values_range));
    assert_eq!(idx.storage.len(), 2);
    // with values up to a unit on each side, the full default range
    assert_eq!(idx.values_range.1, FX_I_ONE);
}

#[test]
fn dense_calibration_picks_narrow_range_for_small_values() {
    let mut s = DenseSamplingData::new();
    // all components within a tenth of zero
    for _ in 0..100 {
        s.tally(fxi(0.05));
        s.tally(fxi(-0.05));
    }
    let (lo, hi) = compute_values_range(&s, 200, margin_percent(1.0));
    let tenth = (FX_ONE / 10) as i64;
    assert_eq!((lo, hi), (-tenth, tenth));
}

#[test]
fn dense_upload_settles_counters() {
    let mut idx = HNSWIndex::new(b"c".to_vec(), 2, None, params(), 0, margin_percent(1.0));
    let mut files = factory_for(&idx);
    idx.run_upload_dense_vectors(
        vec![(1, vec![fxi(0.5), fxi(0.5)], None), (2, vec![fxi(-0.5), fxi(0.5)], None)],
        100,
        &mut files,
    )
    .unwrap();
    // below the flush threshold everything waits unindexed
    assert_eq!(idx.lmdb.count_unindexed, 2);
    assert_eq!(idx.lmdb.count_indexed, 0);
    assert_eq!(idx.total_uploaded, 2);
    idx.run_upload_dense_vectors(vec![(3, vec![fxi(0.1), fxi(0.2)], None)], 3, &mut files).unwrap();
    // the threshold reached: the backlog moves to indexed
    assert_eq!(idx.lmdb.count_unindexed, 0);
    assert_eq!(idx.lmdb.count_indexed, 3);
    assert_eq!(idx.lmdb.count_indexed + idx.lmdb.count_unindexed, idx.total_uploaded);
}

#[test]
fn dense_query_ranks_nearest_first() {
    let mut idx = HNSWIndex::new(b"c".to_vec(), 4, None, params(), 2, margin_percent(1.0));
    idx.run_upload_dense_vectors_in_transaction(
        1,
        vec![
            (1, vec![fxi(1.0), fxi(0.0), fxi(0.0), fxi(0.0)], None),
            (2, vec![fxi(0.0), fxi(1.0), fxi(0.0), fxi(0.0)], None),
            (3, vec![fxi(1.0), fxi(0.0), fxi(0.0), fxi(0.01)], None),
        ],
    )
    .unwrap();
    assert!(idx.is_configured);
    idx.commit_transaction(1);
    let query = vec![fxi(1.0), fxi(0.0), fxi(0.0), fxi(0.0)];
    let hits = idx.ann_vector_query(&query, &None, Some(2)).unwrap();
    assert_eq!(hits.len(), 2);
    let top2: Vec<u64> = hits.iter().map(|h| h.vector_id).collect();
    assert_eq!(top2, vec![1, 3]);
    assert!(hits[0].score >= hits[1].score);
}

#[test]
fn dense_query_rejects_wrong_dimension() {
    let idx = HNSWIndex::new(b"c".to_vec(), 4, None, params(), 0, margin_percent(1.0));
    let r = idx.ann_vector_query(&vec![fxi(1.0)], &None, None);
    assert!(matches!(r, Err(WaCustomError::InvalidParams)));
}

#[test]
fn empty_allow_set_filters_everything_out() {
    let mut idx = HNSWIndex::new(b"c".to_vec(), 2, None, params(), 0, margin_percent(1.0));
    let mut files = factory_for(&idx);
    idx.run_upload_dense_vectors(
        vec![
            (1, vec![fxi(0.5), fxi(0.5)], Some(vec![7])),
            (2, vec![fxi(0.4), fxi(0.4)], None),
        ],
        100,
        &mut files,
    )
    .unwrap();
    let query = vec![fxi(0.5), fxi(0.5)];
    // the empty allow-set matches nothing
    let hits = idx.ann_vector_query(&query, &Some(vec![]), None).unwrap();
    assert!(hits.is_empty());
    // a matching allow-set keeps only the tagged vector
    let hits = idx.ann_vector_query(&query, &Some(vec![7]), None).unwrap();
    assert_eq!(hits.len(), 1);
    assert_eq!(hits[0].vector_id, 1);
    // with no k and no filter, every stored vector comes back
    let hits = idx.ann_vector_query(&query, &None, None).unwrap();
    assert_eq!(hits.len(), 2);
}

#[test]
fn uncommitted_transaction_stays_invisible_until_commit() {
    let mut idx = HNSWIndex::new(b"c".to_vec(), 2, None, params(), 0, margin_percent(1.0));
    let mut files = factory_for(&idx);
    idx.run_upload_dense_vectors(vec![(1, vec![fxi(0.5), fxi(0.5)], None)], 100, &mut files).unwrap();
    let query = vec![fxi(0.5), fxi(0.5)];
    assert_eq!(idx.ann_vector_query(&query, &None, None).unwrap().len(), 1);
    // an open transaction uploads, but a concurrent query must not see it
    let txn = idx.begin_transaction();
    idx.run_upload_dense_vectors_in_transaction(txn, vec![(2, vec![fxi(0.4), fxi(0.4)], None)])
        .unwrap();
    let hits = idx.ann_vector_query(&query, &None, None).unwrap();
    assert_eq!(hits.len(), 1);
    assert_eq!(hits[0].vector_id, 1);
    // the commit publishes the transaction's vectors atomically
    idx.commit_transaction(txn);
    let hits = idx.ann_vector_query(&query, &None, None).unwrap();
    assert_eq!(hits.len(), 2);
}

#[test]
fn calibration_divides_tail_mass_by_sampled_values_not_vectors() {
    let mut s = DenseSamplingData::new();
    // one dim-2 vector [0.15, 0.05]: two sampled values, one above 0.1
    s.tally(fxi(0.15));
    s.tally(fxi(0.05));
    assert_eq!(s.values_collected, 2);
    // 1 of 2 values above 0.1 is 50%, within a 60% margin
    let (_, hi) = compute_values_range(&s, s.values_collected, margin_percent(60.0));
    assert_eq!(hi, FX_ONE as i64 / 10);
}

#[test]
fn reranked_query_returns_each_vector_as_its_own_best_match() {
    let mut idx = HNSWIndex::new(b"c".to_vec(), 4, None, params(), 0, margin_percent(1.0));
    let vectors: Vec<(u64, Vec<i64>)> = vec![
        (1, vec![fxi(1.0), fxi(0.0), fxi(0.0), fxi(0.0)]),
        (2, vec![fxi(0.0), fxi(1.0), fxi(0.0), fxi(0.0)]),
        (3, vec![fxi(1.0), fxi(0.0), fxi(0.0), fxi(0.01)]),
    ];
    let batch = vectors.iter().map(|(id, v)| (*id, v.clone(), None)).collect();
    let mut files = factory_for(&idx);
    idx.run_upload_dense_vectors(batch, 100, &mut files).unwrap();
    // cosine re-ranking from the stored raw vectors puts every vector
    // first for its own query, at full similarity
    for (id, v) in &vectors {
        let hits = idx.ann_vector_query_reranked(v, &None, 1, 3).unwrap();
        assert_eq!(hits.len(), 1);
        assert_eq!(hits[0].vector_id, *id);
        assert!(hits[0].score >= FX_I_ONE);
    }
}

#[test]
fn reranked_query_splits_the_near_tie_by_full_precision() {
    // calibrated through sampling, then queried end to end
    let mut idx = HNSWIndex::new(b"c".to_vec(), 4, None, params(), 2, margin_percent(1.0));
    let txn = idx.begin_transaction();
    idx.run_upload_dense_vectors_in_transaction(
        txn,
        vec![
            (1, vec![fxi(1.0), fxi(0.0), fxi(0.0), fxi(0.0)], None),
            (2, vec![fxi(0.0), fxi(1.0), fxi(0.0), fxi(0.0)], None),
            (3, vec![fxi(1.0), fxi(0.0), fxi(0.0), fxi(0.01)], None),
        ],
    )
    .unwrap();
    assert!(idx.is_configured);
    idx.commit_transaction(txn);
    let query = vec![fxi(1.0), fxi(0.0), fxi(0.0), fxi(0.0)];
    let hits = idx.ann_vector_query_reranked(&query, &None, 2, 2).unwrap();
    // on the quantized grid v1 and v3 tie; the raw-vector cosine
    // re-rank breaks the tie toward the exact match
    assert_eq!(hits.len(), 2);
    assert_eq!(hits[0].vector_id, 1);
    assert_eq!(hits[1].vector_id, 3);
    assert!(hits[0].score > hits[1].score);
}

#[test]
fn dense_upload_records_raw_embeddings_and_offsets() {
    let mut idx = HNSWIndex::new(b"c".to_vec(), 2, None, params(), 0, margin_percent(1.0));
    let mut files = factory_for(&idx);
    idx.run_upload_dense_vectors(
        vec![(7, vec![fxi(0.5), fxi(0.25)], None), (9, vec![fxi(-0.5), fxi(0.1)], None)],
        100,
        &mut files,
    )
    .unwrap();
    assert_eq!(idx.vec_raw_map.len(), 2);
    assert_eq!(idx.vec_raw_map[0].1.hash_vec, 7);
    assert_eq!(idx.vec_raw_map[0].1.raw_vec, vec![fxi(0.5), fxi(0.25)]);
    // the catalog maps each id to its raw record and version
    let tip = idx.lmdb.current_version.unwrap();
    assert_eq!(idx.lmdb.embedding_offsets, vec![(7, (0, tip)), (9, (1, tip))]);
    // below the flush threshold nothing was indexed yet
    assert_eq!(idx.lmdb.last_indexed_version, None);
    idx.run_upload_dense_vectors(vec![(11, vec![fxi(0.1), fxi(0.1)], None)], 3, &mut files).unwrap();
    // the threshold crossed: the flush is recorded against the version
    assert_eq!(idx.lmdb.last_indexed_version, idx.lmdb.current_version);
}
