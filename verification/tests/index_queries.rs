//! End-to-end behavior of the sparse and TF-IDF indexes: calibration,
//! uploads, dot-product and BM25 queries, boundary cases.

use vectordb::api_service::{
    run_upload_sparse_idf_documents, run_upload_sparse_idf_documents_in_transaction,
    run_upload_sparse_vectors, run_upload_sparse_vectors_in_transaction, InvertedIndex,
    InvertedIndexIDF,
};
use vectordb::calibration::{compute_values_upper_bound, SparseSamplingData};
use vectordb::fixed::FX_ONE;
use vectordb::inverted_index::InvertedIndexRoot;
use vectordb::sparse_ann_query::{SparseAnnQueryBasic, SparseVector};
use vectordb::tokenize::{count_tokens, token_hashes, tokenize};
use vectordb::versioning::plan_upload_commit;

fn fx(x: f64) -> u64 {
    (x * FX_ONE as f64) as u64
}

fn margin_percent(p: f64) -> u64 {
    (p * FX_ONE as f64) as u64
}

#[test]
fn zero_sample_threshold_is_configured_at_once() {
    let idx = InvertedIndex::new(4, 0, margin_percent(1.0));
    assert!(idx.is_configured);
    assert_eq!(idx.values_upper_bound, FX_ONE);
    let idf = InvertedIndexIDF::new(0, false, fx(1.5), fx(0.75));
    assert!(idf.is_configured);
    let sampling = InvertedIndex::new(4, 2, margin_percent(1.0));
    assert!(!sampling.is_configured);
}

#[test]
fn calibration_all_values_over_the_ladder_hits_overflow_bucket() {
    let mut s = SparseSamplingData::new();
    // every sampled value beyond the last rung of the ladder
    for _ in 0..10 {
        s.tally(fx(12.5));
    }
    let ub = compute_values_upper_bound(&s, margin_percent(1.0));
    assert_eq!(ub, 10 * FX_ONE);
    // values of one and a half land at the second rung instead
    let mut s2 = SparseSamplingData::new();
    for _ in 0..10 {
        s2.tally(fx(1.5));
    }
    assert_eq!(compute_values_upper_bound(&s2, margin_percent(1.0)), 2 * FX_ONE);
}

#[test]
fn inverted_index_upload_and_query_scenario() {
    // bits = 4, sample threshold = 1, clamp margin = 1 percent
    let mut idx = InvertedIndex::new(4, 1, margin_percent(1.0));
    run_upload_sparse_vectors_in_transaction(
        &mut idx,
        1,
        vec![(7, vec![(10, fx(0.9)), (20, fx(0.5))])],
    )
    .unwrap();
    assert!(idx.is_configured);
    assert_eq!(idx.values_upper_bound, FX_ONE);
    let query = SparseAnnQueryBasic::new(SparseVector {
        vector_id: u64::MAX,
        entries: vec![(10, fx(0.9))],
    });
    let results = query
        .sequential_search(&idx.root, 4, idx.values_upper_bound, fx(0.5), 1, Some(1))
        .unwrap();
    assert_eq!(results.len(), 1);
    assert_eq!(results[0].vector_id, 7);
    assert!(results[0].similarity > 0);
}

#[test]
fn empty_query_returns_nothing() {
    let mut idx = InvertedIndex::new(4, 0, margin_percent(1.0));
    run_upload_sparse_vectors(&mut idx, vec![(1, vec![(10, fx(0.9))])]).unwrap();
    let query = SparseAnnQueryBasic::new(SparseVector { vector_id: 0, entries: vec![] });
    let results = query
        .sequential_search(&idx.root, 4, idx.values_upper_bound, fx(0.5), 1, None)
        .unwrap();
    assert!(results.is_empty());
}

#[test]
fn no_k_returns_every_candidate() {
    let mut idx = InvertedIndex::new(4, 0, margin_percent(1.0));
    run_upload_sparse_vectors(
        &mut idx,
        vec![
            (1, vec![(10, fx(0.9))]),
            (2, vec![(10, fx(0.8))]),
            (3, vec![(10, fx(0.7))]),
        ],
    )
    .unwrap();
    let query = SparseAnnQueryBasic::new(SparseVector {
        vector_id: 0,
        entries: vec![(10, fx(0.9))],
    });
    let results = query
        .sequential_search(&idx.root, 4, idx.values_upper_bound, fx(0.5), 1, None)
        .unwrap();
    assert_eq!(results.len(), 3);
    let mut ids: Vec<u32> = results.iter().map(|r| r.vector_id).collect();
    ids.sort_unstable();
    assert_eq!(ids, vec![1, 2, 3]);
    // with a k, the result is truncated to k times the reranking factor
    let query2 = SparseAnnQueryBasic::new(SparseVector {
        vector_id: 0,
        entries: vec![(10, fx(0.9))],
    });
    let truncated = query2
        .sequential_search(&idx.root, 4, idx.values_upper_bound, fx(0.5), 1, Some(2))
        .unwrap();
    assert_eq!(truncated.len(), 2);
}

#[test]
fn uploads_in_two_transactions_become_visible_in_turn() {
    let mut idx = InvertedIndex::new(4, 0, margin_percent(1.0));
    run_upload_sparse_vectors(
        &mut idx,
        vec![
            (1, vec![(10, fx(0.9))]),
            (2, vec![(11, fx(0.9))]),
            (3, vec![(12, fx(0.9))]),
        ],
    )
    .unwrap();
    let v1 = idx.current_version;
    let all_dims = |idx: &InvertedIndex| {
        let q = SparseAnnQueryBasic::new(SparseVector {
            vector_id: 0,
            entries: vec![
                (10, fx(0.9)),
                (11, fx(0.9)),
                (12, fx(0.9)),
                (13, fx(0.9)),
                (14, fx(0.9)),
                (15, fx(0.9)),
            ],
        });
        q.sequential_search(&idx.root, 4, idx.values_upper_bound, fx(0.5), 1, None)
            .unwrap()
            .len()
    };
    // between the transactions only the first batch is indexed
    assert_eq!(all_dims(&idx), 3);
    run_upload_sparse_vectors(
        &mut idx,
        vec![
            (4, vec![(13, fx(0.9))]),
            (5, vec![(14, fx(0.9))]),
            (6, vec![(15, fx(0.9))]),
        ],
    )
    .unwrap();
    let v2 = idx.current_version;
    assert!(v2 > v1);
    assert_eq!(idx.lmdb.current_version, Some(v2));
    // after the second commit every vector is visible
    assert_eq!(all_dims(&idx), 6);
}

#[test]
fn crash_before_tip_update_leaves_orphan_version() {
    let mut idx = InvertedIndex::new(4, 0, margin_percent(1.0));
    run_upload_sparse_vectors(&mut idx, vec![(1, vec![(10, fx(0.9))])]).unwrap();
    let committed = idx.lmdb.current_version;
    // a later transaction allocates its version but never reaches the
    // catalog update: the durable tip still names the first version,
    // and the orphan id is simply larger than the tip
    let (orphan, parent) = idx.vcs.add_next_version();
    assert_eq!(Some(parent), committed);
    assert_eq!(idx.lmdb.current_version, committed);
    assert!(orphan > committed.unwrap());
}

#[test]
fn high_weight_regime_sums_both_versions_once() {
    let mut root: InvertedIndexRoot<16> = InvertedIndexRoot::new(1);
    // one posting for the same vector in each of two versions
    root.insert(5, 10, 7, 1);
    root.insert(5, 10, 7, 2);
    let query = SparseAnnQueryBasic::new(SparseVector {
        vector_id: 0,
        entries: vec![(5, fx(0.9))],
    });
    let results = query.sequential_search(&root, 4, FX_ONE, fx(0.5), 1, None).unwrap();
    assert_eq!(results.len(), 1);
    assert_eq!(results[0].vector_id, 7);
    // quantized query 13, key 10, two contributions: 13 * 10 * 2
    assert_eq!(results[0].similarity, 260);
}

#[test]
fn upload_then_query_own_vector_back() {
    let mut idx = InvertedIndex::new(4, 0, margin_percent(1.0));
    run_upload_sparse_vectors(
        &mut idx,
        vec![
            (1, vec![(10, fx(0.9))]),
            (2, vec![(20, fx(0.9))]),
            (3, vec![(30, fx(0.9))]),
        ],
    )
    .unwrap();
    for (id, dim) in [(1u32, 10u32), (2, 20), (3, 30)] {
        let q = SparseAnnQueryBasic::new(SparseVector {
            vector_id: 0,
            entries: vec![(dim, fx(0.9))],
        });
        let results = q
            .sequential_search(&idx.root, 4, idx.values_upper_bound, fx(0.5), 1, Some(1))
            .unwrap();
        assert_eq!(results.len(), 1);
        assert_eq!(results[0].vector_id, id);
    }
}

#[test]
fn tokenizer_splits_lowercases_and_hashes() {
    let text = b"Hello, World! banana".to_vec();
    let tokens = tokenize(&text);
    assert_eq!(tokens.len(), 3);
    assert_eq!(tokens[0], b"hello".to_vec());
    assert_eq!(tokens[1], b"world".to_vec());
    assert_eq!(tokens[2], b"banana".to_vec());
    assert_eq!(count_tokens(&text), 3);
    let hashes = token_hashes(&text);
    assert_eq!(hashes.len(), 3);
    // hashing is deterministic and discriminates tokens
    assert_ne!(hashes[0], hashes[1]);
    assert_eq!(hashes, token_hashes(&b"hello world BANANA".to_vec()));
}

#[test]
fn tfidf_two_documents_sharing_a_term_score_equal() {
    // k1 = 1.5, b = 0.75, sample threshold = 1
    let mut idf = InvertedIndexIDF::new(1, true, fx(1.5), fx(0.75));
    run_upload_sparse_idf_documents_in_transaction(
        &mut idf,
        1,
        vec![
            (1, b"apple banana".to_vec()),
            (2, b"banana cherry".to_vec()),
        ],
    )
    .unwrap();
    assert!(idf.is_configured);
    let banana = token_hashes(&b"banana".to_vec());
    let query = SparseAnnQueryBasic::new(SparseVector {
        vector_id: 0,
        entries: banana.iter().map(|h| (*h, FX_ONE)).collect(),
    });
    let results = query.search_bm25(&idf.root, 4, fx(0.75), 1, None).unwrap();
    assert_eq!(results.len(), 2);
    let mut ids: Vec<u32> = results.iter().map(|r| r.document_id).collect();
    ids.sort_unstable();
    assert_eq!(ids, vec![0, 1]);
    // equal term frequency and one shared term: identical scores
    assert_eq!(results[0].score, results[1].score);
    assert!(results[0].score > 0);
}

#[test]
fn tfidf_batch_upload_counts_documents() {
    let mut idf = InvertedIndexIDF::new(0, false, fx(1.5), fx(0.75));
    run_upload_sparse_idf_documents(
        &mut idf,
        vec![(1, b"apple banana".to_vec()), (2, b"banana cherry".to_vec())],
    )
    .unwrap();
    assert_eq!(idf.root.total_documents_count, 2);
    assert_eq!(idf.document_id_counter, 2);
    assert_eq!(idf.lmdb.highest_internal_id, Some(2));
    // querying a term only one document holds returns just that one
    let apple = token_hashes(&b"apple".to_vec());
    let query = SparseAnnQueryBasic::new(SparseVector {
        vector_id: 0,
        entries: apple.iter().map(|h| (*h, FX_ONE)).collect(),
    });
    let results = query.search_bm25(&idf.root, 4, fx(0.75), 1, None).unwrap();
    assert_eq!(results.len(), 1);
    assert_eq!(results[0].document_id, 0);
}

#[test]
fn counters_balance_through_upload_plans() {
    // below the threshold, the batch stays unindexed
    let (indexed, unindexed, flushed) = plan_upload_commit(10, 5, 3, 100);
    assert!(!flushed);
    assert_eq!((indexed, unindexed), (10, 8));
    assert_eq!(indexed + unindexed, 10 + 5 + 3);
    // at the threshold, everything unindexed is indexed
    let (indexed, unindexed, flushed) = plan_upload_commit(10, 5, 90, 95);
    assert!(flushed);
    assert_eq!((indexed, unindexed), (105, 0));
    assert_eq!(indexed + unindexed, 10 + 5 + 90);
}
