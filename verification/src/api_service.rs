//! The upload and query services: per-index transaction state, the
//! sampling phase that buffers inputs until calibration commits, and
//! the batch insert paths that follow it.

use crate::calibration::{compute_values_upper_bound, SparseSamplingData};
use crate::fixed::{quantize, spec_quantize, FX_ONE, FX_VALUE_MAX};
use crate::inverted_index::InvertedIndexRoot;
use crate::tf_idf_index::TFIDFIndexRoot;
use crate::tokenize::spec_token_hashes;
use crate::versioned_vec::{lemma_insert_sorted_contains, spec_insert_sorted};
use crate::versioning::{
    store_average_document_length, store_values_upper_bound, update_current_version, KvCatalog,
    VersionControl,
};
use vstd::prelude::*;

verus! {

/// Pages of the sparse posting lists hold this many ids.
pub const POSTING_PAGE_LEN: usize = 16;

/// The error surface of the upload and query paths.
#[derive(Clone, PartialEq, Eq, Structural, Debug)]
pub enum WaCustomError {
    InvalidParams,
    NotFound,
    FsError,
    DatabaseError,
    SerializationError,
    DeserializationError,
    LockPoisoned,
    InvalidLocationNeighborEncountered,
    PendingNeighborEncountered,
}

/// A raw sparse embedding as uploaded: the caller id and its
/// `(dimension, value)` pairs on the fixed-point grid.
pub struct RawSparseVectorEmbedding {
    pub hash_vec: u64,
    pub raw_vec: Vec<(u32, u64)>,
}

/// The sparse inverted index with its transaction state.
pub struct InvertedIndex {
    pub root: InvertedIndexRoot<POSTING_PAGE_LEN>,
    pub lmdb: KvCatalog,
    pub vcs: VersionControl,
    pub current_version: u32,
    pub current_open_transaction: Option<u32>,
    pub quantization_bits: u8,
    pub values_upper_bound: u64,
    pub is_configured: bool,
    pub sample_threshold: usize,
    pub vectors: Vec<(u64, Vec<(u32, u64)>)>,
    pub vectors_collected: usize,
    pub sampling_data: SparseSamplingData,
    pub vec_raw_map: Vec<(u32, RawSparseVectorEmbedding)>,
    pub early_terminate_threshold: u64,
    pub clamp_margin_percent: u64,
}

impl InvertedIndex {
    pub open spec fn wf(self) -> bool {
        &&& self.root.wf()
        &&& self.vcs.wf()
        &&& 1 <= self.quantization_bits <= 8
        &&& 0 < self.values_upper_bound <= FX_VALUE_MAX
        &&& self.clamp_margin_percent <= 100 * FX_ONE
    }

    /// A new index starts unconfigured unless no sampling was asked
    /// for: with a zero sample threshold it is configured at once,
    /// with the default upper bound.
    pub fn new(quantization_bits: u8, sample_threshold: usize, clamp_margin_percent: u64) -> (r:
        Self)
        requires
            1 <= quantization_bits <= 8,
            clamp_margin_percent <= 100 * FX_ONE,
        ensures
            r.wf(),
            r.is_configured == (sample_threshold == 0),
            r.values_upper_bound == FX_ONE,
            r.sample_threshold == sample_threshold,
            r.current_version == 0,
            r.quantization_bits == quantization_bits,
            r.vec_raw_map@.len() == 0,
            r.vectors@.len() == 0,
            r.vectors_collected == 0,
            r.sampling_data == SparseSamplingData::spec_zeroed(),
            r.clamp_margin_percent == clamp_margin_percent,
            r.vcs.current == 0,
            r.lmdb.current_version is None,
            r.lmdb.count_unindexed == 0,
            r.lmdb.count_indexed == 0,
            forall|dim: u32, key: u8| #[trigger] r.root.postings_of(dim, key) is None,
    {
        let (vcs, hash) = VersionControl::new();
        InvertedIndex {
            root: InvertedIndexRoot::new(1),
            lmdb: KvCatalog::new(),
            vcs,
            current_version: hash,
            current_open_transaction: None,
            quantization_bits,
            values_upper_bound: FX_ONE,
            is_configured: sample_threshold == 0,
            sample_threshold,
            vectors: Vec::new(),
            vectors_collected: 0,
            sampling_data: SparseSamplingData::new(),
            vec_raw_map: Vec::new(),
            early_terminate_threshold: FX_ONE / 2,
            clamp_margin_percent,
        }
    }

    pub fn set_current_version(&mut self, version: u32)
        ensures
            *final(self) == (InvertedIndex { current_version: version, ..*old(self) }),
    {
        self.current_version = version;
    }

    /// Inserts one `(dimension, value)` posting of a vector: the value
    /// is quantized against the calibrated upper bound and the id is
    /// appended to that bucket's posting chain under `version`.
    pub fn insert(&mut self, dim: u32, value: u64, vector_id: u32, version: u32) -> (r: Result<
        (),
        WaCustomError,
    >)
        requires
            old(self).wf(),
            value <= FX_VALUE_MAX,
        ensures
            final(self).wf(),
            r is Ok,
            *final(self) == (InvertedIndex { root: final(self).root, ..*old(self) }),
            ({
                let key = spec_quantize(
                    value as int,
                    old(self).values_upper_bound as int,
                    old(self).quantization_bits,
                ) as u8;
                let updated = final(self).root.postings_of(dim, key);
                &&& updated is Some
                &&& updated.unwrap().ids_of(version) == match old(self).root.postings_of(
                    dim,
                    key,
                ) {
                    Some(c) => c.ids_of(version).push(vector_id),
                    None => seq![vector_id],
                }
                &&& forall|d: u32, k: u8|
                    d != dim || k != key ==> #[trigger] final(self).root.postings_of(d, k) == old(
                        self,
                    ).root.postings_of(d, k)
            }),
    {
        let key = quantize(value, self.values_upper_bound, self.quantization_bits);
        self.root.insert(dim, key, vector_id, version);
        Ok(())
    }
}

/// Uploads a batch of sparse vectors outside any open transaction: a
/// fresh version is allocated and becomes the branch tip, every pair of
/// every vector is quantized and posted under it, and the raw
/// embeddings are recorded against the version.
pub fn run_upload_sparse_vectors(
    inverted_index: &mut InvertedIndex,
    vecs: Vec<(u64, Vec<(u32, u64)>)>,
) -> (r: Result<(), WaCustomError>)
    requires
        old(inverted_index).wf(),
        old(inverted_index).vcs.current < u32::MAX,
        forall|i: int, j: int|
            0 <= i < vecs@.len() && 0 <= j < (#[trigger] vecs@[i]).1@.len() ==> (
            #[trigger] vecs@[i].1@[j]).1 <= FX_VALUE_MAX,
    ensures
        final(inverted_index).wf(),
        r is Ok,
        final(inverted_index).current_version == old(inverted_index).vcs.current + 1,
        final(inverted_index).lmdb.current_version == Some(final(inverted_index).current_version),
        final(inverted_index).vec_raw_map@.len() == old(inverted_index).vec_raw_map@.len()
            + vecs@.len(),
        forall|i: int|
            0 <= i < vecs@.len() ==> {
                let e = #[trigger] final(inverted_index).vec_raw_map@[old(
                    inverted_index,
                ).vec_raw_map@.len() + i];
                e.0 == old(inverted_index).vcs.current + 1 && e.1.hash_vec == vecs@[i].0
                    && e.1.raw_vec@ == vecs@[i].1@
            },
        forall|i: int, j: int|
            0 <= i < vecs@.len() && 0 <= j < (#[trigger] vecs@[i]).1@.len() ==> posted(
                *final(inverted_index),
                vecs@[i].1@[j].0,
                (#[trigger] vecs@[i].1@[j]).1,
                vecs@[i].0 as u32,
                (old(inverted_index).vcs.current + 1) as u32,
            ),
{
    let (current_version, _parent) = inverted_index.vcs.add_next_version();
    inverted_index.set_current_version(current_version);
    let n = vecs.len();
    let mut i: usize = 0;
    let ghost base_raw = inverted_index.vec_raw_map@;
    while i < n
        invariant
            inverted_index.wf(),
            n == vecs@.len(),
            i <= n,
            inverted_index.current_version == current_version,
            inverted_index.lmdb == old(inverted_index).lmdb,
            inverted_index.vcs.wf(),
            inverted_index.values_upper_bound == old(inverted_index).values_upper_bound,
            inverted_index.quantization_bits == old(inverted_index).quantization_bits,
            forall|a: int, b: int|
                0 <= a < vecs@.len() && 0 <= b < (#[trigger] vecs@[a]).1@.len() ==> (
                #[trigger] vecs@[a].1@[b]).1 <= FX_VALUE_MAX,
            inverted_index.vec_raw_map@.len() == base_raw.len() + i,
            inverted_index.vec_raw_map@.take(base_raw.len() as int) == base_raw,
            forall|a: int|
                0 <= a < i ==> {
                    let e = #[trigger] inverted_index.vec_raw_map@[base_raw.len() + a];
                    e.0 == current_version && e.1.hash_vec == vecs@[a].0 && e.1.raw_vec@
                        == vecs@[a].1@
                },
            forall|a: int, b: int|
                0 <= a < i && 0 <= b < (#[trigger] vecs@[a]).1@.len() ==> posted(
                    *inverted_index,
                    vecs@[a].1@[b].0,
                    (#[trigger] vecs@[a].1@[b]).1,
                    vecs@[a].0 as u32,
                    current_version,
                ),
        decreases n - i,
    {
        let (id, vec) = &vecs[i];
        let vid = *id;
        let m = vec.len();
        let mut j: usize = 0;
        while j < m
            invariant
                inverted_index.wf(),
                n == vecs@.len(),
                i < n,
                m == vecs@[i as int].1@.len(),
                j <= m,
                *vec == vecs@[i as int].1,
                vid == vecs@[i as int].0,
                inverted_index.current_version == current_version,
                inverted_index.lmdb == old(inverted_index).lmdb,
                inverted_index.vcs.wf(),
                inverted_index.vec_raw_map@.len() == base_raw.len() + i,
                inverted_index.vec_raw_map@.take(base_raw.len() as int) == base_raw,
                forall|a: int, b: int|
                    0 <= a < vecs@.len() && 0 <= b < (#[trigger] vecs@[a]).1@.len() ==> (
                    #[trigger] vecs@[a].1@[b]).1 <= FX_VALUE_MAX,
                forall|a: int|
                    0 <= a < i ==> {
                        let e = #[trigger] inverted_index.vec_raw_map@[base_raw.len() + a];
                        e.0 == current_version && e.1.hash_vec == vecs@[a].0 && e.1.raw_vec@
                            == vecs@[a].1@
                    },
                forall|a: int, b: int|
                    0 <= a < i && 0 <= b < (#[trigger] vecs@[a]).1@.len() ==> posted(
                        *inverted_index,
                        vecs@[a].1@[b].0,
                        (#[trigger] vecs@[a].1@[b]).1,
                        vecs@[a].0 as u32,
                        current_version,
                    ),
                forall|b: int|
                    0 <= b < j ==> posted(
                        *inverted_index,
                        vecs@[i as int].1@[b].0,
                        (#[trigger] vecs@[i as int].1@[b]).1,
                        vecs@[i as int].0 as u32,
                        current_version,
                    ),
                inverted_index.values_upper_bound == old(inverted_index).values_upper_bound,
                inverted_index.quantization_bits == old(inverted_index).quantization_bits,
        decreases m - j,
        {
            let (dim, value) = vec[j];
            let ghost pre = *inverted_index;
            let _ = inverted_index.insert(dim, value, vid as u32, current_version);
            proof {
                lemma_posted_preserved(pre, *inverted_index, current_version);
                assert(posted(
                    *inverted_index,
                    dim,
                    value,
                    vid as u32,
                    current_version,
                )) by {
                    let key = spec_quantize(
                        value as int,
                        pre.values_upper_bound as int,
                        pre.quantization_bits,
                    ) as u8;
                    assert(inverted_index.root.postings_of(dim, key) is Some);
                    let ids = inverted_index.root.postings_of(dim, key).unwrap().ids_of(
                        current_version,
                    );
                    assert(ids.len() > 0 && ids[ids.len() - 1] == vid as u32);
                    assert(ids.contains(vid as u32));
                }
            }
            j += 1;
        }
        let raw = RawSparseVectorEmbedding { hash_vec: vid, raw_vec: clone_pairs(vec) };
        let ghost pre2 = *inverted_index;
        inverted_index.vec_raw_map.push((current_version, raw));
        proof {
            assert(inverted_index.vec_raw_map@.take(base_raw.len() as int) =~= base_raw);
            assert forall|a: int, b: int|
                0 <= a < i + 1 && 0 <= b < (#[trigger] vecs@[a]).1@.len() implies posted(
                *inverted_index,
                vecs@[a].1@[b].0,
                (#[trigger] vecs@[a].1@[b]).1,
                vecs@[a].0 as u32,
                current_version,
            ) by {
                assert(inverted_index.root == pre2.root);
            }
        }
        i += 1;
    }
    update_current_version(&mut inverted_index.lmdb, current_version);
    Ok(())
}

/// Whether the posting of `(dim, value)` for `vector_id` stands in the
/// index under `version`, at the bucket its quantization picks.
pub open spec fn posted(
    index: InvertedIndex,
    dim: u32,
    value: u64,
    vector_id: u32,
    version: u32,
) -> bool {
    let key = spec_quantize(
        value as int,
        index.values_upper_bound as int,
        index.quantization_bits,
    ) as u8;
    match index.root.postings_of(dim, key) {
        None => false,
        Some(c) => c.ids_of(version).contains(vector_id),
    }
}

/// A posting once made stays through later inserts of the same version.
proof fn lemma_posted_preserved(pre: InvertedIndex, cur: InvertedIndex, version: u32)
    requires
        cur.values_upper_bound == pre.values_upper_bound,
        cur.quantization_bits == pre.quantization_bits,
        forall|d: u32, k: u8|
            #[trigger] cur.root.postings_of(d, k) == pre.root.postings_of(d, k) || (
            cur.root.postings_of(d, k) is Some && cur.root.postings_of(
                d,
                k,
            ).unwrap().ids_of(version) == (match pre.root.postings_of(d, k) {
                Some(c) => c.ids_of(version).push(
                    cur.root.postings_of(d, k).unwrap().ids_of(version).last(),
                ),
                None => seq![cur.root.postings_of(d, k).unwrap().ids_of(version).last()],
            })),
    ensures
        forall|d: u32, v: u64, id: u32|
            #[trigger] posted(pre, d, v, id, version) ==> posted(cur, d, v, id, version),
{
    assert forall|d: u32, v: u64, id: u32|
        #[trigger] posted(pre, d, v, id, version) implies posted(cur, d, v, id, version) by {
        let key = spec_quantize(
            v as int,
            pre.values_upper_bound as int,
            pre.quantization_bits,
        ) as u8;
        if cur.root.postings_of(d, key) == pre.root.postings_of(d, key) {
        } else {
            let olds = pre.root.postings_of(d, key).unwrap().ids_of(version);
            let news = cur.root.postings_of(d, key).unwrap().ids_of(version);
            assert(news == olds.push(news.last()));
            let w = choose|w: int| 0 <= w < olds.len() && olds[w] == id;
            assert(news[w] == id);
        }
    }
}

/// Clones a pair list.
fn clone_pairs(v: &Vec<(u32, u64)>) -> (r: Vec<(u32, u64)>)
    ensures
        r@ == v@,
{
    let mut r: Vec<(u32, u64)> = Vec::new();
    let mut i: usize = 0;
    while i < v.len()
        invariant
            i <= v@.len(),
            r@ == v@.take(i as int),
        decreases v@.len() - i,
    {
        r.push(v[i]);
        assert(r@ =~= v@.take(i + 1));
        i += 1;
    }
    assert(r@ =~= v@);
    r
}

/// Uploads a batch inside an open transaction. Before calibration, the
/// batch only feeds the sampling tallies and the buffer; the batch that
/// reaches the sample threshold computes the upper bound, commits it
/// durably, flips the configured flag and replays the whole buffer.
/// After calibration, the batch is posted under the transaction's
/// version directly.
/// The fixed-point values of a batch of sparse points, vector by
/// vector, in pair order.
pub open spec fn spec_sparse_point_values(pts: Seq<(u64, Vec<(u32, u64)>)>) -> Seq<Seq<u64>> {
    pts.map_values(|p: (u64, Vec<(u32, u64)>)| p.1@.map_values(|q: (u32, u64)| q.1))
}

/// Records the raw form of every point against `version`.
fn record_raw(
    inverted_index: &mut InvertedIndex,
    points: &Vec<(u64, Vec<(u32, u64)>)>,
    version: u32,
)
    requires
        old(inverted_index).wf(),
        old(inverted_index).vec_raw_map@.len() + points@.len() <= usize::MAX,
    ensures
        final(inverted_index).wf(),
        *final(inverted_index) == (InvertedIndex {
            vec_raw_map: final(inverted_index).vec_raw_map,
            ..*old(inverted_index)
        }),
        final(inverted_index).vec_raw_map@.len() == old(inverted_index).vec_raw_map@.len()
            + points@.len(),
        final(inverted_index).vec_raw_map@.take(old(inverted_index).vec_raw_map@.len() as int)
            == old(inverted_index).vec_raw_map@,
        forall|i: int|
            0 <= i < points@.len() ==> {
                let e = #[trigger] final(inverted_index).vec_raw_map@[old(
                    inverted_index,
                ).vec_raw_map@.len() + i];
                e.0 == version && e.1.hash_vec == points@[i].0 && e.1.raw_vec@ == points@[i].1@
            },
{
    let ghost base = old(inverted_index).vec_raw_map@;
    let n = points.len();
    let mut i: usize = 0;
    while i < n
        invariant
            i <= n,
            n == points@.len(),
            inverted_index.wf(),
            base.len() + points@.len() <= usize::MAX,
            *inverted_index == (InvertedIndex {
                vec_raw_map: inverted_index.vec_raw_map,
                ..*old(inverted_index)
            }),
            inverted_index.vec_raw_map@.len() == base.len() + i,
            inverted_index.vec_raw_map@.take(base.len() as int) == base,
            forall|a: int|
                0 <= a < i ==> {
                    let e = #[trigger] inverted_index.vec_raw_map@[base.len() + a];
                    e.0 == version && e.1.hash_vec == points@[a].0 && e.1.raw_vec@ == points@[a].1@
                },
        decreases n - i,
    {
        let (id, vec) = &points[i];
        let raw = RawSparseVectorEmbedding { hash_vec: *id, raw_vec: clone_pairs(vec) };
        inverted_index.vec_raw_map.push((version, raw));
        proof {
            assert(inverted_index.vec_raw_map@.take(base.len() as int) =~= base);
        }
        i += 1;
    }
}

pub fn run_upload_sparse_vectors_in_transaction(
    inverted_index: &mut InvertedIndex,
    transaction_id: u32,
    sample_points: Vec<(u64, Vec<(u32, u64)>)>,
) -> (r: Result<(), WaCustomError>)
    requires
        old(inverted_index).wf(),
        forall|i: int, j: int|
            0 <= i < sample_points@.len() && 0 <= j < (#[trigger] sample_points@[i]).1@.len() ==> (
            #[trigger] sample_points@[i].1@[j]).1 <= FX_VALUE_MAX,
        forall|i: int, j: int|
            0 <= i < old(inverted_index).vectors@.len() && 0 <= j < (#[trigger] old(
                inverted_index,
            ).vectors@[i]).1@.len() ==> (#[trigger] old(inverted_index).vectors@[i].1@[j]).1
                <= FX_VALUE_MAX,
        old(inverted_index).vectors@.len() + sample_points@.len() <= usize::MAX,
        old(inverted_index).vectors_collected + sample_points@.len() <= usize::MAX,
        old(inverted_index).vec_raw_map@.len() + old(inverted_index).vectors@.len()
            + sample_points@.len() <= usize::MAX,
    ensures
        final(inverted_index).wf(),
        r is Ok,
        old(inverted_index).is_configured ==> final(inverted_index).is_configured,
        final(inverted_index).lmdb.current_version == old(inverted_index).lmdb.current_version,
        !old(inverted_index).is_configured && old(inverted_index).vectors_collected
            < old(inverted_index).sample_threshold && old(inverted_index).vectors@.len()
            + sample_points@.len() < old(inverted_index).sample_threshold ==> {
            &&& !final(inverted_index).is_configured
            &&& final(inverted_index).vectors@ == old(inverted_index).vectors@ + sample_points@
            &&& final(inverted_index).root == old(inverted_index).root
            &&& final(inverted_index).values_upper_bound == old(
                inverted_index,
            ).values_upper_bound
            &&& final(inverted_index).lmdb == old(inverted_index).lmdb
            &&& final(inverted_index).current_version == old(inverted_index).current_version
            &&& final(inverted_index).vcs == old(inverted_index).vcs
            &&& final(inverted_index).vec_raw_map == old(inverted_index).vec_raw_map
            &&& final(inverted_index).sampling_data == old(
                inverted_index,
            ).sampling_data.spec_steps_points(spec_sparse_point_values(sample_points@))
            &&& final(inverted_index).vectors_collected == old(inverted_index).vectors_collected
                + sample_points@.len()
        },
        !old(inverted_index).is_configured && old(inverted_index).vectors_collected
            < old(inverted_index).sample_threshold && old(inverted_index).vectors@.len()
            + sample_points@.len() >= old(inverted_index).sample_threshold ==> {
            &&& final(inverted_index).is_configured
            &&& final(inverted_index).lmdb.values_upper_bound == Some(
                final(inverted_index).values_upper_bound,
            )
            &&& final(inverted_index).vectors@.len() == 0
            &&& final(inverted_index).sampling_data == old(
                inverted_index,
            ).sampling_data.spec_steps_points(spec_sparse_point_values(sample_points@))
            &&& final(inverted_index).values_upper_bound as int == crate::calibration::spec_values_upper_bound(
                final(inverted_index).sampling_data,
                old(inverted_index).clamp_margin_percent as int,
            )
            &&& final(inverted_index).vec_raw_map@.len() == old(
                inverted_index,
            ).vec_raw_map@.len() + old(inverted_index).vectors@.len() + sample_points@.len()
            &&& forall|i: int|
                0 <= i < old(inverted_index).vectors@.len() + sample_points@.len() ==> {
                    let e = #[trigger] final(inverted_index).vec_raw_map@[old(
                        inverted_index,
                    ).vec_raw_map@.len() + i];
                    let p = if i < old(inverted_index).vectors@.len() {
                        old(inverted_index).vectors@[i]
                    } else {
                        sample_points@[i - old(inverted_index).vectors@.len()]
                    };
                    e.0 == transaction_id && e.1.hash_vec == p.0 && e.1.raw_vec@ == p.1@
                }
            &&& forall|i: int, j: int|
                0 <= i < old(inverted_index).vectors@.len() && 0 <= j < (#[trigger] old(
                    inverted_index,
                ).vectors@[i]).1@.len() ==> posted(
                    *final(inverted_index),
                    old(inverted_index).vectors@[i].1@[j].0,
                    (#[trigger] old(inverted_index).vectors@[i].1@[j]).1,
                    old(inverted_index).vectors@[i].0 as u32,
                    transaction_id,
                )
            &&& forall|i: int, j: int|
                0 <= i < sample_points@.len() && 0 <= j < (
                #[trigger] sample_points@[i]).1@.len() ==> posted(
                    *final(inverted_index),
                    sample_points@[i].1@[j].0,
                    (#[trigger] sample_points@[i].1@[j]).1,
                    sample_points@[i].0 as u32,
                    transaction_id,
                )
        },
        old(inverted_index).is_configured || (!old(inverted_index).is_configured && old(
            inverted_index,
        ).vectors_collected >= old(inverted_index).sample_threshold) ==> {
            &&& final(inverted_index).values_upper_bound == old(
                inverted_index,
            ).values_upper_bound
            &&& final(inverted_index).lmdb == old(inverted_index).lmdb
            &&& final(inverted_index).vectors@ == old(inverted_index).vectors@
            &&& final(inverted_index).sampling_data == old(inverted_index).sampling_data
            &&& forall|i: int, j: int|
                0 <= i < sample_points@.len() && 0 <= j < (
                #[trigger] sample_points@[i]).1@.len() ==> posted(
                    *final(inverted_index),
                    sample_points@[i].1@[j].0,
                    (#[trigger] sample_points@[i].1@[j]).1,
                    sample_points@[i].0 as u32,
                    transaction_id,
                )
            &&& final(inverted_index).vec_raw_map@.len() == old(
                inverted_index,
            ).vec_raw_map@.len() + sample_points@.len()
            &&& forall|i: int|
                0 <= i < sample_points@.len() ==> {
                    let e = #[trigger] final(inverted_index).vec_raw_map@[old(
                        inverted_index,
                    ).vec_raw_map@.len() + i];
                    e.0 == transaction_id && e.1.hash_vec == sample_points@[i].0 && e.1.raw_vec@
                        == sample_points@[i].1@
                }
        },
{
    let n_new = sample_points.len();
    if !inverted_index.is_configured {
        let collected_count = inverted_index.vectors_collected;
        inverted_index.vectors_collected = collected_count + n_new;
        if collected_count < inverted_index.sample_threshold {
            let ghost pvals = spec_sparse_point_values(sample_points@);
            let mut i: usize = 0;
            while i < sample_points.len()
                invariant
                    i <= sample_points@.len(),
                    inverted_index.wf(),
                    inverted_index.is_configured == false,
                    inverted_index.vectors@ == old(inverted_index).vectors@,
                    inverted_index.vectors_collected == old(inverted_index).vectors_collected
                        + n_new,
                    inverted_index.sample_threshold == old(inverted_index).sample_threshold,
                    inverted_index.values_upper_bound == old(inverted_index).values_upper_bound,
                    inverted_index.quantization_bits == old(inverted_index).quantization_bits,
                    inverted_index.clamp_margin_percent == old(inverted_index).clamp_margin_percent,
                    inverted_index.root == old(inverted_index).root,
                    inverted_index.vcs == old(inverted_index).vcs,
                    inverted_index.lmdb == old(inverted_index).lmdb,
                    inverted_index.vec_raw_map == old(inverted_index).vec_raw_map,
                    inverted_index.current_version == old(inverted_index).current_version,
                    pvals == spec_sparse_point_values(sample_points@),
                    inverted_index.sampling_data == old(
                        inverted_index,
                    ).sampling_data.spec_steps_points(pvals.take(i as int)),
                    forall|a: int, b: int|
                        0 <= a < sample_points@.len() && 0 <= b < (
                        #[trigger] sample_points@[a]).1@.len() ==> (
                        #[trigger] sample_points@[a].1@[b]).1 <= FX_VALUE_MAX,
                    forall|a: int, b: int|
                        0 <= a < inverted_index.vectors@.len() && 0 <= b < (
                        #[trigger] inverted_index.vectors@[a]).1@.len() ==> (
                        #[trigger] inverted_index.vectors@[a].1@[b]).1 <= FX_VALUE_MAX,
                decreases sample_points@.len() - i,
            {
                let pairs = &sample_points[i].1;
                let ghost sd0 = inverted_index.sampling_data;
                let ghost vals = pairs@.map_values(|q: (u32, u64)| q.1);
                proof {
                    assert(vals.take(0) =~= Seq::<u64>::empty());
                }
                let mut j: usize = 0;
                while j < pairs.len()
                    invariant
                        j <= pairs@.len(),
                        pairs == &sample_points[i as int].1,
                        vals == pairs@.map_values(|q: (u32, u64)| q.1),
                        inverted_index.sampling_data == sd0.spec_steps(vals.take(j as int)),
                        inverted_index.is_configured == false,
                        inverted_index.wf(),
                        inverted_index.vectors@ == old(inverted_index).vectors@,
                        inverted_index.vectors_collected == old(inverted_index).vectors_collected
                            + n_new,
                        inverted_index.sample_threshold == old(inverted_index).sample_threshold,
                        inverted_index.values_upper_bound == old(
                            inverted_index,
                        ).values_upper_bound,
                        inverted_index.quantization_bits == old(inverted_index).quantization_bits,
                        inverted_index.clamp_margin_percent == old(
                            inverted_index,
                        ).clamp_margin_percent,
                        inverted_index.root == old(inverted_index).root,
                        inverted_index.vcs == old(inverted_index).vcs,
                        inverted_index.lmdb == old(inverted_index).lmdb,
                        inverted_index.vec_raw_map == old(inverted_index).vec_raw_map,
                        inverted_index.current_version == old(inverted_index).current_version,
                        forall|a: int, b: int|
                            0 <= a < sample_points@.len() && 0 <= b < (
                            #[trigger] sample_points@[a]).1@.len() ==> (
                            #[trigger] sample_points@[a].1@[b]).1 <= FX_VALUE_MAX,
                        forall|a: int, b: int|
                            0 <= a < inverted_index.vectors@.len() && 0 <= b < (
                            #[trigger] inverted_index.vectors@[a]).1@.len() ==> (
                            #[trigger] inverted_index.vectors@[a].1@[b]).1 <= FX_VALUE_MAX,
                    decreases pairs@.len() - j,
                {
                    let value = pairs[j].1;
                    if inverted_index.sampling_data.values_collected < u64::MAX
                        && inverted_index.sampling_data.above_1 < u64::MAX
                        && inverted_index.sampling_data.above_2 < u64::MAX
                        && inverted_index.sampling_data.above_3 < u64::MAX
                        && inverted_index.sampling_data.above_4 < u64::MAX
                        && inverted_index.sampling_data.above_5 < u64::MAX
                        && inverted_index.sampling_data.above_6 < u64::MAX
                        && inverted_index.sampling_data.above_7 < u64::MAX
                        && inverted_index.sampling_data.above_8 < u64::MAX
                        && inverted_index.sampling_data.above_9 < u64::MAX {
                        inverted_index.sampling_data.tally(value);
                    }
                    proof {
                        crate::calibration::lemma_sparse_steps_snoc(sd0, vals, j as int);
                        assert(vals[j as int] == pairs@[j as int].1);
                    }
                    j += 1;
                }
                proof {
                    assert(vals.take(vals.len() as int) =~= vals);
                    crate::calibration::lemma_sparse_points_snoc(
                        old(inverted_index).sampling_data,
                        pvals,
                        i as int,
                    );
                    assert(pvals[i as int] == vals);
                }
                i += 1;
            }
            proof {
                assert(pvals.take(pvals.len() as int) =~= pvals);
            }
            let ghost buffered_spec = old(inverted_index).vectors@ + sample_points@;
            let mut points = sample_points;
            append_vectors(&mut inverted_index.vectors, &mut points);
            if inverted_index.vectors.len() < inverted_index.sample_threshold {
                return Ok(());
            }
            let values_upper_bound = compute_values_upper_bound(
                &inverted_index.sampling_data,
                inverted_index.clamp_margin_percent,
            );
            inverted_index.values_upper_bound = values_upper_bound;
            inverted_index.is_configured = true;
            store_values_upper_bound(&mut inverted_index.lmdb, values_upper_bound);
            let mut buffered: Vec<(u64, Vec<(u32, u64)>)> = Vec::new();
            core::mem::swap(&mut buffered, &mut inverted_index.vectors);
            proof {
                assert(buffered@ == buffered_spec);
            }
            record_raw(inverted_index, &buffered, transaction_id);
            insert_batch(inverted_index, &buffered, transaction_id);
            proof {
                assert forall|i: int, j: int|
                    0 <= i < old(inverted_index).vectors@.len() && 0 <= j < (#[trigger] old(
                        inverted_index,
                    ).vectors@[i]).1@.len() implies posted(
                    *inverted_index,
                    old(inverted_index).vectors@[i].1@[j].0,
                    (#[trigger] old(inverted_index).vectors@[i].1@[j]).1,
                    old(inverted_index).vectors@[i].0 as u32,
                    transaction_id,
                ) by {
                    assert(buffered@[i] == old(inverted_index).vectors@[i]);
                }
                assert forall|i: int, j: int|
                    0 <= i < sample_points@.len() && 0 <= j < (
                    #[trigger] sample_points@[i]).1@.len() implies posted(
                    *inverted_index,
                    sample_points@[i].1@[j].0,
                    (#[trigger] sample_points@[i].1@[j]).1,
                    sample_points@[i].0 as u32,
                    transaction_id,
                ) by {
                    assert(buffered@[old(inverted_index).vectors@.len() + i]
                        == sample_points@[i]);
                }
            }
            return Ok(());
        }
    }
    record_raw(inverted_index, &sample_points, transaction_id);
    insert_batch(inverted_index, &sample_points, transaction_id);
    Ok(())
}

/// Moves every vector of `points` to the end of `buffer`.
fn append_vectors(buffer: &mut Vec<(u64, Vec<(u32, u64)>)>, points: &mut Vec<(u64, Vec<(u32, u64)>)>)
    requires
        old(buffer)@.len() + old(points)@.len() <= usize::MAX,
    ensures
        final(buffer)@ == old(buffer)@ + old(points)@,
{
    buffer.append(points);
}

/// Posts every pair of every vector under `version`.
fn insert_batch(
    inverted_index: &mut InvertedIndex,
    points: &Vec<(u64, Vec<(u32, u64)>)>,
    version: u32,
)
    requires
        old(inverted_index).wf(),
        forall|i: int, j: int|
            0 <= i < points@.len() && 0 <= j < (#[trigger] points@[i]).1@.len() ==> (
            #[trigger] points@[i].1@[j]).1 <= FX_VALUE_MAX,
    ensures
        final(inverted_index).wf(),
        *final(inverted_index) == (InvertedIndex {
            root: final(inverted_index).root,
            ..*old(inverted_index)
        }),
        forall|i: int, j: int|
            0 <= i < points@.len() && 0 <= j < (#[trigger] points@[i]).1@.len() ==> posted(
                *final(inverted_index),
                points@[i].1@[j].0,
                (#[trigger] points@[i].1@[j]).1,
                points@[i].0 as u32,
                version,
            ),
{
    let n = points.len();
    let mut i: usize = 0;
    while i < n
        invariant
            inverted_index.wf(),
            n == points@.len(),
            i <= n,
            *inverted_index == (InvertedIndex {
                root: inverted_index.root,
                ..*old(inverted_index)
            }),
            forall|a: int, b: int|
                0 <= a < points@.len() && 0 <= b < (#[trigger] points@[a]).1@.len() ==> (
                #[trigger] points@[a].1@[b]).1 <= FX_VALUE_MAX,
            forall|a: int, b: int|
                0 <= a < i && 0 <= b < (#[trigger] points@[a]).1@.len() ==> posted(
                    *inverted_index,
                    points@[a].1@[b].0,
                    (#[trigger] points@[a].1@[b]).1,
                    points@[a].0 as u32,
                    version,
                ),
        decreases n - i,
    {
        let (id, vec) = &points[i];
        let vid = *id;
        let m = vec.len();
        let mut j: usize = 0;
        while j < m
            invariant
                inverted_index.wf(),
                n == points@.len(),
                i < n,
                m == points@[i as int].1@.len(),
                j <= m,
                *vec == points@[i as int].1,
                vid == points@[i as int].0,
                *inverted_index == (InvertedIndex {
                    root: inverted_index.root,
                    ..*old(inverted_index)
                }),
                forall|a: int, b: int|
                    0 <= a < points@.len() && 0 <= b < (#[trigger] points@[a]).1@.len() ==> (
                    #[trigger] points@[a].1@[b]).1 <= FX_VALUE_MAX,
                forall|a: int, b: int|
                    0 <= a < i && 0 <= b < (#[trigger] points@[a]).1@.len() ==> posted(
                        *inverted_index,
                        points@[a].1@[b].0,
                        (#[trigger] points@[a].1@[b]).1,
                        points@[a].0 as u32,
                        version,
                    ),
                forall|b: int|
                    0 <= b < j ==> posted(
                        *inverted_index,
                        points@[i as int].1@[b].0,
                        (#[trigger] points@[i as int].1@[b]).1,
                        points@[i as int].0 as u32,
                        version,
                    ),
            decreases m - j,
        {
            let (dim, value) = vec[j];
            let ghost pre = *inverted_index;
            let _ = inverted_index.insert(dim, value, vid as u32, version);
            proof {
                lemma_posted_preserved(pre, *inverted_index, version);
                assert(posted(*inverted_index, dim, value, vid as u32, version)) by {
                    let key = spec_quantize(
                        value as int,
                        pre.values_upper_bound as int,
                        pre.quantization_bits,
                    ) as u8;
                    assert(inverted_index.root.postings_of(dim, key) is Some);
                    let ids = inverted_index.root.postings_of(dim, key).unwrap().ids_of(version);
                    assert(ids.len() > 0 && ids[ids.len() - 1] == vid as u32);
                    assert(ids.contains(vid as u32));
                }
            }
            j += 1;
        }
        i += 1;
    }
}


/// The sampling tallies of the TF-IDF index: total token count and
/// document count of the buffered sample.
#[derive(Clone, Copy, PartialEq, Eq, Structural, Debug)]
pub struct IdfSamplingData {
    pub total_documents_length: u64,
    pub total_documents_count: u64,
}

impl IdfSamplingData {
    /// One sampling step as the upload performs it: the document's
    /// token count joins the totals when both have room, else the
    /// document is dropped from the sample.
    pub open spec fn spec_step(self, token_count: int) -> IdfSamplingData {
        if self.total_documents_length + token_count <= u64::MAX && self.total_documents_count
            < u64::MAX {
            IdfSamplingData {
                total_documents_length: (self.total_documents_length + token_count) as u64,
                total_documents_count: (self.total_documents_count + 1) as u64,
            }
        } else {
            self
        }
    }

    /// The totals after a whole batch of documents.
    pub open spec fn spec_steps(self, docs: Seq<Seq<u8>>) -> IdfSamplingData
        decreases docs.len(),
    {
        if docs.len() == 0 {
            self
        } else {
            self.spec_step(crate::tokenize::spec_tokens(docs[0]).len() as int).spec_steps(
                docs.skip(1),
            )
        }
    }
}

/// Peeling one document off the end of a TF-IDF sampling batch.
proof fn lemma_idf_steps_snoc(sd: IdfSamplingData, docs: Seq<Seq<u8>>, i: int)
    requires
        0 <= i < docs.len(),
    ensures
        sd.spec_steps(docs.take(i + 1)) == sd.spec_steps(docs.take(i)).spec_step(
            crate::tokenize::spec_tokens(docs[i]).len() as int,
        ),
    decreases i,
{
    reveal_with_fuel(IdfSamplingData::spec_steps, 3);
    if i == 0 {
        assert(docs.take(1)[0] == docs[0]);
        assert(docs.take(1).skip(1) =~= Seq::<Seq<u8>>::empty());
        assert(docs.take(0) =~= Seq::<Seq<u8>>::empty());
    } else {
        assert(docs.take(i + 1)[0] == docs[0]);
        assert(docs.take(i + 1).skip(1) =~= docs.skip(1).take(i));
        assert(docs.take(i)[0] == docs[0]);
        assert(docs.take(i).skip(1) =~= docs.skip(1).take(i - 1));
        lemma_idf_steps_snoc(
            sd.spec_step(crate::tokenize::spec_tokens(docs[0]).len() as int),
            docs.skip(1),
            i - 1,
        );
        assert(docs.skip(1)[i - 1] == docs[i]);
    }
}

/// The text of each document of a batch, in order.
pub open spec fn spec_doc_texts(docs: Seq<(u64, Vec<u8>)>) -> Seq<Seq<u8>> {
    docs.map_values(|d: (u64, Vec<u8>)| d.1@)
}

/// The TF-IDF index with its transaction state.
pub struct InvertedIndexIDF {
    pub root: TFIDFIndexRoot,
    pub lmdb: KvCatalog,
    pub vcs: VersionControl,
    pub current_version: u32,
    pub is_configured: bool,
    pub sample_threshold: usize,
    pub documents: Vec<(u64, Vec<u8>)>,
    pub documents_collected: usize,
    pub sampling_data: IdfSamplingData,
    pub average_document_length: u64,
    pub document_id_counter: u32,
    pub store_raw_text: bool,
    pub k1: u64,
    pub b: u64,
    pub vec_raw_map: Vec<(u32, u64, Vec<u8>)>,
}

impl InvertedIndexIDF {
    pub open spec fn wf(self) -> bool {
        &&& self.root.wf()
        &&& self.vcs.wf()
    }

    /// A new index; with a zero sample threshold it starts configured,
    /// with a default average document length of one token.
    pub fn new(sample_threshold: usize, store_raw_text: bool, k1: u64, b: u64) -> (r: Self)
        ensures
            r.wf(),
            r.is_configured == (sample_threshold == 0),
            r.sample_threshold == sample_threshold,
            r.average_document_length == FX_ONE,
            r.document_id_counter == 0,
            r.root.total_documents_count == 0,
            r.k1 == k1,
            r.b == b,
            r.store_raw_text == store_raw_text,
            r.documents@.len() == 0,
            r.documents_collected == 0,
            r.sampling_data == (IdfSamplingData {
                total_documents_length: 0,
                total_documents_count: 0,
            }),
            r.vcs.current == 0,
            r.lmdb.current_version is None,
            r.lmdb.average_document_length is None,
            r.vec_raw_map@.len() == 0,
            forall|hash_dim: u32| #[trigger] r.root.term_of(hash_dim) is None,
    {
        let (vcs, hash) = VersionControl::new();
        InvertedIndexIDF {
            root: TFIDFIndexRoot::new(1),
            lmdb: KvCatalog::new(),
            vcs,
            current_version: hash,
            is_configured: sample_threshold == 0,
            sample_threshold,
            documents: Vec::new(),
            documents_collected: 0,
            sampling_data: IdfSamplingData { total_documents_length: 0, total_documents_count: 0 },
            average_document_length: FX_ONE,
            document_id_counter: 0,
            store_raw_text,
            k1,
            b,
            vec_raw_map: Vec::new(),
        }
    }

    pub fn set_current_version(&mut self, version: u32)
        ensures
            *final(self) == (InvertedIndexIDF { current_version: version, ..*old(self) }),
    {
        self.current_version = version;
    }

    /// Indexes one document under `version`: the text is tokenized,
    /// each token occurrence posts `(document id, token share)` for its
    /// term hash, the document counters advance, and the raw text is
    /// recorded when the index stores raw text. Fails only when a term
    /// node's quotient map is full.
    pub fn insert(&mut self, version: u32, id: u64, text: &Vec<u8>) -> (r: Result<
        (),
        WaCustomError,
    >)
        requires
            old(self).wf(),
            old(self).document_id_counter < u32::MAX,
            old(self).root.total_documents_count < u32::MAX,
        ensures
            final(self).wf(),
            r is Ok ==> final(self).document_id_counter == old(self).document_id_counter + 1
                && final(self).root.total_documents_count == old(
                self,
            ).root.total_documents_count + 1,
            r is Err ==> r == Err::<(), WaCustomError>(WaCustomError::DatabaseError),
            r is Err ==> exists|i: int|
                0 <= i < spec_token_hashes(text@).len() && {
                    let p = crate::path::spec_path(
                        ((#[trigger] spec_token_hashes(text@)[i]) & 0xFFFFu32) as int,
                    );
                    final(self).root.root.has_path(p) && final(self).root.root.node_at(
                        p,
                    ).unwrap().data.map@.len() >= 0xFFFE
                },
            spec_token_hashes(text@).len() == 0 ==> r is Ok,
            (forall|i: int|
                0 <= i < spec_token_hashes(text@).len() ==> ({
                    let p = crate::path::spec_path(
                        ((#[trigger] spec_token_hashes(text@)[i]) & 0xFFFFu32) as int,
                    );
                    let was = old(self).root.root;
                    (if was.has_path(p) {
                        was.node_at(p).unwrap().data.map@.len() as int
                    } else {
                        0
                    }) + spec_token_hashes(text@).len() < 0xFFFE
                })) ==> r is Ok,
            r is Ok ==> forall|i: int|
                0 <= i < spec_token_hashes(text@).len() ==> doc_posted(
                    *final(self),
                    #[trigger] spec_token_hashes(text@)[i],
                    spec_tf(spec_token_hashes(text@).len() as int),
                    old(self).document_id_counter,
                    version,
                ),
            forall|h2: u32, t2: u32, d2: u32, v2: u32|
                doc_posted(*old(self), h2, t2, d2, v2) ==> #[trigger] doc_posted(
                    *final(self),
                    h2,
                    t2,
                    d2,
                    v2,
                ),
            *final(self) == (InvertedIndexIDF {
                root: final(self).root,
                document_id_counter: final(self).document_id_counter,
                vec_raw_map: final(self).vec_raw_map,
                ..*old(self)
            }),
    {
        let doc_id = self.document_id_counter;
        let hashes = crate::tokenize::token_hashes(text);
        let len = hashes.len();
        if len == 0 {
            self.document_id_counter = doc_id + 1;
            self.root.total_documents_count = self.root.total_documents_count + 1;
            if self.store_raw_text {
                self.vec_raw_map.push((version, id, clone_bytes(text)));
            }
            return Ok(());
        }
        let tf: u32 = (FX_ONE as u32) / (if len > 0xFFFF_FFFF {
            0xFFFF_FFFFusize
        } else {
            len
        } as u32);
        proof {
            assert(tf == spec_tf(len as int));
        }
        let mut i: usize = 0;
        while i < len
            invariant
                self.wf(),
                i <= len,
                len == hashes@.len(),
                hashes@ == spec_token_hashes(text@),
                tf == spec_tf(len as int),
                doc_id == old(self).document_id_counter,
                self.document_id_counter == old(self).document_id_counter,
                self.root.total_documents_count == old(self).root.total_documents_count,
                *self == (InvertedIndexIDF {
                    root: self.root,
                    document_id_counter: self.document_id_counter,
                    vec_raw_map: self.vec_raw_map,
                    ..*old(self)
                }),
                forall|p: Seq<u8>|
                    old(self).root.root.has_path(p) ==> #[trigger] self.root.root.has_path(p),
                forall|d2: u32|
                    #[trigger] self.root.root.has_path(crate::path::spec_path(d2 as int)) ==> ({
                        let cur = self.root.root;
                        let was = old(self).root.root;
                        cur.node_at(crate::path::spec_path(d2 as int)).unwrap().data.map@.len()
                            <= (if was.has_path(crate::path::spec_path(d2 as int)) {
                            was.node_at(
                                crate::path::spec_path(d2 as int),
                            ).unwrap().data.map@.len() as int
                        } else {
                            0
                        }) + i
                    }),
                forall|a: int|
                    0 <= a < i ==> doc_posted(*self, #[trigger] hashes@[a], tf, doc_id, version),
                forall|h2: u32, t2: u32, d2: u32, v2: u32|
                    doc_posted(*old(self), h2, t2, d2, v2) ==> #[trigger] doc_posted(
                        *self,
                        h2,
                        t2,
                        d2,
                        v2,
                    ),
            decreases len - i,
        {
            let hash_dim = hashes[i];
            let storage_dim = hash_dim & 0xFFFFu32;
            let within = match self.root.find_node(storage_dim) {
                Some(node) => node.data.map.len() < 0xFFFE,
                None => true,
            };
            if !within {
                proof {
                    let p = crate::path::spec_path((hash_dim & 0xFFFFu32) as int);
                    assert(spec_token_hashes(text@)[i as int] == hash_dim);
                    assert(self.root.root.has_path(p) && self.root.root.node_at(
                        p,
                    ).unwrap().data.map@.len() >= 0xFFFE);
                    if old(self).root.root.has_path(p) {
                        assert(self.root.root.node_at(p).unwrap().data.map@.len() <= old(
                            self,
                        ).root.root.node_at(p).unwrap().data.map@.len() + i);
                    } else {
                        assert(self.root.root.node_at(p).unwrap().data.map@.len() <= i);
                    }
                }
                return Err(WaCustomError::DatabaseError);
            }
            let ghost pre_count = self.root.total_documents_count;
            let ghost pre_state = *self;
            self.root.insert(hash_dim, tf, doc_id, version);
            proof {
                assert(self.root.total_documents_count == pre_count);
                lemma_doc_posted_step(pre_state, *self, hash_dim, tf, doc_id, version);
            }
            i += 1;
        }
        let ghost indexed = *self;
        self.document_id_counter = doc_id + 1;
        self.root.total_documents_count = self.root.total_documents_count + 1;
        if self.store_raw_text {
            self.vec_raw_map.push((version, id, clone_bytes(text)));
        }
        proof {
            assert forall|h2: u32, t2: u32, d2: u32, v2: u32|
                doc_posted(*old(self), h2, t2, d2, v2) implies #[trigger] doc_posted(
                *self,
                h2,
                t2,
                d2,
                v2,
            ) by {
                assert(doc_posted(indexed, h2, t2, d2, v2));
                assert(self.root.term_of(h2) == indexed.root.term_of(h2));
            }
            assert forall|i2: int|
                0 <= i2 < spec_token_hashes(text@).len() implies doc_posted(
                *self,
                #[trigger] spec_token_hashes(text@)[i2],
                spec_tf(spec_token_hashes(text@).len() as int),
                old(self).document_id_counter,
                version,
            ) by {
                assert(doc_posted(indexed, hashes@[i2], tf, doc_id, version));
                assert(self.root.term_of(hashes@[i2]) == indexed.root.term_of(hashes@[i2]));
            }
        }
        Ok(())
    }
}

/// The token share each occurrence of a term carries in a document of
/// `token_count` tokens: one fixed-point unit split evenly (the count
/// saturates at the 32-bit limit).
pub open spec fn spec_tf(token_count: int) -> u32 {
    (FX_ONE as u32) / (if token_count > 0xFFFF_FFFF {
        0xFFFF_FFFFu32
    } else {
        token_count as u32
    })
}

/// The fixed-point average document length the calibration commits: the
/// tallied totals divided out, with one token as the fallback when the
/// sample is empty or the product would overflow.
pub open spec fn spec_avg_doc_len(sd: IdfSamplingData) -> int {
    if sd.total_documents_count == 0 || sd.total_documents_length as int > u64::MAX as int
        / FX_ONE as int {
        FX_ONE as int
    } else {
        sd.total_documents_length as int * FX_ONE as int / sd.total_documents_count as int
    }
}

/// Whether the term `hash_dim` carries the posting `(document_id, tf)`
/// in its version segment for `version`.
pub open spec fn doc_posted(
    index: InvertedIndexIDF,
    hash_dim: u32,
    tf: u32,
    document_id: u32,
    version: u32,
) -> bool {
    &&& index.root.term_of(hash_dim) is Some
    &&& index.root.term_of(hash_dim).unwrap().documents.items_of(version).contains(
        (document_id, tf),
    )
}

/// One trie insertion keeps every standing posting and adds its own.
proof fn lemma_doc_posted_step(
    pre: InvertedIndexIDF,
    cur: InvertedIndexIDF,
    hash_dim: u32,
    tf: u32,
    doc_id: u32,
    version: u32,
)
    requires
        forall|h2: u32| h2 != hash_dim ==> #[trigger] cur.root.term_of(h2) == pre.root.term_of(h2),
        ({
            let updated = cur.root.term_of(hash_dim);
            match pre.root.term_of(hash_dim) {
                Some(t) => updated is Some && updated.unwrap().documents.items_of(version)
                    == spec_insert_sorted(t.documents.items_of(version), (doc_id, tf)) && forall|
                    v: u32,
                |
                    v != version ==> #[trigger] updated.unwrap().documents.items_of(v)
                        == t.documents.items_of(v),
                None => updated is Some && updated.unwrap().documents.items_of(version) == seq![
                    (doc_id, tf),
                ],
            }
        }),
    ensures
        doc_posted(cur, hash_dim, tf, doc_id, version),
        forall|h2: u32, t2: u32, d2: u32, v2: u32|
            doc_posted(pre, h2, t2, d2, v2) ==> #[trigger] doc_posted(cur, h2, t2, d2, v2),
{
    assert(doc_posted(cur, hash_dim, tf, doc_id, version)) by {
        match pre.root.term_of(hash_dim) {
            Some(t) => {
                lemma_insert_sorted_contains(
                    t.documents.items_of(version),
                    (doc_id, tf),
                    (doc_id, tf),
                );
            },
            None => {
                assert(cur.root.term_of(hash_dim).unwrap().documents.items_of(version)[0] == (
                doc_id,
                tf,
                ));
            },
        }
    }
    assert forall|h2: u32, t2: u32, d2: u32, v2: u32|
        doc_posted(pre, h2, t2, d2, v2) implies #[trigger] doc_posted(cur, h2, t2, d2, v2) by {
        if h2 == hash_dim {
            let t = pre.root.term_of(h2).unwrap();
            if v2 == version {
                lemma_insert_sorted_contains(t.documents.items_of(version), (doc_id, tf), (d2, t2));
            }
        }
    }
}

/// Clones a byte vector.
fn clone_bytes(v: &Vec<u8>) -> (r: Vec<u8>)
    ensures
        r@ == v@,
{
    let mut r: Vec<u8> = Vec::new();
    let mut i: usize = 0;
    while i < v.len()
        invariant
            i <= v@.len(),
            r@ == v@.take(i as int),
        decreases v@.len() - i,
    {
        r.push(v[i]);
        assert(r@ =~= v@.take(i + 1));
        i += 1;
    }
    assert(r@ =~= v@);
    r
}

/// Uploads a batch of documents outside any open transaction: a fresh
/// version is allocated and becomes the branch tip, every document is
/// indexed under it, and the highest internal id is recorded.
pub fn run_upload_sparse_idf_documents(
    idf_inverted_index: &mut InvertedIndexIDF,
    docs: Vec<(u64, Vec<u8>)>,
) -> (r: Result<(), WaCustomError>)
    requires
        old(idf_inverted_index).wf(),
        old(idf_inverted_index).vcs.current < u32::MAX,
        old(idf_inverted_index).document_id_counter + docs@.len() <= u32::MAX,
        old(idf_inverted_index).root.total_documents_count + docs@.len() <= u32::MAX,
    ensures
        final(idf_inverted_index).wf(),
        final(idf_inverted_index).current_version == old(idf_inverted_index).vcs.current + 1,
        final(idf_inverted_index).lmdb.current_version == Some(
            final(idf_inverted_index).current_version,
        ),
        r is Ok ==> {
            let fin = *final(idf_inverted_index);
            &&& fin.document_id_counter == old(idf_inverted_index).document_id_counter
                + docs@.len()
            &&& fin.root.total_documents_count == old(
                idf_inverted_index,
            ).root.total_documents_count + docs@.len()
            &&& fin.lmdb.highest_internal_id == Some(fin.document_id_counter)
        },
        r is Err ==> r == Err::<(), WaCustomError>(WaCustomError::DatabaseError),
        r is Err ==> exists|i: int, j: int|
            0 <= i < docs@.len() && 0 <= j < spec_token_hashes((#[trigger] docs@[i]).1@).len()
                && {
                let p = crate::path::spec_path(
                    ((#[trigger] spec_token_hashes(docs@[i].1@)[j]) & 0xFFFFu32) as int,
                );
                let fin_root = final(idf_inverted_index).root.root;
                fin_root.has_path(p) && fin_root.node_at(p).unwrap().data.map@.len() >= 0xFFFE
            },
        r is Ok ==> forall|i: int, j: int|
            0 <= i < docs@.len() && 0 <= j < spec_token_hashes(
                (#[trigger] docs@[i]).1@,
            ).len() ==> doc_posted(
                *final(idf_inverted_index),
                #[trigger] spec_token_hashes(docs@[i].1@)[j],
                spec_tf(spec_token_hashes(docs@[i].1@).len() as int),
                (old(idf_inverted_index).document_id_counter + i) as u32,
                (old(idf_inverted_index).vcs.current + 1) as u32,
            ),
{
    let (current_version, _parent) = idf_inverted_index.vcs.add_next_version();
    idf_inverted_index.set_current_version(current_version);
    let n = docs.len();
    let mut i: usize = 0;
    while i < n
        invariant
            idf_inverted_index.wf(),
            n == docs@.len(),
            i <= n,
            idf_inverted_index.current_version == current_version,
            current_version == old(idf_inverted_index).vcs.current + 1,
            idf_inverted_index.lmdb == old(idf_inverted_index).lmdb,
            idf_inverted_index.document_id_counter == old(
                idf_inverted_index,
            ).document_id_counter + i,
            idf_inverted_index.root.total_documents_count == old(
                idf_inverted_index,
            ).root.total_documents_count + i,
            old(idf_inverted_index).document_id_counter + docs@.len() <= u32::MAX,
            old(idf_inverted_index).root.total_documents_count + docs@.len() <= u32::MAX,
            forall|a: int, b: int|
                0 <= a < i && 0 <= b < spec_token_hashes((#[trigger] docs@[a]).1@).len()
                    ==> doc_posted(
                    *idf_inverted_index,
                    #[trigger] spec_token_hashes(docs@[a].1@)[b],
                    spec_tf(spec_token_hashes(docs@[a].1@).len() as int),
                    (old(idf_inverted_index).document_id_counter + a) as u32,
                    current_version,
                ),
        decreases n - i,
    {
        let (id, text) = &docs[i];
        let ghost pre = *idf_inverted_index;
        let res = idf_inverted_index.insert(current_version, *id, text);
        if res.is_err() {
            let ghost erred = *idf_inverted_index;
            crate::versioning::store_highest_internal_id(
                &mut idf_inverted_index.lmdb,
                idf_inverted_index.document_id_counter,
            );
            update_current_version(&mut idf_inverted_index.lmdb, current_version);
            proof {
                let j = choose|j: int|
                    0 <= j < spec_token_hashes(text@).len() && {
                        let p = crate::path::spec_path(
                            ((#[trigger] spec_token_hashes(text@)[j]) & 0xFFFFu32) as int,
                        );
                        erred.root.root.has_path(p) && erred.root.root.node_at(
                            p,
                        ).unwrap().data.map@.len() >= 0xFFFE
                    };
                assert(docs@[i as int].1@ == text@);
                assert(idf_inverted_index.root == erred.root);
            }
            return res;
        }
        proof {
            assert forall|a: int, b: int|
                0 <= a < i + 1 && 0 <= b < spec_token_hashes(
                    (#[trigger] docs@[a]).1@,
                ).len() implies doc_posted(
                *idf_inverted_index,
                #[trigger] spec_token_hashes(docs@[a].1@)[b],
                spec_tf(spec_token_hashes(docs@[a].1@).len() as int),
                (old(idf_inverted_index).document_id_counter + a) as u32,
                current_version,
            ) by {
                if a < i {
                    assert(doc_posted(
                        pre,
                        spec_token_hashes(docs@[a].1@)[b],
                        spec_tf(spec_token_hashes(docs@[a].1@).len() as int),
                        (old(idf_inverted_index).document_id_counter + a) as u32,
                        current_version,
                    ));
                }
            }
        }
        i += 1;
    }
    crate::versioning::store_highest_internal_id(
        &mut idf_inverted_index.lmdb,
        idf_inverted_index.document_id_counter,
    );
    update_current_version(&mut idf_inverted_index.lmdb, current_version);
    Ok(())
}

/// Uploads documents inside an open transaction. Before calibration the
/// batch only feeds the token-count tallies and the buffer; the batch
/// that reaches the sample threshold commits the average document
/// length, flips the configured flag and indexes the whole buffer.
pub fn run_upload_sparse_idf_documents_in_transaction(
    idf_inverted_index: &mut InvertedIndexIDF,
    transaction_id: u32,
    sample_docs: Vec<(u64, Vec<u8>)>,
) -> (r: Result<(), WaCustomError>)
    requires
        old(idf_inverted_index).wf(),
        old(idf_inverted_index).documents@.len() + sample_docs@.len() <= usize::MAX,
        old(idf_inverted_index).documents_collected + sample_docs@.len() <= usize::MAX,
    ensures
        final(idf_inverted_index).wf(),
        old(idf_inverted_index).is_configured ==> final(idf_inverted_index).is_configured,
        !old(idf_inverted_index).is_configured && old(idf_inverted_index).documents_collected < old(
            idf_inverted_index,
        ).sample_threshold && old(idf_inverted_index).documents@.len() + sample_docs@.len() < old(
            idf_inverted_index,
        ).sample_threshold ==> {
            &&& r is Ok
            &&& !final(idf_inverted_index).is_configured
            &&& final(idf_inverted_index).documents@ == old(idf_inverted_index).documents@
                + sample_docs@
            &&& final(idf_inverted_index).root == old(idf_inverted_index).root
            &&& final(idf_inverted_index).lmdb == old(idf_inverted_index).lmdb
            &&& final(idf_inverted_index).document_id_counter == old(
                idf_inverted_index,
            ).document_id_counter
            &&& final(idf_inverted_index).documents_collected == old(
                idf_inverted_index,
            ).documents_collected + sample_docs@.len()
            &&& final(idf_inverted_index).sampling_data == old(
                idf_inverted_index,
            ).sampling_data.spec_steps(spec_doc_texts(sample_docs@))
        },
        !old(idf_inverted_index).is_configured && old(idf_inverted_index).documents_collected < old(
            idf_inverted_index,
        ).sample_threshold && old(idf_inverted_index).documents@.len() + sample_docs@.len() >= old(
            idf_inverted_index,
        ).sample_threshold ==> {
            &&& final(idf_inverted_index).is_configured
            &&& final(idf_inverted_index).lmdb.average_document_length == Some(
                final(idf_inverted_index).average_document_length,
            )
            &&& final(idf_inverted_index).sampling_data == old(
                idf_inverted_index,
            ).sampling_data.spec_steps(spec_doc_texts(sample_docs@))
            &&& final(idf_inverted_index).average_document_length as int == spec_avg_doc_len(
                final(idf_inverted_index).sampling_data,
            )
            &&& final(idf_inverted_index).documents@.len() == 0
            &&& r is Err ==> r == Err::<(), WaCustomError>(WaCustomError::DatabaseError)
            &&& old(idf_inverted_index).document_id_counter + old(
                idf_inverted_index,
            ).documents@.len() + sample_docs@.len() <= u32::MAX && old(
                idf_inverted_index,
            ).root.total_documents_count + old(idf_inverted_index).documents@.len()
                + sample_docs@.len() <= u32::MAX && r is Ok ==> {
                &&& forall|i: int, j: int|
                    0 <= i < old(idf_inverted_index).documents@.len() && 0 <= j
                        < spec_token_hashes(
                        (#[trigger] old(idf_inverted_index).documents@[i]).1@,
                    ).len() ==> doc_posted(
                        *final(idf_inverted_index),
                        #[trigger] spec_token_hashes(old(idf_inverted_index).documents@[i].1@)[j],
                        spec_tf(
                            spec_token_hashes(old(idf_inverted_index).documents@[i].1@).len() as int,
                        ),
                        (old(idf_inverted_index).document_id_counter + i) as u32,
                        transaction_id,
                    )
                &&& forall|i: int, j: int|
                    0 <= i < sample_docs@.len() && 0 <= j < spec_token_hashes(
                        (#[trigger] sample_docs@[i]).1@,
                    ).len() ==> doc_posted(
                        *final(idf_inverted_index),
                        #[trigger] spec_token_hashes(sample_docs@[i].1@)[j],
                        spec_tf(spec_token_hashes(sample_docs@[i].1@).len() as int),
                        (old(idf_inverted_index).document_id_counter + old(
                            idf_inverted_index,
                        ).documents@.len() + i) as u32,
                        transaction_id,
                    )
            }
        },
        old(idf_inverted_index).is_configured ==> {
            &&& r is Err ==> r == Err::<(), WaCustomError>(WaCustomError::DatabaseError)
            &&& *final(idf_inverted_index) == (InvertedIndexIDF {
                root: final(idf_inverted_index).root,
                document_id_counter: final(idf_inverted_index).document_id_counter,
                vec_raw_map: final(idf_inverted_index).vec_raw_map,
                ..*old(idf_inverted_index)
            })
            &&& old(idf_inverted_index).document_id_counter + sample_docs@.len() <= u32::MAX && old(
                idf_inverted_index,
            ).root.total_documents_count + sample_docs@.len() <= u32::MAX && r is Ok ==> forall|
                i: int,
                j: int,
            |
                0 <= i < sample_docs@.len() && 0 <= j < spec_token_hashes(
                    (#[trigger] sample_docs@[i]).1@,
                ).len() ==> doc_posted(
                    *final(idf_inverted_index),
                    #[trigger] spec_token_hashes(sample_docs@[i].1@)[j],
                    spec_tf(spec_token_hashes(sample_docs@[i].1@).len() as int),
                    (old(idf_inverted_index).document_id_counter + i) as u32,
                    transaction_id,
                )
        },
        !old(idf_inverted_index).is_configured && old(idf_inverted_index).documents_collected
            >= old(idf_inverted_index).sample_threshold ==> {
            &&& r is Err ==> r == Err::<(), WaCustomError>(WaCustomError::DatabaseError)
            &&& *final(idf_inverted_index) == (InvertedIndexIDF {
                root: final(idf_inverted_index).root,
                document_id_counter: final(idf_inverted_index).document_id_counter,
                vec_raw_map: final(idf_inverted_index).vec_raw_map,
                documents_collected: final(idf_inverted_index).documents_collected,
                ..*old(idf_inverted_index)
            })
            &&& final(idf_inverted_index).documents_collected == old(
                idf_inverted_index,
            ).documents_collected + sample_docs@.len()
            &&& old(idf_inverted_index).document_id_counter + sample_docs@.len() <= u32::MAX && old(
                idf_inverted_index,
            ).root.total_documents_count + sample_docs@.len() <= u32::MAX && r is Ok ==> forall|
                i: int,
                j: int,
            |
                0 <= i < sample_docs@.len() && 0 <= j < spec_token_hashes(
                    (#[trigger] sample_docs@[i]).1@,
                ).len() ==> doc_posted(
                    *final(idf_inverted_index),
                    #[trigger] spec_token_hashes(sample_docs@[i].1@)[j],
                    spec_tf(spec_token_hashes(sample_docs@[i].1@).len() as int),
                    (old(idf_inverted_index).document_id_counter + i) as u32,
                    transaction_id,
                )
        },
{
    let n_new = sample_docs.len();
    if !idf_inverted_index.is_configured {
        let collected_count = idf_inverted_index.documents_collected;
        idf_inverted_index.documents_collected = collected_count + n_new;
        if collected_count < idf_inverted_index.sample_threshold {
            let ghost dtexts = spec_doc_texts(sample_docs@);
            let mut i: usize = 0;
            while i < sample_docs.len()
                invariant
                    i <= sample_docs@.len(),
                    idf_inverted_index.wf(),
                    idf_inverted_index.is_configured == false,
                    idf_inverted_index.documents@ == old(idf_inverted_index).documents@,
                    idf_inverted_index.documents_collected == old(
                        idf_inverted_index,
                    ).documents_collected + n_new,
                    idf_inverted_index.sample_threshold == old(
                        idf_inverted_index,
                    ).sample_threshold,
                    idf_inverted_index.lmdb == old(idf_inverted_index).lmdb,
                    idf_inverted_index.vcs == old(idf_inverted_index).vcs,
                    idf_inverted_index.root == old(idf_inverted_index).root,
                    idf_inverted_index.current_version == old(idf_inverted_index).current_version,
                    idf_inverted_index.document_id_counter == old(
                        idf_inverted_index,
                    ).document_id_counter,
                    idf_inverted_index.average_document_length == old(
                        idf_inverted_index,
                    ).average_document_length,
                    dtexts == spec_doc_texts(sample_docs@),
                    idf_inverted_index.sampling_data == old(
                        idf_inverted_index,
                    ).sampling_data.spec_steps(dtexts.take(i as int)),
                decreases sample_docs@.len() - i,
            {
                let len = crate::tokenize::count_tokens(&sample_docs[i].1);
                if idf_inverted_index.sampling_data.total_documents_length <= u64::MAX - len as u64
                    && idf_inverted_index.sampling_data.total_documents_count < u64::MAX {
                    idf_inverted_index.sampling_data =
                        IdfSamplingData {
                        total_documents_length:
                            idf_inverted_index.sampling_data.total_documents_length + len as u64,
                        total_documents_count:
                            idf_inverted_index.sampling_data.total_documents_count + 1,
                    };
                }
                proof {
                    lemma_idf_steps_snoc(old(idf_inverted_index).sampling_data, dtexts, i as int);
                    assert(dtexts[i as int] == sample_docs@[i as int].1@);
                }
                i += 1;
            }
            proof {
                assert(dtexts.take(dtexts.len() as int) =~= dtexts);
            }
            let mut docs = sample_docs;
            idf_inverted_index.documents.append(&mut docs);
            if idf_inverted_index.documents.len() < idf_inverted_index.sample_threshold {
                return Ok(());
            }
            let total_count = idf_inverted_index.sampling_data.total_documents_count;
            let total_length = idf_inverted_index.sampling_data.total_documents_length;
            let avg_length: u64 = if total_count == 0 || total_length > u64::MAX / FX_ONE {
                FX_ONE
            } else {
                (total_length * FX_ONE) / total_count
            };
            idf_inverted_index.average_document_length = avg_length;
            idf_inverted_index.is_configured = true;
            store_average_document_length(&mut idf_inverted_index.lmdb, avg_length);
            let ghost buffered_spec = old(idf_inverted_index).documents@ + sample_docs@;
            let mut buffered: Vec<(u64, Vec<u8>)> = Vec::new();
            core::mem::swap(&mut buffered, &mut idf_inverted_index.documents);
            proof {
                assert(buffered@ == buffered_spec);
            }
            let ghost mid = *idf_inverted_index;
            let res = insert_idf_batch(idf_inverted_index, &buffered, transaction_id);
            proof {
                if old(idf_inverted_index).document_id_counter + old(
                    idf_inverted_index,
                ).documents@.len() + sample_docs@.len() <= u32::MAX && old(
                    idf_inverted_index,
                ).root.total_documents_count + old(idf_inverted_index).documents@.len()
                    + sample_docs@.len() <= u32::MAX && res is Ok {
                    assert forall|i2: int, j2: int|
                        0 <= i2 < old(idf_inverted_index).documents@.len() && 0 <= j2
                            < spec_token_hashes(
                            (#[trigger] old(idf_inverted_index).documents@[i2]).1@,
                        ).len() implies doc_posted(
                        *idf_inverted_index,
                        #[trigger] spec_token_hashes(
                            old(idf_inverted_index).documents@[i2].1@,
                        )[j2],
                        spec_tf(
                            spec_token_hashes(old(idf_inverted_index).documents@[i2].1@).len() as int,
                        ),
                        (old(idf_inverted_index).document_id_counter + i2) as u32,
                        transaction_id,
                    ) by {
                        assert(buffered@[i2] == old(idf_inverted_index).documents@[i2]);
                    }
                    assert forall|i2: int, j2: int|
                        0 <= i2 < sample_docs@.len() && 0 <= j2 < spec_token_hashes(
                            (#[trigger] sample_docs@[i2]).1@,
                        ).len() implies doc_posted(
                        *idf_inverted_index,
                        #[trigger] spec_token_hashes(sample_docs@[i2].1@)[j2],
                        spec_tf(spec_token_hashes(sample_docs@[i2].1@).len() as int),
                        (old(idf_inverted_index).document_id_counter + old(
                            idf_inverted_index,
                        ).documents@.len() + i2) as u32,
                        transaction_id,
                    ) by {
                        assert(buffered@[old(idf_inverted_index).documents@.len() + i2]
                            == sample_docs@[i2]);
                    }
                }
            }
            return res;
        }
    }
    insert_idf_batch(idf_inverted_index, &sample_docs, transaction_id)
}

/// Indexes every buffered document under `version`.
fn insert_idf_batch(
    idf_inverted_index: &mut InvertedIndexIDF,
    docs: &Vec<(u64, Vec<u8>)>,
    version: u32,
) -> (r: Result<(), WaCustomError>)
    requires
        old(idf_inverted_index).wf(),
    ensures
        final(idf_inverted_index).wf(),
        *final(idf_inverted_index) == (InvertedIndexIDF {
            root: final(idf_inverted_index).root,
            document_id_counter: final(idf_inverted_index).document_id_counter,
            vec_raw_map: final(idf_inverted_index).vec_raw_map,
            ..*old(idf_inverted_index)
        }),
        r is Err ==> r == Err::<(), WaCustomError>(WaCustomError::DatabaseError),
        old(idf_inverted_index).document_id_counter + docs@.len() <= u32::MAX && old(
            idf_inverted_index,
        ).root.total_documents_count + docs@.len() <= u32::MAX && r is Ok ==> forall|i: int, j: int|
            0 <= i < docs@.len() && 0 <= j < spec_token_hashes(
                (#[trigger] docs@[i]).1@,
            ).len() ==> doc_posted(
                *final(idf_inverted_index),
                #[trigger] spec_token_hashes(docs@[i].1@)[j],
                spec_tf(spec_token_hashes(docs@[i].1@).len() as int),
                (old(idf_inverted_index).document_id_counter + i) as u32,
                version,
            ),
{
    let ghost room = old(idf_inverted_index).document_id_counter + docs@.len() <= u32::MAX && old(
        idf_inverted_index,
    ).root.total_documents_count + docs@.len() <= u32::MAX;
    let n = docs.len();
    let mut i: usize = 0;
    while i < n
        invariant
            idf_inverted_index.wf(),
            n == docs@.len(),
            i <= n,
            *idf_inverted_index == (InvertedIndexIDF {
                root: idf_inverted_index.root,
                document_id_counter: idf_inverted_index.document_id_counter,
                vec_raw_map: idf_inverted_index.vec_raw_map,
                ..*old(idf_inverted_index)
            }),
            room == (old(idf_inverted_index).document_id_counter + docs@.len() <= u32::MAX && old(
                idf_inverted_index,
            ).root.total_documents_count + docs@.len() <= u32::MAX),
            room ==> idf_inverted_index.document_id_counter == old(
                idf_inverted_index,
            ).document_id_counter + i && idf_inverted_index.root.total_documents_count == old(
                idf_inverted_index,
            ).root.total_documents_count + i,
            room ==> forall|a: int, b: int|
                0 <= a < i && 0 <= b < spec_token_hashes((#[trigger] docs@[a]).1@).len()
                    ==> doc_posted(
                    *idf_inverted_index,
                    #[trigger] spec_token_hashes(docs@[a].1@)[b],
                    spec_tf(spec_token_hashes(docs@[a].1@).len() as int),
                    (old(idf_inverted_index).document_id_counter + a) as u32,
                    version,
                ),
        decreases n - i,
    {
        let (id, text) = &docs[i];
        if !(idf_inverted_index.document_id_counter < u32::MAX
            && idf_inverted_index.root.total_documents_count < u32::MAX) {
            return Err(WaCustomError::DatabaseError);
        }
        {
            let ghost pre = *idf_inverted_index;
            let res = idf_inverted_index.insert(version, *id, text);
            if res.is_err() {
                return res;
            }
            proof {
                if room {
                    assert forall|a: int, b: int|
                        0 <= a < i + 1 && 0 <= b < spec_token_hashes(
                            (#[trigger] docs@[a]).1@,
                        ).len() implies doc_posted(
                        *idf_inverted_index,
                        #[trigger] spec_token_hashes(docs@[a].1@)[b],
                        spec_tf(spec_token_hashes(docs@[a].1@).len() as int),
                        (old(idf_inverted_index).document_id_counter + a) as u32,
                        version,
                    ) by {
                        if a < i {
                            assert(doc_posted(
                                pre,
                                spec_token_hashes(docs@[a].1@)[b],
                                spec_tf(spec_token_hashes(docs@[a].1@).len() as int),
                                (old(idf_inverted_index).document_id_counter + a) as u32,
                                version,
                            ));
                        }
                    }
                }
            }
        }
        i += 1;
    }
    Ok(())
}

} // verus!
