//! The dense index service: creation with its hyperparameters and
//! level-probability table, the sampling transaction that calibrates
//! the value range, the batch upload that settles the indexed and
//! unindexed counters, and the metadata-filtered query executor.
//!
//! Embeddings carry the version of the transaction that wrote them; a
//! query sees exactly the embeddings of versions at or below the
//! committed tip, so uncommitted transactions stay invisible until
//! `commit_transaction` advances the tip.

use crate::api_service::WaCustomError;
use crate::calibration::{compute_values_range, spec_range_end, DenseSamplingData};
use crate::bufio::BufferManagerFactory;
use crate::fixed::{FX_ONE, FX_VALUE_MAX};
use crate::sparse_ann_query::{lemma_contains_count, lemma_count_one_index, lemma_insert_multiset};
use crate::versioning::{
    plan_upload_commit, store_values_range, update_current_version, KvCatalog, VersionControl,
};
use vstd::prelude::*;

verus! {

/// The dense value grid: signed fixed-point, the same grain as the
/// unsigned grid.
pub const FX_I_ONE: i64 = 65536;

/// Fixed-at-creation graph parameters.
#[derive(Clone, Copy, PartialEq, Eq, Structural, Debug)]
pub struct HNSWHyperParams {
    pub num_layers: u8,
    pub ef_construction: u32,
    pub ef_search: u32,
    pub neighbors_count: u32,
    pub level_0_neighbors_count: u32,
}

/// The level table entry: the cumulative probability mass (fixed
/// point) above which a new vector lands at this layer.
pub open spec fn spec_level_prob(factor_fx: int, layer: int) -> int
    decreases layer,
{
    if layer <= 0 {
        FX_ONE as int
    } else {
        spec_level_prob(factor_fx, layer - 1) * (FX_ONE as int) / factor_fx
    }
}

/// The level-probability table from a geometric factor: layer `l`
/// keeps `1 / factor^l` of the mass, highest layer first.
pub fn generate_level_probs(factor_fx: u64, num_layers: u8) -> (r: Vec<(u64, u8)>)
    requires
        factor_fx >= FX_ONE,
    ensures
        r@.len() == num_layers + 1,
        forall|i: int|
            0 <= i < r@.len() ==> (#[trigger] r@[i]).1 == num_layers - i && r@[i].0 as int
                == spec_level_prob(factor_fx as int, num_layers - i),
{
    let mut probs_up: Vec<u64> = Vec::new();
    let mut l: u8 = 0;
    let mut current: u64 = FX_ONE;
    probs_up.push(current);
    proof {
        assert(probs_up@.len() == 1);
        assert(probs_up@[0] == FX_ONE);
    }
    while l < num_layers
        invariant
            l <= num_layers,
            factor_fx >= FX_ONE,
            probs_up@.len() == l + 1,
            current == probs_up@[l as int],
            current <= FX_ONE,
            forall|i: int|
                0 <= i <= l ==> (#[trigger] probs_up@[i]) as int == spec_level_prob(
                    factor_fx as int,
                    i,
                ),
        decreases num_layers - l,
    {
        proof {
            assert(current * FX_ONE <= 65536 * 65536) by (nonlinear_arith)
                requires
                    current <= 65536,
            ;
        }
        let next = current * FX_ONE / factor_fx;
        proof {
            assert(next <= current) by (nonlinear_arith)
                requires
                    next as int == (current as int) * 65536 / (factor_fx as int),
                    factor_fx >= 65536,
                    current >= 0,
            ;
        }
        probs_up.push(next);
        current = next;
        l += 1;
    }
    let mut r: Vec<(u64, u8)> = Vec::new();
    let mut i: usize = 0;
    let n = probs_up.len();
    while i < n
        invariant
            n == probs_up@.len(),
            n == num_layers + 1,
            i <= n,
            r@.len() == i,
            forall|j: int|
                0 <= j < probs_up@.len() ==> (#[trigger] probs_up@[j]) as int == spec_level_prob(
                    factor_fx as int,
                    j,
                ),
            forall|j: int|
                0 <= j < i ==> (#[trigger] r@[j]).1 == num_layers - j && r@[j].0 as int
                    == spec_level_prob(factor_fx as int, num_layers - j),
        decreases n - i,
    {
        let layer = num_layers - (i as u8);
        r.push((probs_up[num_layers as usize - i], layer));
        i += 1;
    }
    r
}

/// A stored dense embedding: the caller id, the version of the
/// transaction that wrote it, the per-component quantized codes, and
/// the encoded metadata dimensions (empty when the vector carries
/// none).
pub struct DenseEmbedding {
    pub vector_id: u64,
    pub version: u32,
    pub codes: Vec<u8>,
    pub metadata_dims: Vec<u32>,
}

/// A dense vector as it was uploaded: the raw fixed-point components
/// and the metadata fields, kept for full-precision re-ranking.
pub struct DenseRawEmbedding {
    pub hash_vec: u64,
    pub raw_vec: Vec<i64>,
    pub raw_metadata: Option<Vec<u32>>,
}

/// The dense index with its transaction state. The content store holds
/// the quantized embeddings the searcher scans; only embeddings of
/// committed versions are visible to queries.
pub struct HNSWIndex {
    pub name: Vec<u8>,
    pub hnsw_params: HNSWHyperParams,
    pub level_probs: Vec<(u64, u8)>,
    pub dim: usize,
    pub lmdb: KvCatalog,
    pub vcs: VersionControl,
    pub current_version: u32,
    pub values_range: (i64, i64),
    pub is_configured: bool,
    pub sample_threshold: usize,
    pub vectors: Vec<(u64, Vec<i64>, Option<Vec<u32>>)>,
    pub vectors_collected: usize,
    pub sampling_data: DenseSamplingData,
    pub storage: Vec<DenseEmbedding>,
    pub vec_raw_map: Vec<(u32, DenseRawEmbedding)>,
    pub total_uploaded: u32,
    pub clamp_margin_percent: u64,
}

/// The raw components stored for a vector id, newest record first.
pub open spec fn spec_raw_of(s: Seq<(u32, DenseRawEmbedding)>, id: u64) -> Option<Seq<i64>>
    decreases s.len(),
{
    if s.len() == 0 {
        None
    } else if s.last().1.hash_vec == id {
        Some(s.last().1.raw_vec@)
    } else {
        spec_raw_of(s.drop_last(), id)
    }
}

/// The signed quantization of one component against a range.
pub open spec fn spec_quantize_signed(v: int, lo: int, hi: int) -> int
    recommends
        lo < hi,
{
    let clamped = if v < lo {
        lo
    } else if v > hi {
        hi
    } else {
        v
    };
    (clamped - lo) * 255 / (hi - lo)
}

/// Quantizes one signed fixed-point component to a byte code.
pub fn quantize_signed(v: i64, lo: i64, hi: i64) -> (r: u8)
    requires
        lo < hi,
        -0x1_0000_0000 <= lo,
        hi <= 0x1_0000_0000,
    ensures
        r as int == spec_quantize_signed(v as int, lo as int, hi as int),
{
    let clamped = if v < lo {
        lo
    } else if v > hi {
        hi
    } else {
        v
    };
    proof {
        assert((clamped - lo) * 255 <= (hi - lo) * 255 && 0 <= (clamped - lo) * 255) by (
        nonlinear_arith)
            requires
                lo <= clamped <= hi,
        ;
        assert((hi - lo) * 255 <= 0x2_0000_0000int * 255) by (nonlinear_arith)
            requires
                hi - lo <= 0x2_0000_0000int,
        ;
        let d = (clamped - lo) * 255;
        assert(d / (hi - lo) <= 255) by (nonlinear_arith)
            requires
                0 <= d <= (hi - lo) * 255,
                hi - lo > 0,
        ;
    }
    let q = ((clamped - lo) * 255) / (hi - lo);
    q as u8
}

/// The codes a whole vector quantizes to on a range.
pub open spec fn spec_codes(values: Seq<i64>, lo: int, hi: int) -> Seq<u8> {
    Seq::new(values.len(), |i: int| spec_quantize_signed(values[i] as int, lo, hi) as u8)
}

/// The value a code stands for on a range.
pub open spec fn spec_dequantize_signed(code: int, lo: int, hi: int) -> int {
    lo + code * (hi - lo) / 255
}

/// Division rounding toward zero, as machine signed division rounds.
pub open spec fn trunc_div(a: int, b: int) -> int
    recommends
        b > 0,
{
    if a >= 0 {
        a / b
    } else {
        -((-a) / b)
    }
}

/// The dot product of two code runs of one length, each pair
/// dequantized on the range and its product scaled back to the grid.
pub open spec fn spec_dense_score(q: Seq<u8>, v: Seq<u8>, lo: int, hi: int) -> int
    decreases q.len(),
{
    if q.len() == 0 || v.len() == 0 {
        0
    } else {
        trunc_div(
            spec_dequantize_signed(q.last() as int, lo, hi) * spec_dequantize_signed(
                v.last() as int,
                lo,
                hi,
            ),
            FX_I_ONE as int,
        ) + spec_dense_score(q.drop_last(), v.drop_last(), lo, hi)
    }
}

/// Saturation to the signed 64-bit grid.
pub open spec fn sat64(x: int) -> int {
    if x > i64::MAX {
        i64::MAX as int
    } else if x < i64::MIN {
        i64::MIN as int
    } else {
        x
    }
}

/// The committed tip a query snapshots: the catalog's current version,
/// or the root version when nothing was committed yet.
pub open spec fn spec_tip(index: HNSWIndex) -> u32 {
    match index.lmdb.current_version {
        Some(v) => v,
        None => 0u32,
    }
}

/// Whether an embedding's version is committed at a tip.
pub open spec fn spec_visible(e: DenseEmbedding, tip: u32) -> bool {
    e.version <= tip
}

impl HNSWIndex {
    pub open spec fn wf(self) -> bool {
        &&& self.vcs.wf()
        &&& self.values_range.0 < self.values_range.1
        &&& -0x1_0000_0000 <= self.values_range.0
        &&& self.values_range.1 <= 0x1_0000_0000
        &&& self.clamp_margin_percent <= 100 * FX_ONE
        &&& forall|i: int|
            0 <= i < self.storage@.len() ==> (#[trigger] self.storage@[i]).codes@.len()
                == self.dim
    }

    /// Creates the index for a collection: the hyperparameters and the
    /// level-probability table are fixed here; a missing value range
    /// defaults to one unit each side; with a zero sample threshold
    /// the index is configured at once. Everything mutable starts
    /// empty: no samples, no tallies, no stored embeddings, zeroed
    /// catalog counters.
    pub fn new(
        name: Vec<u8>,
        dim: usize,
        values_range: Option<(i64, i64)>,
        hnsw_params: HNSWHyperParams,
        sample_threshold: usize,
        clamp_margin_percent: u64,
    ) -> (r: Self)
        requires
            clamp_margin_percent <= 100 * FX_ONE,
            match values_range {
                Some((lo, hi)) => lo < hi && -0x1_0000_0000 <= lo && hi <= 0x1_0000_0000,
                None => true,
            },
        ensures
            r.wf(),
            r.is_configured == (sample_threshold == 0 || values_range is Some),
            r.values_range == (match values_range {
                Some(vr) => vr,
                None => (-65536i64, 65536i64),
            }),
            r.current_version == 0,
            r.sample_threshold == sample_threshold,
            r.hnsw_params == hnsw_params,
            r.dim == dim,
            r.total_uploaded == 0,
            r.storage@.len() == 0,
            r.vectors@.len() == 0,
            r.vectors_collected == 0,
            r.sampling_data == DenseSamplingData::spec_zeroed(),
            r.vcs.current == 0,
            r.clamp_margin_percent == clamp_margin_percent,
            r.lmdb.count_indexed == 0,
            r.lmdb.count_unindexed == 0,
            r.lmdb.current_version is None,
            r.vec_raw_map@.len() == 0,
            r.lmdb.embedding_offsets@.len() == 0,
            r.lmdb.last_indexed_version is None,
            values_range is Some ==> r.lmdb.values_range == Some(values_range.unwrap()),
            r.level_probs@.len() == hnsw_params.num_layers + 1,
    {
        let (vcs, hash) = VersionControl::new();
        let mut lmdb = KvCatalog::new();
        let configured = sample_threshold == 0 || values_range.is_some();
        let range = match values_range {
            Some(range) => {
                store_values_range(&mut lmdb, range);
                range
            },
            None => (-FX_I_ONE, FX_I_ONE),
        };
        let level_probs = generate_level_probs(4 * FX_ONE, hnsw_params.num_layers);
        HNSWIndex {
            name,
            hnsw_params,
            level_probs,
            dim,
            lmdb,
            vcs,
            current_version: hash,
            values_range: range,
            is_configured: configured,
            sample_threshold,
            vectors: Vec::new(),
            vectors_collected: 0,
            sampling_data: DenseSamplingData::new(),
            storage: Vec::new(),
            vec_raw_map: Vec::new(),
            total_uploaded: 0,
            clamp_margin_percent,
        }
    }

    pub fn set_current_version(&mut self, version: u32)
        ensures
            *final(self) == (HNSWIndex { current_version: version, ..*old(self) }),
    {
        self.current_version = version;
    }

    /// Allocates the next version for a transaction; nothing becomes
    /// visible to queries until that version is committed.
    pub fn begin_transaction(&mut self) -> (r: u32)
        requires
            old(self).wf(),
            old(self).vcs.current < u32::MAX,
        ensures
            final(self).wf(),
            r == old(self).vcs.current + 1,
            final(self).vcs.current == r,
            *final(self) == (HNSWIndex { vcs: final(self).vcs, ..*old(self) }),
    {
        let (version, _parent) = self.vcs.add_next_version();
        version
    }

    /// Commits a transaction: the catalog tip advances to its version,
    /// making its embeddings visible to queries that start afterwards.
    pub fn commit_transaction(&mut self, transaction_id: u32)
        requires
            old(self).wf(),
        ensures
            final(self).wf(),
            *final(self) == (HNSWIndex {
                current_version: transaction_id,
                lmdb: final(self).lmdb,
                ..*old(self)
            }),
            final(self).lmdb == (KvCatalog {
                current_version: Some(transaction_id),
                ..old(self).lmdb
            }),
            spec_tip(*final(self)) == transaction_id,
    {
        self.set_current_version(transaction_id);
        update_current_version(&mut self.lmdb, transaction_id);
    }

    /// Quantizes and stores one embedding under a version.
    fn index_embedding(
        &mut self,
        id: u64,
        values: &Vec<i64>,
        metadata_dims: Vec<u32>,
        version: u32,
    )
        requires
            old(self).wf(),
            values@.len() == old(self).dim,
        ensures
            final(self).wf(),
            final(self).storage@.len() == old(self).storage@.len() + 1,
            *final(self) == (HNSWIndex { storage: final(self).storage, ..*old(self) }),
            final(self).storage@.take(old(self).storage@.len() as int) == old(self).storage@,
            ({
                let e = final(self).storage@.last();
                &&& e.vector_id == id
                &&& e.version == version
                &&& e.codes@ == spec_codes(
                    values@,
                    old(self).values_range.0 as int,
                    old(self).values_range.1 as int,
                )
            }),
            dense_indexed(*final(self), id, values@, version),
    {
        let (lo, hi) = self.values_range;
        let mut codes: Vec<u8> = Vec::new();
        let mut j: usize = 0;
        while j < values.len()
            invariant
                j <= values@.len(),
                codes@.len() == j,
                lo == self.values_range.0,
                hi == self.values_range.1,
                self.wf(),
                forall|t: int|
                    0 <= t < j ==> (#[trigger] codes@[t]) as int == spec_quantize_signed(
                        values@[t] as int,
                        lo as int,
                        hi as int,
                    ),
            decreases values@.len() - j,
        {
            codes.push(quantize_signed(values[j], lo, hi));
            j += 1;
        }
        proof {
            assert(codes@ =~= spec_codes(values@, lo as int, hi as int));
        }
        let ghost pre = self.storage@;
        self.storage.push(DenseEmbedding { vector_id: id, version, codes, metadata_dims });
        proof {
            assert(self.storage@.take(pre.len() as int) =~= pre);
            assert(self.storage@[pre.len() as int].vector_id == id);
        }
    }
}

/// Whether the index stores an embedding of `id` under `version` whose
/// codes are exactly the quantization of `values` on the index's
/// current range.
pub open spec fn dense_indexed(index: HNSWIndex, id: u64, values: Seq<i64>, version: u32) -> bool {
    exists|j: int|
        0 <= j < index.storage@.len() && (#[trigger] index.storage@[j]).vector_id == id
            && index.storage@[j].version == version && index.storage@[j].codes@ == spec_codes(
            values,
            index.values_range.0 as int,
            index.values_range.1 as int,
        )
}

/// Indexed embeddings stay indexed while the store only grows and the
/// range stands.
proof fn lemma_dense_indexed_preserved(pre: HNSWIndex, cur: HNSWIndex)
    requires
        cur.values_range == pre.values_range,
        pre.storage@.len() <= cur.storage@.len(),
        cur.storage@.take(pre.storage@.len() as int) == pre.storage@,
    ensures
        forall|id: u64, values: Seq<i64>, version: u32|
            #[trigger] dense_indexed(pre, id, values, version) ==> dense_indexed(
                cur,
                id,
                values,
                version,
            ),
{
    assert forall|id: u64, values: Seq<i64>, version: u32|
        #[trigger] dense_indexed(pre, id, values, version) implies dense_indexed(
        cur,
        id,
        values,
        version,
    ) by {
        let j = choose|j: int|
            0 <= j < pre.storage@.len() && (#[trigger] pre.storage@[j]).vector_id == id
                && pre.storage@[j].version == version && pre.storage@[j].codes@ == spec_codes(
                values,
                pre.values_range.0 as int,
                pre.values_range.1 as int,
            );
        assert(cur.storage@[j] == pre.storage@.take(pre.storage@.len() as int)[j]);
        assert(cur.storage@[j] == pre.storage@[j]);
    }
}

/// The calibrated upper range end from the tallies.
pub open spec fn spec_calibrated_hi(s: DenseSamplingData, cnt: int, margin: int) -> int {
    spec_range_end(
        s.above_01 as int,
        s.above_02 as int,
        s.above_03 as int,
        s.above_04 as int,
        s.above_05 as int,
        cnt,
        margin,
    )
}

/// The calibrated lower range end from the tallies.
pub open spec fn spec_calibrated_lo(s: DenseSamplingData, cnt: int, margin: int) -> int {
    -spec_range_end(
        s.below_01 as int,
        s.below_02 as int,
        s.below_03 as int,
        s.below_04 as int,
        s.below_05 as int,
        cnt,
        margin,
    )
}

impl HNSWIndex {
    /// Uploads a batch inside an open transaction. Before calibration
    /// the components only feed the tallies and the buffer, with the
    /// trie of stored embeddings, the range and the catalog untouched;
    /// the batch that reaches the sample threshold calibrates the
    /// range from the tallies, commits it durably, flips the
    /// configured flag and indexes the whole buffer under the
    /// transaction's version; a configured index indexes the batch
    /// directly. Nothing here moves the committed tip.
    /// The component sequences of a batch of points, in order.
    pub open spec fn spec_point_values(pts: Seq<(u64, Vec<i64>, Option<Vec<u32>>)>) -> Seq<
        Seq<i64>,
    > {
        pts.map_values(|p: (u64, Vec<i64>, Option<Vec<u32>>)| p.1@)
    }

    pub fn run_upload_dense_vectors_in_transaction(
        &mut self,
        transaction_id: u32,
        sample_points: Vec<(u64, Vec<i64>, Option<Vec<u32>>)>,
    ) -> (r: Result<(), WaCustomError>)
        requires
            old(self).wf(),
            forall|i: int|
                0 <= i < sample_points@.len() ==> (#[trigger] sample_points@[i]).1@.len() == old(
                    self,
                ).dim,
            forall|i: int|
                0 <= i < old(self).vectors@.len() ==> (#[trigger] old(self).vectors@[i]).1@.len()
                    == old(self).dim,
            old(self).vectors@.len() + sample_points@.len() <= usize::MAX,
            old(self).vectors_collected + sample_points@.len() <= usize::MAX,
            old(self).vec_raw_map@.len() + old(self).vectors@.len() + sample_points@.len()
                <= usize::MAX,
        ensures
            final(self).wf(),
            r is Ok,
            final(self).lmdb.current_version == old(self).lmdb.current_version,
            old(self).is_configured ==> final(self).is_configured,
            !old(self).is_configured && old(self).vectors_collected < old(self).sample_threshold
                && old(self).vectors@.len() + sample_points@.len() < old(self).sample_threshold
                ==> {
                &&& !final(self).is_configured
                &&& final(self).vectors@ == old(self).vectors@ + sample_points@
                &&& final(self).storage@ == old(self).storage@
                &&& final(self).values_range == old(self).values_range
                &&& final(self).lmdb == old(self).lmdb
                &&& final(self).current_version == old(self).current_version
                &&& final(self).vcs == old(self).vcs
                &&& final(self).sampling_data == old(self).sampling_data.spec_steps_points(
                    HNSWIndex::spec_point_values(sample_points@),
                )
                &&& final(self).vectors_collected == old(self).vectors_collected
                    + sample_points@.len()
            },
            !old(self).is_configured && old(self).vectors_collected < old(self).sample_threshold
                && old(self).vectors@.len() + sample_points@.len() >= old(self).sample_threshold
                ==> {
                &&& final(self).is_configured
                &&& final(self).lmdb.values_range == Some(final(self).values_range)
                &&& final(self).vectors@.len() == 0
                &&& final(self).sampling_data == old(self).sampling_data.spec_steps_points(
                    HNSWIndex::spec_point_values(sample_points@),
                )
                &&& final(self).values_range.1 as int == spec_calibrated_hi(
                    final(self).sampling_data,
                    if final(self).sampling_data.values_collected > 0 {
                        final(self).sampling_data.values_collected as int
                    } else {
                        1
                    },
                    old(self).clamp_margin_percent as int,
                )
                &&& final(self).values_range.0 as int == spec_calibrated_lo(
                    final(self).sampling_data,
                    if final(self).sampling_data.values_collected > 0 {
                        final(self).sampling_data.values_collected as int
                    } else {
                        1
                    },
                    old(self).clamp_margin_percent as int,
                )
                &&& final(self).storage@.len() == old(self).storage@.len() + old(
                    self,
                ).vectors@.len() + sample_points@.len()
                &&& final(self).vec_raw_map@.len() == old(self).vec_raw_map@.len() + old(
                    self,
                ).vectors@.len() + sample_points@.len()
                &&& forall|i: int|
                    0 <= i < old(self).vectors@.len() ==> dense_indexed(
                        *final(self),
                        (#[trigger] old(self).vectors@[i]).0,
                        old(self).vectors@[i].1@,
                        transaction_id,
                    )
                &&& forall|i: int|
                    0 <= i < sample_points@.len() ==> dense_indexed(
                        *final(self),
                        (#[trigger] sample_points@[i]).0,
                        sample_points@[i].1@,
                        transaction_id,
                    )
            },
            old(self).is_configured ==> {
                &&& final(self).storage@.len() == old(self).storage@.len() + sample_points@.len()
                &&& final(self).vec_raw_map@.len() == old(self).vec_raw_map@.len()
                    + sample_points@.len()
                &&& final(self).values_range == old(self).values_range
                &&& final(self).lmdb == old(self).lmdb
                &&& forall|i: int|
                    0 <= i < sample_points@.len() ==> dense_indexed(
                        *final(self),
                        (#[trigger] sample_points@[i]).0,
                        sample_points@[i].1@,
                        transaction_id,
                    )
            },
            !old(self).is_configured && old(self).vectors_collected >= old(self).sample_threshold
                ==> {
                &&& final(self).storage@.len() == old(self).storage@.len() + sample_points@.len()
                &&& final(self).values_range == old(self).values_range
                &&& final(self).lmdb == old(self).lmdb
                &&& final(self).vectors@ == old(self).vectors@
                &&& final(self).vectors_collected == old(self).vectors_collected
                    + sample_points@.len()
                &&& forall|i: int|
                    0 <= i < sample_points@.len() ==> dense_indexed(
                        *final(self),
                        (#[trigger] sample_points@[i]).0,
                        sample_points@[i].1@,
                        transaction_id,
                    )
            },
    {
        let n_new = sample_points.len();
        if !self.is_configured {
            let collected_count = self.vectors_collected;
            self.vectors_collected = collected_count + n_new;
            if collected_count < self.sample_threshold {
                let ghost pvals = HNSWIndex::spec_point_values(sample_points@);
                let mut i: usize = 0;
                while i < sample_points.len()
                    invariant
                        i <= sample_points@.len(),
                        self.wf(),
                        self.is_configured == false,
                        *self == (HNSWIndex {
                            sampling_data: self.sampling_data,
                            vectors_collected: self.vectors_collected,
                            ..*old(self)
                        }),
                        self.vectors_collected == old(self).vectors_collected + n_new,
                        pvals == HNSWIndex::spec_point_values(sample_points@),
                        self.sampling_data == old(self).sampling_data.spec_steps_points(
                            pvals.take(i as int),
                        ),
                    decreases sample_points@.len() - i,
                {
                    let values = &sample_points[i].1;
                    let ghost sd0 = self.sampling_data;
                    proof {
                        assert(values@.take(0) =~= Seq::<i64>::empty());
                    }
                    let mut j: usize = 0;
                    while j < values.len()
                        invariant
                            j <= values@.len(),
                            self.wf(),
                            self.is_configured == false,
                            *self == (HNSWIndex {
                                sampling_data: self.sampling_data,
                                vectors_collected: self.vectors_collected,
                                ..*old(self)
                            }),
                            self.vectors_collected == old(self).vectors_collected + n_new,
                            values == &sample_points[i as int].1,
                            self.sampling_data == sd0.spec_steps(values@.take(j as int)),
                        decreases values@.len() - j,
                    {
                        let value = values[j];
                        let ghost sd_pre = self.sampling_data;
                        let s = &self.sampling_data;
                        if s.above_01 < u64::MAX && s.above_02 < u64::MAX && s.above_03 < u64::MAX
                            && s.above_04 < u64::MAX && s.above_05 < u64::MAX && s.below_01
                            < u64::MAX && s.below_02 < u64::MAX && s.below_03 < u64::MAX
                            && s.below_04 < u64::MAX && s.below_05 < u64::MAX
                            && s.values_collected < u64::MAX {
                            self.sampling_data.tally(value);
                        }
                        proof {
                            crate::calibration::lemma_dense_steps_snoc(sd0, values@, j as int);
                            assert(self.sampling_data == sd_pre.spec_step(value));
                        }
                        j += 1;
                    }
                    proof {
                        assert(values@.take(values@.len() as int) =~= values@);
                        crate::calibration::lemma_dense_points_snoc(
                            old(self).sampling_data,
                            pvals,
                            i as int,
                        );
                        assert(pvals[i as int] == sample_points@[i as int].1@);
                    }
                    i += 1;
                }
                proof {
                    assert(pvals.take(pvals.len() as int) =~= pvals);
                }
                let ghost buffered_spec = old(self).vectors@ + sample_points@;
                let mut points = sample_points;
                self.vectors.append(&mut points);
                if self.vectors.len() < self.sample_threshold {
                    return Ok(());
                }
                let values_count = if self.sampling_data.values_collected > 0 {
                    self.sampling_data.values_collected
                } else {
                    1
                };
                let range = compute_values_range(
                    &self.sampling_data,
                    values_count,
                    self.clamp_margin_percent,
                );
                self.values_range = range;
                self.is_configured = true;
                store_values_range(&mut self.lmdb, range);
                let mut buffered: Vec<(u64, Vec<i64>, Option<Vec<u32>>)> = Vec::new();
                core::mem::swap(&mut buffered, &mut self.vectors);
                proof {
                    assert(buffered@ == buffered_spec);
                }
                let mut t: usize = 0;
                while t < buffered.len()
                    invariant
                        t <= buffered@.len(),
                        self.wf(),
                        self.is_configured,
                        self.lmdb.values_range == Some(self.values_range),
                        self.lmdb.current_version == old(self).lmdb.current_version,
                        self.values_range == range,
                        self.vectors@.len() == 0,
                        self.vectors_collected == old(self).vectors_collected + n_new,
                        self.storage@.len() == old(self).storage@.len() + t,
                        self.vec_raw_map@.len() == old(self).vec_raw_map@.len() + t,
                        old(self).vec_raw_map@.len() + buffered@.len() <= usize::MAX,
                        self.dim == old(self).dim,
                        self.clamp_margin_percent == old(self).clamp_margin_percent,
                        self.sampling_data == old(self).sampling_data.spec_steps_points(
                            HNSWIndex::spec_point_values(sample_points@),
                        ),
                        range.1 as int == spec_calibrated_hi(
                            self.sampling_data,
                            if self.sampling_data.values_collected > 0 {
                                self.sampling_data.values_collected as int
                            } else {
                                1
                            },
                            old(self).clamp_margin_percent as int,
                        ),
                        range.0 as int == spec_calibrated_lo(
                            self.sampling_data,
                            if self.sampling_data.values_collected > 0 {
                                self.sampling_data.values_collected as int
                            } else {
                                1
                            },
                            old(self).clamp_margin_percent as int,
                        ),
                        forall|a: int|
                            0 <= a < buffered@.len() ==> (#[trigger] buffered@[a]).1@.len()
                                == self.dim,
                        forall|a: int|
                            0 <= a < t ==> dense_indexed(
                                *self,
                                (#[trigger] buffered@[a]).0,
                                buffered@[a].1@,
                                transaction_id,
                            ),
                    decreases buffered@.len() - t,
                {
                    let (id, values, metadata) = &buffered[t];
                    let md = match metadata {
                        Some(m) => clone_u32s(m),
                        None => Vec::new(),
                    };
                    let ghost pre = *self;
                    self.index_embedding(*id, values, md, transaction_id);
                    proof {
                        lemma_dense_indexed_preserved(pre, *self);
                    }
                    let ghost mid = *self;
                    self.vec_raw_map.push(
                        (
                            transaction_id,
                            DenseRawEmbedding {
                                hash_vec: *id,
                                raw_vec: clone_i64s(values),
                                raw_metadata: match metadata {
                                    Some(m) => Some(clone_u32s(m)),
                                    None => None,
                                },
                            },
                        ),
                    );
                    proof {
                        assert(self.storage@.take(mid.storage@.len() as int) =~= mid.storage@);
                        lemma_dense_indexed_preserved(mid, *self);
                    }
                    t += 1;
                }
                proof {
                    assert forall|a: int|
                        0 <= a < old(self).vectors@.len() implies dense_indexed(
                        *self,
                        (#[trigger] old(self).vectors@[a]).0,
                        old(self).vectors@[a].1@,
                        transaction_id,
                    ) by {
                        assert(buffered@[a] == old(self).vectors@[a]);
                    }
                    assert forall|a: int|
                        0 <= a < sample_points@.len() implies dense_indexed(
                        *self,
                        (#[trigger] sample_points@[a]).0,
                        sample_points@[a].1@,
                        transaction_id,
                    ) by {
                        assert(buffered@[old(self).vectors@.len() + a] == sample_points@[a]);
                    }
                }
                return Ok(());
            }
        }
        let mut t: usize = 0;
        while t < sample_points.len()
            invariant
                t <= sample_points@.len(),
                n_new == sample_points@.len(),
                self.wf(),
                self.is_configured == old(self).is_configured,
                self.vectors@ == old(self).vectors@,
                self.lmdb == old(self).lmdb,
                self.values_range == old(self).values_range,
                self.storage@.len() == old(self).storage@.len() + t,
                self.vec_raw_map@.len() == old(self).vec_raw_map@.len() + t,
                old(self).vec_raw_map@.len() + sample_points@.len() <= usize::MAX,
                self.dim == old(self).dim,
                self.vectors_collected == if old(self).is_configured {
                    old(self).vectors_collected as int
                } else {
                    old(self).vectors_collected + n_new
                },
                forall|a: int|
                    0 <= a < sample_points@.len() ==> (#[trigger] sample_points@[a]).1@.len()
                        == self.dim,
                forall|a: int|
                    0 <= a < t ==> dense_indexed(
                        *self,
                        (#[trigger] sample_points@[a]).0,
                        sample_points@[a].1@,
                        transaction_id,
                    ),
            decreases sample_points@.len() - t,
        {
            let (id, values, metadata) = &sample_points[t];
            let md = match metadata {
                Some(m) => clone_u32s(m),
                None => Vec::new(),
            };
            let ghost pre = *self;
            self.index_embedding(*id, values, md, transaction_id);
            proof {
                lemma_dense_indexed_preserved(pre, *self);
            }
            let ghost mid = *self;
            self.vec_raw_map.push(
                (
                    transaction_id,
                    DenseRawEmbedding {
                        hash_vec: *id,
                        raw_vec: clone_i64s(values),
                        raw_metadata: match metadata {
                            Some(m) => Some(clone_u32s(m)),
                            None => None,
                        },
                    },
                ),
            );
            proof {
                assert(self.storage@.take(mid.storage@.len() as int) =~= mid.storage@);
                lemma_dense_indexed_preserved(mid, *self);
            }
            t += 1;
        }
        Ok(())
    }

    /// Uploads a batch outside a transaction: a fresh version is
    /// allocated, the embeddings are indexed under it, the catalog's
    /// two counters settle — below the flush threshold the batch stays
    /// unindexed, at the threshold everything unindexed moves to
    /// indexed — and the tip advances to the new version last, after
    /// all writes.
    pub fn run_upload_dense_vectors(
        &mut self,
        vecs: Vec<(u64, Vec<i64>, Option<Vec<u32>>)>,
        upload_threshold: u32,
        factory: &mut BufferManagerFactory,
    ) -> (r: Result<(), WaCustomError>)
        requires
            old(self).wf(),
            old(self).vcs.current < u32::MAX,
            old(factory).wf(),
            old(factory).managers@.len() < usize::MAX,
            crate::versioning::files_cover(old(self).vcs, *old(factory)),
            forall|i: int|
                0 <= i < vecs@.len() ==> (#[trigger] vecs@[i]).1@.len() == old(self).dim,
            old(self).total_uploaded + vecs@.len() <= u32::MAX,
            old(self).vec_raw_map@.len() + vecs@.len() <= u32::MAX,
            old(self).lmdb.embedding_offsets@.len() + vecs@.len() <= usize::MAX,
            old(self).lmdb.count_indexed + old(self).lmdb.count_unindexed == old(
                self,
            ).total_uploaded,
        ensures
            final(self).wf(),
            r is Ok,
            final(self).current_version == old(self).vcs.current + 1,
            final(self).lmdb.current_version == Some(final(self).current_version),
            final(factory).wf(),
            // every version at or below the new tip has its index file
            crate::versioning::files_cover(final(self).vcs, *final(factory)),
            final(self).values_range == old(self).values_range,
            final(self).storage@.len() == old(self).storage@.len() + vecs@.len(),
            final(self).total_uploaded == old(self).total_uploaded + vecs@.len(),
            forall|i: int|
                0 <= i < vecs@.len() ==> dense_indexed(
                    *final(self),
                    (#[trigger] vecs@[i]).0,
                    vecs@[i].1@,
                    (old(self).vcs.current + 1) as u32,
                ),
            // the counter invariant: nothing uploaded is ever lost
            final(self).lmdb.count_indexed + final(self).lmdb.count_unindexed
                == final(self).total_uploaded,
            // which counter grew: below the threshold the batch waits
            // unindexed; at it, the whole backlog moves to indexed
            old(self).lmdb.count_unindexed + vecs@.len() < upload_threshold ==> {
                &&& final(self).lmdb.count_indexed == old(self).lmdb.count_indexed
                &&& final(self).lmdb.count_unindexed == old(self).lmdb.count_unindexed
                    + vecs@.len()
                &&& final(self).lmdb.last_indexed_version == old(self).lmdb.last_indexed_version
            },
            old(self).lmdb.count_unindexed + vecs@.len() >= upload_threshold ==> {
                &&& final(self).lmdb.count_unindexed == 0
                &&& final(self).lmdb.count_indexed == old(self).lmdb.count_indexed + old(
                    self,
                ).lmdb.count_unindexed + vecs@.len()
                &&& final(self).lmdb.last_indexed_version == Some(
                    (old(self).vcs.current + 1) as u32,
                )
            },
            final(self).vec_raw_map@.len() == old(self).vec_raw_map@.len() + vecs@.len(),
            forall|i: int|
                0 <= i < vecs@.len() ==> {
                    let e = #[trigger] final(self).vec_raw_map@[old(self).vec_raw_map@.len() + i];
                    e.0 == old(self).vcs.current + 1 && e.1.hash_vec == vecs@[i].0
                        && e.1.raw_vec@ == vecs@[i].1@
                },
            forall|i: int|
                0 <= i < vecs@.len() && (forall|j: int|
                    i < j < vecs@.len() ==> (#[trigger] vecs@[j]).0 != vecs@[i].0)
                    ==> #[trigger] crate::versioning::spec_embedding_offset(
                    final(self).lmdb,
                    vecs@[i].0,
                ) == Some(
                    (
                        (old(self).vec_raw_map@.len() + i) as u32,
                        (old(self).vcs.current + 1) as u32,
                    ),
                ),
    {
        let current_version = crate::versioning::begin_transaction(&mut self.vcs, factory);
        self.set_current_version(current_version);
        let ghost vcs_now = self.vcs;
        let n = vecs.len() as u32;
        let ghost raw_base = old(self).vec_raw_map@.len() as int;
        let mut t: usize = 0;
        while t < vecs.len()
            invariant
                t <= vecs@.len(),
                self.wf(),
                self.current_version == current_version,
                current_version == old(self).vcs.current + 1,
                raw_base == old(self).vec_raw_map@.len(),
                raw_base + vecs@.len() <= u32::MAX,
                old(self).lmdb.embedding_offsets@.len() + vecs@.len() <= usize::MAX,
                self.lmdb == (KvCatalog {
                    embedding_offsets: self.lmdb.embedding_offsets,
                    ..old(self).lmdb
                }),
                self.lmdb.embedding_offsets@.len() == old(self).lmdb.embedding_offsets@.len() + t,
                self.total_uploaded == old(self).total_uploaded,
                self.values_range == old(self).values_range,
                self.vcs == vcs_now,
                self.vcs.wf(),
                self.storage@.len() == old(self).storage@.len() + t,
                self.vec_raw_map@.len() == raw_base + t,
                self.dim == old(self).dim,
                forall|a: int|
                    0 <= a < vecs@.len() ==> (#[trigger] vecs@[a]).1@.len() == self.dim,
                forall|a: int|
                    0 <= a < t ==> dense_indexed(
                        *self,
                        (#[trigger] vecs@[a]).0,
                        vecs@[a].1@,
                        current_version,
                    ),
                forall|a: int|
                    0 <= a < t ==> {
                        let e = #[trigger] self.vec_raw_map@[raw_base + a];
                        e.0 == current_version && e.1.hash_vec == vecs@[a].0 && e.1.raw_vec@
                            == vecs@[a].1@
                    },
                forall|a: int|
                    0 <= a < t && (forall|b: int|
                        a < b < t ==> (#[trigger] vecs@[b]).0 != vecs@[a].0)
                        ==> #[trigger] crate::versioning::spec_embedding_offset(
                        self.lmdb,
                        vecs@[a].0,
                    ) == Some(((raw_base + a) as u32, current_version)),
            decreases vecs@.len() - t,
        {
            let (id, values, metadata) = &vecs[t];
            let md = match metadata {
                Some(m) => clone_u32s(m),
                None => Vec::new(),
            };
            let ghost pre = *self;
            self.index_embedding(*id, values, md, current_version);
            proof {
                lemma_dense_indexed_preserved(pre, *self);
            }
            let ghost mid = *self;
            let raw = DenseRawEmbedding {
                hash_vec: *id,
                raw_vec: clone_i64s(values),
                raw_metadata: match metadata {
                    Some(m) => Some(clone_u32s(m)),
                    None => None,
                },
            };
            let offset = self.vec_raw_map.len() as u32;
            self.vec_raw_map.push((current_version, raw));
            let ghost pre_lmdb = self.lmdb;
            crate::versioning::put_embedding_offset(
                &mut self.lmdb,
                *id,
                offset,
                current_version,
            );
            proof {
                assert(self.storage@.take(mid.storage@.len() as int) =~= mid.storage@);
                lemma_dense_indexed_preserved(mid, *self);
                assert forall|a: int|
                    0 <= a < t + 1 && (forall|b: int|
                        a < b < t + 1 ==> (#[trigger] vecs@[b]).0 != vecs@[a].0)
                        implies #[trigger] crate::versioning::spec_embedding_offset(
                        self.lmdb,
                        vecs@[a].0,
                    ) == Some(((raw_base + a) as u32, current_version)) by {
                    if a < t {
                        assert(vecs@[t as int].0 != vecs@[a].0);
                        assert(crate::versioning::spec_embedding_offset(pre_lmdb, vecs@[a].0)
                            == Some(((raw_base + a) as u32, current_version)));
                    }
                }
            }
            t += 1;
        }
        let ghost end = *self;
        let (count_indexed, count_unindexed, flushed) = plan_upload_commit(
            self.lmdb.count_indexed,
            self.lmdb.count_unindexed,
            n,
            upload_threshold,
        );
        self.lmdb.count_indexed = count_indexed;
        self.lmdb.count_unindexed = count_unindexed;
        if flushed {
            crate::versioning::store_last_indexed_version(&mut self.lmdb, current_version);
        }
        self.total_uploaded = self.total_uploaded + n;
        // the tip moves last: only now does the version become visible
        update_current_version(&mut self.lmdb, current_version);
        proof {
            assert(self.storage@.take(end.storage@.len() as int) =~= end.storage@);
            lemma_dense_indexed_preserved(end, *self);
            assert forall|i2: int|
                0 <= i2 < vecs@.len() && (forall|j2: int|
                    i2 < j2 < vecs@.len() ==> (#[trigger] vecs@[j2]).0 != vecs@[i2].0)
                    implies #[trigger] crate::versioning::spec_embedding_offset(
                    self.lmdb,
                    vecs@[i2].0,
                ) == Some(((raw_base + i2) as u32, current_version)) by {
                assert(crate::versioning::spec_embedding_offset(end.lmdb, vecs@[i2].0) == Some(
                    ((raw_base + i2) as u32, current_version),
                ));
                assert(self.lmdb.embedding_offsets@ == end.lmdb.embedding_offsets@);
            }
        }
        Ok(())
    }
}

/// Clones a component list.
fn clone_i64s(v: &Vec<i64>) -> (r: Vec<i64>)
    ensures
        r@ == v@,
{
    let mut r: Vec<i64> = Vec::new();
    let mut i: usize = 0;
    while i < v.len()
        invariant
            i <= v@.len(),
            r@ == v@.take(i as int),
        decreases v@.len() - i,
    {
        r.push(v[i]);
        assert(r@ =~= v@.take(i + 1));
        i += 1;
    }
    assert(r@ =~= v@);
    r
}

/// Clones a dimension list.
fn clone_u32s(v: &Vec<u32>) -> (r: Vec<u32>)
    ensures
        r@ == v@,
{
    let mut r: Vec<u32> = Vec::new();
    let mut i: usize = 0;
    while i < v.len()
        invariant
            i <= v@.len(),
            r@ == v@.take(i as int),
        decreases v@.len() - i,
    {
        r.push(v[i]);
        assert(r@ =~= v@.take(i + 1));
        i += 1;
    }
    assert(r@ =~= v@);
    r
}

/// Whether two dimension runs share an element.
pub open spec fn spec_intersects(d: Seq<u32>, a: Seq<u32>) -> bool
    decreases d.len(),
{
    if d.len() == 0 {
        false
    } else {
        a.contains(d.last()) || spec_intersects(d.drop_last(), a)
    }
}

/// Nothing intersects an empty allow-set.
proof fn lemma_no_intersect_empty(d: Seq<u32>, a: Seq<u32>)
    requires
        a.len() == 0,
    ensures
        !spec_intersects(d, a),
    decreases d.len(),
{
    if d.len() > 0 {
        lemma_no_intersect_empty(d.drop_last(), a);
    }
}

/// A shared element anywhere makes the runs intersect.
proof fn lemma_intersects_witness(d: Seq<u32>, a: Seq<u32>, i: int)
    requires
        0 <= i < d.len(),
        a.contains(d[i]),
    ensures
        spec_intersects(d, a),
    decreases d.len(),
{
    if i < d.len() - 1 {
        assert(d.drop_last()[i] == d[i]);
        lemma_intersects_witness(d.drop_last(), a, i);
    }
}

/// Whether an embedding passes a metadata filter: with no filter
/// everything passes; with one, the embedding's encoded dimensions
/// must intersect the allow-set. An empty allow-set passes nothing.
pub open spec fn spec_passes_filter(e: DenseEmbedding, filter: Option<Seq<u32>>) -> bool {
    match filter {
        None => true,
        Some(allow) => spec_intersects(e.metadata_dims@, allow),
    }
}

/// The filter as a spec value.
pub open spec fn spec_filter_view(filter: Option<Vec<u32>>) -> Option<Seq<u32>> {
    match filter {
        Some(f) => Some(f@),
        None => None,
    }
}

fn passes_filter(e: &DenseEmbedding, filter: &Option<Vec<u32>>) -> (r: bool)
    ensures
        r == spec_passes_filter(*e, spec_filter_view(*filter)),
{
    match filter.as_ref() {
        None => true,
        Some(allow) => {
            proof {
                assert(*filter == Some(*allow));
            }
            let dims = &e.metadata_dims;
            {
                let mut i: usize = 0;
                while i < dims.len()
                    invariant
                        dims@ == e.metadata_dims@,
                        *filter == Some(*allow),
                        i <= dims@.len(),
                        !spec_intersects(dims@.take(i as int), allow@),
                    decreases dims@.len() - i,
                {
                    proof {
                        assert(dims@.take(i + 1).drop_last() =~= dims@.take(i as int));
                        assert(dims@.take(i + 1).last() == dims@[i as int]);
                    }
                    let mut j: usize = 0;
                    while j < allow.len()
                        invariant
                            dims@ == e.metadata_dims@,
                            *filter == Some(*allow),
                            i < dims@.len(),
                            j <= allow@.len(),
                            forall|b: int| 0 <= b < j ==> (#[trigger] allow@[b]) != dims@[i as int],
                        decreases allow@.len() - j,
                    {
                        if dims[i] == allow[j] {
                            proof {
                                assert(allow@[j as int] == dims@[i as int]);
                                assert(allow@.contains(dims@[i as int]));
                                lemma_intersects_witness(dims@, allow@, i as int);
                                assert(spec_intersects(e.metadata_dims@, allow@));
                                assert(spec_passes_filter(*e, Some(allow@)));
                                assert(spec_passes_filter(*e, spec_filter_view(*filter)));
                            }
                            return true;
                        }
                        j += 1;
                    }
                    proof {
                        assert(!allow@.contains(dims@[i as int])) by {
                            if allow@.contains(dims@[i as int]) {
                                let b = choose|b: int|
                                    0 <= b < allow@.len() && allow@[b] == dims@[i as int];
                            }
                        }
                    }
                    i += 1;
                }
                proof {
                    assert(dims@.take(dims@.len() as int) =~= dims@);
                }
                false
            }
        },
    }
}

/// One dense hit: the id and its dot-product score on the fixed-point
/// grid.
#[derive(Clone, Copy, PartialEq, Eq, Structural, Debug)]
pub struct DenseHit {
    pub vector_id: u64,
    pub score: i64,
}

/// Whether the embedding at `j` takes part in a query: it is stored,
/// its version is committed at the tip, and it passes the filter.
pub open spec fn spec_passing(index: HNSWIndex, gfilter: Option<Seq<u32>>, j: int) -> bool {
    &&& 0 <= j < index.storage@.len()
    &&& spec_visible(index.storage@[j], spec_tip(index))
    &&& spec_passes_filter(index.storage@[j], gfilter)
}

/// The hit one embedding produces for a quantized query.
pub open spec fn emb_hit(e: DenseEmbedding, qc: Seq<u8>, lo: int, hi: int) -> DenseHit {
    DenseHit {
        vector_id: e.vector_id,
        score: sat64(spec_dense_score(qc, e.codes@, lo, hi)) as i64,
    }
}

/// The hit the embedding at `j` produces for a quantized query.
pub open spec fn spec_hit(index: HNSWIndex, qcodes: Seq<u8>, j: int) -> DenseHit {
    emb_hit(
        index.storage@[j],
        qcodes,
        index.values_range.0 as int,
        index.values_range.1 as int,
    )
}

/// The hits a scan of the store produces, in store order: one per
/// visible, filter-passing embedding.
pub open spec fn spec_scan_hits(
    s: Seq<DenseEmbedding>,
    gfilter: Option<Seq<u32>>,
    tip: u32,
    qc: Seq<u8>,
    lo: int,
    hi: int,
) -> Seq<DenseHit>
    decreases s.len(),
{
    if s.len() == 0 {
        Seq::empty()
    } else {
        spec_scan_hits(s.drop_last(), gfilter, tip, qc, lo, hi) + (if spec_visible(s.last(), tip)
            && spec_passes_filter(s.last(), gfilter) {
            seq![emb_hit(s.last(), qc, lo, hi)]
        } else {
            Seq::empty()
        })
    }
}

/// The scan yields exactly as many hits as embeddings pass.
proof fn lemma_scan_len(
    s: Seq<DenseEmbedding>,
    gfilter: Option<Seq<u32>>,
    tip: u32,
    qc: Seq<u8>,
    lo: int,
    hi: int,
)
    ensures
        spec_scan_hits(s, gfilter, tip, qc, lo, hi).len() == spec_passing_count(s, gfilter, tip),
    decreases s.len(),
{
    if s.len() > 0 {
        lemma_scan_len(s.drop_last(), gfilter, tip, qc, lo, hi);
    }
}

/// Every scanned hit is some passing embedding's hit.
proof fn lemma_scan_sound(
    s: Seq<DenseEmbedding>,
    gfilter: Option<Seq<u32>>,
    tip: u32,
    qc: Seq<u8>,
    lo: int,
    hi: int,
    a: int,
)
    requires
        0 <= a < spec_scan_hits(s, gfilter, tip, qc, lo, hi).len(),
    ensures
        exists|j: int|
            0 <= j < s.len() && spec_visible(#[trigger] s[j], tip) && spec_passes_filter(
                s[j],
                gfilter,
            ) && spec_scan_hits(s, gfilter, tip, qc, lo, hi)[a] == emb_hit(s[j], qc, lo, hi),
    decreases s.len(),
{
    let scan = spec_scan_hits(s, gfilter, tip, qc, lo, hi);
    let prev = spec_scan_hits(s.drop_last(), gfilter, tip, qc, lo, hi);
    if a < prev.len() {
        lemma_scan_sound(s.drop_last(), gfilter, tip, qc, lo, hi, a);
        let j = choose|j: int|
            0 <= j < s.drop_last().len() && spec_visible(#[trigger] s.drop_last()[j], tip)
                && spec_passes_filter(s.drop_last()[j], gfilter) && prev[a] == emb_hit(
                s.drop_last()[j],
                qc,
                lo,
                hi,
            );
        assert(s[j] == s.drop_last()[j]);
        assert(scan[a] == prev[a]);
    } else {
        assert(spec_visible(s.last(), tip) && spec_passes_filter(s.last(), gfilter));
        assert(scan[a] == emb_hit(s[s.len() - 1], qc, lo, hi));
        assert(spec_visible(s[s.len() - 1], tip));
    }
}

/// Every passing embedding's hit is in the scan.
proof fn lemma_scan_complete(
    s: Seq<DenseEmbedding>,
    gfilter: Option<Seq<u32>>,
    tip: u32,
    qc: Seq<u8>,
    lo: int,
    hi: int,
    j: int,
)
    requires
        0 <= j < s.len(),
        spec_visible(s[j], tip),
        spec_passes_filter(s[j], gfilter),
    ensures
        spec_scan_hits(s, gfilter, tip, qc, lo, hi).contains(emb_hit(s[j], qc, lo, hi)),
    decreases s.len(),
{
    let scan = spec_scan_hits(s, gfilter, tip, qc, lo, hi);
    let prev = spec_scan_hits(s.drop_last(), gfilter, tip, qc, lo, hi);
    if j < s.len() - 1 {
        assert(s.drop_last()[j] == s[j]);
        lemma_scan_complete(s.drop_last(), gfilter, tip, qc, lo, hi, j);
        let a = choose|a: int|
            0 <= a < prev.len() && (#[trigger] prev[a]) == emb_hit(s[j], qc, lo, hi);
        assert(scan[a] == emb_hit(s[j], qc, lo, hi));
    } else {
        assert(scan[scan.len() - 1] == emb_hit(s[j], qc, lo, hi));
    }
}

/// How many visible stored embeddings pass a filter.
pub open spec fn spec_passing_count(
    s: Seq<DenseEmbedding>,
    filter: Option<Seq<u32>>,
    tip: u32,
) -> int
    decreases s.len(),
{
    if s.len() == 0 {
        0
    } else {
        spec_passing_count(s.drop_last(), filter, tip) + if spec_visible(s.last(), tip)
            && spec_passes_filter(s.last(), filter) {
            1int
        } else {
            0int
        }
    }
}

/// Whether a hit is some passing embedding's exact hit.
pub open spec fn hit_sound(
    index: HNSWIndex,
    gfilter: Option<Seq<u32>>,
    qc: Seq<u8>,
    h: DenseHit,
) -> bool {
    exists|j: int| spec_passing(index, gfilter, j) && h == spec_hit(index, qc, j)
}

/// Whether an answer carries a hit.
pub open spec fn hit_in(out: Seq<DenseHit>, h: DenseHit) -> bool {
    exists|i: int| 0 <= i < out.len() && out[i] == h
}

/// Whether every hit of an answer scores at least `s`.
pub open spec fn all_score_at_least(out: Seq<DenseHit>, s: i64) -> bool {
    forall|i: int| 0 <= i < out.len() ==> (#[trigger] out[i]).score >= s
}

/// What a dense query answer is: sorted best-first; exactly the best
/// `k` (or all, without a `k`) of the visible, filter-passing
/// embeddings; every hit is such an embedding's id with its exact
/// saturated dot-product score; nothing kept scores below anything
/// omitted.
pub open spec fn query_answer_ok(
    index: HNSWIndex,
    query: Seq<i64>,
    gfilter: Option<Seq<u32>>,
    k: Option<usize>,
    out: Seq<DenseHit>,
) -> bool {
    let qc = spec_codes(query, index.values_range.0 as int, index.values_range.1 as int);
    let total = spec_passing_count(index.storage@, gfilter, spec_tip(index));
    &&& forall|i: int, j: int|
        0 <= i < j < out.len() ==> (#[trigger] out[i]).score >= (#[trigger] out[j]).score
    &&& out.len() == (match k {
        Some(kv) => if kv < total {
            kv as int
        } else {
            total
        },
        None => total,
    })
    &&& forall|i: int| 0 <= i < out.len() ==> hit_sound(index, gfilter, qc, #[trigger] out[i])
    &&& k is None ==> forall|j: int|
        spec_passing(index, gfilter, j) ==> hit_in(out, #[trigger] spec_hit(index, qc, j))
    &&& forall|j: int|
        spec_passing(index, gfilter, j) ==> hit_in(out, #[trigger] spec_hit(index, qc, j))
            || all_score_at_least(out, spec_hit(index, qc, j).score)
}

impl HNSWIndex {
    /// Scans the store: one hit for every visible, filter-passing
    /// embedding, in store order, each with its exact score.
    fn collect_hits(
        &self,
        qcodes: &Vec<u8>,
        metadata_filter: &Option<Vec<u32>>,
        tip: u32,
    ) -> (hits: Vec<DenseHit>)
        requires
            self.wf(),
            qcodes@.len() == self.dim,
            tip == spec_tip(*self),
        ensures
            hits@ == spec_scan_hits(
                self.storage@,
                spec_filter_view(*metadata_filter),
                tip,
                qcodes@,
                self.values_range.0 as int,
                self.values_range.1 as int,
            ),
    {
        let ghost gfilter: Option<Seq<u32>> = spec_filter_view(*metadata_filter);
        let (lo, hi) = self.values_range;
        let mut hits: Vec<DenseHit> = Vec::new();
        let mut t: usize = 0;
        proof {
            assert(self.storage@.take(0) =~= Seq::<DenseEmbedding>::empty());
        }
        while t < self.storage.len()
            invariant
                t <= self.storage@.len(),
                self.wf(),
                qcodes@.len() == self.dim,
                lo == self.values_range.0,
                hi == self.values_range.1,
                tip == spec_tip(*self),
                gfilter == spec_filter_view(*metadata_filter),
                hits@ == spec_scan_hits(
                    self.storage@.take(t as int),
                    gfilter,
                    tip,
                    qcodes@,
                    lo as int,
                    hi as int,
                ),
            decreases self.storage@.len() - t,
        {
            let e = &self.storage[t];
            proof {
                assert(self.storage@.take(t + 1).drop_last() =~= self.storage@.take(t as int));
                assert(self.storage@.take(t + 1).last() == self.storage@[t as int]);
            }
            if e.version <= tip && passes_filter(e, metadata_filter) {
                let score = dense_score(qcodes, &e.codes, lo, hi);
                hits.push(DenseHit { vector_id: e.vector_id, score });
                proof {
                    assert(hits@ =~= spec_scan_hits(
                        self.storage@.take(t + 1),
                        gfilter,
                        tip,
                        qcodes@,
                        lo as int,
                        hi as int,
                    ));
                }
            } else {
                proof {
                    assert(hits@ =~= spec_scan_hits(
                        self.storage@.take(t + 1),
                        gfilter,
                        tip,
                        qcodes@,
                        lo as int,
                        hi as int,
                    ));
                }
            }
            t += 1;
        }
        proof {
            assert(self.storage@.take(self.storage@.len() as int) =~= self.storage@);
        }
        hits
    }
}

/// From the scan through a sorted permutation and a best-first cut,
/// the answer is exactly what a dense query owes.
proof fn lemma_query_answer(
    index: HNSWIndex,
    query: Seq<i64>,
    gfilter: Option<Seq<u32>>,
    k: Option<usize>,
    scanned: Seq<DenseHit>,
    full: Seq<DenseHit>,
    out: Seq<DenseHit>,
)
    requires
        scanned == spec_scan_hits(
            index.storage@,
            gfilter,
            spec_tip(index),
            spec_codes(query, index.values_range.0 as int, index.values_range.1 as int),
            index.values_range.0 as int,
            index.values_range.1 as int,
        ),
        full.len() == scanned.len(),
        full.to_multiset() == scanned.to_multiset(),
        forall|i: int| 0 <= i < full.len() ==> scanned.contains(#[trigger] full[i]),
        forall|i: int, j: int|
            0 <= i < j < full.len() ==> (#[trigger] full[i]).score >= (#[trigger] full[j]).score,
        out == full.take(
            match k {
                Some(kv) => if (kv as int) < full.len() {
                    kv as int
                } else {
                    full.len() as int
                },
                None => full.len() as int,
            },
        ),
    ensures
        query_answer_ok(index, query, gfilter, k, out),
{
    let lo = index.values_range.0 as int;
    let hi = index.values_range.1 as int;
    let tip = spec_tip(index);
    let qc = spec_codes(query, lo, hi);
    lemma_scan_len(index.storage@, gfilter, tip, qc, lo, hi);
    let total = spec_passing_count(index.storage@, gfilter, tip);
    assert(out.len() == (match k {
        Some(kv) => if (kv as int) < total {
            kv as int
        } else {
            total
        },
        None => total,
    }));
    assert forall|i: int, j: int|
        0 <= i < j < out.len() implies (#[trigger] out[i]).score >= (#[trigger] out[j]).score by {
        assert(out[i] == full[i] && out[j] == full[j]);
    }
    assert forall|i: int|
        0 <= i < out.len() implies hit_sound(index, gfilter, qc, #[trigger] out[i]) by {
        assert(out[i] == full[i]);
        assert(scanned.contains(full[i]));
        let a = choose|a: int| 0 <= a < scanned.len() && scanned[a] == full[i];
        lemma_scan_sound(index.storage@, gfilter, tip, qc, lo, hi, a);
        let j = choose|j: int|
            0 <= j < index.storage@.len() && spec_visible(#[trigger] index.storage@[j], tip)
                && spec_passes_filter(index.storage@[j], gfilter) && scanned[a] == emb_hit(
                index.storage@[j],
                qc,
                lo,
                hi,
            );
        assert(spec_passing(index, gfilter, j));
        assert(out[i] == spec_hit(index, qc, j));
    }
    assert forall|j: int|
        spec_passing(index, gfilter, j) implies hit_in(out, #[trigger] spec_hit(index, qc, j))
        || all_score_at_least(out, spec_hit(index, qc, j).score) by {
        let h = spec_hit(index, qc, j);
        lemma_scan_complete(index.storage@, gfilter, tip, qc, lo, hi, j);
        assert(scanned.contains(h));
        let a = choose|a: int| 0 <= a < scanned.len() && scanned[a] == h;
        lemma_contains_count(scanned, a);
        assert(full.to_multiset().count(h) >= 1);
        lemma_count_one_index(full, h);
        let w = choose|w: int| 0 <= w < full.len() && (#[trigger] full[w]) == h;
        if w < out.len() {
            assert(out[w] == h);
            assert(hit_in(out, h));
        } else {
            assert forall|i: int|
                0 <= i < out.len() implies (#[trigger] out[i]).score >= h.score by {
                assert(full[i].score >= full[w].score);
                assert(out[i] == full[i]);
            }
            assert(all_score_at_least(out, h.score));
        }
    }
    if k is None {
        assert(out =~= full);
        assert forall|j: int|
            spec_passing(index, gfilter, j) implies hit_in(
            out,
            #[trigger] spec_hit(index, qc, j),
        ) by {
            let h = spec_hit(index, qc, j);
            lemma_scan_complete(index.storage@, gfilter, tip, qc, lo, hi, j);
            let a = choose|a: int| 0 <= a < scanned.len() && scanned[a] == h;
            lemma_contains_count(scanned, a);
            assert(full.to_multiset().count(h) >= 1);
            lemma_count_one_index(full, h);
            let w = choose|w: int| 0 <= w < full.len() && (#[trigger] full[w]) == h;
            assert(out[w] == h);
            assert(hit_in(out, h));
        }
    }
}

impl HNSWIndex {
    /// Answers a dense query: the query is quantized on the calibrated
    /// range and scored by dot product against every visible stored
    /// embedding that passes the metadata filter; the best `k` come
    /// back, highest first (all of them without a `k`). An empty
    /// allow-set matches nothing; a query begun before a commit does
    /// not see that transaction's embeddings.
    #[verifier::rlimit(100)]
    #[verifier::spinoff_prover]
    pub fn ann_vector_query(
        &self,
        query: &Vec<i64>,
        metadata_filter: &Option<Vec<u32>>,
        k: Option<usize>,
    ) -> (r: Result<Vec<DenseHit>, WaCustomError>)
        requires
            self.wf(),
        ensures
            r is Ok <==> query@.len() == self.dim && self.is_configured,
            query@.len() != self.dim ==> r == Err::<Vec<DenseHit>, WaCustomError>(
                WaCustomError::InvalidParams,
            ),
            r is Ok ==> query_answer_ok(
                *self,
                query@,
                spec_filter_view(*metadata_filter),
                k,
                r.unwrap()@,
            ),
    {
        if query.len() != self.dim {
            return Err(WaCustomError::InvalidParams);
        }
        if !self.is_configured {
            return Err(WaCustomError::DatabaseError);
        }
        let (lo, hi) = self.values_range;
        let tip = match self.lmdb.current_version {
            Some(v) => v,
            None => 0,
        };
        proof {
            assert(tip == spec_tip(*self));
        }
        let mut qcodes: Vec<u8> = Vec::new();
        let mut j: usize = 0;
        while j < query.len()
            invariant
                j <= query@.len(),
                qcodes@.len() == j,
                self.wf(),
                lo == self.values_range.0,
                hi == self.values_range.1,
                forall|t: int|
                    0 <= t < j ==> (#[trigger] qcodes@[t]) as int == spec_quantize_signed(
                        query@[t] as int,
                        lo as int,
                        hi as int,
                    ),
            decreases query@.len() - j,
        {
            qcodes.push(quantize_signed(query[j], lo, hi));
            j += 1;
        }
        let ghost qc = spec_codes(query@, lo as int, hi as int);
        proof {
            assert(qcodes@ =~= qc);
        }
        let ghost gfilter: Option<Seq<u32>> = spec_filter_view(*metadata_filter);
        let tip2 = tip;
        let hits = self.collect_hits(&qcodes, metadata_filter, tip2);
        proof {
            assert(qcodes@ == qc);
        }
        let ghost hits_snapshot = hits@;
        let sorted = sort_hits_desc(hits);
        let ghost full = sorted@;
        let mut out = sorted;
        if let Some(kv) = k {
            if out.len() > kv {
                out.truncate(kv);
            }
        }
        proof {
            assert(out@ =~= full.take(
                match k {
                    Some(kv) => if (kv as int) < full.len() {
                        kv as int
                    } else {
                        full.len() as int
                    },
                    None => full.len() as int,
                },
            ));
            lemma_query_answer(*self, query@, gfilter, k, hits_snapshot, full, out@);
        }
        Ok(out)
    }

    /// Answers a batch of dense queries, one answer per query, in
    /// order, each exactly as `ann_vector_query` answers it.
    pub fn batch_ann_vector_query(
        &self,
        queries: &Vec<Vec<i64>>,
        metadata_filter: &Option<Vec<u32>>,
        k: Option<usize>,
    ) -> (r: Result<Vec<Vec<DenseHit>>, WaCustomError>)
        requires
            self.wf(),
        ensures
            r is Ok ==> r.unwrap()@.len() == queries@.len(),
            r is Ok ==> forall|q: int|
                0 <= q < r.unwrap()@.len() ==> query_answer_ok(
                    *self,
                    (#[trigger] queries@[q])@,
                    spec_filter_view(*metadata_filter),
                    k,
                    r.unwrap()@[q]@,
                ),
            r is Err ==> exists|q: int|
                0 <= q < queries@.len() && ((#[trigger] queries@[q])@.len() != self.dim
                    || !self.is_configured),
    {
        let mut out: Vec<Vec<DenseHit>> = Vec::new();
        let mut q: usize = 0;
        while q < queries.len()
            invariant
                self.wf(),
                q <= queries@.len(),
                out@.len() == q,
                forall|a: int|
                    0 <= a < out@.len() ==> query_answer_ok(
                        *self,
                        (#[trigger] queries@[a])@,
                        spec_filter_view(*metadata_filter),
                        k,
                        out@[a]@,
                    ),
            decreases queries@.len() - q,
        {
            match self.ann_vector_query(&queries[q], metadata_filter, k) {
                Ok(hits) => {
                    out.push(hits);
                },
                Err(e) => {
                    proof {
                        assert(queries@[q as int]@.len() != self.dim || !self.is_configured);
                    }
                    return Err(e);
                },
            }
            q += 1;
        }
        Ok(out)
    }
}

/// The dot product of quantized query and stored codes of one length,
/// each pair dequantized on the range, the product scaled back to the
/// grid, the total saturated to 64 bits.
fn dense_score(q: &Vec<u8>, v: &Vec<u8>, lo: i64, hi: i64) -> (r: i64)
    requires
        lo < hi,
        -0x1_0000_0000 <= lo,
        hi <= 0x1_0000_0000,
        q@.len() == v@.len(),
    ensures
        r as int == sat64(spec_dense_score(q@, v@, lo as int, hi as int)),
{
    let mut acc: i128 = 0;
    let n = q.len();
    let mut t: usize = 0;
    proof {
        assert(q@.take(0) =~= Seq::<u8>::empty());
        assert(v@.take(0) =~= Seq::<u8>::empty());
    }
    while t < n
        invariant
            n == q@.len(),
            n == v@.len(),
            t <= n,
            lo < hi,
            -0x1_0000_0000 <= lo,
            hi <= 0x1_0000_0000,
            acc == spec_dense_score(q@.take(t as int), v@.take(t as int), lo as int, hi as int),
            -(t as int) * 0x10_0000_0000_0000 <= acc <= (t as int) * 0x10_0000_0000_0000,
        decreases n - t,
    {
        let dq = dequantize_signed_exec(q[t], lo, hi);
        let dv = dequantize_signed_exec(v[t], lo, hi);
        let neg = (dq < 0) != (dv < 0);
        let qa: u64 = if dq >= 0 {
            dq as u64
        } else {
            (-dq) as u64
        };
        let va: u64 = if dv >= 0 {
            dv as u64
        } else {
            (-dv) as u64
        };
        proof {
            assert((qa as int) * (va as int) <= 0x3_0000_0000int * 0x3_0000_0000int) by (
            nonlinear_arith)
                requires
                    0 <= qa <= 0x3_0000_0000u64,
                    0 <= va <= 0x3_0000_0000u64,
            ;
        }
        let mag: u128 = (qa as u128) * (va as u128);
        let dmag: u128 = mag / 65536;
        let term: i128 = if neg {
            -(dmag as i128)
        } else {
            dmag as i128
        };
        proof {
            let prod = (dq as int) * (dv as int);
            // the unsigned magnitude division is the truncating division
            assert(prod == if neg {
                -((qa as int) * (va as int))
            } else {
                (qa as int) * (va as int)
            }) by (nonlinear_arith)
                requires
                    qa as int == (if dq >= 0 {
                        dq as int
                    } else {
                        -(dq as int)
                    }),
                    va as int == (if dv >= 0 {
                        dv as int
                    } else {
                        -(dv as int)
                    }),
                    neg == ((dq < 0) != (dv < 0)),
                    prod == (dq as int) * (dv as int),
            ;
            assert(term as int == trunc_div(prod, FX_I_ONE as int));
            assert(0 <= dmag as int <= 0x10_0000_0000_0000int) by (nonlinear_arith)
                requires
                    dmag as int == (mag as int) / 65536,
                    0 <= mag as int <= 0x9_0000_0000_0000_0000int,
            ;
            assert((t as int) * 0x10_0000_0000_0000 + 0x10_0000_0000_0000 == (t as int + 1)
                * 0x10_0000_0000_0000) by (nonlinear_arith);
            assert((t as int + 1) * 0x10_0000_0000_0000
                <= 0x1_0000_0000_0000_0000int * 0x10_0000_0000_0000) by (nonlinear_arith)
                requires
                    0 <= t as int + 1 <= 0x1_0000_0000_0000_0000int,
            ;
            assert(q@.take(t + 1).drop_last() =~= q@.take(t as int));
            assert(v@.take(t + 1).drop_last() =~= v@.take(t as int));
            assert(q@.take(t + 1).last() == q@[t as int]);
            assert(v@.take(t + 1).last() == v@[t as int]);
        }
        acc = acc + term;
        t += 1;
    }
    proof {
        assert(q@.take(n as int) =~= q@);
        assert(v@.take(n as int) =~= v@);
    }
    if acc > i64::MAX as i128 {
        i64::MAX
    } else if acc < i64::MIN as i128 {
        i64::MIN
    } else {
        acc as i64
    }
}

/// The value a code stands for, executable.
fn dequantize_signed_exec(code: u8, lo: i64, hi: i64) -> (r: i64)
    requires
        lo < hi,
        -0x1_0000_0000 <= lo,
        hi <= 0x1_0000_0000,
    ensures
        r as int == spec_dequantize_signed(code as int, lo as int, hi as int),
        -0x1_0000_0000 <= r <= 0x3_0000_0000,
{
    proof {
        assert(0 <= (code as i64) * (hi - lo) <= 255 * 0x2_0000_0000i64) by (nonlinear_arith)
            requires
                0 <= code <= 255,
                0 < hi - lo <= 0x2_0000_0000i64,
        ;
        let d = (code as int) * ((hi - lo) as int);
        assert(0 <= d / 255 <= 0x2_0000_0000int) by (nonlinear_arith)
            requires
                0 <= d <= 255 * 0x2_0000_0000int,
        ;
    }
    lo + ((code as i64) * (hi - lo)) / 255
}

/// Sorts dense hits by score, larger first: a permutation whose
/// elements all come from the input.
fn sort_hits_desc(v: Vec<DenseHit>) -> (r: Vec<DenseHit>)
    ensures
        r@.len() == v@.len(),
        r@.to_multiset() == v@.to_multiset(),
        forall|i: int| 0 <= i < r@.len() ==> v@.contains(#[trigger] r@[i]),
        forall|i: int, j: int|
            0 <= i < j < r@.len() ==> (#[trigger] r@[i]).score >= (#[trigger] r@[j]).score,
{
    let mut r: Vec<DenseHit> = Vec::new();
    let mut t: usize = 0;
    proof {
        v@.take(0).to_multiset_ensures();
        assert(v@.take(0) =~= Seq::<DenseHit>::empty());
        assert(r@.to_multiset() =~= v@.take(0).to_multiset());
    }
    while t < v.len()
        invariant
            t <= v@.len(),
            r@.len() == t,
            r@.to_multiset() == v@.take(t as int).to_multiset(),
            forall|i: int| 0 <= i < r@.len() ==> v@.contains(#[trigger] r@[i]),
            forall|i: int, j: int|
                0 <= i < j < r@.len() ==> (#[trigger] r@[i]).score >= (#[trigger] r@[j]).score,
        decreases v@.len() - t,
    {
        let x = v[t];
        let ghost r0 = r@;
        let mut p: usize = r.len();
        while p > 0 && r[p - 1].score < x.score
            invariant
                p <= r@.len(),
                r@ == r0,
                forall|j: int| p <= j < r0.len() ==> (#[trigger] r0[j]).score < x.score,
            decreases p,
        {
            p -= 1;
        }
        r.insert(p, x);
        proof {
            assert(v@.take(t + 1).drop_last() =~= v@.take(t as int));
            assert(v@.take(t + 1).last() == v@[t as int]);
            v@.take(t + 1).to_multiset_ensures();
            v@.take(t as int).to_multiset_ensures();
            assert(v@.take(t + 1).to_multiset() =~= v@.take(t as int).to_multiset().insert(x)) by {
                assert(v@.take(t + 1) =~= v@.take(t as int).push(x));
            }
            assert(r@ =~= r0.take(p as int).push(x) + r0.skip(p as int));
            lemma_insert_multiset(r0, x, p as int);
            assert forall|i: int| 0 <= i < r@.len() implies v@.contains(#[trigger] r@[i]) by {
                if i < p {
                    assert(r@[i] == r0[i]);
                } else if i == p {
                    assert(r@[i] == x);
                    assert(v@[t as int] == x);
                } else {
                    assert(r@[i] == r0[i - 1]);
                }
            }
            assert forall|i: int, j: int|
                0 <= i < j < r@.len() implies (#[trigger] r@[i]).score >= (
            #[trigger] r@[j]).score by {
                if i < p && j < p {
                    assert(r@[i] == r0[i] && r@[j] == r0[j]);
                } else if i < p && j == p {
                    assert(r@[i] == r0[i]);
                    assert(r0[i].score >= x.score) by {
                        if r0[i].score < x.score {
                            assert(p <= i < r0.len());
                        }
                    }
                } else if i < p && j > p {
                    assert(r@[i] == r0[i] && r@[j] == r0[j - 1]);
                } else if i == p {
                    assert(r@[j] == r0[j - 1]);
                    assert(p <= j - 1 < r0.len());
                } else {
                    assert(r@[i] == r0[i - 1] && r@[j] == r0[j - 1]);
                }
            }
        }
        t += 1;
    }
    proof {
        assert(v@.take(v@.len() as int) =~= v@);
    }
    r
}

/// The integer square root: the largest `r` with `r * r <= n`.
pub open spec fn spec_isqrt(n: int) -> int
    decreases n,
{
    if n <= 0 {
        0
    } else {
        let p = spec_isqrt(n - 1);
        if (p + 1) * (p + 1) <= n {
            p + 1
        } else {
            p
        }
    }
}

/// The integer square root brackets its argument.
pub proof fn lemma_isqrt_bounds(n: int)
    requires
        n >= 0,
    ensures
        spec_isqrt(n) >= 0,
        spec_isqrt(n) * spec_isqrt(n) <= n,
        n < (spec_isqrt(n) + 1) * (spec_isqrt(n) + 1),
    decreases n,
{
    if n > 0 {
        lemma_isqrt_bounds(n - 1);
        let p = spec_isqrt(n - 1);
        if (p + 1) * (p + 1) <= n {
            assert(n < (p + 2) * (p + 2)) by (nonlinear_arith)
                requires
                    n - 1 < (p + 1) * (p + 1),
                    p >= 0,
            ;
        }
    }
}

/// Any bracketing root is the integer square root.
pub proof fn lemma_isqrt_unique(n: int, r: int)
    requires
        n >= 0,
        r >= 0,
        r * r <= n,
        n < (r + 1) * (r + 1),
    ensures
        r == spec_isqrt(n),
{
    lemma_isqrt_bounds(n);
    let q = spec_isqrt(n);
    if r < q {
        assert((r + 1) * (r + 1) <= q * q) by (nonlinear_arith)
            requires
                0 <= r,
                r + 1 <= q,
        ;
    }
    if q < r {
        assert((q + 1) * (q + 1) <= r * r) by (nonlinear_arith)
            requires
                0 <= q,
                q + 1 <= r,
        ;
    }
}

/// The integer square root, by bisection.
fn isqrt_u128(n: u128) -> (r: u64)
    requires
        n < (1u128 << 96),
    ensures
        r as int == spec_isqrt(n as int),
{
    proof {
        assert((1u128 << 96) == 0x1_0000_0000_0000_0000_0000_0000u128 && (1u64 << 49)
            == 0x2_0000_0000_0000u64) by (bit_vector);
    }
    let mut lo: u64 = 0;
    let mut hi: u64 = 1u64 << 49;
    proof {
        assert(0x2_0000_0000_0000u128 * 0x2_0000_0000_0000u128
            == 0x4_0000_0000_0000_0000_0000_0000u128);
    }
    while lo + 1 < hi
        invariant
            lo < hi,
            hi <= 1u64 << 49,
            (lo as int) * (lo as int) <= n as int,
            (n as int) < (hi as int) * (hi as int),
        decreases hi - lo,
    {
        let mid = lo + (hi - lo) / 2;
        proof {
            assert((1u64 << 49) == 0x2_0000_0000_0000u64) by (bit_vector);
            assert((mid as int) * (mid as int) <= 0x4_0000_0000_0000_0000_0000_0000int)
                by (nonlinear_arith)
                requires
                    0 <= mid as int <= 0x2_0000_0000_0000int,
            ;
        }
        if (mid as u128) * (mid as u128) <= n {
            lo = mid;
        } else {
            hi = mid;
        }
    }
    proof {
        lemma_isqrt_unique(n as int, lo as int);
    }
    lo
}

/// The raw dot product of the first `j` component pairs.
pub open spec fn spec_dot_prefix(a: Seq<i64>, b: Seq<i64>, j: int) -> int
    decreases j,
{
    if j <= 0 {
        0
    } else {
        spec_dot_prefix(a, b, j - 1) + a[j - 1] * b[j - 1]
    }
}

/// The raw dot product of two equal-length component runs.
pub open spec fn spec_dot_raw(a: Seq<i64>, b: Seq<i64>) -> int
    recommends
        a.len() == b.len(),
{
    spec_dot_prefix(a, b, a.len() as int)
}

/// Every component within the fixed-point magnitude bound.
pub open spec fn raw_in_bounds(a: Seq<i64>) -> bool {
    &&& a.len() < u32::MAX
    &&& forall|i: int| 0 <= i < a.len() ==> -(FX_VALUE_MAX as int) <= (#[trigger] a[i]) <= FX_VALUE_MAX as int
}

/// A prefix dot product of bounded components is itself bounded.
proof fn lemma_dot_prefix_bound(a: Seq<i64>, b: Seq<i64>, j: int)
    requires
        0 <= j <= a.len(),
        j <= b.len(),
        raw_in_bounds(a),
        raw_in_bounds(b),
    ensures
        -(j * 0x1_0000_0000_0000_0000) <= spec_dot_prefix(a, b, j) <= j * 0x1_0000_0000_0000_0000,
    decreases j,
{
    if j > 0 {
        lemma_dot_prefix_bound(a, b, j - 1);
        assert(-(0x1_0000_0000_0000_0000) <= a[j - 1] * b[j - 1] <= 0x1_0000_0000_0000_0000)
            by (nonlinear_arith)
            requires
                -(0x1_0000_0000int) <= a[j - 1] <= 0x1_0000_0000int,
                -(0x1_0000_0000int) <= b[j - 1] <= 0x1_0000_0000int,
        ;
    }
}

/// Checks the component bound the fixed-point kernels need.
fn check_raw_in_bounds(a: &Vec<i64>) -> (r: bool)
    ensures
        r == raw_in_bounds(a@),
{
    if a.len() >= u32::MAX as usize {
        return false;
    }
    let mut i: usize = 0;
    while i < a.len()
        invariant
            i <= a@.len(),
            a@.len() < u32::MAX,
            forall|t: int|
                0 <= t < i ==> -(FX_VALUE_MAX as int) <= (#[trigger] a@[t]) <= FX_VALUE_MAX as int,
        decreases a@.len() - i,
    {
        let v = a[i];
        if v > FX_VALUE_MAX as i64 || v < -(FX_VALUE_MAX as i64) {
            return false;
        }
        i += 1;
    }
    true
}

/// The raw dot product of two bounded runs.
fn dot_raw(a: &Vec<i64>, b: &Vec<i64>) -> (r: i128)
    requires
        a@.len() == b@.len(),
        raw_in_bounds(a@),
        raw_in_bounds(b@),
    ensures
        r as int == spec_dot_raw(a@, b@),
{
    let n = a.len();
    let mut acc: i128 = 0;
    let mut j: usize = 0;
    while j < n
        invariant
            j <= n,
            n == a@.len(),
            n == b@.len(),
            raw_in_bounds(a@),
            raw_in_bounds(b@),
            acc as int == spec_dot_prefix(a@, b@, j as int),
        decreases n - j,
    {
        proof {
            lemma_dot_prefix_bound(a@, b@, j as int);
            assert(-(0x1_0000_0000_0000_0000) <= a@[j as int] * b@[j as int]
                <= 0x1_0000_0000_0000_0000) by (nonlinear_arith)
                requires
                    -(0x1_0000_0000int) <= a@[j as int] <= 0x1_0000_0000int,
                    -(0x1_0000_0000int) <= b@[j as int] <= 0x1_0000_0000int,
            ;
            assert(a@.len() < 0x1_0000_0000int);
        }
        acc = acc + (a[j] as i128) * (b[j] as i128);
        j += 1;
    }
    acc
}

/// The full-precision cosine similarity of two raw vectors, on the
/// fixed-point grid: the dot product scaled by a unit and divided,
/// toward zero, by the product of the integer-root norms; zero when
/// either vector has a zero norm.
pub open spec fn spec_cosine_fx(a: Seq<i64>, b: Seq<i64>) -> int {
    let dot = spec_dot_raw(a, b);
    let na = spec_isqrt(spec_dot_raw(a, a));
    let nb = spec_isqrt(spec_dot_raw(b, b));
    if na == 0 || nb == 0 {
        0
    } else {
        trunc_div(dot * (FX_ONE as int), na * nb)
    }
}

/// The cosine kernel for re-ranking, saturated to the signed grid.
fn cosine_fx(a: &Vec<i64>, b: &Vec<i64>) -> (r: i64)
    requires
        a@.len() == b@.len(),
        raw_in_bounds(a@),
        raw_in_bounds(b@),
    ensures
        r as int == sat64(spec_cosine_fx(a@, b@)),
{
    let dot = dot_raw(a, b);
    let na2 = dot_raw(a, a);
    let nb2 = dot_raw(b, b);
    proof {
        lemma_dot_prefix_bound(a@, a@, a@.len() as int);
        lemma_dot_prefix_bound(b@, b@, b@.len() as int);
        lemma_dot_prefix_bound(a@, b@, a@.len() as int);
        lemma_self_dot_nonneg(a@, a@.len() as int);
        lemma_self_dot_nonneg(b@, b@.len() as int);
        assert((a@.len() as int) * 0x1_0000_0000_0000_0000 < 0x1_0000_0000_0000_0000_0000_0000int)
            by (nonlinear_arith)
            requires
                a@.len() < 0x1_0000_0000int,
        ;
        assert((1u128 << 96) == 0x1_0000_0000_0000_0000_0000_0000u128) by (bit_vector);
    }
    let na = isqrt_u128(na2 as u128);
    let nb = isqrt_u128(nb2 as u128);
    if na == 0 || nb == 0 {
        proof {
            assert(spec_cosine_fx(a@, b@) == 0);
        }
        return 0;
    }
    proof {
        lemma_isqrt_bounds(na2 as int);
        lemma_isqrt_bounds(nb2 as int);
        assert(na as int <= 0x1_0000_0000_0000int) by (nonlinear_arith)
            requires
                (na as int) * (na as int) <= na2 as int,
                (na2 as int) < 0x1_0000_0000_0000_0000_0000_0000int,
                (na as int) >= 0,
        ;
        assert(nb as int <= 0x1_0000_0000_0000int) by (nonlinear_arith)
            requires
                (nb as int) * (nb as int) <= nb2 as int,
                (nb2 as int) < 0x1_0000_0000_0000_0000_0000_0000int,
                (nb as int) >= 0,
        ;
        assert((na as int) * (nb as int) > 0) by (nonlinear_arith)
            requires
                na as int > 0,
                nb as int > 0,
        ;
        assert((na as int) * (nb as int) <= 0x1_0000_0000_0000_0000_0000_0000int)
            by (nonlinear_arith)
            requires
                0 <= na as int <= 0x1_0000_0000_0000int,
                0 <= nb as int <= 0x1_0000_0000_0000int,
        ;
    }
    let denom: u128 = (na as u128) * (nb as u128);
    let neg = dot < 0;
    let mag: u128 = if neg {
        (-dot) as u128
    } else {
        dot as u128
    };
    proof {
        assert((mag as int) * 0x10000 <= 0x1_0000_0000_0000_0000_0000_0000int * 0x10000int)
            by (nonlinear_arith)
            requires
                mag as int <= 0x1_0000_0000_0000_0000_0000_0000int,
        ;
    }
    let q: u128 = (mag * 65536u128) / denom;
    let r: i64 = if neg {
        if q > (i64::MAX as u128) + 1 {
            i64::MIN
        } else if q == (i64::MAX as u128) + 1 {
            i64::MIN
        } else {
            -(q as i64)
        }
    } else {
        if q > i64::MAX as u128 {
            i64::MAX
        } else {
            q as i64
        }
    };
    proof {
        let d = spec_dot_raw(a@, b@);
        let nn = (na as int) * (nb as int);
        if neg {
            assert(mag as int == -d);
            assert(trunc_div(d * (FX_ONE as int), nn) == -(((mag as int) * 0x10000) / nn));
            assert((mag * 65536u128) as int == (mag as int) * 0x10000);
            assert(q as int == ((mag as int) * 0x10000) / nn);
        } else {
            assert(mag as int == d);
            assert(d * (FX_ONE as int) >= 0) by (nonlinear_arith)
                requires
                    d >= 0,
                    FX_ONE as int > 0,
            ;
            assert(trunc_div(d * (FX_ONE as int), nn) == ((mag as int) * 0x10000) / nn);
            assert((mag * 65536u128) as int == (mag as int) * 0x10000);
            assert(q as int == ((mag as int) * 0x10000) / nn);
        }
    }
    r
}

impl HNSWIndex {
    /// The raw components last stored for a vector id, if any.
    fn raw_vector_of(&self, vector_id: u64) -> (r: Option<&Vec<i64>>)
        ensures
            match r {
                Some(v) => spec_raw_of(self.vec_raw_map@, vector_id) == Some(v@),
                None => spec_raw_of(self.vec_raw_map@, vector_id) is None,
            },
    {
        let n = self.vec_raw_map.len();
        proof {
            assert(self.vec_raw_map@.take(n as int) =~= self.vec_raw_map@);
        }
        let mut t: usize = n;
        while t > 0
            invariant
                t <= n,
                n == self.vec_raw_map@.len(),
                spec_raw_of(self.vec_raw_map@, vector_id) == spec_raw_of(
                    self.vec_raw_map@.take(t as int),
                    vector_id,
                ),
            decreases t,
        {
            proof {
                assert(self.vec_raw_map@.take(t as int).last() == self.vec_raw_map@[t - 1]);
                assert(self.vec_raw_map@.take(t as int).drop_last() =~= self.vec_raw_map@.take(
                    t - 1,
                ));
            }
            if self.vec_raw_map[t - 1].1.hash_vec == vector_id {
                return Some(&self.vec_raw_map[t - 1].1.raw_vec);
            }
            t -= 1;
        }
        proof {
            assert(self.vec_raw_map@.take(0) =~= Seq::<(u32, DenseRawEmbedding)>::empty());
        }
        None
    }

    /// Re-ranks a quantized answer by full-precision cosine over the
    /// stored raw vectors, best first, keeping at most `k`. A hit whose
    /// raw record is missing, has another dimension, or leaves the
    /// fixed-point component bounds is dropped from the re-ranking.
    pub fn rerank_top_k(&self, query: &Vec<i64>, hits: &Vec<DenseHit>, k: usize) -> (r: Vec<
        DenseHit,
    >)
        requires
            raw_in_bounds(query@),
        ensures
            r@.len() <= k,
            forall|i: int, j: int|
                0 <= i < j < r@.len() ==> (#[trigger] r@[i]).score >= (#[trigger] r@[j]).score,
            forall|i: int|
                0 <= i < r@.len() ==> {
                    let e = #[trigger] r@[i];
                    &&& exists|a: int|
                        0 <= a < hits@.len() && (#[trigger] hits@[a]).vector_id == e.vector_id
                    &&& spec_raw_of(self.vec_raw_map@, e.vector_id) is Some
                    &&& e.score as int == sat64(
                        spec_cosine_fx(
                            query@,
                            spec_raw_of(self.vec_raw_map@, e.vector_id).unwrap(),
                        ),
                    )
                },
    {
        let mut rescored: Vec<DenseHit> = Vec::new();
        let n = hits.len();
        let mut t: usize = 0;
        while t < n
            invariant
                t <= n,
                n == hits@.len(),
                raw_in_bounds(query@),
                forall|i: int|
                    0 <= i < rescored@.len() ==> {
                        let e = #[trigger] rescored@[i];
                        &&& exists|a: int|
                            0 <= a < hits@.len() && (#[trigger] hits@[a]).vector_id == e.vector_id
                        &&& spec_raw_of(self.vec_raw_map@, e.vector_id) is Some
                        &&& e.score as int == sat64(
                            spec_cosine_fx(
                                query@,
                                spec_raw_of(self.vec_raw_map@, e.vector_id).unwrap(),
                            ),
                        )
                    },
            decreases n - t,
        {
            let id = hits[t].vector_id;
            match self.raw_vector_of(id) {
                Some(raw) => {
                    if raw.len() == query.len() && check_raw_in_bounds(raw) {
                        let score = cosine_fx(query, raw);
                        rescored.push(DenseHit { vector_id: id, score });
                        proof {
                            assert(hits@[t as int].vector_id == id);
                        }
                    }
                },
                None => {},
            }
            t += 1;
        }
        let mut sorted = sort_hits_desc(rescored);
        let ghost pre = sorted@;
        if sorted.len() > k {
            sorted.truncate(k);
            proof {
                assert forall|i: int| 0 <= i < sorted@.len() implies pre.contains(
                    #[trigger] sorted@[i],
                ) by {
                    assert(pre[i] == sorted@[i]);
                }
            }
        }
        sorted
    }

    /// Answers a dense query and re-ranks the best `k * reranking_factor`
    /// quantized hits by full-precision cosine over the stored raw
    /// vectors, returning the best `k` of those, highest cosine first.
    pub fn ann_vector_query_reranked(
        &self,
        query: &Vec<i64>,
        metadata_filter: &Option<Vec<u32>>,
        k: usize,
        reranking_factor: usize,
    ) -> (r: Result<Vec<DenseHit>, WaCustomError>)
        requires
            self.wf(),
            raw_in_bounds(query@),
            k * reranking_factor <= usize::MAX,
        ensures
            r is Ok <==> query@.len() == self.dim && self.is_configured,
            query@.len() != self.dim ==> r == Err::<Vec<DenseHit>, WaCustomError>(
                WaCustomError::InvalidParams,
            ),
            r is Ok ==> {
                let out = r.unwrap()@;
                let qc = spec_codes(
                    query@,
                    self.values_range.0 as int,
                    self.values_range.1 as int,
                );
                &&& out.len() <= k
                &&& forall|i: int, j: int|
                    0 <= i < j < out.len() ==> (#[trigger] out[i]).score >= (
                    #[trigger] out[j]).score
                &&& forall|i: int|
                    0 <= i < out.len() ==> {
                        let e = #[trigger] out[i];
                        &&& exists|h: DenseHit|
                            hit_sound(*self, spec_filter_view(*metadata_filter), qc, h)
                                && h.vector_id == e.vector_id
                        &&& spec_raw_of(self.vec_raw_map@, e.vector_id) is Some
                        &&& e.score as int == sat64(
                            spec_cosine_fx(
                                query@,
                                spec_raw_of(self.vec_raw_map@, e.vector_id).unwrap(),
                            ),
                        )
                    }
            },
    {
        let hits = match self.ann_vector_query(query, metadata_filter, Some(k * reranking_factor)) {
            Ok(hits) => hits,
            Err(e) => {
                return Err(e);
            },
        };
        let out = self.rerank_top_k(query, &hits, k);
        proof {
            let qc = spec_codes(query@, self.values_range.0 as int, self.values_range.1 as int);
            assert forall|i: int| 0 <= i < out@.len() implies exists|h: DenseHit|
                hit_sound(*self, spec_filter_view(*metadata_filter), qc, h) && h.vector_id == (
                #[trigger] out@[i]).vector_id by {
                let a = choose|a: int|
                    0 <= a < hits@.len() && (#[trigger] hits@[a]).vector_id == out@[i].vector_id;
                assert(hit_sound(*self, spec_filter_view(*metadata_filter), qc, hits@[a]));
            }
        }
        Ok(out)
    }
}

/// A self dot product is never negative.
proof fn lemma_self_dot_nonneg(a: Seq<i64>, j: int)
    requires
        0 <= j <= a.len(),
    ensures
        spec_dot_prefix(a, a, j) >= 0,
    decreases j,
{
    if j > 0 {
        lemma_self_dot_nonneg(a, j - 1);
        assert(a[j - 1] * a[j - 1] >= 0) by (nonlinear_arith);
    }
}

} // verus!
