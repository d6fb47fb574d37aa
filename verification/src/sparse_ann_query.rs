//! Sparse approximate-nearest-neighbor queries over the inverted index:
//! dot-product scoring with a high- and a low-query-weight regime, and
//! BM25 scoring over the TF-IDF index. Scores accumulate in a hashed
//! map from the `rustc-hash` crate, exactly as specified by the
//! per-dimension score sums.

use crate::fixed::{max_code, quantize, spec_max_code, spec_quantize, FX_ONE, FX_VALUE_MAX};
use crate::inverted_index::{InvertedIndexNode, InvertedIndexRoot, VersionedPagepool};
use crate::path::spec_path;
use crate::tf_idf_index::{TermInfo, TFIDFIndexRoot};
use crate::versioned_vec::DocEntry;
use rustc_hash::FxHashMap;
use vstd::multiset::Multiset;
use vstd::prelude::*;

verus! {

/// Declares rustc-hash's hasher factory so maps built over it can stand
/// in signatures. Relied on for nothing beyond its existence; the map
/// operations below carry the contracts.
#[verifier::external_type_specification]
#[verifier::external_body]
pub struct ExFxBuildHasher(rustc_hash::FxBuildHasher);

/// Relies on `FxHashMap::default` building an empty map.
#[verifier::external_body]
fn fx_new() -> (m: FxHashMap<u32, u32>)
    ensures
        forall|k: u32| !m@.dom().contains(k),
{
    FxHashMap::default()
}

/// Relies on `HashMap::get` returning the value stored under the key.
#[verifier::external_body]
fn fx_get(m: &FxHashMap<u32, u32>, k: u32) -> (r: Option<u32>)
    ensures
        r == if m@.dom().contains(k) {
            Some(m@[k])
        } else {
            None::<u32>
        },
{
    m.get(&k).copied()
}

/// Relies on `HashMap::insert` mapping the key to the new value and
/// leaving every other key as it was.
#[verifier::external_body]
fn fx_insert(m: &mut FxHashMap<u32, u32>, k: u32, v: u32)
    ensures
        final(m)@ == old(m)@.insert(k, v),
{
    m.insert(k, v);
}

/// Relies on `HashMap::iter` visiting every entry exactly once; the
/// order the buckets are walked in gets no promise.
#[verifier::external_body]
fn fx_entries(m: &FxHashMap<u32, u32>) -> (r: Vec<(u32, u32)>)
    ensures
        forall|k: u32, v: u32| m@.contains_pair(k, v) <==> r@.contains((k, v)),
        forall|i: int, j: int|
            0 <= i < j < r@.len() ==> (#[trigger] r@[i]).0 != (#[trigger] r@[j]).0,
        r@.len() == m@.dom().len(),
        forall|i: int|
            0 <= i < r@.len() ==> m@.contains_pair((#[trigger] r@[i]).0, r@[i].1),
{
    m.iter().map(|(k, v)| (*k, *v)).collect()
}

/// A sparse query vector: `(dimension, value)` pairs on the fixed-point
/// grid.
pub struct SparseVector {
    pub vector_id: u64,
    pub entries: Vec<(u32, u64)>,
}

/// One dot-product hit.
#[derive(Clone, Copy, PartialEq, Eq, Structural, Debug)]
pub struct SparseAnnResult {
    pub vector_id: u32,
    pub similarity: u32,
}

/// One BM25 hit; the score on the fixed-point grid.
#[derive(Clone, Copy, PartialEq, Eq, Structural, Debug)]
pub struct SparseAnnIDFResult {
    pub document_id: u32,
    pub score: u64,
}

/// Occurrences of an id in a posting run.
pub open spec fn occ(s: Seq<u32>, id: u32) -> int
    decreases s.len(),
{
    if s.len() == 0 {
        0
    } else {
        occ(s.drop_last(), id) + if s.last() == id {
            1int
        } else {
            0int
        }
    }
}

/// All ids a dimension holds under one quantized key.
pub open spec fn ids_at<const LEN: usize>(
    index: InvertedIndexRoot<LEN>,
    dim: u32,
    key: u8,
) -> Seq<u32> {
    match index.postings_of(dim, key) {
        None => Seq::empty(),
        Some(c) => c.all_ids(),
    }
}

/// The dot-product contribution of one dimension for the keys in
/// `[floor, key]`.
pub open spec fn dim_score<const LEN: usize>(
    index: InvertedIndexRoot<LEN>,
    dim: u32,
    qq: int,
    floor: int,
    key: int,
    id: u32,
) -> int
    decreases key - floor + 1,
{
    if key < floor {
        0
    } else {
        qq * (key * occ(ids_at(index, dim, key as u8), id)) + dim_score(
            index,
            dim,
            qq,
            floor,
            key - 1,
            id,
        )
    }
}

/// Whether `id` appears under one of the keys `[floor, key]` of a
/// dimension.
pub open spec fn dim_hit<const LEN: usize>(
    index: InvertedIndexRoot<LEN>,
    dim: u32,
    floor: int,
    key: int,
    id: u32,
) -> bool
    decreases key - floor + 1,
{
    if key < floor {
        false
    } else {
        occ(ids_at(index, dim, key as u8), id) > 0 || dim_hit(index, dim, floor, key - 1, id)
    }
}

/// The low-weight threshold of a query: the early-terminate fraction
/// of the code range.
pub open spec fn spec_low_threshold(early_terminate_threshold: u64, bits: u8) -> int {
    (early_terminate_threshold as int) * ((1u64 << bits) as int) / (FX_ONE as int)
}

/// The early-terminate code: the threshold clamped to one byte.
pub open spec fn spec_early_terminate_value(early_terminate_threshold: u64, bits: u8) -> int {
    let lt = spec_low_threshold(early_terminate_threshold, bits);
    if lt > 255 {
        255int
    } else {
        lt
    }
}

/// The scan floor of a dimension: the full range in the high
/// query-weight regime, only the keys from the early-terminate value
/// up in the low regime.
pub open spec fn scan_floor(qq: int, low_threshold: int, early_terminate_value: int) -> int {
    if qq > low_threshold {
        0
    } else {
        early_terminate_value
    }
}

/// The total dot-product score of `id` for a query, dimension by
/// dimension. A dimension without a node contributes nothing.
pub open spec fn query_score<const LEN: usize>(
    index: InvertedIndexRoot<LEN>,
    entries: Seq<(u32, u64)>,
    bits: u8,
    upper_bound: int,
    low_threshold: int,
    early_terminate_value: int,
    id: u32,
) -> int
    decreases entries.len(),
{
    if entries.len() == 0 {
        0
    } else {
        let dim = entries.last().0;
        let qq = spec_quantize(entries.last().1 as int, upper_bound, bits);
        (if index.root.has_path(spec_path(dim as int)) {
            dim_score(
                index,
                dim,
                qq,
                scan_floor(qq, low_threshold, early_terminate_value),
                spec_max_code(bits),
                id,
            )
        } else {
            0
        }) + query_score(
            index,
            entries.drop_last(),
            bits,
            upper_bound,
            low_threshold,
            early_terminate_value,
            id,
        )
    }
}

/// Whether `id` is a candidate of the query: it appears in a scanned
/// bucket of some queried dimension.
pub open spec fn is_candidate<const LEN: usize>(
    index: InvertedIndexRoot<LEN>,
    entries: Seq<(u32, u64)>,
    bits: u8,
    upper_bound: int,
    low_threshold: int,
    early_terminate_value: int,
    id: u32,
) -> bool
    decreases entries.len(),
{
    if entries.len() == 0 {
        false
    } else {
        let dim = entries.last().0;
        let qq = spec_quantize(entries.last().1 as int, upper_bound, bits);
        (index.root.has_path(spec_path(dim as int)) && dim_hit(
            index,
            dim,
            scan_floor(qq, low_threshold, early_terminate_value),
            spec_max_code(bits),
            id,
        )) || is_candidate(
            index,
            entries.drop_last(),
            bits,
            upper_bound,
            low_threshold,
            early_terminate_value,
            id,
        )
    }
}

/// Whether a result set carries an id.
pub open spec fn contains_id(out: Seq<SparseAnnResult>, id: u32) -> bool {
    exists|i: int| 0 <= i < out.len() && (#[trigger] out[i]).vector_id == id
}

/// A sparse query and its searchers.
pub struct SparseAnnQueryBasic {
    pub query_vector: SparseVector,
}

impl SparseAnnQueryBasic {
    pub fn new(query_vector: SparseVector) -> (r: Self)
        ensures
            r.query_vector.vector_id == query_vector.vector_id,
            r.query_vector.entries@ == query_vector.entries@,
    {
        SparseAnnQueryBasic { query_vector }
    }

    /// Dot-product search. Each returned id is a candidate and carries
    /// its exact accumulated score (32-bit wrapping, as the counters
    /// are 32-bit); with no `k`, every candidate is returned; an empty
    /// query returns nothing.
    #[verifier::rlimit(100)]
    #[verifier::spinoff_prover]
    pub fn sequential_search<const LEN: usize>(
        self,
        index: &InvertedIndexRoot<LEN>,
        quantization_bits: u8,
        values_upper_bound: u64,
        early_terminate_threshold: u64,
        reranking_factor: usize,
        k: Option<usize>,
    ) -> (r: Result<Vec<SparseAnnResult>, crate::bufio::BufIoError>)
        requires
            index.wf(),
            1 <= quantization_bits <= 8,
            0 < values_upper_bound <= FX_VALUE_MAX,
            early_terminate_threshold <= FX_ONE,
            forall|i: int|
                0 <= i < self.query_vector.entries@.len() ==> (
                #[trigger] self.query_vector.entries@[i]).1 <= FX_VALUE_MAX,
            k is Some ==> k.unwrap() * reranking_factor <= usize::MAX,
        ensures
            r is Ok,
            forall|i: int|
                0 <= i < r.unwrap()@.len() ==> (#[trigger] r.unwrap()@[i]).similarity as int
                    == query_score(
                    *index,
                    self.query_vector.entries@,
                    quantization_bits,
                    values_upper_bound as int,
                    spec_low_threshold(early_terminate_threshold, quantization_bits),
                    spec_early_terminate_value(early_terminate_threshold, quantization_bits),
                    r.unwrap()@[i].vector_id,
                ) % 0x1_0000_0000,
            forall|i: int|
                0 <= i < r.unwrap()@.len() ==> is_candidate(
                    *index,
                    self.query_vector.entries@,
                    quantization_bits,
                    values_upper_bound as int,
                    spec_low_threshold(early_terminate_threshold, quantization_bits),
                    spec_early_terminate_value(early_terminate_threshold, quantization_bits),
                    (#[trigger] r.unwrap()@[i]).vector_id,
                ),
            forall|i: int, j: int|
                0 <= i < j < r.unwrap()@.len() ==> (#[trigger] r.unwrap()@[i]).vector_id != (
                #[trigger] r.unwrap()@[j]).vector_id,
            k is None ==> forall|id: u32|
                is_candidate(
                    *index,
                    self.query_vector.entries@,
                    quantization_bits,
                    values_upper_bound as int,
                    spec_low_threshold(early_terminate_threshold, quantization_bits),
                    spec_early_terminate_value(early_terminate_threshold, quantization_bits),
                    id,
                ) ==> contains_id(r.unwrap()@, id),
            self.query_vector.entries@.len() == 0 ==> r.unwrap()@.len() == 0,
            k is Some ==> r.unwrap()@.len() <= k.unwrap() * reranking_factor,
            k is Some && r.unwrap()@.len() < k.unwrap() * reranking_factor ==> forall|id: u32|
                is_candidate(
                    *index,
                    self.query_vector.entries@,
                    quantization_bits,
                    values_upper_bound as int,
                    spec_low_threshold(early_terminate_threshold, quantization_bits),
                    spec_early_terminate_value(early_terminate_threshold, quantization_bits),
                    id,
                ) ==> contains_id(r.unwrap()@, id),
            forall|id: u32, i: int|
                is_candidate(
                    *index,
                    self.query_vector.entries@,
                    quantization_bits,
                    values_upper_bound as int,
                    spec_low_threshold(early_terminate_threshold, quantization_bits),
                    spec_early_terminate_value(early_terminate_threshold, quantization_bits),
                    id,
                ) && !(#[trigger] contains_id(r.unwrap()@, id)) && 0 <= i < r.unwrap()@.len()
                    ==> query_score(
                    *index,
                    self.query_vector.entries@,
                    quantization_bits,
                    values_upper_bound as int,
                    spec_low_threshold(early_terminate_threshold, quantization_bits),
                    spec_early_terminate_value(early_terminate_threshold, quantization_bits),
                    id,
                ) % 0x1_0000_0000 <= (#[trigger] r.unwrap()@[i]).similarity,
    {
        let entries = &self.query_vector.entries;
        let m = max_code(quantization_bits);
        proof {
            assert(1u64 << (quantization_bits as u32) == (1u64 << quantization_bits)
                && (1u64 << (quantization_bits as u32)) <= 256 && (1u64 << (
            quantization_bits as u32)) >= 1) by (bit_vector)
                requires
                    1 <= quantization_bits <= 8,
            ;
            assert(early_terminate_threshold * (1u64 << (quantization_bits as u32)) <= 65536
                * 256) by (nonlinear_arith)
                requires
                    early_terminate_threshold <= 65536,
                    (1u64 << (quantization_bits as u32)) <= 256,
            ;
        }
        let lt64 = early_terminate_threshold * (1u64 << (quantization_bits as u32)) / FX_ONE;
        proof {
            assert(lt64 <= 256) by (nonlinear_arith)
                requires
                    lt64 == early_terminate_threshold * (1u64 << (quantization_bits as u32))
                        / 65536,
                    early_terminate_threshold * (1u64 << (quantization_bits as u32)) <= 65536
                        * 256,
            ;
        }
        let etv: u8 = if lt64 > 255 {
            255
        } else {
            lt64 as u8
        };
        let ghost ub = values_upper_bound as int;
        let ghost lt = lt64 as int;
        let ghost bits = quantization_bits;
        let ghost eseq = entries@;
        let mut dot_products = fx_new();
        let n = entries.len();
        let mut j: usize = 0;
        while j < n
            invariant
                index.wf(),
                1 <= bits <= 8,
                bits == quantization_bits,
                0 < values_upper_bound <= FX_VALUE_MAX,
                ub == values_upper_bound as int,
                lt == lt64 as int,
                lt64 <= 256,
                etv as int == if lt > 255 {
                    255int
                } else {
                    lt
                },
                m as int == spec_max_code(bits),
                n == eseq.len(),
                eseq == entries@,
                j <= n,
                forall|i: int| 0 <= i < eseq.len() ==> (#[trigger] eseq[i]).1 <= FX_VALUE_MAX,
                forall|id: u32|
                    #[trigger] dot_products@.dom().contains(id) <==> is_candidate(
                        *index,
                        eseq.take(j as int),
                        bits,
                        ub,
                        lt,
                        etv as int,
                        id,
                    ),
                forall|id: u32|
                    dot_products@.dom().contains(id) ==> #[trigger] dot_products@[id] as int == query_score(
                        *index,
                        eseq.take(j as int),
                        bits,
                        ub,
                        lt,
                        etv as int,
                        id,
                    ) % 0x1_0000_0000,
            decreases n - j,
        {
            let (dim_index, dim_value) = entries[j];
            let node_opt = index.find_node(dim_index);
            proof {
                assert(eseq.take(j + 1).drop_last() =~= eseq.take(j as int));
                assert(eseq.take(j + 1).last() == eseq[j as int]);
            }
            match node_opt {
                None => {
                    proof {
                        lemma_step_no_node(*index, eseq.take(j + 1), bits, ub, lt, etv as int);
                    }
                },
                Some(node) => {
                    let quantized_query_value = quantize(
                        dim_value,
                        values_upper_bound,
                        quantization_bits,
                    ) as u32;
                    let ghost qq = quantized_query_value as int;
                    let floor: u8 = if quantized_query_value > lt64 as u32 {
                        0
                    } else {
                        etv
                    };
                    proof {
                        assert(floor as int == scan_floor(qq, lt, etv as int));
                    }
                    let ghost base = dot_products@;
                    if floor > m {
                        // nothing to scan: the early-terminate value lies
                        // above the largest code
                        proof {
                            let fl = floor as int;
                            assert forall|id: u32|
                                dot_products@.dom().contains(id) implies
                                (#[trigger] dot_products@[id]) as int == ((if base.dom().contains(id) {
                                base[id] as int
                            } else {
                                0int
                            }) + dim_score(*index, dim_index, qq, fl, m as int, id))
                                % 0x1_0000_0000 by {
                                assert(dim_score(*index, dim_index, qq, fl, m as int, id) == 0);
                                vstd::arithmetic::div_mod::lemma_small_mod(
                                    base[id] as nat,
                                    0x1_0000_0000nat,
                                );
                            }
                            assert(eseq.take(j + 1).last() == (dim_index, dim_value));
                            assert(qq == spec_quantize(dim_value as int, ub, bits));
                            assert(!dim_hit(
                                *index,
                                dim_index,
                                fl,
                                spec_max_code(bits),
                                0u32,
                            ) ==> true);
                            assert forall|id: u32|
                                !dim_hit(*index, dim_index, fl, spec_max_code(bits), id) by {
                                assert(fl > spec_max_code(bits));
                            }
                            lemma_step_with_node(
                                *index,
                                eseq.take(j + 1),
                                bits,
                                ub,
                                lt,
                                etv as int,
                                base,
                                dot_products@,
                            );
                        }
                    } else {
                        let mut key: u8 = m;
                        let mut done = false;
                        while !done
                            invariant
                                index.wf(),
                                node.wf(),
                                Some(*node) == index.root.node_at(spec_path(dim_index as int)),
                                index.root.has_path(spec_path(dim_index as int)),
                                floor <= key <= m,
                                done ==> key == floor,
                                qq == quantized_query_value as int,
                                quantized_query_value <= 255,
                                0 <= qq,
                                m as int == spec_max_code(bits),
                                forall|id: u32|
                                    #[trigger] dot_products@.dom().contains(id) <==> (
                                    base.dom().contains(id) || dim_hit(
                                        *index,
                                        dim_index,
                                        if done {
                                            key as int
                                        } else {
                                            key + 1
                                        },
                                        m as int,
                                        id,
                                    )),
                                forall|id: u32|
                                    dot_products@.dom().contains(id)
                                        ==> #[trigger] dot_products@[id] as int == ((
                                    if base.dom().contains(id) {
                                        base[id] as int
                                    } else {
                                        0int
                                    }) + dim_score(
                                        *index,
                                        dim_index,
                                        qq,
                                        if done {
                                            key as int
                                        } else {
                                            key + 1
                                        },
                                        m as int,
                                        id,
                                    )) % 0x1_0000_0000,
                                forall|id: u32|
                                    base.dom().contains(id) ==> dot_products@.dom().contains(id),
                                forall|id: u32|
                                    base.dom().contains(id) && !dim_hit(
                                        *index,
                                        dim_index,
                                        if done {
                                            key as int
                                        } else {
                                            key + 1
                                        },
                                        m as int,
                                        id,
                                    ) ==> #[trigger] dot_products@[id] == base[id],
                            decreases (if done {
                                0int
                            } else {
                                key + 1
                            }),
                        {
                            let pagepool_opt = node.data.lookup(key);
                            let ghost pre = dot_products@;
                            let ghost kk = key as int;
                            match pagepool_opt {
                                Some(chain) => {
                                    proof {
                                        assert(node.data.wf());
                                        crate::inverted_index::lemma_postings_wf(node.data, key);
                                    }
                                    let ids = chain.to_vec();
                                    proof {
                                        assert(index.postings_of(dim_index, key) == Some(*chain));
                                        assert(ids@ == ids_at(*index, dim_index, key));
                                    }
                                    proof {
                                        assert(quantized_query_value * (key as u32) < 0x10000u32)
                                            by (nonlinear_arith)
                                            requires
                                                quantized_query_value <= 255,
                                                key <= 255,
                                        ;
                                    }
                                    let delta: u32 = quantized_query_value * (key as u32);
                                    let t_end = ids.len();
                                    let mut t: usize = 0;
                                    while t < t_end
                                        invariant
                                            t <= t_end,
                                            t_end == ids@.len(),
                                            delta as int == qq * kk,
                                            0 <= qq <= 255,
                                            0 <= kk <= 255,
                                            delta < 0x10000,
                                            ids@ == ids_at(*index, dim_index, key),
                                            kk == key as int,
                                            forall|id: u32|
                                                #[trigger] dot_products@.dom().contains(id) <==> (
                                                pre.dom().contains(id) || occ(
                                                    ids@.take(t as int),
                                                    id,
                                                ) > 0),
                                            forall|id: u32|
                                                dot_products@.dom().contains(id)
                                                    ==> #[trigger] dot_products@[id] as int == ((
                                                if pre.dom().contains(id) {
                                                    pre[id] as int
                                                } else {
                                                    0int
                                                }) + qq * (kk * occ(ids@.take(t as int), id)))
                                                    % 0x1_0000_0000,
                                            forall|id: u32|
                                                pre.dom().contains(id)
                                                    ==> dot_products@.dom().contains(id),
                                            forall|id: u32|
                                                pre.dom().contains(id) && occ(
                                                    ids@.take(t as int),
                                                    id,
                                                ) == 0 ==> #[trigger] dot_products@[id] == pre[id],
                                        decreases t_end - t,
                                    {
                                        let x = ids[t];
                                        let cur = match fx_get(&dot_products, x) {
                                            Some(v) => v,
                                            None => 0,
                                        };
                                        proof {
                                            lemma_occ_nonneg(ids@.take(t as int), x);
                                            let base_x: int = if pre.dom().contains(x) {
                                                pre[x] as int
                                            } else {
                                                0int
                                            };
                                            let o0 = occ(ids@.take(t as int), x);
                                            assert(qq * (kk * o0) >= 0) by (nonlinear_arith)
                                                requires
                                                    qq >= 0,
                                                    kk >= 0,
                                                    o0 >= 0,
                                            ;
                                            if !dot_products@.dom().contains(x) {
                                                assert(!pre.dom().contains(x) && o0 == 0);
                                                assert(qq * (kk * 0) == 0) by (nonlinear_arith);
                                                vstd::arithmetic::div_mod::lemma_small_mod(
                                                    0nat,
                                                    0x1_0000_0000nat,
                                                );
                                                assert(cur as int == (base_x + qq * (kk * o0))
                                                    % 0x1_0000_0000);
                                            }
                                        }
                                        let newv = cur.wrapping_add(delta);
                                        fx_insert(&mut dot_products, x, newv);
                                        proof {
                                            lemma_occ_take_succ(ids@, t as int);
                                            let base_x: int = if pre.dom().contains(x) {
                                                pre[x] as int
                                            } else {
                                                0int
                                            };
                                            let o0 = occ(ids@.take(t as int), x);
                                            let so_far = qq * (kk * o0);
                                            lemma_occ_nonneg(ids@.take(t as int), x);
                                            assert(so_far >= 0) by (nonlinear_arith)
                                                requires
                                                    qq >= 0,
                                                    kk >= 0,
                                                    o0 >= 0,
                                                    so_far == qq * (kk * o0),
                                            ;
                                            lemma_wrap_step(cur as int, delta as int, base_x + so_far);
                                            assert(qq * (kk * occ(ids@.take(t + 1), x)) == so_far
                                                + qq * kk) by (nonlinear_arith)
                                                requires
                                                    occ(ids@.take(t + 1), x) == occ(
                                                        ids@.take(t as int),
                                                        x,
                                                    ) + 1,
                                                    so_far == qq * (kk * occ(
                                                        ids@.take(t as int),
                                                        x,
                                                    )),
                                            ;
                                            assert(newv as int == (base_x + qq * (kk * occ(
                                                ids@.take(t + 1),
                                                x,
                                            ))) % 0x1_0000_0000);
                                        }
                                        t += 1;
                                    }
                                    proof {
                                        assert(ids@.take(t_end as int) =~= ids@);
                                        lemma_dim_score_peel(*index, dim_index, qq, kk, m as int);
                                        lemma_dim_hit_peel(*index, dim_index, kk, m as int);
                                        assert forall|id: u32|
                                            dot_products@.dom().contains(id)
                                                implies #[trigger] dot_products@[id] as int == ((
                                        if base.dom().contains(id) {
                                            base[id] as int
                                        } else {
                                            0int
                                        }) + dim_score(*index, dim_index, qq, kk, m as int, id))
                                            % 0x1_0000_0000 by {
                                            let b: int = if base.dom().contains(id) {
                                                base[id] as int
                                            } else {
                                                0int
                                            };
                                            let hi = dim_score(
                                                *index,
                                                dim_index,
                                                qq,
                                                kk + 1,
                                                m as int,
                                                id,
                                            );
                                            let o = occ(ids@, id);
                                            lemma_occ_nonneg(ids@, id);
                                            assert(dim_score(
                                                *index,
                                                dim_index,
                                                qq,
                                                kk,
                                                m as int,
                                                id,
                                            ) == hi + qq * (kk * o));
                                            lemma_dim_score_nonneg(
                                                *index,
                                                dim_index,
                                                qq,
                                                kk + 1,
                                                m as int,
                                                id,
                                            );
                                            assert(qq * (kk * o) >= 0) by (nonlinear_arith)
                                                requires
                                                    qq >= 0,
                                                    kk >= 0,
                                                    o >= 0,
                                            ;
                                            if pre.dom().contains(id) {
                                                assert(pre[id] as int == (b + hi)
                                                    % 0x1_0000_0000);
                                                lemma_mod_rebase(b + hi, qq * (kk * o));
                                            } else {
                                                assert(!base.dom().contains(id));
                                                assert(b == 0);
                                                assert(!dim_hit(
                                                    *index,
                                                    dim_index,
                                                    kk + 1,
                                                    m as int,
                                                    id,
                                                ));
                                                lemma_dim_score_no_hit(
                                                    *index,
                                                    dim_index,
                                                    qq,
                                                    kk + 1,
                                                    m as int,
                                                    id,
                                                );
                                                assert(hi == 0);
                                            }
                                        }
                                        assert forall|id: u32|
                                            #[trigger] dot_products@.dom().contains(id) <==> (
                                            base.dom().contains(id) || dim_hit(
                                                *index,
                                                dim_index,
                                                kk,
                                                m as int,
                                                id,
                                            )) by {
                                            lemma_occ_nonneg(ids@, id);
                                        }
                                        assert forall|id: u32|
                                            base.dom().contains(id) && !dim_hit(
                                                *index,
                                                dim_index,
                                                kk,
                                                m as int,
                                                id,
                                            ) implies (#[trigger] dot_products@[id]) == base[id] by {
                                            lemma_occ_nonneg(ids@, id);
                                            assert(occ(ids@, id) == 0);
                                            assert(!dim_hit(
                                                *index,
                                                dim_index,
                                                kk + 1,
                                                m as int,
                                                id,
                                            ));
                                            assert(dot_products@[id] == pre[id]);
                                        }
                                    }
                                },
                                None => {
                                    proof {
                                        lemma_dim_score_peel(*index, dim_index, qq, kk, m as int);
                                        lemma_dim_hit_peel(*index, dim_index, kk, m as int);
                                        assert(ids_at(*index, dim_index, key) =~= Seq::<
                                            u32,
                                        >::empty());
                                        assert forall|id: u32|
                                            dot_products@.dom().contains(id)
                                                implies #[trigger] dot_products@[id] as int == ((
                                        if base.dom().contains(id) {
                                            base[id] as int
                                        } else {
                                            0int
                                        }) + dim_score(*index, dim_index, qq, kk, m as int, id))
                                            % 0x1_0000_0000 by {
                                            assert(occ(ids_at(*index, dim_index, key), id) == 0);
                                            assert(qq * (kk * 0) == 0) by (nonlinear_arith);
                                        }
                                        assert forall|id: u32|
                                            #[trigger] dot_products@.dom().contains(id) <==> (
                                            base.dom().contains(id) || dim_hit(
                                                *index,
                                                dim_index,
                                                kk,
                                                m as int,
                                                id,
                                            )) by {
                                            assert(occ(ids_at(*index, dim_index, key), id) == 0);
                                        }
                                    }
                                },
                            }
                            if key == floor {
                                done = true;
                            } else {
                                key -= 1;
                            }
                        }
                        proof {
                            assert(key as int == scan_floor(qq, lt, etv as int));
                            assert(eseq.take(j + 1).last() == (dim_index, dim_value));
                            assert(qq == spec_quantize(dim_value as int, ub, bits));
                            lemma_step_with_node(
                                *index,
                                eseq.take(j + 1),
                                bits,
                                ub,
                                lt,
                                etv as int,
                                base,
                                dot_products@,
                            );
                        }
                    }
                },
            }
            j += 1;
        }
        proof {
            assert(eseq.take(n as int) =~= eseq);
        }
        let pairs = fx_entries(&dot_products);
        let mut results: Vec<SparseAnnResult> = Vec::new();
        let mut t: usize = 0;
        while t < pairs.len()
            invariant
                t <= pairs@.len(),
                results@.len() == t,
                forall|i: int|
                    0 <= i < t ==> (#[trigger] results@[i]).vector_id == pairs@[i].0 && results@[i].similarity
                        == pairs@[i].1,
            decreases pairs@.len() - t,
        {
            let (vector_id, similarity) = pairs[t];
            results.push(SparseAnnResult { vector_id, similarity });
            t += 1;
        }
        let ghost full = results@;
        proof {
            assert forall|i: int, jj: int|
                0 <= i < jj < full.len() implies (#[trigger] full[i]).vector_id != (
            #[trigger] full[jj]).vector_id by {
                assert(pairs@[i].0 != pairs@[jj].0);
            }
            assert forall|i: int|
                0 <= i < full.len() implies dot_products@.contains_pair(
                (#[trigger] full[i]).vector_id,
                full[i].similarity,
            ) by {
                assert(dot_products@.contains_pair(pairs@[i].0, pairs@[i].1));
            }
        }
        proof {
            let gub = values_upper_bound as int;
            assert(lt == (early_terminate_threshold as int) * ((1u64 << quantization_bits) as int)
                / (FX_ONE as int));
            assert forall|i: int|
                0 <= i < full.len() implies (#[trigger] full[i]).similarity as int == query_score(
                *index,
                eseq,
                bits,
                gub,
                lt,
                etv as int,
                full[i].vector_id,
            ) % 0x1_0000_0000 && is_candidate(
                *index,
                eseq,
                bits,
                gub,
                lt,
                etv as int,
                full[i].vector_id,
            ) by {
                assert(dot_products@.contains_pair(full[i].vector_id, full[i].similarity));
                assert(dot_products@.dom().contains(full[i].vector_id));
            }
            if eseq.len() == 0 {
                assert forall|id: u32| !dot_products@.dom().contains(id) by {
                    assert(!is_candidate(*index, eseq, bits, gub, lt, etv as int, id));
                }
                if full.len() > 0 {
                    assert(dot_products@.contains_pair(full[0].vector_id, full[0].similarity));
                }
            }
            assert forall|id: u32|
                is_candidate(*index, eseq, bits, gub, lt, etv as int, id) implies exists|i: int|
                0 <= i < full.len() && (#[trigger] full[i]).vector_id == id by {
                assert(dot_products@.dom().contains(id));
                assert(dot_products@.contains_pair(id, dot_products@[id]));
                assert(pairs@.contains((id, dot_products@[id])));
                let i = choose|i: int| 0 <= i < pairs@.len() && pairs@[i] == (
                    id,
                    dot_products@[id],
                );
                assert(full[i].vector_id == id);
            }
        }
        proof {
            assert(lt == spec_low_threshold(early_terminate_threshold, quantization_bits));
            assert(etv as int == spec_early_terminate_value(
                early_terminate_threshold,
                quantization_bits,
            ));
            assert forall|id: u32|
                is_candidate(
                    *index,
                    eseq,
                    bits,
                    values_upper_bound as int,
                    spec_low_threshold(early_terminate_threshold, quantization_bits),
                    spec_early_terminate_value(early_terminate_threshold, quantization_bits),
                    id,
                ) implies exists|i: int|
                0 <= i < full.len() && (#[trigger] full[i]).vector_id == id by {
                assert(is_candidate(
                    *index,
                    eseq,
                    bits,
                    values_upper_bound as int,
                    lt,
                    etv as int,
                    id,
                ));
            }
        }
        let ghost mut gsorted: Seq<SparseAnnResult> = Seq::empty();
        let ghost mut truncated: bool = false;
        let ghost mut gkk: int = 0;
        if let Some(kv) = k {
            let k_with_reranking = kv * reranking_factor;
            if results.len() > k_with_reranking {
                results = sort_results_desc(results);
                proof {
                    gsorted = results@;
                    truncated = true;
                    gkk = k_with_reranking as int;
                }
                results.truncate(k_with_reranking);
                proof {
                    assert forall|i: int|
                        0 <= i < results@.len() implies full.contains(#[trigger] results@[i]) by {
                    }
                    assert forall|i: int|
                        0 <= i < results@.len() implies (#[trigger] results@[i]).similarity
                        as int == query_score(
                        *index,
                        eseq,
                        bits,
                        values_upper_bound as int,
                        lt,
                        etv as int,
                        results@[i].vector_id,
                    ) % 0x1_0000_0000 && is_candidate(
                        *index,
                        eseq,
                        bits,
                        values_upper_bound as int,
                        lt,
                        etv as int,
                        results@[i].vector_id,
                    ) by {
                        assert(full.contains(results@[i]));
                        let w = choose|w: int| 0 <= w < full.len() && full[w] == results@[i];
                        assert(full[w].similarity == results@[i].similarity);
                    }
                }
            }
        }
        proof {
            if k is None {
                assert(results@ == full);
                assert(self.query_vector.entries@ == eseq);
                assert forall|id: u32|
                    is_candidate(
                        *index,
                        self.query_vector.entries@,
                        quantization_bits,
                        values_upper_bound as int,
                        spec_low_threshold(early_terminate_threshold, quantization_bits),
                        spec_early_terminate_value(early_terminate_threshold, quantization_bits),
                        id,
                    ) implies contains_id(results@, id) by {
                    assert(is_candidate(
                        *index,
                        eseq,
                        bits,
                        values_upper_bound as int,
                        lt,
                        etv as int,
                        id,
                    ));
                    assert(exists|w: int|
                        0 <= w < full.len() && (#[trigger] full[w]).vector_id == id);
                    let w = choose|w: int| 0 <= w < full.len() && (#[trigger] full[w]).vector_id
                        == id;
                    assert(results@[w].vector_id == id);
                    assert(contains_id(results@, id));
                }
            }
            assert forall|id: u32, i: int|
                is_candidate(
                    *index,
                    self.query_vector.entries@,
                    quantization_bits,
                    values_upper_bound as int,
                    spec_low_threshold(early_terminate_threshold, quantization_bits),
                    spec_early_terminate_value(early_terminate_threshold, quantization_bits),
                    id,
                ) && !(#[trigger] contains_id(results@, id)) && 0 <= i
                < results@.len() implies query_score(
                *index,
                self.query_vector.entries@,
                quantization_bits,
                values_upper_bound as int,
                spec_low_threshold(early_terminate_threshold, quantization_bits),
                spec_early_terminate_value(early_terminate_threshold, quantization_bits),
                id,
            ) % 0x1_0000_0000 <= (#[trigger] results@[i]).similarity by {
                assert(is_candidate(
                    *index,
                    eseq,
                    bits,
                    values_upper_bound as int,
                    lt,
                    etv as int,
                    id,
                ));
                let w = choose|w: int| 0 <= w < full.len() && (#[trigger] full[w]).vector_id
                    == id;
                assert(dot_products@.contains_pair(full[w].vector_id, full[w].similarity));
                assert(full[w].similarity as int == query_score(
                    *index,
                    eseq,
                    bits,
                    values_upper_bound as int,
                    lt,
                    etv as int,
                    id,
                ) % 0x1_0000_0000);
                if !truncated {
                    assert(results@ == full);
                    assert(results@[w].vector_id == id);
                    assert(contains_id(results@, id));
                } else {
                    assert(gsorted.to_multiset() == full.to_multiset());
                    lemma_contains_count(full, w);
                    lemma_count_one_index(gsorted, full[w]);
                    let w2 = choose|w2: int| 0 <= w2 < gsorted.len() && gsorted[w2] == full[w];
                    assert(results@ == gsorted.take(gkk));
                    if w2 < gkk {
                        assert(results@[w2] == gsorted[w2]);
                        assert(contains_id(results@, id));
                    } else {
                        assert(results@[i] == gsorted[i]);
                        assert(gsorted[i].similarity >= gsorted[w2].similarity);
                        assert(gsorted[w2].similarity == full[w].similarity);
                    }
                }
            }
        }
        Ok(results)
    }
}

/// Sorts hits by similarity, larger first; a permutation whose elements
/// all come from the input, with distinct ids staying distinct.
fn sort_results_desc(v: Vec<SparseAnnResult>) -> (r: Vec<SparseAnnResult>)
    ensures
        r@.len() == v@.len(),
        r@.to_multiset() == v@.to_multiset(),
        forall|i: int| 0 <= i < r@.len() ==> v@.contains(#[trigger] r@[i]),
        forall|i: int, j: int|
            0 <= i < j < r@.len() ==> (#[trigger] r@[i]).similarity >= (#[trigger] r@[j]).similarity,
        (forall|i: int, j: int|
            0 <= i < j < v@.len() ==> (#[trigger] v@[i]).vector_id != (#[trigger] v@[j]).vector_id)
            ==> (forall|i: int, j: int|
            0 <= i < j < r@.len() ==> (#[trigger] r@[i]).vector_id != (
            #[trigger] r@[j]).vector_id),
{
    let mut r: Vec<SparseAnnResult> = Vec::new();
    let mut t: usize = 0;
    proof {
        v@.take(0).to_multiset_ensures();
        assert(v@.take(0) =~= Seq::<SparseAnnResult>::empty());
        assert(r@.to_multiset() =~= v@.take(0).to_multiset());
    }
    while t < v.len()
        invariant
            t <= v@.len(),
            r@.len() == t,
            r@.to_multiset() == v@.take(t as int).to_multiset(),
            forall|i: int| 0 <= i < r@.len() ==> v@.contains(#[trigger] r@[i]),
            forall|i: int, j: int|
                0 <= i < j < r@.len() ==> (#[trigger] r@[i]).similarity >= (
                #[trigger] r@[j]).similarity,
        decreases v@.len() - t,
    {
        let x = v[t];
        let ghost r0 = r@;
        // find the insertion point: after every entry at least as large
        let mut p: usize = r.len();
        while p > 0 && r[p - 1].similarity < x.similarity
            invariant
                p <= r@.len(),
                r@ == r0,
                forall|j: int| p <= j < r0.len() ==> (#[trigger] r0[j]).similarity < x.similarity,
            decreases p,
        {
            p -= 1;
        }
        r.insert(p, x);
        proof {
            assert(v@.take(t + 1).drop_last() =~= v@.take(t as int));
            assert(v@.take(t + 1).last() == v@[t as int]);
            v@.take(t + 1).to_multiset_ensures();
            v@.take(t as int).to_multiset_ensures();
            assert(v@.take(t + 1).to_multiset() =~= v@.take(t as int).to_multiset().insert(x)) by {
                assert(v@.take(t + 1) =~= v@.take(t as int).push(x));
            }
            assert(r@ =~= r0.take(p as int).push(x) + r0.skip(p as int));
            lemma_insert_multiset(r0, x, p as int);
            assert forall|i: int| 0 <= i < r@.len() implies v@.contains(#[trigger] r@[i]) by {
                if i < p {
                    assert(r@[i] == r0[i]);
                } else if i == p {
                    assert(r@[i] == x);
                    assert(v@[t as int] == x);
                } else {
                    assert(r@[i] == r0[i - 1]);
                }
            }
            assert forall|i: int, j: int|
                0 <= i < j < r@.len() implies (#[trigger] r@[i]).similarity >= (
            #[trigger] r@[j]).similarity by {
                if i < p && j < p {
                    assert(r@[i] == r0[i] && r@[j] == r0[j]);
                } else if i < p && j == p {
                    assert(r@[i] == r0[i]);
                    assert(r0[i].similarity >= x.similarity) by {
                        if r0[i].similarity < x.similarity {
                            assert(p <= i < r0.len());
                        }
                    }
                } else if i < p && j > p {
                    assert(r@[i] == r0[i] && r@[j] == r0[j - 1]);
                } else if i == p {
                    assert(r@[j] == r0[j - 1]);
                    assert(p <= j - 1 < r0.len());
                } else {
                    assert(r@[i] == r0[i - 1] && r@[j] == r0[j - 1]);
                }
            }
        }
        t += 1;
    }
    proof {
        assert(v@.take(v@.len() as int) =~= v@);
        // distinct ids are preserved by any permutation
        if forall|i: int, j: int|
            0 <= i < j < v@.len() ==> (#[trigger] v@[i]).vector_id != (#[trigger] v@[j]).vector_id {
            assert forall|i: int, j: int|
                0 <= i < j < r@.len() implies (#[trigger] r@[i]).vector_id != (
            #[trigger] r@[j]).vector_id by {
                if r@[i].vector_id == r@[j].vector_id {
                    if r@[i] == r@[j] {
                        lemma_dup_count(r@, i, j);
                        r@.to_multiset_ensures();
                        v@.to_multiset_ensures();
                        assert(v@.to_multiset().count(r@[i]) >= 2);
                        lemma_count_two_indexes(v@, r@[i]);
                    } else {
                        let a = choose|a: int| 0 <= a < v@.len() && v@[a] == r@[i];
                        let b = choose|b: int| 0 <= b < v@.len() && v@[b] == r@[j];
                        assert(a != b);
                        if a < b {
                            assert(v@[a].vector_id != v@[b].vector_id);
                        } else {
                            assert(v@[b].vector_id != v@[a].vector_id);
                        }
                    }
                }
            }
        }
    }
    r
}

/// Inserting into a sequence adds one occurrence to its multiset.
pub(crate) proof fn lemma_insert_multiset<T>(s: Seq<T>, x: T, p: int)
    requires
        0 <= p <= s.len(),
    ensures
        (s.take(p).push(x) + s.skip(p)).to_multiset() == s.to_multiset().insert(x),
{
    let l = s.take(p);
    let rgt = s.skip(p);
    vstd::seq_lib::lemma_multiset_commutative(l.push(x), rgt);
    vstd::seq_lib::lemma_multiset_commutative(l, rgt);
    l.to_multiset_ensures();
    l.push(x).to_multiset_ensures();
    assert(s =~= l + rgt);
    assert(l.push(x).to_multiset() == l.to_multiset().insert(x));
    assert((l.push(x) + rgt).to_multiset() =~= s.to_multiset().insert(x));
}

/// A value at two positions counts at least twice.
pub(crate) proof fn lemma_dup_count<T>(s: Seq<T>, i: int, j: int)
    requires
        0 <= i < j < s.len(),
        s[i] == s[j],
    ensures
        s.to_multiset().count(s[i]) >= 2,
    decreases s.len(),
{
    s.drop_last().to_multiset_ensures();
    assert(s =~= s.drop_last().push(s.last()));
    assert(s.to_multiset() == s.drop_last().to_multiset().insert(s.last()));
    if j == s.len() - 1 {
        assert(s.drop_last()[i] == s[i]);
        lemma_contains_count(s.drop_last(), i);
    } else {
        lemma_dup_count(s.drop_last(), i, j);
    }
}

/// An element at a position is in the multiset.
pub(crate) proof fn lemma_contains_count<T>(s: Seq<T>, i: int)
    requires
        0 <= i < s.len(),
    ensures
        s.to_multiset().count(s[i]) >= 1,
    decreases s.len(),
{
    s.drop_last().to_multiset_ensures();
    assert(s =~= s.drop_last().push(s.last()));
    assert(s.to_multiset() == s.drop_last().to_multiset().insert(s.last()));
    if i < s.len() - 1 {
        lemma_contains_count(s.drop_last(), i);
        assert(s.drop_last()[i] == s[i]);
    }
}

/// A value counted twice sits at two distinct positions.
pub(crate) proof fn lemma_count_two_indexes<T>(s: Seq<T>, x: T)
    requires
        s.to_multiset().count(x) >= 2,
    ensures
        exists|i: int, j: int| 0 <= i < j < s.len() && s[i] == x && s[j] == x,
    decreases s.len(),
{
    s.to_multiset_ensures();
    if s.len() == 0 {
        assert(s.to_multiset() =~= Multiset::<T>::empty());
    } else {
        s.drop_last().to_multiset_ensures();
        assert(s =~= s.drop_last().push(s.last()));
        assert(s.to_multiset() == s.drop_last().to_multiset().insert(s.last()));
        if s.last() == x {
            if s.drop_last().to_multiset().count(x) >= 1 {
                lemma_count_one_index(s.drop_last(), x);
                let i = choose|i: int| 0 <= i < s.drop_last().len() && s.drop_last()[i] == x;
                assert(s[i] == x && s[s.len() - 1] == x);
            } else {
                assert(false);
            }
        } else {
            lemma_count_two_indexes(s.drop_last(), x);
            let (i, j): (int, int) = choose|i: int, j: int|
                0 <= i < j < s.drop_last().len() && s.drop_last()[i] == x && s.drop_last()[j] == x;
            assert(s[i] == x && s[j] == x);
        }
    }
}

pub(crate) proof fn lemma_count_one_index<T>(s: Seq<T>, x: T)
    requires
        s.to_multiset().count(x) >= 1,
    ensures
        exists|i: int| 0 <= i < s.len() && s[i] == x,
    decreases s.len(),
{
    s.to_multiset_ensures();
    if s.len() == 0 {
        assert(s.to_multiset() =~= Multiset::<T>::empty());
    } else {
        s.drop_last().to_multiset_ensures();
        assert(s =~= s.drop_last().push(s.last()));
        assert(s.to_multiset() == s.drop_last().to_multiset().insert(s.last()));
        if s.last() == x {
            assert(s[s.len() - 1] == x);
        } else {
            lemma_count_one_index(s.drop_last(), x);
            let i = choose|i: int| 0 <= i < s.drop_last().len() && s.drop_last()[i] == x;
            assert(s[i] == x);
        }
    }
}

/// One element more of the run changes one id's count by one.
proof fn lemma_occ_take_succ(s: Seq<u32>, t: int)
    requires
        0 <= t < s.len(),
    ensures
        occ(s.take(t + 1), s[t]) == occ(s.take(t), s[t]) + 1,
        forall|id: u32| id != s[t] ==> #[trigger] occ(s.take(t + 1), id) == occ(s.take(t), id),
    decreases s.len(),
{
    assert(s.take(t + 1).drop_last() =~= s.take(t));
    assert(s.take(t + 1).last() == s[t]);
}

/// Occurrence counts are never negative.
proof fn lemma_occ_nonneg(s: Seq<u32>, id: u32)
    ensures
        occ(s, id) >= 0,
    decreases s.len(),
{
    if s.len() > 0 {
        lemma_occ_nonneg(s.drop_last(), id);
    }
}

/// Wrapping accumulation tracks the exact sum modulo `2^32`.
proof fn lemma_wrap_step(cur: int, delta: int, s: int)
    requires
        0 <= cur < 0x1_0000_0000,
        0 <= delta < 0x1_0000_0000,
        0 <= s,
        cur == s % 0x1_0000_0000,
    ensures
        (if cur + delta > 0xFFFF_FFFF {
            cur + delta - 0x1_0000_0000
        } else {
            cur + delta
        }) == (s + delta) % 0x1_0000_0000,
{
    let m = 0x1_0000_0000;
    vstd::arithmetic::div_mod::lemma_add_mod_noop(s, delta, m);
    vstd::arithmetic::div_mod::lemma_small_mod(delta as nat, m as nat);
    if cur + delta > 0xFFFF_FFFF {
        vstd::arithmetic::div_mod::lemma_mod_sub_multiples_vanish(cur + delta, m);
        vstd::arithmetic::div_mod::lemma_small_mod((cur + delta - m) as nat, m as nat);
    } else {
        vstd::arithmetic::div_mod::lemma_small_mod((cur + delta) as nat, m as nat);
    }
}

/// Rebasing a sum under the modulus is sound.
proof fn lemma_mod_rebase(a: int, d: int)
    requires
        0 <= a,
        0 <= d,
    ensures
        (a % 0x1_0000_0000 + d) % 0x1_0000_0000 == (a + d) % 0x1_0000_0000,
{
    let m = 0x1_0000_0000;
    vstd::arithmetic::div_mod::lemma_add_mod_noop(a, d, m);
    vstd::arithmetic::div_mod::lemma_mod_twice(a, m);
    vstd::arithmetic::div_mod::lemma_add_mod_noop(a % m, d, m);
}

/// Scores over `[floor, key]` peel at the bottom.
proof fn lemma_dim_score_peel<const LEN: usize>(
    index: InvertedIndexRoot<LEN>,
    dim: u32,
    qq: int,
    floor: int,
    key: int,
)
    requires
        0 <= floor <= key,
        floor <= 255,
    ensures
        forall|id: u32|
            #[trigger] dim_score(index, dim, qq, floor, key, id) == dim_score(
                index,
                dim,
                qq,
                floor + 1,
                key,
                id,
            ) + qq * (floor * occ(ids_at(index, dim, floor as u8), id)),
    decreases key - floor,
{
    if key == floor {
        assert forall|id: u32|
            #[trigger] dim_score(index, dim, qq, floor, key, id) == dim_score(
                index,
                dim,
                qq,
                floor + 1,
                key,
                id,
            ) + qq * (floor * occ(ids_at(index, dim, floor as u8), id)) by {
            assert(dim_score(index, dim, qq, floor + 1, key, id) == 0);
            assert(dim_score(index, dim, qq, floor, floor - 1, id) == 0);
        }
    } else {
        lemma_dim_score_peel(index, dim, qq, floor, key - 1);
        assert forall|id: u32|
            #[trigger] dim_score(index, dim, qq, floor, key, id) == dim_score(
                index,
                dim,
                qq,
                floor + 1,
                key,
                id,
            ) + qq * (floor * occ(ids_at(index, dim, floor as u8), id)) by {
            assert(dim_score(index, dim, qq, floor, key, id) == qq * (key * occ(
                ids_at(index, dim, key as u8),
                id,
            )) + dim_score(index, dim, qq, floor, key - 1, id));
            assert(dim_score(index, dim, qq, floor + 1, key, id) == qq * (key * occ(
                ids_at(index, dim, key as u8),
                id,
            )) + dim_score(index, dim, qq, floor + 1, key - 1, id));
        }
    }
}

/// Hits over `[floor, key]` peel at the bottom.
proof fn lemma_dim_hit_peel<const LEN: usize>(
    index: InvertedIndexRoot<LEN>,
    dim: u32,
    floor: int,
    key: int,
)
    requires
        0 <= floor <= key,
        floor <= 255,
    ensures
        forall|id: u32|
            #[trigger] dim_hit(index, dim, floor, key, id) == (dim_hit(
                index,
                dim,
                floor + 1,
                key,
                id,
            ) || occ(ids_at(index, dim, floor as u8), id) > 0),
    decreases key - floor,
{
    if key == floor {
        assert forall|id: u32|
            #[trigger] dim_hit(index, dim, floor, key, id) == (dim_hit(
                index,
                dim,
                floor + 1,
                key,
                id,
            ) || occ(ids_at(index, dim, floor as u8), id) > 0) by {
            assert(!dim_hit(index, dim, floor + 1, key, id));
            assert(!dim_hit(index, dim, floor, key - 1, id));
        }
    } else {
        lemma_dim_hit_peel(index, dim, floor, key - 1);
        assert forall|id: u32|
            #[trigger] dim_hit(index, dim, floor, key, id) == (dim_hit(
                index,
                dim,
                floor + 1,
                key,
                id,
            ) || occ(ids_at(index, dim, floor as u8), id) > 0) by {
            assert(dim_hit(index, dim, floor, key, id) == (occ(ids_at(index, dim, key as u8), id)
                > 0 || dim_hit(index, dim, floor, key - 1, id)));
            assert(dim_hit(index, dim, floor + 1, key, id) == (occ(
                ids_at(index, dim, key as u8),
                id,
            ) > 0 || dim_hit(index, dim, floor + 1, key - 1, id)));
        }
    }
}

/// No hit in a key range means no score from it.
proof fn lemma_dim_score_no_hit<const LEN: usize>(
    index: InvertedIndexRoot<LEN>,
    dim: u32,
    qq: int,
    floor: int,
    key: int,
    id: u32,
)
    requires
        !dim_hit(index, dim, floor, key, id),
    ensures
        dim_score(index, dim, qq, floor, key, id) == 0,
    decreases key - floor + 1,
{
    if key >= floor {
        lemma_dim_score_no_hit(index, dim, qq, floor, key - 1, id);
        lemma_occ_nonneg(ids_at(index, dim, key as u8), id);
        assert(occ(ids_at(index, dim, key as u8), id) == 0);
        assert(qq * (key * 0) == 0) by (nonlinear_arith);
    }
}

/// Quantized codes are never negative.
proof fn lemma_quantize_nonneg(value: int, ub: int, bits: u8)
    requires
        0 <= value,
        0 < ub,
        bits <= 8,
    ensures
        spec_quantize(value, ub, bits) >= 0,
        spec_max_code(bits) >= 0,
{
    let m = spec_max_code(bits);
    assert((1u64 << bits) >= 1) by (bit_vector)
        requires
            bits <= 8,
    ;
    if value >= ub {
    } else if value <= 0 {
    } else {
        assert((value * m + ub / 2) / ub >= 0) by (nonlinear_arith)
            requires
                value > 0,
                m >= 0,
                ub > 0,
        ;
    }
}

/// Scores are never negative.
proof fn lemma_dim_score_nonneg<const LEN: usize>(
    index: InvertedIndexRoot<LEN>,
    dim: u32,
    qq: int,
    floor: int,
    key: int,
    id: u32,
)
    requires
        qq >= 0,
        0 <= floor,
    ensures
        dim_score(index, dim, qq, floor, key, id) >= 0,
    decreases key - floor + 1,
{
    if key >= floor {
        lemma_dim_score_nonneg(index, dim, qq, floor, key - 1, id);
        lemma_occ_nonneg(ids_at(index, dim, key as u8), id);
        assert(qq * (key * occ(ids_at(index, dim, key as u8), id)) >= 0) by (nonlinear_arith)
            requires
                qq >= 0,
                key >= 0,
                occ(ids_at(index, dim, key as u8), id) >= 0,
        ;
    }
}

/// Query scores are never negative.
proof fn lemma_query_score_nonneg<const LEN: usize>(
    index: InvertedIndexRoot<LEN>,
    entries: Seq<(u32, u64)>,
    bits: u8,
    ub: int,
    lt: int,
    etv: int,
    id: u32,
)
    requires
        0 < ub,
        bits <= 8,
        0 <= etv,
    ensures
        query_score(index, entries, bits, ub, lt, etv, id) >= 0,
    decreases entries.len(),
{
    if entries.len() > 0 {
        lemma_query_score_nonneg(index, entries.drop_last(), bits, ub, lt, etv, id);
        let dim = entries.last().0;
        let qq = spec_quantize(entries.last().1 as int, ub, bits);
        lemma_quantize_nonneg(entries.last().1 as int, ub, bits);
        if index.root.has_path(spec_path(dim as int)) {
            lemma_dim_score_nonneg(
                index,
                dim,
                qq,
                scan_floor(qq, lt, etv),
                spec_max_code(bits),
                id,
            );
        }
    }
}

/// A queried dimension without a node changes neither candidates nor
/// scores.
proof fn lemma_step_no_node<const LEN: usize>(
    index: InvertedIndexRoot<LEN>,
    e: Seq<(u32, u64)>,
    bits: u8,
    ub: int,
    lt: int,
    etv: int,
)
    requires
        e.len() > 0,
        !index.root.has_path(spec_path(e.last().0 as int)),
    ensures
        forall|id: u32|
            #[trigger] is_candidate(index, e, bits, ub, lt, etv, id) == is_candidate(
                index,
                e.drop_last(),
                bits,
                ub,
                lt,
                etv,
                id,
            ),
        forall|id: u32|
            #[trigger] query_score(index, e, bits, ub, lt, etv, id) == query_score(
                index,
                e.drop_last(),
                bits,
                ub,
                lt,
                etv,
                id,
            ),
{
}

/// Folding one queried dimension with a node into the running map
/// yields the candidates and scores of the longer query prefix.
proof fn lemma_step_with_node<const LEN: usize>(
    index: InvertedIndexRoot<LEN>,
    e: Seq<(u32, u64)>,
    bits: u8,
    ub: int,
    lt: int,
    etv: int,
    base: Map<u32, u32>,
    cur: Map<u32, u32>,
)
    requires
        e.len() > 0,
        0 < ub,
        bits <= 8,
        0 <= etv,
        index.root.has_path(spec_path(e.last().0 as int)),
        forall|id: u32|
            #[trigger] base.dom().contains(id) <==> is_candidate(
                index,
                e.drop_last(),
                bits,
                ub,
                lt,
                etv,
                id,
            ),
        forall|id: u32|
            base.dom().contains(id) ==> #[trigger] base[id] as int == query_score(
                index,
                e.drop_last(),
                bits,
                ub,
                lt,
                etv,
                id,
            ) % 0x1_0000_0000,
        forall|id: u32|
            #[trigger] cur.dom().contains(id) <==> (base.dom().contains(id) || dim_hit(
                index,
                e.last().0,
                scan_floor(spec_quantize(e.last().1 as int, ub, bits), lt, etv),
                spec_max_code(bits),
                id,
            )),
        forall|id: u32|
            cur.dom().contains(id) ==> #[trigger] cur[id] as int == ((if base.dom().contains(id) {
                base[id] as int
            } else {
                0int
            }) + dim_score(
                index,
                e.last().0,
                spec_quantize(e.last().1 as int, ub, bits),
                scan_floor(spec_quantize(e.last().1 as int, ub, bits), lt, etv),
                spec_max_code(bits),
                id,
            )) % 0x1_0000_0000,
    ensures
        forall|id: u32|
            #[trigger] cur.dom().contains(id) <==> is_candidate(index, e, bits, ub, lt, etv, id),
        forall|id: u32|
            cur.dom().contains(id) ==> #[trigger] cur[id] as int == query_score(
                index,
                e,
                bits,
                ub,
                lt,
                etv,
                id,
            ) % 0x1_0000_0000,
{
    let dim = e.last().0;
    let qq = spec_quantize(e.last().1 as int, ub, bits);
    let floor = scan_floor(qq, lt, etv);
    let m = spec_max_code(bits);
    assert forall|id: u32|
        cur.dom().contains(id) implies #[trigger] cur[id] as int == query_score(
        index,
        e,
        bits,
        ub,
        lt,
        etv,
        id,
    ) % 0x1_0000_0000 by {
        let prev = query_score(index, e.drop_last(), bits, ub, lt, etv, id);
        let ds = dim_score(index, dim, qq, floor, m, id);
        assert(query_score(index, e, bits, ub, lt, etv, id) == ds + prev);
        lemma_query_score_nonneg(index, e.drop_last(), bits, ub, lt, etv, id);
        lemma_quantize_nonneg(e.last().1 as int, ub, bits);
        lemma_dim_score_nonneg(index, dim, qq, floor, m, id);
        if base.dom().contains(id) {
            assert(base[id] as int == prev % 0x1_0000_0000);
            lemma_mod_rebase(prev, ds);
        } else {
            lemma_no_candidate_score(index, e.drop_last(), bits, ub, lt, etv, id);
            assert(prev == 0);
        }
    }
}

/// A non-candidate has score zero.
proof fn lemma_no_candidate_score<const LEN: usize>(
    index: InvertedIndexRoot<LEN>,
    entries: Seq<(u32, u64)>,
    bits: u8,
    ub: int,
    lt: int,
    etv: int,
    id: u32,
)
    requires
        !is_candidate(index, entries, bits, ub, lt, etv, id),
    ensures
        query_score(index, entries, bits, ub, lt, etv, id) == 0,
    decreases entries.len(),
{
    if entries.len() > 0 {
        lemma_no_candidate_score(index, entries.drop_last(), bits, ub, lt, etv, id);
        let dim = entries.last().0;
        let qq = spec_quantize(entries.last().1 as int, ub, bits);
        if index.root.has_path(spec_path(dim as int)) {
            lemma_dim_score_no_hit(
                index,
                dim,
                qq,
                scan_floor(qq, lt, etv),
                spec_max_code(bits),
                id,
            );
        }
    }
}


/// Relies on `FxHashMap::default` building an empty map.
#[verifier::external_body]
fn fx64_new() -> (m: FxHashMap<u32, u64>)
    ensures
        forall|k: u32| !m@.dom().contains(k),
{
    FxHashMap::default()
}

/// Relies on `HashMap::get` returning the value stored under the key.
#[verifier::external_body]
fn fx64_get(m: &FxHashMap<u32, u64>, k: u32) -> (r: Option<u64>)
    ensures
        r == if m@.dom().contains(k) {
            Some(m@[k])
        } else {
            None::<u64>
        },
{
    m.get(&k).copied()
}

/// Relies on `HashMap::insert` mapping the key to the new value and
/// leaving every other key as it was.
#[verifier::external_body]
fn fx64_insert(m: &mut FxHashMap<u32, u64>, k: u32, v: u64)
    ensures
        final(m)@ == old(m)@.insert(k, v),
{
    m.insert(k, v);
}

/// Relies on `HashMap::iter` visiting every entry exactly once; the
/// order the buckets are walked in gets no promise.
#[verifier::external_body]
fn fx64_entries(m: &FxHashMap<u32, u64>) -> (r: Vec<(u32, u64)>)
    ensures
        forall|k: u32, v: u64| m@.contains_pair(k, v) <==> r@.contains((k, v)),
        forall|i: int, j: int|
            0 <= i < j < r@.len() ==> (#[trigger] r@[i]).0 != (#[trigger] r@[j]).0,
        r@.len() == m@.dom().len(),
        forall|i: int|
            0 <= i < r@.len() ==> m@.contains_pair((#[trigger] r@[i]).0, r@[i].1),
{
    m.iter().map(|(k, v)| (*k, *v)).collect()
}

/// The integer binary logarithm, zero below two.
pub open spec fn spec_ilog2(n: int) -> int
    decreases n,
{
    if n < 2 {
        0
    } else {
        1 + spec_ilog2(n / 2)
    }
}

/// The inverse document frequency on the fixed-point grid: the binary
/// log of the smoothed ratio of documents to the term's document
/// frequency. Coarse on purpose: equal inputs score equal, and a rarer
/// term never scores below a more common one.
pub open spec fn spec_idf(total_documents: u32, df: int) -> int {
    spec_ilog2(((total_documents + 1) * (FX_ONE as int)) / (df + 1))
}

pub fn ilog2_u64(n: u64) -> (r: u32)
    ensures
        r as int == spec_ilog2(n as int),
        r <= 64,
{
    let mut v = n;
    let mut e: u32 = 0;
    proof {
        lemma_pow2i_64();
        assert((n as int) / pow2i(0) == n as int);
    }
    while v >= 2
        invariant
            e <= 64,
            spec_ilog2(n as int) == e + spec_ilog2(v as int),
            v as int == (n as int) / pow2i(e as int),
        decreases v,
    {
        proof {
            lemma_pow2i_64();
            lemma_pow2i_pos(e as int);
            assert(e < 64) by {
                if e == 64 {
                    assert(v as int == (n as int) / pow2i(64));
                    vstd::arithmetic::div_mod::lemma_basic_div(n as int, pow2i(64));
                }
            }
            assert((v as int) / 2 == ((n as int) / pow2i(e as int)) / 2);
            vstd::arithmetic::div_mod::lemma_div_denominator(n as int, pow2i(e as int), 2);
            assert(pow2i((e + 1) as int) == pow2i(e as int) * 2) by {
                assert(pow2i((e + 1) as int) == 2 * pow2i(e as int));
            }
        }
        v = v / 2;
        e = e + 1;
    }
    e
}

proof fn lemma_pow2i_pos(e: int)
    ensures
        pow2i(e) >= 1,
    decreases e,
{
    if e > 0 {
        lemma_pow2i_pos(e - 1);
    }
}

proof fn lemma_pow2i_64()
    ensures
        pow2i(64) == 0x1_0000_0000_0000_0000,
{
    reveal_with_fuel(pow2i, 65);
}

/// The inverse document frequency, executable.
pub fn idf_fx(total_documents: u32, df: u64) -> (r: u64)
    ensures
        r as int == spec_idf(total_documents, df as int),
        r <= 64,
{
    if df == u64::MAX {
        proof {
            let ratio = ((total_documents + 1) * (FX_ONE as int)) / ((df as int) + 1);
            assert((total_documents + 1) * (FX_ONE as int) < 0x1_0000_0000_0000_0000)
                by (nonlinear_arith)
                requires
                    total_documents <= 0xFFFF_FFFFu32,
                    (FX_ONE as int) == 65536,
            ;
            vstd::arithmetic::div_mod::lemma_basic_div(
                (total_documents + 1) * (FX_ONE as int),
                (df as int) + 1,
            );
            assert(ratio == 0);
        }
        return 0;
    }
    let ratio = ((total_documents as u64 + 1) * FX_ONE) / (df + 1);
    let e = ilog2_u64(ratio);
    e as u64
}

/// Powers of two.
pub open spec fn pow2i(e: int) -> int
    decreases e,
{
    if e <= 0 {
        1
    } else {
        2 * pow2i(e - 1)
    }
}

/// The score one term's document list gives `id`: each entry of the
/// document adds the idf-weighted share of its stored frequency.
pub open spec fn docs_score(s: Seq<DocEntry>, idf: int, id: u32) -> int
    decreases s.len(),
{
    if s.len() == 0 {
        0
    } else {
        docs_score(s.drop_last(), idf, id) + if s.last().0 == id {
            (idf * (s.last().1 as int)) / (FX_ONE as int)
        } else {
            0
        }
    }
}

/// Occurrences of a document in a term's list.
pub open spec fn docs_occ(s: Seq<DocEntry>, id: u32) -> int
    decreases s.len(),
{
    if s.len() == 0 {
        0
    } else {
        docs_occ(s.drop_last(), id) + if s.last().0 == id {
            1int
        } else {
            0int
        }
    }
}

/// The BM25 score of `id` for a query, term by term: idf times the
/// stored frequency share, over every queried term the index holds.
pub open spec fn bm25_score(index: TFIDFIndexRoot, terms: Seq<(u32, u64)>, id: u32) -> int
    decreases terms.len(),
{
    if terms.len() == 0 {
        0
    } else {
        let h = terms.last().0;
        (match index.term_of(h) {
            None => 0,
            Some(t) => docs_score(
                t.documents.all_items(),
                spec_idf(index.total_documents_count, t.documents.all_items().len() as int),
                id,
            ),
        }) + bm25_score(index, terms.drop_last(), id)
    }
}

/// Whether `id` appears in the document list of some queried term.
pub open spec fn bm25_candidate(index: TFIDFIndexRoot, terms: Seq<(u32, u64)>, id: u32) -> bool
    decreases terms.len(),
{
    if terms.len() == 0 {
        false
    } else {
        let h = terms.last().0;
        (match index.term_of(h) {
            None => false,
            Some(t) => docs_occ(t.documents.all_items(), id) > 0,
        }) || bm25_candidate(index, terms.drop_last(), id)
    }
}

proof fn lemma_docs_take_succ(s: Seq<DocEntry>, t: int, idf: int)
    requires
        0 <= t < s.len(),
    ensures
        docs_occ(s.take(t + 1), s[t].0) == docs_occ(s.take(t), s[t].0) + 1,
        forall|id: u32| id != s[t].0 ==> #[trigger] docs_occ(s.take(t + 1), id) == docs_occ(
            s.take(t),
            id,
        ),
        docs_score(s.take(t + 1), idf, s[t].0) == docs_score(s.take(t), idf, s[t].0) + (idf * (
        s[t].1 as int)) / (FX_ONE as int),
        forall|id: u32| id != s[t].0 ==> #[trigger] docs_score(s.take(t + 1), idf, id)
            == docs_score(s.take(t), idf, id),
{
    assert(s.take(t + 1).drop_last() =~= s.take(t));
    assert(s.take(t + 1).last() == s[t]);
}

proof fn lemma_docs_score_nonneg(s: Seq<DocEntry>, idf: int, id: u32)
    requires
        idf >= 0,
    ensures
        docs_score(s, idf, id) >= 0,
    decreases s.len(),
{
    if s.len() > 0 {
        lemma_docs_score_nonneg(s.drop_last(), idf, id);
        if s.last().0 == id {
            assert((idf * (s.last().1 as int)) / (FX_ONE as int) >= 0) by (nonlinear_arith)
                requires
                    idf >= 0,
                    s.last().1 >= 0,
            ;
        }
    }
}

proof fn lemma_docs_occ_nonneg(s: Seq<DocEntry>, id: u32)
    ensures
        docs_occ(s, id) >= 0,
    decreases s.len(),
{
    if s.len() > 0 {
        lemma_docs_occ_nonneg(s.drop_last(), id);
    }
}

proof fn lemma_docs_no_occ_score(s: Seq<DocEntry>, idf: int, id: u32)
    requires
        docs_occ(s, id) <= 0,
    ensures
        docs_score(s, idf, id) == 0,
    decreases s.len(),
{
    if s.len() > 0 {
        lemma_docs_occ_nonneg(s.drop_last(), id);
        lemma_docs_no_occ_score(s.drop_last(), idf, id);
    }
}

proof fn lemma_bm25_score_nonneg(index: TFIDFIndexRoot, terms: Seq<(u32, u64)>, id: u32)
    ensures
        bm25_score(index, terms, id) >= 0,
    decreases terms.len(),
{
    if terms.len() > 0 {
        lemma_bm25_score_nonneg(index, terms.drop_last(), id);
        let h = terms.last().0;
        match index.term_of(h) {
            None => {},
            Some(t) => {
                lemma_ilog2_nonneg(
                    ((index.total_documents_count + 1) * (FX_ONE as int)) / (
                    (t.documents.all_items().len() as int) + 1),
                );
                lemma_docs_score_nonneg(
                    t.documents.all_items(),
                    spec_idf(index.total_documents_count, t.documents.all_items().len() as int),
                    id,
                );
            },
        }
    }
}

proof fn lemma_ilog2_nonneg(n: int)
    ensures
        spec_ilog2(n) >= 0,
    decreases n,
{
    if n >= 2 {
        lemma_ilog2_nonneg(n / 2);
    }
}

proof fn lemma_bm25_no_candidate_score(index: TFIDFIndexRoot, terms: Seq<(u32, u64)>, id: u32)
    requires
        !bm25_candidate(index, terms, id),
    ensures
        bm25_score(index, terms, id) == 0,
    decreases terms.len(),
{
    if terms.len() > 0 {
        lemma_bm25_no_candidate_score(index, terms.drop_last(), id);
        let h = terms.last().0;
        match index.term_of(h) {
            None => {},
            Some(t) => {
                lemma_docs_no_occ_score(
                    t.documents.all_items(),
                    spec_idf(index.total_documents_count, t.documents.all_items().len() as int),
                    id,
                );
            },
        }
    }
}

/// Wrapping accumulation in 64 bits tracks the sum modulo `2^64`.
proof fn lemma_wrap_step64(cur: int, delta: int, s: int)
    requires
        0 <= cur < 0x1_0000_0000_0000_0000,
        0 <= delta < 0x1_0000_0000_0000_0000,
        0 <= s,
        cur == s % 0x1_0000_0000_0000_0000,
    ensures
        (if cur + delta > 0xFFFF_FFFF_FFFF_FFFF {
            cur + delta - 0x1_0000_0000_0000_0000
        } else {
            cur + delta
        }) == (s + delta) % 0x1_0000_0000_0000_0000,
{
    let m = 0x1_0000_0000_0000_0000;
    vstd::arithmetic::div_mod::lemma_add_mod_noop(s, delta, m);
    vstd::arithmetic::div_mod::lemma_small_mod(delta as nat, m as nat);
    if cur + delta > 0xFFFF_FFFF_FFFF_FFFF {
        vstd::arithmetic::div_mod::lemma_mod_sub_multiples_vanish(cur + delta, m);
        vstd::arithmetic::div_mod::lemma_small_mod((cur + delta - m) as nat, m as nat);
    } else {
        vstd::arithmetic::div_mod::lemma_small_mod((cur + delta) as nat, m as nat);
    }
}

proof fn lemma_mod_rebase64(a: int, d: int)
    requires
        0 <= a,
        0 <= d,
    ensures
        (a % 0x1_0000_0000_0000_0000 + d) % 0x1_0000_0000_0000_0000 == (a + d)
            % 0x1_0000_0000_0000_0000,
{
    let m = 0x1_0000_0000_0000_0000;
    vstd::arithmetic::div_mod::lemma_add_mod_noop(a, d, m);
    vstd::arithmetic::div_mod::lemma_mod_twice(a, m);
    vstd::arithmetic::div_mod::lemma_add_mod_noop(a % m, d, m);
}

/// Whether a BM25 result set carries a document.
pub open spec fn contains_doc(out: Seq<SparseAnnIDFResult>, id: u32) -> bool {
    exists|i: int| 0 <= i < out.len() && (#[trigger] out[i]).document_id == id
}

impl SparseAnnQueryBasic {
    /// BM25 search over the TF-IDF index. Each returned document is a
    /// candidate of some queried term and carries its exact accumulated
    /// score (64-bit wrapping); results come back sorted, best first;
    /// with no `k`, every candidate is returned.
    #[verifier::rlimit(100)]
    #[verifier::spinoff_prover]
    pub fn search_bm25(
        self,
        index: &TFIDFIndexRoot,
        quantization_bits: u8,
        early_terminate_threshold: u64,
        reranking_factor: usize,
        k: Option<usize>,
    ) -> (r: Result<Vec<SparseAnnIDFResult>, crate::bufio::BufIoError>)
        requires
            index.wf(),
            k is Some ==> k.unwrap() * reranking_factor <= usize::MAX,
        ensures
            r is Ok,
            forall|i: int|
                0 <= i < r.unwrap()@.len() ==> (#[trigger] r.unwrap()@[i]).score as int
                    == bm25_score(
                    *index,
                    self.query_vector.entries@,
                    r.unwrap()@[i].document_id,
                ) % 0x1_0000_0000_0000_0000,
            forall|i: int|
                0 <= i < r.unwrap()@.len() ==> bm25_candidate(
                    *index,
                    self.query_vector.entries@,
                    (#[trigger] r.unwrap()@[i]).document_id,
                ),
            forall|i: int, j: int|
                0 <= i < j < r.unwrap()@.len() ==> (#[trigger] r.unwrap()@[i]).document_id != (
                #[trigger] r.unwrap()@[j]).document_id,
            forall|i: int, j: int|
                0 <= i < j < r.unwrap()@.len() ==> (#[trigger] r.unwrap()@[i]).score >= (
                #[trigger] r.unwrap()@[j]).score,
            k is None ==> forall|id: u32|
                bm25_candidate(*index, self.query_vector.entries@, id) ==> contains_doc(
                    r.unwrap()@,
                    id,
                ),
            k is Some ==> r.unwrap()@.len() <= k.unwrap() * reranking_factor,
            k is Some && r.unwrap()@.len() < k.unwrap() * reranking_factor ==> forall|id: u32|
                bm25_candidate(*index, self.query_vector.entries@, id) ==> contains_doc(
                    r.unwrap()@,
                    id,
                ),
            forall|id: u32, i: int|
                bm25_candidate(*index, self.query_vector.entries@, id) && !(#[trigger] contains_doc(
                    r.unwrap()@,
                    id,
                )) && 0 <= i < r.unwrap()@.len() ==> bm25_score(
                    *index,
                    self.query_vector.entries@,
                    id,
                ) % 0x1_0000_0000_0000_0000 <= (#[trigger] r.unwrap()@[i]).score,
            self.query_vector.entries@.len() == 0 ==> r.unwrap()@.len() == 0,
    {
        let _ = quantization_bits;
        let _ = early_terminate_threshold;
        let entries = &self.query_vector.entries;
        let ghost eseq = entries@;
        let mut results_map = fx64_new();
        let n = entries.len();
        let mut j: usize = 0;
        proof {
            assert(eseq.take(0) =~= Seq::<(u32, u64)>::empty());
        }
        while j < n
            invariant
                index.wf(),
                n == eseq.len(),
                eseq == entries@,
                j <= n,
                forall|id: u32|
                    #[trigger] results_map@.dom().contains(id) <==> bm25_candidate(
                        *index,
                        eseq.take(j as int),
                        id,
                    ),
                forall|id: u32|
                    results_map@.dom().contains(id) ==> #[trigger] results_map@[id] as int
                        == bm25_score(*index, eseq.take(j as int), id)
                        % 0x1_0000_0000_0000_0000,
            decreases n - j,
        {
            let (term_hash, _query_tf) = entries[j];
            let storage_dim = term_hash % 65536;
            let quotient = (term_hash / 65536) as u16;
            proof {
                assert(term_hash % 65536 == term_hash & 0xFFFFu32 && term_hash / 65536 == (
                term_hash >> 16u32) && term_hash >> 16u32 <= 0xFFFFu32) by (bit_vector);
                assert(eseq.take(j + 1).drop_last() =~= eseq.take(j as int));
                assert(eseq.take(j + 1).last() == eseq[j as int]);
            }
            let node_opt = index.find_node(storage_dim);
            let ghost base = results_map@;
            match node_opt {
                None => {
                    proof {
                        assert(index.term_of(term_hash) is None);
                        assert forall|id: u32|
                            #[trigger] results_map@.dom().contains(id) <==> bm25_candidate(
                            *index,
                            eseq.take(j + 1),
                            id,
                        ) by {}
                    }
                },
                Some(node) => {
                    let term_opt = node.data.lookup(quotient);
                    match term_opt {
                        None => {
                            proof {
                                assert(index.term_of(term_hash) is None);
                            }
                        },
                        Some(term) => {
                            proof {
                                assert(index.term_of(term_hash) == Some(*term));
                                assert(node.data.wf());
                                crate::tf_idf_index::lemma_term_wf(node.data, quotient);
                            }
                            let docs = term.documents.to_vec();
                            let df = docs.len();
                            let idf = idf_fx(index.total_documents_count, df as u64);
                            let ghost idfi = idf as int;
                            let ghost dseq = docs@;
                            let t_end = docs.len();
                            let mut t: usize = 0;
                            proof {
                                assert(dseq.take(0) =~= Seq::<DocEntry>::empty());
                            }
                            while t < t_end
                                invariant
                                    t <= t_end,
                                    t_end == dseq.len(),
                                    dseq == docs@,
                                    idf <= 64,
                                    idfi == idf as int,
                                    forall|id: u32|
                                        #[trigger] results_map@.dom().contains(id) <==> (
                                        base.dom().contains(id) || docs_occ(
                                            dseq.take(t as int),
                                            id,
                                        ) > 0),
                                    forall|id: u32|
                                        results_map@.dom().contains(id)
                                            ==> #[trigger] results_map@[id] as int == ((
                                        if base.dom().contains(id) {
                                            base[id] as int
                                        } else {
                                            0int
                                        }) + docs_score(dseq.take(t as int), idfi, id))
                                            % 0x1_0000_0000_0000_0000,
                                decreases t_end - t,
                            {
                                let (doc_id, tf) = docs[t];
                                proof {
                                    assert((idf as int) * (tf as int) <= 64 * 0xFFFF_FFFF) by (
                                    nonlinear_arith)
                                        requires
                                            0 <= idf <= 64,
                                            0 <= tf <= 0xFFFF_FFFF,
                                    ;
                                }
                                let delta: u64 = idf * (tf as u64) / FX_ONE;
                                let cur = match fx64_get(&results_map, doc_id) {
                                    Some(v) => v,
                                    None => 0,
                                };
                                proof {
                                    lemma_docs_occ_nonneg(dseq.take(t as int), doc_id);
                                    lemma_ilog2_nonneg(((index.total_documents_count + 1) * (
                                    FX_ONE as int)) / (df + 1));
                                    lemma_docs_score_nonneg(dseq.take(t as int), idfi, doc_id);
                                    if !results_map@.dom().contains(doc_id) {
                                        lemma_docs_no_occ_score(
                                            dseq.take(t as int),
                                            idfi,
                                            doc_id,
                                        );
                                        vstd::arithmetic::div_mod::lemma_small_mod(
                                            0nat,
                                            0x1_0000_0000_0000_0000nat,
                                        );
                                    }
                                }
                                let newv = cur.wrapping_add(delta);
                                fx64_insert(&mut results_map, doc_id, newv);
                                proof {
                                    lemma_docs_take_succ(dseq, t as int, idfi);
                                    let base_x: int = if base.dom().contains(doc_id) {
                                        base[doc_id] as int
                                    } else {
                                        0int
                                    };
                                    let so_far = docs_score(dseq.take(t as int), idfi, doc_id);
                                    lemma_docs_score_nonneg(dseq.take(t as int), idfi, doc_id);
                                    lemma_wrap_step64(cur as int, delta as int, base_x + so_far);
                                    assert(delta as int == (idfi * (tf as int)) / (
                                    FX_ONE as int));
                                }
                                t += 1;
                            }
                            proof {
                                assert(dseq.take(t_end as int) =~= dseq);
                                assert(df as int == term.documents.all_items().len());
                                assert(idfi == spec_idf(
                                    index.total_documents_count,
                                    term.documents.all_items().len() as int,
                                ));
                            }
                        },
                    }
                },
            }
            proof {
                let h = eseq[j as int].0;
                assert(h == term_hash);
                assert forall|id: u32|
                    #[trigger] results_map@.dom().contains(id) <==> bm25_candidate(
                    *index,
                    eseq.take(j + 1),
                    id,
                ) by {}
                assert forall|id: u32|
                    results_map@.dom().contains(id) implies #[trigger] results_map@[id] as int
                    == bm25_score(*index, eseq.take(j + 1), id)
                    % 0x1_0000_0000_0000_0000 by {
                    let prev = bm25_score(*index, eseq.take(j as int), id);
                    lemma_bm25_score_nonneg(*index, eseq.take(j as int), id);
                    match index.term_of(term_hash) {
                        None => {},
                        Some(tm) => {
                            let ds = docs_score(
                                tm.documents.all_items(),
                                spec_idf(
                                    index.total_documents_count,
                                    tm.documents.all_items().len() as int,
                                ),
                                id,
                            );
                            lemma_ilog2_nonneg(
                                ((index.total_documents_count + 1) * (FX_ONE as int)) / (
                                (tm.documents.all_items().len() as int) + 1),
                            );
                            lemma_docs_score_nonneg(
                                tm.documents.all_items(),
                                spec_idf(
                                    index.total_documents_count,
                                    tm.documents.all_items().len() as int,
                                ),
                                id,
                            );
                            if base.dom().contains(id) {
                                lemma_mod_rebase64(prev, ds);
                            } else {
                                lemma_bm25_no_candidate_score(
                                    *index,
                                    eseq.take(j as int),
                                    id,
                                );
                            }
                        },
                    }
                }
            }
            j += 1;
        }
        proof {
            assert(eseq.take(n as int) =~= eseq);
        }
        let pairs = fx64_entries(&results_map);
        let mut results: Vec<SparseAnnIDFResult> = Vec::new();
        let mut t: usize = 0;
        while t < pairs.len()
            invariant
                t <= pairs@.len(),
                results@.len() == t,
                forall|i: int|
                    0 <= i < t ==> (#[trigger] results@[i]).document_id == pairs@[i].0
                        && results@[i].score == pairs@[i].1,
            decreases pairs@.len() - t,
        {
            let (document_id, score) = pairs[t];
            results.push(SparseAnnIDFResult { document_id, score });
            t += 1;
        }
        let ghost full = results@;
        proof {
            assert forall|i: int, jj: int|
                0 <= i < jj < full.len() implies (#[trigger] full[i]).document_id != (
            #[trigger] full[jj]).document_id by {
                assert(pairs@[i].0 != pairs@[jj].0);
            }
            assert forall|i: int|
                0 <= i < full.len() implies results_map@.contains_pair(
                (#[trigger] full[i]).document_id,
                full[i].score,
            ) by {
                assert(results_map@.contains_pair(pairs@[i].0, pairs@[i].1));
            }
            if eseq.len() == 0 && full.len() > 0 {
                assert(results_map@.contains_pair(full[0].document_id, full[0].score));
                assert(bm25_candidate(*index, eseq.take(0), full[0].document_id));
            }
        }
        let ghost mut gmid: Seq<SparseAnnIDFResult> = Seq::empty();
        let ghost mut truncated: bool = false;
        let ghost mut gkk: int = 0;
        if let Some(kv) = k {
            let k_with_reranking = kv * reranking_factor;
            if results.len() > k_with_reranking {
                results = sort_idf_results_desc(results);
                proof {
                    gmid = results@;
                    truncated = true;
                    gkk = k_with_reranking as int;
                }
                results.truncate(k_with_reranking);
            }
        }
        let sorted = sort_idf_results_desc(results);
        proof {
            assert forall|i: int|
                0 <= i < sorted@.len() implies full.contains(#[trigger] sorted@[i]) by {
                if sorted@.len() < full.len() {
                }
            }
            assert forall|i: int|
                0 <= i < sorted@.len() implies (#[trigger] sorted@[i]).score as int == bm25_score(
                *index,
                eseq,
                sorted@[i].document_id,
            ) % 0x1_0000_0000_0000_0000 && bm25_candidate(
                *index,
                eseq,
                sorted@[i].document_id,
            ) by {
                assert(full.contains(sorted@[i]));
                let w = choose|w: int| 0 <= w < full.len() && full[w] == sorted@[i];
                assert(results_map@.contains_pair(full[w].document_id, full[w].score));
            }
            if k is None || sorted@.len() < k.unwrap() * reranking_factor {
                assert forall|id: u32|
                    bm25_candidate(*index, self.query_vector.entries@, id) implies contains_doc(
                    sorted@,
                    id,
                ) by {
                    assert(bm25_candidate(*index, eseq, id));
                    assert(results_map@.dom().contains(id));
                    assert(results_map@.contains_pair(id, results_map@[id]));
                    assert(pairs@.contains((id, results_map@[id])));
                    let w = choose|w: int| 0 <= w < pairs@.len() && pairs@[w] == (
                        id,
                        results_map@[id],
                    );
                    assert(full[w].document_id == id);
                    assert(full.to_multiset() == sorted@.to_multiset());
                    lemma_contains_count(full, w);
                    lemma_count_one_index(sorted@, full[w]);
                    let w2 = choose|w2: int| 0 <= w2 < sorted@.len() && sorted@[w2] == full[w];
                    assert(contains_doc(sorted@, id));
                }
            }
            assert forall|id: u32, i: int|
                bm25_candidate(*index, self.query_vector.entries@, id) && !(
                #[trigger] contains_doc(sorted@, id)) && 0 <= i < sorted@.len() implies bm25_score(
                *index,
                eseq,
                id,
            )
                % 0x1_0000_0000_0000_0000 <= (#[trigger] sorted@[i]).score by {
                assert(bm25_candidate(*index, eseq, id));
                assert(results_map@.dom().contains(id));
                assert(results_map@.contains_pair(id, results_map@[id]));
                assert(pairs@.contains((id, results_map@[id])));
                let w = choose|w: int| 0 <= w < pairs@.len() && pairs@[w] == (
                    id,
                    results_map@[id],
                );
                assert(full[w].document_id == id && full[w].score == results_map@[id]);
                if !truncated {
                    assert(full.to_multiset() == sorted@.to_multiset());
                    lemma_contains_count(full, w);
                    lemma_count_one_index(sorted@, full[w]);
                    let w2 = choose|w2: int| 0 <= w2 < sorted@.len() && sorted@[w2] == full[w];
                    assert(contains_doc(sorted@, id));
                } else {
                    assert(gmid.to_multiset() == full.to_multiset());
                    lemma_contains_count(full, w);
                    lemma_count_one_index(gmid, full[w]);
                    let w2 = choose|w2: int| 0 <= w2 < gmid.len() && gmid[w2] == full[w];
                    if w2 < gkk {
                        assert(gmid.take(gkk)[w2] == gmid[w2]);
                        lemma_contains_count(gmid.take(gkk), w2);
                        assert(sorted@.to_multiset() == gmid.take(gkk).to_multiset());
                        lemma_count_one_index(sorted@, gmid[w2]);
                        let w3 = choose|w3: int|
                            0 <= w3 < sorted@.len() && sorted@[w3] == gmid[w2];
                        assert(contains_doc(sorted@, id));
                    } else {
                        lemma_contains_count(sorted@, i);
                        lemma_count_one_index(gmid.take(gkk), sorted@[i]);
                        let w4 = choose|w4: int|
                            0 <= w4 < gmid.take(gkk).len() && gmid.take(gkk)[w4] == sorted@[i];
                        assert(gmid[w4] == gmid.take(gkk)[w4]);
                        assert(gmid[w4].score >= gmid[w2].score);
                        assert(gmid[w2].score as int == bm25_score(*index, eseq, id)
                            % 0x1_0000_0000_0000_0000);
                    }
                }
            }
        }
        Ok(sorted)
    }
}

/// Sorts BM25 hits by score, larger first; a permutation of its input
/// whose elements all come from the input.
fn sort_idf_results_desc(v: Vec<SparseAnnIDFResult>) -> (r: Vec<SparseAnnIDFResult>)
    ensures
        r@.len() == v@.len(),
        r@.to_multiset() == v@.to_multiset(),
        forall|i: int| 0 <= i < r@.len() ==> v@.contains(#[trigger] r@[i]),
        forall|i: int, j: int|
            0 <= i < j < r@.len() ==> (#[trigger] r@[i]).score >= (#[trigger] r@[j]).score,
        (forall|i: int, j: int|
            0 <= i < j < v@.len() ==> (#[trigger] v@[i]).document_id != (
            #[trigger] v@[j]).document_id) ==> (forall|i: int, j: int|
            0 <= i < j < r@.len() ==> (#[trigger] r@[i]).document_id != (
            #[trigger] r@[j]).document_id),
{
    let mut r: Vec<SparseAnnIDFResult> = Vec::new();
    let mut t: usize = 0;
    proof {
        v@.take(0).to_multiset_ensures();
        assert(v@.take(0) =~= Seq::<SparseAnnIDFResult>::empty());
        assert(r@.to_multiset() =~= v@.take(0).to_multiset());
    }
    while t < v.len()
        invariant
            t <= v@.len(),
            r@.len() == t,
            r@.to_multiset() == v@.take(t as int).to_multiset(),
            forall|i: int| 0 <= i < r@.len() ==> v@.contains(#[trigger] r@[i]),
            forall|i: int, j: int|
                0 <= i < j < r@.len() ==> (#[trigger] r@[i]).score >= (#[trigger] r@[j]).score,
        decreases v@.len() - t,
    {
        let x = v[t];
        let ghost r0 = r@;
        let mut p: usize = r.len();
        while p > 0 && r[p - 1].score < x.score
            invariant
                p <= r@.len(),
                r@ == r0,
                forall|j: int| p <= j < r0.len() ==> (#[trigger] r0[j]).score < x.score,
            decreases p,
        {
            p -= 1;
        }
        r.insert(p, x);
        proof {
            assert(v@.take(t + 1).drop_last() =~= v@.take(t as int));
            assert(v@.take(t + 1).last() == v@[t as int]);
            v@.take(t + 1).to_multiset_ensures();
            v@.take(t as int).to_multiset_ensures();
            assert(v@.take(t + 1).to_multiset() =~= v@.take(t as int).to_multiset().insert(x)) by {
                assert(v@.take(t + 1) =~= v@.take(t as int).push(x));
            }
            assert(r@ =~= r0.take(p as int).push(x) + r0.skip(p as int));
            lemma_insert_multiset(r0, x, p as int);
            assert forall|i: int| 0 <= i < r@.len() implies v@.contains(#[trigger] r@[i]) by {
                if i < p {
                    assert(r@[i] == r0[i]);
                } else if i == p {
                    assert(r@[i] == x);
                    assert(v@[t as int] == x);
                } else {
                    assert(r@[i] == r0[i - 1]);
                }
            }
            assert forall|i: int, j: int|
                0 <= i < j < r@.len() implies (#[trigger] r@[i]).score >= (
            #[trigger] r@[j]).score by {
                if i < p && j < p {
                    assert(r@[i] == r0[i] && r@[j] == r0[j]);
                } else if i < p && j == p {
                    assert(r@[i] == r0[i]);
                    assert(r0[i].score >= x.score) by {
                        if r0[i].score < x.score {
                            assert(p <= i < r0.len());
                        }
                    }
                } else if i < p && j > p {
                    assert(r@[i] == r0[i] && r@[j] == r0[j - 1]);
                } else if i == p {
                    assert(r@[j] == r0[j - 1]);
                    assert(p <= j - 1 < r0.len());
                } else {
                    assert(r@[i] == r0[i - 1] && r@[j] == r0[j - 1]);
                }
            }
        }
        t += 1;
    }
    proof {
        assert(v@.take(v@.len() as int) =~= v@);
        if forall|i: int, j: int|
            0 <= i < j < v@.len() ==> (#[trigger] v@[i]).document_id != (
            #[trigger] v@[j]).document_id {
            assert forall|i: int, j: int|
                0 <= i < j < r@.len() implies (#[trigger] r@[i]).document_id != (
            #[trigger] r@[j]).document_id by {
                if r@[i].document_id == r@[j].document_id {
                    if r@[i] == r@[j] {
                        lemma_dup_count(r@, i, j);
                        r@.to_multiset_ensures();
                        v@.to_multiset_ensures();
                        assert(v@.to_multiset().count(r@[i]) >= 2);
                        lemma_count_two_indexes(v@, r@[i]);
                    } else {
                        let a = choose|a: int| 0 <= a < v@.len() && v@[a] == r@[i];
                        let b = choose|b: int| 0 <= b < v@.len() && v@[b] == r@[j];
                        assert(a != b);
                        if a < b {
                            assert(v@[a].document_id != v@[b].document_id);
                        } else {
                            assert(v@[b].document_id != v@[a].document_id);
                        }
                    }
                }
            }
        }
    }
    r
}

} // verus!
