//! Versioning and the key-value catalog. Versions are monotone 32-bit
//! identifiers handed out per transaction; the catalog is the small
//! durable store of per-collection metadata the core consumes through
//! this interface.

use crate::bufio::BufferManagerFactory;
use vstd::prelude::*;

verus! {

/// Hands out version identifiers on the main branch and remembers
/// every version it produced, in order.
pub struct VersionControl {
    pub versions: Vec<u32>,
    pub current: u32,
}

impl VersionControl {
    /// Versions are handed out in strictly increasing order, starting
    /// after the root version.
    pub open spec fn wf(self) -> bool {
        &&& forall|i: int, j: int|
            0 <= i < j < self.versions@.len() ==> (#[trigger] self.versions@[i]) < (
            #[trigger] self.versions@[j])
        &&& self.versions@.len() > 0 ==> self.versions@.last() == self.current
        &&& forall|i: int| 0 <= i < self.versions@.len() ==> (#[trigger] self.versions@[i]) <= self.current
    }

    pub fn new() -> (r: (Self, u32))
        ensures
            r.0.wf(),
            r.0.current == 0,
            r.0.versions@ == seq![0u32],
            r.1 == 0,
    {
        (VersionControl { versions: vec![0u32], current: 0 }, 0)
    }

    /// Allocates the next version and returns it with its parent.
    pub fn add_next_version(&mut self) -> (r: (u32, u32))
        requires
            old(self).wf(),
            old(self).current < u32::MAX,
        ensures
            final(self).wf(),
            r.0 == old(self).current + 1,
            r.1 == old(self).current,
            final(self).current == r.0,
            final(self).versions@ == old(self).versions@.push(r.0),
    {
        let parent = self.current;
        let next = self.current + 1;
        self.current = next;
        let ghost vs = self.versions@;
        self.versions.push(next);
        proof {
            assert forall|i: int, j: int|
                0 <= i < j < self.versions@.len() implies (#[trigger] self.versions@[i]) < (
            #[trigger] self.versions@[j]) by {
                if j < vs.len() {
                    assert(self.versions@[i] == vs[i] && self.versions@[j] == vs[j]);
                } else {
                    assert(self.versions@[j] == next);
                    assert(vs[i] <= parent);
                }
            }
        }
        (next, parent)
    }
}

/// The typed keys of the per-collection catalog. The embedded store
/// that makes them durable lives outside the library; the core reads
/// and writes them through this interface only.
pub struct KvCatalog {
    pub current_version: Option<u32>,
    pub last_indexed_version: Option<u32>,
    pub count_indexed: u32,
    pub count_unindexed: u32,
    pub values_range: Option<(i64, i64)>,
    pub values_upper_bound: Option<u64>,
    pub average_document_length: Option<u64>,
    pub highest_internal_id: Option<u32>,
    pub embedding_offsets: Vec<(u64, (u32, u32))>,
}

/// The last entry for `id` in an embedding-offset log: a later put
/// overwrites the key.
pub open spec fn spec_offset_of(s: Seq<(u64, (u32, u32))>, id: u64) -> Option<(u32, u32)>
    decreases s.len(),
{
    if s.len() == 0 {
        None
    } else if s.last().0 == id {
        Some(s.last().1)
    } else {
        spec_offset_of(s.drop_last(), id)
    }
}

/// The embedding-offset entry the catalog holds for a vector id.
pub open spec fn spec_embedding_offset(catalog: KvCatalog, id: u64) -> Option<(u32, u32)> {
    spec_offset_of(catalog.embedding_offsets@, id)
}

impl KvCatalog {
    pub fn new() -> (r: Self)
        ensures
            r.current_version is None,
            r.last_indexed_version is None,
            r.count_indexed == 0,
            r.count_unindexed == 0,
            r.values_range is None,
            r.values_upper_bound is None,
            r.average_document_length is None,
            r.highest_internal_id is None,
            r.embedding_offsets@.len() == 0,
    {
        KvCatalog {
            current_version: None,
            last_indexed_version: None,
            count_indexed: 0,
            count_unindexed: 0,
            values_range: None,
            values_upper_bound: None,
            average_document_length: None,
            highest_internal_id: None,
            embedding_offsets: Vec::new(),
        }
    }
}

/// Records the branch tip. Everything else in the catalog stays.
pub fn update_current_version(lmdb: &mut KvCatalog, version: u32)
    ensures
        *final(lmdb) == (KvCatalog { current_version: Some(version), ..*old(lmdb) }),
{
    lmdb.current_version = Some(version);
}

/// Persists the calibrated dense value range, in fixed-point units.
pub fn store_values_range(lmdb: &mut KvCatalog, range: (i64, i64))
    ensures
        *final(lmdb) == (KvCatalog { values_range: Some(range), ..*old(lmdb) }),
{
    lmdb.values_range = Some(range);
}

/// Persists the calibrated sparse upper bound, in fixed-point units.
pub fn store_values_upper_bound(lmdb: &mut KvCatalog, bound: u64)
    ensures
        *final(lmdb) == (KvCatalog { values_upper_bound: Some(bound), ..*old(lmdb) }),
{
    lmdb.values_upper_bound = Some(bound);
}

/// Persists the calibrated average document length, fixed-point.
pub fn store_average_document_length(lmdb: &mut KvCatalog, avg: u64)
    ensures
        *final(lmdb) == (KvCatalog { average_document_length: Some(avg), ..*old(lmdb) }),
{
    lmdb.average_document_length = Some(avg);
}

/// Persists the highest internal document counter.
pub fn store_highest_internal_id(lmdb: &mut KvCatalog, id: u32)
    ensures
        *final(lmdb) == (KvCatalog { highest_internal_id: Some(id), ..*old(lmdb) }),
{
    lmdb.highest_internal_id = Some(id);
}

/// Records the version whose backlog was last flushed into the graph.
pub fn store_last_indexed_version(lmdb: &mut KvCatalog, version: u32)
    ensures
        *final(lmdb) == (KvCatalog { last_indexed_version: Some(version), ..*old(lmdb) }),
{
    lmdb.last_indexed_version = Some(version);
}

/// Records where a vector's raw embedding sits: its offset in the raw
/// file of `version`. A later put for the same id wins.
pub fn put_embedding_offset(lmdb: &mut KvCatalog, id: u64, offset: u32, version: u32)
    requires
        old(lmdb).embedding_offsets@.len() < usize::MAX,
    ensures
        *final(lmdb) == (KvCatalog {
            embedding_offsets: final(lmdb).embedding_offsets,
            ..*old(lmdb)
        }),
        final(lmdb).embedding_offsets@ == old(lmdb).embedding_offsets@.push(
            (id, (offset, version)),
        ),
        spec_embedding_offset(*final(lmdb), id) == Some((offset, version)),
        forall|id2: u64|
            id2 != id ==> #[trigger] spec_embedding_offset(*final(lmdb), id2)
                == spec_embedding_offset(*old(lmdb), id2),
{
    lmdb.embedding_offsets.push((id, (offset, version)));
    proof {
        assert(lmdb.embedding_offsets@.last() == (id, (offset, version)));
        assert forall|id2: u64|
            id2 != id implies #[trigger] spec_embedding_offset(*lmdb, id2)
            == spec_embedding_offset(*old(lmdb), id2) by {
            assert(lmdb.embedding_offsets@.drop_last() =~= old(lmdb).embedding_offsets@);
        }
    }
}

/// How an upload of `n_new` vectors settles the catalog's two counters:
/// the batch lands in `count_unindexed`; when the backlog reaches the
/// threshold, everything unindexed moves to `count_indexed`. Whatever
/// the path, not a vector is lost: the counters' sum grows by exactly
/// the batch (the invariant `count_indexed + count_unindexed` equals
/// the total uploaded).
pub fn plan_upload_commit(count_indexed: u32, count_unindexed: u32, n_new: u32, threshold: u32)
    -> (r: (u32, u32, bool))
    requires
        count_indexed + count_unindexed + n_new <= u32::MAX,
    ensures
        r.0 as int + r.1 as int == count_indexed + count_unindexed + n_new,
        r.2 <==> count_unindexed + n_new >= threshold,
        r.2 ==> r.1 == 0 && r.0 == count_indexed + count_unindexed + n_new,
        !r.2 ==> r.0 == count_indexed && r.1 == count_unindexed + n_new,
{
    let new_unindexed = count_unindexed + n_new;
    if new_unindexed >= threshold {
        (count_indexed + new_unindexed, 0, true)
    } else {
        (count_indexed, new_unindexed, false)
    }
}

/// Every version the control handed out has its index file open in the
/// factory.
pub open spec fn files_cover(vcs: VersionControl, factory: BufferManagerFactory) -> bool {
    forall|i: int|
        0 <= i < vcs.versions@.len() ==> factory.has_tag(#[trigger] vcs.versions@[i])
}

/// Begins a transaction: allocates the next version and opens that
/// version's index file, so that a file exists for every version ever
/// allocated — in particular for every version at or below the tip.
pub fn begin_transaction(vcs: &mut VersionControl, factory: &mut BufferManagerFactory) -> (r: u32)
    requires
        old(vcs).wf(),
        old(factory).wf(),
        old(vcs).current < u32::MAX,
        old(factory).managers@.len() < usize::MAX,
        files_cover(*old(vcs), *old(factory)),
    ensures
        final(vcs).wf(),
        final(factory).wf(),
        r == old(vcs).current + 1,
        final(vcs).current == r,
        files_cover(*final(vcs), *final(factory)),
{
    let (version, _parent) = vcs.add_next_version();
    let ghost mid_factory = *factory;
    let _ = factory.get(version);
    proof {
        assert forall|i: int|
            0 <= i < vcs.versions@.len() implies factory.has_tag(
            #[trigger] vcs.versions@[i],
        ) by {
            if i < vcs.versions@.len() - 1 {
                assert(old(vcs).versions@[i] == vcs.versions@[i]);
                assert(mid_factory.has_tag(vcs.versions@[i]));
                let w = choose|w: int|
                    0 <= w < mid_factory.managers@.len() && mid_factory.managers@[w].0
                        == vcs.versions@[i];
                if mid_factory.has_tag(version) {
                    assert(factory.managers@ == mid_factory.managers@);
                    assert(factory.managers@[w].0 == vcs.versions@[i]);
                } else {
                    assert(factory.managers@.take(mid_factory.managers@.len() as int)
                        == mid_factory.managers@);
                    assert(factory.managers@[w].0 == vcs.versions@[i]);
                }
            } else {
                assert(vcs.versions@[i] == version);
                assert(factory.has_tag(version));
            }
        }
    }
    version
}

/// Every version the control handed out lies at or below the tip, and
/// with the transaction discipline above its index file exists: the
/// file of every version up to the current one can be opened.
pub proof fn lemma_versions_below_tip(vcs: VersionControl, factory: BufferManagerFactory)
    requires
        vcs.wf(),
        files_cover(vcs, factory),
    ensures
        forall|i: int|
            0 <= i < vcs.versions@.len() ==> (#[trigger] vcs.versions@[i]) <= vcs.current
                && factory.has_tag(vcs.versions@[i]),
{
}

} // verus!
