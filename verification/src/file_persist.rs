//! Persisting proximity-graph nodes: the on-disk node record, the
//! conversion from in-memory nodes with its graph-integrity errors, the
//! loader that resolves neighbor references through the node registry,
//! and the record writers.

use crate::api_service::WaCustomError;
use crate::bufio::{BufIoError, BufferManager};
use dashmap::DashMap;
use vstd::bytes::spec_u32_to_le_bytes;
use vstd::prelude::*;

verus! {

/// A node location on disk: `(file number, offset)`.
pub type NodePersistRef = (u32, u32);

/// One persisted neighbor: where it lives and how close it is, the
/// similarity as raw float bits.
#[derive(Clone, Copy, Debug)]
pub struct NeighbourPersist {
    pub node: NodePersistRef,
    pub cosine_similarity: u32,
}

/// The persisted form of a graph node.
pub struct NodePersist {
    pub prop_location: NodePersistRef,
    pub hnsw_level: u8,
    pub neighbors: Vec<NeighbourPersist>,
    pub parent: Option<NodePersistRef>,
    pub child: Option<NodePersistRef>,
}

impl NodePersist {
    pub fn new(
        hnsw_level: u8,
        location: NodePersistRef,
        neighbors: Vec<NeighbourPersist>,
        parent: Option<NodePersistRef>,
        child: Option<NodePersistRef>,
    ) -> (r: NodePersist)
        ensures
            r.hnsw_level == hnsw_level,
            r.prop_location == location,
            r.neighbors@ == neighbors@,
            r.parent == parent,
            r.child == child,
    {
        NodePersist { prop_location: location, hnsw_level, neighbors, parent, child }
    }
}

/// An in-memory neighbor reference: resolved to a registry slot, or
/// still pending at a disk location.
#[derive(Clone, Copy, Debug)]
pub enum NeighbourRef {
    Ready { node: usize, cosine_similarity: u32 },
    Pending(NodePersistRef),
}

/// An in-memory graph node. Neighbors, parent and child point into the
/// registry by slot; locations are where the node and its prop record
/// were last written.
pub struct Node {
    pub prop_id: u64,
    pub hnsw_level: u8,
    pub location: Option<NodePersistRef>,
    pub prop_location: Option<NodePersistRef>,
    pub neighbors: Vec<NeighbourRef>,
    pub parent: Option<usize>,
    pub child: Option<usize>,
}

/// Declares the concurrent map of the `dashmap` crate so the registry
/// can keep its `(level, id)` to slot cache in one.
#[verifier::external_type_specification]
#[verifier::external_body]
#[verifier::reject_recursive_types(K)]
#[verifier::reject_recursive_types(V)]
#[verifier::reject_recursive_types(S)]
pub struct ExDashMap<K, V, S>(DashMap<K, V, S>);

/// What the cache maps: a `(layer, vector id)` pair to a registry slot.
pub uninterp spec fn cache_map(m: &DashMap<(u8, u64), usize>) -> Map<(u8, u64), usize>;

/// Relies on `DashMap::new` building an empty map.
#[verifier::external_body]
fn cache_new() -> (m: DashMap<(u8, u64), usize>)
    ensures
        forall|k: (u8, u64)| !cache_map(&m).dom().contains(k),
{
    DashMap::new()
}

/// Relies on `DashMap::get` returning the value stored under the key.
#[verifier::external_body]
fn cache_get(m: &DashMap<(u8, u64), usize>, k: (u8, u64)) -> (r: Option<usize>)
    ensures
        r == if cache_map(m).dom().contains(k) {
            Some(cache_map(m)[k])
        } else {
            None::<usize>
        },
{
    m.get(&k).map(|v| *v)
}

/// Relies on `DashMap::insert` mapping the key to the new value and
/// leaving every other key as it was.
#[verifier::external_body]
fn cache_insert(m: &mut DashMap<(u8, u64), usize>, k: (u8, u64), v: usize)
    ensures
        cache_map(final(m)) == cache_map(old(m)).insert(k, v),
{
    m.insert(k, v);
}

/// The node registry: the object cache from `(layer, id)` to the slot
/// holding the shared in-memory node.
pub struct NodeRegistry {
    pub cache: DashMap<(u8, u64), usize>,
    pub slots: Vec<Node>,
}

impl NodeRegistry {
    /// Every cached slot exists; every cached node sits at the layer it
    /// was cached under; every non-root node above layer zero has a
    /// parent slot one layer higher.
    pub open spec fn wf(self) -> bool {
        &&& forall|k: (u8, u64)|
            cache_map(&self.cache).dom().contains(k) ==> #[trigger] cache_map(&self.cache)[k]
                < self.slots@.len()
        &&& forall|k: (u8, u64)| #[trigger]
            cache_map(&self.cache).dom().contains(k) ==> self.slots@[cache_map(&self.cache)[k] as int].hnsw_level
                == k.0
        &&& forall|i: int|
            0 <= i < self.slots@.len() ==> match (#[trigger] self.slots@[i]).parent {
                None => true,
                Some(p) => p < self.slots@.len() && self.slots@[p as int].hnsw_level
                    == self.slots@[i].hnsw_level + 1,
            }
    }

    pub fn new() -> (r: Self)
        ensures
            r.wf(),
            r.slots@.len() == 0,
    {
        NodeRegistry { cache: cache_new(), slots: Vec::new() }
    }

    /// Registers a node under its layer and id. A node above layer zero
    /// must name a parent already registered one layer higher: the
    /// parent-link invariant of the graph holds by construction.
    pub fn add_node(&mut self, node: Node) -> (r: usize)
        requires
            old(self).wf(),
            old(self).slots@.len() < usize::MAX,
            node.hnsw_level < u8::MAX,
            match node.parent {
                None => true,
                Some(p) => p < old(self).slots@.len() && old(self).slots@[p as int].hnsw_level
                    == node.hnsw_level + 1,
            },
        ensures
            final(self).wf(),
            r == old(self).slots@.len(),
            final(self).slots@.len() == old(self).slots@.len() + 1,
            final(self).slots@[r as int].prop_id == node.prop_id,
            final(self).slots@[r as int].hnsw_level == node.hnsw_level,
            cache_map(&final(self).cache) == cache_map(&old(self).cache).insert(
                (node.hnsw_level, node.prop_id),
                r,
            ),
    {
        let slot = self.slots.len();
        let level = node.hnsw_level;
        let id = node.prop_id;
        self.slots.push(node);
        cache_insert(&mut self.cache, (level, id), slot);
        proof {
            assert forall|k: (u8, u64)| #[trigger]
                cache_map(&self.cache).dom().contains(k) implies cache_map(&self.cache)[k]
                < self.slots@.len() && self.slots@[cache_map(&self.cache)[k] as int].hnsw_level
                == k.0 by {
                if k != (level, id) {
                    assert(cache_map(&old(self).cache).dom().contains(k));
                }
            }
            assert forall|i: int|
                0 <= i < self.slots@.len() implies match (#[trigger] self.slots@[i]).parent {
                None => true,
                Some(p) => p < self.slots@.len() && self.slots@[p as int].hnsw_level
                    == self.slots@[i].hnsw_level + 1,
            } by {
                if i < old(self).slots@.len() {
                    assert(self.slots@[i] == old(self).slots@[i]);
                }
            }
        }
        slot
    }

    /// Looks a node up in the cache.
    pub fn get(&self, hnsw_level: u8, vector_id: u64) -> (r: Option<usize>)
        requires
            self.wf(),
        ensures
            r == if cache_map(&self.cache).dom().contains((hnsw_level, vector_id)) {
                Some(cache_map(&self.cache)[(hnsw_level, vector_id)])
            } else {
                None::<usize>
            },
            r is Some ==> r.unwrap() < self.slots@.len() && self.slots@[r.unwrap() as int].hnsw_level
                == hnsw_level,
    {
        cache_get(&self.cache, (hnsw_level, vector_id))
    }
}

/// Above layer zero, every registered node's parent link points to a
/// registered node exactly one layer higher: the registry's
/// construction rules keep the graph's parent chain intact.
pub proof fn lemma_parent_links_intact(registry: NodeRegistry, i: int)
    requires
        registry.wf(),
        0 <= i < registry.slots@.len(),
        registry.slots@[i].parent is Some,
    ensures
        registry.slots@[i].parent.unwrap() < registry.slots@.len(),
        registry.slots@[registry.slots@[i].parent.unwrap() as int].hnsw_level
            == registry.slots@[i].hnsw_level + 1,
{
}

/// Resolves a persisted neighbor reference against the registry: a
/// cached node comes back ready, anything else stays pending at its
/// disk location.
pub fn map_node_persist_ref_to_node(
    registry: &NodeRegistry,
    node_ref: NodePersistRef,
    cosine_similarity: u32,
    vec_level: u8,
    vec_id: u64,
) -> (r: NeighbourRef)
    requires
        registry.wf(),
    ensures
        r == match (if cache_map(&registry.cache).dom().contains((vec_level, vec_id)) {
            Some(cache_map(&registry.cache)[(vec_level, vec_id)])
        } else {
            None::<usize>
        }) {
            Some(slot) => NeighbourRef::Ready { node: slot, cosine_similarity },
            None => NeighbourRef::Pending(node_ref),
        },
{
    match registry.get(vec_level, vec_id) {
        Some(slot) => NeighbourRef::Ready { node: slot, cosine_similarity },
        None => NeighbourRef::Pending(node_ref),
    }
}

/// Rebuilds an in-memory node from its persisted form, resolving every
/// neighbor through the registry under the node's own layer and id.
pub fn load_node_from_node_persist(
    registry: &NodeRegistry,
    node_persist: NodePersist,
    persist_loc: NodePersistRef,
    prop_id: u64,
) -> (r: Node)
    requires
        registry.wf(),
    ensures
        r.prop_id == prop_id,
        r.hnsw_level == node_persist.hnsw_level,
        r.location == Some(persist_loc),
        r.prop_location == Some(node_persist.prop_location),
        r.neighbors@.len() == node_persist.neighbors@.len(),
        forall|i: int|
            0 <= i < r.neighbors@.len() ==> (#[trigger] r.neighbors@[i]) == match (if cache_map(
                &registry.cache,
            ).dom().contains((node_persist.hnsw_level, prop_id)) {
                Some(cache_map(&registry.cache)[(node_persist.hnsw_level, prop_id)])
            } else {
                None::<usize>
            }) {
                Some(slot) => NeighbourRef::Ready {
                    node: slot,
                    cosine_similarity: node_persist.neighbors@[i].cosine_similarity,
                },
                None => NeighbourRef::Pending(node_persist.neighbors@[i].node),
            },
        r.parent == (if node_persist.parent is Some {
            cache_get_spec(registry, node_persist.hnsw_level, prop_id)
        } else {
            None::<usize>
        }),
        r.child == (if node_persist.child is Some {
            cache_get_spec(registry, node_persist.hnsw_level, prop_id)
        } else {
            None::<usize>
        }),
{
    let level = node_persist.hnsw_level;
    let mut neighbors: Vec<NeighbourRef> = Vec::new();
    let n = node_persist.neighbors.len();
    let mut i: usize = 0;
    while i < n
        invariant
            registry.wf(),
            n == node_persist.neighbors@.len(),
            i <= n,
            level == node_persist.hnsw_level,
            neighbors@.len() == i,
            forall|j: int|
                0 <= j < i ==> (#[trigger] neighbors@[j]) == match (if cache_map(
                    &registry.cache,
                ).dom().contains((node_persist.hnsw_level, prop_id)) {
                    Some(cache_map(&registry.cache)[(node_persist.hnsw_level, prop_id)])
                } else {
                    None::<usize>
                }) {
                    Some(slot) => NeighbourRef::Ready {
                        node: slot,
                        cosine_similarity: node_persist.neighbors@[j].cosine_similarity,
                    },
                    None => NeighbourRef::Pending(node_persist.neighbors@[j].node),
                },
        decreases n - i,
    {
        let nref = node_persist.neighbors[i];
        let resolved = map_node_persist_ref_to_node(
            registry,
            nref.node,
            nref.cosine_similarity,
            level,
            prop_id,
        );
        neighbors.push(resolved);
        i += 1;
    }
    let parent = if node_persist.parent.is_some() {
        registry.get(level, prop_id)
    } else {
        None
    };
    let child = if node_persist.child.is_some() {
        registry.get(level, prop_id)
    } else {
        None
    };
    Node {
        prop_id,
        hnsw_level: level,
        location: Some(persist_loc),
        prop_location: Some(node_persist.prop_location),
        neighbors,
        parent,
        child,
    }
}

/// The cache lookup as a spec value.
pub open spec fn cache_get_spec(registry: &NodeRegistry, level: u8, id: u64) -> Option<usize> {
    if cache_map(&registry.cache).dom().contains((level, id)) {
        Some(cache_map(&registry.cache)[(level, id)])
    } else {
        None
    }
}

/// Whether a neighbor reference can be persisted: it is resolved and
/// its node has been written somewhere.
pub open spec fn neighbor_persistable(registry: NodeRegistry, nb: NeighbourRef) -> bool {
    match nb {
        NeighbourRef::Ready { node: s, .. } => s < registry.slots@.len()
            && registry.slots@[s as int].location is Some,
        NeighbourRef::Pending(_) => false,
    }
}

/// The persisted form of one resolvable neighbor.
pub open spec fn neighbor_persisted(registry: NodeRegistry, nb: NeighbourRef) -> NeighbourPersist
    recommends
        neighbor_persistable(registry, nb),
{
    match nb {
        NeighbourRef::Ready { node: s, cosine_similarity } => NeighbourPersist {
            node: registry.slots@[s as int].location.unwrap(),
            cosine_similarity,
        },
        NeighbourRef::Pending(x) => NeighbourPersist { node: x, cosine_similarity: 0 },
    }
}

/// Converts a node to its persisted form. Fails exactly when a
/// neighbor cannot be persisted: a ready neighbor whose node was never
/// written has no location, and a pending neighbor was never resolved;
/// either aborts the flush.
pub fn node_to_persist(registry: &NodeRegistry, slot: usize, prop_location: NodePersistRef) -> (r:
    Result<NodePersist, WaCustomError>)
    requires
        registry.wf(),
        slot < registry.slots@.len(),
    ensures
        ({
            let node = registry.slots@[slot as int];
            &&& (r is Ok <==> forall|i: int|
                0 <= i < node.neighbors@.len() ==> neighbor_persistable(
                    *registry,
                    #[trigger] node.neighbors@[i],
                ))
            &&& r is Ok ==> {
                let p = r.unwrap();
                &&& p.hnsw_level == node.hnsw_level
                &&& p.prop_location == prop_location
                &&& p.neighbors@.len() == node.neighbors@.len()
                &&& forall|i: int|
                    0 <= i < p.neighbors@.len() ==> (#[trigger] p.neighbors@[i])
                        == neighbor_persisted(*registry, node.neighbors@[i])
                &&& p.parent == spec_parent_loc(*registry, node)
                &&& p.child == spec_child_loc(*registry, node)
            }
            &&& r is Err ==> (r == Err::<NodePersist, WaCustomError>(
                WaCustomError::InvalidLocationNeighborEncountered,
            ) || r == Err::<NodePersist, WaCustomError>(
                WaCustomError::PendingNeighborEncountered,
            ))
        }),
{
    let mut neighbors: Vec<NeighbourPersist> = Vec::new();
    let n = registry.slots[slot].neighbors.len();
    let mut i: usize = 0;
    while i < n
        invariant
            registry.wf(),
            slot < registry.slots@.len(),
            n == registry.slots@[slot as int].neighbors@.len(),
            i <= n,
            neighbors@.len() == i,
            forall|j: int|
                0 <= j < i ==> neighbor_persistable(
                    *registry,
                    #[trigger] registry.slots@[slot as int].neighbors@[j],
                ),
            forall|j: int|
                0 <= j < i ==> (#[trigger] neighbors@[j]) == neighbor_persisted(
                    *registry,
                    registry.slots@[slot as int].neighbors@[j],
                ),
        decreases n - i,
    {
        let nb = registry.slots[slot].neighbors[i];
        proof {
            assert(nb == registry.slots@[slot as int].neighbors@[i as int]);
        }
        match nb {
            NeighbourRef::Ready { node: s, cosine_similarity } => {
                if s >= registry.slots.len() {
                    return Err(WaCustomError::InvalidLocationNeighborEncountered);
                }
                match registry.slots[s].location {
                    Some(loca) => {
                        let ghost pre_neighbors = neighbors@;
                        neighbors.push(NeighbourPersist { node: loca, cosine_similarity });
                        proof {
                            assert(registry.slots@[s as int].location == Some(loca));
                            assert(neighbor_persistable(
                                *registry,
                                registry.slots@[slot as int].neighbors@[i as int],
                            ));
                            assert(neighbors@[i as int] == neighbor_persisted(
                                *registry,
                                registry.slots@[slot as int].neighbors@[i as int],
                            ));
                            assert forall|j: int|
                                0 <= j < i + 1 implies neighbor_persistable(
                                *registry,
                                #[trigger] registry.slots@[slot as int].neighbors@[j],
                            ) by {
                            }
                            assert forall|j: int|
                                0 <= j < i + 1 implies (#[trigger] neighbors@[j])
                                == neighbor_persisted(
                                *registry,
                                registry.slots@[slot as int].neighbors@[j],
                            ) by {
                                if j < i {
                                    assert(neighbors@[j] == pre_neighbors[j]);
                                }
                            }
                        }
                    },
                    None => {
                        return Err(WaCustomError::InvalidLocationNeighborEncountered);
                    },
                }
            },
            NeighbourRef::Pending(_x) => {
                return Err(WaCustomError::PendingNeighborEncountered);
            },
        }
        i += 1;
    }
    let parent = match registry.slots[slot].parent {
        Some(p) => registry.slots[p].location,
        None => None,
    };
    let child = match registry.slots[slot].child {
        Some(c) => if c < registry.slots.len() {
            registry.slots[c].location
        } else {
            None
        },
        None => None,
    };
    let hnsw_level = registry.slots[slot].hnsw_level;
    Ok(NodePersist { prop_location, hnsw_level, neighbors, parent, child })
}

/// The record a persisted node serializes to: level, prop location,
/// parent and child (a missing link is all-ones), then the neighbors,
/// twelve bytes each.
pub open spec fn spec_ref_encode(r: NodePersistRef) -> Seq<u8> {
    spec_u32_to_le_bytes(r.0) + spec_u32_to_le_bytes(r.1)
}

pub open spec fn spec_opt_ref_encode(r: Option<NodePersistRef>) -> Seq<u8> {
    match r {
        Some(x) => spec_ref_encode(x),
        None => spec_u32_to_le_bytes(u32::MAX) + spec_u32_to_le_bytes(u32::MAX),
    }
}

pub open spec fn flat_neighbors(s: Seq<NeighbourPersist>) -> Seq<u8>
    decreases s.len(),
{
    if s.len() == 0 {
        Seq::empty()
    } else {
        flat_neighbors(s.drop_last()) + spec_ref_encode(s.last().node) + spec_u32_to_le_bytes(
            s.last().cosine_similarity,
        )
    }
}

/// Each persisted neighbor takes twelve bytes.
pub proof fn lemma_flat_neighbors_len(s: Seq<NeighbourPersist>)
    ensures
        flat_neighbors(s).len() == 12 * s.len(),
    decreases s.len(),
{
    vstd::bytes::lemma_auto_spec_u32_to_from_le_bytes();
    if s.len() > 0 {
        lemma_flat_neighbors_len(s.drop_last());
    }
}

/// The parent link a flush writes: the parent slot's location, if any.
pub open spec fn spec_parent_loc(registry: NodeRegistry, node: Node) -> Option<NodePersistRef> {
    match node.parent {
        Some(p) => registry.slots@[p as int].location,
        None => None,
    }
}

/// The child link a flush writes: the child slot's location when the
/// slot exists, else a missing link.
pub open spec fn spec_child_loc(registry: NodeRegistry, node: Node) -> Option<NodePersistRef> {
    match node.child {
        Some(c) => if c < registry.slots@.len() {
            registry.slots@[c as int].location
        } else {
            None
        },
        None => None,
    }
}

impl NodePersist {
    pub open spec fn spec_encode(self) -> Seq<u8> {
        seq![self.hnsw_level] + spec_ref_encode(self.prop_location) + spec_opt_ref_encode(
            self.parent,
        ) + spec_opt_ref_encode(self.child) + spec_u32_to_le_bytes(self.neighbors@.len() as u32)
            + flat_neighbors(self.neighbors@)
    }
}

/// Builds a persisted node's record.
fn encode_node(node: &NodePersist) -> (r: Vec<u8>)
    requires
        node.neighbors@.len() <= u32::MAX,
    ensures
        r@ == node.spec_encode(),
{
    proof {
        vstd::bytes::lemma_auto_spec_u32_to_from_le_bytes();
    }
    let mut buf: Vec<u8> = Vec::new();
    buf.push(node.hnsw_level);
    push_u32(&mut buf, node.prop_location.0);
    push_u32(&mut buf, node.prop_location.1);
    match node.parent {
        Some(p) => {
            push_u32(&mut buf, p.0);
            push_u32(&mut buf, p.1);
        },
        None => {
            push_u32(&mut buf, u32::MAX);
            push_u32(&mut buf, u32::MAX);
        },
    }
    match node.child {
        Some(c) => {
            push_u32(&mut buf, c.0);
            push_u32(&mut buf, c.1);
        },
        None => {
            push_u32(&mut buf, u32::MAX);
            push_u32(&mut buf, u32::MAX);
        },
    }
    push_u32(&mut buf, node.neighbors.len() as u32);
    let ghost header = buf@;
    let n = node.neighbors.len();
    let mut i: usize = 0;
    while i < n
        invariant
            n == node.neighbors@.len(),
            i <= n,
            buf@ == header + flat_neighbors(node.neighbors@.take(i as int)),
        decreases n - i,
    {
        let nb = node.neighbors[i];
        push_u32(&mut buf, nb.node.0);
        push_u32(&mut buf, nb.node.1);
        push_u32(&mut buf, nb.cosine_similarity);
        proof {
            assert(node.neighbors@.take(i + 1).drop_last() =~= node.neighbors@.take(i as int));
            assert(node.neighbors@.take(i + 1).last() == node.neighbors@[i as int]);
            assert(buf@ =~= header + flat_neighbors(node.neighbors@.take(i + 1)));
        }
        i += 1;
    }
    proof {
        assert(node.neighbors@.take(n as int) =~= node.neighbors@);
        assert(buf@ =~= node.spec_encode());
    }
    buf
}

/// Appends a 32-bit value little-endian.
fn push_u32(buf: &mut Vec<u8>, value: u32)
    ensures
        final(buf)@ == old(buf)@ + spec_u32_to_le_bytes(value),
{
    let le = vstd::bytes::u32_to_le_bytes(value);
    let ghost b0 = buf@;
    let mut k: usize = 0;
    while k < 4
        invariant
            k <= 4,
            le@.len() == 4,
            le@ == spec_u32_to_le_bytes(value),
            buf@ == b0 + le@.take(k as int),
        decreases 4 - k,
    {
        buf.push(le[k]);
        assert(buf@ =~= b0 + le@.take((k + 1) as int));
        k += 1;
    }
    assert(buf@ =~= b0 + le@);
}

/// Appends a prop record's bytes to the prop file and returns where
/// they landed: `(offset, length)`.
pub fn write_prop_to_file(bufman: &mut BufferManager, cursor: usize, prop_bytes: &[u8]) -> (r:
    Result<NodePersistRef, BufIoError>)
    requires
        old(bufman).wf(),
        old(bufman).cursor_ok(cursor),
    ensures
        final(bufman).wf(),
        final(bufman).cursor_ok(cursor),
        r is Ok <==> old(bufman).file().len() + prop_bytes@.len() <= u32::MAX,
        r is Ok ==> {
            &&& final(bufman).file() == old(bufman).file() + prop_bytes@
            &&& r.unwrap().0 == old(bufman).file().len()
            &&& r.unwrap().1 == prop_bytes@.len()
        },
        r is Err ==> *final(bufman) == *old(bufman),
{
    if prop_bytes.len() as u64 > u32::MAX as u64 {
        proof {
            assert(old(bufman).file().len() + prop_bytes@.len() > u32::MAX);
        }
        return Err(BufIoError::Io);
    }
    let offset = bufman.write_to_end_of_file(cursor, prop_bytes)?;
    Ok((offset, prop_bytes.len() as u32))
}

/// Appends a node record to the end of the file and returns where it
/// landed.
pub fn write_node_to_file(
    node: &NodePersist,
    bufman: &mut BufferManager,
    cursor: usize,
) -> (r: Result<NodePersistRef, BufIoError>)
    requires
        old(bufman).wf(),
        old(bufman).cursor_ok(cursor),
        node.neighbors@.len() <= u32::MAX,
    ensures
        final(bufman).wf(),
        final(bufman).cursor_ok(cursor),
        r is Ok <==> old(bufman).file().len() + node.spec_encode().len() <= u32::MAX,
        r is Ok ==> {
            &&& final(bufman).file() == old(bufman).file() + node.spec_encode()
            &&& r.unwrap().0 == old(bufman).file().len()
            &&& r.unwrap().1 == node.spec_encode().len()
        },
        r is Err ==> *final(bufman) == *old(bufman),
{
    let buf = encode_node(node);
    if buf.len() as u64 > u32::MAX as u64 {
        return Err(BufIoError::Io);
    }
    let offset = bufman.write_to_end_of_file(cursor, buf.as_slice())?;
    Ok((offset, buf.len() as u32))
}

/// Writes a node record in place at a known offset.
pub fn write_node_to_file_at_offset(
    node: &NodePersist,
    bufman: &mut BufferManager,
    cursor: usize,
    offset: u64,
) -> (r: Result<NodePersistRef, BufIoError>)
    requires
        old(bufman).wf(),
        old(bufman).cursor_ok(cursor),
        node.neighbors@.len() <= u32::MAX,
    ensures
        final(bufman).wf(),
        final(bufman).cursor_ok(cursor),
        r is Ok ==> {
            &&& final(bufman).file() == crate::bufio::spec_store(
                old(bufman).file(),
                offset as int,
                node.spec_encode(),
            )
            &&& r.unwrap().0 == offset
            &&& r.unwrap().1 == node.spec_encode().len()
        },
        r is Err ==> final(bufman).file() == old(bufman).file(),
        offset + node.spec_encode().len() <= u32::MAX ==> r is Ok,
{
    if offset > u32::MAX as u64 {
        return Err(BufIoError::Io);
    }
    let buf = encode_node(node);
    if buf.len() as u64 > u32::MAX as u64 {
        return Err(BufIoError::Io);
    }
    bufman.seek_with_cursor(cursor, offset)?;
    match bufman.update_with_cursor(cursor, buf.as_slice()) {
        Ok(_) => Ok((offset as u32, buf.len() as u32)),
        Err(e) => Err(e),
    }
}

/// Converts then writes a node: the persisted record lands at the end
/// of the file and the registry node's location is brought up to date.
pub fn persist_node_update_loc(
    registry: &mut NodeRegistry,
    slot: usize,
    prop_location: NodePersistRef,
    bufman: &mut BufferManager,
    cursor: usize,
) -> (r: Result<(), WaCustomError>)
    requires
        old(registry).wf(),
        slot < old(registry).slots@.len(),
        old(bufman).wf(),
        old(bufman).cursor_ok(cursor),
    ensures
        final(registry).wf(),
        final(registry).slots@.len() == old(registry).slots@.len(),
        r is Err ==> (r == Err::<(), WaCustomError>(
            WaCustomError::InvalidLocationNeighborEncountered,
        ) || r == Err::<(), WaCustomError>(WaCustomError::PendingNeighborEncountered) || r == Err::<
            (),
            WaCustomError,
        >(WaCustomError::FsError)),
        r is Ok <==> ({
            let node = old(registry).slots@[slot as int];
            &&& forall|i: int|
                0 <= i < node.neighbors@.len() ==> neighbor_persistable(
                    *old(registry),
                    #[trigger] node.neighbors@[i],
                )
            &&& old(bufman).file().len() + 29 + 12 * node.neighbors@.len() <= u32::MAX
        }),
        r is Ok ==> ({
            let node = old(registry).slots@[slot as int];
            let rec = seq![node.hnsw_level] + spec_ref_encode(prop_location) + spec_opt_ref_encode(
                spec_parent_loc(*old(registry), node),
            ) + spec_opt_ref_encode(spec_child_loc(*old(registry), node)) + spec_u32_to_le_bytes(
                node.neighbors@.len() as u32,
            ) + flat_neighbors(
                node.neighbors@.map_values(|nb: NeighbourRef| neighbor_persisted(*old(registry), nb)),
            );
            &&& final(bufman).file() == old(bufman).file() + rec
            &&& final(bufman).file().len() == old(bufman).file().len() + 29 + 12
                * node.neighbors@.len()
            &&& final(registry).slots@[slot as int].location == Some(
                (
                    old(bufman).file().len() as u32,
                    (29 + 12 * node.neighbors@.len()) as u32,
                ),
            )
            &&& final(registry).slots@[slot as int].prop_location == Some(prop_location)
            &&& forall|i: int|
                0 <= i < old(registry).slots@.len() && i != slot
                    ==> final(registry).slots@[i] == old(registry).slots@[i]
        }),
{
    let persisted = match node_to_persist(registry, slot, prop_location) {
        Ok(p) => p,
        Err(e) => {
            return Err(e);
        },
    };
    if persisted.neighbors.len() as u64 > u32::MAX as u64 {
        return Err(WaCustomError::FsError);
    }
    proof {
        lemma_flat_neighbors_len(persisted.neighbors@);
        vstd::bytes::lemma_auto_spec_u32_to_from_le_bytes();
        let node = old(registry).slots@[slot as int];
        assert(persisted.neighbors@ =~= node.neighbors@.map_values(
            |nb: NeighbourRef| neighbor_persisted(*old(registry), nb),
        ));
        assert(persisted.spec_encode().len() == 29 + 12 * node.neighbors@.len());
    }
    let file_loc = match write_node_to_file(&persisted, bufman, cursor) {
        Ok(loc) => loc,
        Err(_) => {
            return Err(WaCustomError::FsError);
        },
    };
    let ghost pre = *registry;
    let node = &mut registry.slots[slot];
    node.location = Some(file_loc);
    node.prop_location = Some(prop_location);
    proof {
        assert(registry.slots@.len() == pre.slots@.len());
        assert forall|k: (u8, u64)| #[trigger]
            cache_map(&registry.cache).dom().contains(k) implies cache_map(&registry.cache)[k]
            < registry.slots@.len() && registry.slots@[cache_map(&registry.cache)[k] as int].hnsw_level
            == k.0 by {
            assert(cache_map(&pre.cache).dom().contains(k));
            if cache_map(&pre.cache)[k] != slot {
                assert(registry.slots@[cache_map(&pre.cache)[k] as int] == pre.slots@[cache_map(
                    &pre.cache,
                )[k] as int]);
            }
        }
        assert forall|i: int|
            0 <= i < registry.slots@.len() implies match (#[trigger] registry.slots@[i]).parent {
            None => true,
            Some(p) => p < registry.slots@.len() && registry.slots@[p as int].hnsw_level
                == registry.slots@[i].hnsw_level + 1,
        } by {
            if i != slot {
                assert(registry.slots@[i] == pre.slots@[i]);
            }
            if registry.slots@[i].parent is Some {
                let p = registry.slots@[i].parent.unwrap();
                if p != slot {
                    assert(registry.slots@[p as int] == pre.slots@[p as int]);
                }
            }
        }
    }
    Ok(())
}

/// The states of a lazily persisted item: known on disk but not
/// materialized, or materialized with its write-back bookkeeping.
#[derive(Clone, Copy, PartialEq, Eq, Structural, Debug)]
pub enum ProbLazyItemState {
    Pending { file_offset: u32 },
    Ready { file_offset: u32, version_id: u32, persist_flag: bool, is_serialized: bool },
}

/// What a flush must do for a lazily persisted item.
#[derive(Clone, Copy, PartialEq, Eq, Structural, Debug)]
pub enum SerializeAction {
    Nothing,
    UpdateInPlace,
    FullWrite,
}

/// One flush step of a shared node: a pending item only reports its
/// offset; a clean serialized item does nothing; a dirty serialized
/// item is updated in place with its persist flag consumed; an item
/// never serialized is fully written and marked so. The volatile
/// flags change; the offset and version never do.
pub fn shared_node_serialize_step(state: &mut ProbLazyItemState) -> (r: (u32, SerializeAction))
    ensures
        ({
            match *old(state) {
                ProbLazyItemState::Pending { file_offset } => {
                    &&& r == (file_offset, SerializeAction::Nothing)
                    &&& *final(state) == *old(state)
                },
                ProbLazyItemState::Ready { file_offset, version_id, persist_flag, is_serialized } => {
                    &&& r.0 == file_offset
                    &&& r.1 == (if is_serialized {
                        if persist_flag {
                            SerializeAction::UpdateInPlace
                        } else {
                            SerializeAction::Nothing
                        }
                    } else {
                        SerializeAction::FullWrite
                    })
                    &&& *final(state) == (ProbLazyItemState::Ready {
                        file_offset,
                        version_id,
                        persist_flag: false,
                        is_serialized: true,
                    })
                },
            }
        }),
{
    match *state {
        ProbLazyItemState::Pending { file_offset } => (file_offset, SerializeAction::Nothing),
        ProbLazyItemState::Ready { file_offset, version_id, persist_flag, is_serialized } => {
            let action = if is_serialized {
                if persist_flag {
                    SerializeAction::UpdateInPlace
                } else {
                    SerializeAction::Nothing
                }
            } else {
                SerializeAction::FullWrite
            };
            *state =
                ProbLazyItemState::Ready {
                file_offset,
                version_id,
                persist_flag: false,
                is_serialized: true,
            };
            (file_offset, action)
        },
    }
}

/// A lazily deserialized storage record: materialized with the offset
/// it was read from or last written at, known only by offset, or
/// absent.
pub enum LazyItem {
    Ready(crate::serializer::storage::Storage, Option<u32>),
    LazyLoad(u32),
    Null,
}

impl LazyItem {
    /// Serializes the item: a materialized record with a known offset
    /// is rewritten in place, one without is written at the cursor and
    /// remembers where; an unmaterialized or absent item only reports
    /// its offset (all ones when absent).
    pub fn serialize(&mut self, bufman: &mut BufferManager, cursor: usize) -> (r: Result<
        u32,
        BufIoError,
    >)
        requires
            old(bufman).wf(),
            old(bufman).cursor_ok(cursor),
            match *old(self) {
                LazyItem::Ready(s, _) => s.wf_counts(),
                _ => true,
            },
        ensures
            final(bufman).wf(),
            final(bufman).cursor_ok(cursor),
            match *old(self) {
                LazyItem::Ready(s, Some(off)) => (r is Ok ==> r.unwrap() == off && *final(self)
                    == *old(self) && final(bufman).file() == crate::bufio::spec_store(
                    old(bufman).file(),
                    off as int,
                    s.spec_encode(),
                )) && (off + s.spec_encode().len() <= u32::MAX ==> r is Ok),
                LazyItem::Ready(s, None) => (r is Ok ==> *final(self) == LazyItem::Ready(
                    s,
                    Some(r.unwrap()),
                ) && final(bufman).file() == crate::bufio::spec_store(
                    old(bufman).file(),
                    old(bufman).cursor_at(cursor),
                    s.spec_encode(),
                ) && r.unwrap() as int == old(bufman).cursor_at(cursor)) && (old(
                    bufman,
                ).cursor_at(cursor) + s.spec_encode().len() <= u32::MAX ==> r is Ok),
                LazyItem::LazyLoad(off) => r == Ok::<u32, BufIoError>(off) && *final(self) == *old(
                    self,
                ) && final(bufman).file() == old(bufman).file(),
                LazyItem::Null => r == Ok::<u32, BufIoError>(u32::MAX) && *final(self) == *old(
                    self,
                ) && final(bufman).file() == old(bufman).file(),
            },
    {
        match self {
            LazyItem::Ready(item, existing_offset) => {
                match *existing_offset {
                    Some(off) => {
                        bufman.seek_with_cursor(cursor, off as u64)?;
                        let _ = item.serialize(bufman, cursor)?;
                        Ok(off)
                    },
                    None => {
                        let off = item.serialize(bufman, cursor)?;
                        *existing_offset = Some(off);
                        Ok(off)
                    },
                }
            },
            LazyItem::LazyLoad(file_offset) => Ok(*file_offset),
            LazyItem::Null => Ok(u32::MAX),
        }
    }

    /// Reads the record at `offset` and materializes it there.
    pub fn deserialize(bufman: &mut BufferManager, offset: u32) -> (r: Result<LazyItem, BufIoError>)
        requires
            old(bufman).wf(),
            old(bufman).cursors@.len() < usize::MAX,
        ensures
            final(bufman).wf(),
            final(bufman).file() == old(bufman).file(),
            r is Ok ==> match r.unwrap() {
                LazyItem::Ready(s, off) => off == Some(offset) && s.spec_encode() == old(
                    bufman,
                ).file().subrange(offset as int, offset + s.spec_encode().len()),
                _ => false,
            },
            crate::serializer::storage::spec_storage_written(old(bufman).file(), offset as int)
                ==> r is Ok,
            offset + 1 <= old(bufman).file().len() && 3 < old(bufman).file()[offset as int] ==> r
                == Err::<LazyItem, BufIoError>(BufIoError::InvalidData),
    {
        let storage = crate::serializer::storage::Storage::deserialize(bufman, offset)?;
        Ok(LazyItem::Ready(storage, Some(offset)))
    }
}

} // verus!
