//! The node registry, neighbor resolution, node persistence with its
//! graph-integrity errors, and version bookkeeping.

use vectordb::api_service::WaCustomError;
use vectordb::bufio::{BufferManager, BufferManagerFactory};
use vectordb::file_persist::{
    map_node_persist_ref_to_node, node_to_persist, persist_node_update_loc,
    shared_node_serialize_step, write_node_to_file, write_prop_to_file, NeighbourRef, Node,
    NodePersist, NodeRegistry, ProbLazyItemState, SerializeAction,
};
use vectordb::versioning::{begin_transaction, VersionControl};

fn leaf(id: u64, level: u8, parent: Option<usize>) -> Node {
    Node {
        prop_id: id,
        hnsw_level: level,
        location: None,
        prop_location: None,
        neighbors: Vec::new(),
        parent,
        child: None,
    }
}

#[test]
fn registry_keeps_parent_links_one_layer_up() {
    let mut registry = NodeRegistry::new();
    let root2 = registry.add_node(leaf(100, 2, None));
    let root1 = registry.add_node(leaf(100, 1, Some(root2)));
    let node0 = registry.add_node(leaf(7, 0, Some(root1)));
    // every registered node above layer zero points one layer higher
    assert_eq!(registry.slots[node0].parent, Some(root1));
    assert_eq!(registry.slots[root1].hnsw_level, 1);
    assert_eq!(registry.slots[root2].hnsw_level, 2);
    assert_eq!(registry.get(0, 7), Some(node0));
    assert_eq!(registry.get(1, 100), Some(root1));
    assert_eq!(registry.get(3, 7), None);
}

#[test]
fn neighbor_resolution_uses_the_cache() {
    let mut registry = NodeRegistry::new();
    let slot = registry.add_node(leaf(7, 1, None));
    match map_node_persist_ref_to_node(&registry, (0, 64), 99, 1, 7) {
        NeighbourRef::Ready { node, cosine_similarity } => {
            assert_eq!(node, slot);
            assert_eq!(cosine_similarity, 99);
        }
        NeighbourRef::Pending(_) => panic!("cached node should resolve"),
    }
    match map_node_persist_ref_to_node(&registry, (0, 64), 99, 1, 8) {
        NeighbourRef::Pending(r) => assert_eq!(r, (0, 64)),
        NeighbourRef::Ready { .. } => panic!("unknown node should stay pending"),
    }
}

#[test]
fn persisting_with_pending_neighbor_fails() {
    let mut registry = NodeRegistry::new();
    let mut node = leaf(7, 0, None);
    node.neighbors.push(NeighbourRef::Pending((1, 2)));
    let slot = registry.add_node(node);
    let r = node_to_persist(&registry, slot, (0, 0));
    assert!(matches!(r, Err(WaCustomError::PendingNeighborEncountered)));
}

#[test]
fn persisting_with_unwritten_neighbor_fails() {
    let mut registry = NodeRegistry::new();
    let other = registry.add_node(leaf(9, 0, None));
    let mut node = leaf(7, 0, None);
    node.neighbors.push(NeighbourRef::Ready { node: other, cosine_similarity: 5 });
    let slot = registry.add_node(node);
    // the neighbor exists but was never written anywhere
    let r = node_to_persist(&registry, slot, (0, 0));
    assert!(matches!(r, Err(WaCustomError::InvalidLocationNeighborEncountered)));
}

#[test]
fn persist_node_writes_record_and_updates_location() {
    let mut registry = NodeRegistry::new();
    let mut other = leaf(9, 0, None);
    other.location = Some((0, 40));
    let other_slot = registry.add_node(other);
    let mut node = leaf(7, 0, None);
    node.neighbors.push(NeighbourRef::Ready { node: other_slot, cosine_similarity: 5 });
    let slot = registry.add_node(node);
    let mut bufman = BufferManager::new(Vec::new());
    let cursor = bufman.open_cursor().unwrap();
    let prop_loc = write_prop_to_file(&mut bufman, cursor, &[1, 2, 3, 4]).unwrap();
    assert_eq!(prop_loc, (0, 4));
    persist_node_update_loc(&mut registry, slot, prop_loc, &mut bufman, cursor).unwrap();
    let loc = registry.slots[slot].location.unwrap();
    assert_eq!(loc.0, 4);
    assert_eq!(registry.slots[slot].prop_location, Some(prop_loc));
    // the record starts right after the prop bytes: level, prop ref,
    // parent and child sentinels, neighbor count, one neighbor
    assert_eq!(bufman.file_size(), 4 + 1 + 8 + 8 + 8 + 4 + 12);
}

#[test]
fn node_record_layout_is_stable() {
    let node = NodePersist::new(2, (0, 4), Vec::new(), None, Some((1, 9)));
    let mut bufman = BufferManager::new(Vec::new());
    let cursor = bufman.open_cursor().unwrap();
    let loc = write_node_to_file(&node, &mut bufman, cursor).unwrap();
    assert_eq!(loc, (0, 29));
    bufman.seek_with_cursor(cursor, 0).unwrap();
    assert_eq!(bufman.read_u8_with_cursor(cursor).unwrap(), 2);
    assert_eq!(bufman.read_u32_with_cursor(cursor).unwrap(), 0);
    assert_eq!(bufman.read_u32_with_cursor(cursor).unwrap(), 4);
    // a missing parent is all ones
    assert_eq!(bufman.read_u32_with_cursor(cursor).unwrap(), u32::MAX);
    assert_eq!(bufman.read_u32_with_cursor(cursor).unwrap(), u32::MAX);
    assert_eq!(bufman.read_u32_with_cursor(cursor).unwrap(), 1);
    assert_eq!(bufman.read_u32_with_cursor(cursor).unwrap(), 9);
    assert_eq!(bufman.read_u32_with_cursor(cursor).unwrap(), 0);
}

#[test]
fn shared_node_flush_steps() {
    // pending: nothing to do
    let mut s = ProbLazyItemState::Pending { file_offset: 11 };
    assert_eq!(shared_node_serialize_step(&mut s), (11, SerializeAction::Nothing));
    // dirty and serialized: update in place, flag consumed
    let mut s = ProbLazyItemState::Ready {
        file_offset: 20,
        version_id: 3,
        persist_flag: true,
        is_serialized: true,
    };
    assert_eq!(shared_node_serialize_step(&mut s), (20, SerializeAction::UpdateInPlace));
    match s {
        ProbLazyItemState::Ready { persist_flag, is_serialized, file_offset, version_id } => {
            assert!(!persist_flag);
            assert!(is_serialized);
            assert_eq!((file_offset, version_id), (20, 3));
        }
        _ => panic!("state must stay ready"),
    }
    // never serialized: full write, marked serialized
    let mut s = ProbLazyItemState::Ready {
        file_offset: 30,
        version_id: 3,
        persist_flag: true,
        is_serialized: false,
    };
    assert_eq!(shared_node_serialize_step(&mut s), (30, SerializeAction::FullWrite));
    // clean and serialized: nothing
    assert_eq!(shared_node_serialize_step(&mut s), (30, SerializeAction::Nothing));
}

#[test]
fn version_files_exist_up_to_the_tip() {
    let (mut vcs, root) = VersionControl::new();
    let mut factory = BufferManagerFactory::new();
    factory.get(root);
    for _ in 0..5 {
        // each transaction opens its version's file at allocation
        begin_transaction(&mut vcs, &mut factory);
    }
    // every version at or below the tip has its file
    for v in &vcs.versions {
        assert!(*v <= vcs.current);
        let idx = factory.get(*v);
        assert_eq!(factory.managers[idx].0, *v);
    }
    assert_eq!(factory.managers.len(), 6);
}
