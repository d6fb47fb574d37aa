//! The sparse inverted index: the same 16-way radix trie, keyed on the
//! 32-bit dimension index; each node maps an 8-bit quantized value to a
//! versioned posting pagepool, newest segment first.

use crate::page::Pagepool;
use crate::path::{calculate_path, path_dim_sum, pow4, spec_path};
use vstd::prelude::*;

verus! {

/// A posting list split by the version that produced each segment.
pub struct VersionedPagepool<const LEN: usize> {
    pub version: u32,
    pub pagepool: Pagepool<LEN>,
    pub next: Option<Box<VersionedPagepool<LEN>>>,
}

impl<const LEN: usize> VersionedPagepool<LEN> {
    pub open spec fn wf(self) -> bool
        decreases self,
    {
        &&& self.pagepool.wf()
        &&& match self.next {
            None => true,
            Some(n) => !n.versions().contains(self.version) && n.wf(),
        }
    }

    pub open spec fn versions(self) -> Seq<u32>
        decreases self,
    {
        match self.next {
            None => seq![self.version],
            Some(n) => seq![self.version] + n.versions(),
        }
    }

    /// Every id in the chain, this segment's first.
    pub open spec fn all_ids(self) -> Seq<u32>
        decreases self,
    {
        match self.next {
            None => self.pagepool.view(),
            Some(n) => self.pagepool.view() + n.all_ids(),
        }
    }

    pub open spec fn has_version(self, v: u32) -> bool {
        self.versions().contains(v)
    }

    /// The ids of the first segment tagged `v`, or empty.
    pub open spec fn ids_of(self, v: u32) -> Seq<u32>
        decreases self,
    {
        if self.version == v {
            self.pagepool.view()
        } else {
            match self.next {
                None => Seq::empty(),
                Some(n) => n.ids_of(v),
            }
        }
    }

    pub fn new(version: u32) -> (r: Self)
        ensures
            r.wf(),
            r.version == version,
            r.versions() == seq![version],
            r.all_ids() == Seq::<u32>::empty(),
    {
        VersionedPagepool { version, pagepool: Pagepool::new(), next: None }
    }

    /// Appends one id to the segment of `version`, opening a new tail
    /// segment for a version not seen yet.
    pub fn push(&mut self, version: u32, vector_id: u32)
        requires
            old(self).wf(),
            LEN > 0,
        ensures
            final(self).wf(),
            final(self).version == old(self).version,
            final(self).versions() == if old(self).has_version(version) {
                old(self).versions()
            } else {
                old(self).versions().push(version)
            },
            final(self).ids_of(version) == old(self).ids_of(version).push(vector_id),
            forall|v: u32| v != version ==> final(self).ids_of(v) == old(self).ids_of(v),
            final(self).all_ids().len() == old(self).all_ids().len() + 1,
        decreases *old(self),
    {
        if self.version == version {
            self.pagepool.push(vector_id);
            proof {
                assert(self.all_ids().len() == old(self).all_ids().len() + 1);
                assert(self.versions() =~= old(self).versions());
                assert(self.versions().contains(version)) by {
                    assert(self.versions()[0] == version);
                }
                assert forall|v: u32| v != version implies self.ids_of(v) == old(self).ids_of(
                    v,
                ) by {
                    assert(self.ids_of(v) == old(self).ids_of(v));
                }
                assert(self.wf()) by {
                    assert(old(self).wf());
                }
            }
            return;
        }
        let ghost head_version = self.version;
        match &mut self.next {
            Some(n) => {
                let ghost old_n = **n;
                n.push(version, vector_id);
                proof {
                    assert forall|v: u32| v != version implies self.ids_of(v) == old(self).ids_of(
                        v,
                    ) by {
                        if v == head_version {
                            assert(self.ids_of(v) == self.pagepool.view());
                        } else {
                            assert(self.ids_of(v) == (*n).ids_of(v));
                            assert(old(self).ids_of(v) == old_n.ids_of(v));
                        }
                    }
                    assert(self.ids_of(version) == (*n).ids_of(version));
                    assert(old(self).ids_of(version) == old_n.ids_of(version));
                    assert(self.all_ids() =~= self.pagepool.view() + (*n).all_ids());
                    assert(old(self).all_ids() =~= self.pagepool.view() + old_n.all_ids());
                    if old_n.has_version(version) {
                        assert(self.versions() =~= old(self).versions());
                        assert(old(self).has_version(version)) by {
                            let i = choose|i: int|
                                0 <= i < old_n.versions().len() && old_n.versions()[i] == version;
                            assert(old(self).versions()[i + 1] == version);
                        }
                    } else {
                        assert(self.versions() =~= old(self).versions().push(version));
                        assert(!old(self).has_version(version)) by {
                            if old(self).has_version(version) {
                                let i = choose|i: int|
                                    0 <= i < old(self).versions().len() && old(self).versions()[i]
                                        == version;
                                assert(i != 0);
                                assert(old_n.versions()[i - 1] == version);
                            }
                        }
                    }
                    assert(self.wf()) by {
                        assert((*n).wf());
                        assert(!((*n).versions().contains(head_version))) by {
                            if (*n).versions().contains(head_version) {
                                let i = choose|i: int|
                                    0 <= i < (*n).versions().len() && (*n).versions()[i]
                                        == head_version;
                                if old_n.has_version(version) {
                                    assert(old_n.versions().contains(head_version));
                                } else {
                                    assert((*n).versions() == old_n.versions().push(version));
                                    if i < old_n.versions().len() {
                                        assert(old_n.versions()[i] == head_version);
                                    } else {
                                        assert(head_version == version);
                                    }
                                }
                            }
                        }
                    }
                }
            },
            None => {
                let mut seg = VersionedPagepool::new(version);
                seg.pagepool.push(vector_id);
                let ghost gseg = seg;
                self.next = Some(Box::new(seg));
                proof {
                    assert(gseg.versions() =~= seq![version]);
                    assert(self.versions() =~= seq![head_version] + gseg.versions());
                    assert(self.versions() =~= old(self).versions().push(version));
                    assert(!old(self).has_version(version)) by {
                        assert(old(self).versions() =~= seq![head_version]);
                    }
                    assert(gseg.ids_of(version) =~= seq![vector_id]);
                    assert(old(self).ids_of(version) =~= Seq::<u32>::empty());
                    assert(self.ids_of(version) =~= gseg.ids_of(version));
                    assert forall|v: u32| v != version implies self.ids_of(v) == old(self).ids_of(
                        v,
                    ) by {
                        if v == head_version {
                            assert(self.ids_of(v) == self.pagepool.view());
                        } else {
                            assert(gseg.ids_of(v) =~= Seq::<u32>::empty());
                            assert(self.ids_of(v) == gseg.ids_of(v));
                            assert(old(self).ids_of(v) =~= Seq::<u32>::empty());
                        }
                    }
                    assert(self.all_ids() =~= old(self).all_ids() + gseg.all_ids());
                    assert(gseg.all_ids() =~= seq![vector_id]);
                    assert(self.wf()) by {
                        assert(gseg.wf());
                        assert(!gseg.versions().contains(head_version));
                    }
                }
            },
        }
    }
}

impl<const LEN: usize> VersionedPagepool<LEN> {
    /// Every id of the chain, flattened segment by segment.
    pub fn to_vec(&self) -> (r: Vec<u32>)
        requires
            self.wf(),
        ensures
            r@ == self.all_ids(),
        decreases *self,
    {
        let mut r = self.pagepool.to_vec();
        match &self.next {
            Some(n) => {
                let mut tail = n.to_vec();
                r.append(&mut tail);
                proof {
                    assert(r@ =~= self.all_ids());
                }
                r
            },
            None => r,
        }
    }
}

/// The first posting chain for `key` in a node's map.
pub open spec fn key_find<const LEN: usize>(
    s: Seq<(u8, VersionedPagepool<LEN>)>,
    key: u8,
) -> Option<VersionedPagepool<LEN>>
    decreases s.len(),
{
    if s.len() == 0 {
        None
    } else if s[0].0 == key {
        Some(s[0].1)
    } else {
        key_find(s.skip(1), key)
    }
}

/// Per-node data: the quantized-key to posting-pagepool map.
pub struct InvertedIndexNodeData<const LEN: usize> {
    pub map: Vec<(u8, VersionedPagepool<LEN>)>,
}

impl<const LEN: usize> InvertedIndexNodeData<LEN> {
    pub open spec fn wf(self) -> bool {
        &&& forall|i: int, j: int|
            0 <= i < j < self.map@.len() ==> (#[trigger] self.map@[i]).0 != (
            #[trigger] self.map@[j]).0
        &&& forall|i: int| 0 <= i < self.map@.len() ==> (#[trigger] self.map@[i]).1.wf()
    }

    pub open spec fn postings(self, key: u8) -> Option<VersionedPagepool<LEN>> {
        key_find(self.map@, key)
    }

    pub fn new() -> (r: Self)
        ensures
            r.wf(),
            r.map@.len() == 0,
            forall|key: u8| r.postings(key) is None,
    {
        InvertedIndexNodeData { map: Vec::new() }
    }
}

impl<const LEN: usize> InvertedIndexNodeData<LEN> {
    /// The posting chain stored under a quantized key, if any.
    pub fn lookup(&self, key: u8) -> (r: Option<&VersionedPagepool<LEN>>)
        ensures
            match r {
                Some(c) => self.postings(key) == Some(*c),
                None => self.postings(key) is None,
            },
    {
        let n = self.map.len();
        let mut i: usize = 0;
        while i < n
            invariant
                n == self.map@.len(),
                i <= n,
                forall|j: int| 0 <= j < i ==> (#[trigger] self.map@[j]).0 != key,
            decreases n - i,
        {
            if self.map[i].0 == key {
                proof {
                    lemma_key_find_at(self.map@, key, i as int);
                }
                return Some(&self.map[i].1);
            }
            i += 1;
        }
        proof {
            lemma_key_find_none(self.map@, key);
        }
        None
    }
}

/// One trie node of the sparse index.
pub struct InvertedIndexNode<const LEN: usize> {
    pub is_serialized: bool,
    pub is_dirty: bool,
    pub file_offset: u32,
    pub dim_index: u32,
    pub data: InvertedIndexNodeData<LEN>,
    pub children: Vec<Option<Box<InvertedIndexNode<LEN>>>>,
}

impl<const LEN: usize> InvertedIndexNode<LEN> {
    pub open spec fn wf(self) -> bool
        decreases self,
    {
        &&& self.children@.len() == 16
        &&& self.data.wf()
        &&& forall|i: int|
            0 <= i < 16 ==> match #[trigger] self.children@[i] {
                None => true,
                Some(c) => c.dim_index == self.dim_index + pow4(i) && c.wf(),
            }
    }

    pub open spec fn node_at(self, path: Seq<u8>) -> Option<InvertedIndexNode<LEN>>
        decreases path.len(),
    {
        if path.len() == 0 {
            Some(self)
        } else if path[0] >= 16 {
            None
        } else {
            match self.children@[path[0] as int] {
                None => None,
                Some(c) => c.node_at(path.skip(1)),
            }
        }
    }

    pub open spec fn has_path(self, path: Seq<u8>) -> bool {
        self.node_at(path) is Some
    }

    /// The posting chain a path and quantized key lead to.
    pub open spec fn postings_at(self, path: Seq<u8>, key: u8) -> Option<VersionedPagepool<LEN>> {
        match self.node_at(path) {
            None => None,
            Some(n) => n.data.postings(key),
        }
    }

    pub fn new(dim_index: u32, file_offset: u32) -> (r: Self)
        ensures
            r.wf(),
            r.dim_index == dim_index,
            r.file_offset == file_offset,
            r.data.map@.len() == 0,
            forall|p: Seq<u8>| r.has_path(p) ==> p =~= Seq::<u8>::empty(),
            r.node_at(Seq::empty()) == Some(r),
    {
        let mut children: Vec<Option<Box<InvertedIndexNode<LEN>>>> = Vec::new();
        let mut i: usize = 0;
        while i < 16
            invariant
                i <= 16,
                children@.len() == i,
                forall|j: int| 0 <= j < i ==> (#[trigger] children@[j]) is None,
            decreases 16 - i,
        {
            children.push(None);
            i += 1;
        }
        let r = InvertedIndexNode {
            is_serialized: false,
            is_dirty: true,
            file_offset,
            dim_index,
            data: InvertedIndexNodeData::new(),
            children,
        };
        proof {
            assert forall|p: Seq<u8>| r.has_path(p) implies p =~= Seq::<u8>::empty() by {
                if p.len() != 0 && p[0] < 16 {
                    assert(r.children@[p[0] as int] is None);
                }
            }
        }
        r
    }

    /// Descends the path, creating missing nodes, and pushes the id to
    /// the posting chain of `key` at the target, under `version`. Every
    /// other (path, key) posting chain stays as it was.
    pub fn insert(
        &mut self,
        path: &[u8],
        depth: usize,
        key: u8,
        vector_id: u32,
        version: u32,
        offset_counter: &mut u32,
        node_size: u32,
    )
        requires
            old(self).wf(),
            depth <= path@.len(),
            forall|i: int| 0 <= i < path@.len() ==> (#[trigger] path@[i]) < 16,
            old(self).dim_index + path_dim_sum(path@.skip(depth as int)) <= u32::MAX,
            LEN > 0,
        ensures
            final(self).wf(),
            final(self).dim_index == old(self).dim_index,
            final(self).file_offset == old(self).file_offset,
            final(self).has_path(path@.skip(depth as int)),
            forall|p: Seq<u8>| old(self).has_path(p) ==> final(self).has_path(p),
            forall|p: Seq<u8>, k: u8|
                p != path@.skip(depth as int) || k != key ==> #[trigger] final(self).postings_at(
                    p,
                    k,
                ) == old(self).postings_at(p, k),
            ({
                let target = path@.skip(depth as int);
                let updated = final(self).postings_at(target, key);
                &&& updated is Some
                &&& updated.unwrap().ids_of(version) == match old(self).postings_at(target, key) {
                    Some(c) => c.ids_of(version).push(vector_id),
                    None => seq![vector_id],
                }
                &&& forall|v: u32|
                    v != version ==> #[trigger] updated.unwrap().ids_of(v) == match old(
                        self,
                    ).postings_at(target, key) {
                        Some(c) => c.ids_of(v),
                        None => Seq::<u32>::empty(),
                    }
            }),
        decreases path@.len() - depth,
    {
        let ghost target = path@.skip(depth as int);
        if depth == path.len() {
            proof {
                assert(target =~= Seq::<u8>::empty());
            }
            self.insert_here(key, vector_id, version);
            proof {
                assert forall|p: Seq<u8>|
                    #[trigger] self.has_path(p) == old(self).has_path(p) by {
                    if p.len() > 0 {
                        lemma_sparse_same_children(*old(self), *self, p);
                    } else {
                        assert(self.node_at(p) == Some(*self));
                        assert(old(self).node_at(p) == Some(*old(self)));
                    }
                }
                assert forall|p: Seq<u8>, k: u8|
                    p != target || k != key implies #[trigger] self.postings_at(p, k) == old(
                    self,
                ).postings_at(p, k) by {
                    if p.len() > 0 {
                        lemma_sparse_same_children(*old(self), *self, p);
                    } else {
                        assert(p =~= target);
                        assert(k != key);
                        assert(self.node_at(p) == Some(*self));
                        assert(old(self).node_at(p) == Some(*old(self)));
                    }
                }
                assert(self.node_at(target) == Some(*self));
                assert(old(self).node_at(target) == Some(*old(self)));
            }
            return;
        }
        let c = path[depth];
        proof {
            assert(target[0] == c);
            assert(target.skip(1) =~= path@.skip(depth + 1));
            crate::path::lemma_path_dim_sum_nonneg(target.skip(1));
            assert(path_dim_sum(target) == pow4(c as int) + path_dim_sum(target.skip(1)));
        }
        let ghost created = self.children@[c as int] is None;
        let ghost pre = *self;
        if self.children[c as usize].is_none() {
            let new_dim = self.dim_index + crate::path::pow4_u32(c);
            let child = InvertedIndexNode::new(new_dim, *offset_counter);
            *offset_counter = offset_counter.wrapping_add(node_size);
            self.children[c as usize] = Some(Box::new(child));
            proof {
                assert(self.wf()) by {
                    assert forall|i: int|
                        0 <= i < 16 implies match #[trigger] self.children@[i] {
                        None => true,
                        Some(cc) => cc.dim_index == self.dim_index + pow4(i) && cc.wf(),
                    } by {
                        if i != c as int {
                            assert(self.children@[i] == old(self).children@[i]);
                        }
                    }
                }
            }
        }
        let ghost mid = *self;
        let child = match &mut self.children[c as usize] {
            Some(child) => child,
            None => {
                proof {
                    assert(false);
                }
                unreached()
            },
        };
        let ghost old_child = **child;
        proof {
            // what the slot held before the descent: the old child, or a
            // node fresh from `new` when the slot was empty
            if created {
                assert(old_child.data.map@.len() == 0);
                assert(forall|pp: Seq<u8>| old_child.has_path(pp) ==> pp =~= Seq::<u8>::empty());
            } else {
                assert(mid == pre);
            }
        }
        child.insert(path, depth + 1, key, vector_id, version, offset_counter, node_size);
        proof {
            lemma_sparse_child_update(mid, *self, c, old_child, **child);
            // paths not under slot c are as they were at entry
            assert forall|p: Seq<u8>|
                p.len() > 0 && p[0] != c implies mid.node_at(p) == old(self).node_at(p) by {
                lemma_sparse_same_other_slot(*old(self), mid, p, c as int);
            }
            // the old posting chain at the target
            assert(self.has_path(target)) by {
                assert(self.node_at(target) == (**child).node_at(target.skip(1)));
            }
            assert(self.postings_at(target, key) == (**child).postings_at(target.skip(1), key));
            assert(old(self).postings_at(target, key) == old_child.postings_at(
                target.skip(1),
                key,
            )) by {
                if created {
                    assert(old(self).node_at(target) is None);
                    if old_child.has_path(target.skip(1)) {
                        assert(target.skip(1) =~= Seq::<u8>::empty());
                        assert(old_child.node_at(target.skip(1)) == Some(old_child));
                        lemma_sparse_key_find_empty(old_child.data, key);
                    }
                } else {
                    assert(old(self).node_at(target) == old_child.node_at(target.skip(1)));
                }
            }
            // preservation of existing paths
            assert forall|p: Seq<u8>| old(self).has_path(p) implies self.has_path(p) by {
                if p.len() > 0 && p[0] == c {
                    assert(old(self).children@[c as int] is Some);
                    assert(mid.node_at(p) == old_child.node_at(p.skip(1)));
                    assert(old(self).node_at(p) == old_child.node_at(p.skip(1)));
                    assert(self.node_at(p) == (**child).node_at(p.skip(1)));
                    assert((**child).has_path(p.skip(1)) == old_child.has_path(p.skip(1)));
                } else if p.len() > 0 {
                    assert(mid.node_at(p) == old(self).node_at(p));
                    assert(self.node_at(p) == mid.node_at(p));
                }
            }
            // every other (path, key) is untouched
            assert forall|p: Seq<u8>, k: u8|
                p != target || k != key implies #[trigger] self.postings_at(p, k) == old(
                self,
            ).postings_at(p, k) by {
                if p.len() == 0 {
                    assert(self.node_at(p) == Some(*self));
                    assert(old(self).node_at(p) == Some(*old(self)));
                } else if p[0] == c {
                    assert(p.skip(1) != target.skip(1) || k != key) by {
                        if p.skip(1) == target.skip(1) && k == key {
                            assert(p =~= seq![c] + p.skip(1));
                            assert(target =~= seq![c] + target.skip(1));
                            assert(p =~= target);
                        }
                    }
                    assert(self.node_at(p) == (**child).node_at(p.skip(1)));
                    assert(mid.node_at(p) == old_child.node_at(p.skip(1)));
                    assert((**child).postings_at(p.skip(1), k) == old_child.postings_at(
                        p.skip(1),
                        k,
                    ));
                    assert(self.postings_at(p, k) == (**child).postings_at(p.skip(1), k));
                    assert(old(self).postings_at(p, k) == old_child.postings_at(p.skip(1), k))
                        by {
                        if created {
                            assert(old(self).node_at(p) is None);
                            if old_child.has_path(p.skip(1)) {
                                assert(p.skip(1) =~= Seq::<u8>::empty());
                                assert(old_child.node_at(p.skip(1)) == Some(old_child));
                                lemma_sparse_key_find_empty(old_child.data, k);
                            }
                        } else {
                            assert(old(self).node_at(p) == old_child.node_at(p.skip(1)));
                        }
                    }
                } else {
                    assert(mid.node_at(p) == old(self).node_at(p));
                    assert(self.node_at(p) == mid.node_at(p));
                }
            }
        }
    }

    /// The upsert into this node's own posting map.
    fn insert_here(&mut self, key: u8, vector_id: u32, version: u32)
        requires
            old(self).wf(),
            LEN > 0,
        ensures
            final(self).wf(),
            final(self).dim_index == old(self).dim_index,
            final(self).file_offset == old(self).file_offset,
            final(self).children == old(self).children,
            forall|k: u8|
                k != key ==> #[trigger] final(self).data.postings(k) == old(self).data.postings(k),
            ({
                let updated = final(self).data.postings(key);
                &&& updated is Some
                &&& updated.unwrap().ids_of(version) == match old(self).data.postings(key) {
                    Some(c) => c.ids_of(version).push(vector_id),
                    None => seq![vector_id],
                }
                &&& forall|v: u32|
                    v != version ==> #[trigger] updated.unwrap().ids_of(v) == match old(
                        self,
                    ).data.postings(key) {
                        Some(c) => c.ids_of(v),
                        None => Seq::<u32>::empty(),
                    }
            }),
    {
        let n = self.data.map.len();
        let ghost m0 = self.data.map@;
        let mut i: usize = 0;
        while i < n
            invariant
                old(self).wf(),
                LEN > 0,
                n == self.data.map@.len(),
                i <= n,
                *self == *old(self),
                m0 == self.data.map@,
                forall|j: int| 0 <= j < i ==> (#[trigger] m0[j]).0 != key,
            decreases n - i,
        {
            if self.data.map[i].0 == key {
                proof {
                    lemma_key_find_at(m0, key, i as int);
                }
                let entry = &mut self.data.map[i];
                entry.1.push(version, vector_id);
                proof {
                    let m1 = self.data.map@;
                    assert(m1[i as int].0 == key);
                    lemma_key_find_at(m1, key, i as int);
                    assert forall|k: u8| k != key implies #[trigger] self.data.postings(k) == old(
                        self,
                    ).data.postings(k) by {
                        lemma_key_find_change(m0, m1, k, i as int);
                    }
                    assert(self.data.wf()) by {
                        assert forall|a: int, b: int|
                            0 <= a < b < m1.len() implies (#[trigger] m1[a]).0 != (
                        #[trigger] m1[b]).0 by {
                            assert(m1[a].0 == m0[a].0 && m1[b].0 == m0[b].0);
                        }
                        assert forall|jj: int| 0 <= jj < m1.len() implies (
                        #[trigger] m1[jj]).1.wf() by {
                            if jj != i as int {
                                assert(m1[jj] == m0[jj]);
                            }
                        }
                    }
                }
                return;
            }
            i += 1;
        }
        proof {
            lemma_key_find_none(m0, key);
        }
        let mut chain = VersionedPagepool::new(version);
        chain.pagepool.push(vector_id);
        let ghost gchain = chain;
        self.data.map.push((key, chain));
        proof {
            let m1 = self.data.map@;
            assert(m1.drop_last() =~= m0);
            lemma_key_find_push(m0, key, m1.last().1);
            assert(gchain.ids_of(version) =~= seq![vector_id]);
            assert forall|v: u32| v != version implies #[trigger] gchain.ids_of(v) == Seq::<
                u32,
            >::empty() by {
                assert(gchain.ids_of(v) =~= Seq::<u32>::empty());
            }
            assert(self.data.wf()) by {
                assert forall|a: int, b: int|
                    0 <= a < b < m1.len() implies (#[trigger] m1[a]).0 != (#[trigger] m1[b]).0 by {
                    if b == m1.len() - 1 {
                        assert(m0[a].0 != key);
                    } else {
                        assert(m1[a] == m0[a] && m1[b] == m0[b]);
                    }
                }
                assert forall|jj: int| 0 <= jj < m1.len() implies (#[trigger] m1[jj]).1.wf() by {
                    if jj < m1.len() - 1 {
                        assert(m1[jj] == m0[jj]);
                    }
                }
            }
        }
    }
}

/// Two nodes with the same children agree on every non-empty path.
proof fn lemma_sparse_same_children<const LEN: usize>(
    a: InvertedIndexNode<LEN>,
    b: InvertedIndexNode<LEN>,
    p: Seq<u8>,
)
    requires
        a.children == b.children,
        p.len() > 0,
    ensures
        a.node_at(p) == b.node_at(p),
{
}

/// After replacing the child in slot `c`, paths into that slot go to
/// the new child and every other path is untouched.
proof fn lemma_sparse_child_update<const LEN: usize>(
    before: InvertedIndexNode<LEN>,
    after: InvertedIndexNode<LEN>,
    c: u8,
    old_child: InvertedIndexNode<LEN>,
    new_child: InvertedIndexNode<LEN>,
)
    requires
        c < 16,
        before.children@.len() == 16,
        after.children@.len() == 16,
        before.children@[c as int] == Some(Box::new(old_child)),
        after.children@[c as int] == Some(Box::new(new_child)),
        forall|i: int| 0 <= i < 16 && i != c ==> after.children@[i] == before.children@[i],
        after.dim_index == before.dim_index,
        after.data == before.data,
    ensures
        forall|p: Seq<u8>|
            p.len() > 0 && p[0] == c ==> #[trigger] after.node_at(p) == new_child.node_at(
                p.skip(1),
            ) && before.node_at(p) == old_child.node_at(p.skip(1)),
        forall|p: Seq<u8>|
            p.len() > 0 && p[0] != c ==> #[trigger] after.node_at(p) == before.node_at(p),
        after.node_at(Seq::empty()) == Some(after),
{
}

/// Two nodes that differ only in one child slot agree on every path
/// that starts elsewhere.
proof fn lemma_sparse_same_other_slot<const LEN: usize>(
    before: InvertedIndexNode<LEN>,
    mid: InvertedIndexNode<LEN>,
    p: Seq<u8>,
    c: int,
)
    requires
        before.children@.len() == 16,
        mid.children@.len() == 16,
        forall|i: int| 0 <= i < 16 && i != c ==> mid.children@[i] == before.children@[i],
        0 <= c < 16,
        p.len() > 0,
        p[0] != c,
    ensures
        mid.node_at(p) == before.node_at(p),
{
    if p[0] < 16 {
        assert(mid.children@[p[0] as int] == before.children@[p[0] as int]);
    }
}

/// An empty posting map answers no key.
proof fn lemma_sparse_key_find_empty<const LEN: usize>(d: InvertedIndexNodeData<LEN>, k: u8)
    requires
        d.map@.len() == 0,
    ensures
        d.postings(k) is None,
{
}

proof fn lemma_key_find_at<const LEN: usize>(s: Seq<(u8, VersionedPagepool<LEN>)>, key: u8, i: int)
    requires
        0 <= i < s.len(),
        s[i].0 == key,
        forall|j: int| 0 <= j < i ==> (#[trigger] s[j]).0 != key,
    ensures
        key_find(s, key) == Some(s[i].1),
    decreases i,
{
    if i > 0 {
        assert(s.skip(1)[i - 1] == s[i]);
        assert forall|j: int| 0 <= j < i - 1 implies (#[trigger] s.skip(1)[j]).0 != key by {
            assert(s.skip(1)[j] == s[j + 1]);
        }
        lemma_key_find_at(s.skip(1), key, i - 1);
    }
}

proof fn lemma_key_find_none<const LEN: usize>(s: Seq<(u8, VersionedPagepool<LEN>)>, key: u8)
    requires
        forall|j: int| 0 <= j < s.len() ==> (#[trigger] s[j]).0 != key,
    ensures
        key_find(s, key) is None,
    decreases s.len(),
{
    if s.len() > 0 {
        assert forall|j: int| 0 <= j < s.skip(1).len() implies (#[trigger] s.skip(1)[j]).0
            != key by {
            assert(s.skip(1)[j] == s[j + 1]);
        }
        lemma_key_find_none(s.skip(1), key);
    }
}

proof fn lemma_key_find_push<const LEN: usize>(
    s: Seq<(u8, VersionedPagepool<LEN>)>,
    key: u8,
    t: VersionedPagepool<LEN>,
)
    requires
        forall|j: int| 0 <= j < s.len() ==> (#[trigger] s[j]).0 != key,
    ensures
        key_find(s.push((key, t)), key) == Some(t),
        forall|k2: u8| k2 != key ==> #[trigger] key_find(s.push((key, t)), k2) == key_find(s, k2),
    decreases s.len(),
{
    if s.len() == 0 {
        assert(s.push((key, t))[0] == (key, t));
        assert forall|k2: u8|
            k2 != key implies #[trigger] key_find(s.push((key, t)), k2) == key_find(s, k2) by {
            assert(s.push((key, t)).skip(1) =~= s);
            assert(key_find(s.push((key, t)), k2) == key_find(s.push((key, t)).skip(1), k2));
        }
    } else {
        assert(s.push((key, t)).skip(1) =~= s.skip(1).push((key, t)));
        assert forall|j: int| 0 <= j < s.skip(1).len() implies (#[trigger] s.skip(1)[j]).0
            != key by {
            assert(s.skip(1)[j] == s[j + 1]);
        }
        lemma_key_find_push(s.skip(1), key, t);
        assert(s.push((key, t))[0] == s[0]);
        assert forall|k2: u8|
            k2 != key implies #[trigger] key_find(s.push((key, t)), k2) == key_find(s, k2) by {
            if s[0].0 == k2 {
                assert(key_find(s.push((key, t)), k2) == Some(s[0].1));
                assert(key_find(s, k2) == Some(s[0].1));
            } else {
                assert(key_find(s.push((key, t)), k2) == key_find(s.skip(1).push((key, t)), k2));
                assert(key_find(s, k2) == key_find(s.skip(1), k2));
            }
        }
    }
}

proof fn lemma_key_find_change<const LEN: usize>(
    a: Seq<(u8, VersionedPagepool<LEN>)>,
    b: Seq<(u8, VersionedPagepool<LEN>)>,
    k: u8,
    i: int,
)
    requires
        a.len() == b.len(),
        0 <= i < a.len(),
        forall|j: int| 0 <= j < a.len() && j != i ==> #[trigger] b[j] == a[j],
        b[i].0 == a[i].0,
        a[i].0 != k,
    ensures
        key_find(b, k) == key_find(a, k),
    decreases a.len(),
{
    if a.len() > 0 {
        if i == 0 {
            if a[0].0 == k {
            } else {
                assert(a.skip(1) =~= b.skip(1));
            }
        } else {
            assert(b[0] == a[0]);
            if a[0].0 == k {
            } else {
                assert forall|j: int|
                    0 <= j < a.skip(1).len() && j != i - 1 implies #[trigger] b.skip(1)[j]
                    == a.skip(1)[j] by {
                    assert(b.skip(1)[j] == b[j + 1] && a.skip(1)[j] == a[j + 1]);
                }
                assert(b.skip(1)[i - 1] == b[i] && a.skip(1)[i - 1] == a[i]);
                lemma_key_find_change(a.skip(1), b.skip(1), k, i - 1);
            }
        }
    }
}

/// A posting chain found in a well-formed map is well-formed.
pub proof fn lemma_postings_wf<const LEN: usize>(d: InvertedIndexNodeData<LEN>, key: u8)
    requires
        d.wf(),
        d.postings(key) is Some,
    ensures
        d.postings(key).unwrap().wf(),
{
    lemma_key_find_wf(d.map@, key);
}

proof fn lemma_key_find_wf<const LEN: usize>(s: Seq<(u8, VersionedPagepool<LEN>)>, key: u8)
    requires
        forall|i: int| 0 <= i < s.len() ==> (#[trigger] s[i]).1.wf(),
        key_find(s, key) is Some,
    ensures
        key_find(s, key).unwrap().wf(),
    decreases s.len(),
{
    if s.len() > 0 && s[0].0 != key {
        assert forall|i: int| 0 <= i < s.skip(1).len() implies (#[trigger] s.skip(1)[i]).1.wf() by {
            assert(s.skip(1)[i] == s[i + 1]);
        }
        lemma_key_find_wf(s.skip(1), key);
    }
}

/// The whole sparse inverted index trie.
pub struct InvertedIndexRoot<const LEN: usize> {
    pub root: InvertedIndexNode<LEN>,
    pub data_file_parts: u8,
    pub offset_counter: u32,
}

impl<const LEN: usize> InvertedIndexRoot<LEN> {
    pub open spec fn wf(self) -> bool {
        &&& self.root.wf()
        &&& self.root.dim_index == 0
    }

    /// The posting chain of a dimension and quantized value.
    pub open spec fn postings_of(self, dim: u32, key: u8) -> Option<VersionedPagepool<LEN>> {
        self.root.postings_at(spec_path(dim as int), key)
    }

    pub fn new(data_file_parts: u8) -> (r: Self)
        ensures
            r.wf(),
            r.data_file_parts == data_file_parts,
            forall|dim: u32, key: u8| #[trigger] r.postings_of(dim, key) is None,
    {
        let r = InvertedIndexRoot {
            root: InvertedIndexNode::new(0, 4),
            data_file_parts,
            offset_counter: 4,
        };
        proof {
            assert forall|dim: u32, key: u8| #[trigger] r.postings_of(dim, key) is None by {
                let p = spec_path(dim as int);
                if r.root.has_path(p) {
                    assert(p =~= Seq::<u8>::empty());
                    assert(r.root.node_at(p) == Some(r.root));
                }
            }
        }
        r
    }

    /// Finds the node of a dimension, if present; its dimension index
    /// is exactly the one asked for.
    pub fn find_node(&self, dim_index: u32) -> (r: Option<&InvertedIndexNode<LEN>>)
        requires
            self.wf(),
        ensures
            r is Some <==> self.root.has_path(spec_path(dim_index as int)),
            r is Some ==> *r.unwrap() == self.root.node_at(spec_path(dim_index as int)).unwrap()
                && r.unwrap().dim_index == dim_index && r.unwrap().wf(),
    {
        let path = calculate_path(dim_index, 0);
        let mut current_node = &self.root;
        let mut i: usize = 0;
        let ghost p = path@;
        proof {
            assert(p.skip(0) =~= p);
            assert(p.take(0) =~= Seq::<u8>::empty());
        }
        while i < path.len()
            invariant
                self.wf(),
                i <= p.len(),
                p == path@,
                p == spec_path(dim_index as int),
                path_dim_sum(p) == dim_index,
                forall|j: int| 0 <= j < p.len() ==> (#[trigger] p[j]) < 16,
                current_node.wf(),
                Some(*current_node) == self.root.node_at(p.take(i as int)),
                current_node.dim_index as int == path_dim_sum(p.take(i as int)),
                self.root.node_at(p) == current_node.node_at(p.skip(i as int)),
            decreases p.len() - i,
        {
            let c = path[i];
            proof {
                assert(p.skip(i as int)[0] == c);
            }
            match &current_node.children[c as usize] {
                Some(child) => {
                    proof {
                        assert(p.take((i + 1) as int).drop_last() =~= p.take(i as int));
                        lemma_sparse_node_at_extend(self.root, p, i as int, *current_node, **child);
                        crate::path::lemma_path_sum_take_succ(p, i as int);
                        assert(p.skip(i as int).skip(1) =~= p.skip((i + 1) as int));
                    }
                    current_node = child;
                },
                None => {
                    proof {
                        assert(current_node.node_at(p.skip(i as int)) is None);
                    }
                    return None;
                },
            }
            i += 1;
        }
        proof {
            assert(p.take(p.len() as int) =~= p);
            assert(p.skip(p.len() as int) =~= Seq::<u8>::empty());
            crate::path::lemma_path_dim_sum_nonneg(p);
        }
        Some(current_node)
    }

    /// Inserts one `(dimension, quantized value)` posting of a vector.
    pub fn insert(&mut self, dim_index: u32, key: u8, vector_id: u32, version: u32)
        requires
            old(self).wf(),
            dim_index <= 0xFFFF_FFFF,
            LEN > 0,
        ensures
            final(self).wf(),
            final(self).data_file_parts == old(self).data_file_parts,
            ({
                let updated = final(self).postings_of(dim_index, key);
                &&& updated is Some
                &&& updated.unwrap().ids_of(version) == match old(self).postings_of(
                    dim_index,
                    key,
                ) {
                    Some(c) => c.ids_of(version).push(vector_id),
                    None => seq![vector_id],
                }
                &&& forall|v: u32|
                    v != version ==> #[trigger] updated.unwrap().ids_of(v) == match old(
                        self,
                    ).postings_of(dim_index, key) {
                        Some(c) => c.ids_of(v),
                        None => Seq::<u32>::empty(),
                    }
            }),
            forall|d: u32, k: u8|
                d != dim_index || k != key ==> #[trigger] final(self).postings_of(d, k) == old(
                    self,
                ).postings_of(d, k),
    {
        let path = calculate_path(dim_index, 0);
        let node_size: u32 = 2134;
        let mut counter = self.offset_counter;
        proof {
            assert(path@.skip(0) =~= path@);
        }
        self.root.insert(path.as_slice(), 0, key, vector_id, version, &mut counter, node_size);
        self.offset_counter = counter;
        proof {
            assert(path@.skip(0) =~= path@);
            assert forall|d: u32, k: u8|
                d != dim_index || k != key implies #[trigger] self.postings_of(d, k) == old(
                self,
            ).postings_of(d, k) by {
                if d != dim_index {
                    crate::path::lemma_spec_path_sum(d as int);
                    crate::path::lemma_spec_path_sum(dim_index as int);
                    assert(spec_path(d as int) != spec_path(dim_index as int)) by {
                        if spec_path(d as int) == spec_path(dim_index as int) {
                            assert(path_dim_sum(spec_path(d as int)) == d);
                            assert(path_dim_sum(spec_path(dim_index as int)) == dim_index);
                        }
                    }
                }
            }
        }
    }
}

/// Walking one existing child extends the path walked so far.
proof fn lemma_sparse_node_at_extend<const LEN: usize>(
    root: InvertedIndexNode<LEN>,
    p: Seq<u8>,
    i: int,
    current: InvertedIndexNode<LEN>,
    child: InvertedIndexNode<LEN>,
)
    requires
        0 <= i < p.len(),
        p[i] < 16,
        root.node_at(p.take(i)) == Some(current),
        current.children@.len() == 16,
        current.children@[p[i] as int] == Some(Box::new(child)),
    ensures
        root.node_at(p.take(i + 1)) == Some(child),
{
    lemma_sparse_node_at_snoc(root, p.take(i + 1));
    assert(p.take(i + 1).drop_last() =~= p.take(i));
    assert(p.take(i + 1).last() == p[i]);
}

proof fn lemma_sparse_node_at_snoc<const LEN: usize>(root: InvertedIndexNode<LEN>, p: Seq<u8>)
    requires
        p.len() > 0,
    ensures
        root.node_at(p) == match root.node_at(p.drop_last()) {
            None => None::<InvertedIndexNode<LEN>>,
            Some(n) => if p.last() < 16 {
                match n.children@[p.last() as int] {
                    None => None::<InvertedIndexNode<LEN>>,
                    Some(c) => Some(*c),
                }
            } else {
                None::<InvertedIndexNode<LEN>>
            },
        },
    decreases p.len(),
{
    if p.len() == 1 {
        assert(p.drop_last() =~= Seq::<u8>::empty());
        assert(root.node_at(p.drop_last()) == Some(root));
        if p[0] < 16 {
            match root.children@[p[0] as int] {
                None => {
                    assert(root.node_at(p) is None);
                },
                Some(c) => {
                    assert(p.skip(1) =~= Seq::<u8>::empty());
                    assert(c.node_at(p.skip(1)) == Some(*c));
                    assert(root.node_at(p) == Some(*c));
                    assert(p.last() == p[0]);
                },
            }
        } else {
            assert(root.node_at(p) is None);
        }
    } else {
        if p[0] < 16 {
            match root.children@[p[0] as int] {
                None => {
                    assert(p.drop_last()[0] == p[0]);
                    assert(root.node_at(p) is None);
                    assert(root.node_at(p.drop_last()) is None);
                },
                Some(c) => {
                    lemma_sparse_node_at_snoc(*c, p.skip(1));
                    assert(p.skip(1).drop_last() =~= p.drop_last().skip(1));
                    assert(p.skip(1).last() == p.last());
                    assert(p.drop_last()[0] == p[0]);
                    assert(p.drop_last().len() > 0);
                    assert(root.node_at(p) == c.node_at(p.skip(1)));
                    assert(root.node_at(p.drop_last()) == c.node_at(p.drop_last().skip(1)));
                },
            }
        } else {
            assert(p.drop_last()[0] == p[0]);
            assert(root.node_at(p) is None);
            assert(root.node_at(p.drop_last()) is None);
        }
    }
}

} // verus!
