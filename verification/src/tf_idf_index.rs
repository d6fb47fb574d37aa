//! The TF-IDF index: a 16-way radix trie over the lower 16 bits of each
//! term hash; each node maps the hash's upper 16 bits (the quotient) to
//! a `TermInfo`, whose versioned list of `(document_id, term_frequency)`
//! pairs stays ordered by document id within each version segment.

use crate::path::{calculate_path, lemma_path_dim_sum_nonneg, lemma_path_sum_take_succ, lemma_spec_path_sum, path_dim_sum, pow4, spec_path};
use crate::versioned_vec::{
    sorted_by_doc, spec_insert_sorted, DocEntry, VersionedVec,
};
use vstd::prelude::*;

verus! {

/// Term quotient: the upper 16 bits of a term hash.
pub type TermQuotient = u16;

/// A term's posting data: the versioned document list and the stable
/// position of the term in its node's serialized order.
pub struct TermInfo {
    pub documents: VersionedVec<DocEntry>,
    pub sequence_idx: u16,
}

impl TermInfo {
    pub fn new(sequence_idx: u16, version: u32) -> (r: Self)
        ensures
            r.sequence_idx == sequence_idx,
            r.documents.wf(),
            r.documents.version == version,
            r.documents.versions() == seq![version],
            r.documents.all_items() == Seq::<DocEntry>::empty(),
    {
        TermInfo { documents: VersionedVec::new(version), sequence_idx }
    }
}

/// The first entry for `q` in a quotient association list.
pub open spec fn assoc_find(s: Seq<(TermQuotient, TermInfo)>, q: TermQuotient) -> Option<TermInfo>
    decreases s.len(),
{
    if s.len() == 0 {
        None
    } else if s[0].0 == q {
        Some(s[0].1)
    } else {
        assoc_find(s.skip(1), q)
    }
}

/// Per-node term map: quotient to `TermInfo`, with a counter feeding
/// fresh sequence indexes and the count already serialized.
pub struct TFIDFIndexNodeData {
    pub map: Vec<(TermQuotient, TermInfo)>,
    pub map_len: u16,
    pub num_entries_serialized: u16,
}

impl TFIDFIndexNodeData {
    /// Distinct quotients, a consistent counter, well-formed sorted
    /// chains.
    pub open spec fn wf(self) -> bool {
        &&& forall|i: int, j: int|
            0 <= i < j < self.map@.len() ==> (#[trigger] self.map@[i]).0 != (
            #[trigger] self.map@[j]).0
        &&& self.map@.len() == self.map_len
        &&& forall|i: int|
            0 <= i < self.map@.len() ==> (#[trigger] self.map@[i]).1.documents.wf()
        &&& forall|i: int, v: u32|
            0 <= i < self.map@.len() ==> sorted_by_doc(
                #[trigger] self.map@[i].1.documents.items_of(v),
            )
    }

    pub open spec fn term(self, q: TermQuotient) -> Option<TermInfo> {
        assoc_find(self.map@, q)
    }

    pub fn new() -> (r: Self)
        ensures
            r.wf(),
            r.map@.len() == 0,
            forall|q: TermQuotient| r.term(q) is None,
    {
        TFIDFIndexNodeData { map: Vec::new(), map_len: 0, num_entries_serialized: 0 }
    }
}

impl Default for TFIDFIndexNodeData {
    fn default() -> (r: Self)
        ensures
            r.wf(),
            r.map@.len() == 0,
            forall|q: TermQuotient| r.term(q) is None,
    {
        TFIDFIndexNodeData::new()
    }
}

impl TFIDFIndexNodeData {
    /// The term stored under a quotient, if any.
    pub fn lookup(&self, q: TermQuotient) -> (r: Option<&TermInfo>)
        ensures
            match r {
                Some(t) => self.term(q) == Some(*t),
                None => self.term(q) is None,
            },
    {
        let n = self.map.len();
        let mut i: usize = 0;
        while i < n
            invariant
                n == self.map@.len(),
                i <= n,
                forall|j: int| 0 <= j < i ==> (#[trigger] self.map@[j]).0 != q,
            decreases n - i,
        {
            if self.map[i].0 == q {
                proof {
                    lemma_assoc_find_at(self.map@, q, i as int);
                }
                return Some(&self.map[i].1);
            }
            i += 1;
        }
        proof {
            lemma_assoc_find_none(self.map@, q);
        }
        None
    }
}

/// A term found in a well-formed map has a well-formed document chain.
pub proof fn lemma_term_wf(d: TFIDFIndexNodeData, q: TermQuotient)
    requires
        d.wf(),
        d.term(q) is Some,
    ensures
        d.term(q).unwrap().documents.wf(),
{
    lemma_assoc_find_wf(d.map@, q);
}

proof fn lemma_assoc_find_wf(s: Seq<(TermQuotient, TermInfo)>, q: TermQuotient)
    requires
        forall|i: int| 0 <= i < s.len() ==> (#[trigger] s[i]).1.documents.wf(),
        assoc_find(s, q) is Some,
    ensures
        assoc_find(s, q).unwrap().documents.wf(),
    decreases s.len(),
{
    if s.len() > 0 && s[0].0 != q {
        assert forall|i: int| 0 <= i < s.skip(1).len() implies (
        #[trigger] s.skip(1)[i]).1.documents.wf() by {
            assert(s.skip(1)[i] == s[i + 1]);
        }
        lemma_assoc_find_wf(s.skip(1), q);
    }
}

/// One trie node: its dimension index, its slot in the dimension file,
/// dirty-tracking flags, the term map, and sixteen child slots.
pub struct TFIDFIndexNode {
    pub is_serialized: bool,
    pub is_dirty: bool,
    pub file_offset: u32,
    pub dim_index: u32,
    pub data: TFIDFIndexNodeData,
    pub children: Vec<Option<Box<TFIDFIndexNode>>>,
}

impl TFIDFIndexNode {
    /// Sixteen child slots; a child at slot `e` sits at dimension
    /// `dim_index + 4^e`; all data well-formed.
    pub open spec fn wf(self) -> bool
        decreases self,
    {
        &&& self.children@.len() == 16
        &&& self.data.wf()
        &&& forall|i: int|
            0 <= i < 16 ==> match #[trigger] self.children@[i] {
                None => true,
                Some(c) => c.dim_index == self.dim_index + pow4(i) && c.wf(),
            }
    }

    /// The node a child path leads to.
    pub open spec fn node_at(self, path: Seq<u8>) -> Option<TFIDFIndexNode>
        decreases path.len(),
    {
        if path.len() == 0 {
            Some(self)
        } else if path[0] >= 16 {
            None
        } else {
            match self.children@[path[0] as int] {
                None => None,
                Some(c) => c.node_at(path.skip(1)),
            }
        }
    }

    pub open spec fn has_path(self, path: Seq<u8>) -> bool {
        self.node_at(path) is Some
    }

    /// How many nodes along the path do not exist yet: every node from
    /// the first missing child down is created by `find_or_create_node`.
    pub open spec fn missing_on_path(self, path: Seq<u8>) -> int
        decreases path.len(),
    {
        if path.len() == 0 {
            0
        } else if path[0] >= 16 {
            0
        } else {
            match self.children@[path[0] as int] {
                None => path.len() as int,
                Some(c) => c.missing_on_path(path.skip(1)),
            }
        }
    }

    /// The term data a path and quotient lead to.
    pub open spec fn term_at(self, path: Seq<u8>, q: TermQuotient) -> Option<TermInfo> {
        match self.node_at(path) {
            None => None,
            Some(n) => n.data.term(q),
        }
    }

    pub fn new(dim_index: u32, file_offset: u32) -> (r: Self)
        ensures
            r.wf(),
            r.dim_index == dim_index,
            r.file_offset == file_offset,
            r.data.map@.len() == 0,
            forall|p: Seq<u8>| r.has_path(p) ==> p =~= Seq::<u8>::empty(),
            r.node_at(Seq::empty()) == Some(r),
    {
        let mut children: Vec<Option<Box<TFIDFIndexNode>>> = Vec::new();
        let mut i: usize = 0;
        while i < 16
            invariant
                i <= 16,
                children@.len() == i,
                forall|j: int| 0 <= j < i ==> (#[trigger] children@[j]) is None,
            decreases 16 - i,
        {
            children.push(None);
            i += 1;
        }
        let r = TFIDFIndexNode {
            is_serialized: false,
            is_dirty: true,
            file_offset,
            dim_index,
            data: TFIDFIndexNodeData::new(),
            children,
        };
        proof {
            assert forall|p: Seq<u8>| r.has_path(p) implies p =~= Seq::<u8>::empty() by {
                if p.len() != 0 && p[0] < 16 {
                    assert(r.children@[p[0] as int] is None);
                }
            }
        }
        r
    }

    /// Walks the path, creating any missing node with a fresh slot from
    /// the offset counter. Existing nodes, their data and every other
    /// path are untouched; created nodes start with an empty term map.
    pub fn find_or_create_node(
        &mut self,
        path: &[u8],
        depth: usize,
        offset_counter: &mut u32,
        node_size: u32,
    )
        requires
            old(self).wf(),
            depth <= path@.len(),
            forall|i: int| 0 <= i < path@.len() ==> (#[trigger] path@[i]) < 16,
            old(self).dim_index + path_dim_sum(path@.skip(depth as int)) <= u32::MAX,
        ensures
            final(self).wf(),
            final(self).dim_index == old(self).dim_index,
            final(self).file_offset == old(self).file_offset,
            final(self).has_path(path@.skip(depth as int)),
            old(self).has_path(path@.skip(depth as int)) ==> *final(offset_counter) == *old(
                offset_counter,
            ),
            *final(offset_counter) as int == (*old(offset_counter) + node_size * old(
                self,
            ).missing_on_path(path@.skip(depth as int))) % 0x1_0000_0000,
            forall|p: Seq<u8>|
                old(self).has_path(p) ==> final(self).has_path(p) && (
                #[trigger] final(self).node_at(p)).unwrap().data == old(self).node_at(
                    p,
                ).unwrap().data && final(self).node_at(p).unwrap().dim_index == old(
                    self,
                ).node_at(p).unwrap().dim_index,
            forall|p: Seq<u8>| final(self).has_path(p) ==> old(self).has_path(p) || (
            #[trigger] final(self).node_at(p)).unwrap().data.map@.len() == 0,
        decreases path@.len() - depth,
    {
        if depth == path.len() {
            proof {
                assert(path@.skip(depth as int) =~= Seq::<u8>::empty());
                let cnow = *offset_counter as int;
                assert(cnow % 0x1_0000_0000 == cnow) by (nonlinear_arith)
                    requires
                        0 <= cnow,
                        cnow < 0x1_0000_0000,
                ;
            }
            return;
        }
        let c = path[depth];
        let ghost tail = path@.skip(depth as int);
        let ghost counter0 = *offset_counter;
        proof {
            assert(tail[0] == c);
            assert(tail.skip(1) =~= path@.skip(depth + 1));
            lemma_path_dim_sum_nonneg(tail.skip(1));
            assert(path_dim_sum(tail) == pow4(c as int) + path_dim_sum(tail.skip(1)));
        }
        let ghost was_missing = self.children@[c as int] is None;
        if self.children[c as usize].is_none() {
            let new_dim = self.dim_index + pow4_checked(c);
            let child = TFIDFIndexNode::new(new_dim, *offset_counter);
            *offset_counter = offset_counter.wrapping_add(node_size);
            self.children[c as usize] = Some(Box::new(child));
            proof {
                assert(child.missing_on_path(tail.skip(1)) == tail.skip(1).len()) by {
                    if tail.skip(1).len() > 0 {
                        let c2 = tail.skip(1)[0];
                        if c2 < 16 && child.children@[c2 as int] is Some {
                            assert(child.has_path(seq![c2])) by {
                                let ch = child.children@[c2 as int].unwrap();
                                assert(seq![c2].skip(1) =~= Seq::<u8>::empty());
                                assert(child.node_at(seq![c2]) == ch.node_at(Seq::empty()));
                            }
                            assert(false);
                        }
                    }
                }
                assert(self.wf()) by {
                    assert forall|i: int|
                        0 <= i < 16 implies match #[trigger] self.children@[i] {
                        None => true,
                        Some(cc) => cc.dim_index == self.dim_index + pow4(i) && cc.wf(),
                    } by {
                        if i != c as int {
                            assert(self.children@[i] == old(self).children@[i]);
                        }
                    }
                }
            }
        }
        let ghost mid = *self;
        let child = match &mut self.children[c as usize] {
            Some(child) => child,
            None => {
                proof {
                    assert(false);
                }
                unreached()
            },
        };
        let ghost old_child = **child;
        let ghost counter_mid = *offset_counter;
        child.find_or_create_node(path, depth + 1, offset_counter, node_size);
        proof {
            lemma_paths_after_child_update(mid, *self, c, old_child, **child);
            assert(tail.skip(1) =~= path@.skip(depth + 1));
            assert(self.has_path(tail)) by {
                assert(self.node_at(tail) == (**child).node_at(tail.skip(1)));
            }
            assert forall|p: Seq<u8>| old(self).has_path(p) implies final(self).has_path(p) && (
            #[trigger] final(self).node_at(p)).unwrap().data == old(self).node_at(p).unwrap().data
                && final(self).node_at(p).unwrap().dim_index == old(self).node_at(
                p,
            ).unwrap().dim_index by {
                lemma_paths_preserved_creation(*old(self), mid, p, c as int);
            }
            let k = old(self).missing_on_path(tail);
            if was_missing {
                assert(k == tail.len());
                assert(old_child.missing_on_path(tail.skip(1)) == k - 1);
                assert(counter_mid as int == (counter0 + node_size) % 0x1_0000_0000);
                assert(*final(offset_counter) as int == (counter_mid + node_size * (k - 1))
                    % 0x1_0000_0000);
                vstd::arithmetic::div_mod::lemma_add_mod_noop(
                    counter0 + node_size as int,
                    node_size * (k - 1),
                    0x1_0000_0000,
                );
                assert(node_size as int + node_size * (k - 1) == node_size * k)
                    by (nonlinear_arith);
                assert(*final(offset_counter) as int == (counter0 + node_size * k)
                    % 0x1_0000_0000);
            } else {
                assert(k == old_child.missing_on_path(tail.skip(1)));
                assert(counter_mid == counter0);
                assert(counter0 == *old(offset_counter));
            }
        }
    }

    /// Upserts `(document_id, value)` for `quotient` at the node the
    /// path leads to: an existing term gets a sorted insert into its
    /// version segment, a new term enters with the next sequence index.
    pub fn insert(
        &mut self,
        path: &[u8],
        depth: usize,
        quotient: TermQuotient,
        value: u32,
        document_id: u32,
        version: u32,
    )
        requires
            old(self).wf(),
            depth <= path@.len(),
            old(self).has_path(path@.skip(depth as int)),
            forall|i: int| 0 <= i < path@.len() ==> (#[trigger] path@[i]) < 16,
            old(self).node_at(path@.skip(depth as int)).unwrap().data.map@.len() < u16::MAX,
        ensures
            final(self).wf(),
            final(self).dim_index == old(self).dim_index,
            forall|p: Seq<u8>|
                #[trigger] final(self).has_path(p) == old(self).has_path(p),
            forall|p: Seq<u8>|
                final(self).has_path(p) ==> (#[trigger] final(self).node_at(p)).unwrap().dim_index
                    == old(self).node_at(p).unwrap().dim_index,
            forall|p: Seq<u8>|
                p != path@.skip(depth as int) && final(self).has_path(p) ==> (
                #[trigger] final(self).node_at(p)).unwrap().data == old(self).node_at(
                    p,
                ).unwrap().data,
            final(self).node_at(path@.skip(depth as int)).unwrap().data.map@.len() <= old(
                self,
            ).node_at(path@.skip(depth as int)).unwrap().data.map@.len() + 1,
            forall|p: Seq<u8>, q: TermQuotient|
                p != path@.skip(depth as int) || q != quotient ==> #[trigger] final(self).term_at(
                    p,
                    q,
                ) == old(self).term_at(p, q),
            ({
                let target = path@.skip(depth as int);
                let updated = final(self).term_at(target, quotient);
                match old(self).term_at(target, quotient) {
                    Some(t) => updated is Some && updated.unwrap().sequence_idx == t.sequence_idx
                        && updated.unwrap().documents.items_of(version) == spec_insert_sorted(
                        t.documents.items_of(version),
                        (document_id, value),
                    ) && forall|v: u32|
                        v != version ==> #[trigger] updated.unwrap().documents.items_of(v)
                            == t.documents.items_of(v),
                    None => updated is Some && updated.unwrap().documents.items_of(version)
                        == seq![(document_id, value)] && updated.unwrap().sequence_idx == old(
                        self,
                    ).node_at(target).unwrap().data.map_len,
                }
            }),
        decreases path@.len() - depth,
    {
        let ghost target = path@.skip(depth as int);
        if depth == path.len() {
            proof {
                assert(target =~= Seq::<u8>::empty());
            }
            self.insert_here(quotient, value, document_id, version);
            proof {
                assert forall|p: Seq<u8>|
                    #[trigger] self.has_path(p) == old(self).has_path(p) by {
                    if p.len() > 0 {
                        lemma_node_at_same_children(*old(self), *self, p);
                    } else {
                        assert(self.node_at(p) == Some(*self));
                        assert(old(self).node_at(p) == Some(*old(self)));
                    }
                }
                assert forall|p: Seq<u8>, q: TermQuotient|
                    p != target || q != quotient implies #[trigger] self.term_at(p, q) == old(
                    self,
                ).term_at(p, q) by {
                    if p.len() > 0 {
                        lemma_node_at_same_children(*old(self), *self, p);
                    } else {
                        assert(p =~= target);
                        assert(q != quotient);
                        assert(self.node_at(p) == Some(*self));
                        assert(old(self).node_at(p) == Some(*old(self)));
                    }
                }
                assert forall|p: Seq<u8>|
                    self.has_path(p) implies (#[trigger] self.node_at(p)).unwrap().dim_index
                    == old(self).node_at(p).unwrap().dim_index by {
                    if p.len() > 0 {
                        lemma_node_at_same_children(*old(self), *self, p);
                    } else {
                        assert(self.node_at(p) == Some(*self));
                        assert(old(self).node_at(p) == Some(*old(self)));
                    }
                }
                assert forall|p: Seq<u8>|
                    p != target && self.has_path(p) implies (
                #[trigger] self.node_at(p)).unwrap().data == old(self).node_at(
                    p,
                ).unwrap().data by {
                    if p.len() > 0 {
                        lemma_node_at_same_children(*old(self), *self, p);
                    } else {
                        assert(p =~= target);
                    }
                }
                assert(self.node_at(target) == Some(*self));
            }
            return;
        }
        let c = path[depth];
        let ghost mid = *self;
        let child = match &mut self.children[c as usize] {
            Some(child) => child,
            None => {
                proof {
                    assert(old(self).node_at(target) is None);
                    assert(false);
                }
                unreached()
            },
        };
        let ghost old_child = **child;
        proof {
            assert(target.skip(1) =~= path@.skip(depth + 1));
            assert(old_child.node_at(target.skip(1)) == old(self).node_at(target));
        }
        child.insert(path, depth + 1, quotient, value, document_id, version);
        proof {
            assert(path@[depth as int] < 16);
            lemma_paths_after_child_update(mid, *self, c, old_child, **child);
            assert forall|p: Seq<u8>|
                #[trigger] self.has_path(p) == old(self).has_path(p) by {
                if p.len() > 0 && p[0] == c {
                    assert(self.node_at(p) == (**child).node_at(p.skip(1)));
                    assert(old(self).node_at(p) == old_child.node_at(p.skip(1)));
                    assert((**child).has_path(p.skip(1)) == old_child.has_path(p.skip(1)));
                } else if p.len() > 0 {
                    assert(self.node_at(p) == old(self).node_at(p));
                }
            }
            assert forall|p: Seq<u8>, q: TermQuotient|
                p != target || q != quotient implies #[trigger] self.term_at(p, q) == old(
                self,
            ).term_at(p, q) by {
                if p.len() == 0 {
                } else if p[0] == c {
                    assert(target[0] == c);
                    assert(p.skip(1) != target.skip(1) || q != quotient) by {
                        if p.skip(1) == target.skip(1) && q == quotient {
                            assert(p =~= seq![c] + p.skip(1));
                            assert(target =~= seq![c] + target.skip(1));
                            assert(p =~= target);
                        }
                    }
                    assert(self.node_at(p) == (**child).node_at(p.skip(1)));
                    assert(old(self).node_at(p) == old_child.node_at(p.skip(1)));
                    assert((**child).term_at(p.skip(1), q) == old_child.term_at(p.skip(1), q));
                    assert(self.term_at(p, q) == (**child).term_at(p.skip(1), q));
                    assert(old(self).term_at(p, q) == old_child.term_at(p.skip(1), q));
                } else {
                    assert(self.node_at(p) == old(self).node_at(p));
                }
            }
            assert(self.node_at(target) == (**child).node_at(target.skip(1)));
            assert(self.term_at(target, quotient) == (**child).term_at(target.skip(1), quotient));
            assert(old(self).term_at(target, quotient) == old_child.term_at(
                target.skip(1),
                quotient,
            ));
            assert forall|p: Seq<u8>|
                self.has_path(p) implies (#[trigger] self.node_at(p)).unwrap().dim_index == old(
                self,
            ).node_at(p).unwrap().dim_index by {
                if p.len() > 0 && p[0] == c {
                    assert(self.node_at(p) == (**child).node_at(p.skip(1)));
                    assert(old(self).node_at(p) == old_child.node_at(p.skip(1)));
                    assert((**child).has_path(p.skip(1)) == old_child.has_path(p.skip(1)));
                    assert((**child).has_path(p.skip(1)));
                    assert((**child).node_at(p.skip(1)).unwrap().dim_index == old_child.node_at(
                        p.skip(1),
                    ).unwrap().dim_index);
                } else if p.len() > 0 {
                    assert(self.node_at(p) == old(self).node_at(p));
                }
            }
            assert forall|p: Seq<u8>|
                p != target && self.has_path(p) implies (
            #[trigger] self.node_at(p)).unwrap().data == old(self).node_at(p).unwrap().data by {
                if p.len() == 0 {
                } else if p[0] == c {
                    assert(p.skip(1) != target.skip(1)) by {
                        if p.skip(1) == target.skip(1) {
                            assert(p =~= seq![c] + p.skip(1));
                            assert(target =~= seq![c] + target.skip(1));
                            assert(p =~= target);
                        }
                    }
                    assert(self.node_at(p) == (**child).node_at(p.skip(1)));
                    assert(old(self).node_at(p) == old_child.node_at(p.skip(1)));
                } else {
                    assert(self.node_at(p) == old(self).node_at(p));
                }
            }
            assert(self.node_at(target).unwrap().data.map@.len() <= old(self).node_at(
                target,
            ).unwrap().data.map@.len() + 1) by {
                assert(self.node_at(target) == (**child).node_at(target.skip(1)));
                assert(old(self).node_at(target) == old_child.node_at(target.skip(1)));
            }
        }
    }

    /// The upsert into this node's own term map.
    fn insert_here(
        &mut self,
        quotient: TermQuotient,
        value: u32,
        document_id: u32,
        version: u32,
    )
        requires
            old(self).wf(),
            old(self).data.map@.len() < u16::MAX,
        ensures
            final(self).wf(),
            final(self).dim_index == old(self).dim_index,
            final(self).file_offset == old(self).file_offset,
            final(self).children == old(self).children,
            final(self).is_dirty,
            final(self).data.map_len == if old(self).data.term(quotient) is Some {
                old(self).data.map_len as int
            } else {
                old(self).data.map_len + 1
            },
            forall|q: TermQuotient|
                q != quotient ==> #[trigger] final(self).data.term(q) == old(self).data.term(q),
            ({
                let updated = final(self).data.term(quotient);
                match old(self).data.term(quotient) {
                    Some(t) => updated is Some && updated.unwrap().sequence_idx == t.sequence_idx
                        && updated.unwrap().documents.items_of(version) == spec_insert_sorted(
                        t.documents.items_of(version),
                        (document_id, value),
                    ) && forall|v: u32|
                        v != version ==> #[trigger] updated.unwrap().documents.items_of(v)
                            == t.documents.items_of(v),
                    None => updated is Some && updated.unwrap().documents.items_of(version)
                        == seq![(document_id, value)] && updated.unwrap().sequence_idx == old(
                        self,
                    ).data.map_len,
                }
            }),
    {
        let n = self.data.map.len();
        let ghost m0 = self.data.map@;
        let mut i: usize = 0;
        while i < n
            invariant
                old(self).wf(),
                old(self).data.map@.len() < u16::MAX,
                n == self.data.map@.len(),
                i <= n,
                *self == *old(self),
                m0 == self.data.map@,
                forall|j: int| 0 <= j < i ==> (#[trigger] m0[j]).0 != quotient,
            decreases n - i,
        {
            if self.data.map[i].0 == quotient {
                let ghost old_term = m0[i as int].1;
                proof {
                    lemma_assoc_find_at(m0, quotient, i as int);
                    assert(old(self).data.wf());
                    assert(m0[i as int].1.documents.wf());
                }
                let entry = &mut self.data.map[i];
                entry.1.documents.push_sorted(version, (document_id, value));
                proof {
                    let m1 = self.data.map@;
                    assert(m1[i as int].0 == quotient);
                    lemma_assoc_find_at(m1, quotient, i as int);
                    assert forall|q: TermQuotient| q != quotient implies #[trigger] self.data.term(
                        q,
                    ) == old(self).data.term(q) by {
                        lemma_assoc_find_key_change(m0, m1, q, i as int);
                    }
                    assert(self.data.wf()) by {
                        assert forall|jj: int, v: u32|
                            0 <= jj < m1.len() implies sorted_by_doc(
                            #[trigger] m1[jj].1.documents.items_of(v),
                        ) by {
                            if jj == i as int {
                                crate::versioned_vec::lemma_insert_sorted_keeps_order(
                                    old_term.documents.items_of(version),
                                    (document_id, value),
                                );
                            } else {
                                assert(m1[jj] == m0[jj]);
                            }
                        }
                        assert forall|a: int, b: int|
                            0 <= a < b < m1.len() implies (#[trigger] m1[a]).0 != (
                        #[trigger] m1[b]).0 by {
                            assert(m1[a].0 == m0[a].0 && m1[b].0 == m0[b].0);
                        }
                        assert forall|jj: int|
                            0 <= jj < m1.len() implies (#[trigger] m1[jj]).1.documents.wf() by {
                            if jj != i as int {
                                assert(m1[jj] == m0[jj]);
                            }
                        }
                    }
                }
                self.is_dirty = true;
                return;
            }
            i += 1;
        }
        proof {
            lemma_assoc_find_none(m0, quotient);
        }
        let sequence_idx = self.data.map_len;
        let mut documents = VersionedVec::new(version);
        documents.push(version, (document_id, value));
        let term = TermInfo { documents, sequence_idx };
        self.data.map.push((quotient, term));
        self.data.map_len = sequence_idx + 1;
        self.is_dirty = true;
        proof {
            let m1 = self.data.map@;
            lemma_assoc_find_push(m0, quotient, m1.last().1);
            assert(m1.drop_last() =~= m0);
            assert(self.data.term(quotient) is Some);
            assert(self.data.term(quotient).unwrap().documents.items_of(version) =~= seq![
                (document_id, value),
            ]);
            assert(self.data.wf()) by {
                assert forall|a: int, b: int|
                    0 <= a < b < m1.len() implies (#[trigger] m1[a]).0 != (#[trigger] m1[b]).0 by {
                    if b == m1.len() - 1 {
                        assert(m0[a].0 != quotient);
                    } else {
                        assert(m1[a] == m0[a] && m1[b] == m0[b]);
                    }
                }
                assert forall|jj: int, v: u32|
                    0 <= jj < m1.len() implies sorted_by_doc(
                    #[trigger] m1[jj].1.documents.items_of(v),
                ) by {
                    if jj < m1.len() - 1 {
                        assert(m1[jj] == m0[jj]);
                    }
                }
                assert forall|jj: int|
                    0 <= jj < m1.len() implies (#[trigger] m1[jj]).1.documents.wf() by {
                    if jj < m1.len() - 1 {
                        assert(m1[jj] == m0[jj]);
                    }
                }
            }
        }
    }
}

/// pow4 as a `u32` with the child-slot bound built in.
fn pow4_checked(e: u8) -> (r: u32)
    requires
        e < 16,
    ensures
        r as int == pow4(e as int),
{
    crate::path::pow4_u32(e)
}

/// Two nodes with the same children agree on every non-empty path.
proof fn lemma_node_at_same_children(a: TFIDFIndexNode, b: TFIDFIndexNode, p: Seq<u8>)
    requires
        a.children == b.children,
        p.len() > 0,
    ensures
        a.node_at(p) == b.node_at(p),
{
}

/// After replacing the child in slot `c`, paths into that slot go to
/// the new child and every other path is untouched.
proof fn lemma_paths_after_child_update(
    before: TFIDFIndexNode,
    after: TFIDFIndexNode,
    c: u8,
    old_child: TFIDFIndexNode,
    new_child: TFIDFIndexNode,
)
    requires
        c < 16,
        before.children@.len() == 16,
        after.children@.len() == 16,
        before.children@[c as int] == Some(Box::new(old_child)),
        after.children@[c as int] == Some(Box::new(new_child)),
        forall|i: int| 0 <= i < 16 && i != c ==> after.children@[i] == before.children@[i],
        after.dim_index == before.dim_index,
        after.data == before.data,
    ensures
        forall|p: Seq<u8>|
            p.len() > 0 && p[0] == c ==> #[trigger] after.node_at(p) == new_child.node_at(
                p.skip(1),
            ) && before.node_at(p) == old_child.node_at(p.skip(1)),
        forall|p: Seq<u8>|
            p.len() > 0 && p[0] != c ==> #[trigger] after.node_at(p) == before.node_at(p),
        after.node_at(Seq::empty()) == Some(after),
{
}

/// Creating nodes in one child slot keeps every existing path, its
/// data and its dimension.
proof fn lemma_paths_preserved_creation(
    before: TFIDFIndexNode,
    mid: TFIDFIndexNode,
    p: Seq<u8>,
    c: int,
)
    requires
        before.children@.len() == 16,
        mid.children@.len() == 16,
        mid.dim_index == before.dim_index,
        mid.data == before.data,
        forall|i: int| 0 <= i < 16 && i != c ==> mid.children@[i] == before.children@[i],
        0 <= c < 16,
        before.children@[c] is Some ==> mid.children@[c] == before.children@[c],
        before.has_path(p),
    ensures
        mid.has_path(p),
        mid.node_at(p).unwrap().data == before.node_at(p).unwrap().data,
        mid.node_at(p).unwrap().dim_index == before.node_at(p).unwrap().dim_index,
{
    if p.len() == 0 {
    } else {
        assert(before.children@[p[0] as int] is Some);
        if p[0] as int == c {
            assert(mid.children@[c] == before.children@[c]);
        }
        assert(mid.node_at(p) == before.node_at(p));
    }
}

/// assoc list facts
proof fn lemma_assoc_find_at(s: Seq<(TermQuotient, TermInfo)>, q: TermQuotient, i: int)
    requires
        0 <= i < s.len(),
        s[i].0 == q,
        forall|j: int| 0 <= j < i ==> (#[trigger] s[j]).0 != q,
    ensures
        assoc_find(s, q) == Some(s[i].1),
    decreases i,
{
    if i > 0 {
        assert(s.skip(1)[i - 1] == s[i]);
        assert forall|j: int| 0 <= j < i - 1 implies (#[trigger] s.skip(1)[j]).0 != q by {
            assert(s.skip(1)[j] == s[j + 1]);
        }
        lemma_assoc_find_at(s.skip(1), q, i - 1);
    }
}

proof fn lemma_assoc_find_none(s: Seq<(TermQuotient, TermInfo)>, q: TermQuotient)
    requires
        forall|j: int| 0 <= j < s.len() ==> (#[trigger] s[j]).0 != q,
    ensures
        assoc_find(s, q) is None,
    decreases s.len(),
{
    if s.len() > 0 {
        assert forall|j: int| 0 <= j < s.skip(1).len() implies (#[trigger] s.skip(1)[j]).0 != q by {
            assert(s.skip(1)[j] == s[j + 1]);
        }
        lemma_assoc_find_none(s.skip(1), q);
    }
}

proof fn lemma_assoc_find_push(s: Seq<(TermQuotient, TermInfo)>, q: TermQuotient, t: TermInfo)
    requires
        forall|j: int| 0 <= j < s.len() ==> (#[trigger] s[j]).0 != q,
    ensures
        assoc_find(s.push((q, t)), q) == Some(t),
        forall|q2: TermQuotient|
            q2 != q ==> #[trigger] assoc_find(s.push((q, t)), q2) == assoc_find(s, q2),
    decreases s.len(),
{
    if s.len() == 0 {
        assert(s.push((q, t))[0] == (q, t));
        assert forall|q2: TermQuotient|
            q2 != q implies #[trigger] assoc_find(s.push((q, t)), q2) == assoc_find(s, q2) by {
            assert(s.push((q, t)).skip(1) =~= s);
            assert(s.push((q, t)).len() == 1);
            assert(s.push((q, t))[0].0 == q);
            assert(assoc_find(s.push((q, t)), q2) == assoc_find(s.push((q, t)).skip(1), q2));
        }
    } else {
        assert(s.push((q, t)).skip(1) =~= s.skip(1).push((q, t)));
        assert forall|j: int| 0 <= j < s.skip(1).len() implies (#[trigger] s.skip(1)[j]).0 != q by {
            assert(s.skip(1)[j] == s[j + 1]);
        }
        lemma_assoc_find_push(s.skip(1), q, t);
        assert(s.push((q, t))[0] == s[0]);
        assert forall|q2: TermQuotient|
            q2 != q implies #[trigger] assoc_find(s.push((q, t)), q2) == assoc_find(s, q2) by {
            if s[0].0 == q2 {
                assert(assoc_find(s.push((q, t)), q2) == Some(s[0].1));
                assert(assoc_find(s, q2) == Some(s[0].1));
            } else {
                assert(assoc_find(s.push((q, t)), q2) == assoc_find(
                    s.skip(1).push((q, t)),
                    q2,
                ));
                assert(assoc_find(s.skip(1).push((q, t)), q2) == assoc_find(s.skip(1), q2));
                assert(assoc_find(s, q2) == assoc_find(s.skip(1), q2));
            }
        }
    }
}

/// Changing the value at position `i` (key kept) changes no other key's
/// lookup.
proof fn lemma_assoc_find_key_change(
    a: Seq<(TermQuotient, TermInfo)>,
    b: Seq<(TermQuotient, TermInfo)>,
    q: TermQuotient,
    i: int,
)
    requires
        a.len() == b.len(),
        0 <= i < a.len(),
        forall|j: int| 0 <= j < a.len() && j != i ==> #[trigger] b[j] == a[j],
        b[i].0 == a[i].0,
        a[i].0 != q,
    ensures
        assoc_find(b, q) == assoc_find(a, q),
    decreases a.len(),
{
    if a.len() > 0 {
        if i == 0 {
            assert(b[0].0 == a[0].0);
            if a[0].0 == q {
            } else {
                assert(a.skip(1) =~= b.skip(1));
            }
        } else {
            assert(b[0] == a[0]);
            if a[0].0 == q {
            } else {
                assert forall|j: int|
                    0 <= j < a.skip(1).len() && j != i - 1 implies #[trigger] b.skip(1)[j]
                    == a.skip(1)[j] by {
                    assert(b.skip(1)[j] == b[j + 1] && a.skip(1)[j] == a[j + 1]);
                }
                assert(b.skip(1)[i - 1] == b[i] && a.skip(1)[i - 1] == a[i]);
                lemma_assoc_find_key_change(a.skip(1), b.skip(1), q, i - 1);
            }
        }
    }
}

/// The whole TF-IDF index: the trie root at dimension zero, the global
/// document counter, and the number of sharded posting-data files.
pub struct TFIDFIndexRoot {
    pub root: TFIDFIndexNode,
    pub total_documents_count: u32,
    pub data_file_parts: u8,
    pub offset_counter: u32,
}

impl TFIDFIndexRoot {
    pub open spec fn wf(self) -> bool {
        &&& self.root.wf()
        &&& self.root.dim_index == 0
    }

    /// The term data for a full 32-bit term hash: the lower 16 bits
    /// choose the trie path, the upper 16 the quotient in the node.
    pub open spec fn term_of(self, hash_dim: u32) -> Option<TermInfo> {
        self.root.term_at(
            spec_path((hash_dim & 0xFFFFu32) as int),
            (hash_dim >> 16u32) as TermQuotient,
        )
    }

    pub fn new(data_file_parts: u8) -> (r: Self)
        ensures
            r.wf(),
            r.total_documents_count == 0,
            r.data_file_parts == data_file_parts,
            r.root.file_offset == 4,
            r.offset_counter == TF_IDF_INDEX_DATA_CHUNK_SIZE * 6 + 78,
            forall|hash_dim: u32| #[trigger] r.term_of(hash_dim) is None,
    {
        let node_size = TFIDFIndexNode::get_serialized_size();
        let r = TFIDFIndexRoot {
            root: TFIDFIndexNode::new(0, 4),
            total_documents_count: 0,
            data_file_parts,
            offset_counter: node_size.wrapping_add(4),
        };
        proof {
            assert forall|hash_dim: u32| #[trigger] r.term_of(hash_dim) is None by {
                let p = spec_path((hash_dim & 0xFFFFu32) as int);
                if r.root.has_path(p) {
                    assert(p =~= Seq::<u8>::empty());
                    assert(r.root.node_at(p) == Some(r.root));
                }
            }
        }
        r
    }

    /// Finds the node for a dimension, if the trie has it; the node
    /// found carries exactly that dimension index.
    pub fn find_node(&self, dim_index: u32) -> (r: Option<&TFIDFIndexNode>)
        requires
            self.wf(),
        ensures
            r is Some <==> self.root.has_path(spec_path(dim_index as int)),
            r is Some ==> *r.unwrap() == self.root.node_at(spec_path(dim_index as int)).unwrap()
                && r.unwrap().dim_index == dim_index && r.unwrap().wf(),
    {
        let path = calculate_path(dim_index, 0);
        let mut current_node = &self.root;
        let mut i: usize = 0;
        let ghost p = path@;
        proof {
            assert(p.skip(0) =~= p);
            assert(p.take(0) =~= Seq::<u8>::empty());
        }
        while i < path.len()
            invariant
                self.wf(),
                i <= p.len(),
                p == path@,
                p == spec_path(dim_index as int),
                path_dim_sum(p) == dim_index,
                forall|j: int| 0 <= j < p.len() ==> (#[trigger] p[j]) < 16,
                current_node.wf(),
                Some(*current_node) == self.root.node_at(p.take(i as int)),
                current_node.dim_index as int == path_dim_sum(p.take(i as int)),
                self.root.node_at(p) == current_node.node_at(p.skip(i as int)),
            decreases p.len() - i,
        {
            let c = path[i];
            proof {
                assert(p.skip(i as int)[0] == c);
            }
            match &current_node.children[c as usize] {
                Some(child) => {
                    proof {
                        assert(p.take((i + 1) as int).drop_last() =~= p.take(i as int));
                        lemma_node_at_extend(self.root, p, i as int, *current_node, **child);
                        lemma_path_sum_take_succ(p, i as int);
                        assert(p.skip(i as int).skip(1) =~= p.skip((i + 1) as int));
                    }
                    current_node = child;
                },
                None => {
                    proof {
                        assert(current_node.node_at(p.skip(i as int)) is None);
                    }
                    return None;
                },
            }
            i += 1;
        }
        proof {
            assert(p.take(p.len() as int) =~= p);
            assert(p.skip(p.len() as int) =~= Seq::<u8>::empty());
            lemma_path_dim_sum_nonneg(p);
        }
        Some(current_node)
    }

    /// Inserts one `(term hash, frequency)` occurrence of a document.
    pub fn insert(&mut self, hash_dim: u32, value: u32, document_id: u32, version: u32)
        requires
            old(self).wf(),
            old(self).root.has_path(spec_path((hash_dim & 0xFFFFu32) as int)) ==> old(
                self,
            ).root.node_at(spec_path((hash_dim & 0xFFFFu32) as int)).unwrap().data.map@.len()
                < u16::MAX,
        ensures
            final(self).wf(),
            final(self).total_documents_count == old(self).total_documents_count,
            final(self).data_file_parts == old(self).data_file_parts,
            forall|h2: u32|
                h2 != hash_dim ==> #[trigger] final(self).term_of(h2) == old(self).term_of(h2),
            old(self).root.has_path(spec_path((hash_dim & 0xFFFFu32) as int))
                ==> final(self).offset_counter == old(self).offset_counter,
            forall|p: Seq<u8>| old(self).root.has_path(p) ==> #[trigger] final(self).root.has_path(p),
            forall|d2: u32|
                #[trigger] final(self).root.has_path(spec_path(d2 as int)) ==> ({
                    let fin = final(self).root;
                    let was = old(self).root;
                    fin.node_at(spec_path(d2 as int)).unwrap().data.map@.len() <= (
                    if was.has_path(spec_path(d2 as int)) {
                        was.node_at(spec_path(d2 as int)).unwrap().data.map@.len() as int
                    } else {
                        0
                    }) + (if d2 == hash_dim & 0xFFFFu32 {
                        1int
                    } else {
                        0int
                    })
                }),
            ({
                let updated = final(self).term_of(hash_dim);
                match old(self).term_of(hash_dim) {
                    Some(t) => updated is Some && updated.unwrap().sequence_idx == t.sequence_idx
                        && updated.unwrap().documents.items_of(version) == spec_insert_sorted(
                        t.documents.items_of(version),
                        (document_id, value),
                    ) && forall|v: u32|
                        v != version ==> #[trigger] updated.unwrap().documents.items_of(v)
                            == t.documents.items_of(v),
                    None => updated is Some && updated.unwrap().documents.items_of(version)
                        == seq![(document_id, value)],
                }
            }),
    {
        let storage_dim = hash_dim & 0xFFFFu32;
        let quotient = (hash_dim >> 16u32) as u16;
        proof {
            assert(hash_dim >> 16u32 <= 0xFFFFu32) by (bit_vector);
        }
        let path = calculate_path(storage_dim, 0);
        let node_size = TFIDFIndexNode::get_serialized_size();
        let mut counter = self.offset_counter;
        proof {
            assert(path@.skip(0) =~= path@);
        }
        self.root.find_or_create_node(path.as_slice(), 0, &mut counter, node_size);
        self.offset_counter = counter;
        proof {
            assert(path@.skip(0) =~= path@);
            let target = spec_path(storage_dim as int);
            assert(self.root.has_path(target));
            if !old(self).root.has_path(target) {
                assert(self.root.node_at(target).unwrap().data.map@.len() == 0);
            }
        }
        let ghost mid = self.root;
        self.root.insert(path.as_slice(), 0, quotient, value, document_id, version);
        proof {
            assert(path@.skip(0) =~= path@);
            let target = spec_path(storage_dim as int);
            assert forall|d2: u32|
                #[trigger] self.root.has_path(spec_path(d2 as int)) implies self.root.node_at(
                spec_path(d2 as int),
            ).unwrap().data.map@.len() <= (
            if old(self).root.has_path(spec_path(d2 as int)) {
                old(self).root.node_at(spec_path(d2 as int)).unwrap().data.map@.len() as int
            } else {
                0
            }) + (if d2 == hash_dim & 0xFFFFu32 {
                1int
            } else {
                0int
            }) by {
                let p2 = spec_path(d2 as int);
                if p2 == target {
                    lemma_spec_path_sum(d2 as int);
                    lemma_spec_path_sum(storage_dim as int);
                    assert(d2 == storage_dim);
                    assert(mid.node_at(target).unwrap().data.map@.len() == (
                    if old(self).root.has_path(target) {
                        old(self).root.node_at(target).unwrap().data.map@.len() as int
                    } else {
                        0
                    }));
                } else {
                    assert(self.root.node_at(p2).unwrap().data == mid.node_at(p2).unwrap().data);
                    if old(self).root.has_path(p2) {
                        assert(mid.node_at(p2).unwrap().data == old(self).root.node_at(
                            p2,
                        ).unwrap().data);
                    } else {
                        assert(mid.node_at(p2).unwrap().data.map@.len() == 0);
                    }
                }
            }
            assert forall|h2: u32|
                h2 != hash_dim implies #[trigger] self.term_of(h2) == old(self).term_of(h2) by {
                let s2 = (h2 & 0xFFFFu32) as int;
                let p2 = spec_path(s2);
                let q2 = (h2 >> 16u32) as TermQuotient;
                if p2 == target && q2 == quotient {
                    lemma_spec_path_sum(s2);
                    lemma_spec_path_sum(storage_dim as int);
                    assert((h2 & 0xFFFFu32) == (hash_dim & 0xFFFFu32));
                    assert((h2 >> 16u32) as u16 == (hash_dim >> 16u32) as u16);
                    assert(!(h2 & 0xFFFFu32 == hash_dim & 0xFFFFu32 && (h2 >> 16u32) as u16 == (
                    hash_dim >> 16u32) as u16 && h2 != hash_dim)) by (bit_vector);
                } else {
                    assert(self.root.term_at(p2, q2) == mid.term_at(p2, q2));
                    if old(self).root.has_path(p2) {
                        assert(mid.node_at(p2).unwrap().data == old(self).root.node_at(
                            p2,
                        ).unwrap().data);
                    } else {
                        assert(old(self).root.term_at(p2, q2) is None);
                        if mid.has_path(p2) {
                            assert(mid.node_at(p2).unwrap().data.map@.len() == 0);
                            assert(assoc_find(mid.node_at(p2).unwrap().data.map@, q2) is None);
                        }
                    }
                }
            }
        }
    }

    /// The fixed byte size of one serialized trie node slot.
    pub fn get_serialized_size() -> (r: u32)
        ensures
            r == TF_IDF_INDEX_DATA_CHUNK_SIZE * 6 + 74,
    {
        TFIDFIndexNode::get_serialized_size()
    }
}

/// Entries per per-node chunk table in the dimension file.
pub const TF_IDF_INDEX_DATA_CHUNK_SIZE: u32 = 5;

impl TFIDFIndexNode {
    /// The fixed byte size of one serialized trie node slot: the chunk
    /// table at six bytes an entry plus the fixed header and child
    /// area.
    pub fn get_serialized_size() -> (r: u32)
        ensures
            r == TF_IDF_INDEX_DATA_CHUNK_SIZE * 6 + 74,
    {
        TF_IDF_INDEX_DATA_CHUNK_SIZE * 6 + 74
    }
}

/// Walking one existing child extends the path walked so far.
proof fn lemma_node_at_extend(
    root: TFIDFIndexNode,
    p: Seq<u8>,
    i: int,
    current: TFIDFIndexNode,
    child: TFIDFIndexNode,
)
    requires
        0 <= i < p.len(),
        p[i] < 16,
        root.node_at(p.take(i)) == Some(current),
        current.children@.len() == 16,
        current.children@[p[i] as int] == Some(Box::new(child)),
    ensures
        root.node_at(p.take(i + 1)) == Some(child),
    decreases i,
{
    lemma_node_at_snoc(root, p.take(i + 1));
    assert(p.take(i + 1).drop_last() =~= p.take(i));
    assert(p.take(i + 1).last() == p[i]);
}

/// Walking a non-empty path is walking its prefix, then one child.
proof fn lemma_node_at_snoc(root: TFIDFIndexNode, p: Seq<u8>)
    requires
        p.len() > 0,
    ensures
        root.node_at(p) == match root.node_at(p.drop_last()) {
            None => None::<TFIDFIndexNode>,
            Some(n) => if p.last() < 16 {
                match n.children@[p.last() as int] {
                    None => None::<TFIDFIndexNode>,
                    Some(c) => Some(*c),
                }
            } else {
                None::<TFIDFIndexNode>
            },
        },
    decreases p.len(),
{
    if p.len() == 1 {
        assert(p.drop_last() =~= Seq::<u8>::empty());
        assert(root.node_at(p.drop_last()) == Some(root));
        if p[0] < 16 {
            match root.children@[p[0] as int] {
                None => {
                    assert(root.node_at(p) is None);
                },
                Some(c) => {
                    assert(p.skip(1) =~= Seq::<u8>::empty());
                    assert(c.node_at(p.skip(1)) == Some(*c));
                    assert(root.node_at(p) == Some(*c));
                    assert(p.last() == p[0]);
                },
            }
        } else {
            assert(root.node_at(p) is None);
        }
    } else {
        if p[0] < 16 {
            match root.children@[p[0] as int] {
                None => {
                    assert(p.drop_last()[0] == p[0]);
                    assert(root.node_at(p) is None);
                    assert(root.node_at(p.drop_last()) is None);
                },
                Some(c) => {
                    lemma_node_at_snoc(*c, p.skip(1));
                    assert(p.skip(1).drop_last() =~= p.drop_last().skip(1));
                    assert(p.skip(1).last() == p.last());
                    assert(p.drop_last()[0] == p[0]);
                    assert(p.drop_last().len() > 0);
                    assert(root.node_at(p) == c.node_at(p.skip(1)));
                    assert(root.node_at(p.drop_last()) == c.node_at(p.drop_last().skip(1)));
                },
            }
        } else {
            assert(p.drop_last()[0] == p[0]);
            assert(root.node_at(p) is None);
            assert(root.node_at(p.drop_last()) is None);
        }
    }
}


} // verus!
