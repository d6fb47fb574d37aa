//! A versioned list: a singly-linked chain of segments, each tagged by
//! the version that produced it. Appends go to the segment of the given
//! version, creating a fresh tail segment for a version not seen yet.
//! Term-frequency postings use `push_sorted`, which keeps each version
//! segment ordered by document id.

use vstd::prelude::*;

verus! {

/// One entry of a term's posting list: `(document_id, term_frequency)`,
/// the frequency on the fixed-point grid of `crate::fixed`.
pub type DocEntry = (u32, u32);

pub struct VersionedVec<T> {
    /// File offset of the last serialization, if any; volatile.
    pub serialized_at: Option<u32>,
    pub version: u32,
    pub list: Vec<T>,
    pub next: Option<Box<VersionedVec<T>>>,
}

impl<T> VersionedVec<T> {
    /// Versions of the chain's segments, head first.
    pub open spec fn versions(self) -> Seq<u32>
        decreases self,
    {
        match self.next {
            None => seq![self.version],
            Some(n) => seq![self.version] + n.versions(),
        }
    }

    /// All items of the chain, head segment first.
    pub open spec fn all_items(self) -> Seq<T>
        decreases self,
    {
        match self.next {
            None => self.list@,
            Some(n) => self.list@ + n.all_items(),
        }
    }

    /// The items of the first segment tagged `v`, or empty.
    pub open spec fn items_of(self, v: u32) -> Seq<T>
        decreases self,
    {
        if self.version == v {
            self.list@
        } else {
            match self.next {
                None => Seq::empty(),
                Some(n) => n.items_of(v),
            }
        }
    }

    pub open spec fn has_version(self, v: u32) -> bool {
        self.versions().contains(v)
    }

    /// Every segment after the head holds at least one item.
    pub open spec fn tail_segments_nonempty(self) -> bool
        decreases self,
    {
        match self.next {
            None => true,
            Some(n) => n.list@.len() > 0 && n.tail_segments_nonempty(),
        }
    }

    /// Chain invariant: no version tags two segments.
    pub open spec fn wf(self) -> bool
        decreases self,
    {
        match self.next {
            None => true,
            Some(n) => !n.versions().contains(self.version) && n.wf(),
        }
    }

    pub fn new(version: u32) -> (r: Self)
        ensures
            r.wf(),
            r.version == version,
            r.versions() == seq![version],
            r.all_items() == Seq::<T>::empty(),
            r.list@ == Seq::<T>::empty(),
            r.next is None,
            r.serialized_at is None,
            r.tail_segments_nonempty(),
    {
        VersionedVec { serialized_at: None, version, list: Vec::new(), next: None }
    }

    /// Appends `value` to the segment of `version`, creating that
    /// segment at the tail if the chain does not have it yet.
    pub fn push(&mut self, version: u32, value: T)
        requires
            old(self).wf(),
        ensures
            final(self).wf(),
            final(self).version == old(self).version,
            final(self).serialized_at == old(self).serialized_at,
            final(self).versions() == if old(self).has_version(version) {
                old(self).versions()
            } else {
                old(self).versions().push(version)
            },
            final(self).items_of(version) == old(self).items_of(version).push(value),
            forall|v: u32| v != version ==> final(self).items_of(v) == old(self).items_of(v),
            final(self).all_items().len() == old(self).all_items().len() + 1,
            final(self).list@.len() >= old(self).list@.len(),
            old(self).tail_segments_nonempty() ==> final(self).tail_segments_nonempty(),
        decreases *old(self),
    {
        if self.version == version {
            self.list.push(value);
            proof {
                assert(self.versions() =~= old(self).versions());
                assert(self.versions().contains(version)) by {
                    assert(self.versions()[0] == version);
                }
                assert(self.all_items().len() == old(self).all_items().len() + 1);
                assert forall|v: u32| v != version implies self.items_of(v) == old(self).items_of(
                    v,
                ) by {
                    assert(self.items_of(v) == old(self).items_of(v));
                }
                assert(self.wf()) by {
                    assert(old(self).wf());
                }
                if old(self).tail_segments_nonempty() {
                    assert(self.tail_segments_nonempty());
                }
            }
            return;
        }
        let ghost head_version = self.version;
        match &mut self.next {
            Some(n) => {
                let ghost old_n = **n;
                n.push(version, value);
                proof {
                    assert forall|v: u32| v != version implies self.items_of(v) == old(
                        self,
                    ).items_of(v) by {
                        if v == head_version {
                            assert(self.items_of(v) == self.list@);
                        } else {
                            assert(self.items_of(v) == (*n).items_of(v));
                            assert(old(self).items_of(v) == old_n.items_of(v));
                        }
                    }
                    assert(self.items_of(version) == (*n).items_of(version));
                    assert(old(self).items_of(version) == old_n.items_of(version));
                    assert(self.all_items() =~= self.list@ + (*n).all_items());
                    assert(old(self).all_items() =~= self.list@ + old_n.all_items());
                    assert(self.all_items().len() == old(self).all_items().len() + 1);
                    if old_n.has_version(version) {
                        assert(self.versions() =~= old(self).versions());
                        assert(old(self).has_version(version)) by {
                            let i = choose|i: int|
                                0 <= i < old_n.versions().len() && old_n.versions()[i] == version;
                            assert(old(self).versions()[i + 1] == version);
                        }
                    } else {
                        assert(self.versions() =~= old(self).versions().push(version));
                        assert(!old(self).has_version(version)) by {
                            if old(self).has_version(version) {
                                let i = choose|i: int|
                                    0 <= i < old(self).versions().len() && old(self).versions()[i]
                                        == version;
                                assert(i != 0);
                                assert(old_n.versions()[i - 1] == version);
                            }
                        }
                    }
                    assert(!((*n).versions().contains(head_version))) by {
                        if (*n).versions().contains(head_version) {
                            let i = choose|i: int|
                                0 <= i < (*n).versions().len() && (*n).versions()[i]
                                    == head_version;
                            if old_n.has_version(version) {
                                assert(old_n.versions().contains(head_version));
                            } else {
                                assert((*n).versions() == old_n.versions().push(version));
                                if i < old_n.versions().len() {
                                    assert(old_n.versions()[i] == head_version);
                                } else {
                                    assert(head_version == version);
                                }
                            }
                        }
                    }
                    assert(self.wf()) by {
                        assert((*n).wf());
                        assert(!((*n).versions().contains(head_version)));
                    }
                    if old(self).tail_segments_nonempty() {
                        assert(old_n.list@.len() > 0 && old_n.tail_segments_nonempty());
                        assert((*n).list@.len() > 0 && (*n).tail_segments_nonempty());
                        assert(self.tail_segments_nonempty());
                    }
                }
            },
            None => {
                let mut seg = VersionedVec::new(version);
                seg.list.push(value);
                let ghost gseg = seg;
                self.next = Some(Box::new(seg));
                proof {
                    assert(gseg.versions() =~= seq![version]);
                    assert(gseg.items_of(version) =~= seq![value]);
                    assert(self.versions() =~= seq![head_version] + gseg.versions());
                    assert(self.versions() =~= old(self).versions().push(version));
                    assert(!old(self).has_version(version)) by {
                        assert(old(self).versions() =~= seq![head_version]);
                    }
                    assert(old(self).items_of(version) =~= Seq::<T>::empty());
                    assert(self.items_of(version) =~= gseg.items_of(version));
                    assert(self.items_of(version) =~= old(self).items_of(version).push(value));
                    assert forall|v: u32| v != version implies self.items_of(v) == old(
                        self,
                    ).items_of(v) by {
                        if v == head_version {
                            assert(self.items_of(v) == self.list@);
                        } else {
                            assert(gseg.items_of(v) =~= Seq::<T>::empty());
                            assert(self.items_of(v) == gseg.items_of(v));
                            assert(old(self).items_of(v) =~= Seq::<T>::empty());
                        }
                    }
                    assert(self.all_items() =~= old(self).all_items() + gseg.all_items());
                    assert(gseg.all_items() =~= seq![value]);
                    assert(self.wf()) by {
                        assert(gseg.wf());
                        assert(!gseg.versions().contains(head_version));
                    }
                    assert(gseg.list@.len() == 1);
                    assert(gseg.tail_segments_nonempty());
                    assert(self.tail_segments_nonempty());
                }
            },
        }
    }

    /// Total number of items across all segments.
    pub fn len(&self) -> (r: usize)
        requires
            self.all_items().len() <= usize::MAX,
        ensures
            r == self.all_items().len(),
        decreases *self,
    {
        let current_len = self.list.len();
        match &self.next {
            Some(next_node) => current_len + next_node.len(),
            None => current_len,
        }
    }

    pub fn is_empty(&self) -> (r: bool)
        requires
            self.all_items().len() <= usize::MAX,
        ensures
            r == (self.all_items().len() == 0),
    {
        self.len() == 0
    }

    /// An iterator over the chain's items, head segment first.
    pub fn iter(&self) -> (r: VersionedVecIter<'_, T>)
        ensures
            r.inv(),
            r.remaining() == self.all_items(),
            self.tail_segments_nonempty() ==> r.tail_ok(),
    {
        let tail = match &self.next {
            Some(b) => Some(&**b),
            None => None,
        };
        let r = VersionedVecIter { current_list: &self.list, idx: 0, next: tail };
        proof {
            assert(r.remaining() =~= self.all_items());
        }
        r
    }

    /// All items, flattened into one vector.
    pub fn to_vec(&self) -> (r: Vec<T>) where T: Copy
        ensures
            r@ == self.all_items(),
        decreases *self,
    {
        let mut r: Vec<T> = Vec::new();
        let mut i: usize = 0;
        while i < self.list.len()
            invariant
                i <= self.list@.len(),
                r@ == self.list@.take(i as int),
            decreases self.list@.len() - i,
        {
            r.push(self.list[i]);
            assert(r@ =~= self.list@.take(i + 1));
            i += 1;
        }
        assert(r@ =~= self.list@);
        match &self.next {
            Some(next_node) => {
                let mut tail = next_node.to_vec();
                r.append(&mut tail);
                assert(r@ =~= self.all_items());
                r
            },
            None => r,
        }
    }
}

/// Iterator over the items of a `VersionedVec`, segment by segment.
/// It stops at a segment whose list is empty; appends through `push`
/// and `push_sorted` never leave an empty segment after the head, so
/// on chains they build it yields every remaining item.
pub struct VersionedVecIter<'a, T> {
    pub current_list: &'a Vec<T>,
    pub idx: usize,
    pub next: Option<&'a VersionedVec<T>>,
}

impl<'a, T> VersionedVecIter<'a, T> {
    pub open spec fn inv(self) -> bool {
        self.idx <= self.current_list@.len()
    }

    /// No segment ahead of the cursor is empty, so every remaining
    /// item is yielded.
    pub open spec fn tail_ok(self) -> bool {
        match self.next {
            None => true,
            Some(n) => n.list@.len() > 0 && n.tail_segments_nonempty(),
        }
    }

    /// The items this iterator will still yield, provided no later
    /// segment is empty.
    pub open spec fn remaining(self) -> Seq<T> {
        self.current_list@.skip(self.idx as int) + (match self.next {
            None => Seq::<T>::empty(),
            Some(n) => n.all_items(),
        })
    }

    pub fn next(&mut self) -> (r: Option<&'a T>)
        requires
            old(self).inv(),
        ensures
            final(self).inv(),
            r is Some ==> old(self).remaining().len() > 0 && *r.unwrap() == old(
                self,
            ).remaining()[0] && final(self).remaining() == old(self).remaining().skip(1),
            r is None ==> final(self).remaining() == old(self).remaining(),
            old(self).remaining().len() == 0 ==> r is None,
            old(self).tail_ok() && old(self).remaining().len() > 0 ==> r is Some,
            old(self).tail_ok() ==> final(self).tail_ok(),
    {
        if self.idx < self.current_list.len() {
            let item = &self.current_list[self.idx];
            self.idx = self.idx + 1;
            proof {
                assert(self.remaining() =~= old(self).remaining().skip(1));
            }
            return Some(item);
        }
        match self.next {
            Some(next_node) => {
                self.current_list = &next_node.list;
                self.next = match &next_node.next {
                    Some(b) => Some(&**b),
                    None => None,
                };
                self.idx = 0;
                if self.current_list.len() > 0 {
                    let item = &self.current_list[0];
                    self.idx = 1;
                    proof {
                        assert(old(self).remaining() =~= next_node.all_items());
                        assert(self.remaining() =~= old(self).remaining().skip(1));
                    }
                    Some(item)
                } else {
                    proof {
                        assert(old(self).remaining() =~= next_node.all_items());
                    }
                    if self.current_list.len() == 0 && matches!(self.next, Some(_)) {
                        proof {
                            assert(self.remaining() =~= old(self).remaining());
                        }
                    }
                    None
                }
            },
            None => {
                proof {
                    assert(old(self).remaining().len() == 0);
                    assert(self.remaining() =~= old(self).remaining());
                }
                None
            },
        }
    }
}

/// Where an entry lands when inserted into a segment sorted by
/// document id: after every entry with a smaller-or-equal id.
pub open spec fn spec_insert_sorted(s: Seq<DocEntry>, v: DocEntry) -> Seq<DocEntry>
    decreases s.len(),
{
    if s.len() == 0 || s.last().0 <= v.0 {
        s.push(v)
    } else {
        spec_insert_sorted(s.drop_last(), v).push(s.last())
    }
}

/// Non-strict order by document id.
pub open spec fn sorted_by_doc(s: Seq<DocEntry>) -> bool {
    forall|i: int, j: int| 0 <= i < j < s.len() ==> (#[trigger] s[i]).0 <= (#[trigger] s[j]).0
}

/// Strict order by document id.
pub open spec fn strictly_sorted_by_doc(s: Seq<DocEntry>) -> bool {
    forall|i: int, j: int| 0 <= i < j < s.len() ==> (#[trigger] s[i]).0 < (#[trigger] s[j]).0
}

/// Sorted insertion keeps every element it finds and adds the new one.
pub proof fn lemma_insert_sorted_contains(s: Seq<DocEntry>, v: DocEntry, x: DocEntry)
    requires
        s.contains(x) || x == v,
    ensures
        spec_insert_sorted(s, v).contains(x),
    decreases s.len(),
{
    if s.len() == 0 || s.last().0 <= v.0 {
        if x == v {
            assert(s.push(v)[s.len() as int] == v);
        } else {
            let i = choose|i: int| 0 <= i < s.len() && s[i] == x;
            assert(s.push(v)[i] == x);
        }
    } else {
        let inner = spec_insert_sorted(s.drop_last(), v);
        if x == s.last() {
            assert(inner.push(s.last())[inner.len() as int] == x);
        } else {
            if x != v {
                let i = choose|i: int| 0 <= i < s.len() && s[i] == x;
                if i == s.len() - 1 {
                    assert(x == s.last());
                } else {
                    assert(s.drop_last()[i] == x);
                }
            }
            lemma_insert_sorted_contains(s.drop_last(), v, x);
            let j = choose|j: int| 0 <= j < inner.len() && inner[j] == x;
            assert(inner.push(s.last())[j] == x);
        }
    }
}

/// Sorted insertion keeps a segment sorted by document id.
pub proof fn lemma_insert_sorted_keeps_order(s: Seq<DocEntry>, v: DocEntry)
    requires
        sorted_by_doc(s),
    ensures
        sorted_by_doc(spec_insert_sorted(s, v)),
        spec_insert_sorted(s, v).len() == s.len() + 1,
        spec_insert_sorted(s, v).to_multiset() == s.to_multiset().insert(v),
    decreases s.len(),
{
    s.to_multiset_ensures();
    if s.len() == 0 || s.last().0 <= v.0 {
        let r = s.push(v);
        assert forall|i: int, j: int| 0 <= i < j < r.len() implies (#[trigger] r[i]).0 <= (
        #[trigger] r[j]).0 by {
            if j < s.len() {
            } else {
                if i < s.len() {
                    assert(s[i].0 <= s[s.len() - 1].0);
                }
            }
        }
        assert(s.push(v).to_multiset() == s.to_multiset().insert(v)) by {
            s.to_multiset_ensures();
        }
    } else {
        let d = s.drop_last();
        assert(sorted_by_doc(d)) by {
            assert(forall|i: int, j: int|
                0 <= i < j < d.len() ==> (#[trigger] d[i]).0 <= (#[trigger] d[j]).0);
        }
        lemma_insert_sorted_keeps_order(d, v);
        let t = spec_insert_sorted(d, v);
        let r = t.push(s.last());
        // every entry of t is either from d or is v; all of them <= s.last().0
        assert forall|i: int| 0 <= i < t.len() implies (#[trigger] t[i]).0 <= s.last().0 by {
            d.to_multiset_ensures();
            t.to_multiset_ensures();
            assert(t.to_multiset().contains(t[i])) by {
                assert(t.to_multiset().count(t[i]) > 0);
            }
            if t[i] == v {
                assert(v.0 <= s.last().0);
            } else {
                assert(d.to_multiset().count(t[i]) > 0);
                assert(d.contains(t[i]));
                let k = choose|k: int| 0 <= k < d.len() && d[k] == t[i];
                assert(s[k].0 <= s[s.len() - 1].0);
            }
        }
        assert(sorted_by_doc(r)) by {
            assert(forall|i: int, j: int|
                0 <= i < j < t.len() ==> (#[trigger] r[i]).0 <= (#[trigger] r[j]).0);
        }
        d.to_multiset_ensures();
        t.to_multiset_ensures();
        assert(r.to_multiset() =~= s.to_multiset().insert(v)) by {
            assert(t.to_multiset() == d.to_multiset().insert(v));
            assert(r.to_multiset() == t.to_multiset().insert(s.last()));
            assert(s =~= d.push(s.last()));
            assert(s.to_multiset() == d.to_multiset().insert(s.last()));
        }
    }
}

/// With a document id not yet in the segment, sorted insertion keeps
/// the order strict: within one version segment the `(doc_id, tf)`
/// list stays strictly ascending by document id.
pub proof fn lemma_insert_sorted_keeps_strict_order(s: Seq<DocEntry>, v: DocEntry)
    requires
        strictly_sorted_by_doc(s),
        forall|i: int| 0 <= i < s.len() ==> (#[trigger] s[i]).0 != v.0,
    ensures
        strictly_sorted_by_doc(spec_insert_sorted(s, v)),
    decreases s.len(),
{
    if s.len() == 0 || s.last().0 <= v.0 {
        let r = s.push(v);
        assert forall|i: int, j: int| 0 <= i < j < r.len() implies (#[trigger] r[i]).0 < (
        #[trigger] r[j]).0 by {
            if j == s.len() {
                if i < s.len() {
                    assert(s[i].0 <= s[s.len() - 1].0);
                    assert(s.last().0 != v.0);
                }
            }
        }
    } else {
        let d = s.drop_last();
        lemma_insert_sorted_keeps_strict_order(d, v);
        let t = spec_insert_sorted(d, v);
        let r = t.push(s.last());
        assert forall|i: int| 0 <= i < t.len() implies (#[trigger] t[i]).0 < s.last().0 by {
            d.to_multiset_ensures();
            t.to_multiset_ensures();
            lemma_insert_sorted_keeps_order_weak(d, v);
            assert(t.to_multiset().contains(t[i])) by {
                assert(t.to_multiset().count(t[i]) > 0);
            }
            if t[i] == v {
                assert(v.0 < s.last().0);
            } else {
                assert(d.to_multiset().count(t[i]) > 0);
                assert(d.contains(t[i]));
                let k = choose|k: int| 0 <= k < d.len() && d[k] == t[i];
                assert(s[k].0 < s[s.len() - 1].0);
            }
        }
        assert(strictly_sorted_by_doc(r)) by {
            assert(forall|i: int, j: int|
                0 <= i < j < t.len() ==> (#[trigger] r[i]).0 < (#[trigger] r[j]).0);
        }
    }
}

/// Helper: the multiset identity of sorted insertion without the order
/// premise.
proof fn lemma_insert_sorted_keeps_order_weak(s: Seq<DocEntry>, v: DocEntry)
    ensures
        spec_insert_sorted(s, v).len() == s.len() + 1,
        spec_insert_sorted(s, v).to_multiset() == s.to_multiset().insert(v),
    decreases s.len(),
{
    s.to_multiset_ensures();
    if s.len() == 0 || s.last().0 <= v.0 {
    } else {
        let d = s.drop_last();
        lemma_insert_sorted_keeps_order_weak(d, v);
        let t = spec_insert_sorted(d, v);
        d.to_multiset_ensures();
        t.to_multiset_ensures();
        assert(t.push(s.last()).to_multiset() =~= s.to_multiset().insert(v)) by {
            assert(t.to_multiset() == d.to_multiset().insert(v));
            assert(s =~= d.push(s.last()));
            assert(s.to_multiset() == d.to_multiset().insert(s.last()));
        }
    }
}

impl VersionedVec<DocEntry> {
    /// Inserts `(document_id, tf)` into the segment of `version`,
    /// keeping that segment ordered by document id.
    pub fn push_sorted(&mut self, version: u32, value: DocEntry)
        requires
            old(self).wf(),
        ensures
            final(self).wf(),
            final(self).version == old(self).version,
            final(self).versions() == if old(self).has_version(version) {
                old(self).versions()
            } else {
                old(self).versions().push(version)
            },
            final(self).items_of(version) == spec_insert_sorted(
                old(self).items_of(version),
                value,
            ),
            forall|v: u32| v != version ==> final(self).items_of(v) == old(self).items_of(v),
            final(self).all_items().len() == old(self).all_items().len() + 1,
            final(self).list@.len() >= old(self).list@.len(),
            old(self).tail_segments_nonempty() ==> final(self).tail_segments_nonempty(),
        decreases *old(self),
    {
        if self.version == version {
            let ghost s0 = self.list@;
            let mut i = self.list.len();
            while i > 0 && self.list[i - 1].0 > value.0
                invariant
                    i <= self.list@.len(),
                    self.list@ == s0,
                    forall|j: int| i <= j < s0.len() ==> (#[trigger] s0[j]).0 > value.0,
                decreases i,
            {
                i -= 1;
            }
            proof {
                lemma_insert_sorted_suffix(s0, value, i as int);
            }
            self.list.insert(i, value);
            proof {
                assert(self.list@ =~= s0.take(i as int).push(value) + s0.skip(i as int));
                assert(self.versions() =~= old(self).versions());
                assert(self.versions().contains(version)) by {
                    assert(self.versions()[0] == version);
                }
                assert forall|v: u32| v != version implies self.items_of(v) == old(self).items_of(
                    v,
                ) by {
                    assert(self.items_of(v) == old(self).items_of(v));
                }
                assert(self.wf()) by {
                    assert(old(self).wf());
                }
                if old(self).tail_segments_nonempty() {
                    assert(self.tail_segments_nonempty());
                }
                assert(self.all_items().len() == old(self).all_items().len() + 1);
            }
            return;
        }
        let ghost head_version = self.version;
        match &mut self.next {
            Some(n) => {
                let ghost old_n = **n;
                n.push_sorted(version, value);
                proof {
                    assert forall|v: u32| v != version implies self.items_of(v) == old(
                        self,
                    ).items_of(v) by {
                        if v == head_version {
                            assert(self.items_of(v) == self.list@);
                        } else {
                            assert(self.items_of(v) == (*n).items_of(v));
                            assert(old(self).items_of(v) == old_n.items_of(v));
                        }
                    }
                    assert(self.items_of(version) == (*n).items_of(version));
                    assert(old(self).items_of(version) == old_n.items_of(version));
                    assert(self.all_items() =~= self.list@ + (*n).all_items());
                    assert(old(self).all_items() =~= self.list@ + old_n.all_items());
                    assert(self.all_items().len() == old(self).all_items().len() + 1);
                    if old_n.has_version(version) {
                        assert(self.versions() =~= old(self).versions());
                        assert(old(self).has_version(version)) by {
                            let i = choose|i: int|
                                0 <= i < old_n.versions().len() && old_n.versions()[i] == version;
                            assert(old(self).versions()[i + 1] == version);
                        }
                    } else {
                        assert(self.versions() =~= old(self).versions().push(version));
                        assert(!old(self).has_version(version)) by {
                            if old(self).has_version(version) {
                                let i = choose|i: int|
                                    0 <= i < old(self).versions().len() && old(self).versions()[i]
                                        == version;
                                assert(i != 0);
                                assert(old_n.versions()[i - 1] == version);
                            }
                        }
                    }
                    assert(!((*n).versions().contains(head_version))) by {
                        if (*n).versions().contains(head_version) {
                            let i = choose|i: int|
                                0 <= i < (*n).versions().len() && (*n).versions()[i]
                                    == head_version;
                            if old_n.has_version(version) {
                                assert(old_n.versions().contains(head_version));
                            } else {
                                assert((*n).versions() == old_n.versions().push(version));
                                if i < old_n.versions().len() {
                                    assert(old_n.versions()[i] == head_version);
                                } else {
                                    assert(head_version == version);
                                }
                            }
                        }
                    }
                    assert(self.wf()) by {
                        assert((*n).wf());
                        assert(!((*n).versions().contains(head_version)));
                    }
                    if old(self).tail_segments_nonempty() {
                        assert(old_n.list@.len() > 0 && old_n.tail_segments_nonempty());
                        assert((*n).list@.len() > 0 && (*n).tail_segments_nonempty());
                        assert(self.tail_segments_nonempty());
                    }
                }
            },
            None => {
                let mut seg = VersionedVec::new(version);
                seg.list.push(value);
                let ghost gseg = seg;
                self.next = Some(Box::new(seg));
                proof {
                    assert(gseg.versions() =~= seq![version]);
                    assert(gseg.items_of(version) =~= seq![value]);
                    assert(self.versions() =~= seq![head_version] + gseg.versions());
                    assert(self.versions() =~= old(self).versions().push(version));
                    assert(!old(self).has_version(version)) by {
                        assert(old(self).versions() =~= seq![head_version]);
                    }
                    assert(old(self).items_of(version) =~= Seq::<DocEntry>::empty());
                    assert(self.items_of(version) =~= gseg.items_of(version));
                    assert(self.items_of(version) =~= spec_insert_sorted(
                        old(self).items_of(version),
                        value,
                    ));
                    assert forall|v: u32| v != version implies self.items_of(v) == old(
                        self,
                    ).items_of(v) by {
                        if v == head_version {
                            assert(self.items_of(v) == self.list@);
                        } else {
                            assert(gseg.items_of(v) =~= Seq::<DocEntry>::empty());
                            assert(self.items_of(v) == gseg.items_of(v));
                            assert(old(self).items_of(v) =~= Seq::<DocEntry>::empty());
                        }
                    }
                    assert(self.wf()) by {
                        assert(gseg.wf());
                        assert(!gseg.versions().contains(head_version));
                    }
                    assert(gseg.list@.len() == 1);
                    assert(gseg.tail_segments_nonempty());
                    assert(self.tail_segments_nonempty());
                    assert(self.all_items() =~= old(self).all_items() + gseg.all_items());
                    assert(gseg.all_items() =~= seq![value]);
                    assert(self.all_items().len() == old(self).all_items().len() + 1);
                }
            },
        }
    }
}

/// When every entry from position `i` on is larger than the new id and
/// insertion happens at `i`, the spec-level sorted insert agrees.
proof fn lemma_insert_sorted_suffix(s: Seq<DocEntry>, v: DocEntry, i: int)
    requires
        0 <= i <= s.len(),
        forall|j: int| i <= j < s.len() ==> (#[trigger] s[j]).0 > v.0,
        i > 0 ==> s[i - 1].0 <= v.0,
    ensures
        spec_insert_sorted(s, v) == s.take(i).push(v) + s.skip(i),
    decreases s.len() - i,
{
    if i == s.len() {
        if s.len() == 0 || s.last().0 <= v.0 {
            assert(spec_insert_sorted(s, v) =~= s.take(i).push(v) + s.skip(i));
        } else {
            assert(s.last().0 > v.0);
            assert(i > 0 && s[i - 1].0 <= v.0);
            assert(false);
        }
    } else {
        assert(s.last().0 > v.0);
        assert(s.len() > 0 && !(s.last().0 <= v.0));
        let d = s.drop_last();
        lemma_insert_sorted_suffix(d, v, i);
        assert(d.take(i) =~= s.take(i));
        assert(spec_insert_sorted(s, v) =~= s.take(i).push(v) + s.skip(i)) by {
            assert(spec_insert_sorted(d, v) == d.take(i).push(v) + d.skip(i));
            assert(spec_insert_sorted(s, v) == spec_insert_sorted(d, v).push(s.last()));
            assert(d.skip(i).push(s.last()) =~= s.skip(i));
        }
    }
}

} // verus!
