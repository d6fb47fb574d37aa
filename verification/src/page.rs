//! Fixed-capacity pages and the `Pagepool`, the append-only posting list
//! used by the inverted indexes. A page holds up to `LEN` vector ids and
//! a length counter; unused slots keep the filler value `u32::MAX`.

use vstd::prelude::*;

verus! {

/// One fixed-capacity page of vector ids.
///
/// `data` always holds exactly `LEN` slots; the first `len` are live.
/// `serialized_at` is volatile bookkeeping (the file offset the page was
/// last written at) and takes no part in the page's logical content.
pub struct Page<const LEN: usize> {
    pub data: Vec<u32>,
    pub len: usize,
    pub serialized_at: Option<u32>,
}

impl<const LEN: usize> Page<LEN> {
    /// Structural invariant: a full complement of slots, a valid length.
    pub open spec fn wf(self) -> bool {
        &&& self.data@.len() == LEN
        &&& self.len <= LEN
    }

    /// The live entries: the prefix of `data` of length `len`.
    pub open spec fn view(self) -> Seq<u32> {
        self.data@.take(self.len as int)
    }

    pub fn new() -> (r: Self)
        ensures
            r.wf(),
            r.view() == Seq::<u32>::empty(),
            r.len == 0,
            r.serialized_at is None,
            r.data@ == Seq::new(LEN as nat, |i: int| u32::MAX),
    {
        let mut data: Vec<u32> = Vec::new();
        let mut i: usize = 0;
        while i < LEN
            invariant
                i <= LEN,
                data@ == Seq::new(i as nat, |j: int| u32::MAX),
            decreases LEN - i,
        {
            data.push(u32::MAX);
            assert(data@ =~= Seq::new((i + 1) as nat, |j: int| u32::MAX));
            i += 1;
        }
        let r = Page { data, len: 0, serialized_at: None };
        assert(r.view() =~= Seq::<u32>::empty());
        r
    }

    /// Appends one id into the next free slot.
    pub fn push(&mut self, data: u32)
        requires
            old(self).wf(),
            old(self).len < LEN,
        ensures
            final(self).wf(),
            final(self).view() == old(self).view().push(data),
            final(self).len == old(self).len + 1,
            final(self).serialized_at == old(self).serialized_at,
            forall|i: int|
                old(self).len < i < LEN ==> #[trigger] final(self).data@[i] == old(self).data@[i],
    {
        let i = self.len;
        self.data[i] = data;
        self.len = i + 1;
        assert(self.view() =~= old(self).view().push(data));
    }

    /// Wraps a full complement of slots as a full page: all `LEN`
    /// entries are live, so a restored chunk counts toward the pool's
    /// page lengths like any other insertions.
    pub fn from_data(data: Vec<u32>) -> (r: Self)
        requires
            data@.len() == LEN,
        ensures
            r.wf(),
            r.data@ == data@,
            r.len == LEN,
            r.view() == data@,
            r.serialized_at is None,
    {
        let r = Page { data, len: LEN, serialized_at: None };
        assert(r.view() =~= r.data@);
        r
    }

    pub fn is_full(&self) -> (r: bool)
        requires
            self.wf(),
        ensures
            r == (self.len == LEN),
    {
        self.len == LEN
    }
}

impl<const LEN: usize> Clone for Page<LEN> {
    fn clone(&self) -> (r: Self)
        ensures
            r.data@ == self.data@,
            r.len == self.len,
            r.serialized_at == self.serialized_at,
    {
        Page { data: self.data.clone(), len: self.len, serialized_at: self.serialized_at }
    }
}

/// An append-only posting list: a vector of fixed-capacity pages.
/// Appends go to the last page while it has room, then open a new page.
pub struct Pagepool<const LEN: usize> {
    pub inner: Vec<Page<LEN>>,
}

/// The concatenation of the live entries of a sequence of pages.
pub open spec fn flatten_pages<const LEN: usize>(pages: Seq<Page<LEN>>) -> Seq<u32>
    decreases pages.len(),
{
    if pages.len() == 0 {
        Seq::empty()
    } else {
        flatten_pages(pages.drop_last()) + pages.last().view()
    }
}

/// Total of the pages' length counters.
pub open spec fn sum_page_lens<const LEN: usize>(pages: Seq<Page<LEN>>) -> int
    decreases pages.len(),
{
    if pages.len() == 0 {
        0
    } else {
        sum_page_lens(pages.drop_last()) + pages.last().len
    }
}

impl<const LEN: usize> Pagepool<LEN> {
    pub open spec fn wf(self) -> bool {
        forall|i: int| 0 <= i < self.inner@.len() ==> (#[trigger] self.inner@[i]).wf()
    }

    /// The posting list as the flat sequence of live ids.
    pub open spec fn view(self) -> Seq<u32> {
        flatten_pages(self.inner@)
    }

    pub fn new() -> (r: Self)
        ensures
            r.wf(),
            r.view() == Seq::<u32>::empty(),
            r.inner@.len() == 0,
    {
        Pagepool { inner: Vec::new() }
    }

    /// Appends one id, opening a new page when the last one is full.
    pub fn push(&mut self, data: u32)
        requires
            old(self).wf(),
            LEN > 0,
        ensures
            final(self).wf(),
            final(self).view() == old(self).view().push(data),
    {
        let n = self.inner.len();
        if n > 0 {
            let full = self.inner[n - 1].is_full();
            if !full {
                let ghost prefix = self.inner@;
                let last = &mut self.inner[n - 1];
                last.push(data);
                proof {
                    lemma_flatten_update_last(prefix, self.inner@, data);
                }
                return;
            }
        }
        let mut page = Page::<LEN>::new();
        page.push(data);
        let ghost prefix = self.inner@;
        self.inner.push(page);
        proof {
            assert(self.inner@.drop_last() =~= prefix);
            assert(self.view() =~= old(self).view().push(data));
        }
    }

    /// Appends a whole chunk as one full page: the flat view grows by
    /// the chunk's `LEN` entries, and so does the sum of page lengths.
    pub fn push_chunk(&mut self, chunk: Vec<u32>)
        requires
            old(self).wf(),
            chunk@.len() == LEN,
        ensures
            final(self).wf(),
            final(self).view() == old(self).view() + chunk@,
            final(self).inner@.len() == old(self).inner@.len() + 1,
            final(self).inner@.last().data@ == chunk@,
    {
        let ghost c = chunk@;
        let page = Page::<LEN>::from_data(chunk);
        let ghost prefix = self.inner@;
        self.inner.push(page);
        proof {
            assert(self.inner@.drop_last() =~= prefix);
            assert(self.view() =~= old(self).view() + c);
        }
    }

    /// Whether any page carries `data` in any of its slots, live or not.
    pub fn contains(&self, data: u32) -> (r: bool)
        requires
            self.wf(),
        ensures
            r == exists|i: int|
                0 <= i < self.inner@.len() && (#[trigger] self.inner@[i]).data@.contains(data),
    {
        let n = self.inner.len();
        let mut i: usize = 0;
        while i < n
            invariant
                n == self.inner@.len(),
                i <= n,
                self.wf(),
                forall|j: int| 0 <= j < i ==> !(#[trigger] self.inner@[j]).data@.contains(data),
            decreases n - i,
        {
            let page = &self.inner[i];
            let m = page.data.len();
            let mut k: usize = 0;
            while k < m
                invariant
                    i < self.inner@.len(),
                    self.inner@[i as int] == *page,
                    m == page.data@.len(),
                    k <= m,
                    forall|t: int| 0 <= t < k ==> page.data@[t] != data,
                decreases m - k,
            {
                if page.data[k] == data {
                    assert(self.inner@[i as int].data@[k as int] == data);
                    assert(self.inner@[i as int].data@.contains(data));
                    return true;
                }
                k += 1;
            }
            assert(!self.inner@[i as int].data@.contains(data));
            i += 1;
        }
        false
    }

    /// The live entries, flattened in page order.
    pub fn to_vec(&self) -> (r: Vec<u32>)
        requires
            self.wf(),
        ensures
            r@ == self.view(),
    {
        let mut r: Vec<u32> = Vec::new();
        let n = self.inner.len();
        let mut i: usize = 0;
        while i < n
            invariant
                n == self.inner@.len(),
                i <= n,
                self.wf(),
                r@ == flatten_pages(self.inner@.take(i as int)),
            decreases n - i,
        {
            let page = &self.inner[i];
            let mut k: usize = 0;
            while k < page.len
                invariant
                    self.inner@[i as int] == *page,
                    page.wf(),
                    k <= page.len,
                    r@ == flatten_pages(self.inner@.take(i as int)) + page.view().take(k as int),
                decreases page.len - k,
            {
                r.push(page.data[k]);
                assert(page.view().take((k + 1) as int) =~= page.view().take(k as int).push(
                    page.data@[k as int],
                ));
                k += 1;
            }
            proof {
                assert(self.inner@.take((i + 1) as int).drop_last() =~= self.inner@.take(i as int));
                assert(self.inner@.take((i + 1) as int).last() == self.inner@[i as int]);
                assert(page.view().take(page.len as int) =~= page.view());
            }
            i += 1;
        }
        proof {
            assert(self.inner@.take(n as int) =~= self.inner@);
        }
        r
    }

    /// The flat count of live entries.
    pub fn total_len(&self) -> (r: usize)
        requires
            self.wf(),
            self.view().len() <= usize::MAX,
        ensures
            r == self.view().len(),
    {
        let n = self.inner.len();
        let mut total: usize = 0;
        let mut i: usize = 0;
        while i < n
            invariant
                n == self.inner@.len(),
                i <= n,
                self.wf(),
                self.view().len() <= usize::MAX,
                total == flatten_pages(self.inner@.take(i as int)).len(),
            decreases n - i,
        {
            proof {
                assert(self.inner@.take((i + 1) as int).drop_last() =~= self.inner@.take(i as int));
                lemma_flatten_prefix_bound(self.inner@, (i + 1) as int);
            }
            total = total + self.inner[i].len;
            proof {
                assert(self.inner@[i as int].view().len() == self.inner@[i as int].len);
            }
            i += 1;
        }
        proof {
            assert(self.inner@.take(n as int) =~= self.inner@);
        }
        total
    }
}

impl<const LEN: usize> Clone for Pagepool<LEN> {
    fn clone(&self) -> (r: Self)
        ensures
            r.inner@.len() == self.inner@.len(),
            forall|i: int|
                0 <= i < self.inner@.len() ==> {
                    &&& (#[trigger] r.inner@[i]).data@ == self.inner@[i].data@
                    &&& r.inner@[i].len == self.inner@[i].len
                },
            self.wf() ==> r.wf() && r.view() == self.view(),
    {
        let mut inner: Vec<Page<LEN>> = Vec::new();
        let n = self.inner.len();
        let mut i: usize = 0;
        while i < n
            invariant
                n == self.inner@.len(),
                i <= n,
                inner@.len() == i,
                forall|j: int|
                    0 <= j < i ==> {
                        &&& (#[trigger] inner@[j]).data@ == self.inner@[j].data@
                        &&& inner@[j].len == self.inner@[j].len
                    },
            decreases n - i,
        {
            inner.push(self.inner[i].clone());
            i += 1;
        }
        let r = Pagepool { inner };
        proof {
            if self.wf() {
                assert forall|j: int| 0 <= j < r.inner@.len() implies (
                #[trigger] r.inner@[j]).wf() by {
                    assert(self.inner@[j].wf());
                }
                lemma_flatten_pointwise(r.inner@, self.inner@);
            }
        }
        r
    }
}

/// Appending into the last page extends the flat view by that element.
proof fn lemma_flatten_update_last<const LEN: usize>(
    before: Seq<Page<LEN>>,
    after: Seq<Page<LEN>>,
    data: u32,
)
    requires
        before.len() > 0,
        after.len() == before.len(),
        forall|i: int| 0 <= i < before.len() - 1 ==> after[i] == before[i],
        after.last().view() == before.last().view().push(data),
    ensures
        flatten_pages(after) == flatten_pages(before).push(data),
{
    assert(after.drop_last() =~= before.drop_last());
    assert(flatten_pages(after) =~= flatten_pages(before).push(data));
}

/// Pages equal element-wise have equal flat views.
proof fn lemma_flatten_pointwise<const LEN: usize>(a: Seq<Page<LEN>>, b: Seq<Page<LEN>>)
    requires
        a.len() == b.len(),
        forall|i: int|
            0 <= i < a.len() ==> (#[trigger] a[i]).data@ == b[i].data@ && a[i].len == b[i].len,
    ensures
        flatten_pages(a) == flatten_pages(b),
    decreases a.len(),
{
    if a.len() > 0 {
        lemma_flatten_pointwise(a.drop_last(), b.drop_last());
        assert(a.last().view() =~= b.last().view());
        assert(flatten_pages(a) =~= flatten_pages(b));
    } else {
        assert(flatten_pages(a) =~= flatten_pages(b));
    }
}

/// A prefix of the pages contributes no more entries than the whole.
proof fn lemma_flatten_prefix_bound<const LEN: usize>(pages: Seq<Page<LEN>>, i: int)
    requires
        0 <= i <= pages.len(),
    ensures
        flatten_pages(pages.take(i)).len() <= flatten_pages(pages).len(),
    decreases pages.len() - i,
{
    if i < pages.len() {
        assert(pages.take(i + 1).drop_last() =~= pages.take(i));
        lemma_flatten_prefix_bound(pages, i + 1);
    } else {
        assert(pages.take(i) =~= pages);
    }
}

/// The flat view holds exactly the pages' length counters' worth of
/// entries: the sum of page lengths equals the number of live ids.
pub proof fn lemma_sum_page_lens_is_flat_len<const LEN: usize>(pages: Seq<Page<LEN>>)
    requires
        forall|i: int| 0 <= i < pages.len() ==> (#[trigger] pages[i]).wf(),
    ensures
        sum_page_lens(pages) == flatten_pages(pages).len(),
    decreases pages.len(),
{
    if pages.len() > 0 {
        lemma_sum_page_lens_is_flat_len(pages.drop_last());
        assert(pages.last().wf());
        assert(pages.last().view().len() == pages.last().len);
    }
}

} // verus!
