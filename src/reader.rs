use vstd::prelude::*;
use crate::model::Track;

verus! {

broadcast use vstd::seq_lib::group_to_multiset_ensures;

/// The page that the reader asks for next.
#[derive(Clone, Copy, Debug, PartialEq, Eq, Structural)]
pub struct PageRequest {
    pub offset: usize,
    pub limit: usize,
}

/// Drains a paginated remote collection into one ordered sequence.
///
/// The caller asks `next_request` which page to fetch, fetches it, and hands
/// it to `accept_page` with the service's word on whether another page
/// follows, until `next_request` says there is nothing left to read.
pub struct PageReader<T> {
    pub items: Vec<T>,
    pub offset: usize,
    pub page_size: usize,
    pub finished: bool,
}

/// The state of a reader as mathematical values.
pub ghost struct ReaderView<T> {
    pub items: Seq<T>,
    pub offset: nat,
    pub page_size: nat,
    pub finished: bool,
}

/// A reader that has not read anything yet.
pub open spec fn initial_reader<T>(page_size: nat) -> ReaderView<T> {
    ReaderView { items: Seq::empty(), offset: 0, page_size, finished: false }
}

/// The reader after a page: its entries are appended, the offset moves on
/// by the number of entries returned, and the reader stops when no page
/// follows.
pub open spec fn after_page<T>(v: ReaderView<T>, page: Seq<T>, has_next: bool) -> ReaderView<T> {
    ReaderView {
        items: v.items + page,
        offset: v.offset + page.len(),
        page_size: v.page_size,
        finished: !has_next,
    }
}

impl<T> View for PageReader<T> {
    type V = ReaderView<T>;

    open spec fn view(&self) -> ReaderView<T> {
        ReaderView {
            items: self.items@,
            offset: self.offset as nat,
            page_size: self.page_size as nat,
            finished: self.finished,
        }
    }
}

impl<T> PageReader<T> {
    /// The reader's invariant: the offset counts the entries read so far.
    pub open spec fn well_formed(&self) -> bool {
        &&& self.offset == self.items@.len()
        &&& self.page_size > 0
    }

    /// A reader that asks for pages of `page_size` entries from the start.
    pub fn new(page_size: usize) -> (r: PageReader<T>)
        requires
            page_size > 0,
        ensures
            r.well_formed(),
            r@ == initial_reader::<T>(page_size as nat),
    {
        PageReader { items: Vec::new(), offset: 0, page_size, finished: false }
    }

    /// The page to fetch next, or `None` once the collection is drained.
    pub fn next_request(&self) -> (r: Option<PageRequest>)
        ensures
            self@.finished ==> r is None,
            !self@.finished ==> r == Some(PageRequest { offset: self.offset, limit: self.page_size }),
    {
        if self.finished {
            None
        } else {
            Some(PageRequest { offset: self.offset, limit: self.page_size })
        }
    }

    /// Whether the collection has been drained.
    pub fn is_finished(&self) -> (r: bool)
        ensures
            r == self@.finished,
    {
        self.finished
    }

    /// Takes in the entries of the page last asked for, and whether the
    /// service says another page follows.
    pub fn accept_page(&mut self, page: Vec<T>, has_next: bool)
        requires
            old(self).well_formed(),
            !old(self)@.finished,
            old(self)@.offset + page@.len() <= usize::MAX,
        ensures
            final(self).well_formed(),
            final(self)@ == after_page(old(self)@, page@, has_next),
    {
        let mut page = page;
        let n: usize = page.len();
        self.items.append(&mut page);
        self.offset = self.offset + n;
        self.finished = !has_next;
    }

    /// The entries read, in the order the pages gave them.
    pub fn into_items(self) -> (r: Vec<T>)
        ensures
            r@ == self@.items,
    {
        self.items
    }
}

/// The page that a collection holding `snapshot` hands out at `offset`:
/// at most `page_size` entries from there on.
pub open spec fn page_at<T>(snapshot: Seq<T>, offset: nat, page_size: nat) -> Seq<T> {
    if offset >= snapshot.len() {
        Seq::empty()
    } else if offset + page_size <= snapshot.len() {
        snapshot.subrange(offset as int, (offset + page_size) as int)
    } else {
        snapshot.subrange(offset as int, snapshot.len() as int)
    }
}

/// A reader run against a collection holding `snapshot` that says another
/// page follows after each page with entries: the final state, and the
/// number of pages read.
pub open spec fn drain<T>(v: ReaderView<T>, snapshot: Seq<T>) -> (ReaderView<T>, nat)
    decreases snapshot.len() - v.offset,
{
    if v.finished || v.page_size == 0 {
        (v, 0)
    } else {
        let page = page_at(snapshot, v.offset, v.page_size);
        let next = after_page(v, page, page.len() > 0);
        if page.len() == 0 || v.offset >= snapshot.len() {
            (next, 1)
        } else {
            let r = drain(next, snapshot);
            (r.0, r.1 + 1)
        }
    }
}

proof fn lemma_drain_from<T>(v: ReaderView<T>, snapshot: Seq<T>)
    requires
        !v.finished,
        v.page_size > 0,
        v.offset <= snapshot.len(),
        v.items == snapshot.take(v.offset as int),
    ensures
        drain(v, snapshot).0.items == snapshot,
        drain(v, snapshot).0.finished,
        drain(v, snapshot).1 == (snapshot.len() - v.offset + v.page_size - 1) as nat / v.page_size + 1,
    decreases snapshot.len() - v.offset,
{
    let p = v.page_size as int;
    let left = snapshot.len() - v.offset;
    let page = page_at(snapshot, v.offset, v.page_size);
    let next = after_page(v, page, page.len() > 0);
    if left == 0 {
        assert(snapshot.take(v.offset as int) =~= snapshot);
        assert(next.items =~= snapshot);
        assert((p - 1) / p == 0) by (nonlinear_arith) requires p > 0;
    } else {
        assert(next.items =~= snapshot.take(next.offset as int));
        lemma_drain_from(next, snapshot);
        let m = page.len() as int;
        if left >= p {
            assert(m == p);
            assert((left - p + p - 1) / p + 1 == (left + p - 1) / p) by (nonlinear_arith)
                requires p > 0, left >= p;
        } else {
            assert(m == left);
            assert((p - 1) / p == 0) by (nonlinear_arith) requires p > 0;
            assert((left + p - 1) / p == 1) by (nonlinear_arith) requires p > 0, 0 < left < p;
        }
    }
}

/// Drained from a collection holding `snapshot` with page size `p`, the
/// reader reads ceil(N / p) + 1 pages, the last one empty, and ends with all
/// N entries in the collection's order.
pub proof fn lemma_reader_drains<T>(snapshot: Seq<T>, p: nat)
    requires
        p > 0,
    ensures
        drain(initial_reader::<T>(p), snapshot).0.finished,
        drain(initial_reader::<T>(p), snapshot).0.items == snapshot,
        drain(initial_reader::<T>(p), snapshot).1 == (snapshot.len() + p - 1) as nat / p + 1,
{
    assert(snapshot.take(0) =~= Seq::<T>::empty());
    lemma_drain_from(initial_reader::<T>(p), snapshot);
}

/// Whether `s` is in ascending order of save time.
pub open spec fn sorted_by_added_at(s: Seq<Track>) -> bool {
    forall|i: int, j: int| 0 <= i < j < s.len() ==> s[i].added_at <= s[j].added_at
}

/// Puts tracks in ascending order of save time.
pub fn sort_by_added_at(tracks: Vec<Track>) -> (r: Vec<Track>)
    ensures
        sorted_by_added_at(r@),
        r@.to_multiset() == tracks@.to_multiset(),
{
    let mut rest = tracks;
    let mut out: Vec<Track> = Vec::new();
    while rest.len() > 0
        invariant
            sorted_by_added_at(out@),
            out@.to_multiset().add(rest@.to_multiset()) == tracks@.to_multiset(),
        decreases rest@.len(),
    {
        let ghost old_rest = rest@;
        let t = rest.pop().unwrap();
        assert(old_rest == rest@.push(t));
        let mut pos: usize = 0;
        while pos < out.len() && out[pos].added_at < t.added_at
            invariant
                pos <= out@.len(),
                forall|k: int| 0 <= k < pos ==> out@[k].added_at < t.added_at,
            decreases out@.len() - pos,
        {
            pos = pos + 1;
        }
        let ghost old_out = out@;
        out.insert(pos, t);
        proof {
            vstd::seq_lib::to_multiset_insert(old_out, pos as int, t);
            assert(out@ == old_out.insert(pos as int, t));
            assert forall|i: int, j: int| 0 <= i < j < out@.len() implies out@[i].added_at <= out@[j].added_at by {
                if j < pos {
                } else if j == pos {
                } else if i < pos {
                    assert(out@[j] == old_out[j - 1]);
                    assert(old_out[pos as int].added_at >= t.added_at);
                } else if i == pos {
                    assert(out@[j] == old_out[j - 1]);
                    assert(old_out[pos as int].added_at >= t.added_at);
                } else {
                    assert(out@[i] == old_out[i - 1]);
                    assert(out@[j] == old_out[j - 1]);
                }
            }
        }
    }
    assert(rest@ =~= Seq::<Track>::empty());
    out
}

} // verus!
