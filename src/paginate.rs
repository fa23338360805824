use vstd::prelude::*;
use crate::value::{Value, names_of};

verus! {

/// The most values that one page holds.
pub const STREAM_PAGE_SIZE: usize = 1000;

/// The page's age is looked at each time its size reaches a multiple of this.
pub const STREAM_TIMEOUT_CHECK_INTERVAL: usize = 100;

/// A batch of values with one column signature, and the row number of its
/// first value.
#[derive(Debug)]
pub struct Page {
    pub values: Vec<Value>,
    pub offset: usize,
}

/// All values of `page` have the field names of its first.
pub open spec fn homogeneous(page: Seq<Value>) -> bool {
    forall|i: int| 0 <= i < page.len() ==> #[trigger] names_of(page[i]) == names_of(page[0])
}

/// Gathers a stream of values into pages: a page ends when it is full, when
/// it has been filling for too long (checked every
/// `STREAM_TIMEOUT_CHECK_INTERVAL` values), or when a value with other field
/// names arrives, which then starts the next page.
pub struct Paginator {
    page: Vec<Value>,
    offset: usize,
    finished: bool,
}

impl Paginator {
    /// The values gathered for the page being filled.
    pub closed spec fn pending(&self) -> Seq<Value> {
        self.page@
    }

    /// The row number of the first pending value.
    pub closed spec fn next_offset(&self) -> int {
        self.offset as int
    }

    /// Whether the end of the stream has been fed.
    pub closed spec fn is_finished(&self) -> bool {
        self.finished
    }

    pub open spec fn wf(&self) -> bool {
        &&& self.pending().len() < STREAM_PAGE_SIZE
        &&& homogeneous(self.pending())
        &&& self.next_offset() + self.pending().len() <= usize::MAX
    }

    /// A paginator with nothing gathered, numbering rows from 0.
    pub fn new() -> (r: Paginator)
        ensures
            r.wf(),
            r.pending().len() == 0,
            r.next_offset() == 0,
            !r.is_finished(),
    {
        Paginator { page: Vec::new(), offset: 0, finished: false }
    }

    /// Whether one more value can be numbered.
    pub fn can_accept(&self) -> (r: bool)
        requires
            self.wf(),
        ensures
            r == (!self.is_finished() && self.next_offset() + self.pending().len() < usize::MAX),
    {
        !self.finished && self.offset < usize::MAX - self.page.len()
    }

    fn flush(&mut self) -> (r: Page)
        requires
            old(self).next_offset() + old(self).pending().len() <= usize::MAX,
        ensures
            r.values@ == old(self).pending(),
            r.offset as int == old(self).next_offset(),
            final(self).pending().len() == 0,
            final(self).next_offset() == old(self).next_offset() + old(self).pending().len(),
            final(self).is_finished() == old(self).is_finished(),
    {
        let mut values: Vec<Value> = Vec::new();
        std::mem::swap(&mut values, &mut self.page);
        let offset = self.offset;
        self.offset = self.offset + values.len();
        Page { values, offset }
    }

    /// Takes the next pull's result: a value, or `None` at the end of the
    /// stream. `over_time` tells whether the page has been filling for the
    /// full time budget. Returns the page that this ends, if any.
    pub fn feed(&mut self, item: Option<Value>, over_time: bool) -> (r: Option<Page>)
        requires
            old(self).wf(),
            !old(self).is_finished(),
            old(self).next_offset() + old(self).pending().len() < usize::MAX,
        ensures
            final(self).wf(),
            ({
                let p = old(self).pending();
                let o = old(self).next_offset();
                match item {
                    None => final(self).is_finished() && final(self).pending().len() == 0
                        && final(self).next_offset() == o + p.len()
                        && if p.len() > 0 {
                            r matches Some(pg) && pg.values@ == p && pg.offset == o
                        } else {
                            r is None
                        },
                    Some(a) => !final(self).is_finished() && if p.len() > 0 && names_of(p[0]) != names_of(a) {
                        r matches Some(pg) && pg.values@ == p && pg.offset == o
                            && final(self).pending() == seq![a]
                            && final(self).next_offset() == o + p.len()
                    } else if p.len() + 1 == STREAM_PAGE_SIZE
                        || ((p.len() + 1) % (STREAM_TIMEOUT_CHECK_INTERVAL as nat) == 0 && over_time) {
                        r matches Some(pg) && pg.values@ == p.push(a) && pg.offset == o
                            && final(self).pending().len() == 0
                            && final(self).next_offset() == o + p.len() + 1
                    } else {
                        r is None && final(self).pending() == p.push(a)
                            && final(self).next_offset() == o
                    },
                }
            }),
    {
        match item {
            None => {
                self.finished = true;
                if self.page.len() > 0 {
                    Some(self.flush())
                } else {
                    None
                }
            },
            Some(a) => {
                if self.page.len() > 0 && !self.page[0].same_columns(&a) {
                    let page = self.flush();
                    self.page.push(a);
                    proof {
                        assert(homogeneous(self.page@));
                    }
                    Some(page)
                } else {
                    let ghost p = self.page@;
                    self.page.push(a);
                    proof {
                        assert(self.page@ == p.push(a));
                        assert forall|i: int| 0 <= i < self.page@.len() implies #[trigger] names_of(self.page@[i])
                            == names_of(self.page@[0]) by {
                            if p.len() > 0 {
                                assert(self.page@[0] == p[0]);
                                if i < p.len() {
                                    assert(self.page@[i] == p[i]);
                                }
                            }
                        }
                    }
                    let n = self.page.len();
                    if n == STREAM_PAGE_SIZE || (n % STREAM_TIMEOUT_CHECK_INTERVAL == 0 && over_time) {
                        Some(self.flush())
                    } else {
                        None
                    }
                }
            },
        }
    }
}

/// The values of `pages`, one page after another.
pub open spec fn concat_pages(pages: Seq<Page>) -> Seq<Value>
    decreases pages.len(),
{
    if pages.len() == 0 {
        Seq::empty()
    } else {
        concat_pages(pages.drop_last()) + pages.last().values@
    }
}

/// Page `p` of `pages` is well formed: not empty, not over the size limit,
/// of one column signature, and numbered after the pages before it.
pub open spec fn page_ok(pages: Seq<Page>, p: int) -> bool {
    &&& 1 <= pages[p].values@.len() <= STREAM_PAGE_SIZE
    &&& homogeneous(pages[p].values@)
    &&& pages[p].offset as int == concat_pages(pages.take(p)).len()
}

/// Page `p` ended only because it was full or because page `p + 1` starts
/// with other field names.
pub open spec fn page_ended_for_cause(pages: Seq<Page>, p: int) -> bool {
    pages[p].values@.len() == STREAM_PAGE_SIZE
        || names_of(pages[p + 1].values@[0]) != names_of(pages[p].values@[0])
}

proof fn lemma_concat_take(pages: Seq<Page>, p: int)
    requires
        0 <= p < pages.len(),
    ensures
        concat_pages(pages.take(p + 1)) == concat_pages(pages.take(p)) + pages[p].values@,
{
    assert(pages.take(p + 1).drop_last() =~= pages.take(p));
}

proof fn lemma_concat_index(pages: Seq<Page>, p: int, j: int)
    requires
        0 <= p < pages.len(),
        0 <= j < pages[p].values@.len(),
    ensures
        concat_pages(pages.take(p)).len() + j < concat_pages(pages).len(),
        concat_pages(pages)[concat_pages(pages.take(p)).len() + j] == pages[p].values@[j],
    decreases pages.len(),
{
    let init = pages.drop_last();
    if p == pages.len() - 1 {
        assert(pages.take(p) =~= init);
    } else {
        lemma_concat_index(init, p, j);
        assert(init.take(p) =~= pages.take(p));
        assert(init[p] == pages[p]);
    }
}

/// A stream whose values all have the same field names is cut only where
/// pages are full: every page but the last holds `STREAM_PAGE_SIZE` values,
/// page `p` starts at row `p * STREAM_PAGE_SIZE`, and the last page holds
/// the rest.
pub proof fn lemma_uniform_stream_pages(values: Seq<Value>, pages: Seq<Page>)
    requires
        concat_pages(pages) == values,
        forall|p: int| 0 <= p < pages.len() ==> #[trigger] page_ok(pages, p),
        forall|p: int| 0 <= p < pages.len() - 1 ==> #[trigger] page_ended_for_cause(pages, p),
        forall|i: int| 0 <= i < values.len() ==> #[trigger] names_of(values[i]) == names_of(values[0]),
    ensures
        forall|p: int| 0 <= p < pages.len() - 1 ==> #[trigger] pages[p].values@.len() == STREAM_PAGE_SIZE,
        forall|p: int| 0 <= p < pages.len() ==> #[trigger] pages[p].offset == p * STREAM_PAGE_SIZE,
        pages.len() == 0 <==> values.len() == 0,
        pages.len() > 0 ==> values.len() == (pages.len() - 1) * STREAM_PAGE_SIZE + pages.last().values@.len(),
{
    assert forall|p: int| 0 <= p < pages.len() - 1 implies #[trigger] pages[p].values@.len() == STREAM_PAGE_SIZE by {
        assert(page_ended_for_cause(pages, p));
        assert(page_ok(pages, p));
        assert(page_ok(pages, p + 1));
        lemma_concat_index(pages, p, 0);
        lemma_concat_index(pages, p + 1, 0);
        let a = concat_pages(pages.take(p)).len() as int;
        let b = concat_pages(pages.take(p + 1)).len() as int;
        assert(names_of(values[a]) == names_of(values[0]));
        assert(names_of(values[b]) == names_of(values[0]));
    }
    lemma_uniform_offsets(pages, pages.len() as int);
    assert forall|p: int| 0 <= p < pages.len() implies #[trigger] pages[p].offset == p * STREAM_PAGE_SIZE by {
        assert(page_ok(pages, p));
        lemma_uniform_offsets(pages, p);
    }
    if pages.len() > 0 {
        let n = pages.len() - 1;
        lemma_uniform_offsets(pages, n);
        assert(pages.take(n) =~= pages.drop_last());
        assert(page_ok(pages, n));
    } else {
        assert(values.len() == 0);
    }
    if values.len() == 0 && pages.len() > 0 {
        assert(page_ok(pages, pages.len() - 1));
        assert(pages.take(pages.len() - 1) =~= pages.drop_last());
    }
}

proof fn lemma_uniform_offsets(pages: Seq<Page>, n: int)
    requires
        0 <= n <= pages.len(),
        forall|p: int| 0 <= p < pages.len() - 1 ==> #[trigger] pages[p].values@.len() == STREAM_PAGE_SIZE,
    ensures
        n < pages.len() ==> concat_pages(pages.take(n)).len() == n * STREAM_PAGE_SIZE,
    decreases n,
{
    if n > 0 && n < pages.len() {
        lemma_uniform_offsets(pages, n - 1);
        lemma_concat_take(pages, n - 1);
        assert(n * STREAM_PAGE_SIZE == (n - 1) * STREAM_PAGE_SIZE + STREAM_PAGE_SIZE) by (nonlinear_arith);
    } else if n == 0 {
        assert(pages.take(0) =~= Seq::<Page>::empty());
    }
}

/// A change of field names ends a page: when the first `n` values (no more
/// than a page) share field names and value `n` has other names, the first
/// page holds exactly the first `n` values and the second page starts with
/// value `n`, numbered `n`.
pub proof fn lemma_schema_change_page(values: Seq<Value>, pages: Seq<Page>, n: int)
    requires
        concat_pages(pages) == values,
        forall|p: int| 0 <= p < pages.len() ==> #[trigger] page_ok(pages, p),
        forall|p: int| 0 <= p < pages.len() - 1 ==> #[trigger] page_ended_for_cause(pages, p),
        0 < n < values.len(),
        n <= STREAM_PAGE_SIZE,
        forall|i: int| 0 <= i < n ==> #[trigger] names_of(values[i]) == names_of(values[0]),
        names_of(values[n]) != names_of(values[0]),
    ensures
        pages.len() >= 2,
        pages[0].values@ == values.take(n),
        pages[1].values@[0] == values[n],
        pages[1].offset == n,
{
    assert(pages.len() > 0) by {
        if pages.len() == 0 {
            assert(values.len() == 0);
        }
    }
    assert(page_ok(pages, 0));
    assert(pages.take(0) =~= Seq::<Page>::empty());
    let first = pages[0].values@;
    let l = first.len() as int;
    assert forall|j: int| 0 <= j < l implies #[trigger] first[j] == values[j] by {
        lemma_concat_index(pages, 0, j);
    }
    if l > n {
        assert(first[n] == values[n]);
        assert(names_of(first[n]) == names_of(first[0]));
        assert(first[0] == values[0]);
    }
    if pages.len() == 1 {
        assert(pages.drop_last() =~= Seq::<Page>::empty());
        assert(values.len() == l);
    }
    assert(pages.len() >= 2);
    assert(page_ok(pages, 1));
    lemma_concat_take(pages, 0);
    lemma_concat_index(pages, 1, 0);
    assert(concat_pages(pages.take(1)).len() == l);
    if l < n {
        assert(page_ended_for_cause(pages, 0));
        assert(pages[1].values@[0] == values[l]);
        assert(names_of(values[l]) == names_of(values[0]));
        assert(first[0] == values[0]);
    }
    assert(l == n);
    assert(first =~= values.take(n));
}

/// Splits a whole stream of values into pages as a `Paginator` does when
/// no page runs out of time.
pub fn paginate(values: Vec<Value>) -> (r: Vec<Page>)
    requires
        values@.len() < usize::MAX,
    ensures
        concat_pages(r@) == values@,
        forall|p: int| 0 <= p < r@.len() ==> #[trigger] page_ok(r@, p),
        forall|p: int| 0 <= p < r@.len() - 1 ==> #[trigger] page_ended_for_cause(r@, p),
{
    let mut values = values;
    let ghost orig = values@;
    let mut out: Vec<Page> = Vec::new();
    let mut pager = Paginator::new();
    let n = values.len();
    let mut i: usize = 0;
    while i < n
        invariant
            i <= n == orig.len() == values@.len(),
            n < usize::MAX,
            forall|j: int| i <= j < n ==> values@[j] == orig[j],
            pager.wf(),
            !pager.is_finished(),
            concat_pages(out@) + pager.pending() == orig.take(i as int),
            pager.next_offset() == concat_pages(out@).len(),
            forall|p: int| 0 <= p < out@.len() ==> #[trigger] page_ok(out@, p),
            forall|p: int| 0 <= p < out@.len() - 1 ==> #[trigger] page_ended_for_cause(out@, p),
            pager.pending().len() == 0 && out@.len() > 0 ==> out@.last().values@.len() == STREAM_PAGE_SIZE,
            pager.pending().len() > 0 && out@.len() > 0 ==> (out@.last().values@.len() == STREAM_PAGE_SIZE
                || names_of(pager.pending()[0]) != names_of(out@.last().values@[0])),
        decreases n - i,
    {
        let mut item = Value::Nothing;
        std::mem::swap(&mut item, &mut values[i]);
        let ghost before = out@;
        let ghost pend = pager.pending();
        proof {
            assert(item == orig[i as int]);
            assert((concat_pages(out@) + pager.pending()).len() == i);
        }
        let flushed = pager.feed(Some(item), false);
        match flushed {
            Some(page) => {
                out.push(page);
                proof {
                    assert(out@.drop_last() =~= before);
                    assert(out@.take(before.len() as int) =~= before);
                    assert(orig.take(i + 1) =~= orig.take(i as int).push(orig[i as int]));
                    assert forall|p: int| 0 <= p < out@.len() implies #[trigger] page_ok(out@, p) by {
                        if p < before.len() {
                            assert(out@[p] == before[p]);
                            assert(page_ok(before, p));
                            assert(out@.take(p) =~= before.take(p));
                        }
                    }
                    assert forall|p: int| 0 <= p < out@.len() - 1 implies #[trigger] page_ended_for_cause(out@, p) by {
                        assert(out@[p] == before[p]);
                        if p < before.len() - 1 {
                            assert(page_ended_for_cause(before, p));
                            assert(out@[p + 1] == before[p + 1]);
                        }
                    }
                    if pend.len() > 0 && names_of(pend[0]) != names_of(orig[i as int]) {
                        assert(concat_pages(out@) + pager.pending() =~= (concat_pages(before) + pend).push(orig[i as int]));
                    } else {
                        assert(concat_pages(out@) + pager.pending() =~= (concat_pages(before) + pend).push(orig[i as int]));
                    }
                }
            },
            None => {
                proof {
                    assert(orig.take(i + 1) =~= orig.take(i as int).push(orig[i as int]));
                    assert(concat_pages(out@) + pager.pending() =~= (concat_pages(before) + pend).push(orig[i as int]));
                    if pend.len() > 0 {
                        assert(pager.pending()[0] == pend[0]);
                    }
                }
            },
        }
        i = i + 1;
    }
    let ghost before = out@;
    let ghost pend = pager.pending();
    let last = pager.feed(None, false);
    match last {
        Some(page) => {
            out.push(page);
            proof {
                assert(out@.drop_last() =~= before);
                assert(out@.take(before.len() as int) =~= before);
                assert forall|p: int| 0 <= p < out@.len() implies #[trigger] page_ok(out@, p) by {
                    if p < before.len() {
                        assert(out@[p] == before[p]);
                        assert(page_ok(before, p));
                        assert(out@.take(p) =~= before.take(p));
                    }
                }
                assert forall|p: int| 0 <= p < out@.len() - 1 implies #[trigger] page_ended_for_cause(out@, p) by {
                    assert(out@[p] == before[p]);
                    if p < before.len() - 1 {
                        assert(page_ended_for_cause(before, p));
                        assert(out@[p + 1] == before[p + 1]);
                    }
                }
            }
        },
        None => {},
    }
    proof {
        assert(orig.take(n as int) =~= orig);
    }
    out
}

} // verus!
