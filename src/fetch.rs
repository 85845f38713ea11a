use vstd::prelude::*;
use crate::receipt::Receipt;

verus! {

/// The variables of one page request: receipts of `sender_key`, at most
/// `limit` of them, starting at `offset`.
#[derive(Clone, Debug)]
pub struct ReceiptsBySender {
    pub sender_key: String,
    pub limit: u64,
    pub offset: u64,
}

/// The variables of one detail request: the receipt with `key`.
#[derive(Clone, Debug)]
pub struct ReceiptDetails {
    pub key: String,
}

/// All the receipts of `pages`, page after page.
pub open spec fn flatten_pages(pages: Seq<Seq<Receipt>>) -> Seq<Receipt>
    decreases pages.len(),
{
    if pages.len() == 0 {
        seq![]
    } else {
        flatten_pages(pages.drop_last()) + pages.last()
    }
}

/// The number of receipts in `pages`.
pub open spec fn page_rows(pages: Seq<Seq<Receipt>>) -> nat
    decreases pages.len(),
{
    if pages.len() == 0 {
        0
    } else {
        page_rows(pages.drop_last()) + pages.last().len()
    }
}

/// Drives the paginated listing of one sender's receipts. Pages are asked
/// for at offsets 0, `page_size`, 2 * `page_size`, ...; the run ends at the
/// first page shorter than `page_size`, or where the next offset would not
/// fit in a `u64`. Only a finished run hands out its receipts, so a run
/// that failed midway has nothing to store.
pub struct Pagination {
    sender: String,
    page_size: u64,
    offset: u64,
    received: Vec<Receipt>,
    finished: bool,
    pages: Ghost<Seq<Seq<Receipt>>>,
}

impl Pagination {
    pub closed spec fn spec_sender(&self) -> Seq<char> {
        self.sender@
    }

    pub closed spec fn spec_page_size(&self) -> nat {
        self.page_size as nat
    }

    pub closed spec fn spec_offset(&self) -> nat {
        self.offset as nat
    }

    pub closed spec fn spec_finished(&self) -> bool {
        self.finished
    }

    /// The pages received so far, in order.
    pub closed spec fn spec_pages(&self) -> Seq<Seq<Receipt>> {
        self.pages@
    }

    /// The receipts received so far, in order.
    pub closed spec fn spec_received(&self) -> Seq<Receipt> {
        self.received@
    }

    pub closed spec fn wf(&self) -> bool {
        &&& self.page_size > 0
        &&& self.received@ == flatten_pages(self.pages@)
    }

    /// A run for `sender` with pages of `page_size` rows, which must not be 0.
    pub fn new(sender: String, page_size: u64) -> (p: Pagination)
        requires
            page_size > 0,
        ensures
            p.wf(),
            p.spec_sender() == sender@,
            p.spec_page_size() == page_size,
            p.spec_offset() == 0,
            !p.spec_finished(),
            p.spec_pages() == Seq::<Seq<Receipt>>::empty(),
            p.spec_received() == Seq::<Receipt>::empty(),
    {
        Pagination {
            sender,
            page_size,
            offset: 0,
            received: Vec::new(),
            finished: false,
            pages: Ghost(Seq::empty()),
        }
    }

    pub fn is_finished(&self) -> (r: bool)
        ensures
            r == self.spec_finished(),
    {
        self.finished
    }

    /// The next page to ask for, or `None` once the run has finished.
    pub fn next_request(&self) -> (r: Option<ReceiptsBySender>)
        ensures
            match r {
                Some(q) => {
                    &&& !self.spec_finished()
                    &&& q.sender_key@ == self.spec_sender()
                    &&& q.limit == self.spec_page_size()
                    &&& q.offset == self.spec_offset()
                },
                None => self.spec_finished(),
            },
    {
        if self.finished {
            None
        } else {
            Some(ReceiptsBySender { sender_key: self.sender.clone(), limit: self.page_size, offset: self.offset })
        }
    }

    /// Takes in the page that answered the last request.
    pub fn on_page(&mut self, page: Vec<Receipt>)
        requires
            old(self).wf(),
            !old(self).spec_finished(),
        ensures
            final(self).wf(),
            final(self).spec_sender() == old(self).spec_sender(),
            final(self).spec_page_size() == old(self).spec_page_size(),
            final(self).spec_pages() == old(self).spec_pages().push(page@),
            final(self).spec_received() == old(self).spec_received() + page@,
            final(self).spec_finished() == (page.len() < old(self).spec_page_size()
                || old(self).spec_offset() + old(self).spec_page_size() > u64::MAX),
            !final(self).spec_finished() ==> final(self).spec_offset() == old(self).spec_offset()
                + old(self).spec_page_size(),
            final(self).spec_finished() ==> final(self).spec_offset() == old(self).spec_offset(),
    {
        let short = (page.len() as u64) < self.page_size;
        let ghost pages = self.pages@.push(page@);
        let mut page = page;
        self.received.append(&mut page);
        self.pages = Ghost(pages);
        assert(pages.drop_last() == old(self).spec_pages());
        if short || self.offset > u64::MAX - self.page_size {
            self.finished = true;
        } else {
            self.offset = self.offset + self.page_size;
        }
    }

    /// The receipts of a finished run, to be stored as one list; `None`
    /// while pages are outstanding.
    pub fn into_receipts(self) -> (r: Option<Vec<Receipt>>)
        requires
            self.wf(),
        ensures
            match r {
                Some(v) => self.spec_finished() && v@ == flatten_pages(self.spec_pages()),
                None => !self.spec_finished(),
            },
    {
        if self.finished {
            Some(self.received)
        } else {
            None
        }
    }
}

/// Drives the detail fetch over the keys of a stored receipt list, one key
/// after another. A failed key is recorded and the run goes on with the
/// next one; the receipt list itself is never touched.
pub struct DetailFetch {
    keys: Vec<String>,
    next: usize,
    failed: Vec<String>,
}

impl DetailFetch {
    /// The keys to fetch, in order.
    pub closed spec fn spec_keys(&self) -> Seq<String> {
        self.keys@
    }

    /// How many keys have been dealt with.
    pub closed spec fn spec_next(&self) -> nat {
        self.next as nat
    }

    /// The keys whose fetch failed, in order.
    pub closed spec fn spec_failed(&self) -> Seq<String> {
        self.failed@
    }

    pub closed spec fn wf(&self) -> bool {
        self.next <= self.keys.len()
    }

    /// A run over the keys of `receipts`, in their order.
    pub fn new(receipts: &Vec<Receipt>) -> (d: DetailFetch)
        ensures
            d.wf(),
            d.spec_keys().len() == receipts.len(),
            forall|i: int| 0 <= i < receipts.len() ==> #[trigger] d.spec_keys()[i] == receipts@[i].key,
            d.spec_next() == 0,
            d.spec_failed() == Seq::<String>::empty(),
    {
        let mut keys: Vec<String> = Vec::new();
        let mut i: usize = 0;
        while i < receipts.len()
            invariant
                i <= receipts.len(),
                keys.len() == i,
                forall|j: int| 0 <= j < i ==> #[trigger] keys@[j] == receipts@[j].key,
            decreases receipts.len() - i,
        {
            keys.push(receipts[i].key.clone());
            i = i + 1;
        }
        DetailFetch { keys, next: 0, failed: Vec::new() }
    }

    /// The next detail to ask for, or `None` once every key has been dealt
    /// with.
    pub fn next_request(&self) -> (r: Option<ReceiptDetails>)
        requires
            self.wf(),
        ensures
            match r {
                Some(q) => self.spec_next() < self.spec_keys().len() && q.key == self.spec_keys()[self.spec_next() as int],
                None => self.spec_next() == self.spec_keys().len(),
            },
    {
        if self.next < self.keys.len() {
            Some(ReceiptDetails { key: self.keys[self.next].clone() })
        } else {
            None
        }
    }

    /// Records the outcome for the key last asked for and moves on to the
    /// next key, whether or not the fetch succeeded.
    pub fn on_result(&mut self, fetched: bool)
        requires
            old(self).wf(),
            old(self).spec_next() < old(self).spec_keys().len(),
        ensures
            final(self).wf(),
            final(self).spec_keys() == old(self).spec_keys(),
            final(self).spec_next() == old(self).spec_next() + 1,
            final(self).spec_failed() == if fetched {
                old(self).spec_failed()
            } else {
                old(self).spec_failed().push(old(self).spec_keys()[old(self).spec_next() as int])
            },
    {
        if !fetched {
            let k = self.keys[self.next].clone();
            self.failed.push(k);
        }
        self.next = self.next + 1;
    }

    /// The keys whose fetch failed, in order.
    pub fn failed_keys(&self) -> (r: &Vec<String>)
        ensures
            r@ == self.spec_failed(),
    {
        &self.failed
    }
}

proof fn lemma_flatten_len(pages: Seq<Seq<Receipt>>)
    ensures
        flatten_pages(pages).len() == page_rows(pages),
    decreases pages.len(),
{
    if pages.len() > 0 {
        lemma_flatten_len(pages.drop_last());
    }
}

/// Two runs that received the same pages hold the same receipts: what a run
/// stores depends on what the source returned alone, never on an earlier
/// run, and holds exactly as many receipts as the pages did.
pub proof fn lemma_refetch_same_content(a: Pagination, b: Pagination)
    requires
        a.wf(),
        b.wf(),
        a.spec_pages() == b.spec_pages(),
    ensures
        a.spec_received() == b.spec_received(),
        a.spec_received() == flatten_pages(a.spec_pages()),
        a.spec_received().len() == page_rows(a.spec_pages()),
{
    lemma_flatten_len(a.spec_pages());
}

} // verus!
