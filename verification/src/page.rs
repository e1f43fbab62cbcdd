//! The paginator. It drains a paged listing: the caller issues the request
//! that the current cursor describes, hands the outcome back, and repeats
//! until the paginator reports the listing exhausted. A transport failure or
//! non-success status ends the listing with the items collected so far — a
//! degraded mode, not a propagated error.

use crate::link::next_url_of;
use crate::link::parse_next_url;
use vstd::prelude::*;

verus! {

/// One listing entry. `is_container_link` marks an entry that stands for a
/// linked container object (a merge request) rather than a plain item; such
/// entries are excluded from the working set.
pub struct Item {
    pub id: u64,
    pub title: String,
    pub is_container_link: bool,
}

/// The entries of a listing that pagination keeps: those that are not
/// container links, in their original order.
pub open spec fn filter_items(s: Seq<Item>) -> Seq<Item>
    decreases s.len(),
{
    if s.len() == 0 {
        Seq::empty()
    } else if s[0].is_container_link {
        filter_items(s.drop_first())
    } else {
        seq![s[0]] + filter_items(s.drop_first())
    }
}

/// Filtering distributes over concatenation.
pub proof fn lemma_filter_items_add(a: Seq<Item>, b: Seq<Item>)
    ensures
        filter_items(a + b) == filter_items(a) + filter_items(b),
    decreases a.len(),
{
    if a.len() == 0 {
        assert(a + b =~= b);
        assert(filter_items(a) + filter_items(b) =~= filter_items(b));
    } else {
        lemma_filter_items_add(a.drop_first(), b);
        assert((a + b).drop_first() =~= a.drop_first() + b);
        assert((a + b)[0] == a[0]);
        if !a[0].is_container_link {
            assert(seq![a[0]] + (filter_items(a.drop_first()) + filter_items(b)) =~= (seq![a[0]]
                + filter_items(a.drop_first())) + filter_items(b));
        }
    }
}

/// No container link survives the filter, and filtering twice filters once.
pub proof fn lemma_filter_items_clean(s: Seq<Item>)
    ensures
        forall|i: int| 0 <= i < filter_items(s).len() ==> !filter_items(s)[i].is_container_link,
        filter_items(filter_items(s)) == filter_items(s),
    decreases s.len(),
{
    if s.len() == 0 {
    } else {
        lemma_filter_items_clean(s.drop_first());
        if !s[0].is_container_link {
            assert(filter_items(s) == seq![s[0]] + filter_items(s.drop_first()));
            lemma_filter_items_add(seq![s[0]], filter_items(s.drop_first()));
            assert(seq![s[0]].drop_first() =~= Seq::<Item>::empty());
            assert(filter_items(Seq::<Item>::empty()) =~= Seq::<Item>::empty());
            assert(filter_items(seq![s[0]]) =~= seq![s[0]]);
        }
    }
}

/// Keeps exactly the entries of `page` that are not container links, in order.
pub fn filter_page(page: Vec<Item>) -> (r: Vec<Item>)
    ensures
        r@ == filter_items(page@),
{
    let ghost orig = page@;
    let mut rest = page;
    let mut out: Vec<Item> = Vec::new();
    proof {
        assert(out@ + filter_items(rest@) =~= filter_items(orig));
    }
    while rest.len() > 0
        invariant
            filter_items(orig) == out@ + filter_items(rest@),
        decreases rest@.len(),
    {
        let ghost before = rest@;
        let it = rest.remove(0);
        proof {
            assert(rest@ =~= before.drop_first());
        }
        if !it.is_container_link {
            proof {
                assert(filter_items(before) == seq![it] + filter_items(rest@));
                assert((out@ + seq![it]) + filter_items(rest@) =~= out@ + (seq![it] + filter_items(
                    rest@,
                )));
            }
            out.push(it);
        }
    }
    proof {
        assert(filter_items(rest@) =~= Seq::<Item>::empty());
        assert(out@ + filter_items(rest@) =~= out@);
    }
    out
}

/// What the transport handed back for one page request. A failure carries
/// nothing: pagination treats it as a degraded end of the listing.
pub enum PageOutcome {
    Success { items: Vec<Item>, link_header: Option<Vec<u8>> },
    Failure,
}

/// Drains a paged listing one page at a time. `cursor` describes the request
/// to issue next (`None` asks for the first page); each response is handed to
/// `on_page` until `done` reports the listing exhausted.
pub struct Paginator {
    /// Filtered items of the pages seen so far, in page order.
    pub items: Vec<Item>,
    /// The continuation to request next; `None` asks for the first page.
    pub cursor: Option<Vec<u8>>,
    /// Whether the listing is exhausted (no continuation, or a failure).
    pub done: bool,
}

impl Paginator {
    /// A paginator that has seen nothing and will ask for the first page.
    pub fn new() -> (p: Paginator)
        ensures
            p.items@ == Seq::<Item>::empty(),
            p.cursor is None,
            !p.done,
    {
        Paginator { items: Vec::new(), cursor: None, done: false }
    }

    /// Feeds one page outcome. A failure ends the listing and keeps the items
    /// collected so far. A success appends the page's filtered items and
    /// follows the link header: a `rel="next"` segment yields the next
    /// cursor, and its absence — or the absence of the header — ends the
    /// listing after this page.
    pub fn on_page(&mut self, outcome: PageOutcome)
        requires
            !old(self).done,
        ensures
            match outcome {
                PageOutcome::Failure => {
                    &&& final(self).items == old(self).items
                    &&& final(self).done
                },
                PageOutcome::Success { items: page, link_header } => {
                    &&& final(self).items@ == old(self).items@ + filter_items(page@)
                    &&& match link_header {
                        None => final(self).done,
                        Some(h) => match next_url_of(h@) {
                            None => final(self).done,
                            Some(u) => {
                                &&& !final(self).done
                                &&& final(self).cursor matches Some(c) && c@ == u
                            },
                        },
                    }
                },
            },
    {
        match outcome {
            PageOutcome::Failure => {
                self.done = true;
            },
            PageOutcome::Success { items, link_header } => {
                let mut filtered = filter_page(items);
                self.items.append(&mut filtered);
                match link_header {
                    None => {
                        self.done = true;
                    },
                    Some(h) => {
                        match parse_next_url(h.as_slice()) {
                            None => {
                                self.done = true;
                            },
                            Some(u) => {
                                self.cursor = Some(u);
                            },
                        }
                    },
                }
            },
        }
    }

    /// Hands over the collected items once the listing is drained.
    pub fn into_items(self) -> (r: Vec<Item>)
        ensures
            r == self.items,
    {
        self.items
    }
}

/// The ids of the collected items, in order: what the aggregation stage fans
/// out over.
pub fn item_ids(items: &Vec<Item>) -> (r: Vec<u64>)
    ensures
        r@.len() == items@.len(),
        forall|i: int| 0 <= i < items@.len() ==> r@[i] == items@[i].id,
{
    let mut r: Vec<u64> = Vec::new();
    let mut i: usize = 0;
    while i < items.len()
        invariant
            i <= items@.len(),
            r@.len() == i,
            forall|j: int| 0 <= j < i ==> r@[j] == items@[j].id,
        decreases items@.len() - i,
    {
        r.push(items[i].id);
        i = i + 1;
    }
    r
}

/// Filtered pages, concatenated in page order: what a fully drained listing
/// emits.
pub open spec fn drained_items(pages: Seq<Seq<Item>>) -> Seq<Item>
    decreases pages.len(),
{
    if pages.len() == 0 {
        Seq::empty()
    } else {
        filter_items(pages[0]) + drained_items(pages.drop_first())
    }
}

/// All pages, concatenated in page order.
pub open spec fn concat_pages(pages: Seq<Seq<Item>>) -> Seq<Item>
    decreases pages.len(),
{
    if pages.len() == 0 {
        Seq::empty()
    } else {
        pages[0] + concat_pages(pages.drop_first())
    }
}

/// The emitted union of a drained listing is the concatenation of each
/// page's filtered items: filtering page by page and filtering the whole
/// listing agree, so no container link ever appears in the output.
pub proof fn lemma_drained_is_filtered_concat(pages: Seq<Seq<Item>>)
    ensures
        drained_items(pages) == filter_items(concat_pages(pages)),
        forall|i: int|
            0 <= i < drained_items(pages).len() ==> !drained_items(pages)[i].is_container_link,
    decreases pages.len(),
{
    if pages.len() == 0 {
    } else {
        lemma_drained_is_filtered_concat(pages.drop_first());
        lemma_filter_items_add(pages[0], concat_pages(pages.drop_first()));
    }
    lemma_filter_items_clean(concat_pages(pages));
}

} // verus!
