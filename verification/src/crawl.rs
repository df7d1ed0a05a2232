//! The crawl loop's decisions: what to do next, how a fetched page's links
//! are admitted to the frontier, and how a finished fetch is settled. The
//! HTML anchor extraction itself is scraper's; everything around it is
//! verified.

use vstd::prelude::*;

use crate::journal::entry_seq_view;
use crate::journal::EntryStatus;
use crate::journal::EntryView;
use crate::journal::JournalEntry;
use crate::queue::add_pending_m;
use crate::queue::mark_failed_m;
use crate::queue::mark_processed_m;
use crate::queue::next_m;
use crate::queue::Queue;
use crate::queue::QueueModel;
use crate::url::resolve_url;
use crate::url::url_result_view;
use crate::url::Url;
use crate::url::UrlView;

verus! {

/// What the crawl loop should do next.
pub enum CrawlStep {
    /// Fetch this URL; it has just moved from pending to processing.
    Dispatch(Url),
    /// Nothing is pending but workers are in flight: wait for one, then ask
    /// again, since it may have discovered new links.
    Drain,
    /// Nothing is pending and nothing is in flight: the crawl is complete.
    Finished,
}

/// One scheduler decision: dispatch the head of the frontier, or drain, or
/// finish, depending on the frontier and the in-flight count.
pub fn schedule(queue: &mut Queue, in_flight: usize) -> (r: CrawlStep)
    requires
        old(queue).well_formed(),
    ensures
        final(queue).well_formed(),
        final(queue)@ == next_m(old(queue)@).0,
        match r {
            CrawlStep::Dispatch(u) => next_m(old(queue)@).1 == Some(u@),
            CrawlStep::Drain => next_m(old(queue)@).1 is None && in_flight > 0,
            CrawlStep::Finished => next_m(old(queue)@).1 is None && in_flight == 0,
        },
{
    match queue.next() {
        Some(u) => CrawlStep::Dispatch(u),
        None => if in_flight > 0 {
            CrawlStep::Drain
        } else {
            CrawlStep::Finished
        },
    }
}

/// The queue after admitting, in order, every reference that resolves
/// against the base; out-of-scope or malformed references are dropped.
pub open spec fn admit_links_m(q: QueueModel, base: UrlView, refs: Seq<Seq<char>>) -> QueueModel
    decreases refs.len(),
{
    if refs.len() == 0 {
        q
    } else {
        let prev = admit_links_m(q, base, refs.drop_last());
        match resolve_url(base, refs.last()) {
            Ok(u) => add_pending_m(prev, u),
            Err(_) => prev,
        }
    }
}

/// The journal records those admissions produce: one `pending` entry per
/// resolved reference, in order, whether or not the queue admits it (a
/// duplicate record is reconciled away at replay).
pub open spec fn pending_entries_m(base: UrlView, refs: Seq<Seq<char>>) -> Seq<EntryView>
    decreases refs.len(),
{
    if refs.len() == 0 {
        Seq::<EntryView>::empty()
    } else {
        let prev = pending_entries_m(base, refs.drop_last());
        match resolve_url(base, refs.last()) {
            Ok(u) => prev.push(EntryView { status: EntryStatus::Pending, url: u }),
            Err(_) => prev,
        }
    }
}

/// Resolve each extracted reference against the base and admit the in-scope
/// ones to the frontier. Returns the journal entries to append.
#[verifier::loop_isolation(false)]
pub fn admit_links(queue: &mut Queue, base: &Url, hrefs: &Vec<String>) -> (entries: Vec<
    JournalEntry,
>)
    requires
        old(queue).well_formed(),
    ensures
        final(queue).well_formed(),
        final(queue)@ == admit_links_m(
            old(queue)@,
            base@,
            hrefs@.map_values(|s: String| s@),
        ),
        entry_seq_view(entries@) == pending_entries_m(
            base@,
            hrefs@.map_values(|s: String| s@),
        ),
{
    let ghost refs = hrefs@.map_values(|s: String| s@);
    let mut entries: Vec<JournalEntry> = Vec::new();
    let mut i: usize = 0;
    while i < hrefs.len()
        invariant
            i <= hrefs.len(),
            queue.well_formed(),
            queue@ == admit_links_m(old(queue)@, base@, refs.subrange(0, i as int)),
            entry_seq_view(entries@) == pending_entries_m(base@, refs.subrange(0, i as int)),
        decreases hrefs.len() - i,
    {
        let ghost pre = refs.subrange(0, i as int);
        proof {
            assert(refs.subrange(0, i + 1 as int) =~= pre.push(refs[i as int]));
            assert(pre.push(refs[i as int]).drop_last() =~= pre);
        }
        match Url::new_with_base(base, hrefs[i].as_str()) {
            Ok(u) => {
                queue.add_pending(&u);
                let ghost s = entry_seq_view(entries@);
                let ghost uv = u@;
                entries.push(JournalEntry::Pending { url: u });
                proof {
                    assert(entry_seq_view(entries@) =~= s.push(
                        EntryView { status: EntryStatus::Pending, url: uv },
                    ));
                }
            },
            Err(_) => {},
        }
        i = i + 1;
    }
    proof {
        assert(refs.subrange(0, hrefs@.len() as int) =~= refs);
    }
    entries
}

/// Settle a fetched URL: processed when its body was saved, failed on any
/// transport, read or persistence error. Returns the journal entry to
/// append.
pub fn complete(queue: &mut Queue, url: &Url, saved: bool) -> (entry: JournalEntry)
    requires
        old(queue).well_formed(),
    ensures
        final(queue).well_formed(),
        saved ==> final(queue)@ == mark_processed_m(old(queue)@, url@) && entry@ == (EntryView {
            status: EntryStatus::Processed,
            url: url@,
        }),
        !saved ==> final(queue)@ == mark_failed_m(old(queue)@, url@) && entry@ == (EntryView {
            status: EntryStatus::Failed,
            url: url@,
        }),
{
    if saved {
        queue.mark_as_processed(url);
        JournalEntry::Processed { url: url.clone() }
    } else {
        queue.mark_as_failed(url);
        JournalEntry::Failed { url: url.clone() }
    }
}

/// The href attributes of the anchor elements of an HTML document, in
/// document order, as scraper's parser finds them.
pub uninterp spec fn links_of(body: Seq<char>) -> Seq<Seq<char>>;

/// Relies on scraper's `Html::parse_document` and `ElementRef::attr`: the
/// `href` attribute of every `a` element, in document order. The result is a
/// function of the document text alone.
#[verifier::external_body]
fn extract_links_from_body(body: &str) -> (r: Vec<String>)
    ensures
        r@.map_values(|s: String| s@) == links_of(body@),
{
    let selector = scraper::Selector::parse("a").expect("anchor selector");
    let document = scraper::Html::parse_document(body);
    document.select(&selector).filter_map(|l| l.attr("href").map(String::from)).collect()
}

/// Handle one fetched page body: extract its anchors, resolve each against
/// the base, and admit the in-scope ones to the frontier. Returns the
/// journal entries to append.
pub fn handle_page(queue: &mut Queue, base: &Url, body: &str) -> (entries: Vec<JournalEntry>)
    requires
        old(queue).well_formed(),
    ensures
        final(queue).well_formed(),
        final(queue)@ == admit_links_m(old(queue)@, base@, links_of(body@)),
        entry_seq_view(entries@) == pending_entries_m(base@, links_of(body@)),
{
    let hrefs = extract_links_from_body(body);
    admit_links(queue, base, &hrefs)
}

} // verus!
