//! The journal wire format and crash recovery. Every queue transition is one
//! line, `status;canonical-url`. Replaying the log reconciles the
//! contradictions that an append-only, never-compacted log accumulates.

use vstd::prelude::*;
use vstd::string::StrSliceExecFns;
use vstd::string::StringExecFns;

use crate::queue::url_seq_view;
use crate::url::find_char_from;
use crate::url::parse_url;
use crate::url::render_url;
use crate::url::Url;
use crate::url::UrlView;

verus! {

broadcast use vstd::seq_lib::group_seq_lib_default;

/// The four lifecycle states a journal line can record.
#[derive(Debug, Clone, Copy, PartialEq, Eq, Structural)]
pub enum EntryStatus {
    Pending,
    Processing,
    Processed,
    Failed,
}

/// One recorded lifecycle transition.
pub enum JournalEntry {
    Pending { url: Url },
    Processing { url: Url },
    Processed { url: Url },
    Failed { url: Url },
}

/// The mathematical value of a journal entry.
#[verifier::ext_equal]
pub ghost struct EntryView {
    pub status: EntryStatus,
    pub url: UrlView,
}

impl View for JournalEntry {
    type V = EntryView;

    open spec fn view(&self) -> EntryView {
        match self {
            JournalEntry::Pending { url } => EntryView { status: EntryStatus::Pending, url: url@ },
            JournalEntry::Processing { url } => EntryView {
                status: EntryStatus::Processing,
                url: url@,
            },
            JournalEntry::Processed { url } => EntryView {
                status: EntryStatus::Processed,
                url: url@,
            },
            JournalEntry::Failed { url } => EntryView { status: EntryStatus::Failed, url: url@ },
        }
    }
}

/// The status token written on the wire.
pub open spec fn status_chars(s: EntryStatus) -> Seq<char> {
    match s {
        EntryStatus::Pending => seq!['p', 'e', 'n', 'd', 'i', 'n', 'g'],
        EntryStatus::Processing => seq![
            'p',
            'r',
            'o',
            'c',
            'e',
            's',
            's',
            'i',
            'n',
            'g',
        ],
        EntryStatus::Processed => seq!['p', 'r', 'o', 'c', 'e', 's', 's', 'e', 'd'],
        EntryStatus::Failed => seq!['f', 'a', 'i', 'l', 'e', 'd'],
    }
}

/// One wire line: `status;canonical-url`.
pub open spec fn entry_chars(e: EntryView) -> Seq<char> {
    status_chars(e.status) + seq![';'] + render_url(e.url)
}

/// What parsing a wire line yields: `None` for any malformed line (no
/// semicolon, unknown status token, or a URL that does not parse).
pub open spec fn parse_entry(s: Seq<char>) -> Option<EntryView> {
    match find_char_from(s, ';', 0) {
        None => None,
        Some(i) => {
            let status_part = s.subrange(0, i);
            let url_part = s.subrange(i + 1, s.len() as int);
            let status = if status_part == status_chars(EntryStatus::Pending) {
                Some(EntryStatus::Pending)
            } else if status_part == status_chars(EntryStatus::Processing) {
                Some(EntryStatus::Processing)
            } else if status_part == status_chars(EntryStatus::Processed) {
                Some(EntryStatus::Processed)
            } else if status_part == status_chars(EntryStatus::Failed) {
                Some(EntryStatus::Failed)
            } else {
                None
            };
            match status {
                None => None,
                Some(st) => match parse_url(url_part) {
                    Ok(u) => Some(EntryView { status: st, url: u }),
                    Err(_) => None,
                },
            }
        },
    }
}

impl JournalEntry {
    /// The URL the entry carries.
    pub fn url(&self) -> (u: &Url)
        ensures
            u@ == self@.url,
    {
        match self {
            JournalEntry::Pending { url } => url,
            JournalEntry::Processing { url } => url,
            JournalEntry::Processed { url } => url,
            JournalEntry::Failed { url } => url,
        }
    }

    /// The lifecycle state the entry records.
    pub fn status(&self) -> (s: EntryStatus)
        ensures
            s == self@.status,
    {
        match self {
            JournalEntry::Pending { .. } => EntryStatus::Pending,
            JournalEntry::Processing { .. } => EntryStatus::Processing,
            JournalEntry::Processed { .. } => EntryStatus::Processed,
            JournalEntry::Failed { .. } => EntryStatus::Failed,
        }
    }

    /// Serialize to the one-line wire format.
    pub fn render(&self) -> (r: String)
        ensures
            r@ == entry_chars(self@),
    {
        proof {
            reveal_strlit("pending");
            reveal_strlit("processing");
            reveal_strlit("processed");
            reveal_strlit("failed");
            reveal_strlit(";");
        }
        let mut out = match self {
            JournalEntry::Pending { .. } => String::from_str("pending"),
            JournalEntry::Processing { .. } => String::from_str("processing"),
            JournalEntry::Processed { .. } => String::from_str("processed"),
            JournalEntry::Failed { .. } => String::from_str("failed"),
        };
        proof {
            assert(out@ =~= status_chars(self@.status));
        }
        out.append(";");
        let rendered = self.url().render();
        out.append(rendered.as_str());
        proof {
            assert(out@ =~= entry_chars(self@));
        }
        out
    }

    /// Parse one wire line; `None` for any malformed line.
    pub fn parse(line: &str) -> (r: Option<JournalEntry>)
        ensures
            match r {
                Some(e) => parse_entry(line@) == Some(e@),
                None => parse_entry(line@) is None,
            },
    {
        proof {
            reveal_strlit("pending");
            reveal_strlit("processing");
            reveal_strlit("processed");
            reveal_strlit("failed");
        }
        let n = line.unicode_len();
        let semi = match crate::url::find_char(line, ';') {
            Some(k) => k,
            None => {
                return None;
            },
        };
        let status_s = line.substring_char(0, semi).to_owned();
        let url_part = line.substring_char(semi + 1, n);
        let ghost status_part = line@.subrange(0, semi as int);
        proof {
            assert("pending"@ =~= status_chars(EntryStatus::Pending));
            assert("processing"@ =~= status_chars(EntryStatus::Processing));
            assert("processed"@ =~= status_chars(EntryStatus::Processed));
            assert("failed"@ =~= status_chars(EntryStatus::Failed));
        }
        let status: EntryStatus = if status_s.eq(&String::from_str("pending")) {
            EntryStatus::Pending
        } else if status_s.eq(&String::from_str("processing")) {
            EntryStatus::Processing
        } else if status_s.eq(&String::from_str("processed")) {
            EntryStatus::Processed
        } else if status_s.eq(&String::from_str("failed")) {
            EntryStatus::Failed
        } else {
            return None;
        };
        match Url::parse(url_part) {
            Ok(u) => {
                let e = match status {
                    EntryStatus::Pending => JournalEntry::Pending { url: u },
                    EntryStatus::Processing => JournalEntry::Processing { url: u },
                    EntryStatus::Processed => JournalEntry::Processed { url: u },
                    EntryStatus::Failed => JournalEntry::Failed { url: u },
                };
                Some(e)
            },
            Err(_) => None,
        }
    }
}

/// Wire round trip: parsing a rendered entry gives the entry back, for every
/// entry whose URL is canonical. Every transition the crawler records is
/// therefore recovered exactly on replay.
pub proof fn lemma_entry_wire_round_trip(e: EntryView)
    requires
        e.url.wf(),
    ensures
        parse_entry(entry_chars(e)) == Some(e),
{
    let s = entry_chars(e);
    let st = status_chars(e.status);
    let k = st.len() as int;
    let r = render_url(e.url);
    assert(s =~= st + seq![';'] + r);
    assert(s[k] == ';');
    assert(forall|j: int| 0 <= j < k ==> s[j] == st[j]);
    assert(forall|j: int| 0 <= j < k ==> st[j] != ';') by {
        match e.status {
            EntryStatus::Pending => {
                assert(st[0] != ';' && st[1] != ';' && st[2] != ';' && st[3] != ';' && st[4] != ';'
                    && st[5] != ';' && st[6] != ';');
            },
            EntryStatus::Processing => {
                assert(st[0] != ';' && st[1] != ';' && st[2] != ';' && st[3] != ';' && st[4] != ';'
                    && st[5] != ';' && st[6] != ';' && st[7] != ';' && st[8] != ';' && st[9]
                    != ';');
            },
            EntryStatus::Processed => {
                assert(st[0] != ';' && st[1] != ';' && st[2] != ';' && st[3] != ';' && st[4] != ';'
                    && st[5] != ';' && st[6] != ';' && st[7] != ';' && st[8] != ';');
            },
            EntryStatus::Failed => {
                assert(st[0] != ';' && st[1] != ';' && st[2] != ';' && st[3] != ';' && st[4] != ';'
                    && st[5] != ';');
            },
        }
    }
    crate::url::lemma_find_char_props(s, ';', 0);
    let kk = find_char_from(s, ';', 0).unwrap();
    assert(kk == k) by {
        if kk < k {
            assert(s[kk] != ';');
        }
        if kk > k {
            assert(s[k] != ';');
        }
    }
    assert(s.subrange(0, k) =~= st);
    assert(s.subrange(k + 1, s.len() as int) =~= r);
    crate::url::lemma_render_parse_round_trip(e.url);
    assert(parse_entry(s) == Some(EntryView { status: e.status, url: e.url }));
    assert((EntryView { status: e.status, url: e.url }) =~= e);
}

/// The well-formed entries of a line sequence, in order; malformed lines are
/// skipped.
pub open spec fn entries_of(lines: Seq<Seq<char>>) -> Seq<EntryView>
    decreases lines.len(),
{
    if lines.len() == 0 {
        Seq::<EntryView>::empty()
    } else {
        let rest = entries_of(lines.drop_last());
        match parse_entry(lines.last()) {
            Some(e) => rest.push(e),
            None => rest,
        }
    }
}

/// The URLs recorded with status `st`, in first-seen order, without
/// duplicates.
pub open spec fn dedup_by_status(es: Seq<EntryView>, st: EntryStatus) -> Seq<UrlView>
    decreases es.len(),
{
    if es.len() == 0 {
        Seq::<UrlView>::empty()
    } else {
        let prev = dedup_by_status(es.drop_last(), st);
        let e = es.last();
        if e.status == st && !prev.contains(e.url) {
            prev.push(e.url)
        } else {
            prev
        }
    }
}

/// Every `pending` record in order, duplicates kept: dedup happens only when
/// the queue is seeded.
pub open spec fn pending_raw(es: Seq<EntryView>) -> Seq<UrlView>
    decreases es.len(),
{
    if es.len() == 0 {
        Seq::<UrlView>::empty()
    } else {
        let prev = pending_raw(es.drop_last());
        let e = es.last();
        if e.status == EntryStatus::Pending {
            prev.push(e.url)
        } else {
            prev
        }
    }
}

/// The mathematical value of a reconciled history.
#[verifier::ext_equal]
pub ghost struct HistoryView {
    pub pending: Seq<UrlView>,
    pub processing: Seq<UrlView>,
    pub processed: Seq<UrlView>,
    pub failed: Seq<UrlView>,
}

/// Reconciliation: pending keeps only URLs never seen in any other state;
/// processing keeps only URLs with no terminal record; processed is kept
/// as-is; failed yields to processed where the log holds both.
pub open spec fn replay(lines: Seq<Seq<char>>) -> HistoryView {
    let es = entries_of(lines);
    let processed_d = dedup_by_status(es, EntryStatus::Processed);
    let failed_d = dedup_by_status(es, EntryStatus::Failed);
    let processing_d = dedup_by_status(es, EntryStatus::Processing);
    HistoryView {
        pending: pending_raw(es).filter(
            |u: UrlView|
                !processing_d.contains(u) && !processed_d.contains(u) && !failed_d.contains(u),
        ),
        processing: processing_d.filter(
            |u: UrlView| !processed_d.contains(u) && !failed_d.contains(u),
        ),
        processed: processed_d,
        failed: failed_d.filter(|u: UrlView| !processed_d.contains(u)),
    }
}

/// Durability: replaying exactly the lines the crawler rendered recovers
/// exactly the entries it wrote, in order, none lost and none invented.
pub proof fn lemma_replay_recovers_entries(es: Seq<EntryView>)
    requires
        forall|k: int| 0 <= k < es.len() ==> es[k].url.wf(),
    ensures
        entries_of(es.map_values(|e: EntryView| entry_chars(e))) == es,
    decreases es.len(),
{
    let lines = es.map_values(|e: EntryView| entry_chars(e));
    if es.len() == 0 {
        assert(entries_of(lines) =~= es);
    } else {
        lemma_replay_recovers_entries(es.drop_last());
        assert(lines.drop_last() =~= es.drop_last().map_values(|e: EntryView| entry_chars(e)));
        assert(lines.last() == entry_chars(es.last()));
        lemma_entry_wire_round_trip(es.last());
        assert(entries_of(lines) =~= es) by {
            assert(entries_of(lines) == entries_of(lines.drop_last()).push(es.last()));
            assert(es.drop_last().push(es.last()) =~= es);
        }
    }
}

/// Recovery is deterministic: replaying one log twice yields one history.
pub proof fn lemma_replay_deterministic(l1: Seq<Seq<char>>, l2: Seq<Seq<char>>)
    requires
        l1 == l2,
    ensures
        replay(l1) == replay(l2),
{
}

/// The reconciled result of replaying a journal: the four URL lists a queue
/// is seeded from.
pub struct JournalHistory {
    pub pending: Vec<Url>,
    pub processing: Vec<Url>,
    pub processed: Vec<Url>,
    pub failed: Vec<Url>,
}

impl View for JournalHistory {
    type V = HistoryView;

    open spec fn view(&self) -> HistoryView {
        HistoryView {
            pending: url_seq_view(self.pending@),
            processing: url_seq_view(self.processing@),
            processed: url_seq_view(self.processed@),
            failed: url_seq_view(self.failed@),
        }
    }
}

/// The views of a sequence of entries.
pub open spec fn entry_seq_view(v: Seq<JournalEntry>) -> Seq<EntryView> {
    v.map_values(|e: JournalEntry| e@)
}

impl JournalHistory {
    /// Replay journal lines into a reconciled history, in one linear pass
    /// per state. Malformed lines are skipped, never fatal.
    #[verifier::loop_isolation(false)]
    pub fn from_lines(lines: &Vec<String>) -> (h: JournalHistory)
        ensures
            h@ == replay(lines@.map_values(|s: String| s@)),
    {
        let ghost lviews = lines@.map_values(|s: String| s@);
        let mut entries: Vec<JournalEntry> = Vec::new();
        let mut i: usize = 0;
        while i < lines.len()
            invariant
                i <= lines.len(),
                entry_seq_view(entries@) == entries_of(lviews.subrange(0, i as int)),
            decreases lines.len() - i,
        {
            let ghost pre = lviews.subrange(0, i as int);
            proof {
                assert(lviews.subrange(0, i + 1 as int) =~= pre.push(lines@[i as int]@));
                assert(pre.push(lines@[i as int]@).drop_last() =~= pre);
            }
            match JournalEntry::parse(lines[i].as_str()) {
                Some(e) => {
                    let ghost s = entry_seq_view(entries@);
                    entries.push(e);
                    proof {
                        assert(entry_seq_view(entries@) =~= s.push(e@));
                    }
                },
                None => {},
            }
            i = i + 1;
        }
        proof {
            assert(lviews.subrange(0, lines@.len() as int) =~= lviews);
        }
        let ghost es = entries_of(lviews);

        let processed_v = Self::collect_status(&entries, EntryStatus::Processed);
        let failed_d = Self::collect_status(&entries, EntryStatus::Failed);
        let processing_d = Self::collect_status(&entries, EntryStatus::Processing);
        let ghost processed_dv = dedup_by_status(es, EntryStatus::Processed);
        let ghost failed_dv = dedup_by_status(es, EntryStatus::Failed);
        let ghost processing_dv = dedup_by_status(es, EntryStatus::Processing);
        proof {
            assert(url_seq_view(processed_v@) == processed_dv);
            assert(url_seq_view(failed_d@) == failed_dv);
            assert(url_seq_view(processing_d@) == processing_dv);
        }

        let mut failed_v: Vec<Url> = Vec::new();
        let ghost fpred = |u: UrlView| !processed_dv.contains(u);
        let mut i: usize = 0;
        while i < failed_d.len()
            invariant
                i <= failed_d.len(),
                url_seq_view(failed_v@) == url_seq_view(failed_d@).subrange(0, i as int).filter(
                    fpred,
                ),
            decreases failed_d.len() - i,
        {
            let ghost pre = url_seq_view(failed_d@).subrange(0, i as int);
            let ghost x = failed_d@[i as int]@;
            proof {
                assert(url_seq_view(failed_d@).subrange(0, i + 1 as int) =~= pre.push(x));
                assert(pre.push(x).drop_last() =~= pre);
            }
            if !crate::queue::contains_url(&processed_v, &failed_d[i]) {
                let ghost s = url_seq_view(failed_v@);
                failed_v.push(failed_d[i].clone());
                proof {
                    assert(fpred(x));
                    pre.lemma_filter_push(x, fpred);
                    assert(url_seq_view(failed_v@) =~= s.push(x));
                }
            } else {
                proof {
                    assert(!fpred(x));
                    pre.lemma_filter_push(x, fpred);
                }
            }
            i = i + 1;
        }
        proof {
            assert(url_seq_view(failed_d@).subrange(0, failed_d@.len() as int) =~= url_seq_view(
                failed_d@,
            ));
        }

        let mut processing_v: Vec<Url> = Vec::new();
        let ghost ppred = |u: UrlView| !processed_dv.contains(u) && !failed_dv.contains(u);
        let mut i: usize = 0;
        while i < processing_d.len()
            invariant
                i <= processing_d.len(),
                url_seq_view(processing_v@) == url_seq_view(processing_d@).subrange(
                    0,
                    i as int,
                ).filter(ppred),
            decreases processing_d.len() - i,
        {
            let ghost pre = url_seq_view(processing_d@).subrange(0, i as int);
            let ghost x = processing_d@[i as int]@;
            proof {
                assert(url_seq_view(processing_d@).subrange(0, i + 1 as int) =~= pre.push(x));
                assert(pre.push(x).drop_last() =~= pre);
            }
            if !crate::queue::contains_url(&processed_v, &processing_d[i]) && !crate::queue::contains_url(
                &failed_d,
                &processing_d[i],
            ) {
                let ghost s = url_seq_view(processing_v@);
                processing_v.push(processing_d[i].clone());
                proof {
                    assert(ppred(x));
                    pre.lemma_filter_push(x, ppred);
                    assert(url_seq_view(processing_v@) =~= s.push(x));
                }
            } else {
                proof {
                    assert(!ppred(x));
                    pre.lemma_filter_push(x, ppred);
                }
            }
            i = i + 1;
        }
        proof {
            assert(url_seq_view(processing_d@).subrange(0, processing_d@.len() as int)
                =~= url_seq_view(processing_d@));
        }

        let mut pending_v: Vec<Url> = Vec::new();
        let ghost qpred = |u: UrlView|
            !processing_dv.contains(u) && !processed_dv.contains(u) && !failed_dv.contains(u);
        let mut i: usize = 0;
        while i < entries.len()
            invariant
                i <= entries.len(),
                url_seq_view(pending_v@) == pending_raw(
                    entry_seq_view(entries@).subrange(0, i as int),
                ).filter(qpred),
            decreases entries.len() - i,
        {
            let ghost pre = entry_seq_view(entries@).subrange(0, i as int);
            let ghost e = entries@[i as int]@;
            proof {
                assert(entry_seq_view(entries@).subrange(0, i + 1 as int) =~= pre.push(e));
                assert(pre.push(e).drop_last() =~= pre);
                assert(pending_raw(pre).push(e.url).drop_last() =~= pending_raw(pre));
            }
            let keep = match entries[i].status() {
                EntryStatus::Pending => !crate::queue::contains_url(&processing_d, entries[i].url())
                    && !crate::queue::contains_url(&processed_v, entries[i].url())
                    && !crate::queue::contains_url(&failed_d, entries[i].url()),
                _ => false,
            };
            if keep {
                let ghost s = url_seq_view(pending_v@);
                let u = entries[i].url().clone();
                pending_v.push(u);
                proof {
                    assert(qpred(e.url));
                    assert(pending_raw(pre.push(e)) == pending_raw(pre).push(e.url));
                    pending_raw(pre).lemma_filter_push(e.url, qpred);
                    assert(url_seq_view(pending_v@) =~= s.push(e.url));
                }
            } else {
                proof {
                    if e.status == EntryStatus::Pending {
                        assert(!qpred(e.url));
                        assert(pending_raw(pre.push(e)) == pending_raw(pre).push(e.url));
                        pending_raw(pre).lemma_filter_push(e.url, qpred);
                    } else {
                        assert(pending_raw(pre.push(e)) == pending_raw(pre));
                    }
                }
            }
            i = i + 1;
        }
        proof {
            let ev = entry_seq_view(entries@);
            assert(ev.subrange(0, entries@.len() as int) =~= ev);
        }

        let h = JournalHistory {
            pending: pending_v,
            processing: processing_v,
            processed: processed_v,
            failed: failed_v,
        };
        proof {
            assert(h@ =~= replay(lviews));
        }
        h
    }

    /// Collect, in first-seen order and without duplicates, every URL
    /// recorded with status `st`.
    #[verifier::loop_isolation(false)]
    fn collect_status(entries: &Vec<JournalEntry>, st: EntryStatus) -> (out: Vec<Url>)
        ensures
            url_seq_view(out@) == dedup_by_status(entry_seq_view(entries@), st),
    {
        let mut out: Vec<Url> = Vec::new();
        let mut i: usize = 0;
        while i < entries.len()
            invariant
                i <= entries.len(),
                url_seq_view(out@) == dedup_by_status(
                    entry_seq_view(entries@).subrange(0, i as int),
                    st,
                ),
            decreases entries.len() - i,
        {
            let ghost pre = entry_seq_view(entries@).subrange(0, i as int);
            let ghost e = entries@[i as int]@;
            proof {
                assert(entry_seq_view(entries@).subrange(0, i + 1 as int) =~= pre.push(e));
                assert(pre.push(e).drop_last() =~= pre);
            }
            if entries[i].status() == st && !crate::queue::contains_url(&out, entries[i].url()) {
                let ghost s = url_seq_view(out@);
                let u = entries[i].url().clone();
                out.push(u);
                proof {
                    assert(url_seq_view(out@) =~= s.push(e.url));
                }
            }
            i = i + 1;
        }
        proof {
            let ev = entry_seq_view(entries@);
            assert(ev.subrange(0, entries@.len() as int) =~= ev);
        }
        out
    }
}

} // verus!
