//! The URL-lifecycle state machine: every known URL sits in exactly one of
//! pending, processing, processed or failed. Pending is a FIFO ordered by
//! discovery; the other three are sets.

use vstd::prelude::*;

use crate::url::Url;
use crate::url::UrlView;

verus! {

broadcast use vstd::seq_lib::group_seq_lib_default;

/// The mathematical state of the queue.
#[verifier::ext_equal]
pub ghost struct QueueModel {
    pub pending: Seq<UrlView>,
    pub processing: Set<UrlView>,
    pub processed: Set<UrlView>,
    pub failed: Set<UrlView>,
}

impl QueueModel {
    /// A URL is a member of at most one of the four states, and the pending
    /// FIFO holds no duplicates.
    pub open spec fn wf(self) -> bool {
        &&& self.pending.no_duplicates()
        &&& self.processing.finite()
        &&& self.processed.finite()
        &&& self.failed.finite()
        &&& forall|u: UrlView|
            self.pending.contains(u) ==> !self.processing.contains(u) && !self.processed.contains(
                u,
            ) && !self.failed.contains(u)
        &&& forall|u: UrlView| self.processing.contains(u) ==> !self.processed.contains(u)
        &&& forall|u: UrlView| self.processing.contains(u) ==> !self.failed.contains(u)
        &&& forall|u: UrlView| self.processed.contains(u) ==> !self.failed.contains(u)
    }

    /// How many URLs the queue knows, over all four states.
    pub open spec fn total(self) -> nat {
        self.pending.len() + self.processing.len() + self.processed.len() + self.failed.len()
    }

    /// The queue knows `u` in some state.
    pub open spec fn knows(self, u: UrlView) -> bool {
        self.pending.contains(u) || self.processing.contains(u) || self.processed.contains(u)
            || self.failed.contains(u)
    }
}

/// `add_pending`: a no-op when the URL is pending, processing or processed;
/// otherwise the URL joins the tail of the pending FIFO, leaving the failed
/// set if it was there (retry on rediscovery).
pub open spec fn add_pending_m(q: QueueModel, u: UrlView) -> QueueModel {
    if q.pending.contains(u) || q.processing.contains(u) || q.processed.contains(u) {
        q
    } else {
        QueueModel { pending: q.pending.push(u), failed: q.failed.remove(u), ..q }
    }
}

/// `next`: pop the head of the pending FIFO into processing.
pub open spec fn next_m(q: QueueModel) -> (QueueModel, Option<UrlView>) {
    if q.pending.len() == 0 {
        (q, None)
    } else {
        let u = q.pending[0];
        (
            QueueModel { pending: q.pending.drop_first(), processing: q.processing.insert(u), ..q },
            Some(u),
        )
    }
}

/// `mark_as_processed`: move a processing URL to the processed set; a no-op
/// for a URL that is not processing.
pub open spec fn mark_processed_m(q: QueueModel, u: UrlView) -> QueueModel {
    if q.processing.contains(u) {
        QueueModel { processing: q.processing.remove(u), processed: q.processed.insert(u), ..q }
    } else {
        q
    }
}

/// `mark_as_failed`: move a processing URL to the failed set; a no-op for a
/// URL that is not processing.
pub open spec fn mark_failed_m(q: QueueModel, u: UrlView) -> QueueModel {
    if q.processing.contains(u) {
        QueueModel { processing: q.processing.remove(u), failed: q.failed.insert(u), ..q }
    } else {
        q
    }
}

/// The views of a sequence of URLs.
pub open spec fn url_seq_view(v: Seq<Url>) -> Seq<UrlView> {
    v.map_values(|u: Url| u@)
}

/// Linear membership scan.
pub(crate) fn contains_url(v: &Vec<Url>, u: &Url) -> (r: bool)
    ensures
        r == url_seq_view(v@).contains(u@),
{
    let n = v.len();
    let mut i: usize = 0;
    while i < n
        invariant
            n == v@.len(),
            i <= n,
            forall|j: int| 0 <= j < i ==> url_seq_view(v@)[j] != u@,
        decreases n - i,
    {
        proof {
            assert(url_seq_view(v@)[i as int] == v@[i as int]@);
        }
        if v[i].eq(u) {
            assert(url_seq_view(v@).contains(u@));
            return true;
        }
        i = i + 1;
    }
    assert(!url_seq_view(v@).contains(u@));
    false
}

/// Remove the one occurrence of `u` from a duplicate-free vector, if present.
fn remove_url(v: &mut Vec<Url>, u: &Url)
    requires
        url_seq_view(old(v)@).no_duplicates(),
    ensures
        url_seq_view(final(v)@).no_duplicates(),
        url_seq_view(final(v)@).to_set() == url_seq_view(old(v)@).to_set().remove(u@),
        final(v)@.len() == if url_seq_view(old(v)@).contains(u@) {
            old(v)@.len() - 1
        } else {
            old(v)@.len() as int
        },
{
    let ghost s0 = url_seq_view(old(v)@);
    let n = v.len();
    let mut i: usize = 0;
    while i < n
        invariant
            n == v@.len(),
            i <= n,
            v == old(v),
            s0 == url_seq_view(old(v)@),
            s0.no_duplicates(),
            forall|j: int| 0 <= j < i ==> url_seq_view(v@)[j] != u@,
        decreases n - i,
    {
        proof {
            assert(url_seq_view(v@)[i as int] == v@[i as int]@);
        }
        if v[i].eq(u) {
            let ghost k = i as int;
            v.remove(i);
            proof {
                assert(v@ == old(v)@.remove(k));
                assert(v@.len() == old(v)@.len() - 1);
                let s1 = url_seq_view(v@);
                assert(s1.len() == s0.len() - 1);
                assert(s1 =~= s0.remove(k)) by {
                    s0.remove_ensures(k);
                    assert forall|x: int| 0 <= x < s1.len() implies s1[x] == s0.remove(k)[x] by {
                        assert(s1[x] == v@[x]@);
                        if x < k {
                            assert(old(v)@[x]@ == s0[x]);
                        } else {
                            assert(old(v)@[x + 1]@ == s0[x + 1]);
                        }
                    }
                }
                s0.remove_ensures(k);
                assert(s1.no_duplicates()) by {
                    assert forall|a: int, b: int|
                        0 <= a < s1.len() && 0 <= b < s1.len() && a != b implies s1[a] != s1[b] by {
                        let a0 = if a < k {
                            a
                        } else {
                            a + 1
                        };
                        let b0 = if b < k {
                            b
                        } else {
                            b + 1
                        };
                        assert(s1[a] == s0[a0] && s1[b] == s0[b0]);
                    }
                }
                assert(s1.to_set() =~= s0.to_set().remove(u@)) by {
                    assert forall|x: UrlView| s1.to_set().contains(x) implies s0.to_set().remove(
                        u@,
                    ).contains(x) by {
                        let a = choose|a: int| 0 <= a < s1.len() && s1[a] == x;
                        let a0 = if a < k {
                            a
                        } else {
                            a + 1
                        };
                        assert(s0[a0] == x);
                        assert(s0.contains(x));
                        assert(x != u@) by {
                            assert(s0[k] == u@);
                            assert(a0 != k);
                        }
                    }
                    assert forall|x: UrlView| s0.to_set().remove(u@).contains(x) implies s1.to_set(
                    ).contains(x) by {
                        let a0 = choose|a0: int| 0 <= a0 < s0.len() && s0[a0] == x;
                        assert(a0 != k);
                        let a = if a0 < k {
                            a0
                        } else {
                            a0 - 1
                        };
                        assert(s1[a] == x);
                        assert(s1.contains(x));
                    }
                }
                assert(s0.contains(u@));
            }
            return ;
        }
        i = i + 1;
    }
    proof {
        assert(!s0.contains(u@));
        assert(url_seq_view(v@).to_set() =~= s0.to_set().remove(u@));
    }
}

/// First-seen-order dedup of a pending list, skipping URLs already in a
/// terminal or in-flight state.
pub open spec fn dedup_pending(xs: Seq<UrlView>, blocked: Set<UrlView>) -> Seq<UrlView>
    decreases xs.len(),
{
    if xs.len() == 0 {
        Seq::<UrlView>::empty()
    } else {
        let prev = dedup_pending(xs.drop_last(), blocked);
        let x = xs.last();
        if blocked.contains(x) || prev.contains(x) {
            prev
        } else {
            prev.push(x)
        }
    }
}

proof fn lemma_dedup_pending_props(xs: Seq<UrlView>, blocked: Set<UrlView>)
    ensures
        dedup_pending(xs, blocked).no_duplicates(),
        forall|x: UrlView| #[trigger]
            dedup_pending(xs, blocked).contains(x) ==> xs.contains(x) && !blocked.contains(x),
    decreases xs.len(),
{
    if xs.len() > 0 {
        lemma_dedup_pending_props(xs.drop_last(), blocked);
        let prev = dedup_pending(xs.drop_last(), blocked);
        let x = xs.last();
        assert(forall|y: UrlView| xs.drop_last().contains(y) ==> xs.contains(y));
        assert(xs.contains(x)) by {
            assert(xs[xs.len() - 1] == x);
        }
        if !(blocked.contains(x) || prev.contains(x)) {
            assert forall|y: UrlView| #[trigger]
                prev.push(x).contains(y) implies xs.contains(y) && !blocked.contains(y) by {
                if y != x {
                    assert(prev.contains(y)) by {
                        let k = choose|k: int| 0 <= k < prev.push(x).len() && prev.push(x)[k] == y;
                        assert(prev[k] == y);
                    }
                }
            }
        }
    }
}

/// The queue state seeded from a reconciled journal history: processed wins
/// over failed, both win over processing, and the pending list is deduped
/// and purged of anything already in another state.
pub open spec fn seed_m(
    pending: Seq<UrlView>,
    processing: Seq<UrlView>,
    processed: Seq<UrlView>,
    failed: Seq<UrlView>,
) -> QueueModel {
    let processed_s = processed.to_set();
    let failed_s = failed.to_set().difference(processed_s);
    let processing_s = processing.to_set().difference(processed_s).difference(failed.to_set());
    let blocked = processing_s.union(processed_s).union(failed_s);
    QueueModel {
        pending: dedup_pending(pending, blocked),
        processing: processing_s,
        processed: processed_s,
        failed: failed_s,
    }
}

/// The live crawl frontier. Internally four duplicate-free vectors; their
/// mathematical value is a [`QueueModel`].
pub struct Queue {
    pending: Vec<Url>,
    processing: Vec<Url>,
    processed: Vec<Url>,
    failed: Vec<Url>,
}

impl View for Queue {
    type V = QueueModel;

    closed spec fn view(&self) -> QueueModel {
        QueueModel {
            pending: url_seq_view(self.pending@),
            processing: url_seq_view(self.processing@).to_set(),
            processed: url_seq_view(self.processed@).to_set(),
            failed: url_seq_view(self.failed@).to_set(),
        }
    }
}

impl Queue {
    /// Representation invariant: the vectors are duplicate-free and the
    /// abstract state is well-formed.
    pub closed spec fn well_formed(&self) -> bool {
        &&& url_seq_view(self.pending@).no_duplicates()
        &&& url_seq_view(self.processing@).no_duplicates()
        &&& url_seq_view(self.processed@).no_duplicates()
        &&& url_seq_view(self.failed@).no_duplicates()
        &&& self@.wf()
    }

    /// Seed the queue from a reconciled journal history, then admit the seed
    /// URL so a resumed crawl always re-validates the root. Overlaps and
    /// duplicates among the four lists are settled as [`seed_m`] says.
    #[verifier::loop_isolation(false)]
    pub fn new_with_initial(
        base_url: &Url,
        pending: Vec<Url>,
        processing: Vec<Url>,
        processed: Vec<Url>,
        failed: Vec<Url>,
    ) -> (q: Self)
        ensures
            q.well_formed(),
            q@ == add_pending_m(
                seed_m(
                    url_seq_view(pending@),
                    url_seq_view(processing@),
                    url_seq_view(processed@),
                    url_seq_view(failed@),
                ),
                base_url@,
            ),
    {
        let ghost pending_in = url_seq_view(pending@);
        let ghost processing_in = url_seq_view(processing@);
        let ghost processed_in = url_seq_view(processed@);
        let ghost failed_in = url_seq_view(failed@);
        let ghost processed_s = processed_in.to_set();
        let ghost failed_s = failed_in.to_set().difference(processed_s);
        let ghost processing_s = processing_in.to_set().difference(processed_s).difference(
            failed_in.to_set(),
        );
        let ghost blocked = processing_s.union(processed_s).union(failed_s);

        let mut processed_v: Vec<Url> = Vec::new();
        let mut i: usize = 0;
        while i < processed.len()
            invariant
                i <= processed.len(),
                processed_in == url_seq_view(processed@),
                url_seq_view(processed_v@).no_duplicates(),
                url_seq_view(processed_v@).to_set() == processed_in.subrange(0, i as int).to_set(),
            decreases processed.len() - i,
        {
            let ghost pre = processed_in.subrange(0, i as int);
            let ghost x = processed@[i as int]@;
            proof {
                assert(processed_in.subrange(0, i + 1 as int) =~= pre.push(x));
                Self::lemma_push_set(pre, x);
            }
            if !contains_url(&processed_v, &processed[i]) {
                let ghost s = url_seq_view(processed_v@);
                processed_v.push(processed[i].clone());
                proof {
                    assert(url_seq_view(processed_v@) =~= s.push(x));
                    Self::lemma_push_set(s, x);
                    assert(url_seq_view(processed_v@).to_set() =~= pre.push(x).to_set());
                }
            } else {
                proof {
                    assert(pre.to_set().contains(x));
                    assert(url_seq_view(processed_v@).to_set() =~= pre.push(x).to_set());
                }
            }
            i = i + 1;
        }
        proof {
            assert(processed_in.subrange(0, processed@.len() as int) =~= processed_in);
            assert(url_seq_view(processed_v@).to_set() == processed_s);
        }

        let mut failed_v: Vec<Url> = Vec::new();
        let mut i: usize = 0;
        while i < failed.len()
            invariant
                i <= failed.len(),
                failed_in == url_seq_view(failed@),
                url_seq_view(processed_v@).to_set() == processed_s,
                url_seq_view(failed_v@).no_duplicates(),
                url_seq_view(failed_v@).to_set() == failed_in.subrange(0, i as int).to_set()
                    .difference(processed_s),
            decreases failed.len() - i,
        {
            let ghost pre = failed_in.subrange(0, i as int);
            let ghost x = failed@[i as int]@;
            proof {
                assert(failed_in.subrange(0, i + 1 as int) =~= pre.push(x));
                Self::lemma_push_set(pre, x);
            }
            if !contains_url(&failed_v, &failed[i]) && !contains_url(&processed_v, &failed[i]) {
                let ghost s = url_seq_view(failed_v@);
                failed_v.push(failed[i].clone());
                proof {
                    assert(url_seq_view(failed_v@) =~= s.push(x));
                    Self::lemma_push_set(s, x);
                    assert(url_seq_view(failed_v@).to_set() =~= pre.push(x).to_set().difference(
                        processed_s,
                    ));
                }
            } else {
                proof {
                    assert(url_seq_view(failed_v@).to_set() =~= pre.push(x).to_set().difference(
                        processed_s,
                    ));
                }
            }
            i = i + 1;
        }
        proof {
            assert(failed_in.subrange(0, failed@.len() as int) =~= failed_in);
            assert(url_seq_view(failed_v@).to_set() == failed_s);
        }

        let mut processing_v: Vec<Url> = Vec::new();
        let mut i: usize = 0;
        while i < processing.len()
            invariant
                i <= processing.len(),
                processing_in == url_seq_view(processing@),
                url_seq_view(processed_v@).to_set() == processed_s,
                url_seq_view(failed_v@).to_set() == failed_s,
                url_seq_view(processing_v@).no_duplicates(),
                url_seq_view(processing_v@).to_set() == processing_in.subrange(0, i as int).to_set()
                    .difference(processed_s).difference(failed_in.to_set()),
            decreases processing.len() - i,
        {
            let ghost pre = processing_in.subrange(0, i as int);
            let ghost x = processing@[i as int]@;
            proof {
                assert(processing_in.subrange(0, i + 1 as int) =~= pre.push(x));
                Self::lemma_push_set(pre, x);
            }
            if !contains_url(&processing_v, &processing[i]) && !contains_url(
                &processed_v,
                &processing[i],
            ) && !contains_url(&failed_v, &processing[i]) {
                let ghost s = url_seq_view(processing_v@);
                processing_v.push(processing[i].clone());
                proof {
                    assert(url_seq_view(processing_v@) =~= s.push(x));
                    Self::lemma_push_set(s, x);
                    assert(!failed_in.to_set().contains(x)) by {
                        if failed_in.to_set().contains(x) {
                            assert(failed_s.contains(x));
                        }
                    }
                    assert(url_seq_view(processing_v@).to_set() =~= pre.push(x).to_set().difference(
                        processed_s,
                    ).difference(failed_in.to_set()));
                }
            } else {
                proof {
                    if failed_s.contains(x) {
                        assert(failed_in.to_set().contains(x));
                    } else if !processed_s.contains(x) {
                        assert(url_seq_view(processing_v@).to_set().contains(x));
                    }
                    assert(url_seq_view(processing_v@).to_set() =~= pre.push(x).to_set().difference(
                        processed_s,
                    ).difference(failed_in.to_set()));
                }
            }
            i = i + 1;
        }
        proof {
            assert(processing_in.subrange(0, processing@.len() as int) =~= processing_in);
            assert(url_seq_view(processing_v@).to_set() == processing_s);
        }

        let mut pending_v: Vec<Url> = Vec::new();
        let mut i: usize = 0;
        while i < pending.len()
            invariant
                i <= pending.len(),
                pending_in == url_seq_view(pending@),
                url_seq_view(processed_v@).to_set() == processed_s,
                url_seq_view(failed_v@).to_set() == failed_s,
                url_seq_view(processing_v@).to_set() == processing_s,
                blocked == processing_s.union(processed_s).union(failed_s),
                url_seq_view(pending_v@) == dedup_pending(
                    pending_in.subrange(0, i as int),
                    blocked,
                ),
            decreases pending.len() - i,
        {
            let ghost pre = pending_in.subrange(0, i as int);
            let ghost x = pending@[i as int]@;
            proof {
                assert(pending_in.subrange(0, i + 1 as int) =~= pre.push(x));
                assert(pre.push(x).drop_last() =~= pre);
                assert(pre.push(x).last() == x);
            }
            if !contains_url(&pending_v, &pending[i]) && !contains_url(&processing_v, &pending[i])
                && !contains_url(&processed_v, &pending[i]) && !contains_url(
                &failed_v,
                &pending[i],
            ) {
                let ghost s = url_seq_view(pending_v@);
                pending_v.push(pending[i].clone());
                proof {
                    assert(url_seq_view(pending_v@) =~= s.push(x));
                    assert(!blocked.contains(x));
                    assert(url_seq_view(pending_v@) == dedup_pending(pre.push(x), blocked));
                }
            } else {
                proof {
                    assert(blocked.contains(x) || dedup_pending(pre, blocked).contains(x));
                    assert(url_seq_view(pending_v@) == dedup_pending(pre.push(x), blocked));
                }
            }
            i = i + 1;
        }
        proof {
            assert(pending_in.subrange(0, pending@.len() as int) =~= pending_in);
        }

        let mut q = Queue {
            pending: pending_v,
            processing: processing_v,
            processed: processed_v,
            failed: failed_v,
        };
        proof {
            assert(q@ =~= seed_m(pending_in, processing_in, processed_in, failed_in));
            lemma_dedup_pending_props(pending_in, blocked);
            assert(q.well_formed());
        }
        q.add_pending(base_url);
        q
    }

    /// Admit a URL to the pending FIFO unless it is already pending, being
    /// processed, or done; a failed URL is re-admitted (retry on
    /// rediscovery).
    pub fn add_pending(&mut self, url: &Url)
        requires
            old(self).well_formed(),
        ensures
            final(self).well_formed(),
            final(self)@ == add_pending_m(old(self)@, url@),
    {
        if !contains_url(&self.pending, url) && !contains_url(&self.processed, url)
            && !contains_url(&self.processing, url) {
            remove_url(&mut self.failed, url);
            self.pending.push(url.clone());
            proof {
                assert(url_seq_view(self.pending@) =~= url_seq_view(
                    old(self).pending@,
                ).push(url@));
                assert(self@ =~= add_pending_m(old(self)@, url@));
                assert(url_seq_view(self.pending@).no_duplicates()) by {
                    let s = url_seq_view(old(self).pending@);
                    assert(forall|j: int|
                        0 <= j < s.len() ==> #[trigger] s.push(url@)[j] == s[j]);
                    assert(s.push(url@)[s.len() as int] == url@);
                }
                assert(self@.wf()) by {
                    assert(forall|x: UrlView|
                        url_seq_view(self.pending@).contains(x) ==> x == url@ || url_seq_view(
                            old(self).pending@,
                        ).contains(x));
                }
            }
        } else {
            proof {
                assert(self@ =~= add_pending_m(old(self)@, url@));
            }
        }
    }

    /// Pop the head of the pending FIFO, if any, moving it to processing.
    /// `None` means "empty now", not "finished": running workers may still
    /// discover new links.
    pub fn next(&mut self) -> (r: Option<Url>)
        requires
            old(self).well_formed(),
        ensures
            final(self).well_formed(),
            final(self)@ == next_m(old(self)@).0,
            match r {
                Some(u) => next_m(old(self)@).1 == Some(u@),
                None => next_m(old(self)@).1 is None,
            },
    {
        if self.pending.len() == 0 {
            proof {
                assert(self@ =~= next_m(old(self)@).0);
            }
            None
        } else {
            let u = self.pending.remove(0);
            self.processing.push(u.clone());
            proof {
                let p0 = url_seq_view(old(self).pending@);
                assert(url_seq_view(self.pending@) =~= p0.drop_first());
                assert(url_seq_view(self.processing@) =~= url_seq_view(
                    old(self).processing@,
                ).push(u@));
                Self::lemma_push_set(url_seq_view(old(self).processing@), u@);
                assert(p0.contains(u@)) by {
                    assert(p0[0] == u@);
                }
                assert(self@ =~= next_m(old(self)@).0);
                assert(url_seq_view(self.processing@).no_duplicates()) by {
                    let s = url_seq_view(old(self).processing@);
                    assert(!s.contains(u@));
                    assert(forall|j: int|
                        0 <= j < s.len() ==> #[trigger] s.push(u@)[j] == s[j]);
                    assert(s.push(u@)[s.len() as int] == u@);
                }
                assert(self@.wf()) by {
                    assert(forall|x: UrlView|
                        url_seq_view(self.pending@).contains(x) ==> p0.contains(x));
                    assert(forall|j: int|
                        0 <= j < p0.drop_first().len() ==> #[trigger] p0.drop_first()[j] == p0[
                            j + 1
                        ]);
                    assert(!p0.drop_first().contains(u@)) by {
                        if p0.drop_first().contains(u@) {
                            let k = choose|k: int|
                                0 <= k < p0.drop_first().len() && p0.drop_first()[k] == u@;
                            assert(p0[k + 1] == u@ && p0[0] == u@);
                        }
                    }
                }
            }
            Some(u)
        }
    }

    /// Record a successful fetch-and-save: the URL leaves processing for the
    /// processed set. A no-op when the URL is not processing.
    pub fn mark_as_processed(&mut self, url: &Url)
        requires
            old(self).well_formed(),
        ensures
            final(self).well_formed(),
            final(self)@ == mark_processed_m(old(self)@, url@),
    {
        if contains_url(&self.processing, url) {
            remove_url(&mut self.processing, url);
            self.processed.push(url.clone());
            proof {
                Self::lemma_push_set(url_seq_view(old(self).processed@), url@);
                assert(url_seq_view(self.processed@) =~= url_seq_view(
                    old(self).processed@,
                ).push(url@));
                assert(self@ =~= mark_processed_m(old(self)@, url@));
                assert(final(self).well_formed());
            }
        } else {
            proof {
                assert(self@ =~= mark_processed_m(old(self)@, url@));
            }
        }
    }

    /// Record a failed fetch, read or save: the URL leaves processing for
    /// the failed set. A no-op when the URL is not processing.
    pub fn mark_as_failed(&mut self, url: &Url)
        requires
            old(self).well_formed(),
        ensures
            final(self).well_formed(),
            final(self)@ == mark_failed_m(old(self)@, url@),
    {
        if contains_url(&self.processing, url) {
            remove_url(&mut self.processing, url);
            self.failed.push(url.clone());
            proof {
                Self::lemma_push_set(url_seq_view(old(self).failed@), url@);
                assert(url_seq_view(self.failed@) =~= url_seq_view(old(self).failed@).push(url@));
                assert(self@ =~= mark_failed_m(old(self)@, url@));
                assert(final(self).well_formed());
            }
        } else {
            proof {
                assert(self@ =~= mark_failed_m(old(self)@, url@));
            }
        }
    }

    /// How many URLs sit in each state: (pending, processing, processed,
    /// failed).
    pub fn counts(&self) -> (r: (usize, usize, usize, usize))
        requires
            self.well_formed(),
        ensures
            r.0 == self@.pending.len(),
            r.1 == self@.processing.len(),
            r.2 == self@.processed.len(),
            r.3 == self@.failed.len(),
    {
        proof {
            url_seq_view(self.processing@).unique_seq_to_set();
            url_seq_view(self.processed@).unique_seq_to_set();
            url_seq_view(self.failed@).unique_seq_to_set();
        }
        (self.pending.len(), self.processing.len(), self.processed.len(), self.failed.len())
    }

    proof fn lemma_push_set(s: Seq<UrlView>, u: UrlView)
        ensures
            s.push(u).to_set() == s.to_set().insert(u),
            s.no_duplicates() && !s.contains(u) ==> s.push(u).no_duplicates(),
            forall|x: UrlView| #[trigger]
                s.push(u).contains(x) <==> (x == u || s.contains(x)),
    {
        assert(forall|j: int| 0 <= j < s.len() ==> #[trigger] s.push(u)[j] == s[j]);
        assert(s.push(u)[s.len() as int] == u);
        assert(s.push(u).contains(u));
        assert forall|x: UrlView| #[trigger]
            s.push(u).contains(x) implies (x == u || s.contains(x)) by {
            let k = choose|k: int| 0 <= k < s.push(u).len() && s.push(u)[k] == x;
            if k < s.len() {
                assert(s[k] == x);
            }
        }
        assert forall|x: UrlView| s.contains(x) implies s.push(u).contains(x) by {
            let k = choose|k: int| 0 <= k < s.len() && s[k] == x;
            assert(s.push(u)[k] == x);
        }
        assert(s.push(u).to_set() =~= s.to_set().insert(u));
    }
}

/// Dedup law: admitting a URL twice enqueues it once; a processed (or
/// pending, or processing) URL is never re-pended; a failed URL is
/// re-admitted on rediscovery, leaving the failed set.
pub proof fn lemma_add_pending_dedup(q: QueueModel, u: UrlView)
    requires
        q.wf(),
    ensures
        add_pending_m(add_pending_m(q, u), u) == add_pending_m(q, u),
        q.pending.contains(u) || q.processing.contains(u) || q.processed.contains(u)
            ==> add_pending_m(q, u) == q,
        !q.knows(u) ==> add_pending_m(q, u).pending == q.pending.push(u),
        q.failed.contains(u) && !q.pending.contains(u) && !q.processing.contains(u)
            && !q.processed.contains(u) ==> add_pending_m(q, u).pending == q.pending.push(u)
            && !add_pending_m(q, u).failed.contains(u),
{
    let q1 = add_pending_m(q, u);
    if !(q.pending.contains(u) || q.processing.contains(u) || q.processed.contains(u)) {
        assert(q1.pending.contains(u)) by {
            assert(q.pending.push(u)[q.pending.len() as int] == u);
        }
        if q.knows(u) {
            assert(q.failed.contains(u));
        }
    }
}

/// Dispatch law: what `next` hands out has left pending for processing, so a
/// second dequeue never returns the same URL, and the queue never forgets a
/// URL: every operation keeps the total count of known URLs, except
/// `add_pending` of a new URL, which grows it.
pub proof fn lemma_no_double_dispatch(q: QueueModel, u: UrlView)
    requires
        q.wf(),
    ensures
        next_m(q).0.wf(),
        add_pending_m(q, u).wf(),
        mark_processed_m(q, u).wf(),
        mark_failed_m(q, u).wf(),
        next_m(q).1 matches Some(d) ==> !next_m(q).0.pending.contains(d) && next_m(
            q,
        ).0.processing.contains(d),
        next_m(q).1 matches Some(d) ==> (next_m(next_m(q).0).1 matches Some(d2) ==> d != d2),
        next_m(q).0.total() == q.total(),
        mark_processed_m(q, u).total() == q.total(),
        mark_failed_m(q, u).total() == q.total(),
        add_pending_m(q, u).total() >= q.total(),
{
    broadcast use vstd::set_lib::group_set_lib_default;

    let (q1, d) = next_m(q);
    if q.pending.len() > 0 {
        let u0 = q.pending[0];
        assert(q.pending.contains(u0));
        assert(forall|j: int|
            0 <= j < q.pending.drop_first().len() ==> #[trigger] q.pending.drop_first()[j]
                == q.pending[j + 1]);
        assert(!q1.pending.contains(u0)) by {
            if q1.pending.contains(u0) {
                let k = choose|k: int| 0 <= k < q1.pending.len() && q1.pending[k] == u0;
                assert(q.pending[k + 1] == u0 && q.pending[0] == u0);
            }
        }
        assert(forall|x: UrlView| q1.pending.contains(x) ==> q.pending.contains(x)) by {
            assert forall|x: UrlView| q1.pending.contains(x) implies q.pending.contains(x) by {
                let k = choose|k: int| 0 <= k < q1.pending.len() && q1.pending[k] == x;
                assert(q.pending[k + 1] == x);
            }
        }
        assert(q1.wf());
        assert(q1.total() == q.total()) by {
            assert(!q.processing.contains(u0));
            assert(q.processing.insert(u0).len() == q.processing.len() + 1);
        }
        if q1.pending.len() > 0 {
            let d2 = next_m(q1).1.unwrap();
            assert(d2 == q1.pending[0]);
            assert(q1.pending[0] == q.pending[1]);
            assert(q.pending[0] != q.pending[1]);
        }
    }
    if q.processing.contains(u) {
        assert(q.processing.remove(u).len() == q.processing.len() - 1);
        assert(!q.processed.contains(u));
        assert(q.processed.insert(u).len() == q.processed.len() + 1);
        assert(!q.failed.contains(u));
        assert(q.failed.insert(u).len() == q.failed.len() + 1);
        assert(forall|x: UrlView|
            q.pending.contains(x) ==> !q.processing.remove(u).contains(x) && !q.processed.insert(
                u,
            ).contains(x) && !q.failed.insert(u).contains(x));
    }
    let qa = add_pending_m(q, u);
    if !(q.pending.contains(u) || q.processing.contains(u) || q.processed.contains(u)) {
        lemma_add_pending_dedup(q, u);
        assert(qa.pending.no_duplicates()) by {
            assert(forall|j: int|
                0 <= j < q.pending.len() ==> #[trigger] q.pending.push(u)[j] == q.pending[j]);
            assert(q.pending.push(u)[q.pending.len() as int] == u);
        }
        assert(forall|x: UrlView| qa.pending.contains(x) ==> x == u || q.pending.contains(x)) by {
            assert forall|x: UrlView| qa.pending.contains(x) implies x == u || q.pending.contains(
                x,
            ) by {
                let k = choose|k: int| 0 <= k < qa.pending.len() && qa.pending[k] == x;
                if k < q.pending.len() {
                    assert(q.pending[k] == x);
                }
            }
        }
        assert(qa.wf());
        if q.failed.contains(u) {
            assert(q.failed.remove(u).len() == q.failed.len() - 1);
        } else {
            assert(q.failed.remove(u) =~= q.failed);
        }
    }
}

} // verus!
