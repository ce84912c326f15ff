//! The crawl driver: the fixed-point loop tying scheduler, spider,
//! fingerprint filter and selector together.
//!
//! The driver is a state machine. The caller executes the requests the
//! scheduler hands out, feeds responses and parse results back, and drains
//! items. Each parse result is split into further requests and items; the
//! requests are fingerprinted and deduplicated before they are scheduled,
//! the items are queued for the caller. The crawl ends exactly when the
//! scheduler is done and no parse is outstanding.

use crate::digest::{digest_of, digests_of};
use crate::request::{ReqView, Request};
use crate::rfp::{admitted, lemma_admitted_digests, pairs_view, seen_after, RFPFilter};
use crate::select_all::SelectAll;
use crate::sheduler::{
    lemma_distinct_in, lemma_with_host_digests, req_views, with_host, Sheduler,
};
use crate::spider::{Parse, Response, Spider, SpiderError};
use vstd::multiset::Multiset;
use vstd::prelude::*;

verus! {

/// Where a parse runs: on the worker pool or inline on the driver task.
#[derive(Clone, PartialEq, Eq, Structural, Debug)]
pub enum ParseSettings {
    OnPool,
    SameThread,
}

/// What one poll of the crawl yields.
pub enum CrawlPoll<T> {
    /// An item the spider emitted.
    Item(T),
    /// Nothing ready yet; the crawl goes on.
    Pending,
    /// The crawl is over: scheduler drained, no parse outstanding.
    End,
    /// The spider's start failed; the crawl ends with this error.
    Failed(SpiderError),
}

/// The items among a parse result's elements, in order; errors and
/// requests contribute nothing.
pub open spec fn items_of<T>(entries: Seq<Result<Parse<T>, SpiderError>>) -> Seq<T>
    decreases entries.len(),
{
    if entries.len() == 0 {
        Seq::empty()
    } else {
        items_of(entries.drop_last()) + match entries.last() {
            Ok(Parse::Item(x)) => seq![x],
            _ => Seq::empty(),
        }
    }
}

/// The requests among a parse result's elements, in order; errors and
/// items contribute nothing.
pub open spec fn reqs_of<T>(entries: Seq<Result<Parse<T>, SpiderError>>) -> Seq<ReqView>
    decreases entries.len(),
{
    if entries.len() == 0 {
        Seq::empty()
    } else {
        reqs_of(entries.drop_last()) + match entries.last() {
            Ok(Parse::Request(r)) => seq![r@],
            _ => Seq::empty(),
        }
    }
}

/// The requests among a start result's elements, in order.
pub open spec fn start_reqs(entries: Seq<Result<Request, SpiderError>>) -> Seq<ReqView>
    decreases entries.len(),
{
    if entries.len() == 0 {
        Seq::empty()
    } else {
        start_reqs(entries.drop_last()) + match entries.last() {
            Ok(r) => seq![r@],
            _ => Seq::empty(),
        }
    }
}

/// Each request paired with its fingerprint.
pub open spec fn digest_pairs(reqs: Seq<ReqView>) -> Seq<(Seq<u8>, ReqView)> {
    reqs.map_values(|r: ReqView| (digest_of(r), r))
}

/// Error elements change nothing: a parse result yields the same items and
/// requests as the same result with its error elements removed.
pub proof fn lemma_error_elements_dropped<T>(entries: Seq<Result<Parse<T>, SpiderError>>)
    ensures
        items_of(entries) == items_of(entries.filter(|e: Result<Parse<T>, SpiderError>| e is Ok)),
        reqs_of(entries) == reqs_of(entries.filter(|e: Result<Parse<T>, SpiderError>| e is Ok)),
    decreases entries.len(),
{
    broadcast use vstd::prelude::Seq::lemma_filter_push;

    let pred = |e: Result<Parse<T>, SpiderError>| e is Ok;
    if entries.len() == 0 {
        assert(entries.filter(pred) =~= entries);
    } else {
        let d = entries.drop_last();
        lemma_error_elements_dropped(d);
        assert(entries =~= d.push(entries.last()));
        assert(entries.filter(pred) == if pred(entries.last()) {
            d.filter(pred).push(entries.last())
        } else {
            d.filter(pred)
        });
        if pred(entries.last()) {
            assert(d.filter(pred).push(entries.last()).drop_last() =~= d.filter(pred));
        }
    }
}

/// Scheduling the admitted requests preserves the driver's digest
/// discipline: the launched and queued requests keep pairwise distinct
/// fingerprints, all recorded in the grown seen set.
proof fn lemma_admit_and_schedule(
    seen0: Seq<Seq<u8>>,
    pairsv: Seq<(Seq<u8>, ReqView)>,
    launched: Seq<ReqView>,
    pending: Seq<ReqView>,
)
    requires
        forall|i: int| 0 <= i < pairsv.len() ==> #[trigger] pairsv[i].0 == digest_of(pairsv[i].1),
        digests_of(launched + pending).no_duplicates(),
        forall|i: int|
            0 <= i < digests_of(launched + pending).len() ==> seen0.contains(
                #[trigger] digests_of(launched + pending)[i],
            ),
    ensures
        digests_of(launched + (pending + with_host(admitted(seen0, pairsv)))).no_duplicates(),
        forall|i: int|
            0 <= i < digests_of(launched + (pending + with_host(admitted(seen0, pairsv)))).len()
                ==> seen_after(seen0, pairsv).contains(
                #[trigger] digests_of(launched + (pending + with_host(admitted(seen0, pairsv))))[i],
            ),
{
    let adm = admitted(seen0, pairsv);
    let wh = with_host(adm);
    let c0 = launched + pending;
    let c1 = launched + (pending + wh);
    lemma_admitted_digests(seen0, pairsv);
    lemma_with_host_digests(adm);
    assert(c1 =~= c0 + wh);
    assert(digests_of(c1) =~= digests_of(c0) + digests_of(wh)) by {
        assert forall|i: int| 0 <= i < c1.len() implies #[trigger] digests_of(c1)[i] == (
        digests_of(c0) + digests_of(wh))[i] by {
            assert(digests_of(c1)[i] == digest_of(c1[i]));
            if i < c0.len() {
                assert(digests_of(c0)[i] == digest_of(c0[i]));
            } else {
                assert(digests_of(wh)[i - c0.len()] == digest_of(wh[i - c0.len()]));
            }
        }
    }
    assert forall|i: int| 0 <= i < digests_of(wh).len() implies !seen0.contains(
        #[trigger] digests_of(wh)[i],
    ) && seen_after(seen0, pairsv).contains(digests_of(wh)[i]) by {
        assert(digests_of(adm).contains(digests_of(wh)[i]));
        let j = choose|j: int|
            0 <= j < digests_of(adm).len() && digests_of(adm)[j] == digests_of(wh)[i];
        assert(!seen0.contains(digests_of(adm)[j]));
        assert(seen_after(seen0, pairsv).contains(digests_of(adm)[j]));
    }
    assert forall|i: int, j: int|
        0 <= i < digests_of(c1).len() && 0 <= j < digests_of(c1).len() && i != j implies
    digests_of(c1)[i] != digests_of(c1)[j] by {
        let n0 = digests_of(c0).len();
        if i < n0 && j < n0 {
            assert(digests_of(c0)[i] != digests_of(c0)[j]);
        } else if i >= n0 && j >= n0 {
            assert(digests_of(wh).no_duplicates());
            assert(digests_of(wh)[i - n0] != digests_of(wh)[j - n0]);
        } else {
            let a = if i < n0 {
                i
            } else {
                j
            };
            let b = if i < n0 {
                j
            } else {
                i
            };
            assert(seen0.contains(digests_of(c0)[a]));
            assert(!seen0.contains(digests_of(wh)[b - n0]));
        }
    }
    assert forall|i: int| 0 <= i < digests_of(c1).len() implies seen_after(
        seen0,
        pairsv,
    ).contains(#[trigger] digests_of(c1)[i]) by {
        let n0 = digests_of(c0).len();
        if i < n0 {
            assert(seen0.contains(digests_of(c0)[i]));
        }
    }
}

/// A live crawl: the spider, the scheduler, outstanding parses, queued
/// items, and the fingerprint filter.
pub struct Crawl<S: Spider, SH: Sheduler> {
    pub spider: S,
    pub sheduler: SH,
    pub parsing: Vec<Response>,
    pub output: SelectAll<S::Item>,
    pub rfp_filter: RFPFilter,
    pub parse_settings: ParseSettings,
    pub start_error: Option<SpiderError>,
    pub emitted: Ghost<Seq<S::Item>>,
    pub delivered: Ghost<Multiset<S::Item>>,
}

impl<S: Spider, SH: Sheduler> Crawl<S, SH> {
    /// The fingerprints of every request handed to HTTP or still queued.
    pub open spec fn inflight_digests(&self) -> Seq<Seq<u8>> {
        digests_of(self.sheduler.launched() + self.sheduler.pending())
    }

    /// The driver's invariant: components well-formed; every launched or
    /// queued request has a fingerprint in the seen set, and those
    /// fingerprints are pairwise distinct, so no request is executed
    /// twice; every item a parse emitted is either delivered or still
    /// queued.
    pub open spec fn wf(&self) -> bool {
        &&& self.sheduler.wf()
        &&& self.output.wf()
        &&& self.rfp_filter.wf()
        &&& self.inflight_digests().no_duplicates()
        &&& forall|i: int|
            0 <= i < self.inflight_digests().len() ==> self.rfp_filter.digests().contains(
                #[trigger] self.inflight_digests()[i],
            )
        &&& self.emitted@.to_multiset() == self.delivered@.add(self.output.content())
    }

    /// Hand out the next request to execute, if the queue is nonempty and
    /// the concurrency cap leaves room. The caller performs the HTTP call
    /// and reports back with `on_response` or `on_transport_error`.
    pub fn next_request(&mut self) -> (r: Option<Request>)
        requires
            old(self).wf(),
        ensures
            final(self).wf(),
            final(self).parsing == old(self).parsing,
            final(self).emitted == old(self).emitted,
            final(self).delivered == old(self).delivered,
            final(self).output == old(self).output,
            final(self).rfp_filter == old(self).rfp_filter,
            final(self).sheduler.limit() == old(self).sheduler.limit(),
            final(self).sheduler.in_flight() <= final(self).sheduler.limit(),
            match r {
                Some(req) => old(self).sheduler.pending().len() > 0 && req@ == old(self).sheduler.pending()[0] && final(self).sheduler.launched() == old(self).sheduler.launched().push(req@) && final(self).sheduler.pending() == old(self).sheduler.pending().skip(1) && final(self).sheduler.in_flight() == old(self).sheduler.in_flight() + 1,
                None => (old(self).sheduler.pending().len() == 0 || old(self).sheduler.in_flight()
                    >= old(self).sheduler.limit()) && final(self).sheduler.pending() == old(self).sheduler.pending() && final(self).sheduler.launched() == old(self).sheduler.launched() && final(self).sheduler.in_flight() == old(self).sheduler.in_flight(),
            },
    {
        let r = self.sheduler.next_to_launch();
        proof {
            self.sheduler.lemma_cap();
            if r is Some {
                assert(old(self).sheduler.launched() + old(self).sheduler.pending()
                    =~= self.sheduler.launched() + self.sheduler.pending());
            }
            assert(self.inflight_digests() == old(self).inflight_digests());
        }
        r
    }

    /// A handed-out request completed: its response joins the outstanding
    /// parses.
    pub fn on_response(&mut self, response: Response)
        requires
            old(self).wf(),
            old(self).sheduler.in_flight() > 0,
        ensures
            final(self).wf(),
            final(self).parsing@ == old(self).parsing@.push(response),
            final(self).sheduler.in_flight() == old(self).sheduler.in_flight() - 1,
            final(self).sheduler.pending() == old(self).sheduler.pending(),
            final(self).sheduler.launched() == old(self).sheduler.launched(),
            final(self).emitted == old(self).emitted,
            final(self).delivered == old(self).delivered,
            final(self).output == old(self).output,
            final(self).rfp_filter == old(self).rfp_filter,
    {
        self.sheduler.on_response();
        self.parsing.push(response);
        proof {
            assert(self.inflight_digests() == old(self).inflight_digests());
        }
    }

    /// A handed-out request failed in transport: it is logged and dropped;
    /// nothing else changes and the crawl goes on.
    pub fn on_transport_error(&mut self)
        requires
            old(self).wf(),
            old(self).sheduler.in_flight() > 0,
        ensures
            final(self).wf(),
            final(self).parsing == old(self).parsing,
            final(self).sheduler.in_flight() == old(self).sheduler.in_flight() - 1,
            final(self).sheduler.pending() == old(self).sheduler.pending(),
            final(self).sheduler.launched() == old(self).sheduler.launched(),
            final(self).emitted == old(self).emitted,
            final(self).delivered == old(self).delivered,
            final(self).output == old(self).output,
            final(self).rfp_filter == old(self).rfp_filter,
    {
        self.sheduler.on_transport_error();
        proof {
            assert(self.inflight_digests() == old(self).inflight_digests());
        }
    }

    /// Work one parse result into the crawl: error elements are dropped,
    /// requests are fingerprinted, deduplicated and scheduled, items are
    /// queued for the caller.
    pub fn process_parse(&mut self, entries: Vec<Result<Parse<S::Item>, SpiderError>>)
        requires
            old(self).wf(),
        ensures
            final(self).wf(),
            final(self).parsing == old(self).parsing,
            final(self).start_error == old(self).start_error,
            final(self).delivered == old(self).delivered,
            final(self).emitted@ == old(self).emitted@ + items_of(entries@),
            final(self).output.content() == old(self).output.content().add(
                items_of(entries@).to_multiset(),
            ),
            final(self).output.queue_views() == if items_of(entries@).len() == 0 {
                old(self).output.queue_views()
            } else {
                old(self).output.queue_views().push(items_of(entries@))
            },
            final(self).sheduler.launched() == old(self).sheduler.launched(),
            final(self).sheduler.in_flight() == old(self).sheduler.in_flight(),
            final(self).sheduler.limit() == old(self).sheduler.limit(),
            final(self).sheduler.pending() == old(self).sheduler.pending() + with_host(
                admitted(old(self).rfp_filter.digests(), digest_pairs(reqs_of(entries@))),
            ),
            final(self).rfp_filter.digests() == seen_after(
                old(self).rfp_filter.digests(),
                digest_pairs(reqs_of(entries@)),
            ),
    {
        let ghost full = entries@;
        let mut entries = entries;
        let mut items: Vec<S::Item> = Vec::new();
        let mut pairs: Vec<(crate::digest::RequestDigest, Request)> = Vec::new();
        let mut i: usize = 0;
        let n = entries.len();
        proof {
            assert(full.len() == n as int);
            assert(items@ =~= items_of(full.take(0)));
            assert(pairs_view(pairs@) =~= digest_pairs(reqs_of(full.take(0))));
        }
        while entries.len() > 0
            invariant
                full.len() <= usize::MAX,
                i + entries.len() == full.len(),
                entries@ =~= full.skip(i as int),
                items@ == items_of(full.take(i as int)),
                pairs_view(pairs@) == digest_pairs(reqs_of(full.take(i as int))),
            decreases entries.len(),
        {
            let ghost pre = entries@;
            let entry = entries.remove(0);
            proof {
                assert(entry == full[i as int]);
                assert(entries@ =~= full.skip(i as int + 1));
                assert(full.take(i as int + 1).drop_last() =~= full.take(i as int));
                assert(full.take(i as int + 1).last() == full[i as int]);
            }
            let ghost items0 = items@;
            let ghost pairs0 = pairs@;
            match entry {
                Ok(Parse::Item(x)) => {
                    items.push(x);
                    proof {
                        assert(items@ =~= items_of(full.take(i as int + 1)));
                        assert(pairs_view(pairs@) =~= digest_pairs(
                            reqs_of(full.take(i as int + 1)),
                        ));
                    }
                },
                Ok(Parse::Request(req)) => {
                    let p = crate::digest::get_digest_and_request(req);
                    pairs.push(p);
                    proof {
                        assert(items@ =~= items_of(full.take(i as int + 1)));
                        let rv = reqs_of(full.take(i as int));
                        let rv1 = reqs_of(full.take(i as int + 1));
                        assert(rv1 =~= rv.push(p.1@));
                        assert(pairs0.len() == rv.len()) by {
                            assert(pairs_view(pairs0).len() == pairs0.len());
                            assert(digest_pairs(rv).len() == rv.len());
                        }
                        assert forall|j: int| 0 <= j < pairs@.len() implies #[trigger] pairs_view(
                            pairs@,
                        )[j] == digest_pairs(rv1)[j] by {
                            assert(digest_pairs(rv1)[j] == (digest_of(rv1[j]), rv1[j]));
                            if j < pairs0.len() {
                                assert(pairs_view(pairs0)[j] == (pairs0[j].0@, pairs0[j].1@));
                                assert(digest_pairs(rv)[j] == (digest_of(rv[j]), rv[j]));
                                assert(rv1[j] == rv[j]);
                            } else {
                                assert(pairs@[j] == p);
                                assert(rv1[j] == p.1@);
                            }
                        }
                        assert(pairs_view(pairs@) =~= digest_pairs(rv1));
                    }
                },
                Err(_) => {
                    proof {
                        assert(items@ =~= items_of(full.take(i as int + 1)));
                        assert(pairs_view(pairs@) =~= digest_pairs(
                            reqs_of(full.take(i as int + 1)),
                        ));
                    }
                },
            }
            i = i + 1;
        }
        proof {
            assert(full.take(full.len() as int) =~= full);
        }
        let ghost seen0 = self.rfp_filter.digests();
        let ghost pairsv = pairs_view(pairs@);
        let ghost itemsv = items@;
        proof {
            assert forall|j: int| 0 <= j < pairsv.len() implies #[trigger] pairsv[j].0
                == digest_of(pairsv[j].1) by {
                let rv = reqs_of(full);
                assert(digest_pairs(rv)[j] == (digest_of(rv[j]), rv[j]));
            }
        }
        let admitted_vec = self.rfp_filter.unique(pairs);
        proof {
            lemma_admit_and_schedule(
                seen0,
                pairsv,
                self.sheduler.launched(),
                self.sheduler.pending(),
            );
            assert(req_views(admitted_vec@) == admitted(seen0, pairsv));
        }
        self.sheduler.shedule(admitted_vec);
        let ghost content0 = self.output.content();
        self.output.push(items);
        proof {
            self.emitted@ = self.emitted@ + itemsv;
            assert(self.inflight_digests().no_duplicates());
            assert forall|i2: int| 0 <= i2 < self.inflight_digests().len() implies self
                .rfp_filter.digests().contains(#[trigger] self.inflight_digests()[i2]) by {}
            vstd::seq_lib::lemma_multiset_commutative(old(self).emitted@, itemsv);
            assert(self.emitted@.to_multiset() == self.delivered@.add(self.output.content()))
                by {
                assert(self.emitted@.to_multiset() == old(self).emitted@.to_multiset().add(
                    itemsv.to_multiset(),
                ));
                assert(self.delivered@.add(content0.add(itemsv.to_multiset()))
                    =~= self.delivered@.add(content0).add(itemsv.to_multiset()));
            }
        }
    }

    /// Work the spider's start result into the crawl: a failure of the
    /// whole start is recorded and later surfaced by `poll_output`; on
    /// success the error elements are dropped and the requests are
    /// fingerprinted, deduplicated and scheduled.
    pub fn process_start(
        &mut self,
        started: Result<Vec<Result<Request, SpiderError>>, SpiderError>,
    )
        requires
            old(self).wf(),
        ensures
            final(self).wf(),
            final(self).parsing == old(self).parsing,
            final(self).emitted == old(self).emitted,
            final(self).delivered == old(self).delivered,
            final(self).output == old(self).output,
            final(self).sheduler.launched() == old(self).sheduler.launched(),
            final(self).sheduler.in_flight() == old(self).sheduler.in_flight(),
            final(self).sheduler.limit() == old(self).sheduler.limit(),
            match started {
                Ok(entries) => final(self).start_error == old(self).start_error && final(self).sheduler.pending() == old(self).sheduler.pending() + with_host(
                    admitted(old(self).rfp_filter.digests(), digest_pairs(start_reqs(entries@))),
                ) && final(self).rfp_filter.digests() == seen_after(
                    old(self).rfp_filter.digests(),
                    digest_pairs(start_reqs(entries@)),
                ),
                Err(e) => final(self).start_error == Some(e) && final(self).sheduler.pending()
                    == old(self).sheduler.pending() && final(self).rfp_filter.digests() == old(self).rfp_filter.digests(),
            },
    {
        match started {
            Err(e) => {
                self.start_error = Some(e);
            },
            Ok(entries) => {
                let ghost full = entries@;
                let mut entries = entries;
                let mut pairs: Vec<(crate::digest::RequestDigest, Request)> = Vec::new();
                let mut i: usize = 0;
                let n = entries.len();
                proof {
                    assert(full.len() == n as int);
                    assert(pairs_view(pairs@) =~= digest_pairs(start_reqs(full.take(0))));
                }
                while entries.len() > 0
                    invariant
                        full.len() <= usize::MAX,
                        i + entries.len() == full.len(),
                        entries@ =~= full.skip(i as int),
                        pairs_view(pairs@) == digest_pairs(start_reqs(full.take(i as int))),
                    decreases entries.len(),
                {
                    let entry = entries.remove(0);
                    proof {
                        assert(entry == full[i as int]);
                        assert(entries@ =~= full.skip(i as int + 1));
                        assert(full.take(i as int + 1).drop_last() =~= full.take(i as int));
                        assert(full.take(i as int + 1).last() == full[i as int]);
                    }
                    let ghost pairs0 = pairs@;
                    match entry {
                        Ok(req) => {
                            let p = crate::digest::get_digest_and_request(req);
                            pairs.push(p);
                            proof {
                                let rv = start_reqs(full.take(i as int));
                                let rv1 = start_reqs(full.take(i as int + 1));
                                assert(rv1 =~= rv.push(p.1@));
                                assert(pairs0.len() == rv.len()) by {
                                    assert(pairs_view(pairs0).len() == pairs0.len());
                                    assert(digest_pairs(rv).len() == rv.len());
                                }
                                assert forall|j: int| 0 <= j < pairs@.len() implies #[trigger]
                                pairs_view(pairs@)[j] == digest_pairs(rv1)[j] by {
                                    assert(digest_pairs(rv1)[j] == (digest_of(rv1[j]), rv1[j]));
                                    if j < pairs0.len() {
                                        assert(pairs_view(pairs0)[j] == (
                                            pairs0[j].0@,
                                            pairs0[j].1@,
                                        ));
                                        assert(digest_pairs(rv)[j] == (digest_of(rv[j]), rv[j]));
                                        assert(rv1[j] == rv[j]);
                                    } else {
                                        assert(pairs@[j] == p);
                                        assert(rv1[j] == p.1@);
                                    }
                                }
                                assert(pairs_view(pairs@) =~= digest_pairs(rv1));
                            }
                        },
                        Err(_) => {
                            proof {
                                assert(pairs_view(pairs@) =~= digest_pairs(
                                    start_reqs(full.take(i as int + 1)),
                                ));
                            }
                        },
                    }
                    i = i + 1;
                }
                proof {
                    assert(full.take(full.len() as int) =~= full);
                }
                let ghost seen0 = self.rfp_filter.digests();
                let ghost pairsv = pairs_view(pairs@);
                proof {
                    assert forall|j: int| 0 <= j < pairsv.len() implies #[trigger] pairsv[j].0
                        == digest_of(pairsv[j].1) by {
                        let rv = start_reqs(full);
                        assert(digest_pairs(rv)[j] == (digest_of(rv[j]), rv[j]));
                    }
                }
                let admitted_vec = self.rfp_filter.unique(pairs);
                proof {
                    lemma_admit_and_schedule(
                        seen0,
                        pairsv,
                        self.sheduler.launched(),
                        self.sheduler.pending(),
                    );
                    assert(req_views(admitted_vec@) == admitted(seen0, pairsv));
                }
                self.sheduler.shedule(admitted_vec);
                proof {
                    assert(self.inflight_digests().no_duplicates());
                    assert forall|i2: int| 0 <= i2 < self.inflight_digests().len() implies self
                        .rfp_filter.digests().contains(#[trigger] self.inflight_digests()[i2])
                        by {}
                }
            },
        }
    }

    /// Take one outstanding parse, run the spider's parser on it, and work
    /// the result into the crawl. A parser failure ends only that parse:
    /// items already emitted stay, and everything queued goes on.
    pub fn step_parse(&mut self)
        requires
            old(self).wf(),
        ensures
            final(self).wf(),
            final(self).delivered == old(self).delivered,
            final(self).start_error == old(self).start_error,
            final(self).sheduler.launched() == old(self).sheduler.launched(),
            final(self).sheduler.in_flight() == old(self).sheduler.in_flight(),
            final(self).sheduler.limit() == old(self).sheduler.limit(),
            old(self).parsing@.len() == 0 ==> final(self).parsing@ == old(self).parsing@
                && final(self).emitted == old(self).emitted && final(self).output == old(self).output,
            old(self).parsing@.len() > 0 ==> final(self).parsing@ == old(self).parsing@.drop_last(),
            old(self).emitted@.is_prefix_of(final(self).emitted@),
            final(self).output.content() == old(self).output.content().add(
                final(self).emitted@.skip(old(self).emitted@.len() as int).to_multiset(),
            ),
    {
        let resp = self.parsing.pop();
        match resp {
            None => {
                proof {
                    assert(self.emitted@.skip(self.emitted@.len() as int) =~= Seq::<
                        S::Item,
                    >::empty());
                    assert(self.emitted@.skip(self.emitted@.len() as int).to_multiset()
                        =~= Multiset::<S::Item>::empty()) by {
                        broadcast use vstd::seq_lib::group_to_multiset_ensures;

                    }
                    assert(self.output.content().add(Multiset::<S::Item>::empty())
                        =~= self.output.content());
                }
            },
            Some(response) => {
                let parsed = self.spider.parse(response);
                match parsed {
                    Ok(entries) => {
                        let ghost ev = entries@;
                        self.process_parse(entries);
                        proof {
                            assert(self.emitted@ == old(self).emitted@ + items_of(ev));
                            assert(self.emitted@.skip(old(self).emitted@.len() as int)
                                =~= items_of(ev));
                            assert(old(self).emitted@.is_prefix_of(self.emitted@)) by {
                                assert(self.emitted@.take(old(self).emitted@.len() as int)
                                    =~= old(self).emitted@);
                            }
                        }
                    },
                    Err(_) => {
                        proof {
                            assert(self.emitted@.skip(self.emitted@.len() as int) =~= Seq::<
                                S::Item,
                            >::empty());
                            assert(self.emitted@.skip(self.emitted@.len() as int).to_multiset()
                                =~= Multiset::<S::Item>::empty()) by {
                                broadcast use vstd::seq_lib::group_to_multiset_ensures;

                            }
                            assert(self.output.content().add(Multiset::<S::Item>::empty())
                                =~= self.output.content());
                        }
                    },
                }
            },
        }
    }

    /// Poll the crawl's output. Yields a queued item if any; reports the
    /// start failure once, if there was one; otherwise ends exactly when
    /// the scheduler is done and no parse is outstanding.
    pub fn poll_output(&mut self) -> (r: CrawlPoll<S::Item>)
        requires
            old(self).wf(),
        ensures
            final(self).wf(),
            final(self).parsing == old(self).parsing,
            final(self).emitted == old(self).emitted,
            final(self).sheduler.pending() == old(self).sheduler.pending(),
            final(self).sheduler.launched() == old(self).sheduler.launched(),
            final(self).sheduler.in_flight() == old(self).sheduler.in_flight(),
            final(self).rfp_filter == old(self).rfp_filter,
            match r {
                CrawlPoll::Item(x) => old(self).output.content().contains(x) && final(self).delivered@ == old(self).delivered@.insert(x) && final(self).output.content()
                    == old(self).output.content().remove(x) && SelectAll::polled(
                    old(self).output,
                    final(self).output,
                    x,
                ) && old(self).start_error is None,
                CrawlPoll::Failed(e) => old(self).start_error == Some(e) && final(self).start_error is None && final(self).delivered == old(self).delivered && final(self).output == old(self).output,
                CrawlPoll::End => old(self).start_error is None && old(self).output.content()
                    == Multiset::<S::Item>::empty() && old(self).sheduler.pending().len() == 0
                    && old(self).sheduler.in_flight() == 0 && old(self).parsing@.len() == 0
                    && final(self).delivered == old(self).delivered && final(self).output == old(self).output,
                CrawlPoll::Pending => old(self).start_error is None && !(old(self).output.content() == Multiset::<S::Item>::empty() && old(self).sheduler.pending().len() == 0 && old(self).sheduler.in_flight() == 0 && old(self).parsing@.len() == 0) && final(self).delivered == old(self).delivered && final(self).output == old(self).output,
            },
    {
        let failed = self.start_error.is_some();
        if failed {
            let mut taken: Option<SpiderError> = None;
            core::mem::swap(&mut taken, &mut self.start_error);
            match taken {
                Some(e) => {
                    return CrawlPoll::Failed(e);
                },
                None => {
                    proof {
                        assert(false);
                    }
                },
            }
        }
        match self.output.poll() {
            Some(x) => {
                proof {
                    self.delivered@ = self.delivered@.insert(x);
                    assert(self.emitted@.to_multiset() =~= self.delivered@.add(
                        self.output.content(),
                    ));
                }
                CrawlPoll::Item(x)
            },
            None => {
                if self.sheduler.is_done() && self.parsing.len() == 0 {
                    CrawlPoll::End
                } else {
                    CrawlPoll::Pending
                }
            },
        }
    }
}

/// A configured crawler, ready to drive a spider.
pub struct Crawler<SH> {
    pub sheduler: SH,
    pub parse_settings: ParseSettings,
}

/// The crawl `c` was seeded from the start result `started` on a fresh
/// scheduler and filter: a start failure is recorded for `poll_output` to
/// surface; otherwise the start requests, error elements dropped, are
/// deduplicated by fingerprint, those with a host are queued, and every
/// admitted fingerprint is in the seen set.
pub open spec fn seeded_from<S: Spider, SH: Sheduler>(
    c: Crawl<S, SH>,
    started: Result<Vec<Result<Request, SpiderError>>, SpiderError>,
) -> bool {
    match started {
        Ok(entries) => c.start_error is None && c.sheduler.pending() == with_host(
            admitted(Seq::empty(), digest_pairs(start_reqs(entries@))),
        ) && c.rfp_filter.digests() == seen_after(
            Seq::empty(),
            digest_pairs(start_reqs(entries@)),
        ),
        Err(e) => c.start_error == Some(e) && c.sheduler.pending() == Seq::<ReqView>::empty()
            && c.rfp_filter.digests() == Seq::<Seq<u8>>::empty(),
    }
}

impl<SH: Sheduler> Crawler<SH> {
    /// Start a crawl: run the spider's start through `process_start`, so
    /// its requests are fingerprinted, deduplicated and scheduled (or its
    /// failure recorded), and return the crawl.
    pub fn crawl<S: Spider>(self, spider: S) -> (c: Crawl<S, SH>)
        requires
            self.sheduler.wf(),
            self.sheduler.pending().len() == 0,
            self.sheduler.launched().len() == 0,
            self.sheduler.in_flight() == 0,
        ensures
            c.wf(),
            c.parsing@ == Seq::<Response>::empty(),
            c.emitted@ == Seq::<S::Item>::empty(),
            c.delivered@ == Multiset::<S::Item>::empty(),
            c.sheduler.launched() == Seq::<ReqView>::empty(),
            c.sheduler.in_flight() == 0,
            c.sheduler.limit() == self.sheduler.limit(),
            c.output.content() == Multiset::<S::Item>::empty(),
            exists|started: Result<Vec<Result<Request, SpiderError>>, SpiderError>|
                #[trigger] seeded_from(c, started),
    {
        let output: SelectAll<S::Item> = SelectAll::new();
        let mut c = Crawl {
            spider,
            sheduler: self.sheduler,
            parsing: Vec::new(),
            output,
            rfp_filter: RFPFilter::new(),
            parse_settings: self.parse_settings,
            start_error: None,
            emitted: Ghost(Seq::empty()),
            delivered: Ghost(Multiset::empty()),
        };
        proof {
            assert(c.parsing@ =~= Seq::<Response>::empty());
            assert(c.sheduler.launched() + c.sheduler.pending() =~= Seq::<ReqView>::empty());
            assert(c.inflight_digests() =~= Seq::<Seq<u8>>::empty());
            assert(c.emitted@.to_multiset() =~= c.delivered@.add(c.output.content())) by {
                broadcast use vstd::seq_lib::group_to_multiset_ensures;

            }
            assert(c.wf());
        }
        let started = c.spider.start();
        let ghost st = started;
        c.process_start(started);
        proof {
            if st is Ok {
                let entries = st.unwrap();
                assert(Seq::<ReqView>::empty() + with_host(
                    admitted(Seq::empty(), digest_pairs(start_reqs(entries@))),
                ) =~= with_host(admitted(Seq::empty(), digest_pairs(start_reqs(entries@)))));
            }
            assert(seeded_from(c, st));
        }
        c
    }
}

/// Builds a crawler around a scheduler; parse placement defaults to the
/// worker pool.
pub struct CrawlerBuilder<SH> {
    pub sheduler: SH,
    pub parse_settings: Option<ParseSettings>,
}

impl<SH: Sheduler> CrawlerBuilder<SH> {
    /// Begin building a crawler around the given scheduler.
    pub fn new(sheduler: SH) -> (r: CrawlerBuilder<SH>)
        ensures
            r.sheduler == sheduler,
            r.parse_settings is None,
    {
        CrawlerBuilder { sheduler, parse_settings: None }
    }

    /// Choose where parses run.
    pub fn with_parse_settings(self, parse_settings: ParseSettings) -> (r: CrawlerBuilder<SH>)
        ensures
            r.sheduler == self.sheduler,
            r.parse_settings == Some(parse_settings),
    {
        CrawlerBuilder { parse_settings: Some(parse_settings), ..self }
    }

    /// Finish the builder. Construction itself cannot fail; the `Result`
    /// surfaces configuration errors to the caller.
    pub fn build(self) -> (r: Result<Crawler<SH>, SpiderError>)
        ensures
            r is Ok,
            r.unwrap().sheduler == self.sheduler,
            r.unwrap().parse_settings == if self.parse_settings is Some {
                self.parse_settings.unwrap()
            } else {
                ParseSettings::OnPool
            },
    {
        let parse_settings = match self.parse_settings {
            Some(s) => s,
            None => ParseSettings::OnPool,
        };
        Ok(Crawler { sheduler: self.sheduler, parse_settings })
    }
}

/// Each fingerprint is handed to HTTP at most once over the whole crawl:
/// the launched requests have pairwise distinct digests.
pub proof fn lemma_each_digest_launched_once<S: Spider, SH: Sheduler>(c: &Crawl<S, SH>)
    requires
        c.wf(),
    ensures
        digests_of(c.sheduler.launched()).no_duplicates(),
{
    let l = c.sheduler.launched();
    let all = c.sheduler.launched() + c.sheduler.pending();
    assert forall|i: int, j: int|
        0 <= i < digests_of(l).len() && 0 <= j < digests_of(l).len() && i != j implies
    digests_of(l)[i] != digests_of(l)[j] by {
        assert(digests_of(all)[i] == digest_of(all[i]));
        assert(digests_of(all)[j] == digest_of(all[j]));
        assert(digests_of(l)[i] == digest_of(l[i]));
        assert(digests_of(l)[j] == digest_of(l[j]));
        assert(digests_of(all)[i] != digests_of(all)[j]);
    }
}

/// When the output is drained, the delivered items are exactly the items
/// the parses emitted, as a multiset.
pub proof fn lemma_items_complete<S: Spider, SH: Sheduler>(c: &Crawl<S, SH>)
    requires
        c.wf(),
        c.output.content() == Multiset::<S::Item>::empty(),
    ensures
        c.delivered@ == c.emitted@.to_multiset(),
{
    assert(c.delivered@.add(Multiset::<S::Item>::empty()) =~= c.delivered@);
}

/// The crawl's total work is bounded: the requests launched or queued
/// never outnumber the distinct fingerprints seen, so a finite request
/// graph gives a finite crawl.
pub proof fn lemma_work_bounded<S: Spider, SH: Sheduler>(c: &Crawl<S, SH>)
    requires
        c.wf(),
    ensures
        c.sheduler.launched().len() + c.sheduler.pending().len()
            <= c.rfp_filter.digests().len(),
{
    let all = c.sheduler.launched() + c.sheduler.pending();
    assert(digests_of(all).len() == all.len());
    lemma_distinct_in(digests_of(all), c.rfp_filter.digests());
}

/// A finite request graph gives a finite crawl: when every fingerprint the
/// filter has recorded lies in a finite set — as it must when the requests
/// reachable from the spider are finitely many — the requests launched or
/// still queued never outnumber that set. Together with each fingerprint
/// being launched at most once, the crawl's total work is bounded.
pub proof fn lemma_finite_graph_bounds_work<S: Spider, SH: Sheduler>(
    c: &Crawl<S, SH>,
    d: Set<Seq<u8>>,
)
    requires
        c.wf(),
        d.finite(),
        forall|i: int|
            0 <= i < c.rfp_filter.digests().len() ==> d.contains(
                #[trigger] c.rfp_filter.digests()[i],
            ),
    ensures
        c.sheduler.launched().len() + c.sheduler.pending().len() <= d.len(),
{
    lemma_work_bounded(c);
    crate::sheduler::lemma_distinct_in_set(c.rfp_filter.digests(), d);
}

/// The concurrency cap: a well-formed crawl never has more requests in
/// flight than the scheduler's limit.
pub proof fn lemma_concurrency_cap<S: Spider, SH: Sheduler>(c: &Crawl<S, SH>)
    requires
        c.wf(),
    ensures
        c.sheduler.in_flight() <= c.sheduler.limit(),
{
    c.sheduler.lemma_cap();
}

} // verus!
