//! The scheduler: a chained request queue and a bounded executor front.
//!
//! Requests are appended by `shedule`; requests without a host are dropped
//! at the door. The scheduler hands out requests to execute only while
//! fewer than `limit` are in flight, counts completions and failures back
//! down, and reports done exactly when its queue is drained and nothing is
//! in flight. A transport error only frees its slot: the queue and the
//! launch record are untouched, so one failed request cannot end the crawl.

use crate::digest::{digest_of, digests_of};
use crate::request::{ReqView, Request};
use vstd::prelude::*;

verus! {

/// The views of a sequence of requests.
pub open spec fn req_views(s: Seq<Request>) -> Seq<ReqView> {
    s.map_values(|r: Request| r@)
}

/// The requests of `s` whose URL names a host.
pub open spec fn with_host(s: Seq<ReqView>) -> Seq<ReqView> {
    s.filter(|r: ReqView| r.url.host is Some)
}

/// Whether the scheduler accepts a request: its URL must name a host.
fn filter_request(req: &Request) -> (r: bool)
    ensures
        r == (req@.url.host is Some),
{
    req.url().has_host()
}

/// The scheduler's input: appended request sequences chained in order.
pub struct ShedulerRequestStream {
    pub requests: Vec<Request>,
}

impl ShedulerRequestStream {
    /// The queued requests, in order.
    pub open spec fn pending(&self) -> Seq<ReqView> {
        req_views(self.requests@)
    }

    /// An empty input chain.
    pub fn new() -> (r: ShedulerRequestStream)
        ensures
            r.pending() == Seq::<ReqView>::empty(),
    {
        let r = ShedulerRequestStream { requests: Vec::new() };
        proof {
            assert(r.pending() =~= Seq::<ReqView>::empty());
        }
        r
    }

    /// Chain another request sequence onto the queue's tail, dropping
    /// requests without a host.
    pub fn chain(&mut self, requests: Vec<Request>)
        ensures
            final(self).pending() == old(self).pending() + with_host(req_views(requests@)),
    {
        proof {
            broadcast use vstd::prelude::Seq::lemma_filter_push;
        }
        let ghost incoming = req_views(requests@);
        let mut requests = requests;
        let mut i: usize = 0;
        let n = requests.len();
        proof {
            assert(incoming.len() == n as int);
        }
        while requests.len() > 0
            invariant
                incoming.len() <= usize::MAX,
                i + requests.len() == incoming.len(),
                req_views(requests@) =~= incoming.skip(i as int),
                self.pending() == old(self).pending() + with_host(incoming.take(i as int)),
            decreases requests.len(),
        {
            let ghost pre = requests@;
            let req = requests.remove(0);
            proof {
                assert(req_views(pre)[0] == req@);
                assert(incoming[i as int] == req@);
                assert forall|j: int| 0 <= j < requests@.len() implies #[trigger] req_views(
                    requests@,
                )[j] == incoming.skip(i as int + 1)[j] by {
                    assert(requests@[j] == pre[j + 1]);
                    assert(req_views(pre)[j + 1] == pre[j + 1]@);
                }
                assert(incoming.take(i as int + 1).drop_last() =~= incoming.take(i as int));
                assert(incoming.take(i as int + 1).last() == incoming[i as int]);
                assert(incoming.take(i as int + 1) == incoming.take(i as int).push(
                    incoming[i as int],
                ));
            }
            if filter_request(&req) {
                let ghost mine = self.requests@;
                self.requests.push(req);
                proof {
                    broadcast use vstd::prelude::Seq::lemma_filter_push;

                    assert(self.pending() =~= req_views(mine).push(req@));
                    assert(with_host(incoming.take(i as int + 1)) == with_host(
                        incoming.take(i as int),
                    ).push(req@));
                    assert(self.pending() =~= old(self).pending() + with_host(
                        incoming.take(i as int + 1),
                    ));
                }
            } else {
                proof {
                    broadcast use vstd::prelude::Seq::lemma_filter_push;

                    assert(with_host(incoming.take(i as int + 1)) == with_host(
                        incoming.take(i as int),
                    ));
                }
            }
            i = i + 1;
            proof {
                assert(req_views(requests@) =~= incoming.skip(i as int));
            }
        }
        proof {
            assert(incoming.take(incoming.len() as int) =~= incoming);
        }
    }

    /// Whether the chain is drained.
    pub fn is_done(&self) -> (r: bool)
        ensures
            r == (self.pending().len() == 0),
    {
        self.requests.len() == 0
    }

    /// The next queued request, if any.
    pub fn poll_next(&mut self) -> (r: Option<Request>)
        ensures
            match r {
                Some(req) => old(self).pending().len() > 0 && req@ == old(self).pending()[0]
                    && final(self).pending() == old(self).pending().skip(1),
                None => old(self).pending().len() == 0 && final(self).pending() == old(self).pending(),
            },
    {
        if self.requests.len() == 0 {
            return None;
        }
        let ghost pre = self.requests@;
        let req = self.requests.remove(0);
        proof {
            assert(req_views(pre)[0] == req@);
            assert forall|j: int| 0 <= j < self.requests@.len() implies #[trigger] req_views(
                self.requests@,
            )[j] == req_views(pre).skip(1)[j] by {
                assert(self.requests@[j] == pre[j + 1]);
                assert(req_views(pre)[j + 1] == pre[j + 1]@);
            }
            assert(req_views(self.requests@) =~= req_views(pre).skip(1));
        }
        Some(req)
    }
}

/// The scheduler interface the crawl driver works against.
pub trait Sheduler: Sized {
    /// The requests queued and not yet handed out, in order.
    spec fn pending(&self) -> Seq<ReqView>;

    /// How many handed-out requests have not completed or failed yet.
    spec fn in_flight(&self) -> nat;

    /// The concurrency cap.
    spec fn limit(&self) -> nat;

    /// Every request handed out for execution, in order.
    spec fn launched(&self) -> Seq<ReqView>;

    spec fn wf(&self) -> bool;

    /// The concurrency cap always holds of a well-formed scheduler.
    proof fn lemma_cap(&self)
        requires
            self.wf(),
        ensures
            self.in_flight() <= self.limit(),
    ;

    /// Append an infallible request sequence to the scheduler's input.
    fn shedule(&mut self, requests: Vec<Request>)
        requires
            old(self).wf(),
        ensures
            final(self).wf(),
            final(self).pending() == old(self).pending() + with_host(req_views(requests@)),
            final(self).in_flight() == old(self).in_flight(),
            final(self).launched() == old(self).launched(),
            final(self).limit() == old(self).limit(),
    ;

    /// True exactly when the input is drained and nothing is in flight.
    fn is_done(&self) -> (r: bool)
        ensures
            r == (self.pending().len() == 0 && self.in_flight() == 0),
    ;

    /// The next request to execute, if the queue is nonempty and the cap
    /// leaves room; the caller owns its execution and must report back.
    fn next_to_launch(&mut self) -> (r: Option<Request>)
        requires
            old(self).wf(),
        ensures
            final(self).wf(),
            final(self).limit() == old(self).limit(),
            match r {
                Some(req) => old(self).pending().len() > 0 && old(self).in_flight() < old(self).limit() && req@ == old(self).pending()[0] && final(self).pending() == old(self).pending().skip(1) && final(self).in_flight() == old(self).in_flight() + 1
                    && final(self).launched() == old(self).launched().push(req@),
                None => (old(self).pending().len() == 0 || old(self).in_flight() >= old(self).limit()) && final(self).pending() == old(self).pending() && final(self).in_flight() == old(self).in_flight() && final(self).launched() == old(self).launched(),
            },
    ;

    /// A handed-out request completed with a response.
    fn on_response(&mut self)
        requires
            old(self).wf(),
            old(self).in_flight() > 0,
        ensures
            final(self).wf(),
            final(self).in_flight() == old(self).in_flight() - 1,
            final(self).pending() == old(self).pending(),
            final(self).launched() == old(self).launched(),
            final(self).limit() == old(self).limit(),
    ;

    /// A handed-out request failed in transport: its slot is freed and
    /// nothing else changes, so the crawl goes on.
    fn on_transport_error(&mut self)
        requires
            old(self).wf(),
            old(self).in_flight() > 0,
        ensures
            final(self).wf(),
            final(self).in_flight() == old(self).in_flight() - 1,
            final(self).pending() == old(self).pending(),
            final(self).launched() == old(self).launched(),
            final(self).limit() == old(self).limit(),
    ;
}

/// A scheduler with one global concurrency cap, first come first served.
pub struct GlobalLimitedSheduler {
    pub stream: ShedulerRequestStream,
    pub limit: u64,
    pub executing: u64,
    pub launched_log: Ghost<Seq<ReqView>>,
}

impl GlobalLimitedSheduler {
    /// A fresh scheduler with the given concurrency cap.
    pub fn new(limit: u64) -> (r: GlobalLimitedSheduler)
        ensures
            r.wf(),
            r.pending() == Seq::<ReqView>::empty(),
            r.in_flight() == 0,
            r.launched() == Seq::<ReqView>::empty(),
            r.limit() == limit as nat,
    {
        GlobalLimitedSheduler {
            stream: ShedulerRequestStream::new(),
            limit,
            executing: 0,
            launched_log: Ghost(Seq::empty()),
        }
    }
}

impl Sheduler for GlobalLimitedSheduler {
    open spec fn pending(&self) -> Seq<ReqView> {
        self.stream.pending()
    }

    open spec fn in_flight(&self) -> nat {
        self.executing as nat
    }

    open spec fn limit(&self) -> nat {
        self.limit as nat
    }

    open spec fn launched(&self) -> Seq<ReqView> {
        self.launched_log@
    }

    open spec fn wf(&self) -> bool {
        self.executing <= self.limit
    }

    proof fn lemma_cap(&self) {
    }

    fn shedule(&mut self, requests: Vec<Request>) {
        self.stream.chain(requests);
    }

    fn is_done(&self) -> (r: bool) {
        self.stream.is_done() && self.executing == 0
    }

    fn next_to_launch(&mut self) -> (r: Option<Request>) {
        if self.executing >= self.limit {
            return None;
        }
        match self.stream.poll_next() {
            Some(req) => {
                self.executing = self.executing + 1;
                proof {
                    self.launched_log@ = self.launched_log@.push(req@);
                }
                Some(req)
            },
            None => None,
        }
    }

    fn on_response(&mut self) {
        self.executing = self.executing - 1;
    }

    fn on_transport_error(&mut self) {
        self.executing = self.executing - 1;
    }
}

/// Host filtering keeps a subsequence: every kept request and its digest
/// occur in the unfiltered sequence, and distinct digests stay distinct.
pub proof fn lemma_with_host_digests(s: Seq<ReqView>)
    ensures
        forall|i: int| 0 <= i < with_host(s).len() ==> s.contains(#[trigger] with_host(s)[i]),
        forall|i: int|
            0 <= i < with_host(s).len() ==> digests_of(s).contains(
                #[trigger] digests_of(with_host(s))[i],
            ),
        digests_of(s).no_duplicates() ==> digests_of(with_host(s)).no_duplicates(),
    decreases s.len(),
{
    broadcast use vstd::prelude::Seq::lemma_filter_push;

    if s.len() == 0 {
        assert(with_host(s) =~= Seq::<ReqView>::empty());
    } else {
        let d = s.drop_last();
        let last = s.last();
        lemma_with_host_digests(d);
        assert(s =~= d.push(last));
        let pred = |r: ReqView| r.url.host is Some;
        assert(with_host(s) == if pred(last) {
            with_host(d).push(last)
        } else {
            with_host(d)
        });
        assert forall|i: int| 0 <= i < with_host(s).len() implies s.contains(
            #[trigger] with_host(s)[i],
        ) by {
            if i < with_host(d).len() {
                assert(d.contains(with_host(d)[i]));
                let j = choose|j: int| 0 <= j < d.len() && d[j] == with_host(d)[i];
                assert(s[j] == with_host(s)[i]);
            } else {
                assert(with_host(s)[i] == last);
                assert(s[s.len() - 1] == last);
            }
        }
        assert forall|i: int| 0 <= i < with_host(s).len() implies digests_of(s).contains(
            #[trigger] digests_of(with_host(s))[i],
        ) by {
            assert(s.contains(with_host(s)[i]));
            let j = choose|j: int| 0 <= j < s.len() && s[j] == with_host(s)[i];
            assert(digests_of(s)[j] == digest_of(with_host(s)[i]));
            assert(digests_of(with_host(s))[i] == digest_of(with_host(s)[i]));
        }
        if digests_of(s).no_duplicates() {
            assert(digests_of(d).no_duplicates()) by {
                assert forall|i: int, j: int|
                    0 <= i < digests_of(d).len() && 0 <= j < digests_of(d).len() && i
                        != j implies digests_of(d)[i] != digests_of(d)[j] by {
                    assert(digests_of(s)[i] == digest_of(s[i]));
                    assert(digests_of(s)[j] == digest_of(s[j]));
                    assert(digests_of(d)[i] == digest_of(d[i]));
                    assert(digests_of(d)[j] == digest_of(d[j]));
                }
            }
            assert forall|i: int, j: int|
                0 <= i < digests_of(with_host(s)).len() && 0 <= j < digests_of(
                    with_host(s),
                ).len() && i != j implies digests_of(with_host(s))[i] != digests_of(
                with_host(s),
            )[j] by {
                let w = with_host(s);
                let wd = with_host(d);
                if i < wd.len() && j < wd.len() {
                    assert(digests_of(wd)[i] == digest_of(wd[i]));
                    assert(digests_of(wd)[j] == digest_of(wd[j]));
                    assert(digests_of(w)[i] == digest_of(w[i]));
                    assert(digests_of(w)[j] == digest_of(w[j]));
                    assert(digests_of(wd)[i] != digests_of(wd)[j]);
                } else {
                    // one index is the pushed last element
                    let k = if i < wd.len() {
                        i
                    } else {
                        j
                    };
                    assert(w[w.len() - 1] == last);
                    assert(digests_of(w)[w.len() - 1] == digest_of(last));
                    assert(digests_of(w)[k] == digest_of(w[k]));
                    assert(digests_of(wd).contains(digest_of(wd[k]))) by {
                        assert(digests_of(wd)[k] == digest_of(wd[k]));
                    }
                    assert(digests_of(d).contains(digest_of(w[k])));
                    let m = choose|m: int|
                        0 <= m < digests_of(d).len() && digests_of(d)[m] == digest_of(w[k]);
                    assert(digests_of(s)[m] == digest_of(s[m]));
                    assert(digests_of(d)[m] == digest_of(d[m]));
                    assert(digests_of(s)[s.len() - 1] == digest_of(last));
                    assert(digests_of(s)[m] != digests_of(s)[s.len() - 1]);
                }
            }
        }
    }
}

/// A duplicate-free sequence whose elements all lie in a finite set is no
/// longer than the set's cardinality.
pub proof fn lemma_distinct_in_set(a: Seq<Seq<u8>>, d: Set<Seq<u8>>)
    requires
        a.no_duplicates(),
        d.finite(),
        forall|i: int| 0 <= i < a.len() ==> d.contains(#[trigger] a[i]),
    ensures
        a.len() <= d.len(),
{
    broadcast use vstd::seq_lib::group_seq_properties;

    a.unique_seq_to_set();
    assert(a.to_set().subset_of(d)) by {
        assert forall|x: Seq<u8>| a.to_set().contains(x) implies d.contains(x) by {
            assert(a.contains(x));
        }
    }
    vstd::set_lib::lemma_len_subset(a.to_set(), d);
}

/// A duplicate-free sequence whose elements all occur in another sequence
/// is no longer than it.
pub proof fn lemma_distinct_in(a: Seq<Seq<u8>>, b: Seq<Seq<u8>>)
    requires
        a.no_duplicates(),
        forall|i: int| 0 <= i < a.len() ==> b.contains(#[trigger] a[i]),
    ensures
        a.len() <= b.len(),
{
    broadcast use vstd::seq_lib::group_seq_properties;

    a.unique_seq_to_set();
    b.lemma_cardinality_of_set();
    assert(a.to_set().subset_of(b.to_set())) by {
        assert forall|x: Seq<u8>| a.to_set().contains(x) implies b.to_set().contains(x) by {
            assert(a.contains(x));
            assert(b.contains(x));
        }
    }
    vstd::set_lib::lemma_len_subset(a.to_set(), b.to_set());
}

} // verus!
