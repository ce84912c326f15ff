//! The request fingerprint filter: admits each digest at most once.
//!
//! The filter owns the monotone-growing set of digests seen so far. For
//! each arriving `(digest, request)` pair the membership check and the
//! insertion happen in one step, so a digest can never be admitted twice.

use crate::digest::{digest_of, digests_of, RequestDigest};
use crate::request::{ReqView, Request};
use vstd::prelude::*;

verus! {

/// The requests admitted when `pairs` arrive while `seen` digests are
/// already known: a pair is kept exactly when its digest is fresh, and a
/// kept digest blocks every later equal one.
pub open spec fn admitted(seen: Seq<Seq<u8>>, pairs: Seq<(Seq<u8>, ReqView)>) -> Seq<ReqView>
    decreases pairs.len(),
{
    if pairs.len() == 0 {
        Seq::empty()
    } else {
        let p = pairs[0];
        if seen.contains(p.0) {
            admitted(seen, pairs.skip(1))
        } else {
            seq![p.1] + admitted(seen.push(p.0), pairs.skip(1))
        }
    }
}

/// The seen digests after `pairs` have been filtered against `seen`.
pub open spec fn seen_after(seen: Seq<Seq<u8>>, pairs: Seq<(Seq<u8>, ReqView)>) -> Seq<Seq<u8>>
    decreases pairs.len(),
{
    if pairs.len() == 0 {
        seen
    } else {
        let p = pairs[0];
        if seen.contains(p.0) {
            seen_after(seen, pairs.skip(1))
        } else {
            seen_after(seen.push(p.0), pairs.skip(1))
        }
    }
}

/// The views of a vector of `(digest, request)` pairs.
pub open spec fn pairs_view(s: Seq<(RequestDigest, Request)>) -> Seq<(Seq<u8>, ReqView)> {
    s.map_values(|p: (RequestDigest, Request)| (p.0@, p.1@))
}

/// The request fingerprint filter: the set of digests seen so far.
pub struct RFPFilter {
    pub seen: Vec<RequestDigest>,
}

impl RFPFilter {
    /// The digests seen so far, in insertion order.
    pub open spec fn digests(&self) -> Seq<Seq<u8>> {
        self.seen@.map_values(|d: RequestDigest| d@)
    }

    /// The seen set never holds a digest twice.
    pub open spec fn wf(&self) -> bool {
        self.digests().no_duplicates()
    }

    /// An empty filter: nothing seen yet.
    pub fn new() -> (r: RFPFilter)
        ensures
            r.digests() == Seq::<Seq<u8>>::empty(),
            r.wf(),
    {
        let r = RFPFilter { seen: Vec::new() };
        proof {
            assert(r.digests() =~= Seq::<Seq<u8>>::empty());
        }
        r
    }

    /// Whether a digest is already in the seen set.
    pub fn contains_digest(&self, d: &RequestDigest) -> (r: bool)
        ensures
            r == self.digests().contains(d@),
    {
        let ghost ds = self.digests();
        let mut i: usize = 0;
        while i < self.seen.len()
            invariant
                ds == self.digests(),
                i <= self.seen.len(),
                forall|j: int| 0 <= j < i ==> #[trigger] ds[j] != d@,
            decreases self.seen.len() - i,
        {
            if self.seen[i].same(d) {
                proof {
                    assert(ds[i as int] == d@);
                }
                return true;
            }
            i = i + 1;
        }
        proof {
            if ds.contains(d@) {
                let j = choose|j: int| 0 <= j < ds.len() && ds[j] == d@;
                assert(ds[j] != d@);
            }
        }
        false
    }

    /// Atomically test membership of a digest and record it. Returns whether
    /// the digest was fresh.
    pub fn check_and_insert(&mut self, d: RequestDigest) -> (fresh: bool)
        requires
            old(self).wf(),
        ensures
            final(self).wf(),
            fresh == !old(self).digests().contains(d@),
            final(self).digests() == if fresh {
                old(self).digests().push(d@)
            } else {
                old(self).digests()
            },
    {
        let ghost ds = self.digests();
        if self.contains_digest(&d) {
            false
        } else {
            self.seen.push(d);
            proof {
                assert(self.digests() =~= ds.push(d@));
                crate::rfp::lemma_push_no_duplicates(ds, d@);
            }
            true
        }
    }

    /// Filter a batch of digest/request pairs, keeping each request whose
    /// digest has not been seen before and recording every kept digest.
    pub fn unique(&mut self, batch: Vec<(RequestDigest, Request)>) -> (out: Vec<Request>)
        requires
            old(self).wf(),
        ensures
            final(self).wf(),
            out@.map_values(|r: Request| r@) == admitted(old(self).digests(), pairs_view(batch@)),
            final(self).digests() == seen_after(old(self).digests(), pairs_view(batch@)),
    {
        let ghost seen0 = self.digests();
        let ghost full = pairs_view(batch@);
        let mut batch = batch;
        let mut out: Vec<Request> = Vec::new();
        proof {
            assert(out@.map_values(|r: Request| r@) =~= Seq::<ReqView>::empty());
        }
        while batch.len() > 0
            invariant
                self.wf(),
                admitted(seen0, full) == out@.map_values(|r: Request| r@) + admitted(
                    self.digests(),
                    pairs_view(batch@),
                ),
                seen_after(seen0, full) == seen_after(self.digests(), pairs_view(batch@)),
            decreases batch.len(),
        {
            let ghost pre_batch = batch@;
            let ghost pre_seen = self.digests();
            let ghost pre_out = out@;
            let (d, req) = batch.remove(0);
            proof {
                assert(pairs_view(pre_batch)[0] == (d@, req@));
                assert forall|j: int| 0 <= j < batch@.len() implies #[trigger] pairs_view(
                    batch@,
                )[j] == pairs_view(pre_batch).skip(1)[j] by {
                    assert(batch@[j] == pre_batch[j + 1]);
                    assert(pairs_view(pre_batch)[j + 1] == (pre_batch[j + 1].0@, pre_batch[j
                        + 1].1@));
                }
                assert(pairs_view(batch@) =~= pairs_view(pre_batch).skip(1));
            }
            let fresh = self.check_and_insert(d);
            if fresh {
                out.push(req);
                proof {
                    assert(out@.map_values(|r: Request| r@) =~= pre_out.map_values(
                        |r: Request| r@,
                    ).push(req@));
                    assert(admitted(pre_seen, pairs_view(pre_batch)) == seq![req@] + admitted(
                        pre_seen.push(d@),
                        pairs_view(pre_batch).skip(1),
                    ));
                    assert(pre_out.map_values(|r: Request| r@).push(req@) + admitted(
                        self.digests(),
                        pairs_view(batch@),
                    ) =~= pre_out.map_values(|r: Request| r@) + (seq![req@] + admitted(
                        self.digests(),
                        pairs_view(batch@),
                    )));
                }
            }
        }
        proof {
            assert(pairs_view(batch@) =~= Seq::<(Seq<u8>, ReqView)>::empty());
            assert(admitted(seen0, full) =~= out@.map_values(|r: Request| r@));
        }
        out
    }
}

/// Admission keeps only fresh digests: when every pair carries its
/// request's own fingerprint, the admitted requests have pairwise distinct
/// digests, none seen before, and all recorded afterwards; the seen set
/// only grows.
pub proof fn lemma_admitted_digests(seen: Seq<Seq<u8>>, pairs: Seq<(Seq<u8>, ReqView)>)
    requires
        forall|i: int| 0 <= i < pairs.len() ==> #[trigger] pairs[i].0 == digest_of(pairs[i].1),
    ensures
        digests_of(admitted(seen, pairs)).no_duplicates(),
        forall|j: int|
            0 <= j < admitted(seen, pairs).len() ==> !seen.contains(
                #[trigger] digests_of(admitted(seen, pairs))[j],
            ) && seen_after(seen, pairs).contains(digests_of(admitted(seen, pairs))[j]),
        forall|x: Seq<u8>|
            seen.contains(x) ==> #[trigger] seen_after(seen, pairs).contains(x),
    decreases pairs.len(),
{
    if pairs.len() == 0 {
        assert(digests_of(admitted(seen, pairs)) =~= Seq::<Seq<u8>>::empty());
    } else {
        let p = pairs[0];
        let rest = pairs.skip(1);
        assert forall|i: int| 0 <= i < rest.len() implies #[trigger] rest[i].0 == digest_of(
            rest[i].1,
        ) by {
            assert(rest[i] == pairs[i + 1]);
        }
        if seen.contains(p.0) {
            lemma_admitted_digests(seen, rest);
            assert(seen_after(seen, pairs) == seen_after(seen, rest));
            assert(admitted(seen, pairs) == admitted(seen, rest));
        } else {
            let seen2 = seen.push(p.0);
            lemma_admitted_digests(seen2, rest);
            assert(seen_after(seen, pairs) == seen_after(seen2, rest));
            assert(admitted(seen, pairs) == seq![p.1] + admitted(seen2, rest));
            assert forall|x: Seq<u8>| seen.contains(x) implies #[trigger] seen_after(
                seen,
                pairs,
            ).contains(x) by {
                let i = choose|i: int| 0 <= i < seen.len() && seen[i] == x;
                assert(seen2[i] == x);
                assert(seen2.contains(x));
            }
            let adm = admitted(seen, pairs);
            let tail = admitted(seen2, rest);
            assert(adm == seq![p.1] + tail);
            assert(digests_of(adm) =~= seq![p.0] + digests_of(tail)) by {
                assert(p.0 == digest_of(p.1));
                assert forall|j: int| 0 <= j < adm.len() implies #[trigger] digests_of(adm)[j]
                    == (seq![p.0] + digests_of(tail))[j] by {
                    if j > 0 {
                        assert(adm[j] == tail[j - 1]);
                        assert(digests_of(tail)[j - 1] == digest_of(tail[j - 1]));
                    }
                }
            }
            assert(seen2.contains(p.0)) by {
                assert(seen2.last() == p.0);
            }
            assert forall|j: int| 0 <= j < adm.len() implies !seen.contains(
                #[trigger] digests_of(adm)[j],
            ) && seen_after(seen, pairs).contains(digests_of(adm)[j]) by {
                if j == 0 {
                    assert(digests_of(adm)[0] == p.0);
                    assert(seen_after(seen, pairs).contains(p.0));
                } else {
                    let d = digests_of(tail)[j - 1];
                    assert(!seen2.contains(d));
                    if seen.contains(d) {
                        let i = choose|i: int| 0 <= i < seen.len() && seen[i] == d;
                        assert(seen2[i] == d);
                    }
                }
            }
            assert forall|i: int, j: int|
                0 <= i < digests_of(adm).len() && 0 <= j < digests_of(adm).len() && i
                    != j implies digests_of(adm)[i] != digests_of(adm)[j] by {
                if i == 0 || j == 0 {
                    let k = if i == 0 {
                        j
                    } else {
                        i
                    };
                    assert(!seen2.contains(digests_of(tail)[k - 1]));
                } else {
                    assert(digests_of(tail)[i - 1] != digests_of(tail)[j - 1]);
                }
            }
        }
    }
}

/// Over the filter's whole lifetime, a digest is admitted at most once:
/// across two successive batches against the same seen set, the admitted
/// requests' fingerprints are pairwise distinct.
pub proof fn lemma_unique_across_batches(
    seen0: Seq<Seq<u8>>,
    pairs1: Seq<(Seq<u8>, ReqView)>,
    pairs2: Seq<(Seq<u8>, ReqView)>,
)
    requires
        forall|i: int| 0 <= i < pairs1.len() ==> #[trigger] pairs1[i].0 == digest_of(pairs1[i].1),
        forall|i: int| 0 <= i < pairs2.len() ==> #[trigger] pairs2[i].0 == digest_of(pairs2[i].1),
    ensures
        digests_of(
            admitted(seen0, pairs1) + admitted(seen_after(seen0, pairs1), pairs2),
        ).no_duplicates(),
{
    let adm1 = admitted(seen0, pairs1);
    let seen1 = seen_after(seen0, pairs1);
    let adm2 = admitted(seen1, pairs2);
    lemma_admitted_digests(seen0, pairs1);
    lemma_admitted_digests(seen1, pairs2);
    let all = adm1 + adm2;
    assert(digests_of(all) =~= digests_of(adm1) + digests_of(adm2)) by {
        assert forall|i: int| 0 <= i < all.len() implies #[trigger] digests_of(all)[i] == (
        digests_of(adm1) + digests_of(adm2))[i] by {
            assert(digests_of(all)[i] == digest_of(all[i]));
            if i < adm1.len() {
                assert(digests_of(adm1)[i] == digest_of(adm1[i]));
            } else {
                assert(digests_of(adm2)[i - adm1.len()] == digest_of(adm2[i - adm1.len()]));
            }
        }
    }
    assert forall|i: int, j: int|
        0 <= i < digests_of(all).len() && 0 <= j < digests_of(all).len() && i != j implies
    digests_of(all)[i] != digests_of(all)[j] by {
        let n1 = digests_of(adm1).len();
        if i < n1 && j < n1 {
            assert(digests_of(adm1)[i] != digests_of(adm1)[j]);
        } else if i >= n1 && j >= n1 {
            assert(digests_of(adm2)[i - n1] != digests_of(adm2)[j - n1]);
        } else {
            let a = if i < n1 {
                i
            } else {
                j
            };
            let b = if i < n1 {
                j
            } else {
                i
            };
            // the first batch's digests are in the grown seen set, the
            // second batch's are fresh against it
            assert(seen1.contains(digests_of(adm1)[a]));
            assert(!seen1.contains(digests_of(adm2)[b - n1]));
        }
    }
}

/// The seen set grows only by offered digests: everything known after a
/// batch was either known before or arrived in the batch. With each
/// launched request charged to a distinct seen digest, a finite set of
/// reachable requests bounds the whole crawl's work.
pub proof fn lemma_seen_after_bounded(seen: Seq<Seq<u8>>, pairs: Seq<(Seq<u8>, ReqView)>)
    ensures
        forall|x: Seq<u8>|
            #[trigger] seen_after(seen, pairs).contains(x) ==> seen.contains(x) || exists|i: int|
                0 <= i < pairs.len() && pairs[i].0 == x,
    decreases pairs.len(),
{
    if pairs.len() == 0 {
    } else {
        let p = pairs[0];
        let rest = pairs.skip(1);
        if seen.contains(p.0) {
            lemma_seen_after_bounded(seen, rest);
            assert(seen_after(seen, pairs) == seen_after(seen, rest));
            assert forall|x: Seq<u8>| #[trigger] seen_after(seen, pairs).contains(x) implies
            seen.contains(x) || exists|i: int| 0 <= i < pairs.len() && pairs[i].0 == x by {
                if !seen.contains(x) {
                    let i = choose|i: int| 0 <= i < rest.len() && rest[i].0 == x;
                    assert(pairs[i + 1].0 == x);
                }
            }
        } else {
            let seen2 = seen.push(p.0);
            lemma_seen_after_bounded(seen2, rest);
            assert(seen_after(seen, pairs) == seen_after(seen2, rest));
            assert forall|x: Seq<u8>| #[trigger] seen_after(seen, pairs).contains(x) implies
            seen.contains(x) || exists|i: int| 0 <= i < pairs.len() && pairs[i].0 == x by {
                if seen2.contains(x) {
                    let j = choose|j: int| 0 <= j < seen2.len() && seen2[j] == x;
                    if j < seen.len() {
                        assert(seen[j] == x);
                    } else {
                        assert(pairs[0].0 == x);
                    }
                } else {
                    if !seen.contains(x) {
                        let i = choose|i: int| 0 <= i < rest.len() && rest[i].0 == x;
                        assert(pairs[i + 1].0 == x);
                    }
                }
            }
        }
    }
}

/// Admission spends a finite budget: when every offered digest lies in a
/// finite set, the seen set stays inside that set, stays duplicate-free,
/// and grows by exactly one entry per admitted request — so at most the
/// set's cardinality of requests can ever be admitted. With a finite
/// reachable request graph this bounds the whole crawl's work.
pub proof fn lemma_admission_consumes_budget(
    seen: Seq<Seq<u8>>,
    pairs: Seq<(Seq<u8>, ReqView)>,
    d: Set<Seq<u8>>,
)
    requires
        seen.no_duplicates(),
        d.finite(),
        forall|i: int| 0 <= i < seen.len() ==> d.contains(#[trigger] seen[i]),
        forall|i: int| 0 <= i < pairs.len() ==> d.contains(#[trigger] pairs[i].0),
    ensures
        seen_after(seen, pairs).no_duplicates(),
        seen_after(seen, pairs).len() == seen.len() + admitted(seen, pairs).len(),
        forall|i: int|
            0 <= i < seen_after(seen, pairs).len() ==> d.contains(
                #[trigger] seen_after(seen, pairs)[i],
            ),
        seen.len() + admitted(seen, pairs).len() <= d.len(),
    decreases pairs.len(),
{
    if pairs.len() == 0 {
        crate::sheduler::lemma_distinct_in_set(seen, d);
    } else {
        let p = pairs[0];
        let rest = pairs.skip(1);
        assert forall|i: int| 0 <= i < rest.len() implies d.contains(#[trigger] rest[i].0) by {
            assert(rest[i] == pairs[i + 1]);
        }
        if seen.contains(p.0) {
            lemma_admission_consumes_budget(seen, rest, d);
            assert(seen_after(seen, pairs) == seen_after(seen, rest));
            assert(admitted(seen, pairs) == admitted(seen, rest));
        } else {
            let seen2 = seen.push(p.0);
            lemma_push_no_duplicates(seen, p.0);
            assert forall|i: int| 0 <= i < seen2.len() implies d.contains(
                #[trigger] seen2[i],
            ) by {
                if i < seen.len() {
                    assert(seen2[i] == seen[i]);
                } else {
                    assert(seen2[i] == p.0);
                }
            }
            lemma_admission_consumes_budget(seen2, rest, d);
            assert(seen_after(seen, pairs) == seen_after(seen2, rest));
            assert(admitted(seen, pairs) == seq![p.1] + admitted(seen2, rest));
        }
    }
}

/// Appending a fresh element keeps a sequence duplicate-free.
pub proof fn lemma_push_no_duplicates<A>(s: Seq<A>, x: A)
    requires
        s.no_duplicates(),
        !s.contains(x),
    ensures
        s.push(x).no_duplicates(),
{
    let r = s.push(x);
    assert forall|i: int, j: int| 0 <= i < r.len() && 0 <= j < r.len() && i != j implies r[i]
        != r[j] by {
        if i < s.len() && j < s.len() {
        } else if i < s.len() {
            assert(s.contains(s[i]));
        } else if j < s.len() {
            assert(s.contains(s[j]));
        }
    }
}

} // verus!
