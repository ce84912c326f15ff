//! The canonical textual view of a URL.
//!
//! A canonical URL reads `scheme://host{path}[?k1=v1&k2=v2...]` with the
//! query keys in ascending byte order. It is the stable form a request is
//! digested and compared under.

use crate::canonical::{canon_pairs, canon_query, pview, QueryPair};
use crate::request::{UrlParts, UrlView};
use vstd::prelude::*;

verus! {

/// Copy a byte vector.
pub fn copy_bytes(v: &Vec<u8>) -> (r: Vec<u8>)
    ensures
        r@ == v@,
{
    let mut r: Vec<u8> = Vec::new();
    let mut i: usize = 0;
    while i < v.len()
        invariant
            i <= v.len(),
            r@ == v@.take(i as int),
        decreases v.len() - i,
    {
        r.push(v[i]);
        proof {
            assert(v@.take(i + 1) =~= v@.take(i as int).push(v@[i as int]));
        }
        i = i + 1;
    }
    proof {
        assert(v@.take(v@.len() as int) =~= v@);
    }
    r
}

/// Append a byte vector to another.
pub fn append_bytes(dst: &mut Vec<u8>, src: &Vec<u8>)
    ensures
        final(dst)@ == old(dst)@ + src@,
{
    let ghost base = dst@;
    let mut i: usize = 0;
    while i < src.len()
        invariant
            i <= src.len(),
            dst@ == base + src@.take(i as int),
        decreases src.len() - i,
    {
        dst.push(src[i]);
        proof {
            assert(base + src@.take(i + 1) =~= (base + src@.take(i as int)).push(
                src@[i as int],
            ));
        }
        i = i + 1;
    }
    proof {
        assert(base + src@.take(src@.len() as int) =~= base + src@);
    }
}

/// Copy a query pair.
fn copy_pair(p: &QueryPair) -> (r: QueryPair)
    ensures
        r@ == p@,
{
    QueryPair { key: copy_bytes(&p.key), value: copy_bytes(&p.value) }
}

/// Copy a vector of query pairs.
pub fn copy_query(q: &Vec<QueryPair>) -> (r: Vec<QueryPair>)
    ensures
        pview(r@) == pview(q@),
{
    let mut r: Vec<QueryPair> = Vec::new();
    let mut i: usize = 0;
    while i < q.len()
        invariant
            i <= q.len(),
            pview(r@) =~= pview(q@).take(i as int),
        decreases q.len() - i,
    {
        let ghost before = r@;
        r.push(copy_pair(&q[i]));
        proof {
            assert(pview(r@) =~= pview(before).push(r@.last()@));
            assert(pview(q@).take(i + 1) =~= pview(q@).take(i as int).push(pview(q@)[i as int]));
        }
        i = i + 1;
    }
    proof {
        assert(pview(q@).take(q@.len() as int) =~= pview(q@));
    }
    r
}

/// A URL reduced to its canonical parts: scheme, host, path, and the query
/// in ascending key order.
pub struct CanonicalUrlView {
    pub scheme: Vec<u8>,
    pub host: Option<Vec<u8>>,
    pub path: Vec<u8>,
    pub query: Vec<QueryPair>,
}

impl View for CanonicalUrlView {
    type V = UrlView;

    open spec fn view(&self) -> UrlView {
        UrlView {
            scheme: self.scheme@,
            host: match self.host {
                Some(h) => Some(h@),
                None => None,
            },
            path: self.path@,
            query: pview(self.query@),
        }
    }
}

/// The canonical form of a URL value: the same parts with the query pairs
/// sorted by key, the last value winning among equal keys.
pub open spec fn canon_url(u: UrlView) -> UrlView {
    UrlView { query: canon_pairs(u.query), ..u }
}

/// Canonicalizing a URL twice gives the same value as canonicalizing it
/// once.
pub proof fn lemma_canon_url_idempotent(u: UrlView)
    ensures
        canon_url(canon_url(u)) == canon_url(u),
{
    crate::canonical::lemma_canon_idempotent(u.query);
}

/// Reduce a URL to its canonical view.
pub fn canonicalize_url(url: &UrlParts) -> (r: CanonicalUrlView)
    ensures
        r@ == canon_url(url@),
{
    let scheme = copy_bytes(&url.scheme);
    let host = match &url.host {
        Some(h) => Some(copy_bytes(h)),
        None => None,
    };
    let path = copy_bytes(&url.path);
    let query = canon_query(copy_query(&url.query));
    CanonicalUrlView { scheme, host, path, query }
}

/// The query pairs as text: `k1=v1&k2=v2...`.
pub open spec fn query_text(q: Seq<(Seq<u8>, Seq<u8>)>) -> Seq<u8>
    decreases q.len(),
{
    if q.len() == 0 {
        Seq::empty()
    } else if q.len() == 1 {
        q[0].0 + seq![61u8] + q[0].1
    } else {
        query_text(q.drop_last()) + seq![38u8] + q.last().0 + seq![61u8] + q.last().1
    }
}

/// The canonical text of a URL: `scheme://host{path}[?query]`.
pub open spec fn url_text(u: UrlView) -> Seq<u8>
    recommends
        u.host is Some,
{
    let base = u.scheme + seq![58u8, 47u8, 47u8] + u.host.unwrap() + u.path;
    if u.query.len() == 0 {
        base
    } else {
        base + seq![63u8] + query_text(u.query)
    }
}

impl CanonicalUrlView {
    /// Render the canonical URL as text. The URL must name a host.
    pub fn to_bytes(&self) -> (r: Vec<u8>)
        requires
            self@.host is Some,
        ensures
            r@ == url_text(self@),
    {
        let mut r = copy_bytes(&self.scheme);
        r.push(58);
        r.push(47);
        r.push(47);
        match &self.host {
            Some(h) => append_bytes(&mut r, h),
            None => {
                proof {
                    assert(false);
                }
            },
        }
        append_bytes(&mut r, &self.path);
        proof {
            assert(r@ =~= self@.scheme + seq![58u8, 47u8, 47u8] + self@.host.unwrap()
                + self@.path);
        }
        if self.query.len() > 0 {
            r.push(63);
            let ghost base = r@;
            let mut i: usize = 0;
            while i < self.query.len()
                invariant
                    1 <= self.query.len(),
                    i <= self.query.len(),
                    base == self@.scheme + seq![58u8, 47u8, 47u8] + self@.host.unwrap()
                        + self@.path + seq![63u8],
                    r@ == base + query_text(pview(self.query@).take(i as int)),
                decreases self.query.len() - i,
            {
                if i > 0 {
                    r.push(38);
                }
                append_bytes(&mut r, &self.query[i].key);
                r.push(61);
                append_bytes(&mut r, &self.query[i].value);
                proof {
                    let q = pview(self.query@);
                    let prev = q.take(i as int);
                    assert(q.take(i + 1).drop_last() =~= prev);
                    assert(q.take(i + 1).last() == q[i as int]);
                    assert(q[i as int].0 == self.query@[i as int].key@);
                    assert(q[i as int].1 == self.query@[i as int].value@);
                    if i == 0 {
                        assert(query_text(q.take(1)) == q[0].0 + seq![61u8] + q[0].1);
                        assert(r@ =~= base + query_text(q.take(1)));
                    } else {
                        assert(query_text(q.take(i + 1)) == query_text(prev) + seq![38u8] + q[
                            i as int
                        ].0 + seq![61u8] + q[i as int].1);
                        assert(r@ =~= base + query_text(q.take(i + 1)));
                    }
                }
                i = i + 1;
            }
            proof {
                let q = pview(self.query@);
                assert(q.take(q.len() as int) =~= q);
                assert(r@ =~= url_text(self@));
            }
        }
        r
    }
}

} // verus!
