//! Request fingerprints: a SHA-1 digest over the canonicalized request.
//!
//! The digest input is, in order: the URL scheme bytes, the URL path bytes,
//! each key and value of the canonically sorted query, the method's ASCII
//! text, and the body bytes if present. The host is left out of the input
//! on purpose, matching the fingerprinting rules this crate implements; two
//! URLs that differ only in host therefore share a digest.

use crate::canonical::canon_pairs;
use crate::request::{method_bytes, ReqView, Request};
use crate::urlview::{append_bytes, copy_bytes, copy_query};
use sha1::Digest;
use vstd::prelude::*;

verus! {

/// The SHA-1 digest of a byte sequence. The function itself is left
/// uninterpreted; the `sha1` crate computes it.
pub uninterp spec fn sha1_of(data: Seq<u8>) -> Seq<u8>;

/// Relies on `sha1::Sha1::digest` (through the `digest` crate's `Digest`
/// trait): the SHA-1 of the input, a function of the input bytes alone,
/// always 20 bytes long.
#[verifier::external_body]
fn sha1_bytes(data: &Vec<u8>) -> (r: Vec<u8>)
    ensures
        r@ == sha1_of(data@),
        r@.len() == 20,
{
    sha1::Sha1::digest(data.as_slice()).to_vec()
}

/// A 20-byte request fingerprint.
pub struct RequestDigest {
    pub bytes: Vec<u8>,
}

impl View for RequestDigest {
    type V = Seq<u8>;

    open spec fn view(&self) -> Seq<u8> {
        self.bytes@
    }
}

impl RequestDigest {
    /// Whether two digests hold the same bytes.
    pub fn same(&self, other: &RequestDigest) -> (r: bool)
        ensures
            r == (self@ == other@),
    {
        matches!(crate::keybytes::key_cmp(&self.bytes, &other.bytes), crate::keybytes::KeyOrder::Eq)
    }
}

/// The concatenated key and value bytes of a query, in the query's order.
pub open spec fn pairs_concat(q: Seq<(Seq<u8>, Seq<u8>)>) -> Seq<u8>
    decreases q.len(),
{
    if q.len() == 0 {
        Seq::empty()
    } else {
        pairs_concat(q.drop_last()) + q.last().0 + q.last().1
    }
}

/// The byte stream a request's digest is computed over.
pub open spec fn digest_input(r: ReqView) -> Seq<u8> {
    r.url.scheme + r.url.path + pairs_concat(canon_pairs(r.url.query)) + method_bytes(r.method)
        + match r.body {
        Some(b) => b,
        None => Seq::empty(),
    }
}

/// The fingerprint of a request: SHA-1 over its canonicalized fields.
pub open spec fn digest_of(r: ReqView) -> Seq<u8> {
    sha1_of(digest_input(r))
}

/// The digest reads only the canonical URL form, the method and the body:
/// requests that agree on those (the host may differ) share a digest.
pub proof fn lemma_digest_reads_canonical_form(a: ReqView, b: ReqView)
    requires
        a.url.scheme == b.url.scheme,
        a.url.path == b.url.path,
        canon_pairs(a.url.query) == canon_pairs(b.url.query),
        a.method == b.method,
        a.body == b.body,
    ensures
        digest_of(a) == digest_of(b),
{
}

/// Compute the fingerprint of a request.
pub fn calculate_digest(r: &Request) -> (d: RequestDigest)
    ensures
        d@ == digest_of(r@),
        d@.len() == 20,
{
    let mut data = copy_bytes(&r.url.scheme);
    append_bytes(&mut data, &r.url.path);
    let sorted = crate::canonical::canon_query(copy_query(&r.url.query));
    let ghost q = crate::canonical::pview(sorted@);
    proof {
        assert(data@ == r@.url.scheme + r@.url.path);
        assert(q == canon_pairs(r@.url.query));
    }
    let ghost base = data@;
    let mut i: usize = 0;
    proof {
        assert(base + pairs_concat(q.take(0)) =~= base);
    }
    while i < sorted.len()
        invariant
            i <= sorted.len(),
            q == crate::canonical::pview(sorted@),
            data@ == base + pairs_concat(q.take(i as int)),
        decreases sorted.len() - i,
    {
        append_bytes(&mut data, &sorted[i].key);
        append_bytes(&mut data, &sorted[i].value);
        proof {
            assert(q.take(i + 1).drop_last() =~= q.take(i as int));
            assert(q.take(i + 1).last() == q[i as int]);
            assert(q[i as int].0 == sorted@[i as int].key@);
            assert(q[i as int].1 == sorted@[i as int].value@);
            assert(data@ =~= base + pairs_concat(q.take(i + 1)));
        }
        i = i + 1;
    }
    proof {
        assert(q.take(q.len() as int) =~= q);
    }
    let method = r.method().as_bytes();
    append_bytes(&mut data, &method);
    match r.body() {
        Some(b) => {
            append_bytes(&mut data, &b.bytes);
        },
        None => {},
    }
    proof {
        assert(data@ =~= digest_input(r@));
    }
    let bytes = sha1_bytes(&data);
    RequestDigest { bytes }
}

/// The fingerprints of a sequence of requests, in order.
pub open spec fn digests_of(s: Seq<ReqView>) -> Seq<Seq<u8>> {
    s.map_values(|r: ReqView| digest_of(r))
}

/// Pair a request with its fingerprint.
pub fn get_digest_and_request(req: Request) -> (p: (RequestDigest, Request))
    ensures
        p.0@ == digest_of(p.1@),
        p.0@.len() == 20,
        p.1 == req,
{
    let digest = calculate_digest(&req);
    (digest, req)
}

} // verus!
