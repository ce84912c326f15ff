//! Request and response values: method, URL parts, headers, body.
//!
//! URLs are held as their parts — scheme, host, path and query pairs — as
//! plain byte strings, so the canonicalization and digest logic can be
//! reasoned about directly. Parsing a textual URL into parts is the caller's
//! concern.

use crate::canonical::{pview, QueryPair};
use vstd::prelude::*;

verus! {

/// An HTTP method.
#[derive(Clone, Copy, PartialEq, Eq, Structural, Debug)]
pub enum Method {
    Get,
    Head,
    Post,
    Put,
    Delete,
    Options,
    Patch,
}

/// The ASCII text of a method, as fed to the request digest.
pub open spec fn method_bytes(m: Method) -> Seq<u8> {
    match m {
        Method::Get => seq![71u8, 69u8, 84u8],
        Method::Head => seq![72u8, 69u8, 65u8, 68u8],
        Method::Post => seq![80u8, 79u8, 83u8, 84u8],
        Method::Put => seq![80u8, 85u8, 84u8],
        Method::Delete => seq![68u8, 69u8, 76u8, 69u8, 84u8, 69u8],
        Method::Options => seq![79u8, 80u8, 84u8, 73u8, 79u8, 78u8, 83u8],
        Method::Patch => seq![80u8, 65u8, 84u8, 67u8, 72u8],
    }
}

impl Method {
    /// The ASCII text of the method, for example `GET`.
    pub fn as_bytes(&self) -> (r: Vec<u8>)
        ensures
            r@ == method_bytes(*self),
    {
        let v: Vec<u8> = match self {
            Method::Get => vec![71u8, 69u8, 84u8],
            Method::Head => vec![72u8, 69u8, 65u8, 68u8],
            Method::Post => vec![80u8, 79u8, 83u8, 84u8],
            Method::Put => vec![80u8, 85u8, 84u8],
            Method::Delete => vec![68u8, 69u8, 76u8, 69u8, 84u8, 69u8],
            Method::Options => vec![79u8, 80u8, 84u8, 73u8, 79u8, 78u8, 83u8],
            Method::Patch => vec![80u8, 65u8, 84u8, 67u8, 72u8],
        };
        proof {
            assert(v@ =~= method_bytes(*self));
        }
        v
    }
}

/// An immutable request body: a byte buffer hashed into the digest.
pub struct Body {
    pub bytes: Vec<u8>,
}

impl View for Body {
    type V = Seq<u8>;

    open spec fn view(&self) -> Seq<u8> {
        self.bytes@
    }
}

impl From<Vec<u8>> for Body {
    fn from(v: Vec<u8>) -> (r: Body)
        ensures
            r@ == v@,
    {
        Body { bytes: v }
    }
}

impl vstd::std_specs::convert::FromSpecImpl<Vec<u8>> for Body {
    open spec fn obeys_from_spec() -> bool {
        true
    }

    open spec fn from_spec(v: Vec<u8>) -> Body {
        Body { bytes: v }
    }
}

impl Body {
    /// Wrap an owned byte buffer as a body.
    pub fn from_bytes(bytes: Vec<u8>) -> (r: Body)
        ensures
            r@ == bytes@,
    {
        Body { bytes }
    }

    /// Wrap a borrowed byte slice, such as a static one, as a body.
    pub fn from_static_bytes(bytes: &[u8]) -> (r: Body)
        ensures
            r@ == bytes@,
    {
        Body { bytes: vstd::slice::slice_to_vec(bytes) }
    }

    /// The body's bytes.
    pub fn as_ref(&self) -> (r: &[u8])
        ensures
            r@ == self@,
    {
        self.bytes.as_slice()
    }
}

/// The parts of an absolute URL, as plain byte strings.
pub struct UrlParts {
    pub scheme: Vec<u8>,
    pub host: Option<Vec<u8>>,
    pub path: Vec<u8>,
    pub query: Vec<QueryPair>,
}

/// The mathematical value of a URL.
pub struct UrlView {
    pub scheme: Seq<u8>,
    pub host: Option<Seq<u8>>,
    pub path: Seq<u8>,
    pub query: Seq<(Seq<u8>, Seq<u8>)>,
}

impl View for UrlParts {
    type V = UrlView;

    open spec fn view(&self) -> UrlView {
        UrlView {
            scheme: self.scheme@,
            host: match self.host {
                Some(h) => Some(h@),
                None => None,
            },
            path: self.path@,
            query: pview(self.query@),
        }
    }
}

impl UrlParts {
    /// Whether the URL names a host. The scheduler drops requests without one.
    pub fn has_host(&self) -> (r: bool)
        ensures
            r == (self@.host is Some),
    {
        self.host.is_some()
    }
}

/// One header of a request, name and value.
pub struct HeaderPair {
    pub name: Vec<u8>,
    pub value: Vec<u8>,
}

impl View for HeaderPair {
    type V = (Seq<u8>, Seq<u8>);

    open spec fn view(&self) -> (Seq<u8>, Seq<u8>) {
        (self.name@, self.value@)
    }
}

/// The mathematical value of a request.
pub struct ReqView {
    pub method: Method,
    pub url: UrlView,
    pub headers: Seq<(Seq<u8>, Seq<u8>)>,
    pub body: Option<Seq<u8>>,
}

/// An HTTP request value: method, URL, headers and optional body.
pub struct Request {
    pub method: Method,
    pub url: UrlParts,
    pub headers: Vec<HeaderPair>,
    pub body: Option<Body>,
}

impl View for Request {
    type V = ReqView;

    open spec fn view(&self) -> ReqView {
        ReqView {
            method: self.method,
            url: self.url@,
            headers: self.headers@.map_values(|h: HeaderPair| h@),
            body: match self.body {
                Some(b) => Some(b@),
                None => None,
            },
        }
    }
}

impl Request {
    /// Constructs a new request with no headers and no body.
    pub fn new(method: Method, url: UrlParts) -> (r: Request)
        ensures
            r@.method == method,
            r@.url == url@,
            r@.headers == Seq::<(Seq<u8>, Seq<u8>)>::empty(),
            r@.body is None,
    {
        let r = Request { method, url, headers: Vec::new(), body: None };
        proof {
            assert(r@.headers =~= Seq::<(Seq<u8>, Seq<u8>)>::empty());
        }
        r
    }

    /// Get the method.
    pub fn method(&self) -> (r: &Method)
        ensures
            *r == self@.method,
    {
        &self.method
    }

    /// Get a mutable reference to the method.
    pub fn method_mut(&mut self) -> (r: &mut Method)
        ensures
            *r == old(self)@.method,
            final(self)@ == (ReqView { method: *final(r), ..old(self)@ }),
    {
        &mut self.method
    }

    /// Get the url.
    pub fn url(&self) -> (r: &UrlParts)
        ensures
            r@ == self@.url,
    {
        &self.url
    }

    /// Get a mutable reference to the url.
    pub fn url_mut(&mut self) -> (r: &mut UrlParts)
        ensures
            (*r)@ == old(self)@.url,
            final(self)@ == (ReqView { url: (*final(r))@, ..old(self)@ }),
    {
        &mut self.url
    }

    /// Get the headers.
    pub fn headers(&self) -> (r: &Vec<HeaderPair>)
        ensures
            r@.map_values(|h: HeaderPair| h@) == self@.headers,
    {
        &self.headers
    }

    /// Get a mutable reference to the headers.
    pub fn headers_mut(&mut self) -> (r: &mut Vec<HeaderPair>)
        ensures
            (*r)@ == old(self).headers_vec(),
            final(self)@ == (ReqView {
                headers: (*final(r))@.map_values(|h: HeaderPair| h@),
                ..old(self)@
            }),
    {
        &mut self.headers
    }

    /// The raw header vector, for stating contracts about `headers_mut`.
    pub open spec fn headers_vec(&self) -> Seq<HeaderPair> {
        self.headers@
    }

    /// Get the body.
    pub fn body(&self) -> (r: Option<&Body>)
        ensures
            match r {
                Some(b) => self@.body == Some(b@),
                None => self@.body is None,
            },
    {
        self.body.as_ref()
    }

    /// Get a mutable reference to the body.
    pub fn body_mut(&mut self) -> (r: &mut Option<Body>)
        ensures
            match *r {
                Some(b) => old(self)@.body == Some(b@),
                None => old(self)@.body is None,
            },
            final(self)@ == (ReqView {
                body: match *final(r) {
                    Some(b) => Some(b@),
                    None => None,
                },
                ..old(self)@
            }),
    {
        &mut self.body
    }
}

} // verus!
