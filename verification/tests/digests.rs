use webcrawl::canonical::QueryPair;
use webcrawl::digest::{calculate_digest, get_digest_and_request};
use webcrawl::request::{Body, Method, Request, UrlParts};

fn pair(key: &str, value: &str) -> QueryPair {
    QueryPair { key: key.as_bytes().to_vec(), value: value.as_bytes().to_vec() }
}

fn url(scheme: &str, host: Option<&str>, path: &str, query: Vec<QueryPair>) -> UrlParts {
    UrlParts {
        scheme: scheme.as_bytes().to_vec(),
        host: host.map(|h| h.as_bytes().to_vec()),
        path: path.as_bytes().to_vec(),
        query,
    }
}

#[test]
fn digest_is_twenty_bytes() {
    let req = Request::new(Method::Get, url("http", Some("a"), "/", Vec::new()));
    let d = calculate_digest(&req);
    assert_eq!(d.bytes.len(), 20);
}

#[test]
fn query_order_does_not_change_digest() {
    let r1 = Request::new(Method::Get, url("http", Some("a"), "/", vec![pair("b", "1"), pair("a", "2")]));
    let r2 = Request::new(Method::Get, url("http", Some("a"), "/", vec![pair("a", "2"), pair("b", "1")]));
    assert_eq!(calculate_digest(&r1).bytes, calculate_digest(&r2).bytes);
}

#[test]
fn host_is_omitted_from_digest() {
    // The digest reads scheme, path, sorted query, method and body; the
    // host is deliberately left out, so these two collide.
    let r1 = Request::new(Method::Get, url("http", Some("a"), "/p", Vec::new()));
    let r2 = Request::new(Method::Get, url("http", Some("b"), "/p", Vec::new()));
    assert_eq!(calculate_digest(&r1).bytes, calculate_digest(&r2).bytes);
}

#[test]
fn path_changes_digest() {
    let r1 = Request::new(Method::Get, url("http", Some("a"), "/p", Vec::new()));
    let r2 = Request::new(Method::Get, url("http", Some("a"), "/q", Vec::new()));
    assert_ne!(calculate_digest(&r1).bytes, calculate_digest(&r2).bytes);
}

#[test]
fn method_changes_digest() {
    let r1 = Request::new(Method::Get, url("http", Some("a"), "/p", Vec::new()));
    let r2 = Request::new(Method::Post, url("http", Some("a"), "/p", Vec::new()));
    assert_ne!(calculate_digest(&r1).bytes, calculate_digest(&r2).bytes);
}

#[test]
fn body_changes_digest() {
    let r1 = Request::new(Method::Post, url("http", Some("a"), "/p", Vec::new()));
    let mut r2 = Request::new(Method::Post, url("http", Some("a"), "/p", Vec::new()));
    *r2.body_mut() = Some(Body::from_bytes(b"payload".to_vec()));
    assert_ne!(calculate_digest(&r1).bytes, calculate_digest(&r2).bytes);
}

#[test]
fn get_digest_and_request_keeps_request() {
    let req = Request::new(Method::Get, url("http", Some("a"), "/x", Vec::new()));
    let (d, back) = get_digest_and_request(req);
    assert_eq!(d.bytes.len(), 20);
    assert_eq!(back.url.path, b"/x".to_vec());
    let d2 = calculate_digest(&back);
    assert_eq!(d.bytes, d2.bytes);
}

#[test]
fn digest_same_compares_bytes() {
    let r1 = Request::new(Method::Get, url("http", Some("a"), "/p", Vec::new()));
    let r2 = Request::new(Method::Get, url("http", Some("b"), "/p", Vec::new()));
    let r3 = Request::new(Method::Get, url("http", Some("a"), "/other", Vec::new()));
    let d1 = calculate_digest(&r1);
    let d2 = calculate_digest(&r2);
    let d3 = calculate_digest(&r3);
    assert!(d1.same(&d2));
    assert!(!d1.same(&d3));
}

#[test]
fn method_text_is_ascii_name() {
    assert_eq!(Method::Get.as_bytes(), b"GET".to_vec());
    assert_eq!(Method::Post.as_bytes(), b"POST".to_vec());
    assert_eq!(Method::Delete.as_bytes(), b"DELETE".to_vec());
}

#[test]
fn body_view_is_its_bytes() {
    let b = Body::from_bytes(b"abc".to_vec());
    assert_eq!(b.as_ref(), b"abc");
}

#[test]
fn body_from_slice_keeps_bytes() {
    let b = Body::from_static_bytes(b"static payload");
    assert_eq!(b.as_ref(), b"static payload");
    let c: Body = Body::from(b"owned".to_vec());
    assert_eq!(c.as_ref(), b"owned");
}
