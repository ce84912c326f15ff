use webcrawl::canonical::{canon_query, QueryPair};
use webcrawl::keybytes::{key_cmp, KeyOrder};
use webcrawl::request::UrlParts;
use webcrawl::urlview::canonicalize_url;

fn pair(key: &str, value: &str) -> QueryPair {
    QueryPair { key: key.as_bytes().to_vec(), value: value.as_bytes().to_vec() }
}

fn url(scheme: &str, host: Option<&str>, path: &str, query: Vec<QueryPair>) -> UrlParts {
    UrlParts {
        scheme: scheme.as_bytes().to_vec(),
        host: host.map(|h| h.as_bytes().to_vec()),
        path: path.as_bytes().to_vec(),
        query,
    }
}

#[test]
fn key_cmp_orders_bytes() {
    let a = b"a".to_vec();
    let b = b"b".to_vec();
    let ab = b"ab".to_vec();
    assert!(matches!(key_cmp(&a, &b), KeyOrder::Lt));
    assert!(matches!(key_cmp(&b, &a), KeyOrder::Gt));
    assert!(matches!(key_cmp(&a, &a), KeyOrder::Eq));
    assert!(matches!(key_cmp(&a, &ab), KeyOrder::Lt));
    assert!(matches!(key_cmp(&ab, &a), KeyOrder::Gt));
    assert!(matches!(key_cmp(&Vec::new(), &a), KeyOrder::Lt));
}

#[test]
fn canon_query_sorts_by_key() {
    let q = vec![pair("b", "1"), pair("a", "2")];
    let c = canon_query(q);
    assert_eq!(c.len(), 2);
    assert_eq!(c[0].key, b"a".to_vec());
    assert_eq!(c[0].value, b"2".to_vec());
    assert_eq!(c[1].key, b"b".to_vec());
    assert_eq!(c[1].value, b"1".to_vec());
}

#[test]
fn canon_query_last_value_wins() {
    let q = vec![pair("a", "1"), pair("b", "9"), pair("a", "3")];
    let c = canon_query(q);
    assert_eq!(c.len(), 2);
    assert_eq!(c[0].key, b"a".to_vec());
    assert_eq!(c[0].value, b"3".to_vec());
    assert_eq!(c[1].key, b"b".to_vec());
    assert_eq!(c[1].value, b"9".to_vec());
}

#[test]
fn canon_query_idempotent() {
    let q = vec![pair("z", "1"), pair("m", "2"), pair("a", "3"), pair("m", "4")];
    let once = canon_query(q);
    let copy: Vec<QueryPair> = once
        .iter()
        .map(|p| QueryPair { key: p.key.clone(), value: p.value.clone() })
        .collect();
    let twice = canon_query(copy);
    assert_eq!(once.len(), twice.len());
    for (a, b) in once.iter().zip(twice.iter()) {
        assert_eq!(a.key, b.key);
        assert_eq!(a.value, b.value);
    }
}

#[test]
fn canonical_url_renders_sorted_query() {
    let u = url("http", Some("a"), "/", vec![pair("b", "1"), pair("a", "2")]);
    let view = canonicalize_url(&u);
    let text = view.to_bytes();
    assert_eq!(text, b"http://a/?a=2&b=1".to_vec());
}

#[test]
fn canonical_url_renders_without_query() {
    let u = url("https", Some("example.com"), "/path", Vec::new());
    let view = canonicalize_url(&u);
    assert_eq!(view.to_bytes(), b"https://example.com/path".to_vec());
}

#[test]
fn canonical_render_idempotent_as_text() {
    let u = url("http", Some("a"), "/p", vec![pair("b", "1"), pair("a", "2"), pair("b", "3")]);
    let first = canonicalize_url(&u);
    let text1 = first.to_bytes();
    let again = canonicalize_url(&UrlParts {
        scheme: first.scheme.clone(),
        host: first.host.clone(),
        path: first.path.clone(),
        query: first
            .query
            .iter()
            .map(|p| QueryPair { key: p.key.clone(), value: p.value.clone() })
            .collect(),
    });
    assert_eq!(again.to_bytes(), text1);
}
