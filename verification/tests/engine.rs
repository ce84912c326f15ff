use webcrawl::crawler::{CrawlPoll, Crawl, CrawlerBuilder, ParseSettings};
use webcrawl::canonical::QueryPair;
use webcrawl::request::{Method, Request, UrlParts};
use webcrawl::sheduler::{GlobalLimitedSheduler, Sheduler};
use webcrawl::spider::{Parse, Response, Spider, SpiderError};

fn url(host: Option<&str>, path: &str) -> UrlParts {
    UrlParts {
        scheme: b"http".to_vec(),
        host: host.map(|h| h.as_bytes().to_vec()),
        path: path.as_bytes().to_vec(),
        query: Vec::new(),
    }
}

fn url_with_query(host: &str, path: &str, query: Vec<(&str, &str)>) -> UrlParts {
    UrlParts {
        scheme: b"http".to_vec(),
        host: Some(host.as_bytes().to_vec()),
        path: path.as_bytes().to_vec(),
        query: query
            .into_iter()
            .map(|(k, v)| QueryPair { key: k.as_bytes().to_vec(), value: v.as_bytes().to_vec() })
            .collect(),
    }
}

fn get(host: Option<&str>, path: &str) -> Request {
    Request::new(Method::Get, url(host, path))
}

fn ok_response(req: Request) -> Response {
    Response { method: Method::Get, url: req.url, status: 200, body: Vec::new() }
}

/// Emits a fixed start list; every parse yields one child request to the
/// root plus one item, like a page that links back to itself.
struct LoopSpider;

impl Spider for LoopSpider {
    type Item = String;

    fn name(&self) -> &'static str {
        "loop-spider"
    }

    fn start(&mut self) -> Result<Vec<Result<Request, SpiderError>>, SpiderError> {
        Ok(vec![Ok(get(Some("a"), "/"))])
    }

    fn parse(
        &mut self,
        _response: Response,
    ) -> Result<Vec<Result<Parse<String>, SpiderError>>, SpiderError> {
        Ok(vec![
            Ok(Parse::Request(get(Some("a"), "/"))),
            Ok(Parse::Item(String::from("x"))),
        ])
    }
}

/// Runs a crawl against a fake transport that answers every request with
/// an empty 200 response, and collects the items until the crawl ends.
fn drive<S: Spider<Item = String>>(
    crawl: &mut Crawl<S, GlobalLimitedSheduler>,
    fail_paths: &[&[u8]],
) -> (Vec<String>, usize) {
    let mut items = Vec::new();
    let mut launched = 0usize;
    let mut rounds = 0usize;
    loop {
        rounds += 1;
        assert!(rounds < 10_000, "crawl did not terminate");
        while let Some(req) = crawl.next_request() {
            launched += 1;
            if fail_paths.iter().any(|p| *p == req.url.path.as_slice()) {
                crawl.on_transport_error();
            } else {
                let resp = ok_response(req);
                crawl.on_response(resp);
            }
        }
        crawl.step_parse();
        match crawl.poll_output() {
            CrawlPoll::Item(x) => items.push(x),
            CrawlPoll::End => return (items, launched),
            CrawlPoll::Pending => {}
            CrawlPoll::Failed(_) => panic!("unexpected start failure"),
        }
    }
}

#[test]
fn dedup_same_request_runs_once() {
    let crawler = CrawlerBuilder::new(GlobalLimitedSheduler::new(4)).build().unwrap();
    let mut crawl = crawler.crawl(LoopSpider);
    let (items, launched) = drive(&mut crawl, &[]);
    assert_eq!(items, vec![String::from("x")]);
    assert_eq!(launched, 1);
}

/// Two textually different but canonically equal query URLs collapse to
/// one digest: only the first is executed.
struct QueryOrderSpider;

impl Spider for QueryOrderSpider {
    type Item = String;

    fn name(&self) -> &'static str {
        "query-order-spider"
    }

    fn start(&mut self) -> Result<Vec<Result<Request, SpiderError>>, SpiderError> {
        Ok(vec![
            Ok(Request::new(Method::Get, url_with_query("a", "/", vec![("b", "1"), ("a", "2")]))),
            Ok(Request::new(Method::Get, url_with_query("a", "/", vec![("a", "2"), ("b", "1")]))),
        ])
    }

    fn parse(
        &mut self,
        _response: Response,
    ) -> Result<Vec<Result<Parse<String>, SpiderError>>, SpiderError> {
        Ok(vec![Ok(Parse::Item(String::from("page")))])
    }
}

#[test]
fn query_order_collapses_to_one_fetch() {
    let crawler = CrawlerBuilder::new(GlobalLimitedSheduler::new(4)).build().unwrap();
    let mut crawl = crawler.crawl(QueryOrderSpider);
    let (items, launched) = drive(&mut crawl, &[]);
    assert_eq!(items, vec![String::from("page")]);
    assert_eq!(launched, 1);
}

/// Start lists three pages; the middle one fails in transport. Both good
/// pages still contribute their items.
struct ThreePageSpider;

impl Spider for ThreePageSpider {
    type Item = String;

    fn name(&self) -> &'static str {
        "three-page-spider"
    }

    fn start(&mut self) -> Result<Vec<Result<Request, SpiderError>>, SpiderError> {
        Ok(vec![
            Ok(get(Some("a"), "/ok")),
            Ok(get(Some("a"), "/boom")),
            Ok(get(Some("a"), "/ok2")),
        ])
    }

    fn parse(
        &mut self,
        response: Response,
    ) -> Result<Vec<Result<Parse<String>, SpiderError>>, SpiderError> {
        let path = String::from_utf8(response.url.path).unwrap();
        Ok(vec![Ok(Parse::Item(path))])
    }
}

#[test]
fn transport_error_does_not_end_crawl() {
    let crawler = CrawlerBuilder::new(GlobalLimitedSheduler::new(4)).build().unwrap();
    let mut crawl = crawler.crawl(ThreePageSpider);
    let (mut items, launched) = drive(&mut crawl, &[b"/boom"]);
    items.sort();
    assert_eq!(items, vec![String::from("/ok"), String::from("/ok2")]);
    assert_eq!(launched, 3);
}

/// Ten distinct start requests against a scheduler capped at two.
struct TenPageSpider;

impl Spider for TenPageSpider {
    type Item = String;

    fn name(&self) -> &'static str {
        "ten-page-spider"
    }

    fn start(&mut self) -> Result<Vec<Result<Request, SpiderError>>, SpiderError> {
        let mut out = Vec::new();
        for i in 0..10 {
            let path = format!("/page{}", i);
            out.push(Ok(get(Some("a"), &path)));
        }
        Ok(out)
    }

    fn parse(
        &mut self,
        _response: Response,
    ) -> Result<Vec<Result<Parse<String>, SpiderError>>, SpiderError> {
        Ok(Vec::new())
    }
}

#[test]
fn concurrency_cap_holds() {
    let crawler = CrawlerBuilder::new(GlobalLimitedSheduler::new(2)).build().unwrap();
    let mut crawl = crawler.crawl(TenPageSpider);
    let mut total = 0usize;
    let mut max_in_flight = 0usize;
    let mut rounds = 0usize;
    loop {
        rounds += 1;
        assert!(rounds < 1000);
        let mut batch = Vec::new();
        while let Some(req) = crawl.next_request() {
            batch.push(req);
        }
        max_in_flight = max_in_flight.max(batch.len());
        total += batch.len();
        for req in batch {
            crawl.on_response(ok_response(req));
        }
        crawl.step_parse();
        match crawl.poll_output() {
            CrawlPoll::End => break,
            CrawlPoll::Pending => {}
            CrawlPoll::Item(_) => panic!("no items expected"),
            CrawlPoll::Failed(_) => panic!("no failure expected"),
        }
    }
    assert!(max_in_flight <= 2);
    assert_eq!(total, 10);
}

/// A spider with no start requests at all.
struct EmptySpider;

impl Spider for EmptySpider {
    type Item = String;

    fn name(&self) -> &'static str {
        "empty-spider"
    }

    fn start(&mut self) -> Result<Vec<Result<Request, SpiderError>>, SpiderError> {
        Ok(Vec::new())
    }

    fn parse(
        &mut self,
        _response: Response,
    ) -> Result<Vec<Result<Parse<String>, SpiderError>>, SpiderError> {
        panic!("parse must never be called");
    }
}

#[test]
fn empty_start_ends_immediately() {
    let crawler = CrawlerBuilder::new(GlobalLimitedSheduler::new(4)).build().unwrap();
    let mut crawl = crawler.crawl(EmptySpider);
    assert!(crawl.next_request().is_none());
    match crawl.poll_output() {
        CrawlPoll::End => {}
        _ => panic!("expected immediate end"),
    }
}

/// A spider whose start fails outright.
struct FailingStartSpider;

impl Spider for FailingStartSpider {
    type Item = String;

    fn name(&self) -> &'static str {
        "failing-start-spider"
    }

    fn start(&mut self) -> Result<Vec<Result<Request, SpiderError>>, SpiderError> {
        Err(SpiderError { message: b"no seeds".to_vec() })
    }

    fn parse(
        &mut self,
        _response: Response,
    ) -> Result<Vec<Result<Parse<String>, SpiderError>>, SpiderError> {
        panic!("parse must never be called");
    }
}

#[test]
fn start_failure_surfaces_then_ends() {
    let crawler = CrawlerBuilder::new(GlobalLimitedSheduler::new(4)).build().unwrap();
    let mut crawl = crawler.crawl(FailingStartSpider);
    match crawl.poll_output() {
        CrawlPoll::Failed(e) => assert_eq!(e.message, b"no seeds".to_vec()),
        _ => panic!("expected the start failure first"),
    }
    match crawl.poll_output() {
        CrawlPoll::End => {}
        _ => panic!("expected end after the failure"),
    }
}

/// Start elements that are themselves errors are dropped, the rest crawl.
struct MixedStartSpider;

impl Spider for MixedStartSpider {
    type Item = String;

    fn name(&self) -> &'static str {
        "mixed-start-spider"
    }

    fn start(&mut self) -> Result<Vec<Result<Request, SpiderError>>, SpiderError> {
        Ok(vec![
            Err(SpiderError { message: b"bad seed".to_vec() }),
            Ok(get(Some("a"), "/good")),
        ])
    }

    fn parse(
        &mut self,
        response: Response,
    ) -> Result<Vec<Result<Parse<String>, SpiderError>>, SpiderError> {
        let path = String::from_utf8(response.url.path).unwrap();
        Ok(vec![
            Ok(Parse::Item(path)),
            Err(SpiderError { message: b"bad element".to_vec() }),
        ])
    }
}

#[test]
fn error_elements_are_dropped() {
    let crawler = CrawlerBuilder::new(GlobalLimitedSheduler::new(4)).build().unwrap();
    let mut crawl = crawler.crawl(MixedStartSpider);
    let (items, launched) = drive(&mut crawl, &[]);
    assert_eq!(items, vec![String::from("/good")]);
    assert_eq!(launched, 1);
}

/// A request without a host is admitted by the filter but dropped by the
/// scheduler, silently.
struct HostlessSpider;

impl Spider for HostlessSpider {
    type Item = String;

    fn name(&self) -> &'static str {
        "hostless-spider"
    }

    fn start(&mut self) -> Result<Vec<Result<Request, SpiderError>>, SpiderError> {
        Ok(vec![Ok(get(None, "/nowhere"))])
    }

    fn parse(
        &mut self,
        _response: Response,
    ) -> Result<Vec<Result<Parse<String>, SpiderError>>, SpiderError> {
        panic!("parse must never be called");
    }
}

#[test]
fn hostless_requests_are_dropped() {
    let crawler = CrawlerBuilder::new(GlobalLimitedSheduler::new(4)).build().unwrap();
    let mut crawl = crawler.crawl(HostlessSpider);
    let (items, launched) = drive(&mut crawl, &[]);
    assert!(items.is_empty());
    assert_eq!(launched, 0);
}

#[test]
fn builder_defaults_to_pool_parse() {
    let crawler = CrawlerBuilder::new(GlobalLimitedSheduler::new(1)).build().unwrap();
    assert_eq!(crawler.parse_settings, ParseSettings::OnPool);
    let crawler2 = CrawlerBuilder::new(GlobalLimitedSheduler::new(1))
        .with_parse_settings(ParseSettings::SameThread)
        .build()
        .unwrap();
    assert_eq!(crawler2.parse_settings, ParseSettings::SameThread);
}

#[test]
fn sheduler_reports_done_only_when_drained() {
    let mut sh = GlobalLimitedSheduler::new(2);
    assert!(sh.is_done());
    sh.shedule(vec![get(Some("a"), "/x")]);
    assert!(!sh.is_done());
    let req = sh.next_to_launch().unwrap();
    assert_eq!(req.url.path, b"/x".to_vec());
    assert!(!sh.is_done());
    sh.on_response();
    assert!(sh.is_done());
}

#[test]
fn sheduler_chains_onto_drained_input() {
    // Scheduling must work even when the current input chain is already
    // fused-empty.
    let mut sh = GlobalLimitedSheduler::new(2);
    assert!(sh.next_to_launch().is_none());
    sh.shedule(vec![get(Some("a"), "/later")]);
    let req = sh.next_to_launch().unwrap();
    assert_eq!(req.url.path, b"/later".to_vec());
    sh.on_transport_error();
    assert!(sh.is_done());
}

/// Two pages, each parse emitting two items; all four arrive.
struct TwoPageSpider;

impl Spider for TwoPageSpider {
    type Item = String;

    fn name(&self) -> &'static str {
        "two-page-spider"
    }

    fn start(&mut self) -> Result<Vec<Result<Request, SpiderError>>, SpiderError> {
        Ok(vec![Ok(get(Some("a"), "/1")), Ok(get(Some("a"), "/2"))])
    }

    fn parse(
        &mut self,
        response: Response,
    ) -> Result<Vec<Result<Parse<String>, SpiderError>>, SpiderError> {
        let path = String::from_utf8(response.url.path).unwrap();
        Ok(vec![
            Ok(Parse::Item(format!("{}:first", path))),
            Ok(Parse::Item(format!("{}:second", path))),
        ])
    }
}

#[test]
fn all_emitted_items_are_delivered() {
    let crawler = CrawlerBuilder::new(GlobalLimitedSheduler::new(4)).build().unwrap();
    let mut crawl = crawler.crawl(TwoPageSpider);
    let (mut items, launched) = drive(&mut crawl, &[]);
    items.sort();
    assert_eq!(
        items,
        vec![
            String::from("/1:first"),
            String::from("/1:second"),
            String::from("/2:first"),
            String::from("/2:second"),
        ]
    );
    assert_eq!(launched, 2);
}

/// One page's whole parse fails; the other page's items still arrive.
struct OneParseFailsSpider;

impl Spider for OneParseFailsSpider {
    type Item = String;

    fn name(&self) -> &'static str {
        "one-parse-fails-spider"
    }

    fn start(&mut self) -> Result<Vec<Result<Request, SpiderError>>, SpiderError> {
        Ok(vec![Ok(get(Some("a"), "/broken")), Ok(get(Some("a"), "/fine"))])
    }

    fn parse(
        &mut self,
        response: Response,
    ) -> Result<Vec<Result<Parse<String>, SpiderError>>, SpiderError> {
        if response.url.path == b"/broken".to_vec() {
            Err(SpiderError { message: b"cannot parse".to_vec() })
        } else {
            let path = String::from_utf8(response.url.path).unwrap();
            Ok(vec![Ok(Parse::Item(path))])
        }
    }
}

#[test]
fn parse_failure_ends_only_that_parse() {
    let crawler = CrawlerBuilder::new(GlobalLimitedSheduler::new(4)).build().unwrap();
    let mut crawl = crawler.crawl(OneParseFailsSpider);
    let (items, launched) = drive(&mut crawl, &[]);
    assert_eq!(items, vec![String::from("/fine")]);
    assert_eq!(launched, 2);
}

#[test]
fn process_start_schedules_admitted_requests() {
    // Seed an already-running crawl by hand: duplicates collapse, error
    // elements drop, host-less requests never reach the queue.
    let crawler = CrawlerBuilder::new(GlobalLimitedSheduler::new(4)).build().unwrap();
    let mut crawl = crawler.crawl(EmptySpider);
    crawl.process_start(Ok(vec![
        Ok(get(Some("a"), "/seed")),
        Err(SpiderError { message: b"bad".to_vec() }),
        Ok(get(Some("a"), "/seed")),
        Ok(get(None, "/nowhere")),
    ]));
    let first = crawl.next_request().expect("the fresh seed is queued");
    assert_eq!(first.url.path, b"/seed".to_vec());
    assert!(crawl.next_request().is_none());
}

#[test]
fn process_start_failure_is_surfaced() {
    let crawler = CrawlerBuilder::new(GlobalLimitedSheduler::new(4)).build().unwrap();
    let mut crawl = crawler.crawl(EmptySpider);
    crawl.process_start(Err(SpiderError { message: b"dead seed".to_vec() }));
    match crawl.poll_output() {
        CrawlPoll::Failed(e) => assert_eq!(e.message, b"dead seed".to_vec()),
        _ => panic!("expected the recorded failure"),
    }
}
