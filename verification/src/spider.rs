//! The spider contract: user code that seeds requests and parses responses.
//!
//! A spider names itself, produces the initial requests, and parses each
//! response into a mixed sequence of further requests and emitted items.
//! Each element may instead be a domain error, which the driver logs and
//! drops; a failure of `start` as a whole ends the crawl with that error.

use crate::request::{Method, Request, UrlParts};
use vstd::prelude::*;

verus! {

/// A domain error raised by a spider.
#[derive(Debug)]
pub struct SpiderError {
    pub message: Vec<u8>,
}

/// An HTTP response handed to the spider's parser: the originating method
/// and URL, the status, and the body.
pub struct Response {
    pub method: Method,
    pub url: UrlParts,
    pub status: u16,
    pub body: Vec<u8>,
}

/// One element of a parse result: a further request to crawl, or an item.
pub enum Parse<T> {
    Request(Request),
    Item(T),
}

/// User code driving a crawl: seed requests and a parser.
pub trait Spider: Sized {
    type Item;

    /// The spider's name, for reporting.
    fn name(&self) -> (r: &'static str);

    /// The initial request sequence; elements may be errors, which are
    /// dropped. A failure of the whole call ends the crawl with it.
    fn start(&mut self) -> (r: Result<Vec<Result<Request, SpiderError>>, SpiderError>);

    /// Parse one response into further requests and items; elements may be
    /// errors, which are dropped. A failure of the whole call ends only
    /// this parse.
    fn parse(&mut self, response: Response) -> (r: Result<
        Vec<Result<Parse<Self::Item>, SpiderError>>,
        SpiderError,
    >);
}

} // verus!
