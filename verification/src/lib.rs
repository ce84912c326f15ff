//! A verified core for a deduplicating, bounded web-crawl engine.
//!
//! The crate models the crawl as pure state machines: a scheduler that hands
//! out requests under a global concurrency cap, a fingerprint filter that
//! admits each canonical request digest at most once, a stream fork, a
//! round-robin selector, and the crawl driver that ties them together.
//! Network and task plumbing stay outside; callers execute the requests the
//! engine hands out and feed responses and parse results back in.

pub mod canonical;
pub mod crawler;
pub mod digest;
pub mod eos_on_error;
pub mod fork;
pub mod keybytes;
pub mod request;
pub mod rfp;
pub mod select_all;
pub mod sheduler;
pub mod spider;
pub mod urlview;
