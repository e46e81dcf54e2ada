//! The verified core of a map-scraping service: a bounded worker pool with
//! cancellation-safe waiting and an ordered shutdown; the scrape driver's
//! retry policy and page classification; the parser for the site's
//! nested-array review payloads, with exact rational arithmetic for ratings
//! and timestamps; continuation-URL rewriting; the lazy review stream; and
//! the query-string and IP-table helpers the HTTP surface needs.
//!
//! Browser sessions, network I/O and the event loop live outside the
//! library and hand it plain values; the two places where outside crates
//! compute in the middle of the logic (JSON decoding, query-string
//! decoding) stand behind trusted wrappers whose results are named.

pub mod errors;
pub mod geolocate;
pub mod json;
pub mod pool;
pub mod query;
pub mod rational;
pub mod retry;
pub mod reviews;
pub mod search;
pub mod stream;
pub mod strutil;

pub use errors::HandlerError;
pub use errors::PoolError;
pub use errors::ScrapeError;
