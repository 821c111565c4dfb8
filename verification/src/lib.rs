//! Verified logic behind a set of small asynchronous Rust programs: the credit
//! roll of the "explicit futures" programs, the almost-recursive spawner, the
//! mock Wikipedia API, and the Wikipedia link crawler with its request throttle.

pub mod credits;
pub mod throttle;
pub mod order;
pub mod traversal;
pub mod links;
pub mod mock;
pub mod recursive;
pub mod crawl;
