//! Discovers the URLs a web host exposes for crawling: robots.txt-declared
//! sitemap locations plus recursive descent into nested sitemap files,
//! producing a deduplicated, resumable stream of URLs.
//!
//! The verified core is the arena-backed sectioned queue in
//! [`sectioned_list`] and the pull-based traversal engine in [`meta`].
//! Network fetching is left to the caller: the engine asks for a fetch and
//! is handed the outcome.

pub mod util;

pub mod sectioned_list;

pub mod session;

pub mod meta;
