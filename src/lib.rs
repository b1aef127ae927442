//! A single-domain web crawler: the crawl's decisions, verified.
pub mod path;
pub mod page_url;
pub mod extract;
pub mod error;
pub mod fetch;
pub mod frontier;
pub mod coordinator;
pub mod url_encoded;
pub mod traversal;
