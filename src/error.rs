//! The ways a crawl fails.
use vstd::prelude::*;

verus! {

/// Why a crawl, or a query on its results, failed.
#[derive(Clone, Copy, Debug, PartialEq, Eq, Structural)]
pub enum CrawlError {
    /// The root URL has no host.
    InvalidInput,
    /// The domain was crawled before.
    AlreadyScraped,
    /// A fetch failed at the transport level.
    FetchError,
    /// The store failed.
    StoreError,
    /// The anchor selector could not be read.
    ExtractionError,
}

} // verus!
