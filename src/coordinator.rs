//! The decisions that frame a crawl: where it may start, and what it records.
use vstd::prelude::*;
use crate::error::CrawlError;
use crate::frontier::Frontier;
use crate::page_url::{texts, url_set, PageUrl};

verus! {

/// The domain that a crawl from `root` covers: the root's host.
pub fn crawl_domain(root: &PageUrl) -> (r: Result<String, CrawlError>)
    ensures
        match root.host_view() {
            Some(h) => r matches Ok(d) && d@ == h,
            None => r == Err::<String, CrawlError>(CrawlError::InvalidInput),
        },
{
    match &root.host {
        Some(h) => Ok(h.clone()),
        None => Err(CrawlError::InvalidInput),
    }
}

/// Starts a crawl from `root`, given whether the store already records its
/// domain: a root without a host is refused, and so is a domain crawled
/// before, with no frontier (so nothing is fetched); else the frontier holds
/// the root alone.
pub fn begin_crawl(root: PageUrl, recorded: bool) -> (r: Result<Frontier, CrawlError>)
    requires
        root.wf(),
    ensures
        root.host is None ==> r == Err::<Frontier, CrawlError>(CrawlError::InvalidInput),
        root.host is Some && recorded ==> r == Err::<Frontier, CrawlError>(
            CrawlError::AlreadyScraped,
        ),
        root.host is Some && !recorded ==> (r matches Ok(f) && f.wf() && f.remaining_set() == set![
            root.text@,
        ] && f.visited_set() == Set::<Seq<char>>::empty() && root.host_view() == Some(f.domain())),
{
    let domain = match &root.host {
        Some(h) => h.clone(),
        None => {
            return Err(CrawlError::InvalidInput);
        },
    };
    if recorded {
        return Err(CrawlError::AlreadyScraped);
    }
    Ok(Frontier::new(root, domain))
}

/// The link records of a finished crawl: one `(url, domain)` pair per URL.
pub fn link_records(domain: &str, urls: &Vec<PageUrl>) -> (r: Vec<(String, String)>)
    ensures
        r@.len() == urls@.len(),
        forall|i: int|
            0 <= i < r@.len() ==> (#[trigger] r@[i]).0@ == urls@[i].text@ && r@[i].1@ == domain@,
{
    let mut r: Vec<(String, String)> = Vec::new();
    let mut i: usize = 0;
    while i < urls.len()
        invariant
            i <= urls@.len(),
            r@.len() == i,
            forall|k: int|
                0 <= k < i ==> (#[trigger] r@[k]).0@ == urls@[k].text@ && r@[k].1@ == domain@,
        decreases urls.len() - i,
    {
        r.push((urls[i].text.clone(), domain.to_owned()));
        i = i + 1;
    }
    r
}

} // verus!
