use crowley::coordinator::{begin_crawl, crawl_domain, link_records};
use crowley::error::CrawlError;
use crowley::extract::scrape_document;
use crowley::fetch::is_html;
use crowley::frontier::{Frontier, BATCH_SIZE};
use crowley::page_url::PageUrl;
use std::collections::HashSet;

fn url(s: &str) -> PageUrl {
    PageUrl::parse(s).unwrap()
}

fn text_set(v: &[PageUrl]) -> HashSet<String> {
    v.iter().map(|u| u.as_str().to_string()).collect()
}

/// A small site held in memory: each page's content type and body.
fn fixture_page(u: &str) -> Option<(&'static str, &'static str)> {
    match u {
        "http://localhost:8080/" => Some((
            "text/html",
            r#"<html><body><a href="/page_1.html">1</a><a href="/page_2.html">2</a>
               <a href="/something">s</a><a href="http://elsewhere.org/">x</a></body></html>"#,
        )),
        "http://localhost:8080/page_1.html" => Some(("text/html", "<p>one</p><a href=\"http://localhost:8080/\">home</a>")),
        "http://localhost:8080/page_2.html" => Some(("text/html; charset=utf-8", "<p>two</p>")),
        "http://localhost:8080/something" => Some(("text/html", "<a href=\"/test.html\">t</a>")),
        "http://localhost:8080/something/test.html" => Some(("text/plain", "<a href=\"/never\">n</a>")),
        _ => None,
    }
}

fn fetch_fixture(u: &PageUrl, domain: &str) -> Result<Vec<PageUrl>, CrawlError> {
    match fixture_page(u.as_str()) {
        Some((ct, body)) => {
            if is_html(Some(ct)) {
                scrape_document(u, body, domain)
            } else {
                Ok(Vec::new())
            }
        }
        None => Err(CrawlError::FetchError),
    }
}

fn crawl_fixture(root: &str, recorded: bool) -> Result<(String, Vec<PageUrl>), CrawlError> {
    let root = url(root);
    let domain = crawl_domain(&root)?;
    let mut frontier = begin_crawl(root, recorded)?;
    assert_eq!(frontier.domain_name(), domain);
    loop {
        let batch = frontier.take_batch(BATCH_SIZE);
        if batch.is_empty() {
            break;
        }
        let results: Vec<_> = batch.iter().map(|u| fetch_fixture(u, &domain)).collect();
        frontier.absorb(results)?;
    }
    Ok((domain, frontier.into_visited()))
}

#[test]
fn crawl_fixture_site_finds_five_pages() {
    let (domain, visited) = crawl_fixture("http://localhost:8080/", false).unwrap();
    assert_eq!(domain, "localhost");
    assert_eq!(visited.len(), 5);
    let expected: HashSet<String> = [
        "http://localhost:8080/",
        "http://localhost:8080/page_2.html",
        "http://localhost:8080/page_1.html",
        "http://localhost:8080/something/test.html",
        "http://localhost:8080/something",
    ]
    .iter()
    .map(|s| s.to_string())
    .collect();
    assert_eq!(text_set(&visited), expected);
    let records = link_records(&domain, &visited);
    assert_eq!(records.len(), 5);
    assert!(records.iter().all(|(_, d)| d == "localhost"));
}

#[test]
fn crawl_of_recorded_domain_is_refused() {
    assert_eq!(crawl_fixture("http://localhost:8080/", true).unwrap_err(), CrawlError::AlreadyScraped);
    assert!(matches!(begin_crawl(url("http://localhost:8080/"), true), Err(CrawlError::AlreadyScraped)));
}

#[test]
fn crawl_without_host_is_invalid() {
    let root = url("mailto:someone@example.com");
    assert_eq!(crawl_domain(&root).unwrap_err(), CrawlError::InvalidInput);
    assert!(matches!(begin_crawl(root, false), Err(CrawlError::InvalidInput)));
}

#[test]
fn crawl_fails_on_unreachable_page() {
    let r = crawl_fixture("http://localhost:8080/missing", false);
    assert_eq!(r.unwrap_err(), CrawlError::FetchError);
}

#[test]
fn take_batch_is_bounded_and_marks_visited() {
    let mut f = Frontier::new(url("http://d.org/"), "d.org".to_string());
    let found: Vec<PageUrl> = (0..300).map(|i| url(&format!("http://d.org/p{}", i))).collect();
    let first = f.take_batch(BATCH_SIZE);
    assert_eq!(first.len(), 1);
    f.merge(&found);
    f.merge(&found);
    let b1 = f.take_batch(BATCH_SIZE);
    assert_eq!(b1.len(), 128);
    let b2 = f.take_batch(BATCH_SIZE);
    assert_eq!(b2.len(), 128);
    let b3 = f.take_batch(BATCH_SIZE);
    assert_eq!(b3.len(), 44);
    assert!(f.is_done());
    assert!(f.take_batch(BATCH_SIZE).is_empty());
    let all: HashSet<String> = text_set(&b1).union(&text_set(&b2)).cloned().collect();
    assert_eq!(all.len(), 256);
    assert_eq!(f.into_visited().len(), 301);
}

#[test]
fn merge_skips_visited_urls() {
    let mut f = Frontier::new(url("http://d.org/"), "d.org".to_string());
    let _ = f.take_batch(1);
    f.merge(&vec![url("http://d.org/"), url("http://d.org/a")]);
    let b = f.take_batch(10);
    assert_eq!(text_set(&b), ["http://d.org/a".to_string()].into_iter().collect());
    assert!(f.is_done());
}

#[test]
fn absorb_full_batch_merges_all_links() {
    let mut f = Frontier::new(url("http://d.org/"), "d.org".to_string());
    let _ = f.take_batch(BATCH_SIZE);
    let results = vec![
        Ok(vec![url("http://d.org/a"), url("http://d.org/b")]),
        Ok(vec![url("http://d.org/b"), url("http://d.org/c")]),
    ];
    assert_eq!(f.absorb(results), Ok(()));
    assert_eq!(f.take_batch(BATCH_SIZE).len(), 3);
}

#[test]
fn absorb_batch_with_failure_returns_first_error() {
    let mut f = Frontier::new(url("http://d.org/"), "d.org".to_string());
    let _ = f.take_batch(BATCH_SIZE);
    let results = vec![
        Ok(vec![url("http://d.org/a")]),
        Err(CrawlError::FetchError),
        Err(CrawlError::ExtractionError),
    ];
    assert_eq!(f.absorb(results), Err(CrawlError::FetchError));
}
