use crowley::extract::{links_from_hrefs, scrape_document};
use crowley::page_url::PageUrl;
use std::collections::HashSet;

const EXAMPLE_DOCUMENT: &str = r##"<!DOCTYPE html>
<html>
<body>

<h1>My First Heading</h1>

<p>My first paragraph.</p>
<div class="whatever">
    <a href="#">Empty link</a>
    <a href="/link">Relative link</a>
    <a href="http://www.domain.com/whatever">Absolute link</a>
</div>

</body>
</html>
"##;

fn text_set(v: &[PageUrl]) -> HashSet<String> {
    v.iter().map(|u| u.as_str().to_string()).collect()
}

#[test]
fn scrape_document_returns() {
    let base_url = PageUrl::parse("http://www.domain.com/here").unwrap();
    let scraped_urls = scrape_document(&base_url, EXAMPLE_DOCUMENT, "www.domain.com").unwrap();

    let expected: HashSet<String> = [
        "http://www.domain.com/whatever".to_string(),
        "http://www.domain.com/here/link".to_string(),
    ]
    .into_iter()
    .collect();

    assert_eq!(expected, text_set(&scraped_urls));
    assert_eq!(scraped_urls.len(), 2);
}

#[test]
fn scrape_document_drops_other_domains_and_duplicates() {
    let base = PageUrl::parse("http://www.domain.com/").unwrap();
    let doc = r#"<html><body>
        <a href="/a">a</a>
        <a href="/a">a again</a>
        <a href="http://www.domain.com/a">a absolute</a>
        <a href="http://other.com/b">other</a>
        <a href="https://sub.www.domain.com/c">subdomain</a>
        <a href="mailto:x@www.domain.com">mail</a>
        <a href="javascript:void(0)">js</a>
        <a>no href</a>
    </body></html>"#;
    let links = scrape_document(&base, doc, "www.domain.com").unwrap();
    assert_eq!(links.len(), 1);
    assert_eq!(links[0].as_str(), "http://www.domain.com/a");
}

#[test]
fn scrape_document_without_anchors_is_empty() {
    let base = PageUrl::parse("http://www.domain.com/").unwrap();
    let links = scrape_document(&base, "<p>nothing here</p>", "www.domain.com").unwrap();
    assert!(links.is_empty());
}

#[test]
fn links_from_hrefs_resolves_each_kind() {
    let base = PageUrl::parse("http://localhost:8080/something").unwrap();
    let hrefs = vec![
        Some("/test.html".to_string()),
        None,
        Some("#".to_string()),
        Some("http://localhost:8080/".to_string()),
        Some("/../x".to_string()),
    ];
    let links = links_from_hrefs(&base, &hrefs, "localhost");
    let expected: HashSet<String> = [
        "http://localhost:8080/something/test.html".to_string(),
        "http://localhost:8080/".to_string(),
        "http://localhost:8080/x".to_string(),
    ]
    .into_iter()
    .collect();
    assert_eq!(text_set(&links), expected);
    assert_eq!(links.len(), 3);
}
