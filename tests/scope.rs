use crowley::page_url::{in_scope, PageUrl};

fn url(s: &str) -> PageUrl {
    PageUrl::parse(s).unwrap()
}

#[test]
fn in_scope_matches_exact_host() {
    assert!(in_scope(&url("http://www.domain.com/whatever"), "www.domain.com"));
    assert!(in_scope(&url("https://www.domain.com/"), "www.domain.com"));
}

#[test]
fn in_scope_rejects_subdomains_and_other_hosts() {
    assert!(!in_scope(&url("http://sub.www.domain.com/"), "www.domain.com"));
    assert!(!in_scope(&url("http://domain.com/"), "www.domain.com"));
    assert!(!in_scope(&url("http://www.domain.com.evil.org/"), "www.domain.com"));
}

#[test]
fn in_scope_rejects_urls_without_host() {
    assert!(!in_scope(&url("mailto:someone@www.domain.com"), "www.domain.com"));
}

#[test]
fn parse_reads_parts() {
    let u = url("http://localhost:8080/something/test.html?q=1");
    assert_eq!(u.as_str(), "http://localhost:8080/something/test.html?q=1");
    assert_eq!(u.host(), Some("localhost"));
    assert_eq!(u.path, "/something/test.html");
    assert!(PageUrl::parse("#").is_none());
    assert!(PageUrl::parse("/link").is_none());
}

#[test]
fn with_path_replaces_path_only() {
    let u = url("http://www.domain.com/here?x=1");
    let v = u.with_path("here/link").unwrap();
    assert_eq!(v.as_str(), "http://www.domain.com/here/link?x=1");
    assert_eq!(v.path, "/here/link");
    assert_eq!(v.host(), Some("www.domain.com"));
}

#[test]
fn with_path_percent_encodes_path() {
    let u = url("http://www.domain.com/");
    let v = u.with_path("a b").unwrap();
    assert_eq!(v.as_str(), "http://www.domain.com/a%20b");
}
