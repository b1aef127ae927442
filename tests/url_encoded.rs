use crowley::page_url::PageUrl;
use crowley::url_encoded::UrlEncoded;

#[test]
fn url_encoded_parse() {
    let cases = [
        ("http%3A%2F%2Flocalhost%3A8080%2F", "http://localhost:8080/"),
        ("String%20with%20spaces", "String with spaces"),
        (
            "https%3A%2F%2Fgithub.com%2Flaunchbadge%2Fsqlx%2Fissues%2F294",
            "https://github.com/launchbadge/sqlx/issues/294",
        ),
    ];
    for (encoded, decoded) in cases {
        let u: UrlEncoded<String> = encoded.parse().unwrap();
        assert_eq!(u.into_inner(), decoded);
    }
}

#[test]
fn url_encoded_plain_text_unchanged() {
    let u = UrlEncoded::<String>::decode("plain+text").unwrap();
    assert_eq!(u.into_inner(), "plain+text");
}

#[test]
fn url_encoded_rejects_invalid_utf8() {
    assert!(UrlEncoded::<String>::decode("%FF%FE").is_none());
}

#[test]
fn url_encoded_page_url() {
    let u: UrlEncoded<PageUrl> = "http%3A%2F%2Flocalhost%3A8080%2F".parse().unwrap();
    let u = u.into_inner();
    assert_eq!(u.as_str(), "http://localhost:8080/");
    assert_eq!(u.host(), Some("localhost"));
    assert!(UrlEncoded::<PageUrl>::decode("not%20a%20url").is_none());
}

#[test]
fn url_encoded_from_str_errors() {
    let r: Result<UrlEncoded<String>, _> = "%FF".parse();
    assert_eq!(r.unwrap_err(), crowley::error::CrawlError::InvalidInput);
    let r: Result<UrlEncoded<PageUrl>, _> = "not%20a%20url".parse();
    assert_eq!(r.unwrap_err(), crowley::error::CrawlError::InvalidInput);
}
