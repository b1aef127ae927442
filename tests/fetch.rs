use crowley::fetch::{contains_text_piece, is_html};

#[test]
fn is_html_reads_content_type() {
    assert!(is_html(Some("text/html")));
    assert!(is_html(Some("text/html; charset=utf-8")));
    assert!(!is_html(Some("application/json")));
    assert!(!is_html(Some("text/htm")));
    assert!(!is_html(Some("")));
    assert!(!is_html(None));
}

#[test]
fn contains_text_piece_finds_pieces() {
    assert!(contains_text_piece("abc", ""));
    assert!(contains_text_piece("abc", "abc"));
    assert!(contains_text_piece("xxabcxx", "bc"));
    assert!(!contains_text_piece("ab", "abc"));
    assert!(!contains_text_piece("aXbXc", "abc"));
}
