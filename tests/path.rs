use crowley::path::{resolve_path, split_segments};

#[test]
fn resolve_path_returns() {
    assert_eq!(resolve_path("here", "there"), "here/there");
    assert_eq!(resolve_path("here/and_here", "there"), "here/and_here/there");
    assert_eq!(resolve_path("here/and_there/", "there"), "here/and_there/there");
    assert_eq!(resolve_path("here/and_there", "there/and_here"), "here/and_there/there/and_here");
    assert_eq!(resolve_path("here/and_there", "../and_back/and_here"), "here/and_back/and_here");
    assert_eq!(resolve_path("here/and_there", "../and_back/../and_other_here"), "here/and_other_here");
}

#[test]
fn resolve_path_without_relative_segments_keeps_base() {
    assert_eq!(resolve_path("/here/and_there/", ""), "/here/and_there/");
    assert_eq!(resolve_path("//odd//base", "///"), "//odd//base");
    assert_eq!(resolve_path("", "/"), "");
}

#[test]
fn resolve_path_normalises_slashes() {
    assert_eq!(resolve_path("/here/", "/link"), "here/link");
    assert_eq!(resolve_path("/", "/page_1.html"), "page_1.html");
    assert_eq!(resolve_path("/something", "/test.html"), "something/test.html");
}

#[test]
fn resolve_path_parent_of_root_stays_at_root() {
    assert_eq!(resolve_path("", "../x"), "x");
    assert_eq!(resolve_path("a", "../../b"), "b");
    assert_eq!(resolve_path("a/b", ".."), "a");
}

#[test]
fn split_segments_drops_empty_pieces() {
    assert_eq!(split_segments("/a//b/"), vec!["a".to_string(), "b".to_string()]);
    assert!(split_segments("///").is_empty());
    assert_eq!(split_segments("é/ü"), vec!["é".to_string(), "ü".to_string()]);
}
