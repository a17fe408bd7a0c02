use linkcheck::paths::{normalize_path, has_html_extension};

#[test]
fn test_normalize_basic() {
    assert_eq!(normalize_path("a/./b/../c"), normalize_path("a/c"));
    assert_eq!(normalize_path("a/c"), "a/c");
    assert_eq!(normalize_path("../../x"), normalize_path("x"));
    assert_eq!(normalize_path("x"), "x");
    assert_eq!(normalize_path(""), "");
}

#[test]
fn test_normalize_edges() {
    assert_eq!(normalize_path("a/../../b"), "b");
    assert_eq!(normalize_path("./a"), "a");
    assert_eq!(normalize_path("/about.html"), "about.html");
    assert_eq!(normalize_path("a//b"), "a/b");
    assert_eq!(normalize_path("a/b/"), "a/b");
    assert_eq!(normalize_path("/.."), "");
    assert_eq!(normalize_path("."), "");
}

#[test]
fn test_normalize_idempotent_samples() {
    for p in [
        "a/./b/../c",
        "../../x",
        "",
        "/foo//bar/./baz/../qux",
        "a/b/c/../../d",
        "./../.",
    ] {
        let once = normalize_path(p);
        let twice = normalize_path(&once);
        assert_eq!(once, twice);
    }
}

#[test]
fn test_has_html_extension() {
    assert!(has_html_extension("index.html"));
    assert!(has_html_extension("docs/a/b.html"));
    assert!(!has_html_extension("style.css"));
    assert!(!has_html_extension("archive.tar.gz"));
    assert!(has_html_extension("archive.tar.html"));
    assert!(!has_html_extension(".html"));
    assert!(!has_html_extension("docs/.html"));
    assert!(!has_html_extension("html"));
    assert!(!has_html_extension("page.html/"));
    assert!(!has_html_extension(""));
}
