use linkcheck::cache::FileCache;
use linkcheck::html::RelativeLink;
use linkcheck::tree::{HtmlFiles, HtmlFileLink};

fn corpus(entries: &[(&str, &str)]) -> HtmlFiles {
    HtmlFiles::new(
        entries
            .iter()
            .map(|(path, text)| (path.to_string(), text.to_string()))
            .collect(),
    )
}

#[test]
fn test_html_files_contains() {
    let files = corpus(&[
        ("foo", "<a href=\"foo\" id=\"foo\">"),
        ("/bar", "<a href=\"/bar\" id=\"bar\">"),
        ("/baz/index.html", "<a href=\"/baz\" id=\"baz\">"),
    ]);
    assert!(files.contains(&HtmlFileLink::new("foo")));
    assert!(!files.contains(&HtmlFileLink::new("foooo")));
    assert!(files.contains(&HtmlFileLink::new("foo#foo")));
    assert!(files.contains(&HtmlFileLink::new("/bar")));
    assert!(files.contains(&HtmlFileLink::new("/bar#bar")));
    assert!(!files.contains(&HtmlFileLink::new("bar")));
    assert!(files.contains(&HtmlFileLink::new("/baz")));
    assert!(files.contains(&HtmlFileLink::new("/baz#baz")));
    assert!(files.contains(&HtmlFileLink::new("/baz/")));
    assert!(files.contains(&HtmlFileLink::new("/baz/#baz")));
    assert!(files.contains(&HtmlFileLink::new("/baz/index.html#baz")));
    assert!(files.contains(&HtmlFileLink::new("/baz/index.html#baz")));
}

#[test]
fn test_contains_missing_fragment() {
    let files = corpus(&[("foo", "<a href=\"foo\" id=\"foo\">")]);
    assert!(files.contains(&HtmlFileLink::new("foo")));
    assert!(!files.contains(&HtmlFileLink::new("foo#missing")));
}

#[test]
fn test_missing_link_reported_once() {
    let files = corpus(&[("a/b.html", "<a href=\"../c.html\">broken</a>")]);
    let missing = files.missing_file_links();
    let hits: Vec<_> = missing
        .iter()
        .filter(|link| link.path == "c.html" && link.fragment.is_none())
        .collect();
    assert_eq!(hits.len(), 1);
    assert_eq!(missing.len(), 1);
}

#[test]
fn test_missing_links_resolve_against_document_directory() {
    let files = corpus(&[
        ("docs/index.html", "<a href=\"ch01.html\">ok</a><a href=\"ch02.html\">bad</a>"),
        ("docs/ch01.html", "<div id=\"top\"></div>"),
    ]);
    let missing = files.missing_file_links();
    assert_eq!(missing.len(), 1);
    assert_eq!(missing[0].path, "docs/ch02.html");
    assert_eq!(missing[0].fragment, None);
}

#[test]
fn test_missing_fragment_is_a_missing_link() {
    let files = corpus(&[
        ("a.html", "<a href=\"b.html#there\">ok</a><a href=\"b.html#nowhere\">bad</a>"),
        ("b.html", "<span id=\"there\"></span>"),
    ]);
    let missing = files.missing_file_links();
    assert_eq!(missing.len(), 1);
    assert_eq!(missing[0].path, "b.html");
    assert_eq!(missing[0].fragment, Some("nowhere".to_string()));
}

#[test]
fn test_missing_links_deterministic() {
    let files = corpus(&[
        ("a/b.html", "<a href=\"../c.html\">x</a><a href=\"d.html#frag\">y</a>"),
        ("a/d.html", "<div id=\"other\"></div>"),
    ]);
    let first = files.missing_file_links();
    let second = files.missing_file_links();
    assert_eq!(first.len(), second.len());
    for (a, b) in first.iter().zip(second.iter()) {
        assert_eq!(a.path, b.path);
        assert_eq!(a.fragment, b.fragment);
    }
}

#[test]
fn test_external_hrefs_never_reported() {
    let files = corpus(&[(
        "x.html",
        "<a href=\"https://example.invalid/nowhere\">external</a>\
         <a href=\"mailto:nobody@example.invalid\">mail</a>",
    )]);
    assert!(files.missing_file_links().is_empty());
}

#[test]
fn test_last_entry_wins_on_colliding_paths() {
    let files = corpus(&[
        ("p.html", "<div id=\"old\"></div>"),
        ("p.html", "<div id=\"new\"></div>"),
    ]);
    assert!(files.contains(&HtmlFileLink::new("p.html#new")));
    assert!(!files.contains(&HtmlFileLink::new("p.html#old")));
}

#[test]
fn test_file_cache_matches_html_files() {
    let documents = vec![
        ("a/b.html".to_string(), "<a href=\"../c.html\">x</a>".to_string()),
        ("d.html".to_string(), "<a href=\"a/b.html\">y</a>".to_string()),
    ];
    let cache = FileCache::build(documents);
    assert!(cache.contains(&RelativeLink::new("d.html")));
    assert!(!cache.contains(&RelativeLink::new("c.html")));
    let missing = cache.uncached_file_links();
    assert_eq!(missing.len(), 1);
    assert_eq!(missing[0].path, "c.html");
    assert_eq!(missing[0].fragment, None);
}

#[test]
fn test_absolute_style_href_resolves_from_root() {
    let files = corpus(&[
        ("deep/nested/page.html", "<a href=\"/top.html\">up</a>"),
        ("top.html", "<div></div>"),
    ]);
    assert!(files.missing_file_links().is_empty());
}
