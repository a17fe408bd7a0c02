use linkcheck::html::HtmlInfo;
use linkcheck::tree::HtmlFileLink;

#[test]
fn test_parse() {
    let html_info = HtmlInfo::parse(
        "
<div id=\"main\">
    <a href=\"adjacent_file.txt\">a</a>
    <a href=\"/relative/file.txt\">b</a>
    <a id=\"url\" href=\"https://www.google.com\">c</a>
    <div id=\"sub\" />
</div>",
    );
    assert_eq!(
        html_info.relative_hrefs,
        vec!["adjacent_file.txt".to_string(), "/relative/file.txt".to_string()]
    );
    assert_eq!(html_info.external_hrefs, vec!["https://www.google.com".to_string()]);
    assert_eq!(
        html_info.ids,
        vec!["main".to_string(), "url".to_string(), "sub".to_string()]
    );
}

fn assert_link_eq(href: &str, path: &str, fragment: Option<&str>) {
    let link = HtmlFileLink::new(href);
    assert_eq!(link.path, path);
    assert_eq!(link.fragment, fragment.map(|f| f.to_string()));
}

#[test]
fn test_html_file_link_new() {
    assert_link_eq("foo", "foo", None);
    assert_link_eq("foo/bar", "foo/bar", None);
    assert_link_eq("/foo/bar", "/foo/bar", None);
    assert_link_eq("foo#bar", "foo", Some("bar"));
    assert_link_eq("foo#bar#baz", "foo", Some("bar#baz"));
    assert_link_eq("foo#", "foo", None);
    assert_link_eq("#foo", "", Some("foo"));
    assert_link_eq("#", "", None);
    assert_link_eq("", "", None);
}

#[test]
fn test_relative_link_new() {
    let link = linkcheck::html::RelativeLink::new("guide/ch02.html#setup");
    assert_eq!(link.path, "guide/ch02.html");
    assert_eq!(link.fragment, Some("setup".to_string()));
    let bare = linkcheck::html::RelativeLink::new("guide/ch02.html");
    assert_eq!(bare.path, "guide/ch02.html");
    assert_eq!(bare.fragment, None);
}

#[test]
fn test_parse_empty_document() {
    let info = HtmlInfo::parse("");
    assert!(info.relative_hrefs.is_empty());
    assert!(info.external_hrefs.is_empty());
}

#[test]
fn test_parse_keeps_document_order() {
    let info = HtmlInfo::parse(
        "<a href=\"one.html\">1</a><a href=\"https://example.com\">2</a>\
         <a href=\"two.html\">3</a><a href=\"mailto:a@b.c\">4</a>",
    );
    assert_eq!(
        info.relative_hrefs,
        vec!["one.html".to_string(), "two.html".to_string()]
    );
    assert_eq!(
        info.external_hrefs,
        vec!["https://example.com".to_string(), "mailto:a@b.c".to_string()]
    );
}
