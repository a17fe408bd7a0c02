//! Document extraction: the href and id attributes of an HTML document, with
//! hrefs classified as relative or external. The HTML parsing itself and the
//! URL classification are outside collaborators; their results are named and
//! everything built on them is verified.
use vstd::prelude::*;

use crate::text::{link_path_of, link_fragment_of, split_link, LinkView};

verus! {

/// The href attribute of every `a[href]` element of the document, in document
/// order. A function of the document text alone.
pub uninterp spec fn hrefs_of(document: Seq<char>) -> Seq<Seq<char>>;

/// The id attribute of every element of the document, in document order.
/// A function of the document text alone.
pub uninterp spec fn ids_of(document: Seq<char>) -> Seq<Seq<char>>;

/// Whether a raw href is a relative link: it does not parse as an absolute
/// URL. A function of the href text alone.
pub uninterp spec fn is_relative_href(href: Seq<char>) -> bool;

/// Relies on scraper's `Html::parse_document`, `Selector::parse` and
/// `Html::select`: collects the `href` attribute of every `a[href]` element,
/// in document order. Parsing is error-tolerant and never fails, and the
/// selector literal is valid, so no input is excluded.
#[verifier::external_body]
fn extract_hrefs(document: &str) -> (r: Vec<String>)
    ensures
        r.deep_view() == hrefs_of(document@),
{
    let html = scraper::Html::parse_document(document);
    let selector = scraper::Selector::parse("a[href]").unwrap();
    let mut out = Vec::new();
    for element in html.select(&selector) {
        if let Some(href) = element.value().attr("href") {
            out.push(href.to_owned());
        }
    }
    out
}

/// Relies on scraper's `Html::parse_document`, `Selector::parse` and
/// `Html::select`: collects the `id` attribute of every `*[id]` element, in
/// document order.
#[verifier::external_body]
fn extract_ids(document: &str) -> (r: Vec<String>)
    ensures
        r.deep_view() == ids_of(document@),
{
    let html = scraper::Html::parse_document(document);
    let selector = scraper::Selector::parse("*[id]").unwrap();
    let mut out = Vec::new();
    for element in html.select(&selector) {
        if let Some(id) = element.value().attr("id") {
            out.push(id.to_owned());
        }
    }
    out
}

/// Relies on url's `Url::parse`: a href is classified relative exactly when
/// parsing it as an absolute URL fails with `RelativeUrlWithoutBase`.
#[verifier::external_body]
fn href_is_relative(href: &str) -> (r: bool)
    ensures
        r == is_relative_href(href@),
{
    matches!(url::Url::parse(href), Err(url::ParseError::RelativeUrlWithoutBase))
}

/// The relevant contents of an HTML document: the link targets it holds,
/// split into relative and external ones, and the element ids it declares.
#[derive(Debug)]
pub struct HtmlInfo {
    pub relative_hrefs: Vec<String>,
    pub external_hrefs: Vec<String>,
    pub ids: Vec<String>,
}

/// The mathematical value of an `HtmlInfo`.
pub struct DocView {
    pub relative_hrefs: Seq<Seq<char>>,
    pub external_hrefs: Seq<Seq<char>>,
    pub ids: Seq<Seq<char>>,
}

impl View for HtmlInfo {
    type V = DocView;

    open spec fn view(&self) -> DocView {
        DocView {
            relative_hrefs: self.relative_hrefs.deep_view(),
            external_hrefs: self.external_hrefs.deep_view(),
            ids: self.ids.deep_view(),
        }
    }
}

impl DeepView for HtmlInfo {
    type V = DocView;

    open spec fn deep_view(&self) -> DocView {
        self.view()
    }
}

/// The hrefs classified relative, in order.
pub open spec fn relative_of(hrefs: Seq<Seq<char>>) -> Seq<Seq<char>>
    decreases hrefs.len(),
{
    if hrefs.len() == 0 {
        Seq::empty()
    } else {
        let prev = relative_of(hrefs.drop_last());
        if is_relative_href(hrefs.last()) {
            prev.push(hrefs.last())
        } else {
            prev
        }
    }
}

/// The hrefs classified external, in order.
pub open spec fn external_of(hrefs: Seq<Seq<char>>) -> Seq<Seq<char>>
    decreases hrefs.len(),
{
    if hrefs.len() == 0 {
        Seq::empty()
    } else {
        let prev = external_of(hrefs.drop_last());
        if is_relative_href(hrefs.last()) {
            prev
        } else {
            prev.push(hrefs.last())
        }
    }
}

/// What parsing a document yields: its hrefs partitioned by classification,
/// and its ids.
pub open spec fn doc_view_of(document: Seq<char>) -> DocView {
    DocView {
        relative_hrefs: relative_of(hrefs_of(document)),
        external_hrefs: external_of(hrefs_of(document)),
        ids: ids_of(document),
    }
}

/// Everything kept as a relative href is classified relative.
pub proof fn lemma_relative_of_all_relative(hrefs: Seq<Seq<char>>)
    ensures
        forall|k: int| 0 <= k < relative_of(hrefs).len() ==> is_relative_href(
            #[trigger] relative_of(hrefs)[k],
        ),
    decreases hrefs.len(),
{
    if hrefs.len() > 0 {
        lemma_relative_of_all_relative(hrefs.drop_last());
        let prev = relative_of(hrefs.drop_last());
        let cur = relative_of(hrefs);
        assert forall|k: int| 0 <= k < cur.len() implies is_relative_href(cur[k]) by {
            if k < prev.len() {
                assert(cur[k] == prev[k]);
            }
        }
    }
}

impl HtmlInfo {
    /// Extracts the hrefs and ids of a document and partitions the hrefs by
    /// whether they parse as an absolute URL, keeping document order.
    pub fn parse(document: &str) -> (r: HtmlInfo)
        ensures
            r@ == doc_view_of(document@),
    {
        let hrefs = extract_hrefs(document);
        let mut relative_hrefs: Vec<String> = Vec::new();
        let mut external_hrefs: Vec<String> = Vec::new();
        let mut i: usize = 0;
        while i < hrefs.len()
            invariant
                i <= hrefs.len(),
                hrefs.deep_view() == hrefs_of(document@),
                relative_hrefs.deep_view() == relative_of(hrefs.deep_view().take(i as int)),
                external_hrefs.deep_view() == external_of(hrefs.deep_view().take(i as int)),
            decreases hrefs.len() - i,
        {
            let ghost rel_pre = relative_hrefs.deep_view();
            let ghost ext_pre = external_hrefs.deep_view();
            let href = &hrefs[i];
            proof {
                assert(hrefs.deep_view().take(i + 1).drop_last() =~= hrefs.deep_view().take(
                    i as int,
                ));
                assert(hrefs.deep_view().take(i + 1).last() == hrefs.deep_view()[i as int]);
                assert(href@ == hrefs.deep_view()[i as int]);
            }
            if href_is_relative(href.as_str()) {
                relative_hrefs.push(href.clone());
                proof {
                    assert(relative_hrefs.deep_view() =~= rel_pre.push(
                        hrefs.deep_view()[i as int],
                    ));
                }
            } else {
                external_hrefs.push(href.clone());
                proof {
                    assert(external_hrefs.deep_view() =~= ext_pre.push(
                        hrefs.deep_view()[i as int],
                    ));
                }
            }
            i = i + 1;
        }
        proof {
            assert(hrefs.deep_view().take(hrefs.deep_view().len() as int) =~= hrefs.deep_view());
        }
        let ids = extract_ids(document);
        HtmlInfo { relative_hrefs, external_hrefs, ids }
    }
}

/// A link split from a raw path-like string: its path part and its optional
/// fragment.
#[derive(Debug)]
pub struct RelativeLink {
    pub path: String,
    pub fragment: Option<String>,
}

impl View for RelativeLink {
    type V = LinkView;

    open spec fn view(&self) -> LinkView {
        LinkView { path: self.path@, fragment: self.fragment.deep_view() }
    }
}

impl DeepView for RelativeLink {
    type V = LinkView;

    open spec fn deep_view(&self) -> LinkView {
        self.view()
    }
}

impl RelativeLink {
    /// Splits a raw link at its first `#`; a missing or empty fragment is
    /// `None`.
    pub fn new(path: &str) -> (r: RelativeLink)
        ensures
            r@.path == link_path_of(path@),
            r@.fragment == link_fragment_of(path@),
    {
        let (p, fragment) = split_link(path);
        RelativeLink { path: p, fragment }
    }
}

} // verus!
