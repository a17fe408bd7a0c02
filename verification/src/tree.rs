//! The corpus index and the resolver: a mapping from each indexed document's
//! relative path to its extracted contents, a containment check with
//! directory-index fallback and fragment validation, and the enumeration of
//! links that resolve nowhere inside the corpus.
use vstd::prelude::*;

use crate::html::{HtmlInfo, DocView, doc_view_of, is_relative_href, lemma_relative_of_all_relative};
use crate::text::{link_path_of, link_fragment_of, split_link, LinkView};
use crate::paths::{normalize_spec, normalize_path, parent_of, parent_dir, join_href, join_path};

verus! {

/// A link to an HTML file, with optional fragment.
#[derive(Debug, PartialEq, Eq)]
pub struct HtmlFileLink {
    pub path: String,
    pub fragment: Option<String>,
}

impl View for HtmlFileLink {
    type V = LinkView;

    open spec fn view(&self) -> LinkView {
        LinkView { path: self.path@, fragment: self.fragment.deep_view() }
    }
}

impl DeepView for HtmlFileLink {
    type V = LinkView;

    open spec fn deep_view(&self) -> LinkView {
        self.view()
    }
}

impl HtmlFileLink {
    /// Splits a raw link at its first `#`; a missing or empty fragment is
    /// `None`.
    pub fn new(path: &str) -> (r: HtmlFileLink)
        ensures
            r@.path == link_path_of(path@),
            r@.fragment == link_fragment_of(path@),
    {
        let (p, fragment) = split_link(path);
        HtmlFileLink { path: p, fragment }
    }
}

/// The document stored under the first entry whose key is `key`, scanning in
/// entry order.
pub open spec fn lookup(entries: Seq<(Seq<char>, DocView)>, key: Seq<char>) -> Option<DocView>
    decreases entries.len(),
{
    if entries.len() == 0 {
        None
    } else if entries[0].0 == key {
        Some(entries[0].1)
    } else {
        lookup(entries.drop_first(), key)
    }
}

/// The position of the first entry whose key is `key`, if any.
pub open spec fn first_key_index(entries: Seq<(Seq<char>, DocView)>, key: Seq<char>) -> Option<
    int,
>
    decreases entries.len(),
{
    if entries.len() == 0 {
        None
    } else if entries[0].0 == key {
        Some(0int)
    } else {
        match first_key_index(entries.drop_first(), key) {
            None => None,
            Some(i) => Some(i + 1),
        }
    }
}

/// `first_key_index` names the least position whose key is `key`.
pub proof fn lemma_first_key_index(entries: Seq<(Seq<char>, DocView)>, key: Seq<char>)
    ensures
        match first_key_index(entries, key) {
            Some(i) => 0 <= i < entries.len() && entries[i].0 == key && (forall|j: int|
                0 <= j < i ==> entries[j].0 != key),
            None => forall|j: int| 0 <= j < entries.len() ==> entries[j].0 != key,
        },
    decreases entries.len(),
{
    if entries.len() > 0 && entries[0].0 != key {
        let sub = entries.drop_first();
        lemma_first_key_index(sub, key);
        match first_key_index(sub, key) {
            Some(i) => {
                assert forall|j: int| 0 <= j < i + 1 implies entries[j].0 != key by {
                    if j >= 1 {
                        assert(sub[j - 1] == entries[j]);
                    }
                }
            },
            None => {
                assert forall|j: int| 0 <= j < entries.len() implies entries[j].0 != key by {
                    if j >= 1 {
                        assert(sub[j - 1] == entries[j]);
                    }
                }
            },
        }
    }
}

/// One entry per key: an insert for a key already present replaces that
/// entry's document, any other insert appends a new entry.
pub open spec fn insert_entry(
    entries: Seq<(Seq<char>, DocView)>,
    key: Seq<char>,
    doc: DocView,
) -> Seq<(Seq<char>, DocView)> {
    match first_key_index(entries, key) {
        None => entries.push((key, doc)),
        Some(i) => entries.update(i, (key, doc)),
    }
}

/// The index built from a list of already-read documents, in list order.
pub open spec fn build_spec(docs: Seq<(Seq<char>, Seq<char>)>) -> Seq<(Seq<char>, DocView)>
    decreases docs.len(),
{
    if docs.len() == 0 {
        Seq::empty()
    } else {
        insert_entry(build_spec(docs.drop_last()), docs.last().0, doc_view_of(docs.last().1))
    }
}

/// The path a directory-style link falls back to: the directory's index file.
pub open spec fn with_index_file(path: Seq<char>) -> Seq<char> {
    if path.len() == 0 {
        "index.html"@
    } else if path.last() == '/' {
        path + "index.html"@
    } else {
        path + seq!['/'] + "index.html"@
    }
}

/// Whether a link resolves inside the index: its path is a key, or falls back
/// to the directory's index file; a fragment, when present, must be among the
/// ids of the document the path resolved to.
pub open spec fn contains_spec(entries: Seq<(Seq<char>, DocView)>, link: LinkView) -> bool {
    let found = match lookup(entries, link.path) {
        Some(doc) => Some(doc),
        None => lookup(entries, with_index_file(link.path)),
    };
    match found {
        None => false,
        Some(doc) => match link.fragment {
            None => true,
            Some(fragment) => doc.ids.contains(fragment),
        },
    }
}

/// Well-formedness of an index: keys are unique, and every stored relative
/// href was classified relative.
pub open spec fn wf_entries(entries: Seq<(Seq<char>, DocView)>) -> bool {
    (forall|a: int, b: int| 0 <= a < b < entries.len() ==> entries[a].0 != entries[b].0)
        && (forall|a: int, j: int|
        0 <= a < entries.len() && 0 <= j < entries[a].1.relative_hrefs.len()
            ==> is_relative_href(#[trigger] entries[a].1.relative_hrefs[j]))
}

/// Inserting a document whose relative hrefs were all classified relative
/// keeps the index well-formed.
pub proof fn lemma_insert_preserves_wf(
    entries: Seq<(Seq<char>, DocView)>,
    key: Seq<char>,
    doc: DocView,
)
    requires
        wf_entries(entries),
        forall|j: int| 0 <= j < doc.relative_hrefs.len() ==> is_relative_href(
            #[trigger] doc.relative_hrefs[j],
        ),
    ensures
        wf_entries(insert_entry(entries, key, doc)),
{
    lemma_first_key_index(entries, key);
    let cur = insert_entry(entries, key, doc);
    match first_key_index(entries, key) {
        None => {
            assert forall|a: int, b: int| 0 <= a < b < cur.len() implies cur[a].0 != cur[b].0 by {
                if b < entries.len() {
                    assert(cur[a] == entries[a] && cur[b] == entries[b]);
                } else {
                    assert(cur[a] == entries[a] && cur[b] == (key, doc));
                    assert(entries[a].0 != key);
                }
            }
            assert forall|a: int, j: int|
                0 <= a < cur.len() && 0 <= j < cur[a].1.relative_hrefs.len() implies is_relative_href(
                cur[a].1.relative_hrefs[j],
            ) by {
                if a < entries.len() {
                    assert(cur[a] == entries[a]);
                } else {
                    assert(cur[a] == (key, doc));
                }
            }
        },
        Some(i) => {
            assert(entries[i].0 == key);
            assert forall|x: int| 0 <= x < cur.len() implies cur[x].0 == entries[x].0 by {
                if x != i {
                    assert(cur[x] == entries[x]);
                }
            }
            assert forall|a: int, b: int| 0 <= a < b < cur.len() implies cur[a].0 != cur[b].0 by {
                assert(cur[a].0 == entries[a].0 && cur[b].0 == entries[b].0);
            }
            assert forall|a: int, j: int|
                0 <= a < cur.len() && 0 <= j < cur[a].1.relative_hrefs.len() implies is_relative_href(
                cur[a].1.relative_hrefs[j],
            ) by {
                if a != i {
                    assert(cur[a] == entries[a]);
                } else {
                    assert(cur[a] == (key, doc));
                }
            }
        },
    }
}

/// The target a raw href resolves to from a document at `doc_path`: the href
/// joined against the document's directory, normalized, and split into a path
/// and an optional fragment.
pub open spec fn resolved_link(doc_path: Seq<char>, href: Seq<char>) -> LinkView {
    let target = normalize_spec(join_href(parent_of(doc_path), href));
    LinkView { path: link_path_of(target), fragment: link_fragment_of(target) }
}

/// The links among a document's hrefs that do not resolve inside the index,
/// in href order.
pub open spec fn doc_missing_links(
    entries: Seq<(Seq<char>, DocView)>,
    doc_path: Seq<char>,
    hrefs: Seq<Seq<char>>,
) -> Seq<LinkView>
    decreases hrefs.len(),
{
    if hrefs.len() == 0 {
        Seq::empty()
    } else {
        let prev = doc_missing_links(entries, doc_path, hrefs.drop_last());
        let link = resolved_link(doc_path, hrefs.last());
        if contains_spec(entries, link) {
            prev
        } else {
            prev.push(link)
        }
    }
}

/// The missing links of the first `n` indexed documents, in entry order.
pub open spec fn missing_upto(entries: Seq<(Seq<char>, DocView)>, n: int) -> Seq<LinkView>
    decreases n,
{
    if n <= 0 {
        Seq::empty()
    } else {
        missing_upto(entries, n - 1) + doc_missing_links(
            entries,
            entries[n - 1].0,
            entries[n - 1].1.relative_hrefs,
        )
    }
}

/// Every relative href of every indexed document whose resolved target is
/// absent from the index, one link per failing href.
pub open spec fn missing_links_spec(entries: Seq<(Seq<char>, DocView)>) -> Seq<LinkView> {
    missing_upto(entries, entries.len() as int)
}

/// The corpus index: each indexed HTML document's extracted contents, keyed
/// by its path relative to the scanned root.
#[derive(Debug)]
pub struct HtmlFiles {
    entries: Vec<(String, HtmlInfo)>,
}

impl View for HtmlFiles {
    type V = Seq<(Seq<char>, DocView)>;

    closed spec fn view(&self) -> Seq<(Seq<char>, DocView)> {
        self.entries.deep_view()
    }
}

impl HtmlFiles {
    /// Keys are unique and stored relative hrefs were classified relative.
    pub open spec fn wf(self) -> bool {
        wf_entries(self@)
    }

    /// Builds the index from already-read documents: each `(path, text)` pair
    /// is parsed and inserted in order, a repeated path replacing the earlier
    /// entry.
    pub fn new(documents: Vec<(String, String)>) -> (r: HtmlFiles)
        ensures
            r@ == build_spec(documents.deep_view()),
            r.wf(),
    {
        let mut files = HtmlFiles { entries: Vec::new() };
        proof {
            assert(files@ =~= Seq::<(Seq<char>, DocView)>::empty());
        }
        let mut i: usize = 0;
        while i < documents.len()
            invariant
                i <= documents.len(),
                files@ == build_spec(documents.deep_view().take(i as int)),
                wf_entries(files@),
            decreases documents.len() - i,
        {
            let doc = &documents[i];
            let info = HtmlInfo::parse(doc.1.as_str());
            proof {
                assert(documents.deep_view().take(i + 1).drop_last() =~= documents.deep_view()
                    .take(i as int));
                assert(documents.deep_view().take(i + 1).last() == documents.deep_view()[i as int]);
                lemma_relative_of_all_relative(crate::html::hrefs_of(doc.1@));
                lemma_insert_preserves_wf(files@, doc.0@, info@);
            }
            files.insert(doc.0.clone(), info);
            i = i + 1;
        }
        proof {
            assert(documents.deep_view().take(documents.deep_view().len() as int)
                =~= documents.deep_view());
        }
        files
    }

    /// The position of the entry for `key`, if one exists.
    fn find_key(&self, key: &String) -> (r: Option<usize>)
        ensures
            match r {
                Some(i) => first_key_index(self@, key@) == Some(i as int) && i < self@.len(),
                None => first_key_index(self@, key@) is None,
            },
    {
        let mut i: usize = 0;
        while i < self.entries.len()
            invariant
                i <= self.entries.len(),
                forall|j: int| 0 <= j < i ==> self@[j].0 != key@,
            decreases self.entries.len() - i,
        {
            let entry = &self.entries[i];
            proof {
                assert(self@[i as int].0 == entry.0@);
            }
            if entry.0 == *key {
                proof {
                    lemma_first_key_index(self@, key@);
                }
                return Some(i);
            }
            i = i + 1;
        }
        proof {
            lemma_first_key_index(self@, key@);
        }
        None
    }

    /// Inserts a parsed document, replacing the entry for an already-present
    /// key.
    fn insert(&mut self, key: String, info: HtmlInfo)
        ensures
            final(self)@ == insert_entry(old(self)@, key@, info@),
    {
        let ghost pre = self@;
        match self.find_key(&key) {
            Some(i) => {
                proof {
                    assert(i < self.entries@.len());
                }
                self.entries.set(i, (key, info));
                proof {
                    assert forall|x: int| 0 <= x < self@.len() implies self@[x] == pre.update(
                        i as int,
                        (key@, info@),
                    )[x] by {
                        if x != i {
                            assert(self.entries@[x] == old(self).entries@[x]);
                        }
                    }
                    assert(self@ =~= pre.update(i as int, (key@, info@)));
                }
            },
            None => {
                self.entries.push((key, info));
                proof {
                    assert(self@ =~= pre.push((key@, info@)));
                }
            },
        }
    }

    /// The document stored under `key`, if any.
    fn get(&self, key: &String) -> (r: Option<&HtmlInfo>)
        ensures
            match r {
                Some(info) => lookup(self@, key@) == Some(info@),
                None => lookup(self@, key@) is None,
            },
    {
        proof {
            assert(self@.skip(0) =~= self@);
        }
        let mut i: usize = 0;
        while i < self.entries.len()
            invariant
                i <= self.entries.len(),
                lookup(self@, key@) == lookup(self@.skip(i as int), key@),
            decreases self.entries.len() - i,
        {
            let entry = &self.entries[i];
            proof {
                assert(self@[i as int] == (entry.0@, entry.1@));
                assert(self@.skip(i as int)[0] == self@[i as int]);
                assert(self@.skip(i as int).drop_first() =~= self@.skip(i + 1));
            }
            if entry.0 == *key {
                return Some(&entry.1);
            }
            i = i + 1;
        }
        proof {
            assert(self@.skip(self@.len() as int) =~= Seq::<(Seq<char>, DocView)>::empty());
        }
        None
    }

    /// Whether a link resolves inside the index, with directory-index
    /// fallback and fragment validation.
    pub fn contains(&self, link: &HtmlFileLink) -> (r: bool)
        ensures
            r == contains_spec(self@, link@),
    {
        let direct = self.get(&link.path);
        let found = match direct {
            Some(info) => Some(info),
            None => {
                let with_index = join_index(&link.path);
                self.get(&with_index)
            },
        };
        match found {
            None => false,
            Some(info) => match &link.fragment {
                None => true,
                Some(fragment) => contains_string(&info.ids, fragment),
            },
        }
    }

    /// Resolves every relative href of every indexed document against its
    /// document's directory and reports each one absent from the index.
    pub fn missing_file_links(&self) -> (r: Vec<HtmlFileLink>)
        ensures
            r.deep_view() == missing_links_spec(self@),
    {
        let mut out: Vec<HtmlFileLink> = Vec::new();
        proof {
            assert(out.deep_view() =~= Seq::<LinkView>::empty());
        }
        let mut i: usize = 0;
        while i < self.entries.len()
            invariant
                i <= self.entries.len(),
                out.deep_view() == missing_upto(self@, i as int),
            decreases self.entries.len() - i,
        {
            let entry = &self.entries[i];
            let parent = parent_dir(entry.0.as_str());
            let hrefs = &entry.1.relative_hrefs;
            let ghost doc_path = self@[i as int].0;
            let ghost hrefs_v = self@[i as int].1.relative_hrefs;
            proof {
                assert(hrefs.deep_view() == hrefs_v);
            }
            let mut j: usize = 0;
            while j < hrefs.len()
                invariant
                    i < self.entries.len(),
                    j <= hrefs.len(),
                    parent@ == parent_of(doc_path),
                    doc_path == self@[i as int].0,
                    hrefs_v == self@[i as int].1.relative_hrefs,
                    hrefs.deep_view() == hrefs_v,
                    out.deep_view() == missing_upto(self@, i as int) + doc_missing_links(
                        self@,
                        doc_path,
                        hrefs_v.take(j as int),
                    ),
                decreases hrefs.len() - j,
            {
                let ghost out_pre = out.deep_view();
                let href = &hrefs[j];
                let joined = join_path(parent.as_str(), href.as_str());
                let target = normalize_path(joined.as_str());
                let link = HtmlFileLink::new(target.as_str());
                proof {
                    assert(href@ == hrefs_v[j as int]);
                    assert(link@ == resolved_link(doc_path, hrefs_v[j as int]));
                    assert(hrefs_v.take(j + 1).drop_last() =~= hrefs_v.take(j as int));
                    assert(hrefs_v.take(j + 1).last() == hrefs_v[j as int]);
                }
                if !self.contains(&link) {
                    out.push(link);
                    proof {
                        assert(out.deep_view() =~= out_pre.push(resolved_link(
                            doc_path,
                            hrefs_v[j as int],
                        )));
                        assert(out.deep_view() =~= missing_upto(self@, i as int)
                            + doc_missing_links(self@, doc_path, hrefs_v.take(j + 1)));
                    }
                }
                j = j + 1;
            }
            proof {
                assert(hrefs_v.take(hrefs_v.len() as int) =~= hrefs_v);
            }
            i = i + 1;
        }
        out
    }
}

/// Whether an id list holds the given fragment.
fn contains_string(ids: &Vec<String>, s: &String) -> (r: bool)
    ensures
        r == ids.deep_view().contains(s@),
{
    let mut i: usize = 0;
    while i < ids.len()
        invariant
            i <= ids.len(),
            forall|j: int| 0 <= j < i ==> ids.deep_view()[j] != s@,
        decreases ids.len() - i,
    {
        let id = &ids[i];
        if *id == *s {
            proof {
                assert(ids.deep_view()[i as int] == s@);
            }
            return true;
        }
        i = i + 1;
    }
    false
}

/// The path of the index file a directory-style link falls back to.
fn join_index(path: &String) -> (r: String)
    ensures
        r@ == with_index_file(path@),
{
    let n = path.as_str().unicode_len();
    if n == 0 {
        "index.html".to_owned()
    } else if path.as_str().get_char(n - 1) == '/' {
        let mut out = path.clone();
        out.append("index.html");
        out
    } else {
        let mut out = path.clone();
        out.append("/");
        out.append("index.html");
        proof {
            reveal_strlit("/");
            assert("/"@ =~= seq!['/']);
            assert(path@ + "/"@ + "index.html"@ =~= path@ + seq!['/'] + "index.html"@);
        }
        out
    }
}

/// Resolving is deterministic: two passes over the same immutable corpus
/// report the same sequence of missing links.
pub proof fn lemma_missing_links_deterministic(
    entries: Seq<(Seq<char>, DocView)>,
    r1: Seq<LinkView>,
    r2: Seq<LinkView>,
)
    requires
        r1 == missing_links_spec(entries),
        r2 == missing_links_spec(entries),
    ensures
        r1 == r2,
{
}

/// Each missing link of one document originates from one of that document's
/// hrefs.
proof fn lemma_doc_missing_origin(
    entries: Seq<(Seq<char>, DocView)>,
    doc_path: Seq<char>,
    hrefs: Seq<Seq<char>>,
    k: int,
)
    requires
        0 <= k < doc_missing_links(entries, doc_path, hrefs).len(),
    ensures
        exists|j: int|
            #![auto]
            0 <= j < hrefs.len() && doc_missing_links(entries, doc_path, hrefs)[k]
                == resolved_link(doc_path, hrefs[j]) && !contains_spec(
                entries,
                doc_missing_links(entries, doc_path, hrefs)[k],
            ),
    decreases hrefs.len(),
{
    let dml = doc_missing_links(entries, doc_path, hrefs);
    if hrefs.len() > 0 {
        let prev = doc_missing_links(entries, doc_path, hrefs.drop_last());
        let link = resolved_link(doc_path, hrefs.last());
        if !contains_spec(entries, link) && k == prev.len() {
            assert(dml[k] == link);
            assert(0 <= hrefs.len() - 1 < hrefs.len() && dml[k] == resolved_link(
                doc_path,
                hrefs[hrefs.len() - 1],
            ) && !contains_spec(entries, dml[k]));
        } else {
            lemma_doc_missing_origin(entries, doc_path, hrefs.drop_last(), k);
            let j = choose|j: int|
                #![auto]
                0 <= j < hrefs.drop_last().len() && prev[k] == resolved_link(
                    doc_path,
                    hrefs.drop_last()[j],
                ) && !contains_spec(entries, prev[k]);
            assert(hrefs.drop_last()[j] == hrefs[j]);
            assert(dml[k] == prev[k]);
        }
    }
}

/// Each missing link of the first `n` documents originates from some indexed
/// document's relative href.
proof fn lemma_missing_upto_origin(entries: Seq<(Seq<char>, DocView)>, n: int, k: int)
    requires
        n <= entries.len(),
        0 <= k < missing_upto(entries, n).len(),
    ensures
        exists|i: int, j: int|
            #![auto]
            0 <= i < entries.len() && 0 <= j < entries[i].1.relative_hrefs.len() && missing_upto(
                entries,
                n,
            )[k] == resolved_link(entries[i].0, entries[i].1.relative_hrefs[j]) && !contains_spec(
                entries,
                missing_upto(entries, n)[k],
            ),
    decreases n,
{
    let m = missing_upto(entries, n);
    if n > 0 {
        let prev = missing_upto(entries, n - 1);
        let entry = entries[n - 1];
        let dml = doc_missing_links(entries, entry.0, entry.1.relative_hrefs);
        if k < prev.len() {
            lemma_missing_upto_origin(entries, n - 1, k);
            assert(m[k] == prev[k]);
        } else {
            lemma_doc_missing_origin(entries, entry.0, entry.1.relative_hrefs, k - prev.len());
            let j = choose|j: int|
                #![auto]
                0 <= j < entry.1.relative_hrefs.len() && dml[k - prev.len()] == resolved_link(
                    entry.0,
                    entry.1.relative_hrefs[j],
                ) && !contains_spec(entries, dml[k - prev.len()]);
            assert(m[k] == dml[k - prev.len()]);
            assert(0 <= n - 1 < entries.len() && 0 <= j < entries[n - 1].1.relative_hrefs.len()
                && m[k] == resolved_link(entries[n - 1].0, entries[n - 1].1.relative_hrefs[j])
                && !contains_spec(entries, m[k]));
        }
    }
}

/// Every reported missing link originates from a href that the URL
/// classification called relative: hrefs classified external (absolute URLs)
/// never feed the report.
pub proof fn lemma_missing_links_relative_origin(entries: Seq<(Seq<char>, DocView)>, k: int)
    requires
        wf_entries(entries),
        0 <= k < missing_links_spec(entries).len(),
    ensures
        exists|i: int, j: int|
            #![auto]
            0 <= i < entries.len() && 0 <= j < entries[i].1.relative_hrefs.len()
                && missing_links_spec(entries)[k] == resolved_link(
                entries[i].0,
                entries[i].1.relative_hrefs[j],
            ) && is_relative_href(entries[i].1.relative_hrefs[j]) && !contains_spec(
                entries,
                missing_links_spec(entries)[k],
            ),
{
    lemma_missing_upto_origin(entries, entries.len() as int, k);
    let (i, j) = choose|i: int, j: int|
        #![auto]
        0 <= i < entries.len() && 0 <= j < entries[i].1.relative_hrefs.len() && missing_upto(
            entries,
            entries.len() as int,
        )[k] == resolved_link(entries[i].0, entries[i].1.relative_hrefs[j]) && !contains_spec(
            entries,
            missing_upto(entries, entries.len() as int)[k],
        );
    assert(is_relative_href(entries[i].1.relative_hrefs[j]));
    assert(0 <= i < entries.len() && 0 <= j < entries[i].1.relative_hrefs.len()
        && missing_links_spec(entries)[k] == resolved_link(
        entries[i].0,
        entries[i].1.relative_hrefs[j],
    ) && is_relative_href(entries[i].1.relative_hrefs[j]) && !contains_spec(
        entries,
        missing_links_spec(entries)[k],
    ));
}

} // verus!
