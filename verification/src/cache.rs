//! The file cache used by the command-line front end: the same corpus index
//! and resolver as `tree`, exposed over `RelativeLink` values.
use vstd::prelude::*;

use crate::html::{HtmlInfo, DocView, RelativeLink};
use crate::text::LinkView;
use crate::tree::{
    HtmlFiles, HtmlFileLink, build_spec, contains_spec, missing_links_spec, wf_entries,
};

verus! {

/// A corpus index keyed by each indexed document's relative path.
#[derive(Debug)]
pub struct FileCache {
    files: HtmlFiles,
}

impl View for FileCache {
    type V = Seq<(Seq<char>, DocView)>;

    closed spec fn view(&self) -> Seq<(Seq<char>, DocView)> {
        self.files@
    }
}

impl FileCache {
    /// Keys are unique and stored relative hrefs were classified relative.
    pub open spec fn wf(self) -> bool {
        wf_entries(self@)
    }

    /// Builds the cache from already-read documents: each `(path, text)` pair
    /// is parsed and inserted in order, a repeated path replacing the earlier
    /// entry.
    pub fn build(documents: Vec<(String, String)>) -> (r: FileCache)
        ensures
            r@ == build_spec(documents.deep_view()),
            r.wf(),
    {
        FileCache { files: HtmlFiles::new(documents) }
    }

    /// Whether a link resolves inside the cache, with directory-index
    /// fallback and fragment validation.
    pub fn contains(&self, link: &RelativeLink) -> (r: bool)
        ensures
            r == contains_spec(self@, link@),
    {
        let fragment = match &link.fragment {
            None => None,
            Some(f) => Some(f.clone()),
        };
        let file_link = HtmlFileLink { path: link.path.clone(), fragment };
        proof {
            assert(file_link@ == link@);
        }
        self.files.contains(&file_link)
    }

    /// Resolves every relative href of every indexed document against its
    /// document's directory and reports each one absent from the cache.
    pub fn uncached_file_links(&self) -> (r: Vec<RelativeLink>)
        ensures
            r.deep_view() == missing_links_spec(self@),
    {
        let links = self.files.missing_file_links();
        let mut out: Vec<RelativeLink> = Vec::new();
        let mut i: usize = 0;
        while i < links.len()
            invariant
                i <= links.len(),
                links.deep_view() == missing_links_spec(self@),
                out.deep_view() == links.deep_view().take(i as int),
            decreases links.len() - i,
        {
            let ghost out_pre = out.deep_view();
            let link = &links[i];
            let fragment = match &link.fragment {
                None => None,
                Some(f) => Some(f.clone()),
            };
            out.push(RelativeLink { path: link.path.clone(), fragment });
            proof {
                assert(out.deep_view() =~= out_pre.push(links.deep_view()[i as int]));
                assert(links.deep_view().take(i + 1).drop_last() =~= links.deep_view().take(
                    i as int,
                ));
                assert(links.deep_view().take(i + 1) =~= out.deep_view());
            }
            i = i + 1;
        }
        proof {
            assert(links.deep_view().take(links.deep_view().len() as int) =~= links.deep_view());
        }
        out
    }
}

} // verus!
