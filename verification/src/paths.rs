//! Logical path cleaning with forward-slash semantics: `.` segments are
//! dropped, `..` pops the previous real segment (and is discarded at the
//! root), redundant and leading separators vanish. No filesystem access.
use vstd::prelude::*;

use crate::text::{index_of_last, lemma_index_of_last, find_last};

verus! {

/// The segments of `s` split at every `/`, empty segments included; splitting
/// the empty string gives one empty segment.
pub open spec fn segments_of(s: Seq<char>) -> Seq<Seq<char>>
    decreases s.len(),
{
    if s.len() == 0 {
        seq![Seq::<char>::empty()]
    } else {
        let prev = segments_of(s.drop_last());
        if s.last() == '/' {
            prev.push(Seq::<char>::empty())
        } else {
            prev.drop_last().push(prev.last().push(s.last()))
        }
    }
}

/// A segment that names a directory entry: not empty and neither of the two
/// special markers.
pub open spec fn is_real_segment(seg: Seq<char>) -> bool {
    seg.len() > 0 && seg != seq!['.'] && seg != seq!['.', '.']
}

/// Folds a segment list left to right: empty segments and `.` are dropped,
/// `..` pops the most recently kept segment if one exists (and is otherwise
/// discarded), real segments are kept.
pub open spec fn norm_segments(segs: Seq<Seq<char>>) -> Seq<Seq<char>>
    decreases segs.len(),
{
    if segs.len() == 0 {
        Seq::empty()
    } else {
        let prev = norm_segments(segs.drop_last());
        let seg = segs.last();
        if seg == seq!['.', '.'] {
            if prev.len() > 0 {
                prev.drop_last()
            } else {
                prev
            }
        } else if is_real_segment(seg) {
            prev.push(seg)
        } else {
            prev
        }
    }
}

/// Joins segments with a single `/` between each pair.
pub open spec fn join_segments(segs: Seq<Seq<char>>) -> Seq<char>
    decreases segs.len(),
{
    if segs.len() == 0 {
        Seq::empty()
    } else if segs.len() == 1 {
        segs[0]
    } else {
        join_segments(segs.drop_last()) + seq!['/'] + segs.last()
    }
}

/// The canonical relative form of a path: its segments, cleaned and rejoined.
pub open spec fn normalize_spec(s: Seq<char>) -> Seq<char> {
    join_segments(norm_segments(segments_of(s)))
}

/// Reduces a filesystem-style path to its canonical relative form: `.` and
/// empty segments are dropped, `..` pops the previous real segment (or is
/// discarded when none exists), and a leading separator is stripped so the
/// result compares equal to index keys stored without one.
pub fn normalize_path(path: &str) -> (r: String)
    ensures
        r@ == normalize_spec(path@),
{
    let n = path.unicode_len();
    let mut segs: Vec<String> = Vec::new();
    let mut cur: String = String::new();
    let mut i: usize = 0;
    while i < n
        invariant
            n == path@.len(),
            i <= n,
            segs.deep_view().push(cur@) == segments_of(path@.take(i as int)),
        decreases n - i,
    {
        let ghost pre = path@.take(i as int);
        let ghost segs_pre = segs.deep_view();
        let ghost cur_pre = cur@;
        let c = path.get_char(i);
        proof {
            assert(path@.take(i + 1).drop_last() =~= pre);
            assert(path@.take(i + 1).last() == path@[i as int]);
        }
        if c == '/' {
            segs.push(cur);
            cur = String::new();
            proof {
                assert(segs.deep_view() =~= segs_pre.push(cur_pre));
                assert(segments_of(path@.take(i + 1)) =~= segs_pre.push(cur_pre).push(cur@));
            }
        } else {
            cur.append(path.substring_char(i, i + 1));
            proof {
                assert(path@.subrange(i as int, i + 1) =~= seq![path@[i as int]]);
                assert(cur@ =~= cur_pre.push(path@[i as int]));
                assert(segs_pre.push(cur_pre).drop_last() =~= segs_pre);
                assert(segments_of(path@.take(i + 1)) =~= segs_pre.push(cur@));
            }
        }
        i = i + 1;
    }
    proof {
        assert(path@.take(n as int) =~= path@);
    }
    segs.push(cur);
    let mut stack: Vec<String> = Vec::new();
    let mut j: usize = 0;
    while j < segs.len()
        invariant
            j <= segs.len(),
            segs.deep_view() == segments_of(path@),
            stack.deep_view() == norm_segments(segs.deep_view().take(j as int)),
        decreases segs.len() - j,
    {
        let ghost stack_pre = stack.deep_view();
        let seg = &segs[j];
        if is_dot_dot(seg.as_str()) {
            if stack.len() > 0 {
                stack.pop();
                proof {
                    assert(stack.deep_view() =~= stack_pre.drop_last());
                }
            }
        } else if seg.as_str().unicode_len() > 0 && !is_dot(seg.as_str()) {
            stack.push(seg.clone());
            proof {
                assert(stack.deep_view() =~= stack_pre.push(segs.deep_view()[j as int]));
            }
        }
        proof {
            assert(segs.deep_view().take(j + 1).drop_last() =~= segs.deep_view().take(j as int));
            assert(segs.deep_view().take(j + 1).last() == segs.deep_view()[j as int]);
        }
        j = j + 1;
    }
    proof {
        assert(segs.deep_view().take(segs.deep_view().len() as int) =~= segs.deep_view());
    }
    let mut out: String = String::new();
    let mut k: usize = 0;
    while k < stack.len()
        invariant
            k <= stack.len(),
            stack.deep_view() == norm_segments(segments_of(path@)),
            out@ == join_segments(stack.deep_view().take(k as int)),
        decreases stack.len() - k,
    {
        if k > 0 {
            out.append("/");
        }
        out.append(stack[k].as_str());
        proof {
            reveal_strlit("/");
            assert("/"@ =~= seq!['/']);
            assert(stack.deep_view().take(k + 1).drop_last() =~= stack.deep_view().take(k as int));
            assert(stack.deep_view().take(k + 1).last() == stack.deep_view()[k as int]);
            if k == 0 {
                assert(stack.deep_view().take(1)[0] == stack.deep_view()[0]);
            }
        }
        k = k + 1;
    }
    proof {
        assert(stack.deep_view().take(stack.deep_view().len() as int) =~= stack.deep_view());
    }
    out
}

/// Whether `s` is exactly the current-directory marker.
fn is_dot(s: &str) -> (r: bool)
    ensures
        r == (s@ == seq!['.']),
{
    let r = s.unicode_len() == 1 && s.get_char(0) == '.';
    proof {
        if r {
            assert(s@ =~= seq!['.']);
        }
    }
    r
}

/// Whether `s` is exactly the parent-directory marker.
fn is_dot_dot(s: &str) -> (r: bool)
    ensures
        r == (s@ == seq!['.', '.']),
{
    let r = s.unicode_len() == 2 && s.get_char(0) == '.' && s.get_char(1) == '.';
    proof {
        if r {
            assert(s@ =~= seq!['.', '.']);
        }
    }
    r
}

/// A segment free of separators, as splitting produces.
pub open spec fn no_slash(seg: Seq<char>) -> bool {
    forall|t: int| 0 <= t < seg.len() ==> seg[t] != '/'
}

/// Splitting never yields a segment that still holds a separator.
pub proof fn lemma_segments_no_slash(s: Seq<char>)
    ensures
        forall|k: int| 0 <= k < segments_of(s).len() ==> no_slash(#[trigger] segments_of(s)[k]),
    decreases s.len(),
{
    if s.len() > 0 {
        lemma_segments_no_slash(s.drop_last());
        let prev = segments_of(s.drop_last());
        let segs = segments_of(s);
        if s.last() == '/' {
            assert forall|k: int| 0 <= k < segs.len() implies no_slash(segs[k]) by {
                if k < prev.len() {
                    assert(segs[k] == prev[k]);
                } else {
                    assert(segs[k] == Seq::<char>::empty());
                }
            }
        } else {
            assert(prev.len() >= 1) by {
                lemma_segments_nonempty(s.drop_last());
            }
            assert forall|k: int| 0 <= k < segs.len() implies no_slash(segs[k]) by {
                if k < prev.len() - 1 {
                    assert(segs[k] == prev[k]);
                } else {
                    let ext = prev.last().push(s.last());
                    assert(segs[k] == ext);
                    assert(no_slash(prev.last()));
                    assert forall|t: int| 0 <= t < ext.len() implies ext[t] != '/' by {
                        if t < ext.len() - 1 {
                            assert(ext[t] == prev.last()[t]);
                        }
                    }
                }
            }
        }
    }
}

/// Splitting always yields at least one segment.
pub proof fn lemma_segments_nonempty(s: Seq<char>)
    ensures
        segments_of(s).len() >= 1,
    decreases s.len(),
{
    if s.len() > 0 {
        lemma_segments_nonempty(s.drop_last());
    }
}

/// Cleaning keeps only real segments, and keeps them separator-free.
pub proof fn lemma_norm_segments_elements(segs: Seq<Seq<char>>)
    requires
        forall|k: int| 0 <= k < segs.len() ==> no_slash(#[trigger] segs[k]),
    ensures
        forall|k: int|
            0 <= k < norm_segments(segs).len() ==> is_real_segment(
                #[trigger] norm_segments(segs)[k],
            ),
        forall|k: int| 0 <= k < norm_segments(segs).len() ==> no_slash(
            #[trigger] norm_segments(segs)[k],
        ),
    decreases segs.len(),
{
    if segs.len() > 0 {
        assert forall|k: int| 0 <= k < segs.drop_last().len() implies no_slash(
            #[trigger] segs.drop_last()[k],
        ) by {
            assert(segs.drop_last()[k] == segs[k]);
        }
        lemma_norm_segments_elements(segs.drop_last());
        let prev = norm_segments(segs.drop_last());
        let cur = norm_segments(segs);
        let seg = segs.last();
        if seg == seq!['.', '.'] {
            assert forall|k: int| 0 <= k < cur.len() implies is_real_segment(cur[k]) && no_slash(
                cur[k],
            ) by {
                assert(cur[k] == prev[k]);
            }
        } else if is_real_segment(seg) {
            assert(no_slash(seg));
            assert forall|k: int| 0 <= k < cur.len() implies is_real_segment(cur[k]) && no_slash(
                cur[k],
            ) by {
                if k < prev.len() {
                    assert(cur[k] == prev[k]);
                } else {
                    assert(cur[k] == seg);
                }
            }
        }
    }
}

/// A separator-free string splits into exactly itself.
pub proof fn lemma_segments_of_single(t: Seq<char>)
    requires
        no_slash(t),
    ensures
        segments_of(t) == seq![t],
    decreases t.len(),
{
    if t.len() == 0 {
        assert(t =~= Seq::<char>::empty());
        assert(segments_of(t) =~= seq![t]);
    } else {
        assert forall|k: int| 0 <= k < t.drop_last().len() implies #[trigger] t.drop_last()[k]
            != '/' by {
            assert(t.drop_last()[k] == t[k]);
        }
        lemma_segments_of_single(t.drop_last());
        assert(t.last() != '/');
        assert(t.drop_last().push(t.last()) =~= t);
        assert(seq![t.drop_last()].drop_last() =~= Seq::<Seq<char>>::empty());
        assert(segments_of(t) =~= seq![t]);
    }
}

/// Splitting distributes over appending a separator and one clean segment.
pub proof fn lemma_segments_of_append(x: Seq<char>, t: Seq<char>)
    requires
        no_slash(t),
    ensures
        segments_of(x + seq!['/'] + t) == segments_of(x).push(t),
    decreases t.len(),
{
    let s = x + seq!['/'] + t;
    if t.len() == 0 {
        assert(s.len() == x.len() + 1);
        assert(s.last() == '/');
        assert(s.drop_last() =~= x);
        assert(t =~= Seq::<char>::empty());
        assert(segments_of(s) =~= segments_of(x).push(t));
    } else {
        assert forall|k: int| 0 <= k < t.drop_last().len() implies #[trigger] t.drop_last()[k]
            != '/' by {
            assert(t.drop_last()[k] == t[k]);
        }
        lemma_segments_of_append(x, t.drop_last());
        assert(s.drop_last() =~= x + seq!['/'] + t.drop_last());
        assert(s.last() == t[t.len() - 1]);
        assert(s.last() != '/');
        let prev = segments_of(s.drop_last());
        assert(prev == segments_of(x).push(t.drop_last()));
        assert(prev.drop_last() =~= segments_of(x));
        assert(prev.last() == t.drop_last());
        assert(t.drop_last().push(t.last()) =~= t);
        assert(segments_of(s) =~= segments_of(x).push(t));
    }
}

/// Splitting inverts joining, for at least one clean segment.
pub proof fn lemma_segments_of_join(segs: Seq<Seq<char>>)
    requires
        segs.len() >= 1,
        forall|k: int| 0 <= k < segs.len() ==> no_slash(#[trigger] segs[k]),
    ensures
        segments_of(join_segments(segs)) == segs,
    decreases segs.len(),
{
    if segs.len() == 1 {
        lemma_segments_of_single(segs[0]);
        assert(seq![segs[0]] =~= segs);
    } else {
        assert forall|k: int| 0 <= k < segs.drop_last().len() implies no_slash(
            #[trigger] segs.drop_last()[k],
        ) by {
            assert(segs.drop_last()[k] == segs[k]);
        }
        lemma_segments_of_join(segs.drop_last());
        assert(no_slash(segs.last()));
        lemma_segments_of_append(join_segments(segs.drop_last()), segs.last());
        assert(segs.drop_last().push(segs.last()) =~= segs);
    }
}

/// Cleaning a list of real segments changes nothing.
pub proof fn lemma_norm_of_real(segs: Seq<Seq<char>>)
    requires
        forall|k: int| 0 <= k < segs.len() ==> is_real_segment(#[trigger] segs[k]),
    ensures
        norm_segments(segs) == segs,
    decreases segs.len(),
{
    if segs.len() > 0 {
        assert forall|k: int| 0 <= k < segs.drop_last().len() implies is_real_segment(
            #[trigger] segs.drop_last()[k],
        ) by {
            assert(segs.drop_last()[k] == segs[k]);
        }
        lemma_norm_of_real(segs.drop_last());
        assert(is_real_segment(segs.last()));
        assert(segs.last() != seq!['.', '.']);
        assert(segs.drop_last().push(segs.last()) =~= segs);
    }
}

/// Normalization is idempotent: cleaning an already clean path changes nothing.
pub proof fn lemma_normalize_idempotent(p: Seq<char>)
    ensures
        normalize_spec(normalize_spec(p)) == normalize_spec(p),
{
    let segs = segments_of(p);
    lemma_segments_no_slash(p);
    lemma_norm_segments_elements(segs);
    let n = norm_segments(segs);
    if n.len() == 0 {
        assert(normalize_spec(p) == Seq::<char>::empty());
        let empty = Seq::<char>::empty();
        assert(segments_of(empty) =~= seq![empty]);
        let s1 = seq![empty];
        assert(s1.drop_last() =~= Seq::<Seq<char>>::empty());
        assert(!is_real_segment(s1.last()));
        assert(s1.last() != seq!['.', '.']);
        assert(norm_segments(Seq::<Seq<char>>::empty()) =~= Seq::<Seq<char>>::empty());
        assert(norm_segments(s1) =~= Seq::<Seq<char>>::empty());
        assert(normalize_spec(empty) == empty);
    } else {
        lemma_segments_of_join(n);
        lemma_norm_of_real(n);
    }
}

/// The directory part of a path: everything before the last `/`, or the empty
/// path when no `/` occurs.
pub open spec fn parent_of(p: Seq<char>) -> Seq<char> {
    match index_of_last(p, '/') {
        None => Seq::empty(),
        Some(i) => p.take(i),
    }
}

/// The directory a document at `p` resolves its links against.
pub fn parent_dir(p: &str) -> (r: String)
    ensures
        r@ == parent_of(p@),
{
    match find_last(p, '/') {
        None => String::new(),
        Some(i) => {
            proof {
                lemma_index_of_last(p@, '/');
                assert(p@.subrange(0, i as int) =~= p@.take(i as int));
            }
            p.substring_char(0, i).to_owned()
        },
    }
}

/// A link target joined against its document's directory: a target beginning
/// with `/` stands alone (relative to the root), anything else is appended to
/// the directory.
pub open spec fn join_href(parent: Seq<char>, href: Seq<char>) -> Seq<char> {
    if href.len() > 0 && href[0] == '/' {
        href
    } else if parent.len() == 0 {
        href
    } else {
        parent + seq!['/'] + href
    }
}

/// The final component of a path: everything after the last `/`, or the whole
/// path when no `/` occurs.
pub open spec fn file_name_of(p: Seq<char>) -> Seq<char> {
    match index_of_last(p, '/') {
        None => p,
        Some(i) => p.skip(i + 1),
    }
}

/// Whether a path names an HTML file: its file name has a suffix after a last
/// `.` that is not the name's first character, and that suffix is exactly
/// `html`.
pub open spec fn has_html_ext(p: Seq<char>) -> bool {
    let name = file_name_of(p);
    match index_of_last(name, '.') {
        None => false,
        Some(i) => i > 0 && name.skip(i + 1) == "html"@,
    }
}

/// Decides whether a discovered file belongs in the corpus: only files whose
/// extension is exactly `html` are indexed.
pub fn has_html_extension(path: &str) -> (r: bool)
    ensures
        r == has_html_ext(path@),
{
    let name: String = match find_last(path, '/') {
        None => path.to_owned(),
        Some(i) => {
            let n = path.unicode_len();
            proof {
                lemma_index_of_last(path@, '/');
                assert(path@.subrange(i + 1, path@.len() as int) =~= path@.skip(i + 1));
            }
            path.substring_char(i + 1, n).to_owned()
        },
    };
    match find_last(name.as_str(), '.') {
        None => false,
        Some(i) => {
            if i == 0 {
                false
            } else {
                proof {
                    lemma_index_of_last(name@, '.');
                    assert(name@.subrange(i + 1, name@.len() as int) =~= name@.skip(i + 1));
                }
                let n = name.as_str().unicode_len();
                let ext = name.as_str().substring_char(i + 1, n).to_owned();
                let html = "html".to_owned();
                ext == html
            }
        },
    }
}

/// Joins a raw href against a document's directory, per `join_href`.
pub fn join_path(parent: &str, href: &str) -> (r: String)
    ensures
        r@ == join_href(parent@, href@),
{
    if href.unicode_len() > 0 && href.get_char(0) == '/' {
        href.to_owned()
    } else if parent.unicode_len() == 0 {
        href.to_owned()
    } else {
        let mut out = parent.to_owned();
        out.append("/");
        out.append(href);
        proof {
            reveal_strlit("/");
            assert("/"@ =~= seq!['/']);
            assert(parent@ + "/"@ + href@ =~= parent@ + seq!['/'] + href@);
        }
        out
    }
}

} // verus!
