//! Character-sequence utilities: locating separator characters and splitting
//! a raw link into its path part and its optional fragment.
use vstd::prelude::*;

verus! {

/// Index of the first occurrence of `c` in `s`, or `None` when `c` does not occur.
pub open spec fn index_of_first(s: Seq<char>, c: char) -> Option<int>
    decreases s.len(),
{
    if s.len() == 0 {
        None
    } else if s[0] == c {
        Some(0int)
    } else {
        match index_of_first(s.subrange(1, s.len() as int), c) {
            None => None,
            Some(i) => Some(i + 1),
        }
    }
}

/// Index of the last occurrence of `c` in `s`, or `None` when `c` does not occur.
pub open spec fn index_of_last(s: Seq<char>, c: char) -> Option<int>
    decreases s.len(),
{
    if s.len() == 0 {
        None
    } else if s[s.len() - 1] == c {
        Some(s.len() - 1)
    } else {
        index_of_last(s.drop_last(), c)
    }
}

/// `index_of_first` names the least position holding `c`.
pub proof fn lemma_index_of_first(s: Seq<char>, c: char)
    ensures
        match index_of_first(s, c) {
            Some(i) => 0 <= i < s.len() && s[i] == c && (forall|j: int| 0 <= j < i ==> s[j] != c),
            None => forall|j: int| 0 <= j < s.len() ==> s[j] != c,
        },
    decreases s.len(),
{
    if s.len() > 0 && s[0] != c {
        let sub = s.subrange(1, s.len() as int);
        lemma_index_of_first(sub, c);
        match index_of_first(sub, c) {
            Some(i) => {
                assert forall|j: int| 0 <= j < i + 1 implies s[j] != c by {
                    if j >= 1 {
                        assert(sub[j - 1] == s[j]);
                        assert(sub[j - 1] != c);
                    }
                }
            },
            None => {
                assert forall|j: int| 0 <= j < s.len() implies s[j] != c by {
                    if j >= 1 {
                        assert(sub[j - 1] == s[j]);
                        assert(sub[j - 1] != c);
                    }
                }
            },
        }
    }
}

/// `index_of_last` names the greatest position holding `c`.
pub proof fn lemma_index_of_last(s: Seq<char>, c: char)
    ensures
        match index_of_last(s, c) {
            Some(i) => 0 <= i < s.len() && s[i] == c && (forall|j: int|
                i < j < s.len() ==> s[j] != c),
            None => forall|j: int| 0 <= j < s.len() ==> s[j] != c,
        },
    decreases s.len(),
{
    if s.len() > 0 && s[s.len() - 1] != c {
        let sub = s.drop_last();
        lemma_index_of_last(sub, c);
        match index_of_last(sub, c) {
            Some(i) => {
                assert forall|j: int| i < j < s.len() implies s[j] != c by {
                    if j < s.len() - 1 {
                        assert(sub[j] == s[j]);
                        assert(sub[j] != c);
                    }
                }
            },
            None => {
                assert forall|j: int| 0 <= j < s.len() implies s[j] != c by {
                    if j < s.len() - 1 {
                        assert(sub[j] == s[j]);
                        assert(sub[j] != c);
                    }
                }
            },
        }
    }
}

/// Position of the first occurrence of `c` in `s`, if any.
pub(crate) fn find_first(s: &str, c: char) -> (r: Option<usize>)
    ensures
        match r {
            Some(i) => index_of_first(s@, c) == Some(i as int),
            None => index_of_first(s@, c) is None,
        },
{
    let n = s.unicode_len();
    let mut i: usize = 0;
    while i < n
        invariant
            n == s@.len(),
            i <= n,
            forall|j: int| 0 <= j < i ==> s@[j] != c,
        decreases n - i,
    {
        if s.get_char(i) == c {
            proof {
                lemma_index_of_first(s@, c);
            }
            return Some(i);
        }
        i = i + 1;
    }
    proof {
        lemma_index_of_first(s@, c);
    }
    None
}

/// Position of the last occurrence of `c` in `s`, if any.
pub(crate) fn find_last(s: &str, c: char) -> (r: Option<usize>)
    ensures
        match r {
            Some(i) => index_of_last(s@, c) == Some(i as int),
            None => index_of_last(s@, c) is None,
        },
{
    let mut i: usize = s.unicode_len();
    while i > 0
        invariant
            i <= s@.len(),
            forall|j: int| i <= j < s@.len() ==> s@[j] != c,
        decreases i,
    {
        i = i - 1;
        if s.get_char(i) == c {
            proof {
                lemma_index_of_last(s@, c);
            }
            return Some(i);
        }
    }
    proof {
        lemma_index_of_last(s@, c);
    }
    None
}

/// The mathematical value of a link: its path part and its optional fragment.
pub struct LinkView {
    pub path: Seq<char>,
    pub fragment: Option<Seq<char>>,
}

/// The path part of a raw link: everything before the first `#`, or the whole
/// string when no `#` occurs.
pub open spec fn link_path_of(s: Seq<char>) -> Seq<char> {
    match index_of_first(s, '#') {
        None => s,
        Some(i) => s.take(i),
    }
}

/// The fragment of a raw link: everything after the first `#` (further `#`
/// characters kept verbatim), or `None` when no `#` occurs or when the text
/// after the first `#` is empty.
pub open spec fn link_fragment_of(s: Seq<char>) -> Option<Seq<char>> {
    match index_of_first(s, '#') {
        None => None,
        Some(i) => if i + 1 < s.len() {
            Some(s.skip(i + 1))
        } else {
            None
        },
    }
}

/// Splits a raw link at its first `#` into a path and an optional fragment.
pub(crate) fn split_link(s: &str) -> (r: (String, Option<String>))
    ensures
        r.0@ == link_path_of(s@),
        r.1.deep_view() == link_fragment_of(s@),
{
    match find_first(s, '#') {
        None => (s.to_owned(), None),
        Some(i) => {
            proof {
                lemma_index_of_first(s@, '#');
                assert(s@.subrange(0, i as int) =~= s@.take(i as int));
            }
            let n = s.unicode_len();
            let path = s.substring_char(0, i).to_owned();
            if i + 1 < n {
                let fragment = s.substring_char(i + 1, n).to_owned();
                proof {
                    assert(s@.subrange(i + 1, n as int) =~= s@.skip(i + 1));
                }
                (path, Some(fragment))
            } else {
                (path, None)
            }
        },
    }
}

} // verus!
