//! Doc comments from a file's source info: each element's leading comment, keyed by its
//! source-info path. The first location whose path is the element's exactly carries its comment;
//! the comment is trimmed of white space, and an absent or blank one gives no doc.
use vstd::prelude::*;

use crate::text::{chars_of, string_of};

verus! {

broadcast use vstd::string::group_string_axioms;

/// One location of a file's source info: its path and leading comment.
#[derive(Clone, Debug, PartialEq, Eq)]
pub struct SourceLocation {
    /// The location's source-info path.
    pub path: Vec<i32>,
    /// Its leading comment, if it has one.
    pub leading: Option<String>,
}

/// Whether `c` is white space: the Unicode `White_Space` property.
pub open spec fn is_white(c: char) -> bool {
    ||| '\u{9}' <= c <= '\u{d}'
    ||| c == ' '
    ||| c == '\u{85}'
    ||| c == '\u{a0}'
    ||| c == '\u{1680}'
    ||| '\u{2000}' <= c <= '\u{200a}'
    ||| c == '\u{2028}'
    ||| c == '\u{2029}'
    ||| c == '\u{202f}'
    ||| c == '\u{205f}'
    ||| c == '\u{3000}'
}

/// The number of white-space characters that open `s`.
pub open spec fn white_prefix(s: Seq<char>) -> nat
    decreases s.len(),
{
    if s.len() > 0 && is_white(s[0]) {
        1 + white_prefix(s.drop_first())
    } else {
        0
    }
}

/// The number of white-space characters that close `s`.
pub open spec fn white_suffix(s: Seq<char>) -> nat
    decreases s.len(),
{
    if s.len() > 0 && is_white(s.last()) {
        1 + white_suffix(s.drop_last())
    } else {
        0
    }
}

/// `s` without its opening and closing white space.
pub open spec fn trimmed(s: Seq<char>) -> Seq<char> {
    let t = s.skip(white_prefix(s) as int);
    t.take(t.len() - white_suffix(t))
}

/// The doc of a comment: trimmed, and none when nothing is left.
pub open spec fn doc_of(comment: Option<String>) -> Option<Seq<char>> {
    match comment {
        None => None,
        Some(c) => if trimmed(c@).len() == 0 {
            None
        } else {
            Some(trimmed(c@))
        },
    }
}

/// The first location whose path is `path`, by position.
pub open spec fn first_at(locations: Seq<SourceLocation>, path: Seq<i32>) -> Option<int> {
    if exists|i: int| 0 <= i < locations.len() && (#[trigger] locations[i]).path@ == path {
        Some(choose|i: int|
            0 <= i < locations.len() && (#[trigger] locations[i]).path@ == path && forall|j: int|
                0 <= j < i ==> (#[trigger] locations[j]).path@ != path)
    } else {
        None
    }
}

/// Whether `c` is white space.
fn white(c: char) -> (r: bool)
    ensures
        r == is_white(c),
{
    ('\u{9}' <= c && c <= '\u{d}') || c == ' ' || c == '\u{85}' || c == '\u{a0}' || c == '\u{1680}' || (
    '\u{2000}' <= c && c <= '\u{200a}') || c == '\u{2028}' || c == '\u{2029}' || c == '\u{202f}' || c
        == '\u{205f}' || c == '\u{3000}'
}

/// The opening white space counted from position `i` on.
proof fn lemma_white_prefix_from(s: Seq<char>, i: int)
    requires
        0 <= i <= s.len(),
        forall|j: int| 0 <= j < i ==> is_white(s[j]),
    ensures
        white_prefix(s) == i + white_prefix(s.skip(i)),
    decreases i,
{
    if i > 0 {
        assert(s.drop_first().skip(i - 1) =~= s.skip(i));
        lemma_white_prefix_from(s.drop_first(), i - 1);
    } else {
        assert(s.skip(0) =~= s);
    }
}

/// The closing white space counted back from position `i`.
proof fn lemma_white_suffix_from(s: Seq<char>, i: int)
    requires
        0 <= i <= s.len(),
        forall|j: int| i <= j < s.len() ==> is_white(s[j]),
    ensures
        white_suffix(s) == (s.len() - i) + white_suffix(s.take(i)),
    decreases s.len() - i,
{
    if i < s.len() {
        assert(s.drop_last().take(i) =~= s.take(i));
        lemma_white_suffix_from(s.drop_last(), i);
    } else {
        assert(s.take(i) =~= s);
    }
}

/// `text` trimmed of opening and closing white space.
pub fn trim(text: &str) -> (r: String)
    ensures
        r@ == trimmed(text@),
{
    let v = chars_of(text);
    let mut start: usize = 0;
    while start < v.len() && white(v[start])
        invariant
            start <= v@.len(),
            forall|j: int| 0 <= j < start ==> is_white(v@[j]),
        decreases v@.len() - start,
    {
        start = start + 1;
    }
    proof {
        lemma_white_prefix_from(v@, start as int);
        if start < v@.len() {
            assert(white_prefix(v@.skip(start as int)) == 0);
        } else {
            assert(v@.skip(start as int).len() == 0);
        }
    }
    let ghost t = v@.skip(start as int);
    let mut end: usize = v.len();
    while end > start && white(v[end - 1])
        invariant
            start <= end <= v@.len(),
            forall|j: int| end <= j < v@.len() ==> is_white(v@[j]),
        decreases end,
    {
        end = end - 1;
    }
    proof {
        let i = end - start;
        assert forall|j: int| i <= j < t.len() implies is_white(t[j]) by {
            assert(t[j] == v@[start + j]);
        }
        lemma_white_suffix_from(t, i);
        if i > 0 {
            assert(t.take(i).last() == v@[end - 1]);
            assert(white_suffix(t.take(i)) == 0);
        }
        assert(t.take(i) =~= v@.subrange(start as int, end as int));
    }
    string_of(v.as_slice(), start, end)
}

/// Whether two paths are equal.
fn same_path(a: &[i32], b: &[i32]) -> (r: bool)
    ensures
        r == (a@ == b@),
{
    if a.len() != b.len() {
        return false;
    }
    let mut i: usize = 0;
    while i < a.len()
        invariant
            i <= a@.len(),
            a@.len() == b@.len(),
            forall|j: int| 0 <= j < i ==> a@[j] == b@[j],
        decreases a@.len() - i,
    {
        if a[i] != b[i] {
            return false;
        }
        i = i + 1;
    }
    proof {
        assert(a@ =~= b@);
    }
    true
}

/// The trimmed leading comment for the element at `path`, or `None` when the source info
/// carries none for it: the first location at exactly that path decides.
pub fn for_path(locations: &[SourceLocation], path: &[i32]) -> (r: Option<String>)
    ensures
        match first_at(locations@, path@) {
            None => r is None,
            Some(i) => opt_view(r) == doc_of(locations@[i].leading),
        },
{
    let mut i: usize = 0;
    while i < locations.len()
        invariant
            i <= locations@.len(),
            forall|j: int| 0 <= j < i ==> (#[trigger] locations@[j]).path@ != path@,
        decreases locations@.len() - i,
    {
        if same_path(locations[i].path.as_slice(), path) {
            proof {
                let k = i as int;
                assert(0 <= k < locations@.len() && locations@[k].path@ == path@);
                let c = first_at(locations@, path@)->Some_0;
                if c < k {
                    assert(locations@[c].path@ != path@);
                } else if k < c {
                    assert(locations@[k].path@ != path@);
                }
            }
            return match &locations[i].leading {
                None => None,
                Some(comment) => {
                    let text = trim(comment.as_str());
                    if text.as_str().unicode_len() == 0 {
                        None
                    } else {
                        Some(text)
                    }
                },
            };
        }
        i = i + 1;
    }
    None
}

/// A text's view, when there is one.
pub open spec fn opt_view(t: Option<String>) -> Option<Seq<char>> {
    match t {
        Some(s) => Some(s@),
        None => None,
    }
}

} // verus!
