//! The matching keys of the comparison: a package with its trailing version segment stripped
//! ([`normalize_package`], buf's `PACKAGE_VERSION_SUFFIX` grammar in [`is_version_segment`]), and
//! a sort's or enum's path relative to its package ([`relative_name`]).
use vstd::prelude::*;

use crate::text::chars_of;

verus! {

broadcast use vstd::string::group_string_axioms;

use vstd::string::StrSliceExecFns;

/// Whether a character is an ASCII decimal digit.
pub open spec fn is_ascii_digit(c: char) -> bool {
    '0' <= c && c <= '9'
}

/// The length of the run of ASCII digits that opens `s`.
pub open spec fn digits_len(s: Seq<char>) -> nat
    decreases s.len(),
{
    if s.len() > 0 && is_ascii_digit(s[0]) {
        1 + digits_len(s.drop_first())
    } else {
        0
    }
}

/// `s` past its leading numeric part, when that part is a run of digits of value at least 1 —
/// an empty run and an all-zero run are `None`; a leading zero is admitted.
pub open spec fn strip_number_view(s: Seq<char>) -> Option<Seq<char>> {
    let d = digits_len(s);
    if exists|i: int| 0 <= i < d && s[i] != '0' {
        Some(s.skip(d as int))
    } else {
        None
    }
}

/// Whether `s` opens with `p`.
pub open spec fn starts_with(s: Seq<char>, p: Seq<char>) -> bool {
    p.len() <= s.len() && s.take(p.len() as int) == p
}

/// The characters `test`.
pub open spec fn test_word() -> Seq<char> {
    seq!['t', 'e', 's', 't']
}

/// The characters `alpha`.
pub open spec fn alpha_word() -> Seq<char> {
    seq!['a', 'l', 'p', 'h', 'a']
}

/// The characters `beta`.
pub open spec fn beta_word() -> Seq<char> {
    seq!['b', 'e', 't', 'a']
}

/// Whether a whole segment is a package version under buf's `PACKAGE_VERSION_SUFFIX` rule:
/// `v\d+`, `v\d+test.*`, `v\d+(alpha|beta)\d*`, or `v\d+p\d+(alpha|beta)\d*`, each numeric part
/// at least 1 by value.
pub open spec fn is_version_view(seg: Seq<char>) -> bool {
    seg.len() > 0 && seg[0] == 'v' && match strip_number_view(seg.skip(1)) {
        None => false,
        Some(rest) => rest.len() == 0 || starts_with(rest, test_word()) || match (if rest[0]
            == 'p' {
            strip_number_view(rest.skip(1))
        } else {
            Some(rest)
        }) {
            None => false,
            Some(stability) => match (if starts_with(stability, alpha_word()) {
                Some(stability.skip(5))
            } else if starts_with(stability, beta_word()) {
                Some(stability.skip(4))
            } else {
                None
            }) {
                None => false,
                Some(number) => number.len() == 0 || strip_number_view(number) == Some(
                    Seq::<char>::empty(),
                ),
            },
        },
    }
}

/// The index of the last `.` in `s`, if any.
pub open spec fn last_dot(s: Seq<char>) -> Option<int>
    decreases s.len(),
{
    if s.len() == 0 {
        None
    } else if s.last() == '.' {
        Some(s.len() - 1)
    } else {
        last_dot(s.drop_last())
    }
}

/// A package with its trailing version segment stripped: the prefix before the last `.` when the
/// segment after it is a version, else the package itself.
pub open spec fn normalized(p: Seq<char>) -> Seq<char> {
    match last_dot(p) {
        Some(i) => if is_version_view(p.skip(i + 1)) {
            p.take(i)
        } else {
            p
        },
        None => p,
    }
}

/// A path relative to its declaring package: the path past `package.` when it opens with
/// that whole run of segments, else the whole path (the empty package included).
pub open spec fn relative_view(path: Seq<char>, package: Seq<char>) -> Seq<char> {
    if package.len() > 0 && package.len() < path.len() && path.take(package.len() as int)
        == package && path[package.len() as int] == '.' {
        path.skip((package.len() + 1) as int)
    } else {
        path
    }
}

/// The characters `v[from..]`, copied.
fn skip_chars(v: &[char], from: usize) -> (r: Vec<char>)
    requires
        from <= v@.len(),
    ensures
        r@ == v@.skip(from as int),
{
    let mut r: Vec<char> = Vec::new();
    let mut i = from;
    while i < v.len()
        invariant
            from <= i <= v@.len(),
            r@ == v@.subrange(from as int, i as int),
        decreases v@.len() - i,
    {
        r.push(v[i]);
        proof {
            assert(v@.subrange(from as int, i + 1) =~= v@.subrange(from as int, i as int).push(
                v@[i as int],
            ));
        }
        i = i + 1;
    }
    proof {
        assert(v@.subrange(from as int, v@.len() as int) =~= v@.skip(from as int));
    }
    r
}

proof fn lemma_digits_step(s: Seq<char>, j: int)
    requires
        0 <= j < s.len(),
        is_ascii_digit(s[j]),
    ensures
        digits_len(s.skip(j)) == 1 + digits_len(s.skip(j + 1)),
{
    assert(s.skip(j).drop_first() =~= s.skip(j + 1));
    assert(s.skip(j)[0] == s[j]);
}

/// The index just past the numeric part opening `v`, when it is a run of value at least 1.
fn strip_number(v: &[char]) -> (r: Option<usize>)
    ensures
        match strip_number_view(v@) {
            None => r is None,
            Some(rest) => r matches Some(n) && n <= v@.len() && rest == v@.skip(n as int),
        },
{
    let mut j: usize = 0;
    let mut nonzero = false;
    proof {
        assert(v@.skip(0) =~= v@);
    }
    while j < v.len() && '0' <= v[j] && v[j] <= '9'
        invariant
            j <= v@.len(),
            digits_len(v@) == j + digits_len(v@.skip(j as int)),
            forall|i: int| 0 <= i < j ==> is_ascii_digit(#[trigger] v@[i]),
            nonzero == exists|i: int| 0 <= i < j && v@[i] != '0',
        decreases v@.len() - j,
    {
        proof {
            lemma_digits_step(v@, j as int);
        }
        if v[j] != '0' {
            nonzero = true;
        }
        j = j + 1;
    }
    proof {
        if j < v@.len() {
            assert(v@.skip(j as int)[0] == v@[j as int]);
        }
        assert(digits_len(v@.skip(j as int)) == 0);
    }
    if nonzero {
        Some(j)
    } else {
        None
    }
}

/// Whether `v` opens with the characters of `p`.
fn chars_start_with(v: &[char], p: &[char]) -> (r: bool)
    ensures
        r == starts_with(v@, p@),
{
    if p.len() > v.len() {
        return false;
    }
    let mut i: usize = 0;
    while i < p.len()
        invariant
            p@.len() <= v@.len(),
            i <= p@.len(),
            forall|j: int| 0 <= j < i ==> v@[j] == p@[j],
        decreases p@.len() - i,
    {
        if v[i] != p[i] {
            assert(v@.take(p@.len() as int)[i as int] == v@[i as int]);
            return false;
        }
        i = i + 1;
    }
    assert(v@.take(p@.len() as int) =~= p@);
    true
}

/// Whether the characters `v` are a whole version segment.
fn is_version_chars(v: &[char]) -> (r: bool)
    ensures
        r == is_version_view(v@),
{
    if v.len() == 0 || v[0] != 'v' {
        return false;
    }
    let after_v = skip_chars(v, 1);
    let rest = match strip_number(after_v.as_slice()) {
        None => return false,
        Some(n) => skip_chars(after_v.as_slice(), n),
    };
    let test: Vec<char> = vec!['t', 'e', 's', 't'];
    proof {
        assert(test@ =~= test_word());
    }
    if rest.len() == 0 || chars_start_with(rest.as_slice(), test.as_slice()) {
        return true;
    }
    let stability = if rest[0] == 'p' {
        let after_p = skip_chars(rest.as_slice(), 1);
        match strip_number(after_p.as_slice()) {
            None => return false,
            Some(n) => skip_chars(after_p.as_slice(), n),
        }
    } else {
        rest
    };
    let alpha: Vec<char> = vec!['a', 'l', 'p', 'h', 'a'];
    let beta: Vec<char> = vec!['b', 'e', 't', 'a'];
    proof {
        assert(alpha@ =~= alpha_word());
        assert(beta@ =~= beta_word());
    }
    let number = if chars_start_with(stability.as_slice(), alpha.as_slice()) {
        skip_chars(stability.as_slice(), 5)
    } else if chars_start_with(stability.as_slice(), beta.as_slice()) {
        skip_chars(stability.as_slice(), 4)
    } else {
        return false;
    };
    if number.len() == 0 {
        return true;
    }
    match strip_number(number.as_slice()) {
        None => false,
        Some(n) => {
            proof {
                assert(number@.skip(n as int).len() == 0 <==> n == number@.len());
                if n == number@.len() {
                    assert(number@.skip(n as int) =~= Seq::<char>::empty());
                }
            }
            n == number.len()
        },
    }
}

/// Whether `segment` is a package version under buf's `PACKAGE_VERSION_SUFFIX` rule (see
/// [`is_version_view`]): `v1`, `v1test`, `v1beta1`, `v1p1beta1` are; `v1things`, `v1p1`, `V1`,
/// and `v0` are not.
pub fn is_version_segment(segment: &str) -> (r: bool)
    ensures
        r == is_version_view(segment@),
{
    let v = chars_of(segment);
    is_version_chars(v.as_slice())
}

/// A package with its trailing version segment stripped — the key under which a unit is
/// matched across schema versions, so `thermal.v1` and `thermal.v2` are one unit, `thermal`.
/// Only the last segment is examined, and a lone version segment is not stripped. Returns a
/// prefix of its input.
pub fn normalize_package(package: &str) -> (r: &str)
    ensures
        r@ == normalized(package@),
{
    let v = chars_of(package);
    let mut i = v.len();
    proof {
        assert(v@.take(v@.len() as int) =~= v@);
    }
    while i > 0 && v[i - 1] != '.'
        invariant
            v@ == package@,
            i <= v@.len(),
            last_dot(v@) == last_dot(v@.take(i as int)),
        decreases i,
    {
        proof {
            assert(v@.take(i as int).drop_last() =~= v@.take(i - 1));
        }
        i = i - 1;
    }
    if i == 0 {
        proof {
            assert(v@.take(0).len() == 0);
        }
        return package;
    }
    let dot = i - 1;
    proof {
        assert(v@.take(i as int).last() == '.');
        assert(last_dot(v@) == Some(dot as int));
    }
    let segment = skip_chars(v.as_slice(), dot + 1);
    if is_version_chars(segment.as_slice()) {
        package.substring_char(0, dot)
    } else {
        package
    }
}

/// A sort's or enum's path relative to its declaring package: `thermal.v1.Outer.Inner` in
/// `thermal.v1` is `Outer.Inner`. Only a whole run of leading segments is stripped; a path
/// outside the package, or one under the empty package, is returned whole.
pub fn relative_name<'a>(path: &'a str, package: &str) -> (r: &'a str)
    ensures
        r@ == relative_view(path@, package@),
{
    let p = chars_of(path);
    let q = chars_of(package);
    if q.len() == 0 || q.len() >= p.len() {
        return path;
    }
    if !chars_start_with(p.as_slice(), q.as_slice()) || p[q.len()] != '.' {
        return path;
    }
    path.substring_char(q.len() + 1, p.len())
}

} // verus!
