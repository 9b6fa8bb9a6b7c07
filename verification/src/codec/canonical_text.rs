//! Canonical map-entry ordering for the outbound textproto encode: the engine writes a map
//! field's entries in its hash map's iteration order, which is no function of the map's
//! contents, so each map field's `[…]` entries are re-ordered by key over the engine's own
//! compact text, recursively through nested messages. The compact grammar: a message body is
//! comma-separated fields; a singular scalar is `name:value`, a singular message `name{body}`,
//! and a repeated or map field `name:[elem,…]`, a map element being `{key:K,value:V}` (or
//! `{key:K,value{…}}` for a message value). Total: a shape the grammar does not admit leaves the
//! text unchanged. The lexical pieces: a body split on a separator at the top level (outside
//! `{}`/`[]` and `"…"` strings), a field's name split off at its first top-level `:` or `{`, and
//! a balanced pair stripped.
use vstd::prelude::*;

use crate::codec::layout::{arena_closed, by_name, field_by_name, FieldLayout, MessageLayout};
use crate::text::{chars_of, lemma_seq_lt_total, lemma_seq_lt_transitive, owned, push_char, seq_lt, str_lt};

verus! {

broadcast use vstd::string::group_string_axioms;

use vstd::string::StrSliceExecFns;

/// The parts the scan of `s` cuts at top-level `sep`s, from position `at`, at bracket depth
/// `depth`, inside a string or not (and just past a `\` in one or not), with the current part
/// opened at `start`: a `"` opens a string that runs to an unescaped `"`; `{`/`[` deepen and
/// `}`/`]` shallow (never below zero) outside strings; a `sep` at depth zero outside strings
/// closes a part.
pub open spec fn split_scan(
    s: Seq<char>,
    sep: char,
    at: int,
    depth: nat,
    in_string: bool,
    escaped: bool,
    start: int,
) -> Seq<Seq<char>>
    decreases s.len() - at,
{
    if at < 0 || at >= s.len() {
        seq![s.subrange(start, s.len() as int)]
    } else {
        let c = s[at];
        if in_string {
            if escaped {
                split_scan(s, sep, at + 1, depth, true, false, start)
            } else if c == '\\' {
                split_scan(s, sep, at + 1, depth, true, true, start)
            } else if c == '"' {
                split_scan(s, sep, at + 1, depth, false, false, start)
            } else {
                split_scan(s, sep, at + 1, depth, true, false, start)
            }
        } else if c == '"' {
            split_scan(s, sep, at + 1, depth, true, false, start)
        } else if c == '{' || c == '[' {
            split_scan(s, sep, at + 1, depth + 1, false, false, start)
        } else if c == '}' || c == ']' {
            split_scan(
                s,
                sep,
                at + 1,
                if depth > 0 {
                    (depth - 1) as nat
                } else {
                    0
                },
                false,
                false,
                start,
            )
        } else if c == sep && depth == 0 {
            seq![s.subrange(start, at)] + split_scan(s, sep, at + 1, depth, false, false, at + 1)
        } else {
            split_scan(s, sep, at + 1, depth, false, false, start)
        }
    }
}

/// `s` split on `sep` at the top level (see [`split_scan`]): empty text yields no parts, and
/// text with no separator is one part.
pub open spec fn split_view(s: Seq<char>, sep: char) -> Seq<Seq<char>> {
    if s.len() == 0 {
        Seq::empty()
    } else {
        split_scan(s, sep, 0, 0, false, false, 0)
    }
}

/// Split `s` on `sep` at the top level — depth 0 over `{}`/`[]`, outside `"…"` strings
/// (respecting `\` escapes). Empty input yields no parts.
pub fn split_top(s: &str, sep: char) -> (r: Vec<&str>)
    ensures
        r@.map_values(|p: &str| p@) == split_view(s@, sep),
{
    let chars = chars_of(s);
    let ghost t = chars@;
    let n = chars.len();
    let mut parts: Vec<&str> = Vec::new();
    if n == 0 {
        proof {
            assert(parts@.map_values(|p: &str| p@) =~= Seq::<Seq<char>>::empty());
        }
        return parts;
    }
    let mut depth: usize = 0;
    let mut in_string = false;
    let mut escaped = false;
    let mut start: usize = 0;
    let mut at: usize = 0;
    while at < n
        invariant
            t == chars@,
            t == s@,
            n == t.len(),
            at <= n,
            start <= at,
            depth <= at,
            !in_string ==> !escaped,
            split_view(t, sep) == parts@.map_values(|p: &str| p@) + split_scan(
                t,
                sep,
                at as int,
                depth as nat,
                in_string,
                escaped,
                start as int,
            ),
        decreases n - at,
    {
        let c = chars[at];
        if in_string {
            if escaped {
                escaped = false;
            } else if c == '\\' {
                escaped = true;
            } else if c == '"' {
                in_string = false;
            }
        } else if c == '"' {
            in_string = true;
        } else if c == '{' || c == '[' {
            depth = depth + 1;
        } else if c == '}' || c == ']' {
            if depth > 0 {
                depth = depth - 1;
            }
        } else if c == sep && depth == 0 {
            let ghost before = parts@;
            let part = s.substring_char(start, at);
            parts.push(part);
            proof {
                assert(parts@.map_values(|p: &str| p@) =~= before.map_values(|p: &str| p@).push(
                    t.subrange(start as int, at as int),
                ));
                assert(parts@.map_values(|p: &str| p@) + split_scan(
                    t,
                    sep,
                    at + 1,
                    depth as nat,
                    false,
                    false,
                    at + 1,
                ) =~= before.map_values(|p: &str| p@) + (seq![t.subrange(start as int, at as int)]
                    + split_scan(t, sep, at + 1, depth as nat, false, false, at + 1)));
            }
            start = at + 1;
        }
        at = at + 1;
    }
    let ghost before = parts@;
    let last = s.substring_char(start, n);
    parts.push(last);
    proof {
        assert(parts@.map_values(|p: &str| p@) =~= before.map_values(|p: &str| p@) + seq![
            t.subrange(start as int, n as int),
        ]);
    }
    parts
}

/// The position of the first `:` or `{` of `s` outside a `"…"` string, scanning from `at`.
pub open spec fn name_end(s: Seq<char>, at: int, in_string: bool, escaped: bool) -> Option<int>
    decreases s.len() - at,
{
    if at < 0 || at >= s.len() {
        None
    } else {
        let c = s[at];
        if in_string {
            if escaped {
                name_end(s, at + 1, true, false)
            } else if c == '\\' {
                name_end(s, at + 1, true, true)
            } else if c == '"' {
                name_end(s, at + 1, false, false)
            } else {
                name_end(s, at + 1, true, false)
            }
        } else if c == '"' {
            name_end(s, at + 1, true, false)
        } else if c == ':' || c == '{' {
            Some(at)
        } else {
            name_end(s, at + 1, false, false)
        }
    }
}

/// A found name end lies within the text.
proof fn lemma_name_end_bounds(s: Seq<char>, at: int, in_string: bool, escaped: bool)
    requires
        0 <= at,
    ensures
        name_end(s, at, in_string, escaped) matches Some(i) ==> at <= i < s.len() && (s[i] == ':'
            || s[i] == '{'),
    decreases s.len() - at,
{
    if at < s.len() {
        let c = s[at];
        if in_string {
            if escaped {
                lemma_name_end_bounds(s, at + 1, true, false);
            } else if c == '\\' {
                lemma_name_end_bounds(s, at + 1, true, true);
            } else if c == '"' {
                lemma_name_end_bounds(s, at + 1, false, false);
            } else {
                lemma_name_end_bounds(s, at + 1, true, false);
            }
        } else if c == '"' {
            lemma_name_end_bounds(s, at + 1, true, false);
        } else if c == ':' || c == '{' {
        } else {
            lemma_name_end_bounds(s, at + 1, false, false);
        }
    }
}

/// Split the name off the front of a field: the name, the separator (`:` or `{`) that ends it,
/// and the remainder from the separator on — or `None` if neither separator appears outside a
/// string.
pub fn split_name(field: &str) -> (r: Option<(&str, char, &str)>)
    ensures
        r matches Some(x) ==> (name_end(field@, 0, false, false) matches Some(i) && x.0@
            == field@.subrange(0, i) && x.1 == field@[i] && x.2@ == field@.subrange(
            i,
            field@.len() as int,
        )),
        r is None ==> name_end(field@, 0, false, false) is None,
{
    let chars = chars_of(field);
    let ghost t = chars@;
    let n = chars.len();
    let mut in_string = false;
    let mut escaped = false;
    let mut at: usize = 0;
    proof {
        lemma_name_end_bounds(t, 0, false, false);
    }
    while at < n
        invariant
            t == chars@,
            t == field@,
            n == t.len(),
            at <= n,
            !in_string ==> !escaped,
            name_end(t, 0, false, false) == name_end(t, at as int, in_string, escaped),
        decreases n - at,
    {
        let c = chars[at];
        if in_string {
            if escaped {
                escaped = false;
            } else if c == '\\' {
                escaped = true;
            } else if c == '"' {
                in_string = false;
            }
        } else if c == '"' {
            in_string = true;
        } else if c == ':' || c == '{' {
            return Some((field.substring_char(0, at), c, field.substring_char(at, n)));
        }
        at = at + 1;
    }
    None
}

/// `s` with `open` stripped from its front and `close` from its back, when it has both.
pub open spec fn strip_view(s: Seq<char>, open: char, close: char) -> Option<Seq<char>> {
    if s.len() >= 2 && s[0] == open && s[s.len() - 1] == close {
        Some(s.subrange(1, s.len() - 1))
    } else {
        None
    }
}

/// If `s` is `open … close`, the content between them.
pub fn strip(s: &str, open: char, close: char) -> (r: Option<&str>)
    ensures
        r matches Some(x) ==> strip_view(s@, open, close) == Some(x@),
        r is None ==> strip_view(s@, open, close) is None,
{
    let n = s.unicode_len();
    if n >= 2 && s.get_char(0) == open && s.get_char(n - 1) == close {
        Some(s.substring_char(1, n - 1))
    } else {
        None
    }
}


// ---------------------------------------------------------------------------------------------
// A map entry's key.
// ---------------------------------------------------------------------------------------------

/// The parts of a split lie within the text: none is longer.
proof fn lemma_split_scan_parts(
    s: Seq<char>,
    sep: char,
    at: int,
    depth: nat,
    in_string: bool,
    escaped: bool,
    start: int,
)
    requires
        0 <= start <= at <= s.len(),
    ensures
        forall|i: int|
            0 <= i < split_scan(s, sep, at, depth, in_string, escaped, start).len() ==> (#[trigger] split_scan(
                s,
                sep,
                at,
                depth,
                in_string,
                escaped,
                start,
            )[i]).len() <= s.len(),
    decreases s.len() - at,
{
    let all = split_scan(s, sep, at, depth, in_string, escaped, start);
    if at < s.len() {
        let c = s[at];
        let (d2, i2, e2, st2): (nat, bool, bool, int) = if in_string {
            if escaped {
                (depth, true, false, start)
            } else if c == '\\' {
                (depth, true, true, start)
            } else if c == '"' {
                (depth, false, false, start)
            } else {
                (depth, true, false, start)
            }
        } else if c == '"' {
            (depth, true, false, start)
        } else if c == '{' || c == '[' {
            (depth + 1, false, false, start)
        } else if c == '}' || c == ']' {
            (if depth > 0 {
                (depth - 1) as nat
            } else {
                0
            }, false, false, start)
        } else if c == sep && depth == 0 {
            (depth, false, false, at + 1)
        } else {
            (depth, false, false, start)
        };
        lemma_split_scan_parts(s, sep, at + 1, d2, i2, e2, st2);
        let rest = split_scan(s, sep, at + 1, d2, i2, e2, st2);
        if !in_string && c != '"' && c != '{' && c != '[' && c != '}' && c != ']' && c == sep && depth == 0 {
            assert(all == seq![s.subrange(start, at)] + rest);
            assert forall|i: int| 0 <= i < all.len() implies all[i].len() <= s.len() by {
                if i > 0 {
                    assert(all[i] == rest[i - 1]);
                }
            }
        } else {
            assert(all == rest);
        }
    } else {
        assert(all == seq![s.subrange(start, s.len() as int)]);
    }
}

/// No part of a split is longer than the text split.
proof fn lemma_split_parts(s: Seq<char>, sep: char)
    ensures
        forall|i: int| 0 <= i < split_view(s, sep).len() ==> (#[trigger] split_view(s, sep)[i]).len() <= s.len(),
{
    if s.len() > 0 {
        lemma_split_scan_parts(s, sep, 0, 0, false, false, 0);
    }
}

/// The characters `key:`.
pub open spec fn key_prefix() -> Seq<char> {
    seq!['k', 'e', 'y', ':']
}

/// Whether `s` opens with `p`.
pub open spec fn opens_with(s: Seq<char>, p: Seq<char>) -> bool {
    p.len() <= s.len() && s.take(p.len() as int) == p
}

/// The token after `key:` in the first part that opens with it; empty when none does (a default
/// key, which proto3 may omit).
pub open spec fn first_key(parts: Seq<Seq<char>>) -> Seq<char>
    decreases parts.len(),
{
    if parts.len() == 0 {
        Seq::empty()
    } else if opens_with(parts[0], key_prefix()) {
        parts[0].skip(4)
    } else {
        first_key(parts.drop_first())
    }
}

/// The value of a non-empty run of decimal digits; `None` for anything else.
pub open spec fn digits_value(s: Seq<char>) -> Option<int>
    decreases s.len(),
{
    if s.len() == 0 || !('0' <= s.last() <= '9') {
        None
    } else if s.len() == 1 {
        Some(s.last() as int - '0' as int)
    } else {
        match digits_value(s.drop_last()) {
            Some(v) => Some(10 * v + (s.last() as int - '0' as int)),
            None => None,
        }
    }
}

/// A decimal integer's value: an optional `+` or `-`, then digits.
pub open spec fn integer_value(s: Seq<char>) -> Option<int> {
    if s.len() > 0 && s[0] == '-' {
        match digits_value(s.drop_first()) {
            Some(v) => Some(-v),
            None => None,
        }
    } else if s.len() > 0 && s[0] == '+' {
        digits_value(s.drop_first())
    } else {
        digits_value(s)
    }
}

/// A map entry's ordering key, as mathematics: a number, or a token.
pub enum TextKeyView {
    /// A key that reads as an `i128`.
    Number(int),
    /// Any other key, by its text.
    Token(Seq<char>),
}

/// A key token's ordering key: its `i128` value when it reads as one, else the token itself.
pub open spec fn text_key(token: Seq<char>) -> TextKeyView {
    match integer_value(token) {
        Some(v) => if i128::MIN <= v <= i128::MAX {
            TextKeyView::Number(v)
        } else {
            TextKeyView::Token(token)
        },
        None => TextKeyView::Token(token),
    }
}

/// A map element's ordering key: the key of its `key:` part, when it is a `{…}` element.
pub open spec fn entry_key_view(element: Seq<char>) -> Option<TextKeyView> {
    match strip_view(element, '{', '}') {
        Some(body) => Some(text_key(first_key(split_view(body, ',')))),
        None => None,
    }
}

/// Whether key `a` orders at or before key `b`: numbers before tokens, numbers by value, tokens
/// by their characters.
pub open spec fn text_key_le(a: TextKeyView, b: TextKeyView) -> bool {
    match (a, b) {
        (TextKeyView::Number(x), TextKeyView::Number(y)) => x <= y,
        (TextKeyView::Token(x), TextKeyView::Token(y)) => x == y || seq_lt(x, y),
        (TextKeyView::Number(_), TextKeyView::Token(_)) => true,
        (TextKeyView::Token(_), TextKeyView::Number(_)) => false,
    }
}

/// A map entry's ordering key.
#[derive(Clone, Debug, PartialEq, Eq)]
pub enum TextKey {
    /// A key that reads as an `i128`.
    Number(i128),
    /// Any other key, by its text.
    Token(String),
}

impl View for TextKey {
    type V = TextKeyView;

    open spec fn view(&self) -> TextKeyView {
        match self {
            TextKey::Number(n) => TextKeyView::Number(*n as int),
            TextKey::Token(t) => TextKeyView::Token(t@),
        }
    }
}

/// The value of the decimal digits `v[from..]`: `Ok(Some(..))` when they are a non-empty run of
/// digits worth at most `2^127`, `Ok(None)` when they are no such run, and `Err(())` when reading
/// them passed `2^127`.
fn digits_of(v: &Vec<char>, from: usize) -> (r: Result<Option<u128>, ()>)
    requires
        from <= v@.len(),
    ensures
        match r {
            Ok(Some(m)) => digits_value(v@.skip(from as int)) == Some(m as int) && m <= 0x8000_0000_0000_0000_0000_0000_0000_0000u128,
            Ok(None) => digits_value(v@.skip(from as int)) is None,
            Err(()) => digits_value(v@.skip(from as int)) matches Some(x) ==> x > 0x8000_0000_0000_0000_0000_0000_0000_0000,
        },
{
    let ghost t = v@.skip(from as int);
    if from == v.len() {
        return Ok(None);
    }
    let mut i: usize = from;
    let mut value: u128 = 0;
    while i < v.len()
        invariant
            from <= i <= v@.len(),
            t == v@.skip(from as int),
            from < v@.len(),
            i == from ==> value == 0,
            i > from ==> digits_value(t.take(i - from)) == Some(value as int),
            value <= 0x8000_0000_0000_0000_0000_0000_0000_0000u128,
        decreases v@.len() - i,
    {
        let c = v[i];
        proof {
            assert(t.take(i - from + 1).drop_last() =~= t.take(i - from));
            assert(t.take(i - from + 1).last() == c);
        }
        if !('0' <= c && c <= '9') {
            proof {
                lemma_digits_stop(t, i - from);
            }
            return Ok(None);
        }
        let d = (c as u32 - '0' as u32) as u128;
        if value > 0x0CCC_CCCC_CCCC_CCCC_CCCC_CCCC_CCCC_CCCC {
            proof {
                lemma_digits_grow(t, i - from, value as int);
            }
            return Err(());
        }
        let next = value * 10 + d;
        if next > 0x8000_0000_0000_0000_0000_0000_0000_0000u128 {
            proof {
                assert(digits_value(t.take(i - from + 1)) == Some(next as int));
                lemma_digits_grow(t, i - from + 1, next as int);
            }
            return Err(());
        }
        value = next;
        i = i + 1;
    }
    proof {
        assert(t.take(i - from) =~= t);
    }
    Ok(Some(value))
}

/// A non-digit among the first `k + 1` characters leaves no value, for the whole text too.
proof fn lemma_digits_stop(t: Seq<char>, k: int)
    requires
        0 <= k < t.len(),
        !('0' <= t[k] <= '9'),
    ensures
        digits_value(t) is None,
    decreases t.len() - k,
{
    if k < t.len() - 1 {
        assert(t.drop_last()[k] == t[k]);
        lemma_digits_stop(t.drop_last(), k);
    }
}

/// Digits read past a value already above `2^127 / 10`, or above `2^127`, read past `2^127`.
proof fn lemma_digits_grow(t: Seq<char>, k: int, value: int)
    requires
        0 < k <= t.len(),
        digits_value(t.take(k)) == Some(value),
        k < t.len() ==> value > 0x0CCC_CCCC_CCCC_CCCC_CCCC_CCCC_CCCC_CCCC,
        k == t.len() ==> value > 0x8000_0000_0000_0000_0000_0000_0000_0000,
    ensures
        digits_value(t) matches Some(x) ==> x > 0x8000_0000_0000_0000_0000_0000_0000_0000,
    decreases t.len() - k,
{
    if k == t.len() {
        assert(t.take(k) =~= t);
    } else {
        let u = t.take(k + 1);
        assert(u.drop_last() =~= t.take(k));
        if '0' <= t[k] <= '9' {
            let next = 10 * value + (t[k] as int - '0' as int);
            assert(digits_value(u) == Some(next));
            if k + 1 < t.len() {
                lemma_digits_grow_more(t, k + 1, next);
            } else {
                assert(u =~= t);
            }
        } else {
            lemma_digits_stop(t, k);
        }
    }
}

/// Digits read past a value above `2^127` stay above it.
proof fn lemma_digits_grow_more(t: Seq<char>, k: int, value: int)
    requires
        0 < k <= t.len(),
        digits_value(t.take(k)) == Some(value),
        value > 0x8000_0000_0000_0000_0000_0000_0000_0000,
    ensures
        digits_value(t) matches Some(x) ==> x > 0x8000_0000_0000_0000_0000_0000_0000_0000,
    decreases t.len() - k,
{
    if k == t.len() {
        assert(t.take(k) =~= t);
    } else {
        let u = t.take(k + 1);
        assert(u.drop_last() =~= t.take(k));
        if '0' <= t[k] <= '9' {
            lemma_digits_grow_more(t, k + 1, 10 * value + (t[k] as int - '0' as int));
        } else {
            lemma_digits_stop(t, k);
        }
    }
}

/// A key token's ordering key.
pub fn text_key_of(token: &str) -> (r: TextKey)
    ensures
        r@ == text_key(token@),
{
    let v = chars_of(token);
    let ghost t = v@;
    let negative = v.len() > 0 && v[0] == '-';
    let signed = v.len() > 0 && (v[0] == '-' || v[0] == '+');
    let from: usize = if signed { 1 } else { 0 };
    proof {
        assert(t.skip(0) =~= t);
        if signed {
            assert(t.skip(1) =~= t.drop_first());
        }
    }
    match digits_of(&v, from) {
        Ok(Some(m)) => {
            if negative {
                if m == 0x8000_0000_0000_0000_0000_0000_0000_0000u128 {
                    TextKey::Number(i128::MIN)
                } else {
                    TextKey::Number(-(m as i128))
                }
            } else if m <= 0x7FFF_FFFF_FFFF_FFFF_FFFF_FFFF_FFFF_FFFFu128 {
                TextKey::Number(m as i128)
            } else {
                TextKey::Token(owned(token))
            }
        },
        _ => TextKey::Token(owned(token)),
    }
}


/// A map element's ordering key: the key of its `key:` part, when it is a `{…}` element.
pub fn entry_key(element: &str) -> (r: Option<TextKey>)
    ensures
        match (r, entry_key_view(element@)) {
            (Some(k), Some(w)) => k@ == w,
            (None, None) => true,
            _ => false,
        },
{
    let body = strip(element, '{', '}')?;
    let parts = split_top(body, ',');
    let ghost ps = parts@.map_values(|p: &str| p@);
    let mut k: usize = 0;
    proof {
        reveal_strlit("key:");
        assert("key:"@ =~= key_prefix());
        assert(ps.skip(0) =~= ps);
    }
    while k < parts.len()
        invariant
            k <= parts@.len(),
            ps == parts@.map_values(|p: &str| p@),
            ps == split_view(body@, ','),
            strip_view(element@, '{', '}') == Some(body@),
            "key:"@ == key_prefix(),
            first_key(ps) == first_key(ps.skip(k as int)),
        decreases parts@.len() - k,
    {
        let part = parts[k];
        let n = part.unicode_len();
        let opens = n >= 4 && crate::text::str_eq(part.substring_char(0, 4), "key:");
        proof {
            assert(ps.skip(k as int)[0] == part@);
            assert(ps.skip(k as int).drop_first() =~= ps.skip(k + 1));
            if n >= 4 {
                assert(part@.take(4) =~= part@.subrange(0, 4));
            }
            assert(opens == opens_with(part@, key_prefix()));
        }
        if opens {
            let token = part.substring_char(4, n);
            proof {
                assert(token@ =~= part@.skip(4));
            }
            return Some(text_key_of(token));
        }
        k = k + 1;
    }
    proof {
        assert(ps.skip(k as int) =~= Seq::<Seq<char>>::empty());
        assert(first_key(Seq::<Seq<char>>::empty()) == Seq::<char>::empty());
        reveal_strlit("");
        assert(""@ =~= Seq::<char>::empty());
    }
    Some(text_key_of(""))
}


// ---------------------------------------------------------------------------------------------
// A map's entries in key order.
// ---------------------------------------------------------------------------------------------

/// An entry placed into entries already in key order: after every entry whose key orders at or
/// before its own, so equal keys keep their arrival order.
pub open spec fn text_place(s: Seq<(TextKeyView, Seq<char>)>, e: (TextKeyView, Seq<char>)) -> Seq<
    (TextKeyView, Seq<char>),
>
    decreases s.len(),
{
    if s.len() == 0 || text_key_le(s.last().0, e.0) {
        s.push(e)
    } else {
        text_place(s.drop_last(), e).push(s.last())
    }
}

/// Entries in key order, equal keys in arrival order: each placed in turn.
pub open spec fn text_sort(s: Seq<(TextKeyView, Seq<char>)>) -> Seq<(TextKeyView, Seq<char>)>
    decreases s.len(),
{
    if s.len() == 0 {
        s
    } else {
        text_place(text_sort(s.drop_last()), s.last())
    }
}

/// Whether entries are in key order.
pub open spec fn text_sorted(s: Seq<(TextKeyView, Seq<char>)>) -> bool {
    forall|i: int, j: int| 0 <= i < j < s.len() ==> text_key_le(#[trigger] s[i].0, #[trigger] s[j].0)
}

/// The key order is total and transitive.
proof fn lemma_text_key_le(a: TextKeyView, b: TextKeyView, c: TextKeyView)
    ensures
        text_key_le(a, b) || text_key_le(b, a),
        text_key_le(a, b) && text_key_le(b, c) ==> text_key_le(a, c),
{
    match (a, b) {
        (TextKeyView::Token(x), TextKeyView::Token(y)) => {
            lemma_seq_lt_total(x, y);
        },
        _ => {},
    }
    if text_key_le(a, b) && text_key_le(b, c) {
        match (a, b, c) {
            (TextKeyView::Token(x), TextKeyView::Token(y), TextKeyView::Token(z)) => {
                if seq_lt(x, y) && seq_lt(y, z) {
                    lemma_seq_lt_transitive(x, y, z);
                }
            },
            _ => {},
        }
    }
}

/// Placing an entry behind one whose key orders at or before it, before a run whose keys all
/// order after it, is inserting it there.
proof fn lemma_text_place_at(s: Seq<(TextKeyView, Seq<char>)>, e: (TextKeyView, Seq<char>), j: int)
    requires
        0 <= j <= s.len(),
        forall|k: int| j <= k < s.len() ==> !text_key_le(#[trigger] s[k].0, e.0),
        j == 0 || text_key_le(s[j - 1].0, e.0),
    ensures
        text_place(s, e) == s.insert(j, e),
    decreases s.len(),
{
    if j == s.len() {
        assert(s.insert(j, e) =~= s.push(e));
    } else {
        let t = s.drop_last();
        assert(!text_key_le(s[s.len() - 1].0, e.0));
        lemma_text_place_at(t, e, j);
        assert(t.insert(j, e).push(s.last()) =~= s.insert(j, e));
    }
}

/// Placing keeps entries in key order.
proof fn lemma_text_place(s: Seq<(TextKeyView, Seq<char>)>, e: (TextKeyView, Seq<char>))
    requires
        text_sorted(s),
    ensures
        text_sorted(text_place(s, e)),
        text_place(s, e).to_multiset() == s.to_multiset().insert(e),
    decreases s.len(),
{
    broadcast use {vstd::seq_lib::group_to_multiset_ensures, vstd::multiset::group_multiset_axioms};

    if s.len() == 0 || text_key_le(s.last().0, e.0) {
        assert forall|i: int, j: int| 0 <= i < j < s.push(e).len() implies text_key_le(
            #[trigger] s.push(e)[i].0,
            #[trigger] s.push(e)[j].0,
        ) by {
            if j == s.len() {
                lemma_text_key_le(s[i].0, s.last().0, e.0);
            }
        }
    } else {
        let t = s.drop_last();
        let l = s.last();
        assert(s =~= t.push(l));
        assert(text_sorted(t));
        lemma_text_place(t, e);
        let p = text_place(t, e);
        lemma_text_key_le(l.0, e.0, e.0);
        assert forall|i: int, j: int| 0 <= i < j < p.push(l).len() implies text_key_le(
            #[trigger] p.push(l)[i].0,
            #[trigger] p.push(l)[j].0,
        ) by {
            if j == p.len() {
                let x = p[i];
                assert(p.contains(x));
                assert(p.to_multiset().count(x) > 0);
                if x != e {
                    assert(t.to_multiset().count(x) > 0);
                    assert(t.contains(x));
                    let k = choose|k: int| 0 <= k < t.len() && t[k] == x;
                    assert(s[k] == x);
                    assert(text_key_le(s[k].0, s[s.len() - 1].0));
                }
            }
        }
        assert(p.push(l).to_multiset() =~= s.to_multiset().insert(e));
    }
}

/// A map's entries put in key order come out in key order, each entry kept: whatever order the
/// engine wrote a map's entries in, the canonical text lists them by key.
pub proof fn lemma_text_sort(s: Seq<(TextKeyView, Seq<char>)>)
    ensures
        text_sorted(text_sort(s)),
        text_sort(s).to_multiset() == s.to_multiset(),
    decreases s.len(),
{
    broadcast use {vstd::seq_lib::group_to_multiset_ensures, vstd::multiset::group_multiset_axioms};

    if s.len() > 0 {
        lemma_text_sort(s.drop_last());
        lemma_text_place(text_sort(s.drop_last()), s.last());
        assert(s.drop_last().push(s.last()) =~= s);
    }
}

/// Whether key `a` orders at or before key `b`.
fn text_key_at_or_before(a: &TextKey, b: &TextKey) -> (r: bool)
    ensures
        r == text_key_le(a@, b@),
{
    match (a, b) {
        (TextKey::Number(x), TextKey::Number(y)) => *x <= *y,
        (TextKey::Token(x), TextKey::Token(y)) => crate::text::str_eq(x.as_str(), y.as_str()) || str_lt(
            x.as_str(),
            y.as_str(),
        ),
        (TextKey::Number(_), TextKey::Token(_)) => true,
        (TextKey::Token(_), TextKey::Number(_)) => false,
    }
}

/// An entry's view.
pub open spec fn text_entry_view(e: (TextKey, String)) -> (TextKeyView, Seq<char>) {
    (e.0@, e.1@)
}

/// Entries' views.
pub open spec fn text_entry_views(es: Seq<(TextKey, String)>) -> Seq<(TextKeyView, Seq<char>)> {
    es.map_values(|e: (TextKey, String)| text_entry_view(e))
}

/// Place an entry into entries already in key order.
fn place_text_entry(entries: &mut Vec<(TextKey, String)>, e: (TextKey, String))
    ensures
        text_entry_views(final(entries)@) == text_place(text_entry_views(old(entries)@), text_entry_view(e)),
{
    let ghost s = text_entry_views(entries@);
    let mut j: usize = entries.len();
    while j > 0 && !text_key_at_or_before(&entries[j - 1].0, &e.0)
        invariant
            j <= entries@.len(),
            s == text_entry_views(entries@),
            entries@ == old(entries)@,
            forall|k: int| j <= k < s.len() ==> !text_key_le(#[trigger] s[k].0, e.0@),
        decreases j,
    {
        j = j - 1;
    }
    proof {
        lemma_text_place_at(s, text_entry_view(e), j as int);
    }
    entries.insert(j, e);
    proof {
        assert(text_entry_views(entries@) =~= s.insert(j as int, text_entry_view(e)));
    }
}


// ---------------------------------------------------------------------------------------------
// The canonical text, as mathematics.
// ---------------------------------------------------------------------------------------------

/// Parts with `sep` between consecutive ones.
pub open spec fn joined(parts: Seq<Seq<char>>, sep: char) -> Seq<char>
    decreases parts.len(),
{
    if parts.len() == 0 {
        Seq::empty()
    } else if parts.len() == 1 {
        parts[0]
    } else {
        joined(parts.drop_last(), sep) + seq![sep] + parts.last()
    }
}

/// The layout of message `m`'s field `name`, when there is such a field.
pub open spec fn field_layout(ls: Seq<MessageLayout>, m: int, name: Seq<char>) -> Option<FieldLayout> {
    if 0 <= m < ls.len() {
        by_name(ls[m].fields@, name)
    } else {
        None
    }
}

/// What a body's fields are read against: a message of the arena, or a map's entry message —
/// its `key` a scalar, and its `value` the map's value (a message of the arena, or a scalar).
#[derive(Clone, Copy, Debug, PartialEq, Eq, Structural)]
pub enum TextScope {
    /// A message of the arena.
    Message(usize),
    /// A map's entry, with the layout of its value when the value is a message.
    Entry(Option<usize>),
}

/// The layout of a scope's field `name`, when there is such a field.
pub open spec fn scope_field(ls: Seq<MessageLayout>, scope: TextScope, name: Seq<char>) -> Option<FieldLayout> {
    match scope {
        TextScope::Message(m) => field_layout(ls, m as int, name),
        TextScope::Entry(v) => if name == seq!['k', 'e', 'y'] {
            Some(FieldLayout::Plain)
        } else if name == seq!['v', 'a', 'l', 'u', 'e'] {
            Some(
                match v {
                    Some(c) => FieldLayout::Message(c),
                    None => FieldLayout::Plain,
                },
            )
        } else {
            None
        },
    }
}

/// Whether every position a scope names lies inside the arena.
pub open spec fn scope_ok(ls: Seq<MessageLayout>, scope: TextScope) -> bool {
    match scope {
        TextScope::Message(m) => m < ls.len(),
        TextScope::Entry(Some(v)) => v < ls.len(),
        TextScope::Entry(None) => true,
    }
}

/// The characters `value{`.
pub open spec fn value_prefix() -> Seq<char> {
    seq!['v', 'a', 'l', 'u', 'e', '{']
}

/// A message body re-emitted with its map fields in key order, recursively; `None` on a shape
/// the compact grammar does not admit. `fuel` bounds the nesting walked.
pub open spec fn canon_body(ls: Seq<MessageLayout>, m: TextScope, body: Seq<char>, fuel: nat) -> Option<Seq<char>>
    decreases fuel, 3int, 0int,
{
    if fuel == 0 {
        None
    } else if body.len() == 0 {
        Some(Seq::empty())
    } else {
        match canon_fields(ls, m, split_view(body, ','), fuel) {
            Some(outs) => Some(joined(outs, ',')),
            None => None,
        }
    }
}

/// A body's fields, each re-emitted.
pub open spec fn canon_fields(ls: Seq<MessageLayout>, m: TextScope, parts: Seq<Seq<char>>, fuel: nat) -> Option<
    Seq<Seq<char>>,
>
    decreases fuel, 2int, parts.len(),
{
    if parts.len() == 0 {
        Some(Seq::empty())
    } else {
        match (canon_fields(ls, m, parts.drop_last(), fuel), canon_field(ls, m, parts.last(), fuel)) {
            (Some(a), Some(b)) => Some(a.push(b)),
            _ => None,
        }
    }
}

/// One field re-emitted: a singular message's body recursed, a list's elements canonicalised,
/// a singular scalar verbatim.
pub open spec fn canon_field(ls: Seq<MessageLayout>, m: TextScope, field: Seq<char>, fuel: nat) -> Option<Seq<char>>
    decreases fuel, 1int, 0int,
{
    if fuel == 0 {
        None
    } else {
        match name_end(field, 0, false, false) {
            None => None,
            Some(i) => {
                let name = field.subrange(0, i);
                let rest = field.subrange(i, field.len() as int);
                if field[i] == '{' {
                    match strip_view(rest, '{', '}') {
                        None => None,
                        Some(inner) => match (match scope_field(ls, m, name) {
                            Some(FieldLayout::Message(c)) => Some(TextScope::Message(c)),
                            Some(FieldLayout::Mapped { value, .. }) => Some(TextScope::Entry(value)),
                            _ => None,
                        }) {
                            Some(child) => match canon_body(ls, child, inner, (fuel - 1) as nat) {
                                Some(b) => Some(name + seq!['{'] + b + seq!['}']),
                                None => None,
                            },
                            None => None,
                        },
                    }
                } else if opens_with(rest, seq![':', '[']) {
                    let after = rest.skip(2);
                    if after.len() > 0 && after.last() == ']' {
                        match canon_list(ls, m, name, after.drop_last(), (fuel - 1) as nat) {
                            Some(l) => Some(name + seq![':', '['] + l + seq![']']),
                            None => None,
                        }
                    } else {
                        None
                    }
                } else {
                    Some(field)
                }
            },
        }
    }
}

/// A `[…]` list's elements re-emitted: a map field's ordered by key (each message value
/// recursed), a message field's recursed in place, a scalar list verbatim.
pub open spec fn canon_list(ls: Seq<MessageLayout>, m: TextScope, name: Seq<char>, inner: Seq<char>, fuel: nat) -> Option<
    Seq<char>,
>
    decreases fuel, 3int, 0int,
{
    if fuel == 0 {
        None
    } else {
        match scope_field(ls, m, name) {
            None => None,
            Some(layout) => if inner.len() == 0 {
                Some(Seq::empty())
            } else {
                match layout {
                    FieldLayout::Mapped { value, .. } => match canon_entries(ls, value, split_view(inner, ','), fuel) {
                        Some(es) => Some(joined(text_sort(es).map_values(|e: (TextKeyView, Seq<char>)| e.1), ',')),
                        None => None,
                    },
                    FieldLayout::Message(c) => match canon_elements(ls, c, split_view(inner, ','), fuel) {
                        Some(outs) => Some(joined(outs, ',')),
                        None => None,
                    },
                    FieldLayout::Plain => Some(inner),
                }
            },
        }
    }
}

/// A repeated message field's `{…}` elements, each body recursed.
pub open spec fn canon_elements(ls: Seq<MessageLayout>, c: usize, elements: Seq<Seq<char>>, fuel: nat) -> Option<
    Seq<Seq<char>>,
>
    decreases fuel, 2int, elements.len(),
{
    if fuel == 0 {
        None
    } else if elements.len() == 0 {
        Some(Seq::empty())
    } else {
        match canon_elements(ls, c, elements.drop_last(), fuel) {
            None => None,
            Some(a) => match strip_view(elements.last(), '{', '}') {
                None => None,
                Some(body) => match canon_body(ls, TextScope::Message(c), body, (fuel - 1) as nat) {
                    Some(b) => Some(a.push(seq!['{'] + b + seq!['}'])),
                    None => None,
                },
            },
        }
    }
}

/// A map field's elements, each with its ordering key and re-emitted.
pub open spec fn canon_entries(
    ls: Seq<MessageLayout>,
    value: Option<usize>,
    elements: Seq<Seq<char>>,
    fuel: nat,
) -> Option<Seq<(TextKeyView, Seq<char>)>>
    decreases fuel, 2int, elements.len(),
{
    if elements.len() == 0 {
        Some(Seq::empty())
    } else {
        match (
            canon_entries(ls, value, elements.drop_last(), fuel),
            entry_key_view(elements.last()),
            canon_entry(ls, value, elements.last(), fuel),
        ) {
            (Some(a), Some(k), Some(t)) => Some(a.push((k, t))),
            _ => None,
        }
    }
}

/// A map entry `{key:K,value:V}` re-emitted, a message value's body recursed.
pub open spec fn canon_entry(ls: Seq<MessageLayout>, value: Option<usize>, element: Seq<char>, fuel: nat) -> Option<
    Seq<char>,
>
    decreases fuel, 1int, 0int,
{
    match strip_view(element, '{', '}') {
        None => None,
        Some(body) => match canon_entry_parts(ls, value, split_view(body, ','), fuel) {
            Some(outs) => Some(seq!['{'] + joined(outs, ',') + seq!['}']),
            None => None,
        },
    }
}

/// A map entry's parts: a message value's `value{…}` recursed, anything else verbatim.
pub open spec fn canon_entry_parts(
    ls: Seq<MessageLayout>,
    value: Option<usize>,
    parts: Seq<Seq<char>>,
    fuel: nat,
) -> Option<Seq<Seq<char>>>
    decreases fuel, 0int, parts.len(),
{
    if fuel == 0 {
        None
    } else if parts.len() == 0 {
        Some(Seq::empty())
    } else {
        match canon_entry_parts(ls, value, parts.drop_last(), fuel) {
            None => None,
            Some(a) => {
                let part = parts.last();
                match value {
                    Some(c) => if opens_with(part, value_prefix()) {
                        let after = part.skip(6);
                        if after.len() > 0 && after.last() == '}' {
                            match canon_body(ls, TextScope::Message(c), after.drop_last(), (fuel - 1) as nat) {
                                Some(b) => Some(a.push(value_prefix() + b + seq!['}'])),
                                None => None,
                            }
                        } else {
                            None
                        }
                    } else {
                        Some(a.push(part))
                    },
                    None => Some(a.push(part)),
                }
            },
        }
    }
}

/// One message's compact text with every map field's entries in key order, recursively; the
/// text itself when it is a shape the compact grammar does not admit.
pub open spec fn canonical_text(ls: Seq<MessageLayout>, m: usize, text: Seq<char>) -> Seq<char> {
    match canon_body(ls, TextScope::Message(m), text, (text.len() + 1) as nat) {
        Some(t) => t,
        None => text,
    }
}


// ---------------------------------------------------------------------------------------------
// The canonical text.
// ---------------------------------------------------------------------------------------------

/// A text, when there is one, as characters.
pub open spec fn text_opt(o: Option<String>) -> Option<Seq<char>> {
    match o {
        Some(t) => Some(t@),
        None => None,
    }
}

/// One more part joined on.
proof fn lemma_joined_push(parts: Seq<Seq<char>>, x: Seq<char>, sep: char)
    ensures
        joined(parts.push(x), sep) == if parts.len() == 0 {
            x
        } else {
            joined(parts, sep) + seq![sep] + x
        },
{
    assert(parts.push(x).drop_last() =~= parts);
}

/// A body's fields that fail on a prefix fail on the whole.
proof fn lemma_fields_none(ls: Seq<MessageLayout>, m: TextScope, parts: Seq<Seq<char>>, j: int, fuel: nat)
    requires
        0 <= j <= parts.len(),
        canon_fields(ls, m, parts.take(j), fuel) is None,
    ensures
        canon_fields(ls, m, parts, fuel) is None,
    decreases parts.len() - j,
{
    if j < parts.len() {
        assert(parts.take(j + 1).drop_last() =~= parts.take(j));
        lemma_fields_none(ls, m, parts, j + 1, fuel);
    } else {
        assert(parts.take(j) =~= parts);
    }
}

/// A list's elements that fail on a prefix fail on the whole.
proof fn lemma_elements_none(ls: Seq<MessageLayout>, c: usize, parts: Seq<Seq<char>>, j: int, fuel: nat)
    requires
        0 <= j <= parts.len(),
        canon_elements(ls, c, parts.take(j), fuel) is None,
    ensures
        canon_elements(ls, c, parts, fuel) is None,
    decreases parts.len() - j,
{
    if j < parts.len() {
        assert(parts.take(j + 1).drop_last() =~= parts.take(j));
        lemma_elements_none(ls, c, parts, j + 1, fuel);
    } else {
        assert(parts.take(j) =~= parts);
    }
}

/// A map's entries that fail on a prefix fail on the whole.
proof fn lemma_entries_none(ls: Seq<MessageLayout>, v: Option<usize>, parts: Seq<Seq<char>>, j: int, fuel: nat)
    requires
        0 <= j <= parts.len(),
        canon_entries(ls, v, parts.take(j), fuel) is None,
    ensures
        canon_entries(ls, v, parts, fuel) is None,
    decreases parts.len() - j,
{
    if j < parts.len() {
        assert(parts.take(j + 1).drop_last() =~= parts.take(j));
        lemma_entries_none(ls, v, parts, j + 1, fuel);
    } else {
        assert(parts.take(j) =~= parts);
    }
}

/// An entry's parts that fail on a prefix fail on the whole.
proof fn lemma_entry_parts_none(ls: Seq<MessageLayout>, v: Option<usize>, parts: Seq<Seq<char>>, j: int, fuel: nat)
    requires
        0 <= j <= parts.len(),
        canon_entry_parts(ls, v, parts.take(j), fuel) is None,
    ensures
        canon_entry_parts(ls, v, parts, fuel) is None,
    decreases parts.len() - j,
{
    if j < parts.len() {
        assert(parts.take(j + 1).drop_last() =~= parts.take(j));
        lemma_entry_parts_none(ls, v, parts, j + 1, fuel);
    } else {
        assert(parts.take(j) =~= parts);
    }
}

/// The layout found for a field names a layout of the arena.
proof fn lemma_found_in_arena(ls: Seq<MessageLayout>, m: int, l: FieldLayout)
    requires
        arena_closed(ls),
        0 <= m < ls.len(),
        exists|i: int| 0 <= i < ls[m].fields@.len() && ls[m].fields@[i].layout == l,
    ensures
        l matches FieldLayout::Message(c) ==> c < ls.len(),
        l matches FieldLayout::Mapped { value: Some(v), .. } ==> v < ls.len(),
{
    let i = choose|i: int| 0 <= i < ls[m].fields@.len() && ls[m].fields@[i].layout == l;
    assert(crate::codec::layout::slot_in_arena(ls[m].fields@[i], ls.len()));
}

/// Re-emit a message body with its map fields in key order.
fn body_text(body: &str, ls: &[MessageLayout], m: TextScope, Ghost(fuel): Ghost<nat>) -> (r: Option<String>)
    requires
        arena_closed(ls@),
        scope_ok(ls@, m),
        fuel > body@.len(),
    ensures
        text_opt(r) == canon_body(ls@, m, body@, fuel),
    decreases fuel, 3nat, 0nat,
{
    if body.unicode_len() == 0 {
        return Some(String::new());
    }
    let parts = split_top(body, ',');
    let ghost ps = parts@.map_values(|p: &str| p@);
    proof {
        lemma_split_parts(body@, ',');
        assert(ps.take(0) =~= Seq::<Seq<char>>::empty());
    }
    let mut out = String::new();
    let ghost mut outs: Seq<Seq<char>> = Seq::empty();
    let mut k: usize = 0;
    while k < parts.len()
        invariant
            arena_closed(ls@),
            scope_ok(ls@, m),
            fuel > body@.len(),
            k <= parts@.len(),
            ps == parts@.map_values(|p: &str| p@),
            ps == split_view(body@, ','),
            forall|i: int| 0 <= i < ps.len() ==> (#[trigger] ps[i]).len() <= body@.len(),
            canon_fields(ls@, m, ps.take(k as int), fuel) == Some(outs),
            outs.len() == k,
            out@ == joined(outs, ','),
        decreases parts@.len() - k,
    {
        proof {
            assert(ps.take(k + 1).drop_last() =~= ps.take(k as int));
            assert(ps.take(k + 1).last() == ps[k as int]);
            assert(ps[k as int] == parts@[k as int]@);
        }
        let f = match field_text(parts[k], ls, m, Ghost(fuel)) {
            Some(f) => f,
            None => {
                proof {
                    lemma_fields_none(ls@, m, ps, k + 1, fuel);
                }
                return None;
            },
        };
        proof {
            lemma_joined_push(outs, f@, ',');
        }
        if k > 0 {
            push_char(&mut out, ',');
        }
        out.append(f.as_str());
        proof {
            if k == 0 {
                assert(out@ =~= f@);
            } else {
                assert(out@ =~= joined(outs, ',') + seq![','] + f@);
            }
            outs = outs.push(f@);
        }
        k = k + 1;
    }
    proof {
        assert(ps.take(k as int) =~= ps);
    }
    Some(out)
}

/// The layout of a scope's field `name`, when there is such a field, and what it names lies
/// inside the arena.
fn scope_lookup(ls: &[MessageLayout], scope: TextScope, name: &str) -> (r: Option<FieldLayout>)
    requires
        arena_closed(ls@),
        scope_ok(ls@, scope),
    ensures
        r == scope_field(ls@, scope, name@),
        r matches Some(FieldLayout::Message(c)) ==> c < ls@.len(),
        r matches Some(FieldLayout::Mapped { value: Some(v), .. }) ==> v < ls@.len(),
{
    match scope {
        TextScope::Message(m) => match field_by_name(&ls[m].fields, name) {
            Some(found) => {
                proof {
                    lemma_found_in_arena(ls@, m as int, *found);
                }
                Some(
                    match found {
                        FieldLayout::Mapped { key, value } => FieldLayout::Mapped { key: *key, value: *value },
                        FieldLayout::Message(c) => FieldLayout::Message(*c),
                        FieldLayout::Plain => FieldLayout::Plain,
                    },
                )
            },
            None => None,
        },
        TextScope::Entry(v) => {
            proof {
                reveal_strlit("key");
                reveal_strlit("value");
                assert("key"@ =~= seq!['k', 'e', 'y']);
                assert("value"@ =~= seq!['v', 'a', 'l', 'u', 'e']);
            }
            if crate::text::str_eq(name, "key") {
                Some(FieldLayout::Plain)
            } else if crate::text::str_eq(name, "value") {
                Some(
                    match v {
                        Some(c) => FieldLayout::Message(c),
                        None => FieldLayout::Plain,
                    },
                )
            } else {
                None
            }
        },
    }
}

/// Re-emit one field.
fn field_text(field: &str, ls: &[MessageLayout], m: TextScope, Ghost(fuel): Ghost<nat>) -> (r: Option<String>)
    requires
        arena_closed(ls@),
        scope_ok(ls@, m),
        fuel > field@.len(),
    ensures
        text_opt(r) == canon_field(ls@, m, field@, fuel),
    decreases fuel, 1nat, 0nat,
{
    let (name, sep, rest) = split_name(field)?;
    let ghost i = name_end(field@, 0, false, false)->Some_0;
    proof {
        lemma_name_end_bounds(field@, 0, false, false);
    }
    if sep == '{' {
        let inner = strip(rest, '{', '}')?;
        let child = match scope_lookup(ls, m, name) {
            Some(FieldLayout::Message(c)) => TextScope::Message(c),
            Some(FieldLayout::Mapped { value, .. }) => TextScope::Entry(value),
            _ => {
                return None;
            },
        };
        let b = body_text(inner, ls, child, Ghost((fuel - 1) as nat))?;
        let mut out = owned(name);
        push_char(&mut out, '{');
        out.append(b.as_str());
        push_char(&mut out, '}');
        proof {
            assert(out@ =~= name@ + seq!['{'] + b@ + seq!['}']);
        }
        Some(out)
    } else {
        let n = rest.unicode_len();
        let opens = n >= 2 && rest.get_char(0) == ':' && rest.get_char(1) == '[';
        proof {
            if n >= 2 {
                assert(opens == opens_with(rest@, seq![':', '['])) by {
                    if opens {
                        assert(rest@.take(2) =~= seq![':', '[']);
                    }
                }
            } else {
                assert(!opens_with(rest@, seq![':', '[']));
            }
        }
        if opens {
            let after = rest.substring_char(2, n);
            proof {
                assert(after@ =~= rest@.skip(2));
            }
            let an = n - 2;
            if an > 0 && after.get_char(an - 1) == ']' {
                let inner = after.substring_char(0, an - 1);
                proof {
                    assert(inner@ =~= after@.drop_last());
                }
                let l = list_text(inner, name, ls, m, Ghost((fuel - 1) as nat))?;
                let mut out = owned(name);
                push_char(&mut out, ':');
                push_char(&mut out, '[');
                out.append(l.as_str());
                push_char(&mut out, ']');
                proof {
                    assert(out@ =~= name@ + seq![':', '['] + l@ + seq![']']);
                }
                Some(out)
            } else {
                None
            }
        } else {
            Some(owned(field))
        }
    }
}

/// Re-emit a `[…]` list's elements.
fn list_text(inner: &str, name: &str, ls: &[MessageLayout], m: TextScope, Ghost(fuel): Ghost<nat>) -> (r: Option<
    String,
>)
    requires
        arena_closed(ls@),
        scope_ok(ls@, m),
        fuel > inner@.len(),
    ensures
        text_opt(r) == canon_list(ls@, m, name@, inner@, fuel),
    decreases fuel, 3nat, 0nat,
{
    let layout = scope_lookup(ls, m, name)?;
    if inner.unicode_len() == 0 {
        return Some(String::new());
    }
    proof {
        lemma_split_parts(inner@, ',');
    }
    match layout {
        FieldLayout::Mapped { value, .. } => map_text(inner, ls, value, Ghost(fuel)),
        FieldLayout::Message(c) => elements_text(inner, ls, c, Ghost(fuel)),
        FieldLayout::Plain => Some(owned(inner)),
    }
}

/// A map field's elements, ordered by key, each re-emitted.
fn map_text(inner: &str, ls: &[MessageLayout], value: Option<usize>, Ghost(fuel): Ghost<nat>) -> (r: Option<String>)
    requires
        arena_closed(ls@),
        value matches Some(v) ==> v < ls@.len(),
        fuel > inner@.len(),
        inner@.len() > 0,
    ensures
        text_opt(r) == match canon_entries(ls@, value, split_view(inner@, ','), fuel) {
            Some(es) => Some(joined(text_sort(es).map_values(|e: (TextKeyView, Seq<char>)| e.1), ',')),
            None => None,
        },
    decreases fuel, 2nat, 1nat,
{
    let parts = split_top(inner, ',');
    let ghost ps = parts@.map_values(|p: &str| p@);
    proof {
        lemma_split_parts(inner@, ',');
        assert(ps.take(0) =~= Seq::<Seq<char>>::empty());
    }
    let mut sorted: Vec<(TextKey, String)> = Vec::new();
    let ghost mut raw: Seq<(TextKeyView, Seq<char>)> = Seq::empty();
    let mut k: usize = 0;
    proof {
        assert(text_entry_views(sorted@) =~= Seq::<(TextKeyView, Seq<char>)>::empty());
    }
    while k < parts.len()
        invariant
            arena_closed(ls@),
            value matches Some(v) ==> v < ls@.len(),
            fuel > inner@.len(),
            k <= parts@.len(),
            ps == parts@.map_values(|p: &str| p@),
            ps == split_view(inner@, ','),
            forall|i: int| 0 <= i < ps.len() ==> (#[trigger] ps[i]).len() <= inner@.len(),
            canon_entries(ls@, value, ps.take(k as int), fuel) == Some(raw),
            text_entry_views(sorted@) == text_sort(raw),
        decreases parts@.len() - k,
    {
        proof {
            assert(ps.take(k + 1).drop_last() =~= ps.take(k as int));
            assert(ps.take(k + 1).last() == ps[k as int]);
            assert(ps[k as int] == parts@[k as int]@);
        }
        let key = match entry_key(parts[k]) {
            Some(key) => key,
            None => {
                proof {
                    lemma_entries_none(ls@, value, ps, k + 1, fuel);
                }
                return None;
            },
        };
        let text = match entry_text(parts[k], ls, value, Ghost(fuel)) {
            Some(t) => t,
            None => {
                proof {
                    lemma_entries_none(ls@, value, ps, k + 1, fuel);
                }
                return None;
            },
        };
        let ghost e = (key@, text@);
        place_text_entry(&mut sorted, (key, text));
        proof {
            assert(raw.push(e).drop_last() =~= raw);
            raw = raw.push(e);
        }
        k = k + 1;
    }
    proof {
        assert(ps.take(k as int) =~= ps);
    }
    let ghost texts = text_sort(raw).map_values(|e: (TextKeyView, Seq<char>)| e.1);
    let mut out = String::new();
    let mut j: usize = 0;
    proof {
        assert(texts.take(0) =~= Seq::<Seq<char>>::empty());
    }
    while j < sorted.len()
        invariant
            j <= sorted@.len(),
            text_entry_views(sorted@) == text_sort(raw),
            texts == text_sort(raw).map_values(|e: (TextKeyView, Seq<char>)| e.1),
            out@ == joined(texts.take(j as int), ','),
        decreases sorted@.len() - j,
    {
        proof {
            assert(texts.take(j + 1) =~= texts.take(j as int).push(texts[j as int]));
            assert(texts[j as int] == sorted@[j as int].1@);
            lemma_joined_push(texts.take(j as int), texts[j as int], ',');
        }
        if j > 0 {
            push_char(&mut out, ',');
        }
        out.append(sorted[j].1.as_str());
        proof {
            if j == 0 {
                assert(out@ =~= texts[0]);
            } else {
                assert(out@ =~= joined(texts.take(j as int), ',') + seq![','] + texts[j as int]);
            }
        }
        j = j + 1;
    }
    proof {
        assert(texts.take(j as int) =~= texts);
    }
    Some(out)
}

/// A repeated message field's elements, each body recursed.
fn elements_text(inner: &str, ls: &[MessageLayout], c: usize, Ghost(fuel): Ghost<nat>) -> (r: Option<String>)
    requires
        arena_closed(ls@),
        c < ls@.len(),
        fuel > inner@.len(),
        inner@.len() > 0,
    ensures
        text_opt(r) == match canon_elements(ls@, c, split_view(inner@, ','), fuel) {
            Some(outs) => Some(joined(outs, ',')),
            None => None,
        },
    decreases fuel, 2nat, 1nat,
{
    let parts = split_top(inner, ',');
    let ghost ps = parts@.map_values(|p: &str| p@);
    proof {
        lemma_split_parts(inner@, ',');
        assert(ps.take(0) =~= Seq::<Seq<char>>::empty());
    }
    let mut out = String::new();
    let ghost mut outs: Seq<Seq<char>> = Seq::empty();
    let mut k: usize = 0;
    while k < parts.len()
        invariant
            arena_closed(ls@),
            c < ls@.len(),
            fuel > inner@.len(),
            k <= parts@.len(),
            ps == parts@.map_values(|p: &str| p@),
            ps == split_view(inner@, ','),
            forall|i: int| 0 <= i < ps.len() ==> (#[trigger] ps[i]).len() <= inner@.len(),
            canon_elements(ls@, c, ps.take(k as int), fuel) == Some(outs),
            outs.len() == k,
            out@ == joined(outs, ','),
        decreases parts@.len() - k,
    {
        proof {
            assert(ps.take(k + 1).drop_last() =~= ps.take(k as int));
            assert(ps.take(k + 1).last() == ps[k as int]);
            assert(ps[k as int] == parts@[k as int]@);
        }
        let body = match strip(parts[k], '{', '}') {
            Some(b) => b,
            None => {
                proof {
                    lemma_elements_none(ls@, c, ps, k + 1, fuel);
                }
                return None;
            },
        };
        let b = match body_text(body, ls, TextScope::Message(c), Ghost((fuel - 1) as nat)) {
            Some(b) => b,
            None => {
                proof {
                    lemma_elements_none(ls@, c, ps, k + 1, fuel);
                }
                return None;
            },
        };
        let mut element = String::new();
        push_char(&mut element, '{');
        element.append(b.as_str());
        push_char(&mut element, '}');
        proof {
            assert(element@ =~= seq!['{'] + b@ + seq!['}']);
            lemma_joined_push(outs, element@, ',');
        }
        if k > 0 {
            push_char(&mut out, ',');
        }
        out.append(element.as_str());
        proof {
            if k == 0 {
                assert(out@ =~= element@);
            } else {
                assert(out@ =~= joined(outs, ',') + seq![','] + element@);
            }
            outs = outs.push(element@);
        }
        k = k + 1;
    }
    proof {
        assert(ps.take(k as int) =~= ps);
    }
    Some(out)
}

/// Re-emit a map entry, a message value's body recursed.
fn entry_text(element: &str, ls: &[MessageLayout], value: Option<usize>, Ghost(fuel): Ghost<nat>) -> (r: Option<
    String,
>)
    requires
        arena_closed(ls@),
        value matches Some(v) ==> v < ls@.len(),
        fuel > element@.len(),
    ensures
        text_opt(r) == canon_entry(ls@, value, element@, fuel),
    decreases fuel, 1nat, 0nat,
{
    let body = strip(element, '{', '}')?;
    let parts = split_top(body, ',');
    let ghost ps = parts@.map_values(|p: &str| p@);
    proof {
        lemma_split_parts(body@, ',');
        assert(ps.take(0) =~= Seq::<Seq<char>>::empty());
        reveal_strlit("value{");
        assert("value{"@ =~= value_prefix());
    }
    let mut out = String::new();
    let ghost mut outs: Seq<Seq<char>> = Seq::empty();
    let mut k: usize = 0;
    while k < parts.len()
        invariant
            arena_closed(ls@),
            value matches Some(v) ==> v < ls@.len(),
            fuel > element@.len(),
            body@.len() + 2 == element@.len(),
            strip_view(element@, '{', '}') == Some(body@),
            "value{"@ == value_prefix(),
            k <= parts@.len(),
            ps == parts@.map_values(|p: &str| p@),
            ps == split_view(body@, ','),
            forall|i: int| 0 <= i < ps.len() ==> (#[trigger] ps[i]).len() <= body@.len(),
            canon_entry_parts(ls@, value, ps.take(k as int), fuel) == Some(outs),
            outs.len() == k,
            out@ == joined(outs, ','),
        decreases parts@.len() - k,
    {
        proof {
            assert(ps.take(k + 1).drop_last() =~= ps.take(k as int));
            assert(ps.take(k + 1).last() == ps[k as int]);
            assert(ps[k as int] == parts@[k as int]@);
        }
        let part = parts[k];
        let n = part.unicode_len();
        let piece = match value {
            Some(c) => {
                let opens = n >= 6 && crate::text::str_eq(part.substring_char(0, 6), "value{");
                proof {
                    if n >= 6 {
                        assert(part@.take(6) =~= part@.subrange(0, 6));
                    }
                    assert(opens == opens_with(part@, value_prefix()));
                }
                if opens {
                    let after = part.substring_char(6, n);
                    let an = n - 6;
                    proof {
                        assert(after@ =~= part@.skip(6));
                    }
                    if an > 0 && after.get_char(an - 1) == '}' {
                        let inner = after.substring_char(0, an - 1);
                        proof {
                            assert(inner@ =~= after@.drop_last());
                        }
                        match body_text(inner, ls, TextScope::Message(c), Ghost((fuel - 1) as nat)) {
                            Some(b) => {
                                let mut piece = owned("value{");
                                piece.append(b.as_str());
                                push_char(&mut piece, '}');
                                proof {
                                    assert(piece@ =~= value_prefix() + b@ + seq!['}']);
                                }
                                piece
                            },
                            None => {
                                proof {
                                    assert(ps.take(k + 1).last() == part@);
                                    assert(canon_entry_parts(ls@, value, ps.take(k + 1), fuel) is None);
                                    lemma_entry_parts_none(ls@, value, ps, k + 1, fuel);
                                }
                                return None;
                            },
                        }
                    } else {
                        proof {
                            assert(ps.take(k + 1).last() == part@);
                            if an > 0 {
                                assert(after@.last() == after@[an - 1]);
                            }
                            assert(canon_entry_parts(ls@, value, ps.take(k + 1), fuel) is None);
                            lemma_entry_parts_none(ls@, value, ps, k + 1, fuel);
                        }
                        return None;
                    }
                } else {
                    owned(part)
                }
            },
            None => owned(part),
        };
        proof {
            lemma_joined_push(outs, piece@, ',');
        }
        if k > 0 {
            push_char(&mut out, ',');
        }
        out.append(piece.as_str());
        proof {
            if k == 0 {
                assert(out@ =~= piece@);
            } else {
                assert(out@ =~= joined(outs, ',') + seq![','] + piece@);
            }
            outs = outs.push(piece@);
        }
        k = k + 1;
    }
    proof {
        assert(ps.take(k as int) =~= ps);
    }
    let mut whole = String::new();
    push_char(&mut whole, '{');
    whole.append(out.as_str());
    push_char(&mut whole, '}');
    proof {
        assert(whole@ =~= seq!['{'] + joined(outs, ',') + seq!['}']);
    }
    Some(whole)
}

/// Re-emit `text` — one message of layout `message` in the engine's compact text format — with
/// every map field's entries ordered by key, recursively. Total: text the compact grammar does
/// not admit is left unchanged.
pub fn canonicalize_text(text: &str, layouts: &[MessageLayout], message: usize) -> (r: String)
    requires
        arena_closed(layouts@),
        message < layouts@.len(),
    ensures
        r@ == canonical_text(layouts@, message, text@),
{
    match body_text(text, layouts, TextScope::Message(message), Ghost((text@.len() + 1) as nat)) {
        Some(t) => t,
        None => owned(text),
    }
}

} // verus!
