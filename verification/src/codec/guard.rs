//! The textproto pre-parse depth guard: a total lexical scan bounding a textproto payload's
//! message-value nesting before a text-format parser — which recurses on every nested message
//! value with no limit of its own — ever sees it. A measure, not a parse: the scan reads
//! brackets, string literals, and `#` comments, and builds nothing.
use vstd::prelude::*;

use crate::diagnostics::{Diagnostic, DiagnosticKind, Diagnostics, Locus};
use crate::text::{chars_of, decimal, owned, push_decimal};

verus! {

broadcast use vstd::string::group_string_axioms;

/// The uniform nesting ceiling: the deepest message-value nesting below the root a payload may
/// reach.
pub const NESTING_CEILING: usize = 99;

/// Where the scan stands: in ordinary text, in a `#` comment, or in a string literal opened by
/// the quote it holds.
#[derive(Clone, Copy, Debug, PartialEq, Eq, Structural)]
pub enum ScanState {
    /// Ordinary text.
    Text,
    /// A `#` comment, to the end of the line.
    Comment,
    /// A string literal, to the same quote.
    Literal(char),
}

/// The deepest nesting the scan of `s` from position `at` reaches, in state `state` at nesting
/// `depth` with the deepest so far `max`: `{`/`<` open a level and `}`/`>` close one (never
/// below zero) in text; `#` opens a comment to the end of the line; `'` or `"` opens a literal
/// to the same quote, in which a `\` makes the next character content unless it is a newline,
/// and a newline ends the literal unconditionally.
pub open spec fn scan(s: Seq<char>, at: int, state: ScanState, depth: nat, max: nat) -> nat
    decreases s.len() - at,
{
    if at < 0 || at >= s.len() {
        max
    } else {
        let c = s[at];
        match state {
            ScanState::Text => if c == '#' {
                scan(s, at + 1, ScanState::Comment, depth, max)
            } else if c == '"' || c == '\'' {
                scan(s, at + 1, ScanState::Literal(c), depth, max)
            } else if c == '{' || c == '<' {
                scan(
                    s,
                    at + 1,
                    ScanState::Text,
                    depth + 1,
                    if depth + 1 > max {
                        (depth + 1) as nat
                    } else {
                        max
                    },
                )
            } else if c == '}' || c == '>' {
                scan(
                    s,
                    at + 1,
                    ScanState::Text,
                    if depth > 0 {
                        (depth - 1) as nat
                    } else {
                        0
                    },
                    max,
                )
            } else {
                scan(s, at + 1, ScanState::Text, depth, max)
            },
            ScanState::Comment => if c == '\n' {
                scan(s, at + 1, ScanState::Text, depth, max)
            } else {
                scan(s, at + 1, ScanState::Comment, depth, max)
            },
            ScanState::Literal(quote) => if c == '\n' {
                scan(s, at + 1, ScanState::Text, depth, max)
            } else if c == '\\' && !(at + 1 < s.len() && s[at + 1] == '\n') {
                if at + 2 <= s.len() {
                    scan(s, at + 2, state, depth, max)
                } else {
                    max
                }
            } else if c == quote {
                scan(s, at + 1, ScanState::Text, depth, max)
            } else {
                scan(s, at + 1, state, depth, max)
            },
        }
    }
}

/// The deepest message-value nesting a textproto text reaches (see [`scan`]).
pub open spec fn deepest_view(s: Seq<char>) -> nat {
    scan(s, 0, ScanState::Text, 0, 0)
}

/// A scan never reports less than the deepest nesting seen before it, and never more than that
/// or the characters still to read above the current depth.
proof fn lemma_scan_bounds(s: Seq<char>, at: int, state: ScanState, depth: nat, max: nat)
    requires
        0 <= at <= s.len(),
        depth <= max,
    ensures
        max <= scan(s, at, state, depth, max) <= max + (s.len() - at),
    decreases s.len() - at,
{
    if at < s.len() {
        let c = s[at];
        match state {
            ScanState::Text => if c == '{' || c == '<' {
                lemma_scan_bounds(
                    s,
                    at + 1,
                    ScanState::Text,
                    depth + 1,
                    if depth + 1 > max {
                        (depth + 1) as nat
                    } else {
                        max
                    },
                );
            } else if c == '}' || c == '>' {
                lemma_scan_bounds(
                    s,
                    at + 1,
                    ScanState::Text,
                    if depth > 0 {
                        (depth - 1) as nat
                    } else {
                        0
                    },
                    max,
                );
            } else if c == '#' {
                lemma_scan_bounds(s, at + 1, ScanState::Comment, depth, max);
            } else if c == '"' || c == '\'' {
                lemma_scan_bounds(s, at + 1, ScanState::Literal(c), depth, max);
            } else {
                lemma_scan_bounds(s, at + 1, ScanState::Text, depth, max);
            },
            ScanState::Comment => if c == '\n' {
                lemma_scan_bounds(s, at + 1, ScanState::Text, depth, max);
            } else {
                lemma_scan_bounds(s, at + 1, ScanState::Comment, depth, max);
            },
            ScanState::Literal(quote) => if c == '\n' {
                lemma_scan_bounds(s, at + 1, ScanState::Text, depth, max);
            } else if c == '\\' && !(at + 1 < s.len() && s[at + 1] == '\n') {
                if at + 2 <= s.len() {
                    lemma_scan_bounds(s, at + 2, state, depth, max);
                }
            } else if c == quote {
                lemma_scan_bounds(s, at + 1, ScanState::Text, depth, max);
            } else {
                lemma_scan_bounds(s, at + 1, state, depth, max);
            },
        }
    }
}

/// The deepest message-value nesting `text` reaches: the maximum, over the scan, of `{`/`<`
/// openers less `}`/`>` closers outside string literals and `#` comments — the levels a
/// text-format parser would recurse to, or more. Total on any text; a closer with nothing to
/// close leaves the count at zero.
pub fn deepest(text: &str) -> (r: usize)
    ensures
        r == deepest_view(text@),
        r <= text@.len(),
{
    let chars = chars_of(text);
    let ghost s = chars@;
    let mut state = ScanState::Text;
    let mut depth: usize = 0;
    let mut max: usize = 0;
    let mut at: usize = 0;
    proof {
        lemma_scan_bounds(s, 0, ScanState::Text, 0, 0);
    }
    while at < chars.len()
        invariant
            s == chars@,
            s == text@,
            at <= s.len(),
            depth <= max,
            max <= at,
            scan(s, at as int, state, depth as nat, max as nat) == deepest_view(s),
        decreases s.len() - at,
    {
        let c = chars[at];
        match state {
            ScanState::Text => {
                if c == '#' {
                    state = ScanState::Comment;
                } else if c == '"' || c == '\'' {
                    state = ScanState::Literal(c);
                } else if c == '{' || c == '<' {
                    depth = depth + 1;
                    if depth > max {
                        max = depth;
                    }
                } else if c == '}' || c == '>' {
                    if depth > 0 {
                        depth = depth - 1;
                    }
                }
                at = at + 1;
            },
            ScanState::Comment => {
                if c == '\n' {
                    state = ScanState::Text;
                }
                at = at + 1;
            },
            ScanState::Literal(quote) => {
                if c == '\n' {
                    state = ScanState::Text;
                    at = at + 1;
                } else if c == '\\' && !(at + 1 < chars.len() && chars[at + 1] == '\n') {
                    if at + 1 < chars.len() {
                        at = at + 2;
                    } else {
                        proof {
                            assert(scan(s, at as int, state, depth as nat, max as nat) == max);
                        }
                        return max;
                    }
                } else {
                    if c == quote {
                        state = ScanState::Text;
                    }
                    at = at + 1;
                }
            },
        }
    }
    max
}

/// The detail of a payload nesting past the ceiling: the depth and the ceiling as numbers and
/// nothing of the text.
pub open spec fn too_deep_detail(measured: nat) -> Seq<char> {
    "the textproto payload nests message values "@ + decimal(measured)
        + " levels below the root, past keryx's payload nesting ceiling of 99"@
}

/// `PayloadTooDeep` at the whole-payload locus for a payload nesting `measured` levels.
pub fn too_deep(measured: usize) -> (r: Diagnostics)
    ensures
        r@.len() == 1,
        r@[0].spec_kind() == DiagnosticKind::PayloadTooDeep,
        r@[0].spec_locus() is None,
        r@[0].spec_detail() == too_deep_detail(measured as nat),
{
    let mut detail = owned("the textproto payload nests message values ");
    push_decimal(&mut detail, measured as u64);
    detail.append(" levels below the root, past keryx's payload nesting ceiling of 99");
    let d = Diagnostic::composed(DiagnosticKind::PayloadTooDeep, Locus::whole(), detail);
    let r = Diagnostics::one(d);
    proof {
        assert(r@[0].spec_detail() =~= too_deep_detail(measured as nat));
    }
    r
}

/// Bound a textproto payload's nesting before it is parsed: `Ok(())` for a payload whose message
/// values nest at most [`NESTING_CEILING`] levels below the root, and `PayloadTooDeep` — naming
/// the depth measured and the ceiling, at the whole-payload locus — past it.
pub fn depth(text: &str) -> (r: Result<(), Diagnostics>)
    ensures
        r is Ok <==> deepest_view(text@) <= NESTING_CEILING,
        r matches Err(d) ==> d@.len() == 1 && d@[0].spec_kind() == DiagnosticKind::PayloadTooDeep
            && d@[0].spec_locus() is None && d@[0].spec_detail() == too_deep_detail(
            deepest_view(text@),
        ),
{
    let measured = deepest(text);
    if measured > NESTING_CEILING {
        return Err(too_deep(measured));
    }
    Ok(())
}

} // verus!
