//! The `.proto` front door's two hardenings, decided before any compiler parses a file: the
//! lexical brace-nesting bound — a total scan whose depth dominates the parser's recursion — and
//! the confinement of a resolved import to its include root; and the diagnostics each refusal
//! earns.
use vstd::prelude::*;

use crate::descriptor::RECURSION_LIMIT;
use crate::diagnostics::{Diagnostic, DiagnosticKind, Diagnostics, Locus};
use crate::text::{chars_of, debug_quoted, decimal, owned, push_decimal, quoted};

verus! {

broadcast use vstd::string::group_string_axioms;

/// keryx's source-nesting bound: the deepest lexical nesting the descriptor pipeline admits.
/// Source nesting deeper than this is refused.
pub const SOURCE_NESTING_LIMIT: usize = RECURSION_LIMIT - 1;

/// Where the source scan stands: in ordinary text, in a `//` or `#` comment, in a `/* */`
/// comment, or in a string literal opened by the quote it holds.
#[derive(Clone, Copy, Debug, PartialEq, Eq, Structural)]
pub enum SourceState {
    /// Ordinary text.
    Normal,
    /// A comment to the end of the line.
    LineComment,
    /// A comment to the next `*/`.
    BlockComment,
    /// A string literal, to the same quote.
    Str(char),
}

/// Whether `s` holds character `c` at position `at`.
pub open spec fn char_at(s: Seq<char>, at: int, c: char) -> bool {
    0 <= at < s.len() && s[at] == c
}

/// The deepest brace nesting the scan of `.proto` source `s` reaches from position `at` (see
/// [`source_depth`]).
pub open spec fn source_scan(s: Seq<char>, at: int, state: SourceState, depth: nat, max: nat) -> nat
    decreases s.len() - at,
{
    if at < 0 || at >= s.len() {
        max
    } else {
        let c = s[at];
        match state {
            SourceState::Normal => if c == '/' && char_at(s, at + 1, '/') {
                source_scan(s, at + 2, SourceState::LineComment, depth, max)
            } else if c == '#' {
                source_scan(s, at + 1, SourceState::LineComment, depth, max)
            } else if c == '/' && char_at(s, at + 1, '*') {
                source_scan(s, at + 2, SourceState::BlockComment, depth, max)
            } else if c == '"' || c == '\'' {
                source_scan(s, at + 1, SourceState::Str(c), depth, max)
            } else if c == '{' {
                source_scan(
                    s,
                    at + 1,
                    SourceState::Normal,
                    depth + 1,
                    if depth + 1 > max {
                        (depth + 1) as nat
                    } else {
                        max
                    },
                )
            } else if c == '}' {
                source_scan(
                    s,
                    at + 1,
                    SourceState::Normal,
                    if depth > 0 {
                        (depth - 1) as nat
                    } else {
                        0
                    },
                    max,
                )
            } else {
                source_scan(s, at + 1, SourceState::Normal, depth, max)
            },
            SourceState::LineComment => if c == '\n' {
                source_scan(s, at + 1, SourceState::Normal, depth, max)
            } else {
                source_scan(s, at + 1, SourceState::LineComment, depth, max)
            },
            SourceState::BlockComment => if c == '*' && char_at(s, at + 1, '/') {
                source_scan(s, at + 2, SourceState::Normal, depth, max)
            } else {
                source_scan(s, at + 1, SourceState::BlockComment, depth, max)
            },
            SourceState::Str(delim) => if c == '\n' {
                source_scan(s, at + 1, SourceState::Normal, depth, max)
            } else if c == '\\' && !char_at(s, at + 1, '\n') {
                if at + 2 <= s.len() {
                    source_scan(s, at + 2, state, depth, max)
                } else {
                    max
                }
            } else if c == delim {
                source_scan(s, at + 1, SourceState::Normal, depth, max)
            } else {
                source_scan(s, at + 1, state, depth, max)
            },
        }
    }
}

/// The maximum lexical brace-nesting depth of `.proto` source: structural `{`/`}` counted outside
/// string literals and `//`, `#`, and `/* */` comments; a string honours `\`-escapes but ends at a
/// newline unconditionally, a `\` before it notwithstanding; an unterminated `/*` runs to the end.
pub open spec fn source_depth(s: Seq<char>) -> nat {
    source_scan(s, 0, SourceState::Normal, 0, 0)
}

/// A scan never reports less than the deepest nesting seen before it, nor more than that plus the
/// characters still to read.
proof fn lemma_source_scan_bounds(s: Seq<char>, at: int, state: SourceState, depth: nat, max: nat)
    requires
        0 <= at <= s.len(),
        depth <= max,
    ensures
        max <= source_scan(s, at, state, depth, max) <= max + (s.len() - at),
    decreases s.len() - at,
{
    if at < s.len() {
        let c = s[at];
        match state {
            SourceState::Normal => if c == '/' && char_at(s, at + 1, '/') {
                lemma_source_scan_bounds(s, at + 2, SourceState::LineComment, depth, max);
            } else if c == '#' {
                lemma_source_scan_bounds(s, at + 1, SourceState::LineComment, depth, max);
            } else if c == '/' && char_at(s, at + 1, '*') {
                lemma_source_scan_bounds(s, at + 2, SourceState::BlockComment, depth, max);
            } else if c == '"' || c == '\'' {
                lemma_source_scan_bounds(s, at + 1, SourceState::Str(c), depth, max);
            } else if c == '{' {
                lemma_source_scan_bounds(
                    s,
                    at + 1,
                    SourceState::Normal,
                    depth + 1,
                    if depth + 1 > max {
                        (depth + 1) as nat
                    } else {
                        max
                    },
                );
            } else if c == '}' {
                lemma_source_scan_bounds(
                    s,
                    at + 1,
                    SourceState::Normal,
                    if depth > 0 {
                        (depth - 1) as nat
                    } else {
                        0
                    },
                    max,
                );
            } else {
                lemma_source_scan_bounds(s, at + 1, SourceState::Normal, depth, max);
            },
            SourceState::LineComment => if c == '\n' {
                lemma_source_scan_bounds(s, at + 1, SourceState::Normal, depth, max);
            } else {
                lemma_source_scan_bounds(s, at + 1, SourceState::LineComment, depth, max);
            },
            SourceState::BlockComment => if c == '*' && char_at(s, at + 1, '/') {
                lemma_source_scan_bounds(s, at + 2, SourceState::Normal, depth, max);
            } else {
                lemma_source_scan_bounds(s, at + 1, SourceState::BlockComment, depth, max);
            },
            SourceState::Str(delim) => if c == '\n' {
                lemma_source_scan_bounds(s, at + 1, SourceState::Normal, depth, max);
            } else if c == '\\' && !char_at(s, at + 1, '\n') {
                if at + 2 <= s.len() {
                    lemma_source_scan_bounds(s, at + 2, state, depth, max);
                }
            } else if c == delim {
                lemma_source_scan_bounds(s, at + 1, SourceState::Normal, depth, max);
            } else {
                lemma_source_scan_bounds(s, at + 1, state, depth, max);
            },
        }
    }
}

/// The maximum lexical brace-nesting depth of `.proto` source (see [`source_depth`]) — a total,
/// linear scan whose count dominates the depth a parser recurses to.
pub fn max_nesting_depth(source: &str) -> (r: usize)
    ensures
        r == source_depth(source@),
        r <= source@.len(),
{
    let chars = chars_of(source);
    let ghost s = chars@;
    let n = chars.len();
    let mut state = SourceState::Normal;
    let mut depth: usize = 0;
    let mut max: usize = 0;
    let mut i: usize = 0;
    proof {
        lemma_source_scan_bounds(s, 0, SourceState::Normal, 0, 0);
    }
    while i < n
        invariant
            s == chars@,
            s == source@,
            n == s.len(),
            i <= n,
            depth <= max,
            max <= i,
            source_scan(s, i as int, state, depth as nat, max as nat) == source_depth(s),
        decreases n - i,
    {
        let c = chars[i];
        let next_slash = i + 1 < n && chars[i + 1] == '/';
        let next_star = i + 1 < n && chars[i + 1] == '*';
        let next_newline = i + 1 < n && chars[i + 1] == '\n';
        match state {
            SourceState::Normal => {
                if c == '/' && next_slash {
                    state = SourceState::LineComment;
                    i = i + 2;
                } else if c == '#' {
                    state = SourceState::LineComment;
                    i = i + 1;
                } else if c == '/' && next_star {
                    state = SourceState::BlockComment;
                    i = i + 2;
                } else if c == '"' || c == '\'' {
                    state = SourceState::Str(c);
                    i = i + 1;
                } else if c == '{' {
                    depth = depth + 1;
                    if depth > max {
                        max = depth;
                    }
                    i = i + 1;
                } else if c == '}' {
                    if depth > 0 {
                        depth = depth - 1;
                    }
                    i = i + 1;
                } else {
                    i = i + 1;
                }
            },
            SourceState::LineComment => {
                if c == '\n' {
                    state = SourceState::Normal;
                }
                i = i + 1;
            },
            SourceState::BlockComment => {
                if c == '*' && next_slash {
                    state = SourceState::Normal;
                    i = i + 2;
                } else {
                    i = i + 1;
                }
            },
            SourceState::Str(delim) => {
                if c == '\n' {
                    state = SourceState::Normal;
                    i = i + 1;
                } else if c == '\\' && !next_newline {
                    if i + 1 < n {
                        i = i + 2;
                    } else {
                        return max;
                    }
                } else {
                    if c == delim {
                        state = SourceState::Normal;
                    }
                    i = i + 1;
                }
            },
        }
    }
    max
}

/// The detail of a file nesting past the source-nesting limit: the depth measured, the bound,
/// and the one remedy that is always true.
pub open spec fn source_too_deep_detail(depth: nat) -> Seq<char> {
    "source nests "@ + decimal(depth)
        + " levels deep, beyond keryx's source-nesting limit of 99: flatten the schema \u{2014} nesting must stay at or below 99"@
}

/// The `SourceTooDeep` diagnostic at the offending file's locus.
pub fn source_too_deep(name: &str, depth: usize) -> (r: Diagnostics)
    ensures
        r@.len() == 1,
        r@[0].spec_kind() == DiagnosticKind::SourceTooDeep,
        r@[0].spec_locus() == Some(name@),
        r@[0].spec_detail() == source_too_deep_detail(depth as nat),
{
    let mut detail = owned("source nests ");
    push_decimal(&mut detail, depth as u64);
    detail.append(
        " levels deep, beyond keryx's source-nesting limit of 99: flatten the schema \u{2014} nesting must stay at or below 99",
    );
    let r = Diagnostics::one(Diagnostic::composed(DiagnosticKind::SourceTooDeep, Locus::at(name), detail));
    proof {
        assert(r@[0].spec_detail() =~= source_too_deep_detail(depth as nat));
    }
    r
}

/// The detail of an import resolved outside its include root.
pub open spec fn outside_root_detail(name: Seq<char>) -> Seq<char> {
    "import "@ + debug_quoted(name)
        + " resolves outside its include root; keryx reads only within the include roots it is given"@
}

/// The `SourceOutsideRoot` diagnostic at the offending import's locus.
pub fn source_outside_root(name: &str) -> (r: Diagnostics)
    ensures
        r@.len() == 1,
        r@[0].spec_kind() == DiagnosticKind::SourceOutsideRoot,
        r@[0].spec_locus() == Some(name@),
        r@[0].spec_detail() == outside_root_detail(name@),
{
    let mut detail = owned("import ");
    let q = quoted(name);
    detail.append(q.as_str());
    detail.append(
        " resolves outside its include root; keryx reads only within the include roots it is given",
    );
    let r = Diagnostics::one(Diagnostic::composed(DiagnosticKind::SourceOutsideRoot, Locus::at(name), detail));
    proof {
        assert(r@[0].spec_detail() =~= outside_root_detail(name@));
    }
    r
}

/// Why the source door refused a file before any parse: it nests past the limit, or it resolves
/// outside its include root.
#[derive(Clone, Debug, PartialEq, Eq)]
pub enum Refusal {
    /// The file nests `depth` levels, past [`SOURCE_NESTING_LIMIT`].
    TooDeep {
        /// The file's import name.
        name: String,
        /// The measured depth.
        depth: usize,
    },
    /// The file's resolved path lies outside its include root.
    Outside {
        /// The file's import name.
        name: String,
    },
}

/// Screen one located file before it is parsed: a file resolved outside its root is refused
/// whatever it holds; one inside it is refused when its source nests past
/// [`SOURCE_NESTING_LIMIT`]; anything else may be parsed.
pub fn screen(name: &str, within_root: bool, source: &str) -> (r: Option<Refusal>)
    ensures
        !within_root ==> (r matches Some(Refusal::Outside { name: n }) && n@ == name@),
        within_root && source_depth(source@) > SOURCE_NESTING_LIMIT ==> (r matches Some(
            Refusal::TooDeep { name: n, depth: d },
        ) && n@ == name@ && d == source_depth(source@)),
        within_root && source_depth(source@) <= SOURCE_NESTING_LIMIT ==> r is None,
{
    if !within_root {
        return Some(Refusal::Outside { name: owned(name) });
    }
    let depth = max_nesting_depth(source);
    if depth > SOURCE_NESTING_LIMIT {
        Some(Refusal::TooDeep { name: owned(name), depth })
    } else {
        None
    }
}

/// The diagnostics a refusal earns.
pub fn refusal_diagnostics(refusal: &Refusal) -> (r: Diagnostics)
    ensures
        refusal matches Refusal::TooDeep { name, depth } ==> r@.len() == 1 && r@[0].spec_kind()
            == DiagnosticKind::SourceTooDeep && r@[0].spec_locus() == Some(name@) && r@[0].spec_detail()
            == source_too_deep_detail(*depth as nat),
        refusal matches Refusal::Outside { name } ==> r@.len() == 1 && r@[0].spec_kind()
            == DiagnosticKind::SourceOutsideRoot && r@[0].spec_locus() == Some(name@) && r@[0].spec_detail()
            == outside_root_detail(name@),
{
    match refusal {
        Refusal::TooDeep { name, depth } => source_too_deep(name.as_str(), *depth),
        Refusal::Outside { name } => source_outside_root(name.as_str()),
    }
}

} // verus!
