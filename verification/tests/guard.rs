use keryx_core::codec::guard::{deepest, depth, NESTING_CEILING};
use keryx_core::diagnostics::DiagnosticKind;

const BRACES: (char, char) = ('{', '}');
const ANGLES: (char, char) = ('<', '>');

fn nested(field: &str, (open, close): (char, char), levels: usize, innermost: &str) -> String {
    let mut text = String::new();
    for _ in 0..levels {
        text.push_str(field);
        text.push(' ');
        text.push(open);
        text.push(' ');
    }
    text.push_str(innermost);
    for _ in 0..levels {
        text.push(' ');
        text.push(close);
    }
    text
}

fn refusal(text: &str) -> (DiagnosticKind, String) {
    let diagnostics = depth(text).expect_err("refused");
    assert_eq!(diagnostics.len(), 1, "one diagnosis: {}", diagnostics.to_string());
    let diagnostic = diagnostics.iter().next().expect("one diagnostic");
    assert!(
        diagnostic.locus().is_whole(),
        "the whole-payload locus: {}",
        diagnostic.to_string()
    );
    (diagnostic.kind(), diagnostic.detail().to_owned())
}

#[test]
fn depth_99_is_admitted_and_depth_100_is_refused_through_either_bracket_pair() {
    assert_eq!(NESTING_CEILING, 99);
    for pair in [BRACES, ANGLES] {
        let admitted = nested("f", pair, 99, "");
        assert_eq!(deepest(&admitted), 99);
        depth(&admitted).expect("the deepest admitted payload passes the guard");
        let refused = nested("secret_field", pair, 100, "");
        assert_eq!(deepest(&refused), 100);
        let (kind, detail) = refusal(&refused);
        assert_eq!(kind, DiagnosticKind::PayloadTooDeep);
        assert!(
            detail.contains("100") && detail.contains("99"),
            "the detail names the depth and the ceiling: {detail}"
        );
        assert!(
            !detail.contains("secret_field"),
            "the detail echoes nothing of the payload: {detail}"
        );
    }
    let mut mixed = String::new();
    let mut closers = Vec::new();
    for level in 0..100 {
        let (open, close) = if level % 2 == 0 { BRACES } else { ANGLES };
        mixed.push_str("f ");
        mixed.push(open);
        mixed.push(' ');
        closers.push(close);
    }
    while let Some(close) = closers.pop() {
        mixed.push(close);
        mixed.push(' ');
    }
    assert_eq!(deepest(&mixed), 100);
    assert_eq!(refusal(&mixed).0, DiagnosticKind::PayloadTooDeep);
}

#[test]
fn a_well_formed_payload_measures_its_message_values_exactly() {
    assert_eq!(deepest(""), 0);
    assert_eq!(deepest("sensor: \"s-101\" temp_c: 44"), 0);
    assert_eq!(
        deepest("readings { sensor: \"s-101\" temp_c: 44 } readings { sensor: \"s-107\" temp_c: 21 }"),
        1
    );
    assert_eq!(deepest("a { b < c { } > }"), 3);
    assert_eq!(deepest("a { } b { } c { d { } }"), 2);
    assert_eq!(deepest("a: { b: < > }"), 2);
    depth("a { b < c { } > }").expect("a shallow payload passes");
}

#[test]
fn a_bracket_in_a_comment_does_not_count_and_a_quote_in_a_comment_opens_no_string() {
    assert_eq!(deepest("# { { { {\na { }"), 1);
    assert_eq!(deepest("a { } # < < <"), 1);
    assert_eq!(deepest("a {\n  # }\n  b { }\n}"), 2);
    depth(&nested("f", BRACES, 99, "# {\n")).expect("a comment's bracket does not count");
    assert_eq!(deepest("# it's\na { b { } }"), 2);
    assert_eq!(deepest("# \"\na { }"), 1);
    assert_eq!(deepest("// {\na { }"), 2);
    assert_eq!(deepest("/* { */ a { }"), 2);
}

#[test]
fn a_bracket_in_a_string_does_not_count() {
    assert_eq!(deepest("s: \"{{{{\""), 0);
    assert_eq!(deepest("s: '<<<<'"), 0);
    assert_eq!(deepest("s: \"it's {\" a { }"), 1);
    assert_eq!(deepest("s: 'say \"{\"' a { }"), 1);
    assert_eq!(deepest("s: \"# {\" a { }"), 1);
    assert_eq!(deepest("a { s: \"}\" b { } }"), 2);
    depth(&nested("f", BRACES, 99, "s: \"{ {\"")).expect("a string's brackets do not count");
}

#[test]
fn an_escaped_quote_keeps_a_string_open_and_an_escaped_backslash_does_not() {
    assert_eq!(deepest("s: \"\\\"{{{\""), 0);
    assert_eq!(deepest("s: '\\'<<<'"), 0);
    assert_eq!(deepest("s: \"\\x22{\" a { }"), 1);
    depth(&nested("f", BRACES, 99, "s: \"\\\"{\""))
        .expect("an escaped quote keeps the string closed over its bracket");
    assert_eq!(deepest("s: \"\\\\\" a { b { } }"), 2);
    assert_eq!(deepest("s: '\\\\' a < >"), 1);
    assert_eq!(
        refusal(&nested("f", BRACES, 99, "s: \"\\\\\" g { }")).0,
        DiagnosticKind::PayloadTooDeep
    );
}

#[test]
fn concatenated_string_literals_are_each_delimited() {
    assert_eq!(deepest("s: \"{\" \"{\" '{'"), 0);
    assert_eq!(deepest("s: \"{\"\"{\""), 0);
    assert_eq!(deepest("s: \"\" \"\" a { }"), 1);
    assert_eq!(deepest("s: \"x\"\"{\" a { }"), 1);
    assert_eq!(deepest("s: \"{\" '{' a { b < > }"), 2);
    depth(&nested("f", BRACES, 99, "s: \"{\" \"{\"")).expect("concatenated strings' brackets do not count");
    assert_eq!(
        refusal(&nested("f", BRACES, 99, "s: \"{\" \"\" g { }")).0,
        DiagnosticKind::PayloadTooDeep
    );
}

#[test]
fn list_brackets_delimit_but_add_no_depth_while_their_message_elements_do() {
    assert_eq!(deepest("a: [1, 2, 3]"), 0);
    assert_eq!(deepest("a: []"), 0);
    assert_eq!(deepest("a: [{ b: 1 }, { b: 2 }]"), 1);
    assert_eq!(deepest("a: [< b: 1 >, { c { } }]"), 2);
    assert_eq!(deepest("[ext.full.name]: 1 [ext.msg] { }"), 1);
    assert_eq!(deepest("[type.googleapis.com/pkg.Msg] { a { } }"), 2);
    assert_eq!(deepest(&"[".repeat(200)), 0);
    depth(&nested("f", BRACES, 99, "l: [1, [2]]")).expect("list brackets add no depth");
    assert_eq!(
        refusal(&nested("f", BRACES, 99, "l: [{ }]")).0,
        DiagnosticKind::PayloadTooDeep
    );
}

#[test]
fn a_newline_ends_the_scanner_s_string_where_the_lexer_refuses_it() {
    assert_eq!(deepest("s: \"open\na { b { } }"), 2);
    assert_eq!(deepest("s: \"\\\na { b { } }"), 2);
    assert_eq!(deepest("s: \"\\\r\na { }"), 1);
    assert_eq!(
        refusal(&nested("f", BRACES, 99, "s: \"\n g { }")).0,
        DiagnosticKind::PayloadTooDeep
    );
}

#[test]
fn an_unmatched_closer_never_underflows_and_the_scan_is_total_on_any_text() {
    assert_eq!(deepest("} } > a { b { } }"), 2);
    assert_eq!(deepest("> {"), 1);
    assert_eq!(deepest("s: \"\\"), 0);
    assert_eq!(deepest("\\"), 0);
    assert_eq!(deepest("s: \"unterminated {"), 0);
    assert_eq!(deepest("# unterminated {"), 0);
    assert_eq!(deepest("s: \"\0{\" a { }"), 1);
    assert_eq!(deepest("s: \"héllo {\" a { \u{1F600} b < > }"), 2);
    depth("").expect("an empty payload passes");
    depth("} } }").expect("unmatched closers are the parser's to refuse, not the guard's");
}

#[test]
fn the_refusal_detail_is_composed_from_the_measure_alone() {
    let refused = nested("f", BRACES, 120, "");
    let (_, detail) = refusal(&refused);
    assert_eq!(
        detail,
        "the textproto payload nests message values 120 levels below the root, past keryx's payload nesting ceiling of 99"
    );
}
