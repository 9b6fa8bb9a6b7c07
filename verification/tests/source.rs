use keryx_core::descriptor::source::{
    max_nesting_depth, refusal_diagnostics, screen, source_outside_root, source_too_deep, Refusal,
    SOURCE_NESTING_LIMIT,
};
use keryx_core::diagnostics::DiagnosticKind;

#[test]
fn counts_structural_brace_depth() {
    assert_eq!(max_nesting_depth(""), 0);
    assert_eq!(max_nesting_depth("message A { message B { } }"), 2);
    assert_eq!(max_nesting_depth("a{b{c{}}} d{}"), 3);
}

#[test]
fn ignores_braces_in_strings_and_comments() {
    assert_eq!(max_nesting_depth(r#"option x = "{{{{";"#), 0);
    assert_eq!(max_nesting_depth("// {{{{\nmessage A{}"), 1);
    assert_eq!(max_nesting_depth("# {{{{\nmessage A{}"), 1);
    assert_eq!(max_nesting_depth("/* {{{{ */ message A{}"), 1);
    assert_eq!(max_nesting_depth(r#"option x = "\"{{{";"#), 0);
}

#[test]
fn a_backslash_before_a_newline_does_not_swallow_it() {
    assert_eq!(max_nesting_depth("option x = \"\\\nmessage A{message B{}}"), 2);
}

#[test]
fn refuses_past_the_limit_admits_at_it() {
    let past = "{".repeat(SOURCE_NESTING_LIMIT + 1);
    assert!(max_nesting_depth(&past) > SOURCE_NESTING_LIMIT);
    let at = "{".repeat(SOURCE_NESTING_LIMIT);
    assert!(max_nesting_depth(&at) <= SOURCE_NESTING_LIMIT);
}

#[test]
fn an_unterminated_block_comment_runs_to_the_end() {
    assert_eq!(max_nesting_depth("a{ /* { { { "), 1);
    assert_eq!(max_nesting_depth("a{}/**/b{c{}}"), 2);
}

#[test]
fn the_refusals_name_the_file_the_depth_and_the_bound() {
    let deep = source_too_deep("deep.proto", 120);
    let d = deep.iter().next().expect("one diagnostic");
    assert_eq!(d.kind(), DiagnosticKind::SourceTooDeep);
    assert_eq!(d.locus().path(), Some("deep.proto"));
    assert_eq!(
        d.detail(),
        "source nests 120 levels deep, beyond keryx's source-nesting limit of 99: flatten the schema — nesting must stay at or below 99"
    );
    let outside = source_outside_root("../x.proto");
    let d = outside.iter().next().expect("one diagnostic");
    assert_eq!(d.kind(), DiagnosticKind::SourceOutsideRoot);
    assert_eq!(d.locus().path(), Some("../x.proto"));
    assert_eq!(
        d.detail(),
        "import \"../x.proto\" resolves outside its include root; keryx reads only within the include roots it is given"
    );
}

#[test]
fn a_file_is_screened_for_confinement_before_depth() {
    assert_eq!(
        screen("a.proto", false, "message A {}"),
        Some(Refusal::Outside { name: "a.proto".to_owned() })
    );
    let deep = "{".repeat(SOURCE_NESTING_LIMIT + 1);
    assert_eq!(
        screen("a.proto", true, &deep),
        Some(Refusal::TooDeep { name: "a.proto".to_owned(), depth: SOURCE_NESTING_LIMIT + 1 })
    );
    assert_eq!(screen("a.proto", true, "message A { message B {} }"), None);
    let refused = refusal_diagnostics(&Refusal::TooDeep { name: "a.proto".to_owned(), depth: 100 });
    assert_eq!(refused.iter().next().expect("one").kind(), DiagnosticKind::SourceTooDeep);
}
