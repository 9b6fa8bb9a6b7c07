use keryx_core::descriptor::door::{
    pre_validate, unreadable_set, DeclOutline, EnumOutline, FileOutline, MessageOutline,
    ServiceOutline, EDITIONS_UNSUPPORTED,
};
use keryx_core::diagnostics::{DiagnosticKind, Diagnostics};

fn message(name: &str) -> MessageOutline {
    MessageOutline {
        name: name.to_owned(),
        uninterpreted: false,
        fields: Vec::new(),
        oneofs: Vec::new(),
        extensions: Vec::new(),
        ranges: Vec::new(),
        enums: Vec::new(),
        nested: Vec::new(),
    }
}

fn decl(name: &str) -> DeclOutline {
    DeclOutline {
        name: name.to_owned(),
        uninterpreted: false,
    }
}

fn file(name: &str, package: &str, syntax: Option<&str>, messages: Vec<MessageOutline>) -> FileOutline {
    FileOutline {
        name: name.to_owned(),
        syntax: syntax.map(str::to_owned),
        package: package.to_owned(),
        uninterpreted: false,
        extensions: Vec::new(),
        services: Vec::new(),
        enums: Vec::new(),
        messages,
    }
}

fn listed(diagnostics: &Diagnostics) -> Vec<(DiagnosticKind, Option<String>, String)> {
    diagnostics
        .iter()
        .map(|d| {
            (
                d.kind(),
                d.locus().path().map(str::to_owned),
                d.detail().to_owned(),
            )
        })
        .collect()
}

#[test]
fn an_uninterpreted_option_is_refused_before_the_engine() {
    let mut m = message("M");
    m.fields.push(DeclOutline {
        name: "f".to_owned(),
        uninterpreted: true,
    });
    let set = vec![file("m.proto", "p", Some("proto3"), vec![m])];
    let diagnostics = pre_validate(&set).expect("a refusal, not a schema");
    assert_eq!(
        diagnostics.iter().next().unwrap().kind(),
        DiagnosticKind::MalformedDescriptor
    );
}

#[test]
fn a_non_identifier_package_is_refused_at_the_door() {
    for package in [
        "../../etc/x",
        "x\"y",
        "a b",
        "a..b",
        ".leading",
        "trailing.",
    ] {
        let set = vec![file("m.proto", package, Some("proto3"), vec![message("M")])];
        let diagnostics = pre_validate(&set).expect("a non-identifier package is refused");
        assert_eq!(
            diagnostics.iter().next().unwrap().kind(),
            DiagnosticKind::MalformedDescriptor,
            "package {package:?}"
        );
    }
}

#[test]
fn an_unrecognised_syntax_is_refused_before_the_engine() {
    for syntax in ["proto4", ""] {
        let set = vec![file("m.proto", "", Some(syntax), vec![message("M")])];
        let diagnostics = pre_validate(&set).expect("an unrecognised syntax is refused");
        assert_eq!(
            diagnostics.iter().next().unwrap().kind(),
            DiagnosticKind::MalformedDescriptor,
            "syntax {syntax:?}"
        );
    }
}

#[test]
fn a_leading_dot_name_is_refused_before_the_engine() {
    let set = vec![file("m.proto", "", None, vec![message(".Foo")])];
    let diagnostics = pre_validate(&set).expect("a leading-dot name is refused");
    assert_eq!(
        diagnostics.iter().next().unwrap().kind(),
        DiagnosticKind::MalformedDescriptor
    );
}

#[test]
fn a_clean_set_has_nothing_to_refuse() {
    let mut m = message("Reading");
    m.fields.push(decl("sensor"));
    m.nested.push(message("Inner"));
    let set = vec![
        file("a.proto", "thermal.v1", Some("proto3"), vec![m]),
        file("b.proto", "", None, Vec::new()),
        file("c.proto", "x", Some("proto2"), Vec::new()),
    ];
    assert!(pre_validate(&set).is_none());
}

#[test]
fn editions_are_unsupported_at_the_file() {
    let set = vec![file("e.proto", "e", Some("editions"), Vec::new())];
    let diagnostics = pre_validate(&set).expect("editions are refused");
    assert_eq!(
        listed(&diagnostics),
        vec![(
            DiagnosticKind::UnsupportedEdition,
            Some("e.proto".to_owned()),
            EDITIONS_UNSUPPORTED.to_owned()
        )]
    );
}

#[test]
fn refusals_come_in_the_walk_s_order_with_their_details() {
    // Two top-level messages: the walk pops the last first, and a message's nested messages
    // follow it, last first.
    let mut a = message("A");
    a.nested.push(message("1x"));
    a.nested.push(message("2y"));
    let mut b = message("B b");
    b.enums.push(EnumOutline {
        name: "E".to_owned(),
        uninterpreted: false,
        values: vec![decl("ok"), decl("not-ok")],
    });
    let mut f = file("m.proto", "p", Some("proto4"), vec![a, b]);
    f.services.push(ServiceOutline {
        name: "S".to_owned(),
        uninterpreted: true,
        methods: vec![decl("")],
    });
    let diagnostics = pre_validate(&[f]).expect("refused");
    let at = Some("m.proto".to_owned());
    let malformed = DiagnosticKind::MalformedDescriptor;
    let uninterpreted = "the set carries an uninterpreted option \u{2014} supply a compiled descriptor set (keryx does not evaluate custom option values, and an unresolved option's text-format value drives the descriptor engine's unbounded parser)";
    assert_eq!(
        listed(&diagnostics),
        vec![
            (
                malformed,
                at.clone(),
                "unrecognised syntax \"proto4\": keryx's descriptor engine reads proto2 and proto3"
                    .to_owned()
            ),
            (malformed, at.clone(), uninterpreted.to_owned()),
            (
                malformed,
                at.clone(),
                "method name \"\" is not a proto identifier".to_owned()
            ),
            (
                malformed,
                at.clone(),
                "message name \"B b\" is not a proto identifier".to_owned()
            ),
            (
                malformed,
                at.clone(),
                "enum value name \"not-ok\" is not a proto identifier".to_owned()
            ),
            (
                malformed,
                at.clone(),
                "message name \"2y\" is not a proto identifier".to_owned()
            ),
            (
                malformed,
                at,
                "message name \"1x\" is not a proto identifier".to_owned()
            ),
        ]
    );
}

#[test]
fn an_undecodable_set_is_unreadable_as_a_whole() {
    let diagnostics = unreadable_set("failed to decode".to_owned());
    assert_eq!(
        listed(&diagnostics),
        vec![(
            DiagnosticKind::UnreadableDescriptorSet,
            None,
            "failed to decode".to_owned()
        )]
    );
}
