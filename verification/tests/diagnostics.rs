use keryx_core::diagnostics::{
    escape, Diagnostic, DiagnosticKind, Diagnostics, Locus, DETAIL_HUMAN_CHARS,
};

#[test]
fn escape_encodes_quote_backslash_and_controls() {
    assert_eq!(
        escape("a\"b\\c\nd\te\rf\u{01}g"),
        "a\\\"b\\\\c\\nd\\te\\rf\\u0001g"
    );
}

#[test]
fn the_human_view_escapes_controls_and_bounds_on_a_char_boundary() {
    let noisy = format!("\u{1b}[31m\u{7}{}", "é".repeat(DETAIL_HUMAN_CHARS + 50));
    let shown = Diagnostic::new(DiagnosticKind::DependencyFault, Locus::whole(), &noisy).to_string();
    assert!(
        !shown.contains('\u{1b}') && !shown.contains('\u{7}'),
        "controls escaped: {shown:?}"
    );
    assert!(shown.contains('…'), "truncation marked");

    let noisy_path = format!("\u{1b}\u{7}{}", "é".repeat(DETAIL_HUMAN_CHARS + 50));
    let located =
        Diagnostic::new(DiagnosticKind::UnmappableName, Locus::at(&noisy_path), "boom").to_string();
    assert!(
        !located.contains('\u{1b}') && !located.contains('\u{7}'),
        "path controls escaped: {located:?}"
    );
    assert!(located.contains('…'), "path truncation marked");
}

#[test]
fn kind_wire_names_are_stable() {
    assert_eq!(
        DiagnosticKind::UnreadableDescriptorSet.as_str(),
        "unreadable_descriptor_set"
    );
    assert_eq!(DiagnosticKind::UnsupportedEdition.as_str(), "unsupported_edition");
    assert_eq!(DiagnosticKind::MalformedDescriptor.as_str(), "malformed_descriptor");
    assert_eq!(DiagnosticKind::MalformedOption.as_str(), "malformed_option");
    assert_eq!(DiagnosticKind::UnmappableOptionKey.as_str(), "unmappable_option_key");
    assert_eq!(DiagnosticKind::UnrenderableFacts.as_str(), "unrenderable_facts");
    assert_eq!(DiagnosticKind::UncompilableSource.as_str(), "uncompilable_source");
    assert_eq!(DiagnosticKind::PackagelessFile.as_str(), "packageless_file");
    assert_eq!(DiagnosticKind::UnmappableName.as_str(), "unmappable_name");
    assert_eq!(DiagnosticKind::AmbiguousConstant.as_str(), "ambiguous_constant");
    assert_eq!(DiagnosticKind::DependencyFault.as_str(), "dependency_fault");
    assert_eq!(DiagnosticKind::SourceTooDeep.as_str(), "source_too_deep");
    assert_eq!(DiagnosticKind::SourceOutsideRoot.as_str(), "source_outside_root");
    assert_eq!(
        DiagnosticKind::SourceImportGraphTooLarge.as_str(),
        "source_import_graph_too_large"
    );
    assert_eq!(DiagnosticKind::UndecodablePayload.as_str(), "undecodable_payload");
}

#[test]
fn the_whole_input_locus_is_an_absence_not_a_sentinel() {
    assert!(Locus::whole().is_whole());
    assert_eq!(Locus::whole().path(), None);
    assert_eq!(Locus::at("x").path(), Some("x"));
    assert!(!Locus::at("x").is_whole());
}

#[test]
fn diagnostics_compose_as_a_standard_error() {
    let diagnostics = Diagnostics::one(Diagnostic::new(
        DiagnosticKind::UnmappableName,
        Locus::at("p.Q"),
        "boom",
    ));
    assert_eq!(diagnostics.to_string(), "unmappable_name at p.Q: boom");
}

#[test]
fn wire_is_the_appendix_b_array_with_a_flat_whole_locus() {
    let mut diagnostics = Diagnostics::one(Diagnostic::new(
        DiagnosticKind::UncompilableSource,
        Locus::whole(),
        "one",
    ));
    diagnostics.push(Diagnostic::new(
        DiagnosticKind::UnmappableName,
        Locus::at("p.Q"),
        "two\"x",
    ));
    assert_eq!(
        diagnostics.wire(),
        r#"[{"field_path":"","kind":"uncompilable_source","detail":"one"},{"field_path":"p.Q","kind":"unmappable_name","detail":"two\"x"}]"#
    );
}

#[test]
fn contains_kind_asks_the_collection_whether_it_carries_a_kind() {
    let mut diagnostics = Diagnostics::one(Diagnostic::new(
        DiagnosticKind::UncompilableSource,
        Locus::whole(),
        "one",
    ));
    assert!(diagnostics.contains_kind(DiagnosticKind::UncompilableSource));
    assert!(!diagnostics.contains_kind(DiagnosticKind::DependencyFault));
    diagnostics.push(Diagnostic::new(
        DiagnosticKind::DependencyFault,
        Locus::whole(),
        "two",
    ));
    assert!(diagnostics.contains_kind(DiagnosticKind::DependencyFault));
}

#[test]
fn a_collected_empty_sequence_is_no_failure_and_a_full_one_keeps_its_order() {
    assert!(Diagnostics::collect(Vec::new()).is_none());
    let collected = Diagnostics::collect(vec![
        Diagnostic::new(DiagnosticKind::SourceTooDeep, Locus::whole(), "a"),
        Diagnostic::new(DiagnosticKind::SourceOutsideRoot, Locus::at("f"), "b"),
    ])
    .expect("two causes");
    assert_eq!(collected.len(), 2);
    let kinds: Vec<DiagnosticKind> = collected.iter().map(|d| d.kind()).collect();
    assert_eq!(
        kinds,
        vec![DiagnosticKind::SourceTooDeep, DiagnosticKind::SourceOutsideRoot]
    );
}

#[test]
fn one_diagnostic_converts_to_the_diagnostics_of_one_cause() {
    let d = keryx_core::diagnostics::Diagnostic::new(
        keryx_core::diagnostics::DiagnosticKind::MalformedDescriptor,
        keryx_core::diagnostics::Locus::at("p.M"),
        "detail",
    );
    let one = keryx_core::diagnostics::Diagnostics::one(d.clone());
    assert_eq!(one.len(), 1);
    assert_eq!(one.iter().next(), Some(&d));
    assert_eq!(one, keryx_core::diagnostics::Diagnostics::from(d.clone()));
    let mut more = one.clone();
    more.push(d.clone());
    assert_eq!(more.len(), 2);
    assert_eq!(more.iter().cloned().collect::<Vec<_>>(), vec![d.clone(), d]);
}
