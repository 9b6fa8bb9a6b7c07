use keryx_core::descriptor::docs::{for_path, trim, SourceLocation};
use keryx_core::descriptor::model::AnnotationValue;
use keryx_core::descriptor::options::{lower, read, OptionEntry, OptionItem, OptionValue};
use keryx_core::diagnostics::DiagnosticKind;

fn entry(name: &str, value: OptionValue) -> OptionEntry {
    OptionEntry { name: name.to_owned(), value }
}

#[test]
fn a_keryx_option_is_keyed_without_its_namespace_and_others_are_ignored() {
    let entries = vec![
        entry("keryx.set", OptionValue::Single(OptionItem::Bool(true))),
        entry("other.flag", OptionValue::Single(OptionItem::Unsupported("F32(1.5)".to_owned()))),
        entry("keryx.numeric", OptionValue::Single(OptionItem::I32(-4))),
    ];
    let anns = read(&entries, "p.M").expect("lowers");
    let keys: Vec<&str> = anns.iter().map(|a| a.key.as_str()).collect();
    assert_eq!(keys, vec!["numeric", "set"]);
    assert_eq!(anns[0].value, AnnotationValue::Int(-4));
    assert_eq!(anns[1].value, AnnotationValue::Bool(true));
}

#[test]
fn a_repeated_option_expands_in_order_and_sorts_stably_by_key() {
    let entries = vec![
        entry(
            "keryx.tag",
            OptionValue::List(vec![
                OptionItem::Text("b".to_owned()),
                OptionItem::Text("a".to_owned()),
                OptionItem::Text("c".to_owned()),
            ]),
        ),
        entry("keryx.alias", OptionValue::Single(OptionItem::Text("z".to_owned()))),
    ];
    let anns = read(&entries, "p.M").expect("lowers");
    let pairs: Vec<(String, AnnotationValue)> =
        anns.into_iter().map(|a| (a.key, a.value)).collect();
    assert_eq!(
        pairs,
        vec![
            ("alias".to_owned(), AnnotationValue::Text("z".to_owned())),
            ("tag".to_owned(), AnnotationValue::Text("b".to_owned())),
            ("tag".to_owned(), AnnotationValue::Text("a".to_owned())),
            ("tag".to_owned(), AnnotationValue::Text("c".to_owned())),
        ]
    );
}

#[test]
fn an_integer_wider_than_i64_is_a_malformed_option() {
    assert_eq!(lower(&OptionItem::U64(7), "p.M.f").unwrap(), AnnotationValue::Int(7));
    assert_eq!(
        lower(&OptionItem::U64(i64::MAX as u64), "p.M.f").unwrap(),
        AnnotationValue::Int(i64::MAX)
    );
    let d = lower(&OptionItem::U64(u64::MAX), "p.M.f").expect_err("too wide");
    let first = d.iter().next().unwrap();
    assert_eq!(first.kind(), DiagnosticKind::MalformedOption);
    assert_eq!(first.locus().path(), Some("p.M.f"));
    assert_eq!(first.detail(), "option integer exceeds i64");
}

#[test]
fn an_unsupported_value_is_refused_with_its_rendering() {
    let d = lower(&OptionItem::Unsupported("F64(2.5)".to_owned()), "p.E").expect_err("refused");
    assert_eq!(d.iter().next().unwrap().detail(), "unsupported option value F64(2.5)");
    // The first refusal in extension order refuses the whole.
    let entries = vec![
        entry("keryx.ok", OptionValue::Single(OptionItem::Bool(false))),
        entry("keryx.bad", OptionValue::List(vec![OptionItem::I64(1), OptionItem::U64(u64::MAX)])),
        entry("keryx.worse", OptionValue::Single(OptionItem::Unsupported("Bytes".to_owned()))),
    ];
    let d = read(&entries, "p.E").expect_err("refused");
    assert_eq!(d.len(), 1);
    assert_eq!(d.iter().next().unwrap().detail(), "option integer exceeds i64");
}

#[test]
fn an_enum_option_takes_its_value_name_or_its_number() {
    let named = OptionItem::EnumNumber { number: 2, name: Some("CELSIUS".to_owned()) };
    assert_eq!(lower(&named, "x").unwrap(), AnnotationValue::Enum("CELSIUS".to_owned()));
    let bare = OptionItem::EnumNumber { number: -12, name: None };
    assert_eq!(lower(&bare, "x").unwrap(), AnnotationValue::Enum("-12".to_owned()));
    assert_eq!(lower(&OptionItem::U32(u32::MAX), "x").unwrap(), AnnotationValue::Int(4294967295));
}

#[test]
fn trimming_drops_unicode_white_space_at_both_ends() {
    assert_eq!(trim("  a comment \n"), "a comment");
    assert_eq!(trim("\u{3000}\tx y\u{a0}"), "x y");
    assert_eq!(trim(" \n\t "), "");
    assert_eq!(trim(""), "");
    assert_eq!(trim("solid"), "solid");
}

#[test]
fn a_doc_is_the_first_matching_locations_trimmed_leading_comment() {
    let locations = vec![
        SourceLocation { path: vec![4, 0], leading: Some(" The message.\n".to_owned()) },
        SourceLocation { path: vec![4, 0, 2, 0], leading: Some("   ".to_owned()) },
        SourceLocation { path: vec![4, 1], leading: None },
        SourceLocation { path: vec![4, 1], leading: Some("shadowed".to_owned()) },
    ];
    assert_eq!(for_path(&locations, &[4, 0]), Some("The message.".to_owned()));
    assert_eq!(for_path(&locations, &[4, 0, 2, 0]), None);
    assert_eq!(for_path(&locations, &[4, 1]), None);
    assert_eq!(for_path(&locations, &[5]), None);
    assert_eq!(for_path(&[], &[4, 0]), None);
}
