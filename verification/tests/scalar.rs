use keryx_core::codec::scalar::{lower, Datum, Term};
use keryx_core::descriptor::model::Scalar;
use keryx_core::diagnostics::{Diagnostic, DiagnosticKind};
use keryx_core::policy::ScalarTreatment;
use keryx_core::policy::ScalarTreatment::{Bool, DecimalString, HexString, Native, NativeChecked, Text};
use keryx_core::diagnostics::DiagnosticKind::{InteriorNul, UnrepresentableText, ValueOutOfRange};

const AT: &str = "p.M.f";

fn lowered(scalar: Scalar, treatment: ScalarTreatment, datum: &Datum) -> Term {
    lower(scalar, treatment, datum, AT).expect("admitted")
}

fn refused(scalar: Scalar, treatment: ScalarTreatment, datum: &Datum) -> Diagnostic {
    lower(scalar, treatment, datum, AT).expect_err("refused")
}

fn text(s: &str) -> Term {
    Term::Text(s.to_owned())
}

fn top() -> u32 {
    u32::try_from(i32::MAX).expect("i32::MAX is a u32")
}

#[test]
fn the_section_6_table_lowers_each_admitted_value_to_its_term() {
    let table = [
        (Scalar::Int32, Native, Datum::I32(-7), Term::Int(-7)),
        (Scalar::Sint32, Native, Datum::I32(i32::MIN), Term::Int(i32::MIN)),
        (Scalar::Uint32, Native, Datum::U32(0), Term::Int(0)),
        (Scalar::Fixed32, Native, Datum::U32(top()), Term::Int(i32::MAX)),
        (Scalar::Int64, DecimalString, Datum::I64(-9_007_199_254_740_993), text("-9007199254740993")),
        (Scalar::Sfixed64, DecimalString, Datum::I64(i64::MIN), text("-9223372036854775808")),
        (Scalar::Uint64, DecimalString, Datum::U64(u64::MAX), text("18446744073709551615")),
        (Scalar::Fixed64, DecimalString, Datum::U64(0), text("0")),
        (Scalar::Bool, Bool, Datum::Bool(true), Term::Apply("true".to_owned(), vec![])),
        (Scalar::Bool, Bool, Datum::Bool(false), Term::Apply("false".to_owned(), vec![])),
        (
            Scalar::String,
            Text,
            Datum::Str("line one\nline \"two\" \\ é 字".to_owned()),
            text("line one\nline \"two\" \\ é 字"),
        ),
        (Scalar::String, Text, Datum::Str(String::new()), text("")),
        (
            Scalar::Bytes,
            HexString,
            Datum::Bytes(vec![0x00, 0xde, 0xad, 0xbe, 0xef, 0x0f]),
            text("00deadbeef0f"),
        ),
        (Scalar::Bytes, HexString, Datum::Bytes(Vec::new()), text("")),
    ];
    for (scalar, treatment, datum, expected) in table {
        let term = lowered(scalar, treatment, &datum);
        assert_eq!(term, expected, "{scalar:?} {treatment:?} {datum:?}");
    }
}

#[test]
fn the_numeric_annotation_treatments_lower_each_admitted_value() {
    let table = [
        (Scalar::Int64, NativeChecked, Datum::I64(2_000_000_000), Term::Int(2_000_000_000)),
        (Scalar::Sfixed64, NativeChecked, Datum::I64(i64::from(i32::MIN)), Term::Int(i32::MIN)),
        (Scalar::Uint64, NativeChecked, Datum::U64(2_000_000_000), Term::Int(2_000_000_000)),
        (
            Scalar::Fixed64,
            NativeChecked,
            Datum::U64(u64::try_from(i32::MAX).expect("i32::MAX is a u64")),
            Term::Int(i32::MAX),
        ),
        (Scalar::Uint32, DecimalString, Datum::U32(u32::MAX), text("4294967295")),
        (Scalar::Fixed32, DecimalString, Datum::U32(2_147_483_648), text("2147483648")),
    ];
    for (scalar, treatment, datum, expected) in table {
        let term = lowered(scalar, treatment, &datum);
        assert_eq!(term, expected, "{scalar:?} {treatment:?} {datum:?}");
    }
}

#[test]
fn the_section_6_table_refuses_each_named_case_at_the_field() {
    let table = [
        (Scalar::Uint32, Native, Datum::U32(top() + 1), ValueOutOfRange),
        (Scalar::Fixed32, Native, Datum::U32(u32::MAX), ValueOutOfRange),
        (Scalar::String, Text, Datum::Str("a\0b".to_owned()), InteriorNul),
        (Scalar::String, Text, Datum::Str("a\tb".to_owned()), UnrepresentableText),
        (Scalar::String, Text, Datum::Str("\r\n".to_owned()), UnrepresentableText),
        (Scalar::String, Text, Datum::Str("\u{1b}[31m".to_owned()), UnrepresentableText),
        (Scalar::String, Text, Datum::Str("\u{7f}".to_owned()), UnrepresentableText),
        (Scalar::String, Text, Datum::Str("\u{85}".to_owned()), UnrepresentableText),
        (Scalar::Int64, NativeChecked, Datum::I64(i64::from(i32::MAX) + 1), ValueOutOfRange),
        (Scalar::Sint64, NativeChecked, Datum::I64(i64::from(i32::MIN) - 1), ValueOutOfRange),
        (
            Scalar::Uint64,
            NativeChecked,
            Datum::U64(u64::try_from(i32::MAX).expect("i32::MAX is a u64") + 1),
            ValueOutOfRange,
        ),
    ];
    for (scalar, treatment, datum, kind) in table {
        let diagnostic = refused(scalar, treatment, &datum);
        assert_eq!(diagnostic.kind(), kind, "{scalar:?} {treatment:?} {datum:?}");
        assert_eq!(diagnostic.locus().path(), Some(AT), "{scalar:?} {treatment:?} {datum:?}");
    }
}

#[test]
fn a_refusal_names_the_proto_type_and_its_fix_it_and_never_echoes_the_value() {
    let range = refused(Scalar::Fixed32, ScalarTreatment::Native, &Datum::U32(u32::MAX));
    let detail = range.detail();
    assert!(detail.contains("fixed32"), "{detail}");
    assert!(detail.contains("4294967295"), "{detail}");
    assert!(detail.contains("i32::MAX"), "{detail}");
    assert!(detail.contains("2147483647"), "{detail}");
    assert!(detail.contains("(keryx.numeric) = DECIMAL_STRING"), "{detail}");

    let marker = "never-echoed";
    let tab = refused(Scalar::String, ScalarTreatment::Text, &Datum::Str(format!("{marker}\tafter")));
    let detail = tab.detail();
    assert!(!detail.contains(marker), "{detail}");
    assert!(detail.contains("U+0009"), "{detail}");
    assert!(detail.contains("offset 12"), "{detail}");
    let nul = refused(Scalar::String, ScalarTreatment::Text, &Datum::Str(format!("é{marker}\0")));
    let detail = nul.detail();
    assert!(!detail.contains(marker), "{detail}");
    assert!(detail.contains("offset 13"), "{detail}");
}

#[test]
fn a_nul_anywhere_is_an_interior_nul_ahead_of_any_other_control() {
    let behind_a_tab = refused(Scalar::String, ScalarTreatment::Text, &Datum::Str("\t\0".to_owned()));
    assert_eq!(behind_a_tab.kind(), DiagnosticKind::InteriorNul);
    let alone = refused(Scalar::String, ScalarTreatment::Text, &Datum::Str("\0".to_owned()));
    assert_eq!(alone.kind(), DiagnosticKind::InteriorNul);
}

#[test]
fn the_text_admission_set_is_the_clingo_dialect_s_spellable_set() {
    // Every C0 control, printable ASCII, DEL, every C1 control, and the first character past
    // them: admitted exactly when it is no control character, or is the newline.
    for code in 0..=0xA0 {
        let character = char::from_u32(code).expect("a scalar value below the surrogates");
        let admitted = lower(Scalar::String, ScalarTreatment::Text, &Datum::Str(character.to_string()), AT);
        let spellable = character == '\n' || !character.is_control();
        assert_eq!(admitted.is_ok(), spellable, "U+{code:04X} ({admitted:?})");
        if let Err(diagnostic) = admitted {
            let expected = if character == '\0' {
                DiagnosticKind::InteriorNul
            } else {
                DiagnosticKind::UnrepresentableText
            };
            assert_eq!(diagnostic.kind(), expected, "U+{code:04X}");
        }
    }
    // Past the control range, format, separator, private-use, and astral characters are admitted.
    for code in [0x00AD, 0x200B, 0x2028, 0x2029, 0xD7FF, 0xE000, 0xFEFF, 0xFFFD, 0xFFFF, 0x1F600, u32::from(char::MAX)] {
        let character = char::from_u32(code).expect("a scalar value");
        assert!(!character.is_control(), "U+{code:04X} is not a control character");
        let admitted = lower(Scalar::String, ScalarTreatment::Text, &Datum::Str(character.to_string()), AT);
        assert!(admitted.is_ok(), "U+{code:04X} ({admitted:?})");
    }
}

#[test]
fn a_range_refusal_spells_its_detail_exactly() {
    let d = refused(Scalar::Uint32, ScalarTreatment::Native, &Datum::U32(2_147_483_648));
    assert_eq!(d.kind().as_str(), "value_out_of_range");
    assert_eq!(
        d.detail(),
        "the uint32 value 2147483648 is above i32::MAX (2147483647), the widest integer a native clingo term carries; annotate the field `(keryx.numeric) = DECIMAL_STRING` to carry it as a decimal string"
    );
    let d = refused(Scalar::Sint64, ScalarTreatment::NativeChecked, &Datum::I64(-2_147_483_649));
    assert_eq!(
        d.detail(),
        "the sint64 value -2147483649 does not fit the native clingo integer range [-2147483648, 2147483647] that `(keryx.numeric) = NATIVE_CHECKED` requires; drop the annotation to carry it as a decimal string"
    );
}

#[test]
fn a_control_character_is_named_by_four_uppercase_hex_digits_at_least() {
    let d = refused(Scalar::String, ScalarTreatment::Text, &Datum::Str("ab\u{9f}".to_owned()));
    assert_eq!(d.kind().as_str(), "unrepresentable_text");
    assert_eq!(
        d.detail(),
        "the string value carries the control character U+009F at character offset 2, which has no spelling in a clingo string (the escapes are `\\\"`, `\\\\`, and `\\n` alone)"
    );
    let d = refused(Scalar::String, ScalarTreatment::Text, &Datum::Str("x\0".to_owned()));
    assert_eq!(d.kind().as_str(), "interior_nul");
    assert_eq!(
        d.detail(),
        "the string value carries a NUL (`\\0`) at character offset 1, where a NUL-terminated boundary downstream would cut it short; the value is refused rather than truncated"
    );
}

#[test]
fn the_boundaries_of_the_native_range_lower_and_refuse_as_stated() {
    assert_eq!(lowered(Scalar::Int64, ScalarTreatment::NativeChecked, &Datum::I64(i64::from(i32::MAX))), Term::Int(i32::MAX));
    assert_eq!(
        refused(Scalar::Int64, ScalarTreatment::NativeChecked, &Datum::I64(i64::MIN)).kind(),
        DiagnosticKind::ValueOutOfRange
    );
    assert_eq!(
        refused(Scalar::Uint64, ScalarTreatment::NativeChecked, &Datum::U64(u64::MAX)).detail(),
        "the uint64 value 18446744073709551615 does not fit the native clingo integer range [-2147483648, 2147483647] that `(keryx.numeric) = NATIVE_CHECKED` requires; drop the annotation to carry it as a decimal string"
    );
}
