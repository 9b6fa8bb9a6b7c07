use keryx_core::codec::raise::raise;
use keryx_core::codec::scalar::{lower, Datum, Term};
use keryx_core::codec::slots::Symbol;
use keryx_core::descriptor::model::Scalar;
use keryx_core::diagnostics::{Diagnostic, DiagnosticKind, Locus};
use keryx_core::policy::ScalarTreatment;
use keryx_core::policy::ScalarTreatment::{Bool, DecimalString, HexString, Native, NativeChecked, NeedsAnnotation, Text};
use keryx_core::diagnostics::DiagnosticKind::{TermTypeMismatch, UnannotatedFloat, ValueOutOfRange};

const AT: &str = "keryx.scalars.Sample.value";

fn raised(kind: Scalar, treatment: ScalarTreatment, symbol: &Symbol) -> Datum {
    raise(symbol, kind, treatment, AT).expect("admitted")
}

fn refused_raise(kind: Scalar, treatment: ScalarTreatment, symbol: &Symbol) -> Diagnostic {
    raise(symbol, kind, treatment, AT).expect_err("refused")
}

/// A positive, zero-argument function symbol, as the lowering emits a bool.
fn constant(name: &str) -> Symbol {
    Symbol::Function {
        name: name.to_owned(),
        arguments: Vec::new(),
        positive: true,
    }
}

fn string(text: &str) -> Symbol {
    Symbol::Text(text.to_owned())
}

#[test]
fn raise_lifts_each_admitted_symbol_to_the_value_lower_produced_it_from() {
    assert_eq!(raised(Scalar::Int32, Native, &Symbol::Number(-7)), Datum::I32(-7));
    assert_eq!(
        raised(Scalar::Sfixed32, Native, &Symbol::Number(i32::MIN)),
        Datum::I32(i32::MIN)
    );
    assert_eq!(raised(Scalar::Uint32, Native, &Symbol::Number(0)), Datum::U32(0));
    assert_eq!(
        raised(Scalar::Fixed32, Native, &Symbol::Number(i32::MAX)),
        Datum::U32(2_147_483_647)
    );
    assert_eq!(
        raised(Scalar::Int64, DecimalString, &string("-9007199254740993")),
        Datum::I64(-9_007_199_254_740_993)
    );
    assert_eq!(
        raised(Scalar::Uint64, DecimalString, &string("18446744073709551615")),
        Datum::U64(u64::MAX)
    );
    assert_eq!(raised(Scalar::Bool, Bool, &constant("true")), Datum::Bool(true));
    assert_eq!(raised(Scalar::Bool, Bool, &constant("false")), Datum::Bool(false));
    assert_eq!(
        raised(Scalar::String, Text, &string("line \"two\" \\ é 字")),
        Datum::Str("line \"two\" \\ é 字".to_owned())
    );
    assert_eq!(
        raised(Scalar::Bytes, HexString, &string("00deadbeef0f")),
        Datum::Bytes(vec![0x00, 0xde, 0xad, 0xbe, 0xef, 0x0f])
    );
    assert_eq!(raised(Scalar::Bytes, HexString, &string("")), Datum::Bytes(Vec::new()));
    assert_eq!(
        raised(Scalar::Int64, NativeChecked, &Symbol::Number(2_000_000_000)),
        Datum::I64(2_000_000_000)
    );
    assert_eq!(
        raised(Scalar::Sfixed64, NativeChecked, &Symbol::Number(i32::MIN)),
        Datum::I64(i64::from(i32::MIN))
    );
    assert_eq!(
        raised(Scalar::Uint64, NativeChecked, &Symbol::Number(2_000_000_000)),
        Datum::U64(2_000_000_000)
    );
    assert_eq!(
        raised(Scalar::Uint32, DecimalString, &string("4294967295")),
        Datum::U32(u32::MAX)
    );
}

#[test]
fn raise_refuses_a_mis_shaped_or_out_of_range_symbol_never_a_panic() {
    let table = [
        (Scalar::Uint32, Native, Symbol::Number(-1), ValueOutOfRange),
        (Scalar::Uint64, DecimalString, string("99999999999999999999999"), ValueOutOfRange),
        (Scalar::Int64, DecimalString, string("not-a-number"), ValueOutOfRange),
        (Scalar::Int32, Native, string("x"), TermTypeMismatch),
        (Scalar::Bool, Bool, constant("maybe"), TermTypeMismatch),
        (Scalar::Bool, Bool, Symbol::Number(1), TermTypeMismatch),
        (Scalar::Bytes, HexString, string("abc"), TermTypeMismatch),
        (Scalar::Bytes, HexString, string("DEAD"), TermTypeMismatch),
        (Scalar::Float, NeedsAnnotation, Symbol::Number(0), UnannotatedFloat),
        (Scalar::Double, NeedsAnnotation, string("1.5"), UnannotatedFloat),
        (Scalar::Uint64, NativeChecked, Symbol::Number(-1), ValueOutOfRange),
        (Scalar::Int64, NativeChecked, string("x"), TermTypeMismatch),
        (Scalar::Uint32, DecimalString, string("4294967296"), ValueOutOfRange),
    ];
    for (kind, treatment, symbol, expected) in table {
        let diagnostic = refused_raise(kind, treatment, &symbol);
        assert_eq!(diagnostic.kind(), expected, "{kind:?} {treatment:?}");
        assert_eq!(diagnostic.locus(), &Locus::at(AT), "{kind:?} {treatment:?}");
    }
}

#[test]
fn a_raise_refusal_names_the_type_and_shape_never_the_answer_set_s_content() {
    let marker = "never-echoed-secret";
    let mismatch = refused_raise(Scalar::Int32, ScalarTreatment::Native, &string(marker));
    let detail = mismatch.detail();
    assert!(!detail.contains(marker), "{detail}");
    assert!(detail.contains("int32") && detail.contains("a string"), "{detail}");
    let range = refused_raise(
        Scalar::Uint64,
        ScalarTreatment::DecimalString,
        &string(&format!("{marker}9999")),
    );
    assert!(!range.detail().contains(marker), "{}", range.detail());
}

#[test]
fn raise_refusal_details_are_exact() {
    assert_eq!(
        refused_raise(Scalar::Uint32, ScalarTreatment::Native, &Symbol::Number(-3)).detail(),
        "the uint32 value -3 is negative, but uint32 is unsigned; the answer set is refused rather than wrapped"
    );
    assert_eq!(
        refused_raise(Scalar::Int32, ScalarTreatment::Native, &Symbol::Infimum).detail(),
        "the answer set carries a term-order bound where the field's type `int32` is declared; the term does not lower to that type"
    );
    assert_eq!(
        refused_raise(Scalar::Uint64, ScalarTreatment::DecimalString, &string("-1")).detail(),
        "the decimal string is not a valid uint64 value (a decimal integer within the type's range); refused rather than truncated"
    );
}

#[test]
fn a_decimal_string_parses_as_std_does() {
    assert_eq!(raised(Scalar::Int64, DecimalString, &string("+42")), Datum::I64(42));
    assert_eq!(raised(Scalar::Uint64, DecimalString, &string("007")), Datum::U64(7));
    assert_eq!(
        raised(Scalar::Int64, DecimalString, &string("-9223372036854775808")),
        Datum::I64(i64::MIN)
    );
    assert_eq!(
        refused_raise(Scalar::Int64, DecimalString, &string("9223372036854775808")).kind(),
        DiagnosticKind::ValueOutOfRange
    );
    assert_eq!(
        refused_raise(Scalar::Int64, DecimalString, &string("-")).kind(),
        DiagnosticKind::ValueOutOfRange
    );
    assert_eq!(
        refused_raise(Scalar::Uint64, DecimalString, &string("")).kind(),
        DiagnosticKind::ValueOutOfRange
    );
}

/// The symbol a lowered term reads as.
fn symbol_of(term: Term) -> Symbol {
    match term {
        Term::Int(n) => Symbol::Number(n),
        Term::Text(s) => Symbol::Text(s),
        Term::Apply(name, arguments) => Symbol::Function {
            name,
            arguments: arguments.into_iter().map(symbol_of).collect(),
            positive: true,
        },
    }
}

#[test]
fn raising_what_lower_produced_gives_the_value_back() {
    let cases = [
        (Scalar::Int32, Native, Datum::I32(-12)),
        (Scalar::Uint32, Native, Datum::U32(7)),
        (Scalar::Uint32, DecimalString, Datum::U32(u32::MAX)),
        (Scalar::Int64, DecimalString, Datum::I64(i64::MIN)),
        (Scalar::Sint64, NativeChecked, Datum::I64(-5)),
        (Scalar::Uint64, DecimalString, Datum::U64(u64::MAX)),
        (Scalar::Fixed64, NativeChecked, Datum::U64(9)),
        (Scalar::Bool, Bool, Datum::Bool(true)),
        (Scalar::String, Text, Datum::Str("a \"b\"\n".to_owned())),
        (Scalar::Bytes, HexString, Datum::Bytes(vec![0, 0xff, 0x10])),
    ];
    for (kind, treatment, datum) in cases {
        let term = lower(kind, treatment, &datum, AT).expect("admitted");
        assert_eq!(raised(kind, treatment, &symbol_of(term)), datum, "{kind:?} {treatment:?}");
    }
}
