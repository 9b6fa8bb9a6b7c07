//! The raising of one answer-set symbol back to the decoded scalar value its field carries, under
//! the field's treatment — the inverse of the lowering — or its refusal at the field's path. A
//! symbol of the wrong shape for the treatment is a `TermTypeMismatch`; a negative number where
//! the kind is unsigned, or a decimal string outside the kind's range, is a `ValueOutOfRange`; a
//! float field with no annotation is an `UnannotatedFloat`. Float treatments are not raised here:
//! their values are floats, which this library does not hold.
use vstd::prelude::*;

use crate::codec::scalar::{constant_view, hex_text, lowered, pairs, refusal, Datum, TermView};
use crate::codec::slots::{SymView, Symbol};
use crate::descriptor::model::{scalar_name, Scalar};
use crate::diagnostics::{fault_view, Diagnostic, DiagnosticKind, Locus};
use crate::policy::ScalarTreatment;
use crate::text::{chars_of, decimal, digit_char, hex_char, owned, push_signed_decimal, signed_decimal, str_eq};

verus! {

broadcast use vstd::string::group_string_axioms;

/// A decoded value as plain values.
pub enum DatumView {
    /// A 32-bit signed integer.
    I32(int),
    /// A 64-bit signed integer.
    I64(int),
    /// A 32-bit unsigned integer.
    U32(int),
    /// A 64-bit unsigned integer.
    U64(int),
    /// A boolean.
    Bool(bool),
    /// A string.
    Str(Seq<char>),
    /// Bytes.
    Bytes(Seq<u8>),
    /// An enum number.
    Enum(int),
}

/// A decoded value as plain values.
pub open spec fn datum_view(d: Datum) -> DatumView {
    match d {
        Datum::I32(v) => DatumView::I32(v as int),
        Datum::I64(v) => DatumView::I64(v as int),
        Datum::U32(v) => DatumView::U32(v as int),
        Datum::U64(v) => DatumView::U64(v as int),
        Datum::Bool(b) => DatumView::Bool(b),
        Datum::Str(s) => DatumView::Str(s@),
        Datum::Bytes(b) => DatumView::Bytes(b@),
        Datum::Enum(n) => DatumView::Enum(n as int),
    }
}

/// The symbol a term reads as in an answer set: an integer a number, a string a string, a
/// function symbol a positive function over its arguments.
pub open spec fn term_symbol(t: TermView) -> SymView
    decreases t,
{
    match t {
        TermView::Int(n) => SymView::Number(n),
        TermView::Text(s) => SymView::Text(s),
        TermView::Apply(c, args) => SymView::Function(c, terms_symbols(args), true),
    }
}

/// Terms as the symbols they read as, in order.
pub open spec fn terms_symbols(ts: Seq<TermView>) -> Seq<SymView>
    decreases ts,
{
    if ts.len() == 0 {
        Seq::empty()
    } else {
        terms_symbols(ts.drop_last()).push(term_symbol(ts.last()))
    }
}

/// Whether a kind is a 32-bit unsigned one.
pub open spec fn unsigned32(s: Scalar) -> bool {
    s is Uint32 || s is Fixed32
}

/// Whether a kind is a 64-bit unsigned one.
pub open spec fn unsigned64(s: Scalar) -> bool {
    s is Uint64 || s is Fixed64
}

/// Whether a kind is a 32-bit signed one.
pub open spec fn signed32(s: Scalar) -> bool {
    s is Int32 || s is Sint32 || s is Sfixed32
}

/// Whether a kind is a 64-bit signed one.
pub open spec fn signed64(s: Scalar) -> bool {
    s is Int64 || s is Sint64 || s is Sfixed64
}

/// Whether a treatment is one the policy pairs with the kind, and not a float treatment: the
/// native treatment of a 32-bit integer, the checked one of a 64-bit integer, the decimal-string
/// one of a 64-bit integer or a 32-bit unsigned one, or any of the others.
pub open spec fn raisable(s: Scalar, t: ScalarTreatment) -> bool {
    match t {
        ScalarTreatment::Native => signed32(s) || unsigned32(s),
        ScalarTreatment::NativeChecked => signed64(s) || unsigned64(s),
        ScalarTreatment::DecimalString => signed64(s) || unsigned64(s) || unsigned32(s),
        ScalarTreatment::FixedPoint { .. } => false,
        ScalarTreatment::OpaqueFloat => false,
        _ => true,
    }
}

/// Whether a value is of the kind: a 32-bit signed value of a 32-bit signed kind, and so on.
pub open spec fn carries(s: Scalar, d: Datum) -> bool {
    match d {
        Datum::I32(_) => signed32(s),
        Datum::U32(_) => unsigned32(s),
        Datum::I64(_) => signed64(s),
        Datum::U64(_) => unsigned64(s),
        Datum::Bool(_) => s is Bool,
        Datum::Str(_) => s is String,
        Datum::Bytes(_) => s is Bytes,
        Datum::Enum(_) => false,
    }
}

/// Whether a character is a decimal digit.
pub open spec fn is_digit(c: char) -> bool {
    48 <= (c as int) <= 57
}

/// Whether every character is a decimal digit.
pub open spec fn all_digits(s: Seq<char>) -> bool {
    forall|i: int| 0 <= i < s.len() ==> is_digit(#[trigger] s[i])
}

/// The number decimal digits spell, most significant first.
pub open spec fn digits_value(s: Seq<char>) -> nat
    decreases s.len(),
{
    if s.len() == 0 {
        0
    } else {
        digits_value(s.drop_last()) * 10 + ((s.last() as int) - 48) as nat
    }
}

/// What `str::parse` reads an unsigned integer from: an optional `+`, then one or more digits.
pub open spec fn parse_unsigned(s: Seq<char>) -> Option<nat> {
    let body = if s.len() > 0 && s[0] == '+' {
        s.drop_first()
    } else {
        s
    };
    if body.len() > 0 && all_digits(body) {
        Some(digits_value(body))
    } else {
        None
    }
}

/// What `str::parse` reads a signed integer from: an optional `+` or `-`, then one or more digits.
pub open spec fn parse_signed(s: Seq<char>) -> Option<int> {
    if s.len() > 0 && s[0] == '-' {
        let body = s.drop_first();
        if body.len() > 0 && all_digits(body) {
            Some(-(digits_value(body) as int))
        } else {
            None
        }
    } else {
        match parse_unsigned(s) {
            Some(v) => Some(v as int),
            None => None,
        }
    }
}

/// A lowercase hexadecimal digit's value.
pub open spec fn hex_value(c: char) -> Option<int> {
    if 48 <= (c as int) <= 57 {
        Some((c as int) - 48)
    } else if 97 <= (c as int) <= 102 {
        Some((c as int) - 87)
    } else {
        None
    }
}

/// The bytes an even-length run of lowercase hex digit pairs spells, or `None`.
pub open spec fn unhex_view(s: Seq<char>) -> Option<Seq<u8>> {
    if s.len() % 2 == 0 && forall|i: int| 0 <= i < s.len() ==> (#[trigger] hex_value(s[i])) is Some {
        Some(
            Seq::new(
                (s.len() / 2) as nat,
                |k: int| (hex_value(s[2 * k])->Some_0 * 16 + hex_value(s[2 * k + 1])->Some_0) as u8,
            ),
        )
    } else {
        None
    }
}

/// The word a refusal names a symbol's shape by — never its content.
pub open spec fn symbol_shape(s: SymView) -> Seq<char> {
    match s {
        SymView::Number(_) => "a number"@,
        SymView::Text(_) => "a string"@,
        SymView::Function(_, args, _) => if args.len() == 0 {
            "a constant"@
        } else {
            "a compound term"@
        },
        SymView::Infimum => "a term-order bound"@,
        SymView::Supremum => "a term-order bound"@,
    }
}

/// The detail of a symbol whose shape does not raise to the field's type.
pub open spec fn mismatch_detail(scalar: Scalar, s: SymView) -> Seq<char> {
    "the answer set carries "@ + symbol_shape(s) + " where the field's type `"@ + scalar_name(scalar)
        + "` is declared; the term does not lower to that type"@
}

/// The detail of a negative number where the kind is unsigned.
pub open spec fn negative_detail(scalar: Scalar, v: int) -> Seq<char> {
    "the "@ + scalar_name(scalar) + " value "@ + signed_decimal(v) + " is negative, but "@ + scalar_name(
        scalar,
    ) + " is unsigned; the answer set is refused rather than wrapped"@
}

/// The detail of a decimal string outside the kind's range.
pub open spec fn decimal_detail(scalar: Scalar) -> Seq<char> {
    "the decimal string is not a valid "@ + scalar_name(scalar)
        + " value (a decimal integer within the type's range); refused rather than truncated"@
}

/// The detail of a float field with no annotation.
pub open spec fn unannotated_detail(scalar: Scalar) -> Seq<char> {
    "a "@ + scalar_name(scalar)
        + " field has no default lowering; annotate it `(keryx.scale) = n` to carry a fixed-point integer (the value scaled by 10^n, range-checked) or `(keryx.opaque) = true` to carry a decimal-string constant"@
}

/// A refusal's kind and detail.
pub type Refused = (DiagnosticKind, Seq<char>);

/// The value a symbol raises to under the field's kind and treatment, or the refusal's kind and
/// detail.
pub open spec fn raised(s: SymView, scalar: Scalar, t: ScalarTreatment) -> Result<DatumView, Refused> {
    let mismatch = Err((DiagnosticKind::TermTypeMismatch, mismatch_detail(scalar, s)));
    match t {
        ScalarTreatment::Native => match s {
            SymView::Number(n) => if unsigned32(scalar) {
                if n >= 0 {
                    Ok(DatumView::U32(n))
                } else {
                    Err((DiagnosticKind::ValueOutOfRange, negative_detail(scalar, n)))
                }
            } else {
                Ok(DatumView::I32(n))
            },
            _ => mismatch,
        },
        ScalarTreatment::NativeChecked => match s {
            SymView::Number(n) => if unsigned64(scalar) {
                if n >= 0 {
                    Ok(DatumView::U64(n))
                } else {
                    Err((DiagnosticKind::ValueOutOfRange, negative_detail(scalar, n)))
                }
            } else {
                Ok(DatumView::I64(n))
            },
            _ => mismatch,
        },
        ScalarTreatment::DecimalString => match s {
            SymView::Text(text) => {
                let out = Err((DiagnosticKind::ValueOutOfRange, decimal_detail(scalar)));
                if unsigned64(scalar) {
                    match parse_unsigned(text) {
                        Some(v) => if v <= u64::MAX {
                            Ok(DatumView::U64(v as int))
                        } else {
                            out
                        },
                        None => out,
                    }
                } else if unsigned32(scalar) {
                    match parse_unsigned(text) {
                        Some(v) => if v <= u32::MAX {
                            Ok(DatumView::U32(v as int))
                        } else {
                            out
                        },
                        None => out,
                    }
                } else {
                    match parse_signed(text) {
                        Some(v) => if i64::MIN <= v <= i64::MAX {
                            Ok(DatumView::I64(v))
                        } else {
                            out
                        },
                        None => out,
                    }
                }
            },
            _ => mismatch,
        },
        ScalarTreatment::Bool => match s {
            SymView::Function(name, args, positive) => if positive && args.len() == 0 && name == "true"@ {
                Ok(DatumView::Bool(true))
            } else if positive && args.len() == 0 && name == "false"@ {
                Ok(DatumView::Bool(false))
            } else {
                Err((DiagnosticKind::TermTypeMismatch, mismatch_detail(Scalar::Bool, s)))
            },
            _ => Err((DiagnosticKind::TermTypeMismatch, mismatch_detail(Scalar::Bool, s))),
        },
        ScalarTreatment::Text => match s {
            SymView::Text(text) => Ok(DatumView::Str(text)),
            _ => mismatch,
        },
        ScalarTreatment::HexString => match s {
            SymView::Text(text) => match unhex_view(text) {
                Some(b) => Ok(DatumView::Bytes(b)),
                None => mismatch,
            },
            _ => mismatch,
        },
        ScalarTreatment::NeedsAnnotation => Err((DiagnosticKind::UnannotatedFloat, unannotated_detail(scalar))),
        _ => mismatch,
    }
}

/// A character's lowercase hex digit value, if it is one.
fn hex_value_of(c: char) -> (r: Option<u32>)
    ensures
        match hex_value(c) {
            Some(v) => r == Some(v as u32),
            None => r is None,
        },
{
    if '0' <= c && c <= '9' {
        if c == '0' {
            Some(0)
        } else if c == '1' {
            Some(1)
        } else if c == '2' {
            Some(2)
        } else if c == '3' {
            Some(3)
        } else if c == '4' {
            Some(4)
        } else if c == '5' {
            Some(5)
        } else if c == '6' {
            Some(6)
        } else if c == '7' {
            Some(7)
        } else if c == '8' {
            Some(8)
        } else {
            Some(9)
        }
    } else if c == 'a' {
        Some(10)
    } else if c == 'b' {
        Some(11)
    } else if c == 'c' {
        Some(12)
    } else if c == 'd' {
        Some(13)
    } else if c == 'e' {
        Some(14)
    } else if c == 'f' {
        Some(15)
    } else {
        None
    }
}

/// A prefix of a run of digits spells no more than the whole run.
proof fn lemma_digits_prefix(s: Seq<char>, k: int)
    requires
        all_digits(s),
        0 <= k <= s.len(),
    ensures
        digits_value(s.take(k)) <= digits_value(s),
    decreases s.len(),
{
    if k < s.len() {
        assert(all_digits(s.drop_last()));
        assert(s.drop_last().take(k) =~= s.take(k));
        lemma_digits_prefix(s.drop_last(), k);
    } else {
        assert(s.take(k) =~= s);
    }
}

/// The value the digits from `start` on spell, when they are one or more digits spelling at most
/// `max`.
fn digits_upto(cs: &Vec<char>, start: usize, max: u64) -> (r: Option<u64>)
    requires
        start <= cs@.len(),
    ensures
        match r {
            Some(v) => start < cs@.len() && all_digits(cs@.subrange(start as int, cs@.len() as int)) && v
                == digits_value(cs@.subrange(start as int, cs@.len() as int)) && v <= max,
            None => !(start < cs@.len() && all_digits(cs@.subrange(start as int, cs@.len() as int)) && digits_value(
                cs@.subrange(start as int, cs@.len() as int),
            ) <= max),
        },
{
    let ghost body = cs@.subrange(start as int, cs@.len() as int);
    if start == cs.len() {
        return None;
    }
    let mut acc: u64 = 0;
    let mut k: usize = start;
    while k < cs.len()
        invariant
            start <= k <= cs@.len(),
            body == cs@.subrange(start as int, cs@.len() as int),
            all_digits(cs@.subrange(start as int, k as int)),
            acc == digits_value(cs@.subrange(start as int, k as int)),
            acc <= max,
        decreases cs@.len() - k,
    {
        let c = cs[k];
        let n = match hex_value_of(c) {
            Some(v) => v,
            None => 10,
        };
        if n > 9 {
            proof {
                assert(body[k - start] == c);
                assert(!is_digit(body[k - start]));
            }
            return None;
        }
        let d = n as u64;
        proof {
            let next = cs@.subrange(start as int, k + 1);
            assert(next.drop_last() =~= cs@.subrange(start as int, k as int));
            assert(next.last() == c);
            assert(is_digit(c));
            assert(((next.last() as int) - 48) as nat == d);
            assert(digits_value(next) == digits_value(next.drop_last()) * 10 + ((next.last() as int) - 48) as nat);
        }
        if (acc as u128) * 10 + (d as u128) > (max as u128) {
            proof {
                assert(digits_value(cs@.subrange(start as int, k + 1)) == acc * 10 + d);
                if all_digits(body) {
                    assert(body.take(k + 1 - start) =~= cs@.subrange(start as int, k + 1));
                    lemma_digits_prefix(body, k + 1 - start);
                }
            }
            return None;
        }
        acc = acc * 10 + d;
        proof {
            assert forall|i: int| 0 <= i < k + 1 - start implies is_digit(
                #[trigger] cs@.subrange(start as int, k + 1)[i],
            ) by {
                if i < k - start {
                    assert(cs@.subrange(start as int, k + 1)[i] == cs@.subrange(start as int, k as int)[i]);
                }
            }
        }
        k = k + 1;
    }
    proof {
        assert(cs@.subrange(start as int, k as int) =~= body);
    }
    Some(acc)
}

/// What `str::parse` reads as an unsigned integer of at most `max`.
fn parse_unsigned_upto(text: &str, max: u64) -> (r: Option<u64>)
    ensures
        match parse_unsigned(text@) {
            Some(v) => if v <= max {
                r == Some(v as u64)
            } else {
                r is None
            },
            None => r is None,
        },
{
    let cs = chars_of(text);
    let start: usize = if cs.len() > 0 && cs[0] == '+' {
        1
    } else {
        0
    };
    proof {
        if start == 1 {
            assert(cs@.subrange(1, cs@.len() as int) =~= text@.drop_first());
        } else {
            assert(cs@.subrange(0, cs@.len() as int) =~= text@);
        }
    }
    digits_upto(&cs, start, max)
}

/// What `str::parse` reads as an `i64`.
fn parse_i64(text: &str) -> (r: Option<i64>)
    ensures
        match parse_signed(text@) {
            Some(v) => if i64::MIN <= v <= i64::MAX {
                r == Some(v as i64)
            } else {
                r is None
            },
            None => r is None,
        },
{
    let cs = chars_of(text);
    if cs.len() > 0 && cs[0] == '-' {
        proof {
            assert(cs@.subrange(1, cs@.len() as int) =~= text@.drop_first());
        }
        match digits_upto(&cs, 1, 9223372036854775808u64) {
            Some(m) => {
                if m == 9223372036854775808u64 {
                    Some(i64::MIN)
                } else {
                    Some(-(m as i64))
                }
            },
            None => None,
        }
    } else {
        proof {
            if !(cs@.len() > 0 && cs@[0] == '-') {
                assert(!(text@.len() > 0 && text@[0] == '-'));
            }
        }
        match parse_unsigned_upto(text, 9223372036854775807u64) {
            Some(v) => Some(v as i64),
            None => None,
        }
    }
}

/// The bytes an even-length run of lowercase hex digit pairs spells, or `None`.
fn unhex(text: &str) -> (r: Option<Vec<u8>>)
    ensures
        match unhex_view(text@) {
            Some(b) => r matches Some(v) && v@ == b,
            None => r is None,
        },
{
    let cs = chars_of(text);
    if cs.len() % 2 != 0 {
        return None;
    }
    let mut out: Vec<u8> = Vec::new();
    let mut k: usize = 0;
    while k < cs.len() / 2
        invariant
            cs@ == text@,
            cs@.len() % 2 == 0,
            k <= cs@.len() / 2,
            out@.len() == k,
            forall|i: int| 0 <= i < 2 * k ==> (#[trigger] hex_value(cs@[i])) is Some,
            forall|j: int| 0 <= j < k ==> #[trigger] out@[j] == (hex_value(cs@[2 * j])->Some_0 * 16 + hex_value(
                cs@[2 * j + 1],
            )->Some_0) as u8,
        decreases cs@.len() / 2 - k,
    {
        let h: u32 = match hex_value_of(cs[2 * k]) {
            Some(v) => v,
            None => {
                return None;
            },
        };
        let l: u32 = match hex_value_of(cs[2 * k + 1]) {
            Some(v) => v,
            None => {
                return None;
            },
        };
        let ghost before = out@;
        out.push((h * 16 + l) as u8);
        proof {
            assert(hex_value(cs@[2 * k as int]) == Some(h as int));
            assert(hex_value(cs@[2 * k + 1]) == Some(l as int));
            assert forall|i: int| 0 <= i < 2 * (k + 1) implies (#[trigger] hex_value(cs@[i])) is Some by {
                if i == 2 * k || i == 2 * k + 1 {
                } else {
                    assert(i < 2 * k);
                }
            }
            assert forall|j: int| 0 <= j < k + 1 implies #[trigger] out@[j] == (hex_value(cs@[2 * j])->Some_0 * 16
                + hex_value(cs@[2 * j + 1])->Some_0) as u8 by {
                if j < k {
                    assert(out@[j] == before[j]);
                }
            }
        }
        k = k + 1;
    }
    proof {
        assert(out@ =~= unhex_view(text@)->Some_0);
    }
    Some(out)
}

/// The word a refusal names a symbol's shape by.
fn shape_word(s: &Symbol) -> (r: &'static str)
    ensures
        r@ == symbol_shape(s.sv()),
{
    proof {
        reveal_strlit("a number");
        reveal_strlit("a string");
        reveal_strlit("a constant");
        reveal_strlit("a compound term");
        reveal_strlit("a term-order bound");
    }
    match s {
        Symbol::Number(_) => "a number",
        Symbol::Text(_) => "a string",
        Symbol::Function { arguments, .. } => if arguments.len() == 0 {
            "a constant"
        } else {
            "a compound term"
        },
        Symbol::Infimum => "a term-order bound",
        Symbol::Supremum => "a term-order bound",
    }
}

/// The refusal of a symbol whose shape does not raise to the field's type.
fn mismatch(scalar: Scalar, s: &Symbol, at: &str) -> (d: Diagnostic)
    ensures
        fault_view(d) == (DiagnosticKind::TermTypeMismatch, Some(at@), mismatch_detail(scalar, s.sv())),
{
    let mut detail = owned("the answer set carries ");
    detail.append(shape_word(s));
    detail.append(" where the field's type `");
    detail.append(scalar.as_str());
    detail.append("` is declared; the term does not lower to that type");
    proof {
        assert(detail@ =~= mismatch_detail(scalar, s.sv()));
    }
    Diagnostic::composed(DiagnosticKind::TermTypeMismatch, Locus::at(at), detail)
}

/// The refusal of a negative number where the kind is unsigned.
fn negative(scalar: Scalar, v: i32, at: &str) -> (d: Diagnostic)
    ensures
        fault_view(d) == (DiagnosticKind::ValueOutOfRange, Some(at@), negative_detail(scalar, v as int)),
{
    let mut detail = owned("the ");
    detail.append(scalar.as_str());
    detail.append(" value ");
    push_signed_decimal(&mut detail, v as i64);
    detail.append(" is negative, but ");
    detail.append(scalar.as_str());
    detail.append(" is unsigned; the answer set is refused rather than wrapped");
    proof {
        assert(detail@ =~= negative_detail(scalar, v as int));
    }
    Diagnostic::composed(DiagnosticKind::ValueOutOfRange, Locus::at(at), detail)
}

/// The refusal of a decimal string outside the kind's range.
fn decimal_out_of_range(scalar: Scalar, at: &str) -> (d: Diagnostic)
    ensures
        fault_view(d) == (DiagnosticKind::ValueOutOfRange, Some(at@), decimal_detail(scalar)),
{
    let mut detail = owned("the decimal string is not a valid ");
    detail.append(scalar.as_str());
    detail.append(" value (a decimal integer within the type's range); refused rather than truncated");
    proof {
        assert(detail@ =~= decimal_detail(scalar));
    }
    Diagnostic::composed(DiagnosticKind::ValueOutOfRange, Locus::at(at), detail)
}

/// The refusal of a float field with no annotation.
fn unannotated(scalar: Scalar, at: &str) -> (d: Diagnostic)
    ensures
        fault_view(d) == (DiagnosticKind::UnannotatedFloat, Some(at@), unannotated_detail(scalar)),
{
    let mut detail = owned("a ");
    detail.append(scalar.as_str());
    detail.append(
        " field has no default lowering; annotate it `(keryx.scale) = n` to carry a fixed-point integer (the value scaled by 10^n, range-checked) or `(keryx.opaque) = true` to carry a decimal-string constant",
    );
    proof {
        assert(detail@ =~= unannotated_detail(scalar));
    }
    Diagnostic::composed(DiagnosticKind::UnannotatedFloat, Locus::at(at), detail)
}

/// A raising's outcome as plain values: the value, or the refusal's kind and detail.
pub open spec fn outcome(r: Result<Datum, Diagnostic>) -> Result<DatumView, Refused> {
    match r {
        Ok(d) => Ok(datum_view(d)),
        Err(e) => Err((e.spec_kind(), e.spec_detail())),
    }
}

/// Raise one answer-set symbol to the value its field carries, under the field's kind and
/// treatment — the inverse of the lowering — or refuse it at `at`: an integer symbol to a 32-bit
/// value under the native treatment (refused when negative for an unsigned kind) and to a 64-bit
/// one under the checked treatment; a decimal string to a 64-bit value, or a 32-bit unsigned one,
/// within the kind's range; the constant `true` or `false` to a boolean; a string to itself;
/// lowercase hex pairs to their bytes; a float field without an annotation refused; any symbol
/// of another shape refused as a `TermTypeMismatch` naming the shape, never the content.
pub fn raise(symbol: &Symbol, scalar: Scalar, treatment: ScalarTreatment, at: &str) -> (r: Result<Datum, Diagnostic>)
    requires
        raisable(scalar, treatment),
    ensures
        outcome(r) == raised(symbol.sv(), scalar, treatment),
        r matches Err(e) ==> e.spec_locus() == Some(at@),
{
    proof {
        reveal_strlit("true");
        reveal_strlit("false");
    }
    match treatment {
        ScalarTreatment::Native => match symbol {
            Symbol::Number(n) => {
                if matches!(scalar, Scalar::Uint32 | Scalar::Fixed32) {
                    if *n >= 0 {
                        Ok(Datum::U32(*n as u32))
                    } else {
                        Err(negative(scalar, *n, at))
                    }
                } else {
                    Ok(Datum::I32(*n))
                }
            },
            _ => Err(mismatch(scalar, symbol, at)),
        },
        ScalarTreatment::NativeChecked => match symbol {
            Symbol::Number(n) => {
                if matches!(scalar, Scalar::Uint64 | Scalar::Fixed64) {
                    if *n >= 0 {
                        Ok(Datum::U64(*n as u64))
                    } else {
                        Err(negative(scalar, *n, at))
                    }
                } else {
                    Ok(Datum::I64(*n as i64))
                }
            },
            _ => Err(mismatch(scalar, symbol, at)),
        },
        ScalarTreatment::DecimalString => match symbol {
            Symbol::Text(text) => {
                if matches!(scalar, Scalar::Uint64 | Scalar::Fixed64) {
                    match parse_unsigned_upto(text.as_str(), u64::MAX) {
                        Some(v) => Ok(Datum::U64(v)),
                        None => Err(decimal_out_of_range(scalar, at)),
                    }
                } else if matches!(scalar, Scalar::Uint32 | Scalar::Fixed32) {
                    match parse_unsigned_upto(text.as_str(), 4294967295u64) {
                        Some(v) => Ok(Datum::U32(v as u32)),
                        None => Err(decimal_out_of_range(scalar, at)),
                    }
                } else {
                    match parse_i64(text.as_str()) {
                        Some(v) => Ok(Datum::I64(v)),
                        None => Err(decimal_out_of_range(scalar, at)),
                    }
                }
            },
            _ => Err(mismatch(scalar, symbol, at)),
        },
        ScalarTreatment::Bool => match symbol {
            Symbol::Function { name, arguments, positive } => {
                if *positive && arguments.len() == 0 && str_eq(name.as_str(), "true") {
                    Ok(Datum::Bool(true))
                } else if *positive && arguments.len() == 0 && str_eq(name.as_str(), "false") {
                    Ok(Datum::Bool(false))
                } else {
                    Err(mismatch(Scalar::Bool, symbol, at))
                }
            },
            _ => Err(mismatch(Scalar::Bool, symbol, at)),
        },
        ScalarTreatment::Text => match symbol {
            Symbol::Text(text) => Ok(Datum::Str(owned(text.as_str()))),
            _ => Err(mismatch(scalar, symbol, at)),
        },
        ScalarTreatment::HexString => match symbol {
            Symbol::Text(text) => match unhex(text.as_str()) {
                Some(bytes) => Ok(Datum::Bytes(bytes)),
                None => Err(mismatch(scalar, symbol, at)),
            },
            _ => Err(mismatch(scalar, symbol, at)),
        },
        _ => Err(unannotated(scalar, at)),
    }
}

/// A natural number's decimal spelling is one or more digits, led by a digit, spelling it.
proof fn lemma_decimal_spells(n: nat)
    ensures
        decimal(n).len() > 0,
        all_digits(decimal(n)),
        is_digit(decimal(n)[0]),
        digits_value(decimal(n)) == n,
    decreases n,
{
    if n < 10 {
        assert(is_digit(digit_char(n as int)));
        assert(decimal(n).drop_last() =~= Seq::<char>::empty());
        assert(digit_char(n as int) as int == 48 + n);
        assert(digits_value(decimal(n)) == digits_value(decimal(n).drop_last()) * 10 + ((decimal(n).last() as int) - 48) as nat);
    } else {
        lemma_decimal_spells(n / 10);
        let s = decimal(n);
        assert(s.drop_last() =~= decimal(n / 10));
        assert(s.last() == digit_char((n % 10) as int));
        assert(is_digit(digit_char((n % 10) as int)));
        assert forall|i: int| 0 <= i < s.len() implies is_digit(#[trigger] s[i]) by {
            if i < s.len() - 1 {
                assert(s[i] == decimal(n / 10)[i]);
            }
        }
        assert(s[0] == decimal(n / 10)[0]);
        assert(digit_char((n % 10) as int) as int == 48 + n % 10);
        assert(digits_value(s) == digits_value(s.drop_last()) * 10 + ((s.last() as int) - 48) as nat);
        assert(digits_value(s) == (n / 10) * 10 + n % 10);
    }
}

/// The parse of a decimal spelling gives the number back.
proof fn lemma_parse_decimal(n: nat)
    ensures
        parse_unsigned(decimal(n)) == Some(n),
        parse_signed(decimal(n)) == Some(n as int),
{
    lemma_decimal_spells(n);
}

/// The parse of a signed decimal spelling gives the number back.
proof fn lemma_parse_signed_decimal(v: int)
    ensures
        parse_signed(signed_decimal(v)) == Some(v),
{
    if v < 0 {
        let s = signed_decimal(v);
        lemma_decimal_spells((-v) as nat);
        assert(s.drop_first() =~= decimal((-v) as nat));
    } else {
        lemma_parse_decimal(v as nat);
    }
}

/// Each byte spells as its two hex digits, in place.
proof fn lemma_hex_text_at(b: Seq<u8>)
    ensures
        hex_text(b).len() == 2 * b.len(),
        forall|k: int|
            0 <= k < b.len() ==> hex_text(b)[2 * k] == hex_char((b[k] / 16) as int) && hex_text(b)[2 * k + 1]
                == hex_char((b[k] % 16) as int),
    decreases b.len(),
{
    if b.len() > 0 {
        lemma_hex_text_at(b.drop_last());
        assert forall|k: int| 0 <= k < b.len() implies hex_text(b)[2 * k] == hex_char((b[k] / 16) as int)
            && hex_text(b)[2 * k + 1] == hex_char((b[k] % 16) as int) by {
            if k < b.len() - 1 {
                assert(b.drop_last()[k] == b[k]);
            }
        }
    }
}

/// A hex digit's character reads back as the digit.
proof fn lemma_hex_digit(d: int)
    requires
        0 <= d < 16,
    ensures
        hex_value(hex_char(d)) == Some(d),
{
}

/// The bytes' hex spelling reads back as the bytes.
proof fn lemma_unhex_hex(b: Seq<u8>)
    ensures
        unhex_view(hex_text(b)) == Some(b),
{
    lemma_hex_text_at(b);
    let s = hex_text(b);
    assert forall|i: int| 0 <= i < s.len() implies (#[trigger] hex_value(s[i])) is Some by {
        let k = i / 2;
        if i % 2 == 0 {
            assert(i == 2 * k);
            lemma_hex_digit((b[k] / 16) as int);
        } else {
            assert(i == 2 * k + 1);
            lemma_hex_digit((b[k] % 16) as int);
        }
    }
    let back = unhex_view(s)->Some_0;
    assert forall|k: int| 0 <= k < b.len() implies back[k] == b[k] by {
        lemma_hex_digit((b[k] / 16) as int);
        lemma_hex_digit((b[k] % 16) as int);
    }
    assert(back =~= b);
}

/// Raising what the lowering produced gives the value back: a value of the field's kind, under a
/// treatment it belongs to and that raises, and that the lowering does not refuse, lowers to a
/// term whose symbol raises to the value itself.
pub proof fn lemma_raise_undoes_lower(scalar: Scalar, treatment: ScalarTreatment, d: Datum, at: Seq<char>)
    requires
        raisable(scalar, treatment),
        pairs(treatment, d),
        carries(scalar, d),
        refusal(scalar, treatment, d, at) is None,
    ensures
        raised(term_symbol(lowered(treatment, d)), scalar, treatment) == Ok::<DatumView, Refused>(datum_view(d)),
{
    reveal_strlit("true");
    reveal_strlit("false");
    match d {
        Datum::U32(v) => {
            if treatment is DecimalString {
                lemma_parse_decimal(v as nat);
                assert(lowered(treatment, d) == TermView::Text(decimal(v as nat)));
                assert(parse_unsigned(decimal(v as nat)) == Some(v as nat));
                assert(!unsigned64(scalar));
                assert(unsigned32(scalar));
                assert(term_symbol(TermView::Text(decimal(v as nat))) == SymView::Text(decimal(v as nat)));
                assert(raised(SymView::Text(decimal(v as nat)), scalar, treatment) == Ok::<DatumView, Refused>(DatumView::U32(v as int)));
            } else {
                assert(treatment is Native);
                assert(v <= 2147483647);
                assert(lowered(treatment, d) == TermView::Int(v as int));
                assert(raised(SymView::Number(v as int), scalar, treatment) == Ok::<DatumView, Refused>(DatumView::U32(v as int)));
            }
        },
        Datum::I64(v) => {
            if treatment is DecimalString {
                lemma_parse_signed_decimal(v as int);
            }
            assert(raised(term_symbol(lowered(treatment, d)), scalar, treatment) == Ok::<DatumView, Refused>(datum_view(d)));
        },
        Datum::U64(v) => {
            if treatment is DecimalString {
                lemma_parse_decimal(v as nat);
            }
            assert(raised(term_symbol(lowered(treatment, d)), scalar, treatment) == Ok::<DatumView, Refused>(datum_view(d)));
        },
        Datum::Bool(b) => {
            let c = if b {
                "true"@
            } else {
                "false"@
            };
            assert("true"@.len() != "false"@.len());
            assert(lowered(treatment, d) == TermView::Apply(c, Seq::empty()));
            assert(terms_symbols(Seq::<TermView>::empty()) =~= Seq::<SymView>::empty());
            assert(term_symbol(TermView::Apply(c, Seq::empty())) == SymView::Function(c, Seq::empty(), true));
            assert(raised(term_symbol(lowered(treatment, d)), scalar, treatment) == Ok::<DatumView, Refused>(datum_view(d)));
        },
        Datum::Bytes(b) => {
            lemma_unhex_hex(b@);
            assert(raised(term_symbol(lowered(treatment, d)), scalar, treatment) == Ok::<DatumView, Refused>(datum_view(d)));
        },
        Datum::I32(v) => {
            assert(raised(term_symbol(lowered(treatment, d)), scalar, treatment) == Ok::<DatumView, Refused>(datum_view(d)));
        },
        Datum::Str(t) => {
            assert(raised(term_symbol(lowered(treatment, d)), scalar, treatment) == Ok::<DatumView, Refused>(datum_view(d)));
        },
        Datum::Enum(_) => {},
    }
}

} // verus!
