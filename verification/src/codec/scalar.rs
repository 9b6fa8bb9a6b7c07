//! The lowering of one decoded scalar value to the answer-set term a payload fact carries, under
//! its field's treatment — or its refusal at the field's path. An integer lowers to a native term
//! when the treatment keeps it native and it fits 32 bits, else to its decimal string; a boolean
//! to the constant `true` or `false`; a string to itself, unless it carries a NUL or another
//! control character than a newline; bytes to their lowercase-hex spelling. Float values are not
//! lowered here: their treatments read a float's bits, which this library does not hold.
use vstd::prelude::*;

use crate::descriptor::model::{scalar_name, Scalar};
use crate::diagnostics::{fault_view, Diagnostic, DiagnosticKind, FaultView, Locus};
use crate::policy::ScalarTreatment;
use crate::text::{
    chars_of, decimal, hex_char, hex_digit, owned, push_char, push_decimal, push_signed_decimal,
    signed_decimal,
};

verus! {

broadcast use vstd::string::group_string_axioms;

/// One decoded scalar value, as the payload walk reads it.
#[derive(Clone, Debug, PartialEq, Eq)]
pub enum Datum {
    /// A 32-bit signed integer.
    I32(i32),
    /// A 64-bit signed integer.
    I64(i64),
    /// A 32-bit unsigned integer.
    U32(u32),
    /// A 64-bit unsigned integer.
    U64(u64),
    /// A boolean.
    Bool(bool),
    /// A string.
    Str(String),
    /// Bytes.
    Bytes(Vec<u8>),
    /// An enum number, which no scalar treatment lowers.
    Enum(i32),
}

/// A ground answer-set term.
#[derive(Debug, PartialEq, Eq)]
pub enum Term {
    /// A native integer.
    Int(i32),
    /// A function symbol applied to its arguments; a symbolic constant has none.
    Apply(String, Vec<Term>),
    /// A string.
    Text(String),
}

/// A term as plain values.
pub enum TermView {
    /// A native integer.
    Int(int),
    /// A function symbol and its arguments.
    Apply(Seq<char>, Seq<TermView>),
    /// A string.
    Text(Seq<char>),
}

impl Term {
    /// The term as plain values.
    pub open spec fn tv(self) -> TermView
        decreases self,
    {
        match self {
            Term::Int(n) => TermView::Int(n as int),
            Term::Apply(c, args) => TermView::Apply(c@, terms_view(args@)),
            Term::Text(s) => TermView::Text(s@),
        }
    }
}

/// Terms as plain values, in order.
pub open spec fn terms_view(ts: Seq<Term>) -> Seq<TermView>
    decreases ts,
{
    if ts.len() == 0 {
        Seq::empty()
    } else {
        terms_view(ts.drop_last()).push(ts.last().tv())
    }
}

/// The symbolic constant `c`.
pub open spec fn constant_view(c: Seq<char>) -> TermView {
    TermView::Apply(c, Seq::empty())
}

/// Whether a treatment and a datum belong together: the datum is of the kind the treatment
/// lowers.
pub open spec fn pairs(treatment: ScalarTreatment, datum: Datum) -> bool {
    match datum {
        Datum::I32(_) => treatment is Native,
        Datum::U32(_) => treatment is Native || treatment is DecimalString,
        Datum::I64(_) => treatment is DecimalString || treatment is NativeChecked,
        Datum::U64(_) => treatment is DecimalString || treatment is NativeChecked,
        Datum::Bool(_) => treatment is Bool,
        Datum::Str(_) => treatment is Text,
        Datum::Bytes(_) => treatment is HexString,
        Datum::Enum(_) => false,
    }
}

/// Whether a character is a control character (Unicode's `Cc`: the C0 controls, DEL, and the C1
/// controls).
pub open spec fn is_control(c: char) -> bool {
    (c as u32) < 0x20 || (0x7f <= (c as u32) && (c as u32) < 0xa0)
}

/// Whether an answer-set string cannot spell a character: a control character other than a
/// newline.
pub open spec fn unspellable(c: char) -> bool {
    c != '\n' && is_control(c)
}

/// Whether `k` is the first position of `s` holding a NUL.
pub open spec fn first_nul(s: Seq<char>, k: int) -> bool {
    0 <= k < s.len() && s[k] == '\0' && forall|j: int| 0 <= j < k ==> s[j] != '\0'
}

/// Whether `k` is the first position of `s` holding a character no answer-set string spells.
pub open spec fn first_unspellable(s: Seq<char>, k: int) -> bool {
    0 <= k < s.len() && unspellable(s[k]) && forall|j: int| 0 <= j < k ==> !unspellable(s[j])
}

/// The uppercase hexadecimal digit character for `d < 16`.
pub open spec fn upper_char(d: int) -> char {
    if d < 10 {
        (48 + d) as char
    } else {
        (55 + d) as char
    }
}

/// The uppercase hexadecimal spelling of a natural number, no leading zero.
pub open spec fn upper_hex(n: nat) -> Seq<char>
    decreases n,
{
    if n < 16 {
        seq![upper_char(n as int)]
    } else {
        upper_hex(n / 16) + seq![upper_char((n % 16) as int)]
    }
}

/// A code point as at least four uppercase hexadecimal digits.
pub open spec fn code_point_text(n: nat) -> Seq<char> {
    let pad = if n < 0x10 {
        "000"@
    } else if n < 0x100 {
        "00"@
    } else if n < 0x1000 {
        "0"@
    } else {
        Seq::empty()
    };
    pad + upper_hex(n)
}

/// The lowercase-hex spelling of bytes, two digits a byte.
pub open spec fn hex_text(bytes: Seq<u8>) -> Seq<char>
    decreases bytes.len(),
{
    if bytes.len() == 0 {
        Seq::empty()
    } else {
        hex_text(bytes.drop_last()) + seq![
            hex_char((bytes.last() / 16) as int),
            hex_char((bytes.last() % 16) as int),
        ]
    }
}

/// The detail of a 32-bit unsigned value above the native range.
pub open spec fn out_of_range_detail(scalar: Scalar, value: nat) -> Seq<char> {
    "the "@ + scalar_name(scalar) + " value "@ + decimal(value)
        + " is above i32::MAX (2147483647), the widest integer a native clingo term carries; annotate the field `(keryx.numeric) = DECIMAL_STRING` to carry it as a decimal string"@
}

/// The detail of a 64-bit value outside the native range under the checked treatment.
pub open spec fn checked_detail(scalar: Scalar, value: int) -> Seq<char> {
    "the "@ + scalar_name(scalar) + " value "@ + signed_decimal(value)
        + " does not fit the native clingo integer range [-2147483648, 2147483647] that `(keryx.numeric) = NATIVE_CHECKED` requires; drop the annotation to carry it as a decimal string"@
}

/// The detail of a string carrying a NUL at a character offset.
pub open spec fn nul_detail(offset: nat) -> Seq<char> {
    "the string value carries a NUL (`\\0`) at character offset "@ + decimal(offset)
        + ", where a NUL-terminated boundary downstream would cut it short; the value is refused rather than truncated"@
}

/// The detail of a string carrying an unspellable control character at a character offset.
pub open spec fn unrepresentable_detail(c: char, offset: nat) -> Seq<char> {
    "the string value carries the control character U+"@ + code_point_text(c as nat) + " at character offset "@
        + decimal(offset)
        + ", which has no spelling in a clingo string (the escapes are `\\\"`, `\\\\`, and `\\n` alone)"@
}

/// The refusal of a string, if any: a NUL anywhere first, at its first offset; else the first
/// unspellable control character.
pub open spec fn text_refusal(s: Seq<char>, at: Seq<char>) -> Option<FaultView> {
    if exists|k: int| 0 <= k < s.len() && s[k] == '\0' {
        let k = choose|k: int| first_nul(s, k);
        Some((DiagnosticKind::InteriorNul, Some(at), nul_detail(k as nat)))
    } else if exists|k: int| 0 <= k < s.len() && unspellable(s[k]) {
        let k = choose|k: int| first_unspellable(s, k);
        Some((DiagnosticKind::UnrepresentableText, Some(at), unrepresentable_detail(s[k], k as nat)))
    } else {
        None
    }
}

/// The refusal of a value under its treatment at path `at`, if it is refused.
pub open spec fn refusal(scalar: Scalar, treatment: ScalarTreatment, datum: Datum, at: Seq<char>) -> Option<FaultView> {
    match datum {
        Datum::U32(v) => if treatment is Native && v > 2147483647 {
            Some((DiagnosticKind::ValueOutOfRange, Some(at), out_of_range_detail(scalar, v as nat)))
        } else {
            None
        },
        Datum::I64(v) => if treatment is NativeChecked && (v < -2147483648 || v > 2147483647) {
            Some((DiagnosticKind::ValueOutOfRange, Some(at), checked_detail(scalar, v as int)))
        } else {
            None
        },
        Datum::U64(v) => if treatment is NativeChecked && v > 2147483647 {
            Some((DiagnosticKind::ValueOutOfRange, Some(at), checked_detail(scalar, v as int)))
        } else {
            None
        },
        Datum::Str(s) => text_refusal(s@, at),
        _ => None,
    }
}

/// The term a value lowers to under its treatment, when it is not refused: the integer itself,
/// or its decimal string under the decimal-string treatment; a boolean's constant; a string
/// itself; bytes' lowercase hex.
pub open spec fn lowered(treatment: ScalarTreatment, datum: Datum) -> TermView {
    match datum {
        Datum::I32(v) => TermView::Int(v as int),
        Datum::U32(v) => if treatment is DecimalString {
            TermView::Text(decimal(v as nat))
        } else {
            TermView::Int(v as int)
        },
        Datum::I64(v) => if treatment is DecimalString {
            TermView::Text(signed_decimal(v as int))
        } else {
            TermView::Int(v as int)
        },
        Datum::U64(v) => if treatment is DecimalString {
            TermView::Text(decimal(v as nat))
        } else {
            TermView::Int(v as int)
        },
        Datum::Bool(b) => constant_view(if b {
            "true"@
        } else {
            "false"@
        }),
        Datum::Str(s) => TermView::Text(s@),
        Datum::Bytes(b) => TermView::Text(hex_text(b@)),
        Datum::Enum(n) => TermView::Int(n as int),
    }
}

/// A copy of a term.
pub fn copy_term(t: &Term) -> (r: Term)
    ensures
        r.tv() == t.tv(),
    decreases t,
{
    match t {
        Term::Int(n) => Term::Int(*n),
        Term::Text(s) => Term::Text(owned(s.as_str())),
        Term::Apply(c, args) => {
            let mut out: Vec<Term> = Vec::new();
            let mut i: usize = 0;
            while i < args.len()
                invariant
                    i <= args@.len(),
                    t is Apply,
                    t->Apply_1 == *args,
                    terms_view(out@) == terms_view(args@.take(i as int)),
                decreases args@.len() - i,
            {
                proof {
                    assert(decreases_to!(*t => t->Apply_1));
                    assert(decreases_to!(*args => args@));
                    assert(decreases_to!(args@ => args@[i as int]));
                }
                let a = copy_term(&args[i]);
                proof {
                    assert(args@.take(i + 1).drop_last() =~= args@.take(i as int));
                    assert(out@.push(a).drop_last() =~= out@);
                }
                out.push(a);
                i = i + 1;
            }
            proof {
                assert(args@.take(args@.len() as int) =~= args@);
            }
            Term::Apply(owned(c.as_str()), out)
        },
    }
}

/// The uppercase hexadecimal digit character for `d < 16`.
fn upper_digit(d: u32) -> (c: char)
    requires
        d < 16,
    ensures
        c == upper_char(d as int),
{
    if d < 10 {
        hex_digit(d)
    } else if d == 10 {
        'A'
    } else if d == 11 {
        'B'
    } else if d == 12 {
        'C'
    } else if d == 13 {
        'D'
    } else if d == 14 {
        'E'
    } else {
        'F'
    }
}

/// Append the uppercase hexadecimal spelling of `n`.
fn push_upper_hex(out: &mut String, n: u32)
    ensures
        final(out)@ == old(out)@ + upper_hex(n as nat),
    decreases n,
{
    if n < 16 {
        push_char(out, upper_digit(n));
    } else {
        push_upper_hex(out, n / 16);
        push_char(out, upper_digit(n % 16));
    }
}

/// Append a code point as at least four uppercase hexadecimal digits.
fn push_code_point(out: &mut String, c: char)
    ensures
        final(out)@ == old(out)@ + code_point_text(c as nat),
{
    let n = c as u32;
    if n < 0x10 {
        out.append("000");
    } else if n < 0x100 {
        out.append("00");
    } else if n < 0x1000 {
        out.append("0");
    }
    push_upper_hex(out, n);
    assert(final(out)@ =~= old(out)@ + code_point_text(c as nat));
}

/// The lowercase-hex spelling of bytes, two digits a byte; empty bytes spell as the empty string.
fn hex(bytes: &[u8]) -> (r: String)
    ensures
        r@ == hex_text(bytes@),
{
    let mut out = String::new();
    let mut i: usize = 0;
    while i < bytes.len()
        invariant
            i <= bytes@.len(),
            out@ == hex_text(bytes@.take(i as int)),
        decreases bytes@.len() - i,
    {
        let byte = bytes[i];
        push_char(&mut out, hex_digit((byte / 16) as u32));
        push_char(&mut out, hex_digit((byte % 16) as u32));
        proof {
            assert(bytes@.take(i + 1).drop_last() =~= bytes@.take(i as int));
            assert(bytes@.take(i + 1).last() == byte);
            assert(out@ =~= hex_text(bytes@.take(i + 1)));
        }
        i = i + 1;
    }
    proof {
        assert(bytes@.take(i as int) =~= bytes@);
    }
    out
}

/// The refusal of a 32-bit unsigned value above the native range.
fn out_of_range(scalar: Scalar, value: u32, at: &str) -> (d: Diagnostic)
    ensures
        fault_view(d) == (DiagnosticKind::ValueOutOfRange, Some(at@), out_of_range_detail(scalar, value as nat)),
{
    let mut detail = owned("the ");
    detail.append(scalar.as_str());
    detail.append(" value ");
    push_decimal(&mut detail, value as u64);
    detail.append(
        " is above i32::MAX (2147483647), the widest integer a native clingo term carries; annotate the field `(keryx.numeric) = DECIMAL_STRING` to carry it as a decimal string",
    );
    proof {
        assert(detail@ =~= out_of_range_detail(scalar, value as nat));
    }
    Diagnostic::composed(DiagnosticKind::ValueOutOfRange, Locus::at(at), detail)
}

/// The refusal of a 64-bit value outside the native range under the checked treatment.
fn checked_out_of_range(scalar: Scalar, value: i128, at: &str) -> (d: Diagnostic)
    requires
        i64::MIN <= value <= u64::MAX,
    ensures
        fault_view(d) == (DiagnosticKind::ValueOutOfRange, Some(at@), checked_detail(scalar, value as int)),
{
    let mut detail = owned("the ");
    detail.append(scalar.as_str());
    detail.append(" value ");
    if value < 0 {
        push_signed_decimal(&mut detail, value as i64);
    } else {
        push_decimal(&mut detail, value as u64);
    }
    detail.append(
        " does not fit the native clingo integer range [-2147483648, 2147483647] that `(keryx.numeric) = NATIVE_CHECKED` requires; drop the annotation to carry it as a decimal string",
    );
    proof {
        assert(detail@ =~= checked_detail(scalar, value as int));
    }
    Diagnostic::composed(DiagnosticKind::ValueOutOfRange, Locus::at(at), detail)
}

/// A string as its term, or its refusal: a NUL anywhere first, then any other control character
/// but a newline, each named by its character offset and never by the value.
fn text(value: &str, at: &str) -> (r: Result<Term, Diagnostic>)
    ensures
        r is Err <==> text_refusal(value@, at@) is Some,
        r matches Err(d) ==> text_refusal(value@, at@) == Some(fault_view(d)),
        r matches Ok(t) ==> t.tv() == TermView::Text(value@),
{
    let chars = chars_of(value);
    let s = Ghost(value@);
    let mut i: usize = 0;
    while i < chars.len()
        invariant
            s@ == value@,
            chars@ == s@,
            i <= chars@.len(),
            forall|j: int| 0 <= j < i ==> s@[j] != '\0',
        decreases chars@.len() - i,
    {
        if chars[i] == '\0' {
            proof {
                assert(first_nul(s@, i as int));
                assert(exists|k: int| 0 <= k < s@.len() && s@[k] == '\0');
                let k = choose|k: int| first_nul(s@, k);
                assert(k == i) by {
                    if k < i {
                        assert(s@[k] != '\0');
                    }
                    if k > i {
                        assert(s@[i as int] != '\0');
                    }
                }
            }
            let mut detail = owned("the string value carries a NUL (`\\0`) at character offset ");
            push_decimal(&mut detail, i as u64);
            detail.append(
                ", where a NUL-terminated boundary downstream would cut it short; the value is refused rather than truncated",
            );
            proof {
                assert(detail@ =~= nul_detail(i as nat));
            }
            return Err(Diagnostic::composed(DiagnosticKind::InteriorNul, Locus::at(at), detail));
        }
        i = i + 1;
    }
    let mut i: usize = 0;
    while i < chars.len()
        invariant
            s@ == value@,
            chars@ == s@,
            i <= chars@.len(),
            forall|j: int| 0 <= j < s@.len() ==> s@[j] != '\0',
            forall|j: int| 0 <= j < i ==> !unspellable(s@[j]),
        decreases chars@.len() - i,
    {
        let c = chars[i];
        let n = c as u32;
        if c != '\n' && (n < 0x20 || (0x7f <= n && n < 0xa0)) {
            proof {
                assert(unspellable(s@[i as int]));
                assert(first_unspellable(s@, i as int));
                assert(!exists|k: int| 0 <= k < s@.len() && s@[k] == '\0');
                assert(exists|k: int| 0 <= k < s@.len() && unspellable(s@[k]));
                let k = choose|k: int| first_unspellable(s@, k);
                assert(k == i) by {
                    if k < i {
                        assert(!unspellable(s@[k]));
                    }
                    if k > i {
                        assert(!unspellable(s@[i as int]));
                    }
                }
            }
            let mut detail = owned("the string value carries the control character U+");
            push_code_point(&mut detail, c);
            detail.append(" at character offset ");
            push_decimal(&mut detail, i as u64);
            detail.append(
                ", which has no spelling in a clingo string (the escapes are `\\\"`, `\\\\`, and `\\n` alone)",
            );
            proof {
                assert(detail@ =~= unrepresentable_detail(c, i as nat));
            }
            return Err(Diagnostic::composed(DiagnosticKind::UnrepresentableText, Locus::at(at), detail));
        }
        i = i + 1;
    }
    proof {
        assert(!exists|k: int| 0 <= k < s@.len() && s@[k] == '\0');
        assert(!exists|k: int| 0 <= k < s@.len() && unspellable(s@[k]));
    }
    Ok(Term::Text(owned(value)))
}

/// Lower one scalar value to its term under its field's treatment, or refuse it at `at`, the
/// field's path: a 32-bit unsigned value above `i32::MAX` under the native treatment, and a
/// 64-bit value outside the 32-bit range under the checked one, are out of range — never
/// truncated or wrapped; a string with a NUL, or with another control character than a newline,
/// is refused by the first such character's offset.
pub fn lower(scalar: Scalar, treatment: ScalarTreatment, datum: &Datum, at: &str) -> (r: Result<Term, Diagnostic>)
    requires
        pairs(treatment, *datum),
    ensures
        r is Err <==> refusal(scalar, treatment, *datum, at@) is Some,
        r matches Err(d) ==> refusal(scalar, treatment, *datum, at@) == Some(fault_view(d)),
        r matches Ok(t) ==> t.tv() == lowered(treatment, *datum),
{
    match datum {
        Datum::I32(v) => Ok(Term::Int(*v)),
        Datum::U32(v) => {
            if let ScalarTreatment::DecimalString = treatment {
                let mut s = String::new();
                push_decimal(&mut s, *v as u64);
                Ok(Term::Text(s))
            } else if *v <= 2147483647 {
                Ok(Term::Int(*v as i32))
            } else {
                Err(out_of_range(scalar, *v, at))
            }
        },
        Datum::I64(v) => {
            if let ScalarTreatment::DecimalString = treatment {
                let mut s = String::new();
                push_signed_decimal(&mut s, *v);
                Ok(Term::Text(s))
            } else if -2147483648 <= *v && *v <= 2147483647 {
                Ok(Term::Int(*v as i32))
            } else {
                Err(checked_out_of_range(scalar, *v as i128, at))
            }
        },
        Datum::U64(v) => {
            if let ScalarTreatment::DecimalString = treatment {
                let mut s = String::new();
                push_decimal(&mut s, *v);
                Ok(Term::Text(s))
            } else if *v <= 2147483647 {
                Ok(Term::Int(*v as i32))
            } else {
                Err(checked_out_of_range(scalar, *v as i128, at))
            }
        },
        Datum::Bool(b) => {
            if *b {
                Ok(Term::Apply(owned("true"), Vec::new()))
            } else {
                Ok(Term::Apply(owned("false"), Vec::new()))
            }
        },
        Datum::Str(s) => text(s.as_str(), at),
        Datum::Bytes(b) => Ok(Term::Text(hex(b.as_slice()))),
        // No treatment pairs with an enum number: the precondition leaves this arm unreached.
        Datum::Enum(n) => Ok(Term::Int(*n)),
    }
}

} // verus!
