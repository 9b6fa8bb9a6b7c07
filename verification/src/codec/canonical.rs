//! The protobuf wire form at the byte level, for the canonical map-entry order of an outbound
//! encode: base-128 varints read and written, field keys, a run of wire fields parsed, a field
//! re-emitted verbatim, and the integer reinterpretations a map key's sort value is decoded by.
use vstd::prelude::*;

use vstd::slice::slice_subrange;

use crate::codec::layout::{arena_closed, by_number, field_by_number, FieldLayout, MessageLayout};
use crate::descriptor::model::MapKey;

verus! {

/// The wire type of a varint.
pub const WIRE_VARINT: u8 = 0;

/// The wire type of a 64-bit fixed run.
pub const WIRE_I64: u8 = 1;

/// The wire type of a length-delimited run.
pub const WIRE_LEN: u8 = 2;

/// The wire type of a 32-bit fixed run.
pub const WIRE_I32: u8 = 5;

/// `128` to the power `j`.
pub open spec fn p128(j: nat) -> nat
    decreases j,
{
    if j == 0 {
        1
    } else {
        128 * p128((j - 1) as nat)
    }
}

/// The number the low seven bits of each byte spell, least significant group first.
pub open spec fn varint_value(s: Seq<u8>) -> nat
    decreases s.len(),
{
    if s.len() == 0 {
        0
    } else {
        (s[0] % 128) as nat + 128 * varint_value(s.drop_first())
    }
}

/// The base-128 varint of `v`: seven bits a byte, least significant first, the high bit set on
/// every byte but the last.
pub open spec fn varint(v: nat) -> Seq<u8>
    decreases v,
{
    if v < 128 {
        seq![v as u8]
    } else {
        seq![(v % 128 + 128) as u8] + varint(v / 128)
    }
}

/// Whether `s` opens with a varint of `n` bytes: its first `n - 1` bytes carry the high bit, its
/// `n`-th does not, and `n` is at most ten (a longer run overflows 64 bits).
pub open spec fn varint_ends(s: Seq<u8>, n: nat) -> bool {
    &&& 1 <= n <= 10
    &&& n <= s.len()
    &&& s[n - 1] < 128
    &&& forall|j: int| 0 <= j < n - 1 ==> s[j] >= 128
}

/// The varint that opens `s`, read as a 64-bit number (the bits past the 64th dropped), with the
/// bytes it spans — or `None` when no byte among the first ten ends one.
pub open spec fn read_varint_view(s: Seq<u8>) -> Option<(u64, nat)> {
    if exists|n: nat| #[trigger] varint_ends(s, n) {
        let n = choose|n: nat| #[trigger] varint_ends(s, n);
        Some(((varint_value(s.take(n as int)) % 0x1_0000_0000_0000_0000) as u64, n))
    } else {
        None
    }
}

/// A varint ends at one place only.
proof fn lemma_varint_ends_unique(s: Seq<u8>, n: nat, m: nat)
    requires
        varint_ends(s, n),
        varint_ends(s, m),
    ensures
        n == m,
{
    if n < m {
        assert(s[n - 1] >= 128);
    } else if m < n {
        assert(s[m - 1] >= 128);
    }
}

/// Appending a byte to a run adds its seven bits at the next group.
proof fn lemma_value_push(t: Seq<u8>, b: u8)
    ensures
        varint_value(t.push(b)) == varint_value(t) + (b % 128) as nat * p128(t.len()),
    decreases t.len(),
{
    let x = t.push(b);
    if t.len() == 0 {
        assert(x.drop_first() =~= Seq::<u8>::empty());
        assert(x[0] == b);
        assert(varint_value(x) == (b % 128) as nat + 128 * varint_value(x.drop_first()));
        assert(varint_value(x.drop_first()) == 0);
        assert(p128(0) == 1);
        assert(varint_value(t) == 0);
    } else {
        assert(x.drop_first() =~= t.drop_first().push(b));
        assert(x[0] == t[0]);
        lemma_value_push(t.drop_first(), b);
        let c = (b % 128) as nat;
        let p = p128(t.drop_first().len());
        let v1 = varint_value(t.drop_first());
        assert(p128(t.len()) == 128 * p);
        assert(varint_value(x) == (t[0] % 128) as nat + 128 * (v1 + c * p));
        assert(varint_value(t) == (t[0] % 128) as nat + 128 * v1);
        assert(128 * (v1 + c * p) == 128 * v1 + c * (128 * p)) by (nonlinear_arith);
    }
}

/// `128^j` is positive.
proof fn lemma_p128_positive(j: nat)
    ensures
        p128(j) >= 1,
    decreases j,
{
    if j > 0 {
        lemma_p128_positive((j - 1) as nat);
    }
}

/// A run of `n` bytes spells a number below `128^n`.
proof fn lemma_value_bound(t: Seq<u8>)
    ensures
        varint_value(t) < p128(t.len()),
    decreases t.len(),
{
    if t.len() > 0 {
        lemma_value_bound(t.drop_first());
    }
}

/// A varint's bytes spell its number back.
proof fn lemma_varint_value(v: nat)
    ensures
        varint_value(varint(v)) == v,
        varint(v).len() >= 1,
        varint(v)[varint(v).len() - 1] < 128,
        forall|j: int| 0 <= j < varint(v).len() - 1 ==> varint(v)[j] >= 128,
    decreases v,
{
    if v >= 128 {
        lemma_varint_value(v / 128);
        let s = varint(v);
        let low = v % 128;
        assert(s.drop_first() =~= varint(v / 128));
        assert(s[0] == (low + 128) as u8);
        assert(((low + 128) as u8) as nat == low + 128);
        assert(((low + 128) as u8) % 128 == low);
        assert(v == low + 128 * (v / 128));
        assert(varint_value(s) == (s[0] % 128) as nat + 128 * varint_value(s.drop_first()));
        assert forall|j: int| 0 <= j < s.len() - 1 implies s[j] >= 128 by {
            if j > 0 {
                assert(s[j] == varint(v / 128)[j - 1]);
            }
        }
    } else {
        let s = varint(v);
        assert(s =~= seq![v as u8]);
        assert(s.drop_first() =~= Seq::<u8>::empty());
        assert(varint_value(s) == (s[0] % 128) as nat + 128 * varint_value(s.drop_first()));
    }
}

/// A varint of a number below `128^k` spans at most `k` bytes.
proof fn lemma_varint_len(v: nat, k: nat)
    requires
        k >= 1,
        v < p128(k),
    ensures
        varint(v).len() <= k,
    decreases v,
{
    if v >= 128 {
        assert(p128(1) == 128) by {
            reveal_with_fuel(p128, 2);
        }
        assert(k >= 2);
        let q = p128((k - 1) as nat);
        assert(p128(k) == 128 * q);
        assert(v / 128 < q) by (nonlinear_arith)
            requires
                v < 128 * q,
        ;
        lemma_varint_len(v / 128, (k - 1) as nat);
    }
}

/// `128^8 = 2^56`, `128^9 = 2^63` and `128^10 = 2^70`.
proof fn lemma_p128_values()
    ensures
        p128(8) == 0x100_0000_0000_0000,
        p128(9) == 0x8000_0000_0000_0000,
        p128(10) == 0x40_0000_0000_0000_0000,
{
    reveal_with_fuel(p128, 11);
}

/// Reading back a written varint gives its number and its length — whatever follows it.
pub proof fn lemma_varint_round_trip(v: u64, rest: Seq<u8>)
    ensures
        read_varint_view(varint(v as nat) + rest) == Some((v, varint(v as nat).len())),
{
    let s = varint(v as nat) + rest;
    let n = varint(v as nat).len();
    lemma_varint_value(v as nat);
    lemma_p128_values();
    lemma_varint_len(v as nat, 10);
    assert(varint_ends(s, n));
    let m = choose|m: nat| #[trigger] varint_ends(s, m);
    lemma_varint_ends_unique(s, n, m);
    assert(s.take(n as int) =~= varint(v as nat));
}

/// `c * 2^63`, reduced mod `2^64` above a base below `2^63`, adds only its lowest bit.
proof fn lemma_top_group(base: nat, c: nat)
    requires
        base < 0x8000_0000_0000_0000,
    ensures
        (base + c * 0x8000_0000_0000_0000) % 0x1_0000_0000_0000_0000 == base + (c % 2)
            * 0x8000_0000_0000_0000,
{
    let q = c / 2;
    let r = c % 2;
    assert(c == 2 * q + r);
    assert(c * 0x8000_0000_0000_0000 == q * 0x1_0000_0000_0000_0000 + r * 0x8000_0000_0000_0000)
        by (nonlinear_arith)
        requires
            c == 2 * q + r,
    ;
    assert((base + q * 0x1_0000_0000_0000_0000 + r * 0x8000_0000_0000_0000)
        % 0x1_0000_0000_0000_0000 == base + r * 0x8000_0000_0000_0000) by (nonlinear_arith)
        requires
            base < 0x8000_0000_0000_0000,
            0 <= r < 2,
            q >= 0,
    ;
}

/// `128^j` as a machine number, for `j` below 9.
fn power(j: usize) -> (r: u64)
    requires
        j < 9,
    ensures
        r == p128(j as nat),
{
    let mut r: u64 = 1;
    let mut i: usize = 0;
    proof {
        lemma_p128_values();
    }
    while i < j
        invariant
            i <= j < 9,
            r == p128(i as nat),
        decreases j - i,
    {
        proof {
            lemma_p128_values();
            if i + 1 < 8 {
                lemma_p128_monotone((i + 1) as nat, 8);
            }
            assert(p128((i + 1) as nat) == 128 * p128(i as nat));
        }
        r = r * 128;
        i = i + 1;
    }
    r
}

/// `128^i < 128^j` for `i < j`.
proof fn lemma_p128_monotone(i: nat, j: nat)
    requires
        i < j,
    ensures
        p128(i) < p128(j),
    decreases j,
{
    lemma_p128_positive((j - 1) as nat);
    if i + 1 < j {
        lemma_p128_monotone(i, (j - 1) as nat);
    }
}

/// Read a base-128 varint from the front of `bytes`: its value and the bytes it spans, or `None`
/// on an over-long or truncated varint.
pub fn read_varint(bytes: &[u8]) -> (r: Option<(u64, usize)>)
    ensures
        r matches Some(x) ==> read_varint_view(bytes@) == Some((x.0, x.1 as nat)),
        r is None ==> read_varint_view(bytes@) is None,
{
    let ghost s = bytes@;
    let mut value: u64 = 0;
    let mut i: usize = 0;
    proof {
        lemma_p128_values();
        assert(s.take(0) =~= Seq::<u8>::empty());
    }
    while i < bytes.len()
        invariant
            s == bytes@,
            i <= 10,
            i <= s.len(),
            i < 10 ==> value == varint_value(s.take(i as int)),
            forall|j: int| 0 <= j < i ==> s[j] >= 128,
        decreases s.len() - i,
    {
        if i >= 10 {
            proof {
                assert forall|n: nat| !#[trigger] varint_ends(s, n) by {
                    if varint_ends(s, n) {
                        assert(s[n - 1] >= 128);
                    }
                }
            }
            return None;
        }
        let b = bytes[i];
        let chunk = (b % 128) as u64;
        proof {
            lemma_p128_values();
            assert(s.take(i + 1) =~= s.take(i as int).push(b));
            lemma_value_push(s.take(i as int), b);
            lemma_value_bound(s.take(i as int));
        }
        if i < 9 {
            let p = power(i);
            proof {
                lemma_value_bound(s.take(i as int));
                assert(p128((i + 1) as nat) == 128 * p);
                if i + 1 < 9 {
                    lemma_p128_monotone((i + 1) as nat, 9);
                }
                assert(128 * p <= 0x8000_0000_0000_0000);
                assert(chunk * p <= 127 * p) by (nonlinear_arith)
                    requires
                        chunk <= 127,
                ;
                assert(value < p);
            }
            value = value + chunk * p;
        } else {
            proof {
                lemma_top_group(value as nat, chunk as nat);
                assert(chunk as nat * p128(9) == chunk as nat * 0x8000_0000_0000_0000);
            }
            value = value + (chunk % 2) * 0x8000_0000_0000_0000;
        }
        if b < 128 {
            proof {
                let n = (i + 1) as nat;
                assert(varint_ends(s, n));
                let m = choose|m: nat| #[trigger] varint_ends(s, m);
                lemma_varint_ends_unique(s, n, m);
                if i < 9 {
                    lemma_value_bound(s.take(i + 1));
                    lemma_p128_monotone((i + 1) as nat, 10);
                    assert(varint_value(s.take(i + 1)) < 0x1_0000_0000_0000_0000);
                }
            }
            return Some((value, i + 1));
        }
        i = i + 1;
    }
    proof {
        assert forall|n: nat| !#[trigger] varint_ends(s, n) by {
            if varint_ends(s, n) {
                assert(s[n - 1] >= 128);
            }
        }
    }
    None
}

/// Append a base-128 varint.
pub fn write_varint(out: &mut Vec<u8>, value: u64)
    ensures
        final(out)@ == old(out)@ + varint(value as nat),
{
    let ghost start = out@;
    let mut v = value;
    loop
        invariant
            start == old(out)@,
            out@ + varint(v as nat) == start + varint(value as nat),
        decreases v,
    {
        let byte = (v % 128) as u8;
        let ghost before = out@;
        let ghost w = v as nat;
        v = v / 128;
        if v == 0 {
            out.push(byte);
            proof {
                assert(w < 128);
                assert(out@ =~= before + varint(w));
            }
            return;
        }
        out.push(byte + 128);
        proof {
            assert(varint(w) =~= seq![(w % 128 + 128) as u8] + varint(v as nat));
            assert(out@ + varint(v as nat) =~= before + varint(w));
        }
    }
}

/// A field key: the field number shifted past the three wire-type bits, and the wire type.
pub open spec fn key_value(number: u32, wire: u8) -> nat {
    (number as nat) * 8 + wire as nat
}

/// Append a field key (number and wire type).
pub fn write_key(out: &mut Vec<u8>, number: u32, wire: u8)
    requires
        wire < 8,
    ensures
        final(out)@ == old(out)@ + varint(key_value(number, wire)),
{
    let key: u64 = (number as u64) * 8 + (wire as u64);
    write_varint(out, key);
}

/// The length of a wire payload as a `u64`.
pub fn len_of(payload: &[u8]) -> (r: u64)
    ensures
        r == payload@.len(),
{
    payload.len() as u64
}

/// Append bytes verbatim.
fn push_bytes(out: &mut Vec<u8>, bytes: &[u8])
    ensures
        final(out)@ == old(out)@ + bytes@,
{
    let ghost start = out@;
    let mut i: usize = 0;
    while i < bytes.len()
        invariant
            i <= bytes@.len(),
            out@ == start + bytes@.take(i as int),
        decreases bytes@.len() - i,
    {
        out.push(bytes[i]);
        proof {
            assert(bytes@.take(i + 1) =~= bytes@.take(i as int).push(bytes@[i as int]));
        }
        i = i + 1;
    }
    proof {
        assert(bytes@.take(bytes@.len() as int) =~= bytes@);
    }
}

/// One parsed wire field: its number, its wire type, and the bytes of its value — for a varint
/// the varint's own bytes, for a fixed run the fixed bytes, for a length-delimited run the inner
/// bytes.
#[derive(Clone, Copy, Debug, PartialEq, Eq)]
pub struct WireField<'a> {
    /// The field number.
    pub number: u32,
    /// The wire type.
    pub wire: u8,
    /// The value's bytes.
    pub payload: &'a [u8],
}

/// The bytes a wire field is written as: its key, the payload's length for a length-delimited
/// run, and the payload.
pub open spec fn field_bytes(number: u32, wire: u8, payload: Seq<u8>) -> Seq<u8> {
    varint(key_value(number, wire)) + (if wire == WIRE_LEN {
        varint(payload.len())
    } else {
        Seq::empty()
    }) + payload
}

/// Re-emit a parsed field verbatim — its key, then its length (for a length-delimited run) and
/// its payload.
pub fn write_field(out: &mut Vec<u8>, field: &WireField)
    requires
        field.wire < 8,
    ensures
        final(out)@ == old(out)@ + field_bytes(field.number, field.wire, field.payload@),
{
    let ghost start = out@;
    write_key(out, field.number, field.wire);
    if field.wire == WIRE_LEN {
        write_varint(out, len_of(field.payload));
    }
    push_bytes(out, field.payload);
    proof {
        assert(out@ =~= start + field_bytes(field.number, field.wire, field.payload@));
    }
}

/// Append a length-delimited field: its key, its length, its payload.
pub fn write_len_field(out: &mut Vec<u8>, number: u32, payload: &[u8])
    ensures
        final(out)@ == old(out)@ + field_bytes(number, WIRE_LEN, payload@),
{
    let ghost start = out@;
    write_key(out, number, WIRE_LEN);
    write_varint(out, len_of(payload));
    push_bytes(out, payload);
    proof {
        assert(out@ =~= start + field_bytes(number, WIRE_LEN, payload@));
    }
}

/// A 64-bit pattern read as a two's-complement signed number.
pub open spec fn signed_of(value: u64) -> int {
    if value < 0x8000_0000_0000_0000 {
        value as int
    } else {
        value as int - 0x1_0000_0000_0000_0000
    }
}

/// Reinterpret a varint's bits as a two's-complement `i64` (an `int32`/`int64` key; a negative
/// value encodes as a full-width varint).
pub fn reinterpret(value: u64) -> (r: i64)
    ensures
        r == signed_of(value),
{
    if value < 0x8000_0000_0000_0000 {
        value as i64
    } else {
        let magnitude: u64 = 0xFFFF_FFFF_FFFF_FFFF - value;
        -(magnitude as i64) - 1
    }
}

/// Un-zigzag a `sint32`/`sint64` key's varint to its signed value: an even pattern is its half,
/// an odd one the negative of its half, less one.
pub fn unzigzag(value: u64) -> (r: i64)
    ensures
        r == if value % 2 == 0 {
            (value / 2) as int
        } else {
            -((value / 2) as int) - 1
        },
{
    let half = (value / 2) as i64;
    if value % 2 == 0 {
        half
    } else {
        -half - 1
    }
}

/// A parsed field as plain values: number, wire type, payload.
pub type FieldView = (u32, u8, Seq<u8>);

/// The payload a field of wire type `wire` opens `rest` with, and the bytes that follow it — or
/// `None` when the run is truncated or the wire type is a group or invalid.
pub open spec fn payload_view(rest: Seq<u8>, wire: nat) -> Option<(Seq<u8>, Seq<u8>)> {
    if wire == WIRE_VARINT as nat {
        match read_varint_view(rest) {
            Some((_, len)) => Some((rest.take(len as int), rest.skip(len as int))),
            None => None,
        }
    } else if wire == WIRE_I64 as nat {
        if rest.len() >= 8 {
            Some((rest.take(8), rest.skip(8)))
        } else {
            None
        }
    } else if wire == WIRE_I32 as nat {
        if rest.len() >= 4 {
            Some((rest.take(4), rest.skip(4)))
        } else {
            None
        }
    } else if wire == WIRE_LEN as nat {
        match read_varint_view(rest) {
            Some((len64, len_len)) => {
                let body = rest.skip(len_len as int);
                if len64 <= usize::MAX && len64 <= body.len() {
                    Some((body.take(len64 as int), body.skip(len64 as int)))
                } else {
                    None
                }
            },
            None => None,
        }
    } else {
        None
    }
}

/// A run of wire fields, parsed: each field's key (its number — which must fit 32 bits — and its
/// wire type), then its payload; `None` when any field is a group, carries an invalid wire type,
/// or is truncated.
pub open spec fn parse_view(s: Seq<u8>) -> Option<Seq<FieldView>>
    decreases s.len(),
{
    if s.len() == 0 {
        Some(Seq::empty())
    } else {
        match read_varint_view(s) {
            None => None,
            Some((key, key_len)) => {
                let number = key / 8;
                let wire = key % 8;
                let rest = s.skip(key_len as int);
                if number > u32::MAX {
                    None
                } else {
                    match payload_view(rest, wire as nat) {
                        None => None,
                        Some((payload, next)) => if next.len() < s.len() {
                            match parse_view(next) {
                                Some(fields) => Some(
                                    seq![(number as u32, wire as u8, payload)] + fields,
                                ),
                                None => None,
                            }
                        } else {
                            None
                        },
                    }
                }
            },
        }
    }
}

/// A parsed field as plain values.
pub open spec fn field_view(f: WireField) -> FieldView {
    (f.number, f.wire, f.payload@)
}

/// A varint read from the front of `s` spans at least one byte of it.
proof fn lemma_read_varint_len(s: Seq<u8>)
    requires
        read_varint_view(s) is Some,
    ensures
        1 <= read_varint_view(s).unwrap().1 <= s.len(),
{
}

/// One step of a parse: a run that opens with a key and a payload parses to that field before
/// the parse of what follows.
proof fn lemma_parse_step(here: Seq<u8>, key: u64, key_len: nat, payload: Seq<u8>, next: Seq<u8>)
    requires
        here.len() > 0,
        read_varint_view(here) == Some((key, key_len)),
        key / 8 <= u32::MAX,
        payload_view(here.skip(key_len as int), (key % 8) as nat) == Some((payload, next)),
        next.len() < here.len(),
    ensures
        parse_view(here) == match parse_view(next) {
            Some(more) => Some(seq![((key / 8) as u32, (key % 8) as u8, payload)] + more),
            None => None::<Seq<FieldView>>,
        },
{
}

/// The bounds of the payload a field of wire type `wire` opens `bytes[start..]` with — or `None`
/// on a truncated run, a group, or an invalid wire type.
fn payload_bounds(bytes: &[u8], start: usize, wire: u8) -> (r: Option<(usize, usize)>)
    requires
        start <= bytes@.len(),
    ensures
        r matches Some(b) ==> start <= b.0 <= b.1 <= bytes@.len() && payload_view(
            bytes@.skip(start as int),
            wire as nat,
        ) == Some((bytes@.subrange(b.0 as int, b.1 as int), bytes@.skip(b.1 as int))),
        r is None ==> payload_view(bytes@.skip(start as int), wire as nat) is None,
{
    let ghost rest = bytes@.skip(start as int);
    let rest_slice = slice_subrange(bytes, start, bytes.len());
    assert(rest_slice@ =~= rest);
    if wire == WIRE_VARINT {
        match read_varint(rest_slice) {
            Some((_, len)) => {
                proof {
                    lemma_read_varint_len(rest);
                    assert(rest.take(len as int) =~= bytes@.subrange(start as int, (start + len) as int));
                    assert(rest.skip(len as int) =~= bytes@.skip((start + len) as int));
                }
                Some((start, start + len))
            },
            None => None,
        }
    } else if wire == WIRE_I64 {
        if bytes.len() - start >= 8 {
            proof {
                assert(rest.take(8) =~= bytes@.subrange(start as int, (start + 8) as int));
                assert(rest.skip(8) =~= bytes@.skip((start + 8) as int));
            }
            Some((start, start + 8))
        } else {
            None
        }
    } else if wire == WIRE_I32 {
        if bytes.len() - start >= 4 {
            proof {
                assert(rest.take(4) =~= bytes@.subrange(start as int, (start + 4) as int));
                assert(rest.skip(4) =~= bytes@.skip((start + 4) as int));
            }
            Some((start, start + 4))
        } else {
            None
        }
    } else if wire == WIRE_LEN {
        match read_varint(rest_slice) {
            Some((len64, len_len)) => {
                proof {
                    lemma_read_varint_len(rest);
                }
                let body = start + len_len;
                if len64 > (bytes.len() - body) as u64 {
                    return None;
                }
                let len = len64 as usize;
                proof {
                    let b = rest.skip(len_len as int);
                    assert(b =~= bytes@.skip(body as int));
                    assert(b.take(len as int) =~= bytes@.subrange(body as int, (body + len) as int));
                    assert(b.skip(len as int) =~= bytes@.skip((body + len) as int));
                }
                Some((body, body + len))
            },
            None => None,
        }
    } else {
        None
    }
}

/// Parse a run of wire fields (see [`parse_view`]): `None` on a group field or a truncated run.
pub fn parse_fields(bytes: &[u8]) -> (r: Option<Vec<WireField<'_>>>)
    ensures
        r matches Some(fs) ==> parse_view(bytes@) == Some(fs@.map_values(|f: WireField| field_view(f))),
        r is None ==> parse_view(bytes@) is None,
        r matches Some(fs) ==> forall|i: int| 0 <= i < fs@.len() ==> (#[trigger] fs@[i]).wire < 8,
{
    let ghost s = bytes@;
    let mut fields: Vec<WireField<'_>> = Vec::new();
    let mut offset: usize = 0;
    proof {
        assert(s.skip(0) =~= s);
        assert(fields@.map_values(|f: WireField| field_view(f)) + parse_view(s).unwrap_or(Seq::empty())
            =~= parse_view(s).unwrap_or(Seq::empty()));
    }
    while offset < bytes.len()
        invariant
            s == bytes@,
            offset <= s.len(),
            forall|i: int| 0 <= i < fields@.len() ==> (#[trigger] fields@[i]).wire < 8,
            parse_view(s) == match parse_view(s.skip(offset as int)) {
                Some(rest) => Some(fields@.map_values(|f: WireField| field_view(f)) + rest),
                None => None::<Seq<FieldView>>,
            },
        decreases s.len() - offset,
    {
        let ghost here = s.skip(offset as int);
        let tail = slice_subrange(bytes, offset, bytes.len());
        assert(tail@ =~= here);
        let (key, key_len) = match read_varint(tail) {
            Some(x) => x,
            None => {
                return None;
            },
        };
        proof {
            lemma_read_varint_len(here);
        }
        let number64 = key / 8;
        let wire = (key % 8) as u8;
        if number64 > 0xFFFF_FFFF {
            return None;
        }
        let number = number64 as u32;
        let start = offset + key_len;
        proof {
            assert(here.skip(key_len as int) =~= s.skip(start as int));
        }
        let (payload_start, payload_end) = match payload_bounds(bytes, start, wire) {
            Some(b) => b,
            None => {
                return None;
            },
        };
        let payload = slice_subrange(bytes, payload_start, payload_end);
        let field = WireField { number, wire, payload };
        let ghost before = fields@;
        fields.push(field);
        proof {
            let next = s.skip(payload_end as int);
            lemma_parse_step(here, key, key_len as nat, payload@, next);
            assert(fields@.map_values(|f: WireField| field_view(f)) =~= before.map_values(
                |f: WireField| field_view(f),
            ).push(field_view(field)));
            if let Some(more) = parse_view(next) {
                assert(before.map_values(|f: WireField| field_view(f)) + (seq![field_view(field)] + more)
                    =~= fields@.map_values(|f: WireField| field_view(f)) + more);
            }
        }
        offset = payload_end;
    }
    proof {
        assert(s.skip(offset as int) =~= Seq::<u8>::empty());
        assert(fields@.map_values(|f: WireField| field_view(f)) + Seq::<FieldView>::empty()
            =~= fields@.map_values(|f: WireField| field_view(f)));
    }
    Some(fields)
}

// ---------------------------------------------------------------------------------------------
// Map entries: their sort keys and their stable order.
// ---------------------------------------------------------------------------------------------

/// A map entry's sort key as mathematics: a signed or an unsigned number, or the bytes of a
/// string key.
pub enum KeyView {
    /// A signed key's value.
    Signed(int),
    /// An unsigned key's value.
    Unsigned(int),
    /// A string key's bytes.
    Text(Seq<u8>),
}

/// A map entry's sort key, decoded from its key field per the declared kind — so entries order
/// by key value (numeric, or bytewise for strings), not by their raw encoding. Within one map
/// every entry yields the same variant.
#[derive(Clone, Debug, PartialEq, Eq)]
pub enum SortKey {
    /// A signed key (`int32`, `int64`, `sint32`, `sint64`, `sfixed32`, `sfixed64`).
    Signed(i64),
    /// An unsigned key (`uint32`, `uint64`, `fixed32`, `fixed64`, `bool`).
    Unsigned(u64),
    /// A string key's bytes.
    Text(Vec<u8>),
}

impl View for SortKey {
    type V = KeyView;

    open spec fn view(&self) -> KeyView {
        match self {
            SortKey::Signed(x) => KeyView::Signed(*x as int),
            SortKey::Unsigned(x) => KeyView::Unsigned(*x as int),
            SortKey::Text(b) => KeyView::Text(b@),
        }
    }
}

/// The rank of a key's variant: signed before unsigned before text.
pub open spec fn key_rank(k: KeyView) -> int {
    match k {
        KeyView::Signed(_) => 0,
        KeyView::Unsigned(_) => 1,
        KeyView::Text(_) => 2,
    }
}

/// Whether `a` orders strictly before `b` bytewise (a proper prefix before its extensions).
pub open spec fn bytes_lt(a: Seq<u8>, b: Seq<u8>) -> bool
    decreases a.len(),
{
    if b.len() == 0 {
        false
    } else if a.len() == 0 {
        true
    } else if a[0] != b[0] {
        a[0] < b[0]
    } else {
        bytes_lt(a.drop_first(), b.drop_first())
    }
}

/// Whether key `a` orders at or before key `b`: by variant, then by value.
pub open spec fn key_le(a: KeyView, b: KeyView) -> bool {
    match (a, b) {
        (KeyView::Signed(x), KeyView::Signed(y)) => x <= y,
        (KeyView::Unsigned(x), KeyView::Unsigned(y)) => x <= y,
        (KeyView::Text(x), KeyView::Text(y)) => x == y || bytes_lt(x, y),
        _ => key_rank(a) < key_rank(b),
    }
}

/// The value of bytes read little-endian.
pub open spec fn le_value(s: Seq<u8>) -> nat
    decreases s.len(),
{
    if s.len() == 0 {
        0
    } else {
        s[0] as nat + 256 * le_value(s.drop_first())
    }
}

/// A 32-bit pattern read as a two's-complement signed number.
pub open spec fn signed32_of(v: nat) -> int {
    if v < 0x8000_0000 {
        v as int
    } else {
        v as int - 0x1_0000_0000
    }
}

/// The signed value of a zigzag pattern.
pub open spec fn zigzag_of(v: u64) -> int {
    if v % 2 == 0 {
        (v / 2) as int
    } else {
        -((v / 2) as int) - 1
    }
}

/// A key field's payload decoded per the key kind; `None` on a shape the kind never carries.
pub open spec fn decode_view(p: Seq<u8>, key: Option<MapKey>) -> Option<KeyView> {
    match key {
        Some(MapKey::Int32) | Some(MapKey::Int64) => match read_varint_view(p) {
            Some((v, _)) => Some(KeyView::Signed(signed_of(v))),
            None => None,
        },
        Some(MapKey::Sint32) | Some(MapKey::Sint64) => match read_varint_view(p) {
            Some((v, _)) => Some(KeyView::Signed(zigzag_of(v))),
            None => None,
        },
        Some(MapKey::Uint32) | Some(MapKey::Uint64) | Some(MapKey::Bool) => match read_varint_view(p) {
            Some((v, _)) => Some(KeyView::Unsigned(v as int)),
            None => None,
        },
        Some(MapKey::Fixed32) => if p.len() == 4 {
            Some(KeyView::Unsigned(le_value(p) as int))
        } else {
            None
        },
        Some(MapKey::Sfixed32) => if p.len() == 4 {
            Some(KeyView::Signed(signed32_of(le_value(p))))
        } else {
            None
        },
        Some(MapKey::Fixed64) => if p.len() == 8 {
            Some(KeyView::Unsigned(le_value(p) as int))
        } else {
            None
        },
        Some(MapKey::Sfixed64) => if p.len() == 8 {
            Some(KeyView::Signed(signed_of(le_value(p) as u64)))
        } else {
            None
        },
        Some(MapKey::String) => Some(KeyView::Text(p)),
        None => None,
    }
}

/// The key an entry that omits its key sorts by: the kind's zero value.
pub open spec fn default_view(key: Option<MapKey>) -> KeyView {
    match key {
        Some(MapKey::Int32) | Some(MapKey::Int64) | Some(MapKey::Sint32) | Some(MapKey::Sint64)
        | Some(MapKey::Sfixed32) | Some(MapKey::Sfixed64) => KeyView::Signed(0),
        Some(MapKey::String) => KeyView::Text(Seq::empty()),
        _ => KeyView::Unsigned(0),
    }
}

/// The first field of a run numbered `n`.
pub open spec fn first_numbered(fs: Seq<FieldView>, n: u32) -> Option<FieldView>
    decreases fs.len(),
{
    if fs.len() == 0 {
        None
    } else {
        match first_numbered(fs.drop_last(), n) {
            Some(f) => Some(f),
            None => if fs.last().0 == n {
                Some(fs.last())
            } else {
                None
            },
        }
    }
}

/// A map entry's sort key: its key field (number 1) decoded, or the kind's default when the key
/// is absent or does not decode.
pub open spec fn entry_key_view(fs: Seq<FieldView>, key: Option<MapKey>) -> KeyView {
    match first_numbered(fs, 1) {
        Some(f) => match decode_view(f.2, key) {
            Some(k) => k,
            None => default_view(key),
        },
        None => default_view(key),
    }
}

/// An entry placed into entries already in key order: after every entry whose key orders at or
/// before its own, so entries of equal keys keep their arrival order.
pub open spec fn place(s: Seq<(KeyView, Seq<u8>)>, e: (KeyView, Seq<u8>)) -> Seq<(KeyView, Seq<u8>)>
    decreases s.len(),
{
    if s.len() == 0 || key_le(s.last().0, e.0) {
        s.push(e)
    } else {
        place(s.drop_last(), e).push(s.last())
    }
}

/// Entries in key order, equal keys in arrival order: each placed in turn.
pub open spec fn stable_sort(s: Seq<(KeyView, Seq<u8>)>) -> Seq<(KeyView, Seq<u8>)>
    decreases s.len(),
{
    if s.len() == 0 {
        s
    } else {
        place(stable_sort(s.drop_last()), s.last())
    }
}

/// Whether entries are in key order.
pub open spec fn key_sorted(s: Seq<(KeyView, Seq<u8>)>) -> bool {
    forall|i: int, j: int| 0 <= i < j < s.len() ==> key_le(#[trigger] s[i].0, #[trigger] s[j].0)
}

/// The bytewise order is total and transitive.
proof fn lemma_bytes_lt(a: Seq<u8>, b: Seq<u8>, c: Seq<u8>)
    ensures
        a != b ==> bytes_lt(a, b) || bytes_lt(b, a),
        !bytes_lt(a, a),
        bytes_lt(a, b) && bytes_lt(b, c) ==> bytes_lt(a, c),
    decreases a.len(),
{
    if a.len() > 0 && b.len() > 0 && c.len() > 0 {
        lemma_bytes_lt(a.drop_first(), b.drop_first(), c.drop_first());
    } else if a.len() > 0 && b.len() > 0 {
        lemma_bytes_lt(a.drop_first(), b.drop_first(), b.drop_first());
    } else if a.len() > 0 {
        lemma_bytes_lt(a.drop_first(), a.drop_first(), a.drop_first());
    }
    if a.len() > 0 && b.len() > 0 && a[0] == b[0] && a.drop_first() == b.drop_first() {
        assert(a =~= seq![a[0]] + a.drop_first());
        assert(b =~= seq![b[0]] + b.drop_first());
    }
    if a.len() == 0 && b.len() == 0 {
        assert(a =~= b);
    }
}

/// The key order is a total preorder.
proof fn lemma_key_le(a: KeyView, b: KeyView, c: KeyView)
    ensures
        key_le(a, b) || key_le(b, a),
        key_le(a, b) && key_le(b, c) ==> key_le(a, c),
{
    if let (KeyView::Text(x), KeyView::Text(y)) = (a, b) {
        if let KeyView::Text(z) = c {
            lemma_bytes_lt(x, y, z);
        } else {
            lemma_bytes_lt(x, y, y);
        }
    }
}

/// Placing an entry into sorted entries keeps them sorted, and keeps every entry.
proof fn lemma_place(s: Seq<(KeyView, Seq<u8>)>, e: (KeyView, Seq<u8>))
    requires
        key_sorted(s),
    ensures
        key_sorted(place(s, e)),
        place(s, e).to_multiset() == s.to_multiset().insert(e),
        place(s, e).len() == s.len() + 1,
    decreases s.len(),
{
    broadcast use {vstd::seq_lib::group_to_multiset_ensures, vstd::multiset::group_multiset_axioms};

    if s.len() == 0 || key_le(s.last().0, e.0) {
        assert forall|i: int, j: int| 0 <= i < j < s.push(e).len() implies key_le(
            #[trigger] s.push(e)[i].0,
            #[trigger] s.push(e)[j].0,
        ) by {
            if j == s.len() {
                lemma_key_le(s[i].0, s.last().0, e.0);
            }
        }
    } else {
        let t = s.drop_last();
        let l = s.last();
        assert(s =~= t.push(l));
        assert(key_sorted(t));
        lemma_place(t, e);
        let p = place(t, e);
        lemma_key_le(l.0, e.0, e.0);
        assert forall|i: int, j: int| 0 <= i < j < p.push(l).len() implies key_le(
            #[trigger] p.push(l)[i].0,
            #[trigger] p.push(l)[j].0,
        ) by {
            if j == p.len() {
                // Every entry of `p` is `e` or an entry of `t`, each at or before `l`.
                let x = p[i];
                assert(p.contains(x));
                assert(p.to_multiset().count(x) > 0);
                if x != e {
                    assert(t.to_multiset().count(x) > 0);
                    assert(t.contains(x));
                    let k = choose|k: int| 0 <= k < t.len() && t[k] == x;
                    assert(s[k] == x);
                    assert(key_le(s[k].0, s[s.len() - 1].0));
                }
            }
        }
        assert(p.push(l).to_multiset() =~= s.to_multiset().insert(e));
    }
}

/// Stably sorted entries are in key order and hold every entry.
pub proof fn lemma_stable_sort(s: Seq<(KeyView, Seq<u8>)>)
    ensures
        key_sorted(stable_sort(s)),
        stable_sort(s).to_multiset() == s.to_multiset(),
        stable_sort(s).len() == s.len(),
    decreases s.len(),
{
    broadcast use {vstd::seq_lib::group_to_multiset_ensures, vstd::multiset::group_multiset_axioms};

    if s.len() > 0 {
        lemma_stable_sort(s.drop_last());
        lemma_place(stable_sort(s.drop_last()), s.last());
        assert(s.drop_last().push(s.last()) =~= s);
    }
}

/// Whether no two entries share a key.
pub open spec fn distinct_keys(s: Seq<(KeyView, Seq<u8>)>) -> bool {
    forall|i: int, j: int| 0 <= i < j < s.len() ==> #[trigger] s[i].0 != #[trigger] s[j].0
}

/// Keys each at or before the other are one key.
proof fn lemma_key_antisymmetric(a: KeyView, b: KeyView)
    ensures
        key_le(a, b) && key_le(b, a) ==> a == b,
{
    if let (KeyView::Text(x), KeyView::Text(y)) = (a, b) {
        lemma_bytes_lt(x, y, x);
    }
}

/// The same entries in another arrival order still share no key.
proof fn lemma_distinct_keys_permuted(s: Seq<(KeyView, Seq<u8>)>, t: Seq<(KeyView, Seq<u8>)>)
    requires
        s.to_multiset() == t.to_multiset(),
        distinct_keys(s),
    ensures
        distinct_keys(t),
    decreases t.len(),
{
    broadcast use {vstd::seq_lib::group_to_multiset_ensures, vstd::multiset::group_multiset_axioms};

    if t.len() > 0 {
        let y = t.last();
        let u = t.drop_last();
        assert(t =~= u.push(y));
        assert(t[t.len() - 1] == y);
        assert(t.contains(y));
        assert(t.to_multiset().count(y) > 0);
        assert(s.to_multiset().count(y) > 0);
        assert(s.contains(y));
        let m = choose|m: int| 0 <= m < s.len() && s[m] == y;
        let r = s.remove(m);
        s.remove_ensures(m);
        assert(r.to_multiset() == s.to_multiset().remove(y));
        assert(u.to_multiset() =~= t.to_multiset().remove(y));
        assert forall|i: int, j: int| 0 <= i < j < r.len() implies #[trigger] r[i].0 != #[trigger] r[j].0 by {
            let a = if i < m { i } else { i + 1 };
            let b = if j < m { j } else { j + 1 };
            assert(r[i] == s[a] && r[j] == s[b] && a < b);
        }
        lemma_distinct_keys_permuted(r, u);
        assert forall|i: int, j: int| 0 <= i < j < t.len() implies #[trigger] t[i].0 != #[trigger] t[j].0 by {
            if j == t.len() - 1 {
                assert(u[i] == t[i]);
                assert(u.contains(t[i]));
                assert(u.to_multiset().count(t[i]) > 0);
                assert(r.to_multiset().count(t[i]) > 0);
                assert(r.contains(t[i]));
                let p = choose|p: int| 0 <= p < r.len() && r[p] == t[i];
                let a = if p < m { p } else { p + 1 };
                assert(s[a] == t[i] && a != m);
                if a < m {
                    assert(s[a].0 != s[m].0);
                } else {
                    assert(s[m].0 != s[a].0);
                }
            } else {
                assert(u[i] == t[i] && u[j] == t[j]);
            }
        }
    }
}

/// Two key-ordered runs of the same entries, no two sharing a key, are one run.
proof fn lemma_sorted_unique(a: Seq<(KeyView, Seq<u8>)>, b: Seq<(KeyView, Seq<u8>)>)
    requires
        key_sorted(a),
        key_sorted(b),
        a.to_multiset() == b.to_multiset(),
        distinct_keys(a),
    ensures
        a == b,
    decreases a.len(),
{
    broadcast use {vstd::seq_lib::group_to_multiset_ensures, vstd::multiset::group_multiset_axioms};

    assert(a.len() == a.to_multiset().len());
    assert(b.len() == b.to_multiset().len());
    if a.len() == 0 {
        assert(b.len() == 0);
        assert(a =~= b);
    } else {
        assert(b.len() == a.len());
        let x = a.last();
        let y = b.last();
        assert(a[a.len() - 1] == x && a.contains(x));
        assert(a.to_multiset().count(x) > 0);
        assert(b.to_multiset().count(x) > 0);
        assert(b.contains(x));
        let k = choose|k: int| 0 <= k < b.len() && b[k] == x;
        if k < b.len() - 1 {
            assert(key_le(b[k].0, b[b.len() - 1].0));
        }
        assert(b[b.len() - 1] == y && b.contains(y));
        assert(b.to_multiset().count(y) > 0);
        assert(a.to_multiset().count(y) > 0);
        assert(a.contains(y));
        let m = choose|m: int| 0 <= m < a.len() && a[m] == y;
        if m < a.len() - 1 {
            assert(key_le(a[m].0, a[a.len() - 1].0));
        }
        lemma_key_le(x.0, y.0, y.0);
        lemma_key_antisymmetric(x.0, y.0);
        assert(x.0 == y.0);
        if m < a.len() - 1 {
            assert(a[m].0 != a[a.len() - 1].0);
        }
        assert(x == y);
        let a1 = a.drop_last();
        let b1 = b.drop_last();
        assert(a =~= a1.push(x));
        assert(b =~= b1.push(x));
        assert(a1.to_multiset() =~= a.to_multiset().remove(x));
        assert(b1.to_multiset() =~= b.to_multiset().remove(x));
        assert(key_sorted(a1)) by {
            assert forall|i: int, j: int| 0 <= i < j < a1.len() implies key_le(#[trigger] a1[i].0, #[trigger] a1[j].0) by {
                assert(a1[i] == a[i] && a1[j] == a[j]);
            }
        }
        assert(key_sorted(b1)) by {
            assert forall|i: int, j: int| 0 <= i < j < b1.len() implies key_le(#[trigger] b1[i].0, #[trigger] b1[j].0) by {
                assert(b1[i] == b[i] && b1[j] == b[j]);
            }
        }
        assert(distinct_keys(a1)) by {
            assert forall|i: int, j: int| 0 <= i < j < a1.len() implies #[trigger] a1[i].0 != #[trigger] a1[j].0 by {
                assert(a1[i] == a[i] && a1[j] == a[j]);
            }
        }
        lemma_sorted_unique(a1, b1);
    }
}

/// A map's entries come out of the canonical order the same whatever order they arrived in, when
/// no two share a key: the same entries, no two under one key, always re-emit as the same bytes.
pub proof fn lemma_canonical_order_independent(a: Seq<(KeyView, Seq<u8>)>, b: Seq<(KeyView, Seq<u8>)>)
    requires
        a.to_multiset() == b.to_multiset(),
        distinct_keys(a),
    ensures
        stable_sort(a) == stable_sort(b),
{
    lemma_stable_sort(a);
    lemma_stable_sort(b);
    lemma_distinct_keys_permuted(a, stable_sort(a));
    lemma_sorted_unique(stable_sort(a), stable_sort(b));
}

// ---------------------------------------------------------------------------------------------
// The canonical order of a message's wire fields, as mathematics.
// ---------------------------------------------------------------------------------------------

/// The result of a re-emit, or the bytes themselves when it declined.
pub open spec fn or_same(o: Option<Seq<u8>>, b: Seq<u8>) -> Seq<u8> {
    match o {
        Some(x) => x,
        None => b,
    }
}

/// Whether every field of a run has a payload shorter than `bound` and a wire type below eight.
pub open spec fn fits(fs: Seq<FieldView>, bound: nat) -> bool {
    forall|i: int| 0 <= i < fs.len() ==> (#[trigger] fs[i]).2.len() < bound && fs[i].1 < 8
}

/// The least field number of a non-empty run.
pub open spec fn min_number(fs: Seq<FieldView>) -> u32
    decreases fs.len(),
{
    if fs.len() <= 1 {
        fs[0].0
    } else {
        let m = min_number(fs.drop_last());
        if fs.last().0 < m {
            fs.last().0
        } else {
            m
        }
    }
}

/// The fields of a run numbered `n`, in order.
pub open spec fn numbered(fs: Seq<FieldView>, n: u32) -> Seq<FieldView>
    decreases fs.len(),
{
    if fs.len() == 0 {
        fs
    } else {
        numbered(fs.drop_last(), n) + if fs.last().0 == n {
            seq![fs.last()]
        } else {
            Seq::empty()
        }
    }
}

/// The fields of a run not numbered `n`, in order.
pub open spec fn unnumbered(fs: Seq<FieldView>, n: u32) -> Seq<FieldView>
    decreases fs.len(),
{
    if fs.len() == 0 {
        fs
    } else {
        unnumbered(fs.drop_last(), n) + if fs.last().0 != n {
            seq![fs.last()]
        } else {
            Seq::empty()
        }
    }
}

/// A run of fields re-emitted verbatim.
pub open spec fn verbatim(rs: Seq<FieldView>) -> Seq<u8>
    decreases rs.len(),
{
    if rs.len() == 0 {
        Seq::empty()
    } else {
        verbatim(rs.drop_last()) + field_bytes(rs.last().0, rs.last().1, rs.last().2)
    }
}

/// Payloads written as length-delimited fields numbered `n`, in order.
pub open spec fn len_fields(n: u32, es: Seq<(KeyView, Seq<u8>)>) -> Seq<u8>
    decreases es.len(),
{
    if es.len() == 0 {
        Seq::empty()
    } else {
        len_fields(n, es.drop_last()) + field_bytes(n, WIRE_LEN, es.last().1)
    }
}

/// One message of layout `m`, re-emitted with every map field's entries in key order,
/// recursively; `None` on a wire shape a serializer never emits (a group, a truncated run, a
/// map entry that is not a length-delimited run of fields).
pub open spec fn canon_message(ls: Seq<MessageLayout>, m: int, b: Seq<u8>) -> Option<Seq<u8>>
    decreases b.len(), 6nat, 0nat,
{
    match parse_view(b) {
        None => None,
        Some(fs) => canon_groups(ls, m, fs, b.len()),
    }
}

/// The fields of a message grouped by number, ascending, each group in its arrival order.
pub open spec fn canon_groups(ls: Seq<MessageLayout>, m: int, fs: Seq<FieldView>, bound: nat) -> Option<Seq<u8>>
    decreases bound, 5nat, fs.len(),
{
    if fs.len() == 0 {
        Some(Seq::empty())
    } else {
        let n = min_number(fs);
        let rest = unnumbered(fs, n);
        if rest.len() < fs.len() {
            match canon_group(ls, m, n, numbered(fs, n), bound) {
                None => None,
                Some(g) => match canon_groups(ls, m, rest, bound) {
                    None => None,
                    Some(t) => Some(g + t),
                },
            }
        } else {
            None
        }
    }
}

/// The fields numbered `n` of a message of layout `m`: a map's entries in key order, a message
/// field's payloads re-emitted recursively, anything else verbatim.
pub open spec fn canon_group(ls: Seq<MessageLayout>, m: int, n: u32, rs: Seq<FieldView>, bound: nat) -> Option<Seq<u8>>
    decreases bound, 4nat, 0nat,
{
    let l = if 0 <= m < ls.len() {
        by_number(ls[m].fields@, n)
    } else {
        None
    };
    match l {
        Some(FieldLayout::Mapped { key, value }) => canon_map(ls, n, key, value, rs, bound),
        Some(FieldLayout::Message(c)) => Some(canon_nested(ls, c as int, n, rs, bound)),
        _ => Some(verbatim(rs)),
    }
}

/// The occurrences of a message field: each length-delimited one re-emitted as a message of
/// layout `c`, any other verbatim.
pub open spec fn canon_nested(ls: Seq<MessageLayout>, c: int, n: u32, rs: Seq<FieldView>, bound: nat) -> Seq<u8>
    decreases bound, 3nat, rs.len(),
{
    if rs.len() == 0 {
        Seq::empty()
    } else {
        let r = rs.last();
        canon_nested(ls, c, n, rs.drop_last(), bound) + if r.1 == WIRE_LEN && r.2.len() < bound {
            field_bytes(n, WIRE_LEN, or_same(canon_message(ls, c, r.2), r.2))
        } else {
            field_bytes(r.0, r.1, r.2)
        }
    }
}

/// A map field's entries, in key order.
pub open spec fn canon_map(
    ls: Seq<MessageLayout>,
    n: u32,
    key: Option<MapKey>,
    value: Option<usize>,
    rs: Seq<FieldView>,
    bound: nat,
) -> Option<Seq<u8>>
    decreases bound, 2nat, 0nat,
{
    match map_entries(ls, key, value, rs, bound) {
        None => None,
        Some(es) => Some(len_fields(n, stable_sort(es))),
    }
}

/// A map field's entries in arrival order, each with its sort key and its re-emitted bytes;
/// `None` when one is not a length-delimited run of fields.
pub open spec fn map_entries(
    ls: Seq<MessageLayout>,
    key: Option<MapKey>,
    value: Option<usize>,
    rs: Seq<FieldView>,
    bound: nat,
) -> Option<Seq<(KeyView, Seq<u8>)>>
    decreases bound, 1nat, rs.len(),
{
    if rs.len() == 0 {
        Some(Seq::empty())
    } else {
        match map_entries(ls, key, value, rs.drop_last(), bound) {
            None => None,
            Some(es) => {
                let r = rs.last();
                if r.1 != WIRE_LEN || r.2.len() >= bound {
                    None
                } else {
                    match parse_view(r.2) {
                        None => None,
                        Some(efs) => Some(
                            es.push(
                                (entry_key_view(efs, key), entry_groups(ls, value, efs, r.2.len())),
                            ),
                        ),
                    }
                }
            },
        }
    }
}

/// A map entry's fields grouped by number, ascending, a message value re-emitted recursively.
pub open spec fn entry_groups(ls: Seq<MessageLayout>, value: Option<usize>, fs: Seq<FieldView>, bound: nat) -> Seq<u8>
    decreases bound, 5nat, fs.len(),
{
    if fs.len() == 0 {
        Seq::empty()
    } else {
        let n = min_number(fs);
        let rest = unnumbered(fs, n);
        if rest.len() < fs.len() {
            entry_group(ls, value, n, numbered(fs, n), bound) + entry_groups(ls, value, rest, bound)
        } else {
            Seq::empty()
        }
    }
}

/// A map entry's fields numbered `n`: a length-delimited value (number 2) of a message-valued
/// map re-emitted as that message, anything else verbatim.
pub open spec fn entry_group(ls: Seq<MessageLayout>, value: Option<usize>, n: u32, rs: Seq<FieldView>, bound: nat) -> Seq<u8>
    decreases bound, 3nat, rs.len(),
{
    if rs.len() == 0 {
        Seq::empty()
    } else {
        let r = rs.last();
        entry_group(ls, value, n, rs.drop_last(), bound) + if n == 2 && r.1 == WIRE_LEN && value is Some
            && r.2.len() < bound {
            field_bytes(n, WIRE_LEN, or_same(canon_message(ls, value.unwrap() as int, r.2), r.2))
        } else {
            field_bytes(r.0, r.1, r.2)
        }
    }
}

/// Every field a run parses into has a payload shorter than the run, and a wire type below
/// eight.
pub proof fn lemma_parse_fits(s: Seq<u8>)
    ensures
        parse_view(s) matches Some(fs) ==> fits(fs, s.len()),
    decreases s.len(),
{
    if s.len() > 0 {
        if let Some((key, key_len)) = read_varint_view(s) {
            lemma_read_varint_len(s);
            let rest = s.skip(key_len as int);
            if let Some((payload, next)) = payload_view(rest, (key % 8) as nat) {
                if next.len() < s.len() && key / 8 <= u32::MAX {
                    lemma_parse_fits(next);
                    if let Some(more) = parse_view(next) {
                        let fs = parse_view(s).unwrap();
                        assert(fs == seq![((key / 8) as u32, (key % 8) as u8, payload)] + more);
                        assert(payload.len() <= rest.len());
                        assert forall|i: int| 0 <= i < fs.len() implies (#[trigger] fs[i]).2.len() < s.len()
                            && fs[i].1 < 8 by {
                            if i > 0 {
                                assert(fs[i] == more[i - 1]);
                            }
                        }
                    }
                }
            }
        }
    }
}

/// Splitting a run by number keeps every field on one side, each side fitting as the run does.
proof fn lemma_split(fs: Seq<FieldView>, n: u32, bound: nat)
    ensures
        numbered(fs, n).len() + unnumbered(fs, n).len() == fs.len(),
        fits(fs, bound) ==> fits(numbered(fs, n), bound) && fits(unnumbered(fs, n), bound),
    decreases fs.len(),
{
    if fs.len() > 0 {
        lemma_split(fs.drop_last(), n, bound);
        if fits(fs, bound) {
            assert(fits(fs.drop_last(), bound)) by {
                assert forall|i: int| 0 <= i < fs.drop_last().len() implies (#[trigger] fs.drop_last()[i]).2.len()
                    < bound && fs.drop_last()[i].1 < 8 by {
                    assert(fs.drop_last()[i] == fs[i]);
                }
            }
            let a = numbered(fs.drop_last(), n);
            let b = unnumbered(fs.drop_last(), n);
            let x = fs.last();
            assert(x == fs[fs.len() - 1]);
            assert forall|i: int| 0 <= i < numbered(fs, n).len() implies (#[trigger] numbered(fs, n)[i]).2.len()
                < bound && numbered(fs, n)[i].1 < 8 by {
                if i < a.len() {
                    assert(numbered(fs, n)[i] == a[i]);
                } else {
                    assert(numbered(fs, n)[i] == x);
                }
            }
            assert forall|i: int| 0 <= i < unnumbered(fs, n).len() implies (#[trigger] unnumbered(fs, n)[i]).2.len()
                < bound && unnumbered(fs, n)[i].1 < 8 by {
                if i < b.len() {
                    assert(unnumbered(fs, n)[i] == b[i]);
                } else {
                    assert(unnumbered(fs, n)[i] == x);
                }
            }
        }
    }
}

/// The least number of a non-empty run occurs in it.
proof fn lemma_min_occurs(fs: Seq<FieldView>)
    requires
        fs.len() > 0,
    ensures
        numbered(fs, min_number(fs)).len() > 0,
        unnumbered(fs, min_number(fs)).len() < fs.len(),
    decreases fs.len(),
{
    let m = min_number(fs);
    lemma_split(fs, m, 0);
    if fs.len() == 1 {
        assert(fs.drop_last().len() == 0);
        assert(numbered(fs, m) =~= seq![fs.last()]);
    } else if fs.last().0 == m {
    } else {
        lemma_min_occurs(fs.drop_last());
        assert(m == min_number(fs.drop_last()));
    }
}

/// Parsed fields as plain values.
pub open spec fn views(fs: Seq<WireField>) -> Seq<FieldView> {
    fs.map_values(|f: WireField| field_view(f))
}

/// A run's least number, and its fields of that number and of every other, each in order.
fn split_least<'a>(fs: &Vec<WireField<'a>>) -> (r: (u32, Vec<WireField<'a>>, Vec<WireField<'a>>))
    requires
        fs@.len() > 0,
    ensures
        r.0 == min_number(views(fs@)),
        views(r.1@) == numbered(views(fs@), r.0),
        views(r.2@) == unnumbered(views(fs@), r.0),
        r.2@.len() < fs@.len(),
{
    let ghost v = views(fs@);
    let mut least = fs[0].number;
    let mut i: usize = 1;
    proof {
        assert(v.take(1).drop_last().len() == 0);
    }
    while i < fs.len()
        invariant
            1 <= i <= fs@.len(),
            v == views(fs@),
            least == min_number(v.take(i as int)),
        decreases fs@.len() - i,
    {
        proof {
            assert(v.take(i + 1).drop_last() =~= v.take(i as int));
        }
        if fs[i].number < least {
            least = fs[i].number;
        }
        i = i + 1;
    }
    proof {
        assert(v.take(fs@.len() as int) =~= v);
    }
    let mut with: Vec<WireField<'a>> = Vec::new();
    let mut without: Vec<WireField<'a>> = Vec::new();
    let mut j: usize = 0;
    proof {
        assert(v.take(0) =~= Seq::<FieldView>::empty());
        assert(views(with@) =~= Seq::<FieldView>::empty());
        assert(views(without@) =~= Seq::<FieldView>::empty());
    }
    while j < fs.len()
        invariant
            j <= fs@.len(),
            v == views(fs@),
            views(with@) == numbered(v.take(j as int), least),
            views(without@) == unnumbered(v.take(j as int), least),
        decreases fs@.len() - j,
    {
        proof {
            assert(v.take(j + 1).drop_last() =~= v.take(j as int));
        }
        let f = fs[j];
        let ghost (w0, u0) = (with@, without@);
        if f.number == least {
            with.push(f);
            proof {
                assert(views(with@) =~= views(w0).push(field_view(f)));
            }
        } else {
            without.push(f);
            proof {
                assert(views(without@) =~= views(u0).push(field_view(f)));
            }
        }
        proof {
            assert(v[j as int] == field_view(f));
        }
        j = j + 1;
    }
    proof {
        lemma_min_occurs(v);
    }
    (least, with, without)
}

/// `256` to the power `j`.
pub open spec fn p256(j: nat) -> nat
    decreases j,
{
    if j == 0 {
        1
    } else {
        256 * p256((j - 1) as nat)
    }
}

/// The powers of 256 a fixed run of at most eight bytes spans.
proof fn lemma_p256_small(k: nat)
    requires
        k <= 8,
    ensures
        p256(k) <= 0x1_0000_0000_0000_0000,
        k < 8 ==> 256 * p256(k) <= 0x1_0000_0000_0000_0000,
{
    assert(p256(0) == 1);
    assert(p256(1) == 0x100);
    assert(p256(2) == 0x1_0000);
    assert(p256(3) == 0x100_0000);
    assert(p256(4) == 0x1_0000_0000);
    assert(p256(5) == 0x100_0000_0000);
    assert(p256(6) == 0x1_0000_0000_0000);
    assert(p256(7) == 0x100_0000_0000_0000);
    assert(p256(8) == 0x1_0000_0000_0000_0000);
}

/// The value of a run of at most eight bytes read little-endian.
fn le_fixed(p: &[u8]) -> (r: u64)
    requires
        p@.len() <= 8,
    ensures
        r == le_value(p@),
{
    let n = p.len();
    let mut i: usize = n;
    let mut v: u64 = 0;
    proof {
        assert(p@.skip(n as int) =~= Seq::<u8>::empty());
    }
    while i > 0
        invariant
            i <= n,
            n == p@.len(),
            n <= 8,
            v == le_value(p@.skip(i as int)),
            v < p256((n - i) as nat),
        decreases i,
    {
        proof {
            lemma_p256_small((n - i) as nat);
            assert(p@.skip(i - 1).drop_first() =~= p@.skip(i as int));
        }
        v = v * 256 + p[i - 1] as u64;
        i = i - 1;
    }
    proof {
        assert(p@.skip(0) =~= p@);
    }
    v
}

/// The copy of a run of bytes.
fn copy_bytes(b: &[u8]) -> (r: Vec<u8>)
    ensures
        r@ == b@,
{
    let mut r: Vec<u8> = Vec::new();
    push_bytes(&mut r, b);
    proof {
        assert(Seq::<u8>::empty() + b@ =~= b@);
    }
    r
}

/// A key's view, when there is one.
pub open spec fn key_opt_view(k: Option<SortKey>) -> Option<KeyView> {
    match k {
        Some(x) => Some(x@),
        None => None,
    }
}

/// Decode a map entry's key field to a comparable value per its declared kind; `None` on a
/// wire shape the kind never carries.
fn decode_key(payload: &[u8], key: Option<MapKey>) -> (r: Option<SortKey>)
    ensures
        key_opt_view(r) == decode_view(payload@, key),
{
    match key {
        Some(MapKey::Int32) | Some(MapKey::Int64) => match read_varint(payload) {
            Some((v, _)) => Some(SortKey::Signed(reinterpret(v))),
            None => None,
        },
        Some(MapKey::Sint32) | Some(MapKey::Sint64) => match read_varint(payload) {
            Some((v, _)) => Some(SortKey::Signed(unzigzag(v))),
            None => None,
        },
        Some(MapKey::Uint32) | Some(MapKey::Uint64) | Some(MapKey::Bool) => match read_varint(payload) {
            Some((v, _)) => Some(SortKey::Unsigned(v)),
            None => None,
        },
        Some(MapKey::Fixed32) => if payload.len() == 4 {
            Some(SortKey::Unsigned(le_fixed(payload)))
        } else {
            None
        },
        Some(MapKey::Sfixed32) => if payload.len() == 4 {
            let v = le_fixed(payload);
            proof {
                lemma_le_bound(payload@);
                lemma_p256_small(4);
            }
            let signed: i64 = if v < 0x8000_0000 {
                v as i64
            } else {
                v as i64 - 0x1_0000_0000
            };
            Some(SortKey::Signed(signed))
        } else {
            None
        },
        Some(MapKey::Fixed64) => if payload.len() == 8 {
            Some(SortKey::Unsigned(le_fixed(payload)))
        } else {
            None
        },
        Some(MapKey::Sfixed64) => if payload.len() == 8 {
            Some(SortKey::Signed(reinterpret(le_fixed(payload))))
        } else {
            None
        },
        Some(MapKey::String) => Some(SortKey::Text(copy_bytes(payload))),
        None => None,
    }
}

/// Little-endian bytes stay below the power of 256 their count spans.
proof fn lemma_le_bound(s: Seq<u8>)
    ensures
        le_value(s) < p256(s.len()),
    decreases s.len(),
{
    if s.len() > 0 {
        lemma_le_bound(s.drop_first());
    }
}

/// The default sort key for a key kind — the kind's zero value, for an entry that omits its key.
fn default_key(key: Option<MapKey>) -> (r: SortKey)
    ensures
        r@ == default_view(key),
{
    match key {
        Some(MapKey::Int32) | Some(MapKey::Int64) | Some(MapKey::Sint32) | Some(MapKey::Sint64)
        | Some(MapKey::Sfixed32) | Some(MapKey::Sfixed64) => SortKey::Signed(0),
        Some(MapKey::String) => SortKey::Text(Vec::new()),
        _ => SortKey::Unsigned(0),
    }
}

/// The sort key of a map entry — its key field decoded per the key kind, or that kind's default
/// when the key field is absent (a default key may be omitted on the wire).
fn entry_sort_key(fields: &Vec<WireField>, key: Option<MapKey>) -> (r: SortKey)
    ensures
        r@ == entry_key_view(views(fields@), key),
{
    let ghost v = views(fields@);
    let mut i: usize = 0;
    while i < fields.len()
        invariant
            i <= fields@.len(),
            v == views(fields@),
            first_numbered(v.take(i as int), 1) is None,
        decreases fields@.len() - i,
    {
        proof {
            assert(v.take(i + 1).drop_last() =~= v.take(i as int));
        }
        if fields[i].number == 1 {
            proof {
                lemma_first_numbered_prefix(v, i + 1, 1);
            }
            return match decode_key(fields[i].payload, key) {
                Some(k) => k,
                None => default_key(key),
            };
        }
        i = i + 1;
    }
    proof {
        assert(v.take(fields@.len() as int) =~= v);
    }
    default_key(key)
}

/// A prefix that finds a field finds what the whole run finds.
proof fn lemma_first_numbered_prefix(fs: Seq<FieldView>, k: int, n: u32)
    requires
        0 <= k <= fs.len(),
        first_numbered(fs.take(k), n) is Some,
    ensures
        first_numbered(fs, n) == first_numbered(fs.take(k), n),
    decreases fs.len() - k,
{
    if k < fs.len() {
        assert(fs.take(k + 1).drop_last() =~= fs.take(k));
        lemma_first_numbered_prefix(fs, k + 1, n);
    } else {
        assert(fs.take(k) =~= fs);
    }
}

/// Whether `a` orders strictly before `b` bytewise (see [`bytes_lt`]).
fn bytes_less(a: &[u8], b: &[u8]) -> (r: bool)
    ensures
        r == bytes_lt(a@, b@),
{
    let mut i: usize = 0;
    proof {
        assert(a@.skip(0) =~= a@);
        assert(b@.skip(0) =~= b@);
    }
    while i < a.len() && i < b.len()
        invariant
            i <= a@.len(),
            i <= b@.len(),
            bytes_lt(a@, b@) == bytes_lt(a@.skip(i as int), b@.skip(i as int)),
        decreases a.len() - i,
    {
        if a[i] != b[i] {
            return a[i] < b[i];
        }
        proof {
            assert(a@.skip(i as int).drop_first() =~= a@.skip(i + 1));
            assert(b@.skip(i as int).drop_first() =~= b@.skip(i + 1));
        }
        i = i + 1;
    }
    i < b.len()
}

/// Whether key `a` orders at or before key `b` (see [`key_le`]).
fn key_at_or_before(a: &SortKey, b: &SortKey) -> (r: bool)
    ensures
        r == key_le(a@, b@),
{
    match (a, b) {
        (SortKey::Signed(x), SortKey::Signed(y)) => *x <= *y,
        (SortKey::Unsigned(x), SortKey::Unsigned(y)) => *x <= *y,
        (SortKey::Text(x), SortKey::Text(y)) => {
            proof {
                lemma_bytes_lt(x@, y@, x@);
                lemma_bytes_lt(y@, x@, y@);
            }
            !bytes_less(y.as_slice(), x.as_slice())
        },
        (SortKey::Signed(_), _) => true,
        (SortKey::Unsigned(_), SortKey::Text(_)) => true,
        _ => false,
    }
}

/// An entry as plain values.
pub open spec fn entry_view(e: (SortKey, Vec<u8>)) -> (KeyView, Seq<u8>) {
    (e.0@, e.1@)
}

/// Entries as plain values.
pub open spec fn entry_views(es: Seq<(SortKey, Vec<u8>)>) -> Seq<(KeyView, Seq<u8>)> {
    es.map_values(|e: (SortKey, Vec<u8>)| entry_view(e))
}

/// Placing an entry before a run of entries that all order after it, behind one at or before
/// it, is inserting it there.
proof fn lemma_place_at(s: Seq<(KeyView, Seq<u8>)>, e: (KeyView, Seq<u8>), j: int)
    requires
        0 <= j <= s.len(),
        forall|k: int| j <= k < s.len() ==> !key_le(#[trigger] s[k].0, e.0),
        j == 0 || key_le(s[j - 1].0, e.0),
    ensures
        place(s, e) == s.insert(j, e),
    decreases s.len(),
{
    if j == s.len() {
        assert(s.insert(j, e) =~= s.push(e));
    } else {
        let t = s.drop_last();
        assert(!key_le(s[s.len() - 1].0, e.0));
        lemma_place_at(t, e, j);
        assert(t.insert(j, e).push(s.last()) =~= s.insert(j, e));
    }
}

/// Place an entry into entries already in key order (see [`place`]).
fn place_entry(entries: &mut Vec<(SortKey, Vec<u8>)>, e: (SortKey, Vec<u8>))
    ensures
        entry_views(final(entries)@) == place(entry_views(old(entries)@), entry_view(e)),
{
    let ghost s = entry_views(entries@);
    let mut j: usize = entries.len();
    while j > 0 && !key_at_or_before(&entries[j - 1].0, &e.0)
        invariant
            j <= entries@.len(),
            s == entry_views(entries@),
            entries@ == old(entries)@,
            forall|k: int| j <= k < s.len() ==> !key_le(#[trigger] s[k].0, e.0.view()),
        decreases j,
    {
        j = j - 1;
    }
    proof {
        lemma_place_at(s, entry_view(e), j as int);
    }
    entries.insert(j, e);
    proof {
        assert(entry_views(entries@) =~= s.insert(j as int, entry_view(e)));
    }
}

// ---------------------------------------------------------------------------------------------
// The canonical order of a message's wire fields.
// ---------------------------------------------------------------------------------------------

/// Bytes, when there are some.
pub open spec fn opt_bytes(o: Option<Vec<u8>>) -> Option<Seq<u8>> {
    match o {
        Some(v) => Some(v@),
        None => None,
    }
}

/// Once a prefix of a map's records holds one that is no entry, the whole does.
proof fn lemma_map_entries_none(
    ls: Seq<MessageLayout>,
    key: Option<MapKey>,
    value: Option<usize>,
    rs: Seq<FieldView>,
    k: int,
    bound: nat,
)
    requires
        0 <= k <= rs.len(),
        map_entries(ls, key, value, rs.take(k), bound) is None,
    ensures
        map_entries(ls, key, value, rs, bound) is None,
    decreases rs.len() - k,
{
    if k < rs.len() {
        assert(rs.take(k + 1).drop_last() =~= rs.take(k));
        lemma_map_entries_none(ls, key, value, rs, k + 1, bound);
    } else {
        assert(rs.take(k) =~= rs);
    }
}

/// Re-emit a run of fields verbatim.
fn emit_verbatim(out: &mut Vec<u8>, records: &Vec<WireField>)
    requires
        forall|i: int| 0 <= i < records@.len() ==> (#[trigger] records@[i]).wire < 8,
    ensures
        final(out)@ == old(out)@ + verbatim(views(records@)),
{
    let ghost start = out@;
    let ghost v = views(records@);
    let mut i: usize = 0;
    proof {
        assert(v.take(0) =~= Seq::<FieldView>::empty());
        assert(start + verbatim(v.take(0)) =~= start);
    }
    while i < records.len()
        invariant
            i <= records@.len(),
            v == views(records@),
            forall|i: int| 0 <= i < records@.len() ==> (#[trigger] records@[i]).wire < 8,
            out@ == start + verbatim(v.take(i as int)),
        decreases records@.len() - i,
    {
        write_field(out, &records[i]);
        proof {
            assert(v.take(i + 1).drop_last() =~= v.take(i as int));
            assert(v[i as int] == field_view(records@[i as int]));
            assert(out@ =~= start + verbatim(v.take(i + 1)));
        }
        i = i + 1;
    }
    proof {
        assert(v.take(records@.len() as int) =~= v);
    }
}

/// Re-emit a message field's occurrences, each length-delimited one as a message of layout
/// `child` with its maps ordered.
fn emit_nested(
    out: &mut Vec<u8>,
    number: u32,
    records: &Vec<WireField>,
    child: usize,
    layouts: &[MessageLayout],
    Ghost(bound): Ghost<nat>,
)
    requires
        arena_closed(layouts@),
        child < layouts@.len(),
        fits(views(records@), bound),
    ensures
        final(out)@ == old(out)@ + canon_nested(layouts@, child as int, number, views(records@), bound),
    decreases bound, 3nat,
{
    let ghost start = out@;
    let ghost v = views(records@);
    let mut i: usize = 0;
    proof {
        assert(v.take(0) =~= Seq::<FieldView>::empty());
        assert(start + canon_nested(layouts@, child as int, number, v.take(0), bound) =~= start);
    }
    while i < records.len()
        invariant
            i <= records@.len(),
            v == views(records@),
            arena_closed(layouts@),
            child < layouts@.len(),
            fits(v, bound),
            out@ == start + canon_nested(layouts@, child as int, number, v.take(i as int), bound),
        decreases records@.len() - i,
    {
        let record = records[i];
        proof {
            assert(v[i as int] == field_view(record));
            assert(v.take(i + 1).drop_last() =~= v.take(i as int));
            assert(v.take(i + 1).last() == v[i as int]);
        }
        if record.wire == WIRE_LEN {
            let inner = canonicalize_map_order(record.payload, layouts, child);
            write_len_field(out, number, inner.as_slice());
        } else {
            write_field(out, &record);
        }
        proof {
            assert(out@ =~= start + canon_nested(layouts@, child as int, number, v.take(i + 1), bound));
        }
        i = i + 1;
    }
    proof {
        assert(v.take(records@.len() as int) =~= v);
    }
}

/// Re-emit a map entry's fields in number order, a message value re-emitted with its maps
/// ordered.
fn rebuild_entry(
    fields: Vec<WireField>,
    value: Option<usize>,
    layouts: &[MessageLayout],
    Ghost(bound): Ghost<nat>,
) -> (r: Vec<u8>)
    requires
        arena_closed(layouts@),
        value matches Some(v) ==> v < layouts@.len(),
        fits(views(fields@), bound),
    ensures
        r@ == entry_groups(layouts@, value, views(fields@), bound),
    decreases bound, 5nat,
{
    let ghost ls = layouts@;
    let ghost all = views(fields@);
    let mut remaining = fields;
    let mut out: Vec<u8> = Vec::new();
    proof {
        assert(Seq::<u8>::empty() + entry_groups(ls, value, all, bound) =~= entry_groups(ls, value, all, bound));
    }
    while remaining.len() > 0
        invariant
            ls == layouts@,
            arena_closed(ls),
            value matches Some(v) ==> v < ls.len(),
            fits(views(remaining@), bound),
            entry_groups(ls, value, all, bound) == out@ + entry_groups(ls, value, views(remaining@), bound),
        decreases remaining@.len(),
    {
        let ghost rv = views(remaining@);
        let (n, with, without) = split_least(&remaining);
        proof {
            lemma_split(rv, n, bound);
            lemma_min_occurs(rv);
        }
        let ghost wv = views(with@);
        let ghost gstart = out@;
        let mut i: usize = 0;
        proof {
            assert(wv.take(0) =~= Seq::<FieldView>::empty());
            assert(gstart + entry_group(ls, value, n, wv.take(0), bound) =~= gstart);
        }
        while i < with.len()
            invariant
                i <= with@.len(),
                wv == views(with@),
                ls == layouts@,
                arena_closed(ls),
                value matches Some(v) ==> v < ls.len(),
                fits(wv, bound),
                out@ == gstart + entry_group(ls, value, n, wv.take(i as int), bound),
            decreases with@.len() - i,
        {
            let record = with[i];
            proof {
                assert(wv[i as int] == field_view(record));
                assert(wv.take(i + 1).drop_last() =~= wv.take(i as int));
                assert(wv.take(i + 1).last() == wv[i as int]);
            }
            match value {
                Some(v) if n == 2 && record.wire == WIRE_LEN => {
                    let inner = canonicalize_map_order(record.payload, layouts, v);
                    write_len_field(&mut out, n, inner.as_slice());
                },
                _ => {
                    write_field(&mut out, &record);
                },
            }
            proof {
                assert(out@ =~= gstart + entry_group(ls, value, n, wv.take(i + 1), bound));
            }
            i = i + 1;
        }
        proof {
            assert(wv.take(with@.len() as int) =~= wv);
            assert(entry_groups(ls, value, rv, bound) == entry_group(ls, value, n, wv, bound) + entry_groups(
                ls,
                value,
                views(without@),
                bound,
            ));
            assert(gstart + entry_groups(ls, value, rv, bound) =~= out@ + entry_groups(
                ls,
                value,
                views(without@),
                bound,
            ));
        }
        remaining = without;
    }
    proof {
        assert(views(remaining@) =~= Seq::<FieldView>::empty());
        assert(out@ + Seq::<u8>::empty() =~= out@);
    }
    out
}

/// Emit a map field's entries under `number`, ordered by key, each entry re-emitted with a
/// message value's maps ordered; `false` — with nothing promised of `out` — when a record is no
/// length-delimited run of fields.
fn emit_sorted_map(
    out: &mut Vec<u8>,
    number: u32,
    records: &Vec<WireField>,
    key: Option<MapKey>,
    value: Option<usize>,
    layouts: &[MessageLayout],
    Ghost(bound): Ghost<nat>,
) -> (ok: bool)
    requires
        arena_closed(layouts@),
        value matches Some(v) ==> v < layouts@.len(),
        fits(views(records@), bound),
    ensures
        ok == canon_map(layouts@, number, key, value, views(records@), bound) is Some,
        ok ==> final(out)@ == old(out)@ + canon_map(layouts@, number, key, value, views(records@), bound).unwrap(),
    decreases bound, 2nat,
{
    let ghost ls = layouts@;
    let ghost v = views(records@);
    let mut entries: Vec<(SortKey, Vec<u8>)> = Vec::new();
    let mut i: usize = 0;
    proof {
        assert(v.take(0) =~= Seq::<FieldView>::empty());
        assert(entry_views(entries@) =~= Seq::<(KeyView, Seq<u8>)>::empty());
    }
    while i < records.len()
        invariant
            i <= records@.len(),
            v == views(records@),
            ls == layouts@,
            arena_closed(ls),
            value matches Some(v) ==> v < ls.len(),
            fits(v, bound),
            map_entries(ls, key, value, v.take(i as int), bound) is Some,
            entry_views(entries@) == stable_sort(map_entries(ls, key, value, v.take(i as int), bound).unwrap()),
        decreases records@.len() - i,
    {
        let record = records[i];
        let ghost es = map_entries(ls, key, value, v.take(i as int), bound).unwrap();
        proof {
            assert(v[i as int] == field_view(record));
            assert(v.take(i + 1).drop_last() =~= v.take(i as int));
            assert(v.take(i + 1).last() == v[i as int]);
        }
        if record.wire != WIRE_LEN {
            proof {
                lemma_map_entries_none(ls, key, value, v, i + 1, bound);
            }
            return false;
        }
        let fields = match parse_fields(record.payload) {
            Some(f) => f,
            None => {
                proof {
                    lemma_map_entries_none(ls, key, value, v, i + 1, bound);
                }
                return false;
            },
        };
        proof {
            lemma_parse_fits(record.payload@);
        }
        let k = entry_sort_key(&fields, key);
        let rebuilt = rebuild_entry(fields, value, layouts, Ghost(record.payload@.len()));
        let ghost x = (k@, rebuilt@);
        place_entry(&mut entries, (k, rebuilt));
        proof {
            assert(map_entries(ls, key, value, v.take(i + 1), bound) == Some(es.push(x)));
            assert(es.push(x).drop_last() =~= es);
        }
        i = i + 1;
    }
    proof {
        assert(v.take(records@.len() as int) =~= v);
    }
    let ghost sorted = entry_views(entries@);
    let ghost start = out@;
    let mut j: usize = 0;
    proof {
        assert(sorted.take(0) =~= Seq::<(KeyView, Seq<u8>)>::empty());
        assert(start + len_fields(number, sorted.take(0)) =~= start);
    }
    while j < entries.len()
        invariant
            j <= entries@.len(),
            sorted == entry_views(entries@),
            out@ == start + len_fields(number, sorted.take(j as int)),
        decreases entries@.len() - j,
    {
        write_len_field(out, number, entries[j].1.as_slice());
        proof {
            assert(sorted.take(j + 1).drop_last() =~= sorted.take(j as int));
            assert(sorted[j as int].1 == entries@[j as int].1@);
            assert(out@ =~= start + len_fields(number, sorted.take(j + 1)));
        }
        j = j + 1;
    }
    proof {
        assert(sorted.take(entries@.len() as int) =~= sorted);
    }
    true
}

/// Re-emit one encoded message of layout `message` with its map fields ordered by key,
/// recursively; `None` on a wire shape a serializer never emits.
fn canonicalize_message(bytes: &[u8], layouts: &[MessageLayout], message: usize) -> (r: Option<Vec<u8>>)
    requires
        arena_closed(layouts@),
        message < layouts@.len(),
    ensures
        opt_bytes(r) == canon_message(layouts@, message as int, bytes@),
    decreases bytes@.len(), 6nat,
{
    let ghost ls = layouts@;
    let ghost bound = bytes@.len();
    let fields = match parse_fields(bytes) {
        Some(f) => f,
        None => {
            return None;
        },
    };
    proof {
        lemma_parse_fits(bytes@);
        assert(Seq::<u8>::empty() + canon_groups(ls, message as int, views(fields@), bound).unwrap_or(
            Seq::empty(),
        ) =~= canon_groups(ls, message as int, views(fields@), bound).unwrap_or(Seq::empty()));
    }
    let mut remaining = fields;
    let mut out: Vec<u8> = Vec::new();
    while remaining.len() > 0
        invariant
            ls == layouts@,
            arena_closed(ls),
            message < ls.len(),
            bound == bytes@.len(),
            fits(views(remaining@), bound),
            canon_message(ls, message as int, bytes@) == match canon_groups(
                ls,
                message as int,
                views(remaining@),
                bound,
            ) {
                Some(t) => Some(out@ + t),
                None => None::<Seq<u8>>,
            },
        decreases remaining@.len(),
    {
        let ghost rv = views(remaining@);
        let (n, with, without) = split_least(&remaining);
        proof {
            lemma_split(rv, n, bound);
            lemma_min_occurs(rv);
        }
        let ghost wv = views(with@);
        let ghost gstart = out@;
        let ok = match field_by_number(&layouts[message].fields, n) {
            Some(FieldLayout::Mapped { key, value }) => {
                proof {
                    let i = choose|i: int|
                        0 <= i < ls[message as int].fields@.len() && ls[message as int].fields@[i].layout
                            == FieldLayout::Mapped { key: *key, value: *value };
                    assert(crate::codec::layout::slot_in_arena(ls[message as int].fields@[i], ls.len()));
                }
                emit_sorted_map(&mut out, n, &with, *key, *value, layouts, Ghost(bound))
            },
            Some(FieldLayout::Message(child)) => {
                proof {
                    let i = choose|i: int|
                        0 <= i < ls[message as int].fields@.len() && ls[message as int].fields@[i].layout
                            == FieldLayout::Message(*child);
                    assert(crate::codec::layout::slot_in_arena(ls[message as int].fields@[i], ls.len()));
                }
                emit_nested(&mut out, n, &with, *child, layouts, Ghost(bound));
                true
            },
            _ => {
                proof {
                    assert forall|i: int| 0 <= i < with@.len() implies (#[trigger] with@[i]).wire < 8 by {
                        assert(wv[i] == field_view(with@[i]));
                    }
                }
                emit_verbatim(&mut out, &with);
                true
            },
        };
        proof {
            assert(canon_groups(ls, message as int, rv, bound) == match canon_group(
                ls,
                message as int,
                n,
                wv,
                bound,
            ) {
                None => None,
                Some(g) => match canon_groups(ls, message as int, views(without@), bound) {
                    None => None,
                    Some(t) => Some(g + t),
                },
            });
        }
        if !ok {
            return None;
        }
        proof {
            let g = canon_group(ls, message as int, n, wv, bound).unwrap();
            assert(out@ == gstart + g);
            if let Some(t) = canon_groups(ls, message as int, views(without@), bound) {
                assert(gstart + (g + t) =~= out@ + t);
            }
        }
        remaining = without;
    }
    proof {
        assert(views(remaining@) =~= Seq::<FieldView>::empty());
        assert(out@ + Seq::<u8>::empty() =~= out@);
    }
    Some(out)
}

/// Re-emit `bytes` — one encoded message of layout `message` — with every map field's entries
/// ordered by key, recursively through nested messages and message-valued map entries, so that
/// identical contents yield identical bytes. Total: a wire shape a serializer never produces (a
/// group, a truncated field) leaves the bytes unchanged.
pub fn canonicalize_map_order(bytes: &[u8], layouts: &[MessageLayout], message: usize) -> (r: Vec<u8>)
    requires
        arena_closed(layouts@),
        message < layouts@.len(),
    ensures
        r@ == or_same(canon_message(layouts@, message as int, bytes@), bytes@),
    decreases bytes@.len(), 7nat,
{
    match canonicalize_message(bytes, layouts, message) {
        Some(out) => out,
        None => copy_bytes(bytes),
    }
}

} // verus!
