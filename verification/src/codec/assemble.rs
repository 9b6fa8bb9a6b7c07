//! The planning of a message's reassembly from an answer set: each field's atoms, read from the
//! slot index under the field's parent occupant, checked against the form the mapping fixes and
//! raised to the values the field carries, or refused. A message-typed value is a child occupant
//! discovered for its own planning one level deeper.
use vstd::prelude::*;

use crate::codec::raise::{datum_view, outcome, raise, raisable, raised, DatumView, Refused};
use crate::codec::scalar::Datum;
use crate::codec::slots::{copy_symbol, lemma_syms_push, lemma_syms_view, slot_view, syms_view, SlotIndex, SymView, Symbol};
use crate::codec::walk::{is_enum_at, is_sort_at, EnumRef, Index, SortRef};
use crate::descriptor::model::{key_scalar, Scalar};
use crate::diagnostics::{fault_view, fault_views, Diagnostic, DiagnosticKind, FaultView, Locus};
use crate::policy::{EmitForm, EnumValueMapping, FieldMapping, Mapping, Totality, Unit, ValueMapping};
use crate::text::{owned, str_eq};

verus! {

broadcast use vstd::string::group_string_axioms;

/// One occupant to plan: the message-sort instance under `occupant`, `depth` levels below its
/// root.
pub struct Discover {
    /// The occupant term.
    pub occupant: Symbol,
    /// Its sort.
    pub sort: SortRef,
    /// How many message-typed fields lie between it and its root.
    pub depth: usize,
}

/// An occupant to plan, as plain values.
pub open spec fn discover_view(d: Discover) -> (SymView, (int, int), int) {
    (d.occupant.sv(), d.sort@, d.depth as int)
}

/// Occupants to plan, as plain values.
pub open spec fn discovers_view(ds: Seq<Discover>) -> Seq<(SymView, (int, int), int)> {
    ds.map_values(|d: Discover| discover_view(d))
}

/// How one field is set on its message: a raised value, a sequence of them, a map of them, or a
/// message slot whose value is a child occupant's own message.
pub enum Planned {
    /// A singular scalar or enum value.
    Value { number: i32, value: Datum },
    /// A sequence of values.
    List { number: i32, values: Vec<Datum> },
    /// A map of values by key.
    Entries { number: i32, entries: Vec<(Datum, Datum)> },
    /// A singular message: the child occupant.
    Message { number: i32, child: Symbol },
    /// A sequence of messages: the child occupants.
    Messages { number: i32, children: Vec<Symbol> },
    /// A map of messages by key: the child occupants.
    MessageMap { number: i32, entries: Vec<(Datum, Symbol)> },
}

/// A planned field as plain values.
pub enum PlannedView {
    /// A singular scalar or enum value.
    Value(int, DatumView),
    /// A sequence of values.
    List(int, Seq<DatumView>),
    /// A map of values by key.
    Entries(int, Seq<(DatumView, DatumView)>),
    /// A singular message.
    Message(int, SymView),
    /// A sequence of messages.
    Messages(int, Seq<SymView>),
    /// A map of messages by key.
    MessageMap(int, Seq<(DatumView, SymView)>),
}

/// A planned field as plain values.
pub open spec fn planned_view(p: Planned) -> PlannedView {
    match p {
        Planned::Value { number, value } => PlannedView::Value(number as int, datum_view(value)),
        Planned::List { number, values } => PlannedView::List(number as int, values@.map_values(|d: Datum| datum_view(d))),
        Planned::Entries { number, entries } => PlannedView::Entries(
            number as int,
            entries@.map_values(|e: (Datum, Datum)| (datum_view(e.0), datum_view(e.1))),
        ),
        Planned::Message { number, child } => PlannedView::Message(number as int, child.sv()),
        Planned::Messages { number, children } => PlannedView::Messages(number as int, syms_view(children@)),
        Planned::MessageMap { number, entries } => PlannedView::MessageMap(
            number as int,
            entries@.map_values(|e: (Datum, Symbol)| (datum_view(e.0), e.1.sv())),
        ),
    }
}

/// Planned fields as plain values.
pub open spec fn planneds_view(ps: Seq<Planned>) -> Seq<PlannedView> {
    ps.map_values(|p: Planned| planned_view(p))
}

/// The place argument of an entry — a sequence index or a map key, the argument after the parent.
pub open spec fn place_view(e: SymView) -> Option<SymView> {
    match e {
        SymView::Function(_, args, _) => if args.len() > 1 {
            Some(args[1])
        } else {
            None
        },
        _ => None,
    }
}

/// The last argument of a field atom — its value.
pub open spec fn last_view(e: SymView) -> Option<SymView> {
    match e {
        SymView::Function(_, args, _) => if args.len() > 0 {
            Some(args.last())
        } else {
            None
        },
        _ => None,
    }
}

/// Whether a symbol is a function of exactly `n` arguments.
pub open spec fn of_arity(e: SymView, n: int) -> bool {
    e matches SymView::Function(_, args, _) && args.len() == n
}

/// The entries of exactly `n` arguments, in order.
pub open spec fn with_arity(es: Seq<SymView>, n: int) -> Seq<SymView>
    decreases es.len(),
{
    if es.len() == 0 {
        Seq::empty()
    } else {
        with_arity(es.drop_last(), n) + if of_arity(es.last(), n) {
            seq![es.last()]
        } else {
            Seq::empty()
        }
    }
}

/// A `ShapeViolation` at a field's path.
pub open spec fn shape_fault(field: FieldMapping, detail: Seq<char>) -> FaultView {
    (DiagnosticKind::ShapeViolation, Some(field.proto@), detail)
}

/// A raising's refusal, located at `at`.
pub open spec fn located(r: Result<DatumView, Refused>, at: Seq<char>) -> Result<DatumView, FaultView> {
    match r {
        Ok(v) => Ok(v),
        Err(e) => Err((e.0, Some(at), e.1)),
    }
}

/// The first declared value whose constant is `name`, by position.
pub open spec fn first_constant(vs: Seq<EnumValueMapping>, name: Seq<char>) -> Option<int>
    decreases vs.len(),
{
    if vs.len() == 0 {
        None
    } else {
        match first_constant(vs.drop_last(), name) {
            Some(k) => Some(k),
            None => if vs.last().constant@ == name {
                Some(vs.len() - 1)
            } else {
                None
            },
        }
    }
}

/// The detail of a constant the enum does not declare.
pub open spec fn unknown_constant_detail(name: Seq<char>) -> Seq<char> {
    "the enum declares no value with the constant `"@ + name + "`"@
}

/// The enum number a value symbol names: a declared value's constant, or — for an enum that
/// preserves unknown numbers — the escape term `unknown(N)` over a number `N` no declared value
/// has; else the refusal.
pub open spec fn enum_value_of(us: Seq<Unit>, ix: Index, field: FieldMapping, referent: Seq<char>, s: SymView) -> Result<
    DatumView,
    FaultView,
> {
    let at = field.proto@;
    let mismatch = Err((DiagnosticKind::TermTypeMismatch, Some(at), "an enum value is not a constant"@));
    match s {
        SymView::Function(name, args, positive) => if !positive {
            mismatch
        } else {
            let r = ix.enum_entry(referent)->Some_0;
            let e = us[r.0].enums@[r.1];
            if e.preserve && name == "unknown"@ && args.len() == 1 {
                match args[0] {
                    SymView::Number(n) => if exists|k: int| 0 <= k < e.values@.len() && (#[trigger] e.values@[k]).number == n {
                        Err(shape_fault(field, "an unknown enum value names a declared number; the model must use its constant"@))
                    } else {
                        Ok(DatumView::Enum(n))
                    },
                    _ => Err(shape_fault(field, "an unknown enum value carries one integer, `unknown(N)`"@)),
                }
            } else if args.len() != 0 {
                mismatch
            } else {
                match first_constant(e.values@, name) {
                    Some(k) => Ok(DatumView::Enum(e.values@[k].number as int)),
                    None => Err((DiagnosticKind::UnknownEnumValue, Some(at), unknown_constant_detail(name))),
                }
            }
        },
        _ => mismatch,
    }
}

/// The value a scalar or enum field's atom carries, raised, or the refusal.
pub open spec fn entry_value(us: Seq<Unit>, ix: Index, field: FieldMapping, e: SymView) -> Result<DatumView, FaultView> {
    match last_view(e) {
        None => Err(shape_fault(field, "a field atom carries no value"@)),
        Some(v) => match field.value {
            ValueMapping::Scalar { kind, treatment } => located(raised(v, kind, treatment), field.proto@),
            ValueMapping::Enum { referent, .. } => enum_value_of(us, ix, field, referent@, v),
            ValueMapping::Message(_) => Err(shape_fault(field, "a field atom carries no value"@)),
        },
    }
}

/// Whether the mapping lets a field's values be raised here: a scalar's treatment raises, an
/// enum's referent is an enum of the index, a message's referent a sort of it.
pub open spec fn plannable(ix: Index, field: FieldMapping) -> bool {
    match field.value {
        ValueMapping::Scalar { kind, treatment } => raisable(kind, treatment),
        ValueMapping::Enum { referent, .. } => ix.enum_entry(referent@) is Some,
        ValueMapping::Message(referent) => ix.sort_entry(referent@) is Some,
    }
}

/// Whether a raised value can key a map: any but bytes or an enum number.
pub open spec fn is_key(d: DatumView) -> bool {
    !(d is Bytes) && !(d is Enum)
}

/// What planning a map field has gathered so far: its refusals, the keys taken, the value entries,
/// the message entries, and whether it stopped at an entry with no key.
pub struct MapState {
    /// The refusals, in order.
    pub refusals: Seq<FaultView>,
    /// The keys taken, in order.
    pub keys: Seq<DatumView>,
    /// The scalar or enum entries.
    pub values: Seq<(DatumView, DatumView)>,
    /// The message entries: each key and child occupant.
    pub children: Seq<(DatumView, SymView)>,
    /// Whether an entry had no key.
    pub stopped: bool,
}

/// One entry of a map field planned: its key raised under the key's treatment, refused when it
/// does not raise, is not a key, or repeats a taken key; a message entry's occupant a child; a
/// value entry's value raised.
pub open spec fn map_step(us: Seq<Unit>, ix: Index, field: FieldMapping, st: MapState, e: SymView) -> MapState {
    if st.stopped {
        st
    } else {
        match place_view(e) {
            None => MapState {
                refusals: st.refusals.push(shape_fault(field, "a map entry has no key"@)),
                stopped: true,
                ..st
            },
            Some(k) => {
                let (key, kt) = match field.form {
                    EmitForm::Mapped { key, key_treatment } => (key, key_treatment),
                    _ => (crate::descriptor::model::MapKey::String, crate::policy::ScalarTreatment::Text),
                };
                match raised(k, key_scalar(key), kt) {
                    Err(f) => MapState { refusals: st.refusals.push((f.0, Some(field.proto@), f.1)), ..st },
                    Ok(kv) => if !is_key(kv) {
                        MapState {
                            refusals: st.refusals.push(shape_fault(field, "a map key is not a scalar key type"@)),
                            ..st
                        }
                    } else if st.keys.contains(kv) {
                        MapState {
                            refusals: st.refusals.push(shape_fault(field, "a map has two entries for one key"@)),
                            ..st
                        }
                    } else if field.value is Message {
                        MapState { keys: st.keys.push(kv), children: st.children.push((kv, e)), ..st }
                    } else {
                        match entry_value(us, ix, field, e) {
                            Ok(v) => MapState { keys: st.keys.push(kv), values: st.values.push((kv, v)), ..st },
                            Err(f) => MapState { keys: st.keys.push(kv), refusals: st.refusals.push(f), ..st },
                        }
                    },
                }
            },
        }
    }
}

/// A map field's entries planned in order.
pub open spec fn map_plan(us: Seq<Unit>, ix: Index, field: FieldMapping, es: Seq<SymView>) -> MapState
    decreases es.len(),
{
    if es.len() == 0 {
        MapState { refusals: Seq::empty(), keys: Seq::empty(), values: Seq::empty(), children: Seq::empty(), stopped: false }
    } else {
        map_step(us, ix, field, map_plan(us, ix, field, es.drop_last()), es.last())
    }
}

/// The place argument of an entry.
fn place(e: &Symbol) -> (r: Option<&Symbol>)
    ensures
        match r {
            Some(s) => place_view(e.sv()) == Some(s.sv()),
            None => place_view(e.sv()) is None,
        },
{
    match e {
        Symbol::Function { arguments, .. } => {
            proof {
                lemma_syms_view(arguments@);
            }
            if arguments.len() > 1 {
                Some(&arguments[1])
            } else {
                None
            }
        },
        _ => None,
    }
}

/// The last argument of a field atom.
fn last_argument(e: &Symbol) -> (r: Option<&Symbol>)
    ensures
        match r {
            Some(s) => last_view(e.sv()) == Some(s.sv()),
            None => last_view(e.sv()) is None,
        },
{
    match e {
        Symbol::Function { arguments, .. } => {
            proof {
                lemma_syms_view(arguments@);
            }
            if arguments.len() > 0 {
                Some(&arguments[arguments.len() - 1])
            } else {
                None
            }
        },
        _ => None,
    }
}

/// A `ShapeViolation` at a field's path.
fn shape(field: &FieldMapping, detail: &str) -> (d: Diagnostic)
    ensures
        fault_view(d) == shape_fault(*field, detail@),
{
    Diagnostic::new(DiagnosticKind::ShapeViolation, Locus::at(field.proto().as_str()), detail)
}

/// The enum number a value symbol names, or the refusal.
fn enum_number(mapping: &Mapping, index: &Index, field: &FieldMapping, referent: &str, s: &Symbol) -> (r: Result<
    Datum,
    Diagnostic,
>)
    requires
        index.indexes(mapping.units@),
        index.enum_entry(referent@) is Some,
    ensures
        match r {
            Ok(d) => enum_value_of(mapping.units@, *index, *field, referent@, s.sv()) == Ok::<DatumView, FaultView>(datum_view(d)),
            Err(e) => enum_value_of(mapping.units@, *index, *field, referent@, s.sv()) == Err::<DatumView, FaultView>(fault_view(e)),
        },
{
    proof {
        reveal_strlit("unknown");
        reveal_strlit("an enum value is not a constant");
    }
    let at = field.proto().as_str();
    match s {
        Symbol::Function { name, arguments, positive } => {
            if !*positive {
                return Err(Diagnostic::new(DiagnosticKind::TermTypeMismatch, Locus::at(at), "an enum value is not a constant"));
            }
            let r = index.enum_of(referent).unwrap();
            let ghost us = mapping.units@;
            proof {
                assert(index.enum_entry(referent@) == Some(r@));
                assert(is_enum_at(us, r@));
            }
            let enumeration = r.in_mapping(mapping);
            proof {
                lemma_syms_view(arguments@);
                assert(s.sv() == SymView::Function(name@, syms_view(arguments@), *positive));
                assert(us[index.enum_entry(referent@)->Some_0.0].enums@[index.enum_entry(referent@)->Some_0.1] == *enumeration);
            }
            if enumeration.preserve && str_eq(name.as_str(), "unknown") && arguments.len() == 1 {
                match &arguments[0] {
                    Symbol::Number(n) => {
                        if declares_number(&enumeration.values, *n) {
                            return Err(shape(field, "an unknown enum value names a declared number; the model must use its constant"));
                        }
                        return Ok(Datum::Enum(*n));
                    },
                    _ => {
                        return Err(shape(field, "an unknown enum value carries one integer, `unknown(N)`"));
                    },
                }
            }
            if arguments.len() != 0 {
                return Err(Diagnostic::new(DiagnosticKind::TermTypeMismatch, Locus::at(at), "an enum value is not a constant"));
            }
            if let Some(k) = find_constant(&enumeration.values, name.as_str()) {
                return Ok(Datum::Enum(enumeration.values[k].number));
            }
            let mut detail = owned("the enum declares no value with the constant `");
            detail.append(name.as_str());
            detail.append("`");
            proof {
                assert(detail@ =~= unknown_constant_detail(name@));
            }
            Err(Diagnostic::composed(DiagnosticKind::UnknownEnumValue, Locus::at(at), detail))
        },
        _ => Err(Diagnostic::new(DiagnosticKind::TermTypeMismatch, Locus::at(at), "an enum value is not a constant")),
    }
}

/// Whether a declared value has the number.
fn declares_number(values: &Vec<EnumValueMapping>, n: i32) -> (r: bool)
    ensures
        r == exists|k: int| 0 <= k < values@.len() && (#[trigger] values@[k]).number == n,
{
    let mut k: usize = 0;
    while k < values.len()
        invariant
            k <= values@.len(),
            forall|j: int| 0 <= j < k ==> (#[trigger] values@[j]).number != n,
        decreases values@.len() - k,
    {
        if values[k].number == n {
            return true;
        }
        k = k + 1;
    }
    false
}

/// The first declared value whose constant is `name`, by position.
fn find_constant(values: &Vec<EnumValueMapping>, name: &str) -> (r: Option<usize>)
    ensures
        match r {
            Some(k) => first_constant(values@, name@) == Some(k as int) && k < values@.len(),
            None => first_constant(values@, name@) is None,
        },
{
    let mut k: usize = 0;
    while k < values.len()
        invariant
            k <= values@.len(),
            first_constant(values@.take(k as int), name@) is None,
        decreases values@.len() - k,
    {
        proof {
            assert(values@.take(k + 1).drop_last() =~= values@.take(k as int));
        }
        if str_eq(values[k].constant.as_str(), name) {
            proof {
                lemma_first_constant_prefix(values@, name@, k as int);
            }
            return Some(k);
        }
        k = k + 1;
    }
    proof {
        assert(values@.take(k as int) =~= values@);
    }
    None
}

/// A first match in a prefix that had none before its last element is the first match overall.
proof fn lemma_first_constant_prefix(vs: Seq<EnumValueMapping>, name: Seq<char>, k: int)
    requires
        0 <= k < vs.len(),
        first_constant(vs.take(k), name) is None,
        vs[k].constant@ == name,
    ensures
        first_constant(vs, name) == Some(k),
    decreases vs.len(),
{
    if k < vs.len() - 1 {
        assert(vs.drop_last().take(k) =~= vs.take(k));
        lemma_first_constant_prefix(vs.drop_last(), name, k);
    } else {
        assert(vs.drop_last() =~= vs.take(k));
    }
}

/// The value a scalar or enum field's atom carries, raised, or the refusal.
fn value(mapping: &Mapping, index: &Index, field: &FieldMapping, entry: &Symbol) -> (r: Result<Datum, Diagnostic>)
    requires
        index.indexes(mapping.units@),
        plannable(*index, *field),
        !(field.value is Message),
    ensures
        match r {
            Ok(d) => entry_value(mapping.units@, *index, *field, entry.sv()) == Ok::<DatumView, FaultView>(datum_view(d)),
            Err(e) => entry_value(mapping.units@, *index, *field, entry.sv()) == Err::<DatumView, FaultView>(fault_view(e)),
        },
{
    let symbol = match last_argument(entry) {
        Some(symbol) => symbol,
        None => {
            return Err(shape(field, "a field atom carries no value"));
        },
    };
    match &field.value {
        ValueMapping::Scalar { kind, treatment } => raise(symbol, *kind, *treatment, field.proto().as_str()),
        ValueMapping::Enum { referent, .. } => enum_number(mapping, index, field, referent.as_str(), symbol),
        ValueMapping::Message(_) => Err(shape(field, "a field atom carries no value")),
    }
}

/// A copy of a value.
fn copy_datum(d: &Datum) -> (r: Datum)
    ensures
        datum_view(r) == datum_view(*d),
{
    match d {
        Datum::I32(v) => Datum::I32(*v),
        Datum::I64(v) => Datum::I64(*v),
        Datum::U32(v) => Datum::U32(*v),
        Datum::U64(v) => Datum::U64(*v),
        Datum::Bool(b) => Datum::Bool(*b),
        Datum::Str(t) => Datum::Str(owned(t.as_str())),
        Datum::Bytes(b) => {
            let mut out: Vec<u8> = Vec::new();
            let mut i: usize = 0;
            while i < b.len()
                invariant
                    i <= b@.len(),
                    out@ == b@.take(i as int),
                decreases b@.len() - i,
            {
                out.push(b[i]);
                proof {
                    assert(out@ =~= b@.take(i + 1));
                }
                i = i + 1;
            }
            proof {
                assert(b@.take(i as int) =~= b@);
            }
            Datum::Bytes(out)
        },
        Datum::Enum(n) => Datum::Enum(*n),
    }
}

/// Whether two values are one value.
fn same_datum(a: &Datum, b: &Datum) -> (r: bool)
    ensures
        r == (datum_view(*a) == datum_view(*b)),
{
    match (a, b) {
        (Datum::I32(x), Datum::I32(y)) => *x == *y,
        (Datum::I64(x), Datum::I64(y)) => *x == *y,
        (Datum::U32(x), Datum::U32(y)) => *x == *y,
        (Datum::U64(x), Datum::U64(y)) => *x == *y,
        (Datum::Bool(x), Datum::Bool(y)) => *x == *y,
        (Datum::Str(x), Datum::Str(y)) => str_eq(x.as_str(), y.as_str()),
        (Datum::Bytes(x), Datum::Bytes(y)) => {
            if x.len() != y.len() {
                return false;
            }
            let mut i: usize = 0;
            while i < x.len()
                invariant
                    i <= x@.len(),
                    x@.len() == y@.len(),
                    datum_view(*a) == DatumView::Bytes(x@),
                    datum_view(*b) == DatumView::Bytes(y@),
                    forall|j: int| 0 <= j < i ==> x@[j] == y@[j],
                decreases x@.len() - i,
            {
                if x[i] != y[i] {
                    proof {
                        assert(x@[i as int] != y@[i as int]);
                        assert(x@ != y@);
                    }
                    return false;
                }
                i = i + 1;
            }
            proof {
                assert(x@ =~= y@);
            }
            true
        },
        (Datum::Enum(x), Datum::Enum(y)) => *x == *y,
        _ => false,
    }
}

/// Values as plain values.
pub open spec fn datums_view(ds: Seq<Datum>) -> Seq<DatumView> {
    ds.map_values(|d: Datum| datum_view(d))
}

/// Whether a value is among the values.
fn seen_before(seen: &Vec<Datum>, d: &Datum) -> (r: bool)
    ensures
        r == datums_view(seen@).contains(datum_view(*d)),
{
    let mut i: usize = 0;
    while i < seen.len()
        invariant
            i <= seen@.len(),
            forall|j: int| 0 <= j < i ==> datum_view(#[trigger] seen@[j]) != datum_view(*d),
        decreases seen@.len() - i,
    {
        if same_datum(&seen[i], d) {
            proof {
                assert(datums_view(seen@)[i as int] == datum_view(*d));
            }
            return true;
        }
        i = i + 1;
    }
    proof {
        if datums_view(seen@).contains(datum_view(*d)) {
            let j = choose|j: int| 0 <= j < datums_view(seen@).len() && datums_view(seen@)[j] == datum_view(*d);
            assert(datum_view(seen@[j]) == datum_view(*d));
        }
    }
    false
}

/// The entries of a slot of exactly `n` arguments, in order.
fn entries_of_arity(slot: &Vec<Symbol>, n: usize) -> (r: Vec<Symbol>)
    ensures
        syms_view(r@) == with_arity(syms_view(slot@), n as int),
{
    let ghost all = syms_view(slot@);
    proof {
        lemma_syms_view(slot@);
    }
    let mut out: Vec<Symbol> = Vec::new();
    let mut i: usize = 0;
    while i < slot.len()
        invariant
            i <= slot@.len(),
            all == syms_view(slot@),
            all.len() == slot@.len(),
            forall|j: int| 0 <= j < slot@.len() ==> #[trigger] all[j] == slot@[j].sv(),
            syms_view(out@) == with_arity(all.take(i as int), n as int),
        decreases slot@.len() - i,
    {
        proof {
            assert(all.take(i + 1).drop_last() =~= all.take(i as int));
            assert(all.take(i + 1).last() == slot@[i as int].sv());
        }
        let keep = match &slot[i] {
            Symbol::Function { arguments, .. } => arguments.len() == n,
            _ => false,
        };
        proof {
            if let Symbol::Function { arguments, .. } = slot@[i as int] {
                lemma_syms_view(arguments@);
            }
        }
        if keep {
            let c = copy_symbol(&slot[i]);
            let ghost before = out@;
            out.push(c);
            proof {
                lemma_syms_push(before, c);
                assert(out@ =~= before.push(c));
            }
        }
        i = i + 1;
    }
    proof {
        assert(all.take(i as int) =~= all);
    }
    out
}

/// The arity a map field's atoms carry: a value entry `f(P, K, V)`, a message occupant `f(P, K)`.
pub open spec fn map_arity(field: FieldMapping) -> int {
    if field.value is Message {
        2
    } else {
        3
    }
}

/// A map field's entries under a parent occupant: the slot's atoms of the field's arity.
pub open spec fn map_entries(slots: SlotIndex, field: FieldMapping, parent: SymView) -> Seq<SymView> {
    with_arity(slot_view(slots.filed_view(), field.predicate@, parent), map_arity(field))
}

/// The occupant a message entry hands on for planning: its term, the referent sort, one level
/// deeper.
pub open spec fn child_of(ix: Index, field: FieldMapping, depth: int, c: (DatumView, SymView)) -> (SymView, (int, int), int) {
    (c.1, ix.sort_entry(field.value->Message_0@)->Some_0, depth + 1)
}

/// What a map field plans: nothing when an entry had no key, else its message entries or its
/// value entries under the field's number.
pub open spec fn map_planned(field: FieldMapping, st: MapState) -> Seq<PlannedView> {
    if st.stopped {
        Seq::empty()
    } else if field.value is Message {
        seq![PlannedView::MessageMap(field.number as int, st.children)]
    } else {
        seq![PlannedView::Entries(field.number as int, st.values)]
    }
}

/// Once a map field's planning stops, later entries change nothing.
proof fn lemma_stopped_stays(us: Seq<Unit>, ix: Index, field: FieldMapping, es: Seq<SymView>, i: int)
    requires
        0 <= i <= es.len(),
        map_plan(us, ix, field, es.take(i)).stopped,
    ensures
        map_plan(us, ix, field, es) == map_plan(us, ix, field, es.take(i)),
    decreases es.len(),
{
    if i < es.len() {
        assert(es.drop_last().take(i) =~= es.take(i));
        lemma_stopped_stays(us, ix, field, es.drop_last(), i);
    } else {
        assert(es.take(i) =~= es);
    }
}

/// Plan a map field of the occupant `parent`: its entries — the slot's atoms of the field's
/// arity, in the answer set's order — each keyed by its place argument raised under the key's
/// treatment. An entry with no key stops the field, planning nothing for it; a key that does not
/// raise, is no key, or repeats a taken one is refused and its entry skipped; a message entry's
/// occupant is handed on for planning one level deeper; a value entry's value is raised or
/// refused. The field's map is planned from the entries taken.
pub fn plan_map(
    mapping: &Mapping,
    index: &Index,
    slots: &SlotIndex,
    field: &FieldMapping,
    parent: &Symbol,
    depth: usize,
    planned: &mut Vec<Planned>,
    refusals: &mut Vec<Diagnostic>,
    children: &mut Vec<Discover>,
)
    requires
        index.indexes(mapping.units@),
        field.form matches EmitForm::Mapped { key, key_treatment } && raisable(key_scalar(key), key_treatment),
        plannable(*index, *field),
        depth < usize::MAX,
    ensures
        ({
            let st = map_plan(mapping.units@, *index, *field, map_entries(*slots, *field, parent.sv()));
            &&& fault_views(final(refusals)@) == fault_views(old(refusals)@) + st.refusals
            &&& discovers_view(final(children)@) == discovers_view(old(children)@) + st.children.map_values(
                |c: (DatumView, SymView)| child_of(*index, *field, depth as int, c),
            )
            &&& planneds_view(final(planned)@) == planneds_view(old(planned)@) + map_planned(*field, st)
        }),
{
    let ghost us = mapping.units@;
    let ghost r0 = refusals@;
    let ghost c0 = children@;
    let ghost p0 = planned@;
    let (key, key_treatment) = match &field.form {
        EmitForm::Mapped { key, key_treatment } => (*key, *key_treatment),
        _ => {
            return;
        },
    };
    let is_message = match &field.value {
        ValueMapping::Message(_) => true,
        _ => false,
    };
    let arity: usize = if is_message {
        2
    } else {
        3
    };
    let slot = slots.slot(field.predicate.as_str(), parent);
    let entries = entries_of_arity(&slot, arity);
    let ghost es = syms_view(entries@);
    proof {
        lemma_syms_view(entries@);
        assert(es.take(0) =~= Seq::<SymView>::empty());
    }
    let at = field.proto().as_str();
    let key_scalar_kind = Scalar::from_key(key);
    let mut seen: Vec<Datum> = Vec::new();
    let mut values: Vec<(Datum, Datum)> = Vec::new();
    let mut occupants: Vec<(Datum, Symbol)> = Vec::new();
    let mut i: usize = 0;
    while i < entries.len()
        invariant
            index.indexes(us),
            us == mapping.units@,
            field.form == (EmitForm::Mapped { key, key_treatment }),
            raisable(key_scalar(key), key_treatment),
            key_scalar_kind == key_scalar(key),
            plannable(*index, *field),
            is_message == field.value is Message,
            at@ == field.proto@,
            depth < usize::MAX,
            es == syms_view(entries@),
            es == map_entries(*slots, *field, parent.sv()),
            r0 == old(refusals)@,
            c0 == old(children)@,
            p0 == old(planned)@,
            es.len() == entries@.len(),
            forall|j: int| 0 <= j < entries@.len() ==> #[trigger] es[j] == entries@[j].sv(),
            i <= entries@.len(),
            !map_plan(us, *index, *field, es.take(i as int)).stopped,
            fault_views(refusals@) == fault_views(r0) + map_plan(us, *index, *field, es.take(i as int)).refusals,
            datums_view(seen@) == map_plan(us, *index, *field, es.take(i as int)).keys,
            values@.map_values(|e: (Datum, Datum)| (datum_view(e.0), datum_view(e.1))) == map_plan(
                us,
                *index,
                *field,
                es.take(i as int),
            ).values,
            occupants@.map_values(|e: (Datum, Symbol)| (datum_view(e.0), e.1.sv())) == map_plan(
                us,
                *index,
                *field,
                es.take(i as int),
            ).children,
            discovers_view(children@) == discovers_view(c0) + map_plan(us, *index, *field, es.take(i as int)).children.map_values(
                |c: (DatumView, SymView)| child_of(*index, *field, depth as int, c),
            ),
            planned@ == p0,
        decreases entries@.len() - i,
    {
        let ghost st = map_plan(us, *index, *field, es.take(i as int));
        let ghost e = es[i as int];
        proof {
            assert(es.take(i + 1).drop_last() =~= es.take(i as int));
            assert(es.take(i + 1).last() == e);
        }
        let entry = &entries[i];
        let key_symbol = match place(entry) {
            Some(k) => k,
            None => {
                let d = shape(field, "a map entry has no key");
                let ghost before = refusals@;
                refusals.push(d);
                proof {
                    assert(entry.sv() == e);
                    assert(place_view(e) is None);
                    let next = map_plan(us, *index, *field, es.take(i + 1));
                    assert(next == map_step(us, *index, *field, st, e));
                    assert(next.stopped);
                    assert(next.refusals == st.refusals.push(shape_fault(*field, "a map entry has no key"@)));
                    assert(next.children == st.children);
                    assert(fault_views(refusals@) =~= fault_views(before).push(fault_view(d)));
                    assert(fault_views(refusals@) =~= fault_views(r0) + next.refusals);
                    lemma_stopped_stays(us, *index, *field, es, i + 1);
                    assert(es.take(es.len() as int) =~= es);
                }
                return;
            },
        };
        let ghost before_refusals = refusals@;
        match raise(key_symbol, key_scalar_kind, key_treatment, at) {
            Err(d) => {
                refusals.push(d);
                proof {
                    assert(fault_views(refusals@) =~= fault_views(before_refusals).push(fault_view(d)));
                }
            },
            Ok(kv) => {
                let is_map_key = match &kv {
                    Datum::Bytes(_) => false,
                    Datum::Enum(_) => false,
                    _ => true,
                };
                if !is_map_key {
                    let d = shape(field, "a map key is not a scalar key type");
                    refusals.push(d);
                    proof {
                        assert(fault_views(refusals@) =~= fault_views(before_refusals).push(fault_view(d)));
                    }
                } else if seen_before(&seen, &kv) {
                    let d = shape(field, "a map has two entries for one key");
                    refusals.push(d);
                    proof {
                        assert(fault_views(refusals@) =~= fault_views(before_refusals).push(fault_view(d)));
                    }
                } else if is_message {
                    let ghost before_seen = seen@;
                    let ghost before_occupants = occupants@;
                    let ghost before_children = children@;
                    let sort = match &field.value {
                        ValueMapping::Message(referent) => index.sort_of(referent.as_str()),
                        _ => None,
                    };
                    let sort = match sort {
                        Some(sort) => sort,
                        None => {
                            return;
                        },
                    };
                    seen.push(copy_datum(&kv));
                    children.push(Discover { occupant: copy_symbol(entry), sort, depth: depth + 1 });
                    occupants.push((kv, copy_symbol(entry)));
                    proof {
                        assert(datums_view(seen@) =~= datums_view(before_seen).push(datum_view(kv)));
                        assert(occupants@.map_values(|e: (Datum, Symbol)| (datum_view(e.0), e.1.sv())) =~= before_occupants.map_values(
                            |e: (Datum, Symbol)| (datum_view(e.0), e.1.sv()),
                        ).push((datum_view(kv), e)));
                        assert(discovers_view(children@) =~= discovers_view(before_children).push(
                            child_of(*index, *field, depth as int, (datum_view(kv), e)),
                        ));
                        assert(map_plan(us, *index, *field, es.take(i + 1)).children.map_values(
                            |c: (DatumView, SymView)| child_of(*index, *field, depth as int, c),
                        ) =~= st.children.map_values(|c: (DatumView, SymView)| child_of(*index, *field, depth as int, c)).push(
                            child_of(*index, *field, depth as int, (datum_view(kv), e)),
                        ));
                    }
                } else {
                    let ghost before_seen = seen@;
                    let ghost before_values = values@;
                    let k2 = copy_datum(&kv);
                    seen.push(kv);
                    proof {
                        assert(datums_view(seen@) =~= datums_view(before_seen).push(datum_view(k2)));
                    }
                    match value(mapping, index, field, entry) {
                        Ok(v) => {
                            values.push((k2, v));
                            proof {
                                assert(values@.map_values(|e: (Datum, Datum)| (datum_view(e.0), datum_view(e.1))) =~= before_values.map_values(
                                    |e: (Datum, Datum)| (datum_view(e.0), datum_view(e.1)),
                                ).push((datum_view(k2), datum_view(v))));
                            }
                        },
                        Err(d) => {
                            refusals.push(d);
                            proof {
                                assert(fault_views(refusals@) =~= fault_views(before_refusals).push(fault_view(d)));
                            }
                        },
                    }
                }
            },
        }
        i = i + 1;
    }
    proof {
        assert(es.take(i as int) =~= es);
    }
    let ghost before_planned = planned@;
    if is_message {
        planned.push(Planned::MessageMap { number: field.number, entries: occupants });
    } else {
        planned.push(Planned::Entries { number: field.number, entries: values });
    }
    proof {
        assert(planneds_view(planned@) =~= planneds_view(before_planned).push(planned_view(planned@.last())));
    }
}

/// A message under construction, as plain values: each field set, by number, in setting order.
pub struct Building {
    /// The fields set, each its number and setting.
    pub fields: Vec<(i32, Setting)>,
}

/// What one field of a message under construction is set to.
pub enum Setting {
    /// A singular scalar or enum value.
    Value(Datum),
    /// A sequence of values.
    List(Vec<Datum>),
    /// A map of values by key.
    Entries(Vec<(Datum, Datum)>),
    /// A singular child message.
    Message(Building),
    /// A sequence of child messages.
    Messages(Vec<Building>),
    /// A map of child messages by key.
    MessageMap(Vec<(Datum, Building)>),
}

/// The first built child message under the occupant `c`, by position.
pub open spec fn first_built(built: Seq<(Symbol, Building)>, c: SymView) -> Option<int>
    decreases built.len(),
{
    if built.len() == 0 {
        None
    } else {
        match first_built(built.drop_last(), c) {
            Some(k) => Some(k),
            None => if built.last().0.sv() == c {
                Some(built.len() - 1)
            } else {
                None
            },
        }
    }
}

/// The built child messages of the occupants `cs`, each taken in turn from `built` — the first
/// built under it — and what is left; `None` when one has none.
pub open spec fn take_all(built: Seq<(Symbol, Building)>, cs: Seq<SymView>) -> Option<(Seq<Building>, Seq<(Symbol, Building)>)>
    decreases cs.len(),
{
    if cs.len() == 0 {
        Some((Seq::empty(), built))
    } else {
        match take_all(built, cs.drop_last()) {
            None => None,
            Some((taken, left)) => match first_built(left, cs.last()) {
                None => None,
                Some(k) => Some((taken.push(left[k].1), left.remove(k))),
            },
        }
    }
}

/// Take the first built child message under an occupant.
fn take_built(built: &mut Vec<(Symbol, Building)>, child: &Symbol) -> (r: Building)
    requires
        first_built(old(built)@, child.sv()) is Some,
    ensures
        ({
            let k = first_built(old(built)@, child.sv())->Some_0;
            &&& r == old(built)@[k].1
            &&& final(built)@ == old(built)@.remove(k)
        }),
{
    let ghost b0 = built@;
    let mut k: usize = 0;
    while k < built.len()
        invariant
            built@ == b0,
            b0 == old(built)@,
            k <= b0.len(),
            first_built(b0.take(k as int), child.sv()) is None,
            first_built(b0, child.sv()) is Some,
        decreases b0.len() - k,
    {
        proof {
            assert(b0.take(k + 1).drop_last() =~= b0.take(k as int));
        }
        if crate::codec::slots::same_symbol(&built[k].0, child) {
            proof {
                lemma_first_built_prefix(b0, child.sv(), k as int);
            }
            let (_, b) = built.remove(k);
            return b;
        }
        k = k + 1;
    }
    proof {
        assert(b0.take(k as int) =~= b0);
    }
    let (_, b) = built.remove(0);
    b
}

/// A first match in a prefix that had none before its last element is the first match overall.
proof fn lemma_first_built_prefix(built: Seq<(Symbol, Building)>, c: SymView, k: int)
    requires
        0 <= k < built.len(),
        first_built(built.take(k), c) is None,
        built[k].0.sv() == c,
    ensures
        first_built(built, c) == Some(k),
    decreases built.len(),
{
    if k < built.len() - 1 {
        assert(built.drop_last().take(k) =~= built.take(k));
        lemma_first_built_prefix(built.drop_last(), c, k);
    } else {
        assert(built.drop_last() =~= built.take(k));
    }
}

/// The child occupants a planned field draws on, in order.
pub open spec fn planned_children(p: Planned) -> Seq<SymView> {
    match p {
        Planned::Message { child, .. } => seq![child.sv()],
        Planned::Messages { children, .. } => syms_view(children@),
        Planned::MessageMap { entries, .. } => entries@.map_values(|e: (Datum, Symbol)| e.1.sv()),
        _ => Seq::empty(),
    }
}

/// Whether a setting is the one a planned field makes, its children's built messages drawn in
/// order as `taken`.
pub open spec fn setting_is(s: Setting, p: Planned, taken: Seq<Building>) -> bool {
    match (p, s) {
        (Planned::Value { value, .. }, Setting::Value(v)) => v == value,
        (Planned::List { values, .. }, Setting::List(vs)) => vs == values,
        (Planned::Entries { entries, .. }, Setting::Entries(es)) => es == entries,
        (Planned::Message { .. }, Setting::Message(b)) => taken.len() == 1 && b == taken[0],
        (Planned::Messages { .. }, Setting::Messages(bs)) => bs@ == taken,
        (Planned::MessageMap { entries, .. }, Setting::MessageMap(es)) => {
            &&& es@.len() == entries@.len()
            &&& taken.len() == entries@.len()
            &&& forall|i: int| 0 <= i < es@.len() ==> (#[trigger] es@[i]).0 == entries@[i].0 && es@[i].1 == taken[i]
        },
        _ => false,
    }
}

/// The number a planned field sets.
pub open spec fn planned_number(p: Planned) -> i32 {
    match p {
        Planned::Value { number, .. } => number,
        Planned::List { number, .. } => number,
        Planned::Entries { number, .. } => number,
        Planned::Message { number, .. } => number,
        Planned::Messages { number, .. } => number,
        Planned::MessageMap { number, .. } => number,
    }
}

/// Take the built child messages of occupants in turn.
fn take_each(built: &mut Vec<(Symbol, Building)>, children: &Vec<Symbol>) -> (r: Vec<Building>)
    requires
        take_all(old(built)@, syms_view(children@)) is Some,
    ensures
        take_all(old(built)@, syms_view(children@)) == Some((r@, final(built)@)),
{
    let ghost b0 = built@;
    let ghost cs = syms_view(children@);
    proof {
        lemma_syms_view(children@);
        lemma_take_all_prefix(b0, cs, cs.len() as int);
    }
    let mut out: Vec<Building> = Vec::new();
    let mut i: usize = 0;
    while i < children.len()
        invariant
            cs == syms_view(children@),
            cs.len() == children@.len(),
            forall|j: int| 0 <= j < children@.len() ==> #[trigger] cs[j] == children@[j].sv(),
            i <= children@.len(),
            take_all(b0, cs) is Some,
            forall|n: int| 0 <= n <= cs.len() ==> (#[trigger] take_all(b0, cs.take(n))) is Some,
            take_all(b0, cs.take(i as int)) == Some((out@, built@)),
        decreases children@.len() - i,
    {
        proof {
            assert(cs.take(i + 1).drop_last() =~= cs.take(i as int));
            assert(cs.take(i + 1).last() == children@[i as int].sv());
            assert(take_all(b0, cs.take(i + 1)) is Some);
        }
        let b = take_built(built, &children[i]);
        out.push(b);
        i = i + 1;
    }
    proof {
        assert(cs.take(i as int) =~= cs);
    }
    out
}

/// Taking the built messages of occupants takes one for each.
proof fn lemma_take_all_len(built: Seq<(Symbol, Building)>, cs: Seq<SymView>)
    requires
        take_all(built, cs) is Some,
    ensures
        take_all(built, cs)->Some_0.0.len() == cs.len(),
    decreases cs.len(),
{
    if cs.len() > 0 {
        lemma_take_all_len(built, cs.drop_last());
    }
}

/// Every prefix of occupants whose built messages can all be taken can be taken.
proof fn lemma_take_all_prefix(built: Seq<(Symbol, Building)>, cs: Seq<SymView>, n: int)
    requires
        take_all(built, cs) is Some,
        0 <= n <= cs.len(),
    ensures
        forall|m: int| 0 <= m <= n ==> (#[trigger] take_all(built, cs.take(m))) is Some,
    decreases cs.len(),
{
    assert forall|m: int| 0 <= m <= n implies (#[trigger] take_all(built, cs.take(m))) is Some by {
        if m == cs.len() {
            assert(cs.take(m) =~= cs);
        } else {
            assert(cs.drop_last().take(m) =~= cs.take(m));
            lemma_take_all_prefix(built, cs.drop_last(), m);
        }
    }
}

/// Set one planned field on its message under construction: a value, or a sequence or map of
/// them, as planned; a message field draws its children's built messages from `built` — each the
/// first built under its occupant, taken out, since each child has one parent.
pub fn set_planned(building: &mut Building, planned: Planned, built: &mut Vec<(Symbol, Building)>)
    requires
        take_all(old(built)@, planned_children(planned)) is Some,
    ensures
        ({
            let (taken, left) = take_all(old(built)@, planned_children(planned))->Some_0;
            &&& final(built)@ == left
            &&& final(building).fields@.len() == old(building).fields@.len() + 1
            &&& final(building).fields@.take(old(building).fields@.len() as int) == old(building).fields@
            &&& final(building).fields@.last().0 == planned_number(planned)
            &&& setting_is(final(building).fields@.last().1, planned, taken)
        }),
{
    let ghost p = planned;
    let ghost b0 = built@;
    let ghost f0 = building.fields@;
    match planned {
        Planned::Value { number, value } => {
            building.fields.push((number, Setting::Value(value)));
            proof {
                assert(building.fields@.take(f0.len() as int) =~= f0);
                assert(take_all(b0, Seq::<SymView>::empty()) == Some((Seq::<Building>::empty(), b0)));
            }
        },
        Planned::List { number, values } => {
            building.fields.push((number, Setting::List(values)));
            proof {
                assert(building.fields@.take(f0.len() as int) =~= f0);
                assert(take_all(b0, Seq::<SymView>::empty()) == Some((Seq::<Building>::empty(), b0)));
            }
        },
        Planned::Entries { number, entries } => {
            building.fields.push((number, Setting::Entries(entries)));
            proof {
                assert(building.fields@.take(f0.len() as int) =~= f0);
                assert(take_all(b0, Seq::<SymView>::empty()) == Some((Seq::<Building>::empty(), b0)));
            }
        },
        Planned::Message { number, child } => {
            proof {
                let cs = seq![child.sv()];
                assert(cs.drop_last() =~= Seq::<SymView>::empty());
                assert(take_all(b0, cs.drop_last()) == Some((Seq::<Building>::empty(), b0)));
            }
            let b = take_built(built, &child);
            proof {
                assert(Seq::<Building>::empty().push(b) =~= seq![b]);
            }
            building.fields.push((number, Setting::Message(b)));
            proof {
                assert(building.fields@.take(f0.len() as int) =~= f0);
            }
        },
        Planned::Messages { number, children } => {
            let bs = take_each(built, &children);
            building.fields.push((number, Setting::Messages(bs)));
            proof {
                assert(building.fields@.take(f0.len() as int) =~= f0);
            }
        },
        Planned::MessageMap { number, entries } => {
            let ghost es = entries@;
            let mut keys: Vec<Datum> = Vec::new();
            let mut occupants: Vec<Symbol> = Vec::new();
            let mut rest = entries;
            while rest.len() > 0
                invariant
                    keys@.len() + rest@.len() == es.len(),
                    occupants@.len() == keys@.len(),
                    forall|j: int| 0 <= j < keys@.len() ==> #[trigger] keys@[j] == es[j].0,
                    forall|j: int| 0 <= j < occupants@.len() ==> #[trigger] occupants@[j] == es[j].1,
                    forall|j: int| 0 <= j < rest@.len() ==> #[trigger] rest@[j] == es[keys@.len() + j],
                decreases rest@.len(),
            {
                let (k, o) = rest.remove(0);
                keys.push(k);
                occupants.push(o);
            }
            proof {
                assert(syms_view(occupants@) =~= es.map_values(|e: (Datum, Symbol)| e.1.sv())) by {
                    lemma_syms_view(occupants@);
                }
            }
            let bs = take_each(built, &occupants);
            proof {
                lemma_take_all_len(b0, syms_view(occupants@));
                lemma_syms_view(occupants@);
            }
            let mut pairs: Vec<(Datum, Building)> = Vec::new();
            let mut keys = keys;
            let mut bs = bs;
            let ghost taken = bs@;
            let ghost ks = keys@;
            while keys.len() > 0
                invariant
                    keys@.len() == bs@.len(),
                    pairs@.len() + keys@.len() == es.len(),
                    taken.len() == es.len(),
                    ks.len() == es.len(),
                    forall|j: int| 0 <= j < ks.len() ==> #[trigger] ks[j] == es[j].0,
                    forall|j: int| 0 <= j < keys@.len() ==> #[trigger] keys@[j] == ks[pairs@.len() + j],
                    forall|j: int| 0 <= j < bs@.len() ==> #[trigger] bs@[j] == taken[pairs@.len() + j],
                    forall|j: int| 0 <= j < pairs@.len() ==> (#[trigger] pairs@[j]).0 == es[j].0 && pairs@[j].1 == taken[j],
                decreases keys@.len(),
            {
                let k = keys.remove(0);
                let b = bs.remove(0);
                pairs.push((k, b));
            }
            building.fields.push((number, Setting::MessageMap(pairs)));
            proof {
                assert(building.fields@.take(f0.len() as int) =~= f0);
            }
        },
    }
}

/// The arity a singular field's atoms carry: a value `f(P, V)`, a message occupant `f(P)`.
pub open spec fn singular_arity(field: FieldMapping) -> int {
    if field.value is Message {
        1
    } else {
        2
    }
}

/// A singular field's entries under a parent occupant: the slot's atoms of the field's arity.
pub open spec fn singular_entries(slots: SlotIndex, field: FieldMapping, parent: SymView) -> Seq<SymView> {
    with_arity(slot_view(slots.filed_view(), field.predicate@, parent), singular_arity(field))
}

/// What planning a singular field from its entries gives: its refusals, the occupants it hands
/// on, and what it plans.
pub open spec fn singular_plan(us: Seq<Unit>, ix: Index, field: FieldMapping, es: Seq<SymView>, depth: int) -> (
    Seq<FaultView>,
    Seq<(SymView, (int, int), int)>,
    Seq<PlannedView>,
) {
    if es.len() == 0 {
        if field.presence is Total || field.presence is Required {
            (seq![shape_fault(field, "a total or required field is missing its value"@)], Seq::empty(), Seq::empty())
        } else {
            (Seq::empty(), Seq::empty(), Seq::empty())
        }
    } else if es.len() > 1 {
        (seq![shape_fault(field, "a singular field has two values"@)], Seq::empty(), Seq::empty())
    } else if field.value is Message {
        (
            Seq::empty(),
            seq![(es[0], ix.sort_entry(field.value->Message_0@)->Some_0, depth + 1)],
            seq![PlannedView::Message(field.number as int, es[0])],
        )
    } else {
        match entry_value(us, ix, field, es[0]) {
            Ok(v) => (Seq::empty(), Seq::empty(), seq![PlannedView::Value(field.number as int, v)]),
            Err(f) => (seq![f], Seq::empty(), Seq::empty()),
        }
    }
}

/// Plan a singular field of the occupant `parent` — a function field or a oneof arm — from its
/// entries, the slot's atoms of the field's arity: none leaves it unset, but is refused for a
/// total or required field; two or more are refused; one is a message's child occupant, handed
/// on for planning one level deeper, or a value raised or refused.
pub fn plan_singular(
    mapping: &Mapping,
    index: &Index,
    slots: &SlotIndex,
    field: &FieldMapping,
    parent: &Symbol,
    depth: usize,
    planned: &mut Vec<Planned>,
    refusals: &mut Vec<Diagnostic>,
    children: &mut Vec<Discover>,
)
    requires
        index.indexes(mapping.units@),
        plannable(*index, *field),
        depth < usize::MAX,
    ensures
        ({
            let (rs, cs, ps) = singular_plan(
                mapping.units@,
                *index,
                *field,
                singular_entries(*slots, *field, parent.sv()),
                depth as int,
            );
            &&& fault_views(final(refusals)@) == fault_views(old(refusals)@) + rs
            &&& discovers_view(final(children)@) == discovers_view(old(children)@) + cs
            &&& planneds_view(final(planned)@) == planneds_view(old(planned)@) + ps
        }),
{
    let ghost r0 = refusals@;
    let ghost c0 = children@;
    let ghost p0 = planned@;
    let is_message = match &field.value {
        ValueMapping::Message(_) => true,
        _ => false,
    };
    let arity: usize = if is_message {
        1
    } else {
        2
    };
    let slot = slots.slot(field.predicate.as_str(), parent);
    let entries = entries_of_arity(&slot, arity);
    proof {
        lemma_syms_view(entries@);
    }
    if entries.len() != 1 {
        if entries.len() == 0 {
            let obliged = match field.presence {
                Totality::Total => true,
                Totality::Required => true,
                Totality::Partial => false,
            };
            if obliged {
                let d = shape(field, "a total or required field is missing its value");
                refusals.push(d);
                proof {
                    assert(fault_views(refusals@) =~= fault_views(r0) + seq![fault_view(d)]);
                }
            } else {
                proof {
                    assert(fault_views(refusals@) =~= fault_views(r0) + Seq::<FaultView>::empty());
                }
            }
        } else {
            let d = shape(field, "a singular field has two values");
            refusals.push(d);
            proof {
                assert(fault_views(refusals@) =~= fault_views(r0) + seq![fault_view(d)]);
            }
        }
        proof {
            assert(discovers_view(children@) =~= discovers_view(c0) + Seq::<(SymView, (int, int), int)>::empty());
            assert(planneds_view(planned@) =~= planneds_view(p0) + Seq::<PlannedView>::empty());
        }
        return;
    }
    let entry = &entries[0];
    if is_message {
        let sort = match &field.value {
            ValueMapping::Message(referent) => index.sort_of(referent.as_str()),
            _ => None,
        };
        let sort = match sort {
            Some(sort) => sort,
            None => {
                return;
            },
        };
        children.push(Discover { occupant: copy_symbol(entry), sort, depth: depth + 1 });
        planned.push(Planned::Message { number: field.number, child: copy_symbol(entry) });
        proof {
            assert(discovers_view(children@) =~= discovers_view(c0) + seq![discover_view(children@.last())]);
            assert(planneds_view(planned@) =~= planneds_view(p0) + seq![planned_view(planned@.last())]);
            assert(fault_views(refusals@) =~= fault_views(r0) + Seq::<FaultView>::empty());
        }
    } else {
        match value(mapping, index, field, entry) {
            Ok(v) => {
                planned.push(Planned::Value { number: field.number, value: v });
                proof {
                    assert(planneds_view(planned@) =~= planneds_view(p0) + seq![planned_view(planned@.last())]);
                    assert(fault_views(refusals@) =~= fault_views(r0) + Seq::<FaultView>::empty());
                }
            },
            Err(d) => {
                refusals.push(d);
                proof {
                    assert(fault_views(refusals@) =~= fault_views(r0) + seq![fault_view(d)]);
                    assert(planneds_view(planned@) =~= planneds_view(p0) + Seq::<PlannedView>::empty());
                }
            },
        }
        proof {
            assert(discovers_view(children@) =~= discovers_view(c0) + Seq::<(SymView, (int, int), int)>::empty());
        }
    }
}

/// The arity a sequence field's atoms carry: a value `f(P, I, V)`, a message occupant `f(P, I)`.
pub open spec fn sequence_arity(field: FieldMapping) -> int {
    if field.value is Message {
        2
    } else {
        3
    }
}

/// A sequence field's entries under a parent occupant: the slot's atoms of the field's arity.
pub open spec fn sequence_entries(slots: SlotIndex, field: FieldMapping, parent: SymView) -> Seq<SymView> {
    with_arity(slot_view(slots.filed_view(), field.predicate@, parent), sequence_arity(field))
}

/// The integer index an entry's place argument carries, if it is one.
pub open spec fn index_of(e: SymView) -> Option<int> {
    match place_view(e) {
        Some(SymView::Number(i)) => Some(i),
        _ => None,
    }
}

/// Whether every entry carries an integer index.
pub open spec fn indexed(es: Seq<SymView>) -> bool {
    forall|k: int| 0 <= k < es.len() ==> (#[trigger] index_of(es[k])) is Some
}

/// Whether the entries' indices are dense from 0: each index below the count, no index twice,
/// and each position below the count some entry's index.
pub open spec fn dense(es: Seq<SymView>) -> bool {
    &&& forall|k: int| 0 <= k < es.len() ==> 0 <= (#[trigger] index_of(es[k]))->Some_0 < es.len()
    &&& forall|a: int, b: int| 0 <= a < b < es.len() ==> (#[trigger] index_of(es[a])) != (#[trigger] index_of(es[b]))
    &&& forall|i: int| 0 <= i < es.len() ==> #[trigger] covered(es, i)
}

/// Whether some entry carries the index `i`.
pub open spec fn covered(es: Seq<SymView>, i: int) -> bool {
    exists|k: int| 0 <= k < es.len() && #[trigger] index_of(es[k]) == Some(i)
}

/// The entries in index order.
pub open spec fn by_index(es: Seq<SymView>) -> Seq<SymView> {
    Seq::new(es.len(), |i: int| es[choose|k: int| 0 <= k < es.len() && #[trigger] index_of(es[k]) == Some(i)])
}

/// The values of value entries raised in order, and the refusals of those that are refused.
pub open spec fn sequence_values(us: Seq<Unit>, ix: Index, field: FieldMapping, os: Seq<SymView>) -> (Seq<FaultView>, Seq<DatumView>)
    decreases os.len(),
{
    if os.len() == 0 {
        (Seq::empty(), Seq::empty())
    } else {
        let (rs, vs) = sequence_values(us, ix, field, os.drop_last());
        match entry_value(us, ix, field, os.last()) {
            Ok(v) => (rs, vs.push(v)),
            Err(f) => (rs.push(f), vs),
        }
    }
}

/// What planning a sequence field from its entries gives: its refusals, the occupants it hands
/// on, and what it plans.
pub open spec fn sequence_plan(us: Seq<Unit>, ix: Index, field: FieldMapping, es: Seq<SymView>, depth: int) -> (
    Seq<FaultView>,
    Seq<(SymView, (int, int), int)>,
    Seq<PlannedView>,
) {
    if !indexed(es) {
        (seq![shape_fault(field, "a sequence element has no integer index"@)], Seq::empty(), Seq::empty())
    } else if !dense(es) {
        (seq![shape_fault(field, "a sequence is not dense from index 0"@)], Seq::empty(), Seq::empty())
    } else if field.value is Message {
        let os = by_index(es);
        (
            Seq::empty(),
            os.map_values(|o: SymView| (o, ix.sort_entry(field.value->Message_0@)->Some_0, depth + 1)),
            seq![PlannedView::Messages(field.number as int, os)],
        )
    } else {
        let (rs, vs) = sequence_values(us, ix, field, by_index(es));
        (rs, Seq::empty(), seq![PlannedView::List(field.number as int, vs)])
    }
}

/// Plan a sequence field of the occupant `parent` from its entries, the slot's atoms of the
/// field's arity: an entry without an integer index, or indices not dense from 0, refuse the
/// field; else, in index order, message entries' occupants are handed on for planning one level
/// deeper and value entries' values are raised or refused.
pub fn plan_sequence(
    mapping: &Mapping,
    index: &Index,
    slots: &SlotIndex,
    field: &FieldMapping,
    parent: &Symbol,
    depth: usize,
    planned: &mut Vec<Planned>,
    refusals: &mut Vec<Diagnostic>,
    children: &mut Vec<Discover>,
)
    requires
        index.indexes(mapping.units@),
        plannable(*index, *field),
        depth < usize::MAX,
    ensures
        ({
            let (rs, cs, ps) = sequence_plan(
                mapping.units@,
                *index,
                *field,
                sequence_entries(*slots, *field, parent.sv()),
                depth as int,
            );
            &&& fault_views(final(refusals)@) == fault_views(old(refusals)@) + rs
            &&& discovers_view(final(children)@) == discovers_view(old(children)@) + cs
            &&& planneds_view(final(planned)@) == planneds_view(old(planned)@) + ps
        }),
{
    let ghost us = mapping.units@;
    let ghost r0 = refusals@;
    let ghost c0 = children@;
    let ghost p0 = planned@;
    let is_message = match &field.value {
        ValueMapping::Message(_) => true,
        _ => false,
    };
    let arity: usize = if is_message {
        2
    } else {
        3
    };
    let slot = slots.slot(field.predicate.as_str(), parent);
    let entries = entries_of_arity(&slot, arity);
    let ghost es = syms_view(entries@);
    proof {
        lemma_syms_view(entries@);
    }
    let n = entries.len();
    // Each entry's integer index.
    let mut indices: Vec<i32> = Vec::new();
    let mut k: usize = 0;
    while k < n
        invariant
            n == entries@.len(),
            es == syms_view(entries@),
            es.len() == n,
            forall|j: int| 0 <= j < n ==> #[trigger] es[j] == entries@[j].sv(),
            k <= n,
            indices@.len() == k,
            forall|j: int| 0 <= j < k ==> index_of(#[trigger] es[j]) == Some(indices@[j] as int),
            refusals@ == r0,
            children@ == c0,
            planned@ == p0,
            r0 == old(refusals)@,
            c0 == old(children)@,
            p0 == old(planned)@,
            es == sequence_entries(*slots, *field, parent.sv()),
        decreases n - k,
    {
        let i = match place(&entries[k]) {
            Some(Symbol::Number(i)) => *i,
            _ => {
                let d = shape(field, "a sequence element has no integer index");
                refusals.push(d);
                proof {
                    assert(index_of(es[k as int]) is None);
                    assert(!indexed(es));
                    assert(fault_views(refusals@) =~= fault_views(r0) + seq![fault_view(d)]);
                    assert(discovers_view(children@) =~= discovers_view(c0) + Seq::<(SymView, (int, int), int)>::empty());
                    assert(planneds_view(planned@) =~= planneds_view(p0) + Seq::<PlannedView>::empty());
                }
                return;
            },
        };
        indices.push(i);
        k = k + 1;
    }
    proof {
        assert(indexed(es));
    }
    // Each index below the count and taken once; each position some entry's.
    let mut at: Vec<usize> = Vec::new();
    let mut taken: Vec<bool> = Vec::new();
    let mut t: usize = 0;
    while t < n
        invariant
            t <= n,
            at@.len() == t,
            taken@.len() == t,
            forall|j: int| 0 <= j < t ==> !(#[trigger] taken@[j]),
            refusals@ == r0,
            children@ == c0,
            planned@ == p0,
        decreases n - t,
    {
        at.push(0);
        taken.push(false);
        t = t + 1;
    }
    let mut ok = true;
    let mut k: usize = 0;
    while k < n && ok
        invariant
            n == entries@.len(),
            es.len() == n,
            indices@.len() == n,
            forall|j: int| 0 <= j < n ==> index_of(#[trigger] es[j]) == Some(indices@[j] as int),
            k <= n,
            at@.len() == n,
            taken@.len() == n,
            !ok ==> !dense(es),
            ok ==> forall|j: int| 0 <= j < k ==> 0 <= #[trigger] indices@[j] < n,
            ok ==> forall|a: int, b: int| 0 <= a < b < k ==> (#[trigger] indices@[a]) != (#[trigger] indices@[b]),
            ok ==> forall|x: int| 0 <= x < n ==> (#[trigger] taken@[x] <==> exists|j: int| 0 <= j < k && indices@[j] == x),
            ok ==> forall|x: int| 0 <= x < n && #[trigger] taken@[x] ==> at@[x] < n && indices@[at@[x] as int] == x,
            refusals@ == r0,
            children@ == c0,
            planned@ == p0,
        decreases n - k,
    {
        let i = indices[k];
        if i < 0 || i as usize >= n {
            ok = false;
            proof {
                assert(index_of(es[k as int]) == Some(i as int));
            }
            k = n;
        } else {
            let x = i as usize;
            if taken[x] {
                ok = false;
                proof {
                    let j = choose|j: int| 0 <= j < k && indices@[j] == x;
                    assert(index_of(es[j]) == index_of(es[k as int]));
                }
                k = n;
            } else {
                let ghost before = taken@;
                taken.set(x, true);
                at.set(x, k);
                proof {
                    assert forall|y: int| 0 <= y < n implies (#[trigger] taken@[y] <==> exists|j: int| 0 <= j < k + 1 && indices@[j] == y) by {
                        if y == x {
                            assert(indices@[k as int] == y);
                        } else {
                            assert(taken@[y] == before[y]);
                        }
                    }
                }
                k = k + 1;
            }
        }
    }
    let mut t: usize = 0;
    while t < n && ok
        invariant
            n == entries@.len(),
            es.len() == n,
            indices@.len() == n,
            forall|j: int| 0 <= j < n ==> index_of(#[trigger] es[j]) == Some(indices@[j] as int),
            t <= n,
            taken@.len() == n,
            !ok ==> !dense(es),
            ok ==> forall|x: int| 0 <= x < n ==> (#[trigger] taken@[x] <==> exists|j: int| 0 <= j < n && indices@[j] == x),
            ok ==> forall|j: int| 0 <= j < t ==> #[trigger] taken@[j],
            ok ==> forall|j: int| 0 <= j < n ==> 0 <= #[trigger] indices@[j] < n,
            ok ==> forall|a: int, b: int| 0 <= a < b < n ==> (#[trigger] indices@[a]) != (#[trigger] indices@[b]),
            ok ==> forall|x: int| 0 <= x < n && #[trigger] taken@[x] ==> at@[x] < n && indices@[at@[x] as int] == x,
            at@.len() == n,
            refusals@ == r0,
            children@ == c0,
            planned@ == p0,
        decreases n - t,
    {
        if !taken[t] {
            ok = false;
            proof {
                assert forall|j: int| 0 <= j < n implies #[trigger] index_of(es[j]) != Some(t as int) by {
                    assert(indices@[j] != t);
                }
                assert(!covered(es, t as int));
            }
            t = n;
        } else {
            t = t + 1;
        }
    }
    if !ok {
        let d = shape(field, "a sequence is not dense from index 0");
        refusals.push(d);
        proof {
            assert(fault_views(refusals@) =~= fault_views(r0) + seq![fault_view(d)]);
            assert(discovers_view(children@) =~= discovers_view(c0) + Seq::<(SymView, (int, int), int)>::empty());
            assert(planneds_view(planned@) =~= planneds_view(p0) + Seq::<PlannedView>::empty());
        }
        return;
    }
    let ghost os = by_index(es);
    proof {
        assert forall|a: int, b: int| 0 <= a < b < n implies (#[trigger] index_of(es[a])) != (#[trigger] index_of(es[b])) by {
            assert(indices@[a] != indices@[b]);
        }
        assert forall|i: int| 0 <= i < n implies #[trigger] covered(es, i) by {
            assert(taken@[i]);
            let j = choose|j: int| 0 <= j < n && indices@[j] == i;
            assert(index_of(es[j]) == Some(i));
        }
        assert(dense(es));
        assert forall|j: int| 0 <= j < n implies at@[j] < n by {
            assert(taken@[j]);
        }
        assert forall|i: int| 0 <= i < n implies #[trigger] os[i] == es[at@[i] as int] by {
            assert(taken@[i]);
            assert(covered(es, i));
            let c = choose|k: int| 0 <= k < es.len() && #[trigger] index_of(es[k]) == Some(i);
            assert(index_of(es[at@[i] as int]) == Some(i));
            if c != at@[i] as int {
                if c < at@[i] as int {
                    assert(index_of(es[c]) != index_of(es[at@[i] as int]));
                } else {
                    assert(index_of(es[at@[i] as int]) != index_of(es[c]));
                }
            }
        }
    }
    if is_message {
        let sort = match &field.value {
            ValueMapping::Message(referent) => index.sort_of(referent.as_str()),
            _ => None,
        };
        let sort = match sort {
            Some(sort) => sort,
            None => {
                return;
            },
        };
        let ghost q = index.sort_entry(field.value->Message_0@)->Some_0;
        let mut occupants: Vec<Symbol> = Vec::new();
        let mut i: usize = 0;
        while i < n
            invariant
                n == entries@.len(),
                es == syms_view(entries@),
                es.len() == n,
                forall|j: int| 0 <= j < n ==> #[trigger] es[j] == entries@[j].sv(),
                at@.len() == n,
                forall|j: int| 0 <= j < n ==> at@[j] < n,
                forall|j: int| 0 <= j < n ==> #[trigger] os[j] == es[at@[j] as int],
                os.len() == n,
                sort@ == q,
                depth < usize::MAX,
                i <= n,
                syms_view(occupants@) == os.take(i as int),
                discovers_view(children@) == discovers_view(c0) + os.take(i as int).map_values(
                    |o: SymView| (o, q, depth + 1),
                ),
            decreases n - i,
        {
            let e = &entries[at[i]];
            let ghost before_children = children@;
            let ghost before_occupants = occupants@;
            let c = copy_symbol(e);
            children.push(Discover { occupant: copy_symbol(e), sort, depth: depth + 1 });
            occupants.push(c);
            proof {
                lemma_syms_push(before_occupants, c);
                assert(os.take(i + 1) =~= os.take(i as int).push(os[i as int]));
                assert(discovers_view(children@) =~= discovers_view(before_children).push(discover_view(children@.last())));
            }
            i = i + 1;
        }
        planned.push(Planned::Messages { number: field.number, children: occupants });
        proof {
            assert(os.take(n as int) =~= os);
            assert(planneds_view(planned@) =~= planneds_view(p0) + seq![planned_view(planned@.last())]);
            assert(fault_views(refusals@) =~= fault_views(r0) + Seq::<FaultView>::empty());
        }
    } else {
        let mut values: Vec<Datum> = Vec::new();
        let mut i: usize = 0;
        while i < n
            invariant
                us == mapping.units@,
                index.indexes(us),
                plannable(*index, *field),
                !(field.value is Message),
                n == entries@.len(),
                es == syms_view(entries@),
                es.len() == n,
                forall|j: int| 0 <= j < n ==> #[trigger] es[j] == entries@[j].sv(),
                at@.len() == n,
                forall|j: int| 0 <= j < n ==> at@[j] < n,
                forall|j: int| 0 <= j < n ==> #[trigger] os[j] == es[at@[j] as int],
                os.len() == n,
                i <= n,
                fault_views(refusals@) == fault_views(r0) + sequence_values(us, *index, *field, os.take(i as int)).0,
                datums_view(values@) == sequence_values(us, *index, *field, os.take(i as int)).1,
                children@ == c0,
                planned@ == p0,
            decreases n - i,
        {
            proof {
                assert(os.take(i + 1).drop_last() =~= os.take(i as int));
                assert(os.take(i + 1).last() == os[i as int]);
            }
            let ghost before_values = values@;
            let ghost before_refusals = refusals@;
            match value(mapping, index, field, &entries[at[i]]) {
                Ok(v) => {
                    values.push(v);
                    proof {
                        assert(datums_view(values@) =~= datums_view(before_values).push(datum_view(v)));
                    }
                },
                Err(d) => {
                    refusals.push(d);
                    proof {
                        assert(fault_views(refusals@) =~= fault_views(before_refusals).push(fault_view(d)));
                    }
                },
            }
            i = i + 1;
        }
        planned.push(Planned::List { number: field.number, values });
        proof {
            assert(os.take(n as int) =~= os);
            assert(planneds_view(planned@) =~= planneds_view(p0) + seq![planned_view(planned@.last())]);
            assert(discovers_view(children@) =~= discovers_view(c0) + Seq::<(SymView, (int, int), int)>::empty());
        }
    }
}

/// What planning a field under its form gives: its refusals, the occupants it hands on, and what
/// it plans.
pub open spec fn field_plan(us: Seq<Unit>, ix: Index, slots: SlotIndex, field: FieldMapping, parent: SymView, depth: int) -> (
    Seq<FaultView>,
    Seq<(SymView, (int, int), int)>,
    Seq<PlannedView>,
) {
    match field.form {
        EmitForm::Sequence => sequence_plan(us, ix, field, sequence_entries(slots, field, parent), depth),
        EmitForm::Mapped { .. } => {
            let st = map_plan(us, ix, field, map_entries(slots, field, parent));
            (
                st.refusals,
                st.children.map_values(|c: (DatumView, SymView)| child_of(ix, field, depth, c)),
                map_planned(field, st),
            )
        },
        _ => singular_plan(us, ix, field, singular_entries(slots, field, parent), depth),
    }
}

/// Plan one field of the occupant `parent` under the form the mapping fixes: a function field or
/// a oneof arm as a singular value, a sequence, or a map — the answer set's shape checked against
/// the form, never trusted.
pub fn plan_field(
    mapping: &Mapping,
    index: &Index,
    slots: &SlotIndex,
    field: &FieldMapping,
    parent: &Symbol,
    depth: usize,
    planned: &mut Vec<Planned>,
    refusals: &mut Vec<Diagnostic>,
    children: &mut Vec<Discover>,
)
    requires
        index.indexes(mapping.units@),
        plannable(*index, *field),
        !(field.form is Membership),
        field.form matches EmitForm::Mapped { key, key_treatment } ==> raisable(key_scalar(key), key_treatment),
        depth < usize::MAX,
    ensures
        ({
            let (rs, cs, ps) = field_plan(mapping.units@, *index, *slots, *field, parent.sv(), depth as int);
            &&& fault_views(final(refusals)@) == fault_views(old(refusals)@) + rs
            &&& discovers_view(final(children)@) == discovers_view(old(children)@) + cs
            &&& planneds_view(final(planned)@) == planneds_view(old(planned)@) + ps
        }),
{
    match &field.form {
        EmitForm::Sequence => plan_sequence(mapping, index, slots, field, parent, depth, planned, refusals, children),
        EmitForm::Mapped { .. } => plan_map(mapping, index, slots, field, parent, depth, planned, refusals, children),
        _ => plan_singular(mapping, index, slots, field, parent, depth, planned, refusals, children),
    }
}

/// No declared value carries the constant: there is no first one.
proof fn lemma_first_constant_none(vs: Seq<EnumValueMapping>, name: Seq<char>)
    requires
        forall|j: int| 0 <= j < vs.len() ==> (#[trigger] vs[j]).constant@ != name,
    ensures
        first_constant(vs, name) is None,
    decreases vs.len(),
{
    if vs.len() > 0 {
        lemma_first_constant_none(vs.drop_last(), name);
    }
}

/// A declared constant raises to the number of the value that declares it — the first one, when
/// two declare it — whatever the other values are.
pub proof fn lemma_declared_constant_raises_to_its_number(
    us: Seq<Unit>,
    ix: Index,
    field: FieldMapping,
    referent: Seq<char>,
    k: int,
)
    requires
        ix.enum_entry(referent) is Some,
        0 <= k < us[ix.enum_entry(referent)->Some_0.0].enums@[ix.enum_entry(referent)->Some_0.1].values@.len(),
        forall|j: int|
            0 <= j < k ==> (#[trigger] us[ix.enum_entry(referent)->Some_0.0].enums@[ix.enum_entry(
                referent,
            )->Some_0.1].values@[j]).constant@ != us[ix.enum_entry(referent)->Some_0.0].enums@[ix.enum_entry(
                referent,
            )->Some_0.1].values@[k].constant@,
    ensures
        ({
            let v = us[ix.enum_entry(referent)->Some_0.0].enums@[ix.enum_entry(referent)->Some_0.1].values@[k];
            enum_value_of(us, ix, field, referent, SymView::Function(v.constant@, Seq::empty(), true)) == Ok::<
                DatumView,
                FaultView,
            >(DatumView::Enum(v.number as int))
        }),
{
    let r = ix.enum_entry(referent)->Some_0;
    let vs = us[r.0].enums@[r.1].values@;
    lemma_first_constant_none(vs.take(k), vs[k].constant@);
    lemma_first_constant_prefix(vs, vs[k].constant@, k);
}

/// A constant no value of the enum declares is refused as an unknown enum value at the field.
pub proof fn lemma_undeclared_constant_is_unknown(
    us: Seq<Unit>,
    ix: Index,
    field: FieldMapping,
    referent: Seq<char>,
    name: Seq<char>,
)
    requires
        ix.enum_entry(referent) is Some,
        forall|j: int|
            0 <= j < us[ix.enum_entry(referent)->Some_0.0].enums@[ix.enum_entry(referent)->Some_0.1].values@.len()
                ==> (#[trigger] us[ix.enum_entry(referent)->Some_0.0].enums@[ix.enum_entry(
                referent,
            )->Some_0.1].values@[j]).constant@ != name,
    ensures
        enum_value_of(us, ix, field, referent, SymView::Function(name, Seq::empty(), true)) matches Err(f)
            && f.0 == DiagnosticKind::UnknownEnumValue && f.1 == Some(field.proto@),
{
    let r = ix.enum_entry(referent)->Some_0;
    lemma_first_constant_none(us[r.0].enums@[r.1].values@, name);
}

/// A constant that raises to a number names a declared value: one whose constant it is and whose
/// number it raises to.
pub proof fn lemma_raised_constant_is_declared(
    us: Seq<Unit>,
    ix: Index,
    field: FieldMapping,
    referent: Seq<char>,
    name: Seq<char>,
    n: int,
)
    requires
        ix.enum_entry(referent) is Some,
        enum_value_of(us, ix, field, referent, SymView::Function(name, Seq::empty(), true)) == Ok::<DatumView, FaultView>(
            DatumView::Enum(n),
        ),
    ensures
        exists|k: int|
            0 <= k < us[ix.enum_entry(referent)->Some_0.0].enums@[ix.enum_entry(referent)->Some_0.1].values@.len()
                && (#[trigger] us[ix.enum_entry(referent)->Some_0.0].enums@[ix.enum_entry(
                referent,
            )->Some_0.1].values@[k]).constant@ == name && us[ix.enum_entry(referent)->Some_0.0].enums@[ix.enum_entry(
                referent,
            )->Some_0.1].values@[k].number == n,
{
    let r = ix.enum_entry(referent)->Some_0;
    let vs = us[r.0].enums@[r.1].values@;
    lemma_first_constant_found(vs, name);
}

/// The first value carrying a constant carries it.
proof fn lemma_first_constant_found(vs: Seq<EnumValueMapping>, name: Seq<char>)
    ensures
        first_constant(vs, name) matches Some(k) ==> 0 <= k < vs.len() && vs[k].constant@ == name,
    decreases vs.len(),
{
    if vs.len() > 0 {
        lemma_first_constant_found(vs.drop_last(), name);
    }
}

/// The escape term `unknown(N)` of an enum that preserves unknown numbers raises to `N` exactly
/// when no declared value has that number, and is refused as a shape violation otherwise; of an
/// enum that does not preserve them it is refused as no constant. A strongly negated symbol never
/// raises.
pub proof fn lemma_unknown_escape(
    us: Seq<Unit>,
    ix: Index,
    field: FieldMapping,
    referent: Seq<char>,
    n: int,
    name: Seq<char>,
    args: Seq<SymView>,
)
    requires
        ix.enum_entry(referent) is Some,
    ensures
        ({
            let e = us[ix.enum_entry(referent)->Some_0.0].enums@[ix.enum_entry(referent)->Some_0.1];
            let escape = SymView::Function("unknown"@, seq![SymView::Number(n)], true);
            &&& e.preserve ==> (enum_value_of(us, ix, field, referent, escape) == Ok::<DatumView, FaultView>(
                DatumView::Enum(n),
            ) <==> !exists|k: int| 0 <= k < e.values@.len() && (#[trigger] e.values@[k]).number == n)
            &&& e.preserve ==> (enum_value_of(us, ix, field, referent, escape) is Err ==> enum_value_of(
                us,
                ix,
                field,
                referent,
                escape,
            )->Err_0.0 == DiagnosticKind::ShapeViolation)
            &&& !e.preserve ==> (enum_value_of(us, ix, field, referent, escape) matches Err(f) && f.0
                == DiagnosticKind::TermTypeMismatch)
            &&& enum_value_of(us, ix, field, referent, SymView::Function(name, args, false)) matches Err(f) && f.0
                == DiagnosticKind::TermTypeMismatch
        }),
{
}

} // verus!
