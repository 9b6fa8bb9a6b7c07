//! The shredding walk's per-field step: one present field of a decoded message lowered, under the
//! mapping's form and value term, to the facts it carries. A singular field (a oneof arm is one)
//! is `f(P, V)` for a value and the occupant `f(P)` for a message; a sequence `f(P, I, V)` and
//! `f(P, I)`; a map `f(P, K, V)` and `f(P, K)`, its key lowered like a value. An enum value is its
//! declared constant, an undeclared number a refusal. A message occupant becomes a work item,
//! its fields emitted when the item is popped; the walk collects every refusal and goes on.
//!
//! The decoded child messages are carried through as they are: the step reads nothing of them.
use vstd::prelude::*;

use crate::codec::scalar::{
    constant_view, copy_term, lower, lowered, pairs, refusal, terms_view, Datum, Term, TermView,
};
use crate::codec::walk::{enum_ref_view, is_enum_at, is_sort_at, sort_ref_view, Index, SortRef};
use crate::descriptor::model::{key_scalar, Scalar};
use crate::diagnostics::{fault_view, fault_views, Diagnostic, DiagnosticKind, FaultView, Locus};
use crate::policy::{EmitForm, EnumValueMapping, FieldMapping, Mapping, Unit, ValueMapping};
use crate::text::{owned, push_signed_decimal, signed_decimal};

verus! {

broadcast use vstd::string::group_string_axioms;

/// One occupied slot's content: a scalar or enum value, or a child message.
pub enum Element<M> {
    /// A scalar or enum value.
    Scalar(Datum),
    /// A child message.
    Message(M),
}

/// A present field's decoded value, in the shape of its field's form.
pub enum FieldValue<M> {
    /// A singular scalar or enum value.
    Scalar(Datum),
    /// A singular child message.
    Message(M),
    /// A repeated field's elements, in order.
    Elements(Vec<Element<M>>),
    /// A map field's entries, each a key and its value.
    Entries(Vec<(Datum, Element<M>)>),
}

/// One fact: a predicate over its arguments.
pub struct Fact {
    /// The predicate.
    pub predicate: String,
    /// The arguments.
    pub arguments: Vec<Term>,
}

/// A child message to walk: the occupant term it hangs from, the message, its sort, and its
/// nesting depth below the root.
pub struct Work<M> {
    /// The occupant term.
    pub parent: Term,
    /// The child message.
    pub message: M,
    /// Its sort.
    pub sort: SortRef,
    /// Its depth below the root.
    pub depth: usize,
}

/// What the walk has emitted, as plain values: the facts, the refusals, and the children to walk.
pub struct Emitted<M> {
    /// Each fact's predicate and arguments.
    pub facts: Seq<(Seq<char>, Seq<TermView>)>,
    /// The refusals.
    pub refusals: Seq<FaultView>,
    /// Each child's occupant term, message, sort position, and depth.
    pub children: Seq<(TermView, M, (int, int), int)>,
}

/// One slot's outcome: a fact, a refusal, or a child to walk.
pub enum Outcome<M> {
    /// A fact: its predicate and arguments.
    Fact(Seq<char>, Seq<TermView>),
    /// A refusal.
    Refusal(FaultView),
    /// A child: its occupant term, message, sort position, and depth.
    Child(TermView, M, (int, int), int),
}

/// A fact as plain values.
pub open spec fn fact_view(f: Fact) -> (Seq<char>, Seq<TermView>) {
    (f.predicate@, terms_view(f.arguments@))
}

/// A work item as plain values.
pub open spec fn work_view<M>(w: Work<M>) -> (TermView, M, (int, int), int) {
    (w.parent.tv(), w.message, w.sort@, w.depth as int)
}

/// The walk's output as plain values.
pub open spec fn emitted<M>(facts: Seq<Fact>, refusals: Seq<Diagnostic>, children: Seq<Work<M>>) -> Emitted<M> {
    Emitted {
        facts: facts.map_values(|f: Fact| fact_view(f)),
        refusals: fault_views(refusals),
        children: children.map_values(|w: Work<M>| work_view(w)),
    }
}

/// The output with one more outcome.
pub open spec fn applied<M>(e: Emitted<M>, o: Outcome<M>) -> Emitted<M> {
    match o {
        Outcome::Fact(p, args) => Emitted { facts: e.facts.push((p, args)), ..e },
        Outcome::Refusal(v) => Emitted { refusals: e.refusals.push(v), ..e },
        Outcome::Child(t, m, r, d) => Emitted { children: e.children.push((t, m, r, d)), ..e },
    }
}

/// The first of an enum's values carrying `n`, by position.
pub open spec fn value_at(vs: Seq<EnumValueMapping>, n: i32) -> Option<int>
    decreases vs.len(),
{
    if vs.len() == 0 {
        None
    } else {
        match value_at(vs.drop_last(), n) {
            Some(k) => Some(k),
            None => if vs.last().number == n {
                Some(vs.len() - 1)
            } else {
                None
            },
        }
    }
}

/// The detail of an enum number no value of the enum declares.
pub open spec fn unknown_enum_detail(n: int, path: Seq<char>) -> Seq<char> {
    "the value "@ + signed_decimal(n) + " matches no declared value of the enum `"@ + path
        + "`; an unknown number of an open enum is a translation error by default — annotate the field `(keryx.unknown) = PRESERVE` to carry it as `unknown("@
        + signed_decimal(n) + ")`"@
}

/// The detail of a sequence longer than an index term can count.
pub open spec fn index_detail() -> Seq<char> {
    "the sequence carries more than 2147483647 elements, so an element's index exceeds the widest integer a native clingo term carries"@
}

/// Whether a slot's content is of its field's kind: a scalar paired with its treatment, an enum
/// number for an enum whose predicate the index resolves, a message for a sort it resolves.
pub open spec fn slot_pairs<M>(ix: Index, field: FieldMapping, element: Element<M>) -> bool {
    match field.value {
        ValueMapping::Scalar { treatment, .. } => element matches Element::Scalar(d) && pairs(treatment, d),
        ValueMapping::Enum { referent, .. } => element matches Element::Scalar(Datum::Enum(_))
            && ix.enum_entry(referent@) is Some,
        ValueMapping::Message(p) => element is Message && ix.sort_entry(p@) is Some,
    }
}

/// The outcome of one slot whose place is the field's predicate over `args`: a scalar's fact or
/// refusal; an enum number's constant, or its refusal when the enum declares no such number; a
/// message's child, hanging from the occupant term the predicate over `args` is.
pub open spec fn slot_outcome<M>(
    us: Seq<Unit>,
    ix: Index,
    field: FieldMapping,
    args: Seq<TermView>,
    element: Element<M>,
    depth: int,
) -> Outcome<M> {
    match element {
        Element::Scalar(d) => match field.value {
            ValueMapping::Scalar { kind, treatment } => match refusal(kind, treatment, d, field.proto@) {
                Some(v) => Outcome::Refusal(v),
                None => Outcome::Fact(field.predicate@, args.push(lowered(treatment, d))),
            },
            ValueMapping::Enum { referent, .. } => {
                let r = ix.enum_entry(referent@)->Some_0;
                let e = us[r.0].enums@[r.1];
                let n = d->Enum_0;
                match value_at(e.values@, n) {
                    Some(k) => Outcome::Fact(field.predicate@, args.push(constant_view(e.values@[k].constant@))),
                    None => Outcome::Refusal(
                        (DiagnosticKind::UnknownEnumValue, Some(field.proto@), unknown_enum_detail(n as int, e.proto@)),
                    ),
                }
            },
            // A scalar for a message field: the pairing rules it out.
            ValueMapping::Message(_) => Outcome::Refusal((DiagnosticKind::UnknownEnumValue, None, Seq::empty())),
        },
        Element::Message(m) => match field.value {
            ValueMapping::Message(p) => Outcome::Child(
                TermView::Apply(field.predicate@, args),
                m,
                ix.sort_entry(p@)->Some_0,
                depth + 1,
            ),
            // A message for a scalar or enum field: the pairing rules it out.
            _ => Outcome::Refusal((DiagnosticKind::UnknownEnumValue, None, Seq::empty())),
        },
    }
}

/// Whether a present field's value has its form's shape and every slot's content its kind: a
/// singular value for a function or oneof arm, elements for a sequence, entries whose keys pair
/// with the key treatment for a map. A membership relation is not shredded.
pub open spec fn field_pairs<M>(ix: Index, field: FieldMapping, value: FieldValue<M>) -> bool {
    match field.form {
        EmitForm::Function | EmitForm::OneofArm { .. } => match value {
            FieldValue::Scalar(d) => slot_pairs(ix, field, Element::<M>::Scalar(d)),
            FieldValue::Message(m) => slot_pairs(ix, field, Element::Message(m)),
            _ => false,
        },
        EmitForm::Sequence => value matches FieldValue::Elements(es) && forall|i: int|
            0 <= i < es@.len() ==> slot_pairs(ix, field, #[trigger] es@[i]),
        EmitForm::Mapped { key_treatment, .. } => value matches FieldValue::Entries(es) && forall|i: int|
            0 <= i < es@.len() ==> pairs(key_treatment, (#[trigger] es@[i]).0) && slot_pairs(ix, field, es@[i].1),
        EmitForm::Membership => false,
    }
}

/// The elements' outcomes, each at its index below the parent, in order.
pub open spec fn elements_emitted<M>(
    us: Seq<Unit>,
    ix: Index,
    field: FieldMapping,
    parent: TermView,
    es: Seq<Element<M>>,
    depth: int,
    e: Emitted<M>,
) -> Emitted<M>
    decreases es.len(),
{
    if es.len() == 0 {
        e
    } else {
        applied(
            elements_emitted(us, ix, field, parent, es.drop_last(), depth, e),
            slot_outcome(us, ix, field, seq![parent, TermView::Int(es.len() - 1)], es.last(), depth),
        )
    }
}

/// The entries' outcomes, each under its lowered key below the parent — or the key's refusal —
/// in order.
pub open spec fn entries_emitted<M>(
    us: Seq<Unit>,
    ix: Index,
    field: FieldMapping,
    parent: TermView,
    es: Seq<(Datum, Element<M>)>,
    depth: int,
    e: Emitted<M>,
) -> Emitted<M>
    decreases es.len(),
{
    if es.len() == 0 {
        e
    } else {
        let prev = entries_emitted(us, ix, field, parent, es.drop_last(), depth, e);
        let (k, el) = es.last();
        match field.form {
            EmitForm::Mapped { key, key_treatment } => match refusal(key_scalar(key), key_treatment, k, field.proto@) {
                Some(v) => applied(prev, Outcome::Refusal(v)),
                None => applied(prev, slot_outcome(us, ix, field, seq![parent, lowered(key_treatment, k)], el, depth)),
            },
            _ => prev,
        }
    }
}

/// The outcomes of one present field below the parent: its one slot, its elements — the index
/// counted to the widest native integer, past which the sequence is refused once and the rest
/// left — or its entries.
pub open spec fn field_emitted<M>(
    us: Seq<Unit>,
    ix: Index,
    field: FieldMapping,
    parent: TermView,
    value: FieldValue<M>,
    depth: int,
    e: Emitted<M>,
) -> Emitted<M> {
    match value {
        FieldValue::Scalar(d) => applied(e, slot_outcome(us, ix, field, seq![parent], Element::Scalar(d), depth)),
        FieldValue::Message(m) => applied(e, slot_outcome(us, ix, field, seq![parent], Element::Message(m), depth)),
        FieldValue::Elements(es) => if es@.len() <= 2147483648 {
            elements_emitted(us, ix, field, parent, es@, depth, e)
        } else {
            applied(
                elements_emitted(us, ix, field, parent, es@.take(2147483648), depth, e),
                Outcome::Refusal((DiagnosticKind::ValueOutOfRange, Some(field.proto@), index_detail())),
            )
        },
        FieldValue::Entries(es) => entries_emitted(us, ix, field, parent, es@, depth, e),
    }
}

/// One argument as a one-term list.
proof fn lemma_terms_one(t: Term)
    ensures
        terms_view(seq![t]) == seq![t.tv()],
{
    assert(seq![t].drop_last() =~= Seq::<Term>::empty());
    assert(terms_view(Seq::<Term>::empty()) =~= Seq::<TermView>::empty());
    assert(terms_view(seq![t]) =~= seq![t.tv()]);
}

/// One more term at the end views as one more view.
proof fn lemma_terms_push(ts: Seq<Term>, t: Term)
    ensures
        terms_view(ts.push(t)) == terms_view(ts).push(t.tv()),
{
    assert(ts.push(t).drop_last() =~= ts);
}

/// Emit a fact, a refusal, or a child onto the output.
proof fn lemma_emitted_push<M>(facts: Seq<Fact>, ds: Seq<Diagnostic>, ws: Seq<Work<M>>, f: Fact, d: Diagnostic, w: Work<M>)
    ensures
        emitted(facts.push(f), ds, ws) == applied(emitted(facts, ds, ws), Outcome::<M>::Fact(fact_view(f).0, fact_view(f).1)),
        emitted(facts, ds.push(d), ws) == applied(emitted(facts, ds, ws), Outcome::<M>::Refusal(fault_view(d))),
        emitted(facts, ds, ws.push(w)) == applied(
            emitted(facts, ds, ws),
            Outcome::Child(w.parent.tv(), w.message, w.sort@, w.depth as int),
        ),
{
    assert(facts.push(f).map_values(|f: Fact| fact_view(f)) =~= facts.map_values(|f: Fact| fact_view(f)).push(fact_view(f)));
    assert(fault_views(ds.push(d)) =~= fault_views(ds).push(fault_view(d)));
    assert(ws.push(w).map_values(|w: Work<M>| work_view(w)) =~= ws.map_values(|w: Work<M>| work_view(w)).push(work_view(w)));
}

/// The refusal of an enum number the enum does not declare.
fn unknown_enum_value(number: i32, enum_path: &str, at: &str) -> (d: Diagnostic)
    ensures
        fault_view(d) == (DiagnosticKind::UnknownEnumValue, Some(at@), unknown_enum_detail(number as int, enum_path@)),
{
    let mut detail = owned("the value ");
    push_signed_decimal(&mut detail, number as i64);
    detail.append(" matches no declared value of the enum `");
    detail.append(enum_path);
    detail.append(
        "`; an unknown number of an open enum is a translation error by default — annotate the field `(keryx.unknown) = PRESERVE` to carry it as `unknown(",
    );
    push_signed_decimal(&mut detail, number as i64);
    detail.append(")`");
    proof {
        assert(detail@ =~= unknown_enum_detail(number as int, enum_path@));
    }
    Diagnostic::composed(DiagnosticKind::UnknownEnumValue, Locus::at(at), detail)
}

/// The first of an enum's values carrying `n`, by position.
fn find_value(values: &[EnumValueMapping], n: i32) -> (r: Option<usize>)
    ensures
        r matches Some(k) ==> k < values@.len(),
        match (r, value_at(values@, n)) {
            (Some(k), Some(j)) => k as int == j,
            (None, None) => true,
            _ => false,
        },
{
    let mut i: usize = 0;
    while i < values.len()
        invariant
            i <= values@.len(),
            value_at(values@.take(i as int), n) is None,
        decreases values@.len() - i,
    {
        proof {
            assert(values@.take(i + 1).drop_last() =~= values@.take(i as int));
        }
        if values[i].number == n {
            proof {
                lemma_value_at_prefix(values@, i as int + 1, n);
            }
            return Some(i);
        }
        i = i + 1;
    }
    proof {
        assert(values@.take(i as int) =~= values@);
    }
    None
}

/// The first value carrying `n` in a prefix that holds one is the first in the whole.
proof fn lemma_value_at_prefix(vs: Seq<EnumValueMapping>, k: int, n: i32)
    requires
        0 <= k <= vs.len(),
        value_at(vs.take(k), n) is Some,
    ensures
        value_at(vs, n) == value_at(vs.take(k), n),
    decreases vs.len() - k,
{
    if k < vs.len() {
        assert(vs.take(k + 1).drop_last() =~= vs.take(k));
        lemma_value_at_prefix(vs, k + 1, n);
    } else {
        assert(vs.take(k) =~= vs);
    }
}

/// Lower one occupied slot, whose place is the field's predicate over `arguments`: a scalar or
/// enum value becomes the fact `f(arguments…, V)`, or its refusal at the field's path; a message
/// becomes the occupant term `f(arguments…)`, a child to walk one level deeper.
pub fn slot<M>(
    mapping: &Mapping,
    index: &Index,
    field: &FieldMapping,
    arguments: Vec<Term>,
    element: Element<M>,
    depth: usize,
    facts: &mut Vec<Fact>,
    refusals: &mut Vec<Diagnostic>,
    children: &mut Vec<Work<M>>,
)
    requires
        index.indexes(mapping.units@),
        slot_pairs(*index, *field, element),
        depth < usize::MAX,
    ensures
        emitted(final(facts)@, final(refusals)@, final(children)@) == applied(
            emitted(old(facts)@, old(refusals)@, old(children)@),
            slot_outcome(mapping.units@, *index, *field, terms_view(arguments@), element, depth as int),
        ),
{
    let ghost e0 = emitted(old(facts)@, old(refusals)@, old(children)@);
    let ghost ts = arguments@;
    let at = field.proto.as_str();
    match element {
        Element::Scalar(datum) => {
            match &field.value {
                ValueMapping::Scalar { kind, treatment } => {
                    match lower(*kind, *treatment, &datum, at) {
                        Ok(t) => {
                            let ghost tv = t.tv();
                            let mut args = arguments;
                            args.push(t);
                            let f = Fact { predicate: owned(field.predicate.as_str()), arguments: args };
                            proof {
                                lemma_terms_push(ts, t);
                                lemma_emitted_push(facts@, refusals@, children@, f, arbitrary(), arbitrary());
                            }
                            facts.push(f);
                        },
                        Err(d) => {
                            proof {
                                lemma_emitted_push(facts@, refusals@, children@, arbitrary(), d, arbitrary());
                            }
                            refusals.push(d);
                        },
                    }
                },
                ValueMapping::Enum { referent, .. } => {
                    let n = match datum {
                        Datum::Enum(n) => n,
                        _ => 0,
                    };
                    let r = index.enum_of(referent.as_str()).unwrap();
                    let e = r.in_mapping(mapping);
                    match find_value(e.values.as_slice(), n) {
                        Some(k) => {
                            let none: Vec<Term> = Vec::new();
                            proof {
                                assert(terms_view(none@) =~= Seq::<TermView>::empty());
                            }
                            let t = Term::Apply(owned(e.values[k].constant.as_str()), none);
                            proof {
                                assert(t.tv() == constant_view(e.values@[k as int].constant@));
                            }
                            let mut args = arguments;
                            args.push(t);
                            let f = Fact { predicate: owned(field.predicate.as_str()), arguments: args };
                            proof {
                                lemma_terms_push(ts, t);
                                lemma_emitted_push(facts@, refusals@, children@, f, arbitrary(), arbitrary());
                            }
                            facts.push(f);
                        },
                        None => {
                            let d = unknown_enum_value(n, e.proto.as_str(), at);
                            proof {
                                lemma_emitted_push(facts@, refusals@, children@, arbitrary(), d, arbitrary());
                            }
                            refusals.push(d);
                        },
                    }
                },
                // A scalar for a message field: the precondition leaves this arm unreached.
                ValueMapping::Message(_) => {},
            }
        },
        Element::Message(child) => {
            match &field.value {
                ValueMapping::Message(p) => {
                    let sort = index.sort_of(p.as_str()).unwrap();
                    let w = Work {
                        parent: Term::Apply(owned(field.predicate.as_str()), arguments),
                        message: child,
                        sort,
                        depth: depth + 1,
                    };
                    proof {
                        lemma_emitted_push(facts@, refusals@, children@, arbitrary(), arbitrary(), w);
                    }
                    children.push(w);
                },
                _ => {},
            }
        },
    }
}


/// One slot's argument list, `[parent]` or `[parent, place]`, as its views.
fn arguments_of(parent: &Term, place: Option<Term>) -> (r: Vec<Term>)
    ensures
        terms_view(r@) == match place {
            Some(t) => seq![parent.tv(), t.tv()],
            None => seq![parent.tv()],
        },
{
    let first = copy_term(parent);
    let mut args: Vec<Term> = Vec::new();
    args.push(first);
    proof {
        lemma_terms_one(first);
        assert(args@ =~= seq![first]);
    }
    match place {
        Some(t) => {
            let ghost before = args@;
            args.push(t);
            proof {
                lemma_terms_push(before, t);
            }
        },
        None => {},
    }
    args
}

/// Lower one present field below the occupant `parent`, under its form: a singular value's one
/// slot; each element of a sequence at its index, the index counted to the widest native integer
/// and the sequence refused once past it; each entry of a map under its lowered key, a key's
/// refusal standing for its entry.
pub fn field<M>(
    mapping: &Mapping,
    index: &Index,
    field: &FieldMapping,
    parent: &Term,
    value: FieldValue<M>,
    depth: usize,
    facts: &mut Vec<Fact>,
    refusals: &mut Vec<Diagnostic>,
    children: &mut Vec<Work<M>>,
)
    requires
        index.indexes(mapping.units@),
        field_pairs(*index, *field, value),
        depth < usize::MAX,
    ensures
        emitted(final(facts)@, final(refusals)@, final(children)@) == field_emitted(
            mapping.units@,
            *index,
            *field,
            parent.tv(),
            value,
            depth as int,
            emitted(old(facts)@, old(refusals)@, old(children)@),
        ),
{
    let ghost e0 = emitted(old(facts)@, old(refusals)@, old(children)@);
    let ghost us = mapping.units@;
    let ghost pv = parent.tv();
    match value {
        FieldValue::Scalar(d) => {
            let args = arguments_of(parent, None);
            slot(mapping, index, field, args, Element::Scalar(d), depth, facts, refusals, children);
        },
        FieldValue::Message(m) => {
            let args = arguments_of(parent, None);
            slot(mapping, index, field, args, Element::Message(m), depth, facts, refusals, children);
        },
        FieldValue::Elements(es) => {
            let ghost all = es@;
            let total = es.len();
            let mut rest = es;
            let mut i: usize = 0;
            proof {
                assert(all.take(0) =~= Seq::<Element<M>>::empty());
                assert(rest@ =~= all.skip(0));
            }
            while rest.len() > 0 && i < 2147483648
                invariant
                    index.indexes(us),
                    us == mapping.units@,
                    depth < usize::MAX,
                    field.form is Sequence,
                    pv == parent.tv(),
                    forall|k: int| 0 <= k < all.len() ==> slot_pairs(*index, *field, #[trigger] all[k]),
                    all.len() == total,
                    i + rest@.len() == total,
                    i <= 2147483648,
                    rest@ == all.skip(i as int),
                    emitted(facts@, refusals@, children@) == elements_emitted(us, *index, *field, pv, all.take(i as int), depth as int, e0),
                decreases rest@.len(),
            {
                let el = rest.remove(0);
                proof {
                    assert(all[i as int] == el);
                    assert(rest@ =~= all.skip(i + 1));
                    assert(all.take(i + 1).drop_last() =~= all.take(i as int));
                    assert(all.take(i + 1).last() == el);
                    assert(elements_emitted(us, *index, *field, pv, all.take(i + 1), depth as int, e0) == applied(
                        elements_emitted(us, *index, *field, pv, all.take(i as int), depth as int, e0),
                        slot_outcome(us, *index, *field, seq![pv, TermView::Int(i as int)], el, depth as int),
                    ));
                }
                let args = arguments_of(parent, Some(Term::Int(i as i32)));
                slot(mapping, index, field, args, el, depth, facts, refusals, children);
                i = i + 1;
            }
            if rest.len() > 0 {
                let detail = owned(
                    "the sequence carries more than 2147483647 elements, so an element's index exceeds the widest integer a native clingo term carries",
                );
                let d = Diagnostic::composed(DiagnosticKind::ValueOutOfRange, Locus::at(field.proto.as_str()), detail);
                proof {
                    lemma_emitted_push(facts@, refusals@, children@, arbitrary(), d, arbitrary());
                }
                refusals.push(d);
            } else {
                proof {
                    assert(all.take(i as int) =~= all);
                }
            }
        },
        FieldValue::Entries(es) => {
            let ghost all = es@;
            let total = es.len();
            let mut rest = es;
            let mut i: usize = 0;
            proof {
                assert(all.take(0) =~= Seq::<(Datum, Element<M>)>::empty());
                assert(rest@ =~= all.skip(0));
            }
            let at = field.proto.as_str();
            match &field.form {
                EmitForm::Mapped { key, key_treatment } => {
                    let key_kind = Scalar::from_key(*key);
                    while rest.len() > 0
                        invariant
                            index.indexes(us),
                            us == mapping.units@,
                            depth < usize::MAX,
                            field.form == (EmitForm::Mapped { key: *key, key_treatment: *key_treatment }),
                            key_kind == key_scalar(*key),
                            pv == parent.tv(),
                            at@ == field.proto@,
                            forall|k: int|
                                0 <= k < all.len() ==> pairs(*key_treatment, (#[trigger] all[k]).0) && slot_pairs(
                                    *index,
                                    *field,
                                    all[k].1,
                                ),
                            all.len() == total,
                            i + rest@.len() == total,
                            rest@ == all.skip(i as int),
                            emitted(facts@, refusals@, children@) == entries_emitted(
                                us,
                                *index,
                                *field,
                                pv,
                                all.take(i as int),
                                depth as int,
                                e0,
                            ),
                        decreases rest@.len(),
                    {
                        let (k, el) = rest.remove(0);
                        proof {
                            assert(all[i as int] == (k, el));
                            assert(rest@ =~= all.skip(i + 1));
                            assert(all.take(i + 1).drop_last() =~= all.take(i as int));
                            assert(all.take(i + 1).last() == (k, el));
                            let prev = entries_emitted(us, *index, *field, pv, all.take(i as int), depth as int, e0);
                            assert(entries_emitted(us, *index, *field, pv, all.take(i + 1), depth as int, e0) == match refusal(
                                key_scalar(*key),
                                *key_treatment,
                                k,
                                field.proto@,
                            ) {
                                Some(v) => applied(prev, Outcome::Refusal(v)),
                                None => applied(prev, slot_outcome(us, *index, *field, seq![pv, lowered(*key_treatment, k)], el, depth as int)),
                            });
                        }
                        match lower(key_kind, *key_treatment, &k, at) {
                            Ok(key_term) => {
                                let args = arguments_of(parent, Some(key_term));
                                slot(mapping, index, field, args, el, depth, facts, refusals, children);
                            },
                            Err(d) => {
                                proof {
                                    lemma_emitted_push(facts@, refusals@, children@, arbitrary(), d, arbitrary());
                                }
                                refusals.push(d);
                            },
                        }
                        i = i + 1;
                    }
                    proof {
                        assert(all.take(i as int) =~= all);
                    }
                },
                _ => {},
            }
        },
    }
}

} // verus!
