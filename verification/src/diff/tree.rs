//! The comparison as a matched tree: packages, then sorts and enums, then fields and values,
//! each node holding its per-side references — unchanged nodes included — and classifying
//! itself.
use vstd::prelude::*;

use crate::diff::cells::{ascending, cell_of, lemma_cells_differ, matched_numbers, numbers_eq};
use crate::diff::index::{merge_num, num_find, num_has, num_sorted, pair_of, Pair};
use crate::diff::kinds::ChangeKind;
use crate::diff::model::{
    enum_named, field_numbered, in_cell, last_enum, last_field, last_sort, last_value,
    lemma_last_enum, lemma_last_field, lemma_last_sort, lemma_last_value, membership_changed,
    named_enum, named_sort, opt_enum, opt_field, opt_sort, opt_value, pair_unref, same_form,
    same_value, sort_named, unref, value_numbered, comparable, first_unit, has_unit, keyed_unit,
    lemma_first_unit, side_unit,
};
use crate::diff::index::{merge_text, text_find, text_has, text_sorted};
use crate::diff::names::{normalize_package, relative_name, relative_view};
use crate::diagnostics::{Diagnostic, DiagnosticKind, Diagnostics};
use crate::descriptor::model::Package;
use crate::text::seq_lt;
use crate::diff::render::bridge_view;
use crate::diff::resolve::{indexes, vocabulary, Vocabulary};
use crate::diagnostics::fault_view;
use crate::diff::side::{any_common, no_comparable_detail, no_comparable_schemas,
    side_faults, Side, enum_index, field_index, indexes_fields, indexes_values, sort_index, value_index};
use crate::policy::{has_view, EmitForm, EnumMapping, EnumValueMapping, FieldMapping, Mapping,
    SortMapping, Totality, Unit, ValueMapping};
use crate::text::str_eq;

verus! {

broadcast use vstd::string::group_string_axioms;

// ---------------------------------------------------------------------------------------------
// Values.
// ---------------------------------------------------------------------------------------------

/// One enum value matched across the sides by its number.
#[derive(Clone, Debug, PartialEq, Eq)]
pub struct ValueDiff<'a> {
    number: i32,
    sides: Pair<&'a EnumValueMapping>,
}

/// A value's kind: removed or added when one-sided; renamed when the constant differs while
/// the number holds; else unchanged.
pub open spec fn value_kind(sides: Pair<EnumValueMapping>) -> ChangeKind {
    match sides {
        Pair::Old(_) => ChangeKind::ValueRemoved,
        Pair::New(_) => ChangeKind::ValueAdded,
        Pair::Both(o, n) => if o.constant@ == n.constant@ {
            ChangeKind::Unchanged
        } else {
            ChangeKind::ValueRenamed
        },
    }
}

impl<'a> ValueDiff<'a> {
    /// The number the sides matched on.
    pub closed spec fn spec_number(&self) -> i32 {
        self.number
    }

    /// The sides' values.
    pub closed spec fn spec_sides(&self) -> Pair<EnumValueMapping> {
        pair_unref(self.sides)
    }

    /// The value's number — the identity the two sides matched on.
    pub fn number(&self) -> (r: i32)
        ensures
            r == self.spec_number(),
    {
        self.number
    }

    /// The old side's value, when the value is on that side.
    pub fn old_value(&self) -> (r: Option<&'a EnumValueMapping>)
        ensures
            unref(r) == self.spec_sides().spec_old(),
    {
        match self.sides {
            Pair::Old(o) => Some(o),
            Pair::Both(o, _) => Some(o),
            Pair::New(_) => None,
        }
    }

    /// The new side's value, when the value is on that side.
    pub fn new_value(&self) -> (r: Option<&'a EnumValueMapping>)
        ensures
            unref(r) == self.spec_sides().spec_new(),
    {
        match self.sides {
            Pair::New(n) => Some(n),
            Pair::Both(_, n) => Some(n),
            Pair::Old(_) => None,
        }
    }

    /// The value's kind (see [`value_kind`]): protobuf lets a value's name change, and the
    /// constant is what a model names.
    pub fn kind(&self) -> (r: ChangeKind)
        ensures
            r == value_kind(self.spec_sides()),
    {
        match self.sides {
            Pair::Old(_) => ChangeKind::ValueRemoved,
            Pair::New(_) => ChangeKind::ValueAdded,
            Pair::Both(o, n) => if str_eq(o.constant.as_str(), n.constant.as_str()) {
                ChangeKind::Unchanged
            } else {
                ChangeKind::ValueRenamed
            },
        }
    }
}

/// An enum's values as a value index of it says them.
proof fn lemma_value_lookup(idx: Seq<(i32, usize)>, e: EnumMapping, n: i32)
    requires
        indexes_values(idx, e),
    ensures
        num_find(idx, n) matches Some(p) ==> p < e.values@.len() && value_numbered(e, n) == Some(
            e.values@[p as int],
        ),
        num_find(idx, n) is None ==> value_numbered(e, n) is None,
{
    if let Some(p) = num_find(idx, n) {
        lemma_last_value(e, p as int, n);
    } else {
        if exists|i: int| #[trigger] last_value(e, i, n) {
            let i = choose|i: int| #[trigger] last_value(e, i, n);
            assert(e.values@[i].number == n);
        }
    }
}

/// A sort's fields as a field index of it says them.
proof fn lemma_field_lookup(idx: Seq<(i32, usize)>, s: SortMapping, n: i32)
    requires
        indexes_fields(idx, s),
    ensures
        num_find(idx, n) matches Some(p) ==> p < s.fields@.len() && field_numbered(s, n) == Some(
            s.fields@[p as int],
        ),
        num_find(idx, n) is None ==> field_numbered(s, n) is None,
{
    if let Some(p) = num_find(idx, n) {
        lemma_last_field(s, p as int, n);
    } else {
        if exists|i: int| #[trigger] last_field(s, i, n) {
            let i = choose|i: int| #[trigger] last_field(s, i, n);
            assert(s.fields@[i].number == n);
        }
    }
}

/// The values of an enum that may be absent, indexed by number.
fn values_of(e: Option<&EnumMapping>) -> (r: Vec<(i32, usize)>)
    ensures
        num_sorted(r@),
        forall|n: i32| #[trigger] num_find(r@, n) matches Some(p) ==> e is Some && p < e.unwrap().values@.len()
            && opt_value(unref(e), n) == Some(e.unwrap().values@[p as int]),
        forall|n: i32| #[trigger] num_find(r@, n) is None ==> opt_value(unref(e), n) is None,
{
    match e {
        Some(e) => {
            let idx = value_index(e);
            proof {
                assert forall|n: i32| #[trigger] num_find(idx@, n) is Some || num_find(idx@, n) is None implies
                    (num_find(idx@, n) matches Some(p) ==> p < e.values@.len() && value_numbered(*e, n) == Some(
                    e.values@[p as int])) && (num_find(idx@, n) is None ==> value_numbered(*e, n) is None) by {
                    lemma_value_lookup(idx@, *e, n);
                }
            }
            idx
        },
        None => {
            let idx: Vec<(i32, usize)> = Vec::new();
            proof {
                assert forall|n: i32| #[trigger] num_find(idx@, n) is None by {
                    assert(!num_has(idx@, n));
                }
            }
            idx
        },
    }
}

/// The fields of a sort that may be absent, indexed by number.
fn fields_of(s: Option<&SortMapping>) -> (r: Vec<(i32, usize)>)
    ensures
        num_sorted(r@),
        forall|n: i32| #[trigger] num_find(r@, n) matches Some(p) ==> s is Some && p < s.unwrap().fields@.len()
            && opt_field(unref(s), n) == Some(s.unwrap().fields@[p as int]),
        forall|n: i32| #[trigger] num_find(r@, n) is None ==> opt_field(unref(s), n) is None,
{
    match s {
        Some(s) => {
            let idx = field_index(s);
            proof {
                assert forall|n: i32| #[trigger] num_find(idx@, n) is Some || num_find(idx@, n) is None implies
                    (num_find(idx@, n) matches Some(p) ==> p < s.fields@.len() && field_numbered(*s, n) == Some(
                    s.fields@[p as int])) && (num_find(idx@, n) is None ==> field_numbered(*s, n) is None) by {
                    lemma_field_lookup(idx@, *s, n);
                }
            }
            idx
        },
        None => {
            let idx: Vec<(i32, usize)> = Vec::new();
            proof {
                assert forall|n: i32| #[trigger] num_find(idx@, n) is None by {
                    assert(!num_has(idx@, n));
                }
            }
            idx
        },
    }
}

// ---------------------------------------------------------------------------------------------
// Enums.
// ---------------------------------------------------------------------------------------------

/// One enum matched across the sides by its package-relative path, with its values matched by
/// number, in number order.
#[derive(Clone, Debug, PartialEq, Eq)]
pub struct EnumDiff<'a> {
    name: &'a str,
    sides: Pair<&'a EnumMapping>,
    values: Vec<ValueDiff<'a>>,
}

/// An enum's kind — the dominant of its differences: removed or added when one-sided; then an
/// openness flip, then a preservation flip, then a rename (the predicate differs while the path
/// holds); else unchanged.
pub open spec fn enum_kind(sides: Pair<EnumMapping>) -> ChangeKind {
    match sides {
        Pair::Old(_) => ChangeKind::EnumRemoved,
        Pair::New(_) => ChangeKind::EnumAdded,
        Pair::Both(o, n) => if o.openness != n.openness {
            ChangeKind::OpennessChanged
        } else if o.preserve != n.preserve {
            ChangeKind::PreserveChanged
        } else if o.predicate@ == n.predicate@ {
            ChangeKind::Unchanged
        } else {
            ChangeKind::EnumRenamed
        },
    }
}

/// The bridge view of an enum rename, and of nothing else.
pub open spec fn enum_bridge(sides: Pair<EnumMapping>) -> Option<Seq<char>> {
    match sides {
        Pair::Both(o, n) => if enum_kind(sides) == ChangeKind::EnumRenamed {
            Some(bridge_view(o.predicate@, n.predicate@, 1, o.proto@, n.proto@, false))
        } else {
            None
        },
        _ => None,
    }
}

/// Whether an enum diff matches the sides' enums `oe` and `ne`: its sides are theirs, and its
/// values are every number either holds, ascending, each paired with the sides' values.
pub open spec fn enum_models(d: EnumDiff, oe: Option<EnumMapping>, ne: Option<EnumMapping>) -> bool {
    let vs = d.spec_values();
    &&& d.spec_sides() == pair_of(oe, ne)
    &&& forall|i: int, j: int|
        0 <= i < j < vs.len() ==> (#[trigger] vs[i]).spec_number() < (#[trigger] vs[j]).spec_number()
    &&& forall|m: i32|
        (exists|i: int| 0 <= i < vs.len() && (#[trigger] vs[i]).spec_number() == m) <==> (opt_value(
            oe,
            m,
        ) is Some || opt_value(ne, m) is Some)
    &&& forall|i: int|
        0 <= i < vs.len() ==> (#[trigger] vs[i]).spec_sides() == pair_of(
            opt_value(oe, vs[i].spec_number()),
            opt_value(ne, vs[i].spec_number()),
        )
}

impl<'a> EnumDiff<'a> {
    /// The path the sides matched on.
    pub closed spec fn spec_name(&self) -> Seq<char> {
        self.name@
    }

    /// The sides' enums.
    pub closed spec fn spec_sides(&self) -> Pair<EnumMapping> {
        pair_unref(self.sides)
    }

    /// The matched values.
    pub closed spec fn spec_values(&self) -> Seq<ValueDiff<'a>> {
        self.values@
    }

    /// Match the values of an enum present on at least one side.
    pub fn build(name: &'a str, oe: Option<&'a EnumMapping>, ne: Option<&'a EnumMapping>) -> (r:
        EnumDiff<'a>)
        requires
            oe is Some || ne is Some,
        ensures
            r.spec_name() == name@,
            enum_models(r, unref(oe), unref(ne)),
    {
        let old_idx = values_of(oe);
        let new_idx = values_of(ne);
        let pairs = merge_num(&old_idx, &new_idx);
        let mut values: Vec<ValueDiff<'a>> = Vec::new();
        let mut i: usize = 0;
        while i < pairs.len()
            invariant
                i <= pairs@.len(),
                values@.len() == i,
                num_sorted(pairs@),
                forall|k: i32| #[trigger] num_has(pairs@, k) <==> (num_has(old_idx@, k) || num_has(new_idx@, k)),
                forall|e: int|
                    0 <= e < pairs@.len() ==> (#[trigger] pairs@[e]).1 == pair_of(
                        num_find(old_idx@, pairs@[e].0),
                        num_find(new_idx@, pairs@[e].0),
                    ),
                forall|n: i32| #[trigger] num_find(old_idx@, n) matches Some(p) ==> oe is Some && p < oe.unwrap().values@.len()
                    && opt_value(unref(oe), n) == Some(oe.unwrap().values@[p as int]),
                forall|n: i32| #[trigger] num_find(old_idx@, n) is None ==> opt_value(unref(oe), n) is None,
                forall|n: i32| #[trigger] num_find(new_idx@, n) matches Some(p) ==> ne is Some && p < ne.unwrap().values@.len()
                    && opt_value(unref(ne), n) == Some(ne.unwrap().values@[p as int]),
                forall|n: i32| #[trigger] num_find(new_idx@, n) is None ==> opt_value(unref(ne), n) is None,
                forall|e: int| 0 <= e < i ==> (#[trigger] values@[e]).spec_number() == pairs@[e].0,
                forall|e: int|
                    0 <= e < i ==> (#[trigger] values@[e]).spec_sides() == pair_of(
                        opt_value(unref(oe), values@[e].spec_number()),
                        opt_value(unref(ne), values@[e].spec_number()),
                    ),
            decreases pairs@.len() - i,
        {
            let (number, pair) = pairs[i];
            proof {
                assert(num_has(pairs@, number));
            }
            let sides = match pair {
                Pair::Old(p) => Pair::Old(&oe.unwrap().values[p]),
                Pair::New(p) => Pair::New(&ne.unwrap().values[p]),
                Pair::Both(p, q) => Pair::Both(&oe.unwrap().values[p], &ne.unwrap().values[q]),
            };
            values.push(ValueDiff { number, sides });
            i = i + 1;
        }
        let r = EnumDiff { name, sides: match (oe, ne) {
            (Some(o), Some(n)) => Pair::Both(o, n),
            (Some(o), None) => Pair::Old(o),
            (None, Some(n)) => Pair::New(n),
            (None, None) => Pair::Old(oe.unwrap()),
        }, values };
        proof {
            let vs = r.spec_values();
            assert forall|m: i32|
                (exists|i: int| 0 <= i < vs.len() && (#[trigger] vs[i]).spec_number() == m) <==> (opt_value(
                    unref(oe),
                    m,
                ) is Some || opt_value(unref(ne), m) is Some) by {
                if opt_value(unref(oe), m) is Some || opt_value(unref(ne), m) is Some {
                    if opt_value(unref(oe), m) is Some {
                        assert(num_find(old_idx@, m) is Some);
                    } else {
                        assert(num_find(new_idx@, m) is Some);
                    }
                    assert(num_has(old_idx@, m) || num_has(new_idx@, m));
                    assert(num_has(pairs@, m));
                    let e = choose|e: int| 0 <= e < pairs@.len() && (#[trigger] pairs@[e].0) == m;
                    assert(vs[e].spec_number() == m);
                }
                if exists|i: int| 0 <= i < vs.len() && (#[trigger] vs[i]).spec_number() == m {
                    let e = choose|e: int| 0 <= e < vs.len() && (#[trigger] vs[e]).spec_number() == m;
                    assert(num_has(pairs@, pairs@[e].0));
                }
            }
        }
        r
    }

    /// The enum's path relative to its package — the identity the two sides matched on.
    pub fn name(&self) -> (r: &'a str)
        ensures
            r@ == self.spec_name(),
    {
        self.name
    }

    /// The old side's enum, when the enum is on that side.
    pub fn old_enum(&self) -> (r: Option<&'a EnumMapping>)
        ensures
            unref(r) == self.spec_sides().spec_old(),
    {
        match self.sides {
            Pair::Old(o) => Some(o),
            Pair::Both(o, _) => Some(o),
            Pair::New(_) => None,
        }
    }

    /// The new side's enum, when the enum is on that side.
    pub fn new_enum(&self) -> (r: Option<&'a EnumMapping>)
        ensures
            unref(r) == self.spec_sides().spec_new(),
    {
        match self.sides {
            Pair::New(n) => Some(n),
            Pair::Both(_, n) => Some(n),
            Pair::Old(_) => None,
        }
    }

    /// The matched values, in number order.
    pub fn values(&self) -> (r: &[ValueDiff<'a>])
        ensures
            r@ == self.spec_values(),
    {
        self.values.as_slice()
    }

    /// The enum's own kind (see [`enum_kind`]); a rename beside a flip is reported as the flip.
    pub fn kind(&self) -> (r: ChangeKind)
        ensures
            r == enum_kind(self.spec_sides()),
    {
        match self.sides {
            Pair::Old(_) => ChangeKind::EnumRemoved,
            Pair::New(_) => ChangeKind::EnumAdded,
            Pair::Both(o, n) => if o.openness != n.openness {
                ChangeKind::OpennessChanged
            } else if o.preserve != n.preserve {
                ChangeKind::PreserveChanged
            } else if str_eq(o.predicate.as_str(), n.predicate.as_str()) {
                ChangeKind::Unchanged
            } else {
                ChangeKind::EnumRenamed
            },
        }
    }

    /// The bridge view of an enum rename — the one rule aliasing the old enum predicate to the
    /// new at arity 1 — or `None` for any other kind: an enum renamed beside a flip is the flip,
    /// breaking and unbridged.
    pub fn bridge(&self) -> (r: Option<String>)
        ensures
            r matches Some(b) ==> enum_bridge(self.spec_sides()) == Some(b@),
            r is None <==> enum_bridge(self.spec_sides()) is None,
    {
        match self.sides {
            Pair::Both(o, n) => {
                if self.kind() == ChangeKind::EnumRenamed {
                    Some(
                        crate::diff::render::bridge_rule(
                            &o.predicate,
                            &n.predicate,
                            1,
                            o.proto.as_str(),
                            n.proto.as_str(),
                            false,
                        ),
                    )
                } else {
                    None
                }
            },
            _ => None,
        }
    }
}

// ---------------------------------------------------------------------------------------------
// Fields.
// ---------------------------------------------------------------------------------------------

/// One field matched across the sides by its number, carrying the two dimensions its own two
/// sides cannot decide: its oneof cell on each side among the fields both sides hold, and
/// whether the two values are one value with their referents compared by identity.
#[derive(Clone, Debug, PartialEq, Eq)]
pub struct FieldDiff<'a> {
    number: i32,
    sides: Pair<&'a FieldMapping>,
    old_cell: Vec<i32>,
    new_cell: Vec<i32>,
    same_value: bool,
}

/// Whether every shape dimension of a field holds across the sides — everything but the
/// predicate: arity, form, value, presence, and oneof cell.
pub open spec fn shape_holds(o: FieldMapping, n: FieldMapping, same_value: bool, same_cell: bool) -> bool {
    &&& o.arity == n.arity
    &&& same_form(o.form, n.form)
    &&& same_value
    &&& o.presence == n.presence
    &&& same_cell
}

/// A field's kind — the detection line: removed or added when one-sided; with the shape intact,
/// unchanged when the predicate holds and renamed when it alone differs; any shape difference is
/// a change, renamed or not.
pub open spec fn field_kind(sides: Pair<FieldMapping>, same_value: bool, same_cell: bool) -> ChangeKind {
    match sides {
        Pair::Old(_) => ChangeKind::Removed,
        Pair::New(_) => ChangeKind::Added,
        Pair::Both(o, n) => if shape_holds(o, n, same_value, same_cell) {
            if o.predicate@ == n.predicate@ {
                ChangeKind::Unchanged
            } else {
                ChangeKind::Renamed
            }
        } else {
            ChangeKind::Changed
        },
    }
}

/// Whether a field pair carries an aspect: both sides present with the shape broken.
pub open spec fn has_aspect(sides: Pair<FieldMapping>, same_value: bool, same_cell: bool) -> bool {
    match sides {
        Pair::Both(o, n) => !shape_holds(o, n, same_value, same_cell),
        _ => false,
    }
}

/// The bridge view of a field rename — aliasing the old predicate to the new at the field's
/// arity, a message field's relational view said so — and of nothing else.
pub open spec fn field_bridge(sides: Pair<FieldMapping>, same_value: bool, same_cell: bool) -> Option<
    Seq<char>,
> {
    match sides {
        Pair::Both(o, n) => if field_kind(sides, same_value, same_cell) == ChangeKind::Renamed {
            Some(
                bridge_view(
                    o.predicate@,
                    n.predicate@,
                    o.arity as nat,
                    o.proto@,
                    n.proto@,
                    has_view(o),
                ),
            )
        } else {
            None
        },
        _ => None,
    }
}

/// Whether a field pair's bridge can be spelled: a bridge is drawn for a rename alone, and it has
/// at most three positions, keryx emitting no predicate wider than a ternary family.
pub open spec fn bridge_spellable(sides: Pair<FieldMapping>, same_value: bool, same_cell: bool) -> bool {
    match sides {
        Pair::Both(o, _) => field_kind(sides, same_value, same_cell) == ChangeKind::Renamed ==> o.arity <= 3,
        _ => true,
    }
}

/// Whether a field diff matches the field numbered like it on the sides' sorts `os` and `ns`:
/// its sides are theirs; its value flag compares the two values (referents by identity); its
/// cells are the arms of its oneof on each side among the numbers both sides hold, ascending.
pub open spec fn field_models(
    d: FieldDiff,
    olds: Seq<crate::policy::Unit>,
    news: Seq<crate::policy::Unit>,
    os: Option<SortMapping>,
    ns: Option<SortMapping>,
) -> bool {
    let fo = opt_field(os, d.spec_number());
    let fnew = opt_field(ns, d.spec_number());
    &&& d.spec_sides() == pair_of(fo, fnew)
    &&& d.spec_same_value() == match d.spec_sides() {
        Pair::Both(a, b) => same_value(olds, news, a.value, b.value),
        _ => true,
    }
    &&& ascending(d.spec_old_cell())
    &&& ascending(d.spec_new_cell())
    &&& forall|m: i32| d.spec_old_cell().contains(m) <==> in_cell(os, fo, os, ns, m)
    &&& forall|m: i32| d.spec_new_cell().contains(m) <==> in_cell(ns, fnew, os, ns, m)
    &&& (d.spec_old_cell() != d.spec_new_cell()) == membership_changed(os, ns, fo, fnew)
}

/// Whether two forms are one form for the detection line (see [`same_form`]).
fn forms_agree(a: &EmitForm, b: &EmitForm) -> (r: bool)
    ensures
        r == same_form(*a, *b),
{
    match (a, b) {
        (EmitForm::OneofArm { .. }, EmitForm::OneofArm { .. }) => true,
        (EmitForm::Function, EmitForm::Function) => true,
        (EmitForm::Membership, EmitForm::Membership) => true,
        (EmitForm::Sequence, EmitForm::Sequence) => true,
        (EmitForm::Mapped { key: k1, key_treatment: t1 }, EmitForm::Mapped {
            key: k2,
            key_treatment: t2,
        }) => *k1 == *k2 && *t1 == *t2,
        _ => false,
    }
}

impl<'a> FieldDiff<'a> {
    /// The number the sides matched on.
    pub closed spec fn spec_number(&self) -> i32 {
        self.number
    }

    /// The sides' fields.
    pub closed spec fn spec_sides(&self) -> Pair<FieldMapping> {
        pair_unref(self.sides)
    }

    /// The old side's oneof cell.
    pub closed spec fn spec_old_cell(&self) -> Seq<i32> {
        self.old_cell@
    }

    /// The new side's oneof cell.
    pub closed spec fn spec_new_cell(&self) -> Seq<i32> {
        self.new_cell@
    }

    /// Whether the two values are one value.
    pub closed spec fn spec_same_value(&self) -> bool {
        self.same_value
    }

    /// The field's kind, as mathematics.
    pub open spec fn spec_kind(&self) -> ChangeKind {
        field_kind(self.spec_sides(), self.spec_same_value(), self.spec_old_cell() == self.spec_new_cell())
    }

    /// Whether the field's bridge can be spelled (see [`bridge_spellable`]).
    pub open spec fn spec_spellable(&self) -> bool {
        bridge_spellable(self.spec_sides(), self.spec_same_value(), self.spec_old_cell() == self.spec_new_cell())
    }

    /// The field number — the identity the two sides matched on.
    pub fn number(&self) -> (r: i32)
        ensures
            r == self.spec_number(),
    {
        self.number
    }

    /// The old side's field, when the field is on that side.
    pub fn old_field(&self) -> (r: Option<&'a FieldMapping>)
        ensures
            unref(r) == self.spec_sides().spec_old(),
    {
        match self.sides {
            Pair::Old(o) => Some(o),
            Pair::Both(o, _) => Some(o),
            Pair::New(_) => None,
        }
    }

    /// The new side's field, when the field is on that side.
    pub fn new_field(&self) -> (r: Option<&'a FieldMapping>)
        ensures
            unref(r) == self.spec_sides().spec_new(),
    {
        match self.sides {
            Pair::New(n) => Some(n),
            Pair::Both(_, n) => Some(n),
            Pair::Old(_) => None,
        }
    }

    /// Whether the field's shape holds across its two sides.
    fn shape_holds(&self, o: &FieldMapping, n: &FieldMapping) -> (r: bool)
        requires
            self.sides == Pair::Both(o, n),
        ensures
            r == shape_holds(*o, *n, self.spec_same_value(), self.spec_old_cell() == self.spec_new_cell()),
    {
        o.arity == n.arity && forms_agree(&o.form, &n.form) && self.same_value && o.presence
            == n.presence && numbers_eq(&self.old_cell, &self.new_cell)
    }

    /// The field's kind (see [`field_kind`]): a value's message or enum referent is compared by
    /// identity, not by predicate, and a oneof's label is not shape — its cell is.
    pub fn kind(&self) -> (r: ChangeKind)
        ensures
            r == self.spec_kind(),
    {
        match self.sides {
            Pair::Old(_) => ChangeKind::Removed,
            Pair::New(_) => ChangeKind::Added,
            Pair::Both(o, n) => if self.shape_holds(o, n) {
                if str_eq(o.predicate.as_str(), n.predicate.as_str()) {
                    ChangeKind::Unchanged
                } else {
                    ChangeKind::Renamed
                }
            } else {
                ChangeKind::Changed
            },
        }
    }

    /// The dimensions a changed field differs on, per side; `None` for every other kind — a
    /// pure rename's two names are on its two sides.
    pub fn aspect(&self) -> (r: Option<ChangeAspect<'a>>)
        ensures
            r is Some <==> has_aspect(
                self.spec_sides(),
                self.spec_same_value(),
                self.spec_old_cell() == self.spec_new_cell(),
            ),
            r matches Some(a) ==> (self.spec_sides() matches Pair::Both(o, n) && a.describes(
                o,
                n,
                self.spec_same_value(),
                self.spec_old_cell(),
                self.spec_new_cell(),
            )),
    {
        match self.sides {
            Pair::Both(o, n) => {
                if self.shape_holds(o, n) {
                    None
                } else {
                    let same_predicate = str_eq(o.predicate.as_str(), n.predicate.as_str());
                    let same_cell = numbers_eq(&self.old_cell, &self.new_cell);
                    Some(
                        ChangeAspect {
                            predicate: if same_predicate {
                                None
                            } else {
                                Some((&o.predicate, &n.predicate))
                            },
                            arity: if o.arity == n.arity {
                                None
                            } else {
                                Some((o.arity, n.arity))
                            },
                            form: if forms_agree(&o.form, &n.form) {
                                None
                            } else {
                                Some((&o.form, &n.form))
                            },
                            value: if self.same_value {
                                None
                            } else {
                                Some((&o.value, &n.value))
                            },
                            presence: if o.presence == n.presence {
                                None
                            } else {
                                Some((o.presence, n.presence))
                            },
                            membership: if same_cell {
                                None
                            } else {
                                Some((self.old_cell.clone(), self.new_cell.clone()))
                            },
                        },
                    )
                }
            },
            _ => None,
        }
    }

    /// The bridge view of a field rename (see [`field_bridge`]) — the one rule aliasing the old
    /// predicate to the new at the field's arity, through which a model written against the old
    /// vocabulary reads the new facts — or `None` for any other kind, a rename that also changed
    /// shape included. Inbound-facing only: a model that emits old atoms is not shimmed.
    pub fn bridge(&self) -> (r: Option<String>)
        requires
            self.spec_spellable(),
        ensures
            r matches Some(b) ==> field_bridge(
                self.spec_sides(),
                self.spec_same_value(),
                self.spec_old_cell() == self.spec_new_cell(),
            ) == Some(b@),
            r is None <==> field_bridge(
                self.spec_sides(),
                self.spec_same_value(),
                self.spec_old_cell() == self.spec_new_cell(),
            ) is None,
    {
        match self.sides {
            Pair::Both(o, n) => {
                if self.kind() == ChangeKind::Renamed {
                    Some(
                        crate::diff::render::bridge_rule(
                            &o.predicate,
                            &n.predicate,
                            o.arity,
                            o.proto.as_str(),
                            n.proto.as_str(),
                            o.view().is_some(),
                        ),
                    )
                } else {
                    None
                }
            },
            _ => None,
        }
    }
}

/// The dimensions a changed field differs on — each its (old, new) pair when it differs and
/// `None` when it holds: the predicate, arity, form, value, presence, and oneof cell.
#[derive(Clone, Debug, PartialEq, Eq)]
pub struct ChangeAspect<'a> {
    predicate: Option<(&'a String, &'a String)>,
    arity: Option<(u32, u32)>,
    form: Option<(&'a EmitForm, &'a EmitForm)>,
    value: Option<(&'a ValueMapping, &'a ValueMapping)>,
    presence: Option<(Totality, Totality)>,
    membership: Option<(Vec<i32>, Vec<i32>)>,
}

/// The pair `(a, b)` when it differs, else `None`.
pub open spec fn when_differs<T>(a: T, b: T, differs: bool) -> Option<(T, T)> {
    if differs {
        Some((a, b))
    } else {
        None
    }
}

impl<'a> ChangeAspect<'a> {
    /// The differing predicates.
    pub closed spec fn spec_predicate(&self) -> Option<(Seq<char>, Seq<char>)> {
        match self.predicate {
            Some((a, b)) => Some((a@, b@)),
            None => None,
        }
    }

    /// The differing arities.
    pub closed spec fn spec_arity(&self) -> Option<(u32, u32)> {
        self.arity
    }

    /// The differing forms.
    pub closed spec fn spec_form(&self) -> Option<(EmitForm, EmitForm)> {
        match self.form {
            Some((a, b)) => Some((*a, *b)),
            None => None,
        }
    }

    /// The differing values.
    pub closed spec fn spec_value(&self) -> Option<(ValueMapping, ValueMapping)> {
        match self.value {
            Some((a, b)) => Some((*a, *b)),
            None => None,
        }
    }

    /// The differing totalities.
    pub closed spec fn spec_presence(&self) -> Option<(Totality, Totality)> {
        self.presence
    }

    /// The differing oneof cells.
    pub closed spec fn spec_membership(&self) -> Option<(Seq<i32>, Seq<i32>)> {
        match self.membership {
            Some((a, b)) => Some((a@, b@)),
            None => None,
        }
    }

    /// Whether the aspect lists exactly the dimensions on which fields `o` and `n` differ.
    pub open spec fn describes(
        self,
        o: FieldMapping,
        n: FieldMapping,
        same_value: bool,
        old_cell: Seq<i32>,
        new_cell: Seq<i32>,
    ) -> bool {
        &&& self.spec_predicate() == when_differs(o.predicate@, n.predicate@, o.predicate@ != n.predicate@)
        &&& self.spec_arity() == when_differs(o.arity, n.arity, o.arity != n.arity)
        &&& self.spec_form() == when_differs(o.form, n.form, !same_form(o.form, n.form))
        &&& self.spec_value() == when_differs(o.value, n.value, !same_value)
        &&& self.spec_presence() == when_differs(o.presence, n.presence, o.presence != n.presence)
        &&& self.spec_membership() == when_differs(old_cell, new_cell, old_cell != new_cell)
    }

    /// The (old, new) predicates, when the field was renamed as well as changed.
    pub fn predicate(&self) -> (r: Option<(&'a String, &'a String)>)
        ensures
            r matches Some(p) ==> self.spec_predicate() == Some((p.0@, p.1@)),
            r is None <==> self.spec_predicate() is None,
    {
        self.predicate
    }

    /// The (old, new) arities, when they differ.
    pub fn arity(&self) -> (r: Option<(u32, u32)>)
        ensures
            r == self.spec_arity(),
    {
        self.arity
    }

    /// The (old, new) forms, when they differ — two oneof arms never do, whatever their oneofs
    /// are named.
    pub fn form(&self) -> (r: Option<(&'a EmitForm, &'a EmitForm)>)
        ensures
            r matches Some(p) ==> self.spec_form() == Some((*p.0, *p.1)),
            r is None <==> self.spec_form() is None,
    {
        self.form
    }

    /// The (old, new) value mappings, when they differ — a message or enum referent by its
    /// identity, or a scalar's kind or treatment.
    pub fn value(&self) -> (r: Option<(&'a ValueMapping, &'a ValueMapping)>)
        ensures
            r matches Some(p) ==> self.spec_value() == Some((*p.0, *p.1)),
            r is None <==> self.spec_value() is None,
    {
        self.value
    }

    /// The (old, new) totalities, when they differ.
    pub fn presence(&self) -> (r: Option<(Totality, Totality)>)
        ensures
            r == self.spec_presence(),
    {
        self.presence
    }

    /// The (old, new) oneof cells, ascending, when the membership changed — each the member
    /// numbers of the oneof the field is an arm of on that side, among the fields both sides
    /// hold; empty when it is no arm there.
    pub fn membership(&self) -> (r: Option<(&[i32], &[i32])>)
        ensures
            r matches Some(p) ==> self.spec_membership() == Some((p.0@, p.1@)),
            r is None <==> self.spec_membership() is None,
    {
        match &self.membership {
            Some((a, b)) => Some((a.as_slice(), b.as_slice())),
            None => None,
        }
    }
}

// ---------------------------------------------------------------------------------------------
// Sorts.
// ---------------------------------------------------------------------------------------------

/// One message sort matched across the sides by its package-relative path, with its fields
/// matched by number, in number order.
#[derive(Clone, Debug, PartialEq, Eq)]
pub struct SortDiff<'a> {
    name: &'a str,
    sides: Pair<&'a SortMapping>,
    fields: Vec<FieldDiff<'a>>,
}

/// A sort's own kind: removed or added when one-sided; renamed when the predicate differs while
/// the path holds; else unchanged — the fields carry their own kinds.
pub open spec fn sort_kind(sides: Pair<SortMapping>) -> ChangeKind {
    match sides {
        Pair::Old(_) => ChangeKind::MessageRemoved,
        Pair::New(_) => ChangeKind::MessageAdded,
        Pair::Both(o, n) => if o.predicate@ == n.predicate@ {
            ChangeKind::Unchanged
        } else {
            ChangeKind::SortRenamed
        },
    }
}

/// The bridge view of a sort rename, at arity 1, and of nothing else.
pub open spec fn sort_bridge(sides: Pair<SortMapping>) -> Option<Seq<char>> {
    match sides {
        Pair::Both(o, n) => if sort_kind(sides) == ChangeKind::SortRenamed {
            Some(bridge_view(o.predicate@, n.predicate@, 1, o.proto@, n.proto@, false))
        } else {
            None
        },
        _ => None,
    }
}

/// Whether a sort diff matches the sides' sorts `os` and `ns`: its sides are theirs, and its
/// fields are every number either holds, ascending, each matching the sides' fields.
pub open spec fn sort_models(
    d: SortDiff,
    olds: Seq<crate::policy::Unit>,
    news: Seq<crate::policy::Unit>,
    os: Option<SortMapping>,
    ns: Option<SortMapping>,
) -> bool {
    let fs = d.spec_fields();
    &&& d.spec_sides() == pair_of(os, ns)
    &&& forall|i: int, j: int|
        0 <= i < j < fs.len() ==> (#[trigger] fs[i]).spec_number() < (#[trigger] fs[j]).spec_number()
    &&& forall|m: i32|
        (exists|i: int| 0 <= i < fs.len() && (#[trigger] fs[i]).spec_number() == m) <==> (opt_field(
            os,
            m,
        ) is Some || opt_field(ns, m) is Some)
    &&& forall|i: int| 0 <= i < fs.len() ==> field_models(#[trigger] fs[i], olds, news, os, ns)
}

impl<'a> SortDiff<'a> {
    /// The path the sides matched on.
    pub closed spec fn spec_name(&self) -> Seq<char> {
        self.name@
    }

    /// The sides' sorts.
    pub closed spec fn spec_sides(&self) -> Pair<SortMapping> {
        pair_unref(self.sides)
    }

    /// The matched fields.
    pub closed spec fn spec_fields(&self) -> Seq<FieldDiff<'a>> {
        self.fields@
    }

    /// Match the fields of a sort present on at least one side, comparing values against the
    /// two sides' vocabularies.
    pub fn build(
        name: &'a str,
        os: Option<&'a SortMapping>,
        ns: Option<&'a SortMapping>,
        old: &Mapping,
        old_vocabulary: &Vocabulary,
        new: &Mapping,
        new_vocabulary: &Vocabulary,
    ) -> (r: SortDiff<'a>)
        requires
            os is Some || ns is Some,
            indexes(*old_vocabulary, old.units@),
            indexes(*new_vocabulary, new.units@),
        ensures
            r.spec_name() == name@,
            sort_models(r, old.units@, new.units@, unref(os), unref(ns)),
    {
        let ghost gos = unref(os);
        let ghost gns = unref(ns);
        let old_idx = fields_of(os);
        let new_idx = fields_of(ns);
        let pairs = merge_num(&old_idx, &new_idx);
        proof {
            assert forall|k: i32| (#[trigger] num_find(old_idx@, k) is Some) <==> opt_field(gos, k) is Some by {}
            assert forall|k: i32| (#[trigger] num_find(new_idx@, k) is Some) <==> opt_field(gns, k) is Some by {}
        }
        let numbers = matched_numbers(&pairs, Ghost(gos), Ghost(gns), Ghost(old_idx@), Ghost(new_idx@));
        let mut fields: Vec<FieldDiff<'a>> = Vec::new();
        let mut i: usize = 0;
        while i < pairs.len()
            invariant
                gos == unref(os),
                gns == unref(ns),
                indexes(*old_vocabulary, old.units@),
                indexes(*new_vocabulary, new.units@),
                i <= pairs@.len(),
                fields@.len() == i,
                num_sorted(pairs@),
                ascending(numbers@),
                forall|n: i32| numbers@.contains(n) <==> crate::diff::model::matched(gos, gns, n),
                forall|k: i32| #[trigger] num_has(pairs@, k) <==> (num_has(old_idx@, k) || num_has(new_idx@, k)),
                forall|e: int|
                    0 <= e < pairs@.len() ==> (#[trigger] pairs@[e]).1 == pair_of(
                        num_find(old_idx@, pairs@[e].0),
                        num_find(new_idx@, pairs@[e].0),
                    ),
                forall|n: i32| #[trigger] num_find(old_idx@, n) matches Some(p) ==> os is Some && p < os.unwrap().fields@.len()
                    && opt_field(gos, n) == Some(os.unwrap().fields@[p as int]),
                forall|n: i32| #[trigger] num_find(old_idx@, n) is None ==> opt_field(gos, n) is None,
                forall|n: i32| #[trigger] num_find(new_idx@, n) matches Some(p) ==> ns is Some && p < ns.unwrap().fields@.len()
                    && opt_field(gns, n) == Some(ns.unwrap().fields@[p as int]),
                forall|n: i32| #[trigger] num_find(new_idx@, n) is None ==> opt_field(gns, n) is None,
                forall|e: int| 0 <= e < i ==> (#[trigger] fields@[e]).spec_number() == pairs@[e].0,
                forall|e: int|
                    0 <= e < i ==> field_models(#[trigger] fields@[e], old.units@, new.units@, gos, gns),
            decreases pairs@.len() - i,
        {
            let (number, pair) = pairs[i];
            proof {
                assert(num_has(pairs@, number));
            }
            let fo: Option<&'a FieldMapping> = match pair {
                Pair::Old(p) => Some(&os.unwrap().fields[p]),
                Pair::Both(p, _) => Some(&os.unwrap().fields[p]),
                Pair::New(_) => None,
            };
            let fnew: Option<&'a FieldMapping> = match pair {
                Pair::New(q) => Some(&ns.unwrap().fields[q]),
                Pair::Both(_, q) => Some(&ns.unwrap().fields[q]),
                Pair::Old(_) => None,
            };
            proof {
                assert(unref(fo) == opt_field(gos, number));
                assert(unref(fnew) == opt_field(gns, number));
            }
            let sides = match pair {
                Pair::Old(p) => Pair::Old(&os.unwrap().fields[p]),
                Pair::New(q) => Pair::New(&ns.unwrap().fields[q]),
                Pair::Both(p, q) => Pair::Both(&os.unwrap().fields[p], &ns.unwrap().fields[q]),
            };
            let same = match sides {
                Pair::Both(a, b) => crate::diff::resolve::same_value(
                    old,
                    old_vocabulary,
                    new,
                    new_vocabulary,
                    &a.value,
                    &b.value,
                ),
                _ => true,
            };
            let old_cell = cell_of(os, fo, &numbers, Ghost(gos), Ghost(gns));
            let new_cell = cell_of(ns, fnew, &numbers, Ghost(gos), Ghost(gns));
            proof {
                lemma_cells_differ(old_cell@, new_cell@, gos, gns, unref(fo), unref(fnew));
            }
            let d = FieldDiff { number, sides, old_cell, new_cell, same_value: same };
            proof {
                assert(field_models(d, old.units@, new.units@, gos, gns));
            }
            fields.push(d);
            i = i + 1;
        }
        let r = SortDiff {
            name,
            sides: match (os, ns) {
                (Some(o), Some(n)) => Pair::Both(o, n),
                (Some(o), None) => Pair::Old(o),
                (None, Some(n)) => Pair::New(n),
                (None, None) => Pair::Old(os.unwrap()),
            },
            fields,
        };
        proof {
            let fs = r.spec_fields();
            assert forall|m: i32|
                (exists|i: int| 0 <= i < fs.len() && (#[trigger] fs[i]).spec_number() == m) <==> (opt_field(
                    gos,
                    m,
                ) is Some || opt_field(gns, m) is Some) by {
                if opt_field(gos, m) is Some || opt_field(gns, m) is Some {
                    if opt_field(gos, m) is Some {
                        assert(num_find(old_idx@, m) is Some);
                    } else {
                        assert(num_find(new_idx@, m) is Some);
                    }
                    assert(num_has(pairs@, m));
                    let e = choose|e: int| 0 <= e < pairs@.len() && (#[trigger] pairs@[e].0) == m;
                    assert(fs[e].spec_number() == m);
                }
                if exists|i: int| 0 <= i < fs.len() && (#[trigger] fs[i]).spec_number() == m {
                    let e = choose|e: int| 0 <= e < fs.len() && (#[trigger] fs[e]).spec_number() == m;
                    assert(num_has(pairs@, pairs@[e].0));
                }
            }
            assert forall|a: int, b: int| 0 <= a < b < fs.len() implies (#[trigger] fs[a]).spec_number()
                < (#[trigger] fs[b]).spec_number() by {
                assert(pairs@[a].0 < pairs@[b].0);
            }
        }
        r
    }

    /// The sort's path relative to its package — the identity the two sides matched on.
    pub fn name(&self) -> (r: &'a str)
        ensures
            r@ == self.spec_name(),
    {
        self.name
    }

    /// The old side's sort, when the sort is on that side.
    pub fn old_sort(&self) -> (r: Option<&'a SortMapping>)
        ensures
            unref(r) == self.spec_sides().spec_old(),
    {
        match self.sides {
            Pair::Old(o) => Some(o),
            Pair::Both(o, _) => Some(o),
            Pair::New(_) => None,
        }
    }

    /// The new side's sort, when the sort is on that side.
    pub fn new_sort(&self) -> (r: Option<&'a SortMapping>)
        ensures
            unref(r) == self.spec_sides().spec_new(),
    {
        match self.sides {
            Pair::New(n) => Some(n),
            Pair::Both(_, n) => Some(n),
            Pair::Old(_) => None,
        }
    }

    /// The matched fields, in number order.
    pub fn fields(&self) -> (r: &[FieldDiff<'a>])
        ensures
            r@ == self.spec_fields(),
    {
        self.fields.as_slice()
    }

    /// The sort's own kind (see [`sort_kind`]).
    pub fn kind(&self) -> (r: ChangeKind)
        ensures
            r == sort_kind(self.spec_sides()),
    {
        match self.sides {
            Pair::Old(_) => ChangeKind::MessageRemoved,
            Pair::New(_) => ChangeKind::MessageAdded,
            Pair::Both(o, n) => if str_eq(o.predicate.as_str(), n.predicate.as_str()) {
                ChangeKind::Unchanged
            } else {
                ChangeKind::SortRenamed
            },
        }
    }

    /// The bridge view of a sort rename (see [`sort_bridge`]) — the one rule aliasing the old
    /// sort predicate to the new at arity 1, through which a model written against the old
    /// vocabulary reads the new sort's occupants — or `None` for any other kind.
    pub fn bridge(&self) -> (r: Option<String>)
        ensures
            r matches Some(b) ==> sort_bridge(self.spec_sides()) == Some(b@),
            r is None <==> sort_bridge(self.spec_sides()) is None,
    {
        match self.sides {
            Pair::Both(o, n) => {
                if self.kind() == ChangeKind::SortRenamed {
                    Some(
                        crate::diff::render::bridge_rule(
                            &o.predicate,
                            &n.predicate,
                            1,
                            o.proto.as_str(),
                            n.proto.as_str(),
                            false,
                        ),
                    )
                } else {
                    None
                }
            },
            _ => None,
        }
    }
}

// ---------------------------------------------------------------------------------------------
// Packages and the comparison.
// ---------------------------------------------------------------------------------------------

/// One package matched across the sides by its normalized key — `thermal` for `thermal.v1`
/// against `thermal.v2` — with its subject sorts and enums matched within, in relative-path
/// order.
#[derive(Clone, Debug, PartialEq, Eq)]
pub struct PackageDiff<'a> {
    key: &'a str,
    sides: Pair<&'a Package>,
    sorts: Vec<SortDiff<'a>>,
    enums: Vec<EnumDiff<'a>>,
}

/// The package of a unit that may be absent.
pub open spec fn opt_package(u: Option<Unit>) -> Option<Package> {
    match u {
        Some(u) => Some(u.package),
        None => None,
    }
}

/// A package's own kind: removed or added when one-sided, else unchanged — a version bump is the
/// match the comparison expects, not a change.
pub open spec fn package_kind(sides: Pair<Package>) -> ChangeKind {
    match sides {
        Pair::Old(_) => ChangeKind::PackageRemoved,
        Pair::New(_) => ChangeKind::PackageAdded,
        Pair::Both(..) => ChangeKind::Unchanged,
    }
}

/// Whether a package diff matches the sides' units `uo` and `un`: its sides are their packages,
/// and its sorts and enums are every path either unit keeps, ascending, each matching the
/// sides' elements of that path.
pub open spec fn package_models(
    d: PackageDiff,
    olds: Seq<Unit>,
    news: Seq<Unit>,
    uo: Option<Unit>,
    un: Option<Unit>,
) -> bool {
    let ss = d.spec_sorts();
    let es = d.spec_enums();
    &&& d.spec_sides() == pair_of(opt_package(uo), opt_package(un))
    &&& forall|i: int, j: int|
        0 <= i < j < ss.len() ==> seq_lt((#[trigger] ss[i]).spec_name(), (#[trigger] ss[j]).spec_name())
    &&& forall|n: Seq<char>|
        (exists|i: int| 0 <= i < ss.len() && (#[trigger] ss[i]).spec_name() == n) <==> (opt_sort(
            uo,
            n,
        ) is Some || opt_sort(un, n) is Some)
    &&& forall|i: int|
        0 <= i < ss.len() ==> sort_models(
            #[trigger] ss[i],
            olds,
            news,
            opt_sort(uo, ss[i].spec_name()),
            opt_sort(un, ss[i].spec_name()),
        )
    &&& forall|i: int, j: int|
        0 <= i < j < es.len() ==> seq_lt((#[trigger] es[i]).spec_name(), (#[trigger] es[j]).spec_name())
    &&& forall|n: Seq<char>|
        (exists|i: int| 0 <= i < es.len() && (#[trigger] es[i]).spec_name() == n) <==> (opt_enum(
            uo,
            n,
        ) is Some || opt_enum(un, n) is Some)
    &&& forall|i: int|
        0 <= i < es.len() ==> enum_models(
            #[trigger] es[i],
            opt_enum(uo, es[i].spec_name()),
            opt_enum(un, es[i].spec_name()),
        )
}

/// The subject sorts of a unit that may be absent, indexed by path.
fn sorts_of(u: Option<&Unit>) -> (r: Vec<(Vec<char>, usize)>)
    ensures
        text_sorted(r@),
        forall|n: Seq<char>| #[trigger] text_find(r@, n) matches Some(p) ==> u is Some && p < u.unwrap().sorts@.len()
            && opt_sort(unref(u), n) == Some(u.unwrap().sorts@[p as int]) && relative_view(
            u.unwrap().sorts@[p as int].proto@,
            u.unwrap().package.spec_text(),
        ) == n,
        forall|n: Seq<char>| #[trigger] text_find(r@, n) is None ==> opt_sort(unref(u), n) is None,
{
    match u {
        Some(u) => {
            let idx = sort_index(u);
            proof {
                assert forall|n: Seq<char>| #[trigger] text_find(idx@, n) is Some || text_find(idx@, n) is None implies
                    (text_find(idx@, n) matches Some(p) ==> p < u.sorts@.len() && sort_named(*u, n) == Some(
                    u.sorts@[p as int])) && (text_find(idx@, n) is None ==> sort_named(*u, n) is None) by {
                    if let Some(p) = text_find(idx@, n) {
                        lemma_last_sort(*u, p as int, n);
                    } else if exists|i: int| #[trigger] last_sort(*u, i, n) {
                        let i = choose|i: int| #[trigger] last_sort(*u, i, n);
                        assert(named_sort(*u, i, n));
                    }
                }
            }
            idx
        },
        None => {
            let idx: Vec<(Vec<char>, usize)> = Vec::new();
            proof {
                assert forall|n: Seq<char>| #[trigger] text_find(idx@, n) is None by {
                    assert(!text_has(idx@, n));
                }
            }
            idx
        },
    }
}

/// The subject enums of a unit that may be absent, indexed by path.
fn enums_of(u: Option<&Unit>) -> (r: Vec<(Vec<char>, usize)>)
    ensures
        text_sorted(r@),
        forall|n: Seq<char>| #[trigger] text_find(r@, n) matches Some(p) ==> u is Some && p < u.unwrap().enums@.len()
            && opt_enum(unref(u), n) == Some(u.unwrap().enums@[p as int]) && relative_view(
            u.unwrap().enums@[p as int].proto@,
            u.unwrap().package.spec_text(),
        ) == n,
        forall|n: Seq<char>| #[trigger] text_find(r@, n) is None ==> opt_enum(unref(u), n) is None,
{
    match u {
        Some(u) => {
            let idx = enum_index(u);
            proof {
                assert forall|n: Seq<char>| #[trigger] text_find(idx@, n) is Some || text_find(idx@, n) is None implies
                    (text_find(idx@, n) matches Some(p) ==> p < u.enums@.len() && enum_named(*u, n) == Some(
                    u.enums@[p as int])) && (text_find(idx@, n) is None ==> enum_named(*u, n) is None) by {
                    if let Some(p) = text_find(idx@, n) {
                        lemma_last_enum(*u, p as int, n);
                    } else if exists|i: int| #[trigger] last_enum(*u, i, n) {
                        let i = choose|i: int| #[trigger] last_enum(*u, i, n);
                        assert(named_enum(*u, i, n));
                    }
                }
            }
            idx
        },
        None => {
            let idx: Vec<(Vec<char>, usize)> = Vec::new();
            proof {
                assert forall|n: Seq<char>| #[trigger] text_find(idx@, n) is None by {
                    assert(!text_has(idx@, n));
                }
            }
            idx
        },
    }
}

impl<'a> PackageDiff<'a> {
    /// The key the sides matched on.
    pub closed spec fn spec_key(&self) -> Seq<char> {
        self.key@
    }

    /// The sides' packages.
    pub closed spec fn spec_sides(&self) -> Pair<Package> {
        pair_unref(self.sides)
    }

    /// The matched sorts.
    pub closed spec fn spec_sorts(&self) -> Seq<SortDiff<'a>> {
        self.sorts@
    }

    /// The matched enums.
    pub closed spec fn spec_enums(&self) -> Seq<EnumDiff<'a>> {
        self.enums@
    }

    /// Match the sorts and enums of a package present on at least one side.
    pub fn build(
        key: &'a str,
        uo: Option<&'a Unit>,
        un: Option<&'a Unit>,
        old: &Mapping,
        old_vocabulary: &Vocabulary,
        new: &Mapping,
        new_vocabulary: &Vocabulary,
    ) -> (r: PackageDiff<'a>)
        requires
            uo is Some || un is Some,
            indexes(*old_vocabulary, old.units@),
            indexes(*new_vocabulary, new.units@),
        ensures
            r.spec_key() == key@,
            package_models(r, old.units@, new.units@, unref(uo), unref(un)),
    {
        let ghost guo = unref(uo);
        let ghost gun = unref(un);
        // The sorts.
        let old_sorts = sorts_of(uo);
        let new_sorts = sorts_of(un);
        let sort_pairs = merge_text(&old_sorts, &new_sorts);
        let mut sorts: Vec<SortDiff<'a>> = Vec::new();
        let mut i: usize = 0;
        while i < sort_pairs.len()
            invariant
                guo == unref(uo),
                gun == unref(un),
                indexes(*old_vocabulary, old.units@),
                indexes(*new_vocabulary, new.units@),
                i <= sort_pairs@.len(),
                sorts@.len() == i,
                text_sorted(sort_pairs@),
                forall|k: Seq<char>| #[trigger] text_has(sort_pairs@, k) <==> (text_has(old_sorts@, k) || text_has(new_sorts@, k)),
                forall|e: int|
                    0 <= e < sort_pairs@.len() ==> (#[trigger] sort_pairs@[e]).1 == pair_of(
                        text_find(old_sorts@, sort_pairs@[e].0@),
                        text_find(new_sorts@, sort_pairs@[e].0@),
                    ),
                forall|n: Seq<char>| #[trigger] text_find(old_sorts@, n) matches Some(p) ==> uo is Some && p < uo.unwrap().sorts@.len()
                    && opt_sort(guo, n) == Some(uo.unwrap().sorts@[p as int]) && relative_view(
                    uo.unwrap().sorts@[p as int].proto@,
                    uo.unwrap().package.spec_text(),
                ) == n,
                forall|n: Seq<char>| #[trigger] text_find(old_sorts@, n) is None ==> opt_sort(guo, n) is None,
                forall|n: Seq<char>| #[trigger] text_find(new_sorts@, n) matches Some(p) ==> un is Some && p < un.unwrap().sorts@.len()
                    && opt_sort(gun, n) == Some(un.unwrap().sorts@[p as int]) && relative_view(
                    un.unwrap().sorts@[p as int].proto@,
                    un.unwrap().package.spec_text(),
                ) == n,
                forall|n: Seq<char>| #[trigger] text_find(new_sorts@, n) is None ==> opt_sort(gun, n) is None,
                forall|e: int| 0 <= e < i ==> (#[trigger] sorts@[e]).spec_name() == sort_pairs@[e].0@,
                forall|e: int|
                    0 <= e < i ==> sort_models(
                        #[trigger] sorts@[e],
                        old.units@,
                        new.units@,
                        opt_sort(guo, sorts@[e].spec_name()),
                        opt_sort(gun, sorts@[e].spec_name()),
                    ),
            decreases sort_pairs@.len() - i,
        {
            let ghost n = sort_pairs@[i as int].0@;
            proof {
                assert(text_has(sort_pairs@, n));
            }
            let pair = sort_pairs[i].1;
            let os: Option<&'a SortMapping> = match pair {
                Pair::Old(p) => Some(&uo.unwrap().sorts[p]),
                Pair::Both(p, _) => Some(&uo.unwrap().sorts[p]),
                Pair::New(_) => None,
            };
            let ns: Option<&'a SortMapping> = match pair {
                Pair::New(q) => Some(&un.unwrap().sorts[q]),
                Pair::Both(_, q) => Some(&un.unwrap().sorts[q]),
                Pair::Old(_) => None,
            };
            let name: &'a str = match pair {
                Pair::Old(p) => relative_name(uo.unwrap().sorts[p].proto.as_str(), uo.unwrap().package.as_str()),
                Pair::Both(p, _) => relative_name(uo.unwrap().sorts[p].proto.as_str(), uo.unwrap().package.as_str()),
                Pair::New(q) => relative_name(un.unwrap().sorts[q].proto.as_str(), un.unwrap().package.as_str()),
            };
            proof {
                assert(name@ == n);
                assert(unref(os) == opt_sort(guo, n));
                assert(unref(ns) == opt_sort(gun, n));
            }
            let d = SortDiff::build(name, os, ns, old, old_vocabulary, new, new_vocabulary);
            sorts.push(d);
            i = i + 1;
        }
        proof {
            assert forall|n: Seq<char>|
                (exists|i: int| 0 <= i < sorts@.len() && (#[trigger] sorts@[i]).spec_name() == n) <==> (opt_sort(
                    guo,
                    n,
                ) is Some || opt_sort(gun, n) is Some) by {
                if opt_sort(guo, n) is Some || opt_sort(gun, n) is Some {
                    if opt_sort(guo, n) is Some {
                        assert(text_find(old_sorts@, n) is Some);
                    } else {
                        assert(text_find(new_sorts@, n) is Some);
                    }
                    assert(text_has(sort_pairs@, n));
                    let e = choose|e: int| 0 <= e < sort_pairs@.len() && (#[trigger] sort_pairs@[e].0)@ == n;
                    assert(sorts@[e].spec_name() == n);
                }
                if exists|i: int| 0 <= i < sorts@.len() && (#[trigger] sorts@[i]).spec_name() == n {
                    let e = choose|e: int| 0 <= e < sorts@.len() && (#[trigger] sorts@[e]).spec_name() == n;
                    assert(text_has(sort_pairs@, sort_pairs@[e].0@));
                    if text_has(old_sorts@, n) {
                        assert(text_find(old_sorts@, n) is Some);
                    } else {
                        assert(text_find(new_sorts@, n) is Some);
                    }
                }
            }
            assert forall|a: int, b: int| 0 <= a < b < sorts@.len() implies seq_lt(
                (#[trigger] sorts@[a]).spec_name(),
                (#[trigger] sorts@[b]).spec_name(),
            ) by {
                assert(seq_lt(sort_pairs@[a].0@, sort_pairs@[b].0@));
            }
        }
        // The enums.
        let old_enums = enums_of(uo);
        let new_enums = enums_of(un);
        let enum_pairs = merge_text(&old_enums, &new_enums);
        let mut enums: Vec<EnumDiff<'a>> = Vec::new();
        let mut i: usize = 0;
        while i < enum_pairs.len()
            invariant
                guo == unref(uo),
                gun == unref(un),
                i <= enum_pairs@.len(),
                enums@.len() == i,
                text_sorted(enum_pairs@),
                forall|k: Seq<char>| #[trigger] text_has(enum_pairs@, k) <==> (text_has(old_enums@, k) || text_has(new_enums@, k)),
                forall|e: int|
                    0 <= e < enum_pairs@.len() ==> (#[trigger] enum_pairs@[e]).1 == pair_of(
                        text_find(old_enums@, enum_pairs@[e].0@),
                        text_find(new_enums@, enum_pairs@[e].0@),
                    ),
                forall|n: Seq<char>| #[trigger] text_find(old_enums@, n) matches Some(p) ==> uo is Some && p < uo.unwrap().enums@.len()
                    && opt_enum(guo, n) == Some(uo.unwrap().enums@[p as int]) && relative_view(
                    uo.unwrap().enums@[p as int].proto@,
                    uo.unwrap().package.spec_text(),
                ) == n,
                forall|n: Seq<char>| #[trigger] text_find(old_enums@, n) is None ==> opt_enum(guo, n) is None,
                forall|n: Seq<char>| #[trigger] text_find(new_enums@, n) matches Some(p) ==> un is Some && p < un.unwrap().enums@.len()
                    && opt_enum(gun, n) == Some(un.unwrap().enums@[p as int]) && relative_view(
                    un.unwrap().enums@[p as int].proto@,
                    un.unwrap().package.spec_text(),
                ) == n,
                forall|n: Seq<char>| #[trigger] text_find(new_enums@, n) is None ==> opt_enum(gun, n) is None,
                forall|e: int| 0 <= e < i ==> (#[trigger] enums@[e]).spec_name() == enum_pairs@[e].0@,
                forall|e: int|
                    0 <= e < i ==> enum_models(
                        #[trigger] enums@[e],
                        opt_enum(guo, enums@[e].spec_name()),
                        opt_enum(gun, enums@[e].spec_name()),
                    ),
            decreases enum_pairs@.len() - i,
        {
            let ghost n = enum_pairs@[i as int].0@;
            proof {
                assert(text_has(enum_pairs@, n));
            }
            let pair = enum_pairs[i].1;
            let oe: Option<&'a EnumMapping> = match pair {
                Pair::Old(p) => Some(&uo.unwrap().enums[p]),
                Pair::Both(p, _) => Some(&uo.unwrap().enums[p]),
                Pair::New(_) => None,
            };
            let ne: Option<&'a EnumMapping> = match pair {
                Pair::New(q) => Some(&un.unwrap().enums[q]),
                Pair::Both(_, q) => Some(&un.unwrap().enums[q]),
                Pair::Old(_) => None,
            };
            let name: &'a str = match pair {
                Pair::Old(p) => relative_name(uo.unwrap().enums[p].proto.as_str(), uo.unwrap().package.as_str()),
                Pair::Both(p, _) => relative_name(uo.unwrap().enums[p].proto.as_str(), uo.unwrap().package.as_str()),
                Pair::New(q) => relative_name(un.unwrap().enums[q].proto.as_str(), un.unwrap().package.as_str()),
            };
            proof {
                assert(name@ == n);
                assert(unref(oe) == opt_enum(guo, n));
                assert(unref(ne) == opt_enum(gun, n));
            }
            let d = EnumDiff::build(name, oe, ne);
            enums.push(d);
            i = i + 1;
        }
        proof {
            assert forall|n: Seq<char>|
                (exists|i: int| 0 <= i < enums@.len() && (#[trigger] enums@[i]).spec_name() == n) <==> (opt_enum(
                    guo,
                    n,
                ) is Some || opt_enum(gun, n) is Some) by {
                if opt_enum(guo, n) is Some || opt_enum(gun, n) is Some {
                    if opt_enum(guo, n) is Some {
                        assert(text_find(old_enums@, n) is Some);
                    } else {
                        assert(text_find(new_enums@, n) is Some);
                    }
                    assert(text_has(enum_pairs@, n));
                    let e = choose|e: int| 0 <= e < enum_pairs@.len() && (#[trigger] enum_pairs@[e].0)@ == n;
                    assert(enums@[e].spec_name() == n);
                }
                if exists|i: int| 0 <= i < enums@.len() && (#[trigger] enums@[i]).spec_name() == n {
                    let e = choose|e: int| 0 <= e < enums@.len() && (#[trigger] enums@[e]).spec_name() == n;
                    assert(text_has(enum_pairs@, enum_pairs@[e].0@));
                    if text_has(old_enums@, n) {
                        assert(text_find(old_enums@, n) is Some);
                    } else {
                        assert(text_find(new_enums@, n) is Some);
                    }
                }
            }
            assert forall|a: int, b: int| 0 <= a < b < enums@.len() implies seq_lt(
                (#[trigger] enums@[a]).spec_name(),
                (#[trigger] enums@[b]).spec_name(),
            ) by {
                assert(seq_lt(enum_pairs@[a].0@, enum_pairs@[b].0@));
            }
        }
        let r = PackageDiff {
            key,
            sides: match (uo, un) {
                (Some(o), Some(n)) => Pair::Both(&o.package, &n.package),
                (Some(o), None) => Pair::Old(&o.package),
                (None, Some(n)) => Pair::New(&n.package),
                (None, None) => Pair::Old(&uo.unwrap().package),
            },
            sorts,
            enums,
        };
        r
    }
}

impl<'a> PackageDiff<'a> {
    /// The normalized package the two sides matched on (`thermal`).
    pub fn key(&self) -> (r: &'a str)
        ensures
            r@ == self.spec_key(),
    {
        self.key
    }

    /// The old side's package as declared (`thermal.v1`), when the package is on that side.
    pub fn old_package(&self) -> (r: Option<&'a Package>)
        ensures
            unref(r) == self.spec_sides().spec_old(),
    {
        match self.sides {
            Pair::Old(o) => Some(o),
            Pair::Both(o, _) => Some(o),
            Pair::New(_) => None,
        }
    }

    /// The new side's package as declared (`thermal.v2`), when the package is on that side.
    pub fn new_package(&self) -> (r: Option<&'a Package>)
        ensures
            unref(r) == self.spec_sides().spec_new(),
    {
        match self.sides {
            Pair::New(n) => Some(n),
            Pair::Both(_, n) => Some(n),
            Pair::Old(_) => None,
        }
    }

    /// The matched sorts, in relative-path order.
    pub fn sorts(&self) -> (r: &[SortDiff<'a>])
        ensures
            r@ == self.spec_sorts(),
    {
        self.sorts.as_slice()
    }

    /// The matched enums, in relative-path order.
    pub fn enums(&self) -> (r: &[EnumDiff<'a>])
        ensures
            r@ == self.spec_enums(),
    {
        self.enums.as_slice()
    }

    /// The package's own kind (see [`package_kind`]); the elements carry their own kinds.
    pub fn kind(&self) -> (r: ChangeKind)
        ensures
            r == package_kind(self.spec_sides()),
    {
        match self.sides {
            Pair::Old(_) => ChangeKind::PackageRemoved,
            Pair::New(_) => ChangeKind::PackageAdded,
            Pair::Both(..) => ChangeKind::Unchanged,
        }
    }
}

/// The comparison of two mappings' subject vocabularies ([`compare`]): the matched packages in
/// normalized-package order, each a tree down to its fields and values with the unchanged nodes
/// present.
#[derive(Clone, Debug, PartialEq, Eq)]
pub struct Comparison<'a> {
    packages: Vec<PackageDiff<'a>>,
}

impl<'a> Comparison<'a> {
    /// The matched packages.
    pub closed spec fn spec_packages(&self) -> Seq<PackageDiff<'a>> {
        self.packages@
    }

    /// Whether the comparison matches the sides whose units are `olds` and `news`: its packages
    /// are every key a subject unit of either side carries, ascending, each matching the two
    /// sides' units of that key.
    pub open spec fn models(self, olds: Seq<Unit>, news: Seq<Unit>) -> bool {
        let ps = self.spec_packages();
        &&& forall|i: int, j: int|
            0 <= i < j < ps.len() ==> seq_lt((#[trigger] ps[i]).spec_key(), (#[trigger] ps[j]).spec_key())
        &&& forall|k: Seq<char>|
            (exists|i: int| 0 <= i < ps.len() && (#[trigger] ps[i]).spec_key() == k) <==> (has_unit(
                olds,
                k,
            ) || has_unit(news, k))
        &&& forall|i: int|
            0 <= i < ps.len() ==> package_models(
                #[trigger] ps[i],
                olds,
                news,
                side_unit(olds, ps[i].spec_key()),
                side_unit(news, ps[i].spec_key()),
            )
    }

    /// The matched packages, in normalized-package order.
    pub fn packages(&self) -> (r: &[PackageDiff<'a>])
        ensures
            r@ == self.spec_packages(),
    {
        self.packages.as_slice()
    }
}

/// Every diagnostic a comparison of the sides `olds` and `news` earns: each side's ambiguities,
/// the old side's first, then — when no key is a subject unit's on both sides — that the two
/// are not comparable.
pub open spec fn comparison_faults(olds: Seq<Unit>, news: Seq<Unit>) -> Seq<
    (DiagnosticKind, Option<Seq<char>>, Seq<char>),
> {
    side_faults(olds, Side::Old) + side_faults(news, Side::New) + if comparable(olds, news) {
        Seq::empty()
    } else {
        seq![(DiagnosticKind::NoComparableSchemas, None, no_comparable_detail(olds, news))]
    }
}

/// Compare the old and the new mapping into a [`Comparison`] of their subject vocabularies,
/// matching by protobuf identity: a unit by its version-normalized package, a sort or enum by
/// its package-relative path, a field or value by its number — so `thermal.v1` against
/// `thermal.v2` matches field for field, and a field whose number changed is a removal beside
/// an addition.
///
/// Fails with every cause collected: `AmbiguousVersionPackages` — one per collision, the side
/// named — when a side declares two subject packages that normalize to one key, and
/// `NoComparableSchemas` when the two sides' subject keys are disjoint (a side with none
/// included).
pub fn compare<'a>(old: &'a Mapping, new: &'a Mapping) -> (r: Result<Comparison<'a>, Diagnostics>)
    ensures
        r is Ok <==> comparison_faults(old.units@, new.units@).len() == 0,
        r matches Err(d) ==> d@.map_values(|x: Diagnostic| fault_view(x)) == comparison_faults(
            old.units@,
            new.units@,
        ),
        r matches Ok(c) ==> c.models(old.units@, new.units@),
{
    let ghost olds = old.units@;
    let ghost news = new.units@;
    let (old_vocabulary, mut faults) = vocabulary(old, Side::Old);
    let (new_vocabulary, mut new_faults) = vocabulary(new, Side::New);
    let ghost before = faults@;
    let ghost added = new_faults@;
    faults.append(&mut new_faults);
    let common = any_common(&old_vocabulary.units, &new_vocabulary.units, Ghost(olds), Ghost(news));
    let ghost sides = faults@;
    if !common {
        let d = no_comparable_schemas(&old_vocabulary.units, &new_vocabulary.units, Ghost(olds), Ghost(news));
        faults.push(d);
    }
    proof {
        assert(sides == before + added);
        let f = |x: Diagnostic| fault_view(x);
        assert(sides.map_values(f) =~= before.map_values(f) + added.map_values(f));
        assert(faults@.map_values(f) =~= comparison_faults(olds, news));
    }
    let collected = Diagnostics::collect(faults);
    match collected {
        Some(d) => {
            return Err(d);
        },
        None => {},
    }
    let pairs = merge_text(&old_vocabulary.units, &new_vocabulary.units);
    let mut packages: Vec<PackageDiff<'a>> = Vec::new();
    let mut i: usize = 0;
    while i < pairs.len()
        invariant
            olds == old.units@,
            news == new.units@,
            indexes(old_vocabulary, olds),
            indexes(new_vocabulary, news),
            i <= pairs@.len(),
            packages@.len() == i,
            text_sorted(pairs@),
            forall|k: Seq<char>| #[trigger] text_has(pairs@, k) <==> (text_has(old_vocabulary.units@, k) || text_has(new_vocabulary.units@, k)),
            forall|e: int|
                0 <= e < pairs@.len() ==> (#[trigger] pairs@[e]).1 == pair_of(
                    text_find(old_vocabulary.units@, pairs@[e].0@),
                    text_find(new_vocabulary.units@, pairs@[e].0@),
                ),
            forall|e: int| 0 <= e < i ==> (#[trigger] packages@[e]).spec_key() == pairs@[e].0@,
            forall|e: int|
                0 <= e < i ==> package_models(
                    #[trigger] packages@[e],
                    olds,
                    news,
                    side_unit(olds, packages@[e].spec_key()),
                    side_unit(news, packages@[e].spec_key()),
                ),
        decreases pairs@.len() - i,
    {
        let ghost k = pairs@[i as int].0@;
        proof {
            assert(text_has(pairs@, k));
            if let Some(p) = text_find(old_vocabulary.units@, k) {
                lemma_first_unit(olds, p as int, k);
            } else {
                assert(!has_unit(olds, k));
                if exists|j: int| #[trigger] first_unit(olds, j, k) {
                    let j = choose|j: int| #[trigger] first_unit(olds, j, k);
                    assert(keyed_unit(olds, j, k));
                }
            }
            if let Some(q) = text_find(new_vocabulary.units@, k) {
                lemma_first_unit(news, q as int, k);
            } else {
                assert(!has_unit(news, k));
                if exists|j: int| #[trigger] first_unit(news, j, k) {
                    let j = choose|j: int| #[trigger] first_unit(news, j, k);
                    assert(keyed_unit(news, j, k));
                }
            }
        }
        let pair = pairs[i].1;
        let uo: Option<&'a Unit> = match pair {
            Pair::Old(p) => Some(&old.units[p]),
            Pair::Both(p, _) => Some(&old.units[p]),
            Pair::New(_) => None,
        };
        let un: Option<&'a Unit> = match pair {
            Pair::New(q) => Some(&new.units[q]),
            Pair::Both(_, q) => Some(&new.units[q]),
            Pair::Old(_) => None,
        };
        let key: &'a str = match pair {
            Pair::Old(p) => normalize_package(old.units[p].package.as_str()),
            Pair::Both(p, _) => normalize_package(old.units[p].package.as_str()),
            Pair::New(q) => normalize_package(new.units[q].package.as_str()),
        };
        proof {
            assert(key@ == k);
            assert(unref(uo) == side_unit(olds, k));
            assert(unref(un) == side_unit(news, k));
        }
        let d = PackageDiff::build(key, uo, un, old, &old_vocabulary, new, &new_vocabulary);
        packages.push(d);
        i = i + 1;
    }
    let r = Comparison { packages };
    proof {
        let ps = r.spec_packages();
        assert forall|k: Seq<char>|
            (exists|i: int| 0 <= i < ps.len() && (#[trigger] ps[i]).spec_key() == k) <==> (has_unit(
                olds,
                k,
            ) || has_unit(news, k)) by {
            if has_unit(olds, k) || has_unit(news, k) {
                if has_unit(olds, k) {
                    if text_find(old_vocabulary.units@, k) is None {
                        assert(!has_unit(olds, k));
                    }
                } else {
                    if text_find(new_vocabulary.units@, k) is None {
                        assert(!has_unit(news, k));
                    }
                }
                assert(text_has(pairs@, k));
                let e = choose|e: int| 0 <= e < pairs@.len() && (#[trigger] pairs@[e].0)@ == k;
                assert(ps[e].spec_key() == k);
            }
            if exists|i: int| 0 <= i < ps.len() && (#[trigger] ps[i]).spec_key() == k {
                let e = choose|e: int| 0 <= e < ps.len() && (#[trigger] ps[e]).spec_key() == k;
                assert(text_has(pairs@, pairs@[e].0@));
                if text_has(old_vocabulary.units@, k) {
                    let p = text_find(old_vocabulary.units@, k).unwrap();
                    assert(keyed_unit(olds, p as int, k));
                } else {
                    let q = text_find(new_vocabulary.units@, k).unwrap();
                    assert(keyed_unit(news, q as int, k));
                }
            }
        }
        assert forall|a: int, b: int| 0 <= a < b < ps.len() implies seq_lt(
            (#[trigger] ps[a]).spec_key(),
            (#[trigger] ps[b]).spec_key(),
        ) by {
            assert(seq_lt(pairs@[a].0@, pairs@[b].0@));
        }
    }
    Ok(r)
}

/// A field whose map key kind or key treatment differs between the sides is a breaking change,
/// whatever else holds of it, and carries an aspect.
pub proof fn lemma_map_key_change_breaks(o: FieldMapping, n: FieldMapping, same_value: bool, same_cell: bool)
    requires
        o.form is Mapped,
        n.form is Mapped,
        o.form->Mapped_key != n.form->Mapped_key || o.form->Mapped_key_treatment != n.form->Mapped_key_treatment,
    ensures
        field_kind(Pair::Both(o, n), same_value, same_cell) == ChangeKind::Changed,
        crate::diff::kinds::breaking(field_kind(Pair::Both(o, n), same_value, same_cell)),
        has_aspect(Pair::Both(o, n), same_value, same_cell),
{
}

/// Two map fields alike in all else — predicate, arity, presence, value, and cell — are unchanged
/// exactly when their keys are of one kind under one treatment.
pub proof fn lemma_map_field_unchanged_iff_same_key(o: FieldMapping, n: FieldMapping)
    requires
        o.form is Mapped,
        n.form is Mapped,
        o.predicate@ == n.predicate@,
        o.arity == n.arity,
        o.presence == n.presence,
    ensures
        (field_kind(Pair::Both(o, n), true, true) == ChangeKind::Unchanged) <==> (o.form->Mapped_key
            == n.form->Mapped_key && o.form->Mapped_key_treatment == n.form->Mapped_key_treatment),
{
}

/// The aspect of a field whose map key kind or key treatment differs names the two map forms.
pub proof fn lemma_map_key_change_aspect<'a>(
    a: ChangeAspect<'a>,
    o: FieldMapping,
    n: FieldMapping,
    same_value: bool,
    old_cell: Seq<i32>,
    new_cell: Seq<i32>,
)
    requires
        a.describes(o, n, same_value, old_cell, new_cell),
        o.form is Mapped,
        n.form is Mapped,
        o.form->Mapped_key != n.form->Mapped_key || o.form->Mapped_key_treatment != n.form->Mapped_key_treatment,
    ensures
        a.spec_form() == Some((o.form, n.form)),
{
}

/// A field whose form changes — but for one oneof arm becoming an arm of another oneof — is a
/// breaking change, whatever else holds of it.
pub proof fn lemma_form_change_breaks(o: FieldMapping, n: FieldMapping, same_value: bool, same_cell: bool)
    requires
        o.form != n.form,
        !(o.form is OneofArm && n.form is OneofArm),
    ensures
        field_kind(Pair::Both(o, n), same_value, same_cell) == ChangeKind::Changed,
        crate::diff::kinds::breaking(field_kind(Pair::Both(o, n), same_value, same_cell)),
{
}

} // verus!
