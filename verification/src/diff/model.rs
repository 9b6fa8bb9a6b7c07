//! What the comparison reads of each side, as mathematics: the subject units keyed by their
//! version-normalized package (the first unit of a key keeps it), the subject sorts and enums of
//! a unit keyed by their package-relative path and the fields and values of an element keyed by
//! number (a later element of one identity replacing an earlier one), the identity a referent
//! predicate resolves to, and the oneof cells of the membership dimension.
use vstd::prelude::*;

use crate::diff::index::Pair;
use crate::diff::names::{normalized, relative_view};
use crate::policy::{EmitForm, EnumMapping, EnumValueMapping, FieldMapping, SortMapping, Unit,
    ValueMapping};
use crate::text::{lemma_seq_lt_irreflexive, lemma_seq_lt_total, seq_lt};

verus! {

/// The value behind an optional reference.
pub open spec fn unref<T>(o: Option<&T>) -> Option<T> {
    match o {
        Some(r) => Some(*r),
        None => None,
    }
}

/// The values behind a pair of references.
pub open spec fn pair_unref<T>(p: Pair<&T>) -> Pair<T> {
    match p {
        Pair::Old(o) => Pair::Old(*o),
        Pair::New(n) => Pair::New(*n),
        Pair::Both(o, n) => Pair::Both(*o, *n),
    }
}

// ---------------------------------------------------------------------------------------------
// Subject units.
// ---------------------------------------------------------------------------------------------

/// Whether a unit holds any subject vocabulary: a subject sort or a subject enum.
pub open spec fn unit_is_subject(u: Unit) -> bool {
    (exists|i: int| 0 <= i < u.sorts@.len() && (#[trigger] u.sorts@[i]).subject) || (exists|i: int|
        0 <= i < u.enums@.len() && (#[trigger] u.enums@[i]).subject)
}

/// The key a unit is matched by: its package with the trailing version segment stripped.
pub open spec fn unit_key(u: Unit) -> Seq<char> {
    normalized(u.package.spec_text())
}

/// Whether unit `i` is a subject unit under key `k`.
pub open spec fn keyed_unit(us: Seq<Unit>, i: int, k: Seq<char>) -> bool {
    0 <= i < us.len() && unit_is_subject(us[i]) && unit_key(us[i]) == k
}

/// Whether unit `i` is the first subject unit under key `k` — the one that keeps the key.
pub open spec fn first_unit(us: Seq<Unit>, i: int, k: Seq<char>) -> bool {
    keyed_unit(us, i, k) && forall|j: int| 0 <= j < i ==> !#[trigger] keyed_unit(us, j, k)
}

/// Whether some subject unit is under key `k`.
pub open spec fn has_unit(us: Seq<Unit>, k: Seq<char>) -> bool {
    exists|i: int| #[trigger] keyed_unit(us, i, k)
}

/// The side's unit under key `k`: the first subject unit carrying it.
pub open spec fn side_unit(us: Seq<Unit>, k: Seq<char>) -> Option<Unit> {
    if exists|i: int| #[trigger] first_unit(us, i, k) {
        Some(us[choose|i: int| #[trigger] first_unit(us, i, k)])
    } else {
        None
    }
}

/// The first subject unit of a key is unique.
pub proof fn lemma_first_unit(us: Seq<Unit>, i: int, k: Seq<char>)
    requires
        first_unit(us, i, k),
    ensures
        side_unit(us, k) == Some(us[i]),
        has_unit(us, k),
        first_position(us, k) == i,
{
    let j = choose|j: int| #[trigger] first_unit(us, j, k);
    assert(!(j < i) && !(i < j));
}

/// Whether unit `i` is a subject unit whose key an earlier subject unit already holds.
pub open spec fn is_duplicate(us: Seq<Unit>, i: int) -> bool {
    0 <= i < us.len() && unit_is_subject(us[i]) && exists|j: int|
        0 <= j < i && #[trigger] keyed_unit(us, j, unit_key(us[i]))
}

/// The positions of the duplicate subject units among the first `n`, in order.
pub open spec fn duplicates(us: Seq<Unit>, n: int) -> Seq<int>
    decreases n,
{
    if n <= 0 {
        Seq::empty()
    } else if is_duplicate(us, n - 1) {
        duplicates(us, n - 1).push(n - 1)
    } else {
        duplicates(us, n - 1)
    }
}

/// The position of the first subject unit under key `k`.
pub open spec fn first_position(us: Seq<Unit>, k: Seq<char>) -> int {
    choose|i: int| #[trigger] first_unit(us, i, k)
}

// ---------------------------------------------------------------------------------------------
// Sorts and enums of a unit, fields and values of an element.
// ---------------------------------------------------------------------------------------------

/// Whether sort `i` of the unit is a subject sort with package-relative path `n`.
pub open spec fn named_sort(u: Unit, i: int, n: Seq<char>) -> bool {
    0 <= i < u.sorts@.len() && u.sorts@[i].subject && relative_view(
        u.sorts@[i].proto@,
        u.package.spec_text(),
    ) == n
}

/// Whether sort `i` is the last subject sort of path `n` — the one the path keeps.
pub open spec fn last_sort(u: Unit, i: int, n: Seq<char>) -> bool {
    named_sort(u, i, n) && forall|j: int| i < j < u.sorts@.len() ==> !#[trigger] named_sort(u, j, n)
}

/// The unit's subject sort of path `n`.
pub open spec fn sort_named(u: Unit, n: Seq<char>) -> Option<SortMapping> {
    if exists|i: int| #[trigger] last_sort(u, i, n) {
        Some(u.sorts@[choose|i: int| #[trigger] last_sort(u, i, n)])
    } else {
        None
    }
}

/// The last subject sort of a path is unique.
pub proof fn lemma_last_sort(u: Unit, i: int, n: Seq<char>)
    requires
        last_sort(u, i, n),
    ensures
        sort_named(u, n) == Some(u.sorts@[i]),
{
    let j = choose|j: int| #[trigger] last_sort(u, j, n);
    assert(!(j < i) && !(i < j));
}

/// Whether enum `i` of the unit is a subject enum with package-relative path `n`.
pub open spec fn named_enum(u: Unit, i: int, n: Seq<char>) -> bool {
    0 <= i < u.enums@.len() && u.enums@[i].subject && relative_view(
        u.enums@[i].proto@,
        u.package.spec_text(),
    ) == n
}

/// Whether enum `i` is the last subject enum of path `n`.
pub open spec fn last_enum(u: Unit, i: int, n: Seq<char>) -> bool {
    named_enum(u, i, n) && forall|j: int| i < j < u.enums@.len() ==> !#[trigger] named_enum(u, j, n)
}

/// The unit's subject enum of path `n`.
pub open spec fn enum_named(u: Unit, n: Seq<char>) -> Option<EnumMapping> {
    if exists|i: int| #[trigger] last_enum(u, i, n) {
        Some(u.enums@[choose|i: int| #[trigger] last_enum(u, i, n)])
    } else {
        None
    }
}

/// The last subject enum of a path is unique.
pub proof fn lemma_last_enum(u: Unit, i: int, n: Seq<char>)
    requires
        last_enum(u, i, n),
    ensures
        enum_named(u, n) == Some(u.enums@[i]),
{
    let j = choose|j: int| #[trigger] last_enum(u, j, n);
    assert(!(j < i) && !(i < j));
}

/// Whether field `i` of the sort is the last one numbered `n`.
pub open spec fn last_field(s: SortMapping, i: int, n: i32) -> bool {
    0 <= i < s.fields@.len() && s.fields@[i].number == n && forall|j: int|
        i < j < s.fields@.len() ==> (#[trigger] s.fields@[j]).number != n
}

/// The sort's field numbered `n`.
pub open spec fn field_numbered(s: SortMapping, n: i32) -> Option<FieldMapping> {
    if exists|i: int| #[trigger] last_field(s, i, n) {
        Some(s.fields@[choose|i: int| #[trigger] last_field(s, i, n)])
    } else {
        None
    }
}

/// The last field of a number is unique.
pub proof fn lemma_last_field(s: SortMapping, i: int, n: i32)
    requires
        last_field(s, i, n),
    ensures
        field_numbered(s, n) == Some(s.fields@[i]),
{
    let j = choose|j: int| #[trigger] last_field(s, j, n);
    assert(!(j < i) && !(i < j));
}

/// Whether value `i` of the enum is the last one numbered `n`.
pub open spec fn last_value(e: EnumMapping, i: int, n: i32) -> bool {
    0 <= i < e.values@.len() && e.values@[i].number == n && forall|j: int|
        i < j < e.values@.len() ==> (#[trigger] e.values@[j]).number != n
}

/// The enum's value numbered `n`.
pub open spec fn value_numbered(e: EnumMapping, n: i32) -> Option<EnumValueMapping> {
    if exists|i: int| #[trigger] last_value(e, i, n) {
        Some(e.values@[choose|i: int| #[trigger] last_value(e, i, n)])
    } else {
        None
    }
}

/// The last value of a number is unique.
pub proof fn lemma_last_value(e: EnumMapping, i: int, n: i32)
    requires
        last_value(e, i, n),
    ensures
        value_numbered(e, n) == Some(e.values@[i]),
{
    let j = choose|j: int| #[trigger] last_value(e, j, n);
    assert(!(j < i) && !(i < j));
}

/// The subject sort of path `n` of a unit that may be absent.
pub open spec fn opt_sort(u: Option<Unit>, n: Seq<char>) -> Option<SortMapping> {
    match u {
        Some(u) => sort_named(u, n),
        None => None,
    }
}

/// The subject enum of path `n` of a unit that may be absent.
pub open spec fn opt_enum(u: Option<Unit>, n: Seq<char>) -> Option<EnumMapping> {
    match u {
        Some(u) => enum_named(u, n),
        None => None,
    }
}

/// The field numbered `n` of a sort that may be absent.
pub open spec fn opt_field(s: Option<SortMapping>, n: i32) -> Option<FieldMapping> {
    match s {
        Some(s) => field_numbered(s, n),
        None => None,
    }
}

/// The value numbered `n` of an enum that may be absent.
pub open spec fn opt_value(e: Option<EnumMapping>, n: i32) -> Option<EnumValueMapping> {
    match e {
        Some(e) => value_numbered(e, n),
        None => None,
    }
}

// ---------------------------------------------------------------------------------------------
// Referents.
// ---------------------------------------------------------------------------------------------

/// Whether `x` is the greatest text satisfying `p`.
pub open spec fn is_greatest(p: spec_fn(Seq<char>) -> bool, x: Seq<char>) -> bool {
    p(x) && forall|y: Seq<char>| #[trigger] p(y) ==> y == x || seq_lt(y, x)
}

/// The greatest text satisfying `p`, when there is one.
pub open spec fn greatest(p: spec_fn(Seq<char>) -> bool) -> Option<Seq<char>> {
    if exists|x: Seq<char>| #[trigger] is_greatest(p, x) {
        Some(choose|x: Seq<char>| #[trigger] is_greatest(p, x))
    } else {
        None
    }
}

/// The greatest text of a predicate is unique.
pub proof fn lemma_greatest(p: spec_fn(Seq<char>) -> bool, x: Seq<char>)
    requires
        is_greatest(p, x),
    ensures
        greatest(p) == Some(x),
{
    let y = choose|y: Seq<char>| #[trigger] is_greatest(p, y);
    assert(p(y) && p(x));
    lemma_seq_lt_total(x, y);
}

/// Nothing satisfies `p`: there is no greatest.
pub proof fn lemma_no_greatest(p: spec_fn(Seq<char>) -> bool)
    requires
        forall|y: Seq<char>| !#[trigger] p(y),
    ensures
        greatest(p) is None,
{
}

/// The paths of the unit's subject enums whose predicate is `q`.
pub open spec fn enums_spelled(u: Unit, q: Seq<char>) -> spec_fn(Seq<char>) -> bool {
    |n: Seq<char>| enum_named(u, n) matches Some(e) && e.predicate@ == q
}

/// The paths of the unit's subject sorts whose predicate is `q`.
pub open spec fn sorts_spelled(u: Unit, q: Seq<char>) -> spec_fn(Seq<char>) -> bool {
    |n: Seq<char>| sort_named(u, n) matches Some(s) && s.predicate@ == q
}

/// The path a predicate names within one unit: the greatest enum path spelling it, else the
/// greatest sort path spelling it (an enum entered after the sorts replaces a sort of the same
/// predicate).
pub open spec fn unit_resolves(u: Unit, q: Seq<char>) -> Option<Seq<char>> {
    match greatest(enums_spelled(u, q)) {
        Some(n) => Some(n),
        None => greatest(sorts_spelled(u, q)),
    }
}

/// The keys whose subject unit declares predicate `q`.
pub open spec fn keys_declaring(us: Seq<Unit>, q: Seq<char>) -> spec_fn(Seq<char>) -> bool {
    |k: Seq<char>| side_unit(us, k) matches Some(u) && unit_resolves(u, q) is Some
}

/// The identity — normalized package and package-relative path — a referent predicate `q`
/// resolves to on one side: the declaration in the greatest package declaring it, or `None`
/// when no subject sort or enum of the side declares it (a closure referent).
pub open spec fn resolve(us: Seq<Unit>, q: Seq<char>) -> Option<(Seq<char>, Seq<char>)> {
    match greatest(keys_declaring(us, q)) {
        Some(k) => Some((k, unit_resolves(side_unit(us, k).unwrap(), q).unwrap())),
        None => None,
    }
}

/// Whether two referent predicates name one type: by the identities they resolve to when both
/// resolve, as spelled when neither does, never when exactly one does.
pub open spec fn same_referent(olds: Seq<Unit>, news: Seq<Unit>, p: Seq<char>, q: Seq<char>) -> bool {
    match (resolve(olds, p), resolve(news, q)) {
        (Some(a), Some(b)) => a == b,
        (None, None) => p == q,
        _ => false,
    }
}

/// Whether two field values are one value: two scalars by kind and treatment; two message
/// referents, or two enum referents, by identity; anything else not.
pub open spec fn same_value(olds: Seq<Unit>, news: Seq<Unit>, a: ValueMapping, b: ValueMapping) -> bool {
    match (a, b) {
        (ValueMapping::Scalar { kind: k1, treatment: t1 }, ValueMapping::Scalar {
            kind: k2,
            treatment: t2,
        }) => k1 == k2 && t1 == t2,
        (ValueMapping::Message(p), ValueMapping::Message(q)) => same_referent(olds, news, p@, q@),
        (ValueMapping::Enum { referent: p, .. }, ValueMapping::Enum { referent: q, .. }) => {
            same_referent(olds, news, p@, q@)
        },
        _ => false,
    }
}

// ---------------------------------------------------------------------------------------------
// Forms and oneof cells.
// ---------------------------------------------------------------------------------------------

/// Form equality for the detection line: two oneof arms are one form whatever their oneofs are
/// named; every other form compares by value.
pub open spec fn same_form(a: EmitForm, b: EmitForm) -> bool {
    match (a, b) {
        (EmitForm::OneofArm { .. }, EmitForm::OneofArm { .. }) => true,
        (EmitForm::Function, EmitForm::Function) => true,
        (EmitForm::Membership, EmitForm::Membership) => true,
        (EmitForm::Sequence, EmitForm::Sequence) => true,
        (EmitForm::Mapped { key: k1, key_treatment: t1 }, EmitForm::Mapped {
            key: k2,
            key_treatment: t2,
        }) => k1 == k2 && t1 == t2,
        _ => false,
    }
}

/// Whether some field of the sort numbered `n` is an arm of the oneof labelled `label`.
pub open spec fn arm_of(s: SortMapping, label: Seq<char>, n: i32) -> bool {
    exists|i: int|
        0 <= i < s.fields@.len() && (#[trigger] s.fields@[i]).number == n && (
        s.fields@[i].form matches EmitForm::OneofArm { oneof } && oneof@ == label)
}

/// Whether field number `n` is held by both sides' sorts.
pub open spec fn matched(os: Option<SortMapping>, ns: Option<SortMapping>, n: i32) -> bool {
    opt_field(os, n) is Some && opt_field(ns, n) is Some
}

/// Whether `n` is in the oneof cell of field `f` on the side whose sort is `s`: `f` is an arm,
/// and `n` numbers an arm of the same oneof there that both sides hold.
pub open spec fn in_cell(
    s: Option<SortMapping>,
    f: Option<FieldMapping>,
    os: Option<SortMapping>,
    ns: Option<SortMapping>,
    n: i32,
) -> bool {
    match (s, f) {
        (Some(s), Some(f)) => match f.form {
            EmitForm::OneofArm { oneof } => matched(os, ns, n) && arm_of(s, oneof@, n),
            _ => false,
        },
        _ => false,
    }
}

/// Whether a field's oneof cell differs between the sides.
pub open spec fn membership_changed(
    os: Option<SortMapping>,
    ns: Option<SortMapping>,
    fo: Option<FieldMapping>,
    fnew: Option<FieldMapping>,
) -> bool {
    exists|n: i32| #[trigger] in_cell(os, fo, os, ns, n) != in_cell(ns, fnew, os, ns, n)
}

// ---------------------------------------------------------------------------------------------
// Ascending key lists.
// ---------------------------------------------------------------------------------------------

/// Whether a list of texts ascends strictly.
pub open spec fn keys_ascending(ks: Seq<Seq<char>>) -> bool {
    forall|i: int, j: int| 0 <= i < j < ks.len() ==> seq_lt(#[trigger] ks[i], #[trigger] ks[j])
}

/// Two strictly ascending lists holding the same texts are one list.
pub proof fn lemma_keys_unique(a: Seq<Seq<char>>, b: Seq<Seq<char>>)
    requires
        keys_ascending(a),
        keys_ascending(b),
        forall|x: Seq<char>| a.contains(x) <==> b.contains(x),
    ensures
        a == b,
    decreases a.len(),
{
    if a.len() == 0 {
        if b.len() > 0 {
            assert(b.contains(b[0]));
        }
        assert(a =~= b);
    } else {
        assert(a.contains(a[0]));
        assert(b.contains(b[0]));
        let i = choose|i: int| 0 <= i < a.len() && a[i] == b[0];
        let j = choose|j: int| 0 <= j < b.len() && b[j] == a[0];
        if i > 0 {
            assert(seq_lt(a[0], a[i]));
        }
        if j > 0 {
            assert(seq_lt(b[0], b[j]));
        }
        lemma_seq_lt_total(a[0], b[0]);
        assert(a[0] == b[0]);
        let a1 = a.drop_first();
        let b1 = b.drop_first();
        lemma_seq_lt_irreflexive(a[0]);
        assert forall|x: Seq<char>| a1.contains(x) <==> b1.contains(x) by {
            if a1.contains(x) {
                let k = choose|k: int| 0 <= k < a1.len() && a1[k] == x;
                assert(a[k + 1] == x);
                assert(seq_lt(a[0], a[k + 1]));
                assert(b.contains(x));
                let m = choose|m: int| 0 <= m < b.len() && b[m] == x;
                assert(m != 0);
                assert(b1[m - 1] == x);
            }
            if b1.contains(x) {
                let k = choose|k: int| 0 <= k < b1.len() && b1[k] == x;
                assert(b[k + 1] == x);
                assert(seq_lt(b[0], b[k + 1]));
                assert(a.contains(x));
                let m = choose|m: int| 0 <= m < a.len() && a[m] == x;
                assert(m != 0);
                assert(a1[m - 1] == x);
            }
        }
        lemma_keys_unique(a1, b1);
        assert(a =~= seq![a[0]] + a1);
        assert(b =~= seq![b[0]] + b1);
    }
}

/// A side's subject keys, ascending.
pub open spec fn side_keys(us: Seq<Unit>) -> Seq<Seq<char>> {
    choose|ks: Seq<Seq<char>>| keys_ascending(ks) && forall|k: Seq<char>| ks.contains(k) <==> has_unit(us, k)
}

/// The ascending list of a side's subject keys is the only one.
pub proof fn lemma_side_keys(us: Seq<Unit>, ks: Seq<Seq<char>>)
    requires
        keys_ascending(ks),
        forall|k: Seq<char>| ks.contains(k) <==> has_unit(us, k),
    ensures
        side_keys(us) == ks,
{
    let c = side_keys(us);
    assert(keys_ascending(c) && forall|k: Seq<char>| c.contains(k) <==> has_unit(us, k));
    lemma_keys_unique(c, ks);
}

/// Whether some key is a subject unit's on both sides.
pub open spec fn comparable(olds: Seq<Unit>, news: Seq<Unit>) -> bool {
    exists|k: Seq<char>| has_unit(olds, k) && #[trigger] has_unit(news, k)
}

} // verus!
