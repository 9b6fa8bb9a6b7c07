//! One side's vocabulary indexed whole — its subject units by key, every unit's sorts and enums
//! by path — and the identity a referent predicate resolves to there.
use vstd::prelude::*;

use crate::diff::index::{clone_chars, lemma_text_find_at, text_find, text_has, text_sorted};
use crate::diff::model::{enum_named, enums_spelled, first_unit, greatest, is_greatest, keyed_unit, keys_declaring, last_enum, last_sort, lemma_first_unit, lemma_greatest, lemma_last_enum, lemma_last_sort, lemma_no_greatest, resolve, side_unit, sort_named, sorts_spelled, unit_resolves};
use crate::diff::side::{enum_index, indexes_enums, indexes_sorts, indexes_units, sort_index, subject_units, Side};
use crate::diagnostics::Diagnostic;
use crate::policy::{Mapping, Unit, ValueMapping};
use crate::text::{chars_eq, seq_lt, str_eq};

verus! {

broadcast use vstd::string::group_string_axioms;

/// One side's vocabulary as the comparison reads it: the subject units by normalized package
/// (each entry the position of the unit keeping the key), and every unit's subject sorts and
/// enums by package-relative path (aligned with the mapping's units).
pub struct Vocabulary {
    /// The subject units by key.
    pub units: Vec<(Vec<char>, usize)>,
    /// Each unit's sort index.
    pub sorts: Vec<Vec<(Vec<char>, usize)>>,
    /// Each unit's enum index.
    pub enums: Vec<Vec<(Vec<char>, usize)>>,
}

/// Whether `v` indexes the side whose units are `us`.
pub open spec fn indexes(v: Vocabulary, us: Seq<Unit>) -> bool {
    &&& indexes_units(v.units@, us)
    &&& v.sorts@.len() == us.len()
    &&& v.enums@.len() == us.len()
    &&& forall|j: int| 0 <= j < us.len() ==> indexes_sorts(#[trigger] v.sorts@[j]@, us[j])
    &&& forall|j: int| 0 <= j < us.len() ==> indexes_enums(#[trigger] v.enums@[j]@, us[j])
}

/// Index one side: its subject units (with the collisions they earn) and every unit's sorts and
/// enums.
pub fn vocabulary(mapping: &Mapping, side: Side) -> (r: (Vocabulary, Vec<Diagnostic>))
    ensures
        indexes(r.0, mapping.units@),
        r.1@.map_values(|d: Diagnostic| crate::diagnostics::fault_view(d))
            == crate::diff::side::side_faults(mapping.units@, side),
{
    let (units, faults) = subject_units(mapping, side);
    let mut sorts: Vec<Vec<(Vec<char>, usize)>> = Vec::new();
    let mut enums: Vec<Vec<(Vec<char>, usize)>> = Vec::new();
    let mut i: usize = 0;
    while i < mapping.units.len()
        invariant
            i <= mapping.units@.len(),
            sorts@.len() == i,
            enums@.len() == i,
            forall|j: int| 0 <= j < i ==> indexes_sorts(#[trigger] sorts@[j]@, mapping.units@[j]),
            forall|j: int| 0 <= j < i ==> indexes_enums(#[trigger] enums@[j]@, mapping.units@[j]),
        decreases mapping.units@.len() - i,
    {
        sorts.push(sort_index(&mapping.units[i]));
        enums.push(enum_index(&mapping.units[i]));
        i = i + 1;
    }
    (Vocabulary { units, sorts, enums }, faults)
}

/// An entry of a unit's sort index names the sort that path keeps.
pub proof fn lemma_sort_entry(idx: Seq<(Vec<char>, usize)>, u: Unit, e: int)
    requires
        indexes_sorts(idx, u),
        0 <= e < idx.len(),
    ensures
        last_sort(u, idx[e].1 as int, idx[e].0@),
        sort_named(u, idx[e].0@) == Some(u.sorts@[idx[e].1 as int]),
{
    lemma_text_find_at(idx, e);
    assert(text_find(idx, idx[e].0@) == Some(idx[e].1));
    lemma_last_sort(u, idx[e].1 as int, idx[e].0@);
}

/// A path the unit keeps a sort under is an entry of its sort index.
pub proof fn lemma_sort_present(idx: Seq<(Vec<char>, usize)>, u: Unit, n: Seq<char>)
    requires
        indexes_sorts(idx, u),
        sort_named(u, n) is Some,
    ensures
        text_has(idx, n),
{
    let i = choose|i: int| #[trigger] last_sort(u, i, n);
    if !text_has(idx, n) {
        assert(text_find(idx, n) is None);
        assert(!crate::diff::model::named_sort(u, i, n));
    }
}

/// An entry of a unit's enum index names the enum that path keeps.
pub proof fn lemma_enum_entry(idx: Seq<(Vec<char>, usize)>, u: Unit, e: int)
    requires
        indexes_enums(idx, u),
        0 <= e < idx.len(),
    ensures
        last_enum(u, idx[e].1 as int, idx[e].0@),
        enum_named(u, idx[e].0@) == Some(u.enums@[idx[e].1 as int]),
{
    lemma_text_find_at(idx, e);
    assert(text_find(idx, idx[e].0@) == Some(idx[e].1));
    lemma_last_enum(u, idx[e].1 as int, idx[e].0@);
}

/// A path the unit keeps an enum under is an entry of its enum index.
pub proof fn lemma_enum_present(idx: Seq<(Vec<char>, usize)>, u: Unit, n: Seq<char>)
    requires
        indexes_enums(idx, u),
        enum_named(u, n) is Some,
    ensures
        text_has(idx, n),
{
    let i = choose|i: int| #[trigger] last_enum(u, i, n);
    if !text_has(idx, n) {
        assert(text_find(idx, n) is None);
        assert(!crate::diff::model::named_enum(u, i, n));
    }
}

/// An entry of a side's unit index names the unit that key keeps.
pub proof fn lemma_unit_entry(idx: Seq<(Vec<char>, usize)>, us: Seq<Unit>, e: int)
    requires
        indexes_units(idx, us),
        0 <= e < idx.len(),
    ensures
        first_unit(us, idx[e].1 as int, idx[e].0@),
        side_unit(us, idx[e].0@) == Some(us[idx[e].1 as int]),
        0 <= idx[e].1 < us.len(),
{
    lemma_text_find_at(idx, e);
    assert(text_find(idx, idx[e].0@) == Some(idx[e].1));
    lemma_first_unit(us, idx[e].1 as int, idx[e].0@);
}

/// A key the side keeps a unit under is an entry of its unit index.
pub proof fn lemma_unit_present(idx: Seq<(Vec<char>, usize)>, us: Seq<Unit>, k: Seq<char>)
    requires
        indexes_units(idx, us),
        side_unit(us, k) is Some,
    ensures
        text_has(idx, k),
{
    let i = choose|i: int| #[trigger] first_unit(us, i, k);
    assert(keyed_unit(us, i, k));
    if !text_has(idx, k) {
        assert(text_find(idx, k) is None);
    }
}

/// In strictly sorted entries, a later entry's key orders after an earlier one's.
proof fn lemma_sorted_at<V>(idx: Seq<(Vec<char>, V)>, a: int, b: int)
    requires
        text_sorted(idx),
        0 <= a <= b < idx.len(),
    ensures
        idx[a].0@ == idx[b].0@ || seq_lt(idx[a].0@, idx[b].0@),
{
    if a < b {
        assert(seq_lt(idx[a].0@, idx[b].0@));
    }
}

/// The greatest path of the unit's subject sorts whose predicate is `q`.
fn greatest_sort(u: &Unit, idx: &Vec<(Vec<char>, usize)>, q: &str) -> (r: Option<usize>)
    requires
        indexes_sorts(idx@, *u),
    ensures
        r matches Some(e) ==> e < idx@.len() && is_greatest(sorts_spelled(*u, q@), idx@[e as int].0@),
        r is None ==> greatest(sorts_spelled(*u, q@)) is None,
{
    let ghost p = sorts_spelled(*u, q@);
    let mut found: Option<usize> = None;
    let mut i: usize = 0;
    while i < idx.len()
        invariant
            indexes_sorts(idx@, *u),
            p == sorts_spelled(*u, q@),
            i <= idx@.len(),
            found matches Some(e) ==> e < i && p(idx@[e as int].0@),
            forall|e: int| 0 <= e < i && #[trigger] p(idx@[e].0@) ==> (found matches Some(f) && e <= f),
        decreases idx@.len() - i,
    {
        let pos = idx[i].1;
        proof {
            lemma_sort_entry(idx@, *u, i as int);
        }
        if pos < u.sorts.len() && str_eq(u.sorts[pos].predicate.as_str(), q) {
            found = Some(i);
        }
        i = i + 1;
    }
    match found {
        Some(f) => {
            proof {
                let x = idx@[f as int].0@;
                assert forall|y: Seq<char>| #[trigger] p(y) implies y == x || seq_lt(y, x) by {
                    lemma_sort_present(idx@, *u, y);
                    let e = choose|e: int| 0 <= e < idx@.len() && (#[trigger] idx@[e].0)@ == y;
                    assert(p(idx@[e].0@));
                    lemma_sorted_at(idx@, e, f as int);
                }
            }
            Some(f)
        },
        None => {
            proof {
                assert forall|y: Seq<char>| !#[trigger] p(y) by {
                    if p(y) {
                        lemma_sort_present(idx@, *u, y);
                        let e = choose|e: int| 0 <= e < idx@.len() && (#[trigger] idx@[e].0)@ == y;
                        assert(p(idx@[e].0@));
                    }
                }
                lemma_no_greatest(p);
            }
            None
        },
    }
}

/// The greatest path of the unit's subject enums whose predicate is `q`.
fn greatest_enum(u: &Unit, idx: &Vec<(Vec<char>, usize)>, q: &str) -> (r: Option<usize>)
    requires
        indexes_enums(idx@, *u),
    ensures
        r matches Some(e) ==> e < idx@.len() && is_greatest(enums_spelled(*u, q@), idx@[e as int].0@),
        r is None ==> greatest(enums_spelled(*u, q@)) is None,
{
    let ghost p = enums_spelled(*u, q@);
    let mut found: Option<usize> = None;
    let mut i: usize = 0;
    while i < idx.len()
        invariant
            indexes_enums(idx@, *u),
            p == enums_spelled(*u, q@),
            i <= idx@.len(),
            found matches Some(e) ==> e < i && p(idx@[e as int].0@),
            forall|e: int| 0 <= e < i && #[trigger] p(idx@[e].0@) ==> (found matches Some(f) && e <= f),
        decreases idx@.len() - i,
    {
        let pos = idx[i].1;
        proof {
            lemma_enum_entry(idx@, *u, i as int);
        }
        if pos < u.enums.len() && str_eq(u.enums[pos].predicate.as_str(), q) {
            found = Some(i);
        }
        i = i + 1;
    }
    match found {
        Some(f) => {
            proof {
                let x = idx@[f as int].0@;
                assert forall|y: Seq<char>| #[trigger] p(y) implies y == x || seq_lt(y, x) by {
                    lemma_enum_present(idx@, *u, y);
                    let e = choose|e: int| 0 <= e < idx@.len() && (#[trigger] idx@[e].0)@ == y;
                    assert(p(idx@[e].0@));
                    lemma_sorted_at(idx@, e, f as int);
                }
            }
            Some(f)
        },
        None => {
            proof {
                assert forall|y: Seq<char>| !#[trigger] p(y) by {
                    if p(y) {
                        lemma_enum_present(idx@, *u, y);
                        let e = choose|e: int| 0 <= e < idx@.len() && (#[trigger] idx@[e].0)@ == y;
                        assert(p(idx@[e].0@));
                    }
                }
                lemma_no_greatest(p);
            }
            None
        },
    }
}

/// The path a predicate names within one unit (see [`unit_resolves`]).
fn unit_resolution(
    u: &Unit,
    sorts: &Vec<(Vec<char>, usize)>,
    enums: &Vec<(Vec<char>, usize)>,
    q: &str,
) -> (r: Option<Vec<char>>)
    requires
        indexes_sorts(sorts@, *u),
        indexes_enums(enums@, *u),
    ensures
        r matches Some(n) ==> unit_resolves(*u, q@) == Some(n@),
        r is None ==> unit_resolves(*u, q@) is None,
{
    match greatest_enum(u, enums, q) {
        Some(e) => {
            proof {
                lemma_greatest(enums_spelled(*u, q@), enums@[e as int].0@);
            }
            Some(clone_chars(&enums[e].0))
        },
        None => match greatest_sort(u, sorts, q) {
            Some(e) => {
                proof {
                    lemma_greatest(sorts_spelled(*u, q@), sorts@[e as int].0@);
                }
                Some(clone_chars(&sorts[e].0))
            },
            None => None,
        },
    }
}

/// The identity a referent predicate resolves to on the side `v` indexes (see [`resolve`]).
pub fn resolve_referent(mapping: &Mapping, v: &Vocabulary, q: &str) -> (r: Option<(Vec<char>, Vec<char>)>)
    requires
        indexes(*v, mapping.units@),
    ensures
        r matches Some(id) ==> resolve(mapping.units@, q@) == Some((id.0@, id.1@)),
        r is None ==> resolve(mapping.units@, q@) is None,
{
    let ghost us = mapping.units@;
    let ghost p = keys_declaring(us, q@);
    let mut found: Option<(usize, Vec<char>)> = None;
    let mut i: usize = 0;
    while i < v.units.len()
        invariant
            indexes(*v, us),
            us == mapping.units@,
            p == keys_declaring(us, q@),
            i <= v.units@.len(),
            found matches Some(fd) ==> fd.0 < i && p(v.units@[fd.0 as int].0@) && unit_resolves(
                side_unit(us, v.units@[fd.0 as int].0@).unwrap(),
                q@,
            ) == Some(fd.1@),
            forall|e: int| 0 <= e < i && #[trigger] p(v.units@[e].0@) ==> (found matches Some(fd) && e <= fd.0),
        decreases v.units@.len() - i,
    {
        let pos = v.units[i].1;
        proof {
            lemma_unit_entry(v.units@, us, i as int);
        }
        let unit = &mapping.units[pos];
        match unit_resolution(unit, &v.sorts[pos], &v.enums[pos], q) {
            Some(name) => {
                found = Some((i, name));
            },
            None => {},
        }
        i = i + 1;
    }
    match found {
        Some((f, name)) => {
            proof {
                let x = v.units@[f as int].0@;
                assert forall|y: Seq<char>| #[trigger] p(y) implies y == x || seq_lt(y, x) by {
                    lemma_unit_present(v.units@, us, y);
                    let e = choose|e: int| 0 <= e < v.units@.len() && (#[trigger] v.units@[e].0)@ == y;
                    assert(p(v.units@[e].0@));
                    lemma_sorted_at(v.units@, e, f as int);
                }
                lemma_greatest(p, x);
            }
            Some((clone_chars(&v.units[f].0), name))
        },
        None => {
            proof {
                assert forall|y: Seq<char>| !#[trigger] p(y) by {
                    if p(y) {
                        lemma_unit_present(v.units@, us, y);
                        let e = choose|e: int| 0 <= e < v.units@.len() && (#[trigger] v.units@[e].0)@ == y;
                        assert(p(v.units@[e].0@));
                    }
                }
                lemma_no_greatest(p);
            }
            None
        },
    }
}

/// Whether two referent predicates name one type (see [`same_referent`]).
pub fn same_referent(
    old: &Mapping,
    old_vocabulary: &Vocabulary,
    new: &Mapping,
    new_vocabulary: &Vocabulary,
    p: &str,
    q: &str,
) -> (r: bool)
    requires
        indexes(*old_vocabulary, old.units@),
        indexes(*new_vocabulary, new.units@),
    ensures
        r == crate::diff::model::same_referent(old.units@, new.units@, p@, q@),
{
    match (resolve_referent(old, old_vocabulary, p), resolve_referent(new, new_vocabulary, q)) {
        (Some(a), Some(b)) => {
            let same_key = chars_eq(a.0.as_slice(), b.0.as_slice());
            let same_name = chars_eq(a.1.as_slice(), b.1.as_slice());
            same_key && same_name
        },
        (None, None) => str_eq(p, q),
        _ => false,
    }
}

/// Whether two field values are one value (see [`same_value`]).
pub fn same_value(
    old: &Mapping,
    old_vocabulary: &Vocabulary,
    new: &Mapping,
    new_vocabulary: &Vocabulary,
    a: &ValueMapping,
    b: &ValueMapping,
) -> (r: bool)
    requires
        indexes(*old_vocabulary, old.units@),
        indexes(*new_vocabulary, new.units@),
    ensures
        r == crate::diff::model::same_value(old.units@, new.units@, *a, *b),
{
    match (a, b) {
        (ValueMapping::Scalar { kind: k1, treatment: t1 }, ValueMapping::Scalar {
            kind: k2,
            treatment: t2,
        }) => *k1 == *k2 && *t1 == *t2,
        (ValueMapping::Message(p), ValueMapping::Message(q)) => same_referent(
            old,
            old_vocabulary,
            new,
            new_vocabulary,
            p.as_str(),
            q.as_str(),
        ),
        (ValueMapping::Enum { referent: p, .. }, ValueMapping::Enum { referent: q, .. }) => {
            same_referent(old, old_vocabulary, new, new_vocabulary, p.as_str(), q.as_str())
        },
        _ => false,
    }
}

} // verus!
