//! One side's subject vocabulary as the comparison indexes it: its subject units by normalized
//! package (with the collisions found), a unit's subject sorts and enums by package-relative
//! path, an element's fields and values by number — and the diagnostics a side's shape earns.
use vstd::prelude::*;

use crate::diagnostics::{fault_view, Diagnostic, DiagnosticKind, Locus};
use crate::descriptor::model::Package;
use crate::diff::index::{lemma_text_find_at, num_find, num_sorted, num_upsert, text_find,
    text_get, text_has, text_sorted, text_upsert};
use crate::diff::model::{duplicates, first_position, first_unit, has_unit, is_duplicate,
    keyed_unit, last_enum, last_field, last_sort, last_value, lemma_first_unit, named_enum,
    named_sort, side_keys, unit_is_subject, unit_key};
use crate::diff::names::{normalize_package, relative_name};
use crate::policy::{EnumMapping, Mapping, SortMapping, Unit};
use crate::text::{chars_of, owned, seq_lt, string_of};

verus! {

broadcast use vstd::string::group_string_axioms;

/// Which of the two mappings a diagnostic speaks of.
#[derive(Clone, Copy, Debug, PartialEq, Eq)]
pub enum Side {
    /// The old mapping.
    Old,
    /// The new mapping.
    New,
}

/// The word a diagnostic names a side by.
pub open spec fn side_word(side: Side) -> Seq<char> {
    match side {
        Side::Old => "old"@,
        Side::New => "new"@,
    }
}

impl Side {
    /// The word a diagnostic names the side by.
    pub fn word(self) -> (r: &'static str)
        ensures
            r@ == side_word(self),
    {
        match self {
            Side::Old => "old",
            Side::New => "new",
        }
    }
}

/// The detail of an ambiguity: the side declares two versions of one package.
pub open spec fn ambiguous_detail(
    side: Seq<char>,
    first: Seq<char>,
    second: Seq<char>,
    key: Seq<char>,
) -> Seq<char> {
    "the "@ + side + " schema declares both `"@ + first + "` and `"@ + second
        + "` \u{2014} two versions of one package, `"@ + key
        + "` \u{2014} so which version it is stays ambiguous; give each side one version of a package"@
}

/// The diagnostic the duplicate subject unit at position `d` earns on `side`.
pub open spec fn ambiguity_view(us: Seq<Unit>, side: Side, d: int) -> (
    DiagnosticKind,
    Option<Seq<char>>,
    Seq<char>,
) {
    let k = unit_key(us[d]);
    (
        DiagnosticKind::AmbiguousVersionPackages,
        None,
        ambiguous_detail(
            side_word(side),
            us[first_position(us, k)].package.spec_text(),
            us[d].package.spec_text(),
            k,
        ),
    )
}

/// The diagnostics a side's collisions earn, one per duplicate subject unit, in order.
pub open spec fn side_faults(us: Seq<Unit>, side: Side) -> Seq<
    (DiagnosticKind, Option<Seq<char>>, Seq<char>),
> {
    duplicates(us, us.len() as int).map_values(|d: int| ambiguity_view(us, side, d))
}

/// Whether a unit holds any subject vocabulary.
pub fn is_subject_unit(u: &Unit) -> (r: bool)
    ensures
        r == unit_is_subject(*u),
{
    let mut i: usize = 0;
    while i < u.sorts.len()
        invariant
            i <= u.sorts@.len(),
            forall|j: int| 0 <= j < i ==> !(#[trigger] u.sorts@[j]).subject,
        decreases u.sorts@.len() - i,
    {
        if u.sorts[i].subject {
            return true;
        }
        i = i + 1;
    }
    let mut i: usize = 0;
    while i < u.enums.len()
        invariant
            i <= u.enums@.len(),
            forall|j: int| 0 <= j < u.sorts@.len() ==> !(#[trigger] u.sorts@[j]).subject,
            forall|j: int| 0 <= j < i ==> !(#[trigger] u.enums@[j]).subject,
        decreases u.enums@.len() - i,
    {
        if u.enums[i].subject {
            return true;
        }
        i = i + 1;
    }
    false
}

/// The ambiguity diagnostic for two subject units of one side normalizing to one key.
pub fn ambiguous_version_packages(side: Side, key: &str, first: &Package, second: &Package) -> (r:
    Diagnostic)
    ensures
        fault_view(r) == (
            DiagnosticKind::AmbiguousVersionPackages,
            None::<Seq<char>>,
            ambiguous_detail(side_word(side), first.spec_text(), second.spec_text(), key@),
        ),
{
    let mut detail = owned("the ");
    detail.append(side.word());
    detail.append(" schema declares both `");
    detail.append(first.as_str());
    detail.append("` and `");
    detail.append(second.as_str());
    detail.append("` \u{2014} two versions of one package, `");
    detail.append(key);
    detail.append(
        "` \u{2014} so which version it is stays ambiguous; give each side one version of a package",
    );
    let r = Diagnostic::composed(DiagnosticKind::AmbiguousVersionPackages, Locus::whole(), detail);
    proof {
        assert(fault_view(r).2 =~= ambiguous_detail(
            side_word(side),
            first.spec_text(),
            second.spec_text(),
            key@,
        ));
    }
    r
}

/// What a side's unit index holds: each key of a subject unit, with the position of the first
/// subject unit carrying it.
pub open spec fn indexes_units(idx: Seq<(Vec<char>, usize)>, us: Seq<Unit>) -> bool {
    &&& text_sorted(idx)
    &&& forall|k: Seq<char>| #[trigger]
        text_find(idx, k) matches Some(p) ==> first_unit(us, p as int, k)
    &&& forall|k: Seq<char>| #[trigger] text_find(idx, k) is None ==> !has_unit(us, k)
}

/// One side's subject units keyed by normalized package, with the collisions found: a unit is
/// subject vocabulary when at least one of its sorts or enums is; two subject units normalizing
/// to one key are `AmbiguousVersionPackages`, one diagnostic per further unit, and the first
/// keeps the key.
pub fn subject_units(mapping: &Mapping, side: Side) -> (r: (Vec<(Vec<char>, usize)>, Vec<Diagnostic>))
    ensures
        indexes_units(r.0@, mapping.units@),
        r.1@.map_values(|d: Diagnostic| fault_view(d)) == side_faults(mapping.units@, side),
{
    let ghost us = mapping.units@;
    let mut idx: Vec<(Vec<char>, usize)> = Vec::new();
    let mut faults: Vec<Diagnostic> = Vec::new();
    let mut i: usize = 0;
    while i < mapping.units.len()
        invariant
            us == mapping.units@,
            i <= us.len(),
            text_sorted(idx@),
            forall|k: Seq<char>| #[trigger]
                text_find(idx@, k) matches Some(p) ==> p < i && first_unit(us, p as int, k),
            forall|k: Seq<char>| #[trigger]
                text_find(idx@, k) is None ==> forall|j: int| 0 <= j < i ==> !#[trigger] keyed_unit(us, j, k),
            faults@.map_values(|d: Diagnostic| fault_view(d)) == duplicates(us, i as int).map_values(
                |d: int| ambiguity_view(us, side, d),
            ),
        decreases us.len() - i,
    {
        let unit = &mapping.units[i];
        let ghost before = faults@;
        if is_subject_unit(unit) {
            let key = normalize_package(unit.package.as_str());
            let chars = chars_of(key);
            let ghost k = key@;
            assert(keyed_unit(us, i as int, k));
            match text_get(&idx, chars.as_slice()) {
                Some(p) => {
                    let d = ambiguous_version_packages(side, key, &mapping.units[p].package, &unit.package);
                    faults.push(d);
                    proof {
                        assert(is_duplicate(us, i as int));
                        lemma_first_unit(us, p as int, k);
                        assert(duplicates(us, i + 1) == duplicates(us, i as int).push(i as int));
                        assert(unit_key(us[i as int]) == k);
                        assert(fault_view(d) == ambiguity_view(us, side, i as int));
                        assert(faults@ == before.push(d));
                        let ghost dd = duplicates(us, i as int);
                        assert(before.map_values(|d: Diagnostic| fault_view(d)) == dd.map_values(
                            |d: int| ambiguity_view(us, side, d),
                        ));
                        assert(before.len() == before.map_values(|d: Diagnostic| fault_view(d)).len());
                        assert(dd.len() == dd.map_values(|d: int| ambiguity_view(us, side, d)).len());
                        assert forall|t: int| 0 <= t < faults@.len() implies #[trigger] fault_view(
                            faults@[t],
                        ) == ambiguity_view(us, side, dd.push(i as int)[t]) by {
                            if t < before.len() {
                                assert(fault_view(before[t]) == before.map_values(
                                    |d: Diagnostic| fault_view(d),
                                )[t]);
                                assert(ambiguity_view(us, side, dd[t]) == dd.map_values(
                                    |d: int| ambiguity_view(us, side, d),
                                )[t]);
                            }
                        }
                        assert(faults@.map_values(|d: Diagnostic| fault_view(d)) =~= duplicates(
                            us,
                            i + 1,
                        ).map_values(|d: int| ambiguity_view(us, side, d)));
                    }
                },
                None => {
                    proof {
                        assert(!is_duplicate(us, i as int));
                    }
                    text_upsert(&mut idx, chars, i);
                    proof {
                        assert forall|kk: Seq<char>| #[trigger]
                            text_find(idx@, kk) is None implies forall|j: int|
                            0 <= j < i + 1 ==> !#[trigger] keyed_unit(us, j, kk) by {
                            assert(kk != k);
                        }
                        assert forall|kk: Seq<char>| #[trigger]
                            text_find(idx@, kk) is Some implies text_find(idx@, kk).unwrap() < i + 1
                            && first_unit(us, text_find(idx@, kk).unwrap() as int, kk) by {
                            if kk == k {
                                assert forall|j: int| 0 <= j < i implies !#[trigger] keyed_unit(
                                    us,
                                    j,
                                    kk,
                                ) by {}
                            }
                        }
                    }
                },
            }
        } else {
            proof {
                assert(!is_duplicate(us, i as int));
                assert forall|kk: Seq<char>| #[trigger]
                    text_find(idx@, kk) is None implies forall|j: int|
                    0 <= j < i + 1 ==> !#[trigger] keyed_unit(us, j, kk) by {}
            }
        }
        i = i + 1;
    }
    proof {
        assert forall|k: Seq<char>| #[trigger] text_find(idx@, k) is None implies !has_unit(us, k) by {
            if has_unit(us, k) {
                let j = choose|j: int| #[trigger] keyed_unit(us, j, k);
            }
        }
    }
    (idx, faults)
}

/// What a unit's sort index holds: each subject sort path, with the position of the last subject
/// sort of that path.
pub open spec fn indexes_sorts(idx: Seq<(Vec<char>, usize)>, u: Unit) -> bool {
    &&& text_sorted(idx)
    &&& forall|n: Seq<char>| #[trigger]
        text_find(idx, n) matches Some(p) ==> last_sort(u, p as int, n)
    &&& forall|n: Seq<char>| #[trigger]
        text_find(idx, n) is None ==> forall|j: int| !#[trigger] named_sort(u, j, n)
}

/// A unit's subject sorts by package-relative path, a later sort of one path replacing an
/// earlier one.
pub fn sort_index(u: &Unit) -> (r: Vec<(Vec<char>, usize)>)
    ensures
        indexes_sorts(r@, *u),
{
    let mut idx: Vec<(Vec<char>, usize)> = Vec::new();
    let mut i: usize = 0;
    while i < u.sorts.len()
        invariant
            i <= u.sorts@.len(),
            text_sorted(idx@),
            forall|n: Seq<char>| #[trigger]
                text_find(idx@, n) matches Some(p) ==> p < i && named_sort(*u, p as int, n)
                    && forall|j: int| p < j < i ==> !#[trigger] named_sort(*u, j, n),
            forall|n: Seq<char>| #[trigger]
                text_find(idx@, n) is None ==> forall|j: int|
                    0 <= j < i ==> !#[trigger] named_sort(*u, j, n),
        decreases u.sorts@.len() - i,
    {
        let sort = &u.sorts[i];
        if sort.subject {
            let name = relative_name(sort.proto.as_str(), u.package.as_str());
            let ghost n = name@;
            assert(named_sort(*u, i as int, n));
            text_upsert(&mut idx, chars_of(name), i);
            proof {
                assert forall|m: Seq<char>| #[trigger] text_find(idx@, m) is None implies forall|j: int|
                    0 <= j < i + 1 ==> !#[trigger] named_sort(*u, j, m) by {
                    assert(m != n);
                }
                assert forall|m: Seq<char>| #[trigger] text_find(idx@, m) is Some implies
                    text_find(idx@, m).unwrap() < i + 1 && named_sort(*u, text_find(idx@, m).unwrap() as int, m)
                    && forall|j: int| text_find(idx@, m).unwrap() < j < i + 1 ==> !#[trigger] named_sort(*u, j, m) by {
                    if m != n {
                        assert(!named_sort(*u, i as int, m));
                    }
                }
            }
        } else {
            proof {
                assert(forall|m: Seq<char>| !#[trigger] named_sort(*u, i as int, m));
            }
        }
        i = i + 1;
    }
    idx
}

/// What a unit's enum index holds: each subject enum path, with the position of the last subject
/// enum of that path.
pub open spec fn indexes_enums(idx: Seq<(Vec<char>, usize)>, u: Unit) -> bool {
    &&& text_sorted(idx)
    &&& forall|n: Seq<char>| #[trigger]
        text_find(idx, n) matches Some(p) ==> last_enum(u, p as int, n)
    &&& forall|n: Seq<char>| #[trigger]
        text_find(idx, n) is None ==> forall|j: int| !#[trigger] named_enum(u, j, n)
}

/// A unit's subject enums by package-relative path, a later enum of one path replacing an
/// earlier one.
pub fn enum_index(u: &Unit) -> (r: Vec<(Vec<char>, usize)>)
    ensures
        indexes_enums(r@, *u),
{
    let mut idx: Vec<(Vec<char>, usize)> = Vec::new();
    let mut i: usize = 0;
    while i < u.enums.len()
        invariant
            i <= u.enums@.len(),
            text_sorted(idx@),
            forall|n: Seq<char>| #[trigger]
                text_find(idx@, n) matches Some(p) ==> p < i && named_enum(*u, p as int, n)
                    && forall|j: int| p < j < i ==> !#[trigger] named_enum(*u, j, n),
            forall|n: Seq<char>| #[trigger]
                text_find(idx@, n) is None ==> forall|j: int|
                    0 <= j < i ==> !#[trigger] named_enum(*u, j, n),
        decreases u.enums@.len() - i,
    {
        let enumeration = &u.enums[i];
        if enumeration.subject {
            let name = relative_name(enumeration.proto.as_str(), u.package.as_str());
            let ghost n = name@;
            assert(named_enum(*u, i as int, n));
            text_upsert(&mut idx, chars_of(name), i);
            proof {
                assert forall|m: Seq<char>| #[trigger] text_find(idx@, m) is None implies forall|j: int|
                    0 <= j < i + 1 ==> !#[trigger] named_enum(*u, j, m) by {
                    assert(m != n);
                }
                assert forall|m: Seq<char>| #[trigger] text_find(idx@, m) is Some implies
                    text_find(idx@, m).unwrap() < i + 1 && named_enum(*u, text_find(idx@, m).unwrap() as int, m)
                    && forall|j: int| text_find(idx@, m).unwrap() < j < i + 1 ==> !#[trigger] named_enum(*u, j, m) by {
                    if m != n {
                        assert(!named_enum(*u, i as int, m));
                    }
                }
            }
        } else {
            proof {
                assert(forall|m: Seq<char>| !#[trigger] named_enum(*u, i as int, m));
            }
        }
        i = i + 1;
    }
    idx
}

/// What a sort's field index holds: each field number, with the position of the last field of
/// that number.
pub open spec fn indexes_fields(idx: Seq<(i32, usize)>, s: SortMapping) -> bool {
    &&& num_sorted(idx)
    &&& forall|n: i32| #[trigger] num_find(idx, n) matches Some(p) ==> last_field(s, p as int, n)
    &&& forall|n: i32| #[trigger]
        num_find(idx, n) is None ==> forall|j: int|
            0 <= j < s.fields@.len() ==> (#[trigger] s.fields@[j]).number != n
}

/// A sort's fields by number, a later field of one number replacing an earlier one.
pub fn field_index(s: &SortMapping) -> (r: Vec<(i32, usize)>)
    ensures
        indexes_fields(r@, *s),
{
    let mut idx: Vec<(i32, usize)> = Vec::new();
    let mut i: usize = 0;
    while i < s.fields.len()
        invariant
            i <= s.fields@.len(),
            num_sorted(idx@),
            forall|n: i32| #[trigger]
                num_find(idx@, n) matches Some(p) ==> p < i && s.fields@[p as int].number == n
                    && forall|j: int| p < j < i ==> (#[trigger] s.fields@[j]).number != n,
            forall|n: i32| #[trigger]
                num_find(idx@, n) is None ==> forall|j: int|
                    0 <= j < i ==> (#[trigger] s.fields@[j]).number != n,
        decreases s.fields@.len() - i,
    {
        let number = s.fields[i].number;
        num_upsert(&mut idx, number, i);
        i = i + 1;
    }
    idx
}

/// What an enum's value index holds: each value number, with the position of the last value of
/// that number.
pub open spec fn indexes_values(idx: Seq<(i32, usize)>, e: EnumMapping) -> bool {
    &&& num_sorted(idx)
    &&& forall|n: i32| #[trigger] num_find(idx, n) matches Some(p) ==> last_value(e, p as int, n)
    &&& forall|n: i32| #[trigger]
        num_find(idx, n) is None ==> forall|j: int|
            0 <= j < e.values@.len() ==> (#[trigger] e.values@[j]).number != n
}

/// An enum's values by number, a later value of one number replacing an earlier one.
pub fn value_index(e: &EnumMapping) -> (r: Vec<(i32, usize)>)
    ensures
        indexes_values(r@, *e),
{
    let mut idx: Vec<(i32, usize)> = Vec::new();
    let mut i: usize = 0;
    while i < e.values.len()
        invariant
            i <= e.values@.len(),
            num_sorted(idx@),
            forall|n: i32| #[trigger]
                num_find(idx@, n) matches Some(p) ==> p < i && e.values@[p as int].number == n
                    && forall|j: int| p < j < i ==> (#[trigger] e.values@[j]).number != n,
            forall|n: i32| #[trigger]
                num_find(idx@, n) is None ==> forall|j: int|
                    0 <= j < i ==> (#[trigger] e.values@[j]).number != n,
        decreases e.values@.len() - i,
    {
        let number = e.values[i].number;
        num_upsert(&mut idx, number, i);
        i = i + 1;
    }
    idx
}

/// The listing of a side's keys in a diagnostic: each in backquotes, comma-separated.
pub open spec fn key_list(ks: Seq<Seq<char>>) -> Seq<char>
    decreases ks.len(),
{
    if ks.len() == 0 {
        Seq::empty()
    } else if ks.len() == 1 {
        "`"@ + ks[0] + "`"@
    } else {
        key_list(ks.drop_last()) + ", `"@ + ks.last() + "`"@
    }
}

/// A side's own packages in a diagnostic — its normalized subject keys, or that it has none.
pub open spec fn own_view(ks: Seq<Seq<char>>) -> Seq<char> {
    if ks.len() == 0 {
        "no package of its own"@
    } else {
        key_list(ks)
    }
}

/// The detail of two sides with no subject package in common.
pub open spec fn no_comparable_detail(olds: Seq<Unit>, news: Seq<Unit>) -> Seq<char> {
    "the old schema ("@ + own_view(side_keys(olds)) + ") and the new schema ("@ + own_view(
        side_keys(news),
    )
        + ") have no package in common once version segments are stripped (imported packages aside); keryx diff compares two versions of one schema"@
}

/// The keys of a unit index, in its order.
pub open spec fn index_keys(idx: Seq<(Vec<char>, usize)>) -> Seq<Seq<char>> {
    idx.map_values(|e: (Vec<char>, usize)| e.0@)
}

/// A unit index's keys are the side's subject keys, ascending.
pub proof fn lemma_index_keys(idx: Seq<(Vec<char>, usize)>, us: Seq<Unit>)
    requires
        indexes_units(idx, us),
    ensures
        side_keys(us) == index_keys(idx),
{
    let ks = index_keys(idx);
    assert forall|i: int, j: int| 0 <= i < j < ks.len() implies seq_lt(#[trigger] ks[i], #[trigger] ks[j]) by {
        assert(seq_lt(idx[i].0@, idx[j].0@));
    }
    assert forall|k: Seq<char>| ks.contains(k) <==> has_unit(us, k) by {
        if ks.contains(k) {
            let i = choose|i: int| 0 <= i < ks.len() && ks[i] == k;
            lemma_text_find_at(idx, i);
            assert(text_find(idx, idx[i].0@) == Some(idx[i].1));
            assert(keyed_unit(us, idx[i].1 as int, k));
        }
        if has_unit(us, k) {
            if text_find(idx, k) is None {
                assert(!has_unit(us, k));
            }
            assert(text_has(idx, k));
            let i = choose|i: int| 0 <= i < idx.len() && (#[trigger] idx[i].0)@ == k;
            assert(ks[i] == k);
        }
    }
    crate::diff::model::lemma_side_keys(us, ks);
}

/// A side's own packages for a diagnostic (see [`own_view`]).
pub fn own_packages(idx: &Vec<(Vec<char>, usize)>, Ghost(us): Ghost<Seq<Unit>>) -> (r: String)
    requires
        indexes_units(idx@, us),
    ensures
        r@ == own_view(side_keys(us)),
{
    proof {
        lemma_index_keys(idx@, us);
    }
    let ghost ks = index_keys(idx@);
    if idx.len() == 0 {
        return owned("no package of its own");
    }
    let mut out = String::new();
    let mut i: usize = 0;
    while i < idx.len()
        invariant
            i <= idx@.len(),
            ks == index_keys(idx@),
            out@ == key_list(ks.take(i as int)),
        decreases idx@.len() - i,
    {
        let ghost before = out@;
        if i > 0 {
            out.append(", `");
        } else {
            out.append("`");
        }
        let key = string_of(idx[i].0.as_slice(), 0, idx[i].0.len());
        out.append(key.as_str());
        out.append("`");
        proof {
            assert(idx[i as int].0@.subrange(0, idx[i as int].0@.len() as int) =~= idx[i as int].0@);
            assert(ks[i as int] == idx[i as int].0@);
            let t = ks.take(i + 1);
            assert(t.drop_last() =~= ks.take(i as int));
            assert(t.last() == ks[i as int]);
            if i == 0 {
                assert(out@ =~= key_list(t));
            } else {
                assert(out@ =~= key_list(t));
            }
        }
        i = i + 1;
    }
    proof {
        assert(ks.take(idx@.len() as int) =~= ks);
    }
    out
}

/// The diagnostic for two sides with no subject package in common.
pub fn no_comparable_schemas(
    old_units: &Vec<(Vec<char>, usize)>,
    new_units: &Vec<(Vec<char>, usize)>,
    Ghost(olds): Ghost<Seq<Unit>>,
    Ghost(news): Ghost<Seq<Unit>>,
) -> (r: Diagnostic)
    requires
        indexes_units(old_units@, olds),
        indexes_units(new_units@, news),
    ensures
        fault_view(r) == (
            DiagnosticKind::NoComparableSchemas,
            None::<Seq<char>>,
            no_comparable_detail(olds, news),
        ),
{
    let mut detail = owned("the old schema (");
    let own = own_packages(old_units, Ghost(olds));
    detail.append(own.as_str());
    detail.append(") and the new schema (");
    let own = own_packages(new_units, Ghost(news));
    detail.append(own.as_str());
    detail.append(
        ") have no package in common once version segments are stripped (imported packages aside); keryx diff compares two versions of one schema",
    );
    let r = Diagnostic::composed(DiagnosticKind::NoComparableSchemas, Locus::whole(), detail);
    proof {
        assert(fault_view(r).2 =~= no_comparable_detail(olds, news));
    }
    r
}

/// Whether some key is a subject unit's on both sides.
pub fn any_common(
    old_units: &Vec<(Vec<char>, usize)>,
    new_units: &Vec<(Vec<char>, usize)>,
    Ghost(olds): Ghost<Seq<Unit>>,
    Ghost(news): Ghost<Seq<Unit>>,
) -> (r: bool)
    requires
        indexes_units(old_units@, olds),
        indexes_units(new_units@, news),
    ensures
        r == crate::diff::model::comparable(olds, news),
{
    let mut i: usize = 0;
    while i < old_units.len()
        invariant
            i <= old_units@.len(),
            indexes_units(old_units@, olds),
            indexes_units(new_units@, news),
            forall|e: int| 0 <= e < i ==> !has_unit(news, (#[trigger] old_units@[e]).0@),
        decreases old_units@.len() - i,
    {
        match text_get(new_units, old_units[i].0.as_slice()) {
            Some(q) => {
                proof {
                    let k = old_units@[i as int].0@;
                    lemma_text_find_at(old_units@, i as int);
                    assert(keyed_unit(olds, old_units@[i as int].1 as int, k));
                    assert(keyed_unit(news, q as int, k));
                    assert(has_unit(olds, k) && has_unit(news, k));
                }
                return true;
            },
            None => {},
        }
        i = i + 1;
    }
    proof {
        assert forall|k: Seq<char>| !(has_unit(olds, k) && #[trigger] has_unit(news, k)) by {
            if has_unit(olds, k) {
                if text_find(old_units@, k) is None {
                    assert(!has_unit(olds, k));
                }
                assert(text_has(old_units@, k));
                let e = choose|e: int| 0 <= e < old_units@.len() && (#[trigger] old_units@[e].0)@ == k;
                assert(!has_unit(news, old_units@[e].0@));
            }
        }
    }
    false
}

} // verus!
