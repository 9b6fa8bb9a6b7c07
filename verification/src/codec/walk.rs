//! The referent index over a mapping: predicate-keyed sort and enum resolution for the payload
//! walk, and name-keyed root resolution for the codec's door — by fully-qualified path, or by a
//! short name no other message shares. Building it checks the closed world the walk assumes: no
//! two sorts or enums share a predicate, and every field's referent is a sort or enum of the
//! mapping.
use vstd::prelude::*;

use crate::diagnostics::{fault_view, fault_views, Diagnostic, DiagnosticKind, Diagnostics, FaultView, Locus};
use crate::diff::index::{text_find, text_get, text_has, text_sorted, text_upsert, lemma_text_find_at};
use crate::policy::{EnumMapping, FieldMapping, Mapping, SortMapping, Unit, ValueMapping};
use crate::text::{chars_of, lemma_seq_lt_irreflexive, owned, seq_lt};

verus! {

broadcast use vstd::string::group_string_axioms;

// ---------------------------------------------------------------------------------------------
// The predicate namespace and the mapping's sorts, as mathematics.
// ---------------------------------------------------------------------------------------------

/// A sort's entry in the predicate namespace: its predicate, that it is a sort, its proto path.
pub open spec fn sort_item(s: SortMapping) -> (Seq<char>, bool, Seq<char>) {
    (s.predicate@, true, s.proto@)
}

/// An enum's entry in the predicate namespace: its predicate, that it is no sort, its proto path.
pub open spec fn enum_item(e: EnumMapping) -> (Seq<char>, bool, Seq<char>) {
    (e.predicate@, false, e.proto@)
}

/// A unit's entries in the predicate namespace: its sorts, then its enums.
pub open spec fn unit_items(u: Unit) -> Seq<(Seq<char>, bool, Seq<char>)> {
    u.sorts@.map_values(|s: SortMapping| sort_item(s)) + u.enums@.map_values(
        |e: EnumMapping| enum_item(e),
    )
}

/// The mapping's entries in the predicate namespace, unit by unit.
pub open spec fn items(us: Seq<Unit>) -> Seq<(Seq<char>, bool, Seq<char>)>
    decreases us.len(),
{
    if us.len() == 0 {
        Seq::empty()
    } else {
        items(us.drop_last()) + unit_items(us.last())
    }
}

/// Whether the first entry with predicate `p` is a sort (`Some(true)`), an enum (`Some(false)`),
/// or no entry has it (`None`).
pub open spec fn first_kind(xs: Seq<(Seq<char>, bool, Seq<char>)>, p: Seq<char>) -> Option<bool>
    decreases xs.len(),
{
    if xs.len() == 0 {
        None
    } else {
        match first_kind(xs.drop_last(), p) {
            Some(b) => Some(b),
            None => if xs.last().0 == p {
                Some(xs.last().1)
            } else {
                None
            },
        }
    }
}

/// The detail of a second sort or enum lowering to one predicate.
pub open spec fn shared_detail(predicate: Seq<char>) -> Seq<char> {
    "two sorts of the mapping lower to the predicate `"@ + predicate + "/1`"@
}

/// The diagnostics the namespace earns: one at every entry whose predicate an earlier entry
/// already holds, in order.
pub open spec fn shared_views(xs: Seq<(Seq<char>, bool, Seq<char>)>) -> Seq<FaultView>
    decreases xs.len(),
{
    if xs.len() == 0 {
        Seq::empty()
    } else {
        shared_views(xs.drop_last()) + if first_kind(xs.drop_last(), xs.last().0) is Some {
            seq![(DiagnosticKind::UnmappableName, Some(xs.last().2), shared_detail(xs.last().0))]
        } else {
            Seq::empty()
        }
    }
}

/// The fields of a run of sorts, sort by sort.
pub open spec fn sort_fields(ss: Seq<SortMapping>) -> Seq<FieldMapping>
    decreases ss.len(),
{
    if ss.len() == 0 {
        Seq::empty()
    } else {
        sort_fields(ss.drop_last()) + ss.last().fields@
    }
}

/// The fields of the mapping, unit by unit and sort by sort.
pub open spec fn unit_fields(us: Seq<Unit>) -> Seq<FieldMapping>
    decreases us.len(),
{
    if us.len() == 0 {
        Seq::empty()
    } else {
        unit_fields(us.drop_last()) + sort_fields(us.last().sorts@)
    }
}

/// Whether a field's referent names no sort (a message) or enum (an enum value) of the
/// namespace — that is, whether the first entry of its predicate is not of its kind.
pub open spec fn dangles(xs: Seq<(Seq<char>, bool, Seq<char>)>, f: FieldMapping) -> bool {
    match f.value {
        ValueMapping::Scalar { .. } => false,
        ValueMapping::Message(p) => first_kind(xs, p@) != Some(true),
        ValueMapping::Enum { referent, .. } => first_kind(xs, referent@) != Some(false),
    }
}

/// The detail of a field whose referent dangles.
pub open spec fn dangling_detail(referent: Seq<char>, kind: Seq<char>) -> Seq<char> {
    "the field's referent `"@ + referent + "` is not a "@ + kind + " of the mapping"@
}

/// The diagnostic of a dangling field.
pub open spec fn dangling_view(f: FieldMapping) -> FaultView {
    match f.value {
        ValueMapping::Enum { referent, .. } => (
            DiagnosticKind::UnmappableName,
            Some(f.proto@),
            dangling_detail(referent@, "enum"@),
        ),
        ValueMapping::Message(p) => (
            DiagnosticKind::UnmappableName,
            Some(f.proto@),
            dangling_detail(p@, "sort"@),
        ),
        ValueMapping::Scalar { .. } => arbitrary(),
    }
}

/// The diagnostics the fields `fs` earn against the namespace `xs`: one per dangling field.
pub open spec fn dangling_views(xs: Seq<(Seq<char>, bool, Seq<char>)>, fs: Seq<FieldMapping>) -> Seq<
    FaultView,
>
    decreases fs.len(),
{
    if fs.len() == 0 {
        Seq::empty()
    } else {
        dangling_views(xs, fs.drop_last()) + if dangles(xs, fs.last()) {
            seq![dangling_view(fs.last())]
        } else {
            Seq::empty()
        }
    }
}

/// Every diagnosis building the index over the units earns, in order: the shared predicates,
/// then the dangling referents.
pub open spec fn index_problems(us: Seq<Unit>) -> Seq<FaultView> {
    shared_views(items(us)) + dangling_views(items(us), unit_fields(us))
}

/// The sorts of unit `ui`, each with its position.
pub open spec fn unit_sorts(u: Unit, ui: int) -> Seq<((int, int), Seq<char>)> {
    Seq::new(u.sorts@.len(), |j: int| ((ui, j), u.sorts@[j].proto@))
}

/// The mapping's sorts with their positions and proto paths, unit by unit.
pub open spec fn positioned(us: Seq<Unit>) -> Seq<((int, int), Seq<char>)>
    decreases us.len(),
{
    if us.len() == 0 {
        Seq::empty()
    } else {
        positioned(us.drop_last()) + unit_sorts(us.last(), us.len() - 1)
    }
}

/// The position of the last sort whose proto path is `name`.
pub open spec fn last_named(xs: Seq<((int, int), Seq<char>)>, name: Seq<char>) -> Option<(int, int)>
    decreases xs.len(),
{
    if xs.len() == 0 {
        None
    } else if xs.last().1 == name {
        Some(xs.last().0)
    } else {
        last_named(xs.drop_last(), name)
    }
}

/// The final dot-separated segment of a proto path — a message's short name.
pub open spec fn final_segment_view(path: Seq<char>) -> Seq<char>
    decreases path.len(),
{
    if path.len() == 0 {
        path
    } else if path.last() == '.' {
        Seq::empty()
    } else {
        final_segment_view(path.drop_last()).push(path.last())
    }
}

/// The sorts whose short name is `short`, in order.
pub open spec fn namesakes(xs: Seq<((int, int), Seq<char>)>, short: Seq<char>) -> Seq<
    ((int, int), Seq<char>),
>
    decreases xs.len(),
{
    if xs.len() == 0 {
        Seq::empty()
    } else {
        namesakes(xs.drop_last(), short) + if final_segment_view(xs.last().1) == short {
            seq![xs.last()]
        } else {
            Seq::empty()
        }
    }
}

/// What a short name resolves to among the sorts: nothing when none bears it, the one sort
/// when one does, and no sort (`Some(None)`) when several share it.
pub open spec fn short_entry(xs: Seq<((int, int), Seq<char>)>, short: Seq<char>) -> Option<
    Option<(int, int)>,
> {
    let ns = namesakes(xs, short);
    if ns.len() == 0 {
        None
    } else if ns.len() == 1 {
        Some(Some(ns[0].0))
    } else {
        Some(None)
    }
}

/// The sort a root name resolves to: the last sort of that proto path, else the one sort that
/// alone bears it as a short name.
pub open spec fn root_of(us: Seq<Unit>, name: Seq<char>) -> Option<(int, int)> {
    let xs = positioned(us);
    match last_named(xs, name) {
        Some(r) => Some(r),
        None => match short_entry(xs, name) {
            Some(Some(r)) => Some(r),
            _ => None,
        },
    }
}

/// The paths of a run of sorts, comma-separated.
pub open spec fn joined(ps: Seq<Seq<char>>) -> Seq<char>
    decreases ps.len(),
{
    if ps.len() == 0 {
        Seq::empty()
    } else if ps.len() == 1 {
        ps[0]
    } else {
        joined(ps.drop_last()) + ", "@ + ps.last()
    }
}

/// The detail of a root name that resolves to no message: the messages sharing it as a short
/// name when several do, else a plain miss.
pub open spec fn unknown_root_detail(us: Seq<Unit>, name: Seq<char>) -> Seq<char> {
    let ns = namesakes(positioned(us), name);
    if ns.len() > 1 {
        "`"@ + name + "` names more than one message ("@ + joined(
            ns.map_values(|e: ((int, int), Seq<char>)| e.1),
        ) + "); give the fully-qualified name"@
    } else {
        "`"@ + name + "` names no message of the schema"@
    }
}

// ---------------------------------------------------------------------------------------------
// Positions.
// ---------------------------------------------------------------------------------------------

/// A sort of the mapping, by position: the `sort`th sort of the `unit`th unit.
#[derive(Clone, Copy, Debug, PartialEq, Eq)]
pub struct SortRef {
    unit: usize,
    sort: usize,
}

impl View for SortRef {
    type V = (int, int);

    closed spec fn view(&self) -> (int, int) {
        (self.unit as int, self.sort as int)
    }
}

/// An enum of the mapping, by position: the `enumeration`th enum of the `unit`th unit.
#[derive(Clone, Copy, Debug, PartialEq, Eq)]
pub struct EnumRef {
    unit: usize,
    enumeration: usize,
}

impl View for EnumRef {
    type V = (int, int);

    closed spec fn view(&self) -> (int, int) {
        (self.unit as int, self.enumeration as int)
    }
}

/// Whether `r` is the position of a sort of the units.
pub open spec fn is_sort_at(us: Seq<Unit>, r: (int, int)) -> bool {
    0 <= r.0 < us.len() && 0 <= r.1 < us[r.0].sorts@.len()
}

/// Whether `r` is the position of an enum of the units.
pub open spec fn is_enum_at(us: Seq<Unit>, r: (int, int)) -> bool {
    0 <= r.0 < us.len() && 0 <= r.1 < us[r.0].enums@.len()
}

impl SortRef {
    /// The sort this reference names in `mapping`.
    pub fn in_mapping(self, mapping: &Mapping) -> (r: &SortMapping)
        requires
            is_sort_at(mapping.units@, self@),
        ensures
            *r == mapping.units@[self@.0].sorts@[self@.1],
    {
        &mapping.units()[self.unit].sorts()[self.sort]
    }
}

impl EnumRef {
    /// The enum this reference names in `mapping`.
    pub fn in_mapping(self, mapping: &Mapping) -> (r: &EnumMapping)
        requires
            is_enum_at(mapping.units@, self@),
        ensures
            *r == mapping.units@[self@.0].enums@[self@.1],
    {
        &mapping.units()[self.unit].enums()[self.enumeration]
    }
}

// ---------------------------------------------------------------------------------------------
// Names and diagnostics.
// ---------------------------------------------------------------------------------------------

/// The final dot-separated segment of a proto path — a message's short name.
pub fn final_segment(path: &str) -> (r: Vec<char>)
    ensures
        r@ == final_segment_view(path@),
{
    let cs = chars_of(path);
    let n = cs.len();
    let mut i: usize = n;
    proof {
        assert(cs@.take(n as int) =~= cs@);
        assert(cs@.subrange(n as int, n as int) =~= Seq::<char>::empty());
        assert(cs@ + Seq::<char>::empty() =~= cs@);
    }
    while i > 0 && cs[i - 1] != '.'
        invariant
            i <= n,
            n == cs@.len(),
            cs@ == path@,
            final_segment_view(cs@) == final_segment_view(cs@.take(i as int)) + cs@.subrange(
                i as int,
                n as int,
            ),
        decreases i,
    {
        proof {
            let t = cs@.take(i as int);
            assert(t.drop_last() =~= cs@.take(i - 1));
            assert(cs@.subrange(i - 1, n as int) =~= seq![cs@[i - 1]] + cs@.subrange(
                i as int,
                n as int,
            ));
            assert(final_segment_view(cs@.take(i - 1)).push(cs@[i - 1]) + cs@.subrange(
                i as int,
                n as int,
            ) =~= final_segment_view(cs@.take(i - 1)) + cs@.subrange(i - 1, n as int));
        }
        i = i - 1;
    }
    proof {
        if i > 0 {
            assert(cs@.take(i as int).last() == '.');
        } else {
            assert(cs@.take(0) =~= Seq::<char>::empty());
        }
        assert(final_segment_view(cs@.take(i as int)) =~= Seq::<char>::empty());
        assert(final_segment_view(cs@) =~= cs@.subrange(i as int, n as int));
    }
    let mut r: Vec<char> = Vec::new();
    let mut j: usize = i;
    while j < n
        invariant
            i <= j <= n,
            n == cs@.len(),
            r@ == cs@.subrange(i as int, j as int),
        decreases n - j,
    {
        r.push(cs[j]);
        proof {
            assert(cs@.subrange(i as int, j + 1) =~= cs@.subrange(i as int, j as int).push(cs@[j as int]));
        }
        j = j + 1;
    }
    r
}

/// `UnmappableName` at `path`: a second sort or enum lowering to `predicate`, which the
/// policy's injectivity never emits — checked, not assumed.
fn shared_predicate(path: &str, predicate: &str) -> (r: Diagnostic)
    ensures
        fault_view(r) == (DiagnosticKind::UnmappableName, Some(path@), shared_detail(predicate@)),
{
    let mut detail = owned("two sorts of the mapping lower to the predicate `");
    detail.append(predicate);
    detail.append("/1`");
    Diagnostic::composed(DiagnosticKind::UnmappableName, Locus::at(path), detail)
}

/// `UnmappableName` at the field: its referent predicate names no sort (or enum) of the
/// mapping, which the policy's referent resolution never leaves dangling.
fn dangling_referent(field: &FieldMapping) -> (r: Diagnostic)
    requires
        !(field.value is Scalar),
    ensures
        fault_view(r) == dangling_view(*field),
{
    let (referent, kind) = match &field.value {
        ValueMapping::Message(predicate) => (predicate, "sort"),
        ValueMapping::Enum { referent, .. } => (referent, "enum"),
        ValueMapping::Scalar { .. } => {
            proof {
                assert(false);
            }
            (&field.predicate, "")
        },
    };
    let mut detail = owned("the field's referent `");
    detail.append(referent.as_str());
    detail.append("` is not a ");
    detail.append(kind);
    detail.append(" of the mapping");
    Diagnostic::composed(DiagnosticKind::UnmappableName, Locus::at(field.proto.as_str()), detail)
}


// ---------------------------------------------------------------------------------------------
// Unfolding the namespace one entry at a time.
// ---------------------------------------------------------------------------------------------

/// The first entry of a predicate, after one more entry.
proof fn lemma_first_kind_push(xs: Seq<(Seq<char>, bool, Seq<char>)>, x: (Seq<char>, bool, Seq<char>))
    ensures
        forall|p: Seq<char>|
            #[trigger] first_kind(xs.push(x), p) == match first_kind(xs, p) {
                Some(b) => Some(b),
                None => if x.0 == p {
                    Some(x.1)
                } else {
                    None
                },
            },
        shared_views(xs.push(x)) == shared_views(xs) + if first_kind(xs, x.0) is Some {
            seq![(DiagnosticKind::UnmappableName, Some(x.2), shared_detail(x.0))]
        } else {
            Seq::empty()
        },
{
    assert(xs.push(x).drop_last() =~= xs);
}

/// The sorts' names, after one more sort.
proof fn lemma_positioned_push(ps: Seq<((int, int), Seq<char>)>, x: ((int, int), Seq<char>))
    ensures
        forall|name: Seq<char>|
            #[trigger] last_named(ps.push(x), name) == if x.1 == name {
                Some(x.0)
            } else {
                last_named(ps, name)
            },
        forall|short: Seq<char>|
            #[trigger] namesakes(ps.push(x), short) == namesakes(ps, short) + if final_segment_view(x.1)
                == short {
                seq![x]
            } else {
                Seq::empty()
            },
{
    assert(ps.push(x).drop_last() =~= ps);
}

/// The namespace of the first `n + 1` units extends that of the first `n` by unit `n`'s.
proof fn lemma_take_unit(us: Seq<Unit>, n: int)
    requires
        0 <= n < us.len(),
    ensures
        items(us.take(n + 1)) == items(us.take(n)) + unit_items(us[n]),
        positioned(us.take(n + 1)) == positioned(us.take(n)) + unit_sorts(us[n], n),
        unit_fields(us.take(n + 1)) == unit_fields(us.take(n)) + sort_fields(us[n].sorts@),
{
    assert(us.take(n + 1).drop_last() =~= us.take(n));
}

/// A unit's entries: its sorts first, then its enums.
proof fn lemma_unit_items(u: Unit, k: int)
    requires
        0 <= k < unit_items(u).len(),
    ensures
        unit_items(u).take(k + 1) == unit_items(u).take(k).push(unit_items(u)[k]),
        k < u.sorts@.len() ==> unit_items(u)[k] == sort_item(u.sorts@[k]),
        k >= u.sorts@.len() ==> unit_items(u)[k] == enum_item(u.enums@[k - u.sorts@.len()]),
        unit_items(u).len() == u.sorts@.len() + u.enums@.len(),
{
    assert(unit_items(u).take(k + 1) =~= unit_items(u).take(k).push(unit_items(u)[k]));
}

// ---------------------------------------------------------------------------------------------
// The index.
// ---------------------------------------------------------------------------------------------

/// A sort reference's position, when there is one.
pub open spec fn sort_ref_view(o: Option<SortRef>) -> Option<(int, int)> {
    match o {
        Some(r) => Some(r@),
        None => None,
    }
}

/// An enum reference's position, when there is one.
pub open spec fn enum_ref_view(o: Option<EnumRef>) -> Option<(int, int)> {
    match o {
        Some(r) => Some(r@),
        None => None,
    }
}

/// A short name's entry: absent, one sort, or shared.
pub open spec fn short_ref_view(o: Option<Option<SortRef>>) -> Option<Option<(int, int)>> {
    match o {
        Some(Some(r)) => Some(Some(r@)),
        Some(None) => Some(None),
        None => None,
    }
}

/// What the sort table holds after the namespace entries `xs`: a predicate exactly when its
/// first entry is a sort, under the position of a sort with that predicate.
pub open spec fn sorts_state(sorts: Seq<(Vec<char>, SortRef)>, xs: Seq<(Seq<char>, bool, Seq<char>)>, us: Seq<Unit>) -> bool {
    &&& text_sorted(sorts)
    &&& forall|p: Seq<char>| (#[trigger] text_find(sorts, p)) is Some <==> first_kind(xs, p) == Some(true)
    &&& forall|p: Seq<char>|
        #[trigger] text_find(sorts, p) matches Some(r) ==> is_sort_at(us, r@) && us[r@.0].sorts@[r@.1].predicate@ == p
}

/// What the enum table holds after the namespace entries `xs`, as [`sorts_state`].
pub open spec fn enums_state(enums: Seq<(Vec<char>, EnumRef)>, xs: Seq<(Seq<char>, bool, Seq<char>)>, us: Seq<Unit>) -> bool {
    &&& text_sorted(enums)
    &&& forall|p: Seq<char>| (#[trigger] text_find(enums, p)) is Some <==> first_kind(xs, p) == Some(false)
    &&& forall|p: Seq<char>|
        #[trigger] text_find(enums, p) matches Some(r) ==> is_enum_at(us, r@) && us[r@.0].enums@[r@.1].predicate@ == p
}

/// What the name tables hold after the sorts `ps`: each proto path under its last sort, each
/// short name as [`short_entry`].
pub open spec fn names_state(
    messages: Seq<(Vec<char>, SortRef)>,
    shorts: Seq<(Vec<char>, Option<SortRef>)>,
    ps: Seq<((int, int), Seq<char>)>,
) -> bool {
    &&& text_sorted(messages)
    &&& text_sorted(shorts)
    &&& forall|name: Seq<char>| sort_ref_view(#[trigger] text_find(messages, name)) == last_named(ps, name)
    &&& forall|short: Seq<char>| short_ref_view(#[trigger] text_find(shorts, short)) == short_entry(ps, short)
}

/// Note a sort of the mapping: claim its predicate unless an enum or an earlier sort holds it
/// (a problem then), and record its proto path and short name.
#[verifier::rlimit(30)]
fn note_sort(
    sorts: &mut Vec<(Vec<char>, SortRef)>,
    enums: &Vec<(Vec<char>, EnumRef)>,
    messages: &mut Vec<(Vec<char>, SortRef)>,
    shorts: &mut Vec<(Vec<char>, Option<SortRef>)>,
    problems: &mut Vec<Diagnostic>,
    sort: &SortMapping,
    at: SortRef,
    Ghost(us): Ghost<Seq<Unit>>,
    Ghost(xs): Ghost<Seq<(Seq<char>, bool, Seq<char>)>>,
    Ghost(ps): Ghost<Seq<((int, int), Seq<char>)>>,
)
    requires
        sorts_state(old(sorts)@, xs, us),
        enums_state(enums@, xs, us),
        names_state(old(messages)@, old(shorts)@, ps),
        fault_views(old(problems)@) == shared_views(xs),
        is_sort_at(us, at@),
        us[at@.0].sorts@[at@.1] == *sort,
    ensures
        sorts_state(final(sorts)@, xs.push(sort_item(*sort)), us),
        enums_state(enums@, xs.push(sort_item(*sort)), us),
        names_state(final(messages)@, final(shorts)@, ps.push((at@, sort.proto@))),
        fault_views(final(problems)@) == shared_views(xs.push(sort_item(*sort))),
{
    let ghost x = sort_item(*sort);
    proof {
        lemma_first_kind_push(xs, x);
        lemma_positioned_push(ps, (at@, sort.proto@));
    }
    let key = chars_of(sort.predicate.as_str());
    let in_enums = text_get(enums, key.as_slice()).is_some();
    let taken = if in_enums {
        true
    } else {
        let had = text_get(sorts, key.as_slice()).is_some();
        text_upsert(sorts, key, at);
        had
    };
    if taken {
        let d = shared_predicate(sort.proto.as_str(), sort.predicate.as_str());
        problems.push(d);
    }
    proof {
        assert(fault_views(problems@) =~= shared_views(xs.push(x)));
    }
    let name = chars_of(sort.proto.as_str());
    text_upsert(messages, name, at);
    let short = final_segment(sort.proto.as_str());
    let ghost sv = short@;
    match text_get(shorts, short.as_slice()) {
        Some(_) => text_upsert(shorts, short, None),
        None => text_upsert(shorts, short, Some(at)),
    }
    proof {
        let ps2 = ps.push((at@, sort.proto@));
        assert forall|s: Seq<char>| short_ref_view(#[trigger] text_find(shorts@, s)) == short_entry(ps2, s) by {
            if s == sv {
                assert(namesakes(ps2, s) == namesakes(ps, s) + seq![(at@, sort.proto@)]);
                if namesakes(ps, s).len() == 0 {
                    assert(namesakes(ps2, s) =~= seq![(at@, sort.proto@)]);
                }
            }
        }
    }
}

/// Note an enum of the mapping: claim its predicate unless a sort or an earlier enum holds it
/// (a problem then).
#[verifier::rlimit(30)]
fn note_enum(
    sorts: &Vec<(Vec<char>, SortRef)>,
    enums: &mut Vec<(Vec<char>, EnumRef)>,
    problems: &mut Vec<Diagnostic>,
    enumeration: &EnumMapping,
    at: EnumRef,
    Ghost(us): Ghost<Seq<Unit>>,
    Ghost(xs): Ghost<Seq<(Seq<char>, bool, Seq<char>)>>,
)
    requires
        sorts_state(sorts@, xs, us),
        enums_state(old(enums)@, xs, us),
        fault_views(old(problems)@) == shared_views(xs),
        is_enum_at(us, at@),
        us[at@.0].enums@[at@.1] == *enumeration,
    ensures
        sorts_state(sorts@, xs.push(enum_item(*enumeration)), us),
        enums_state(final(enums)@, xs.push(enum_item(*enumeration)), us),
        fault_views(final(problems)@) == shared_views(xs.push(enum_item(*enumeration))),
{
    let ghost x = enum_item(*enumeration);
    proof {
        lemma_first_kind_push(xs, x);
    }
    let key = chars_of(enumeration.predicate.as_str());
    let in_sorts = text_get(sorts, key.as_slice()).is_some();
    let taken = if in_sorts {
        true
    } else {
        let had = text_get(enums, key.as_slice()).is_some();
        text_upsert(enums, key, at);
        had
    };
    if taken {
        let d = shared_predicate(enumeration.proto.as_str(), enumeration.predicate.as_str());
        problems.push(d);
    }
    proof {
        assert(fault_views(problems@) =~= shared_views(xs.push(x)));
    }
}

/// In strictly sorted entries, the entries up to `j + 1` find what those up to `j` find, and
/// entry `j` under its own key.
proof fn lemma_text_find_take<V>(s: Seq<(Vec<char>, V)>, j: int, k: Seq<char>)
    requires
        text_sorted(s),
        0 <= j < s.len(),
    ensures
        text_find(s.take(j + 1), k) == if s[j].0@ == k {
            Some(s[j].1)
        } else {
            text_find(s.take(j), k)
        },
{
    let a = s.take(j + 1);
    let b = s.take(j);
    assert(text_sorted(a));
    assert(text_sorted(b));
    lemma_text_find_at(a, j);
    if s[j].0@ != k {
        if text_has(b, k) {
            let i = choose|i: int| 0 <= i < b.len() && (#[trigger] b[i].0)@ == k;
            lemma_text_find_at(b, i);
            lemma_text_find_at(a, i);
            assert(a[i] == b[i]);
        }
        if text_has(a, k) {
            let i = choose|i: int| 0 <= i < a.len() && (#[trigger] a[i].0)@ == k;
            assert(i != j);
            assert(b[i] == a[i]);
        }
    }
}

/// The referent index over a mapping: sorts and enums by predicate, messages by proto path and
/// by unshared short name. Each table is a vector of entries kept sorted by their text key and
/// searched by bisection — an ordered map keyed by text whose contents the contracts can state.
#[derive(Debug)]
pub struct Index {
    sorts_by_predicate: Vec<(Vec<char>, SortRef)>,
    enums_by_predicate: Vec<(Vec<char>, EnumRef)>,
    messages_by_name: Vec<(Vec<char>, SortRef)>,
}

impl Index {
    /// The sort position held under predicate `p`.
    pub closed spec fn sort_entry(&self, p: Seq<char>) -> Option<(int, int)> {
        sort_ref_view(text_find(self.sorts_by_predicate@, p))
    }

    /// The enum position held under predicate `p`.
    pub closed spec fn enum_entry(&self, p: Seq<char>) -> Option<(int, int)> {
        enum_ref_view(text_find(self.enums_by_predicate@, p))
    }

    /// The sort position held under the root name `name`.
    pub closed spec fn message_entry(&self, name: Seq<char>) -> Option<(int, int)> {
        sort_ref_view(text_find(self.messages_by_name@, name))
    }

    /// Whether the tables are ordered by key.
    pub closed spec fn ordered(&self) -> bool {
        &&& text_sorted(self.sorts_by_predicate@)
        &&& text_sorted(self.enums_by_predicate@)
        &&& text_sorted(self.messages_by_name@)
    }

    /// Whether the index is the one over the units `us`: a predicate names a sort exactly when
    /// its first entry in the namespace is a sort, an enum likewise, each under the position of
    /// an element with that predicate; a root name names the sort [`root_of`] gives.
    pub open spec fn indexes(&self, us: Seq<Unit>) -> bool {
        &&& self.ordered()
        &&& forall|p: Seq<char>| (#[trigger] self.sort_entry(p)) is Some <==> first_kind(items(us), p) == Some(true)
        &&& forall|p: Seq<char>|
            #[trigger] self.sort_entry(p) matches Some(r) ==> is_sort_at(us, r) && us[r.0].sorts@[r.1].predicate@ == p
        &&& forall|p: Seq<char>| (#[trigger] self.enum_entry(p)) is Some <==> first_kind(items(us), p) == Some(false)
        &&& forall|p: Seq<char>|
            #[trigger] self.enum_entry(p) matches Some(r) ==> is_enum_at(us, r) && us[r.0].enums@[r.1].predicate@ == p
        &&& forall|name: Seq<char>| #[trigger] self.message_entry(name) == root_of(us, name)
    }

    /// Index `mapping` — every sort and enum by predicate, every message by fully-qualified name
    /// and, where no other message shares it, by short name — and check the closed world the
    /// walk then assumes. `UnmappableName` at the second sort or enum of a shared predicate, and
    /// at every field whose referent predicate names no sort (a message) or enum (an enum value)
    /// of the mapping; the index when there is none.
    #[verifier::rlimit(40)]
    pub fn build(mapping: &Mapping) -> (r: Result<Index, Diagnostics>)
        ensures
            r is Ok <==> index_problems(mapping.units@).len() == 0,
            r matches Ok(index) ==> index.indexes(mapping.units@),
            r matches Err(d) ==> fault_views(d@) == index_problems(mapping.units@),
    {
        let units = mapping.units();
        let ghost us = mapping.units@;
        let mut sorts: Vec<(Vec<char>, SortRef)> = Vec::new();
        let mut enums: Vec<(Vec<char>, EnumRef)> = Vec::new();
        let mut messages: Vec<(Vec<char>, SortRef)> = Vec::new();
        let mut shorts: Vec<(Vec<char>, Option<SortRef>)> = Vec::new();
        let mut problems: Vec<Diagnostic> = Vec::new();
        proof {
            assert(us.take(0) =~= Seq::<Unit>::empty());
        }
        let mut ui: usize = 0;
        while ui < units.len()
            invariant
                ui <= us.len(),
                units@ == us,
                sorts_state(sorts@, items(us.take(ui as int)), us),
                enums_state(enums@, items(us.take(ui as int)), us),
                names_state(messages@, shorts@, positioned(us.take(ui as int))),
                fault_views(problems@) == shared_views(items(us.take(ui as int))),
            decreases us.len() - ui,
        {
            let unit = &units[ui];
            let ss = unit.sorts();
            let ghost base = items(us.take(ui as int));
            let ghost pbase = positioned(us.take(ui as int));
            proof {
                lemma_take_unit(us, ui as int);
                assert(unit_items(*unit).take(0) =~= Seq::empty());
                assert(base + unit_items(*unit).take(0) =~= base);
                assert(unit_sorts(*unit, ui as int).take(0) =~= Seq::empty());
                assert(pbase + unit_sorts(*unit, ui as int).take(0) =~= pbase);
            }
            let mut si: usize = 0;
            while si < ss.len()
                invariant
                    ui < us.len(),
                    units@ == us,
                    *unit == us[ui as int],
                    ss@ == unit.sorts@,
                    si <= ss@.len(),
                    base == items(us.take(ui as int)),
                    pbase == positioned(us.take(ui as int)),
                    sorts_state(sorts@, base + unit_items(*unit).take(si as int), us),
                    enums_state(enums@, base + unit_items(*unit).take(si as int), us),
                    names_state(messages@, shorts@, pbase + unit_sorts(*unit, ui as int).take(si as int)),
                    fault_views(problems@) == shared_views(base + unit_items(*unit).take(si as int)),
                decreases ss@.len() - si,
            {
                let at = SortRef { unit: ui, sort: si };
                proof {
                    lemma_unit_items(*unit, si as int);
                    assert(base + unit_items(*unit).take(si + 1) =~= (base + unit_items(*unit).take(
                        si as int,
                    )).push(sort_item(ss@[si as int])));
                    assert(pbase + unit_sorts(*unit, ui as int).take(si + 1) =~= (pbase + unit_sorts(
                        *unit,
                        ui as int,
                    ).take(si as int)).push((at@, ss@[si as int].proto@)));
                }
                note_sort(
                    &mut sorts,
                    &enums,
                    &mut messages,
                    &mut shorts,
                    &mut problems,
                    &ss[si],
                    at,
                    Ghost(us),
                    Ghost(base + unit_items(*unit).take(si as int)),
                    Ghost(pbase + unit_sorts(*unit, ui as int).take(si as int)),
                );
                si = si + 1;
            }
            let es = unit.enums();
            let ghost nsorts = ss@.len();
            let mut ei: usize = 0;
            while ei < es.len()
                invariant
                    ui < us.len(),
                    units@ == us,
                    *unit == us[ui as int],
                    ss@ == unit.sorts@,
                    es@ == unit.enums@,
                    nsorts == ss@.len(),
                    ei <= es@.len(),
                    base == items(us.take(ui as int)),
                    pbase == positioned(us.take(ui as int)),
                    sorts_state(sorts@, base + unit_items(*unit).take(nsorts + ei), us),
                    enums_state(enums@, base + unit_items(*unit).take(nsorts + ei), us),
                    names_state(messages@, shorts@, pbase + unit_sorts(*unit, ui as int).take(nsorts as int)),
                    fault_views(problems@) == shared_views(base + unit_items(*unit).take(nsorts + ei)),
                decreases es@.len() - ei,
            {
                let at = EnumRef { unit: ui, enumeration: ei };
                proof {
                    lemma_unit_items(*unit, nsorts + ei);
                    assert(base + unit_items(*unit).take(nsorts + ei + 1) =~= (base + unit_items(
                        *unit,
                    ).take(nsorts + ei)).push(enum_item(es@[ei as int])));
                }
                note_enum(
                    &sorts,
                    &mut enums,
                    &mut problems,
                    &es[ei],
                    at,
                    Ghost(us),
                    Ghost(base + unit_items(*unit).take(nsorts + ei)),
                );
                ei = ei + 1;
            }
            proof {
                assert(unit_items(*unit).take((nsorts + es@.len()) as int) =~= unit_items(*unit));
                assert(unit_sorts(*unit, ui as int).take(nsorts as int) =~= unit_sorts(*unit, ui as int));
            }
            ui = ui + 1;
        }
        proof {
            assert(us.take(us.len() as int) =~= us);
        }
        let ghost all = items(us);
        let ghost ps = positioned(us);
        // The dangling referents.
        let ghost shared = shared_views(all);
        proof {
            assert(unit_fields(us.take(0)) =~= Seq::<FieldMapping>::empty());
            assert(shared + dangling_views(all, Seq::<FieldMapping>::empty()) =~= shared);
        }
        let mut ui: usize = 0;
        while ui < units.len()
            invariant
                ui <= us.len(),
                units@ == us,
                all == items(us),
                shared == shared_views(all),
                sorts_state(sorts@, all, us),
                enums_state(enums@, all, us),
                fault_views(problems@) == shared + dangling_views(all, unit_fields(us.take(ui as int))),
            decreases us.len() - ui,
        {
            let ss = units[ui].sorts();
            let ghost fbase = unit_fields(us.take(ui as int));
            proof {
                lemma_take_unit(us, ui as int);
                assert(ss@.take(0) =~= Seq::<SortMapping>::empty());
                assert(fbase + sort_fields(ss@.take(0)) =~= fbase);
            }
            let mut si: usize = 0;
            while si < ss.len()
                invariant
                    ui < us.len(),
                    units@ == us,
                    ss@ == us[ui as int].sorts@,
                    si <= ss@.len(),
                    all == items(us),
                    shared == shared_views(all),
                    sorts_state(sorts@, all, us),
                    enums_state(enums@, all, us),
                    fbase == unit_fields(us.take(ui as int)),
                    fault_views(problems@) == shared + dangling_views(all, fbase + sort_fields(ss@.take(si as int))),
                decreases ss@.len() - si,
            {
                let fs = ss[si].fields();
                let ghost sbase = fbase + sort_fields(ss@.take(si as int));
                proof {
                    assert(sbase + fs@.take(0) =~= sbase);
                }
                let mut fi: usize = 0;
                while fi < fs.len()
                    invariant
                        si < ss@.len(),
                        fs@ == ss@[si as int].fields@,
                        fi <= fs@.len(),
                        all == items(us),
                        shared == shared_views(all),
                        sorts_state(sorts@, all, us),
                        enums_state(enums@, all, us),
                        fault_views(problems@) == shared + dangling_views(all, sbase + fs@.take(fi as int)),
                    decreases fs@.len() - fi,
                {
                    let field = &fs[fi];
                    let resolved = match &field.value {
                        ValueMapping::Scalar { .. } => true,
                        ValueMapping::Message(predicate) => {
                            let key = chars_of(predicate.as_str());
                            text_get(&sorts, key.as_slice()).is_some()
                        },
                        ValueMapping::Enum { referent, .. } => {
                            let key = chars_of(referent.as_str());
                            text_get(&enums, key.as_slice()).is_some()
                        },
                    };
                    let ghost before = sbase + fs@.take(fi as int);
                    proof {
                        assert(sbase + fs@.take(fi + 1) =~= before.push(*field));
                        assert(before.push(*field).drop_last() =~= before);
                        assert(resolved == !dangles(all, *field));
                    }
                    let ghost was = problems@;
                    if !resolved {
                        let d = dangling_referent(field);
                        problems.push(d);
                        proof {
                            assert(fault_views(was.push(d)) =~= fault_views(was).push(fault_view(d)));
                        }
                    }
                    proof {
                        assert(fault_views(problems@) =~= shared + dangling_views(all, before.push(*field)));
                    }
                    fi = fi + 1;
                }
                proof {
                    assert(fs@.take(fs@.len() as int) =~= fs@);
                    assert(ss@.take(si + 1).drop_last() =~= ss@.take(si as int));
                    assert(sort_fields(ss@.take(si + 1)) == sort_fields(ss@.take(si as int)) + fs@);
                    assert(sbase + fs@ =~= fbase + sort_fields(ss@.take(si + 1)));
                }
                si = si + 1;
            }
            proof {
                assert(ss@.take(ss@.len() as int) =~= ss@);
            }
            ui = ui + 1;
        }
        proof {
            assert(us.take(us.len() as int) =~= us);
        }
        // Unshared short names resolve to their one sort, under any proto path of that text.
        proof {
            assert(shorts@.take(0) =~= Seq::<(Vec<char>, Option<SortRef>)>::empty());
        }
        let mut j: usize = 0;
        while j < shorts.len()
            invariant
                j <= shorts@.len(),
                text_sorted(shorts@),
                text_sorted(messages@),
                forall|short: Seq<char>| short_ref_view(#[trigger] text_find(shorts@, short)) == short_entry(ps, short),
                forall|name: Seq<char>|
                    sort_ref_view(#[trigger] text_find(messages@, name)) == match last_named(ps, name) {
                        Some(r) => Some(r),
                        None => match short_ref_view(text_find(shorts@.take(j as int), name)) {
                            Some(Some(r)) => Some(r),
                            _ => None,
                        },
                    },
            decreases shorts@.len() - j,
        {
            proof {
                assert forall|k: Seq<char>| #[trigger] text_find(shorts@.take(j + 1), k) == if shorts@[j as int].0@ == k {
                    Some(shorts@[j as int].1)
                } else {
                    text_find(shorts@.take(j as int), k)
                } by {
                    lemma_text_find_take(shorts@, j as int, k);
                }
                lemma_text_find_at(shorts@, j as int);
                let k = shorts@[j as int].0@;
                if text_has(shorts@.take(j as int), k) {
                    let i = choose|i: int| 0 <= i < j && (#[trigger] shorts@.take(j as int)[i].0)@ == k;
                    assert(seq_lt(shorts@[i].0@, shorts@[j as int].0@));
                    lemma_seq_lt_irreflexive(k);
                }
                assert(text_find(shorts@.take(j as int), k) is None);
            }
            if let Some(at) = shorts[j].1 {
                if text_get(&messages, shorts[j].0.as_slice()).is_none() {
                    let key = crate::diff::index::clone_chars(&shorts[j].0);
                    text_upsert(&mut messages, key, at);
                }
            }
            j = j + 1;
        }
        proof {
            assert(shorts@.take(shorts@.len() as int) =~= shorts@);
        }
        let index = Index { sorts_by_predicate: sorts, enums_by_predicate: enums, messages_by_name: messages };
        match Diagnostics::collect(problems) {
            None => {
                proof {
                    assert(index_problems(us) =~= fault_views(Seq::<Diagnostic>::empty()));
                }
                Ok(index)
            },
            Some(d) => Err(d),
        }
    }
}

/// The proto paths of the sorts whose short name is `name`, in order.
pub open spec fn namesake_paths(us: Seq<Unit>, name: Seq<char>) -> Seq<Seq<char>> {
    namesakes(positioned(us), name).map_values(|e: ((int, int), Seq<char>)| e.1)
}

/// `UnknownRootType` at the whole-payload locus for `name`: the messages sharing it as a short
/// name when it is ambiguous, else a plain miss.
fn unknown_root_type(mapping: &Mapping, name: &str) -> (r: Diagnostics)
    ensures
        fault_views(r@) == seq![
            (DiagnosticKind::UnknownRootType, None::<Seq<char>>, unknown_root_detail(mapping.units@, name@)),
        ],
{
    let units = mapping.units();
    let ghost us = mapping.units@;
    let wanted = chars_of(name);
    let mut paths: Vec<String> = Vec::new();
    proof {
        assert(us.take(0) =~= Seq::<Unit>::empty());
        assert(paths@.map_values(|p: String| p@) =~= namesakes(positioned(us.take(0)), name@).map_values(
            |e: ((int, int), Seq<char>)| e.1,
        ));
    }
    let mut ui: usize = 0;
    while ui < units.len()
        invariant
            ui <= us.len(),
            units@ == us,
            wanted@ == name@,
            paths@.map_values(|p: String| p@) == namesakes(positioned(us.take(ui as int)), name@).map_values(
                |e: ((int, int), Seq<char>)| e.1,
            ),
        decreases us.len() - ui,
    {
        let ss = units[ui].sorts();
        let ghost base = positioned(us.take(ui as int));
        proof {
            lemma_take_unit(us, ui as int);
            assert(base + unit_sorts(us[ui as int], ui as int).take(0) =~= base);
        }
        let mut si: usize = 0;
        while si < ss.len()
            invariant
                ui < us.len(),
                units@ == us,
                ss@ == us[ui as int].sorts@,
                si <= ss@.len(),
                wanted@ == name@,
                base == positioned(us.take(ui as int)),
                paths@.map_values(|p: String| p@) == namesakes(
                    base + unit_sorts(us[ui as int], ui as int).take(si as int),
                    name@,
                ).map_values(|e: ((int, int), Seq<char>)| e.1),
            decreases ss@.len() - si,
        {
            let ghost before = base + unit_sorts(us[ui as int], ui as int).take(si as int);
            let ghost x = ((ui as int, si as int), ss@[si as int].proto@);
            proof {
                assert(base + unit_sorts(us[ui as int], ui as int).take(si + 1) =~= before.push(x));
                lemma_positioned_push(before, x);
            }
            let short = final_segment(ss[si].proto.as_str());
            let ghost was = paths@;
            if crate::text::chars_eq(short.as_slice(), wanted.as_slice()) {
                paths.push(owned(ss[si].proto.as_str()));
                proof {
                    assert(final_segment_view(x.1) == name@);
                    let ns = namesakes(before, name@);
                    assert(namesakes(before.push(x), name@) == ns + seq![x]);
                    assert((ns + seq![x]).map_values(|e: ((int, int), Seq<char>)| e.1) =~= ns.map_values(
                        |e: ((int, int), Seq<char>)| e.1,
                    ).push(x.1));
                    assert(paths@.map_values(|p: String| p@) =~= was.map_values(|p: String| p@).push(x.1));
                    assert(paths@.map_values(|p: String| p@) =~= namesakes(before.push(x), name@).map_values(
                        |e: ((int, int), Seq<char>)| e.1,
                    ));
                }
            } else {
                proof {
                    assert(namesakes(before.push(x), name@) =~= namesakes(before, name@));
                }
            }
            si = si + 1;
        }
        proof {
            assert(unit_sorts(us[ui as int], ui as int).take(ss@.len() as int) =~= unit_sorts(us[ui as int], ui as int));
        }
        ui = ui + 1;
    }
    proof {
        assert(us.take(us.len() as int) =~= us);
    }
    let ghost pv = paths@.map_values(|p: String| p@);
    let mut detail = owned("`");
    detail.append(name);
    if paths.len() > 1 {
        detail.append("` names more than one message (");
        let mut list = String::new();
        let mut k: usize = 0;
        while k < paths.len()
            invariant
                k <= paths@.len(),
                pv == paths@.map_values(|p: String| p@),
                list@ == joined(pv.take(k as int)),
            decreases paths@.len() - k,
        {
            if k > 0 {
                list.append(", ");
            }
            list.append(paths[k].as_str());
            proof {
                let t = pv.take(k + 1);
                assert(t.drop_last() =~= pv.take(k as int));
                assert(t.last() == paths@[k as int]@);
                if k == 0 {
                    assert(list@ =~= joined(t));
                } else {
                    assert(list@ =~= joined(t));
                }
            }
            k = k + 1;
        }
        proof {
            assert(pv.take(paths@.len() as int) =~= pv);
        }
        detail.append(list.as_str());
        detail.append("); give the fully-qualified name");
    } else {
        detail.append("` names no message of the schema");
    }
    let d = Diagnostic::composed(DiagnosticKind::UnknownRootType, Locus::whole(), detail);
    let r = Diagnostics::one(d);
    proof {
        assert(pv == namesake_paths(us, name@));
        assert(fault_views(r@) =~= seq![fault_view(d)]);
        assert(fault_view(d).2 =~= unknown_root_detail(us, name@));
    }
    r
}

impl Index {
    /// Resolve the root type a caller named: a fully-qualified proto path, or a short name that
    /// exactly one message of the mapping bears. A miss — no such message, or a short name more
    /// than one message shares — is `UnknownRootType` at the whole-payload locus.
    pub fn root(&self, mapping: &Mapping, name: &str) -> (r: Result<SortRef, Diagnostics>)
        requires
            self.indexes(mapping.units@),
        ensures
            r is Ok <==> root_of(mapping.units@, name@) is Some,
            r matches Ok(at) ==> root_of(mapping.units@, name@) == Some(at@),
            r matches Err(d) ==> fault_views(d@) == seq![
                (DiagnosticKind::UnknownRootType, None::<Seq<char>>, unknown_root_detail(mapping.units@, name@)),
            ],
    {
        let key = chars_of(name);
        proof {
            assert(self.message_entry(name@) == root_of(mapping.units@, name@));
        }
        match text_get(&self.messages_by_name, key.as_slice()) {
            Some(at) => Ok(at),
            None => Err(unknown_root_type(mapping, name)),
        }
    }

    /// The sort a referent predicate names, if any.
    pub fn sort_of(&self, predicate: &str) -> (r: Option<SortRef>)
        requires
            self.ordered(),
        ensures
            sort_ref_view(r) == self.sort_entry(predicate@),
    {
        let key = chars_of(predicate);
        text_get(&self.sorts_by_predicate, key.as_slice())
    }

    /// The enum a referent predicate names, if any.
    pub fn enum_of(&self, predicate: &str) -> (r: Option<EnumRef>)
        requires
            self.ordered(),
        ensures
            enum_ref_view(r) == self.enum_entry(predicate@),
    {
        let key = chars_of(predicate);
        text_get(&self.enums_by_predicate, key.as_slice())
    }
}

} // verus!
