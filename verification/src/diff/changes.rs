//! The comparison flattened to its changed nodes: one [`Change`] per node of a kind other than
//! `Unchanged`, with what a changeset record or an exit code needs, sorted by the normalized
//! package, then the element's relative path (empty for a package's own row), then the number
//! (an element's own row first), then the kind's declaration order.
use vstd::prelude::*;
use vstd::multiset::Multiset;

use crate::descriptor::model::Package;
use crate::diff::index::Pair;
use crate::diff::kinds::{breaking, kind_rank, slug_view, ChangeKind};
use crate::diff::model::unref;
use crate::diff::render::{
    enum_signature, field_signature, render_enum_signature, render_field_signature,
    render_sort_signature, render_value_path, sort_signature, value_path,
};
use crate::diff::tree::{
    enum_bridge, enum_kind, field_bridge, package_kind, sort_bridge, sort_kind,
    value_kind, Comparison, EnumDiff, FieldDiff, PackageDiff, SortDiff, ValueDiff,
};
use crate::policy::{EnumMapping, EnumValueMapping, FieldMapping, SortMapping};
use crate::text::{
    hex_char, lemma_seq_lt_irreflexive, lemma_seq_lt_total, lemma_seq_lt_transitive, owned, seq_lt,
    signed_decimal, str_eq, str_lt,
};

verus! {

broadcast use vstd::string::group_string_axioms;

/// One side of a change row as rendered: the element's fully-qualified proto path, and its
/// signature (a package has none).
#[derive(Clone, Debug, PartialEq, Eq)]
struct Rendered {
    path: String,
    signature: Option<String>,
}

/// One row of the changes: a changed node flattened with its kind, the normalized package, the
/// element's relative path, the number (a field's or value's), and, per side, the element's
/// proto path and rendered signature, absent on a side the element is not on — and the bridge
/// view of a pure rename.
#[derive(Clone, Debug, PartialEq, Eq)]
pub struct Change<'a> {
    kind: ChangeKind,
    package: &'a str,
    element: &'a str,
    number: Option<i32>,
    old: Option<Rendered>,
    new: Option<Rendered>,
    bridge: Option<String>,
}

/// A rendered side as plain values: the proto path and the signature.
pub type SideView = (Seq<char>, Option<Seq<char>>);

/// A row as plain values: kind, package, element, number, the old and new rendered sides, and
/// the bridge.
pub type RowView = (
    ChangeKind,
    Seq<char>,
    Seq<char>,
    Option<i32>,
    Option<SideView>,
    Option<SideView>,
    Option<Seq<char>>,
);

/// A rendered side as plain values.
spec fn side_of(r: Option<Rendered>) -> Option<SideView> {
    match r {
        Some(r) => Some(
            (
                r.path@,
                match r.signature {
                    Some(s) => Some(s@),
                    None => None,
                },
            ),
        ),
        None => None,
    }
}

impl<'a> Change<'a> {
    /// The row as plain values.
    pub closed spec fn view_row(&self) -> RowView {
        (
            self.kind,
            self.package@,
            self.element@,
            self.number,
            side_of(self.old),
            side_of(self.new),
            match self.bridge {
                Some(b) => Some(b@),
                None => None,
            },
        )
    }

    /// The kind.
    pub fn kind(&self) -> (r: ChangeKind)
        ensures
            r == self.view_row().0,
    {
        self.kind
    }

    /// The normalized package (`thermal`), one for both sides.
    pub fn package(&self) -> (r: &'a str)
        ensures
            r@ == self.view_row().1,
    {
        self.package
    }

    /// The field or value number; `None` for a package, sort, or enum row.
    pub fn number(&self) -> (r: Option<i32>)
        ensures
            r == self.view_row().3,
    {
        self.number
    }

    /// The old side's fully-qualified proto path — a field's, a sort's or enum's, a value's, or
    /// a package's dotted name — `None` for an addition.
    pub fn old_path(&self) -> (r: Option<&str>)
        ensures
            r matches Some(p) ==> (self.view_row().4 matches Some(s) && s.0 == p@),
            r is None <==> self.view_row().4 is None,
    {
        match &self.old {
            Some(side) => Some(side.path.as_str()),
            None => None,
        }
    }

    /// The new side's fully-qualified proto path; `None` for a removal.
    pub fn new_path(&self) -> (r: Option<&str>)
        ensures
            r matches Some(p) ==> (self.view_row().5 matches Some(s) && s.0 == p@),
            r is None <==> self.view_row().5 is None,
    {
        match &self.new {
            Some(side) => Some(side.path.as_str()),
            None => None,
        }
    }

    /// The old side's rendered signature, in the manifest's vocabulary: a field's
    /// `predicate/arity declared descriptor`, a sort's `predicate/1`, an enum's
    /// `predicate/1 (open)`, a value's constant. A package has none; `None` for an addition.
    pub fn old_signature(&self) -> (r: Option<&str>)
        ensures
            r matches Some(p) ==> (self.view_row().4 matches Some(s) && s.1 == Some(p@)),
            r is None <==> (self.view_row().4 is None || self.view_row().4.unwrap().1 is None),
    {
        match &self.old {
            Some(side) => match &side.signature {
                Some(s) => Some(s.as_str()),
                None => None,
            },
            None => None,
        }
    }

    /// The new side's rendered signature; `None` for a removal.
    pub fn new_signature(&self) -> (r: Option<&str>)
        ensures
            r matches Some(p) ==> (self.view_row().5 matches Some(s) && s.1 == Some(p@)),
            r is None <==> (self.view_row().5 is None || self.view_row().5.unwrap().1 is None),
    {
        match &self.new {
            Some(side) => match &side.signature {
                Some(s) => Some(s.as_str()),
                None => None,
            },
            None => None,
        }
    }

    /// Whether the kind is breaking.
    pub fn is_breaking(&self) -> (r: bool)
        ensures
            r == breaking(self.view_row().0),
    {
        self.kind.is_breaking()
    }

    /// The node's bridge view, as the node gives it.
    pub fn bridge(&self) -> (r: Option<String>)
        ensures
            r matches Some(b) ==> self.view_row().6 == Some(b@),
            r is None <==> self.view_row().6 is None,
    {
        match &self.bridge {
            Some(b) => Some(b.clone()),
            None => None,
        }
    }
}

// ---------------------------------------------------------------------------------------------
// The rows of the tree.
// ---------------------------------------------------------------------------------------------

/// A package's rendered side: its dotted name, no signature.
pub open spec fn package_side(p: Option<Package>) -> Option<SideView> {
    match p {
        Some(p) => Some((p.spec_text(), None)),
        None => None,
    }
}

/// A sort's rendered side: its path and `predicate/1`.
pub open spec fn sort_side(s: Option<SortMapping>) -> Option<SideView> {
    match s {
        Some(s) => Some((s.proto@, Some(sort_signature(s)))),
        None => None,
    }
}

/// An enum's rendered side: its path and `predicate/1 (open)`.
pub open spec fn enum_side(e: Option<EnumMapping>) -> Option<SideView> {
    match e {
        Some(e) => Some((e.proto@, Some(enum_signature(e)))),
        None => None,
    }
}

/// A field's rendered side: its path and its signature.
pub open spec fn field_side(f: Option<FieldMapping>) -> Option<SideView> {
    match f {
        Some(f) => Some((f.proto@, Some(field_signature(f)))),
        None => None,
    }
}

/// A value's rendered side: its path `<enum>.<VALUE>` and its constant.
pub open spec fn value_side(v: Option<EnumValueMapping>, e: Option<EnumMapping>) -> Option<SideView> {
    match (v, e) {
        (Some(v), Some(e)) => Some((value_path(e, v), Some(v.constant@))),
        _ => None,
    }
}

/// The row of a changed field, none for an unchanged one.
pub open spec fn field_row(package: Seq<char>, element: Seq<char>, f: FieldDiff) -> Seq<RowView> {
    let k = f.spec_kind();
    if k != ChangeKind::Unchanged {
        seq![
            (
                k,
                package,
                element,
                Some(f.spec_number()),
                field_side(f.spec_sides().spec_old()),
                field_side(f.spec_sides().spec_new()),
                field_bridge(
                    f.spec_sides(),
                    f.spec_same_value(),
                    f.spec_old_cell() == f.spec_new_cell(),
                ),
            ),
        ]
    } else {
        Seq::empty()
    }
}

/// The rows of a sort's fields, in order.
pub open spec fn field_rows(package: Seq<char>, element: Seq<char>, fs: Seq<FieldDiff>) -> Seq<
    RowView,
>
    decreases fs.len(),
{
    if fs.len() == 0 {
        Seq::empty()
    } else {
        field_rows(package, element, fs.drop_last()) + field_row(package, element, fs.last())
    }
}

/// A sort's rows: its own when it changed, then its fields'.
pub open spec fn sort_rows(package: Seq<char>, s: SortDiff) -> Seq<RowView> {
    let k = sort_kind(s.spec_sides());
    (if k != ChangeKind::Unchanged {
        seq![
            (
                k,
                package,
                s.spec_name(),
                None,
                sort_side(s.spec_sides().spec_old()),
                sort_side(s.spec_sides().spec_new()),
                sort_bridge(s.spec_sides()),
            ),
        ]
    } else {
        Seq::empty()
    }) + field_rows(package, s.spec_name(), s.spec_fields())
}

/// The rows of a package's sorts, in order.
pub open spec fn sorts_rows(package: Seq<char>, ss: Seq<SortDiff>) -> Seq<RowView>
    decreases ss.len(),
{
    if ss.len() == 0 {
        Seq::empty()
    } else {
        sorts_rows(package, ss.drop_last()) + sort_rows(package, ss.last())
    }
}

/// The row of a changed value, none for an unchanged one.
pub open spec fn value_row(
    package: Seq<char>,
    element: Seq<char>,
    oe: Option<EnumMapping>,
    ne: Option<EnumMapping>,
    v: ValueDiff,
) -> Seq<RowView> {
    let k = value_kind(v.spec_sides());
    if k != ChangeKind::Unchanged {
        seq![
            (
                k,
                package,
                element,
                Some(v.spec_number()),
                value_side(v.spec_sides().spec_old(), oe),
                value_side(v.spec_sides().spec_new(), ne),
                None,
            ),
        ]
    } else {
        Seq::empty()
    }
}

/// The rows of an enum's values, in order.
pub open spec fn value_rows(
    package: Seq<char>,
    element: Seq<char>,
    oe: Option<EnumMapping>,
    ne: Option<EnumMapping>,
    vs: Seq<ValueDiff>,
) -> Seq<RowView>
    decreases vs.len(),
{
    if vs.len() == 0 {
        Seq::empty()
    } else {
        value_rows(package, element, oe, ne, vs.drop_last()) + value_row(
            package,
            element,
            oe,
            ne,
            vs.last(),
        )
    }
}

/// An enum's rows: its own when it changed, then its values'.
pub open spec fn enum_rows(package: Seq<char>, e: EnumDiff) -> Seq<RowView> {
    let k = enum_kind(e.spec_sides());
    (if k != ChangeKind::Unchanged {
        seq![
            (
                k,
                package,
                e.spec_name(),
                None,
                enum_side(e.spec_sides().spec_old()),
                enum_side(e.spec_sides().spec_new()),
                enum_bridge(e.spec_sides()),
            ),
        ]
    } else {
        Seq::empty()
    }) + value_rows(
        package,
        e.spec_name(),
        e.spec_sides().spec_old(),
        e.spec_sides().spec_new(),
        e.spec_values(),
    )
}

/// The rows of a package's enums, in order.
pub open spec fn enums_rows(package: Seq<char>, es: Seq<EnumDiff>) -> Seq<RowView>
    decreases es.len(),
{
    if es.len() == 0 {
        Seq::empty()
    } else {
        enums_rows(package, es.drop_last()) + enum_rows(package, es.last())
    }
}

/// A package's rows: its own when one-sided, then its sorts', then its enums'.
pub open spec fn package_rows(p: PackageDiff) -> Seq<RowView> {
    let k = package_kind(p.spec_sides());
    (if k != ChangeKind::Unchanged {
        seq![
            (
                k,
                p.spec_key(),
                Seq::<char>::empty(),
                None,
                package_side(p.spec_sides().spec_old()),
                package_side(p.spec_sides().spec_new()),
                None,
            ),
        ]
    } else {
        Seq::empty()
    }) + sorts_rows(p.spec_key(), p.spec_sorts()) + enums_rows(p.spec_key(), p.spec_enums())
}

/// The rows of the packages, in order.
pub open spec fn comparison_rows(ps: Seq<PackageDiff>) -> Seq<RowView>
    decreases ps.len(),
{
    if ps.len() == 0 {
        Seq::empty()
    } else {
        comparison_rows(ps.drop_last()) + package_rows(ps.last())
    }
}

/// The rows of a sequence of changes.
pub open spec fn views(cs: Seq<Change>) -> Seq<RowView> {
    cs.map_values(|c: Change| c.view_row())
}

/// Whether every field of a sort can have its bridge spelled.
pub open spec fn sort_spellable(s: SortDiff) -> bool {
    forall|k: int|
        0 <= k < s.spec_fields().len() ==> (#[trigger] s.spec_fields()[k]).spec_spellable()
}

/// Whether every field of a package can have its bridge spelled.
pub open spec fn package_spellable(p: PackageDiff) -> bool {
    forall|j: int| 0 <= j < p.spec_sorts().len() ==> sort_spellable(#[trigger] p.spec_sorts()[j])
}

/// Whether every field of a comparison can have its bridge spelled: keryx emits no predicate
/// wider than a ternary family.
pub open spec fn comparison_spellable(c: Comparison) -> bool {
    forall|i: int|
        0 <= i < c.spec_packages().len() ==> package_spellable(#[trigger] c.spec_packages()[i])
}

proof fn lemma_views_push(cs: Seq<Change>, c: Change)
    ensures
        views(cs.push(c)) == views(cs) + seq![c.view_row()],
{
    assert(views(cs.push(c)) =~= views(cs) + seq![c.view_row()]);
}

/// Push a row onto `out`.
fn push_row<'a>(
    out: &mut Vec<Change<'a>>,
    kind: ChangeKind,
    package: &'a str,
    element: &'a str,
    number: Option<i32>,
    old_side: Option<Rendered>,
    new_side: Option<Rendered>,
    bridge: Option<String>,
)
    ensures
        views(final(out)@) == views(old(out)@) + seq![
            Change { kind, package, element, number, old: old_side, new: new_side, bridge }.view_row(),
        ],
{
    let c = Change { kind, package, element, number, old: old_side, new: new_side, bridge };
    let ghost before = out@;
    out.push(c);
    proof {
        lemma_views_push(before, c);
    }
}

/// The rendered side of a field on one side.
fn render_field(f: Option<&FieldMapping>) -> (r: Option<Rendered>)
    ensures
        side_of(r) == field_side(unref(f)),
{
    match f {
        Some(f) => Some(
            Rendered { path: owned(f.proto.as_str()), signature: Some(render_field_signature(f)) },
        ),
        None => None,
    }
}

/// The rendered side of a sort on one side.
fn render_sort(s: Option<&SortMapping>) -> (r: Option<Rendered>)
    ensures
        side_of(r) == sort_side(unref(s)),
{
    match s {
        Some(s) => Some(
            Rendered { path: owned(s.proto.as_str()), signature: Some(render_sort_signature(s)) },
        ),
        None => None,
    }
}

/// The rendered side of an enum on one side.
fn render_enum(e: Option<&EnumMapping>) -> (r: Option<Rendered>)
    ensures
        side_of(r) == enum_side(unref(e)),
{
    match e {
        Some(e) => Some(
            Rendered { path: owned(e.proto.as_str()), signature: Some(render_enum_signature(e)) },
        ),
        None => None,
    }
}

/// The rendered side of a value on one side.
fn render_value(v: Option<&EnumValueMapping>, e: Option<&EnumMapping>) -> (r: Option<Rendered>)
    ensures
        side_of(r) == value_side(unref(v), unref(e)),
{
    match (v, e) {
        (Some(v), Some(e)) => Some(
            Rendered { path: render_value_path(e, v), signature: Some(owned(v.constant.as_str())) },
        ),
        _ => None,
    }
}

/// The rendered side of a package on one side.
fn render_package(p: Option<&Package>) -> (r: Option<Rendered>)
    ensures
        side_of(r) == package_side(unref(p)),
{
    match p {
        Some(p) => Some(Rendered { path: owned(p.as_str()), signature: None }),
        None => None,
    }
}

/// Push the rows of a sort onto `out`.
fn push_sort_rows<'a>(out: &mut Vec<Change<'a>>, package: &'a str, s: &SortDiff<'a>)
    requires
        sort_spellable(*s),
    ensures
        views(final(out)@) == views(old(out)@) + sort_rows(package@, *s),
{
    let ghost start = views(out@);
    let kind = s.kind();
    if kind != ChangeKind::Unchanged {
        let old = render_sort(s.old_sort());
        let new = render_sort(s.new_sort());
        let bridge = s.bridge();
        push_row(out, kind, package, s.name(), None, old, new, bridge);
    }
    let ghost head = views(out@);
    proof {
        if kind == ChangeKind::Unchanged {
            assert(head =~= start + Seq::<RowView>::empty());
        }
    }
    let fields = s.fields();
    let mut i: usize = 0;
    while i < fields.len()
        invariant
            fields@ == s.spec_fields(),
            sort_spellable(*s),
            i <= fields@.len(),
            views(out@) == head + field_rows(package@, s.spec_name(), fields@.take(i as int)),
        decreases fields@.len() - i,
    {
        let f = &fields[i];
        let kind = f.kind();
        proof {
            assert(s.spec_fields()[i as int].spec_spellable());
            assert(fields@.take(i + 1).drop_last() =~= fields@.take(i as int));
        }
        if kind != ChangeKind::Unchanged {
            let old = render_field(f.old_field());
            let new = render_field(f.new_field());
            let bridge = f.bridge();
            push_row(out, kind, package, s.name(), Some(f.number()), old, new, bridge);
        }
        proof {
            let t = fields@.take(i + 1);
            assert(t.last() == *f);
            assert(views(out@) =~= head + field_rows(package@, s.spec_name(), t));
        }
        i = i + 1;
    }
    proof {
        assert(fields@.take(fields@.len() as int) =~= fields@);
        assert(views(out@) =~= start + sort_rows(package@, *s));
    }
}

/// Push the rows of an enum onto `out`.
fn push_enum_rows<'a>(out: &mut Vec<Change<'a>>, package: &'a str, e: &EnumDiff<'a>)
    ensures
        views(final(out)@) == views(old(out)@) + enum_rows(package@, *e),
{
    let ghost start = views(out@);
    let kind = e.kind();
    if kind != ChangeKind::Unchanged {
        let old = render_enum(e.old_enum());
        let new = render_enum(e.new_enum());
        let bridge = e.bridge();
        push_row(out, kind, package, e.name(), None, old, new, bridge);
    }
    let ghost head = views(out@);
    proof {
        if kind == ChangeKind::Unchanged {
            assert(head =~= start + Seq::<RowView>::empty());
        }
    }
    let oe = e.old_enum();
    let ne = e.new_enum();
    let values = e.values();
    let mut i: usize = 0;
    while i < values.len()
        invariant
            values@ == e.spec_values(),
            unref(oe) == e.spec_sides().spec_old(),
            unref(ne) == e.spec_sides().spec_new(),
            i <= values@.len(),
            views(out@) == head + value_rows(
                package@,
                e.spec_name(),
                unref(oe),
                unref(ne),
                values@.take(i as int),
            ),
        decreases values@.len() - i,
    {
        let v = &values[i];
        let kind = v.kind();
        proof {
            assert(values@.take(i + 1).drop_last() =~= values@.take(i as int));
        }
        if kind != ChangeKind::Unchanged {
            let old = render_value(v.old_value(), oe);
            let new = render_value(v.new_value(), ne);
            push_row(out, kind, package, e.name(), Some(v.number()), old, new, None);
        }
        proof {
            let t = values@.take(i + 1);
            assert(t.last() == *v);
            assert(views(out@) =~= head + value_rows(package@, e.spec_name(), unref(oe), unref(ne), t));
        }
        i = i + 1;
    }
    proof {
        assert(values@.take(values@.len() as int) =~= values@);
        assert(views(out@) =~= start + enum_rows(package@, *e));
    }
}

/// Push the rows of a package onto `out`.
fn push_package_rows<'a>(out: &mut Vec<Change<'a>>, p: &PackageDiff<'a>)
    requires
        package_spellable(*p),
    ensures
        views(final(out)@) == views(old(out)@) + package_rows(*p),
{
    let ghost start = views(out@);
    let kind = p.kind();
    if kind != ChangeKind::Unchanged {
        let old = render_package(p.old_package());
        let new = render_package(p.new_package());
        let empty = "";
        proof {
            reveal_strlit("");
            assert(empty@ =~= Seq::<char>::empty());
        }
        push_row(out, kind, p.key(), empty, None, old, new, None);
    }
    let ghost head = views(out@);
    proof {
        if kind == ChangeKind::Unchanged {
            assert(head =~= start + Seq::<RowView>::empty());
        }
    }
    let sorts = p.sorts();
    let mut i: usize = 0;
    while i < sorts.len()
        invariant
            sorts@ == p.spec_sorts(),
            package_spellable(*p),
            i <= sorts@.len(),
            views(out@) == head + sorts_rows(p.spec_key(), sorts@.take(i as int)),
        decreases sorts@.len() - i,
    {
        proof {
            assert(sort_spellable(p.spec_sorts()[i as int]));
            assert(sorts@.take(i + 1).drop_last() =~= sorts@.take(i as int));
        }
        push_sort_rows(out, p.key(), &sorts[i]);
        proof {
            let t = sorts@.take(i + 1);
            assert(views(out@) =~= head + sorts_rows(p.spec_key(), t));
        }
        i = i + 1;
    }
    let ghost middle = views(out@);
    let enums = p.enums();
    let mut i: usize = 0;
    while i < enums.len()
        invariant
            enums@ == p.spec_enums(),
            i <= enums@.len(),
            views(out@) == middle + enums_rows(p.spec_key(), enums@.take(i as int)),
        decreases enums@.len() - i,
    {
        proof {
            assert(enums@.take(i + 1).drop_last() =~= enums@.take(i as int));
        }
        push_enum_rows(out, p.key(), &enums[i]);
        proof {
            let t = enums@.take(i + 1);
            assert(views(out@) =~= middle + enums_rows(p.spec_key(), t));
        }
        i = i + 1;
    }
    proof {
        assert(sorts@.take(sorts@.len() as int) =~= sorts@);
        assert(enums@.take(enums@.len() as int) =~= enums@);
        let x = package_rows(*p).take(head.len() - start.len());
        assert(head =~= start + x);
        assert(views(out@) =~= start + package_rows(*p));
    }
}

/// The rows of a comparison, in tree order.
fn tree_rows<'a>(c: &Comparison<'a>) -> (r: Vec<Change<'a>>)
    requires
        comparison_spellable(*c),
    ensures
        views(r@) == comparison_rows(c.spec_packages()),
{
    let mut out: Vec<Change<'a>> = Vec::new();
    let packages = c.packages();
    let mut i: usize = 0;
    proof {
        assert(views(out@) =~= Seq::<RowView>::empty());
    }
    while i < packages.len()
        invariant
            packages@ == c.spec_packages(),
            comparison_spellable(*c),
            i <= packages@.len(),
            views(out@) == comparison_rows(packages@.take(i as int)),
        decreases packages@.len() - i,
    {
        proof {
            assert(package_spellable(c.spec_packages()[i as int]));
            assert(packages@.take(i + 1).drop_last() =~= packages@.take(i as int));
        }
        push_package_rows(&mut out, &packages[i]);
        proof {
            let t = packages@.take(i + 1);
            assert(views(out@) =~= comparison_rows(t));
        }
        i = i + 1;
    }
    proof {
        assert(packages@.take(packages@.len() as int) =~= packages@);
    }
    out
}

// ---------------------------------------------------------------------------------------------
// The order of the changes.
// ---------------------------------------------------------------------------------------------

/// The number order of rows: a row without a number (an element's own) first, then by value.
pub open spec fn number_lt(a: Option<i32>, b: Option<i32>) -> bool {
    match (a, b) {
        (None, Some(_)) => true,
        (Some(x), Some(y)) => x < y,
        _ => false,
    }
}

/// Whether row `a` sorts strictly before row `b`: by package, then element, then number, then
/// the kind's declaration order.
pub open spec fn row_lt(a: RowView, b: RowView) -> bool {
    ||| seq_lt(a.1, b.1)
    ||| a.1 == b.1 && seq_lt(a.2, b.2)
    ||| a.1 == b.1 && a.2 == b.2 && number_lt(a.3, b.3)
    ||| a.1 == b.1 && a.2 == b.2 && a.3 == b.3 && kind_rank(a.0) < kind_rank(b.0)
}

/// Whether rows are in order: no row sorts strictly before an earlier one.
pub open spec fn rows_sorted(s: Seq<RowView>) -> bool {
    forall|i: int, j: int| 0 <= i < j < s.len() ==> !row_lt(#[trigger] s[j], #[trigger] s[i])
}

/// The row order is irreflexive.
proof fn lemma_row_lt_irreflexive(a: RowView)
    ensures
        !row_lt(a, a),
{
    lemma_seq_lt_irreflexive(a.1);
    lemma_seq_lt_irreflexive(a.2);
}

/// The row order is transitive.
proof fn lemma_row_lt_transitive(a: RowView, b: RowView, c: RowView)
    requires
        row_lt(a, b),
        row_lt(b, c),
    ensures
        row_lt(a, c),
{
    lemma_seq_lt_total(a.1, b.1);
    lemma_seq_lt_total(b.1, c.1);
    lemma_seq_lt_total(a.2, b.2);
    lemma_seq_lt_total(b.2, c.2);
    if seq_lt(a.1, b.1) && seq_lt(b.1, c.1) {
        lemma_seq_lt_transitive(a.1, b.1, c.1);
    }
    if seq_lt(a.2, b.2) && seq_lt(b.2, c.2) {
        lemma_seq_lt_transitive(a.2, b.2, c.2);
    }
}

/// Whether change `a` sorts strictly before change `b` (see [`row_lt`]).
fn change_lt(a: &Change, b: &Change) -> (r: bool)
    ensures
        r == row_lt(a.view_row(), b.view_row()),
{
    if str_lt(a.package, b.package) {
        return true;
    }
    if !str_eq(a.package, b.package) {
        return false;
    }
    if str_lt(a.element, b.element) {
        return true;
    }
    if !str_eq(a.element, b.element) {
        return false;
    }
    match (a.number, b.number) {
        (None, Some(_)) => {
            return true;
        },
        (Some(x), Some(y)) => {
            if x < y {
                return true;
            }
            if x != y {
                return false;
            }
        },
        (Some(_), None) => {
            return false;
        },
        (None, None) => {},
    }
    a.kind.rank() < b.kind.rank()
}

/// Insert a change into sorted changes after every change that does not sort after it.
fn insert_sorted<'a>(out: &mut Vec<Change<'a>>, c: Change<'a>)
    requires
        rows_sorted(views(old(out)@)),
    ensures
        rows_sorted(views(final(out)@)),
        views(final(out)@).to_multiset() == views(old(out)@).to_multiset().insert(c.view_row()),
{
    let ghost before = views(out@);
    let mut p: usize = 0;
    while p < out.len() && !change_lt(&c, &out[p])
        invariant
            p <= out@.len(),
            views(out@) == before,
            forall|i: int| 0 <= i < p ==> !row_lt(c.view_row(), #[trigger] before[i]),
        decreases out@.len() - p,
    {
        assert(before[p as int] == out@[p as int].view_row());
        p = p + 1;
    }
    let ghost x = c.view_row();
    proof {
        if p < out@.len() {
            assert(before[p as int] == out@[p as int].view_row());
            assert(row_lt(x, before[p as int]));
        }
    }
    out.insert(p, c);
    proof {
        let after = views(out@);
        assert(after =~= before.insert(p as int, x));
        assert forall|i: int, j: int| 0 <= i < j < after.len() implies !row_lt(
            #[trigger] after[j],
            #[trigger] after[i],
        ) by {
            if j < p {
                assert(after[i] == before[i] && after[j] == before[j]);
            } else if j == p {
                assert(after[i] == before[i]);
            } else if i < p {
                assert(after[i] == before[i] && after[j] == before[j - 1]);
                if row_lt(before[j - 1], before[i]) {
                }
            } else if i == p {
                assert(after[j] == before[j - 1]);
                if row_lt(before[j - 1], x) {
                    if j - 1 > p {
                        assert(!row_lt(before[j - 1], before[p as int]));
                    }
                    lemma_row_lt_transitive(before[j - 1], x, before[p as int]);
                    lemma_row_lt_irreflexive(before[p as int]);
                }
            } else {
                assert(after[i] == before[i - 1] && after[j] == before[j - 1]);
            }
        }
        vstd::seq_lib::to_multiset_insert(before, p as int, x);
    }
}

impl<'a> Comparison<'a> {
    /// Whether every field's bridge can be spelled: no renamed field maps to a predicate wider
    /// than a ternary family.
    pub fn spellable(&self) -> (r: bool)
        ensures
            r == comparison_spellable(*self),
    {
        let packages = self.packages();
        let mut i: usize = 0;
        while i < packages.len()
            invariant
                i <= packages@.len(),
                packages@ == self.spec_packages(),
                forall|a: int| 0 <= a < i ==> package_spellable(#[trigger] packages@[a]),
            decreases packages@.len() - i,
        {
            let sorts = packages[i].sorts();
            let mut j: usize = 0;
            while j < sorts.len()
                invariant
                    j <= sorts@.len(),
                    i < packages@.len(),
                    packages@ == self.spec_packages(),
                    sorts@ == packages@[i as int].spec_sorts(),
                    forall|b: int| 0 <= b < j ==> sort_spellable(#[trigger] sorts@[b]),
                decreases sorts@.len() - j,
            {
                let fields = sorts[j].fields();
                let mut k: usize = 0;
                while k < fields.len()
                    invariant
                        k <= fields@.len(),
                        i < packages@.len(),
                        j < sorts@.len(),
                        packages@ == self.spec_packages(),
                        sorts@ == packages@[i as int].spec_sorts(),
                        fields@ == sorts@[j as int].spec_fields(),
                        forall|c: int| 0 <= c < k ==> (#[trigger] fields@[c]).spec_spellable(),
                    decreases fields@.len() - k,
                {
                    let ok = match (fields[k].old_field(), fields[k].new_field()) {
                        (Some(o), Some(_)) => fields[k].kind() != ChangeKind::Renamed || o.arity() <= 3,
                        _ => true,
                    };
                    if !ok {
                        proof {
                            assert(!fields@[k as int].spec_spellable());
                            assert(!sort_spellable(sorts@[j as int]));
                            assert(!package_spellable(packages@[i as int]));
                            assert(!comparison_spellable(*self));
                        }
                        return false;
                    }
                    k = k + 1;
                }
                j = j + 1;
            }
            i = i + 1;
        }
        true
    }

    /// The tree flattened to its changed nodes, the unchanged skipped: one [`Change`] per node of
    /// a kind other than `Unchanged`, sorted by the normalized package, then the sort's or enum's
    /// relative path (empty for a package's own row), then the field or value number (an
    /// element's own row first), then the kind's declaration order. A one-sided package or
    /// element rides with its children as rows of their own.
    pub fn changes(&self) -> (r: Vec<Change<'a>>)
        requires
            comparison_spellable(*self),
        ensures
            rows_sorted(views(r@)),
            views(r@).to_multiset() == comparison_rows(self.spec_packages()).to_multiset(),
    {
        broadcast use vstd::seq_lib::group_to_multiset_ensures, vstd::multiset::group_multiset_axioms;

        let mut rows = tree_rows(self);
        let ghost all = views(rows@);
        let mut out: Vec<Change<'a>> = Vec::new();
        proof {
            assert(views(out@) =~= Seq::<RowView>::empty());
            assert(views(out@).to_multiset() =~= Multiset::empty());
            assert(all.take(all.len() as int) =~= all);
            assert(views(out@).to_multiset().add(views(rows@).to_multiset()) =~= all.to_multiset());
        }
        while rows.len() > 0
            invariant
                rows_sorted(views(out@)),
                views(rows@) == all.take(views(rows@).len() as int),
                views(rows@).len() <= all.len(),
                views(out@).to_multiset().add(views(rows@).to_multiset()) == all.to_multiset(),
            decreases rows@.len(),
        {
            let ghost remaining = views(rows@);
            let c = rows.pop().unwrap();
            proof {
                assert(views(rows@) =~= remaining.drop_last());
                assert(remaining =~= views(rows@).push(c.view_row()));
                vstd::seq_lib::to_multiset_build(views(rows@), c.view_row());
                assert(views(rows@) =~= all.take(views(rows@).len() as int));
            }
            let ghost placed = views(out@);
            insert_sorted(&mut out, c);
            proof {
                assert(views(out@).to_multiset().add(views(rows@).to_multiset()) =~= placed.to_multiset().add(
                    remaining.to_multiset(),
                ));
            }
        }
        proof {
            assert(views(rows@).len() == 0);
            assert(views(rows@).to_multiset() =~= Multiset::empty());
            assert(views(out@).to_multiset().add(Multiset::empty()) =~= views(out@).to_multiset());
        }
        out
    }

    /// Whether any change is of a breaking kind.
    pub fn is_breaking(&self) -> (r: bool)
        requires
            comparison_spellable(*self),
        ensures
            r == exists|i: int|
                0 <= i < comparison_rows(self.spec_packages()).len() && breaking(
                    #[trigger] comparison_rows(self.spec_packages())[i].0,
                ),
    {
        broadcast use vstd::seq_lib::group_to_multiset_ensures, vstd::multiset::group_multiset_axioms;

        let rows = self.changes();
        let ghost all = comparison_rows(self.spec_packages());
        let mut i: usize = 0;
        while i < rows.len()
            invariant
                i <= rows@.len(),
                all == comparison_rows(self.spec_packages()),
                views(rows@).to_multiset() == all.to_multiset(),
                forall|j: int| 0 <= j < i ==> !breaking((#[trigger] views(rows@)[j]).0),
            decreases rows@.len() - i,
        {
            proof {
                assert(views(rows@)[i as int] == rows@[i as int].view_row());
            }
            if rows[i].is_breaking() {
                proof {
                    let x = views(rows@)[i as int];
                    assert(x == rows@[i as int].view_row());
                    assert(views(rows@).contains(x));
                    vstd::seq_lib::to_multiset_contains(views(rows@), x);
                    assert(views(rows@).to_multiset().count(x) > 0);
                    assert(all.to_multiset().count(x) > 0);
                    vstd::seq_lib::to_multiset_contains(all, x);
                    let k = choose|k: int| 0 <= k < all.len() && all[k] == x;
                    assert(breaking(all[k].0));
                    assert(breaking(comparison_rows(self.spec_packages())[k].0));
                }
                return true;
            }
            i = i + 1;
        }
        proof {
            assert forall|k: int| 0 <= k < all.len() implies !breaking(#[trigger] all[k].0) by {
                let x = all[k];
                vstd::seq_lib::to_multiset_contains(views(rows@), x);
                assert(all.to_multiset().count(x) > 0);
                let j = choose|j: int| 0 <= j < views(rows@).len() && views(rows@)[j] == x;
            }
        }
        false
    }
}

// ---------------------------------------------------------------------------------------------
// A mapping compared with itself.
// ---------------------------------------------------------------------------------------------

/// A key some subject unit carries has a first such unit.
proof fn lemma_has_first_unit(us: Seq<crate::policy::Unit>, i: int, k: Seq<char>)
    requires
        crate::diff::model::keyed_unit(us, i, k),
    ensures
        crate::diff::model::side_unit(us, k) is Some,
    decreases i,
{
    if exists|j: int| 0 <= j < i && #[trigger] crate::diff::model::keyed_unit(us, j, k) {
        let j = choose|j: int| 0 <= j < i && #[trigger] crate::diff::model::keyed_unit(us, j, k);
        lemma_has_first_unit(us, j, k);
    } else {
        assert(crate::diff::model::first_unit(us, i, k));
        crate::diff::model::lemma_first_unit(us, i, k);
    }
}

/// A value compared against itself is one value.
pub proof fn lemma_same_value_reflexive(us: Seq<crate::policy::Unit>, v: crate::policy::ValueMapping)
    ensures
        crate::diff::model::same_value(us, us, v, v),
{
}

/// A field present and matched against itself is unchanged.
proof fn lemma_field_self(f: FieldDiff, us: Seq<crate::policy::Unit>, s: Option<SortMapping>)
    requires
        crate::diff::tree::field_models(f, us, us, s, s),
        crate::diff::model::opt_field(s, f.spec_number()) is Some,
    ensures
        f.spec_kind() == ChangeKind::Unchanged,
{
    let fo = crate::diff::model::opt_field(s, f.spec_number());
    let x = fo.unwrap();
    lemma_same_value_reflexive(us, x.value);
    assert(f.spec_sides() == Pair::Both(x, x));
    assert(f.spec_same_value());
    assert(!crate::diff::model::membership_changed(s, s, fo, fo));
    assert(f.spec_old_cell() == f.spec_new_cell());
    assert(crate::diff::model::same_form(x.form, x.form));
    assert(crate::diff::tree::shape_holds(x, x, true, true));
}

/// Fields present and matched against themselves have no row.
proof fn lemma_field_rows_self(
    package: Seq<char>,
    element: Seq<char>,
    fs: Seq<FieldDiff>,
    us: Seq<crate::policy::Unit>,
    s: Option<SortMapping>,
)
    requires
        forall|i: int| 0 <= i < fs.len() ==> crate::diff::tree::field_models(#[trigger] fs[i], us, us, s, s),
        forall|i: int|
            0 <= i < fs.len() ==> crate::diff::model::opt_field(s, (#[trigger] fs[i]).spec_number()) is Some,
    ensures
        field_rows(package, element, fs) == Seq::<RowView>::empty(),
    decreases fs.len(),
{
    if fs.len() > 0 {
        lemma_field_rows_self(package, element, fs.drop_last(), us, s);
        let f = fs.last();
        assert(crate::diff::tree::field_models(fs[fs.len() - 1], us, us, s, s));
        lemma_field_self(f, us, s);
        assert(field_row(package, element, f) =~= Seq::<RowView>::empty());
        assert(field_rows(package, element, fs) =~= Seq::<RowView>::empty());
    }
}

/// Values present and matched against themselves have no row.
proof fn lemma_value_rows_self(
    package: Seq<char>,
    element: Seq<char>,
    e: Option<EnumMapping>,
    vs: Seq<ValueDiff>,
)
    requires
        forall|i: int| 0 <= i < vs.len() ==> (#[trigger] vs[i]).spec_sides() == crate::diff::index::pair_of(
            crate::diff::model::opt_value(e, vs[i].spec_number()),
            crate::diff::model::opt_value(e, vs[i].spec_number()),
        ),
        forall|i: int|
            0 <= i < vs.len() ==> crate::diff::model::opt_value(e, (#[trigger] vs[i]).spec_number()) is Some,
    ensures
        value_rows(package, element, e, e, vs) == Seq::<RowView>::empty(),
    decreases vs.len(),
{
    if vs.len() > 0 {
        lemma_value_rows_self(package, element, e, vs.drop_last());
        let v = vs.last();
        assert(v.spec_sides() == crate::diff::index::pair_of(
            crate::diff::model::opt_value(e, v.spec_number()),
            crate::diff::model::opt_value(e, v.spec_number()),
        ));
        assert(crate::diff::model::opt_value(e, vs[vs.len() - 1].spec_number()) is Some);
        assert(value_kind(v.spec_sides()) == ChangeKind::Unchanged);
        assert(value_row(package, element, e, e, v) =~= Seq::<RowView>::empty());
        assert(value_rows(package, element, e, e, vs) =~= Seq::<RowView>::empty());
    }
}

/// Sorts present and matched against themselves have no row.
proof fn lemma_sorts_rows_self(
    package: Seq<char>,
    ss: Seq<SortDiff>,
    us: Seq<crate::policy::Unit>,
    u: Option<crate::policy::Unit>,
)
    requires
        forall|i: int|
            0 <= i < ss.len() ==> crate::diff::tree::sort_models(
                #[trigger] ss[i],
                us,
                us,
                crate::diff::model::opt_sort(u, ss[i].spec_name()),
                crate::diff::model::opt_sort(u, ss[i].spec_name()),
            ),
        forall|i: int|
            0 <= i < ss.len() ==> crate::diff::model::opt_sort(u, (#[trigger] ss[i]).spec_name()) is Some,
    ensures
        sorts_rows(package, ss) == Seq::<RowView>::empty(),
    decreases ss.len(),
{
    if ss.len() > 0 {
        lemma_sorts_rows_self(package, ss.drop_last(), us, u);
        let s = ss.last();
        let so = crate::diff::model::opt_sort(u, s.spec_name());
        assert(crate::diff::tree::sort_models(ss[ss.len() - 1], us, us, so, so));
        assert(so is Some);
        let fs = s.spec_fields();
        assert forall|i: int| 0 <= i < fs.len() implies crate::diff::model::opt_field(
            so,
            (#[trigger] fs[i]).spec_number(),
        ) is Some by {
            let m = fs[i].spec_number();
            assert(exists|k: int| 0 <= k < fs.len() && (#[trigger] fs[k]).spec_number() == m);
        }
        lemma_field_rows_self(package, s.spec_name(), fs, us, so);
        assert(sort_kind(s.spec_sides()) == ChangeKind::Unchanged);
        assert(sort_rows(package, s) =~= Seq::<RowView>::empty());
        assert(sorts_rows(package, ss) =~= Seq::<RowView>::empty());
    }
}

/// Enums present and matched against themselves have no row.
proof fn lemma_enums_rows_self(package: Seq<char>, es: Seq<EnumDiff>, u: Option<crate::policy::Unit>)
    requires
        forall|i: int|
            0 <= i < es.len() ==> crate::diff::tree::enum_models(
                #[trigger] es[i],
                crate::diff::model::opt_enum(u, es[i].spec_name()),
                crate::diff::model::opt_enum(u, es[i].spec_name()),
            ),
        forall|i: int|
            0 <= i < es.len() ==> crate::diff::model::opt_enum(u, (#[trigger] es[i]).spec_name()) is Some,
    ensures
        enums_rows(package, es) == Seq::<RowView>::empty(),
    decreases es.len(),
{
    if es.len() > 0 {
        lemma_enums_rows_self(package, es.drop_last(), u);
        let e = es.last();
        let eo = crate::diff::model::opt_enum(u, e.spec_name());
        assert(crate::diff::tree::enum_models(es[es.len() - 1], eo, eo));
        assert(eo is Some);
        assert(e.spec_sides() == Pair::Both(eo.unwrap(), eo.unwrap()));
        assert(e.spec_sides().spec_old() == eo);
        let vs = e.spec_values();
        assert forall|i: int| 0 <= i < vs.len() implies crate::diff::model::opt_value(
            eo,
            (#[trigger] vs[i]).spec_number(),
        ) is Some by {
            let m = vs[i].spec_number();
            assert(exists|k: int| 0 <= k < vs.len() && (#[trigger] vs[k]).spec_number() == m);
        }
        lemma_value_rows_self(package, e.spec_name(), eo, vs);
        assert(enum_kind(e.spec_sides()) == ChangeKind::Unchanged);
        assert(enum_rows(package, e) =~= Seq::<RowView>::empty());
        assert(enums_rows(package, es) =~= Seq::<RowView>::empty());
    }
}

/// Packages present and matched against themselves have no row.
proof fn lemma_packages_rows_self(ps: Seq<PackageDiff>, us: Seq<crate::policy::Unit>)
    requires
        forall|i: int|
            0 <= i < ps.len() ==> crate::diff::tree::package_models(
                #[trigger] ps[i],
                us,
                us,
                crate::diff::model::side_unit(us, ps[i].spec_key()),
                crate::diff::model::side_unit(us, ps[i].spec_key()),
            ),
        forall|i: int|
            0 <= i < ps.len() ==> crate::diff::model::side_unit(us, (#[trigger] ps[i]).spec_key()) is Some,
    ensures
        comparison_rows(ps) == Seq::<RowView>::empty(),
    decreases ps.len(),
{
    if ps.len() > 0 {
        lemma_packages_rows_self(ps.drop_last(), us);
        let p = ps.last();
        let u = crate::diff::model::side_unit(us, p.spec_key());
        assert(crate::diff::tree::package_models(ps[ps.len() - 1], us, us, u, u));
        assert(u is Some);
        let ss = p.spec_sorts();
        let es = p.spec_enums();
        assert forall|i: int| 0 <= i < ss.len() implies crate::diff::model::opt_sort(
            u,
            (#[trigger] ss[i]).spec_name(),
        ) is Some by {
            let n = ss[i].spec_name();
            assert(exists|k: int| 0 <= k < ss.len() && (#[trigger] ss[k]).spec_name() == n);
        }
        assert forall|i: int| 0 <= i < es.len() implies crate::diff::model::opt_enum(
            u,
            (#[trigger] es[i]).spec_name(),
        ) is Some by {
            let n = es[i].spec_name();
            assert(exists|k: int| 0 <= k < es.len() && (#[trigger] es[k]).spec_name() == n);
        }
        lemma_sorts_rows_self(p.spec_key(), ss, us, u);
        lemma_enums_rows_self(p.spec_key(), es, u);
        assert(package_kind(p.spec_sides()) == ChangeKind::Unchanged);
        assert(package_rows(p) =~= Seq::<RowView>::empty());
        assert(comparison_rows(ps) =~= Seq::<RowView>::empty());
    }
}

/// A mapping compared with itself changes nothing: every package, sort, enum, field, and value
/// matches itself unchanged, so the comparison has no change row at all.
pub proof fn lemma_self_comparison_has_no_changes(c: Comparison, us: Seq<crate::policy::Unit>)
    requires
        c.models(us, us),
    ensures
        comparison_rows(c.spec_packages()) == Seq::<RowView>::empty(),
{
    let ps = c.spec_packages();
    assert forall|i: int| 0 <= i < ps.len() implies crate::diff::model::side_unit(
        us,
        (#[trigger] ps[i]).spec_key(),
    ) is Some by {
        let k = ps[i].spec_key();
        assert(exists|j: int| 0 <= j < ps.len() && (#[trigger] ps[j]).spec_key() == k);
        assert(crate::diff::model::has_unit(us, k));
        let w = choose|w: int| #[trigger] crate::diff::model::keyed_unit(us, w, k);
        lemma_has_first_unit(us, w, k);
    }
    lemma_packages_rows_self(ps, us);
}


// ---------------------------------------------------------------------------------------------
// The changeset as JSON.
// ---------------------------------------------------------------------------------------------

/// A value of a changeset record.
#[derive(Clone, Debug, PartialEq, Eq)]
pub enum JsonLeaf {
    /// `null`, for a missing side.
    Null,
    /// A boolean.
    Bool(bool),
    /// An integer.
    Int(i64),
    /// A string.
    Text(String),
}

/// A record value, as mathematics.
pub enum JsonLeafView {
    /// `null`.
    Null,
    /// A boolean.
    Bool(bool),
    /// An integer.
    Int(int),
    /// A string.
    Text(Seq<char>),
}

/// A record value's view.
pub open spec fn leaf_view(l: JsonLeaf) -> JsonLeafView {
    match l {
        JsonLeaf::Null => JsonLeafView::Null,
        JsonLeaf::Bool(b) => JsonLeafView::Bool(b),
        JsonLeaf::Int(n) => JsonLeafView::Int(n as int),
        JsonLeaf::Text(t) => JsonLeafView::Text(t@),
    }
}

/// A record's keys and values, as mathematics.
pub open spec fn pairs_view(r: Seq<(String, JsonLeaf)>) -> Seq<(Seq<char>, JsonLeafView)> {
    r.map_values(|p: (String, JsonLeaf)| (p.0@, leaf_view(p.1)))
}

/// Records' keys and values, as mathematics.
pub open spec fn records_view(rs: Seq<Vec<(String, JsonLeaf)>>) -> Seq<Seq<(Seq<char>, JsonLeafView)>> {
    rs.map_values(|r: Vec<(String, JsonLeaf)>| pairs_view(r@))
}

/// One character inside a JSON string as `serde_json` writes it: `"` and `\` escaped, the
/// backspace, form feed, newline, carriage return, and tab by their short escapes, the other C0
/// controls as `\u00nn` in lowercase hex, every other character itself.
pub open spec fn json_char(c: char) -> Seq<char> {
    if c == '"' {
        seq!['\\', '"']
    } else if c == '\\' {
        seq!['\\', '\\']
    } else if (c as u32) == 8 {
        seq!['\\', 'b']
    } else if (c as u32) == 12 {
        seq!['\\', 'f']
    } else if c == '\n' {
        seq!['\\', 'n']
    } else if c == '\r' {
        seq!['\\', 'r']
    } else if c == '\t' {
        seq!['\\', 't']
    } else if (c as u32) < 0x20 {
        seq!['\\', 'u', '0', '0', hex_char(((c as u32) / 16) as int), hex_char(((c as u32) % 16) as int)]
    } else {
        seq![c]
    }
}

/// A text's characters as `serde_json` writes them inside a string.
pub open spec fn json_chars(s: Seq<char>) -> Seq<char>
    decreases s.len(),
{
    if s.len() == 0 {
        Seq::empty()
    } else {
        json_chars(s.drop_last()) + json_char(s.last())
    }
}

/// A JSON string literal.
pub open spec fn json_string(s: Seq<char>) -> Seq<char> {
    seq!['"'] + json_chars(s) + seq!['"']
}

/// A record value as JSON: `null`, `true` or `false`, a decimal integer, or a string literal.
pub open spec fn leaf_text(l: JsonLeafView) -> Seq<char> {
    match l {
        JsonLeafView::Null => "null"@,
        JsonLeafView::Bool(b) => if b {
            "true"@
        } else {
            "false"@
        },
        JsonLeafView::Int(n) => signed_decimal(n),
        JsonLeafView::Text(t) => json_string(t),
    }
}

/// A record's keys, each to its last value: the object a record collects into.
pub open spec fn last_values(pairs: Seq<(Seq<char>, JsonLeafView)>) -> Map<Seq<char>, JsonLeafView>
    decreases pairs.len(),
{
    if pairs.len() == 0 {
        Map::empty()
    } else {
        last_values(pairs.drop_last()).insert(pairs.last().0, pairs.last().1)
    }
}

/// Keys in ascending order, each once: the order an object's members are written in.
pub open spec fn key_order(keys: Set<Seq<char>>) -> Seq<Seq<char>> {
    choose|s: Seq<Seq<char>>|
        s.to_set() == keys && forall|i: int, j: int| 0 <= i < j < s.len() ==> seq_lt(#[trigger] s[i], #[trigger] s[j])
}

/// Members `"key":value`, separated by commas, in the given key order.
pub open spec fn members_text(keys: Seq<Seq<char>>, values: Map<Seq<char>, JsonLeafView>) -> Seq<char>
    decreases keys.len(),
{
    if keys.len() == 0 {
        Seq::empty()
    } else {
        let member = json_string(keys.last()) + seq![':'] + leaf_text(values[keys.last()]);
        if keys.len() == 1 {
            member
        } else {
            members_text(keys.drop_last(), values) + seq![','] + member
        }
    }
}

/// A record as a compact JSON object: its keys ascending, each with its last value.
pub open spec fn object_text(pairs: Seq<(Seq<char>, JsonLeafView)>) -> Seq<char> {
    let values = last_values(pairs);
    seq!['{'] + members_text(key_order(values.dom()), values) + seq!['}']
}

/// Objects separated by commas.
pub open spec fn objects_text(records: Seq<Seq<(Seq<char>, JsonLeafView)>>) -> Seq<char>
    decreases records.len(),
{
    if records.len() == 0 {
        Seq::empty()
    } else if records.len() == 1 {
        object_text(records[0])
    } else {
        objects_text(records.drop_last()) + seq![','] + object_text(records.last())
    }
}

/// The compact JSON text `serde_json` writes for an array of objects, each object holding the
/// given keys and values: no whitespace, each object's members in ascending key order.
pub open spec fn json_array_text(records: Seq<Seq<(Seq<char>, JsonLeafView)>>) -> Seq<char> {
    seq!['['] + objects_text(records) + seq![']']
}

/// The compact JSON text of an array of objects, written by `serde_json::to_string` over a
/// `serde_json::Value::Array` of `Value::Object`s. The objects collect into `serde_json`'s `Map`,
/// a sorted map of `String` keys (no dependency enables its insertion-order feature), so each
/// object's members come out in ascending key order, a repeated key keeping its last value;
/// strings are escaped by `serde_json`'s escape table and integers written in decimal.
/// Serializing a `Value` into a `String` cannot fail.
#[verifier::external_body]
fn json_array(records: Vec<Vec<(String, JsonLeaf)>>) -> (r: String)
    ensures
        r@ == json_array_text(records_view(records@)),
{
    let rows = records.into_iter().map(|record| {
        serde_json::Value::Object(record.into_iter().map(|(key, leaf)| (key, match leaf {
            JsonLeaf::Null => serde_json::Value::Null,
            JsonLeaf::Bool(b) => serde_json::Value::Bool(b),
            JsonLeaf::Int(n) => serde_json::Value::from(n),
            JsonLeaf::Text(t) => serde_json::Value::String(t),
        })).collect())
    }).collect();
    serde_json::to_string(&serde_json::Value::Array(rows)).unwrap_or_default()
}

/// A text that may be missing, as a record value.
pub open spec fn text_or_null(t: Option<Seq<char>>) -> JsonLeafView {
    match t {
        Some(x) => JsonLeafView::Text(x),
        None => JsonLeafView::Null,
    }
}

/// A row as its changeset record: `package`, `kind`, the two paths and the two signatures (a
/// missing side or signature `null`), and `breaking` always; `number` and `bridge` only where
/// the row has them.
pub open spec fn record_view(row: RowView) -> Seq<(Seq<char>, JsonLeafView)> {
    seq![
        ("package"@, JsonLeafView::Text(row.1)),
        ("kind"@, text_or_null(slug_view(row.0))),
        ("old_path"@, text_or_null(match row.4 {
            Some(s) => Some(s.0),
            None => None,
        })),
        ("new_path"@, text_or_null(match row.5 {
            Some(s) => Some(s.0),
            None => None,
        })),
        ("old"@, text_or_null(match row.4 {
            Some(s) => s.1,
            None => None,
        })),
        ("new"@, text_or_null(match row.5 {
            Some(s) => s.1,
            None => None,
        })),
        ("breaking"@, JsonLeafView::Bool(breaking(row.0))),
    ] + match row.3 {
        Some(n) => seq![("number"@, JsonLeafView::Int(n as int))],
        None => Seq::empty(),
    } + match row.6 {
        Some(b) => seq![("bridge"@, JsonLeafView::Text(b))],
        None => Seq::empty(),
    }
}

/// The rows as their records.
pub open spec fn records_of(rows: Seq<RowView>) -> Seq<Seq<(Seq<char>, JsonLeafView)>> {
    rows.map_values(|row: RowView| record_view(row))
}

/// A text that may be missing, as a record value.
fn text_leaf(t: Option<&str>) -> (r: JsonLeaf)
    ensures
        leaf_view(r) == text_or_null(match t {
            Some(x) => Some(x@),
            None => None,
        }),
{
    match t {
        Some(x) => JsonLeaf::Text(owned(x)),
        None => JsonLeaf::Null,
    }
}

impl<'a> Change<'a> {
    /// The row as one record of the JSON changeset.
    pub fn record(&self) -> (r: Vec<(String, JsonLeaf)>)
        ensures
            pairs_view(r@) == record_view(self.view_row()),
    {
        let mut r: Vec<(String, JsonLeaf)> = Vec::new();
        r.push((owned("package"), JsonLeaf::Text(owned(self.package()))));
        let kind = match self.kind().slug() {
            Some(s) => JsonLeaf::Text(owned(s)),
            None => JsonLeaf::Null,
        };
        r.push((owned("kind"), kind));
        r.push((owned("old_path"), text_leaf(self.old_path())));
        r.push((owned("new_path"), text_leaf(self.new_path())));
        r.push((owned("old"), text_leaf(self.old_signature())));
        r.push((owned("new"), text_leaf(self.new_signature())));
        r.push((owned("breaking"), JsonLeaf::Bool(self.is_breaking())));
        let ghost row = self.view_row();
        let ghost base = r@;
        match self.number() {
            Some(n) => r.push((owned("number"), JsonLeaf::Int(n as i64))),
            None => {},
        }
        let ghost with_number = r@;
        match self.bridge() {
            Some(b) => r.push((owned("bridge"), JsonLeaf::Text(b))),
            None => {},
        }
        proof {
            reveal_strlit("package");
            reveal_strlit("kind");
            reveal_strlit("old_path");
            reveal_strlit("new_path");
            reveal_strlit("old");
            reveal_strlit("new");
            reveal_strlit("breaking");
            reveal_strlit("number");
            reveal_strlit("bridge");
            assert(pairs_view(r@) =~= record_view(row));
        }
        r
    }
}

impl<'a> Comparison<'a> {
    /// The changeset as JSON: an array of the records of `changes()`, in its order, each
    /// record's keys in `serde_json`'s sorted order.
    pub fn to_json(&self) -> (r: String)
        requires
            comparison_spellable(*self),
        ensures
            exists|rows: Seq<RowView>|
                rows_sorted(rows) && rows.to_multiset() == comparison_rows(self.spec_packages()).to_multiset()
                    && json_array_text(#[trigger] records_of(rows)) == r@,
    {
        let changes = self.changes();
        let ghost rows = views(changes@);
        let mut records: Vec<Vec<(String, JsonLeaf)>> = Vec::new();
        let mut i: usize = 0;
        while i < changes.len()
            invariant
                i <= changes@.len(),
                rows == views(changes@),
                records@.len() == i,
                forall|t: int| 0 <= t < i ==> pairs_view((#[trigger] records@[t])@) == record_view(rows[t]),
            decreases changes@.len() - i,
        {
            records.push(changes[i].record());
            i = i + 1;
        }
        proof {
            assert(records_view(records@) =~= records_of(rows));
        }
        json_array(records)
    }
}

} // verus!
