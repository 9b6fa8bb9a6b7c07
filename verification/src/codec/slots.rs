//! The answer set keyed for reassembly: each atom filed by what it is. An `emit_<sort>(root)`
//! marker names a message to rebuild; an occupancy atom `s(occupant)` declares its occupant and
//! files it under the occupant's functor and parent; a `violates(…)` atom is a report; a field
//! atom `f(P, …)` of an arity some field of that name takes is filed under `(f, P)`. Any other
//! atom — a negated one, a bare value, a solver-working predicate, a field name at another arity —
//! is the model's own business and is filed nowhere.
//!
//! A field atom whose parent no occupancy atom or marker declares, yet whose parent's spine —
//! each term's first argument, followed inward — reaches a marker's root, is an orphan: a child
//! within an exported tree with its sort undeclared, refused.
use vstd::prelude::*;

use crate::codec::walk::{sort_fields, sort_ref_view, unit_fields, Index, SortRef};
use crate::diagnostics::{fault_view, fault_views, Diagnostic, DiagnosticKind, FaultView, Locus};
use crate::policy::{EmitForm, FieldMapping, Mapping, SortMapping, Unit, ValueMapping};
use crate::text::{chars_of, owned, str_eq, string_of};

verus! {

broadcast use vstd::string::group_string_axioms;

/// One answer-set symbol.
#[derive(Debug)]
pub enum Symbol {
    /// An integer.
    Number(i32),
    /// A string.
    Text(String),
    /// A function symbol over its arguments — a constant has none — positive or strongly negated.
    Function {
        /// The functor.
        name: String,
        /// The arguments.
        arguments: Vec<Symbol>,
        /// Whether the atom is positive.
        positive: bool,
    },
    /// The least symbol.
    Infimum,
    /// The greatest symbol.
    Supremum,
}

/// A symbol as plain values.
pub enum SymView {
    /// An integer.
    Number(int),
    /// A string.
    Text(Seq<char>),
    /// A functor, its arguments, and its sign.
    Function(Seq<char>, Seq<SymView>, bool),
    /// The least symbol.
    Infimum,
    /// The greatest symbol.
    Supremum,
}

impl Symbol {
    /// The symbol as plain values.
    pub open spec fn sv(self) -> SymView
        decreases self,
    {
        match self {
            Symbol::Number(n) => SymView::Number(n as int),
            Symbol::Text(s) => SymView::Text(s@),
            Symbol::Function { name, arguments, positive } => SymView::Function(name@, syms_view(arguments@), positive),
            Symbol::Infimum => SymView::Infimum,
            Symbol::Supremum => SymView::Supremum,
        }
    }
}

/// Symbols as plain values, in order.
pub open spec fn syms_view(ss: Seq<Symbol>) -> Seq<SymView>
    decreases ss,
{
    if ss.len() == 0 {
        Seq::empty()
    } else {
        syms_view(ss.drop_last()).push(ss.last().sv())
    }
}

/// Symbols' views are theirs, one for one.
pub proof fn lemma_syms_view(ss: Seq<Symbol>)
    ensures
        syms_view(ss).len() == ss.len(),
        forall|i: int| 0 <= i < ss.len() ==> #[trigger] syms_view(ss)[i] == ss[i].sv(),
    decreases ss.len(),
{
    if ss.len() > 0 {
        lemma_syms_view(ss.drop_last());
    }
}

/// One more symbol views as one more view.
pub proof fn lemma_syms_push(ss: Seq<Symbol>, x: Symbol)
    ensures
        syms_view(ss.push(x)) == syms_view(ss).push(x.sv()),
{
    assert(ss.push(x).drop_last() =~= ss);
}

/// Whether two symbols are one symbol.
pub fn same_symbol(a: &Symbol, b: &Symbol) -> (r: bool)
    ensures
        r == (a.sv() == b.sv()),
    decreases a,
{
    match (a, b) {
        (Symbol::Number(x), Symbol::Number(y)) => *x == *y,
        (Symbol::Text(x), Symbol::Text(y)) => str_eq(x.as_str(), y.as_str()),
        (Symbol::Infimum, Symbol::Infimum) => true,
        (Symbol::Supremum, Symbol::Supremum) => true,
        (
            Symbol::Function { name: n1, arguments: a1, positive: p1 },
            Symbol::Function { name: n2, arguments: a2, positive: p2 },
        ) => {
            proof {
                lemma_syms_view(a1@);
                lemma_syms_view(a2@);
            }
            if *p1 != *p2 || !str_eq(n1.as_str(), n2.as_str()) || a1.len() != a2.len() {
                proof {
                    if a1.len() != a2.len() {
                        assert(syms_view(a1@).len() != syms_view(a2@).len());
                    }
                }
                return false;
            }
            let mut i: usize = 0;
            while i < a1.len()
                invariant
                    a is Function,
                    a->arguments == *a1,
                    b is Function,
                    b->arguments == *a2,
                    a1@.len() == a2@.len(),
                    i <= a1@.len(),
                    syms_view(a1@).len() == a1@.len(),
                    syms_view(a2@).len() == a2@.len(),
                    forall|k: int| 0 <= k < a1@.len() ==> #[trigger] syms_view(a1@)[k] == a1@[k].sv(),
                    forall|k: int| 0 <= k < a2@.len() ==> #[trigger] syms_view(a2@)[k] == a2@[k].sv(),
                    forall|k: int| 0 <= k < i ==> a1@[k].sv() == a2@[k].sv(),
                decreases a1@.len() - i,
            {
                proof {
                    assert(decreases_to!(*a => a->arguments));
                    assert(decreases_to!(*a1 => a1@));
                    assert(decreases_to!(a1@ => a1@[i as int]));
                }
                if !same_symbol(&a1[i], &a2[i]) {
                    proof {
                        assert(syms_view(a1@)[i as int] != syms_view(a2@)[i as int]);
                    }
                    return false;
                }
                i = i + 1;
            }
            proof {
                assert(syms_view(a1@) =~= syms_view(a2@));
            }
            true
        },
        _ => false,
    }
}

/// A copy of a symbol.
pub fn copy_symbol(a: &Symbol) -> (r: Symbol)
    ensures
        r.sv() == a.sv(),
    decreases a,
{
    match a {
        Symbol::Number(n) => Symbol::Number(*n),
        Symbol::Text(s) => Symbol::Text(owned(s.as_str())),
        Symbol::Infimum => Symbol::Infimum,
        Symbol::Supremum => Symbol::Supremum,
        Symbol::Function { name, arguments, positive } => {
            let mut out: Vec<Symbol> = Vec::new();
            let mut i: usize = 0;
            proof {
                lemma_syms_view(arguments@);
            }
            while i < arguments.len()
                invariant
                    a is Function,
                    a->arguments == *arguments,
                    i <= arguments@.len(),
                    syms_view(arguments@).len() == arguments@.len(),
                    forall|k: int| 0 <= k < arguments@.len() ==> #[trigger] syms_view(arguments@)[k] == arguments@[k].sv(),
                    out@.len() == i,
                    forall|k: int| 0 <= k < i ==> #[trigger] out@[k].sv() == arguments@[k].sv(),
                decreases arguments@.len() - i,
            {
                proof {
                    assert(decreases_to!(*a => a->arguments));
                    assert(decreases_to!(*arguments => arguments@));
                    assert(decreases_to!(arguments@ => arguments@[i as int]));
                }
                let c = copy_symbol(&arguments[i]);
                out.push(c);
                i = i + 1;
            }
            proof {
                lemma_syms_view(out@);
                assert(syms_view(out@) =~= syms_view(arguments@));
            }
            Symbol::Function { name: owned(name.as_str()), arguments: out, positive: *positive }
        },
    }
}


/// The arity a field's atoms carry: two for a singular field or oneof arm, three for a sequence
/// or map — one fewer for a message, whose value is its child occupant rather than a last
/// argument.
pub open spec fn field_arity(f: FieldMapping) -> int {
    let base = match f.form {
        EmitForm::Function | EmitForm::OneofArm { .. } => 2int,
        EmitForm::Sequence | EmitForm::Mapped { .. } => 3int,
        EmitForm::Membership => 0int,
    };
    if f.value is Message {
        base - 1
    } else {
        base
    }
}

/// Whether some field of the run is named `name` and takes `n` arguments.
pub open spec fn any_takes(fs: Seq<FieldMapping>, name: Seq<char>, n: int) -> bool {
    exists|k: int| 0 <= k < fs.len() && (#[trigger] fs[k]).predicate@ == name && field_arity(fs[k]) == n
}

/// Whether some field of the mapping is named `name` and takes `n` arguments.
pub open spec fn takes_arity(us: Seq<Unit>, name: Seq<char>, n: int) -> bool {
    any_takes(unit_fields(us), name, n)
}

/// Whether no field of the mapping is a membership relation, which is not reassembled.
pub open spec fn no_membership(us: Seq<Unit>) -> bool {
    forall|k: int| 0 <= k < unit_fields(us).len() ==> !((#[trigger] unit_fields(us)[k]).form is Membership)
}

/// The sort a marker functor `emit_<predicate>` names, when the index resolves the predicate.
pub open spec fn marker_sort(ix: Index, name: Seq<char>) -> Option<(int, int)> {
    if name.len() >= 5 && name.subrange(0, 5) == "emit_"@ {
        ix.sort_entry(name.subrange(5, name.len() as int))
    } else {
        None
    }
}

/// What the scan has filed so far.
pub struct Scan {
    /// The filed entries: functor, parent, and the entry — an occupant or a field atom.
    pub filed: Seq<(Seq<char>, SymView, SymView)>,
    /// The markers: the sort and the atom's position.
    pub markers: Seq<((int, int), int)>,
    /// The `violates` atoms' positions.
    pub violations: Seq<int>,
    /// The occupants declared, by an occupancy atom or as a marker's root.
    pub declared: Seq<SymView>,
    /// The markers' roots.
    pub roots: Seq<SymView>,
    /// Each field atom's parent and position.
    pub parents: Seq<(SymView, int)>,
}

/// The scan with the atom `a`, at position `t`, filed by what it is.
pub open spec fn step(us: Seq<Unit>, ix: Index, sc: Scan, a: SymView, t: int) -> Scan {
    match a {
        SymView::Function(name, args, positive) => if !positive {
            sc
        } else if marker_sort(ix, name) is Some {
            if args.len() == 1 {
                Scan {
                    markers: sc.markers.push((marker_sort(ix, name)->Some_0, t)),
                    declared: sc.declared.push(args[0]),
                    roots: sc.roots.push(args[0]),
                    ..sc
                }
            } else {
                sc
            }
        } else if ix.sort_entry(name) is Some {
            if args.len() == 1 {
                let declared = sc.declared.push(args[0]);
                match args[0] {
                    SymView::Function(f, oa, _) => if oa.len() > 0 {
                        Scan { filed: sc.filed.push((f, oa[0], args[0])), declared, ..sc }
                    } else {
                        Scan { declared, ..sc }
                    },
                    _ => Scan { declared, ..sc },
                }
            } else {
                sc
            }
        } else if name == "violates"@ {
            Scan { violations: sc.violations.push(t), ..sc }
        } else if args.len() > 0 && takes_arity(us, name, args.len() as int) {
            Scan { filed: sc.filed.push((name, args[0], a)), parents: sc.parents.push((args[0], t)), ..sc }
        } else {
            sc
        },
        _ => sc,
    }
}

/// The answer set's atoms, each filed in turn.
pub open spec fn scan(us: Seq<Unit>, ix: Index, atoms: Seq<Symbol>) -> Scan
    decreases atoms.len(),
{
    if atoms.len() == 0 {
        Scan {
            filed: Seq::empty(),
            markers: Seq::empty(),
            violations: Seq::empty(),
            declared: Seq::empty(),
            roots: Seq::empty(),
            parents: Seq::empty(),
        }
    } else {
        step(us, ix, scan(us, ix, atoms.drop_last()), atoms.last().sv(), atoms.len() - 1)
    }
}

/// Whether a term's parent spine — each term's first argument, followed inward — reaches one of
/// the roots.
pub open spec fn descends(x: SymView, roots: Seq<SymView>) -> bool
    decreases x,
{
    if roots.contains(x) {
        true
    } else {
        match x {
            SymView::Function(_, args, _) => args.len() > 0 && descends(args[0], roots),
            _ => false,
        }
    }
}

/// The functor of an atom; empty for a bare value.
pub open spec fn functor(x: SymView) -> Seq<char> {
    match x {
        SymView::Function(name, _, _) => name,
        _ => Seq::empty(),
    }
}

/// The detail of an orphaned field atom.
pub open spec fn orphan_detail() -> Seq<char> {
    "a field atom's parent occupant descends from a marker root but is declared by no occupancy atom"@
}

/// The orphan refusals among the field atoms' parents, in the answer set's order: a parent no
/// atom declares whose spine reaches a marker root.
pub open spec fn orphan_views(sc: Scan, atoms: Seq<Symbol>, ps: Seq<(SymView, int)>) -> Seq<FaultView>
    decreases ps.len(),
{
    if ps.len() == 0 {
        Seq::empty()
    } else {
        let prev = orphan_views(sc, atoms, ps.drop_last());
        let (p, t) = ps.last();
        if !sc.declared.contains(p) && descends(p, sc.roots) {
            prev.push((DiagnosticKind::ShapeViolation, Some(functor(atoms[t].sv())), orphan_detail()))
        } else {
            prev
        }
    }
}


/// Some field of a run joined to another: of one or of the other.
proof fn lemma_any_takes_concat(a: Seq<FieldMapping>, b: Seq<FieldMapping>, name: Seq<char>, n: int)
    ensures
        any_takes(a + b, name, n) == (any_takes(a, name, n) || any_takes(b, name, n)),
{
    if any_takes(a + b, name, n) {
        let k = choose|k: int| 0 <= k < (a + b).len() && (#[trigger] (a + b)[k]).predicate@ == name && field_arity((a + b)[k]) == n;
        if k >= a.len() {
            assert(b[k - a.len()] == (a + b)[k]);
        }
    }
    if any_takes(a, name, n) {
        let k = choose|k: int| 0 <= k < a.len() && (#[trigger] a[k]).predicate@ == name && field_arity(a[k]) == n;
        assert((a + b)[k] == a[k]);
    }
    if any_takes(b, name, n) {
        let k = choose|k: int| 0 <= k < b.len() && (#[trigger] b[k]).predicate@ == name && field_arity(b[k]) == n;
        assert((a + b)[k + a.len()] == b[k]);
    }
}

/// The fields of the first units are the first fields of all units.
proof fn lemma_unit_fields_prefix(us: Seq<Unit>, m: int)
    requires
        0 <= m <= us.len(),
    ensures
        unit_fields(us.take(m)).len() <= unit_fields(us).len(),
        forall|k: int| 0 <= k < unit_fields(us.take(m)).len() ==> #[trigger] unit_fields(us.take(m))[k] == unit_fields(us)[k],
    decreases us.len() - m,
{
    if m < us.len() {
        lemma_unit_fields_prefix(us, m + 1);
        assert(us.take(m + 1).drop_last() =~= us.take(m));
        assert forall|k: int| 0 <= k < unit_fields(us.take(m)).len() implies #[trigger] unit_fields(us.take(m))[k] == unit_fields(us)[k] by {
            assert(unit_fields(us.take(m + 1))[k] == unit_fields(us.take(m))[k]);
        }
    } else {
        assert(us.take(m) =~= us);
    }
}

/// The fields of the first sorts are the first fields of all the sorts.
proof fn lemma_sort_fields_prefix(ss: Seq<SortMapping>, m: int)
    requires
        0 <= m <= ss.len(),
    ensures
        sort_fields(ss.take(m)).len() <= sort_fields(ss).len(),
        forall|k: int| 0 <= k < sort_fields(ss.take(m)).len() ==> #[trigger] sort_fields(ss.take(m))[k] == sort_fields(ss)[k],
    decreases ss.len() - m,
{
    if m < ss.len() {
        lemma_sort_fields_prefix(ss, m + 1);
        assert(ss.take(m + 1).drop_last() =~= ss.take(m));
        assert forall|k: int| 0 <= k < sort_fields(ss.take(m)).len() implies #[trigger] sort_fields(ss.take(m))[k] == sort_fields(ss)[k] by {
            assert(sort_fields(ss.take(m + 1))[k] == sort_fields(ss.take(m))[k]);
        }
    } else {
        assert(ss.take(m) =~= ss);
    }
}

/// The arity a field's atoms carry.
fn arity_of(f: &FieldMapping) -> (r: u32)
    requires
        !(f.form is Membership),
    ensures
        r as int == field_arity(*f),
{
    let base: u32 = match &f.form {
        EmitForm::Function | EmitForm::OneofArm { .. } => 2,
        EmitForm::Sequence | EmitForm::Mapped { .. } => 3,
        EmitForm::Membership => 0,
    };
    match &f.value {
        ValueMapping::Message(_) => base - 1,
        _ => base,
    }
}

/// Whether some field of the mapping is named `name` and takes `n` arguments.
fn takes(mapping: &Mapping, name: &str, n: usize) -> (r: bool)
    requires
        no_membership(mapping.units@),
    ensures
        r == takes_arity(mapping.units@, name@, n as int),
{
    let us = mapping.units();
    let ghost all = mapping.units@;
    let mut found = false;
    let mut u: usize = 0;
    proof {
        assert(all.take(0) =~= Seq::<Unit>::empty());
    }
    while u < us.len()
        invariant
            us@ == all,
            all == mapping.units@,
            no_membership(all),
            u <= all.len(),
            found == any_takes(unit_fields(all.take(u as int)), name@, n as int),
        decreases all.len() - u,
    {
        proof {
            assert(all.take(u + 1).drop_last() =~= all.take(u as int));
            assert(unit_fields(all.take(u + 1)) == unit_fields(all.take(u as int)) + sort_fields(all[u as int].sorts@));
            lemma_unit_fields_prefix(all, u as int + 1);
        }
        let sorts = us[u].sorts();
        let mut s: usize = 0;
        let ghost before = unit_fields(all.take(u as int));
        proof {
            assert(sorts@.take(0) =~= Seq::<SortMapping>::empty());
            assert(before + sort_fields(sorts@.take(0)) =~= before);
            assert forall|k: int| 0 <= k < (before + sort_fields(sorts@)).len() implies !((#[trigger] (before + sort_fields(sorts@))[k]).form is Membership) by {
                assert((before + sort_fields(sorts@))[k] == unit_fields(all.take(u + 1))[k]);
                assert(unit_fields(all.take(u + 1))[k] == unit_fields(all)[k]);
            }
        }
        while s < sorts.len()
            invariant
                u < all.len(),
                sorts@ == all[u as int].sorts@,
                s <= sorts@.len(),
                before == unit_fields(all.take(u as int)),
                no_membership(all),
                forall|k: int| 0 <= k < (before + sort_fields(sorts@)).len() ==> !((#[trigger] (before + sort_fields(sorts@))[k]).form is Membership),
                found == any_takes(before + sort_fields(sorts@.take(s as int)), name@, n as int),
            decreases sorts@.len() - s,
        {
            proof {
                assert(sorts@.take(s + 1).drop_last() =~= sorts@.take(s as int));
                assert(before + sort_fields(sorts@.take(s + 1)) =~= (before + sort_fields(sorts@.take(s as int))) + sorts@[s as int].fields@);
                lemma_any_takes_concat(before + sort_fields(sorts@.take(s as int)), sorts@[s as int].fields@, name@, n as int);
            }
            let fields = sorts[s].fields();
            let ghost head = before + sort_fields(sorts@.take(s as int));
            proof {
                lemma_sort_fields_prefix(sorts@, s as int + 1);
                assert forall|j: int| 0 <= j < fields@.len() implies !((#[trigger] fields@[j]).form is Membership) by {
                    let at = before.len() + sort_fields(sorts@.take(s as int)).len() + j;
                    assert(sort_fields(sorts@.take(s + 1))[sort_fields(sorts@.take(s as int)).len() + j] == fields@[j]);
                    assert(sort_fields(sorts@.take(s + 1))[sort_fields(sorts@.take(s as int)).len() + j] == sort_fields(sorts@)[sort_fields(sorts@.take(s as int)).len() + j]);
                    assert((before + sort_fields(sorts@))[at] == fields@[j]);
                }
            }
            let mut k: usize = 0;
            let mut here = false;
            while k < fields.len()
                invariant
                    fields@ == sorts@[s as int].fields@,
                    k <= fields@.len(),
                    forall|j: int| 0 <= j < fields@.len() ==> !((#[trigger] fields@[j]).form is Membership),
                    here == any_takes(fields@.take(k as int), name@, n as int),
                decreases fields@.len() - k,
            {
                let f = &fields[k];
                let a = arity_of(f);
                proof {
                    assert(fields@.take(k + 1) =~= fields@.take(k as int).push(fields@[k as int]));
                    lemma_any_takes_concat(fields@.take(k as int), seq![fields@[k as int]], name@, n as int);
                    assert(fields@.take(k as int).push(fields@[k as int]) =~= fields@.take(k as int) + seq![fields@[k as int]]);
                    if any_takes(seq![fields@[k as int]], name@, n as int) {
                        let j = choose|j: int| 0 <= j < 1 && (#[trigger] seq![fields@[k as int]][j]).predicate@ == name@
                            && field_arity(seq![fields@[k as int]][j]) == n as int;
                    }
                    if fields@[k as int].predicate@ == name@ && field_arity(fields@[k as int]) == n as int {
                        assert(seq![fields@[k as int]][0] == fields@[k as int]);
                    }
                }
                if a as usize == n && str_eq(f.predicate.as_str(), name) {
                    here = true;
                }
                k = k + 1;
            }
            proof {
                assert(fields@.take(k as int) =~= fields@);
            }
            found = found || here;
            s = s + 1;
        }
        proof {
            assert(sorts@.take(s as int) =~= sorts@);
        }
        u = u + 1;
    }
    proof {
        assert(all.take(u as int) =~= all);
    }
    found
}


/// The sort a marker functor names (see [`marker_sort`]).
fn marker_of(index: &Index, name: &str) -> (r: Option<SortRef>)
    requires
        index.ordered(),
    ensures
        sort_ref_view(r) == marker_sort(*index, name@),
{
    let v = chars_of(name);
    if v.len() >= 5 {
        let prefix = string_of(v.as_slice(), 0, 5);
        if str_eq(prefix.as_str(), "emit_") {
            let rest = string_of(v.as_slice(), 5, v.len());
            return index.sort_of(rest.as_str());
        }
    }
    None
}

/// Whether one of the symbols is `x`.
fn holds(roots: &Vec<Symbol>, x: &Symbol) -> (r: bool)
    ensures
        r == syms_view(roots@).contains(x.sv()),
{
    proof {
        lemma_syms_view(roots@);
    }
    let mut i: usize = 0;
    while i < roots.len()
        invariant
            i <= roots@.len(),
            syms_view(roots@).len() == roots@.len(),
            forall|k: int| 0 <= k < roots@.len() ==> #[trigger] syms_view(roots@)[k] == roots@[k].sv(),
            forall|k: int| 0 <= k < i ==> roots@[k].sv() != x.sv(),
        decreases roots@.len() - i,
    {
        if same_symbol(&roots[i], x) {
            proof {
                assert(syms_view(roots@)[i as int] == x.sv());
            }
            return true;
        }
        i = i + 1;
    }
    proof {
        if syms_view(roots@).contains(x.sv()) {
            let k = choose|k: int| 0 <= k < syms_view(roots@).len() && syms_view(roots@)[k] == x.sv();
            assert(roots@[k].sv() == x.sv());
        }
    }
    false
}

/// Whether a term's parent spine reaches one of the roots (see [`descends`]).
fn descends_from(x: &Symbol, roots: &Vec<Symbol>) -> (r: bool)
    ensures
        r == descends(x.sv(), syms_view(roots@)),
    decreases x,
{
    if holds(roots, x) {
        return true;
    }
    match x {
        Symbol::Function { arguments, .. } => {
            proof {
                lemma_syms_view(arguments@);
            }
            if arguments.len() == 0 {
                false
            } else {
                proof {
                    assert(decreases_to!(*x => x->arguments));
                    assert(decreases_to!(*arguments => arguments@));
                    assert(decreases_to!(arguments@ => arguments@[0]));
                }
                descends_from(&arguments[0], roots)
            }
        },
        _ => false,
    }
}


/// The entries filed under `(field, parent)`, in order.
pub open spec fn slot_view(filed: Seq<(Seq<char>, SymView, SymView)>, field: Seq<char>, parent: SymView) -> Seq<SymView>
    decreases filed.len(),
{
    if filed.len() == 0 {
        Seq::empty()
    } else {
        let prev = slot_view(filed.drop_last(), field, parent);
        let e = filed.last();
        if e.0 == field && e.1 == parent {
            prev.push(e.2)
        } else {
            prev
        }
    }
}

/// Filed entries as plain values.
pub open spec fn filed_views(v: Seq<(String, Symbol, Symbol)>) -> Seq<(Seq<char>, SymView, SymView)> {
    v.map_values(|e: (String, Symbol, Symbol)| (e.0@, e.1.sv(), e.2.sv()))
}

/// Markers as plain values.
pub open spec fn marker_views(v: Seq<(SortRef, usize)>) -> Seq<((int, int), int)> {
    v.map_values(|e: (SortRef, usize)| (e.0@, e.1 as int))
}

/// Positions as integers.
pub open spec fn position_views(v: Seq<usize>) -> Seq<int> {
    v.map_values(|x: usize| x as int)
}

/// Parents and positions as plain values.
pub open spec fn parent_views(v: Seq<(Symbol, usize)>) -> Seq<(SymView, int)> {
    v.map_values(|e: (Symbol, usize)| (e.0.sv(), e.1 as int))
}

/// The answer set keyed for reassembly (see the module doc). Markers and violations name their
/// atoms by position in the answer set.
pub struct SlotIndex {
    filed: Vec<(String, Symbol, Symbol)>,
    markers: Vec<(SortRef, usize)>,
    violations: Vec<usize>,
    orphans: Vec<Diagnostic>,
}

impl SlotIndex {
    /// The filed entries: functor, parent, and entry, in the answer set's order.
    pub closed spec fn filed_view(&self) -> Seq<(Seq<char>, SymView, SymView)> {
        filed_views(self.filed@)
    }

    /// The markers: sort position and atom position.
    pub closed spec fn markers_view(&self) -> Seq<((int, int), int)> {
        marker_views(self.markers@)
    }

    /// The `violates` atoms' positions.
    pub closed spec fn violations_view(&self) -> Seq<int> {
        position_views(self.violations@)
    }

    /// The orphan refusals.
    pub closed spec fn orphans_view(&self) -> Seq<FaultView> {
        fault_views(self.orphans@)
    }

    /// Key the answer set `atoms` for reassembly: file each atom by what it is, then refuse each
    /// orphaned field atom, in the answer set's order.
    pub fn build(mapping: &Mapping, index: &Index, atoms: &[Symbol]) -> (r: SlotIndex)
        requires
            index.indexes(mapping.units@),
            no_membership(mapping.units@),
        ensures
            r.filed_view() == scan(mapping.units@, *index, atoms@).filed,
            r.markers_view() == scan(mapping.units@, *index, atoms@).markers,
            r.violations_view() == scan(mapping.units@, *index, atoms@).violations,
            r.orphans_view() == orphan_views(
                scan(mapping.units@, *index, atoms@),
                atoms@,
                scan(mapping.units@, *index, atoms@).parents,
            ),
    {
        let ghost us = mapping.units@;
        let mut filed: Vec<(String, Symbol, Symbol)> = Vec::new();
        let mut markers: Vec<(SortRef, usize)> = Vec::new();
        let mut violations: Vec<usize> = Vec::new();
        let mut declared: Vec<Symbol> = Vec::new();
        let mut roots: Vec<Symbol> = Vec::new();
        let mut parents: Vec<(Symbol, usize)> = Vec::new();
        let mut t: usize = 0;
        proof {
            assert(atoms@.take(0) =~= Seq::<Symbol>::empty());
            assert(filed_views(filed@) =~= Seq::empty());
            assert(marker_views(markers@) =~= Seq::empty());
            assert(position_views(violations@) =~= Seq::empty());
            assert(syms_view(declared@) =~= Seq::empty());
            assert(syms_view(roots@) =~= Seq::empty());
            assert(parent_views(parents@) =~= Seq::empty());
        }
        while t < atoms.len()
            invariant
                us == mapping.units@,
                index.indexes(us),
                no_membership(us),
                t <= atoms@.len(),
                forall|k: int| 0 <= k < parents@.len() ==> (#[trigger] parents@[k]).1 < t,
                ({
                    let sc = scan(us, *index, atoms@.take(t as int));
                    &&& filed_views(filed@) == sc.filed
                    &&& marker_views(markers@) == sc.markers
                    &&& position_views(violations@) == sc.violations
                    &&& syms_view(declared@) == sc.declared
                    &&& syms_view(roots@) == sc.roots
                    &&& parent_views(parents@) == sc.parents
                }),
            decreases atoms@.len() - t,
        {
            let ghost sc0 = scan(us, *index, atoms@.take(t as int));
            let ghost f0 = filed@;
            let ghost m0 = markers@;
            let ghost v0 = violations@;
            let ghost d0 = declared@;
            let ghost r0 = roots@;
            let ghost p0 = parents@;
            proof {
                assert(atoms@.take(t + 1).drop_last() =~= atoms@.take(t as int));
                assert(atoms@.take(t + 1).last() == atoms@[t as int]);
            }
            let atom = &atoms[t];
            match atom {
                Symbol::Function { name, arguments, positive } => {
                    proof {
                        lemma_syms_view(arguments@);
                    }
                    if *positive {
                        match marker_of(index, name.as_str()) {
                            Some(r) => {
                                if arguments.len() == 1 {
                                    let root = &arguments[0];
                                    markers.push((r, t));
                                    declared.push(copy_symbol(root));
                                    roots.push(copy_symbol(root));
                                    proof {
                                        assert(marker_views(markers@) =~= marker_views(m0).push((r@, t as int)));
                                        lemma_syms_push(d0, declared@.last());
                                        assert(declared@ =~= d0.push(declared@.last()));
                                        assert(roots@ =~= r0.push(roots@.last()));
                                        lemma_syms_push(r0, roots@.last());
                                    }
                                }
                            },
                            None => {
                                if index.sort_of(name.as_str()).is_some() {
                                    if arguments.len() == 1 {
                                        let occupant = &arguments[0];
                                        declared.push(copy_symbol(occupant));
                                        proof {
                                            assert(declared@ =~= d0.push(declared@.last()));
                                            lemma_syms_push(d0, declared@.last());
                                        }
                                        match occupant {
                                            Symbol::Function { name: f, arguments: oa, .. } => {
                                                proof {
                                                    lemma_syms_view(oa@);
                                                }
                                                if oa.len() > 0 {
                                                    let entry = (owned(f.as_str()), copy_symbol(&oa[0]), copy_symbol(occupant));
                                                    filed.push(entry);
                                                    proof {
                                                        assert(filed_views(filed@) =~= filed_views(f0).push(
                                                            (entry.0@, entry.1.sv(), entry.2.sv()),
                                                        ));
                                                    }
                                                }
                                            },
                                            _ => {},
                                        }
                                    }
                                } else if str_eq(name.as_str(), "violates") {
                                    violations.push(t);
                                    proof {
                                        assert(position_views(violations@) =~= position_views(v0).push(t as int));
                                    }
                                } else if arguments.len() > 0 && takes(mapping, name.as_str(), arguments.len()) {
                                    let entry = (owned(name.as_str()), copy_symbol(&arguments[0]), copy_symbol(atom));
                                    filed.push(entry);
                                    let parent = (copy_symbol(&arguments[0]), t);
                                    parents.push(parent);
                                    proof {
                                        assert(filed_views(filed@) =~= filed_views(f0).push(
                                            (entry.0@, entry.1.sv(), entry.2.sv()),
                                        ));
                                        assert(parent_views(parents@) =~= parent_views(p0).push((parent.0.sv(), t as int)));
                                    }
                                }
                            },
                        }
                    }
                },
                _ => {},
            }
            proof {
                assert(filed_views(filed@) == scan(us, *index, atoms@.take(t + 1)).filed);
            }
            t = t + 1;
        }
        proof {
            assert(atoms@.take(t as int) =~= atoms@);
        }
        let ghost sc = scan(us, *index, atoms@);
        let mut orphans: Vec<Diagnostic> = Vec::new();
        let mut i: usize = 0;
        proof {
            assert(sc.parents.take(0) =~= Seq::<(SymView, int)>::empty());
            assert(fault_views(orphans@) =~= Seq::<FaultView>::empty());
        }
        while i < parents.len()
            invariant
                i <= parents@.len(),
                parent_views(parents@) == sc.parents,
                syms_view(declared@) == sc.declared,
                syms_view(roots@) == sc.roots,
                forall|k: int| 0 <= k < parents@.len() ==> (#[trigger] parents@[k]).1 < atoms@.len(),
                fault_views(orphans@) == orphan_views(sc, atoms@, sc.parents.take(i as int)),
            decreases parents@.len() - i,
        {
            let (p, at) = (&parents[i].0, parents[i].1);
            proof {
                assert(sc.parents.take(i + 1).drop_last() =~= sc.parents.take(i as int));
                assert(sc.parents.take(i + 1).last() == sc.parents[i as int]);
                assert(sc.parents[i as int] == (p.sv(), at as int));
            }
            if !holds(&declared, p) && descends_from(p, &roots) {
                let path = match &atoms[at] {
                    Symbol::Function { name, .. } => owned(name.as_str()),
                    _ => String::new(),
                };
                let d = Diagnostic::new(
                    DiagnosticKind::ShapeViolation,
                    Locus::at(path.as_str()),
                    "a field atom's parent occupant descends from a marker root but is declared by no occupancy atom",
                );
                let ghost before = orphans@;
                orphans.push(d);
                proof {
                    assert(path@ == functor(atoms@[at as int].sv()));
                    assert(fault_views(orphans@) =~= fault_views(before).push(fault_view(d)));
                }
            }
            i = i + 1;
        }
        proof {
            assert(sc.parents.take(i as int) =~= sc.parents);
        }
        SlotIndex { filed, markers, violations, orphans }
    }

    /// The entries filed under one slot — a field's atoms, or a message field's child occupants —
    /// in the answer set's order; empty when the slot is unset.
    pub fn slot(&self, field: &str, parent: &Symbol) -> (r: Vec<Symbol>)
        ensures
            syms_view(r@) == slot_view(self.filed_view(), field@, parent.sv()),
    {
        let ghost all = filed_views(self.filed@);
        let mut out: Vec<Symbol> = Vec::new();
        let mut i: usize = 0;
        proof {
            assert(all.take(0) =~= Seq::<(Seq<char>, SymView, SymView)>::empty());
        }
        while i < self.filed.len()
            invariant
                all == filed_views(self.filed@),
                i <= self.filed@.len(),
                syms_view(out@) == slot_view(all.take(i as int), field@, parent.sv()),
            decreases self.filed@.len() - i,
        {
            let e = &self.filed[i];
            proof {
                assert(all.take(i + 1).drop_last() =~= all.take(i as int));
                assert(all.take(i + 1).last() == (e.0@, e.1.sv(), e.2.sv()));
            }
            if str_eq(e.0.as_str(), field) && same_symbol(&e.1, parent) {
                let c = copy_symbol(&e.2);
                let ghost before = out@;
                out.push(c);
                proof {
                    lemma_syms_push(before, c);
                    assert(out@ =~= before.push(c));
                }
            }
            i = i + 1;
        }
        proof {
            assert(all.take(i as int) =~= all);
        }
        out
    }

    /// The markers: each sort and its atom's position, in the answer set's order.
    pub fn markers(&self) -> (r: &[(SortRef, usize)])
        ensures
            marker_views(r@) == self.markers_view(),
    {
        self.markers.as_slice()
    }

    /// The `violates` atoms' positions, in the answer set's order.
    pub fn violations(&self) -> (r: &[usize])
        ensures
            position_views(r@) == self.violations_view(),
    {
        self.violations.as_slice()
    }

    /// The orphan refusals.
    pub fn orphans(&self) -> (r: &[Diagnostic])
        ensures
            fault_views(r@) == self.orphans_view(),
    {
        self.orphans.as_slice()
    }
}

} // verus!
