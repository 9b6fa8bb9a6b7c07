//! The rendered sides of a change row — an element's signature in the manifest's vocabulary —
//! and the bridge view of a pure rename: the one rule `old(A, …) :- new(A, …).` under its `%!`
//! provenance line. The rule is spelled here directly, character by character: the ASP term
//! crate whose emitter would print it is not available to this build.
use vstd::prelude::*;

use crate::descriptor::model::{key_scalar, scalar_name, Openness, Scalar};
use crate::policy::{EmitForm, EnumMapping, EnumValueMapping, FieldMapping, SortMapping, Totality,
    ValueMapping};
use crate::text::{decimal, owned, push_decimal};

verus! {

broadcast use vstd::string::group_string_axioms;

/// The manifest's word for a totality.
pub open spec fn totality_word(t: Totality) -> Seq<char> {
    match t {
        Totality::Total => "total"@,
        Totality::Partial => "partial"@,
        Totality::Required => "required"@,
    }
}

/// The manifest's word for an openness.
pub open spec fn openness_word(o: Openness) -> Seq<char> {
    match o {
        Openness::Open => "open"@,
        Openness::Closed => "closed"@,
    }
}

/// The manifest's declared-type column: a scalar's proto type, a referent's predicate.
pub open spec fn declared_view(v: ValueMapping) -> Seq<char> {
    match v {
        ValueMapping::Scalar { kind, .. } => scalar_name(kind),
        ValueMapping::Message(referent) => referent@,
        ValueMapping::Enum { referent, .. } => referent@,
    }
}

/// The manifest's descriptor column: a family's shape, or a singular field's totality.
pub open spec fn descriptor_view(form: EmitForm, presence: Totality) -> Seq<char> {
    match form {
        EmitForm::Sequence => "seq"@,
        EmitForm::Mapped { key, .. } => "map<"@ + scalar_name(key_scalar(key)) + ">"@,
        EmitForm::Membership => "set"@,
        EmitForm::Function => totality_word(presence),
        EmitForm::OneofArm { .. } => totality_word(presence),
    }
}

/// A field's signature: `predicate/arity declared descriptor`.
pub open spec fn field_signature(f: FieldMapping) -> Seq<char> {
    f.predicate@ + "/"@ + decimal(f.arity as nat) + " "@ + declared_view(f.value) + " "@
        + descriptor_view(f.form, f.presence)
}

/// A sort's signature: `predicate/1`.
pub open spec fn sort_signature(s: SortMapping) -> Seq<char> {
    s.predicate@ + "/1"@
}

/// An enum's signature: `predicate/1 (open)`, with `, preserve` under `PRESERVE`.
pub open spec fn enum_signature(e: EnumMapping) -> Seq<char> {
    e.predicate@ + "/1 ("@ + openness_word(e.openness) + (if e.preserve {
        ", preserve"@
    } else {
        Seq::empty()
    }) + ")"@
}

/// A value row's path: `<enum>.<VALUE>`.
pub open spec fn value_path(e: EnumMapping, v: EnumValueMapping) -> Seq<char> {
    e.proto@ + "."@ + v.proto_name@
}

fn totality_text(t: Totality) -> (r: &'static str)
    ensures
        r@ == totality_word(t),
{
    match t {
        Totality::Total => "total",
        Totality::Partial => "partial",
        Totality::Required => "required",
    }
}

/// The manifest's word for an openness.
pub fn openness_text(o: Openness) -> (r: &'static str)
    ensures
        r@ == openness_word(o),
{
    match o {
        Openness::Open => "open",
        Openness::Closed => "closed",
    }
}

/// A field row's signature.
pub fn render_field_signature(f: &FieldMapping) -> (r: String)
    ensures
        r@ == field_signature(*f),
{
    let mut out = f.predicate.clone();
    out.append("/");
    push_decimal(&mut out, f.arity as u64);
    out.append(" ");
    match &f.value {
        ValueMapping::Scalar { kind, .. } => out.append(kind.as_str()),
        ValueMapping::Message(referent) => out.append(referent.as_str()),
        ValueMapping::Enum { referent, .. } => out.append(referent.as_str()),
    }
    out.append(" ");
    match &f.form {
        EmitForm::Sequence => out.append("seq"),
        EmitForm::Mapped { key, .. } => {
            out.append("map<");
            out.append(Scalar::from_key(*key).as_str());
            out.append(">");
        },
        EmitForm::Membership => out.append("set"),
        EmitForm::Function => out.append(totality_text(f.presence)),
        EmitForm::OneofArm { .. } => out.append(totality_text(f.presence)),
    }
    out
}

/// A sort row's signature.
pub fn render_sort_signature(s: &SortMapping) -> (r: String)
    ensures
        r@ == sort_signature(*s),
{
    let mut out = s.predicate.clone();
    out.append("/1");
    out
}

/// An enum row's signature.
pub fn render_enum_signature(e: &EnumMapping) -> (r: String)
    ensures
        r@ == enum_signature(*e),
{
    let mut out = e.predicate.clone();
    out.append("/1 (");
    out.append(openness_text(e.openness));
    if e.preserve {
        out.append(", preserve");
    }
    out.append(")");
    proof {
        if !e.preserve {
            assert(out@ =~= enum_signature(*e));
        }
    }
    out
}

/// A value row's path.
pub fn render_value_path(e: &EnumMapping, v: &EnumValueMapping) -> (r: String)
    ensures
        r@ == value_path(*e, *v),
{
    let mut out = owned(e.proto.as_str());
    out.append(".");
    out.append(v.proto_name.as_str());
    out
}

/// The positional variables of a bridge at `arity`: `A`, `A, B`, `A, B, C`.
pub open spec fn positions(arity: nat) -> Seq<char> {
    if arity == 1 {
        "A"@
    } else if arity == 2 {
        "A, B"@
    } else {
        "A, B, C"@
    }
}

/// An atom of a bridge: the predicate over the positions, or the bare predicate at arity 0.
pub open spec fn bridge_atom(predicate: Seq<char>, arity: nat) -> Seq<char> {
    if arity == 0 {
        predicate
    } else {
        predicate + "("@ + positions(arity) + ")"@
    }
}

/// The bridge view of one pure rename: its `%!` provenance line — `old/n reads new/n
/// (inbound-facing bridge[ of the view]: <from> renamed <to>)` — and the one rule aliasing
/// the old predicate to the new over fresh positional variables.
pub open spec fn bridge_view(
    old_predicate: Seq<char>,
    new_predicate: Seq<char>,
    arity: nat,
    from: Seq<char>,
    to: Seq<char>,
    view: bool,
) -> Seq<char> {
    "%! "@ + old_predicate + "/"@ + decimal(arity) + " reads "@ + new_predicate + "/"@ + decimal(
        arity,
    ) + "  (inbound-facing bridge"@ + (if view {
        " of the view"@
    } else {
        Seq::empty()
    }) + ": "@ + from + " renamed "@ + to + ")\n"@ + bridge_atom(old_predicate, arity) + " :- "@
        + bridge_atom(new_predicate, arity) + ".\n"@
}

fn push_atom(out: &mut String, predicate: &String, arity: u32)
    requires
        arity <= 3,
    ensures
        final(out)@ == old(out)@ + bridge_atom(predicate@, arity as nat),
{
    out.append(predicate.as_str());
    if arity == 0 {
        return;
    }
    out.append("(");
    if arity == 1 {
        out.append("A");
    } else if arity == 2 {
        out.append("A, B");
    } else {
        out.append("A, B, C");
    }
    out.append(")");
}

/// Render the bridge view of one pure rename (see [`bridge_view`]); keryx emits no predicate
/// wider than a ternary family, so the arity is at most 3.
pub fn bridge_rule(
    old_predicate: &String,
    new_predicate: &String,
    arity: u32,
    from: &str,
    to: &str,
    view: bool,
) -> (r: String)
    requires
        arity <= 3,
    ensures
        r@ == bridge_view(old_predicate@, new_predicate@, arity as nat, from@, to@, view),
{
    let mut out = owned("%! ");
    out.append(old_predicate.as_str());
    out.append("/");
    push_decimal(&mut out, arity as u64);
    out.append(" reads ");
    out.append(new_predicate.as_str());
    out.append("/");
    push_decimal(&mut out, arity as u64);
    out.append("  (inbound-facing bridge");
    if view {
        out.append(" of the view");
    }
    out.append(": ");
    out.append(from);
    out.append(" renamed ");
    out.append(to);
    out.append(")\n");
    push_atom(&mut out, old_predicate, arity);
    out.append(" :- ");
    push_atom(&mut out, new_predicate, arity);
    out.append(".\n");
    proof {
        if !view {
            assert(out@ =~= bridge_view(old_predicate@, new_predicate@, arity as nat, from@, to@, view));
        }
    }
    out
}

} // verus!
