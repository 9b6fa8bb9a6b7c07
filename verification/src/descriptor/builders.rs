//! The builders' own logic: a field's number checked into range, a map field's de-sugared shape
//! checked against its entry, a oneof's arms, a message's fields and an enum's values put in
//! their deterministic order, a message's oneofs kept in declaration order, and a message's referents listed.
use vstd::prelude::*;

use crate::descriptor::desugar::{map_key, openness, scalar_key};
use crate::descriptor::model::{Annotation, Enum, EnumValue, Field, FieldShape, FqName, Message, Oneof, Openness, Scalar, SchemaVersion, ValueType};
use crate::descriptor::order::{in_order, sort_stably};
use crate::diagnostics::{fault_view, fault_views, Diagnostic, DiagnosticKind, Diagnostics, Locus};

verus! {

broadcast use vstd::string::group_string_axioms;

/// What a map field's descriptor shows of its entry: a kind that is not an entry message, an
/// entry missing its key (number 1) or value (number 2) field, or an entry with a key of the
/// given scalar kind (`None` for a non-scalar key) and a value of the given type.
#[derive(Clone, Debug, PartialEq, Eq)]
pub enum EntryView {
    /// The field's kind is not its entry message.
    NotAnEntry,
    /// The entry lacks its key or its value field.
    MissingKeyOrValue,
    /// The entry's key kind and value type.
    Entry {
        /// The key's scalar kind, `None` when the key is not a scalar.
        key: Option<Scalar>,
        /// The value's type.
        value: ValueType,
    },
}

/// The de-sugared shape of a map field, or the detail of why its entry is malformed.
pub open spec fn map_shape_view(entry: EntryView) -> Result<FieldShape, Seq<char>> {
    match entry {
        EntryView::NotAnEntry => Err("a map field's kind is not its entry message"@),
        EntryView::MissingKeyOrValue => Err("a map entry is missing its key or value field"@),
        EntryView::Entry { key, value } => match (match key {
            Some(s) => scalar_key(s),
            None => None,
        }) {
            None => Err("a map key is not an integral, bool, or string kind"@),
            Some(k) => Ok(FieldShape::Mapped { key: k, value }),
        },
    }
}

/// A `MalformedDescriptor` at `path`.
fn malformed_at(path: &str, detail: &str) -> (r: Diagnostics)
    ensures
        fault_views(r@) == seq![(DiagnosticKind::MalformedDescriptor, Some(path@), detail@)],
{
    let r = Diagnostics::one(Diagnostic::new(DiagnosticKind::MalformedDescriptor, Locus::at(path), detail));
    proof {
        assert(fault_views(r@) =~= seq![fault_view(r@[0])]);
    }
    r
}

/// The de-sugared map shape, total over an adversarial descriptor: a map field whose kind is not
/// its entry message, an entry missing key or value, or a non-key key kind, each composes a
/// `MalformedDescriptor` at the field rather than panicking.
pub fn map_shape(path: &str, entry: EntryView) -> (r: Result<FieldShape, Diagnostics>)
    ensures
        match (r, map_shape_view(entry)) {
            (Ok(s), Ok(t)) => s == t,
            (Err(d), Err(detail)) => fault_views(d@) == seq![
                (DiagnosticKind::MalformedDescriptor, Some(path@), detail),
            ],
            _ => false,
        },
{
    proof {
        reveal_strlit("a map field's kind is not its entry message");
        reveal_strlit("a map entry is missing its key or value field");
        reveal_strlit("a map key is not an integral, bool, or string kind");
    }
    match entry {
        EntryView::NotAnEntry => Err(malformed_at(path, "a map field's kind is not its entry message")),
        EntryView::MissingKeyOrValue => Err(malformed_at(path, "a map entry is missing its key or value field")),
        EntryView::Entry { key, value } => {
            let k = match key {
                Some(s) => map_key(s),
                None => None,
            };
            match k {
                None => Err(malformed_at(path, "a map key is not an integral, bool, or string kind")),
                Some(k) => Ok(FieldShape::Mapped { key: k, value }),
            }
        },
    }
}

/// A proto field number as `i32`; an out-of-range number from an adversarial set composes
/// `MalformedDescriptor` at the field rather than panicking.
pub fn field_number(number: u32, path: &str) -> (r: Result<i32, Diagnostics>)
    ensures
        r is Ok <==> number <= i32::MAX,
        r matches Ok(n) ==> n == number,
        r matches Err(d) ==> fault_views(d@) == seq![
            (DiagnosticKind::MalformedDescriptor, Some(path@), "field number out of range"@),
        ],
{
    if number <= 0x7FFF_FFFF {
        Ok(number as i32)
    } else {
        proof {
            reveal_strlit("field number out of range");
        }
        Err(malformed_at(path, "field number out of range"))
    }
}

/// A field, its number checked into range.
pub fn build_field(
    number: u32,
    name: String,
    path: FqName,
    shape: FieldShape,
    options: Vec<Annotation>,
    doc: Option<String>,
) -> (r: Result<Field, Diagnostics>)
    ensures
        r is Ok <==> number <= i32::MAX,
        r matches Ok(f) ==> f.spec_number() == number && f.spec_name() == name@ && f.spec_path()
            == path@ && f.spec_shape() == shape && f.spec_options() == options@ && f.spec_doc()
            == doc,
        r matches Err(d) ==> fault_views(d@) == seq![
            (DiagnosticKind::MalformedDescriptor, Some(path@), "field number out of range"@),
        ],
{
    let number = field_number(number, path.as_str())?;
    Ok(Field::assemble(number, name, path, shape, options, doc))
}

/// A oneof, its arms' numbers checked into range (each at its own field's path) and ascending.
pub fn build_oneof(name: String, path: FqName, arms: Vec<(u32, FqName)>, doc: Option<String>) -> (r:
    Result<Oneof, Diagnostics>)
    ensures
        r is Ok <==> forall|i: int| 0 <= i < arms@.len() ==> (#[trigger] arms@[i]).0 <= i32::MAX,
        r matches Ok(o) ==> o.name == name && o.path == path && o.doc == doc && o.arms@ == in_order(
            arms@.map_values(|a: (u32, FqName)| a.0 as i32),
        ),
        r matches Err(d) ==> exists|i: int|
            0 <= i < arms@.len() && arms@[i].0 > i32::MAX && (forall|j: int|
                0 <= j < i ==> (#[trigger] arms@[j]).0 <= i32::MAX) && fault_views(d@) == seq![
                (DiagnosticKind::MalformedDescriptor, Some(arms@[i].1@), "field number out of range"@),
            ],
{
    let mut numbers: Vec<i32> = Vec::new();
    let mut i: usize = 0;
    while i < arms.len()
        invariant
            i <= arms@.len(),
            forall|j: int| 0 <= j < i ==> (#[trigger] arms@[j]).0 <= i32::MAX,
            numbers@ == arms@.take(i as int).map_values(|a: (u32, FqName)| a.0 as i32),
        decreases arms@.len() - i,
    {
        let n = match field_number(arms[i].0, arms[i].1.as_str()) {
            Ok(n) => n,
            Err(d) => {
                return Err(d);
            },
        };
        numbers.push(n);
        proof {
            assert(numbers@ =~= arms@.take(i + 1).map_values(|a: (u32, FqName)| a.0 as i32));
        }
        i = i + 1;
    }
    proof {
        assert(arms@.take(arms@.len() as int) =~= arms@);
    }
    let arms = sort_stably(numbers);
    Ok(Oneof { name, path, arms, doc })
}

/// A message: its fields ordered by number, equal numbers keeping arrival order, and its oneofs
/// in declaration order; not yet marked recursive.
pub fn build_message(
    path: FqName,
    file: String,
    outer: Option<FqName>,
    fields: Vec<Field>,
    oneofs: Vec<Oneof>,
    options: Vec<Annotation>,
    doc: Option<String>,
) -> (r: Message)
    ensures
        r.spec_path() == path@,
        r.spec_file() == file@,
        r.spec_outer() == outer,
        r.spec_fields() == in_order(fields@),
        r.spec_oneofs() == oneofs@,
        r.spec_options() == options@,
        r.spec_doc() == doc,
        !r.spec_recursive(),
{
    let fields = sort_stably(fields);
    Message::assemble(path, file, outer, fields, oneofs, options, doc)
}

/// An enum: its values ordered by number, keeping arrival order among equals; its openness
/// resolved from its file's syntax.
pub fn build_enum(
    path: FqName,
    file: String,
    outer: Option<FqName>,
    version: SchemaVersion,
    values: Vec<EnumValue>,
    options: Vec<Annotation>,
    doc: Option<String>,
) -> (r: Enum)
    ensures
        r.spec_path() == path@,
        r.spec_file() == file@,
        r.spec_outer() == outer,
        r.spec_openness() == match version {
            SchemaVersion::Proto2 => Openness::Closed,
            SchemaVersion::Proto3 => Openness::Open,
        },
        r.spec_values() == in_order(values@),
        r.spec_options() == options@,
        r.spec_doc() == doc,
{
    let values = sort_stably(values);
    Enum::assemble(path, file, outer, openness(version), values, options, doc)
}

/// The path of the referent a value type names, if it names one.
pub open spec fn referent_of(v: ValueType) -> Option<Seq<char>> {
    match v {
        ValueType::Message(r) => Some(r@),
        ValueType::Enum(r) => Some(r@),
        ValueType::Scalar(_) => None,
    }
}

/// The value type of a field's shape.
pub open spec fn shape_value(s: FieldShape) -> ValueType {
    match s {
        FieldShape::Singular { value, .. } => value,
        FieldShape::Repeated { value } => value,
        FieldShape::Mapped { value, .. } => value,
    }
}

/// The paths of the referents a run of fields names, in order.
pub open spec fn field_referents(fs: Seq<Field>) -> Seq<Seq<char>>
    decreases fs.len(),
{
    if fs.len() == 0 {
        Seq::empty()
    } else {
        field_referents(fs.drop_last()) + match referent_of(shape_value(fs.last().spec_shape())) {
            Some(r) => seq![r],
            None => Seq::empty(),
        }
    }
}

/// Names as their paths.
pub open spec fn names_view(ns: Seq<FqName>) -> Seq<Seq<char>> {
    ns.map_values(|n: FqName| n@)
}

/// The message and enum types a built message's fields name — its structural referents, in
/// field order. Maps are already de-sugared to their value type; a scalar names nothing.
pub fn message_referents(message: &Message) -> (r: Vec<FqName>)
    ensures
        names_view(r@) == field_referents(message.spec_fields()),
{
    let fields = message.fields();
    let mut out: Vec<FqName> = Vec::new();
    let mut i: usize = 0;
    while i < fields.len()
        invariant
            i <= fields@.len(),
            fields@ == message.spec_fields(),
            names_view(out@) == field_referents(fields@.take(i as int)),
        decreases fields@.len() - i,
    {
        let value = match fields[i].shape() {
            FieldShape::Singular { value, .. } => value,
            FieldShape::Repeated { value } => value,
            FieldShape::Mapped { value, .. } => value,
        };
        proof {
            assert(fields@.take(i + 1).drop_last() =~= fields@.take(i as int));
            assert(*value == shape_value(fields@[i as int].spec_shape()));
        }
        let ghost before = out@;
        match value {
            ValueType::Message(referent) => out.push(referent.duplicate()),
            ValueType::Enum(referent) => out.push(referent.duplicate()),
            ValueType::Scalar(_) => {},
        }
        proof {
            assert(names_view(out@) =~= field_referents(fields@.take(i + 1)));
        }
        i = i + 1;
    }
    proof {
        assert(fields@.take(fields@.len() as int) =~= fields@);
    }
    out
}

} // verus!
