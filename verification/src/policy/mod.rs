//! The mapping model: a schema's ASP vocabulary, per package — each message a sort with its
//! fields' predicates, arities, forms, value terms and totalities, each enum a value sort with
//! its constants. This is what the comparison ([`crate::diff`]) reads on each side.
use vstd::prelude::*;

use crate::descriptor::model::{FqName, MapKey, Openness, Package, Scalar};

verus! {

/// A field's totality on its parent sort.
#[derive(Clone, Copy, Debug, PartialEq, Eq, Structural)]
pub enum Totality {
    /// The atom is always emitted.
    Total,
    /// The atom is emitted only when the field is set.
    Partial,
    /// A proto2 `required` field: partial, with an outbound totality obligation.
    Required,
}

/// How a scalar value is lowered to a term.
#[derive(Clone, Copy, Debug, PartialEq, Eq, Structural)]
pub enum ScalarTreatment {
    /// The integer itself.
    Native,
    /// The decimal string of a wide integer.
    DecimalString,
    /// The integer itself, refused outside the 32-bit term range.
    NativeChecked,
    /// The constant `true` or `false`.
    Bool,
    /// The string.
    Text,
    /// The lowercase-hex string of bytes.
    HexString,
    /// An unannotated float: refused.
    NeedsAnnotation,
    /// A float scaled by `10^scale` to an integer.
    FixedPoint {
        /// The decimal scale.
        scale: u32,
    },
    /// A float as its shortest round-trippable decimal string.
    OpaqueFloat,
}

/// The form a field takes in the vocabulary.
#[derive(Clone, Debug, PartialEq, Eq)]
pub enum EmitForm {
    /// A singular field: a binary function atom.
    Function,
    /// An arm of a oneof, named by its label.
    OneofArm {
        /// The oneof's label.
        oneof: String,
    },
    /// A repeated field whose order is incidental: a binary membership relation.
    Membership,
    /// A repeated field: a ternary index-keyed family.
    Sequence,
    /// A map field: a ternary key-keyed family.
    Mapped {
        /// The key kind.
        key: MapKey,
        /// The key's treatment.
        key_treatment: ScalarTreatment,
    },
}

/// The term a field's value carries.
#[derive(Clone, Debug, PartialEq, Eq)]
pub enum ValueMapping {
    /// A scalar, by kind and treatment.
    Scalar {
        /// The proto kind.
        kind: Scalar,
        /// The treatment.
        treatment: ScalarTreatment,
    },
    /// A message occupant, naming the referent sort's predicate.
    Message(String),
    /// An enum constant, naming the referent enum's predicate.
    Enum {
        /// The referent enum's predicate.
        referent: String,
        /// Whether the referent preserves unknown values.
        preserve: bool,
    },
}

/// One field's vocabulary.
#[derive(Clone, Debug, PartialEq, Eq)]
pub struct FieldMapping {
    /// The field's fully-qualified proto path.
    pub proto: FqName,
    /// The field number.
    pub number: i32,
    /// The predicate.
    pub predicate: String,
    /// The predicate's arity.
    pub arity: u32,
    /// The form.
    pub form: EmitForm,
    /// The value term.
    pub value: ValueMapping,
    /// The totality.
    pub presence: Totality,
    /// Whether the predicate was escaped.
    pub escaped: bool,
    /// The doc comment.
    pub doc: Option<String>,
}

/// Whether a field mapping has a relational view: a message-typed field that is no set.
pub open spec fn has_view(field: FieldMapping) -> bool {
    &&& field.value is Message
    &&& !(field.form is Membership)
}

impl FieldMapping {
    /// The field's proto path.
    pub fn proto(&self) -> (r: &FqName)
        ensures
            r == &self.proto,
    {
        &self.proto
    }

    /// The field number.
    pub fn number(&self) -> (r: i32)
        ensures
            r == self.number,
    {
        self.number
    }

    /// The predicate.
    pub fn predicate(&self) -> (r: &String)
        ensures
            r == &self.predicate,
    {
        &self.predicate
    }

    /// The predicate's arity.
    pub fn arity(&self) -> (r: u32)
        ensures
            r == self.arity,
    {
        self.arity
    }

    /// The form.
    pub fn form(&self) -> (r: &EmitForm)
        ensures
            r == &self.form,
    {
        &self.form
    }

    /// The value term.
    pub fn value(&self) -> (r: &ValueMapping)
        ensures
            r == &self.value,
    {
        &self.value
    }

    /// The totality.
    pub fn presence(&self) -> (r: Totality)
        ensures
            r == self.presence,
    {
        self.presence
    }

    /// The relational view a message field is read through — its own predicate, at its
    /// arity — or `None` for a scalar, enum, or set field, which has none.
    pub fn view(&self) -> (r: Option<&String>)
        ensures
            has_view(*self) ==> r == Some(&self.predicate),
            !has_view(*self) ==> r is None,
    {
        match (&self.value, &self.form) {
            (ValueMapping::Message(_), EmitForm::Membership) => None,
            (ValueMapping::Message(_), _) => Some(&self.predicate),
            _ => None,
        }
    }
}

/// One message sort's vocabulary.
#[derive(Clone, Debug, PartialEq, Eq)]
pub struct SortMapping {
    /// The message's fully-qualified proto path.
    pub proto: FqName,
    /// The sort predicate.
    pub predicate: String,
    /// The qualifier segments the predicate carries.
    pub qualifier: Vec<String>,
    /// Whether the predicate was escaped.
    pub escaped: bool,
    /// Whether the message is recursive.
    pub recursive: bool,
    /// The doc comment.
    pub doc: Option<String>,
    /// The fields.
    pub fields: Vec<FieldMapping>,
    /// Whether the sort is the schema's own (not pulled in as a referent).
    pub subject: bool,
}

impl SortMapping {
    /// The message's proto path.
    pub fn proto(&self) -> (r: &FqName)
        ensures
            r == &self.proto,
    {
        &self.proto
    }

    /// The sort predicate.
    pub fn predicate(&self) -> (r: &String)
        ensures
            r == &self.predicate,
    {
        &self.predicate
    }

    /// The fields.
    pub fn fields(&self) -> (r: &[FieldMapping])
        ensures
            r@ == self.fields@,
    {
        self.fields.as_slice()
    }

    /// Whether the sort is subject vocabulary.
    pub fn is_subject(&self) -> (r: bool)
        ensures
            r == self.subject,
    {
        self.subject
    }
}

/// One enum value's vocabulary.
#[derive(Clone, Debug, PartialEq, Eq)]
pub struct EnumValueMapping {
    /// The value's proto name.
    pub proto_name: String,
    /// The value's number.
    pub number: i32,
    /// The lowered constant.
    pub constant: String,
    /// Whether the constant was escaped.
    pub escaped: bool,
    /// The doc comment.
    pub doc: Option<String>,
}

impl EnumValueMapping {
    /// The value's proto name.
    pub fn proto_name(&self) -> (r: &String)
        ensures
            r == &self.proto_name,
    {
        &self.proto_name
    }

    /// The value's number.
    pub fn number(&self) -> (r: i32)
        ensures
            r == self.number,
    {
        self.number
    }

    /// The lowered constant.
    pub fn constant(&self) -> (r: &String)
        ensures
            r == &self.constant,
    {
        &self.constant
    }
}

/// One enum's vocabulary.
#[derive(Clone, Debug, PartialEq, Eq)]
pub struct EnumMapping {
    /// The enum's fully-qualified proto path.
    pub proto: FqName,
    /// The value-sort predicate.
    pub predicate: String,
    /// The qualifier segments the predicate carries.
    pub qualifier: Vec<String>,
    /// Whether the predicate was escaped.
    pub escaped: bool,
    /// The resolved openness.
    pub openness: Openness,
    /// Whether unknown values are preserved as `unknown(N)`.
    pub preserve: bool,
    /// The doc comment.
    pub doc: Option<String>,
    /// The values.
    pub values: Vec<EnumValueMapping>,
    /// Whether the enum is the schema's own (not pulled in as a referent).
    pub subject: bool,
}

impl EnumMapping {
    /// The enum's proto path.
    pub fn proto(&self) -> (r: &FqName)
        ensures
            r == &self.proto,
    {
        &self.proto
    }

    /// The value-sort predicate.
    pub fn predicate(&self) -> (r: &String)
        ensures
            r == &self.predicate,
    {
        &self.predicate
    }

    /// The resolved openness.
    pub fn openness(&self) -> (r: Openness)
        ensures
            r == self.openness,
    {
        self.openness
    }

    /// Whether unknown values are preserved.
    pub fn preserve(&self) -> (r: bool)
        ensures
            r == self.preserve,
    {
        self.preserve
    }

    /// The values.
    pub fn values(&self) -> (r: &[EnumValueMapping])
        ensures
            r@ == self.values@,
    {
        self.values.as_slice()
    }

    /// Whether the enum is subject vocabulary.
    pub fn is_subject(&self) -> (r: bool)
        ensures
            r == self.subject,
    {
        self.subject
    }
}

/// One package's vocabulary.
#[derive(Clone, Debug, PartialEq, Eq)]
pub struct Unit {
    /// The package.
    pub package: Package,
    /// The message sorts.
    pub sorts: Vec<SortMapping>,
    /// The enums.
    pub enums: Vec<EnumMapping>,
}

impl Unit {
    /// The package.
    pub fn package(&self) -> (r: &Package)
        ensures
            r == &self.package,
    {
        &self.package
    }

    /// The message sorts.
    pub fn sorts(&self) -> (r: &[SortMapping])
        ensures
            r@ == self.sorts@,
    {
        self.sorts.as_slice()
    }

    /// The enums.
    pub fn enums(&self) -> (r: &[EnumMapping])
        ensures
            r@ == self.enums@,
    {
        self.enums.as_slice()
    }
}

/// A schema's whole vocabulary, per package.
#[derive(Clone, Debug, PartialEq, Eq)]
pub struct Mapping {
    /// The packages' vocabularies.
    pub units: Vec<Unit>,
}

impl Mapping {
    /// The packages' vocabularies.
    pub fn units(&self) -> (r: &[Unit])
        ensures
            r@ == self.units@,
    {
        self.units.as_slice()
    }
}

} // verus!
