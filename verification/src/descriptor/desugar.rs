//! The de-sugaring rules the descriptor door applies while it reads a descriptor set: which files
//! are dependencies rather than subjects, an enum's openness resolved from its file's version, a
//! singular field's presence resolved from the engine's features, and the scalar kinds a map key
//! may have.
use vstd::prelude::*;

use crate::descriptor::model::{key_scalar, MapKey, Openness, Presence, Scalar, SchemaVersion};
use crate::diff::names::starts_with;
use crate::text::{chars_of, str_eq};

verus! {

broadcast use vstd::string::group_string_axioms;

/// The prefix of the well-known types' files.
pub open spec fn well_known_prefix() -> Seq<char> {
    "google/protobuf/"@
}

/// Whether a descriptor-set file is a dependency rather than a subject: a well-known type's file,
/// or keryx's vendored option registry.
pub open spec fn is_dependency_view(name: Seq<char>) -> bool {
    starts_with(name, well_known_prefix()) || name == "keryx/options.proto"@
}

/// Whether a descriptor-set file is a dependency, not a subject (see [`is_dependency_view`]): its
/// messages and enums resolve references and options but do not become schema elements.
pub fn is_dependency_file(name: &str) -> (r: bool)
    ensures
        r == is_dependency_view(name@),
{
    let prefix = "google/protobuf/";
    let p = chars_of(prefix);
    let n = chars_of(name);
    let mut opens = p.len() <= n.len();
    let mut i: usize = 0;
    while opens && i < p.len()
        invariant
            p@ == prefix@,
            n@ == name@,
            opens ==> p@.len() <= n@.len(),
            i <= p@.len(),
            opens ==> forall|j: int| 0 <= j < i ==> p@[j] == n@[j],
            !opens ==> !starts_with(n@, p@),
        decreases p@.len() - i,
    {
        if p[i] != n[i] {
            opens = false;
            proof {
                assert(n@.take(p@.len() as int)[i as int] != p@[i as int]);
            }
        }
        i = i + 1;
    }
    proof {
        if opens {
            assert(n@.take(p@.len() as int) =~= p@);
        }
    }
    opens || str_eq(name, "keryx/options.proto")
}

/// Enum openness resolved from the file's version: proto2 is closed, proto3 open.
pub fn openness(version: SchemaVersion) -> (r: Openness)
    ensures
        r == match version {
            SchemaVersion::Proto2 => Openness::Closed,
            SchemaVersion::Proto3 => Openness::Open,
        },
{
    match version {
        SchemaVersion::Proto2 => Openness::Closed,
        SchemaVersion::Proto3 => Openness::Open,
    }
}

/// Resolved presence for a singular field: legacy-required when the field is required, else
/// explicit when presence is tracked, else implicit.
pub fn presence(required: bool, tracks_presence: bool) -> (r: Presence)
    ensures
        r == if required {
            Presence::LegacyRequired
        } else if tracks_presence {
            Presence::Explicit
        } else {
            Presence::Implicit
        },
{
    if required {
        Presence::LegacyRequired
    } else if tracks_presence {
        Presence::Explicit
    } else {
        Presence::Implicit
    }
}

/// The map key kind a scalar is, if it is one.
pub open spec fn scalar_key(scalar: Scalar) -> Option<MapKey> {
    match scalar {
        Scalar::Int32 => Some(MapKey::Int32),
        Scalar::Int64 => Some(MapKey::Int64),
        Scalar::Uint32 => Some(MapKey::Uint32),
        Scalar::Uint64 => Some(MapKey::Uint64),
        Scalar::Sint32 => Some(MapKey::Sint32),
        Scalar::Sint64 => Some(MapKey::Sint64),
        Scalar::Fixed32 => Some(MapKey::Fixed32),
        Scalar::Fixed64 => Some(MapKey::Fixed64),
        Scalar::Sfixed32 => Some(MapKey::Sfixed32),
        Scalar::Sfixed64 => Some(MapKey::Sfixed64),
        Scalar::Bool => Some(MapKey::Bool),
        Scalar::String => Some(MapKey::String),
        _ => None,
    }
}

/// The map key kind of a scalar — protobuf restricts map keys to integral, bool, or string kinds
/// — or `None` for any other scalar.
pub fn map_key(scalar: Scalar) -> (r: Option<MapKey>)
    ensures
        r == scalar_key(scalar),
        r matches Some(k) ==> key_scalar(k) == scalar,
        r is None <==> (scalar == Scalar::Float || scalar == Scalar::Double || scalar == Scalar::Bytes),
{
    match scalar {
        Scalar::Int32 => Some(MapKey::Int32),
        Scalar::Int64 => Some(MapKey::Int64),
        Scalar::Uint32 => Some(MapKey::Uint32),
        Scalar::Uint64 => Some(MapKey::Uint64),
        Scalar::Sint32 => Some(MapKey::Sint32),
        Scalar::Sint64 => Some(MapKey::Sint64),
        Scalar::Fixed32 => Some(MapKey::Fixed32),
        Scalar::Fixed64 => Some(MapKey::Fixed64),
        Scalar::Sfixed32 => Some(MapKey::Sfixed32),
        Scalar::Sfixed64 => Some(MapKey::Sfixed64),
        Scalar::Bool => Some(MapKey::Bool),
        Scalar::String => Some(MapKey::String),
        _ => None,
    }
}

} // verus!
