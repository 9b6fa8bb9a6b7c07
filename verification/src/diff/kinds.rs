//! How a node of a comparison differs between the sides: one [`ChangeKind`] per node, whether it
//! breaks a model written against the old vocabulary, its slug in a changeset, and its place in
//! the order the changes are listed in.
use vstd::prelude::*;

verus! {

/// How a node of a comparison differs between the sides — one kind per node. The seventeen
/// kinds of change and the baseline `Unchanged`; the declaration order is the fixed order the
/// changes are sorted on last.
#[derive(Clone, Copy, Debug, PartialEq, Eq, PartialOrd, Ord, Hash, Structural)]
pub enum ChangeKind {
    /// Both sides present and one in the vocabulary: no change.
    Unchanged,
    /// A field's predicate changed with its shape intact: a clean rename, bridgeable.
    Renamed,
    /// A field removed (or renumbered): breaking.
    Removed,
    /// A field added: informational.
    Added,
    /// A field whose arity, form, value, presence, or oneof cell changed: breaking.
    Changed,
    /// A sort's predicate changed while its path held: bridgeable.
    SortRenamed,
    /// An enum's predicate changed while its path held: bridgeable.
    EnumRenamed,
    /// A message added: informational.
    MessageAdded,
    /// A message removed: breaking.
    MessageRemoved,
    /// An enum added: informational.
    EnumAdded,
    /// An enum removed: breaking.
    EnumRemoved,
    /// An enum value added: informational.
    ValueAdded,
    /// An enum value removed: breaking.
    ValueRemoved,
    /// An enum value's constant changed while its number held: breaking.
    ValueRenamed,
    /// An enum's resolved openness flipped: breaking.
    OpennessChanged,
    /// An enum's preservation of unknown values flipped: breaking.
    PreserveChanged,
    /// A subject package on the new side only: informational.
    PackageAdded,
    /// A subject package on the old side only: breaking.
    PackageRemoved,
}

/// Whether a kind breaks a model written against the old vocabulary: every removal, a field
/// whose shape changed, a constant renamed, an enum whose openness or preservation flipped.
pub open spec fn breaking(k: ChangeKind) -> bool {
    match k {
        ChangeKind::Removed | ChangeKind::Changed | ChangeKind::MessageRemoved
        | ChangeKind::EnumRemoved | ChangeKind::ValueRemoved | ChangeKind::ValueRenamed
        | ChangeKind::OpennessChanged | ChangeKind::PreserveChanged
        | ChangeKind::PackageRemoved => true,
        _ => false,
    }
}

/// A kind's place in the declaration order.
pub open spec fn kind_rank(k: ChangeKind) -> int {
    match k {
        ChangeKind::Unchanged => 0,
        ChangeKind::Renamed => 1,
        ChangeKind::Removed => 2,
        ChangeKind::Added => 3,
        ChangeKind::Changed => 4,
        ChangeKind::SortRenamed => 5,
        ChangeKind::EnumRenamed => 6,
        ChangeKind::MessageAdded => 7,
        ChangeKind::MessageRemoved => 8,
        ChangeKind::EnumAdded => 9,
        ChangeKind::EnumRemoved => 10,
        ChangeKind::ValueAdded => 11,
        ChangeKind::ValueRemoved => 12,
        ChangeKind::ValueRenamed => 13,
        ChangeKind::OpennessChanged => 14,
        ChangeKind::PreserveChanged => 15,
        ChangeKind::PackageAdded => 16,
        ChangeKind::PackageRemoved => 17,
    }
}

/// A kind's slug in a changeset: the variant's name in `snake_case`; the baseline has none.
pub open spec fn slug_view(k: ChangeKind) -> Option<Seq<char>> {
    match k {
        ChangeKind::Unchanged => None,
        ChangeKind::Renamed => Some("renamed"@),
        ChangeKind::Removed => Some("removed"@),
        ChangeKind::Added => Some("added"@),
        ChangeKind::Changed => Some("changed"@),
        ChangeKind::SortRenamed => Some("sort_renamed"@),
        ChangeKind::EnumRenamed => Some("enum_renamed"@),
        ChangeKind::MessageAdded => Some("message_added"@),
        ChangeKind::MessageRemoved => Some("message_removed"@),
        ChangeKind::EnumAdded => Some("enum_added"@),
        ChangeKind::EnumRemoved => Some("enum_removed"@),
        ChangeKind::ValueAdded => Some("value_added"@),
        ChangeKind::ValueRemoved => Some("value_removed"@),
        ChangeKind::ValueRenamed => Some("value_renamed"@),
        ChangeKind::OpennessChanged => Some("openness_changed"@),
        ChangeKind::PreserveChanged => Some("preserve_changed"@),
        ChangeKind::PackageAdded => Some("package_added"@),
        ChangeKind::PackageRemoved => Some("package_removed"@),
    }
}

impl ChangeKind {
    /// Whether this kind breaks a model written against the old vocabulary (see [`breaking`]):
    /// a rename of a field, sort, or enum is not breaking — a bridge view aliases it — and no
    /// addition is.
    pub fn is_breaking(self) -> (r: bool)
        ensures
            r == breaking(self),
    {
        match self {
            ChangeKind::Removed | ChangeKind::Changed | ChangeKind::MessageRemoved
            | ChangeKind::EnumRemoved | ChangeKind::ValueRemoved | ChangeKind::ValueRenamed
            | ChangeKind::OpennessChanged | ChangeKind::PreserveChanged
            | ChangeKind::PackageRemoved => true,
            _ => false,
        }
    }

    /// The kind's place in the declaration order.
    pub fn rank(self) -> (r: u8)
        ensures
            r == kind_rank(self),
    {
        match self {
            ChangeKind::Unchanged => 0,
            ChangeKind::Renamed => 1,
            ChangeKind::Removed => 2,
            ChangeKind::Added => 3,
            ChangeKind::Changed => 4,
            ChangeKind::SortRenamed => 5,
            ChangeKind::EnumRenamed => 6,
            ChangeKind::MessageAdded => 7,
            ChangeKind::MessageRemoved => 8,
            ChangeKind::EnumAdded => 9,
            ChangeKind::EnumRemoved => 10,
            ChangeKind::ValueAdded => 11,
            ChangeKind::ValueRemoved => 12,
            ChangeKind::ValueRenamed => 13,
            ChangeKind::OpennessChanged => 14,
            ChangeKind::PreserveChanged => 15,
            ChangeKind::PackageAdded => 16,
            ChangeKind::PackageRemoved => 17,
        }
    }

    /// The kind's slug in a changeset (see [`slug_view`]); `None` for `Unchanged`, which is no
    /// change and names no record.
    pub fn slug(self) -> (r: Option<&'static str>)
        ensures
            r matches Some(s) ==> slug_view(self) == Some(s@),
            r is None <==> slug_view(self) is None,
    {
        match self {
            ChangeKind::Unchanged => None,
            ChangeKind::Renamed => Some("renamed"),
            ChangeKind::Removed => Some("removed"),
            ChangeKind::Added => Some("added"),
            ChangeKind::Changed => Some("changed"),
            ChangeKind::SortRenamed => Some("sort_renamed"),
            ChangeKind::EnumRenamed => Some("enum_renamed"),
            ChangeKind::MessageAdded => Some("message_added"),
            ChangeKind::MessageRemoved => Some("message_removed"),
            ChangeKind::EnumAdded => Some("enum_added"),
            ChangeKind::EnumRemoved => Some("enum_removed"),
            ChangeKind::ValueAdded => Some("value_added"),
            ChangeKind::ValueRemoved => Some("value_removed"),
            ChangeKind::ValueRenamed => Some("value_renamed"),
            ChangeKind::OpennessChanged => Some("openness_changed"),
            ChangeKind::PreserveChanged => Some("preserve_changed"),
            ChangeKind::PackageAdded => Some("package_added"),
            ChangeKind::PackageRemoved => Some("package_removed"),
        }
    }
}

} // verus!
