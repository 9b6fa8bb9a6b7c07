//! The comparison of two versions of a schema's vocabulary: the old and the new mapping are
//! matched by protobuf identity — a unit by its version-normalized package, a sort or enum by its
//! package-relative path, a field or value by its number; names are free to change — into a
//! matched tree whose every node classifies itself, and the tree flattens to the sorted rows of
//! its changes. A pure rename carries a bridge view: the one rule through which a model written
//! against the old vocabulary reads the new facts.
pub mod cells;
pub mod changes;
pub mod index;
pub mod kinds;
pub mod model;
pub mod names;
pub mod render;
pub mod resolve;
pub mod side;
pub mod tree;

pub use changes::Change;
pub use kinds::ChangeKind;
pub use names::{is_version_segment, normalize_package, relative_name};
pub use tree::{compare, ChangeAspect, Comparison, EnumDiff, FieldDiff, PackageDiff, SortDiff,
    ValueDiff};
