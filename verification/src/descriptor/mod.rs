//! Descriptor ingestion: the schema model, the source door's guards, and the analyses over the
//! model.
use vstd::prelude::*;

pub mod assemble;
pub mod builders;
pub mod closure;
pub mod desugar;
pub mod docs;
pub mod door;
pub mod ingest;
pub mod model;
pub mod options;
pub mod order;
pub mod recursion;
pub mod source;

verus! {

/// The protobuf decode recursion limit: a lexical message chain this deep or deeper is refused,
/// so the deepest chain the descriptor door admits is one less.
pub const RECURSION_LIMIT: usize = 100;

} // verus!
