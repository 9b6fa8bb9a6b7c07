//! keryx's verified core: the diagnostic taxonomy, the de-sugared schema model and its analyses,
//! the lexical guards and wire canonicalisation of the codec, and the schema comparison.
use vstd::prelude::*;

pub mod codec;
pub mod descriptor;
pub mod diagnostics;
pub mod diff;
pub mod policy;
pub mod text;

verus! {
} // verus!
