//! The codec's verified pieces: the lexical depth guard a textproto payload passes before any
//! parse, the canonical protobuf wire form, the canonical textproto text, the referent index
//! the payload walk resolves through, and the lowering of a scalar value to its term.
pub mod assemble;
pub mod canonical;
pub mod canonical_text;
pub mod guard;
pub mod layout;
pub mod raise;
pub mod scalar;
pub mod shred;
pub mod slots;
pub mod walk;
