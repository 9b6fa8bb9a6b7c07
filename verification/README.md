# keryx-core

The core of keryx: a Protobuf schema read into a de-sugared model, the schema's custom-option
annotations and doc comments, the breaking-change comparison of two mapped schemas, and the
deterministic wire and text orderings of payloads. The library under `src/` is written in Verus:
each public function carries a contract, and the laws the library promises stand as proof
functions beside the code they are about.

## Layout

- `src/diagnostics.rs` — the typed diagnostics every refusal is, and their wire and human forms.
- `src/text.rs` — verified character and decimal helpers shared by the rest.
- `src/descriptor/` — the schema model (`model`), its deterministic order (`order`), the
  descriptor door's pre-read (`door`), the `.proto` source screen (`source`), option lowering
  (`options`), doc comments (`docs`), the element builders (`builders`), the schema walk's plan
  (`closure`), the schema's assembly (`assemble`), the ingestion of a descriptor pool as a
  descriptor engine reports it — its stack walk, builds, engine-guarantee checks, and assembly
  (`ingest`) — and containment-cycle analysis (`recursion`).
- `src/codec/` — the canonical binary map order (`canonical`), the canonical text map order
  (`canonical_text`), the payload nesting guard (`guard`), the field layouts both read (`layout`),
  the payload walk's referent index (`walk`), the lowering of an integer, boolean, string, or
  bytes value to its term (`scalar`), the raising of a term back to the value it was lowered from,
  with the law that raising undoes lowering (`raise`), the shredding walk's per-field step from a
  decoded value to its facts (`shred`), an answer set keyed for reassembly with its orphan check
  (`slots`), and the planning of a reassembled message's fields from that answer set — a
  singular value, a sequence dense from index 0, a map keyed once per key — with the setting of
  each planned field on a message under construction (`assemble`).
- `src/policy/` — the mapping of a schema to predicates, as the comparison reads it.
- `src/diff/` — the comparison of two mappings and its changeset, including its JSON rendering
  through serde_json.
- `app/` — the crate's edges in ordinary Rust: protox compilation of `.proto` sources,
  prost-types and prost-reflect decoding of a descriptor set and the one-for-one copy of its
  descriptors into the library's plain reading (the outline the door screens, and the pool the
  library ingests), and the containment of a dependency's panic.
- `tests/` — scenario tests of the library.

The rest of the payload codec is not part of this crate: the walks' drivers over the
descriptor engine's decoded messages and over the discovered occupants, the engine's encoding of
a built message, the float lowerings and raisings (a float's treatment reads its bits, which the
library does not hold), and the solver and rendering calls of the ASP term crate, which is not
available to this build.
