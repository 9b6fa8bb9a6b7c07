//! The schema model: keryx's de-sugared, engine-independent view of a descriptor set. Every proto
//! sugar is normalized away (maps, proto3-optional, groups), presence is resolved, and identity is
//! the fully-qualified proto path plus field number. A `Schema`'s element lists are crate-private,
//! so the model is built only at the ingest door; it is deterministically ordered (messages by
//! path, fields by number, enums by path, values by number).
use vstd::prelude::*;

use crate::descriptor::order::Ordered;
use crate::text::{
    debug_quoted, quoted,
    chars_of, decimal, lemma_seq_lt_irreflexive, lemma_seq_lt_total, lemma_seq_lt_transitive, owned, push_decimal, seq_lt,
    str_lt, string_of,
};

verus! {

broadcast use vstd::string::group_string_axioms;

/// A fully-qualified proto name — a dotted path (`dispatch.v1.Shipment.tags`), the identity of a
/// vocabulary element.
#[derive(Clone, Debug, PartialEq, Eq, PartialOrd, Ord, Hash)]
pub struct FqName(String);

impl View for FqName {
    type V = Seq<char>;

    closed spec fn view(&self) -> Seq<char> {
        self.0@
    }
}

impl FqName {
    /// The name with the given dotted path.
    pub fn new(path: &str) -> (r: FqName)
        ensures
            r@ == path@,
    {
        FqName(owned(path))
    }

    /// A copy of the name.
    pub fn duplicate(&self) -> (r: FqName)
        ensures
            r@ == self@,
    {
        FqName(owned(self.0.as_str()))
    }

    /// The dotted path text.
    pub fn as_str(&self) -> (r: &str)
        ensures
            r@ == self@,
    {
        self.0.as_str()
    }
}

/// keryx's bound on a package's dot-separated segment count.
pub const MAX_PACKAGE_SEGMENTS: usize = 64;

/// A validated protobuf package — empty, or a dot-separated sequence of proto identifiers
/// (`[A-Za-z_][A-Za-z0-9_]*`), within [`MAX_PACKAGE_SEGMENTS`]. Constructed only by
/// [`Package::parse`], so the type is a proof of shape.
#[derive(Clone, Debug, PartialEq, Eq, PartialOrd, Ord, Hash)]
pub struct Package(String);

/// Whether a character may open a proto identifier: `_` or an ASCII letter.
pub open spec fn ident_start(c: char) -> bool {
    c == '_' || ('A' <= c && c <= 'Z') || ('a' <= c && c <= 'z')
}

/// Whether a character may continue a proto identifier: `_`, an ASCII letter, or a digit.
pub open spec fn ident_continue(c: char) -> bool {
    ident_start(c) || ('0' <= c && c <= '9')
}

/// Whether a text is a proto identifier `[A-Za-z_][A-Za-z0-9_]*`.
pub open spec fn is_ident(s: Seq<char>) -> bool {
    &&& s.len() > 0
    &&& ident_start(s[0])
    &&& forall|i: int| 1 <= i < s.len() ==> ident_continue(#[trigger] s[i])
}

/// The dot-separated segments of a text, read left to right: an empty text is one empty
/// segment, and every `.` opens a fresh one.
pub open spec fn dot_segments(s: Seq<char>) -> Seq<Seq<char>>
    decreases s.len(),
{
    if s.len() == 0 {
        seq![Seq::empty()]
    } else {
        let before = dot_segments(s.drop_last());
        if s.last() == '.' {
            before.push(Seq::empty())
        } else {
            before.update(before.len() - 1, before.last().push(s.last()))
        }
    }
}

/// The segment list is never empty.
pub proof fn lemma_dot_segments_non_empty(s: Seq<char>)
    ensures
        dot_segments(s).len() >= 1,
    decreases s.len(),
{
    if s.len() > 0 {
        lemma_dot_segments_non_empty(s.drop_last());
    }
}

/// The first segment that is not a proto identifier, if any.
pub open spec fn first_bad_segment(segments: Seq<Seq<char>>) -> Option<Seq<char>>
    decreases segments.len(),
{
    if segments.len() == 0 {
        None
    } else {
        match first_bad_segment(segments.drop_last()) {
            Some(bad) => Some(bad),
            None => if is_ident(segments.last()) {
                None
            } else {
                Some(segments.last())
            },
        }
    }
}

/// Why a package text is not a valid [`Package`], as a mathematical value.
pub enum ProblemView {
    /// The segment that is not a proto identifier.
    Segment(Seq<char>),
    /// The number of segments, beyond the bound.
    TooDeep(nat),
}

/// What [`Package::parse`] gives a text: the package, or the reason it is not one.
pub open spec fn parse_package(s: Seq<char>) -> Result<Seq<char>, ProblemView> {
    if s.len() == 0 {
        Ok(s)
    } else {
        let segments = dot_segments(s);
        if segments.len() > MAX_PACKAGE_SEGMENTS {
            Err(ProblemView::TooDeep(segments.len()))
        } else {
            match first_bad_segment(segments) {
                Some(bad) => Err(ProblemView::Segment(bad)),
                None => Ok(s),
            }
        }
    }
}

/// Why a package string is not a valid [`Package`].
#[derive(Debug)]
pub enum PackageProblem {
    /// A dot-separated segment is not a proto identifier.
    Segment(String),
    /// More dot-separated segments than [`MAX_PACKAGE_SEGMENTS`].
    TooDeep(usize),
}

impl PackageProblem {
    /// The problem as a mathematical value.
    pub open spec fn view_problem(&self) -> ProblemView {
        match self {
            PackageProblem::Segment(s) => ProblemView::Segment(s@),
            PackageProblem::TooDeep(n) => ProblemView::TooDeep(*n as nat),
        }
    }

    /// The diagnostic detail naming the refusal.
    pub fn detail(&self) -> (r: String)
        ensures
            r@ == problem_detail(self.view_problem()),
    {
        match self {
            PackageProblem::Segment(segment) => {
                let mut out = owned("package name segment ");
                let shown = quoted(segment.as_str());
                out.append(shown.as_str());
                out.append(" is not a proto identifier");
                out
            },
            PackageProblem::TooDeep(count) => {
                let mut out = owned("package has ");
                push_decimal(&mut out, *count as u64);
                out.append(" dot-separated segments, beyond keryx's limit of 64");
                out
            },
        }
    }
}

/// The detail text of a package problem.
pub open spec fn problem_detail(p: ProblemView) -> Seq<char> {
    match p {
        ProblemView::Segment(s) => "package name segment "@ + debug_quoted(s) + " is not a proto identifier"@,
        ProblemView::TooDeep(n) => "package has "@ + decimal(n)
            + " dot-separated segments, beyond keryx's limit of 64"@,
    }
}

/// Whether `c` may open a proto identifier.
fn is_ident_start(c: char) -> (r: bool)
    ensures
        r == ident_start(c),
{
    c == '_' || ('A' <= c && c <= 'Z') || ('a' <= c && c <= 'z')
}

/// Whether `c` may continue a proto identifier.
fn is_ident_continue(c: char) -> (r: bool)
    ensures
        r == ident_continue(c),
{
    is_ident_start(c) || ('0' <= c && c <= '9')
}

/// Whether `v[from..to]` is a proto identifier.
fn chars_are_ident(v: &[char], from: usize, to: usize) -> (r: bool)
    requires
        from <= to <= v@.len(),
    ensures
        r == is_ident(v@.subrange(from as int, to as int)),
{
    if from == to {
        return false;
    }
    if !is_ident_start(v[from]) {
        return false;
    }
    let mut i = from + 1;
    while i < to
        invariant
            from < i <= to <= v@.len(),
            forall|j: int| from + 1 <= j < i ==> ident_continue(#[trigger] v@[j]),
        decreases to - i,
    {
        if !is_ident_continue(v[i]) {
            assert(v@.subrange(from as int, to as int)[i - from] == v@[i as int]);
            return false;
        }
        i = i + 1;
    }
    let ghost sub = v@.subrange(from as int, to as int);
    assert forall|k: int| 1 <= k < sub.len() implies ident_continue(#[trigger] sub[k]) by {
        assert(sub[k] == v@[from + k]);
    }
    true
}

/// Whether `s` is a proto identifier `[A-Za-z_][A-Za-z0-9_]*`.
pub fn is_proto_ident(s: &str) -> (r: bool)
    ensures
        r == is_ident(s@),
{
    let v = chars_of(s);
    proof {
        assert(v@.subrange(0, v@.len() as int) =~= v@);
    }
    chars_are_ident(v.as_slice(), 0, v.len())
}

impl Package {
    /// The package's dotted text, as a character sequence.
    pub closed spec fn spec_text(&self) -> Seq<char> {
        self.0@
    }

    /// Parse a package string into a `Package`, or the reason it is not one: empty is a
    /// package-less file (valid here), otherwise the segment count must be within
    /// [`MAX_PACKAGE_SEGMENTS`] and every segment a proto identifier.
    pub fn parse(text: &str) -> (r: Result<Package, PackageProblem>)
        requires
            text@.len() < usize::MAX,
        ensures
            match (r, parse_package(text@)) {
                (Ok(p), Ok(q)) => p.spec_text() == q,
                (Err(e), Err(f)) => e.view_problem() == f,
                _ => false,
            },
    {
        let v = chars_of(text);
        if v.len() == 0 {
            return Ok(Package(owned(text)));
        }
        // One pass: count the segments, and find the first that is not an identifier.
        let mut count: usize = 1;
        let mut start: usize = 0;
        let mut bad: Option<(usize, usize)> = None;
        let mut i: usize = 0;
        proof {
            assert(v@.take(0) =~= Seq::<char>::empty());
            assert(v@.subrange(0, 0) =~= Seq::<char>::empty());
        }
        while i < v.len()
            invariant
                v@ == text@,
                v@.len() < usize::MAX,
                i <= v@.len(),
                start <= i,
                count as int == dot_segments(v@.take(i as int)).len(),
                count <= i + 1,
                dot_segments(v@.take(i as int)).last() == v@.subrange(start as int, i as int),
                match bad {
                    Some((a, b)) => a <= b <= v@.len() && first_bad_segment(
                        dot_segments(v@.take(i as int)).drop_last(),
                    ) == Some(v@.subrange(a as int, b as int)),
                    None => first_bad_segment(dot_segments(v@.take(i as int)).drop_last())
                        is None,
                },
            decreases v@.len() - i,
        {
            let ghost before = dot_segments(v@.take(i as int));
            proof {
                lemma_dot_segments_non_empty(v@.take(i as int));
                assert(v@.take(i + 1).drop_last() =~= v@.take(i as int));
                assert(v@.take(i + 1).last() == v@[i as int]);
            }
            if v[i] == '.' {
                if bad.is_none() && !chars_are_ident(v.as_slice(), start, i) {
                    bad = Some((start, i));
                }
                proof {
                    let after = dot_segments(v@.take(i + 1));
                    assert(after == before.push(Seq::empty()));
                    assert(after.drop_last() =~= before);
                    assert(before =~= before.drop_last().push(before.last()));
                    assert(v@.subrange((i + 1) as int, (i + 1) as int) =~= Seq::<char>::empty());
                }
                count = count + 1;
                start = i + 1;
            } else {
                proof {
                    let after = dot_segments(v@.take(i + 1));
                    assert(after.drop_last() =~= before.drop_last());
                    assert(v@.subrange(start as int, i + 1) =~= v@.subrange(
                        start as int,
                        i as int,
                    ).push(v@[i as int]));
                }
            }
            i = i + 1;
        }
        proof {
            assert(v@.take(v@.len() as int) =~= v@);
            lemma_dot_segments_non_empty(v@);
        }
        if count > MAX_PACKAGE_SEGMENTS {
            return Err(PackageProblem::TooDeep(count));
        }
        let ghost segments = dot_segments(v@);
        proof {
            assert(segments =~= segments.drop_last().push(segments.last()));
            assert(segments.drop_last() == segments.take(segments.len() - 1));
        }
        match bad {
            Some((a, b)) => Err(PackageProblem::Segment(string_of(v.as_slice(), a, b))),
            None => {
                if !chars_are_ident(v.as_slice(), start, v.len()) {
                    Err(PackageProblem::Segment(string_of(v.as_slice(), start, v.len())))
                } else {
                    Ok(Package(owned(text)))
                }
            },
        }
    }

    /// The package's dotted text — empty when the file declares none.
    pub fn as_str(&self) -> (r: &str)
        ensures
            r@ == self.spec_text(),
    {
        self.0.as_str()
    }

    /// Whether the file declares no package.
    pub fn is_empty(&self) -> (r: bool)
        ensures
            r == (self.spec_text().len() == 0),
    {
        self.0.as_str().is_empty()
    }
}

/// The syntax era a file declares.
#[derive(Clone, Copy, Debug, PartialEq, Eq, Structural)]
pub enum SchemaVersion {
    /// `syntax = "proto2"`.
    Proto2,
    /// `syntax = "proto3"`.
    Proto3,
}

/// A field's shape: the proto-structural form and, for a singular field, its resolved presence.
#[derive(Clone, Debug, PartialEq, Eq)]
pub enum FieldShape {
    /// A singular field — a (total or partial) function on its parent sort.
    Singular {
        /// The value type.
        value: ValueType,
        /// The resolved presence.
        presence: Presence,
    },
    /// A repeated field — an index-keyed family.
    Repeated {
        /// The element value type.
        value: ValueType,
    },
    /// A map field — a key-keyed family, de-sugared from the synthetic `*Entry` message.
    Mapped {
        /// The key kind.
        key: MapKey,
        /// The value type.
        value: ValueType,
    },
}

/// The type of a field's value: a scalar, a message occupant, or an enum; references carry the
/// referent's fully-qualified name.
#[derive(Clone, Debug, PartialEq, Eq)]
pub enum ValueType {
    /// A scalar value.
    Scalar(Scalar),
    /// A message-typed occupant.
    Message(FqName),
    /// An enum value.
    Enum(FqName),
}

/// A protobuf scalar kind.
#[derive(Clone, Copy, Debug, PartialEq, Eq, Structural)]
pub enum Scalar {
    /// `int32`.
    Int32,
    /// `int64`.
    Int64,
    /// `uint32`.
    Uint32,
    /// `uint64`.
    Uint64,
    /// `sint32`.
    Sint32,
    /// `sint64`.
    Sint64,
    /// `fixed32`.
    Fixed32,
    /// `fixed64`.
    Fixed64,
    /// `sfixed32`.
    Sfixed32,
    /// `sfixed64`.
    Sfixed64,
    /// `bool`.
    Bool,
    /// `float`.
    Float,
    /// `double`.
    Double,
    /// `string`.
    String,
    /// `bytes`.
    Bytes,
}

/// The proto type name of a scalar kind.
pub open spec fn scalar_name(s: Scalar) -> Seq<char> {
    match s {
        Scalar::Int32 => "int32"@,
        Scalar::Int64 => "int64"@,
        Scalar::Uint32 => "uint32"@,
        Scalar::Uint64 => "uint64"@,
        Scalar::Sint32 => "sint32"@,
        Scalar::Sint64 => "sint64"@,
        Scalar::Fixed32 => "fixed32"@,
        Scalar::Fixed64 => "fixed64"@,
        Scalar::Sfixed32 => "sfixed32"@,
        Scalar::Sfixed64 => "sfixed64"@,
        Scalar::Bool => "bool"@,
        Scalar::Float => "float"@,
        Scalar::Double => "double"@,
        Scalar::String => "string"@,
        Scalar::Bytes => "bytes"@,
    }
}

impl Scalar {
    /// The proto type name (`int32`, `sfixed64`, …).
    pub fn as_str(self) -> (r: &'static str)
        ensures
            r@ == scalar_name(self),
    {
        match self {
            Scalar::Int32 => "int32",
            Scalar::Int64 => "int64",
            Scalar::Uint32 => "uint32",
            Scalar::Uint64 => "uint64",
            Scalar::Sint32 => "sint32",
            Scalar::Sint64 => "sint64",
            Scalar::Fixed32 => "fixed32",
            Scalar::Fixed64 => "fixed64",
            Scalar::Sfixed32 => "sfixed32",
            Scalar::Sfixed64 => "sfixed64",
            Scalar::Bool => "bool",
            Scalar::Float => "float",
            Scalar::Double => "double",
            Scalar::String => "string",
            Scalar::Bytes => "bytes",
        }
    }
}

/// A map key kind: the proto-restricted subset — integral, bool, or string.
#[derive(Clone, Copy, Debug, PartialEq, Eq, Structural)]
pub enum MapKey {
    /// `int32`.
    Int32,
    /// `int64`.
    Int64,
    /// `uint32`.
    Uint32,
    /// `uint64`.
    Uint64,
    /// `sint32`.
    Sint32,
    /// `sint64`.
    Sint64,
    /// `fixed32`.
    Fixed32,
    /// `fixed64`.
    Fixed64,
    /// `sfixed32`.
    Sfixed32,
    /// `sfixed64`.
    Sfixed64,
    /// `bool`.
    Bool,
    /// `string`.
    String,
}

/// The scalar a map key kind widens to.
pub open spec fn key_scalar(key: MapKey) -> Scalar {
    match key {
        MapKey::Int32 => Scalar::Int32,
        MapKey::Int64 => Scalar::Int64,
        MapKey::Uint32 => Scalar::Uint32,
        MapKey::Uint64 => Scalar::Uint64,
        MapKey::Sint32 => Scalar::Sint32,
        MapKey::Sint64 => Scalar::Sint64,
        MapKey::Fixed32 => Scalar::Fixed32,
        MapKey::Fixed64 => Scalar::Fixed64,
        MapKey::Sfixed32 => Scalar::Sfixed32,
        MapKey::Sfixed64 => Scalar::Sfixed64,
        MapKey::Bool => Scalar::Bool,
        MapKey::String => Scalar::String,
    }
}

impl Scalar {
    /// A map key is a [`Scalar`] restricted to the legal key subset.
    pub fn from_key(key: MapKey) -> (r: Scalar)
        ensures
            r == key_scalar(key),
    {
        match key {
            MapKey::Int32 => Scalar::Int32,
            MapKey::Int64 => Scalar::Int64,
            MapKey::Uint32 => Scalar::Uint32,
            MapKey::Uint64 => Scalar::Uint64,
            MapKey::Sint32 => Scalar::Sint32,
            MapKey::Sint64 => Scalar::Sint64,
            MapKey::Fixed32 => Scalar::Fixed32,
            MapKey::Fixed64 => Scalar::Fixed64,
            MapKey::Sfixed32 => Scalar::Sfixed32,
            MapKey::Sfixed64 => Scalar::Sfixed64,
            MapKey::Bool => Scalar::Bool,
            MapKey::String => Scalar::String,
        }
    }
}

/// Resolved field presence.
#[derive(Clone, Copy, Debug, PartialEq, Eq, Structural)]
pub enum Presence {
    /// The field always has a value.
    Implicit,
    /// The field has a value only when set.
    Explicit,
    /// `LEGACY_REQUIRED`: explicit, with an outbound totality obligation.
    LegacyRequired,
}

/// Whether unknown numeric values are legal on the wire for an enum.
#[derive(Clone, Copy, Debug, PartialEq, Eq, Structural)]
pub enum Openness {
    /// Unknown integers are legal on the wire (proto3).
    Open,
    /// Only declared values are legal (proto2).
    Closed,
}

/// An annotation's value, lowered from the applied option's protobuf value.
#[derive(Clone, Debug, PartialEq, Eq)]
pub enum AnnotationValue {
    /// A `bool` option.
    Bool(bool),
    /// An integral option, widened to `i64`.
    Int(i64),
    /// A `string` option.
    Text(String),
    /// An enum option, carrying the value's name.
    Enum(String),
}

/// A source file: its name and package.
#[derive(Clone, Debug, PartialEq, Eq)]
pub struct File {
    /// The file's name.
    pub name: String,
    /// The file's package — validated at the door; empty when the file declares none.
    pub package: Package,
}

/// A keryx annotation — one applied custom option, keyed by its option name with `keryx.`
/// stripped.
#[derive(Clone, Debug, PartialEq, Eq)]
pub struct Annotation {
    /// The option name with `keryx.` stripped (e.g. `set`, `numeric`).
    pub key: String,
    /// The applied value.
    pub value: AnnotationValue,
}

/// A message type — a sort. Identity is `path`; `outer` is its lexical nesting parent;
/// `recursive` marks participation in a containment cycle.
#[derive(Clone, Debug, PartialEq, Eq)]
pub struct Message {
    pub(crate) path: FqName,
    pub(crate) file: String,
    pub(crate) outer: Option<FqName>,
    pub(crate) fields: Vec<Field>,
    pub(crate) oneofs: Vec<Oneof>,
    pub(crate) options: Vec<Annotation>,
    pub(crate) doc: Option<String>,
    pub(crate) recursive: bool,
}

impl Message {
    /// The message's path, as a character sequence.
    pub closed spec fn spec_path(&self) -> Seq<char> {
        self.path@
    }

    /// The message's fields, as a sequence.
    pub closed spec fn spec_fields(&self) -> Seq<Field> {
        self.fields@
    }

    /// Whether the message is marked recursive.
    pub closed spec fn spec_recursive(&self) -> bool {
        self.recursive
    }

    /// The declaring file's name.
    pub closed spec fn spec_file(&self) -> Seq<char> {
        self.file@
    }

    /// The lexical nesting parent.
    pub closed spec fn spec_outer(&self) -> Option<FqName> {
        self.outer
    }

    /// The oneofs.
    pub closed spec fn spec_oneofs(&self) -> Seq<Oneof> {
        self.oneofs@
    }

    /// The applied annotations.
    pub closed spec fn spec_options(&self) -> Seq<Annotation> {
        self.options@
    }

    /// The doc comment.
    pub closed spec fn spec_doc(&self) -> Option<String> {
        self.doc
    }

    /// The message with its recursion mark set to `recursive`, all else unchanged.
    pub closed spec fn marked(self, recursive: bool) -> Message {
        Message { recursive, ..self }
    }

    /// A message of the given parts, not yet marked recursive.
    pub(crate) fn assemble(
        path: FqName,
        file: String,
        outer: Option<FqName>,
        fields: Vec<Field>,
        oneofs: Vec<Oneof>,
        options: Vec<Annotation>,
        doc: Option<String>,
    ) -> (r: Message)
        ensures
            r.spec_path() == path@,
            r.spec_file() == file@,
            r.spec_outer() == outer,
            r.spec_fields() == fields@,
            r.spec_oneofs() == oneofs@,
            r.spec_options() == options@,
            r.spec_doc() == doc,
            !r.spec_recursive(),
    {
        Message { path, file, outer, fields, oneofs, options, doc, recursive: false }
    }

    /// Set the message's recursion mark.
    pub(crate) fn set_recursive(&mut self, recursive: bool)
        ensures
            *final(self) == old(self).marked(recursive),
    {
        self.recursive = recursive;
    }

    /// Marking keeps the path, the fields, the parent, and the file, and sets the mark.
    pub proof fn lemma_marked(self, recursive: bool)
        ensures
            self.marked(recursive).spec_path() == self.spec_path(),
            self.marked(recursive).spec_fields() == self.spec_fields(),
            self.marked(recursive).spec_outer() == self.spec_outer(),
            self.marked(recursive).spec_file() == self.spec_file(),
            self.marked(recursive).spec_recursive() == recursive,
    {
    }

    /// The message's fully-qualified name — its identity.
    pub fn path(&self) -> (r: &FqName)
        ensures
            r@ == self.spec_path(),
    {
        &self.path
    }

    /// The name of the file that declares this message.
    pub fn file(&self) -> (r: &str)
        ensures
            r@ == self.spec_file(),
    {
        self.file.as_str()
    }

    /// Its lexical nesting parent; `None` at file top level.
    pub fn outer(&self) -> (r: Option<&FqName>)
        ensures
            name_view(r) == owned_name_view(self.spec_outer()),
    {
        self.outer.as_ref()
    }

    /// The message's fields, ordered by number.
    pub fn fields(&self) -> (r: &[Field])
        ensures
            r@ == self.spec_fields(),
    {
        self.fields.as_slice()
    }

    /// The message's real (non-synthetic) oneofs, in declaration order.
    pub fn oneofs(&self) -> (r: &[Oneof])
        ensures
            r@ == self.spec_oneofs(),
    {
        self.oneofs.as_slice()
    }

    /// The applied keryx annotations.
    pub fn options(&self) -> (r: &[Annotation])
        ensures
            r@ == self.spec_options(),
    {
        self.options.as_slice()
    }

    /// The doc comment, if the descriptor carried source info for it.
    pub fn doc(&self) -> (r: Option<&str>)
        ensures
            doc_view(r) == opt_text(self.spec_doc()),
    {
        match &self.doc {
            Some(doc) => Some(doc.as_str()),
            None => None,
        }
    }

    /// Whether this message participates in a containment cycle.
    pub fn is_recursive(&self) -> (r: bool)
        ensures
            r == self.spec_recursive(),
    {
        self.recursive
    }
}

/// A field — a function on its parent sort. Identity is `number` within the parent.
#[derive(Clone, Debug, PartialEq, Eq)]
pub struct Field {
    pub(crate) number: i32,
    pub(crate) name: String,
    pub(crate) path: FqName,
    pub(crate) shape: FieldShape,
    pub(crate) options: Vec<Annotation>,
    pub(crate) doc: Option<String>,
}

impl Field {
    /// The field's shape, as a value.
    pub closed spec fn spec_shape(&self) -> FieldShape {
        self.shape
    }

    /// The field's number.
    pub closed spec fn spec_number(&self) -> i32 {
        self.number
    }

    /// The short field name.
    pub closed spec fn spec_name(&self) -> Seq<char> {
        self.name@
    }

    /// The fully-qualified name.
    pub closed spec fn spec_path(&self) -> Seq<char> {
        self.path@
    }

    /// The applied annotations.
    pub closed spec fn spec_options(&self) -> Seq<Annotation> {
        self.options@
    }

    /// The doc comment.
    pub closed spec fn spec_doc(&self) -> Option<String> {
        self.doc
    }

    /// A field of the given parts.
    pub(crate) fn assemble(
        number: i32,
        name: String,
        path: FqName,
        shape: FieldShape,
        options: Vec<Annotation>,
        doc: Option<String>,
    ) -> (r: Field)
        ensures
            r.spec_number() == number,
            r.spec_name() == name@,
            r.spec_path() == path@,
            r.spec_shape() == shape,
            r.spec_options() == options@,
            r.spec_doc() == doc,
    {
        Field { number, name, path, shape, options, doc }
    }

    /// The field number — the field's identity within its parent.
    pub fn number(&self) -> (r: i32)
        ensures
            r == self.spec_number(),
    {
        self.number
    }

    /// The short field name.
    pub fn name(&self) -> (r: &str)
        ensures
            r@ == self.spec_name(),
    {
        self.name.as_str()
    }

    /// The field's fully-qualified name.
    pub fn path(&self) -> (r: &FqName)
        ensures
            r@ == self.spec_path(),
    {
        &self.path
    }

    /// The resolved shape and presence.
    pub fn shape(&self) -> (r: &FieldShape)
        ensures
            *r == self.spec_shape(),
    {
        &self.shape
    }

    /// The applied keryx annotations.
    pub fn options(&self) -> (r: &[Annotation])
        ensures
            r@ == self.spec_options(),
    {
        self.options.as_slice()
    }

    /// The doc comment, if the descriptor carried source info for it.
    pub fn doc(&self) -> (r: Option<&str>)
        ensures
            doc_view(r) == opt_text(self.spec_doc()),
    {
        match &self.doc {
            Some(doc) => Some(doc.as_str()),
            None => None,
        }
    }
}

/// A (real) oneof: which arm field numbers belong to it.
#[derive(Clone, Debug, PartialEq, Eq)]
pub struct Oneof {
    /// The oneof's short name.
    pub name: String,
    /// The oneof's fully-qualified name.
    pub path: FqName,
    /// The field numbers of the oneof's arms.
    pub arms: Vec<i32>,
    /// The doc comment, if the descriptor carried source info for it.
    pub doc: Option<String>,
}

/// An enum type — a closed sort of symbolic constants.
#[derive(Clone, Debug, PartialEq, Eq)]
pub struct Enum {
    pub(crate) path: FqName,
    pub(crate) file: String,
    pub(crate) outer: Option<FqName>,
    pub(crate) openness: Openness,
    pub(crate) values: Vec<EnumValue>,
    pub(crate) options: Vec<Annotation>,
    pub(crate) doc: Option<String>,
}

impl Enum {
    /// The enum's resolved openness, as a value.
    pub closed spec fn spec_openness(&self) -> Openness {
        self.openness
    }

    /// The enum's path.
    pub closed spec fn spec_path(&self) -> Seq<char> {
        self.path@
    }

    /// The declaring file's name.
    pub closed spec fn spec_file(&self) -> Seq<char> {
        self.file@
    }

    /// The lexical nesting parent.
    pub closed spec fn spec_outer(&self) -> Option<FqName> {
        self.outer
    }

    /// The values.
    pub closed spec fn spec_values(&self) -> Seq<EnumValue> {
        self.values@
    }

    /// The applied annotations.
    pub closed spec fn spec_options(&self) -> Seq<Annotation> {
        self.options@
    }

    /// The doc comment.
    pub closed spec fn spec_doc(&self) -> Option<String> {
        self.doc
    }

    /// An enum of the given parts.
    pub(crate) fn assemble(
        path: FqName,
        file: String,
        outer: Option<FqName>,
        openness: Openness,
        values: Vec<EnumValue>,
        options: Vec<Annotation>,
        doc: Option<String>,
    ) -> (r: Enum)
        ensures
            r.spec_path() == path@,
            r.spec_file() == file@,
            r.spec_outer() == outer,
            r.spec_openness() == openness,
            r.spec_values() == values@,
            r.spec_options() == options@,
            r.spec_doc() == doc,
    {
        Enum { path, file, outer, openness, values, options, doc }
    }

    /// The enum's fully-qualified name — its identity.
    pub fn path(&self) -> (r: &FqName)
        ensures
            r@ == self.spec_path(),
    {
        &self.path
    }

    /// The name of the file that declares this enum.
    pub fn file(&self) -> (r: &str)
        ensures
            r@ == self.spec_file(),
    {
        self.file.as_str()
    }

    /// Its lexical nesting parent; `None` at file top level.
    pub fn outer(&self) -> (r: Option<&FqName>)
        ensures
            name_view(r) == owned_name_view(self.spec_outer()),
    {
        self.outer.as_ref()
    }

    /// The resolved `enum_type` feature.
    pub fn openness(&self) -> (r: Openness)
        ensures
            r == self.spec_openness(),
    {
        self.openness
    }

    /// The enum's values, ordered by number.
    pub fn values(&self) -> (r: &[EnumValue])
        ensures
            r@ == self.spec_values(),
    {
        self.values.as_slice()
    }

    /// The applied keryx annotations.
    pub fn options(&self) -> (r: &[Annotation])
        ensures
            r@ == self.spec_options(),
    {
        self.options.as_slice()
    }

    /// The doc comment, if the descriptor carried source info for it.
    pub fn doc(&self) -> (r: Option<&str>)
        ensures
            doc_view(r) == opt_text(self.spec_doc()),
    {
        match &self.doc {
            Some(doc) => Some(doc.as_str()),
            None => None,
        }
    }
}

/// An enum value: its name and number; `path` keys its `opt`/`doc` facts.
#[derive(Clone, Debug, PartialEq, Eq)]
pub struct EnumValue {
    /// The value's short name.
    pub name: String,
    /// The value's number.
    pub number: i32,
    /// The value's fully-qualified name.
    pub path: FqName,
    /// The applied keryx annotations.
    pub options: Vec<Annotation>,
    /// The doc comment, if the descriptor carried source info for it.
    pub doc: Option<String>,
}

/// The schema model root: the de-sugared files, messages, and enums of one descriptor set —
/// files by name, messages and enums by fully-qualified path.
#[derive(Clone, Debug, PartialEq, Eq)]
pub struct Schema {
    pub(crate) files: Vec<File>,
    pub(crate) messages: Vec<Message>,
    pub(crate) enums: Vec<Enum>,
}

impl Schema {
    /// The schema's messages, as a sequence.
    pub closed spec fn spec_messages(&self) -> Seq<Message> {
        self.messages@
    }

    /// The schema's files, as a sequence.
    pub closed spec fn spec_files(&self) -> Seq<File> {
        self.files@
    }

    /// The schema's enums, as a sequence.
    pub closed spec fn spec_enums(&self) -> Seq<Enum> {
        self.enums@
    }

    /// A schema of the given parts.
    pub(crate) fn assemble(files: Vec<File>, messages: Vec<Message>, enums: Vec<Enum>) -> (r: Schema)
        ensures
            r.spec_files() == files@,
            r.spec_messages() == messages@,
            r.spec_enums() == enums@,
    {
        Schema { files, messages, enums }
    }

    /// The files of the descriptor set, ordered by name.
    pub fn files(&self) -> (r: &[File])
        ensures
            r@ == self.spec_files(),
    {
        self.files.as_slice()
    }

    /// The messages of the descriptor set, ordered by fully-qualified path.
    pub fn messages(&self) -> (r: &[Message])
        ensures
            r@ == self.spec_messages(),
    {
        self.messages.as_slice()
    }

    /// The enums of the descriptor set, ordered by fully-qualified path.
    pub fn enums(&self) -> (r: &[Enum])
        ensures
            r@ == self.spec_enums(),
    {
        self.enums.as_slice()
    }
}

/// A borrowed name, as a character sequence.
pub open spec fn name_view(n: Option<&FqName>) -> Option<Seq<char>> {
    match n {
        Some(x) => Some(x@),
        None => None,
    }
}

/// An owned name, as a character sequence.
pub open spec fn owned_name_view(n: Option<FqName>) -> Option<Seq<char>> {
    match n {
        Some(x) => Some(x@),
        None => None,
    }
}

/// A borrowed text, as a character sequence.
pub open spec fn doc_view(d: Option<&str>) -> Option<Seq<char>> {
    match d {
        Some(t) => Some(t@),
        None => None,
    }
}

/// An owned text, as a character sequence.
pub open spec fn opt_text(d: Option<String>) -> Option<Seq<char>> {
    match d {
        Some(t) => Some(t@),
        None => None,
    }
}

// ---------------------------------------------------------------------------------------------
// The model's deterministic order.
// ---------------------------------------------------------------------------------------------

impl Ordered for Field {
    open spec fn key_before(a: Field, b: Field) -> bool {
        a.spec_number() < b.spec_number()
    }

    fn before(&self, other: &Field) -> (r: bool) {
        self.number < other.number
    }

    proof fn lemma_key_asymmetric(a: Field, b: Field) {
    }

    proof fn lemma_key_at_or_after(a: Field, b: Field, c: Field) {
    }
}

impl Ordered for EnumValue {
    open spec fn key_before(a: EnumValue, b: EnumValue) -> bool {
        a.number < b.number
    }

    fn before(&self, other: &EnumValue) -> (r: bool) {
        self.number < other.number
    }

    proof fn lemma_key_asymmetric(a: EnumValue, b: EnumValue) {
    }

    proof fn lemma_key_at_or_after(a: EnumValue, b: EnumValue, c: EnumValue) {
    }
}

impl Ordered for File {
    open spec fn key_before(a: File, b: File) -> bool {
        seq_lt(a.name@, b.name@)
    }

    fn before(&self, other: &File) -> (r: bool) {
        str_lt(self.name.as_str(), other.name.as_str())
    }

    proof fn lemma_key_asymmetric(a: File, b: File) {
        lemma_seq_lt_total(a.name@, b.name@);
    }

    proof fn lemma_key_at_or_after(a: File, b: File, c: File) {
        lemma_seq_lt_total(a.name@, b.name@);
        lemma_seq_lt_total(b.name@, c.name@);
        lemma_seq_lt_total(a.name@, c.name@);
        if seq_lt(a.name@, c.name@) {
            lemma_seq_lt_irreflexive(a.name@);
            if seq_lt(b.name@, a.name@) {
                lemma_seq_lt_transitive(b.name@, a.name@, c.name@);
            }
            if seq_lt(c.name@, b.name@) {
                lemma_seq_lt_transitive(a.name@, c.name@, b.name@);
            }
        }
    }
}

impl Ordered for Message {
    open spec fn key_before(a: Message, b: Message) -> bool {
        seq_lt(a.spec_path(), b.spec_path())
    }

    fn before(&self, other: &Message) -> (r: bool) {
        str_lt(self.path.as_str(), other.path.as_str())
    }

    proof fn lemma_key_asymmetric(a: Message, b: Message) {
        lemma_seq_lt_total(a.spec_path(), b.spec_path());
    }

    proof fn lemma_key_at_or_after(a: Message, b: Message, c: Message) {
        lemma_seq_lt_total(a.spec_path(), b.spec_path());
        lemma_seq_lt_total(b.spec_path(), c.spec_path());
        lemma_seq_lt_total(a.spec_path(), c.spec_path());
        if seq_lt(a.spec_path(), c.spec_path()) {
            lemma_seq_lt_irreflexive(a.spec_path());
            if seq_lt(b.spec_path(), a.spec_path()) {
                lemma_seq_lt_transitive(b.spec_path(), a.spec_path(), c.spec_path());
            }
            if seq_lt(c.spec_path(), b.spec_path()) {
                lemma_seq_lt_transitive(a.spec_path(), c.spec_path(), b.spec_path());
            }
        }
    }
}

impl Ordered for Enum {
    open spec fn key_before(a: Enum, b: Enum) -> bool {
        seq_lt(a.spec_path(), b.spec_path())
    }

    fn before(&self, other: &Enum) -> (r: bool) {
        str_lt(self.path.as_str(), other.path.as_str())
    }

    proof fn lemma_key_asymmetric(a: Enum, b: Enum) {
        lemma_seq_lt_total(a.spec_path(), b.spec_path());
    }

    proof fn lemma_key_at_or_after(a: Enum, b: Enum, c: Enum) {
        lemma_seq_lt_total(a.spec_path(), b.spec_path());
        lemma_seq_lt_total(b.spec_path(), c.spec_path());
        lemma_seq_lt_total(a.spec_path(), c.spec_path());
        if seq_lt(a.spec_path(), c.spec_path()) {
            lemma_seq_lt_irreflexive(a.spec_path());
            if seq_lt(b.spec_path(), a.spec_path()) {
                lemma_seq_lt_transitive(b.spec_path(), a.spec_path(), c.spec_path());
            }
            if seq_lt(c.spec_path(), b.spec_path()) {
                lemma_seq_lt_transitive(a.spec_path(), c.spec_path(), b.spec_path());
            }
        }
    }
}

} // verus!
