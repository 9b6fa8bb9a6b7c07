//! keryx's typed error taxonomy: every foreign input crosses a `Result` boundary returning
//! [`Diagnostic`] values that name the offending locus — a proto path — never a string or a log,
//! and a partial result is never delivered beside them. The wire view ([`Diagnostics::wire`]) is
//! the JSON array a consumer reads; the human view ([`Diagnostics::to_string`]) is one escaped,
//! bounded line per diagnostic.
use vstd::prelude::*;

use crate::text::{chars_of, hex_char, hex_digit, owned, push_char};

verus! {

broadcast use vstd::string::group_string_axioms;

/// The proto locus a [`Diagnostic`] names: a fully-qualified path (a file, message, field, enum,
/// or option, or a file's name), or *whole-input* when a failure has no finer locus. Absence is a
/// variant, not an empty-string sentinel: an empty path is still a located diagnostic.
#[derive(Debug, PartialEq, Eq)]
pub enum Locus {
    /// The whole-input locus — no finer path than the input itself.
    Whole,
    /// A fully-qualified proto path, or a file's name.
    At(String),
}

impl Clone for Locus {
    /// The same locus.
    fn clone(&self) -> (r: Locus)
        ensures
            r.view_path() == self.view_path(),
    {
        match self {
            Locus::Whole => Locus::Whole,
            Locus::At(path) => Locus::At(owned(path.as_str())),
        }
    }
}

impl Locus {
    /// The locus as a mathematical value: `None` for the whole input, else its path.
    pub open spec fn view_path(&self) -> Option<Seq<char>> {
        match self {
            Locus::Whole => None,
            Locus::At(path) => Some(path@),
        }
    }

    /// The whole-input locus.
    pub fn whole() -> (r: Locus)
        ensures
            r.view_path() is None,
    {
        Locus::Whole
    }

    /// The locus at a fully-qualified proto path.
    pub fn at(path: &str) -> (r: Locus)
        ensures
            r.view_path() == Some(path@),
    {
        Locus::At(owned(path))
    }

    /// The path text, or `None` for the whole-input locus.
    pub fn path(&self) -> (r: Option<&str>)
        ensures
            match self.view_path() {
                None => r is None,
                Some(p) => r matches Some(q) && q@ == p,
            },
    {
        match self {
            Locus::Whole => None,
            Locus::At(path) => Some(path.as_str()),
        }
    }

    /// Whether this is the whole-input locus.
    pub fn is_whole(&self) -> (r: bool)
        ensures
            r == (self.view_path() is None),
    {
        match self {
            Locus::Whole => true,
            Locus::At(_) => false,
        }
    }
}

impl Default for Locus {
    /// The whole-input locus is the default.
    fn default() -> (r: Locus)
        ensures
            r.view_path() is None,
    {
        Locus::Whole
    }
}

/// The class of a [`Diagnostic`]; the wire `kind` string is this variant's name in `snake_case`.
#[derive(Clone, Copy, Debug, PartialEq, Eq, Structural)]
pub enum DiagnosticKind {
    /// The descriptor-set bytes did not decode, or an import was unresolved.
    UnreadableDescriptorSet,
    /// A file declares a Protobuf edition the descriptor engine cannot yet read.
    UnsupportedEdition,
    /// A decodable set carried a structurally-malformed element.
    MalformedDescriptor,
    /// A keryx custom option carried a value keryx could not lower.
    MalformedOption,
    /// A custom option's key is not a valid ASP constant.
    UnmappableOptionKey,
    /// A keryx-constructed program could not be rendered to ASP text.
    UnrenderableFacts,
    /// A `.proto` source could not be compiled to a descriptor set.
    UncompilableSource,
    /// A `.proto` schema has no package.
    PackagelessFile,
    /// A schema element's lowered name cannot be a predicate, or two collapse to one.
    UnmappableName,
    /// Two values of one enum lower to the same ASP constant.
    AmbiguousConstant,
    /// A dependency faulted on a foreign-input path and the unwind was contained.
    DependencyFault,
    /// A `.proto` source file nests more deeply than the source-nesting guard admits.
    SourceTooDeep,
    /// A `.proto` `import` resolves outside its include root.
    SourceOutsideRoot,
    /// A `.proto` compile pulls in more files than the source door admits.
    SourceImportGraphTooLarge,
    /// A payload's bytes did not decode as the named root message type.
    UndecodablePayload,
    /// A payload nests message values past the uniform nesting ceiling.
    PayloadTooDeep,
    /// One side of a comparison declares two subject packages that normalize to one.
    AmbiguousVersionPackages,
    /// The two sides of a comparison share no subject package once normalized.
    NoComparableSchemas,
    /// A payload's root type names no message of the mapping, or more than one.
    UnknownRootType,
    /// A payload's integer does not fit the term its field's treatment lowers it to.
    ValueOutOfRange,
    /// A payload's string carries a NUL.
    InteriorNul,
    /// A payload's string carries a control character other than a newline, which no answer-set
    /// string can spell.
    UnrepresentableText,
    /// A payload's enum number matches no declared value of its enum.
    UnknownEnumValue,
    /// An answer set's atoms do not have the shape of a payload.
    ShapeViolation,
    /// An answer set carries a term whose shape does not lower to its field's declared type.
    TermTypeMismatch,
    /// A float field has no default lowering and carries no annotation choosing one.
    UnannotatedFloat,
}

/// The stable wire name of a kind.
pub open spec fn kind_name(kind: DiagnosticKind) -> Seq<char> {
    match kind {
        DiagnosticKind::UnreadableDescriptorSet => "unreadable_descriptor_set"@,
        DiagnosticKind::UnsupportedEdition => "unsupported_edition"@,
        DiagnosticKind::MalformedDescriptor => "malformed_descriptor"@,
        DiagnosticKind::MalformedOption => "malformed_option"@,
        DiagnosticKind::UnmappableOptionKey => "unmappable_option_key"@,
        DiagnosticKind::UnrenderableFacts => "unrenderable_facts"@,
        DiagnosticKind::UncompilableSource => "uncompilable_source"@,
        DiagnosticKind::PackagelessFile => "packageless_file"@,
        DiagnosticKind::UnmappableName => "unmappable_name"@,
        DiagnosticKind::AmbiguousConstant => "ambiguous_constant"@,
        DiagnosticKind::DependencyFault => "dependency_fault"@,
        DiagnosticKind::SourceTooDeep => "source_too_deep"@,
        DiagnosticKind::SourceOutsideRoot => "source_outside_root"@,
        DiagnosticKind::SourceImportGraphTooLarge => "source_import_graph_too_large"@,
        DiagnosticKind::UndecodablePayload => "undecodable_payload"@,
        DiagnosticKind::PayloadTooDeep => "payload_too_deep"@,
        DiagnosticKind::AmbiguousVersionPackages => "ambiguous_version_packages"@,
        DiagnosticKind::NoComparableSchemas => "no_comparable_schemas"@,
        DiagnosticKind::UnknownRootType => "unknown_root_type"@,
        DiagnosticKind::ValueOutOfRange => "value_out_of_range"@,
        DiagnosticKind::InteriorNul => "interior_nul"@,
        DiagnosticKind::UnrepresentableText => "unrepresentable_text"@,
        DiagnosticKind::UnknownEnumValue => "unknown_enum_value"@,
        DiagnosticKind::ShapeViolation => "shape_violation"@,
        DiagnosticKind::TermTypeMismatch => "term_type_mismatch"@,
        DiagnosticKind::UnannotatedFloat => "unannotated_float"@,
    }
}

impl DiagnosticKind {
    /// The stable wire name of this kind, in `snake_case`.
    pub fn as_str(self) -> (r: &'static str)
        ensures
            r@ == kind_name(self),
    {
        match self {
            DiagnosticKind::UnreadableDescriptorSet => "unreadable_descriptor_set",
            DiagnosticKind::UnsupportedEdition => "unsupported_edition",
            DiagnosticKind::MalformedDescriptor => "malformed_descriptor",
            DiagnosticKind::MalformedOption => "malformed_option",
            DiagnosticKind::UnmappableOptionKey => "unmappable_option_key",
            DiagnosticKind::UnrenderableFacts => "unrenderable_facts",
            DiagnosticKind::UncompilableSource => "uncompilable_source",
            DiagnosticKind::PackagelessFile => "packageless_file",
            DiagnosticKind::UnmappableName => "unmappable_name",
            DiagnosticKind::AmbiguousConstant => "ambiguous_constant",
            DiagnosticKind::DependencyFault => "dependency_fault",
            DiagnosticKind::SourceTooDeep => "source_too_deep",
            DiagnosticKind::SourceOutsideRoot => "source_outside_root",
            DiagnosticKind::SourceImportGraphTooLarge => "source_import_graph_too_large",
            DiagnosticKind::UndecodablePayload => "undecodable_payload",
            DiagnosticKind::PayloadTooDeep => "payload_too_deep",
            DiagnosticKind::AmbiguousVersionPackages => "ambiguous_version_packages",
            DiagnosticKind::NoComparableSchemas => "no_comparable_schemas",
            DiagnosticKind::UnknownRootType => "unknown_root_type",
            DiagnosticKind::ValueOutOfRange => "value_out_of_range",
            DiagnosticKind::InteriorNul => "interior_nul",
            DiagnosticKind::UnrepresentableText => "unrepresentable_text",
            DiagnosticKind::UnknownEnumValue => "unknown_enum_value",
            DiagnosticKind::ShapeViolation => "shape_violation",
            DiagnosticKind::TermTypeMismatch => "term_type_mismatch",
            DiagnosticKind::UnannotatedFloat => "unannotated_float",
        }
    }
}

/// A single structured diagnostic: its kind, the locus it names, and a human-readable detail.
#[derive(Debug, PartialEq, Eq)]
pub struct Diagnostic {
    kind: DiagnosticKind,
    locus: Locus,
    detail: String,
}

impl Diagnostic {
    /// The kind, as a mathematical value.
    pub closed spec fn spec_kind(&self) -> DiagnosticKind {
        self.kind
    }

    /// The locus, as a mathematical value (`None` for the whole input).
    pub closed spec fn spec_locus(&self) -> Option<Seq<char>> {
        self.locus.view_path()
    }

    /// The detail prose, as a character sequence.
    pub closed spec fn spec_detail(&self) -> Seq<char> {
        self.detail@
    }

    /// A diagnostic of the given kind at the given locus, with detail prose.
    pub fn new(kind: DiagnosticKind, locus: Locus, detail: &str) -> (r: Diagnostic)
        ensures
            r.spec_kind() == kind,
            r.spec_locus() == locus.view_path(),
            r.spec_detail() == detail@,
    {
        Diagnostic { kind, locus, detail: owned(detail) }
    }

    /// A diagnostic whose detail is an already-composed `String`.
    pub fn composed(kind: DiagnosticKind, locus: Locus, detail: String) -> (r: Diagnostic)
        ensures
            r.spec_kind() == kind,
            r.spec_locus() == locus.view_path(),
            r.spec_detail() == detail@,
    {
        Diagnostic { kind, locus, detail }
    }

    /// The kind.
    pub fn kind(&self) -> (r: DiagnosticKind)
        ensures
            r == self.spec_kind(),
    {
        self.kind
    }

    /// The locus.
    pub fn locus(&self) -> (r: &Locus)
        ensures
            r.view_path() == self.spec_locus(),
    {
        &self.locus
    }

    /// The detail prose.
    pub fn detail(&self) -> (r: &str)
        ensures
            r@ == self.spec_detail(),
    {
        self.detail.as_str()
    }

    /// The human rendering: `kind at locus: detail`, or `kind: detail` for the whole-input
    /// locus, the locus path and the detail each escaped and bounded by [`human`].
    pub fn to_string(&self) -> (r: String)
        ensures
            r@ == diagnostic_line(self.spec_kind(), self.spec_locus(), self.spec_detail()),
    {
        let mut out = owned(self.kind.as_str());
        match &self.locus {
            Locus::Whole => {},
            Locus::At(path) => {
                out.append(" at ");
                let shown = human(path.as_str());
                out.append(shown.as_str());
            },
        }
        out.append(": ");
        let shown = human(self.detail.as_str());
        out.append(shown.as_str());
        out
    }
}

/// A diagnostic as plain values: its kind, its locus, its detail.
pub type FaultView = (DiagnosticKind, Option<Seq<char>>, Seq<char>);

/// A diagnostic as plain values.
pub open spec fn fault_view(d: Diagnostic) -> FaultView {
    (d.spec_kind(), d.spec_locus(), d.spec_detail())
}

/// Diagnostics as plain values, in order.
pub open spec fn fault_views(ds: Seq<Diagnostic>) -> Seq<FaultView> {
    ds.map_values(|d: Diagnostic| fault_view(d))
}

/// The human line of one diagnostic.
pub open spec fn diagnostic_line(
    kind: DiagnosticKind,
    locus: Option<Seq<char>>,
    detail: Seq<char>,
) -> Seq<char> {
    match locus {
        None => kind_name(kind) + ": "@ + human_view(detail),
        Some(path) => kind_name(kind) + " at "@ + human_view(path) + ": "@ + human_view(detail),
    }
}

/// A non-empty collection of diagnostics — the error half of every `Result` the library returns.
/// Non-empty by construction: a failure names at least one cause.
#[derive(Debug, PartialEq, Eq)]
pub struct Diagnostics(Vec<Diagnostic>);

impl Clone for Diagnostic {
    /// The same kind, locus, and detail.
    fn clone(&self) -> (r: Diagnostic)
        ensures
            fault_view(r) == fault_view(*self),
    {
        Diagnostic { kind: self.kind, locus: self.locus.clone(), detail: owned(self.detail.as_str()) }
    }
}

impl Clone for Diagnostics {
    /// The same causes, in the same order.
    fn clone(&self) -> (r: Diagnostics)
        ensures
            fault_views(r@) == fault_views(self@),
    {
        proof {
            use_type_invariant(self);
        }
        let mut out: Vec<Diagnostic> = Vec::new();
        let mut i: usize = 0;
        while i < self.0.len()
            invariant
                i <= self.0@.len(),
                out@.len() == i,
                forall|k: int| 0 <= k < i ==> fault_view(#[trigger] out@[k]) == fault_view(self.0@[k]),
            decreases self.0@.len() - i,
        {
            out.push(self.0[i].clone());
            i = i + 1;
        }
        proof {
            assert(fault_views(out@) =~= fault_views(self.0@));
        }
        Diagnostics(out)
    }
}

impl View for Diagnostics {
    type V = Seq<Diagnostic>;

    closed spec fn view(&self) -> Seq<Diagnostic> {
        self.0@
    }
}

impl From<Diagnostic> for Diagnostics {
    /// The diagnostics carrying a single cause, as [`Diagnostics::one`] gives them.
    fn from(diagnostic: Diagnostic) -> (r: Diagnostics)
        ensures
            r@ == seq![diagnostic],
    {
        Diagnostics::one(diagnostic)
    }
}

// A `Diagnostics` value is not determined by its causes in Verus's model of `Vec`, so the
// conversion's result is stated by its causes, on `from` itself, rather than as one value.
impl vstd::std_specs::convert::FromSpecImpl<Diagnostic> for Diagnostics {
    open spec fn obeys_from_spec() -> bool {
        false
    }

    open spec fn from_spec(v: Diagnostic) -> Diagnostics {
        one_of(v)
    }
}

/// The diagnostics carrying exactly one cause.
pub closed spec fn one_of(d: Diagnostic) -> Diagnostics {
    choose|r: Diagnostics| r@ == seq![d]
}

impl Diagnostics {
    /// A collection of diagnostics is never empty: a failure names at least one cause.
    #[verifier::type_invariant]
    spec fn non_empty(self) -> bool {
        self.0@.len() >= 1
    }

    /// The diagnostics carrying a single cause.
    pub fn one(diagnostic: Diagnostic) -> (r: Diagnostics)
        ensures
            r@ == seq![diagnostic],
    {
        let mut v = Vec::new();
        v.push(diagnostic);
        Diagnostics(v)
    }

    /// The diagnostics collecting a possibly-empty sequence of causes: `None` when it is empty,
    /// else every cause, in order.
    pub fn collect(diagnostics: Vec<Diagnostic>) -> (r: Option<Diagnostics>)
        ensures
            diagnostics@.len() == 0 ==> r is None,
            diagnostics@.len() > 0 ==> (r matches Some(d) && d@ == diagnostics@),
    {
        if diagnostics.len() == 0 {
            None
        } else {
            Some(Diagnostics(diagnostics))
        }
    }

    /// Add a further cause at the end.
    pub fn push(&mut self, diagnostic: Diagnostic)
        ensures
            final(self)@ == old(self)@.push(diagnostic),
    {
        proof {
            use_type_invariant(&*self);
        }
        let mut taken = Diagnostics::one(Diagnostic::new(DiagnosticKind::DependencyFault, Locus::whole(), ""));
        std::mem::swap(self, &mut taken);
        proof {
            use_type_invariant(&taken);
        }
        let Diagnostics(mut items) = taken;
        items.push(diagnostic);
        *self = Diagnostics(items);
    }

    /// The diagnostics, in the order they were collected.
    pub fn as_slice(&self) -> (r: &[Diagnostic])
        ensures
            r@ == self@,
    {
        self.0.as_slice()
    }

    /// The diagnostics, in the order they were collected, as an iterator.
    pub fn iter(&self) -> (r: std::slice::Iter<'_, Diagnostic>)
        ensures
            vstd::std_specs::iter::IteratorSpec::remaining(&r) == self@.as_ref(),
    {
        self.0.iter()
    }

    /// Whether any diagnostic in the collection is of `kind`.
    pub fn contains_kind(&self, kind: DiagnosticKind) -> (r: bool)
        ensures
            r == exists|i: int| 0 <= i < self@.len() && (#[trigger] self@[i]).spec_kind() == kind,
    {
        let mut i: usize = 0;
        while i < self.0.len()
            invariant
                i <= self@.len(),
                forall|j: int| 0 <= j < i ==> (#[trigger] self@[j]).spec_kind() != kind,
            decreases self@.len() - i,
        {
            if self.0[i].kind() == kind {
                return true;
            }
            i = i + 1;
        }
        false
    }

    /// The number of diagnoses — every constructor gives at least one.
    pub fn len(&self) -> (r: usize)
        ensures
            r == self@.len(),
            r >= 1,
    {
        proof {
            use_type_invariant(self);
        }
        self.0.len()
    }

    /// The wire view: the diagnostics as a JSON array of `{field_path, kind, detail}` objects,
    /// the whole-input locus flattened to an empty `field_path`.
    pub fn wire(&self) -> (r: String)
        ensures
            r@ == "["@ + wire_objects(self@) + "]"@,
    {
        let mut out = owned("[");
        let mut i: usize = 0;
        while i < self.0.len()
            invariant
                i <= self@.len(),
                out@ == "["@ + wire_objects(self@.take(i as int)),
            decreases self@.len() - i,
        {
            let diagnostic = &self.0[i];
            if i > 0 {
                out.append(",");
            }
            let path = match diagnostic.locus.path() {
                Some(path) => path,
                None => "",
            };
            let object = wire_object(path, diagnostic.kind.as_str(), diagnostic.detail.as_str());
            proof {
                reveal_strlit("");
            }
            assert(object@ == wire_of(self@[i as int]));
            out.append(object.as_str());
            proof {
                let t = self@.take(i + 1);
                assert(t.drop_last() =~= self@.take(i as int));
                assert(t.last() == self@[i as int]);
                if i == 0 {
                    assert(t[0] == self@[0]);
                    assert(self@.take(0) =~= Seq::<Diagnostic>::empty());
                }
            }
            i = i + 1;
        }
        proof {
            assert(self@.take(self@.len() as int) =~= self@);
        }
        out.append("]");
        out
    }

    /// The human view: one diagnostic per line ([`Diagnostic::to_string`]), no trailing newline.
    pub fn to_string(&self) -> (r: String)
        ensures
            r@ == human_lines(self@),
    {
        let mut out = String::new();
        let mut i: usize = 0;
        while i < self.0.len()
            invariant
                i <= self@.len(),
                out@ == human_lines(self@.take(i as int)),
            decreases self@.len() - i,
        {
            if i > 0 {
                out.append("\n");
            }
            let line = self.0[i].to_string();
            out.append(line.as_str());
            proof {
                assert(self@.take(i + 1).drop_last() =~= self@.take(i as int));
                assert(self@.take(i + 1).last() == self@[i as int]);
            }
            i = i + 1;
        }
        proof {
            assert(self@.take(self@.len() as int) =~= self@);
        }
        out
    }
}

/// The wire object of one diagnostic.
pub open spec fn wire_of(d: Diagnostic) -> Seq<char> {
    wire_object_view(
        match d.spec_locus() {
            Some(path) => path,
            None => Seq::empty(),
        },
        kind_name(d.spec_kind()),
        d.spec_detail(),
    )
}

/// The wire objects of a sequence of diagnostics, comma-separated.
pub open spec fn wire_objects(ds: Seq<Diagnostic>) -> Seq<char>
    decreases ds.len(),
{
    if ds.len() == 0 {
        Seq::empty()
    } else if ds.len() == 1 {
        wire_of(ds[0])
    } else {
        wire_objects(ds.drop_last()) + ","@ + wire_of(ds.last())
    }
}

/// The human lines of a sequence of diagnostics, newline-separated.
pub open spec fn human_lines(ds: Seq<Diagnostic>) -> Seq<char>
    decreases ds.len(),
{
    if ds.len() == 0 {
        Seq::empty()
    } else if ds.len() == 1 {
        diagnostic_line(ds[0].spec_kind(), ds[0].spec_locus(), ds[0].spec_detail())
    } else {
        human_lines(ds.drop_last()) + "\n"@ + diagnostic_line(
            ds.last().spec_kind(),
            ds.last().spec_locus(),
            ds.last().spec_detail(),
        )
    }
}

/// One wire `Diagnostic` object, each value JSON-escaped.
pub open spec fn wire_object_view(field_path: Seq<char>, kind: Seq<char>, detail: Seq<char>) -> Seq<
    char,
> {
    "{\"field_path\":\""@ + escape_view(field_path) + "\",\"kind\":\""@ + escape_view(kind)
        + "\",\"detail\":\""@ + escape_view(detail) + "\"}"@
}

/// One wire `Diagnostic` object — `{"field_path":..,"kind":..,"detail":..}`, each value
/// JSON-escaped.
pub fn wire_object(field_path: &str, kind: &str, detail: &str) -> (r: String)
    ensures
        r@ == wire_object_view(field_path@, kind@, detail@),
{
    let mut out = owned("{\"field_path\":\"");
    out.append(escape(field_path).as_str());
    out.append("\",\"kind\":\"");
    out.append(escape(kind).as_str());
    out.append("\",\"detail\":\"");
    out.append(escape(detail).as_str());
    out.append("\"}");
    out
}

/// The JSON spelling of one character inside a string literal: `"` and `\` escaped, `\n`,
/// `\r`, `\t` by name, the other C0 controls as `\u00NN`, everything else itself.
pub open spec fn escape_char(c: char) -> Seq<char> {
    if c == '"' {
        seq!['\\', '"']
    } else if c == '\\' {
        seq!['\\', '\\']
    } else if c == '\n' {
        seq!['\\', 'n']
    } else if c == '\r' {
        seq!['\\', 'r']
    } else if c == '\t' {
        seq!['\\', 't']
    } else if (c as u32) < 0x20 {
        seq!['\\', 'u', '0', '0', hex_char(((c as u32) / 16) as int), hex_char(((c as u32) % 16) as int)]
    } else {
        seq![c]
    }
}

/// The JSON-escaped form of a whole text.
pub open spec fn escape_view(s: Seq<char>) -> Seq<char>
    decreases s.len(),
{
    if s.len() == 0 {
        Seq::empty()
    } else {
        escape_view(s.drop_last()) + escape_char(s.last())
    }
}

/// Escape a string for a JSON string literal (see [`escape_char`]).
pub fn escape(text: &str) -> (r: String)
    ensures
        r@ == escape_view(text@),
{
    let chars = chars_of(text);
    let mut out = String::new();
    let mut i: usize = 0;
    while i < chars.len()
        invariant
            chars@ == text@,
            i <= chars@.len(),
            out@ == escape_view(chars@.take(i as int)),
        decreases chars@.len() - i,
    {
        let c = chars[i];
        if c == '"' {
            out.append("\\\"");
        } else if c == '\\' {
            out.append("\\\\");
        } else if c == '\n' {
            out.append("\\n");
        } else if c == '\r' {
            out.append("\\r");
        } else if c == '\t' {
            out.append("\\t");
        } else if (c as u32) < 0x20 {
            out.append("\\u00");
            push_char(&mut out, hex_digit((c as u32) / 16));
            push_char(&mut out, hex_digit((c as u32) % 16));
        } else {
            push_char(&mut out, c);
        }
        proof {
            reveal_strlit("\\\"");
            reveal_strlit("\\\\");
            reveal_strlit("\\n");
            reveal_strlit("\\r");
            reveal_strlit("\\t");
            reveal_strlit("\\u00");
            assert(chars@.take(i + 1).drop_last() =~= chars@.take(i as int));
            assert(out@ =~= escape_view(chars@.take(i as int)) + escape_char(c));
        }
        i = i + 1;
    }
    proof {
        assert(chars@.take(chars@.len() as int) =~= chars@);
    }
    out
}

/// The human-view length cap, in characters.
pub const DETAIL_HUMAN_CHARS: usize = 2048;

/// Whether a character is a Unicode control (general category `Cc`): C0, DEL, or C1.
pub open spec fn is_control(c: char) -> bool {
    (c as u32) < 0x20 || (0x7f <= (c as u32) && (c as u32) <= 0x9f)
}

/// The terminal spelling of one character: a control as `\u{00NN}`, anything else itself.
pub open spec fn human_char(c: char) -> Seq<char> {
    if is_control(c) {
        seq!['\\', 'u', '{', '0', '0', hex_char(((c as u32) / 16) as int), hex_char(((c as u32) % 16) as int), '}']
    } else {
        seq![c]
    }
}

/// The control-escaped form of a whole text.
pub open spec fn human_escaped(s: Seq<char>) -> Seq<char>
    decreases s.len(),
{
    if s.len() == 0 {
        Seq::empty()
    } else {
        human_escaped(s.drop_last()) + human_char(s.last())
    }
}

/// The terminal view of a text: controls escaped, then bounded to the first
/// [`DETAIL_HUMAN_CHARS`] characters, a `…` marking a truncation.
pub open spec fn human_view(s: Seq<char>) -> Seq<char> {
    let e = human_escaped(s);
    if e.len() > DETAIL_HUMAN_CHARS {
        e.take(DETAIL_HUMAN_CHARS as int).push('…')
    } else {
        e
    }
}

/// The terminal view of a composed value — escaped and bounded (see [`human_view`]); on a
/// character boundary throughout.
pub fn human(text: &str) -> (r: String)
    ensures
        r@ == human_view(text@),
{
    let chars = chars_of(text);
    let mut escaped: Vec<char> = Vec::new();
    let mut i: usize = 0;
    while i < chars.len()
        invariant
            chars@ == text@,
            i <= chars@.len(),
            escaped@ == human_escaped(chars@.take(i as int)),
        decreases chars@.len() - i,
    {
        let c = chars[i];
        let code = c as u32;
        if code < 0x20 || (0x7f <= code && code <= 0x9f) {
            escaped.push('\\');
            escaped.push('u');
            escaped.push('{');
            escaped.push('0');
            escaped.push('0');
            escaped.push(hex_digit(code / 16));
            escaped.push(hex_digit(code % 16));
            escaped.push('}');
        } else {
            escaped.push(c);
        }
        proof {
            assert(chars@.take(i + 1).drop_last() =~= chars@.take(i as int));
            assert(escaped@ =~= human_escaped(chars@.take(i as int)) + human_char(c));
        }
        i = i + 1;
    }
    proof {
        assert(chars@.take(chars@.len() as int) =~= chars@);
    }
    let shown = if escaped.len() > DETAIL_HUMAN_CHARS {
        DETAIL_HUMAN_CHARS
    } else {
        escaped.len()
    };
    let mut out = String::new();
    let mut j: usize = 0;
    while j < shown
        invariant
            shown <= escaped@.len(),
            j <= shown,
            out@ == escaped@.take(j as int),
        decreases shown - j,
    {
        push_char(&mut out, escaped[j]);
        proof {
            assert(escaped@.take(j + 1) =~= escaped@.take(j as int).push(escaped@[j as int]));
        }
        j = j + 1;
    }
    if escaped.len() > DETAIL_HUMAN_CHARS {
        push_char(&mut out, '…');
    } else {
        proof {
            assert(escaped@.take(shown as int) =~= escaped@);
        }
    }
    out
}

} // verus!
