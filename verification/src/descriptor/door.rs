//! The descriptor door's pre-read: before the descriptor engine builds a pool, refuse the shapes
//! it cannot represent — a file whose `syntax` is neither proto2 nor proto3 (editions, or an
//! unrecognised value), a package that is not a dotted sequence of proto identifiers within the
//! segment bound, a declared name that is not a proto identifier, and any uninterpreted option
//! (an unresolved option's text-format value drives the engine's unbounded parser). It reads an
//! outline of the decoded set: each declaration's name, and whether its options carry an
//! uninterpreted option.
use vstd::prelude::*;

use crate::descriptor::model::{is_ident, is_proto_ident, parse_package, problem_detail, Package};
use crate::diagnostics::{fault_view, fault_views, Diagnostic, DiagnosticKind, Diagnostics, FaultView, Locus};
use crate::text::{debug_quoted, owned, quoted};

verus! {

broadcast use vstd::string::group_string_axioms;

/// A declaration as the pre-read sees it: its name, and whether its options carry an
/// uninterpreted option.
#[derive(Clone, Debug, PartialEq, Eq)]
pub struct DeclOutline {
    /// The declared name.
    pub name: String,
    /// Whether its options carry an uninterpreted option.
    pub uninterpreted: bool,
}

/// An enum as the pre-read sees it.
#[derive(Clone, Debug, PartialEq, Eq)]
pub struct EnumOutline {
    /// The declared name.
    pub name: String,
    /// Whether its options carry an uninterpreted option.
    pub uninterpreted: bool,
    /// Its values.
    pub values: Vec<DeclOutline>,
}

/// A message as the pre-read sees it.
#[derive(Debug)]
pub struct MessageOutline {
    /// The declared name.
    pub name: String,
    /// Whether its options carry an uninterpreted option.
    pub uninterpreted: bool,
    /// Its fields.
    pub fields: Vec<DeclOutline>,
    /// Its oneofs.
    pub oneofs: Vec<DeclOutline>,
    /// Its extensions.
    pub extensions: Vec<DeclOutline>,
    /// Whether each extension range's options carry an uninterpreted option.
    pub ranges: Vec<bool>,
    /// Its nested enums.
    pub enums: Vec<EnumOutline>,
    /// Its nested messages.
    pub nested: Vec<MessageOutline>,
}

/// A service as the pre-read sees it.
#[derive(Clone, Debug, PartialEq, Eq)]
pub struct ServiceOutline {
    /// The declared name.
    pub name: String,
    /// Whether its options carry an uninterpreted option.
    pub uninterpreted: bool,
    /// Its methods.
    pub methods: Vec<DeclOutline>,
}

/// A file of the set as the pre-read sees it.
#[derive(Debug)]
pub struct FileOutline {
    /// The file's name (empty when the set gives none).
    pub name: String,
    /// The file's `syntax`, read raw.
    pub syntax: Option<String>,
    /// The file's package (empty when the set gives none).
    pub package: String,
    /// Whether the file's options carry an uninterpreted option.
    pub uninterpreted: bool,
    /// Its top-level extensions.
    pub extensions: Vec<DeclOutline>,
    /// Its services.
    pub services: Vec<ServiceOutline>,
    /// Its top-level enums.
    pub enums: Vec<EnumOutline>,
    /// Its top-level messages.
    pub messages: Vec<MessageOutline>,
}

/// keryx's editions refusal message — every `UnsupportedEdition` diagnostic carries it.
pub const EDITIONS_UNSUPPORTED: &'static str = "editions (edition 2023+) are not supported yet: keryx's descriptor engine has no editions support, so neither a .proto source nor a protoc-compiled descriptor set is accepted. Transliterate the schema to proto3, or track editions support in docs/proto-support.md";

/// The refusal of an uninterpreted option.
pub const UNINTERPRETED: &'static str = "the set carries an uninterpreted option \u{2014} supply a compiled descriptor set (keryx does not evaluate custom option values, and an unresolved option's text-format value drives the descriptor engine's unbounded parser)";

// ---------------------------------------------------------------------------------------------
// The refusals, as mathematics.
// ---------------------------------------------------------------------------------------------

/// A `MalformedDescriptor` at a file's locus.
pub open spec fn malformed_view(file: Seq<char>, detail: Seq<char>) -> FaultView {
    (DiagnosticKind::MalformedDescriptor, Some(file), detail)
}

/// The refusal of a declared name that is not a proto identifier, if it is not.
pub open spec fn ident_refusals(file: Seq<char>, what: Seq<char>, decl: Seq<char>) -> Seq<FaultView> {
    if is_ident(decl) {
        Seq::empty()
    } else {
        seq![malformed_view(file, what + " name "@ + debug_quoted(decl) + " is not a proto identifier"@)]
    }
}

/// The refusal of an uninterpreted option, if there is one.
pub open spec fn uninterpreted_refusals(file: Seq<char>, uninterpreted: bool) -> Seq<FaultView> {
    if uninterpreted {
        seq![malformed_view(file, UNINTERPRETED@)]
    } else {
        Seq::empty()
    }
}

/// A declaration's refusals: its name, then its options.
pub open spec fn decl_refusals(file: Seq<char>, what: Seq<char>, d: DeclOutline) -> Seq<FaultView> {
    ident_refusals(file, what, d.name@) + uninterpreted_refusals(file, d.uninterpreted)
}

/// A run of declarations' refusals, in order.
pub open spec fn decls_refusals(file: Seq<char>, what: Seq<char>, ds: Seq<DeclOutline>) -> Seq<FaultView>
    decreases ds.len(),
{
    if ds.len() == 0 {
        Seq::empty()
    } else {
        decls_refusals(file, what, ds.drop_last()) + decl_refusals(file, what, ds.last())
    }
}

/// An enum's refusals: its name, its options, then its values'.
pub open spec fn enum_refusals(file: Seq<char>, e: EnumOutline) -> Seq<FaultView> {
    ident_refusals(file, "enum"@, e.name@) + uninterpreted_refusals(file, e.uninterpreted)
        + decls_refusals(file, "enum value"@, e.values@)
}

/// A run of enums' refusals, in order.
pub open spec fn enums_refusals(file: Seq<char>, es: Seq<EnumOutline>) -> Seq<FaultView>
    decreases es.len(),
{
    if es.len() == 0 {
        Seq::empty()
    } else {
        enums_refusals(file, es.drop_last()) + enum_refusals(file, es.last())
    }
}

/// The refusals of extension ranges' options, in order.
pub open spec fn ranges_refusals(file: Seq<char>, rs: Seq<bool>) -> Seq<FaultView>
    decreases rs.len(),
{
    if rs.len() == 0 {
        Seq::empty()
    } else {
        ranges_refusals(file, rs.drop_last()) + uninterpreted_refusals(file, rs.last())
    }
}

/// A message's own refusals (its nested messages aside): its name, its options, its fields',
/// oneofs', extensions', extension ranges', and nested enums'.
pub open spec fn message_refusals(file: Seq<char>, m: MessageOutline) -> Seq<FaultView> {
    ident_refusals(file, "message"@, m.name@) + uninterpreted_refusals(file, m.uninterpreted)
        + decls_refusals(file, "field"@, m.fields@) + decls_refusals(file, "oneof"@, m.oneofs@)
        + decls_refusals(file, "extension"@, m.extensions@) + ranges_refusals(file, m.ranges@)
        + enums_refusals(file, m.enums@)
}

/// The order the walk meets a message and everything nested in it: the message, then its
/// nested messages' walks from the last to the first.
pub open spec fn visit(m: MessageOutline) -> Seq<MessageOutline>
    decreases m,
{
    seq![m] + visit_rev(m.nested@)
}

/// The walks of a run of messages, from the last to the first — the order a stack holding them
/// yields them in.
pub open spec fn visit_rev(s: Seq<MessageOutline>) -> Seq<MessageOutline>
    decreases s,
{
    if s.len() == 0 {
        Seq::empty()
    } else {
        visit(s.last()) + visit_rev(s.drop_last())
    }
}

/// A run of messages' own refusals, in order.
pub open spec fn messages_refusals(file: Seq<char>, ms: Seq<MessageOutline>) -> Seq<FaultView>
    decreases ms.len(),
{
    if ms.len() == 0 {
        Seq::empty()
    } else {
        messages_refusals(file, ms.drop_last()) + message_refusals(file, ms.last())
    }
}

/// A service's refusals: its name, its options, then its methods'.
pub open spec fn service_refusals(file: Seq<char>, s: ServiceOutline) -> Seq<FaultView> {
    ident_refusals(file, "service"@, s.name@) + uninterpreted_refusals(file, s.uninterpreted)
        + decls_refusals(file, "method"@, s.methods@)
}

/// A run of services' refusals, in order.
pub open spec fn services_refusals(file: Seq<char>, ss: Seq<ServiceOutline>) -> Seq<FaultView>
    decreases ss.len(),
{
    if ss.len() == 0 {
        Seq::empty()
    } else {
        services_refusals(file, ss.drop_last()) + service_refusals(file, ss.last())
    }
}

/// A file's structural refusals: its options, its extensions', its services', its enums', then
/// every message's, in the walk's order.
pub open spec fn structure_refusals(f: FileOutline) -> Seq<FaultView> {
    let at = f.name@;
    uninterpreted_refusals(at, f.uninterpreted) + decls_refusals(at, "extension"@, f.extensions@)
        + services_refusals(at, f.services@) + enums_refusals(at, f.enums@) + messages_refusals(
        at,
        visit_rev(f.messages@),
    )
}

/// The refusal of a file's `syntax`: none for an absent one, proto2 or proto3; editions is
/// unsupported; anything else is malformed.
pub open spec fn syntax_refusals(f: FileOutline) -> Seq<FaultView> {
    match f.syntax {
        None => Seq::empty(),
        Some(s) => if s@ == "proto2"@ || s@ == "proto3"@ {
            Seq::empty()
        } else if s@ == "editions"@ {
            seq![(DiagnosticKind::UnsupportedEdition, Some(f.name@), EDITIONS_UNSUPPORTED@)]
        } else {
            seq![
                malformed_view(
                    f.name@,
                    "unrecognised syntax "@ + debug_quoted(s@)
                        + ": keryx's descriptor engine reads proto2 and proto3"@,
                ),
            ]
        },
    }
}

/// The refusal of a file's package, if it is not one.
pub open spec fn package_refusals(f: FileOutline) -> Seq<FaultView> {
    match parse_package(f.package@) {
        Ok(_) => Seq::empty(),
        Err(p) => seq![malformed_view(f.name@, problem_detail(p))],
    }
}

/// A file's refusals: its syntax, its package, then its structure.
pub open spec fn file_refusals(f: FileOutline) -> Seq<FaultView> {
    syntax_refusals(f) + package_refusals(f) + structure_refusals(f)
}

/// The set's refusals, file by file.
pub open spec fn set_refusals(fs: Seq<FileOutline>) -> Seq<FaultView>
    decreases fs.len(),
{
    if fs.len() == 0 {
        Seq::empty()
    } else {
        set_refusals(fs.drop_last()) + file_refusals(fs.last())
    }
}

// ---------------------------------------------------------------------------------------------
// Unfolding the walk.
// ---------------------------------------------------------------------------------------------

/// The walks of a stack that held `a`, then `b`: `b`'s first.
proof fn lemma_visit_rev_append(a: Seq<MessageOutline>, b: Seq<MessageOutline>)
    ensures
        visit_rev(a + b) == visit_rev(b) + visit_rev(a),
    decreases b.len(),
{
    if b.len() == 0 {
        assert(a + b =~= a);
        assert(visit_rev(b) + visit_rev(a) =~= visit_rev(a));
    } else {
        lemma_visit_rev_append(a, b.drop_last());
        assert((a + b).drop_last() =~= a + b.drop_last());
        assert((a + b).last() == b.last());
        assert(visit_rev(a + b) =~= visit(b.last()) + visit_rev(a + b.drop_last()));
        assert(visit_rev(b) + visit_rev(a) =~= visit(b.last()) + (visit_rev(b.drop_last()) + visit_rev(a)));
    }
}

/// The refusals of two runs of messages, one after the other.
proof fn lemma_messages_refusals_append(file: Seq<char>, a: Seq<MessageOutline>, b: Seq<MessageOutline>)
    ensures
        messages_refusals(file, a + b) == messages_refusals(file, a) + messages_refusals(file, b),
    decreases b.len(),
{
    if b.len() == 0 {
        assert(a + b =~= a);
        assert(messages_refusals(file, a) + messages_refusals(file, b) =~= messages_refusals(file, a));
    } else {
        lemma_messages_refusals_append(file, a, b.drop_last());
        assert((a + b).drop_last() =~= a + b.drop_last());
        assert((a + b).last() == b.last());
        assert(messages_refusals(file, a + b) =~= messages_refusals(file, a) + messages_refusals(file, b));
    }
}

/// Pushing a diagnostic adds its view.
proof fn lemma_push_view(ds: Seq<Diagnostic>, d: Diagnostic)
    ensures
        fault_views(ds.push(d)) == fault_views(ds).push(fault_view(d)),
{
    assert(fault_views(ds.push(d)) =~= fault_views(ds).push(fault_view(d)));
}

// ---------------------------------------------------------------------------------------------
// The checks.
// ---------------------------------------------------------------------------------------------

/// A `MalformedDescriptor` at a file's locus.
fn malformed(file: &str, detail: String) -> (r: Diagnostic)
    ensures
        fault_view(r) == malformed_view(file@, detail@),
{
    Diagnostic::composed(DiagnosticKind::MalformedDescriptor, Locus::at(file), detail)
}

/// Refuse a declared name that is not a proto identifier.
fn check_ident(refusals: &mut Vec<Diagnostic>, file: &str, what: &str, decl: &str)
    ensures
        fault_views(final(refusals)@) == fault_views(old(refusals)@) + ident_refusals(file@, what@, decl@),
{
    let ghost before = refusals@;
    if !is_proto_ident(decl) {
        let mut detail = owned(what);
        detail.append(" name ");
        let shown = quoted(decl);
        detail.append(shown.as_str());
        detail.append(" is not a proto identifier");
        let d = malformed(file, detail);
        refusals.push(d);
        proof {
            lemma_push_view(before, d);
        }
    }
    proof {
        assert(fault_views(refusals@) =~= fault_views(before) + ident_refusals(file@, what@, decl@));
    }
}

/// Refuse an uninterpreted option.
fn check_uninterpreted(refusals: &mut Vec<Diagnostic>, file: &str, uninterpreted: bool)
    ensures
        fault_views(final(refusals)@) == fault_views(old(refusals)@) + uninterpreted_refusals(
            file@,
            uninterpreted,
        ),
{
    let ghost before = refusals@;
    if uninterpreted {
        let d = malformed(file, owned(UNINTERPRETED));
        refusals.push(d);
        proof {
            lemma_push_view(before, d);
        }
    }
    proof {
        assert(fault_views(refusals@) =~= fault_views(before) + uninterpreted_refusals(file@, uninterpreted));
    }
}

/// Refuse a run of declarations' non-identifier names and uninterpreted options, in order.
fn check_decls(refusals: &mut Vec<Diagnostic>, file: &str, what: &str, ds: &Vec<DeclOutline>)
    ensures
        fault_views(final(refusals)@) == fault_views(old(refusals)@) + decls_refusals(file@, what@, ds@),
{
    let ghost start = fault_views(refusals@);
    let mut i: usize = 0;
    proof {
        assert(ds@.take(0) =~= Seq::<DeclOutline>::empty());
        assert(start + decls_refusals(file@, what@, ds@.take(0)) =~= start);
    }
    while i < ds.len()
        invariant
            i <= ds@.len(),
            fault_views(refusals@) == start + decls_refusals(file@, what@, ds@.take(i as int)),
        decreases ds@.len() - i,
    {
        check_ident(refusals, file, what, ds[i].name.as_str());
        check_uninterpreted(refusals, file, ds[i].uninterpreted);
        proof {
            assert(ds@.take(i + 1).drop_last() =~= ds@.take(i as int));
            assert(fault_views(refusals@) =~= start + decls_refusals(file@, what@, ds@.take(i + 1)));
        }
        i = i + 1;
    }
    proof {
        assert(ds@.take(ds@.len() as int) =~= ds@);
    }
}

/// Refuse an enum's and its values' non-identifier names and any uninterpreted option on them.
fn check_enum(refusals: &mut Vec<Diagnostic>, file: &str, enumeration: &EnumOutline)
    ensures
        fault_views(final(refusals)@) == fault_views(old(refusals)@) + enum_refusals(file@, *enumeration),
{
    let ghost start = fault_views(refusals@);
    check_ident(refusals, file, "enum", enumeration.name.as_str());
    check_uninterpreted(refusals, file, enumeration.uninterpreted);
    check_decls(refusals, file, "enum value", &enumeration.values);
    proof {
        reveal_strlit("enum");
        reveal_strlit("enum value");
        assert(fault_views(refusals@) =~= start + enum_refusals(file@, *enumeration));
    }
}

/// Refuse a run of enums, in order.
fn check_enums(refusals: &mut Vec<Diagnostic>, file: &str, es: &Vec<EnumOutline>)
    ensures
        fault_views(final(refusals)@) == fault_views(old(refusals)@) + enums_refusals(file@, es@),
{
    let ghost start = fault_views(refusals@);
    let mut i: usize = 0;
    proof {
        assert(es@.take(0) =~= Seq::<EnumOutline>::empty());
        assert(start + enums_refusals(file@, es@.take(0)) =~= start);
    }
    while i < es.len()
        invariant
            i <= es@.len(),
            fault_views(refusals@) == start + enums_refusals(file@, es@.take(i as int)),
        decreases es@.len() - i,
    {
        check_enum(refusals, file, &es[i]);
        proof {
            assert(es@.take(i + 1).drop_last() =~= es@.take(i as int));
            assert(fault_views(refusals@) =~= start + enums_refusals(file@, es@.take(i + 1)));
        }
        i = i + 1;
    }
    proof {
        assert(es@.take(es@.len() as int) =~= es@);
    }
}

/// Refuse a message's own declarations (its nested messages aside).
fn check_message(refusals: &mut Vec<Diagnostic>, file: &str, message: &MessageOutline)
    ensures
        fault_views(final(refusals)@) == fault_views(old(refusals)@) + message_refusals(file@, *message),
{
    let ghost start = fault_views(refusals@);
    check_ident(refusals, file, "message", message.name.as_str());
    check_uninterpreted(refusals, file, message.uninterpreted);
    check_decls(refusals, file, "field", &message.fields);
    check_decls(refusals, file, "oneof", &message.oneofs);
    check_decls(refusals, file, "extension", &message.extensions);
    let ghost before_ranges = fault_views(refusals@);
    let mut i: usize = 0;
    proof {
        assert(message.ranges@.take(0) =~= Seq::<bool>::empty());
        assert(before_ranges + ranges_refusals(file@, message.ranges@.take(0)) =~= before_ranges);
    }
    while i < message.ranges.len()
        invariant
            i <= message.ranges@.len(),
            fault_views(refusals@) == before_ranges + ranges_refusals(file@, message.ranges@.take(i as int)),
        decreases message.ranges@.len() - i,
    {
        check_uninterpreted(refusals, file, message.ranges[i]);
        proof {
            assert(message.ranges@.take(i + 1).drop_last() =~= message.ranges@.take(i as int));
            assert(fault_views(refusals@) =~= before_ranges + ranges_refusals(
                file@,
                message.ranges@.take(i + 1),
            ));
        }
        i = i + 1;
    }
    proof {
        assert(message.ranges@.take(message.ranges@.len() as int) =~= message.ranges@);
    }
    check_enums(refusals, file, &message.enums);
    proof {
        reveal_strlit("message");
        reveal_strlit("field");
        reveal_strlit("oneof");
        reveal_strlit("extension");
        assert(fault_views(refusals@) =~= start + message_refusals(file@, *message));
    }
}

/// A stack of messages as values.
pub open spec fn stack_view(s: Seq<&MessageOutline>) -> Seq<MessageOutline> {
    s.map_values(|m: &MessageOutline| *m)
}

/// Walk a file's declarations, refusing every non-identifier name and every uninterpreted
/// option. The message walk is an explicit managed stack, so a deeply nested file cannot
/// exhaust the call stack.
fn check_structure(file: &FileOutline, refusals: &mut Vec<Diagnostic>)
    ensures
        fault_views(final(refusals)@) == fault_views(old(refusals)@) + structure_refusals(*file),
{
    let at = file.name.as_str();
    let ghost start = fault_views(refusals@);
    check_uninterpreted(refusals, at, file.uninterpreted);
    check_decls(refusals, at, "extension", &file.extensions);
    let ghost before_services = fault_views(refusals@);
    let mut i: usize = 0;
    proof {
        assert(file.services@.take(0) =~= Seq::<ServiceOutline>::empty());
        assert(before_services + services_refusals(at@, file.services@.take(0)) =~= before_services);
    }
    while i < file.services.len()
        invariant
            i <= file.services@.len(),
            at@ == file.name@,
            fault_views(refusals@) == before_services + services_refusals(at@, file.services@.take(i as int)),
        decreases file.services@.len() - i,
    {
        let service = &file.services[i];
        let ghost here = fault_views(refusals@);
        check_ident(refusals, at, "service", service.name.as_str());
        check_uninterpreted(refusals, at, service.uninterpreted);
        check_decls(refusals, at, "method", &service.methods);
        proof {
            reveal_strlit("service");
            reveal_strlit("method");
            assert(fault_views(refusals@) =~= here + service_refusals(at@, *service));
            assert(file.services@.take(i + 1).drop_last() =~= file.services@.take(i as int));
            assert(fault_views(refusals@) =~= before_services + services_refusals(
                at@,
                file.services@.take(i + 1),
            ));
        }
        i = i + 1;
    }
    proof {
        assert(file.services@.take(file.services@.len() as int) =~= file.services@);
    }
    check_enums(refusals, at, &file.enums);
    let ghost before_messages = fault_views(refusals@);
    let mut stack: Vec<&MessageOutline> = Vec::new();
    let mut k: usize = 0;
    while k < file.messages.len()
        invariant
            k <= file.messages@.len(),
            stack_view(stack@) == file.messages@.take(k as int),
        decreases file.messages@.len() - k,
    {
        let ghost before = stack@;
        stack.push(&file.messages[k]);
        proof {
            assert(stack@ == before.push(&file.messages@[k as int]));
            assert(stack_view(stack@) =~= stack_view(before).push(file.messages@[k as int]));
            assert(file.messages@.take(k + 1) =~= file.messages@.take(k as int).push(file.messages@[k as int]));
        }
        k = k + 1;
    }
    proof {
        assert(file.messages@.take(file.messages@.len() as int) =~= file.messages@);
        assert(before_messages + messages_refusals(at@, visit_rev(file.messages@)) =~= before_messages
            + messages_refusals(at@, visit_rev(stack_view(stack@))));
    }
    let ghost goal = before_messages + messages_refusals(at@, visit_rev(file.messages@));
    while stack.len() > 0
        invariant
            at@ == file.name@,
            goal == fault_views(refusals@) + messages_refusals(at@, visit_rev(stack_view(stack@))),
        decreases visit_rev(stack_view(stack@)).len(),
    {
        let ghost t = stack_view(stack@).drop_last();
        let message = stack.pop().unwrap();
        let ghost here = fault_views(refusals@);
        proof {
            assert(stack_view(stack@) =~= t);
            assert(visit_rev(t.push(*message)) == visit(*message) + visit_rev(t)) by {
                assert(t.push(*message).drop_last() =~= t);
            }
        }
        check_message(refusals, at, message);
        let mut j: usize = 0;
        while j < message.nested.len()
            invariant
                j <= message.nested@.len(),
                stack_view(stack@) == t + message.nested@.take(j as int),
            decreases message.nested@.len() - j,
        {
            let ghost before = stack@;
            stack.push(&message.nested[j]);
            proof {
                assert(stack@ == before.push(&message.nested@[j as int]));
                assert(stack_view(stack@) =~= stack_view(before).push(message.nested@[j as int]));
                assert(message.nested@.take(j + 1) =~= message.nested@.take(j as int).push(message.nested@[j as int]));
                assert(stack_view(stack@) =~= t + message.nested@.take(j + 1));
            }
            j = j + 1;
        }
        proof {
            let ns = message.nested@;
            assert(ns.take(ns.len() as int) =~= ns);
            lemma_visit_rev_append(t, ns);
            let rest = visit_rev(ns) + visit_rev(t);
            assert(visit(*message) =~= seq![*message] + visit_rev(ns));
            assert(visit(*message) + visit_rev(t) =~= seq![*message] + rest);
            lemma_messages_refusals_append(at@, seq![*message], rest);
            let single = seq![*message];
            assert(single.drop_last() =~= Seq::<MessageOutline>::empty());
            assert(single.last() == *message);
            assert(messages_refusals(at@, Seq::<MessageOutline>::empty()) =~= Seq::<FaultView>::empty());
            assert(messages_refusals(at@, single) =~= message_refusals(at@, *message));
            assert(here + (message_refusals(at@, *message) + messages_refusals(at@, rest)) =~= fault_views(
                refusals@,
            ) + messages_refusals(at@, rest));
        }
    }
    proof {
        assert(stack_view(stack@) =~= Seq::<MessageOutline>::empty());
        reveal_strlit("extension");
        assert(fault_views(refusals@) =~= start + structure_refusals(*file));
    }
}

/// Refuse a file's syntax unless it is proto2 or proto3 (or unset).
fn check_syntax(file: &FileOutline, refusals: &mut Vec<Diagnostic>)
    ensures
        fault_views(final(refusals)@) == fault_views(old(refusals)@) + syntax_refusals(*file),
{
    let name = file.name.as_str();
    let ghost before = refusals@;
    match &file.syntax {
        None => {},
        Some(syntax) => {
            if crate::text::str_eq(syntax.as_str(), "proto2") || crate::text::str_eq(syntax.as_str(), "proto3") {
            } else if crate::text::str_eq(syntax.as_str(), "editions") {
                let d = Diagnostic::new(DiagnosticKind::UnsupportedEdition, Locus::at(name), EDITIONS_UNSUPPORTED);
                refusals.push(d);
                proof {
                    lemma_push_view(before, d);
                }
            } else {
                let mut detail = owned("unrecognised syntax ");
                let shown = quoted(syntax.as_str());
                detail.append(shown.as_str());
                detail.append(": keryx's descriptor engine reads proto2 and proto3");
                let d = malformed(name, detail);
                refusals.push(d);
                proof {
                    lemma_push_view(before, d);
                }
            }
        },
    }
    proof {
        reveal_strlit("proto2");
        reveal_strlit("proto3");
        reveal_strlit("editions");
        assert(fault_views(refusals@) =~= fault_views(before) + syntax_refusals(*file));
    }
}

/// Refuse a file's package unless it is one.
fn check_package(file: &FileOutline, refusals: &mut Vec<Diagnostic>)
    requires
        file.package@.len() < usize::MAX,
    ensures
        fault_views(final(refusals)@) == fault_views(old(refusals)@) + package_refusals(*file),
{
    let ghost before = refusals@;
    match Package::parse(file.package.as_str()) {
        Ok(_) => {},
        Err(problem) => {
            let d = malformed(file.name.as_str(), problem.detail());
            refusals.push(d);
            proof {
                lemma_push_view(before, d);
            }
        },
    }
    proof {
        assert(fault_views(refusals@) =~= fault_views(before) + package_refusals(*file));
    }
}

/// Refuse, before the descriptor engine builds a pool, the shapes it cannot represent: each
/// file's syntax, package, and structure in turn. `None` when the set has nothing to refuse.
pub fn pre_validate(files: &[FileOutline]) -> (r: Option<Diagnostics>)
    requires
        forall|i: int| 0 <= i < files@.len() ==> (#[trigger] files@[i]).package@.len() < usize::MAX,
    ensures
        r is None <==> set_refusals(files@).len() == 0,
        r matches Some(d) ==> fault_views(d@) == set_refusals(files@),
{
    let mut refusals: Vec<Diagnostic> = Vec::new();
    let mut i: usize = 0;
    proof {
        assert(files@.take(0) =~= Seq::<FileOutline>::empty());
        assert(fault_views(refusals@) =~= Seq::<FaultView>::empty());
    }
    while i < files.len()
        invariant
            i <= files@.len(),
            forall|i: int| 0 <= i < files@.len() ==> (#[trigger] files@[i]).package@.len() < usize::MAX,
            fault_views(refusals@) == set_refusals(files@.take(i as int)),
        decreases files@.len() - i,
    {
        let file = &files[i];
        check_syntax(file, &mut refusals);
        check_package(file, &mut refusals);
        check_structure(file, &mut refusals);
        proof {
            assert(files@.take(i + 1).drop_last() =~= files@.take(i as int));
            assert(fault_views(refusals@) =~= set_refusals(files@.take(i + 1)));
        }
        i = i + 1;
    }
    proof {
        assert(files@.take(files@.len() as int) =~= files@);
    }
    Diagnostics::collect(refusals)
}

/// An `UnreadableDescriptorSet` diagnostic at the whole-input locus: the set as a whole did not
/// decode, the engine's own decode error composed into the detail.
pub fn unreadable_set(detail: String) -> (r: Diagnostics)
    ensures
        fault_views(r@) == seq![(DiagnosticKind::UnreadableDescriptorSet, None::<Seq<char>>, detail@)],
{
    let r = Diagnostics::one(Diagnostic::composed(DiagnosticKind::UnreadableDescriptorSet, Locus::whole(), detail));
    proof {
        assert(fault_views(r@) =~= seq![fault_view(r@[0])]);
    }
    r
}

} // verus!
