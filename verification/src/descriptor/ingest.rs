//! Ingestion of a descriptor pool as a descriptor engine reports it: each file's messages walked
//! off a managed stack and its enums gathered, each element built by the builders, the pool's
//! shapes read from the builds, the shapes checked to be a pool the walk can read, and the schema
//! assembled from them.
use vstd::prelude::*;

use crate::descriptor::assemble::{
    build_schema, builds_match, enum_paths_ascending, extends, files_listed, listed_enum, listed_message,
    marks_cycles, name_text, names_closed, parent_resolves, paths_ascending, pool_resolves,
    referent_resolves, string_text, string_texts,
};
use crate::descriptor::builders::{
    build_enum, build_field, build_message, build_oneof, field_number, field_referents, map_shape,
    message_referents, names_view, EntryView,
};
use crate::descriptor::closure::{
    enum_at, fails, message_at, pool_is_ok, pool_ok, EnumShape, FileShape, MessageShape, PoolShape, Subjects,
};
use crate::descriptor::desugar::presence;
use crate::descriptor::docs::{for_path, SourceLocation};
use crate::descriptor::model::{
    Enum, EnumValue, Field, FieldShape, FqName, Message, Oneof, Openness, Schema, SchemaVersion, ValueType,
};
use crate::descriptor::options::{read, OptionEntry};
use crate::diagnostics::{fault_view, fault_views, Diagnostic, DiagnosticKind, Diagnostics, Locus};
use crate::text::{chars_of, owned, str_eq};

verus! {

broadcast use vstd::string::group_string_axioms;

/// A field as the engine reports it.
#[derive(Clone, Debug, PartialEq, Eq)]
pub struct FieldRead {
    /// The short name.
    pub name: String,
    /// The fully-qualified name.
    pub path: String,
    /// The field number as the engine holds it.
    pub number: u32,
    /// The field's kind as a value type: its scalar kind, or the message or enum it names.
    pub value: ValueType,
    /// What its entry shows, for a map field; `None` for any other field.
    pub map: Option<EntryView>,
    /// Whether it is a repeated (list) field.
    pub list: bool,
    /// Whether it carries the `required` label.
    pub required: bool,
    /// Whether it tracks presence.
    pub tracks_presence: bool,
    /// Its applied options.
    pub options: Vec<OptionEntry>,
    /// Its source-info path.
    pub location: Vec<i32>,
}

/// A oneof as the engine reports it.
#[derive(Clone, Debug, PartialEq, Eq)]
pub struct OneofRead {
    /// The short name.
    pub name: String,
    /// The fully-qualified name.
    pub path: String,
    /// Whether it is the synthetic oneof of a proto3 `optional` field.
    pub synthetic: bool,
    /// Its arms: each field's number and fully-qualified name, in declaration order.
    pub arms: Vec<(u32, String)>,
    /// Its source-info path.
    pub location: Vec<i32>,
}

/// An enum value as the engine reports it.
#[derive(Clone, Debug, PartialEq, Eq)]
pub struct EnumValueRead {
    /// The short name.
    pub name: String,
    /// The number.
    pub number: i32,
    /// The fully-qualified name.
    pub path: String,
    /// Its applied options.
    pub options: Vec<OptionEntry>,
    /// Its source-info path.
    pub location: Vec<i32>,
}

/// An enum as the engine reports it.
#[derive(Clone, Debug, PartialEq, Eq)]
pub struct EnumRead {
    /// The fully-qualified name.
    pub path: String,
    /// The enclosing message's fully-qualified name, for a nested enum.
    pub outer: Option<String>,
    /// Its values, in declaration order.
    pub values: Vec<EnumValueRead>,
    /// Its applied options.
    pub options: Vec<OptionEntry>,
    /// Its source-info path.
    pub location: Vec<i32>,
}

/// A message as the engine reports it, with the messages and enums declared inside it.
#[derive(Debug)]
pub struct MessageRead {
    /// The fully-qualified name.
    pub path: String,
    /// The enclosing message's fully-qualified name, for a nested message.
    pub outer: Option<String>,
    /// Whether it is a map-entry synthetic.
    pub map_entry: bool,
    /// Its fields, in declaration order.
    pub fields: Vec<FieldRead>,
    /// Its oneofs, synthetic ones included, in declaration order.
    pub oneofs: Vec<OneofRead>,
    /// Its applied options.
    pub options: Vec<OptionEntry>,
    /// Its source-info path.
    pub location: Vec<i32>,
    /// The messages declared inside it, in declaration order.
    pub nested: Vec<MessageRead>,
    /// The enums declared inside it, in declaration order.
    pub enums: Vec<EnumRead>,
}

/// A file as the engine reports it.
#[derive(Debug)]
pub struct FileRead {
    /// The file's name.
    pub name: String,
    /// Its package text.
    pub package: String,
    /// Its syntax.
    pub version: SchemaVersion,
    /// Its source-info locations.
    pub locations: Vec<SourceLocation>,
    /// Its top-level messages, in declaration order.
    pub messages: Vec<MessageRead>,
    /// Its top-level enums, in declaration order.
    pub enums: Vec<EnumRead>,
}

/// A descriptor pool as the engine reports it: its files, in the pool's order.
#[derive(Debug)]
pub struct PoolRead {
    /// The files.
    pub files: Vec<FileRead>,
}

/// The order a managed stack seeded with `s` pops its messages in, each popped message's nested
/// ones pushed on top: the last message, then everything under it, then the rest.
pub open spec fn popped(s: Seq<MessageRead>) -> Seq<MessageRead>
    decreases s,
{
    if s.len() == 0 {
        Seq::empty()
    } else {
        let m = s[s.len() - 1];
        proof {
            assert(decreases_to!(s => s[s.len() - 1]));
            assert(decreases_to!(s => s.subrange(0, s.len() - 1)));
        }
        seq![m] + popped(m.nested@) + popped(s.subrange(0, s.len() - 1))
    }
}

/// Stacking two runs pops the top run first, then the bottom one.
pub proof fn lemma_popped_append(a: Seq<MessageRead>, b: Seq<MessageRead>)
    ensures
        popped(a + b) == popped(b) + popped(a),
    decreases b.len(),
{
    if b.len() == 0 {
        assert(a + b =~= a);
        assert(popped(b) =~= Seq::<MessageRead>::empty());
        assert(popped(b) + popped(a) =~= popped(a));
    } else {
        let s = a + b;
        let m = b[b.len() - 1];
        assert(s[s.len() - 1] == m);
        assert(s.subrange(0, s.len() - 1) =~= a + b.subrange(0, b.len() - 1));
        lemma_popped_append(a, b.subrange(0, b.len() - 1));
        assert(popped(s) =~= seq![m] + popped(m.nested@) + popped(b.subrange(0, b.len() - 1)) + popped(a));
    }
}

/// A field built from what the engine reports: its shape (a map's checked against its entry),
/// its number checked into range, its options read, its doc found.
fn field_of(field: FieldRead, locations: &[SourceLocation]) -> (r: Result<Field, Diagnostics>) {
    let FieldRead { name, path, number, value, map, list, required, tracks_presence, options, location } = field;
    let shape = match map {
        Some(entry) => map_shape(path.as_str(), entry)?,
        None => if list {
            FieldShape::Repeated { value }
        } else {
            FieldShape::Singular { value, presence: presence(required, tracks_presence) }
        },
    };
    field_number(number, path.as_str())?;
    let annotations = read(&options, path.as_str())?;
    let doc = for_path(locations, location.as_slice());
    build_field(number, name, FqName::new(path.as_str()), shape, annotations, doc)
}

/// A oneof built from what the engine reports.
fn oneof_of(oneof: OneofRead, locations: &[SourceLocation]) -> (r: Result<Oneof, Diagnostics>) {
    let OneofRead { name, path, synthetic: _, arms, location } = oneof;
    let mut named: Vec<(u32, FqName)> = Vec::new();
    let mut i: usize = 0;
    while i < arms.len()
        invariant
            i <= arms@.len(),
        decreases arms@.len() - i,
    {
        named.push((arms[i].0, FqName::new(arms[i].1.as_str())));
        i = i + 1;
    }
    let doc = for_path(locations, location.as_slice());
    build_oneof(name, FqName::new(path.as_str()), named, doc)
}

/// A name as a fully-qualified name.
fn name_of(o: &Option<String>) -> (r: Option<FqName>)
    ensures
        name_text(r) == string_text(*o),
{
    match o {
        Some(n) => Some(FqName::new(n.as_str())),
        None => None,
    }
}

/// A message built from what the engine reports: its fields, its real oneofs, its options, and
/// its doc, the first refusal among them its error.
fn message_of(
    path: &String,
    outer: &Option<String>,
    fields: Vec<FieldRead>,
    oneofs: Vec<OneofRead>,
    options: Vec<OptionEntry>,
    location: Vec<i32>,
    file: &str,
    locations: &[SourceLocation],
) -> (r: Result<Message, Diagnostics>)
    ensures
        r matches Ok(m) ==> m.spec_path() == path@ && m.spec_file() == file@ && name_text(m.spec_outer())
            == string_text(*outer),
{
    let mut fields = fields;
    let mut built_fields: Vec<Field> = Vec::new();
    while fields.len() > 0
        decreases fields@.len(),
    {
        let field = fields.remove(0);
        built_fields.push(field_of(field, locations)?);
    }
    let mut oneofs = oneofs;
    let mut built_oneofs: Vec<Oneof> = Vec::new();
    while oneofs.len() > 0
        decreases oneofs@.len(),
    {
        let oneof = oneofs.remove(0);
        if !oneof.synthetic {
            built_oneofs.push(oneof_of(oneof, locations)?);
        }
    }
    let annotations = read(&options, path.as_str())?;
    let doc = for_path(locations, location.as_slice());
    Ok(build_message(
        FqName::new(path.as_str()),
        owned(file),
        name_of(outer),
        built_fields,
        built_oneofs,
        annotations,
        doc,
    ))
}

/// An enum built from what the engine reports: its values with their options and docs, its
/// openness from its file's syntax.
fn enum_of(enumeration: EnumRead, file: &str, version: SchemaVersion, locations: &[SourceLocation]) -> (r: Result<
    Enum,
    Diagnostics,
>)
    ensures
        r matches Ok(e) ==> e.spec_path() == enumeration.path@ && e.spec_file() == file@ && name_text(
            e.spec_outer(),
        ) == string_text(enumeration.outer) && e.spec_openness() == syntax_openness(version),
{
    let EnumRead { path, outer, values, options, location } = enumeration;
    let mut values = values;
    let mut built: Vec<EnumValue> = Vec::new();
    while values.len() > 0
        decreases values@.len(),
    {
        let EnumValueRead { name, number, path: value_path, options: value_options, location: value_location } = values.remove(0);
        let annotations = read(&value_options, value_path.as_str())?;
        let doc = for_path(locations, value_location.as_slice());
        built.push(EnumValue { name, number, path: FqName::new(value_path.as_str()), options: annotations, doc });
    }
    let annotations = read(&options, path.as_str())?;
    let doc = for_path(locations, location.as_slice());
    Ok(build_enum(FqName::new(path.as_str()), owned(file), name_of(&outer), version, built, annotations, doc))
}

/// Names as strings.
fn texts_of(names: &Vec<FqName>) -> (r: Vec<String>)
    ensures
        string_texts(r@) == names_view(names@),
{
    let mut out: Vec<String> = Vec::new();
    let mut i: usize = 0;
    while i < names.len()
        invariant
            i <= names@.len(),
            out@.len() == i,
            forall|k: int| 0 <= k < i ==> (#[trigger] out@[k])@ == names@[k]@,
        decreases names@.len() - i,
    {
        out.push(owned(names[i].as_str()));
        i = i + 1;
    }
    proof {
        assert(string_texts(out@) =~= names_view(names@));
    }
    out
}

/// The openness a file's syntax gives its enums: closed under proto2, open under proto3.
pub open spec fn syntax_openness(v: SchemaVersion) -> Openness {
    match v {
        SchemaVersion::Proto2 => Openness::Closed,
        SchemaVersion::Proto3 => Openness::Open,
    }
}

/// Whether each build read so far is its shape's own, each element's file one of the first
/// `bound` files, named as `names` gives, each built enum open as its file's syntax in
/// `versions` gives.
pub open spec fn reads_so_far(
    names: Seq<Seq<char>>,
    versions: Seq<SchemaVersion>,
    ms: Seq<MessageShape>,
    bm: Seq<Result<Message, Diagnostics>>,
    es: Seq<EnumShape>,
    be: Seq<Result<Enum, Diagnostics>>,
    bound: int,
) -> bool {
    &&& bm.len() == ms.len()
    &&& be.len() == es.len()
    &&& forall|i: int| 0 <= i < ms.len() ==> (#[trigger] ms[i]).file < bound
    &&& forall|j: int| 0 <= j < es.len() ==> (#[trigger] es[j]).file < bound
    &&& forall|i: int| 0 <= i < ms.len() ==> ((#[trigger] bm[i]) is Ok <==> ms[i].builds)
    &&& forall|j: int| 0 <= j < es.len() ==> ((#[trigger] be[j]) is Ok <==> es[j].builds)
    &&& forall|i: int|
        0 <= i < bm.len() && (#[trigger] bm[i]) is Ok ==> {
            &&& bm[i]->Ok_0.spec_path() == ms[i].path@
            &&& bm[i]->Ok_0.spec_file() == names[ms[i].file as int]
            &&& field_referents(bm[i]->Ok_0.spec_fields()) == string_texts(ms[i].referents@)
            &&& name_text(bm[i]->Ok_0.spec_outer()) == string_text(ms[i].outer)
        }
    &&& forall|j: int|
        0 <= j < be.len() && (#[trigger] be[j]) is Ok ==> {
            &&& be[j]->Ok_0.spec_path() == es[j].path@
            &&& be[j]->Ok_0.spec_file() == names[es[j].file as int]
            &&& name_text(be[j]->Ok_0.spec_outer()) == string_text(es[j].outer)
            &&& be[j]->Ok_0.spec_openness() == syntax_openness(versions[es[j].file as int])
        }
}

/// Whether a pool's shapes are read from its builds: one build per element, an element built
/// exactly when its shape says so, each element's file inside the pool, and each build its
/// shape's own.
pub open spec fn read_from(
    p: PoolShape,
    messages: Seq<Result<Message, Diagnostics>>,
    enums: Seq<Result<Enum, Diagnostics>>,
) -> bool {
    &&& messages.len() == p.messages@.len()
    &&& enums.len() == p.enums@.len()
    &&& forall|i: int| 0 <= i < messages.len() ==> ((#[trigger] messages[i]) is Ok <==> p.messages@[i].builds)
    &&& forall|j: int| 0 <= j < enums.len() ==> ((#[trigger] enums[j]) is Ok <==> p.enums@[j].builds)
    &&& forall|i: int| 0 <= i < p.messages@.len() ==> (#[trigger] p.messages@[i]).file < p.files@.len()
    &&& forall|j: int| 0 <= j < p.enums@.len() ==> (#[trigger] p.enums@[j]).file < p.files@.len()
    &&& builds_match(p, messages, enums)
}

/// The pool's shapes and each element's build: file by file, the messages in the order a managed
/// stack seeded with the file's top-level messages pops them (each popped message's nested ones
/// pushed on top), then the file's enums, its own first and then each popped message's in turn;
/// each shape carries its element's path, file, lexical parent, whether it builds, and the
/// referents its built fields name.
pub fn read_shapes(read: PoolRead) -> (r: (PoolShape, Vec<Result<Message, Diagnostics>>, Vec<Result<Enum, Diagnostics>>))
    ensures
        read_from(r.0, r.1@, r.2@),
        r.0.files@.len() == read.files@.len(),
        forall|f: int| 0 <= f < read.files@.len() ==> (#[trigger] r.0.files@[f]).name@ == read.files@[f].name@
            && r.0.files@[f].package@ == read.files@[f].package@,
        forall|j: int|
            0 <= j < r.2@.len() && (#[trigger] r.2@[j]) is Ok ==> r.2@[j]->Ok_0.spec_openness() == syntax_openness(
                read.files@[r.0.enums@[j].file as int].version,
            ),
{
    let PoolRead { files } = read;
    let ghost all = files@;
    let ghost names = all.map_values(|x: FileRead| x.name@);
    let ghost versions = all.map_values(|x: FileRead| x.version);
    let total: usize = files.len();
    let mut rest = files;
    let mut shape_files: Vec<FileShape> = Vec::new();
    let mut shape_messages: Vec<MessageShape> = Vec::new();
    let mut shape_enums: Vec<EnumShape> = Vec::new();
    let mut built_messages: Vec<Result<Message, Diagnostics>> = Vec::new();
    let mut built_enums: Vec<Result<Enum, Diagnostics>> = Vec::new();
    let mut f: usize = 0;
    while rest.len() > 0
        invariant
            f + rest@.len() == all.len(),
            all.len() == total,
            rest@ == all.subrange(f as int, all.len() as int),
            names == all.map_values(|x: FileRead| x.name@),
            versions == all.map_values(|x: FileRead| x.version),
            shape_files@.len() == f,
            forall|g: int| 0 <= g < f ==> (#[trigger] shape_files@[g]).name@ == all[g].name@
                && shape_files@[g].package@ == all[g].package@,
            reads_so_far(names, versions, shape_messages@, built_messages@, shape_enums@, built_enums@, f as int),
        decreases rest@.len(),
    {
        proof {
            assert(rest@[0] == all[f as int]);
        }
        let FileRead { name, package, version, locations, messages, enums } = rest.remove(0);
        proof {
            assert(rest@ =~= all.subrange(f + 1, all.len() as int));
            assert(names[f as int] == name@);
            assert(versions[f as int] == version);
        }
        let mut message_positions: Vec<usize> = Vec::new();
        let mut child_enums: Vec<EnumRead> = Vec::new();
        let mut stack = messages;
        while stack.len() > 0
            invariant
                f < all.len(),
                names[f as int] == name@,
                versions[f as int] == version,
                reads_so_far(names, versions, shape_messages@, built_messages@, shape_enums@, built_enums@, f + 1),
            decreases popped(stack@).len(),
        {
            let ghost before = stack@;
            let m = stack.pop().unwrap();
            let MessageRead { path, outer, map_entry, fields, oneofs, options, location, nested, enums: inner } = m;
            proof {
                assert(before == stack@.push(m));
                assert(before[before.len() - 1] == m);
                assert(before.subrange(0, before.len() - 1) =~= stack@);
                lemma_popped_append(stack@, nested@);
            }
            let mut nested = nested;
            stack.append(&mut nested);
            let mut inner = inner;
            child_enums.append(&mut inner);
            message_positions.push(shape_messages.len());
            let built = message_of(&path, &outer, fields, oneofs, options, location, name.as_str(), locations.as_slice());
            let referents = match &built {
                Ok(b) => texts_of(&message_referents(b)),
                Err(_) => Vec::new(),
            };
            let builds = built.is_ok();
            shape_messages.push(MessageShape { path, file: f, map_entry, builds, referents, outer });
            built_messages.push(built);
        }
        let mut all_enums = enums;
        all_enums.append(&mut child_enums);
        let mut enum_positions: Vec<usize> = Vec::new();
        while all_enums.len() > 0
            invariant
                f < all.len(),
                names[f as int] == name@,
                versions[f as int] == version,
                reads_so_far(names, versions, shape_messages@, built_messages@, shape_enums@, built_enums@, f + 1),
            decreases all_enums@.len(),
        {
            let enumeration = all_enums.remove(0);
            let path = enumeration.path.clone();
            let outer = enumeration.outer.clone();
            enum_positions.push(shape_enums.len());
            let built = enum_of(enumeration, name.as_str(), version, locations.as_slice());
            let builds = built.is_ok();
            shape_enums.push(EnumShape { path, file: f, builds, outer });
            built_enums.push(built);
        }
        shape_files.push(FileShape { name, package, messages: message_positions, enums: enum_positions });
        f = f + 1;
    }
    let pool = PoolShape { files: shape_files, messages: shape_messages, enums: shape_enums };
    proof {
        assert forall|g: int| 0 <= g < all.len() implies names[g] == pool.files@[g].name@ by {}
    }
    (pool, built_messages, built_enums)
}

/// The message at a path, found by a scan.
fn find_message(pool: &PoolShape, r: &str) -> (o: Option<usize>)
    requires
        pool_ok(*pool),
    ensures
        match o {
            Some(t) => message_at(*pool, r@) == Some(t as int),
            None => message_at(*pool, r@) is None,
        },
{
    let mut t: usize = 0;
    while t < pool.messages.len()
        invariant
            pool_ok(*pool),
            t <= pool.messages@.len(),
            forall|u: int| 0 <= u < t ==> (#[trigger] pool.messages@[u]).path@ != r@,
        decreases pool.messages@.len() - t,
    {
        if str_eq(pool.messages[t].path.as_str(), r) {
            proof {
                assert(pool.messages@[t as int].path@ == r@);
                assert(exists|i: int| 0 <= i < pool.messages@.len() && (#[trigger] pool.messages@[i]).path@ == r@);
                let c = choose|i: int| 0 <= i < pool.messages@.len() && (#[trigger] pool.messages@[i]).path@ == r@;
                if c != t {
                    if c < t {
                        assert(pool.messages@[c].path@ != pool.messages@[t as int].path@);
                    } else {
                        assert(pool.messages@[t as int].path@ != pool.messages@[c].path@);
                    }
                }
            }
            return Some(t);
        }
        t = t + 1;
    }
    None
}

/// The enum at a path, found by a scan.
fn find_enum(pool: &PoolShape, r: &str) -> (o: Option<usize>)
    requires
        pool_ok(*pool),
    ensures
        match o {
            Some(t) => enum_at(*pool, r@) == Some(t as int),
            None => enum_at(*pool, r@) is None,
        },
{
    let mut t: usize = 0;
    while t < pool.enums.len()
        invariant
            pool_ok(*pool),
            t <= pool.enums@.len(),
            forall|u: int| 0 <= u < t ==> (#[trigger] pool.enums@[u]).path@ != r@,
        decreases pool.enums@.len() - t,
    {
        if str_eq(pool.enums[t].path.as_str(), r) {
            proof {
                assert(pool.enums@[t as int].path@ == r@);
                assert(exists|j: int| 0 <= j < pool.enums@.len() && (#[trigger] pool.enums@[j]).path@ == r@);
                let c = choose|j: int| 0 <= j < pool.enums@.len() && (#[trigger] pool.enums@[j]).path@ == r@;
                if c != t {
                    if c < t {
                        assert(pool.enums@[c].path@ != pool.enums@[t as int].path@);
                    } else {
                        assert(pool.enums@[t as int].path@ != pool.enums@[c].path@);
                    }
                }
            }
            return Some(t);
        }
        t = t + 1;
    }
    None
}

/// Whether a nested element's path extends its parent's.
fn extends_check(path: &str, parent: &str) -> (r: bool)
    ensures
        r == extends(path@, parent@),
{
    let a = chars_of(path);
    let b = chars_of(parent);
    if a.len() <= b.len() || a.len() - b.len() < 2 {
        return false;
    }
    let mut k: usize = 0;
    while k < b.len()
        invariant
            k <= b@.len(),
            a@ == path@,
            b@ == parent@,
            b@.len() < a@.len(),
            forall|u: int| 0 <= u < k ==> a@[u] == b@[u],
        decreases b@.len() - k,
    {
        if a[k] != b[k] {
            proof {
                assert(a@.subrange(0, b@.len() as int)[k as int] != b@[k as int]);
                assert(a@.subrange(0, b@.len() as int) != b@);
            }
            return false;
        }
        k = k + 1;
    }
    proof {
        assert(a@.subrange(0, b@.len() as int) =~= b@);
    }
    a[b.len()] == '.'
}

/// Whether a referent resolves in the pool.
fn referent_check(pool: &PoolShape, r: &str) -> (ok: bool)
    requires
        pool_ok(*pool),
    ensures
        ok == referent_resolves(*pool, r@),
{
    match find_message(pool, r) {
        Some(t) => !pool.messages[t].map_entry,
        None => find_enum(pool, r).is_some(),
    }
}

/// Whether a lexical parent resolves in the pool for an element of file `file` at `path`.
fn parent_check(pool: &PoolShape, outer: &Option<String>, file: usize, path: &str) -> (ok: bool)
    requires
        pool_ok(*pool),
    ensures
        ok == match *outer {
            Some(o) => parent_resolves(*pool, o@, file) && extends(path@, o@),
            None => true,
        },
{
    match outer {
        Some(o) => {
            let resolves = match find_message(pool, o.as_str()) {
                Some(t) => !pool.messages[t].map_entry && pool.messages[t].file == file,
                None => false,
            };
            resolves && extends_check(path, o.as_str())
        },
        None => true,
    }
}

/// Whether a position occurs in a listing.
fn listed(list: &Vec<usize>, x: usize) -> (r: bool)
    ensures
        r == exists|k: int| 0 <= k < list@.len() && #[trigger] list@[k] == x,
{
    let mut k: usize = 0;
    while k < list.len()
        invariant
            k <= list@.len(),
            forall|u: int| 0 <= u < k ==> #[trigger] list@[u] != x,
        decreases list@.len() - k,
    {
        if list[k] == x {
            return true;
        }
        k = k + 1;
    }
    false
}

/// Whether the names a pool's shapes carry resolve within it and each element is listed by its
/// file.
pub fn resolves(pool: &PoolShape) -> (r: bool)
    requires
        pool_ok(*pool),
    ensures
        r == pool_resolves(*pool),
{
    let ghost p = *pool;
    let mut i: usize = 0;
    while i < pool.messages.len()
        invariant
            p == *pool,
            pool_ok(p),
            i <= p.messages@.len(),
            forall|u: int| 0 <= u < i ==> #[trigger] listed_message(p, u),
            forall|u: int, k: int|
                0 <= u < i && 0 <= k < p.messages@[u].referents@.len() ==> referent_resolves(
                    p,
                    (#[trigger] p.messages@[u].referents@[k])@,
                ),
            forall|u: int|
                0 <= u < i ==> match (#[trigger] p.messages@[u]).outer {
                    Some(o) => parent_resolves(p, o@, p.messages@[u].file) && extends(p.messages@[u].path@, o@),
                    None => true,
                },
        decreases p.messages@.len() - i,
    {
        let message = &pool.messages[i];
        if !listed(&pool.files[message.file].messages, i) {
            proof {
                assert(!listed_message(p, i as int));
            }
            return false;
        }
        let mut k: usize = 0;
        while k < message.referents.len()
            invariant
                p == *pool,
                pool_ok(p),
                i < p.messages@.len(),
                *message == p.messages@[i as int],
                k <= message.referents@.len(),
                forall|v: int| 0 <= v < k ==> referent_resolves(p, (#[trigger] message.referents@[v])@),
            decreases message.referents@.len() - k,
        {
            if !referent_check(pool, message.referents[k].as_str()) {
                proof {
                    assert(!referent_resolves(p, p.messages@[i as int].referents@[k as int]@));
                }
                return false;
            }
            k = k + 1;
        }
        if !parent_check(pool, &message.outer, message.file, message.path.as_str()) {
            proof {
                assert(p.messages@[i as int] == *message);
            }
            return false;
        }
        i = i + 1;
    }
    let mut j: usize = 0;
    while j < pool.enums.len()
        invariant
            p == *pool,
            pool_ok(p),
            j <= p.enums@.len(),
            forall|u: int| 0 <= u < p.messages@.len() ==> #[trigger] listed_message(p, u),
            forall|u: int| 0 <= u < j ==> #[trigger] listed_enum(p, u),
            forall|u: int|
                0 <= u < j ==> match (#[trigger] p.enums@[u]).outer {
                    Some(o) => parent_resolves(p, o@, p.enums@[u].file) && extends(p.enums@[u].path@, o@),
                    None => true,
                },
        decreases p.enums@.len() - j,
    {
        let enumeration = &pool.enums[j];
        if !listed(&pool.files[enumeration.file].enums, j) {
            proof {
                assert(!listed_enum(p, j as int));
            }
            return false;
        }
        if !parent_check(pool, &enumeration.outer, enumeration.file, enumeration.path.as_str()) {
            proof {
                assert(p.enums@[j as int] == *enumeration);
            }
            return false;
        }
        j = j + 1;
    }
    true
}

/// The refusal of shapes that break what a descriptor engine's pool guarantees.
fn engine_fault() -> (r: Diagnostics)
    ensures
        fault_views(r@) == seq![
            (DiagnosticKind::DependencyFault, None::<Seq<char>>, "the descriptor engine's pool repeats a name or leaves one unresolved"@),
        ],
{
    let r = Diagnostics::one(Diagnostic::new(
        DiagnosticKind::DependencyFault,
        Locus::whole(),
        "the descriptor engine's pool repeats a name or leaves one unresolved",
    ));
    proof {
        assert(fault_views(r@) =~= seq![fault_view(r@[0])]);
    }
    r
}

/// Ingest a descriptor pool as the engine reports it into a de-sugared schema, `subjects` naming
/// the subject files.
///
/// The pool's shapes are read as [`read_shapes`] reads them. Shapes that repeat a file name or an
/// element path, or whose names do not resolve within the pool, break what a descriptor engine
/// guarantees and are refused with one `DependencyFault`; otherwise the schema is assembled from
/// them, refused exactly when the walk stops. In an ingested schema each message carries the
/// recursion mark exactly when it lies on a containment cycle; nothing it names dangles — every
/// referent of a message's fields is one of its messages or enums and every lexical parent one of
/// its messages, whose path the nested one's extends; every message's and enum's file is one of
/// its files; and its messages and its enums each come strictly ascending by path.
pub fn ingest_pool(read: PoolRead, subjects: &Subjects) -> (r: Result<Schema, Diagnostics>)
    ensures
        exists|p: PoolShape, ms: Seq<Result<Message, Diagnostics>>, es: Seq<Result<Enum, Diagnostics>>| {
            &&& #[trigger] read_from(p, ms, es)
            &&& p.files@.len() == read.files@.len()
            &&& forall|f: int| 0 <= f < p.files@.len() ==> (#[trigger] p.files@[f]).name@ == read.files@[f].name@
            &&& if pool_ok(p) && pool_resolves(p) {
                r is Ok <==> !fails(p, *subjects)
            } else {
                r matches Err(d) && fault_views(d@) == seq![
                    (DiagnosticKind::DependencyFault, None::<Seq<char>>, "the descriptor engine's pool repeats a name or leaves one unresolved"@),
                ]
            }
        },
        r matches Ok(schema) ==> marks_cycles(schema.spec_messages()),
        r matches Ok(schema) ==> names_closed(schema.spec_messages(), schema.spec_enums()),
        r matches Ok(schema) ==> paths_ascending(schema.spec_messages()),
        r matches Ok(schema) ==> enum_paths_ascending(schema.spec_enums()),
        r matches Ok(schema) ==> files_listed(schema.spec_messages(), schema.spec_enums(), schema.spec_files()),
        r matches Ok(schema) ==> forall|k: int|
            #![trigger schema.spec_enums()[k]]
            0 <= k < schema.spec_enums().len() ==> exists|f: int|
                0 <= f < read.files@.len() && #[trigger] read.files@[f].name@ == schema.spec_enums()[k].spec_file()
                    && schema.spec_enums()[k].spec_openness() == syntax_openness(read.files@[f].version),
{
    let (pool, messages, enums) = read_shapes(read);
    let ghost ms = messages@;
    let ghost es = enums@;
    if !pool_is_ok(&pool) || !resolves(&pool) {
        let d = engine_fault();
        proof {
            assert(read_from(pool, ms, es));
        }
        return Err(d);
    }
    let r = build_schema(&pool, subjects, messages, enums);
    proof {
        assert(read_from(pool, ms, es));
        if r is Ok {
            let schema = r->Ok_0;
            assert forall|k: int| #![trigger schema.spec_enums()[k]] 0 <= k < schema.spec_enums().len() implies exists|f: int|
                0 <= f < read.files@.len() && #[trigger] read.files@[f].name@ == schema.spec_enums()[k].spec_file()
                    && schema.spec_enums()[k].spec_openness() == syntax_openness(read.files@[f].version) by {
                let j = choose|j: int| 0 <= j < es.len() && #[trigger] es[j] == Ok::<Enum, Diagnostics>(schema.spec_enums()[k]);
                let f = pool.enums@[j].file as int;
                assert(es[j] is Ok);
                assert(read.files@[f].name@ == schema.spec_enums()[k].spec_file());
            }
        }
    }
    r
}

} // verus!
