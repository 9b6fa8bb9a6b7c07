//! The schema walk's plan. The schema is assembled from a descriptor set in two passes: the
//! subject files' messages (map-entry synthetics aside) and enums, then the referent closure —
//! every message or enum a taken message's field names, transitively, and the lexical parent of
//! any element the closure pulls in — each element's file taken too. The plan is what the two
//! passes take; a walk stops at the first element that does not build or file whose package is
//! not one. The pool is read as plain shapes: each file's name, package, and declared elements,
//! each element's path, file, whether it builds, and what it names.
use vstd::prelude::*;

use crate::descriptor::desugar::{is_dependency_file, is_dependency_view};
use crate::descriptor::model::{parse_package, problem_detail, Package};
use crate::diagnostics::{fault_view, fault_views, Diagnostic, DiagnosticKind, Diagnostics, Locus};
use crate::diff::index::{text_find, text_get, text_has, text_sorted, text_upsert};
use crate::text::{chars_of, str_eq};

verus! {

broadcast use vstd::string::group_string_axioms;

/// Which files of the set are subjects.
#[derive(Clone, Debug, PartialEq, Eq)]
pub enum Subjects {
    /// Every file but a well-known-type or option-registry file.
    NotDependencies,
    /// Exactly the files of these names.
    Named(Vec<String>),
}

/// A file of the pool: its name, its package, and the messages (nested ones included, in the
/// walk's order) and enums it declares, by position in the pool.
#[derive(Clone, Debug, PartialEq, Eq)]
pub struct FileShape {
    /// The file's name.
    pub name: String,
    /// The file's package text.
    pub package: String,
    /// The messages it declares.
    pub messages: Vec<usize>,
    /// The enums it declares.
    pub enums: Vec<usize>,
}

/// A message of the pool: its path, its file, whether it is a map-entry synthetic, whether it
/// builds, the referents its built fields name, and its lexical parent.
#[derive(Clone, Debug, PartialEq, Eq)]
pub struct MessageShape {
    /// The fully-qualified path.
    pub path: String,
    /// The declaring file, by position.
    pub file: usize,
    /// Whether it is a map-entry synthetic.
    pub map_entry: bool,
    /// Whether it builds.
    pub builds: bool,
    /// The paths its fields name.
    pub referents: Vec<String>,
    /// Its lexical parent's path.
    pub outer: Option<String>,
}

/// An enum of the pool: its path, its file, whether it builds, and its lexical parent.
#[derive(Clone, Debug, PartialEq, Eq)]
pub struct EnumShape {
    /// The fully-qualified path.
    pub path: String,
    /// The declaring file, by position.
    pub file: usize,
    /// Whether it builds.
    pub builds: bool,
    /// Its lexical parent's path.
    pub outer: Option<String>,
}

/// The pool as the walk reads it.
#[derive(Clone, Debug, PartialEq, Eq)]
pub struct PoolShape {
    /// The files, in the pool's order.
    pub files: Vec<FileShape>,
    /// The messages.
    pub messages: Vec<MessageShape>,
    /// The enums.
    pub enums: Vec<EnumShape>,
}

/// What the walk takes: files, messages, and enums, by position.
#[derive(Clone, Debug, PartialEq, Eq)]
pub struct Plan {
    /// The files taken.
    pub files: Vec<usize>,
    /// The messages taken.
    pub messages: Vec<usize>,
    /// The enums taken.
    pub enums: Vec<usize>,
}

/// Where a walk stopped.
#[derive(Debug)]
pub enum Stop {
    /// A taken file's package is not one: the refusal at the file.
    Package(usize, Diagnostics),
    /// A taken message does not build.
    Message(usize),
    /// A taken enum does not build.
    Enum(usize),
}

// ---------------------------------------------------------------------------------------------
// The plan, as mathematics.
// ---------------------------------------------------------------------------------------------

/// Whether the file named `name` is a subject.
pub open spec fn is_subject_view(s: Subjects, name: Seq<char>) -> bool {
    match s {
        Subjects::NotDependencies => !is_dependency_view(name),
        Subjects::Named(v) => exists|k: int| 0 <= k < v@.len() && (#[trigger] v@[k])@ == name,
    }
}

/// Whether the pool's positions lie inside it and its names are distinct: no two files share a
/// name, no two messages a path, no two enums a path.
pub open spec fn pool_ok(p: PoolShape) -> bool {
    &&& forall|f: int, k: int|
        0 <= f < p.files@.len() && 0 <= k < p.files@[f].messages@.len() ==> (#[trigger] p.files@[f].messages@[k])
            < p.messages@.len()
    &&& forall|f: int, k: int|
        0 <= f < p.files@.len() && 0 <= k < p.files@[f].enums@.len() ==> (#[trigger] p.files@[f].enums@[k])
            < p.enums@.len()
    &&& forall|i: int| 0 <= i < p.messages@.len() ==> (#[trigger] p.messages@[i]).file < p.files@.len()
    &&& forall|j: int| 0 <= j < p.enums@.len() ==> (#[trigger] p.enums@[j]).file < p.files@.len()
    &&& forall|a: int, b: int|
        0 <= a < b < p.messages@.len() ==> (#[trigger] p.messages@[a]).path@ != (#[trigger] p.messages@[b]).path@
    &&& forall|a: int, b: int|
        0 <= a < b < p.enums@.len() ==> (#[trigger] p.enums@[a]).path@ != (#[trigger] p.enums@[b]).path@
    &&& forall|a: int, b: int|
        0 <= a < b < p.files@.len() ==> (#[trigger] p.files@[a]).name@ != (#[trigger] p.files@[b]).name@
    &&& forall|f: int| 0 <= f < p.files@.len() ==> (#[trigger] p.files@[f]).package@.len() < usize::MAX
    &&& forall|a: int, b: int|
        0 <= a < p.messages@.len() && 0 <= b < p.enums@.len() ==> (#[trigger] p.messages@[a]).path@
            != (#[trigger] p.enums@[b]).path@
    &&& forall|f: int, k: int|
        0 <= f < p.files@.len() && 0 <= k < p.files@[f].messages@.len() ==> p.messages@[(#[trigger] p.files@[f].messages@[k]) as int].file == f
    &&& forall|f: int, k: int|
        0 <= f < p.files@.len() && 0 <= k < p.files@[f].enums@.len() ==> p.enums@[(#[trigger] p.files@[f].enums@[k]) as int].file == f
    &&& forall|f: int| 0 <= f < p.files@.len() ==> (#[trigger] p.files@[f]).messages@.no_duplicates()
    &&& forall|f: int| 0 <= f < p.files@.len() ==> (#[trigger] p.files@[f]).enums@.no_duplicates()
}

/// The message of the pool at path `r`, if any.
pub open spec fn message_at(p: PoolShape, r: Seq<char>) -> Option<int> {
    if exists|i: int| 0 <= i < p.messages@.len() && (#[trigger] p.messages@[i]).path@ == r {
        Some(choose|i: int| 0 <= i < p.messages@.len() && (#[trigger] p.messages@[i]).path@ == r)
    } else {
        None
    }
}

/// The enum of the pool at path `r`, if any.
pub open spec fn enum_at(p: PoolShape, r: Seq<char>) -> Option<int> {
    if exists|j: int| 0 <= j < p.enums@.len() && (#[trigger] p.enums@[j]).path@ == r {
        Some(choose|j: int| 0 <= j < p.enums@.len() && (#[trigger] p.enums@[j]).path@ == r)
    } else {
        None
    }
}

/// Whether message `i` is a subject: declared by a subject file, and no map-entry synthetic.
pub open spec fn seed_message(p: PoolShape, s: Subjects, i: int) -> bool {
    &&& exists|f: int, k: int|
        0 <= f < p.files@.len() && is_subject_view(s, p.files@[f].name@) && 0 <= k
            < p.files@[f].messages@.len() && #[trigger] p.files@[f].messages@[k] == i
    &&& !p.messages@[i].map_entry
}

/// Whether enum `j` is a subject: declared by a subject file.
pub open spec fn seed_enum(p: PoolShape, s: Subjects, j: int) -> bool {
    exists|f: int, k: int|
        0 <= f < p.files@.len() && is_subject_view(s, p.files@[f].name@) && 0 <= k < p.files@[f].enums@.len()
            && #[trigger] p.files@[f].enums@[k] == j
}

/// Whether the element at path `r` lies in the sets: a message unless it is a map-entry
/// synthetic, else an enum, else nothing to take.
pub open spec fn lands(p: PoolShape, r: Seq<char>, ms: Set<int>, es: Set<int>) -> bool {
    match message_at(p, r) {
        Some(i) => p.messages@[i].map_entry || ms.contains(i),
        None => match enum_at(p, r) {
            Some(j) => es.contains(j),
            None => true,
        },
    }
}

/// Whether a set of messages and of enums is closed: it holds the subjects, each message's
/// referents, and — for an element the closure pulled in — its lexical parent.
pub open spec fn closed(p: PoolShape, s: Subjects, ms: Set<int>, es: Set<int>) -> bool {
    &&& forall|i: int| ms.contains(i) ==> 0 <= i < p.messages@.len() && !p.messages@[i].map_entry
    &&& forall|j: int| es.contains(j) ==> 0 <= j < p.enums@.len()
    &&& forall|i: int| 0 <= i < p.messages@.len() && seed_message(p, s, i) ==> ms.contains(i)
    &&& forall|j: int| 0 <= j < p.enums@.len() && seed_enum(p, s, j) ==> es.contains(j)
    &&& forall|i: int, k: int|
        ms.contains(i) && 0 <= k < p.messages@[i].referents@.len() ==> lands(
            p,
            (#[trigger] p.messages@[i].referents@[k])@,
            ms,
            es,
        )
    &&& forall|i: int|
        #![trigger ms.contains(i)]
        ms.contains(i) && !seed_message(p, s, i) ==> match p.messages@[i].outer {
            Some(o) => lands(p, o@, ms, es),
            None => true,
        }
    &&& forall|j: int|
        #![trigger es.contains(j)]
        es.contains(j) && !seed_enum(p, s, j) ==> match p.enums@[j].outer {
            Some(o) => lands(p, o@, ms, es),
            None => true,
        }
}

/// Whether message `i` is reached: every closed set holds it.
pub open spec fn reached_message(p: PoolShape, s: Subjects, i: int) -> bool {
    forall|ms: Set<int>, es: Set<int>| #[trigger] closed(p, s, ms, es) ==> ms.contains(i)
}

/// Whether enum `j` is reached: every closed set holds it.
pub open spec fn reached_enum(p: PoolShape, s: Subjects, j: int) -> bool {
    forall|ms: Set<int>, es: Set<int>| #[trigger] closed(p, s, ms, es) ==> es.contains(j)
}

/// Whether file `f` is taken: a subject, or the file of a reached element.
pub open spec fn needed_file(p: PoolShape, s: Subjects, f: int) -> bool {
    ||| is_subject_view(s, p.files@[f].name@)
    ||| exists|i: int| 0 <= i < p.messages@.len() && reached_message(p, s, i) && #[trigger] p.messages@[i].file == f
    ||| exists|j: int| 0 <= j < p.enums@.len() && reached_enum(p, s, j) && #[trigger] p.enums@[j].file == f
}

/// Whether the walk meets a failure: a reached element that does not build, or a taken file
/// whose package is not one.
pub open spec fn fails(p: PoolShape, s: Subjects) -> bool {
    ||| exists|i: int| 0 <= i < p.messages@.len() && reached_message(p, s, i) && !(#[trigger] p.messages@[i]).builds
    ||| exists|j: int| 0 <= j < p.enums@.len() && reached_enum(p, s, j) && !(#[trigger] p.enums@[j]).builds
    ||| exists|f: int| 0 <= f < p.files@.len() && needed_file(p, s, f) && parse_package((#[trigger] p.files@[f]).package@) is Err
}

/// Whether a stop names a failure the walk meets: a taken file's package refusal (its
/// diagnostic at the file), or a reached element that does not build.
pub open spec fn stop_ok(p: PoolShape, s: Subjects, stop: Stop) -> bool {
    match stop {
        Stop::Package(f, d) => 0 <= f < p.files@.len() && needed_file(p, s, f as int) && match parse_package(
            p.files@[f as int].package@,
        ) {
            Err(problem) => fault_views(d@) == seq![
                (DiagnosticKind::MalformedDescriptor, Some(p.files@[f as int].name@), problem_detail(problem)),
            ],
            Ok(_) => false,
        },
        Stop::Message(i) => 0 <= i < p.messages@.len() && reached_message(p, s, i as int)
            && !p.messages@[i as int].builds,
        Stop::Enum(j) => 0 <= j < p.enums@.len() && reached_enum(p, s, j as int) && !p.enums@[j as int].builds,
    }
}

/// Whether file `f` is clean: its package is one, and its messages (map-entry synthetics aside)
/// and its enums all build.
pub open spec fn clean_file(p: PoolShape, f: int) -> bool {
    &&& parse_package(p.files@[f].package@) is Ok
    &&& forall|k: int|
        0 <= k < p.files@[f].messages@.len() ==> p.messages@[(#[trigger] p.files@[f].messages@[k]) as int].map_entry
            || p.messages@[p.files@[f].messages@[k] as int].builds
    &&& forall|k: int| 0 <= k < p.files@[f].enums@.len() ==> p.enums@[(#[trigger] p.files@[f].enums@[k]) as int].builds
}

/// Whether `f` is the first subject file, in the pool's order, that is not clean.
pub open spec fn first_unclean(p: PoolShape, s: Subjects, f: int) -> bool {
    &&& 0 <= f < p.files@.len()
    &&& is_subject_view(s, p.files@[f].name@)
    &&& !clean_file(p, f)
    &&& forall|g: int| 0 <= g < f && is_subject_view(s, p.files@[g].name@) ==> clean_file(p, g)
}

/// Whether a stop is the first failure met in file `f`: its package; else its first message, in
/// the file's order and map-entry synthetics aside, that does not build; else its first enum that
/// does not build.
pub open spec fn first_in_file(p: PoolShape, f: int, stop: Stop) -> bool {
    match stop {
        Stop::Package(g, _) => g == f && parse_package(p.files@[f].package@) is Err,
        Stop::Message(i) => {
            &&& parse_package(p.files@[f].package@) is Ok
            &&& exists|k: int|
                0 <= k < p.files@[f].messages@.len() && #[trigger] p.files@[f].messages@[k] == i
                    && !p.messages@[i as int].map_entry && !p.messages@[i as int].builds && forall|t: int|
                    0 <= t < k ==> p.messages@[(#[trigger] p.files@[f].messages@[t]) as int].map_entry
                        || p.messages@[p.files@[f].messages@[t] as int].builds
        },
        Stop::Enum(j) => {
            &&& parse_package(p.files@[f].package@) is Ok
            &&& forall|k: int|
                0 <= k < p.files@[f].messages@.len() ==> p.messages@[(#[trigger] p.files@[f].messages@[k]) as int].map_entry
                    || p.messages@[p.files@[f].messages@[k] as int].builds
            &&& exists|k: int|
                0 <= k < p.files@[f].enums@.len() && #[trigger] p.files@[f].enums@[k] == j && !p.enums@[j as int].builds
                    && forall|t: int| 0 <= t < k ==> p.enums@[(#[trigger] p.files@[f].enums@[t]) as int].builds
        },
    }
}

/// Whether a stop is the walk's first wherever pass one decides it: when some subject file is not
/// clean, the stop is the first failure met in the first such file.
pub open spec fn first_stop(p: PoolShape, s: Subjects, stop: Stop) -> bool {
    forall|f: int| #[trigger] first_unclean(p, s, f) ==> first_in_file(p, f, stop)
}

/// Whether every subject file is clean.
#[verifier::opaque]
pub open spec fn subjects_clean(p: PoolShape, s: Subjects) -> bool {
    forall|g: int| 0 <= g < p.files@.len() && is_subject_view(s, p.files@[g].name@) ==> clean_file(p, g)
}

/// When every subject file is clean, any stop is first as pass one decides it.
proof fn lemma_first_stop_clean(p: PoolShape, s: Subjects, stop: Stop)
    requires
        subjects_clean(p, s),
    ensures
        first_stop(p, s, stop),
{
    reveal(subjects_clean);
}

/// A first failure in the first unclean subject file is the walk's first stop.
proof fn lemma_first_stop_in(p: PoolShape, s: Subjects, f: int, stop: Stop)
    requires
        0 <= f < p.files@.len(),
        is_subject_view(s, p.files@[f].name@),
        forall|g: int| 0 <= g < f && is_subject_view(s, p.files@[g].name@) ==> clean_file(p, g),
        first_in_file(p, f, stop),
    ensures
        first_stop(p, s, stop),
{
    assert(!clean_file(p, f)) by {
        match stop {
            Stop::Package(_, _) => {},
            Stop::Message(i) => {
                let k = choose|k: int|
                    0 <= k < p.files@[f].messages@.len() && #[trigger] p.files@[f].messages@[k] == i
                        && !p.messages@[i as int].map_entry && !p.messages@[i as int].builds && forall|t: int|
                        0 <= t < k ==> p.messages@[(#[trigger] p.files@[f].messages@[t]) as int].map_entry
                            || p.messages@[p.files@[f].messages@[t] as int].builds;
            },
            Stop::Enum(j) => {
                let k = choose|k: int|
                    0 <= k < p.files@[f].enums@.len() && #[trigger] p.files@[f].enums@[k] == j && !p.enums@[j as int].builds
                        && forall|t: int| 0 <= t < k ==> p.enums@[(#[trigger] p.files@[f].enums@[t]) as int].builds;
            },
        }
    }
    assert forall|g: int| #[trigger] first_unclean(p, s, g) implies first_in_file(p, g, stop) by {
        if g < f {
        } else if g > f {
            assert(clean_file(p, f));
        }
    }
}

/// Whether a plan is the walk's: its messages are the reached messages, its enums the reached
/// enums, its files the taken files, each once.
pub open spec fn plans(p: PoolShape, s: Subjects, plan: Plan) -> bool {
    &&& plan.messages@.no_duplicates()
    &&& plan.enums@.no_duplicates()
    &&& plan.files@.no_duplicates()
    &&& forall|i: int| 0 <= i < p.messages@.len() ==> (held(plan.messages@).contains(i) <==> reached_message(p, s, i))
    &&& forall|j: int| 0 <= j < p.enums@.len() ==> (held(plan.enums@).contains(j) <==> reached_enum(p, s, j))
    &&& forall|f: int| 0 <= f < p.files@.len() ==> (held(plan.files@).contains(f) <==> needed_file(p, s, f))
    &&& forall|k: int| 0 <= k < plan.messages@.len() ==> plan.messages@[k] < p.messages@.len()
    &&& forall|k: int| 0 <= k < plan.enums@.len() ==> plan.enums@[k] < p.enums@.len()
    &&& forall|k: int| 0 <= k < plan.files@.len() ==> plan.files@[k] < p.files@.len()
}

// ---------------------------------------------------------------------------------------------
// The walk's state.
// ---------------------------------------------------------------------------------------------

/// The positions a list holds, as a set.
pub open spec fn held(v: Seq<usize>) -> Set<int> {
    Set::new(|i: int| exists|k: int| 0 <= k < v.len() && v[k] as int == i)
}

/// A list with one more position holds one more.
proof fn lemma_held_push(v: Seq<usize>, x: usize)
    ensures
        held(v.push(x)) == held(v).insert(x as int),
{
    assert forall|i: int| held(v.push(x)).contains(i) <==> held(v).insert(x as int).contains(i) by {
        if held(v.push(x)).contains(i) {
            let k = choose|k: int| 0 <= k < v.push(x).len() && v.push(x)[k] as int == i;
            if k < v.len() {
                assert(v[k] as int == i);
            }
        }
        if held(v).contains(i) {
            let k = choose|k: int| 0 <= k < v.len() && v[k] as int == i;
            assert(v.push(x)[k] as int == i);
        }
        if i == x as int {
            assert(v.push(x)[v.len() as int] as int == i);
        }
    }
    assert(held(v.push(x)) =~= held(v).insert(x as int));
}

/// Whether the sets are below every closed set.
pub open spec fn least(p: PoolShape, s: Subjects, ms: Set<int>, es: Set<int>) -> bool {
    forall|cm: Set<int>, ce: Set<int>|
        #[trigger] closed(p, s, cm, ce) ==> ms.subset_of(cm) && es.subset_of(ce)
}

/// Whether the taken elements are the pool's, messages no map-entry synthetics, and every one
/// builds.
pub open spec fn taken_ok(p: PoolShape, ms: Set<int>, es: Set<int>) -> bool {
    &&& forall|i: int| ms.contains(i) ==> 0 <= i < p.messages@.len() && !p.messages@[i].map_entry
        && p.messages@[i].builds
    &&& forall|j: int| es.contains(j) ==> 0 <= j < p.enums@.len() && p.enums@[j].builds
}

/// Whether file `f` is a subject or declares a taken element.
pub open spec fn touched(p: PoolShape, s: Subjects, ms: Set<int>, es: Set<int>, f: int) -> bool {
    ||| is_subject_view(s, p.files@[f].name@)
    ||| exists|i: int| ms.contains(i) && #[trigger] p.messages@[i].file == f
    ||| exists|j: int| es.contains(j) && #[trigger] p.enums@[j].file == f
}

/// Whether the taken files are the seen ones, each a file of the pool whose package is one.
pub open spec fn files_ok(p: PoolShape, seen: Seq<(Vec<char>, usize)>, fs: Set<int>) -> bool {
    &&& text_sorted(seen)
    &&& forall|f: int| fs.contains(f) ==> 0 <= f < p.files@.len() && parse_package(p.files@[f].package@) is Ok
    &&& forall|f: int| 0 <= f < p.files@.len() ==> (fs.contains(f) <==> text_has(seen, p.files@[f].name@))
    &&& forall|r: Seq<char>| #[trigger] text_has(seen, r) ==> exists|f: int| 0 <= f < p.files@.len() && fs.contains(f) && p.files@[f].name@ == r
}

/// A file's name finds that file.
proof fn lemma_file_named(p: PoolShape, f: int, g: int)
    requires
        pool_ok(p),
        0 <= f < p.files@.len(),
        0 <= g < p.files@.len(),
        p.files@[f].name@ == p.files@[g].name@,
    ensures
        f == g,
{
    if f < g {
        assert(p.files@[f].name@ != p.files@[g].name@);
    } else if g < f {
        assert(p.files@[g].name@ != p.files@[f].name@);
    }
}

/// Take file `f` unless it is taken: its package must be one.
fn take_file(
    pool: &PoolShape,
    f: usize,
    seen: &mut Vec<(Vec<char>, usize)>,
    files: &mut Vec<usize>,
) -> (r: Result<(), Stop>)
    requires
        pool_ok(*pool),
        f < pool.files@.len(),
        files_ok(*pool, old(seen)@, held(old(files)@)),
        old(files)@.no_duplicates(),
    ensures
        r is Ok ==> files_ok(*pool, final(seen)@, held(final(files)@).insert(f as int)) && held(final(files)@) == held(
            old(files)@,
        ).insert(f as int) && final(files)@.no_duplicates(),
        r is Ok <==> parse_package(pool.files@[f as int].package@) is Ok || held(old(files)@).contains(f as int),
        r matches Err(stop) ==> (stop matches Stop::Package(g, d) && g == f && match parse_package(
            pool.files@[f as int].package@,
        ) {
            Err(problem) => fault_views(d@) == seq![
                (DiagnosticKind::MalformedDescriptor, Some(pool.files@[f as int].name@), problem_detail(problem)),
            ],
            Ok(_) => false,
        }),
{
    let file = &pool.files[f];
    let name = chars_of(file.name.as_str());
    if text_get(seen, name.as_slice()).is_some() {
        proof {
            assert(text_has(old(seen)@, file.name@));
            assert(held(files@).contains(f as int));
            assert(held(files@).insert(f as int) =~= held(files@));
        }
        return Ok(());
    }
    proof {
        assert(!held(files@).contains(f as int));
    }
    let ghost before = seen@;
    text_upsert(seen, name, f);
    match Package::parse(file.package.as_str()) {
        Ok(_) => {},
        Err(problem) => {
            let detail = problem.detail();
            let d = Diagnostics::one(Diagnostic::composed(DiagnosticKind::MalformedDescriptor, Locus::at(file.name.as_str()), detail));
            proof {
                assert(fault_views(d@) =~= seq![fault_view(d@[0])]);
            }
            return Err(Stop::Package(f, d));
        },
    }
    let ghost old_files = files@;
    files.push(f);
    proof {
        lemma_held_push(old_files, f);
        assert forall|a: int, b: int| 0 <= a < b < files@.len() implies files@[a] != files@[b] by {
            if b == files@.len() - 1 {
                if files@[a] == f {
                    assert(held(old_files).contains(f as int));
                }
            }
        }
        let fs = held(files@);
        assert forall|g: int| 0 <= g < pool.files@.len() implies (fs.contains(g) <==> text_has(seen@, pool.files@[g].name@)) by {
            assert(text_find(seen@, pool.files@[g].name@) == if pool.files@[g].name@ == file.name@ {
                Some(f)
            } else {
                text_find(before, pool.files@[g].name@)
            });
            if pool.files@[g].name@ == file.name@ {
                lemma_file_named(*pool, g, f as int);
            }
        }
        assert forall|r: Seq<char>| #[trigger] text_has(seen@, r) implies exists|g: int|
            0 <= g < pool.files@.len() && fs.contains(g) && pool.files@[g].name@ == r by {
            assert(text_find(seen@, r) == if r == file.name@ {
                Some(f)
            } else {
                text_find(before, r)
            });
            if r != file.name@ {
                assert(text_has(before, r));
                let g = choose|g: int| 0 <= g < pool.files@.len() && held(old_files).contains(g) && pool.files@[g].name@ == r;
                assert(fs.contains(g));
            } else {
                assert(fs.contains(f as int));
            }
        }
        assert(fs.insert(f as int) =~= fs);
    }
    Ok(())
}

/// A position, when there is one, as an integer.
pub open spec fn opt_int(o: Option<usize>) -> Option<int> {
    match o {
        Some(x) => Some(x as int),
        None => None,
    }
}

/// A message's path finds that message.
proof fn lemma_message_at(p: PoolShape, i: int)
    requires
        pool_ok(p),
        0 <= i < p.messages@.len(),
    ensures
        message_at(p, p.messages@[i].path@) == Some(i),
        enum_at(p, p.messages@[i].path@) is None,
{
    let r = p.messages@[i].path@;
    let c = choose|c: int| 0 <= c < p.messages@.len() && (#[trigger] p.messages@[c]).path@ == r;
    if c < i {
        assert(p.messages@[c].path@ != p.messages@[i].path@);
    } else if i < c {
        assert(p.messages@[i].path@ != p.messages@[c].path@);
    }
    if exists|j: int| 0 <= j < p.enums@.len() && (#[trigger] p.enums@[j]).path@ == r {
        let j = choose|j: int| 0 <= j < p.enums@.len() && (#[trigger] p.enums@[j]).path@ == r;
        assert(p.messages@[i].path@ != p.enums@[j].path@);
    }
}

/// An enum's path finds that enum, and no message.
proof fn lemma_enum_at(p: PoolShape, j: int)
    requires
        pool_ok(p),
        0 <= j < p.enums@.len(),
    ensures
        enum_at(p, p.enums@[j].path@) == Some(j),
        message_at(p, p.enums@[j].path@) is None,
{
    let r = p.enums@[j].path@;
    let c = choose|c: int| 0 <= c < p.enums@.len() && (#[trigger] p.enums@[c]).path@ == r;
    if c < j {
        assert(p.enums@[c].path@ != p.enums@[j].path@);
    } else if j < c {
        assert(p.enums@[j].path@ != p.enums@[c].path@);
    }
    if exists|i: int| 0 <= i < p.messages@.len() && (#[trigger] p.messages@[i]).path@ == r {
        let i = choose|i: int| 0 <= i < p.messages@.len() && (#[trigger] p.messages@[i]).path@ == r;
        assert(p.messages@[i].path@ != p.enums@[j].path@);
    }
}

/// The pool's messages by path.
fn index_messages(pool: &PoolShape) -> (r: Vec<(Vec<char>, usize)>)
    requires
        pool_ok(*pool),
    ensures
        text_sorted(r@),
        forall|q: Seq<char>| #[trigger] opt_int(text_find(r@, q)) == message_at(*pool, q),
{
    let mut idx: Vec<(Vec<char>, usize)> = Vec::new();
    let mut i: usize = 0;
    while i < pool.messages.len()
        invariant
            i <= pool.messages@.len(),
            pool_ok(*pool),
            text_sorted(idx@),
            forall|q: Seq<char>| #[trigger] text_find(idx@, q) matches Some(k) ==> k < i && pool.messages@[k as int].path@ == q,
            forall|k: int| 0 <= k < i ==> text_has(idx@, (#[trigger] pool.messages@[k]).path@),
        decreases pool.messages@.len() - i,
    {
        let ghost before = idx@;
        let key = chars_of(pool.messages[i].path.as_str());
        text_upsert(&mut idx, key, i);
        proof {
            assert forall|k: int| 0 <= k < i + 1 implies text_has(idx@, (#[trigger] pool.messages@[k]).path@) by {
                if text_find(idx@, pool.messages@[k].path@) is None {
                    if k < i {
                        assert(text_has(before, pool.messages@[k].path@));
                    }
                }
            }
        }
        i = i + 1;
    }
    proof {
        assert forall|q: Seq<char>| #[trigger] opt_int(text_find(idx@, q)) == message_at(*pool, q) by {
            if let Some(k) = text_find(idx@, q) {
                lemma_message_at(*pool, k as int);
            } else {
                if exists|c: int| 0 <= c < pool.messages@.len() && (#[trigger] pool.messages@[c]).path@ == q {
                    let c = choose|c: int| 0 <= c < pool.messages@.len() && (#[trigger] pool.messages@[c]).path@ == q;
                    assert(text_has(idx@, pool.messages@[c].path@));
                }
            }
        }
    }
    idx
}

/// The pool's enums by path.
fn index_enums(pool: &PoolShape) -> (r: Vec<(Vec<char>, usize)>)
    requires
        pool_ok(*pool),
    ensures
        text_sorted(r@),
        forall|q: Seq<char>| #[trigger] opt_int(text_find(r@, q)) == enum_at(*pool, q),
{
    let mut idx: Vec<(Vec<char>, usize)> = Vec::new();
    let mut j: usize = 0;
    while j < pool.enums.len()
        invariant
            j <= pool.enums@.len(),
            pool_ok(*pool),
            text_sorted(idx@),
            forall|q: Seq<char>| #[trigger] text_find(idx@, q) matches Some(k) ==> k < j && pool.enums@[k as int].path@ == q,
            forall|k: int| 0 <= k < j ==> text_has(idx@, (#[trigger] pool.enums@[k]).path@),
        decreases pool.enums@.len() - j,
    {
        let ghost before = idx@;
        let key = chars_of(pool.enums[j].path.as_str());
        text_upsert(&mut idx, key, j);
        proof {
            assert forall|k: int| 0 <= k < j + 1 implies text_has(idx@, (#[trigger] pool.enums@[k]).path@) by {
                if text_find(idx@, pool.enums@[k].path@) is None {
                    if k < j {
                        assert(text_has(before, pool.enums@[k].path@));
                    }
                }
            }
        }
        j = j + 1;
    }
    proof {
        assert forall|q: Seq<char>| #[trigger] opt_int(text_find(idx@, q)) == enum_at(*pool, q) by {
            if let Some(k) = text_find(idx@, q) {
                lemma_enum_at(*pool, k as int);
            } else {
                if exists|c: int| 0 <= c < pool.enums@.len() && (#[trigger] pool.enums@[c]).path@ == q {
                    let c = choose|c: int| 0 <= c < pool.enums@.len() && (#[trigger] pool.enums@[c]).path@ == q;
                    assert(text_has(idx@, pool.enums@[c].path@));
                }
            }
        }
    }
    idx
}

/// A name listed among the named subjects is a subject.
proof fn lemma_named(s: Subjects, v: Vec<String>, t: int, name: Seq<char>)
    requires
        s == Subjects::Named(v),
        0 <= t < v@.len(),
        v@[t]@ == name,
    ensures
        is_subject_view(s, name),
{
    assert(s->Named_0 == v);
    assert(exists|k: int| 0 <= k < v@.len() && (#[trigger] v@[k])@ == name);
    assert(exists|k: int| 0 <= k < s->Named_0@.len() && (#[trigger] s->Named_0@[k])@ == name);
}

/// Whether the file named `name` is a subject.
pub fn is_subject(subjects: &Subjects, name: &str) -> (r: bool)
    ensures
        r == is_subject_view(*subjects, name@),
{
    match subjects {
        Subjects::NotDependencies => !is_dependency_file(name),
        Subjects::Named(names) => {
            let mut k: usize = 0;
            while k < names.len()
                invariant
                    k <= names@.len(),
                    *subjects == Subjects::Named(*names),
                    forall|t: int| 0 <= t < k ==> (#[trigger] names@[t])@ != name@,
                decreases names@.len() - k,
            {
                if str_eq(names[k].as_str(), name) {
                    proof {
                        let t = k as int;
                        assert(0 <= t < names@.len() && (names@[t])@ == name@);
                        lemma_named(*subjects, *names, t, name@);
                    }
                    return true;
                }
                k = k + 1;
            }
            false
        },
    }
}

/// Whether message `i` is a subject: its own file is a subject that lists it, and it is no
/// map-entry synthetic.
proof fn lemma_seed_message(p: PoolShape, s: Subjects, i: int)
    requires
        pool_ok(p),
        0 <= i < p.messages@.len(),
    ensures
        seed_message(p, s, i) <==> (is_subject_view(s, p.files@[p.messages@[i].file as int].name@)
            && held(p.files@[p.messages@[i].file as int].messages@).contains(i) && !p.messages@[i].map_entry),
{
    let f = p.messages@[i].file as int;
    if seed_message(p, s, i) {
        let (g, k) = choose|g: int, k: int|
            0 <= g < p.files@.len() && is_subject_view(s, p.files@[g].name@) && 0 <= k
                < p.files@[g].messages@.len() && #[trigger] p.files@[g].messages@[k] == i;
        assert(p.messages@[p.files@[g].messages@[k] as int].file == g);
    }
    if held(p.files@[f].messages@).contains(i) && is_subject_view(s, p.files@[f].name@) {
        let k = choose|k: int| 0 <= k < p.files@[f].messages@.len() && p.files@[f].messages@[k] as int == i;
        assert(p.files@[f].messages@[k] == i);
    }
}

/// Whether enum `j` is a subject: its own file is a subject that lists it.
proof fn lemma_seed_enum(p: PoolShape, s: Subjects, j: int)
    requires
        pool_ok(p),
        0 <= j < p.enums@.len(),
    ensures
        seed_enum(p, s, j) <==> (is_subject_view(s, p.files@[p.enums@[j].file as int].name@)
            && held(p.files@[p.enums@[j].file as int].enums@).contains(j)),
{
    let f = p.enums@[j].file as int;
    if seed_enum(p, s, j) {
        let (g, k) = choose|g: int, k: int|
            0 <= g < p.files@.len() && is_subject_view(s, p.files@[g].name@) && 0 <= k < p.files@[g].enums@.len()
                && #[trigger] p.files@[g].enums@[k] == j;
        assert(p.enums@[p.files@[g].enums@[k] as int].file == g);
    }
    if held(p.files@[f].enums@).contains(j) && is_subject_view(s, p.files@[f].name@) {
        let k = choose|k: int| 0 <= k < p.files@[f].enums@.len() && p.files@[f].enums@[k] as int == j;
        assert(p.files@[f].enums@[k] == j);
    }
}

/// A subject is reached: every closed set holds it.
proof fn lemma_seed_reached(p: PoolShape, s: Subjects)
    ensures
        forall|i: int| 0 <= i < p.messages@.len() && seed_message(p, s, i) ==> reached_message(p, s, i),
        forall|j: int| 0 <= j < p.enums@.len() && seed_enum(p, s, j) ==> reached_enum(p, s, j),
{
}

/// What pass one leaves: the subjects' messages and enums taken, each once and each building,
/// and exactly the subject files.
pub open spec fn after_seeds(
    p: PoolShape,
    s: Subjects,
    seen: Seq<(Vec<char>, usize)>,
    pf: Seq<usize>,
    pm: Seq<usize>,
    pe: Seq<usize>,
) -> bool {
    &&& pm.no_duplicates()
    &&& pe.no_duplicates()
    &&& pf.no_duplicates()
    &&& taken_ok(p, held(pm), held(pe))
    &&& files_ok(p, seen, held(pf))
    &&& forall|i: int| 0 <= i < p.messages@.len() ==> (held(pm).contains(i) <==> seed_message(p, s, i))
    &&& forall|j: int| 0 <= j < p.enums@.len() ==> (held(pe).contains(j) <==> seed_enum(p, s, j))
    &&& forall|g: int| 0 <= g < p.files@.len() ==> (held(pf).contains(g) <==> is_subject_view(s, p.files@[g].name@))
}

/// A list with no repeats and one more fresh position has no repeats.
proof fn lemma_push_fresh(v: Seq<usize>, x: usize)
    requires
        v.no_duplicates(),
        !held(v).contains(x as int),
    ensures
        v.push(x).no_duplicates(),
{
    assert forall|a: int, b: int| 0 <= a < b < v.push(x).len() implies v.push(x)[a] != v.push(x)[b] by {
        if b == v.len() && v[a] == x {
            assert(held(v).contains(x as int));
        }
    }
}

/// The positions of a list's first `k + 1` entries are those of its first `k` and entry `k`.
proof fn lemma_held_take(v: Seq<usize>, k: int)
    requires
        0 <= k < v.len(),
    ensures
        held(v.take(k + 1)) == held(v.take(k)).insert(v[k] as int),
{
    assert(v.take(k + 1) =~= v.take(k).push(v[k]));
    lemma_held_push(v.take(k), v[k]);
}

/// The state of pass one before file `f`: the subjects of the files before it taken.
pub open spec fn seeds_before(
    p: PoolShape,
    s: Subjects,
    seen: Seq<(Vec<char>, usize)>,
    pf: Seq<usize>,
    pm: Seq<usize>,
    pe: Seq<usize>,
    f: int,
) -> bool {
    &&& pm.no_duplicates()
    &&& pe.no_duplicates()
    &&& pf.no_duplicates()
    &&& taken_ok(p, held(pm), held(pe))
    &&& files_ok(p, seen, held(pf))
    &&& forall|i: int| 0 <= i < p.messages@.len() ==> (held(pm).contains(i) <==> (seed_message(p, s, i)
        && p.messages@[i].file < f))
    &&& forall|j: int| 0 <= j < p.enums@.len() ==> (held(pe).contains(j) <==> (seed_enum(p, s, j)
        && p.enums@[j].file < f))
    &&& forall|g: int| 0 <= g < p.files@.len() ==> (held(pf).contains(g) <==> (g < f
        && is_subject_view(s, p.files@[g].name@)))
}

/// A file that is no subject adds no subject.
proof fn lemma_skip_file(
    p: PoolShape,
    s: Subjects,
    seen: Seq<(Vec<char>, usize)>,
    pf: Seq<usize>,
    pm: Seq<usize>,
    pe: Seq<usize>,
    f: int,
)
    requires
        pool_ok(p),
        0 <= f < p.files@.len(),
        !is_subject_view(s, p.files@[f].name@),
        seeds_before(p, s, seen, pf, pm, pe, f),
    ensures
        seeds_before(p, s, seen, pf, pm, pe, f + 1),
{
    assert forall|i: int| 0 <= i < p.messages@.len() implies (held(pm).contains(i) <==> (seed_message(p, s, i)
        && p.messages@[i].file < f + 1)) by {
        lemma_seed_message(p, s, i);
    }
    assert forall|j: int| 0 <= j < p.enums@.len() implies (held(pe).contains(j) <==> (seed_enum(p, s, j)
        && p.enums@[j].file < f + 1)) by {
        lemma_seed_enum(p, s, j);
    }
}

/// Pass one within subject file `f`: the subjects of the files before it, and those among the
/// file's first messages.
pub open spec fn seeds_so_far(p: PoolShape, s: Subjects, f: int, done: Seq<usize>, pm: Seq<usize>) -> bool {
    forall|i: int| 0 <= i < p.messages@.len() ==> (#[trigger] held(pm).contains(i) <==> ((seed_message(p, s, i)
        && p.messages@[i].file < f) || (held(done).contains(i) && !p.messages@[i].map_entry)))
}

/// One more of the file's messages: a map-entry synthetic leaves the taken list, any other is
/// pushed.
proof fn lemma_seed_step(p: PoolShape, s: Subjects, f: int, ms: Seq<usize>, k: int, pm0: Seq<usize>, pm1: Seq<usize>, i: usize)
    requires
        0 <= k < ms.len(),
        ms[k] == i,
        0 <= i < p.messages@.len(),
        p.messages@[i as int].file == f,
        seeds_so_far(p, s, f, ms.take(k), pm0),
        pm1 == if p.messages@[i as int].map_entry { pm0 } else { pm0.push(i) },
    ensures
        seeds_so_far(p, s, f, ms.take(k + 1), pm1),
{
    lemma_held_take(ms, k);
    lemma_held_push(pm0, i);
    assert forall|x: int| 0 <= x < p.messages@.len() implies (#[trigger] held(pm1).contains(x) <==> ((seed_message(p, s, x)
        && p.messages@[x].file < f) || (held(ms.take(k + 1)).contains(x) && !p.messages@[x].map_entry))) by {
        assert(held(pm0).contains(x) <==> ((seed_message(p, s, x) && p.messages@[x].file < f) || (held(ms.take(k)).contains(x)
            && !p.messages@[x].map_entry)));
        if x == i as int {
            assert(held(ms.take(k + 1)).contains(x));
            if p.messages@[x].map_entry {
                assert(!seed_message(p, s, x));
            }
        }
    }
}

/// Take subject file `f`: the file, its messages (map-entry synthetics aside), then its enums.
fn take_subject_file(
    pool: &PoolShape,
    subjects: &Subjects,
    f: usize,
    seen: &mut Vec<(Vec<char>, usize)>,
    pf: &mut Vec<usize>,
    pm: &mut Vec<usize>,
    pe: &mut Vec<usize>,
) -> (r: Result<(), Stop>)
    requires
        pool_ok(*pool),
        f < pool.files@.len(),
        is_subject_view(*subjects, pool.files@[f as int].name@),
        seeds_before(*pool, *subjects, old(seen)@, old(pf)@, old(pm)@, old(pe)@, f as int),
    ensures
        r is Ok ==> seeds_before(*pool, *subjects, final(seen)@, final(pf)@, final(pm)@, final(pe)@, f + 1),
        r is Ok ==> clean_file(*pool, f as int),
        r matches Err(stop) ==> stop_ok(*pool, *subjects, stop),
        r matches Err(stop) ==> first_in_file(*pool, f as int, stop),
{
    let ghost p = *pool;
    let ghost sj = *subjects;
    proof {
        lemma_seed_reached(p, sj);
        assert(!held(old(pf)@).contains(f as int));
    }
    let file = &pool.files[f];
    match take_file(pool, f, seen, pf) {
        Ok(()) => {},
        Err(stop) => {
            return Err(stop);
        },
    }
    proof {
        assert forall|g: int| 0 <= g < p.files@.len() implies (held(pf@).contains(g) <==> (g < f + 1
            && is_subject_view(sj, p.files@[g].name@))) by {
            if g == f as int {
                assert(held(pf@).contains(f as int));
            }
        }
        assert(held(pf@).insert(f as int) =~= held(pf@));
    }
    let ghost seen1 = seen@;
    let ghost pf1 = pf@;
    let ms = &file.messages;
    let mut k: usize = 0;
    proof {
        assert(ms@.take(0) =~= Seq::<usize>::empty());
        assert(held(ms@.take(0)) =~= Set::<int>::empty());
    }
    while k < ms.len()
        invariant
            p == *pool,
            sj == *subjects,
            pool_ok(p),
            f < p.files@.len(),
            *file == p.files@[f as int],
            *ms == file.messages,
            is_subject_view(sj, file.name@),
            k <= ms@.len(),
            pm@.no_duplicates(),
            taken_ok(p, held(pm@), held(pe@)),
            seeds_so_far(p, sj, f as int, ms@.take(k as int), pm@),
            forall|i: int| 0 <= i < p.messages@.len() && seed_message(p, sj, i) ==> reached_message(p, sj, i),
            parse_package(p.files@[f as int].package@) is Ok,
            forall|t: int|
                0 <= t < k ==> p.messages@[(#[trigger] p.files@[f as int].messages@[t]) as int].map_entry
                    || p.messages@[p.files@[f as int].messages@[t] as int].builds,
        decreases ms@.len() - k,
    {
        let i = ms[k];
        proof {
            lemma_held_take(ms@, k as int);
            assert(p.files@[f as int].messages@[k as int] == i);
            assert(i < p.messages@.len());
            assert(p.messages@[i as int].file == f);
        }
        let message = &pool.messages[i];
        if message.map_entry {
            proof {
                lemma_seed_step(p, sj, f as int, ms@, k as int, pm@, pm@, i);
            }
            k = k + 1;
            continue;
        }
        proof {
            assert(held(ms@).contains(i as int)) by {
                assert(ms@[k as int] as int == i as int);
            }
            lemma_seed_message(p, sj, i as int);
        }
        if !message.builds {
            proof {
                assert(p.files@[f as int].messages@[k as int] == i);
            }
            return Err(Stop::Message(i));
        }
        let ghost pm0 = pm@;
        proof {
            if held(pm0).contains(i as int) {
                let t = choose|t: int| 0 <= t < k && ms@[t] as int == i as int;
                assert(ms@[t] == ms@[k as int]);
                assert(ms@.no_duplicates());
            }
            lemma_push_fresh(pm0, i);
        }
        pm.push(i);
        proof {
            lemma_seed_step(p, sj, f as int, ms@, k as int, pm0, pm@, i);
            lemma_held_push(pm0, i);
            assert(taken_ok(p, held(pm@), held(pe@)));
        }
        k = k + 1;
    }
    proof {
        assert(ms@.take(ms@.len() as int) =~= ms@);
        assert forall|i: int| 0 <= i < p.messages@.len() implies (held(pm@).contains(i) <==> (seed_message(p, sj, i)
            && p.messages@[i].file < f + 1)) by {
            lemma_seed_message(p, sj, i);
            if held(ms@).contains(i) {
                let t = choose|t: int| 0 <= t < ms@.len() && ms@[t] as int == i;
                assert(p.messages@[p.files@[f as int].messages@[t] as int].file == f);
            }
        }
    }
    let ghost pm1 = pm@;
    let es = &file.enums;
    let mut k: usize = 0;
    proof {
        assert(es@.take(0) =~= Seq::<usize>::empty());
        assert(held(es@.take(0)) =~= Set::<int>::empty());
    }
    while k < es.len()
        invariant
            p == *pool,
            sj == *subjects,
            pool_ok(p),
            f < p.files@.len(),
            *file == p.files@[f as int],
            *es == file.enums,
            is_subject_view(sj, file.name@),
            k <= es@.len(),
            pm@ == pm1,
            pe@.no_duplicates(),
            parse_package(p.files@[f as int].package@) is Ok,
            forall|t: int|
                0 <= t < p.files@[f as int].messages@.len() ==> p.messages@[(#[trigger] p.files@[f as int].messages@[t]) as int].map_entry
                    || p.messages@[p.files@[f as int].messages@[t] as int].builds,
            forall|t: int| 0 <= t < k ==> p.enums@[(#[trigger] p.files@[f as int].enums@[t]) as int].builds,
            taken_ok(p, held(pm@), held(pe@)),
            forall|j: int| 0 <= j < p.enums@.len() ==> (held(pe@).contains(j) <==> ((seed_enum(p, sj, j)
                && p.enums@[j].file < f) || held(es@.take(k as int)).contains(j))),
            forall|j: int| 0 <= j < p.enums@.len() && seed_enum(p, sj, j) ==> reached_enum(p, sj, j),
        decreases es@.len() - k,
    {
        let j = es[k];
        proof {
            lemma_held_take(es@, k as int);
            assert(p.files@[f as int].enums@[k as int] == j);
            assert(j < p.enums@.len());
            assert(p.enums@[j as int].file == f);
            assert(held(es@).contains(j as int)) by {
                assert(es@[k as int] as int == j as int);
            }
            lemma_seed_enum(p, sj, j as int);
        }
        if !pool.enums[j].builds {
            proof {
                assert(p.files@[f as int].enums@[k as int] == j);
            }
            return Err(Stop::Enum(j));
        }
        let ghost pe0 = pe@;
        proof {
            if held(pe0).contains(j as int) {
                let t = choose|t: int| 0 <= t < k && es@[t] as int == j as int;
                assert(es@[t] == es@[k as int]);
                assert(es@.no_duplicates());
            }
            lemma_push_fresh(pe0, j);
        }
        pe.push(j);
        proof {
            lemma_held_push(pe0, j);
        }
        k = k + 1;
    }
    proof {
        assert(es@.take(es@.len() as int) =~= es@);
        assert forall|j: int| 0 <= j < p.enums@.len() implies (held(pe@).contains(j) <==> (seed_enum(p, sj, j)
            && p.enums@[j].file < f + 1)) by {
            lemma_seed_enum(p, sj, j);
            if held(es@).contains(j) {
                let t = choose|t: int| 0 <= t < es@.len() && es@[t] as int == j;
                assert(p.enums@[p.files@[f as int].enums@[t] as int].file == f);
            }
        }
        assert(seen@ == seen1 && pf@ == pf1);
    }
    Ok(())
}

/// Pass one: every subject file, its messages (map-entry synthetics aside), then its enums.
fn take_subjects(
    pool: &PoolShape,
    subjects: &Subjects,
    seen: &mut Vec<(Vec<char>, usize)>,
    pf: &mut Vec<usize>,
    pm: &mut Vec<usize>,
    pe: &mut Vec<usize>,
) -> (r: Result<(), Stop>)
    requires
        pool_ok(*pool),
        old(seen)@.len() == 0,
        old(pf)@.len() == 0,
        old(pm)@.len() == 0,
        old(pe)@.len() == 0,
    ensures
        r is Ok ==> after_seeds(*pool, *subjects, final(seen)@, final(pf)@, final(pm)@, final(pe)@),
        r is Ok ==> subjects_clean(*pool, *subjects),
        r matches Err(stop) ==> stop_ok(*pool, *subjects, stop),
        r matches Err(stop) ==> first_stop(*pool, *subjects, stop),
{
    let ghost p = *pool;
    let ghost sj = *subjects;
    proof {
        assert(held(pf@) =~= Set::<int>::empty());
        assert(held(pm@) =~= Set::<int>::empty());
        assert(held(pe@) =~= Set::<int>::empty());
        assert forall|r: Seq<char>| #[trigger] text_has(seen@, r) implies exists|g: int|
            0 <= g < p.files@.len() && held(pf@).contains(g) && p.files@[g].name@ == r by {
            let t = choose|t: int| 0 <= t < seen@.len() && (#[trigger] seen@[t].0)@ == r;
        }
    }
    let mut f: usize = 0;
    while f < pool.files.len()
        invariant
            p == *pool,
            sj == *subjects,
            pool_ok(p),
            f <= p.files@.len(),
            seeds_before(p, sj, seen@, pf@, pm@, pe@, f as int),
            forall|g: int| 0 <= g < f && is_subject_view(sj, p.files@[g].name@) ==> clean_file(p, g),
        decreases p.files@.len() - f,
    {
        if is_subject(subjects, pool.files[f].name.as_str()) {
            match take_subject_file(pool, subjects, f, seen, pf, pm, pe) {
                Ok(()) => {},
                Err(stop) => {
                    proof {
                        lemma_first_stop_in(p, sj, f as int, stop);
                    }
                    return Err(stop);
                },
            }
        } else {
            proof {
                lemma_skip_file(p, sj, seen@, pf@, pm@, pe@, f as int);
            }
        }
        f = f + 1;
    }
    proof {
        assert forall|i: int| 0 <= i < p.messages@.len() implies (held(pm@).contains(i) <==> seed_message(p, sj, i)) by {
            assert(p.messages@[i].file < p.files@.len());
        }
        assert forall|j: int| 0 <= j < p.enums@.len() implies (held(pe@).contains(j) <==> seed_enum(p, sj, j)) by {
            assert(p.enums@[j].file < p.files@.len());
        }
        reveal(subjects_clean);
    }
    Ok(())
}

// ---------------------------------------------------------------------------------------------
// Pass two: the referent closure.
// ---------------------------------------------------------------------------------------------

/// Whether path `r` is handled: taken into the included paths, or still queued.
pub open spec fn covered(inc: Seq<(Vec<char>, usize)>, qs: Seq<Seq<char>>, r: Seq<char>) -> bool {
    text_has(inc, r) || qs.contains(r)
}

/// Whether path `r` is owed: a referent of a taken message, or the lexical parent of an
/// element the closure pulled in.
pub open spec fn obliged(p: PoolShape, s: Subjects, ms: Set<int>, es: Set<int>, r: Seq<char>) -> bool {
    ||| exists|i: int, k: int|
        ms.contains(i) && 0 <= k < p.messages@[i].referents@.len() && (#[trigger] p.messages@[i].referents@[k])@ == r
    ||| exists|i: int|
        #![trigger ms.contains(i)]
        ms.contains(i) && !seed_message(p, s, i) && (p.messages@[i].outer matches Some(o) && o@ == r)
    ||| exists|j: int|
        #![trigger es.contains(j)]
        es.contains(j) && !seed_enum(p, s, j) && (p.enums@[j].outer matches Some(o) && o@ == r)
}

/// The walk's state in pass two: the taken elements below every closed set, each building,
/// every subject taken, their files taken; every included path's element taken; every owed
/// path handled; every queued path owed.
pub open spec fn walking(
    p: PoolShape,
    s: Subjects,
    seen: Seq<(Vec<char>, usize)>,
    pf: Seq<usize>,
    pm: Seq<usize>,
    pe: Seq<usize>,
    inc: Seq<(Vec<char>, usize)>,
    qs: Seq<Seq<char>>,
) -> bool {
    let ms = held(pm);
    let es = held(pe);
    &&& pm.no_duplicates()
    &&& pe.no_duplicates()
    &&& pf.no_duplicates()
    &&& least(p, s, ms, es)
    &&& taken_ok(p, ms, es)
    &&& files_ok(p, seen, held(pf))
    &&& forall|g: int| 0 <= g < p.files@.len() ==> (held(pf).contains(g) <==> touched(p, s, ms, es, g))
    &&& forall|i: int| 0 <= i < p.messages@.len() && seed_message(p, s, i) ==> ms.contains(i)
    &&& forall|j: int| 0 <= j < p.enums@.len() && seed_enum(p, s, j) ==> es.contains(j)
    &&& text_sorted(inc)
    &&& forall|r: Seq<char>| #[trigger] text_has(inc, r) ==> lands(p, r, ms, es)
    &&& forall|i: int| ms.contains(i) ==> text_has(inc, p.messages@[i].path@)
    &&& forall|j: int| es.contains(j) ==> text_has(inc, p.enums@[j].path@)
    &&& forall|i: int, k: int|
        ms.contains(i) && 0 <= k < p.messages@[i].referents@.len() ==> covered(inc, qs, (#[trigger] p.messages@[i].referents@[k])@)
    &&& forall|i: int|
        #![trigger ms.contains(i)]
        ms.contains(i) && !seed_message(p, s, i) ==> (p.messages@[i].outer matches Some(o) ==> covered(inc, qs, o@))
    &&& forall|j: int|
        #![trigger es.contains(j)]
        es.contains(j) && !seed_enum(p, s, j) ==> (p.enums@[j].outer matches Some(o) ==> covered(inc, qs, o@))
    &&& forall|t: int| 0 <= t < qs.len() ==> obliged(p, s, ms, es, #[trigger] qs[t])
}

/// An owed path lands in every closed set.
proof fn lemma_obliged_lands(p: PoolShape, s: Subjects, ms: Set<int>, es: Set<int>, r: Seq<char>)
    requires
        least(p, s, ms, es),
        obliged(p, s, ms, es, r),
    ensures
        forall|cm: Set<int>, ce: Set<int>| #[trigger] closed(p, s, cm, ce) ==> lands(p, r, cm, ce),
{
    assert forall|cm: Set<int>, ce: Set<int>| #[trigger] closed(p, s, cm, ce) implies lands(p, r, cm, ce) by {
        assert(ms.subset_of(cm) && es.subset_of(ce));
        if exists|i: int, k: int|
            ms.contains(i) && 0 <= k < p.messages@[i].referents@.len() && (#[trigger] p.messages@[i].referents@[k])@ == r {
            let (i, k) = choose|i: int, k: int|
                ms.contains(i) && 0 <= k < p.messages@[i].referents@.len() && (#[trigger] p.messages@[i].referents@[k])@ == r;
            assert(cm.contains(i));
            assert(lands(p, p.messages@[i].referents@[k]@, cm, ce));
        } else if exists|i: int|
            #![trigger ms.contains(i)]
            ms.contains(i) && !seed_message(p, s, i) && (p.messages@[i].outer matches Some(o) && o@ == r) {
            let i = choose|i: int|
                #![trigger ms.contains(i)]
                ms.contains(i) && !seed_message(p, s, i) && (p.messages@[i].outer matches Some(o) && o@ == r);
            assert(cm.contains(i));
        } else {
            let j = choose|j: int|
                #![trigger es.contains(j)]
                es.contains(j) && !seed_enum(p, s, j) && (p.enums@[j].outer matches Some(o) && o@ == r);
            assert(ce.contains(j));
        }
    }
}

/// The queue after the front is taken off and a run pushed on.
pub open spec fn qviews(q: Seq<Vec<char>>) -> Seq<Seq<char>> {
    q.map_values(|v: Vec<char>| v@)
}

/// A path already included needs no more: the state holds without it queued.
proof fn lemma_skip(
    p: PoolShape,
    s: Subjects,
    seen: Seq<(Vec<char>, usize)>,
    pf: Seq<usize>,
    pm: Seq<usize>,
    pe: Seq<usize>,
    inc: Seq<(Vec<char>, usize)>,
    qs: Seq<Seq<char>>,
    r: Seq<char>,
)
    requires
        walking(p, s, seen, pf, pm, pe, inc, qs.push(r)),
        text_has(inc, r),
    ensures
        walking(p, s, seen, pf, pm, pe, inc, qs),
{
    let ms = held(pm);
    let es = held(pe);
    assert forall|x: Seq<char>| covered(inc, qs.push(r), x) implies covered(inc, qs, x) by {
        if qs.push(r).contains(x) && !text_has(inc, x) {
            let t = choose|t: int| 0 <= t < qs.push(r).len() && qs.push(r)[t] == x;
            if t < qs.len() {
                assert(qs[t] == x);
            }
        }
    }
    assert forall|t: int| 0 <= t < qs.len() implies obliged(p, s, ms, es, #[trigger] qs[t]) by {
        assert(qs.push(r)[t] == qs[t]);
    }
}

/// A path that is included without taking an element — one naming a map-entry synthetic or
/// nothing in the pool — leaves the state holding.
proof fn lemma_mark(
    p: PoolShape,
    s: Subjects,
    seen: Seq<(Vec<char>, usize)>,
    pf: Seq<usize>,
    pm: Seq<usize>,
    pe: Seq<usize>,
    inc: Seq<(Vec<char>, usize)>,
    inc2: Seq<(Vec<char>, usize)>,
    qs: Seq<Seq<char>>,
    r: Seq<char>,
)
    requires
        walking(p, s, seen, pf, pm, pe, inc, qs.push(r)),
        text_sorted(inc2),
        forall|x: Seq<char>| #[trigger] text_has(inc2, x) <==> (text_has(inc, x) || x == r),
        lands(p, r, held(pm), held(pe)),
    ensures
        walking(p, s, seen, pf, pm, pe, inc2, qs),
{
    let ms = held(pm);
    let es = held(pe);
    assert forall|x: Seq<char>| covered(inc, qs.push(r), x) implies covered(inc2, qs, x) by {
        if text_has(inc, x) {
            assert(text_has(inc2, x));
        } else if x == r {
            assert(text_has(inc2, x));
        } else {
            let t = choose|t: int| 0 <= t < qs.push(r).len() && qs.push(r)[t] == x;
            if t < qs.len() {
                assert(qs[t] == x);
            }
        }
    }
    assert forall|x: Seq<char>| #[trigger] text_has(inc2, x) implies lands(p, x, ms, es) by {
        if x != r {
            assert(text_has(inc, x));
        }
    }
    assert forall|t: int| 0 <= t < qs.len() implies obliged(p, s, ms, es, #[trigger] qs[t]) by {
        assert(qs.push(r)[t] == qs[t]);
    }
    assert forall|i: int| ms.contains(i) implies text_has(inc2, p.messages@[i].path@) by {
        assert(text_has(inc, p.messages@[i].path@));
    }
    assert forall|j: int| es.contains(j) implies text_has(inc2, p.enums@[j].path@) by {
        assert(text_has(inc, p.enums@[j].path@));
    }
}

/// An owed path stays owed as more is taken.
proof fn lemma_obliged_mono(
    p: PoolShape,
    s: Subjects,
    ms: Set<int>,
    es: Set<int>,
    ms2: Set<int>,
    es2: Set<int>,
    r: Seq<char>,
)
    requires
        ms.subset_of(ms2),
        es.subset_of(es2),
        obliged(p, s, ms, es, r),
    ensures
        obliged(p, s, ms2, es2, r),
{
    if exists|i: int, k: int|
        ms.contains(i) && 0 <= k < p.messages@[i].referents@.len() && (#[trigger] p.messages@[i].referents@[k])@ == r {
        let (i, k) = choose|i: int, k: int|
            ms.contains(i) && 0 <= k < p.messages@[i].referents@.len() && (#[trigger] p.messages@[i].referents@[k])@ == r;
        assert(ms2.contains(i));
    } else if exists|i: int|
        #![trigger ms.contains(i)]
        ms.contains(i) && !seed_message(p, s, i) && (p.messages@[i].outer matches Some(o) && o@ == r) {
        let i = choose|i: int|
            #![trigger ms.contains(i)]
            ms.contains(i) && !seed_message(p, s, i) && (p.messages@[i].outer matches Some(o) && o@ == r);
        assert(ms2.contains(i));
    } else {
        let j = choose|j: int|
            #![trigger es.contains(j)]
            es.contains(j) && !seed_enum(p, s, j) && (p.enums@[j].outer matches Some(o) && o@ == r);
        assert(es2.contains(j));
    }
}

/// What an element pulled in owes: its referents (for a message), then its lexical parent.
pub open spec fn owed_by(refs: Seq<String>, outer: Option<String>) -> Seq<Seq<char>> {
    refs.map_values(|x: String| x@) + match outer {
        Some(o) => seq![o@],
        None => Seq::empty(),
    }
}

/// Taking message `i`, the element at the queued path `r`, with its file, keeps the state
/// holding once what it owes is queued.
#[verifier::rlimit(40)]
proof fn lemma_take_message(
    p: PoolShape,
    s: Subjects,
    seen: Seq<(Vec<char>, usize)>,
    pf: Seq<usize>,
    pm: Seq<usize>,
    pe: Seq<usize>,
    inc: Seq<(Vec<char>, usize)>,
    inc2: Seq<(Vec<char>, usize)>,
    qs: Seq<Seq<char>>,
    r: Seq<char>,
    i: usize,
    seen2: Seq<(Vec<char>, usize)>,
    pf2: Seq<usize>,
)
    requires
        pool_ok(p),
        walking(p, s, seen, pf, pm, pe, inc, qs.push(r)),
        !text_has(inc, r),
        message_at(p, r) == Some(i as int),
        !p.messages@[i as int].map_entry,
        p.messages@[i as int].builds,
        text_sorted(inc2),
        forall|x: Seq<char>| #[trigger] text_has(inc2, x) <==> (text_has(inc, x) || x == r),
        files_ok(p, seen2, held(pf2)),
        pf2.no_duplicates(),
        held(pf2) == held(pf).insert(p.messages@[i as int].file as int),
    ensures
        walking(
            p,
            s,
            seen2,
            pf2,
            pm.push(i),
            pe,
            inc2,
            qs + owed_by(p.messages@[i as int].referents@, p.messages@[i as int].outer),
        ),
        reached_message(p, s, i as int),
{
    let ms = held(pm);
    let es = held(pe);
    let ms2 = held(pm.push(i));
    let ii = i as int;
    let m = p.messages@[ii];
    let new = owed_by(m.referents@, m.outer);
    let qs2 = qs + new;
    lemma_held_push(pm, i);
    assert(m.path@ == r);
    // The message is fresh.
    if ms.contains(ii) {
        assert(text_has(inc, m.path@));
    }
    lemma_push_fresh(pm, i);
    // It lies in every closed set.
    assert(qs.push(r)[qs.len() as int] == r);
    assert(obliged(p, s, ms, es, r));
    lemma_obliged_lands(p, s, ms, es, r);
    assert forall|cm: Set<int>, ce: Set<int>| #[trigger] closed(p, s, cm, ce) implies ms2.subset_of(cm) && es.subset_of(ce) by {
        assert(lands(p, r, cm, ce));
        assert(cm.contains(ii));
    }
    // Files.
    assert forall|g: int| 0 <= g < p.files@.len() implies (held(pf2).contains(g) <==> touched(p, s, ms2, es, g)) by {
        if held(pf2).contains(g) && g != m.file as int {
            assert(held(pf).contains(g));
            assert(touched(p, s, ms, es, g));
            if exists|x: int| ms.contains(x) && #[trigger] p.messages@[x].file == g {
                let x = choose|x: int| ms.contains(x) && #[trigger] p.messages@[x].file == g;
                assert(ms2.contains(x));
            }
        }
        if g == m.file as int {
            assert(ms2.contains(ii) && p.messages@[ii].file == g);
        }
        if touched(p, s, ms2, es, g) && g != m.file as int {
            if exists|x: int| ms2.contains(x) && #[trigger] p.messages@[x].file == g {
                let x = choose|x: int| ms2.contains(x) && #[trigger] p.messages@[x].file == g;
                assert(x != ii);
                assert(ms.contains(x));
            }
            assert(touched(p, s, ms, es, g));
        }
    }
    // Included paths land.
    assert forall|x: Seq<char>| #[trigger] text_has(inc2, x) implies lands(p, x, ms2, es) by {
        if x != r {
            assert(text_has(inc, x));
            assert(lands(p, x, ms, es));
        }
    }
    assert forall|x: int| ms2.contains(x) implies text_has(inc2, p.messages@[x].path@) by {
        if x != ii {
            assert(ms.contains(x));
            assert(text_has(inc, p.messages@[x].path@));
        }
    }
    assert forall|j: int| es.contains(j) implies text_has(inc2, p.enums@[j].path@) by {
        assert(text_has(inc, p.enums@[j].path@));
    }
    // Owed paths are handled.
    assert forall|x: Seq<char>| covered(inc, qs.push(r), x) implies covered(inc2, qs2, x) by {
        if text_has(inc, x) || x == r {
            assert(text_has(inc2, x));
        } else {
            let t = choose|t: int| 0 <= t < qs.push(r).len() && qs.push(r)[t] == x;
            assert(t < qs.len());
            assert(qs2[t] == x);
        }
    }
    assert forall|x: int, k: int|
        ms2.contains(x) && 0 <= k < p.messages@[x].referents@.len() implies covered(inc2, qs2, (#[trigger] p.messages@[x].referents@[k])@) by {
        if x == ii {
            assert(new[k] == m.referents@[k]@);
            assert(qs2[qs.len() + k] == new[k]);
        } else {
            assert(ms.contains(x));
            assert(covered(inc, qs.push(r), p.messages@[x].referents@[k]@));
        }
    }
    assert forall|x: int|
        #![trigger ms2.contains(x)]
        ms2.contains(x) && !seed_message(p, s, x) implies (p.messages@[x].outer matches Some(o) ==> covered(inc2, qs2, o@)) by {
        if x == ii {
            if let Some(o) = m.outer {
                assert(new[m.referents@.len() as int] == o@);
                assert(qs2[(qs.len() + m.referents@.len()) as int] == o@);
            }
        } else {
            assert(ms.contains(x));
            if let Some(o) = p.messages@[x].outer {
                assert(covered(inc, qs.push(r), o@));
            }
        }
    }
    assert forall|j: int|
        #![trigger es.contains(j)]
        es.contains(j) && !seed_enum(p, s, j) implies (p.enums@[j].outer matches Some(o) ==> covered(inc2, qs2, o@)) by {
        if let Some(o) = p.enums@[j].outer {
            assert(covered(inc, qs.push(r), o@));
        }
    }
    // Queued paths are owed.
    assert(!seed_message(p, s, ii));
    assert forall|t: int| 0 <= t < qs2.len() implies obliged(p, s, ms2, es, #[trigger] qs2[t]) by {
        if t < qs.len() {
            assert(qs.push(r)[t] == qs[t]);
            assert(obliged(p, s, ms, es, qs[t]));
            lemma_obliged_mono(p, s, ms, es, ms2, es, qs[t]);
        } else if t < qs.len() + m.referents@.len() {
            let k = t - qs.len();
            assert(qs2[t] == m.referents@[k]@);
            assert(ms2.contains(ii) && 0 <= k < p.messages@[ii].referents@.len());
        } else {
            assert(ms2.contains(ii));
        }
    }
    // Subjects stay taken; every reached message in the least sets.
    assert forall|x: int| 0 <= x < p.messages@.len() && seed_message(p, s, x) implies ms2.contains(x) by {
        assert(ms.contains(x));
    }
    assert forall|cm: Set<int>, ce: Set<int>| #[trigger] closed(p, s, cm, ce) implies cm.contains(ii) by {
        assert(lands(p, r, cm, ce));
    }
}

/// Taking enum `j`, the element at the queued path `r`, with its file, keeps the state holding
/// once its lexical parent is queued.
#[verifier::rlimit(40)]
proof fn lemma_take_enum(
    p: PoolShape,
    s: Subjects,
    seen: Seq<(Vec<char>, usize)>,
    pf: Seq<usize>,
    pm: Seq<usize>,
    pe: Seq<usize>,
    inc: Seq<(Vec<char>, usize)>,
    inc2: Seq<(Vec<char>, usize)>,
    qs: Seq<Seq<char>>,
    r: Seq<char>,
    j: usize,
    seen2: Seq<(Vec<char>, usize)>,
    pf2: Seq<usize>,
)
    requires
        pool_ok(p),
        walking(p, s, seen, pf, pm, pe, inc, qs.push(r)),
        !text_has(inc, r),
        message_at(p, r) is None,
        enum_at(p, r) == Some(j as int),
        p.enums@[j as int].builds,
        text_sorted(inc2),
        forall|x: Seq<char>| #[trigger] text_has(inc2, x) <==> (text_has(inc, x) || x == r),
        files_ok(p, seen2, held(pf2)),
        pf2.no_duplicates(),
        held(pf2) == held(pf).insert(p.enums@[j as int].file as int),
    ensures
        walking(p, s, seen2, pf2, pm, pe.push(j), inc2, qs + owed_by(Seq::empty(), p.enums@[j as int].outer)),
        reached_enum(p, s, j as int),
{
    let ms = held(pm);
    let es = held(pe);
    let es2 = held(pe.push(j));
    let jj = j as int;
    let e = p.enums@[jj];
    let new = owed_by(Seq::<String>::empty(), e.outer);
    let qs2 = qs + new;
    lemma_held_push(pe, j);
    assert(e.path@ == r);
    if es.contains(jj) {
        assert(text_has(inc, e.path@));
    }
    lemma_push_fresh(pe, j);
    assert(qs.push(r)[qs.len() as int] == r);
    assert(obliged(p, s, ms, es, r));
    lemma_obliged_lands(p, s, ms, es, r);
    assert forall|cm: Set<int>, ce: Set<int>| #[trigger] closed(p, s, cm, ce) implies ms.subset_of(cm) && es2.subset_of(ce) by {
        assert(lands(p, r, cm, ce));
        assert(ce.contains(jj));
    }
    assert forall|g: int| 0 <= g < p.files@.len() implies (held(pf2).contains(g) <==> touched(p, s, ms, es2, g)) by {
        if held(pf2).contains(g) && g != e.file as int {
            assert(held(pf).contains(g));
            assert(touched(p, s, ms, es, g));
            if exists|x: int| es.contains(x) && #[trigger] p.enums@[x].file == g {
                let x = choose|x: int| es.contains(x) && #[trigger] p.enums@[x].file == g;
                assert(es2.contains(x));
            }
        }
        if g == e.file as int {
            assert(es2.contains(jj) && p.enums@[jj].file == g);
        }
        if touched(p, s, ms, es2, g) && g != e.file as int {
            if exists|x: int| es2.contains(x) && #[trigger] p.enums@[x].file == g {
                let x = choose|x: int| es2.contains(x) && #[trigger] p.enums@[x].file == g;
                assert(x != jj);
                assert(es.contains(x));
            }
            assert(touched(p, s, ms, es, g));
        }
    }
    assert forall|x: Seq<char>| #[trigger] text_has(inc2, x) implies lands(p, x, ms, es2) by {
        if x != r {
            assert(text_has(inc, x));
            assert(lands(p, x, ms, es));
        }
    }
    assert forall|x: int| ms.contains(x) implies text_has(inc2, p.messages@[x].path@) by {
        assert(text_has(inc, p.messages@[x].path@));
    }
    assert forall|x: int| es2.contains(x) implies text_has(inc2, p.enums@[x].path@) by {
        if x != jj {
            assert(es.contains(x));
            assert(text_has(inc, p.enums@[x].path@));
        }
    }
    assert forall|x: Seq<char>| covered(inc, qs.push(r), x) implies covered(inc2, qs2, x) by {
        if text_has(inc, x) || x == r {
            assert(text_has(inc2, x));
        } else {
            let t = choose|t: int| 0 <= t < qs.push(r).len() && qs.push(r)[t] == x;
            assert(t < qs.len());
            assert(qs2[t] == x);
        }
    }
    assert forall|x: int, k: int|
        ms.contains(x) && 0 <= k < p.messages@[x].referents@.len() implies covered(inc2, qs2, (#[trigger] p.messages@[x].referents@[k])@) by {
        assert(covered(inc, qs.push(r), p.messages@[x].referents@[k]@));
    }
    assert forall|x: int|
        #![trigger ms.contains(x)]
        ms.contains(x) && !seed_message(p, s, x) implies (p.messages@[x].outer matches Some(o) ==> covered(inc2, qs2, o@)) by {
        if let Some(o) = p.messages@[x].outer {
            assert(covered(inc, qs.push(r), o@));
        }
    }
    assert(!seed_enum(p, s, jj));
    assert forall|x: int|
        #![trigger es2.contains(x)]
        es2.contains(x) && !seed_enum(p, s, x) implies (p.enums@[x].outer matches Some(o) ==> covered(inc2, qs2, o@)) by {
        if x == jj {
            if let Some(o) = e.outer {
                assert(new[0] == o@);
                assert(qs2[qs.len() as int] == o@);
            }
        } else {
            assert(es.contains(x));
            if let Some(o) = p.enums@[x].outer {
                assert(covered(inc, qs.push(r), o@));
            }
        }
    }
    assert forall|t: int| 0 <= t < qs2.len() implies obliged(p, s, ms, es2, #[trigger] qs2[t]) by {
        if t < qs.len() {
            assert(qs.push(r)[t] == qs[t]);
            assert(obliged(p, s, ms, es, qs[t]));
            lemma_obliged_mono(p, s, ms, es, ms, es2, qs[t]);
        } else {
            assert(es2.contains(jj));
        }
    }
    assert forall|x: int| 0 <= x < p.enums@.len() && seed_enum(p, s, x) implies es2.contains(x) by {
        assert(es.contains(x));
    }
    assert forall|cm: Set<int>, ce: Set<int>| #[trigger] closed(p, s, cm, ce) implies ce.contains(jj) by {
        assert(lands(p, r, cm, ce));
    }
}

/// What the messages not yet taken may still owe, each its referents and its parent.
pub open spec fn message_budget(p: PoolShape, ms: Set<int>, n: int) -> nat
    decreases n,
{
    if n <= 0 {
        0
    } else {
        message_budget(p, ms, n - 1) + if ms.contains(n - 1) {
            0
        } else {
            (p.messages@[n - 1].referents@.len() + 1) as nat
        }
    }
}

/// What the enums not yet taken may still owe, each its parent.
pub open spec fn enum_budget(es: Set<int>, n: int) -> nat
    decreases n,
{
    if n <= 0 {
        0
    } else {
        enum_budget(es, n - 1) + if es.contains(n - 1) {
            0nat
        } else {
            1nat
        }
    }
}

/// Taking a message spends what it may owe.
proof fn lemma_message_budget(p: PoolShape, ms: Set<int>, i: int, n: int)
    requires
        0 <= i < n,
        !ms.contains(i),
    ensures
        message_budget(p, ms.insert(i), n) + p.messages@[i].referents@.len() + 1 == message_budget(p, ms, n),
    decreases n,
{
    if n - 1 != i {
        lemma_message_budget(p, ms, i, n - 1);
    } else {
        lemma_message_budget_same(p, ms, i, n - 1);
    }
}

/// Below a message, taking it changes nothing.
proof fn lemma_message_budget_same(p: PoolShape, ms: Set<int>, i: int, n: int)
    requires
        n <= i,
    ensures
        message_budget(p, ms.insert(i), n) == message_budget(p, ms, n),
    decreases n,
{
    if n > 0 {
        lemma_message_budget_same(p, ms, i, n - 1);
    }
}

/// Taking an enum spends what it may owe.
proof fn lemma_enum_budget(es: Set<int>, j: int, n: int)
    requires
        0 <= j < n,
        !es.contains(j),
    ensures
        enum_budget(es.insert(j), n) + 1 == enum_budget(es, n),
    decreases n,
{
    if n - 1 != j {
        lemma_enum_budget(es, j, n - 1);
    } else {
        lemma_enum_budget_same(es, j, n - 1);
    }
}

/// Below an enum, taking it changes nothing.
proof fn lemma_enum_budget_same(es: Set<int>, j: int, n: int)
    requires
        n <= j,
    ensures
        enum_budget(es.insert(j), n) == enum_budget(es, n),
    decreases n,
{
    if n > 0 {
        lemma_enum_budget_same(es, j, n - 1);
    }
}

/// A queued path naming a message (no map-entry synthetic) names a reached message; one naming
/// an enum, a reached enum.
proof fn lemma_pending_reached(
    p: PoolShape,
    s: Subjects,
    seen: Seq<(Vec<char>, usize)>,
    pf: Seq<usize>,
    pm: Seq<usize>,
    pe: Seq<usize>,
    inc: Seq<(Vec<char>, usize)>,
    qs: Seq<Seq<char>>,
    r: Seq<char>,
)
    requires
        walking(p, s, seen, pf, pm, pe, inc, qs.push(r)),
    ensures
        message_at(p, r) matches Some(i) ==> (p.messages@[i].map_entry || reached_message(p, s, i)),
        message_at(p, r) is None ==> (enum_at(p, r) matches Some(j) ==> reached_enum(p, s, j)),
{
    assert(qs.push(r)[qs.len() as int] == r);
    lemma_obliged_lands(p, s, held(pm), held(pe), r);
}

/// The referents a run of taken messages owes, message by message.
pub open spec fn referents_of(p: PoolShape, pm: Seq<usize>) -> Seq<Seq<char>>
    decreases pm.len(),
{
    if pm.len() == 0 {
        Seq::empty()
    } else {
        referents_of(p, pm.drop_last()) + p.messages@[pm.last() as int].referents@.map_values(|x: String| x@)
    }
}

/// Which listed message, and which of its referents, a run's referent `t` is.
pub open spec fn owner(p: PoolShape, pm: Seq<usize>, t: int) -> (int, int)
    decreases pm.len(),
{
    if pm.len() == 0 {
        (0, 0)
    } else {
        let head = referents_of(p, pm.drop_last());
        if t < head.len() {
            owner(p, pm.drop_last(), t)
        } else {
            (pm.len() - 1, t - head.len())
        }
    }
}

/// Whether a run's referent `t` is its owner's: a listed message's referent, by position.
pub open spec fn owned(p: PoolShape, pm: Seq<usize>, t: int) -> bool {
    let (a, k) = owner(p, pm, t);
    &&& 0 <= a < pm.len()
    &&& 0 <= k < p.messages@[pm[a] as int].referents@.len()
    &&& p.messages@[pm[a] as int].referents@[k]@ == referents_of(p, pm)[t]
}

/// Every referent of a listed message is among the run's referents, and every one of them is a
/// listed message's referent.
proof fn lemma_referents_of(p: PoolShape, pm: Seq<usize>)
    ensures
        forall|a: int, k: int|
            0 <= a < pm.len() && 0 <= k < p.messages@[pm[a] as int].referents@.len() ==> referents_of(p, pm).contains(
                (#[trigger] p.messages@[pm[a] as int].referents@[k])@,
            ),
        forall|t: int| 0 <= t < referents_of(p, pm).len() ==> #[trigger] owned(p, pm, t),
    decreases pm.len(),
{
    if pm.len() > 0 {
        let init = pm.drop_last();
        lemma_referents_of(p, init);
        let head = referents_of(p, init);
        let last = pm.last() as int;
        let tail = p.messages@[last].referents@.map_values(|x: String| x@);
        let all = referents_of(p, pm);
        assert(all == head + tail);
        assert forall|a: int, k: int|
            0 <= a < pm.len() && 0 <= k < p.messages@[pm[a] as int].referents@.len() implies all.contains(
                (#[trigger] p.messages@[pm[a] as int].referents@[k])@,
            ) by {
            if a < init.len() {
                assert(init[a] == pm[a]);
                assert(head.contains(p.messages@[init[a] as int].referents@[k]@));
                let t = choose|t: int| 0 <= t < head.len() && head[t] == p.messages@[init[a] as int].referents@[k]@;
                assert(all[t] == head[t]);
            } else {
                assert(all[head.len() + k] == tail[k]);
            }
        }
        assert forall|t: int| 0 <= t < all.len() implies #[trigger] owned(p, pm, t) by {
            assert(pm.drop_last() == init);
            if t < head.len() {
                assert(all[t] == head[t]);
                let (a, k) = owner(p, init, t);
                assert(owned(p, init, t));
                assert(owner(p, pm, t) == owner(p, init, t));
                assert(0 <= a < init.len());
                assert(pm[a] == init[a]);
                assert(p.messages@[init[a] as int].referents@[k]@ == head[t]);
            } else {
                let k = t - head.len();
                assert(owner(p, pm, t) == (pm.len() - 1, k));
                assert(all[t] == tail[k]);
                assert(pm[pm.len() - 1] as int == last);
                assert(tail.len() == p.messages@[last].referents@.len());
                assert(tail[k] == p.messages@[last].referents@[k]@);
            }
        }
    }
}

/// Pass one's end starts pass two: the subjects' paths included, their referents queued.
proof fn lemma_start(
    p: PoolShape,
    s: Subjects,
    seen: Seq<(Vec<char>, usize)>,
    pf: Seq<usize>,
    pm: Seq<usize>,
    pe: Seq<usize>,
    inc: Seq<(Vec<char>, usize)>,
)
    requires
        pool_ok(p),
        after_seeds(p, s, seen, pf, pm, pe),
        text_sorted(inc),
        forall|x: Seq<char>| #[trigger] text_has(inc, x) <==> ((exists|a: int| 0 <= a < pm.len() && p.messages@[(#[trigger] pm[a]) as int].path@ == x)
            || (exists|b: int| 0 <= b < pe.len() && p.enums@[(#[trigger] pe[b]) as int].path@ == x)),
    ensures
        walking(p, s, seen, pf, pm, pe, inc, referents_of(p, pm)),
{
    let ms = held(pm);
    let es = held(pe);
    let qs = referents_of(p, pm);
    lemma_referents_of(p, pm);
    assert forall|cm: Set<int>, ce: Set<int>| #[trigger] closed(p, s, cm, ce) implies ms.subset_of(cm) && es.subset_of(ce) by {
        assert forall|i: int| ms.contains(i) implies cm.contains(i) by {
            assert(seed_message(p, s, i));
        }
        assert forall|j: int| es.contains(j) implies ce.contains(j) by {
            assert(seed_enum(p, s, j));
        }
    }
    assert forall|g: int| 0 <= g < p.files@.len() implies (held(pf).contains(g) <==> touched(p, s, ms, es, g)) by {
        if exists|i: int| ms.contains(i) && #[trigger] p.messages@[i].file == g {
            let i = choose|i: int| ms.contains(i) && #[trigger] p.messages@[i].file == g;
            lemma_seed_message(p, s, i);
        }
        if exists|j: int| es.contains(j) && #[trigger] p.enums@[j].file == g {
            let j = choose|j: int| es.contains(j) && #[trigger] p.enums@[j].file == g;
            lemma_seed_enum(p, s, j);
        }
    }
    assert forall|x: Seq<char>| #[trigger] text_has(inc, x) implies lands(p, x, ms, es) by {
        if exists|a: int| 0 <= a < pm.len() && p.messages@[(#[trigger] pm[a]) as int].path@ == x {
            let a = choose|a: int| 0 <= a < pm.len() && p.messages@[(#[trigger] pm[a]) as int].path@ == x;
            assert(ms.contains(pm[a] as int));
            lemma_message_at(p, pm[a] as int);
            assert(ms.contains(pm[a] as int));
        } else {
            let b = choose|b: int| 0 <= b < pe.len() && p.enums@[(#[trigger] pe[b]) as int].path@ == x;
            assert(es.contains(pe[b] as int));
            lemma_enum_at(p, pe[b] as int);
            assert(es.contains(pe[b] as int));
        }
    }
    assert forall|i: int| ms.contains(i) implies text_has(inc, p.messages@[i].path@) by {
        let a = choose|a: int| 0 <= a < pm.len() && pm[a] as int == i;
        assert(p.messages@[pm[a] as int].path@ == p.messages@[i].path@);
    }
    assert forall|j: int| es.contains(j) implies text_has(inc, p.enums@[j].path@) by {
        let b = choose|b: int| 0 <= b < pe.len() && pe[b] as int == j;
        assert(p.enums@[pe[b] as int].path@ == p.enums@[j].path@);
    }
    assert forall|i: int, k: int|
        ms.contains(i) && 0 <= k < p.messages@[i].referents@.len() implies covered(inc, qs, (#[trigger] p.messages@[i].referents@[k])@) by {
        let a = choose|a: int| 0 <= a < pm.len() && pm[a] as int == i;
        assert(qs.contains(p.messages@[pm[a] as int].referents@[k]@));
    }
    assert forall|i: int|
        #![trigger ms.contains(i)]
        ms.contains(i) && !seed_message(p, s, i) implies (p.messages@[i].outer matches Some(o) ==> covered(inc, qs, o@)) by {
    }
    assert forall|j: int|
        #![trigger es.contains(j)]
        es.contains(j) && !seed_enum(p, s, j) implies (p.enums@[j].outer matches Some(o) ==> covered(inc, qs, o@)) by {
    }
    assert forall|t: int| 0 <= t < qs.len() implies obliged(p, s, ms, es, #[trigger] qs[t]) by {
        assert(owned(p, pm, t));
        let (a, k) = owner(p, pm, t);
        assert(held(pm).contains(pm[a] as int));
        assert(ms.contains(pm[a] as int));
        assert(p.messages@[pm[a] as int].referents@[k]@ == qs[t]);
    }
}

/// A walk with nothing left queued has taken exactly the reached elements and the taken files,
/// and met no failure.
proof fn lemma_finish(
    p: PoolShape,
    s: Subjects,
    seen: Seq<(Vec<char>, usize)>,
    pf: Seq<usize>,
    pm: Seq<usize>,
    pe: Seq<usize>,
    inc: Seq<(Vec<char>, usize)>,
)
    requires
        pool_ok(p),
        walking(p, s, seen, pf, pm, pe, inc, Seq::empty()),
    ensures
        forall|i: int| 0 <= i < p.messages@.len() ==> (held(pm).contains(i) <==> reached_message(p, s, i)),
        forall|j: int| 0 <= j < p.enums@.len() ==> (held(pe).contains(j) <==> reached_enum(p, s, j)),
        forall|f: int| 0 <= f < p.files@.len() ==> (held(pf).contains(f) <==> needed_file(p, s, f)),
        !fails(p, s),
        closed(p, s, held(pm), held(pe)),
{
    let ms = held(pm);
    let es = held(pe);
    assert(closed(p, s, ms, es)) by {
        assert forall|i: int, k: int|
            ms.contains(i) && 0 <= k < p.messages@[i].referents@.len() implies lands(
                p,
                (#[trigger] p.messages@[i].referents@[k])@,
                ms,
                es,
            ) by {
            assert(covered(inc, Seq::empty(), p.messages@[i].referents@[k]@));
            assert(text_has(inc, p.messages@[i].referents@[k]@));
        }
        assert forall|i: int|
            #![trigger ms.contains(i)]
            ms.contains(i) && !seed_message(p, s, i) implies match p.messages@[i].outer {
                Some(o) => lands(p, o@, ms, es),
                None => true,
            } by {
            if let Some(o) = p.messages@[i].outer {
                assert(covered(inc, Seq::empty(), o@));
                assert(text_has(inc, o@));
            }
        }
        assert forall|j: int|
            #![trigger es.contains(j)]
            es.contains(j) && !seed_enum(p, s, j) implies match p.enums@[j].outer {
                Some(o) => lands(p, o@, ms, es),
                None => true,
            } by {
            if let Some(o) = p.enums@[j].outer {
                assert(covered(inc, Seq::empty(), o@));
                assert(text_has(inc, o@));
            }
        }
    }
    assert forall|i: int| 0 <= i < p.messages@.len() implies (ms.contains(i) <==> reached_message(p, s, i)) by {
        if reached_message(p, s, i) {
            assert(closed(p, s, ms, es));
        }
    }
    assert forall|j: int| 0 <= j < p.enums@.len() implies (es.contains(j) <==> reached_enum(p, s, j)) by {
        if reached_enum(p, s, j) {
            assert(closed(p, s, ms, es));
        }
    }
    assert forall|f: int| 0 <= f < p.files@.len() implies (held(pf).contains(f) <==> needed_file(p, s, f)) by {
        if exists|i: int| ms.contains(i) && #[trigger] p.messages@[i].file == f {
            let i = choose|i: int| ms.contains(i) && #[trigger] p.messages@[i].file == f;
            assert(reached_message(p, s, i));
        }
        if exists|j: int| es.contains(j) && #[trigger] p.enums@[j].file == f {
            let j = choose|j: int| es.contains(j) && #[trigger] p.enums@[j].file == f;
            assert(reached_enum(p, s, j));
        }
        if exists|i: int| 0 <= i < p.messages@.len() && reached_message(p, s, i) && #[trigger] p.messages@[i].file == f {
            let i = choose|i: int| 0 <= i < p.messages@.len() && reached_message(p, s, i) && #[trigger] p.messages@[i].file == f;
            assert(ms.contains(i));
        }
        if exists|j: int| 0 <= j < p.enums@.len() && reached_enum(p, s, j) && #[trigger] p.enums@[j].file == f {
            let j = choose|j: int| 0 <= j < p.enums@.len() && reached_enum(p, s, j) && #[trigger] p.enums@[j].file == f;
            assert(es.contains(j));
        }
    }
    assert(!fails(p, s)) by {
        if exists|i: int| 0 <= i < p.messages@.len() && reached_message(p, s, i) && !(#[trigger] p.messages@[i]).builds {
            let i = choose|i: int| 0 <= i < p.messages@.len() && reached_message(p, s, i) && !(#[trigger] p.messages@[i]).builds;
            assert(ms.contains(i));
        }
        if exists|j: int| 0 <= j < p.enums@.len() && reached_enum(p, s, j) && !(#[trigger] p.enums@[j]).builds {
            let j = choose|j: int| 0 <= j < p.enums@.len() && reached_enum(p, s, j) && !(#[trigger] p.enums@[j]).builds;
            assert(es.contains(j));
        }
        if exists|f: int| 0 <= f < p.files@.len() && needed_file(p, s, f) && parse_package((#[trigger] p.files@[f]).package@) is Err {
            let f = choose|f: int| 0 <= f < p.files@.len() && needed_file(p, s, f) && parse_package((#[trigger] p.files@[f]).package@) is Err;
            assert(held(pf).contains(f));
        }
    }
}

/// A stop names a failure the walk meets.
proof fn lemma_stop_fails(p: PoolShape, s: Subjects, stop: Stop)
    requires
        stop_ok(p, s, stop),
    ensures
        fails(p, s),
{
    match stop {
        Stop::Package(f, _) => {
            assert(needed_file(p, s, f as int) && parse_package(p.files@[f as int].package@) is Err);
        },
        Stop::Message(i) => {
            assert(reached_message(p, s, i as int) && !p.messages@[i as int].builds);
        },
        Stop::Enum(j) => {
            assert(reached_enum(p, s, j as int) && !p.enums@[j as int].builds);
        },
    }
}


/// Queue what an element pulled in owes: a message's referents, then its lexical parent.
fn enqueue(queue: &mut Vec<Vec<char>>, refs: &Vec<String>, outer: &Option<String>)
    ensures
        qviews(final(queue)@) == qviews(old(queue)@) + owed_by(refs@, *outer),
{
    let ghost q0 = queue@;
    let n0 = queue.len();
    let mut t: usize = 0;
    while t < refs.len()
        invariant
            t <= refs@.len(),
            n0 == q0.len(),
            queue@.len() == n0 + t,
            forall|i: int| 0 <= i < n0 ==> queue@[i] == q0[i],
            forall|u: int| 0 <= u < t ==> (#[trigger] queue@[n0 + u])@ == refs@[u]@,
        decreases refs@.len() - t,
    {
        queue.push(chars_of(refs[t].as_str()));
        t = t + 1;
    }
    match outer {
        Some(o) => {
            queue.push(chars_of(o.as_str()));
        },
        None => {},
    }
    proof {
        let want = qviews(q0) + owed_by(refs@, *outer);
        assert(qviews(queue@).len() == want.len());
        assert forall|i: int| 0 <= i < want.len() implies qviews(queue@)[i] == want[i] by {
            if i >= n0 + refs@.len() {
                assert(queue@[i]@ == outer->0@);
            } else if i >= n0 {
                assert(queue@[n0 + (i - n0)]@ == refs@[i - n0]@);
            }
        }
        assert(qviews(queue@) =~= want);
    }
}

/// The subjects' referents, message by message, as the first queue.
fn queue_referents(pool: &PoolShape, pm: &Vec<usize>) -> (r: Vec<Vec<char>>)
    requires
        forall|a: int| 0 <= a < pm@.len() ==> pm@[a] < pool.messages@.len(),
    ensures
        qviews(r@) == referents_of(*pool, pm@),
{
    let mut queue: Vec<Vec<char>> = Vec::new();
    let mut a: usize = 0;
    proof {
        assert(pm@.take(0) =~= Seq::<usize>::empty());
        assert(qviews(queue@) =~= Seq::<Seq<char>>::empty());
    }
    while a < pm.len()
        invariant
            a <= pm@.len(),
            forall|b: int| 0 <= b < pm@.len() ==> pm@[b] < pool.messages@.len(),
            qviews(queue@) == referents_of(*pool, pm@.take(a as int)),
        decreases pm@.len() - a,
    {
        let message = &pool.messages[pm[a]];
        let none: Option<String> = None;
        enqueue(&mut queue, &message.referents, &none);
        proof {
            let run = pm@.take(a as int + 1);
            assert(run.drop_last() =~= pm@.take(a as int));
            assert(run.last() == pm@[a as int]);
            assert(owed_by(message.referents@, none) =~= message.referents@.map_values(|x: String| x@));
            assert(referents_of(*pool, run) == referents_of(*pool, pm@.take(a as int)) + pool.messages@[pm@[a as int] as int].referents@.map_values(|x: String| x@));
        }
        a = a + 1;
    }
    proof {
        assert(pm@.take(pm@.len() as int) =~= pm@);
    }
    queue
}

/// The paths of the subjects taken, as the first included set.
fn include_taken(pool: &PoolShape, pm: &Vec<usize>, pe: &Vec<usize>) -> (r: Vec<(Vec<char>, usize)>)
    requires
        forall|a: int| 0 <= a < pm@.len() ==> pm@[a] < pool.messages@.len(),
        forall|b: int| 0 <= b < pe@.len() ==> pe@[b] < pool.enums@.len(),
    ensures
        text_sorted(r@),
        forall|x: Seq<char>| #[trigger] text_has(r@, x) <==> ((exists|a: int| 0 <= a < pm@.len() && pool.messages@[(#[trigger] pm@[a]) as int].path@ == x)
            || (exists|b: int| 0 <= b < pe@.len() && pool.enums@[(#[trigger] pe@[b]) as int].path@ == x)),
{
    let mut inc: Vec<(Vec<char>, usize)> = Vec::new();
    let mut a: usize = 0;
    while a < pm.len()
        invariant
            a <= pm@.len(),
            forall|c: int| 0 <= c < pm@.len() ==> pm@[c] < pool.messages@.len(),
            text_sorted(inc@),
            forall|x: Seq<char>| #[trigger] text_has(inc@, x) <==> (exists|c: int| 0 <= c < a && pool.messages@[(#[trigger] pm@[c]) as int].path@ == x),
        decreases pm@.len() - a,
    {
        let ghost before = inc@;
        let key = chars_of(pool.messages[pm[a]].path.as_str());
        text_upsert(&mut inc, key, 0);
        proof {
            assert forall|x: Seq<char>| #[trigger] text_has(inc@, x) <==> (exists|c: int| 0 <= c < a + 1 && pool.messages@[(#[trigger] pm@[c]) as int].path@ == x) by {
                assert(text_find(inc@, x) is Some <==> text_has(inc@, x));
                assert(text_find(before, x) is Some <==> text_has(before, x));
                if x == pool.messages@[pm@[a as int] as int].path@ {
                    assert(text_find(inc@, x) is Some);
                } else if exists|c: int| 0 <= c < a + 1 && pool.messages@[(#[trigger] pm@[c]) as int].path@ == x {
                    let c = choose|c: int| 0 <= c < a + 1 && pool.messages@[(#[trigger] pm@[c]) as int].path@ == x;
                    assert(c < a);
                    assert(text_has(before, x));
                }
            }
        }
        a = a + 1;
    }
    let mut b: usize = 0;
    while b < pe.len()
        invariant
            b <= pe@.len(),
            forall|c: int| 0 <= c < pm@.len() ==> pm@[c] < pool.messages@.len(),
            forall|c: int| 0 <= c < pe@.len() ==> pe@[c] < pool.enums@.len(),
            text_sorted(inc@),
            forall|x: Seq<char>| #[trigger] text_has(inc@, x) <==> ((exists|c: int| 0 <= c < pm@.len() && pool.messages@[(#[trigger] pm@[c]) as int].path@ == x)
                || (exists|c: int| 0 <= c < b && pool.enums@[(#[trigger] pe@[c]) as int].path@ == x)),
        decreases pe@.len() - b,
    {
        let ghost before = inc@;
        let key = chars_of(pool.enums[pe[b]].path.as_str());
        text_upsert(&mut inc, key, 0);
        proof {
            assert forall|x: Seq<char>| #[trigger] text_has(inc@, x) <==> ((exists|c: int| 0 <= c < pm@.len() && pool.messages@[(#[trigger] pm@[c]) as int].path@ == x)
                || (exists|c: int| 0 <= c < b + 1 && pool.enums@[(#[trigger] pe@[c]) as int].path@ == x)) by {
                assert(text_find(inc@, x) is Some <==> text_has(inc@, x));
                assert(text_find(before, x) is Some <==> text_has(before, x));
                if x == pool.enums@[pe@[b as int] as int].path@ {
                    assert(text_find(inc@, x) is Some);
                } else if exists|c: int| 0 <= c < b + 1 && pool.enums@[(#[trigger] pe@[c]) as int].path@ == x {
                    let c = choose|c: int| 0 <= c < b + 1 && pool.enums@[(#[trigger] pe@[c]) as int].path@ == x;
                    assert(c < b);
                    assert(text_has(before, x));
                }
            }
        }
        b = b + 1;
    }
    inc
}


/// Plan the schema walk: pass one takes the subject files, their messages (map-entry synthetics
/// aside) and enums; pass two takes, from a stack of owed paths, every element a taken message
/// names and every pulled-in element's lexical parent, with its file. The plan is exactly the
/// least closed set of elements and the files they need; the walk stops at a failure when, and
/// only when, it meets one — and when a subject file fails, at the first failure of the first
/// such file: its package, else its first message that does not build, else its first enum.
#[verifier::spinoff_prover]
pub fn plan_schema(pool: &PoolShape, subjects: &Subjects) -> (r: Result<Plan, Stop>)
    requires
        pool_ok(*pool),
    ensures
        r is Ok <==> !fails(*pool, *subjects),
        r matches Ok(plan) ==> plans(*pool, *subjects, plan),
        r matches Ok(plan) ==> closed(*pool, *subjects, held(plan.messages@), held(plan.enums@)),
        r matches Err(stop) ==> stop_ok(*pool, *subjects, stop),
        r matches Err(stop) ==> first_stop(*pool, *subjects, stop),
{
    let ghost p = *pool;
    let ghost sj = *subjects;
    let mut seen: Vec<(Vec<char>, usize)> = Vec::new();
    let mut pf: Vec<usize> = Vec::new();
    let mut pm: Vec<usize> = Vec::new();
    let mut pe: Vec<usize> = Vec::new();
    match take_subjects(pool, subjects, &mut seen, &mut pf, &mut pm, &mut pe) {
        Ok(()) => {},
        Err(stop) => {
            proof {
                lemma_stop_fails(p, sj, stop);
            }
            return Err(stop);
        },
    }
    proof {
        assert forall|a: int| 0 <= a < pm@.len() implies pm@[a] < p.messages@.len() by {
            assert(held(pm@).contains(pm@[a] as int));
        }
        assert forall|b: int| 0 <= b < pe@.len() implies pe@[b] < p.enums@.len() by {
            assert(held(pe@).contains(pe@[b] as int));
        }
    }
    let by_message = index_messages(pool);
    let by_enum = index_enums(pool);
    let mut inc = include_taken(pool, &pm, &pe);
    let mut queue = queue_referents(pool, &pm);
    proof {
        lemma_start(p, sj, seen@, pf@, pm@, pe@, inc@);
    }
    while queue.len() > 0
        invariant
            p == *pool,
            sj == *subjects,
            pool_ok(p),
            text_sorted(by_message@),
            forall|q: Seq<char>| #[trigger] opt_int(text_find(by_message@, q)) == message_at(p, q),
            text_sorted(by_enum@),
            forall|q: Seq<char>| #[trigger] opt_int(text_find(by_enum@, q)) == enum_at(p, q),
            walking(p, sj, seen@, pf@, pm@, pe@, inc@, qviews(queue@)),
            subjects_clean(p, sj),
        decreases message_budget(p, held(pm@), p.messages@.len() as int) + enum_budget(held(pe@), p.enums@.len() as int)
            + queue@.len(),
    {
        let ghost q0 = queue@;
        let r = queue.pop().unwrap();
        let ghost qs = qviews(queue@);
        proof {
            assert(qviews(q0) =~= qs.push(r@));
        }
        if text_get(&inc, r.as_slice()).is_some() {
            proof {
                lemma_skip(p, sj, seen@, pf@, pm@, pe@, inc@, qs, r@);
            }
            continue;
        }
        proof {
            lemma_pending_reached(p, sj, seen@, pf@, pm@, pe@, inc@, qs, r@);
        }
        let ghost inc0 = inc@;
        text_upsert(&mut inc, r.clone(), 0);
        proof {
            assert forall|x: Seq<char>| #[trigger] text_has(inc@, x) <==> (text_has(inc0, x) || x == r@) by {
                assert(text_find(inc@, x) is Some <==> text_has(inc@, x));
                assert(text_find(inc0, x) is Some <==> text_has(inc0, x));
            }
        }
        match text_get(&by_message, r.as_slice()) {
            Some(i) => {
                proof {
                    assert(opt_int(text_find(by_message@, r@)) == message_at(p, r@));
                }
                let message = &pool.messages[i];
                if message.map_entry {
                    proof {
                        lemma_mark(p, sj, seen@, pf@, pm@, pe@, inc0, inc@, qs, r@);
                    }
                    continue;
                }
                let f = message.file;
                let ghost seen0 = seen@;
                let ghost pf0 = pf@;
                match take_file(pool, f, &mut seen, &mut pf) {
                    Ok(()) => {},
                    Err(stop) => {
                        proof {
                            assert(needed_file(p, sj, f as int)) by {
                                assert(p.messages@[i as int].file == f);
                            }
                            lemma_first_stop_clean(p, sj, stop);
                            lemma_stop_fails(p, sj, stop);
                        }
                        return Err(stop);
                    },
                }
                if !message.builds {
                    proof {
                        lemma_first_stop_clean(p, sj, Stop::Message(i));
                        lemma_stop_fails(p, sj, Stop::Message(i));
                    }
                    return Err(Stop::Message(i));
                }
                let ghost pm0 = pm@;
                let ghost pe0 = pe@;
                let ghost budget0 = message_budget(p, held(pm0), p.messages@.len() as int);
                proof {
                    assert(held(pf@).insert(f as int) =~= held(pf@));
                    lemma_take_message(p, sj, seen0, pf0, pm0, pe0, inc0, inc@, qs, r@, i, seen@, pf@);
                }
                pm.push(i);
                enqueue(&mut queue, &message.referents, &message.outer);
                proof {
                    lemma_held_push(pm0, i);
                    if held(pm0).contains(i as int) {
                        assert(text_has(inc0, p.messages@[i as int].path@));
                        assert(p.messages@[i as int].path@ == r@);
                    }
                    lemma_message_budget(p, held(pm0), i as int, p.messages@.len() as int);
                }
            },
            None => {
                proof {
                    assert(opt_int(text_find(by_message@, r@)) == message_at(p, r@));
                    assert(opt_int(text_find(by_enum@, r@)) == enum_at(p, r@));
                }
                match text_get(&by_enum, r.as_slice()) {
                    Some(j) => {
                        let enumeration = &pool.enums[j];
                        let f = enumeration.file;
                        let ghost seen0 = seen@;
                        let ghost pf0 = pf@;
                        match take_file(pool, f, &mut seen, &mut pf) {
                            Ok(()) => {},
                            Err(stop) => {
                                proof {
                                    assert(needed_file(p, sj, f as int)) by {
                                        assert(p.enums@[j as int].file == f);
                                    }
                                    lemma_first_stop_clean(p, sj, stop);
                                    lemma_stop_fails(p, sj, stop);
                                }
                                return Err(stop);
                            },
                        }
                        if !enumeration.builds {
                            proof {
                                lemma_first_stop_clean(p, sj, Stop::Enum(j));
                                lemma_stop_fails(p, sj, Stop::Enum(j));
                            }
                            return Err(Stop::Enum(j));
                        }
                        let ghost pe0 = pe@;
                        proof {
                            assert(held(pf@).insert(f as int) =~= held(pf@));
                            lemma_take_enum(p, sj, seen0, pf0, pm@, pe0, inc0, inc@, qs, r@, j, seen@, pf@);
                        }
                        pe.push(j);
                        let none: Vec<String> = Vec::new();
                        enqueue(&mut queue, &none, &enumeration.outer);
                        proof {
                            assert(none@ =~= Seq::<String>::empty());
                            lemma_held_push(pe0, j);
                            if held(pe0).contains(j as int) {
                                assert(text_has(inc0, p.enums@[j as int].path@));
                                assert(p.enums@[j as int].path@ == r@);
                            }
                            lemma_enum_budget(held(pe0), j as int, p.enums@.len() as int);
                        }
                    },
                    None => {
                        proof {
                            lemma_mark(p, sj, seen@, pf@, pm@, pe@, inc0, inc@, qs, r@);
                        }
                    },
                }
            },
        }
    }
    proof {
        assert(qviews(queue@) =~= Seq::<Seq<char>>::empty());
        lemma_finish(p, sj, seen@, pf@, pm@, pe@, inc@);
        assert forall|k: int| 0 <= k < pm@.len() implies pm@[k] < p.messages@.len() by {
            assert(held(pm@).contains(pm@[k] as int));
        }
        assert forall|k: int| 0 <= k < pe@.len() implies pe@[k] < p.enums@.len() by {
            assert(held(pe@).contains(pe@[k] as int));
        }
        assert forall|k: int| 0 <= k < pf@.len() implies pf@[k] < p.files@.len() by {
            assert(held(pf@).contains(pf@[k] as int));
        }
    }
    Ok(Plan { files: pf, messages: pm, enums: pe })
}


/// Whether the texts are distinct, no two equal.
fn texts_distinct(texts: &Vec<Vec<char>>) -> (r: bool)
    ensures
        r <==> forall|a: int, b: int| 0 <= a < b < texts@.len() ==> (#[trigger] texts@[a])@ != (#[trigger] texts@[b])@,
{
    let mut idx: Vec<(Vec<char>, usize)> = Vec::new();
    let mut i: usize = 0;
    while i < texts.len()
        invariant
            i <= texts@.len(),
            text_sorted(idx@),
            forall|q: Seq<char>| #[trigger] text_has(idx@, q) <==> exists|a: int| 0 <= a < i && texts@[a]@ == q,
            forall|a: int, b: int| 0 <= a < b < i ==> (#[trigger] texts@[a])@ != (#[trigger] texts@[b])@,
        decreases texts@.len() - i,
    {
        if text_get(&idx, texts[i].as_slice()).is_some() {
            proof {
                assert(text_has(idx@, texts@[i as int]@));
                let a = choose|a: int| 0 <= a < i && texts@[a]@ == texts@[i as int]@;
                assert(texts@[a]@ == texts@[i as int]@);
            }
            return false;
        }
        let ghost before = idx@;
        let key = texts[i].clone();
        proof {
            assert(key@ == texts@[i as int]@);
        }
        text_upsert(&mut idx, key, i);
        proof {
            assert forall|q: Seq<char>| #[trigger] text_has(idx@, q) <==> exists|a: int| 0 <= a < i + 1 && texts@[a]@ == q by {
                assert(text_find(idx@, q) is Some <==> text_has(idx@, q));
                assert(text_find(before, q) is Some <==> text_has(before, q));
                if q == texts@[i as int]@ {
                    assert(texts@[i as int]@ == q);
                } else if exists|a: int| 0 <= a < i + 1 && texts@[a]@ == q {
                    let a = choose|a: int| 0 <= a < i + 1 && texts@[a]@ == q;
                    assert(a < i);
                }
            }
        }
        i = i + 1;
    }
    true
}

/// Whether every listed position lies inside `n`, names an element filed under the listing file,
/// and no position is listed twice anywhere.
fn listings_ok(listed: &Vec<Vec<usize>>, files_of: &Vec<usize>) -> (r: bool)
    ensures
        r <==> (forall|f: int, k: int|
            0 <= f < listed@.len() && 0 <= k < listed@[f]@.len() ==> (#[trigger] listed@[f]@[k]) < files_of@.len()
                && files_of@[listed@[f]@[k] as int] == f) && (forall|f: int|
            0 <= f < listed@.len() ==> (#[trigger] listed@[f])@.no_duplicates()),
{
    let n = files_of.len();
    let mut seen: Vec<bool> = Vec::new();
    let mut i: usize = 0;
    while i < n
        invariant
            i <= n,
            n == files_of@.len(),
            seen@.len() == i,
            forall|t: int| 0 <= t < i ==> !(#[trigger] seen@[t]),
        decreases n - i,
    {
        seen.push(false);
        i = i + 1;
    }
    let mut f: usize = 0;
    while f < listed.len()
        invariant
            f <= listed@.len(),
            n == files_of@.len(),
            seen@.len() == n,
            forall|g: int, k: int|
                0 <= g < f && 0 <= k < listed@[g]@.len() ==> (#[trigger] listed@[g]@[k]) < n && files_of@[listed@[g]@[k] as int] == g,
            forall|g: int| 0 <= g < f ==> (#[trigger] listed@[g])@.no_duplicates(),
            forall|x: int| 0 <= x < n ==> (#[trigger] seen@[x] ==> files_of@[x] < f),
        decreases listed@.len() - f,
    {
        let list = &listed[f];
        let mut k: usize = 0;
        while k < list.len()
            invariant
                f < listed@.len(),
                *list == listed@[f as int],
                k <= list@.len(),
                n == files_of@.len(),
                seen@.len() == n,
                forall|g: int, t: int|
                    0 <= g < f && 0 <= t < listed@[g]@.len() ==> (#[trigger] listed@[g]@[t]) < n && files_of@[listed@[g]@[t] as int] == g,
                forall|g: int| 0 <= g < f ==> (#[trigger] listed@[g])@.no_duplicates(),
                forall|t: int| 0 <= t < k ==> (#[trigger] list@[t]) < n && files_of@[list@[t] as int] == f && seen@[list@[t] as int],
                forall|a: int, b: int| 0 <= a < b < k ==> (#[trigger] list@[a]) != (#[trigger] list@[b]),
                forall|x: int| 0 <= x < n ==> (#[trigger] seen@[x] ==> (files_of@[x] < f || (files_of@[x] == f && exists|t: int| 0 <= t < k && list@[t] == x))),
            decreases list@.len() - k,
        {
            let x = list[k];
            if x >= n || files_of[x] != f {
                return false;
            }
            if seen[x] {
                proof {
                    let t = choose|t: int| 0 <= t < k && list@[t] == x;
                    assert(list@[t] == list@[k as int]);
                    assert(!listed@[f as int]@.no_duplicates());
                }
                return false;
            }
            seen.set(x, true);
            k = k + 1;
        }
        f = f + 1;
    }
    true
}

/// Whether the pool is one the walk reads: positions inside it, each element filed under the
/// file that lists it and listed once, paths and names distinct, and packages short enough to
/// parse.
pub fn pool_is_ok(pool: &PoolShape) -> (r: bool)
    ensures
        r == pool_ok(*pool),
{
    let ghost p = *pool;
    // Every element's file lies inside the pool.
    let mut message_files: Vec<usize> = Vec::new();
    let mut i: usize = 0;
    while i < pool.messages.len()
        invariant
            i <= p.messages@.len(),
            p == *pool,
            message_files@.len() == i,
            forall|t: int| 0 <= t < i ==> #[trigger] message_files@[t] == p.messages@[t].file,
            forall|t: int| 0 <= t < i ==> (#[trigger] p.messages@[t]).file < p.files@.len(),
        decreases p.messages@.len() - i,
    {
        if pool.messages[i].file >= pool.files.len() {
            return false;
        }
        message_files.push(pool.messages[i].file);
        i = i + 1;
    }
    let mut enum_files: Vec<usize> = Vec::new();
    let mut j: usize = 0;
    while j < pool.enums.len()
        invariant
            j <= p.enums@.len(),
            p == *pool,
            enum_files@.len() == j,
            forall|t: int| 0 <= t < j ==> #[trigger] enum_files@[t] == p.enums@[t].file,
            forall|t: int| 0 <= t < j ==> (#[trigger] p.enums@[t]).file < p.files@.len(),
        decreases p.enums@.len() - j,
    {
        if pool.enums[j].file >= pool.files.len() {
            return false;
        }
        enum_files.push(pool.enums[j].file);
        j = j + 1;
    }
    // The files' listings, their names, and their packages.
    let mut message_lists: Vec<Vec<usize>> = Vec::new();
    let mut enum_lists: Vec<Vec<usize>> = Vec::new();
    let mut names: Vec<Vec<char>> = Vec::new();
    let mut f: usize = 0;
    while f < pool.files.len()
        invariant
            f <= p.files@.len(),
            p == *pool,
            message_lists@.len() == f,
            enum_lists@.len() == f,
            names@.len() == f,
            forall|t: int| 0 <= t < f ==> (#[trigger] message_lists@[t])@ == p.files@[t].messages@,
            forall|t: int| 0 <= t < f ==> (#[trigger] enum_lists@[t])@ == p.files@[t].enums@,
            forall|t: int| 0 <= t < f ==> (#[trigger] names@[t])@ == p.files@[t].name@,
            forall|t: int| 0 <= t < f ==> (#[trigger] p.files@[t]).package@.len() < usize::MAX,
        decreases p.files@.len() - f,
    {
        let file = &pool.files[f];
        if file.package.as_str().unicode_len() == usize::MAX {
            return false;
        }
        let ms = file.messages.clone();
        let es = file.enums.clone();
        proof {
            assert(ms@ =~= file.messages@);
            assert(es@ =~= file.enums@);
        }
        message_lists.push(ms);
        enum_lists.push(es);
        names.push(chars_of(file.name.as_str()));
        f = f + 1;
    }
    if !listings_ok(&message_lists, &message_files) || !listings_ok(&enum_lists, &enum_files) {
        return false;
    }
    if !texts_distinct(&names) {
        return false;
    }
    let mut paths: Vec<Vec<char>> = Vec::new();
    let mut t: usize = 0;
    while t < pool.messages.len()
        invariant
            t <= p.messages@.len(),
            p == *pool,
            paths@.len() == t,
            forall|a: int| 0 <= a < t ==> (#[trigger] paths@[a])@ == p.messages@[a].path@,
        decreases p.messages@.len() - t,
    {
        paths.push(chars_of(pool.messages[t].path.as_str()));
        t = t + 1;
    }
    let mut u: usize = 0;
    while u < pool.enums.len()
        invariant
            u <= p.enums@.len(),
            p == *pool,
            paths@.len() == p.messages@.len() + u,
            forall|a: int| 0 <= a < p.messages@.len() ==> (#[trigger] paths@[a])@ == p.messages@[a].path@,
            forall|a: int| 0 <= a < u ==> (#[trigger] paths@[p.messages@.len() + a])@ == p.enums@[a].path@,
        decreases p.enums@.len() - u,
    {
        paths.push(chars_of(pool.enums[u].path.as_str()));
        u = u + 1;
    }
    let distinct = texts_distinct(&paths);
    proof {
        let nm = p.messages@.len() as int;
        if distinct {
            assert forall|f: int, k: int|
                0 <= f < p.files@.len() && 0 <= k < p.files@[f].messages@.len() implies (#[trigger] p.files@[f].messages@[k])
                    < p.messages@.len() && p.messages@[p.files@[f].messages@[k] as int].file == f by {
                assert(message_lists@[f]@ == p.files@[f].messages@);
                assert(message_lists@[f]@[k] < message_files@.len());
                assert(message_files@[message_lists@[f]@[k] as int] == f);
            }
            assert forall|f: int, k: int|
                0 <= f < p.files@.len() && 0 <= k < p.files@[f].enums@.len() implies (#[trigger] p.files@[f].enums@[k])
                    < p.enums@.len() && p.enums@[p.files@[f].enums@[k] as int].file == f by {
                assert(enum_lists@[f]@ == p.files@[f].enums@);
                assert(enum_lists@[f]@[k] < enum_files@.len());
                assert(enum_files@[enum_lists@[f]@[k] as int] == f);
            }
            assert forall|f: int| 0 <= f < p.files@.len() implies (#[trigger] p.files@[f]).messages@.no_duplicates() by {
                assert(message_lists@[f]@ == p.files@[f].messages@);
                assert(message_lists@[f]@.no_duplicates());
            }
            assert forall|f: int| 0 <= f < p.files@.len() implies (#[trigger] p.files@[f]).enums@.no_duplicates() by {
                assert(enum_lists@[f]@ == p.files@[f].enums@);
                assert(enum_lists@[f]@.no_duplicates());
            }
            assert forall|a: int, b: int| 0 <= a < b < p.files@.len() implies (#[trigger] p.files@[a]).name@
                != (#[trigger] p.files@[b]).name@ by {
                assert(names@[a]@ != names@[b]@);
            }
            assert forall|a: int, b: int| 0 <= a < b < nm implies (#[trigger] p.messages@[a]).path@
                != (#[trigger] p.messages@[b]).path@ by {
                assert(paths@[a]@ != paths@[b]@);
            }
            assert forall|a: int, b: int| 0 <= a < b < p.enums@.len() implies (#[trigger] p.enums@[a]).path@
                != (#[trigger] p.enums@[b]).path@ by {
                assert(paths@[nm + a]@ != paths@[nm + b]@);
            }
            assert forall|a: int, b: int| 0 <= a < nm && 0 <= b < p.enums@.len() implies (#[trigger] p.messages@[a]).path@
                != (#[trigger] p.enums@[b]).path@ by {
                assert(paths@[a]@ != paths@[nm + b]@);
            }
        } else {
            let (a, b) = choose|a: int, b: int| 0 <= a < b < paths@.len() && !((#[trigger] paths@[a])@ != (#[trigger] paths@[b])@);
            if b < nm {
                assert(p.messages@[a].path@ == p.messages@[b].path@);
            } else if a < nm {
                assert(paths@[nm + (b - nm)]@ == p.enums@[b - nm].path@);
                assert(p.messages@[a].path@ == p.enums@[b - nm].path@);
            } else {
                assert(paths@[nm + (a - nm)]@ == p.enums@[a - nm].path@);
                assert(paths@[nm + (b - nm)]@ == p.enums@[b - nm].path@);
                assert(p.enums@[a - nm].path@ == p.enums@[b - nm].path@);
            }
        }
    }
    distinct
}

} // verus!
