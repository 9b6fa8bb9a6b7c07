//! The schema, assembled from the walk's plan: the planned files, messages, and enums, each
//! kind in its deterministic order (files by name, messages and enums by path), and every
//! message marked for the containment cycles it takes part in.
use vstd::prelude::*;

use crate::descriptor::builders::field_referents;
use crate::descriptor::closure::{closed, enum_at, fails, first_stop, held, lands, message_at, needed_file, plan_schema, pool_ok, reached_enum, reached_message, seed_enum, seed_message, stop_ok, FileShape, PoolShape, Stop, Subjects};
use crate::descriptor::model::{Enum, File, FqName, Message, Package, Schema};
use crate::descriptor::order::{in_order, lemma_in_order, sort_stably, Ordered};
use crate::descriptor::recursion::{edge, is_recursive, mark, reaches};
use crate::diagnostics::Diagnostics;
use crate::text::{lemma_seq_lt_total, owned, seq_lt};

verus! {

/// Which messages the walk reaches, by position.
pub open spec fn message_flags(p: PoolShape, s: Subjects) -> Seq<bool> {
    Seq::new(p.messages@.len(), |i: int| reached_message(p, s, i))
}

/// Which enums the walk reaches, by position.
pub open spec fn enum_flags(p: PoolShape, s: Subjects) -> Seq<bool> {
    Seq::new(p.enums@.len(), |j: int| reached_enum(p, s, j))
}

/// Which files the walk takes, by position.
pub open spec fn file_flags(p: PoolShape, s: Subjects) -> Seq<bool> {
    Seq::new(p.files@.len(), |f: int| needed_file(p, s, f))
}

/// The built values at the flagged positions, in the pool's order.
pub open spec fn picked<T>(built: Seq<Result<T, Diagnostics>>, flags: Seq<bool>) -> Seq<T>
    decreases built.len(),
{
    if built.len() == 0 {
        Seq::empty()
    } else {
        let init = picked(built.drop_last(), flags);
        if flags[built.len() - 1] {
            init.push(built.last()->Ok_0)
        } else {
            init
        }
    }
}

/// The file shapes at the flagged positions, in the pool's order.
pub open spec fn picked_files(files: Seq<FileShape>, flags: Seq<bool>) -> Seq<FileShape>
    decreases files.len(),
{
    if files.len() == 0 {
        Seq::empty()
    } else {
        let init = picked_files(files.drop_last(), flags);
        if flags[files.len() - 1] {
            init.push(files.last())
        } else {
            init
        }
    }
}

/// Whether the files are the shapes', one for one: each its shape's name and package.
pub open spec fn files_built(fs: Seq<File>, shapes: Seq<FileShape>) -> bool {
    &&& fs.len() == shapes.len()
    &&& forall|k: int|
        0 <= k < fs.len() ==> (#[trigger] fs[k]).name@ == shapes[k].name@ && fs[k].package.spec_text()
            == shapes[k].package@
}

/// The messages in order, each marked for the cycles it takes part in.
pub open spec fn marked_all(ms: Seq<Message>) -> Seq<Message> {
    Seq::new(ms.len(), |i: int| ms[i].marked(is_recursive(ms, ms[i].spec_path())))
}

/// Whether `d` is what the stop reports: the package refusal, or the element's own build
/// refusal.
pub open spec fn reported(
    stop: Stop,
    messages: Seq<Result<Message, Diagnostics>>,
    enums: Seq<Result<Enum, Diagnostics>>,
    d: Diagnostics,
) -> bool {
    match stop {
        Stop::Package(_, e) => d == e,
        Stop::Message(i) => messages[i as int] == Err::<Message, Diagnostics>(d),
        Stop::Enum(j) => enums[j as int] == Err::<Enum, Diagnostics>(d),
    }
}

/// Strings as their texts.
pub open spec fn string_texts(v: Seq<String>) -> Seq<Seq<char>> {
    v.map_values(|x: String| x@)
}

/// A name a built element carries, as text.
pub open spec fn name_text(o: Option<FqName>) -> Option<Seq<char>> {
    match o {
        Some(n) => Some(n@),
        None => None,
    }
}

/// A name a shape carries, as text.
pub open spec fn string_text(o: Option<String>) -> Option<Seq<char>> {
    match o {
        Some(n) => Some(n@),
        None => None,
    }
}

/// Whether each built element is its shape's own: a built message has its shape's path, file
/// name, and lexical parent and names, in field order, its shape's referents; a built enum has
/// its shape's path, file name, and lexical parent.
pub open spec fn builds_match(
    p: PoolShape,
    messages: Seq<Result<Message, Diagnostics>>,
    enums: Seq<Result<Enum, Diagnostics>>,
) -> bool {
    &&& forall|i: int|
        0 <= i < messages.len() && (#[trigger] messages[i]) is Ok ==> {
            &&& messages[i]->Ok_0.spec_path() == p.messages@[i].path@
            &&& messages[i]->Ok_0.spec_file() == p.files@[p.messages@[i].file as int].name@
            &&& field_referents(messages[i]->Ok_0.spec_fields()) == string_texts(p.messages@[i].referents@)
            &&& name_text(messages[i]->Ok_0.spec_outer()) == string_text(p.messages@[i].outer)
        }
    &&& forall|j: int|
        0 <= j < enums.len() && (#[trigger] enums[j]) is Ok ==> {
            &&& enums[j]->Ok_0.spec_path() == p.enums@[j].path@
            &&& enums[j]->Ok_0.spec_file() == p.files@[p.enums@[j].file as int].name@
            &&& name_text(enums[j]->Ok_0.spec_outer()) == string_text(p.enums@[j].outer)
        }
}

/// Whether a referent resolves in the pool: to a message that is no map-entry synthetic, or to
/// an enum.
pub open spec fn referent_resolves(p: PoolShape, r: Seq<char>) -> bool {
    match message_at(p, r) {
        Some(t) => !p.messages@[t].map_entry,
        None => enum_at(p, r) is Some,
    }
}

/// Whether a lexical parent resolves in the pool: to a message of file `f` that is no map-entry
/// synthetic.
pub open spec fn parent_resolves(p: PoolShape, o: Seq<char>, f: usize) -> bool {
    match message_at(p, o) {
        Some(t) => !p.messages@[t].map_entry && p.messages@[t].file == f,
        None => false,
    }
}

/// Whether a nested element's path extends its parent's: the parent's path, a dot, and more.
pub open spec fn extends(path: Seq<char>, parent: Seq<char>) -> bool {
    &&& path.len() > parent.len() + 1
    &&& path.subrange(0, parent.len() as int) == parent
    &&& path[parent.len() as int] == '.'
}

/// Whether message `i` is listed among its file's messages.
pub open spec fn listed_message(p: PoolShape, i: int) -> bool {
    exists|k: int|
        0 <= k < p.files@[p.messages@[i].file as int].messages@.len()
            && #[trigger] p.files@[p.messages@[i].file as int].messages@[k] == i
}

/// Whether enum `j` is listed among its file's enums.
pub open spec fn listed_enum(p: PoolShape, j: int) -> bool {
    exists|k: int|
        0 <= k < p.files@[p.enums@[j].file as int].enums@.len()
            && #[trigger] p.files@[p.enums@[j].file as int].enums@[k] == j
}

/// Whether the names the pool's shapes carry resolve within it and each element is listed by
/// its file — what a pool a descriptor engine built guarantees: every referent names a message or
/// an enum, every lexical parent a message of the same file whose path the nested one extends.
pub open spec fn pool_resolves(p: PoolShape) -> bool {
    &&& forall|i: int| 0 <= i < p.messages@.len() ==> #[trigger] listed_message(p, i)
    &&& forall|j: int| 0 <= j < p.enums@.len() ==> #[trigger] listed_enum(p, j)
    &&& forall|i: int, k: int|
        0 <= i < p.messages@.len() && 0 <= k < p.messages@[i].referents@.len() ==> referent_resolves(
            p,
            (#[trigger] p.messages@[i].referents@[k])@,
        )
    &&& forall|i: int|
        0 <= i < p.messages@.len() ==> match (#[trigger] p.messages@[i]).outer {
            Some(o) => parent_resolves(p, o@, p.messages@[i].file) && extends(p.messages@[i].path@, o@),
            None => true,
        }
    &&& forall|j: int|
        0 <= j < p.enums@.len() ==> match (#[trigger] p.enums@[j]).outer {
            Some(o) => parent_resolves(p, o@, p.enums@[j].file) && extends(p.enums@[j].path@, o@),
            None => true,
        }
}

/// Whether a path names one of the messages.
pub open spec fn has_message(ms: Seq<Message>, r: Seq<char>) -> bool {
    exists|k: int| 0 <= k < ms.len() && (#[trigger] ms[k]).spec_path() == r
}

/// Whether a path names one of the enums.
pub open spec fn has_enum(es: Seq<Enum>, r: Seq<char>) -> bool {
    exists|k: int| 0 <= k < es.len() && (#[trigger] es[k]).spec_path() == r
}

/// Whether the messages and enums are closed under what they name: every referent a message's
/// fields name is one of the messages or enums, and every message's and enum's lexical parent is
/// one of the messages, whose path the nested one's extends.
pub open spec fn names_closed(ms: Seq<Message>, es: Seq<Enum>) -> bool {
    &&& forall|k: int, t: int|
        0 <= k < ms.len() && 0 <= t < field_referents(ms[k].spec_fields()).len() ==> has_message(
            ms,
            #[trigger] field_referents(ms[k].spec_fields())[t],
        ) || has_enum(es, field_referents(ms[k].spec_fields())[t])
    &&& forall|k: int|
        0 <= k < ms.len() ==> match (#[trigger] ms[k]).spec_outer() {
            Some(o) => has_message(ms, o@) && extends(ms[k].spec_path(), o@),
            None => true,
        }
    &&& forall|k: int|
        0 <= k < es.len() ==> match (#[trigger] es[k]).spec_outer() {
            Some(o) => has_message(ms, o@) && extends(es[k].spec_path(), o@),
            None => true,
        }
}

/// Whether one of the files carries the name.
pub open spec fn file_named(fs: Seq<File>, name: Seq<char>) -> bool {
    exists|f: int| 0 <= f < fs.len() && (#[trigger] fs[f]).name@ == name
}

/// Whether every message's and enum's file is one of the files, by name.
pub open spec fn files_listed(ms: Seq<Message>, es: Seq<Enum>, fs: Seq<File>) -> bool {
    &&& forall|k: int| 0 <= k < ms.len() ==> file_named(fs, (#[trigger] ms[k]).spec_file())
    &&& forall|k: int| 0 <= k < es.len() ==> file_named(fs, (#[trigger] es[k]).spec_file())
}

/// Whether each message carries the mark exactly when it lies on a containment cycle among the
/// messages themselves.
pub open spec fn marks_cycles(ms: Seq<Message>) -> bool {
    forall|k: int| 0 <= k < ms.len() ==> ((#[trigger] ms[k]).spec_recursive() <==> is_recursive(ms, ms[k].spec_path()))
}

/// A value picked is built at a flagged position.
proof fn lemma_picked_from<T>(built: Seq<Result<T, Diagnostics>>, flags: Seq<bool>, x: T)
    requires
        built.len() <= flags.len(),
        forall|i: int| 0 <= i < built.len() && #[trigger] flags[i] ==> built[i] is Ok,
        picked(built, flags).contains(x),
    ensures
        exists|i: int| 0 <= i < built.len() && #[trigger] flags[i] && built[i] == Ok::<T, Diagnostics>(x),
    decreases built.len(),
{
    if built.len() > 0 {
        let last = built.len() - 1;
        let init = picked(built.drop_last(), flags);
        if init.contains(x) {
            lemma_picked_from(built.drop_last(), flags, x);
            let i = choose|i: int| 0 <= i < built.drop_last().len() && #[trigger] flags[i] && built.drop_last()[i] == Ok::<T, Diagnostics>(x);
            assert(built[i] == built.drop_last()[i]);
        } else {
            assert(flags[last]);
            assert(built[last] is Ok);
            assert(built[last] == Ok::<T, Diagnostics>(x));
        }
    }
}

/// A value built at a flagged position is picked.
proof fn lemma_picked_has<T>(built: Seq<Result<T, Diagnostics>>, flags: Seq<bool>, i: int)
    requires
        0 <= i < built.len() <= flags.len(),
        flags[i],
    ensures
        picked(built, flags).contains(built[i]->Ok_0),
    decreases built.len(),
{
    let last = built.len() - 1;
    let init = picked(built.drop_last(), flags);
    if i == last {
        assert(picked(built, flags) == init.push(built.last()->Ok_0));
        assert(picked(built, flags)[init.len() as int] == built[i]->Ok_0);
    } else {
        lemma_picked_has(built.drop_last(), flags, i);
        assert(built.drop_last()[i] == built[i]);
        let k = choose|k: int| 0 <= k < init.len() && init[k] == built[i]->Ok_0;
        if flags[last] {
            assert(picked(built, flags)[k] == init[k]);
        }
    }
}

/// A reached message is among the assembled messages, under its path.
proof fn lemma_message_present(
    p: PoolShape,
    s: Subjects,
    messages: Seq<Result<Message, Diagnostics>>,
    enums: Seq<Result<Enum, Diagnostics>>,
    i: int,
)
    requires
        messages.len() == p.messages@.len(),
        0 <= i < messages.len(),
        reached_message(p, s, i),
        messages[i] is Ok,
        builds_match(p, messages, enums),
    ensures
        has_message(marked_all(in_order(picked(messages, message_flags(p, s)))), p.messages@[i].path@),
{
    broadcast use vstd::seq_lib::group_to_multiset_ensures;

    let flags = message_flags(p, s);
    assert(flags[i]);
    lemma_picked_has(messages, flags, i);
    let pk = picked(messages, flags);
    let srt = in_order(pk);
    lemma_in_order(pk);
    let x = messages[i]->Ok_0;
    assert(pk.to_multiset().count(x) > 0);
    assert(srt.contains(x));
    let k = choose|k: int| 0 <= k < srt.len() && srt[k] == x;
    x.lemma_marked(is_recursive(srt, x.spec_path()));
    assert(marked_all(srt)[k].spec_path() == p.messages@[i].path@);
}

/// A reached enum is among the assembled enums, under its path.
proof fn lemma_enum_present(
    p: PoolShape,
    s: Subjects,
    messages: Seq<Result<Message, Diagnostics>>,
    enums: Seq<Result<Enum, Diagnostics>>,
    j: int,
)
    requires
        enums.len() == p.enums@.len(),
        0 <= j < enums.len(),
        reached_enum(p, s, j),
        enums[j] is Ok,
        builds_match(p, messages, enums),
    ensures
        has_enum(in_order(picked(enums, enum_flags(p, s))), p.enums@[j].path@),
{
    broadcast use vstd::seq_lib::group_to_multiset_ensures;

    let flags = enum_flags(p, s);
    assert(flags[j]);
    lemma_picked_has(enums, flags, j);
    let pk = picked(enums, flags);
    let srt = in_order(pk);
    lemma_in_order(pk);
    let x = enums[j]->Ok_0;
    assert(pk.to_multiset().count(x) > 0);
    assert(srt.contains(x));
    let k = choose|k: int| 0 <= k < srt.len() && srt[k] == x;
    assert(srt[k].spec_path() == p.enums@[j].path@);
}

/// An assembled message came from a reached position whose build it is.
proof fn lemma_message_origin(p: PoolShape, s: Subjects, messages: Seq<Result<Message, Diagnostics>>, k: int) -> (i: int)
    requires
        messages.len() == p.messages@.len(),
        forall|i: int| 0 <= i < messages.len() && reached_message(p, s, i) ==> (#[trigger] messages[i]) is Ok,
        0 <= k < in_order(picked(messages, message_flags(p, s))).len(),
    ensures
        0 <= i < messages.len(),
        reached_message(p, s, i),
        messages[i] == Ok::<Message, Diagnostics>(in_order(picked(messages, message_flags(p, s)))[k]),
{
    broadcast use vstd::seq_lib::group_to_multiset_ensures;

    let flags = message_flags(p, s);
    let pk = picked(messages, flags);
    let srt = in_order(pk);
    lemma_in_order(pk);
    let x = srt[k];
    assert(srt.to_multiset().count(x) > 0);
    assert(pk.contains(x));
    assert forall|i: int| 0 <= i < messages.len() && #[trigger] flags[i] implies messages[i] is Ok by {
        assert(reached_message(p, s, i));
    }
    lemma_picked_from(messages, flags, x);
    let i = choose|i: int| 0 <= i < messages.len() && #[trigger] flags[i] && messages[i] == Ok::<Message, Diagnostics>(x);
    i
}

/// An assembled enum came from a reached position whose build it is.
proof fn lemma_enum_origin(p: PoolShape, s: Subjects, enums: Seq<Result<Enum, Diagnostics>>, k: int) -> (j: int)
    requires
        enums.len() == p.enums@.len(),
        forall|j: int| 0 <= j < enums.len() && reached_enum(p, s, j) ==> (#[trigger] enums[j]) is Ok,
        0 <= k < in_order(picked(enums, enum_flags(p, s))).len(),
    ensures
        0 <= j < enums.len(),
        reached_enum(p, s, j),
        enums[j] == Ok::<Enum, Diagnostics>(in_order(picked(enums, enum_flags(p, s)))[k]),
{
    broadcast use vstd::seq_lib::group_to_multiset_ensures;

    let flags = enum_flags(p, s);
    let pk = picked(enums, flags);
    let srt = in_order(pk);
    lemma_in_order(pk);
    let x = srt[k];
    assert(srt.to_multiset().count(x) > 0);
    assert(pk.contains(x));
    assert forall|j: int| 0 <= j < enums.len() && #[trigger] flags[j] implies enums[j] is Ok by {
        assert(reached_enum(p, s, j));
    }
    lemma_picked_from(enums, flags, x);
    let j = choose|j: int| 0 <= j < enums.len() && #[trigger] flags[j] && enums[j] == Ok::<Enum, Diagnostics>(x);
    j
}

/// A parent that resolves, of an element reached from its own file's subjects or pulled in by the
/// closure, is itself reached.
proof fn lemma_parent_reached(
    p: PoolShape,
    s: Subjects,
    ms: Set<int>,
    es: Set<int>,
    o: Seq<char>,
    f: usize,
    seeded: bool,
)
    requires
        pool_ok(p),
        pool_resolves(p),
        closed(p, s, ms, es),
        forall|i: int| 0 <= i < p.messages@.len() ==> (ms.contains(i) <==> reached_message(p, s, i)),
        parent_resolves(p, o, f),
        seeded ==> f < p.files@.len() && crate::descriptor::closure::is_subject_view(s, p.files@[f as int].name@),
        !seeded ==> lands(p, o, ms, es),
    ensures
        reached_message(p, s, message_at(p, o)->Some_0),
        p.messages@[message_at(p, o)->Some_0].path@ == o,
{
    let t = message_at(p, o)->Some_0;
    assert(0 <= t < p.messages@.len() && p.messages@[t].path@ == o);
    if seeded {
        assert(listed_message(p, t));
        let k = choose|k: int|
            0 <= k < p.files@[p.messages@[t].file as int].messages@.len()
                && #[trigger] p.files@[p.messages@[t].file as int].messages@[k] == t;
        assert(p.files@[f as int].messages@[k] == t);
        assert(seed_message(p, s, t));
    }
    assert(ms.contains(t));
}

/// The assembled messages and enums are closed under what they name, when the builds are the
/// shapes' own and the pool's names resolve.
proof fn lemma_names_closed(
    p: PoolShape,
    s: Subjects,
    ms: Set<int>,
    es: Set<int>,
    messages: Seq<Result<Message, Diagnostics>>,
    enums: Seq<Result<Enum, Diagnostics>>,
)
    requires
        pool_ok(p),
        pool_resolves(p),
        builds_match(p, messages, enums),
        messages.len() == p.messages@.len(),
        enums.len() == p.enums@.len(),
        forall|i: int| 0 <= i < messages.len() ==> ((#[trigger] messages[i]) is Ok <==> p.messages@[i].builds),
        forall|j: int| 0 <= j < enums.len() ==> ((#[trigger] enums[j]) is Ok <==> p.enums@[j].builds),
        !fails(p, s),
        closed(p, s, ms, es),
        forall|i: int| 0 <= i < p.messages@.len() ==> (ms.contains(i) <==> reached_message(p, s, i)),
        forall|j: int| 0 <= j < p.enums@.len() ==> (es.contains(j) <==> reached_enum(p, s, j)),
    ensures
        names_closed(
            marked_all(in_order(picked(messages, message_flags(p, s)))),
            in_order(picked(enums, enum_flags(p, s))),
        ),
{
    let srt = in_order(picked(messages, message_flags(p, s)));
    let all = marked_all(srt);
    let ens = in_order(picked(enums, enum_flags(p, s)));
    lemma_in_order(picked(messages, message_flags(p, s)));
    assert forall|i: int| 0 <= i < messages.len() && reached_message(p, s, i) implies (#[trigger] messages[i]) is Ok by {
        assert(p.messages@[i].builds);
    }
    assert forall|j: int| 0 <= j < enums.len() && reached_enum(p, s, j) implies (#[trigger] enums[j]) is Ok by {
        assert(p.enums@[j].builds);
    }
    assert forall|k: int, t: int|
        0 <= k < all.len() && 0 <= t < field_referents(all[k].spec_fields()).len() implies has_message(
            all,
            #[trigger] field_referents(all[k].spec_fields())[t],
        ) || has_enum(ens, field_referents(all[k].spec_fields())[t]) by {
        let i = lemma_message_origin(p, s, messages, k);
        srt[k].lemma_marked(is_recursive(srt, srt[k].spec_path()));
        let r = p.messages@[i].referents@[t]@;
        assert(field_referents(all[k].spec_fields())[t] == r);
        assert(ms.contains(i));
        assert(lands(p, (p.messages@[i].referents@[t])@, ms, es));
        assert(referent_resolves(p, (p.messages@[i].referents@[t])@));
        match message_at(p, r) {
            Some(u) => {
                assert(0 <= u < p.messages@.len() && p.messages@[u].path@ == r);
                assert(ms.contains(u));
                lemma_message_present(p, s, messages, enums, u);
            },
            None => {
                let u = enum_at(p, r)->Some_0;
                assert(0 <= u < p.enums@.len() && p.enums@[u].path@ == r);
                assert(es.contains(u));
                lemma_enum_present(p, s, messages, enums, u);
            },
        }
    }
    assert forall|k: int| 0 <= k < all.len() implies match (#[trigger] all[k]).spec_outer() {
        Some(o) => has_message(all, o@) && extends(all[k].spec_path(), o@),
        None => true,
    } by {
        let i = lemma_message_origin(p, s, messages, k);
        srt[k].lemma_marked(is_recursive(srt, srt[k].spec_path()));
        if let Some(o) = all[k].spec_outer() {
            let o2 = p.messages@[i].outer->Some_0;
            assert(string_text(p.messages@[i].outer) == Some(o@));
            assert(o2@ == o@);
            assert(parent_resolves(p, o2@, p.messages@[i].file));
            assert(ms.contains(i));
            let seeded = seed_message(p, s, i);
            if seeded {
                let (f, k2) = choose|f: int, k2: int|
                    0 <= f < p.files@.len() && crate::descriptor::closure::is_subject_view(s, p.files@[f].name@) && 0 <= k2
                        < p.files@[f].messages@.len() && #[trigger] p.files@[f].messages@[k2] == i;
                assert(p.messages@[i].file == f);
            }
            lemma_parent_reached(p, s, ms, es, o2@, p.messages@[i].file, seeded);
            let u = message_at(p, o2@)->Some_0;
            lemma_message_present(p, s, messages, enums, u);
            assert(extends(p.messages@[i].path@, o2@));
        }
    }
    assert forall|k: int| 0 <= k < ens.len() implies match (#[trigger] ens[k]).spec_outer() {
        Some(o) => has_message(all, o@) && extends(ens[k].spec_path(), o@),
        None => true,
    } by {
        let j = lemma_enum_origin(p, s, enums, k);
        if let Some(o) = ens[k].spec_outer() {
            let o2 = p.enums@[j].outer->Some_0;
            assert(string_text(p.enums@[j].outer) == Some(o@));
            assert(o2@ == o@);
            assert(parent_resolves(p, o2@, p.enums@[j].file));
            assert(es.contains(j));
            let seeded = seed_enum(p, s, j);
            if seeded {
                let (f, k2) = choose|f: int, k2: int|
                    0 <= f < p.files@.len() && crate::descriptor::closure::is_subject_view(s, p.files@[f].name@) && 0 <= k2
                        < p.files@[f].enums@.len() && #[trigger] p.files@[f].enums@[k2] == j;
                assert(p.enums@[j].file == f);
            }
            lemma_parent_reached(p, s, ms, es, o2@, p.enums@[j].file, seeded);
            let u = message_at(p, o2@)->Some_0;
            lemma_message_present(p, s, messages, enums, u);
            assert(extends(p.enums@[j].path@, o2@));
        }
    }
}

/// A file shape at a flagged position is among the picked ones.
proof fn lemma_picked_files_has(files: Seq<FileShape>, flags: Seq<bool>, f: int)
    requires
        0 <= f < files.len() <= flags.len(),
        flags[f],
    ensures
        exists|k: int| 0 <= k < picked_files(files, flags).len() && picked_files(files, flags)[k] == files[f],
    decreases files.len(),
{
    let last = files.len() - 1;
    let init = picked_files(files.drop_last(), flags);
    if f == last {
        assert(picked_files(files, flags) == init.push(files.last()));
        assert(picked_files(files, flags)[init.len() as int] == files[f]);
    } else {
        lemma_picked_files_has(files.drop_last(), flags, f);
        assert(files.drop_last()[f] == files[f]);
        let k = choose|k: int| 0 <= k < init.len() && init[k] == files.drop_last()[f];
        if flags[last] {
            assert(picked_files(files, flags) == init.push(files.last()));
            assert(picked_files(files, flags)[k] == init[k]);
        } else {
            assert(picked_files(files, flags) == init);
        }
        assert(picked_files(files, flags)[k] == files[f]);
    }
}

/// Every assembled message's and enum's file is one of the assembled files, by name.
proof fn lemma_files_listed(
    p: PoolShape,
    s: Subjects,
    messages: Seq<Result<Message, Diagnostics>>,
    enums: Seq<Result<Enum, Diagnostics>>,
    fs: Seq<File>,
)
    requires
        pool_ok(p),
        builds_match(p, messages, enums),
        messages.len() == p.messages@.len(),
        enums.len() == p.enums@.len(),
        forall|i: int| 0 <= i < messages.len() ==> ((#[trigger] messages[i]) is Ok <==> p.messages@[i].builds),
        forall|j: int| 0 <= j < enums.len() ==> ((#[trigger] enums[j]) is Ok <==> p.enums@[j].builds),
        !fails(p, s),
        files_built(fs, picked_files(p.files@, file_flags(p, s))),
    ensures
        files_listed(
            marked_all(in_order(picked(messages, message_flags(p, s)))),
            in_order(picked(enums, enum_flags(p, s))),
            in_order(fs),
        ),
{
    broadcast use vstd::seq_lib::group_to_multiset_ensures;

    let srt = in_order(picked(messages, message_flags(p, s)));
    let all = marked_all(srt);
    let ens = in_order(picked(enums, enum_flags(p, s)));
    let sorted = in_order(fs);
    let flags = file_flags(p, s);
    lemma_in_order(fs);
    lemma_in_order(picked(messages, message_flags(p, s)));
    assert forall|i: int| 0 <= i < messages.len() && reached_message(p, s, i) implies (#[trigger] messages[i]) is Ok by {
        assert(p.messages@[i].builds);
    }
    assert forall|j: int| 0 <= j < enums.len() && reached_enum(p, s, j) implies (#[trigger] enums[j]) is Ok by {
        assert(p.enums@[j].builds);
    }
    assert forall|fi: int| 0 <= fi < p.files@.len() && #[trigger] flags[fi] implies exists|f: int|
        0 <= f < sorted.len() && (#[trigger] sorted[f]).name@ == p.files@[fi].name@ by {
        lemma_picked_files_has(p.files@, flags, fi);
        let k = choose|k: int|
            0 <= k < picked_files(p.files@, flags).len() && picked_files(p.files@, flags)[k] == p.files@[fi];
        assert(fs[k].name@ == p.files@[fi].name@);
        assert(fs.to_multiset().count(fs[k]) > 0);
        assert(sorted.contains(fs[k]));
        let f = choose|f: int| 0 <= f < sorted.len() && sorted[f] == fs[k];
        assert(sorted[f].name@ == p.files@[fi].name@);
    }
    assert forall|k: int| 0 <= k < all.len() implies file_named(sorted, (#[trigger] all[k]).spec_file()) by {
        let i = lemma_message_origin(p, s, messages, k);
        srt[k].lemma_marked(is_recursive(srt, srt[k].spec_path()));
        let fi = p.messages@[i].file as int;
        assert(needed_file(p, s, fi)) by {
            assert(0 <= i < p.messages@.len() && reached_message(p, s, i) && p.messages@[i].file == fi);
        }
        assert(flags[fi]);
        assert(messages[i] is Ok);
        assert(all[k].spec_file() == p.files@[fi].name@);
        let f = choose|f: int| 0 <= f < sorted.len() && (#[trigger] sorted[f]).name@ == p.files@[fi].name@;
        assert(sorted[f].name@ == all[k].spec_file());
    }
    assert forall|k: int| 0 <= k < ens.len() implies file_named(sorted, (#[trigger] ens[k]).spec_file()) by {
        let j = lemma_enum_origin(p, s, enums, k);
        let fi = p.enums@[j].file as int;
        assert(needed_file(p, s, fi)) by {
            assert(0 <= j < p.enums@.len() && reached_enum(p, s, j) && p.enums@[j].file == fi);
        }
        assert(flags[fi]);
        assert(enums[j] is Ok);
        assert(ens[k].spec_file() == p.files@[fi].name@);
        let f = choose|f: int| 0 <= f < sorted.len() && (#[trigger] sorted[f]).name@ == p.files@[fi].name@;
        assert(sorted[f].name@ == ens[k].spec_file());
    }
}

/// Whether the messages' paths ascend strictly: ordered by path, each path once.
pub open spec fn paths_ascending(ms: Seq<Message>) -> bool {
    forall|i: int, j: int| 0 <= i < j < ms.len() ==> seq_lt(#[trigger] ms[i].spec_path(), #[trigger] ms[j].spec_path())
}

/// Whether the enums' paths ascend strictly: ordered by path, each path once.
pub open spec fn enum_paths_ascending(es: Seq<Enum>) -> bool {
    forall|i: int, j: int| 0 <= i < j < es.len() ==> seq_lt(#[trigger] es[i].spec_path(), #[trigger] es[j].spec_path())
}

/// Whether no two elements share a key.
pub open spec fn keys_distinct<T>(s: Seq<T>, key: spec_fn(T) -> Seq<char>) -> bool {
    forall|i: int, j: int| 0 <= i < j < s.len() ==> key(#[trigger] s[i]) != key(#[trigger] s[j])
}

/// The same elements in another order still share no key.
proof fn lemma_keys_distinct_permuted<T>(s: Seq<T>, t: Seq<T>, key: spec_fn(T) -> Seq<char>)
    requires
        s.to_multiset() == t.to_multiset(),
        keys_distinct(s, key),
    ensures
        keys_distinct(t, key),
    decreases t.len(),
{
    broadcast use {vstd::seq_lib::group_to_multiset_ensures, vstd::multiset::group_multiset_axioms};

    if t.len() > 0 {
        let y = t.last();
        let u = t.drop_last();
        assert(t =~= u.push(y));
        assert(t[t.len() - 1] == y);
        assert(t.to_multiset().count(y) > 0);
        assert(s.to_multiset().count(y) > 0);
        assert(s.contains(y));
        let m = choose|m: int| 0 <= m < s.len() && s[m] == y;
        let r = s.remove(m);
        s.remove_ensures(m);
        assert(r.to_multiset() == s.to_multiset().remove(y));
        assert(u.to_multiset() =~= t.to_multiset().remove(y));
        assert forall|i: int, j: int| 0 <= i < j < r.len() implies key(#[trigger] r[i]) != key(#[trigger] r[j]) by {
            let a = if i < m { i } else { i + 1 };
            let b = if j < m { j } else { j + 1 };
            assert(r[i] == s[a] && r[j] == s[b] && a < b);
        }
        lemma_keys_distinct_permuted(r, u, key);
        assert forall|i: int, j: int| 0 <= i < j < t.len() implies key(#[trigger] t[i]) != key(#[trigger] t[j]) by {
            if j == t.len() - 1 {
                assert(u[i] == t[i]);
                assert(u.to_multiset().count(t[i]) > 0);
                assert(r.to_multiset().count(t[i]) > 0);
                assert(r.contains(t[i]));
                let q = choose|q: int| 0 <= q < r.len() && r[q] == t[i];
                let a = if q < m { q } else { q + 1 };
                assert(s[a] == t[i] && a != m);
                if a < m {
                    assert(key(s[a]) != key(s[m]));
                } else {
                    assert(key(s[m]) != key(s[a]));
                }
            } else {
                assert(u[i] == t[i] && u[j] == t[j]);
            }
        }
    }
}

/// The messages picked from a prefix of positions whose builds carry their shapes' paths, distinct
/// in the pool, carry distinct paths.
proof fn lemma_picked_paths(
    p: PoolShape,
    messages: Seq<Result<Message, Diagnostics>>,
    enums: Seq<Result<Enum, Diagnostics>>,
    flags: Seq<bool>,
    n: int,
)
    requires
        pool_ok(p),
        builds_match(p, messages, enums),
        messages.len() == p.messages@.len(),
        flags.len() == messages.len(),
        forall|i: int| 0 <= i < messages.len() && #[trigger] flags[i] ==> messages[i] is Ok,
        0 <= n <= messages.len(),
    ensures
        keys_distinct(picked(messages.take(n), flags), |m: Message| m.spec_path()),
    decreases n,
{
    let key = |m: Message| m.spec_path();
    let cur = messages.take(n);
    if n > 0 {
        lemma_picked_paths(p, messages, enums, flags, n - 1);
        let init = picked(messages.take(n - 1), flags);
        assert(cur.drop_last() =~= messages.take(n - 1));
        if flags[n - 1] {
            let x = messages[n - 1]->Ok_0;
            assert(picked(cur, flags) == init.push(x));
            assert forall|a: int, b: int| 0 <= a < b < init.len() + 1 implies key(#[trigger] init.push(x)[a]) != key(
                #[trigger] init.push(x)[b],
            ) by {
                if b == init.len() {
                    let y = init[a];
                    assert(init.contains(y));
                    assert forall|i: int| 0 <= i < messages.take(n - 1).len() && #[trigger] flags[i] implies messages.take(n - 1)[i] is Ok by {
                        assert(messages.take(n - 1)[i] == messages[i]);
                    }
                    lemma_picked_from(messages.take(n - 1), flags, y);
                    let i = choose|i: int|
                        0 <= i < messages.take(n - 1).len() && #[trigger] flags[i] && messages.take(n - 1)[i] == Ok::<Message, Diagnostics>(y);
                    assert(messages[i] == Ok::<Message, Diagnostics>(y));
                    assert(messages[i] is Ok);
                    assert(messages[n - 1] is Ok);
                    assert(y.spec_path() == p.messages@[i].path@);
                    assert(x.spec_path() == p.messages@[n - 1].path@);
                } else {
                    assert(init.push(x)[a] == init[a] && init.push(x)[b] == init[b]);
                }
            }
        } else {
            assert(picked(cur, flags) == init);
        }
    }
}

/// The assembled messages' paths ascend strictly, when each build carries its shape's path.
proof fn lemma_messages_ascend(
    p: PoolShape,
    s: Subjects,
    messages: Seq<Result<Message, Diagnostics>>,
    enums: Seq<Result<Enum, Diagnostics>>,
)
    requires
        pool_ok(p),
        builds_match(p, messages, enums),
        messages.len() == p.messages@.len(),
        forall|i: int| 0 <= i < messages.len() && reached_message(p, s, i) ==> (#[trigger] messages[i]) is Ok,
    ensures
        paths_ascending(marked_all(in_order(picked(messages, message_flags(p, s))))),
{
    let flags = message_flags(p, s);
    let key = |m: Message| m.spec_path();
    assert forall|i: int| 0 <= i < messages.len() && #[trigger] flags[i] implies messages[i] is Ok by {
        assert(reached_message(p, s, i));
    }
    lemma_picked_paths(p, messages, enums, flags, messages.len() as int);
    assert(messages.take(messages.len() as int) =~= messages);
    let pk = picked(messages, flags);
    let srt = in_order(pk);
    lemma_in_order(pk);
    lemma_keys_distinct_permuted(pk, srt, key);
    let all = marked_all(srt);
    assert forall|i: int, j: int| 0 <= i < j < all.len() implies seq_lt(#[trigger] all[i].spec_path(), #[trigger] all[j].spec_path()) by {
        srt[i].lemma_marked(is_recursive(srt, srt[i].spec_path()));
        srt[j].lemma_marked(is_recursive(srt, srt[j].spec_path()));
        assert(!Message::key_before(srt[j], srt[i]));
        assert(key(srt[i]) != key(srt[j]));
        lemma_seq_lt_total(srt[i].spec_path(), srt[j].spec_path());
    }
}

/// The enums picked from a prefix of positions whose builds carry their shapes' paths, distinct
/// in the pool, carry distinct paths.
proof fn lemma_picked_enum_paths(
    p: PoolShape,
    messages: Seq<Result<Message, Diagnostics>>,
    enums: Seq<Result<Enum, Diagnostics>>,
    flags: Seq<bool>,
    n: int,
)
    requires
        pool_ok(p),
        builds_match(p, messages, enums),
        enums.len() == p.enums@.len(),
        flags.len() == enums.len(),
        forall|i: int| 0 <= i < enums.len() && #[trigger] flags[i] ==> enums[i] is Ok,
        0 <= n <= enums.len(),
    ensures
        keys_distinct(picked(enums.take(n), flags), |m: Enum| m.spec_path()),
    decreases n,
{
    let key = |m: Enum| m.spec_path();
    let cur = enums.take(n);
    if n > 0 {
        lemma_picked_enum_paths(p, messages, enums, flags, n - 1);
        let init = picked(enums.take(n - 1), flags);
        assert(cur.drop_last() =~= enums.take(n - 1));
        if flags[n - 1] {
            let x = enums[n - 1]->Ok_0;
            assert(picked(cur, flags) == init.push(x));
            assert forall|a: int, b: int| 0 <= a < b < init.len() + 1 implies key(#[trigger] init.push(x)[a]) != key(
                #[trigger] init.push(x)[b],
            ) by {
                if b == init.len() {
                    let y = init[a];
                    assert(init.contains(y));
                    assert forall|i: int| 0 <= i < enums.take(n - 1).len() && #[trigger] flags[i] implies enums.take(n - 1)[i] is Ok by {
                        assert(enums.take(n - 1)[i] == enums[i]);
                    }
                    lemma_picked_from(enums.take(n - 1), flags, y);
                    let i = choose|i: int|
                        0 <= i < enums.take(n - 1).len() && #[trigger] flags[i] && enums.take(n - 1)[i] == Ok::<Enum, Diagnostics>(y);
                    assert(enums[i] == Ok::<Enum, Diagnostics>(y));
                    assert(enums[i] is Ok);
                    assert(enums[n - 1] is Ok);
                    assert(y.spec_path() == p.enums@[i].path@);
                    assert(x.spec_path() == p.enums@[n - 1].path@);
                } else {
                    assert(init.push(x)[a] == init[a] && init.push(x)[b] == init[b]);
                }
            }
        } else {
            assert(picked(cur, flags) == init);
        }
    }
}

/// The assembled enums' paths ascend strictly, when each build carries its shape's path.
proof fn lemma_enums_ascend(
    p: PoolShape,
    s: Subjects,
    messages: Seq<Result<Message, Diagnostics>>,
    enums: Seq<Result<Enum, Diagnostics>>,
)
    requires
        pool_ok(p),
        builds_match(p, messages, enums),
        enums.len() == p.enums@.len(),
        forall|j: int| 0 <= j < enums.len() && reached_enum(p, s, j) ==> (#[trigger] enums[j]) is Ok,
    ensures
        enum_paths_ascending(in_order(picked(enums, enum_flags(p, s)))),
{
    let flags = enum_flags(p, s);
    let key = |m: Enum| m.spec_path();
    assert forall|i: int| 0 <= i < enums.len() && #[trigger] flags[i] implies enums[i] is Ok by {
        assert(reached_enum(p, s, i));
    }
    lemma_picked_enum_paths(p, messages, enums, flags, enums.len() as int);
    assert(enums.take(enums.len() as int) =~= enums);
    let pk = picked(enums, flags);
    let srt = in_order(pk);
    lemma_in_order(pk);
    lemma_keys_distinct_permuted(pk, srt, key);
    assert forall|i: int, j: int| 0 <= i < j < srt.len() implies seq_lt(#[trigger] srt[i].spec_path(), #[trigger] srt[j].spec_path()) by {
        assert(!Enum::key_before(srt[j], srt[i]));
        assert(key(srt[i]) != key(srt[j]));
        lemma_seq_lt_total(srt[i].spec_path(), srt[j].spec_path());
    }
}

/// Marking leaves the containment graph as it was: a step between two paths is one before
/// marking exactly when it is one after.
proof fn lemma_marked_edges(ms: Seq<Message>, a: Seq<char>, b: Seq<char>)
    ensures
        edge(marked_all(ms), a, b) == edge(ms, a, b),
{
    let all = marked_all(ms);
    if edge(ms, a, b) {
        let (i, k) = choose|i: int, k: int|
            0 <= i < ms.len() && ms[i].spec_path() == a && 0 <= k < ms[i].spec_fields().len()
                && crate::descriptor::recursion::contained(#[trigger] ms[i].spec_fields()[k]) == Some(b);
        ms[i].lemma_marked(is_recursive(ms, ms[i].spec_path()));
        assert(all[i].spec_fields()[k] == ms[i].spec_fields()[k]);
    }
    if edge(all, a, b) {
        let (i, k) = choose|i: int, k: int|
            0 <= i < all.len() && all[i].spec_path() == a && 0 <= k < all[i].spec_fields().len()
                && crate::descriptor::recursion::contained(#[trigger] all[i].spec_fields()[k]) == Some(b);
        ms[i].lemma_marked(is_recursive(ms, ms[i].spec_path()));
        assert(ms[i].spec_fields()[k] == all[i].spec_fields()[k]);
    }
}

/// Marking leaves every containment path as it was.
proof fn lemma_marked_reaches(ms: Seq<Message>, a: Seq<char>, b: Seq<char>, n: nat)
    ensures
        reaches(marked_all(ms), a, b, n) == reaches(ms, a, b, n),
    decreases n,
{
    let all = marked_all(ms);
    if n == 1 {
        lemma_marked_edges(ms, a, b);
    } else if n > 1 {
        if reaches(ms, a, b, n) {
            let c = choose|c: Seq<char>| #[trigger] edge(ms, a, c) && reaches(ms, c, b, (n - 1) as nat);
            lemma_marked_edges(ms, a, c);
            lemma_marked_reaches(ms, c, b, (n - 1) as nat);
            assert(edge(all, a, c) && reaches(all, c, b, (n - 1) as nat));
        }
        if reaches(all, a, b, n) {
            let c = choose|c: Seq<char>| #[trigger] edge(all, a, c) && reaches(all, c, b, (n - 1) as nat);
            lemma_marked_edges(ms, a, c);
            lemma_marked_reaches(ms, c, b, (n - 1) as nat);
            assert(edge(ms, a, c) && reaches(ms, c, b, (n - 1) as nat));
        }
    }
}

/// Marked messages carry the mark exactly on the containment cycles among themselves.
proof fn lemma_marked_cycles(ms: Seq<Message>)
    ensures
        marks_cycles(marked_all(ms)),
{
    let all = marked_all(ms);
    assert forall|k: int| 0 <= k < all.len() implies ((#[trigger] all[k]).spec_recursive() <==> is_recursive(
        all,
        all[k].spec_path(),
    )) by {
        ms[k].lemma_marked(is_recursive(ms, ms[k].spec_path()));
        let q = ms[k].spec_path();
        if is_recursive(ms, q) {
            let n = choose|n: nat| #[trigger] reaches(ms, q, q, n);
            lemma_marked_reaches(ms, q, q, n);
        }
        if is_recursive(all, q) {
            let n = choose|n: nat| #[trigger] reaches(all, q, q, n);
            lemma_marked_reaches(ms, q, q, n);
        }
    }
}

/// The built values at the flagged positions.
fn pick<T>(built: Vec<Result<T, Diagnostics>>, flags: &Vec<bool>) -> (r: Vec<T>)
    requires
        flags@.len() == built@.len(),
        forall|i: int| 0 <= i < built@.len() && #[trigger] flags@[i] ==> built@[i] is Ok,
    ensures
        r@ == picked(built@, flags@),
{
    let ghost all = built@;
    let total = built.len();
    let mut rest = built;
    let mut out: Vec<T> = Vec::new();
    let mut i: usize = 0;
    proof {
        assert(all.take(0) =~= Seq::<Result<T, Diagnostics>>::empty());
        assert(rest@ =~= all.skip(0));
    }
    while rest.len() > 0
        invariant
            all.len() == total,
            flags@.len() == total,
            forall|i: int| 0 <= i < all.len() && #[trigger] flags@[i] ==> all[i] is Ok,
            i + rest@.len() == all.len(),
            rest@ == all.skip(i as int),
            out@ == picked(all.take(i as int), flags@),
        decreases rest@.len(),
    {
        let x = rest.remove(0);
        proof {
            assert(all[i as int] == x);
            assert(all.take(i + 1).drop_last() =~= all.take(i as int));
            assert(all.take(i + 1).last() == x);
            assert(rest@ =~= all.skip(i + 1));
        }
        if flags[i] {
            match x {
                Ok(v) => {
                    out.push(v);
                },
                Err(_) => {},
            }
        }
        i = i + 1;
    }
    proof {
        assert(all.take(i as int) =~= all);
    }
    out
}

/// The files at the flagged positions, each with its name and parsed package.
fn pick_files(files: &Vec<FileShape>, flags: &Vec<bool>) -> (r: Vec<File>)
    requires
        flags@.len() == files@.len(),
        forall|f: int| 0 <= f < files@.len() && #[trigger] flags@[f] ==> files@[f].package@.len() < usize::MAX
            && crate::descriptor::model::parse_package(files@[f].package@) is Ok,
    ensures
        files_built(r@, picked_files(files@, flags@)),
{
    let mut out: Vec<File> = Vec::new();
    let mut i: usize = 0;
    while i < files.len()
        invariant
            i <= files@.len(),
            flags@.len() == files@.len(),
            forall|f: int| 0 <= f < files@.len() && #[trigger] flags@[f] ==> files@[f].package@.len() < usize::MAX
                && crate::descriptor::model::parse_package(files@[f].package@) is Ok,
            files_built(out@, picked_files(files@.take(i as int), flags@)),
        decreases files@.len() - i,
    {
        proof {
            assert(files@.take(i + 1).drop_last() =~= files@.take(i as int));
            assert(files@.take(i + 1).last() == files@[i as int]);
        }
        if flags[i] {
            let shape = &files[i];
            match Package::parse(shape.package.as_str()) {
                Ok(package) => {
                    let ghost before = out@;
                    out.push(File { name: owned(shape.name.as_str()), package });
                    proof {
                        let want = picked_files(files@.take(i + 1), flags@);
                        assert forall|k: int| 0 <= k < out@.len() implies (#[trigger] out@[k]).name@ == want[k].name@
                            && out@[k].package.spec_text() == want[k].package@ by {
                            if k < before.len() {
                                assert(out@[k] == before[k]);
                            }
                        }
                    }
                },
                Err(_) => {},
            }
        }
        i = i + 1;
    }
    proof {
        assert(files@.take(i as int) =~= files@);
    }
    out
}

/// Mark the positions a plan lists.
fn flags_of(n: usize, listed: &Vec<usize>) -> (r: Vec<bool>)
    requires
        forall|k: int| 0 <= k < listed@.len() ==> listed@[k] < n,
    ensures
        r@.len() == n,
        forall|i: int| 0 <= i < n ==> (#[trigger] r@[i] <==> held(listed@).contains(i)),
{
    let mut flags: Vec<bool> = Vec::new();
    let mut i: usize = 0;
    while i < n
        invariant
            i <= n,
            flags@.len() == i,
            forall|t: int| 0 <= t < i ==> !(#[trigger] flags@[t]),
        decreases n - i,
    {
        flags.push(false);
        i = i + 1;
    }
    let mut k: usize = 0;
    while k < listed.len()
        invariant
            k <= listed@.len(),
            flags@.len() == n,
            forall|t: int| 0 <= t < listed@.len() ==> listed@[t] < n,
            forall|x: int| 0 <= x < n ==> (#[trigger] flags@[x] <==> exists|t: int| 0 <= t < k && listed@[t] as int == x),
        decreases listed@.len() - k,
    {
        let x = listed[k];
        flags[x] = true;
        proof {
            assert forall|y: int| 0 <= y < n implies (#[trigger] flags@[y] <==> exists|t: int| 0 <= t < k + 1 && listed@[t] as int == y) by {
                if y == x as int {
                    assert(listed@[k as int] as int == y);
                } else if exists|t: int| 0 <= t < k + 1 && listed@[t] as int == y {
                    let t = choose|t: int| 0 <= t < k + 1 && listed@[t] as int == y;
                    assert(t < k);
                }
            }
        }
        k = k + 1;
    }
    flags
}

/// Assemble the schema from the pool and its elements' builds: plan the walk, then take the
/// planned files, messages, and enums, order each kind by its key, and mark the recursive
/// messages. The walk's first failure is reported as it is: a package's refusal, or the
/// element's own build refusal. When a subject file fails, that failure is the first one of the
/// first failing subject file in the pool's order — its package, else its first message that
/// does not build, else its first enum that does not build.
///
/// In the schema a message is marked recursive exactly when it lies on a containment cycle among
/// the schema's own messages; and when each build is its shape's own and the pool's names resolve,
/// nothing the schema names dangles: every referent of a message's fields is a message or an enum
/// of the schema, and every message's and enum's lexical parent a message of it, whose path the
/// nested one's extends; every message's and enum's file is one of the schema's files; and when
/// each build carries its shape's path, the messages and the enums each come out strictly
/// ascending by path, each path once.
pub fn build_schema(
    pool: &PoolShape,
    subjects: &Subjects,
    messages: Vec<Result<Message, Diagnostics>>,
    enums: Vec<Result<Enum, Diagnostics>>,
) -> (r: Result<Schema, Diagnostics>)
    requires
        pool_ok(*pool),
        messages@.len() == pool.messages@.len(),
        enums@.len() == pool.enums@.len(),
        forall|i: int| 0 <= i < messages@.len() ==> ((#[trigger] messages@[i]) is Ok <==> pool.messages@[i].builds),
        forall|j: int| 0 <= j < enums@.len() ==> ((#[trigger] enums@[j]) is Ok <==> pool.enums@[j].builds),
    ensures
        r is Ok <==> !fails(*pool, *subjects),
        r matches Ok(schema) ==> {
            let ms = in_order(picked(messages@, message_flags(*pool, *subjects)));
            &&& schema.spec_messages() == marked_all(ms)
            &&& schema.spec_enums() == in_order(picked(enums@, enum_flags(*pool, *subjects)))
            &&& exists|fs: Seq<File>|
                files_built(fs, picked_files(pool.files@, file_flags(*pool, *subjects)))
                    && #[trigger] in_order(fs) == schema.spec_files()
        },
        r matches Ok(schema) ==> marks_cycles(schema.spec_messages()),
        r matches Ok(schema) ==> forall|k: int|
            #![trigger schema.spec_enums()[k]]
            0 <= k < schema.spec_enums().len() ==> exists|j: int|
                0 <= j < enums@.len() && #[trigger] enums@[j] == Ok::<Enum, Diagnostics>(schema.spec_enums()[k]),
        r matches Ok(schema) ==> (builds_match(*pool, messages@, enums@) && pool_resolves(*pool) ==> names_closed(
            schema.spec_messages(),
            schema.spec_enums(),
        )),
        r matches Ok(schema) ==> (builds_match(*pool, messages@, enums@) ==> paths_ascending(schema.spec_messages())),
        r matches Ok(schema) ==> (builds_match(*pool, messages@, enums@) ==> enum_paths_ascending(schema.spec_enums())),
        r matches Ok(schema) ==> (builds_match(*pool, messages@, enums@) ==> files_listed(
            schema.spec_messages(),
            schema.spec_enums(),
            schema.spec_files(),
        )),
        r matches Err(d) ==> exists|stop: Stop|
            #[trigger] stop_ok(*pool, *subjects, stop) && first_stop(*pool, *subjects, stop) && reported(stop, messages@, enums@, d),
{
    let ghost p = *pool;
    let ghost sj = *subjects;
    let ghost all_messages = messages@;
    let ghost all_enums = enums@;
    let mut messages = messages;
    let mut enums = enums;
    let plan = match plan_schema(pool, subjects) {
        Ok(plan) => plan,
        Err(stop) => {
            let ghost st = stop;
            match stop {
                Stop::Package(_, d) => {
                    proof {
                        assert(stop_ok(p, sj, st) && first_stop(p, sj, st) && reported(st, all_messages, all_enums, d));
                    }
                    return Err(d);
                },
                Stop::Message(i) => {
                    let d = messages.remove(i).unwrap_err();
                    proof {
                        assert(stop_ok(p, sj, st) && first_stop(p, sj, st) && reported(st, all_messages, all_enums, d));
                    }
                    return Err(d);
                },
                Stop::Enum(j) => {
                    let d = enums.remove(j).unwrap_err();
                    proof {
                        assert(stop_ok(p, sj, st) && first_stop(p, sj, st) && reported(st, all_messages, all_enums, d));
                    }
                    return Err(d);
                },
            }
        },
    };
    proof {
        if builds_match(p, all_messages, all_enums) && pool_resolves(p) {
            lemma_names_closed(p, sj, held(plan.messages@), held(plan.enums@), all_messages, all_enums);
        }
    }
    let message_marks = flags_of(pool.messages.len(), &plan.messages);
    let enum_marks = flags_of(pool.enums.len(), &plan.enums);
    let file_marks = flags_of(pool.files.len(), &plan.files);
    proof {
        assert(message_marks@ =~= message_flags(p, sj));
        assert(enum_marks@ =~= enum_flags(p, sj));
        assert(file_marks@ =~= file_flags(p, sj));
        assert forall|i: int| 0 <= i < all_messages.len() && #[trigger] message_marks@[i] implies all_messages[i] is Ok by {
            assert(reached_message(p, sj, i));
        }
        assert forall|j: int| 0 <= j < all_enums.len() && #[trigger] enum_marks@[j] implies all_enums[j] is Ok by {
            assert(reached_enum(p, sj, j));
        }
        assert forall|f: int| 0 <= f < p.files@.len() && #[trigger] file_marks@[f] implies p.files@[f].package@.len()
            < usize::MAX && crate::descriptor::model::parse_package(p.files@[f].package@) is Ok by {
            assert(needed_file(p, sj, f));
        }
    }
    let taken_messages = pick(messages, &message_marks);
    let taken_enums = pick(enums, &enum_marks);
    let taken_files = pick_files(&pool.files, &file_marks);
    let ghost fs = taken_files@;
    let files = sort_stably(taken_files);
    let mut ordered = sort_stably(taken_messages);
    let enums = sort_stably(taken_enums);
    let ghost before = ordered@;
    mark(&mut ordered);
    proof {
        assert forall|j: int| 0 <= j < all_enums.len() && reached_enum(p, sj, j) implies (#[trigger] all_enums[j]) is Ok by {
            assert(p.enums@[j].builds);
        }
        assert forall|k: int| #![trigger enums@[k]] 0 <= k < enums@.len() implies exists|j: int|
            0 <= j < all_enums.len() && #[trigger] all_enums[j] == Ok::<Enum, Diagnostics>(enums@[k]) by {
            let j = lemma_enum_origin(p, sj, all_enums, k);
            assert(all_enums[j] == Ok::<Enum, Diagnostics>(enums@[k]));
        }
        assert(ordered@ =~= marked_all(before));
        lemma_marked_cycles(before);
        assert(files_built(fs, picked_files(p.files@, file_flags(p, sj))) && in_order(fs) == files@);
        if builds_match(p, all_messages, all_enums) {
            lemma_files_listed(p, sj, all_messages, all_enums, fs);
            assert forall|i: int| 0 <= i < all_messages.len() && reached_message(p, sj, i) implies (#[trigger] all_messages[i]) is Ok by {
                assert(p.messages@[i].builds);
            }
            lemma_messages_ascend(p, sj, all_messages, all_enums);
            assert forall|j: int| 0 <= j < all_enums.len() && reached_enum(p, sj, j) implies (#[trigger] all_enums[j]) is Ok by {
                assert(p.enums@[j].builds);
            }
            lemma_enums_ascend(p, sj, all_messages, all_enums);
        }
    }
    let schema = Schema::assemble(files, ordered, enums);
    Ok(schema)
}

} // verus!
