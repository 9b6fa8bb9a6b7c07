//! Containment-cycle analysis: a message is recursive when it can reach itself through
//! message-typed fields — singular, repeated, or map value. Pure over the built model.
use vstd::prelude::*;

use crate::descriptor::model::{Field, FieldShape, Message, ValueType};
use crate::text::{chars_eq, chars_of};

verus! {

/// Character vectors as texts.
pub open spec fn texts(v: Seq<Vec<char>>) -> Seq<Seq<char>> {
    v.map_values(|x: Vec<char>| x@)
}

/// The message a field's value contains, when its value is a message.
pub open spec fn contained(f: Field) -> Option<Seq<char>> {
    let value = match f.spec_shape() {
        FieldShape::Singular { value, .. } => value,
        FieldShape::Repeated { value } => value,
        FieldShape::Mapped { value, .. } => value,
    };
    match value {
        ValueType::Message(name) => Some(name@),
        _ => None,
    }
}

/// Whether a message of path `a` contains, through one of its fields, a message of path `b`.
pub open spec fn edge(ms: Seq<Message>, a: Seq<char>, b: Seq<char>) -> bool {
    exists|i: int, k: int|
        0 <= i < ms.len() && ms[i].spec_path() == a && 0 <= k < ms[i].spec_fields().len()
            && contained(#[trigger] ms[i].spec_fields()[k]) == Some(b)
}

/// Whether a containment path of exactly `k` steps leads from `a` to `b`.
pub open spec fn reaches(ms: Seq<Message>, a: Seq<char>, b: Seq<char>, k: nat) -> bool
    decreases k,
{
    if k == 0 {
        false
    } else if k == 1 {
        edge(ms, a, b)
    } else {
        exists|c: Seq<char>| #[trigger] edge(ms, a, c) && reaches(ms, c, b, (k - 1) as nat)
    }
}

/// Whether the message of path `p` can reach itself through containment.
pub open spec fn is_recursive(ms: Seq<Message>, p: Seq<char>) -> bool {
    exists|k: nat| #[trigger] reaches(ms, p, p, k)
}

/// A path extended by one more step at its end is a path one step longer.
proof fn lemma_reaches_extend(ms: Seq<Message>, a: Seq<char>, c: Seq<char>, b: Seq<char>, k: nat)
    requires
        reaches(ms, a, c, k),
        edge(ms, c, b),
    ensures
        reaches(ms, a, b, k + 1),
    decreases k,
{
    if k == 1 {
        assert(edge(ms, a, c) && reaches(ms, c, b, 1));
    } else {
        let d = choose|d: Seq<char>| #[trigger] edge(ms, a, d) && reaches(ms, d, c, (k - 1) as nat);
        lemma_reaches_extend(ms, d, c, b, (k - 1) as nat);
        assert(edge(ms, a, d) && reaches(ms, d, b, k));
    }
}

/// Whether every message of path `a` has been visited.
pub open spec fn all_visited(ms: Seq<Message>, visited: Seq<bool>, a: Seq<char>) -> bool {
    forall|j: int| 0 <= j < ms.len() && ms[j].spec_path() == a ==> #[trigger] visited[j]
}

/// Whether the search has closed off the start: every field of a message of the start's path or
/// of a visited message contains a message other than the start, all of whose copies were visited
/// — or one still waiting on the stack.
pub open spec fn closed(
    ms: Seq<Message>,
    visited: Seq<bool>,
    stack: Seq<Seq<char>>,
    start: Seq<char>,
) -> bool {
    forall|i: int, k: int|
        0 <= i < ms.len() && (ms[i].spec_path() == start || visited[i]) && 0 <= k
            < ms[i].spec_fields().len() && #[trigger] contained(ms[i].spec_fields()[k]) is Some
            ==> stack.contains(contained(ms[i].spec_fields()[k]).unwrap()) || (contained(
            ms[i].spec_fields()[k],
        ).unwrap() != start && all_visited(ms, visited, contained(ms[i].spec_fields()[k]).unwrap()))
}

/// Once the search is closed off with nothing left on the stack, no path returns to the start.
proof fn lemma_closed_no_return(
    ms: Seq<Message>,
    visited: Seq<bool>,
    start: Seq<char>,
    a: Seq<char>,
    b: Seq<char>,
    k: nat,
)
    requires
        closed(ms, visited, Seq::empty(), start),
        visited.len() == ms.len(),
        a == start || all_visited(ms, visited, a),
        reaches(ms, a, b, k),
    ensures
        b != start,
        all_visited(ms, visited, b),
    decreases k,
{
    if k == 1 {
        let (i, f) = choose|i: int, f: int|
            0 <= i < ms.len() && ms[i].spec_path() == a && 0 <= f < ms[i].spec_fields().len()
                && contained(#[trigger] ms[i].spec_fields()[f]) == Some(b);
        assert(ms[i].spec_path() == start || visited[i]);
    } else {
        let c = choose|c: Seq<char>| #[trigger] edge(ms, a, c) && reaches(ms, c, b, (k - 1) as nat);
        let (i, f) = choose|i: int, f: int|
            0 <= i < ms.len() && ms[i].spec_path() == a && 0 <= f < ms[i].spec_fields().len()
                && contained(#[trigger] ms[i].spec_fields()[f]) == Some(c);
        assert(ms[i].spec_path() == start || visited[i]);
        lemma_closed_no_return(ms, visited, start, c, b, (k - 1) as nat);
    }
}

/// The messages a message's fields contain, in field order.
fn contained_messages(m: &Message) -> (r: Vec<Vec<char>>)
    ensures
        forall|t: Seq<char>|
            #[trigger] texts(r@).contains(t) <==> exists|k: int|
                0 <= k < m.spec_fields().len() && contained(#[trigger] m.spec_fields()[k]) == Some(t),
{
    let fields = m.fields();
    let mut out: Vec<Vec<char>> = Vec::new();
    let mut i: usize = 0;
    while i < fields.len()
        invariant
            fields@ == m.spec_fields(),
            i <= fields@.len(),
            forall|t: Seq<char>|
                #[trigger] texts(out@).contains(t) <==> exists|k: int|
                    0 <= k < i && contained(#[trigger] fields@[k]) == Some(t),
        decreases fields@.len() - i,
    {
        let value = match fields[i].shape() {
            FieldShape::Singular { value, .. } => value,
            FieldShape::Repeated { value } => value,
            FieldShape::Mapped { value, .. } => value,
        };
        let ghost before = out@;
        match value {
            ValueType::Message(name) => {
                out.push(chars_of(name.as_str()));
            },
            _ => {},
        }
        proof {
            let vs = texts(out@);
            let bs = texts(before);
            if out@.len() > before.len() {
                assert(vs =~= bs.push(contained(fields@[i as int]).unwrap()));
            } else {
                assert(vs =~= bs);
            }
            assert forall|t: Seq<char>| #[trigger] vs.contains(t) <==> exists|k: int|
                0 <= k < i + 1 && contained(#[trigger] fields@[k]) == Some(t) by {
                if vs.contains(t) {
                    let x = choose|x: int| 0 <= x < vs.len() && vs[x] == t;
                    if x < bs.len() {
                        assert(bs[x] == t);
                        assert(bs.contains(t));
                    } else {
                        assert(contained(fields@[i as int]) == Some(t));
                    }
                }
                if exists|k: int| 0 <= k < i + 1 && contained(#[trigger] fields@[k]) == Some(t) {
                    let k = choose|k: int| 0 <= k < i + 1 && contained(#[trigger] fields@[k]) == Some(t);
                    if k < i {
                        assert(bs.contains(t));
                        let x = choose|x: int| 0 <= x < bs.len() && bs[x] == t;
                        assert(vs[x] == t);
                    } else {
                        assert(vs[vs.len() - 1] == t);
                    }
                }
            }
        }
        i = i + 1;
    }
    out
}

/// Whether the message path `start` can reach itself through containment among `messages`: a
/// search over the contained paths, each message expanded once.
pub fn reaches_self(messages: &[Message], start: &[char]) -> (r: bool)
    ensures
        r == is_recursive(messages@, start@),
{
    let ghost ms = messages@;
    let ghost st = start@;
    let n = messages.len();
    let mut visited: Vec<bool> = Vec::new();
    let mut unvisited: usize = n;
    while visited.len() < n
        invariant
            visited@.len() <= n,
            forall|j: int| 0 <= j < visited@.len() ==> !visited@[j],
        decreases n - visited@.len(),
    {
        visited.push(false);
    }
    let mut stack: Vec<Vec<char>> = Vec::new();
    let mut i: usize = 0;
    while i < n
        invariant
            ms == messages@,
            st == start@,
            n == ms.len(),
            visited@.len() == n,
            forall|j: int| 0 <= j < n ==> !visited@[j],
            forall|t: Seq<char>| #[trigger]
                texts(stack@).contains(t) ==> reaches(ms, st, t, 1),
            forall|j: int, k: int|
                0 <= j < i && ms[j].spec_path() == st && 0 <= k < ms[j].spec_fields().len()
                    && #[trigger] contained(ms[j].spec_fields()[k]) is Some
                    ==> texts(stack@).contains(
                    contained(ms[j].spec_fields()[k]).unwrap(),
                ),
        decreases n - i,
    {
        let is_start = chars_eq(chars_of(messages[i].path().as_str()).as_slice(), start);
        proof {
            assert(is_start == (ms[i as int].spec_path() == st));
        }
        if is_start {
            let targets = contained_messages(&messages[i]);
            let ghost before = texts(stack@);
            let ghost added = texts(targets@);
            let mut targets = targets;
            stack.append(&mut targets);
            proof {
                assert(texts(stack@) =~= before + added);
                assert forall|t: Seq<char>| #[trigger]
                    texts(stack@).contains(t) implies reaches(ms, st, t, 1) by {
                    let vs = texts(stack@);
                    let x = choose|x: int| 0 <= x < vs.len() && vs[x] == t;
                    if x < before.len() {
                        assert(before.contains(t));
                    } else {
                        assert(added[x - before.len()] == t);
                        assert(added.contains(t));
                        let k = choose|k: int|
                            0 <= k < ms[i as int].spec_fields().len() && contained(
                                #[trigger] ms[i as int].spec_fields()[k],
                            ) == Some(t);
                        assert(edge(ms, st, t));
                    }
                }
                assert forall|j: int, k: int|
                    0 <= j < i + 1 && ms[j].spec_path() == st && 0 <= k < ms[j].spec_fields().len()
                        && #[trigger] contained(ms[j].spec_fields()[k]) is Some implies texts(stack@).contains(
                    contained(ms[j].spec_fields()[k]).unwrap()) by {
                    let t = contained(ms[j].spec_fields()[k]).unwrap();
                    let vs = texts(stack@);
                    if j < i {
                        let x = choose|x: int| 0 <= x < before.len() && before[x] == t;
                        assert(vs[x] == t);
                    } else {
                        assert(added.contains(t));
                        let x = choose|x: int| 0 <= x < added.len() && added[x] == t;
                        assert(vs[before.len() + x] == t);
                    }
                }
            }
        }
        i = i + 1;
    }
    proof {
        lemma_count_false_all(visited@);
        assert forall|t: Seq<char>| #[trigger]
            texts(stack@).contains(t) implies exists|k: nat| reaches(ms, st, t, k) by {
            assert(reaches(ms, st, t, 1));
        }
    }
    while stack.len() > 0
        invariant
            ms == messages@,
            st == start@,
            n == ms.len(),
            visited@.len() == n,
            unvisited == count_false(visited@),
            forall|t: Seq<char>| #[trigger]
                texts(stack@).contains(t) ==> exists|k: nat|
                    reaches(ms, st, t, k),
            closed(ms, visited@, texts(stack@), st),
        decreases unvisited, stack@.len(),
    {
        let ghost old_stack = texts(stack@);
        let node = stack.pop().unwrap();
        let ghost nd = node@;
        proof {
            assert(old_stack =~= texts(stack@).push(nd));
            assert(old_stack[old_stack.len() - 1] == nd);
            assert(old_stack.contains(nd));
            let ns = texts(stack@);
            assert forall|t: Seq<char>| #[trigger] ns.contains(t) implies old_stack.contains(t) by {
                let x = choose|x: int| 0 <= x < ns.len() && ns[x] == t;
                assert(old_stack[x] == t);
            }
            assert forall|t: Seq<char>| #[trigger] old_stack.contains(t) && t != nd implies ns.contains(t) by {
                let x = choose|x: int| 0 <= x < old_stack.len() && old_stack[x] == t;
                assert(x < ns.len());
                assert(ns[x] == t);
            }
        }
        if chars_eq(node.as_slice(), start) {
            proof {
                let k = choose|k: nat| reaches(ms, st, nd, k);
                assert(reaches(ms, st, st, k));
            }
            return true;
        }
        let ghost unvisited_before = unvisited;
        let mut j: usize = 0;
        while j < n
            invariant
                ms == messages@,
                st == start@,
                n == ms.len(),
                nd == node@,
                nd != st,
                exists|k: nat| reaches(ms, st, nd, k),
                j <= n,
                visited@.len() == n,
                unvisited == count_false(visited@),
                unvisited <= unvisited_before,
                stack@.len() < old_stack.len() || unvisited < unvisited_before,
                forall|t: Seq<char>| #[trigger]
                    texts(stack@).contains(t) ==> exists|k: nat|
                        reaches(ms, st, t, k),
                forall|x: int| 0 <= x < j && ms[x].spec_path() == nd ==> #[trigger] visited@[x],
                forall|i: int, k: int|
                    0 <= i < ms.len() && (ms[i].spec_path() == st || visited@[i]) && 0 <= k
                        < ms[i].spec_fields().len() && #[trigger] contained(ms[i].spec_fields()[k]) is Some
                        ==> texts(stack@).contains(contained(ms[i].spec_fields()[k]).unwrap())
                        || contained(ms[i].spec_fields()[k]).unwrap() == nd || (contained(
                        ms[i].spec_fields()[k],
                    ).unwrap() != st && all_visited(ms, visited@, contained(ms[i].spec_fields()[k]).unwrap())),
            decreases n - j,
        {
            let matches = chars_eq(chars_of(messages[j].path().as_str()).as_slice(), node.as_slice());
            proof {
                assert(matches == (ms[j as int].spec_path() == nd));
            }
            if !visited[j] && matches {
                let ghost vis_before = visited@;
                let ghost stack_before = texts(stack@);
                visited.set(j, true);
                proof {
                    lemma_count_false_update(vis_before, j as int);
                }
                unvisited = unvisited - 1;
                let targets = contained_messages(&messages[j]);
                let ghost added = texts(targets@);
                let mut targets = targets;
                stack.append(&mut targets);
                proof {
                    let vs = texts(stack@);
                    assert(vs =~= stack_before + added);
                    assert forall|t: Seq<char>| #[trigger] vs.contains(t) implies exists|k: nat|
                        reaches(ms, st, t, k) by {
                        let x = choose|x: int| 0 <= x < vs.len() && vs[x] == t;
                        if x < stack_before.len() {
                            assert(stack_before.contains(t));
                        } else {
                            assert(added[x - stack_before.len()] == t);
                            assert(added.contains(t));
                            let f = choose|f: int|
                                0 <= f < ms[j as int].spec_fields().len() && contained(
                                    #[trigger] ms[j as int].spec_fields()[f],
                                ) == Some(t);
                            assert(edge(ms, nd, t));
                            let k = choose|k: nat| reaches(ms, st, nd, k);
                            lemma_reaches_extend(ms, st, nd, t, k);
                        }
                    }
                    assert forall|i: int, k: int|
                        0 <= i < ms.len() && (ms[i].spec_path() == st || visited@[i]) && 0 <= k
                            < ms[i].spec_fields().len() && #[trigger] contained(ms[i].spec_fields()[k]) is Some
                            implies vs.contains(contained(ms[i].spec_fields()[k]).unwrap())
                            || contained(ms[i].spec_fields()[k]).unwrap() == nd || (contained(
                            ms[i].spec_fields()[k],
                        ).unwrap() != st && all_visited(ms, visited@, contained(ms[i].spec_fields()[k]).unwrap())) by {
                        let t = contained(ms[i].spec_fields()[k]).unwrap();
                        if i == j {
                            assert(added.contains(t));
                            let x = choose|x: int| 0 <= x < added.len() && added[x] == t;
                            assert(vs[stack_before.len() + x] == t);
                        } else {
                            assert(vis_before[i] == visited@[i]);
                            if stack_before.contains(t) {
                                let x = choose|x: int| 0 <= x < stack_before.len() && stack_before[x] == t;
                                assert(vs[x] == t);
                            } else if t != nd && t != st {
                                assert(all_visited(ms, vis_before, t));
                                assert forall|y: int| 0 <= y < ms.len() && ms[y].spec_path() == t implies #[trigger] visited@[y] by {
                                    assert(vis_before[y]);
                                }
                            }
                        }
                    }
                }
            }
            j = j + 1;
        }
        proof {
            let vs = texts(stack@);
            assert(all_visited(ms, visited@, nd));
            assert forall|i: int, k: int|
                0 <= i < ms.len() && (ms[i].spec_path() == st || visited@[i]) && 0 <= k
                    < ms[i].spec_fields().len() && #[trigger] contained(ms[i].spec_fields()[k]) is Some
                    implies vs.contains(contained(ms[i].spec_fields()[k]).unwrap()) || (contained(
                    ms[i].spec_fields()[k],
                ).unwrap() != st && all_visited(ms, visited@, contained(ms[i].spec_fields()[k]).unwrap())) by {
            }
        }
    }
    proof {
        if is_recursive(ms, st) {
            let k = choose|k: nat| #[trigger] reaches(ms, st, st, k);
            assert(texts(stack@) =~= Seq::<Seq<char>>::empty());
            lemma_closed_no_return(ms, visited@, st, st, st, k);
        }
    }
    false
}

/// The number of entries still `false`.
pub open spec fn count_false(s: Seq<bool>) -> nat
    decreases s.len(),
{
    if s.len() == 0 {
        0
    } else {
        count_false(s.drop_last()) + if s.last() {
            0nat
        } else {
            1nat
        }
    }
}

/// All entries `false`: the count is the length.
proof fn lemma_count_false_all(s: Seq<bool>)
    requires
        forall|j: int| 0 <= j < s.len() ==> !s[j],
    ensures
        count_false(s) == s.len(),
    decreases s.len(),
{
    if s.len() > 0 {
        lemma_count_false_all(s.drop_last());
    }
}

/// Setting a `false` entry to `true` lowers the count by one.
proof fn lemma_count_false_update(s: Seq<bool>, j: int)
    requires
        0 <= j < s.len(),
        !s[j],
    ensures
        count_false(s.update(j, true)) + 1 == count_false(s),
    decreases s.len(),
{
    let u = s.update(j, true);
    if j == s.len() - 1 {
        assert(u.drop_last() =~= s.drop_last());
    } else {
        assert(u.drop_last() =~= s.drop_last().update(j, true));
        lemma_count_false_update(s.drop_last(), j);
    }
}

/// Mark every message that participates in a containment cycle — every message whose path can
/// reach itself — and nothing else, leaving each message otherwise as it was.
pub fn mark(messages: &mut Vec<Message>)
    ensures
        final(messages)@.len() == old(messages)@.len(),
        forall|i: int|
            0 <= i < old(messages)@.len() ==> #[trigger] final(messages)@[i] == old(messages)@[i].marked(
                is_recursive(old(messages)@, old(messages)@[i].spec_path()),
            ),
{
    let ghost ms = messages@;
    let mut flags: Vec<bool> = Vec::new();
    let mut i: usize = 0;
    while i < messages.len()
        invariant
            messages@ == ms,
            i <= ms.len(),
            flags@.len() == i,
            forall|j: int| 0 <= j < i ==> #[trigger] flags@[j] == is_recursive(ms, ms[j].spec_path()),
        decreases ms.len() - i,
    {
        let path = chars_of(messages[i].path().as_str());
        let flag = reaches_self(messages.as_slice(), path.as_slice());
        flags.push(flag);
        i = i + 1;
    }
    let mut rest: Vec<Message> = Vec::new();
    std::mem::swap(messages, &mut rest);
    let mut k: usize = 0;
    while rest.len() > 0
        invariant
            k + rest@.len() == ms.len(),
            flags@.len() == ms.len(),
            rest@ == ms.skip(k as int),
            messages@.len() == k,
            forall|j: int| 0 <= j < ms.len() ==> #[trigger] flags@[j] == is_recursive(ms, ms[j].spec_path()),
            forall|j: int| 0 <= j < k ==> #[trigger] messages@[j] == ms[j].marked(flags@[j]),
        decreases rest@.len(),
    {
        let mut m = rest.remove(0);
        proof {
            assert(m == ms[k as int]);
            assert(rest@ =~= ms.skip(k + 1));
        }
        let flag = flags[k];
        m.set_recursive(flag);
        messages.push(m);
        let count = flags.len();
        proof {
            assert(k < count);
        }
        k = k + 1;
    }
}

} // verus!
