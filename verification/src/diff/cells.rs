//! The membership dimension of a field: its oneof cell on each side — the member numbers of the
//! oneof it is an arm of there, among the fields both sides hold — and whether the two differ.
use vstd::prelude::*;

use crate::diff::index::{num_find, num_has, num_sorted, Pair};
use crate::diff::model::{arm_of, in_cell, matched, membership_changed, opt_field};
use crate::policy::{EmitForm, FieldMapping, SortMapping};
use crate::text::str_eq;

verus! {

/// Whether a sequence of numbers ascends strictly.
pub open spec fn ascending(s: Seq<i32>) -> bool {
    forall|i: int, j: int| 0 <= i < j < s.len() ==> (#[trigger] s[i]) < (#[trigger] s[j])
}

/// What a sequence holds after a push.
pub proof fn lemma_push_contains(s: Seq<i32>, x: i32, m: i32)
    ensures
        s.push(x).contains(m) == (s.contains(m) || m == x),
{
    if s.push(x).contains(m) {
        let t = choose|t: int| 0 <= t < s.push(x).len() && s.push(x)[t] == m;
        if t < s.len() {
            assert(s[t] == m);
        }
    }
    if s.contains(m) {
        let t = choose|t: int| 0 <= t < s.len() && s[t] == m;
        assert(s.push(x)[t] == m);
    }
    if m == x {
        assert(s.push(x)[s.len() as int] == m);
    }
}

/// In a strictly ascending sequence every element is at most the last.
pub proof fn lemma_ascending_below(s: Seq<i32>, x: i32)
    requires
        ascending(s),
        s.contains(x),
    ensures
        x <= s.last(),
{
    let t = choose|t: int| 0 <= t < s.len() && s[t] == x;
    if t < s.len() - 1 {
        assert(s[t] < s[s.len() - 1]);
    }
}

/// Two strictly ascending sequences holding the same numbers are one sequence.
pub proof fn lemma_ascending_unique(a: Seq<i32>, b: Seq<i32>)
    requires
        ascending(a),
        ascending(b),
        forall|x: i32| a.contains(x) <==> b.contains(x),
    ensures
        a == b,
    decreases a.len(),
{
    if a.len() == 0 {
        if b.len() > 0 {
            assert(b.contains(b[0]));
        }
        assert(a =~= b);
    } else {
        assert(a.contains(a[0]));
        assert(b.len() > 0);
        assert(b.contains(b[0]));
        let i = choose|i: int| 0 <= i < a.len() && a[i] == b[0];
        let j = choose|j: int| 0 <= j < b.len() && b[j] == a[0];
        if i > 0 {
            assert(a[0] < a[i]);
        }
        if j > 0 {
            assert(b[0] < b[j]);
        }
        assert(a[0] == b[0]);
        let a1 = a.drop_first();
        let b1 = b.drop_first();
        assert forall|x: i32| a1.contains(x) <==> b1.contains(x) by {
            if a1.contains(x) {
                let k = choose|k: int| 0 <= k < a1.len() && a1[k] == x;
                assert(a[k + 1] == x);
                assert(a[0] < a[k + 1]);
                assert(b.contains(x));
                let m = choose|m: int| 0 <= m < b.len() && b[m] == x;
                assert(m != 0);
                assert(b1[m - 1] == x);
            }
            if b1.contains(x) {
                let k = choose|k: int| 0 <= k < b1.len() && b1[k] == x;
                assert(b[k + 1] == x);
                assert(b[0] < b[k + 1]);
                assert(a.contains(x));
                let m = choose|m: int| 0 <= m < a.len() && a[m] == x;
                assert(m != 0);
                assert(a1[m - 1] == x);
            }
        }
        lemma_ascending_unique(a1, b1);
        assert(a =~= seq![a[0]] + a1);
        assert(b =~= seq![b[0]] + b1);
    }
}

/// Whether two number sequences are equal, element by element.
pub fn numbers_eq(a: &Vec<i32>, b: &Vec<i32>) -> (r: bool)
    ensures
        r == (a@ == b@),
{
    if a.len() != b.len() {
        return false;
    }
    let mut i: usize = 0;
    while i < a.len()
        invariant
            a@.len() == b@.len(),
            i <= a@.len(),
            forall|j: int| 0 <= j < i ==> a@[j] == b@[j],
        decreases a.len() - i,
    {
        if a[i] != b[i] {
            return false;
        }
        i = i + 1;
    }
    assert(a@ =~= b@);
    true
}

/// The field numbers both sides hold, ascending, from the sides' joined field indexes.
pub(crate) fn matched_numbers(
    pairs: &Vec<(i32, Pair<usize>)>,
    Ghost(os): Ghost<Option<SortMapping>>,
    Ghost(ns): Ghost<Option<SortMapping>>,
    Ghost(old_idx): Ghost<Seq<(i32, usize)>>,
    Ghost(new_idx): Ghost<Seq<(i32, usize)>>,
) -> (r: Vec<i32>)
    requires
        num_sorted(pairs@),
        forall|k: i32| #[trigger] num_has(pairs@, k) <==> (num_has(old_idx, k) || num_has(new_idx, k)),
        forall|e: int|
            0 <= e < pairs@.len() ==> (#[trigger] pairs@[e]).1 == crate::diff::index::pair_of(
                num_find(old_idx, pairs@[e].0),
                num_find(new_idx, pairs@[e].0),
            ),
        forall|k: i32| (#[trigger] num_find(old_idx, k) is Some) <==> opt_field(os, k) is Some,
        forall|k: i32| (#[trigger] num_find(new_idx, k) is Some) <==> opt_field(ns, k) is Some,
    ensures
        ascending(r@),
        forall|n: i32| r@.contains(n) <==> matched(os, ns, n),
{
    let mut out: Vec<i32> = Vec::new();
    let mut i: usize = 0;
    while i < pairs.len()
        invariant
            i <= pairs@.len(),
            num_sorted(pairs@),
            forall|k: i32| #[trigger] num_has(pairs@, k) <==> (num_has(old_idx, k) || num_has(new_idx, k)),
            forall|e: int|
                0 <= e < pairs@.len() ==> (#[trigger] pairs@[e]).1 == crate::diff::index::pair_of(
                    num_find(old_idx, pairs@[e].0),
                    num_find(new_idx, pairs@[e].0),
                ),
            forall|k: i32| (#[trigger] num_find(old_idx, k) is Some) <==> opt_field(os, k) is Some,
            forall|k: i32| (#[trigger] num_find(new_idx, k) is Some) <==> opt_field(ns, k) is Some,
            ascending(out@),
            out@.len() > 0 && i < pairs@.len() ==> out@.last() < pairs@[i as int].0,
            forall|n: i32|
                out@.contains(n) <==> (matched(os, ns, n) && exists|e: int|
                    0 <= e < i && (#[trigger] pairs@[e]).0 == n),
        decreases pairs@.len() - i,
    {
        let ghost before = out@;
        let (number, pair) = pairs[i];
        match pair {
            Pair::Both(_, _) => {
                out.push(number);
            },
            _ => {},
        }
        proof {
            assert(pairs@[i as int].0 == number);
            assert(num_has(pairs@, number));
            assert(pair == pairs@[i as int].1);
            assert(num_has(old_idx, number) || num_has(new_idx, number));
            assert(num_has(old_idx, number) == (num_find(old_idx, number) is Some));
            assert(num_has(new_idx, number) == (num_find(new_idx, number) is Some));
            assert((pair is Both) == matched(os, ns, number));
            if before.len() > 0 {
                assert(before.last() < number);
            }
            assert forall|n: i32|
                out@.contains(n) <==> (matched(os, ns, n) && exists|e: int|
                    0 <= e < i + 1 && (#[trigger] pairs@[e]).0 == n) by {
                if n == number {
                    if before.contains(n) {
                        lemma_ascending_below(before, n);
                    }
                    if pair is Both {
                        assert(out@.last() == n);
                        assert(out@.contains(n));
                    }
                } else {
                    lemma_push_contains(before, number, n);
                    if !(pair is Both) {
                        assert(out@ == before);
                    }
                    if exists|e: int| 0 <= e < i + 1 && (#[trigger] pairs@[e]).0 == n {
                        let e = choose|e: int| 0 <= e < i + 1 && (#[trigger] pairs@[e]).0 == n;
                        assert(e < i);
                    }
                }
            }
            if i + 1 < pairs@.len() {
                assert(pairs@[i as int].0 < pairs@[i + 1].0);
            }
        }
        i = i + 1;
    }
    proof {
        assert forall|n: i32| out@.contains(n) <==> matched(os, ns, n) by {
            if matched(os, ns, n) {
                assert(num_has(old_idx, n));
                assert(num_has(pairs@, n));
            }
        }
    }
    out
}

/// Whether some field of the sort numbered `n` is an arm of the oneof labelled `label`.
fn is_arm_of(s: &SortMapping, label: &str, n: i32) -> (r: bool)
    ensures
        r == arm_of(*s, label@, n),
{
    let mut i: usize = 0;
    while i < s.fields.len()
        invariant
            i <= s.fields@.len(),
            forall|j: int|
                0 <= j < i && (#[trigger] s.fields@[j]).number == n ==> !(
                s.fields@[j].form matches EmitForm::OneofArm { oneof } && oneof@ == label@),
        decreases s.fields@.len() - i,
    {
        let field = &s.fields[i];
        if field.number == n {
            match &field.form {
                EmitForm::OneofArm { oneof } => {
                    if str_eq(oneof.as_str(), label) {
                        return true;
                    }
                },
                _ => {},
            }
        }
        i = i + 1;
    }
    false
}

/// A field's oneof cell on the side whose sort is `s`: the matched numbers that number an arm
/// of the field's oneof there, ascending — empty when the field is no arm or not on that side.
pub(crate) fn cell_of(
    s: Option<&SortMapping>,
    f: Option<&FieldMapping>,
    numbers: &Vec<i32>,
    Ghost(os): Ghost<Option<SortMapping>>,
    Ghost(ns): Ghost<Option<SortMapping>>,
) -> (r: Vec<i32>)
    requires
        ascending(numbers@),
        forall|n: i32| numbers@.contains(n) <==> matched(os, ns, n),
    ensures
        ascending(r@),
        forall|n: i32| r@.contains(n) <==> in_cell(crate::diff::model::unref(s), crate::diff::model::unref(f), os, ns, n),
{
    let mut out: Vec<i32> = Vec::new();
    match (s, f) {
        (Some(sort), Some(field)) => match &field.form {
            EmitForm::OneofArm { oneof } => {
                let mut i: usize = 0;
                while i < numbers.len()
                    invariant
                        i <= numbers@.len(),
                        ascending(numbers@),
                        ascending(out@),
                        out@.len() > 0 && i < numbers@.len() ==> out@.last() < numbers@[i as int],
                        forall|n: i32|
                            out@.contains(n) <==> (arm_of(*sort, oneof@, n) && exists|e: int|
                                0 <= e < i && numbers@[e] == n),
                    decreases numbers@.len() - i,
                {
                    let ghost before = out@;
                    let n = numbers[i];
                    if is_arm_of(sort, oneof.as_str(), n) {
                        out.push(n);
                    }
                    proof {
                        if before.len() > 0 {
                            assert(before.last() < n);
                        }
                        assert forall|m: i32|
                            out@.contains(m) <==> (arm_of(*sort, oneof@, m) && exists|e: int|
                                0 <= e < i + 1 && numbers@[e] == m) by {
                            if m == n {
                                if before.contains(m) {
                                    lemma_ascending_below(before, m);
                                }
                                if arm_of(*sort, oneof@, m) {
                                    assert(out@.last() == m);
                                    assert(out@.contains(m));
                                }
                            } else {
                                lemma_push_contains(before, n, m);
                                if exists|e: int| 0 <= e < i + 1 && numbers@[e] == m {
                                    let e = choose|e: int| 0 <= e < i + 1 && numbers@[e] == m;
                                    assert(e < i);
                                }
                            }
                        }
                        if i + 1 < numbers@.len() {
                            assert(numbers@[i as int] < numbers@[i + 1]);
                        }
                    }
                    i = i + 1;
                }
                proof {
                    assert forall|n: i32| out@.contains(n) <==> in_cell(
                        crate::diff::model::unref(s),
                        crate::diff::model::unref(f),
                        os,
                        ns,
                        n,
                    ) by {
                        if matched(os, ns, n) {
                            assert(numbers@.contains(n));
                            let e = choose|e: int| 0 <= e < numbers@.len() && numbers@[e] == n;
                        }
                    }
                }
                out
            },
            _ => out,
        },
        _ => out,
    }
}

/// Two oneof cells of one field differ exactly when its membership changed.
pub proof fn lemma_cells_differ(
    a: Seq<i32>,
    b: Seq<i32>,
    os: Option<SortMapping>,
    ns: Option<SortMapping>,
    fo: Option<FieldMapping>,
    fnew: Option<FieldMapping>,
)
    requires
        ascending(a),
        ascending(b),
        forall|n: i32| a.contains(n) <==> in_cell(os, fo, os, ns, n),
        forall|n: i32| b.contains(n) <==> in_cell(ns, fnew, os, ns, n),
    ensures
        (a != b) == membership_changed(os, ns, fo, fnew),
{
    if a == b {
        assert forall|n: i32| #[trigger] in_cell(os, fo, os, ns, n) == in_cell(ns, fnew, os, ns, n) by {
            assert(a.contains(n) == b.contains(n));
        }
    } else {
        if !membership_changed(os, ns, fo, fnew) {
            assert forall|x: i32| a.contains(x) <==> b.contains(x) by {
                assert(in_cell(os, fo, os, ns, x) == in_cell(ns, fnew, os, ns, x));
            }
            lemma_ascending_unique(a, b);
        }
    }
}

} // verus!
