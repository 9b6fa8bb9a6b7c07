//! Identity-keyed indexes beneath the comparison: vectors of `(key, value)` entries held strictly
//! ascending by key — a text key by the lexicographic order of its characters, a number by its
//! value — built last-write-wins from an item sequence, and joined pairwise ([`merge_text`],
//! [`merge_num`]) so that a key on both sides pairs its values and a key on one side keeps that
//! side.
use vstd::prelude::*;

use crate::text::{chars_eq, chars_lt, lemma_seq_lt_irreflexive, lemma_seq_lt_total,
    lemma_seq_lt_transitive, seq_lt};

verus! {

/// The sides of one matched node — the old, the new, or both — so a node with neither is
/// unrepresentable and every classification is total over the three.
#[derive(Clone, Copy, Debug, PartialEq, Eq)]
pub enum Pair<T> {
    /// On the old side only.
    Old(T),
    /// On the new side only.
    New(T),
    /// On both sides.
    Both(T, T),
}

impl<T> Pair<T> {
    /// The old side's value, when the node is on that side.
    pub open spec fn spec_old(self) -> Option<T> {
        match self {
            Pair::Old(o) => Some(o),
            Pair::Both(o, _) => Some(o),
            Pair::New(_) => None,
        }
    }

    /// The new side's value, when the node is on that side.
    pub open spec fn spec_new(self) -> Option<T> {
        match self {
            Pair::New(n) => Some(n),
            Pair::Both(_, n) => Some(n),
            Pair::Old(_) => None,
        }
    }

}

impl<T: Copy> Pair<T> {
    /// The old side's value, when the node is on that side.
    pub fn old_side(self) -> (r: Option<T>)
        ensures
            r == self.spec_old(),
    {
        match self {
            Pair::Old(o) => Some(o),
            Pair::Both(o, _) => Some(o),
            Pair::New(_) => None,
        }
    }

    /// The new side's value, when the node is on that side.
    pub fn new_side(self) -> (r: Option<T>)
        ensures
            r == self.spec_new(),
    {
        match self {
            Pair::New(n) => Some(n),
            Pair::Both(_, n) => Some(n),
            Pair::Old(_) => None,
        }
    }
}

/// The pair a node present on the sides `old` and `new` (at least one) forms.
pub open spec fn pair_of<T>(olds: Option<T>, news: Option<T>) -> Pair<T> {
    match (olds, news) {
        (Some(o), Some(n)) => Pair::Both(o, n),
        (Some(o), None) => Pair::Old(o),
        (None, Some(n)) => Pair::New(n),
        (None, None) => arbitrary(),
    }
}

// ---------------------------------------------------------------------------------------------
// Text-keyed indexes.
// ---------------------------------------------------------------------------------------------

/// Whether the entries' text keys ascend strictly.
pub open spec fn text_sorted<V>(s: Seq<(Vec<char>, V)>) -> bool {
    forall|i: int, j: int| 0 <= i < j < s.len() ==> seq_lt(#[trigger] s[i].0@, #[trigger] s[j].0@)
}

/// Whether some entry carries the text key `k`.
pub open spec fn text_has<V>(s: Seq<(Vec<char>, V)>, k: Seq<char>) -> bool {
    exists|i: int| 0 <= i < s.len() && (#[trigger] s[i].0)@ == k
}

/// The value of the entry with key `k`, when there is one.
pub open spec fn text_find<V>(s: Seq<(Vec<char>, V)>, k: Seq<char>) -> Option<V> {
    if text_has(s, k) {
        Some(s[choose|i: int| 0 <= i < s.len() && (#[trigger] s[i].0)@ == k].1)
    } else {
        None
    }
}

/// In strictly sorted entries, an entry's key finds that entry.
pub proof fn lemma_text_find_at<V>(s: Seq<(Vec<char>, V)>, i: int)
    requires
        text_sorted(s),
        0 <= i < s.len(),
    ensures
        text_find(s, s[i].0@) == Some(s[i].1),
{
    let k = s[i].0@;
    assert(text_has(s, k));
    let j = choose|j: int| 0 <= j < s.len() && (#[trigger] s[j].0)@ == k;
    lemma_seq_lt_irreflexive(k);
    if j < i {
        assert(seq_lt(s[j].0@, s[i].0@));
    } else if i < j {
        assert(seq_lt(s[i].0@, s[j].0@));
    }
}

/// In strictly sorted entries whose last key orders before `k`, every key orders before `k`.
pub proof fn lemma_text_below_last<V>(s: Seq<(Vec<char>, V)>, x: Seq<char>, k: Seq<char>)
    requires
        text_sorted(s),
        s.len() > 0,
        seq_lt(s.last().0@, k),
        text_has(s, x),
    ensures
        seq_lt(x, k),
        x != k,
{
    let e = choose|e: int| 0 <= e < s.len() && (#[trigger] s[e].0)@ == x;
    if e < s.len() - 1 {
        assert(seq_lt(s[e].0@, s[s.len() - 1].0@));
        lemma_seq_lt_transitive(x, s.last().0@, k);
    }
    lemma_seq_lt_irreflexive(k);
}

/// The characters of a vector, copied.
pub fn clone_chars(v: &Vec<char>) -> (r: Vec<char>)
    ensures
        r@ == v@,
{
    let mut r: Vec<char> = Vec::new();
    let mut i: usize = 0;
    while i < v.len()
        invariant
            i <= v@.len(),
            r@ == v@.take(i as int),
        decreases v@.len() - i,
    {
        r.push(v[i]);
        proof {
            assert(v@.take(i + 1) =~= v@.take(i as int).push(v@[i as int]));
        }
        i = i + 1;
    }
    proof {
        assert(v@.take(v@.len() as int) =~= v@);
    }
    r
}

/// Insert `(key, value)` into strictly sorted entries unless the key is already there.
pub fn text_insert_absent<V>(entries: &mut Vec<(Vec<char>, V)>, key: Vec<char>, value: V)
    requires
        text_sorted(old(entries)@),
    ensures
        text_sorted(final(entries)@),
        text_has(old(entries)@, key@) ==> final(entries)@ == old(entries)@,
        !text_has(old(entries)@, key@) ==> exists|p: int|
            0 <= p <= old(entries)@.len() && final(entries)@ == old(entries)@.insert(
                p,
                (key, value),
            ),
{
    let mut i: usize = 0;
    while i < entries.len() && chars_lt(entries[i].0.as_slice(), key.as_slice())
        invariant
            i <= entries@.len(),
            entries@ == old(entries)@,
            text_sorted(entries@),
            forall|j: int| 0 <= j < i ==> seq_lt(#[trigger] entries@[j].0@, key@),
        decreases entries@.len() - i,
    {
        i = i + 1;
    }
    let ghost ks = key@;
    if i < entries.len() && chars_eq(entries[i].0.as_slice(), key.as_slice()) {
        return;
    }
    proof {
        // Every entry at or past `i` orders after the key.
        lemma_seq_lt_irreflexive(ks);
        if i < entries@.len() {
            lemma_seq_lt_total(entries@[i as int].0@, ks);
        }
        assert forall|j: int| i <= j < entries@.len() implies seq_lt(ks, #[trigger] entries@[j].0@) by {
            if j > i {
                assert(seq_lt(entries@[i as int].0@, entries@[j].0@));
                lemma_seq_lt_transitive(ks, entries@[i as int].0@, entries@[j].0@);
            }
        }
        assert forall|j: int| 0 <= j < entries@.len() implies (#[trigger] entries@[j].0)@ != ks by {
            if j < i {
                assert(seq_lt(entries@[j].0@, ks));
            } else {
                assert(seq_lt(ks, entries@[j].0@));
            }
        }
    }
    let ghost before = entries@;
    entries.insert(i, (key, value));
    proof {
        assert forall|a: int, b: int| 0 <= a < b < entries@.len() implies seq_lt(
            #[trigger] entries@[a].0@,
            #[trigger] entries@[b].0@,
        ) by {
            if b < i {
                assert(seq_lt(before[a].0@, before[b].0@));
            } else if b == i {
                assert(seq_lt(before[a].0@, ks));
            } else if a < i {
                assert(seq_lt(before[a].0@, ks));
                assert(seq_lt(ks, before[b - 1].0@));
                lemma_seq_lt_transitive(before[a].0@, ks, before[b - 1].0@);
            } else if a == i {
                assert(seq_lt(ks, before[b - 1].0@));
            } else {
                assert(seq_lt(before[a - 1].0@, before[b - 1].0@));
            }
        }
    }
}

/// The value held under `key`, when some entry holds it.
pub fn text_get<V: Copy>(entries: &Vec<(Vec<char>, V)>, key: &[char]) -> (r: Option<V>)
    requires
        text_sorted(entries@),
    ensures
        r == text_find(entries@, key@),
{
    let mut i: usize = 0;
    while i < entries.len()
        invariant
            i <= entries@.len(),
            text_sorted(entries@),
            forall|j: int| 0 <= j < i ==> (#[trigger] entries@[j].0)@ != key@,
        decreases entries@.len() - i,
    {
        if chars_eq(entries[i].0.as_slice(), key) {
            proof {
                lemma_text_find_at(entries@, i as int);
            }
            return Some(entries[i].1);
        }
        i = i + 1;
    }
    None
}

/// Hold `value` under `key`: the entry for `key` is replaced or inserted in order, every other
/// key keeps its value.
pub fn text_upsert<V>(entries: &mut Vec<(Vec<char>, V)>, key: Vec<char>, value: V)
    requires
        text_sorted(old(entries)@),
    ensures
        text_sorted(final(entries)@),
        forall|k: Seq<char>|
            #[trigger] text_find(final(entries)@, k) == if k == key@ {
                Some(value)
            } else {
                text_find(old(entries)@, k)
            },
{
    let ghost before = entries@;
    let ghost ks = key@;
    let mut i: usize = 0;
    while i < entries.len() && chars_lt(entries[i].0.as_slice(), key.as_slice())
        invariant
            i <= entries@.len(),
            entries@ == before,
            text_sorted(entries@),
            ks == key@,
            forall|j: int| 0 <= j < i ==> seq_lt(#[trigger] entries@[j].0@, key@),
        decreases entries@.len() - i,
    {
        i = i + 1;
    }
    proof {
        lemma_seq_lt_irreflexive(ks);
    }
    if i < entries.len() && chars_eq(entries[i].0.as_slice(), key.as_slice()) {
        entries.set(i, (key, value));
        proof {
            assert forall|a: int, b: int| 0 <= a < b < entries@.len() implies seq_lt(
                #[trigger] entries@[a].0@,
                #[trigger] entries@[b].0@,
            ) by {
                assert(entries@[a].0@ == before[a].0@);
                assert(entries@[b].0@ == before[b].0@);
                assert(seq_lt(before[a].0@, before[b].0@));
            }
            assert forall|k: Seq<char>| #[trigger] text_find(entries@, k) == if k == ks {
                Some(value)
            } else {
                text_find(before, k)
            } by {
                if k == ks {
                    lemma_text_find_at(entries@, i as int);
                } else if text_has(before, k) {
                    let j = choose|j: int| 0 <= j < before.len() && (#[trigger] before[j].0)@ == k;
                    lemma_text_find_at(before, j);
                    lemma_text_find_at(entries@, j);
                } else {
                    assert forall|j: int| 0 <= j < entries@.len() implies (#[trigger] entries@[j].0)@
                        != k by {
                        if j != i {
                            assert(entries@[j] == before[j]);
                        }
                    }
                }
            }
        }
        return;
    }
    proof {
        if i < entries@.len() {
            lemma_seq_lt_total(entries@[i as int].0@, ks);
        }
        assert forall|j: int| i <= j < entries@.len() implies seq_lt(ks, #[trigger] entries@[j].0@) by {
            if j > i {
                assert(seq_lt(entries@[i as int].0@, entries@[j].0@));
                lemma_seq_lt_transitive(ks, entries@[i as int].0@, entries@[j].0@);
            }
        }
    }
    entries.insert(i, (key, value));
    proof {
        assert forall|a: int, b: int| 0 <= a < b < entries@.len() implies seq_lt(
            #[trigger] entries@[a].0@,
            #[trigger] entries@[b].0@,
        ) by {
            if b < i {
                assert(seq_lt(before[a].0@, before[b].0@));
            } else if b == i {
                assert(seq_lt(before[a].0@, ks));
            } else if a < i {
                assert(seq_lt(before[a].0@, ks));
                assert(seq_lt(ks, before[b - 1].0@));
                lemma_seq_lt_transitive(before[a].0@, ks, before[b - 1].0@);
            } else if a == i {
                assert(seq_lt(ks, before[b - 1].0@));
            } else {
                assert(seq_lt(before[a - 1].0@, before[b - 1].0@));
            }
        }
        assert forall|k: Seq<char>| #[trigger] text_find(entries@, k) == if k == ks {
            Some(value)
        } else {
            text_find(before, k)
        } by {
            if k == ks {
                lemma_text_find_at(entries@, i as int);
            } else if text_has(before, k) {
                let j = choose|j: int| 0 <= j < before.len() && (#[trigger] before[j].0)@ == k;
                lemma_text_find_at(before, j);
                if j < i {
                    assert(entries@[j] == before[j]);
                    lemma_text_find_at(entries@, j);
                } else {
                    assert(entries@[j + 1] == before[j]);
                    lemma_text_find_at(entries@, j + 1);
                }
            } else {
                assert forall|j: int| 0 <= j < entries@.len() implies (#[trigger] entries@[j].0)@
                    != k by {
                    if j < i {
                        assert(entries@[j] == before[j]);
                    } else if j > i {
                        assert(entries@[j] == before[j - 1]);
                    }
                }
            }
        }
    }
}

/// Whether `v` is the value of the *last* item carrying key `k`, that item at or past `lo`.
pub open spec fn text_last_from<V>(items: Seq<(Vec<char>, V)>, lo: int, k: Seq<char>, v: V) -> bool {
    exists|i: int|
        lo <= i < items.len() && (#[trigger] items[i].0)@ == k && items[i].1 == v && forall|j: int|
            i < j < items.len() ==> (#[trigger] items[j].0)@ != k
}

/// Whether entry value `v` keyed `k` is the value of the *last* item carrying key `k`.
pub open spec fn text_last_value<V>(items: Seq<(Vec<char>, V)>, k: Seq<char>, v: V) -> bool {
    text_last_from(items, 0, k, v)
}

/// Index `items` by key, a later item replacing an earlier one with the same key: the entries
/// ascend strictly, hold exactly the items' keys, and each holds its key's last value.
pub fn text_index<V>(items: Vec<(Vec<char>, V)>) -> (r: Vec<(Vec<char>, V)>)
    ensures
        text_sorted(r@),
        forall|k: Seq<char>| #[trigger] text_has(r@, k) <==> text_has(items@, k),
        forall|e: int| 0 <= e < r@.len() ==> text_last_value(items@, r@[e].0@, #[trigger] r@[e].1),
{
    let ghost all = items@;
    let mut rest = items;
    let mut out: Vec<(Vec<char>, V)> = Vec::new();
    while rest.len() > 0
        invariant
            rest@ == all.take(rest@.len() as int),
            rest@.len() <= all.len(),
            text_sorted(out@),
            forall|k: Seq<char>|
                #[trigger] text_has(out@, k) <==> exists|i: int|
                    rest@.len() <= i < all.len() && (#[trigger] all[i].0)@ == k,
            forall|e: int|
                0 <= e < out@.len() ==> text_last_from(
                    all,
                    rest@.len() as int,
                    out@[e].0@,
                    #[trigger] out@[e].1,
                ),
        decreases rest@.len(),
    {
        let ghost n = rest@.len() - 1;
        let ghost old_out = out@;
        let (key, value) = rest.pop().unwrap();
        proof {
            assert(all[n] == (key, value));
            assert(rest@ =~= all.take(n));
        }
        let ghost k = key@;
        let ghost had = text_has(out@, k);
        text_insert_absent(&mut out, key, value);
        proof {
            assert forall|kk: Seq<char>| #[trigger] text_has(out@, kk) <==> exists|i: int|
                n <= i < all.len() && (#[trigger] all[i].0)@ == kk by {
                if text_has(out@, kk) {
                    if kk == k {
                        assert(all[n].0@ == kk);
                    } else if had {
                        assert(text_has(old_out, kk));
                    } else {
                        let p = choose|p: int|
                            0 <= p <= old_out.len() && out@ == old_out.insert(p, (key, value));
                        let e = choose|e: int| 0 <= e < out@.len() && (#[trigger] out@[e].0)@ == kk;
                        if e < p {
                            assert(old_out[e] == out@[e]);
                        } else if e > p {
                            assert(old_out[e - 1] == out@[e]);
                        }
                        assert(text_has(old_out, kk));
                    }
                } else {
                    if kk == k {
                        if !had {
                            let p = choose|p: int|
                                0 <= p <= old_out.len() && out@ == old_out.insert(p, (key, value));
                            assert(out@[p].0@ == k);
                        }
                    } else {
                        if exists|i: int| n <= i < all.len() && (#[trigger] all[i].0)@ == kk {
                            let i = choose|i: int| n <= i < all.len() && (#[trigger] all[i].0)@ == kk;
                            assert(i != n);
                            assert(text_has(old_out, kk));
                            let e = choose|e: int|
                                0 <= e < old_out.len() && (#[trigger] old_out[e].0)@ == kk;
                            if !had {
                                let p = choose|p: int|
                                    0 <= p <= old_out.len() && out@ == old_out.insert(p, (key, value));
                                if e < p {
                                    assert(out@[e] == old_out[e]);
                                } else {
                                    assert(out@[e + 1] == old_out[e]);
                                }
                            }
                        }
                    }
                }
            }
            assert forall|e: int| 0 <= e < out@.len() implies text_last_from(
                all,
                n,
                out@[e].0@,
                #[trigger] out@[e].1,
            ) by {
                if had {
                    assert(out@[e] == old_out[e]);
                    assert(text_last_from(all, n + 1, old_out[e].0@, old_out[e].1));
                } else {
                    let p = choose|p: int|
                        0 <= p <= old_out.len() && out@ == old_out.insert(p, (key, value));
                    if e == p {
                        assert(all[n].0@ == out@[e].0@);
                        assert forall|j: int| n < j < all.len() implies (#[trigger] all[j].0)@
                            != k by {
                            if all[j].0@ == k {
                                assert(exists|i: int|
                                    n + 1 <= i < all.len() && (#[trigger] all[i].0)@ == k);
                            }
                        }
                    } else {
                        let oe = if e < p {
                            e
                        } else {
                            e - 1
                        };
                        assert(out@[e] == old_out[oe]);
                        assert(text_last_from(all, n + 1, old_out[oe].0@, old_out[oe].1));
                    }
                }
            }
        }
    }
    proof {
        assert forall|kk: Seq<char>| #[trigger] text_has(out@, kk) <==> text_has(all, kk) by {
            if text_has(all, kk) {
                let i = choose|i: int| 0 <= i < all.len() && (#[trigger] all[i].0)@ == kk;
                assert(rest@.len() <= i);
            }
        }
        assert forall|e: int| 0 <= e < out@.len() implies text_last_value(
            all,
            out@[e].0@,
            #[trigger] out@[e].1,
        ) by {
            assert(text_last_from(all, rest@.len() as int, out@[e].0@, out@[e].1));
        }
    }
    out
}

/// Join two strictly sorted text-keyed indexes: every key of either, ascending, with the value
/// of each side that holds it.
pub fn merge_text<V: Copy>(olds: &Vec<(Vec<char>, V)>, news: &Vec<(Vec<char>, V)>) -> (r: Vec<
    (Vec<char>, Pair<V>),
>)
    requires
        text_sorted(olds@),
        text_sorted(news@),
    ensures
        text_sorted(r@),
        forall|k: Seq<char>| #[trigger] text_has(r@, k) <==> (text_has(olds@, k) || text_has(news@, k)),
        forall|e: int|
            0 <= e < r@.len() ==> (#[trigger] r@[e]).1 == pair_of(
                text_find(olds@, r@[e].0@),
                text_find(news@, r@[e].0@),
            ),
{
    let mut out: Vec<(Vec<char>, Pair<V>)> = Vec::new();
    let mut i: usize = 0;
    let mut j: usize = 0;
    while i < olds.len() || j < news.len()
        invariant
            text_sorted(olds@),
            text_sorted(news@),
            i <= olds@.len(),
            j <= news@.len(),
            text_sorted(out@),
            out@.len() > 0 ==> (i < olds@.len() ==> seq_lt(out@.last().0@, olds@[i as int].0@)),
            out@.len() > 0 ==> (j < news@.len() ==> seq_lt(out@.last().0@, news@[j as int].0@)),
            forall|k: Seq<char>|
                #[trigger] text_has(out@, k) <==> ((exists|a: int| 0 <= a < i && (#[trigger] olds@[a].0)@ == k)
                    || (exists|b: int| 0 <= b < j && (#[trigger] news@[b].0)@ == k)),
            forall|e: int|
                0 <= e < out@.len() ==> (#[trigger] out@[e]).1 == pair_of(
                    text_find(olds@, out@[e].0@),
                    text_find(news@, out@[e].0@),
                ),
        decreases olds@.len() + news@.len() - i - j,
    {
        let ghost prev = out@;
        let take_old = j == news.len() || (i < olds.len() && chars_lt(
            olds[i].0.as_slice(),
            news[j].0.as_slice(),
        ));
        let take_new = !take_old && (i == olds.len() || chars_lt(
            news[j].0.as_slice(),
            olds[i].0.as_slice(),
        ));
        proof {
            if i < olds@.len() {
                lemma_text_find_at(olds@, i as int);
            }
            if j < news@.len() {
                lemma_text_find_at(news@, j as int);
            }
            if i < olds@.len() && j < news@.len() {
                lemma_seq_lt_total(olds@[i as int].0@, news@[j as int].0@);
            }
        }
        let ghost k: Seq<char>;
        if take_old {
            proof {
                k = olds@[i as int].0@;
                // The key is on no later or earlier new entry.
                lemma_seq_lt_irreflexive(k);
                assert forall|b: int| 0 <= b < news@.len() implies (#[trigger] news@[b].0)@ != k by {
                    if b < j {
                        assert(text_has(prev, news@[b].0@));
                        lemma_text_below_last(prev, news@[b].0@, k);
                    } else if j < news@.len() {
                        assert(seq_lt(k, news@[j as int].0@));
                        if b > j {
                            assert(seq_lt(news@[j as int].0@, news@[b].0@));
                            lemma_seq_lt_transitive(k, news@[j as int].0@, news@[b].0@);
                        }
                    }
                }
                assert(!text_has(news@, k));
            }
            out.push((clone_chars(&olds[i].0), Pair::Old(olds[i].1)));
            i = i + 1;
        } else if take_new {
            proof {
                k = news@[j as int].0@;
                lemma_seq_lt_irreflexive(k);
                assert forall|a: int| 0 <= a < olds@.len() implies (#[trigger] olds@[a].0)@ != k by {
                    if a < i {
                        assert(text_has(prev, olds@[a].0@));
                        lemma_text_below_last(prev, olds@[a].0@, k);
                    } else if i < olds@.len() {
                        assert(seq_lt(k, olds@[i as int].0@));
                        if a > i {
                            assert(seq_lt(olds@[i as int].0@, olds@[a].0@));
                            lemma_seq_lt_transitive(k, olds@[i as int].0@, olds@[a].0@);
                        }
                    }
                }
                assert(!text_has(olds@, k));
            }
            out.push((clone_chars(&news[j].0), Pair::New(news[j].1)));
            j = j + 1;
        } else {
            proof {
                k = olds@[i as int].0@;
                assert(olds@[i as int].0@ == news@[j as int].0@);
            }
            out.push((clone_chars(&olds[i].0), Pair::Both(olds[i].1, news[j].1)));
            i = i + 1;
            j = j + 1;
        }
        proof {
            assert(out@ == prev.push(out@.last()));
            assert(out@.last().0@ == k);
            assert forall|a: int, b: int| 0 <= a < b < out@.len() implies seq_lt(
                #[trigger] out@[a].0@,
                #[trigger] out@[b].0@,
            ) by {
                if b == out@.len() - 1 && a < b {
                    assert(out@[a] == prev[a]);
                    if a < prev.len() - 1 {
                        lemma_seq_lt_transitive(prev[a].0@, prev.last().0@, k);
                    }
                } else {
                    assert(out@[a] == prev[a]);
                    assert(out@[b] == prev[b]);
                }
            }
            if i < olds@.len() {
                if i > 0 && olds@[i - 1].0@ == k {
                } else {
                    lemma_seq_lt_total(k, olds@[i as int].0@);
                }
            }
            assert forall|kk: Seq<char>| #[trigger] text_has(out@, kk) <==> ((exists|a: int|
                0 <= a < i && (#[trigger] olds@[a].0)@ == kk) || (exists|b: int|
                0 <= b < j && (#[trigger] news@[b].0)@ == kk)) by {
                if text_has(out@, kk) {
                    let e = choose|e: int| 0 <= e < out@.len() && (#[trigger] out@[e].0)@ == kk;
                    if e < prev.len() {
                        assert(prev[e] == out@[e]);
                        assert(text_has(prev, kk));
                    }
                } else {
                    if text_has(prev, kk) {
                        let e = choose|e: int| 0 <= e < prev.len() && (#[trigger] prev[e].0)@ == kk;
                        assert(out@[e] == prev[e]);
                    }
                    if kk == k {
                        assert(out@[out@.len() - 1].0@ == k);
                    }
                }
            }
        }
    }
    out
}

// ---------------------------------------------------------------------------------------------
// Number-keyed indexes.
// ---------------------------------------------------------------------------------------------

/// Whether the entries' number keys ascend strictly.
pub open spec fn num_sorted<V>(s: Seq<(i32, V)>) -> bool {
    forall|i: int, j: int| 0 <= i < j < s.len() ==> (#[trigger] s[i].0) < (#[trigger] s[j].0)
}

/// Whether some entry carries the number key `k`.
pub open spec fn num_has<V>(s: Seq<(i32, V)>, k: i32) -> bool {
    exists|i: int| 0 <= i < s.len() && (#[trigger] s[i].0) == k
}

/// The value of the entry with key `k`, when there is one.
pub open spec fn num_find<V>(s: Seq<(i32, V)>, k: i32) -> Option<V> {
    if num_has(s, k) {
        Some(s[choose|i: int| 0 <= i < s.len() && (#[trigger] s[i].0) == k].1)
    } else {
        None
    }
}

/// In strictly sorted entries, an entry's key finds that entry.
pub proof fn lemma_num_find_at<V>(s: Seq<(i32, V)>, i: int)
    requires
        num_sorted(s),
        0 <= i < s.len(),
    ensures
        num_find(s, s[i].0) == Some(s[i].1),
{
    assert(num_has(s, s[i].0));
}

/// In strictly sorted entries whose last key is below `k`, every key is below `k`.
pub proof fn lemma_num_below_last<V>(s: Seq<(i32, V)>, x: i32, k: i32)
    requires
        num_sorted(s),
        s.len() > 0,
        s.last().0 < k,
        num_has(s, x),
    ensures
        x < k,
{
    let e = choose|e: int| 0 <= e < s.len() && (#[trigger] s[e].0) == x;
    if e < s.len() - 1 {
        assert(s[e].0 < s[s.len() - 1].0);
    }
}

/// The value held under number `key`, when some entry holds it.
pub fn num_get<V: Copy>(entries: &Vec<(i32, V)>, key: i32) -> (r: Option<V>)
    requires
        num_sorted(entries@),
    ensures
        r == num_find(entries@, key),
{
    let mut i: usize = 0;
    while i < entries.len()
        invariant
            i <= entries@.len(),
            num_sorted(entries@),
            forall|j: int| 0 <= j < i ==> (#[trigger] entries@[j].0) != key,
        decreases entries@.len() - i,
    {
        if entries[i].0 == key {
            proof {
                lemma_num_find_at(entries@, i as int);
            }
            return Some(entries[i].1);
        }
        i = i + 1;
    }
    None
}

/// Hold `value` under number `key`: the entry for `key` is replaced or inserted in order, every
/// other key keeps its value.
pub fn num_upsert<V>(entries: &mut Vec<(i32, V)>, key: i32, value: V)
    requires
        num_sorted(old(entries)@),
    ensures
        num_sorted(final(entries)@),
        forall|k: i32|
            #[trigger] num_find(final(entries)@, k) == if k == key {
                Some(value)
            } else {
                num_find(old(entries)@, k)
            },
{
    let ghost before = entries@;
    let mut i: usize = 0;
    while i < entries.len() && entries[i].0 < key
        invariant
            i <= entries@.len(),
            entries@ == before,
            num_sorted(entries@),
            forall|j: int| 0 <= j < i ==> (#[trigger] entries@[j].0) < key,
        decreases entries@.len() - i,
    {
        i = i + 1;
    }
    if i < entries.len() && entries[i].0 == key {
        entries.set(i, (key, value));
        proof {
            assert forall|a: int, b: int| 0 <= a < b < entries@.len() implies (#[trigger] entries@[a].0)
                < (#[trigger] entries@[b].0) by {
                assert(entries@[a].0 == before[a].0);
                assert(entries@[b].0 == before[b].0);
            }
            assert forall|k: i32| #[trigger] num_find(entries@, k) == if k == key {
                Some(value)
            } else {
                num_find(before, k)
            } by {
                if k == key {
                    lemma_num_find_at(entries@, i as int);
                } else if num_has(before, k) {
                    let j = choose|j: int| 0 <= j < before.len() && (#[trigger] before[j].0) == k;
                    lemma_num_find_at(before, j);
                    lemma_num_find_at(entries@, j);
                } else {
                    assert forall|j: int| 0 <= j < entries@.len() implies (#[trigger] entries@[j].0)
                        != k by {
                        if j != i {
                            assert(entries@[j] == before[j]);
                        }
                    }
                }
            }
        }
        return;
    }
    proof {
        assert forall|j: int| i <= j < entries@.len() implies key < #[trigger] entries@[j].0 by {
            if j > i {
                assert(entries@[i as int].0 < entries@[j].0);
            }
        }
    }
    entries.insert(i, (key, value));
    proof {
        assert forall|a: int, b: int| 0 <= a < b < entries@.len() implies (#[trigger] entries@[a].0)
            < (#[trigger] entries@[b].0) by {
            if b < i {
                assert(before[a].0 < before[b].0);
            } else if b == i {
                assert(before[a].0 < key);
            } else if a < i {
                assert(before[a].0 < key);
                assert(key < before[b - 1].0);
            } else if a == i {
                assert(key < before[b - 1].0);
            } else {
                assert(before[a - 1].0 < before[b - 1].0);
            }
        }
        assert forall|k: i32| #[trigger] num_find(entries@, k) == if k == key {
            Some(value)
        } else {
            num_find(before, k)
        } by {
            if k == key {
                lemma_num_find_at(entries@, i as int);
            } else if num_has(before, k) {
                let j = choose|j: int| 0 <= j < before.len() && (#[trigger] before[j].0) == k;
                lemma_num_find_at(before, j);
                if j < i {
                    assert(entries@[j] == before[j]);
                    lemma_num_find_at(entries@, j);
                } else {
                    assert(entries@[j + 1] == before[j]);
                    lemma_num_find_at(entries@, j + 1);
                }
            } else {
                assert forall|j: int| 0 <= j < entries@.len() implies (#[trigger] entries@[j].0) != k by {
                    if j < i {
                        assert(entries@[j] == before[j]);
                    } else if j > i {
                        assert(entries@[j] == before[j - 1]);
                    }
                }
            }
        }
    }
}

/// Whether `v` is the value of the *last* item carrying number `k`, that item at or past `lo`.
pub open spec fn num_last_from<V>(items: Seq<(i32, V)>, lo: int, k: i32, v: V) -> bool {
    exists|i: int|
        lo <= i < items.len() && (#[trigger] items[i].0) == k && items[i].1 == v && forall|j: int|
            i < j < items.len() ==> (#[trigger] items[j].0) != k
}

/// Whether entry value `v` keyed `k` is the value of the *last* item carrying key `k`.
pub open spec fn num_last_value<V>(items: Seq<(i32, V)>, k: i32, v: V) -> bool {
    num_last_from(items, 0, k, v)
}

/// Index `items` by number, a later item replacing an earlier one with the same number.
pub fn num_index<V>(items: Vec<(i32, V)>) -> (r: Vec<(i32, V)>)
    ensures
        num_sorted(r@),
        forall|k: i32| #[trigger] num_has(r@, k) <==> num_has(items@, k),
        forall|e: int| 0 <= e < r@.len() ==> num_last_value(items@, r@[e].0, #[trigger] r@[e].1),
{
    let ghost all = items@;
    let mut rest = items;
    let mut out: Vec<(i32, V)> = Vec::new();
    while rest.len() > 0
        invariant
            rest@ == all.take(rest@.len() as int),
            rest@.len() <= all.len(),
            num_sorted(out@),
            forall|k: i32|
                #[trigger] num_has(out@, k) <==> exists|i: int|
                    rest@.len() <= i < all.len() && (#[trigger] all[i].0) == k,
            forall|e: int|
                0 <= e < out@.len() ==> num_last_from(
                    all,
                    rest@.len() as int,
                    out@[e].0,
                    #[trigger] out@[e].1,
                ),
        decreases rest@.len(),
    {
        let ghost n = rest@.len() - 1;
        let ghost old_out = out@;
        let (key, value) = rest.pop().unwrap();
        proof {
            assert(all[n] == (key, value));
            assert(rest@ =~= all.take(n));
        }
        let mut p: usize = 0;
        while p < out.len() && out[p].0 < key
            invariant
                p <= out@.len(),
                out@ == old_out,
                num_sorted(out@),
                forall|q: int| 0 <= q < p ==> (#[trigger] out@[q].0) < key,
            decreases out@.len() - p,
        {
            p = p + 1;
        }
        if p < out.len() && out[p].0 == key {
            // A later item already holds this number.
        } else {
            out.insert(p, (key, value));
            proof {
                assert forall|a: int, b: int| 0 <= a < b < out@.len() implies (#[trigger] out@[a].0)
                    < (#[trigger] out@[b].0) by {
                    if a < p && b > p {
                        assert(out@[b] == old_out[b - 1]);
                        if b - 1 > p {
                            assert(old_out[p as int].0 < old_out[b - 1].0);
                        }
                    }
                }
                assert forall|e: int| 0 <= e < out@.len() implies num_last_from(
                    all,
                    n,
                    out@[e].0,
                    #[trigger] out@[e].1,
                ) by {
                    if e == p {
                        assert forall|j: int| n < j < all.len() implies (#[trigger] all[j].0)
                            != key by {
                            if all[j].0 == key {
                                assert(num_has(old_out, key));
                                let q = choose|q: int|
                                    0 <= q < old_out.len() && (#[trigger] old_out[q].0) == key;
                                if q < p {
                                } else if q > p {
                                    assert(old_out[p as int].0 < old_out[q].0);
                                }
                            }
                        }
                    } else if e < p {
                        assert(out@[e] == old_out[e]);
                        assert(num_last_from(all, n + 1, old_out[e].0, old_out[e].1));
                    } else {
                        assert(out@[e] == old_out[e - 1]);
                        assert(num_last_from(all, n + 1, old_out[e - 1].0, old_out[e - 1].1));
                    }
                }
            }
        }
        proof {
            assert forall|k: i32| #[trigger] num_has(out@, k) <==> exists|i: int|
                n <= i < all.len() && (#[trigger] all[i].0) == k by {
                if num_has(out@, k) {
                    let e = choose|e: int| 0 <= e < out@.len() && (#[trigger] out@[e].0) == k;
                    if k == key {
                        assert(all[n].0 == k);
                    } else if out@.len() == old_out.len() {
                        assert(num_has(old_out, k));
                    } else if e < p {
                        assert(out@[e] == old_out[e]);
                        assert(num_has(old_out, k));
                    } else {
                        assert(out@[e] == old_out[e - 1]);
                        assert(num_has(old_out, k));
                    }
                } else {
                    if k == key {
                        if out@.len() != old_out.len() {
                            assert(out@[p as int].0 == key);
                        } else {
                            assert(out@[p as int].0 == key);
                        }
                    } else if exists|i: int| n <= i < all.len() && (#[trigger] all[i].0) == k {
                        let i = choose|i: int| n <= i < all.len() && (#[trigger] all[i].0) == k;
                        assert(i != n);
                        assert(num_has(old_out, k));
                        let e = choose|e: int| 0 <= e < old_out.len() && (#[trigger] old_out[e].0) == k;
                        if out@.len() != old_out.len() {
                            if e < p {
                                assert(out@[e] == old_out[e]);
                            } else {
                                assert(out@[e + 1] == old_out[e]);
                            }
                        } else {
                            assert(out@[e] == old_out[e]);
                        }
                    }
                }
            }
        }
    }
    proof {
        assert forall|k: i32| #[trigger] num_has(out@, k) <==> num_has(all, k) by {
            if num_has(all, k) {
                let i = choose|i: int| 0 <= i < all.len() && (#[trigger] all[i].0) == k;
                assert(rest@.len() <= i);
            }
        }
        assert forall|e: int| 0 <= e < out@.len() implies num_last_value(
            all,
            out@[e].0,
            #[trigger] out@[e].1,
        ) by {
            assert(num_last_from(all, rest@.len() as int, out@[e].0, out@[e].1));
        }
    }
    out
}

/// Join two strictly sorted number-keyed indexes: every key of either, ascending, with the value
/// of each side that holds it.
pub fn merge_num<V: Copy>(olds: &Vec<(i32, V)>, news: &Vec<(i32, V)>) -> (r: Vec<(i32, Pair<V>)>)
    requires
        num_sorted(olds@),
        num_sorted(news@),
    ensures
        num_sorted(r@),
        forall|k: i32| #[trigger] num_has(r@, k) <==> (num_has(olds@, k) || num_has(news@, k)),
        forall|e: int|
            0 <= e < r@.len() ==> (#[trigger] r@[e]).1 == pair_of(
                num_find(olds@, r@[e].0),
                num_find(news@, r@[e].0),
            ),
{
    let mut out: Vec<(i32, Pair<V>)> = Vec::new();
    let mut i: usize = 0;
    let mut j: usize = 0;
    while i < olds.len() || j < news.len()
        invariant
            num_sorted(olds@),
            num_sorted(news@),
            i <= olds@.len(),
            j <= news@.len(),
            num_sorted(out@),
            out@.len() > 0 ==> (i < olds@.len() ==> out@.last().0 < olds@[i as int].0),
            out@.len() > 0 ==> (j < news@.len() ==> out@.last().0 < news@[j as int].0),
            forall|k: i32|
                #[trigger] num_has(out@, k) <==> ((exists|a: int| 0 <= a < i && (#[trigger] olds@[a].0) == k)
                    || (exists|b: int| 0 <= b < j && (#[trigger] news@[b].0) == k)),
            forall|e: int|
                0 <= e < out@.len() ==> (#[trigger] out@[e]).1 == pair_of(
                    num_find(olds@, out@[e].0),
                    num_find(news@, out@[e].0),
                ),
        decreases olds@.len() + news@.len() - i - j,
    {
        let ghost prev = out@;
        proof {
            if i < olds@.len() {
                lemma_num_find_at(olds@, i as int);
            }
            if j < news@.len() {
                lemma_num_find_at(news@, j as int);
            }
        }
        let ghost k: i32;
        if j == news.len() || (i < olds.len() && olds[i].0 < news[j].0) {
            proof {
                k = olds@[i as int].0;
                assert forall|b: int| 0 <= b < news@.len() implies (#[trigger] news@[b].0) != k by {
                    if b < j {
                        assert(num_has(prev, news@[b].0));
                        lemma_num_below_last(prev, news@[b].0, k);
                    } else if b > j {
                        assert(news@[j as int].0 < news@[b].0);
                    }
                }
                assert(!num_has(news@, k));
            }
            out.push((olds[i].0, Pair::Old(olds[i].1)));
            i = i + 1;
        } else if i == olds.len() || news[j].0 < olds[i].0 {
            proof {
                k = news@[j as int].0;
                assert forall|a: int| 0 <= a < olds@.len() implies (#[trigger] olds@[a].0) != k by {
                    if a < i {
                        assert(num_has(prev, olds@[a].0));
                        lemma_num_below_last(prev, olds@[a].0, k);
                    } else if a > i {
                        assert(olds@[i as int].0 < olds@[a].0);
                    }
                }
                assert(!num_has(olds@, k));
            }
            out.push((news[j].0, Pair::New(news[j].1)));
            j = j + 1;
        } else {
            proof {
                k = olds@[i as int].0;
            }
            out.push((olds[i].0, Pair::Both(olds[i].1, news[j].1)));
            i = i + 1;
            j = j + 1;
        }
        proof {
            assert(out@ == prev.push(out@.last()));
            assert forall|a: int, b: int| 0 <= a < b < out@.len() implies (#[trigger] out@[a].0)
                < (#[trigger] out@[b].0) by {
                assert(out@[a] == prev[a]);
                if b < out@.len() - 1 {
                    assert(out@[b] == prev[b]);
                } else if a < prev.len() - 1 {
                    assert(prev[a].0 < prev.last().0);
                }
            }
            assert forall|kk: i32| #[trigger] num_has(out@, kk) <==> ((exists|a: int|
                0 <= a < i && (#[trigger] olds@[a].0) == kk) || (exists|b: int|
                0 <= b < j && (#[trigger] news@[b].0) == kk)) by {
                if num_has(out@, kk) {
                    let e = choose|e: int| 0 <= e < out@.len() && (#[trigger] out@[e].0) == kk;
                    if e < prev.len() {
                        assert(prev[e] == out@[e]);
                        assert(num_has(prev, kk));
                    }
                } else {
                    if num_has(prev, kk) {
                        let e = choose|e: int| 0 <= e < prev.len() && (#[trigger] prev[e].0) == kk;
                        assert(out@[e] == prev[e]);
                    }
                    if kk == k {
                        assert(out@[out@.len() - 1].0 == k);
                    }
                }
            }
        }
    }
    out
}

} // verus!
