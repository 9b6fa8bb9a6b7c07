//! The deterministic order of the schema model: each element ordered by its identity (a field
//! or enum value by number, a file by name, a message or enum by path), equal keys keeping their
//! arrival order.
use vstd::prelude::*;

verus! {

/// A model element ordered by a key.
pub trait Ordered: Sized {
    /// Whether `a`'s key orders strictly before `b`'s.
    spec fn key_before(a: Self, b: Self) -> bool;

    /// Whether this element's key orders strictly before `other`'s.
    fn before(&self, other: &Self) -> (r: bool)
        ensures
            r == Self::key_before(*self, *other),
    ;

    /// No two keys order before each other.
    proof fn lemma_key_asymmetric(a: Self, b: Self)
        requires
            Self::key_before(a, b),
        ensures
            !Self::key_before(b, a),
    ;

    /// A key at or after a second, which is at or after a third, is at or after the third.
    proof fn lemma_key_at_or_after(a: Self, b: Self, c: Self)
        requires
            !Self::key_before(a, b),
            !Self::key_before(b, c),
        ensures
            !Self::key_before(a, c),
    ;
}

/// An element placed into elements already in order: after every element whose key does not
/// order after its own, so equal keys keep their arrival order.
pub open spec fn placed<T: Ordered>(s: Seq<T>, e: T) -> Seq<T>
    decreases s.len(),
{
    if s.len() == 0 || !T::key_before(e, s.last()) {
        s.push(e)
    } else {
        placed(s.drop_last(), e).push(s.last())
    }
}

/// Elements in key order, equal keys in arrival order: each placed in turn.
pub open spec fn in_order<T: Ordered>(s: Seq<T>) -> Seq<T>
    decreases s.len(),
{
    if s.len() == 0 {
        s
    } else {
        placed(in_order(s.drop_last()), s.last())
    }
}

/// Placing an element behind one whose key does not order after it, before a run whose keys
/// all order after it, is inserting it there.
proof fn lemma_placed_at<T: Ordered>(s: Seq<T>, e: T, j: int)
    requires
        0 <= j <= s.len(),
        forall|k: int| j <= k < s.len() ==> T::key_before(e, #[trigger] s[k]),
        j == 0 || !T::key_before(e, s[j - 1]),
    ensures
        placed(s, e) == s.insert(j, e),
    decreases s.len(),
{
    if j == s.len() {
        assert(s.insert(j, e) =~= s.push(e));
    } else {
        let t = s.drop_last();
        assert(T::key_before(e, s[s.len() - 1]));
        lemma_placed_at(t, e, j);
        assert(t.insert(j, e).push(s.last()) =~= s.insert(j, e));
    }
}

/// Order `v` by key, equal keys keeping their arrival order.
pub fn sort_stably<T: Ordered>(v: Vec<T>) -> (r: Vec<T>)
    ensures
        r@ == in_order(v@),
{
    let ghost all = v@;
    let total = v.len();
    let mut rest = v;
    let mut out: Vec<T> = Vec::new();
    let mut i: usize = 0;
    proof {
        assert(all.take(0) =~= Seq::<T>::empty());
        assert(rest@ =~= all.skip(0));
    }
    while rest.len() > 0
        invariant
            all.len() == total,
            i + rest@.len() == all.len(),
            rest@ == all.skip(i as int),
            out@ == in_order(all.take(i as int)),
        decreases rest@.len(),
    {
        let x = rest.remove(0);
        let ghost s = out@;
        let mut j: usize = out.len();
        while j > 0 && x.before(&out[j - 1])
            invariant
                j <= out@.len(),
                out@ == s,
                forall|k: int| j <= k < s.len() ==> T::key_before(x, #[trigger] s[k]),
            decreases j,
        {
            j = j - 1;
        }
        proof {
            lemma_placed_at(s, x, j as int);
            assert(all[i as int] == x);
            assert(all.take(i + 1).drop_last() =~= all.take(i as int));
            assert(all.take(i + 1).last() == x);
            assert(rest@ =~= all.skip(i + 1));
        }
        out.insert(j, x);
        i = i + 1;
    }
    proof {
        assert(all.take(i as int) =~= all);
    }
    out
}

impl Ordered for i32 {
    open spec fn key_before(a: i32, b: i32) -> bool {
        a < b
    }

    fn before(&self, other: &i32) -> (r: bool) {
        *self < *other
    }

    proof fn lemma_key_asymmetric(a: i32, b: i32) {
    }

    proof fn lemma_key_at_or_after(a: i32, b: i32, c: i32) {
    }
}

/// Whether elements are in key order: no element's key orders before an earlier one's.
pub open spec fn key_ordered<T: Ordered>(s: Seq<T>) -> bool {
    forall|i: int, j: int| 0 <= i < j < s.len() ==> !T::key_before(#[trigger] s[j], #[trigger] s[i])
}

/// Placing an element into elements in key order keeps them in key order, and adds just it.
proof fn lemma_placed<T: Ordered>(s: Seq<T>, e: T)
    requires
        key_ordered(s),
    ensures
        key_ordered(placed(s, e)),
        placed(s, e).to_multiset() == s.to_multiset().insert(e),
        placed(s, e).len() == s.len() + 1,
    decreases s.len(),
{
    broadcast use {vstd::seq_lib::group_to_multiset_ensures, vstd::multiset::group_multiset_axioms};

    if s.len() == 0 || !T::key_before(e, s.last()) {
        assert forall|i: int, j: int| 0 <= i < j < s.push(e).len() implies !T::key_before(
            #[trigger] s.push(e)[j],
            #[trigger] s.push(e)[i],
        ) by {
            if j == s.len() && i < s.len() - 1 {
                T::lemma_key_at_or_after(e, s.last(), s[i]);
            }
        }
    } else {
        let t = s.drop_last();
        let l = s.last();
        assert(s =~= t.push(l));
        assert(key_ordered(t));
        lemma_placed(t, e);
        let p = placed(t, e);
        T::lemma_key_asymmetric(e, l);
        assert forall|i: int, j: int| 0 <= i < j < p.push(l).len() implies !T::key_before(
            #[trigger] p.push(l)[j],
            #[trigger] p.push(l)[i],
        ) by {
            if j == p.len() {
                // Every element of `p` is `e` or an element of `t`, each at or before `l`.
                let x = p[i];
                assert(p.contains(x));
                assert(p.to_multiset().count(x) > 0);
                if x != e {
                    assert(t.to_multiset().count(x) > 0);
                    assert(t.contains(x));
                    let k = choose|k: int| 0 <= k < t.len() && t[k] == x;
                    assert(s[k] == x);
                    assert(!T::key_before(s[s.len() - 1], s[k]));
                }
            }
        }
        assert(p.push(l).to_multiset() =~= s.to_multiset().insert(e));
    }
}

/// Elements put in order are in key order, and are the same elements: the schema's files,
/// messages, enums, fields, and enum values each come out ordered by their identity, nothing
/// lost and nothing added.
pub proof fn lemma_in_order<T: Ordered>(s: Seq<T>)
    ensures
        key_ordered(in_order(s)),
        in_order(s).to_multiset() == s.to_multiset(),
        in_order(s).len() == s.len(),
    decreases s.len(),
{
    broadcast use {vstd::seq_lib::group_to_multiset_ensures, vstd::multiset::group_multiset_axioms};

    if s.len() > 0 {
        lemma_in_order(s.drop_last());
        lemma_placed(in_order(s.drop_last()), s.last());
        assert(s.drop_last().push(s.last()) =~= s);
    }
}

} // verus!
