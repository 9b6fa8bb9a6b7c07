//! The shape of a message as the canonical orderings read it: for each field, its number, its
//! name, and whether it is a map (with its key kind and, for a message value, the value's
//! layout), a message-typed field (with the message's layout), or anything else. Layouts refer
//! to one another by position in one arena, so a recursive message is a cycle of positions.
use vstd::prelude::*;

use crate::descriptor::model::MapKey;

verus! {

/// What the canonical orderings need to know of one field.
#[derive(Clone, Debug, PartialEq, Eq)]
pub enum FieldLayout {
    /// A map field: its key kind (`None` for a kind no map key has), and the layout of its value
    /// when the value is a message.
    Mapped {
        /// The key kind.
        key: Option<MapKey>,
        /// The value's layout, for a message value.
        value: Option<usize>,
    },
    /// A message-typed field, singular or repeated, with the message's layout.
    Message(usize),
    /// Any other field.
    Plain,
}

/// One field of a message layout.
#[derive(Clone, Debug, PartialEq, Eq)]
pub struct FieldSlot {
    /// The field number.
    pub number: u32,
    /// The field name.
    pub name: String,
    /// What the field is.
    pub layout: FieldLayout,
}

/// A message's fields, as the canonical orderings read them.
#[derive(Clone, Debug, PartialEq, Eq)]
pub struct MessageLayout {
    /// The fields, in declaration order.
    pub fields: Vec<FieldSlot>,
}

/// Whether every position a layout names is a layout of the arena `ls`.
pub open spec fn slot_in_arena(slot: FieldSlot, n: nat) -> bool {
    match slot.layout {
        FieldLayout::Mapped { value: Some(v), .. } => v < n,
        FieldLayout::Message(c) => c < n,
        _ => true,
    }
}

/// Whether every position the arena's layouts name lies inside it.
pub open spec fn arena_closed(ls: Seq<MessageLayout>) -> bool {
    forall|m: int, i: int|
        0 <= m < ls.len() && 0 <= i < ls[m].fields@.len() ==> slot_in_arena(
            #[trigger] ls[m].fields@[i],
            ls.len(),
        )
}

/// The layout of the first field of `fields` numbered `n`.
pub open spec fn by_number(fields: Seq<FieldSlot>, n: u32) -> Option<FieldLayout>
    decreases fields.len(),
{
    if fields.len() == 0 {
        None
    } else {
        match by_number(fields.drop_last(), n) {
            Some(x) => Some(x),
            None => if fields.last().number == n {
                Some(fields.last().layout)
            } else {
                None
            },
        }
    }
}

/// The layout of the first field of `fields` named `name`.
pub open spec fn by_name(fields: Seq<FieldSlot>, name: Seq<char>) -> Option<FieldLayout>
    decreases fields.len(),
{
    if fields.len() == 0 {
        None
    } else {
        match by_name(fields.drop_last(), name) {
            Some(x) => Some(x),
            None => if fields.last().name@ == name {
                Some(fields.last().layout)
            } else {
                None
            },
        }
    }
}

/// The layout of the first field numbered `n`.
pub fn field_by_number(fields: &Vec<FieldSlot>, n: u32) -> (r: Option<&FieldLayout>)
    ensures
        match r {
            Some(l) => by_number(fields@, n) == Some(*l),
            None => by_number(fields@, n) is None,
        },
        r matches Some(l) ==> exists|i: int| 0 <= i < fields@.len() && fields@[i].layout == *l,
{
    let mut i: usize = 0;
    while i < fields.len()
        invariant
            i <= fields@.len(),
            by_number(fields@.take(i as int), n) is None,
        decreases fields@.len() - i,
    {
        proof {
            assert(fields@.take(i + 1).drop_last() =~= fields@.take(i as int));
        }
        if fields[i].number == n {
            proof {
                lemma_by_number_prefix(fields@, i + 1, n);
            }
            return Some(&fields[i].layout);
        }
        i = i + 1;
    }
    proof {
        assert(fields@.take(fields@.len() as int) =~= fields@);
    }
    None
}

/// The layout of the first field named `name`.
pub fn field_by_name<'a>(fields: &'a Vec<FieldSlot>, name: &str) -> (r: Option<&'a FieldLayout>)
    ensures
        match r {
            Some(l) => by_name(fields@, name@) == Some(*l),
            None => by_name(fields@, name@) is None,
        },
        r matches Some(l) ==> exists|i: int| 0 <= i < fields@.len() && fields@[i].layout == *l,
{
    let mut i: usize = 0;
    while i < fields.len()
        invariant
            i <= fields@.len(),
            by_name(fields@.take(i as int), name@) is None,
        decreases fields@.len() - i,
    {
        proof {
            assert(fields@.take(i + 1).drop_last() =~= fields@.take(i as int));
        }
        if crate::text::str_eq(fields[i].name.as_str(), name) {
            proof {
                lemma_by_name_prefix(fields@, i + 1, name@);
            }
            return Some(&fields[i].layout);
        }
        i = i + 1;
    }
    proof {
        assert(fields@.take(fields@.len() as int) =~= fields@);
    }
    None
}

/// A prefix that finds a field finds what the whole finds.
proof fn lemma_by_number_prefix(fields: Seq<FieldSlot>, k: int, n: u32)
    requires
        0 <= k <= fields.len(),
        by_number(fields.take(k), n) is Some,
    ensures
        by_number(fields, n) == by_number(fields.take(k), n),
    decreases fields.len() - k,
{
    if k < fields.len() {
        assert(fields.take(k + 1).drop_last() =~= fields.take(k));
        lemma_by_number_prefix(fields, k + 1, n);
    } else {
        assert(fields.take(k) =~= fields);
    }
}

/// A prefix that finds a field finds what the whole finds.
proof fn lemma_by_name_prefix(fields: Seq<FieldSlot>, k: int, name: Seq<char>)
    requires
        0 <= k <= fields.len(),
        by_name(fields.take(k), name) is Some,
    ensures
        by_name(fields, name) == by_name(fields.take(k), name),
    decreases fields.len() - k,
{
    if k < fields.len() {
        assert(fields.take(k + 1).drop_last() =~= fields.take(k));
        lemma_by_name_prefix(fields, k + 1, name);
    } else {
        assert(fields.take(k) =~= fields);
    }
}

} // verus!
