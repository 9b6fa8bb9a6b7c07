//! Custom-option lowering: the keryx annotations of an element's applied options. An options
//! message's extensions are read as plain values — each extension's full name and its value (one
//! item, or a list for a repeated option); the ones named `keryx.*` become annotations keyed by
//! the name with `keryx.` stripped, a list expanding to one annotation per item, and the result
//! is ordered by key, repeated items keeping their order. Lowering is faithful, not interpreted:
//! an integer wider than `i64`, or a value of a kind no keryx option takes, is a
//! `MalformedOption` at the element.
use vstd::prelude::*;

use crate::descriptor::model::{Annotation, AnnotationValue};
use crate::descriptor::order::{in_order, sort_stably, Ordered};
use crate::diagnostics::{fault_view, fault_views, Diagnostic, DiagnosticKind, Diagnostics, Locus};
use crate::text::{chars_of, lemma_seq_lt_irreflexive, lemma_seq_lt_total, lemma_seq_lt_transitive, owned, push_signed_decimal, seq_lt, signed_decimal, str_lt, string_of};

verus! {

broadcast use vstd::string::group_string_axioms;

/// One applied option value, as the descriptor engine reads it.
#[derive(Clone, Debug, PartialEq, Eq)]
pub enum OptionItem {
    /// A `bool`.
    Bool(bool),
    /// An `int32`-family integer.
    I32(i32),
    /// An `int64`-family integer.
    I64(i64),
    /// A `uint32`-family integer.
    U32(u32),
    /// A `uint64`-family integer.
    U64(u64),
    /// A `string`.
    Text(String),
    /// An enum number, with the name its extension's enum gives it, when it gives one.
    EnumNumber {
        /// The number.
        number: i32,
        /// The value's name, `None` when the extension is no enum or has no such value.
        name: Option<String>,
    },
    /// A value of a kind no keryx option takes, with its debug rendering.
    Unsupported(String),
}

/// An applied extension's value: one item, or the items of a repeated option.
#[derive(Clone, Debug, PartialEq, Eq)]
pub enum OptionValue {
    /// A singular option's value.
    Single(OptionItem),
    /// A repeated option's values, in order.
    List(Vec<OptionItem>),
}

/// An applied extension: its full name and value.
#[derive(Clone, Debug, PartialEq, Eq)]
pub struct OptionEntry {
    /// The extension's fully-qualified name.
    pub name: String,
    /// Its value.
    pub value: OptionValue,
}

/// An annotation value, as mathematics.
pub enum AnnotationView {
    /// A `bool`.
    Bool(bool),
    /// An integer.
    Int(i64),
    /// A text.
    Text(Seq<char>),
    /// An enum value's name.
    Enum(Seq<char>),
}

/// An annotation value's view.
pub open spec fn annotation_value_view(v: AnnotationValue) -> AnnotationView {
    match v {
        AnnotationValue::Bool(b) => AnnotationView::Bool(b),
        AnnotationValue::Int(n) => AnnotationView::Int(n),
        AnnotationValue::Text(t) => AnnotationView::Text(t@),
        AnnotationValue::Enum(e) => AnnotationView::Enum(e@),
    }
}

/// The keryx namespace's prefix, `keryx.`.
pub open spec fn keryx_prefix() -> Seq<char> {
    seq!['k', 'e', 'r', 'y', 'x', '.']
}

/// The annotation key of an extension name: the name with `keryx.` stripped, when it is a keryx
/// extension.
pub open spec fn annotation_key(name: Seq<char>) -> Option<Seq<char>> {
    if keryx_prefix().len() <= name.len() && name.take(keryx_prefix().len() as int) == keryx_prefix() {
        Some(name.skip(keryx_prefix().len() as int))
    } else {
        None
    }
}

/// The detail of an integer wider than `i64`.
pub open spec fn too_wide_detail() -> Seq<char> {
    "option integer exceeds i64"@
}

/// An item's lowered value, or the detail of why it cannot be lowered.
pub open spec fn lowered(item: OptionItem) -> Result<AnnotationView, Seq<char>> {
    match item {
        OptionItem::Bool(b) => Ok(AnnotationView::Bool(b)),
        OptionItem::I32(n) => Ok(AnnotationView::Int(n as i64)),
        OptionItem::I64(n) => Ok(AnnotationView::Int(n)),
        OptionItem::U32(n) => Ok(AnnotationView::Int(n as i64)),
        OptionItem::U64(n) => if n <= i64::MAX {
            Ok(AnnotationView::Int(n as i64))
        } else {
            Err(too_wide_detail())
        },
        OptionItem::Text(t) => Ok(AnnotationView::Text(t@)),
        OptionItem::EnumNumber { number, name } => Ok(AnnotationView::Enum(match name {
            Some(s) => s@,
            None => signed_decimal(number as int),
        })),
        OptionItem::Unsupported(d) => Err("unsupported option value "@ + d@),
    }
}

/// An extension's items, each with the key.
pub open spec fn key_items(k: Seq<char>, value: OptionValue) -> Seq<(Seq<char>, OptionItem)> {
    match value {
        OptionValue::Single(item) => seq![(k, item)],
        OptionValue::List(items) => items@.map_values(|item: OptionItem| (k, item)),
    }
}

/// The keryx items of the extensions, each with its key, expanded in order.
pub open spec fn keyed_items(entries: Seq<OptionEntry>) -> Seq<(Seq<char>, OptionItem)>
    decreases entries.len(),
{
    if entries.len() == 0 {
        Seq::empty()
    } else {
        let e = entries.last();
        keyed_items(entries.drop_last()) + match annotation_key(e.name@) {
            None => Seq::empty(),
            Some(k) => key_items(k, e.value),
        }
    }
}

/// The detail of the first item that cannot be lowered, if any.
pub open spec fn first_refusal(items: Seq<(Seq<char>, OptionItem)>) -> Option<Seq<char>>
    decreases items.len(),
{
    if items.len() == 0 {
        None
    } else {
        match first_refusal(items.drop_last()) {
            Some(d) => Some(d),
            None => match lowered(items.last().1) {
                Err(d) => Some(d),
                Ok(_) => None,
            },
        }
    }
}

/// Whether annotations are the items lowered, one for one.
pub open spec fn lowers_to(anns: Seq<Annotation>, items: Seq<(Seq<char>, OptionItem)>) -> bool {
    &&& anns.len() == items.len()
    &&& forall|k: int|
        0 <= k < anns.len() ==> (#[trigger] anns[k]).key@ == items[k].0 && lowered(items[k].1)
            == Ok::<AnnotationView, Seq<char>>(annotation_value_view(anns[k].value))
}

impl Ordered for Annotation {
    open spec fn key_before(a: Annotation, b: Annotation) -> bool {
        seq_lt(a.key@, b.key@)
    }

    fn before(&self, other: &Annotation) -> (r: bool) {
        str_lt(self.key.as_str(), other.key.as_str())
    }

    proof fn lemma_key_asymmetric(a: Annotation, b: Annotation) {
        lemma_seq_lt_total(a.key@, b.key@);
    }

    proof fn lemma_key_at_or_after(a: Annotation, b: Annotation, c: Annotation) {
        lemma_seq_lt_total(a.key@, b.key@);
        lemma_seq_lt_total(b.key@, c.key@);
        lemma_seq_lt_total(a.key@, c.key@);
        if seq_lt(a.key@, c.key@) {
            lemma_seq_lt_irreflexive(a.key@);
            if seq_lt(b.key@, a.key@) {
                lemma_seq_lt_transitive(b.key@, a.key@, c.key@);
            }
            if seq_lt(c.key@, b.key@) {
                lemma_seq_lt_transitive(a.key@, c.key@, b.key@);
            }
        }
    }
}

/// A `MalformedOption` at `locus`.
fn malformed_option(locus: &str, detail: String) -> (r: Diagnostics)
    ensures
        fault_views(r@) == seq![(DiagnosticKind::MalformedOption, Some(locus@), detail@)],
{
    let r = Diagnostics::one(Diagnostic::composed(DiagnosticKind::MalformedOption, Locus::at(locus), detail));
    proof {
        assert(fault_views(r@) =~= seq![fault_view(r@[0])]);
    }
    r
}

/// Lower one option value to an annotation value: faithful, not interpreted. An enum number
/// takes its value's name, or its decimal spelling when the extension gives none.
pub fn lower(item: &OptionItem, locus: &str) -> (r: Result<AnnotationValue, Diagnostics>)
    ensures
        match (r, lowered(*item)) {
            (Ok(v), Ok(w)) => annotation_value_view(v) == w,
            (Err(d), Err(detail)) => fault_views(d@) == seq![
                (DiagnosticKind::MalformedOption, Some(locus@), detail),
            ],
            _ => false,
        },
{
    match item {
        OptionItem::Bool(b) => Ok(AnnotationValue::Bool(*b)),
        OptionItem::I32(n) => Ok(AnnotationValue::Int(*n as i64)),
        OptionItem::I64(n) => Ok(AnnotationValue::Int(*n)),
        OptionItem::U32(n) => Ok(AnnotationValue::Int(*n as i64)),
        OptionItem::U64(n) => {
            if *n <= 0x7FFF_FFFF_FFFF_FFFF {
                Ok(AnnotationValue::Int(*n as i64))
            } else {
                proof {
                    reveal_strlit("option integer exceeds i64");
                }
                Err(malformed_option(locus, owned("option integer exceeds i64")))
            }
        },
        OptionItem::Text(t) => Ok(AnnotationValue::Text(owned(t.as_str()))),
        OptionItem::EnumNumber { number, name } => match name {
            Some(s) => Ok(AnnotationValue::Enum(owned(s.as_str()))),
            None => {
                let mut text = String::new();
                push_signed_decimal(&mut text, *number as i64);
                proof {
                    assert(text@ =~= signed_decimal(*number as int));
                }
                Ok(AnnotationValue::Enum(text))
            },
        },
        OptionItem::Unsupported(rendered) => {
            let mut detail = owned("unsupported option value ");
            detail.append(rendered.as_str());
            proof {
                reveal_strlit("unsupported option value ");
            }
            Err(malformed_option(locus, detail))
        },
    }
}

/// The annotation key of an extension name, `None` for an extension outside keryx's namespace.
fn key_of(name: &str) -> (r: Option<String>)
    ensures
        match (r, annotation_key(name@)) {
            (Some(k), Some(j)) => k@ == j,
            (None, None) => true,
            _ => false,
        },
{
    let v = chars_of(name);
    let prefix = chars_of("keryx.");
    proof {
        reveal_strlit("keryx.");
        assert(prefix@ == keryx_prefix());
    }
    if v.len() < prefix.len() {
        return None;
    }
    let mut i: usize = 0;
    while i < prefix.len()
        invariant
            i <= prefix@.len(),
            prefix@ == keryx_prefix(),
            prefix@.len() <= v@.len(),
            v@ == name@,
            forall|j: int| 0 <= j < i ==> v@[j] == prefix@[j],
        decreases prefix@.len() - i,
    {
        if v[i] != prefix[i] {
            proof {
                assert(v@.take(keryx_prefix().len() as int)[i as int] != keryx_prefix()[i as int]);
            }
            return None;
        }
        i = i + 1;
    }
    proof {
        assert(v@.take(keryx_prefix().len() as int) =~= keryx_prefix());
    }
    Some(string_of(v.as_slice(), prefix.len(), v.len()))
}

/// The keryx annotations of an options message's applied extensions, read in order: each
/// `keryx.*` extension becomes one annotation per value (a repeated option one per element),
/// keyed by its name with `keryx.` stripped; others are ignored. The annotations come out ordered
/// by key, repeated values keeping their order. The first value that cannot be lowered refuses
/// the whole with a `MalformedOption` at `locus`.
pub fn read(entries: &Vec<OptionEntry>, locus: &str) -> (r: Result<Vec<Annotation>, Diagnostics>)
    ensures
        r is Ok <==> first_refusal(keyed_items(entries@)) is None,
        r matches Ok(anns) ==> exists|raw: Seq<Annotation>|
            lowers_to(raw, keyed_items(entries@)) && #[trigger] in_order(raw) == anns@,
        r matches Err(d) ==> fault_views(d@) == seq![
            (DiagnosticKind::MalformedOption, Some(locus@), first_refusal(keyed_items(entries@))->Some_0),
        ],
{
    let mut out: Vec<Annotation> = Vec::new();
    let mut e: usize = 0;
    while e < entries.len()
        invariant
            e <= entries@.len(),
            first_refusal(keyed_items(entries@.take(e as int))) is None,
            lowers_to(out@, keyed_items(entries@.take(e as int))),
        decreases entries@.len() - e,
    {
        let entry = &entries[e];
        let ghost done = keyed_items(entries@.take(e as int));
        proof {
            assert(entries@.take(e + 1).drop_last() =~= entries@.take(e as int));
            assert(entries@.take(e + 1).last() == entries@[e as int]);
        }
        match key_of(entry.name.as_str()) {
            None => {
                proof {
                    assert(keyed_items(entries@.take(e + 1)) =~= done);
                }
            },
            Some(key) => {
                let ghost k = key@;
                let ghost more = key_items(k, entry.value);
                proof {
                    assert(keyed_items(entries@.take(e + 1)) == done + more);
                }
                let ghost before = out@;
                match &entry.value {
                    OptionValue::Single(item) => {
                        proof {
                            assert(more.drop_last() =~= Seq::<(Seq<char>, OptionItem)>::empty());
                            assert(more.last() == (k, *item));
                            assert(first_refusal(Seq::<(Seq<char>, OptionItem)>::empty()) is None);
                            assert(first_refusal(more) == match lowered(*item) {
                                Err(d) => Some(d),
                                Ok(_) => None,
                            });
                            lemma_first_refusal_append(done, more);
                        }
                        match lower(item, locus) {
                            Ok(value) => {
                                out.push(Annotation { key, value });
                                proof {
                                    lemma_first_refusal_append(done, more);
                                    assert forall|t: int| 0 <= t < out@.len() implies (#[trigger] out@[t]).key@
                                        == (done + more)[t].0 && lowered((done + more)[t].1) == Ok::<
                                        AnnotationView,
                                        Seq<char>,
                                    >(annotation_value_view(out@[t].value)) by {
                                        if t < before.len() {
                                            assert(out@[t] == before[t]);
                                        }
                                    }
                                }
                            },
                            Err(d) => {
                                proof {
                                    lemma_first_refusal_append(done, more);
                                    lemma_first_refusal_prefix(entries@, e as int + 1);
                                }
                                return Err(d);
                            },
                        }
                    },
                    OptionValue::List(items) => {
                        let mut t: usize = 0;
                        while t < items.len()
                            invariant
                                t <= items@.len(),
                                more == key_items(k, entry.value),
                                entry.value == OptionValue::List(*items),
                                e < entries@.len(),
                                *entry == entries@[e as int],
                                done == keyed_items(entries@.take(e as int)),
                                keyed_items(entries@.take(e + 1)) == done + more,
                                key@ == k,
                                first_refusal(done + more.take(t as int)) is None,
                                lowers_to(out@, done + more.take(t as int)),
                            decreases items@.len() - t,
                        {
                            let ghost prior = out@;
                            proof {
                                assert((done + more.take(t + 1)).drop_last() =~= done + more.take(t as int));
                                assert((done + more.take(t + 1)).last() == (k, items@[t as int]));
                            }
                            match lower(&items[t], locus) {
                                Ok(value) => {
                                    out.push(Annotation { key: owned(key.as_str()), value });
                                    proof {
                                        assert forall|u: int| 0 <= u < out@.len() implies (#[trigger] out@[u]).key@
                                            == (done + more.take(t + 1))[u].0 && lowered((done + more.take(t + 1))[u].1)
                                            == Ok::<AnnotationView, Seq<char>>(annotation_value_view(out@[u].value)) by {
                                            if u < prior.len() {
                                                assert(out@[u] == prior[u]);
                                                assert((done + more.take(t + 1))[u] == (done + more.take(t as int))[u]);
                                            }
                                        }
                                    }
                                },
                                Err(d) => {
                                    proof {
                                        lemma_first_refusal_append(done + more.take(t + 1), more.skip(t + 1));
                                        assert(done + more.take(t + 1) + more.skip(t + 1) =~= done + more);
                                        lemma_first_refusal_prefix(entries@, e as int + 1);
                                    }
                                    return Err(d);
                                },
                            }
                            t = t + 1;
                        }
                        proof {
                            assert(more.take(items@.len() as int) =~= more);
                            assert(first_refusal(keyed_items(entries@.take(e + 1))) is None);
                        }
                    },
                }
            },
        }
        e = e + 1;
    }
    proof {
        assert(entries@.take(entries@.len() as int) =~= entries@);
    }
    let ghost raw = out@;
    let sorted = sort_stably(out);
    Ok(sorted)
}

/// The first refusal of a run followed by more is the run's, else the more's.
proof fn lemma_first_refusal_append(a: Seq<(Seq<char>, OptionItem)>, b: Seq<(Seq<char>, OptionItem)>)
    ensures
        first_refusal(a + b) == match first_refusal(a) {
            Some(d) => Some(d),
            None => first_refusal(b),
        },
    decreases b.len(),
{
    if b.len() == 0 {
        assert(a + b =~= a);
    } else {
        lemma_first_refusal_append(a, b.drop_last());
        assert((a + b).drop_last() =~= a + b.drop_last());
        assert((a + b).last() == b.last());
    }
}

/// A refusal among the first extensions' items is the first refusal of all of them.
proof fn lemma_first_refusal_prefix(entries: Seq<OptionEntry>, e: int)
    requires
        0 <= e <= entries.len(),
        first_refusal(keyed_items(entries.take(e))) is Some,
    ensures
        first_refusal(keyed_items(entries)) == first_refusal(keyed_items(entries.take(e))),
    decreases entries.len() - e,
{
    if e < entries.len() {
        let next = entries.take(e + 1);
        assert(next.drop_last() =~= entries.take(e));
        let tail = keyed_items(next).skip(keyed_items(entries.take(e)).len() as int);
        assert(keyed_items(next) =~= keyed_items(entries.take(e)) + tail);
        lemma_first_refusal_append(keyed_items(entries.take(e)), tail);
        lemma_first_refusal_prefix(entries, e + 1);
    } else {
        assert(entries.take(e) =~= entries);
    }
}

} // verus!
