use keryx_core::codec::assemble::{
    plan_field, plan_map, plan_sequence, plan_singular, set_planned, Building, Discover, Planned, Setting,
};
use keryx_core::codec::scalar::Datum;
use keryx_core::codec::slots::{same_symbol, SlotIndex, Symbol};
use keryx_core::codec::walk::Index;
use keryx_core::descriptor::model::{FqName, MapKey, Package, Scalar};
use keryx_core::diagnostics::{Diagnostic, DiagnosticKind};
use keryx_core::policy::{
    EmitForm, FieldMapping, Mapping, ScalarTreatment, SortMapping, Totality, Unit, ValueMapping,
};

fn field(name: &str, number: i32, form: EmitForm, value: ValueMapping, arity: u32) -> FieldMapping {
    FieldMapping {
        proto: FqName::new(&format!("thermal.v1.Reading.{name}")),
        number,
        predicate: name.to_owned(),
        arity,
        form,
        value,
        presence: Totality::Partial,
        escaped: false,
        doc: None,
    }
}

/// `Reading` with `tags` (a map from string to int32) and `subs` (a map from int32 to `Reading`).
fn thermal() -> Mapping {
    let int32 = ValueMapping::Scalar { kind: Scalar::Int32, treatment: ScalarTreatment::Native };
    Mapping {
        units: vec![Unit {
            package: Package::parse("thermal.v1").expect("a package"),
            sorts: vec![SortMapping {
                proto: FqName::new("thermal.v1.Reading"),
                predicate: "reading".to_owned(),
                qualifier: Vec::new(),
                escaped: false,
                recursive: true,
                doc: None,
                fields: vec![
                    field(
                        "tags",
                        1,
                        EmitForm::Mapped { key: MapKey::String, key_treatment: ScalarTreatment::Text },
                        int32,
                        3,
                    ),
                    field(
                        "subs",
                        2,
                        EmitForm::Mapped { key: MapKey::Int32, key_treatment: ScalarTreatment::Native },
                        ValueMapping::Message("reading".to_owned()),
                        2,
                    ),
                ],
                subject: true,
            }],
            enums: Vec::new(),
        }],
    }
}

fn f(name: &str, arguments: Vec<Symbol>) -> Symbol {
    Symbol::Function { name: name.to_owned(), arguments, positive: true }
}

fn c(name: &str) -> Symbol {
    f(name, Vec::new())
}

fn n(v: i32) -> Symbol {
    Symbol::Number(v)
}

fn s(t: &str) -> Symbol {
    Symbol::Text(t.to_owned())
}

fn kinds(ds: &[Diagnostic]) -> Vec<DiagnosticKind> {
    ds.iter().map(|d| d.kind()).collect()
}

#[test]
fn a_value_map_keeps_each_key_once_and_refuses_a_repeat_or_a_mis_shaped_key() {
    let mapping = thermal();
    let index = Index::build(&mapping).expect("a closed mapping");
    let atoms = vec![
        f("emit_reading", vec![c("r0")]),
        f("reading", vec![c("r0")]),
        f("tags", vec![c("r0"), s("a"), n(1)]),
        f("tags", vec![c("r0"), s("b"), n(2)]),
        f("tags", vec![c("r0"), s("a"), n(3)]),
        f("tags", vec![c("r0"), n(5), n(4)]),
        f("tags", vec![c("r0"), s("c"), s("x")]),
    ];
    let slots = SlotIndex::build(&mapping, &index, &atoms);
    let tags = &mapping.units[0].sorts[0].fields[0];
    let mut planned: Vec<Planned> = Vec::new();
    let mut refusals: Vec<Diagnostic> = Vec::new();
    let mut children: Vec<Discover> = Vec::new();
    plan_map(&mapping, &index, &slots, tags, &c("r0"), 0, &mut planned, &mut refusals, &mut children);
    assert_eq!(
        kinds(&refusals),
        [DiagnosticKind::ShapeViolation, DiagnosticKind::TermTypeMismatch, DiagnosticKind::TermTypeMismatch]
    );
    assert_eq!(refusals[0].detail(), "a map has two entries for one key");
    assert!(children.is_empty());
    assert_eq!(planned.len(), 1);
    match &planned[0] {
        Planned::Entries { number, entries } => {
            assert_eq!(*number, 1);
            assert_eq!(
                entries,
                &vec![
                    (Datum::Str("a".to_owned()), Datum::I32(1)),
                    (Datum::Str("b".to_owned()), Datum::I32(2)),
                ]
            );
        },
        _ => panic!("a value map plans its entries"),
    }
}

#[test]
fn a_message_map_hands_each_occupant_on_one_level_deeper() {
    let mapping = thermal();
    let index = Index::build(&mapping).expect("a closed mapping");
    let first = f("subs", vec![c("r0"), n(1)]);
    let second = f("subs", vec![c("r0"), n(2)]);
    let atoms = vec![
        f("emit_reading", vec![c("r0")]),
        f("reading", vec![c("r0")]),
        f("reading", vec![f("subs", vec![c("r0"), n(1)])]),
        f("reading", vec![f("subs", vec![c("r0"), n(2)])]),
    ];
    let slots = SlotIndex::build(&mapping, &index, &atoms);
    let subs = &mapping.units[0].sorts[0].fields[1];
    let mut planned: Vec<Planned> = Vec::new();
    let mut refusals: Vec<Diagnostic> = Vec::new();
    let mut children: Vec<Discover> = Vec::new();
    plan_map(&mapping, &index, &slots, subs, &c("r0"), 4, &mut planned, &mut refusals, &mut children);
    assert!(refusals.is_empty());
    assert_eq!(children.len(), 2);
    assert!(same_symbol(&children[0].occupant, &first));
    assert!(same_symbol(&children[1].occupant, &second));
    assert_eq!(children[0].depth, 5);
    assert_eq!(Some(children[0].sort), index.sort_of("reading"));
    match &planned[0] {
        Planned::MessageMap { number, entries } => {
            assert_eq!(*number, 2);
            assert_eq!(entries.len(), 2);
            assert_eq!(entries[0].0, Datum::I32(1));
            assert!(same_symbol(&entries[1].1, &second));
        },
        _ => panic!("a message map plans its occupants"),
    }
}

fn leaf(value: i32) -> Building {
    Building { fields: vec![(1, Setting::Value(Datum::I32(value)))] }
}

fn leaf_value(b: &Building) -> Option<i32> {
    match b.fields.first() {
        Some((1, Setting::Value(Datum::I32(v)))) => Some(*v),
        _ => None,
    }
}

#[test]
fn a_message_field_draws_its_child_from_the_built_messages() {
    let mut built = vec![(c("a"), leaf(1)), (c("b"), leaf(2)), (c("a"), leaf(3))];
    let mut building = Building { fields: Vec::new() };
    set_planned(&mut building, Planned::Message { number: 4, child: c("a") }, &mut built);
    assert_eq!(building.fields.len(), 1);
    assert_eq!(building.fields[0].0, 4);
    match &building.fields[0].1 {
        Setting::Message(b) => assert_eq!(leaf_value(b), Some(1)),
        _ => panic!("a message field is set to its child"),
    }
    // The first built under `a` is taken out; the second stays for another parent.
    assert_eq!(built.len(), 2);
    assert_eq!(leaf_value(&built[1].1), Some(3));
}

#[test]
fn a_message_map_draws_each_child_in_turn_and_keeps_its_keys() {
    let mut built = vec![(c("x"), leaf(7)), (c("y"), leaf(8))];
    let mut building = Building { fields: Vec::new() };
    set_planned(
        &mut building,
        Planned::MessageMap {
            number: 2,
            entries: vec![(Datum::Str("k2".to_owned()), c("y")), (Datum::Str("k1".to_owned()), c("x"))],
        },
        &mut built,
    );
    assert!(built.is_empty());
    match &building.fields[0].1 {
        Setting::MessageMap(entries) => {
            assert_eq!(entries.len(), 2);
            assert_eq!(entries[0].0, Datum::Str("k2".to_owned()));
            assert_eq!(leaf_value(&entries[0].1), Some(8));
            assert_eq!(leaf_value(&entries[1].1), Some(7));
        },
        _ => panic!("a message map is set to its children"),
    }
    let mut list = Building { fields: Vec::new() };
    let mut more = vec![(c("p"), leaf(5)), (c("q"), leaf(6))];
    set_planned(&mut list, Planned::Messages { number: 3, children: vec![c("q"), c("p")] }, &mut more);
    match &list.fields[0].1 {
        Setting::Messages(bs) => {
            let values: Vec<Option<i32>> = bs.iter().map(leaf_value).collect();
            assert_eq!(values, [Some(6), Some(5)]);
        },
        _ => panic!("a message sequence is set to its children"),
    }
    set_planned(&mut list, Planned::Value { number: 1, value: Datum::Bool(true) }, &mut more);
    assert_eq!(list.fields.len(), 2);
}

/// `Reading` with `id` (a total int32), `note` (a partial string), `vals` (a sequence of int32),
/// and `parts` (a sequence of `Reading`).
fn batch() -> Mapping {
    let int32 = ValueMapping::Scalar { kind: Scalar::Int32, treatment: ScalarTreatment::Native };
    let text = ValueMapping::Scalar { kind: Scalar::String, treatment: ScalarTreatment::Text };
    let mut id = field("id", 1, EmitForm::Function, int32.clone(), 2);
    id.presence = Totality::Total;
    Mapping {
        units: vec![Unit {
            package: Package::parse("thermal.v1").expect("a package"),
            sorts: vec![SortMapping {
                proto: FqName::new("thermal.v1.Reading"),
                predicate: "reading".to_owned(),
                qualifier: Vec::new(),
                escaped: false,
                recursive: true,
                doc: None,
                fields: vec![
                    id,
                    field("note", 2, EmitForm::Function, text, 2),
                    field("vals", 3, EmitForm::Sequence, int32, 3),
                    field("parts", 4, EmitForm::Sequence, ValueMapping::Message("reading".to_owned()), 2),
                ],
                subject: true,
            }],
            enums: Vec::new(),
        }],
    }
}

struct Plan {
    planned: Vec<Planned>,
    refusals: Vec<Diagnostic>,
    children: Vec<Discover>,
}

fn plan(atoms: Vec<Symbol>, number: usize) -> Plan {
    let mapping = batch();
    let index = Index::build(&mapping).expect("a closed mapping");
    let slots = SlotIndex::build(&mapping, &index, &atoms);
    let field = &mapping.units[0].sorts[0].fields[number];
    let mut out = Plan { planned: Vec::new(), refusals: Vec::new(), children: Vec::new() };
    plan_field(&mapping, &index, &slots, field, &c("r0"), 0, &mut out.planned, &mut out.refusals, &mut out.children);
    out
}

#[test]
fn a_singular_field_takes_its_one_value_and_refuses_none_for_a_total_field_or_two() {
    let one = plan(vec![f("id", vec![c("r0"), n(7)])], 0);
    assert!(one.refusals.is_empty());
    match &one.planned[..] {
        [Planned::Value { number: 1, value: Datum::I32(7) }] => {},
        _ => panic!("the one value is planned"),
    }
    let none = plan(Vec::new(), 0);
    assert!(none.planned.is_empty());
    assert_eq!(none.refusals[0].detail(), "a total or required field is missing its value");
    let unset = plan(Vec::new(), 1);
    assert!(unset.planned.is_empty() && unset.refusals.is_empty());
    let two = plan(vec![f("id", vec![c("r0"), n(7)]), f("id", vec![c("r0"), n(8)])], 0);
    assert!(two.planned.is_empty());
    assert_eq!(two.refusals[0].detail(), "a singular field has two values");
    let mis = plan(vec![f("note", vec![c("r0"), n(8)])], 1);
    assert_eq!(kinds(&mis.refusals), [DiagnosticKind::TermTypeMismatch]);
}

#[test]
fn a_sequence_is_planned_in_index_order_when_dense_from_zero() {
    let dense = plan(
        vec![
            f("vals", vec![c("r0"), n(2), n(30)]),
            f("vals", vec![c("r0"), n(0), n(10)]),
            f("vals", vec![c("r0"), n(1), n(20)]),
        ],
        2,
    );
    assert!(dense.refusals.is_empty());
    match &dense.planned[..] {
        [Planned::List { number: 3, values }] => {
            assert_eq!(values, &vec![Datum::I32(10), Datum::I32(20), Datum::I32(30)]);
        },
        _ => panic!("a dense sequence is planned"),
    }
    let gap = plan(vec![f("vals", vec![c("r0"), n(0), n(1)]), f("vals", vec![c("r0"), n(2), n(3)])], 2);
    assert!(gap.planned.is_empty());
    assert_eq!(gap.refusals[0].detail(), "a sequence is not dense from index 0");
    let twice = plan(vec![f("vals", vec![c("r0"), n(0), n(1)]), f("vals", vec![c("r0"), n(0), n(3)])], 2);
    assert_eq!(twice.refusals[0].detail(), "a sequence is not dense from index 0");
    let unindexed = plan(vec![f("vals", vec![c("r0"), s("x"), n(1)])], 2);
    assert_eq!(unindexed.refusals[0].detail(), "a sequence element has no integer index");
}

#[test]
fn a_message_sequence_hands_its_occupants_on_in_index_order() {
    let first = f("parts", vec![c("r0"), n(0)]);
    let second = f("parts", vec![c("r0"), n(1)]);
    let out = plan(
        vec![
            f("reading", vec![f("parts", vec![c("r0"), n(1)])]),
            f("reading", vec![f("parts", vec![c("r0"), n(0)])]),
        ],
        3,
    );
    assert!(out.refusals.is_empty());
    assert_eq!(out.children.len(), 2);
    assert!(same_symbol(&out.children[0].occupant, &first));
    assert!(same_symbol(&out.children[1].occupant, &second));
    assert_eq!(out.children[1].depth, 1);
    match &out.planned[..] {
        [Planned::Messages { number: 4, children }] => assert!(same_symbol(&children[0], &first)),
        _ => panic!("a message sequence is planned"),
    }
}

#[test]
fn the_form_planners_agree_with_the_dispatch() {
    let mapping = batch();
    let index = Index::build(&mapping).expect("a closed mapping");
    let slots = SlotIndex::build(&mapping, &index, &[f("vals", vec![c("r0"), n(0), n(5)]), f("id", vec![c("r0"), n(1)])]);
    let fields = &mapping.units[0].sorts[0].fields;
    let mut planned: Vec<Planned> = Vec::new();
    let mut refusals: Vec<Diagnostic> = Vec::new();
    let mut children: Vec<Discover> = Vec::new();
    plan_sequence(&mapping, &index, &slots, &fields[2], &c("r0"), 0, &mut planned, &mut refusals, &mut children);
    plan_singular(&mapping, &index, &slots, &fields[0], &c("r0"), 0, &mut planned, &mut refusals, &mut children);
    assert_eq!(planned.len(), 2);
    assert!(refusals.is_empty());
}
