use keryx_core::codec::scalar::{Datum, Term};
use keryx_core::codec::shred::{field, slot, Element, Fact, FieldValue, Work};
use keryx_core::codec::walk::Index;
use keryx_core::descriptor::model::{FqName, MapKey, Openness, Package, Scalar};
use keryx_core::diagnostics::{Diagnostic, DiagnosticKind};
use keryx_core::policy::{
    EmitForm, EnumMapping, EnumValueMapping, FieldMapping, Mapping, ScalarTreatment, SortMapping,
    Totality, Unit, ValueMapping,
};

fn sort(path: &str, predicate: &str, fields: Vec<FieldMapping>) -> SortMapping {
    SortMapping {
        proto: FqName::new(path),
        predicate: predicate.to_owned(),
        qualifier: Vec::new(),
        escaped: false,
        recursive: false,
        doc: None,
        fields,
        subject: true,
    }
}

fn mapped(path: &str, predicate: &str, form: EmitForm, value: ValueMapping) -> FieldMapping {
    FieldMapping {
        proto: FqName::new(path),
        number: 1,
        predicate: predicate.to_owned(),
        arity: 2,
        form,
        value,
        presence: Totality::Partial,
        escaped: false,
        doc: None,
    }
}

fn int32() -> ValueMapping {
    ValueMapping::Scalar { kind: Scalar::Int32, treatment: ScalarTreatment::Native }
}

fn state() -> EnumMapping {
    let value = |name: &str, number: i32, constant: &str| EnumValueMapping {
        proto_name: name.to_owned(),
        number,
        constant: constant.to_owned(),
        escaped: false,
        doc: None,
    };
    EnumMapping {
        proto: FqName::new("shop.v1.State"),
        predicate: "state".to_owned(),
        qualifier: Vec::new(),
        escaped: false,
        openness: Openness::Open,
        preserve: false,
        doc: None,
        values: vec![value("OPEN", 0, "open"), value("SHUT", 1, "shut"), value("CLOSED", 1, "closed")],
        subject: true,
    }
}

fn shop() -> Mapping {
    Mapping {
        units: vec![Unit {
            package: Package::parse("shop.v1").expect("a package"),
            sorts: vec![sort("shop.v1.Order", "order", Vec::new()), sort("shop.v1.Item", "item", Vec::new())],
            enums: vec![state()],
        }],
    }
}

fn atom(name: &str) -> Term {
    Term::Apply(name.to_owned(), Vec::new())
}

fn text(s: &str) -> Term {
    Term::Text(s.to_owned())
}

struct Out {
    facts: Vec<Fact>,
    refusals: Vec<Diagnostic>,
    children: Vec<Work<&'static str>>,
}

fn run(f: &FieldMapping, value: FieldValue<&'static str>) -> Out {
    let mapping = shop();
    let index = Index::build(&mapping).expect("a closed mapping");
    let mut out = Out { facts: Vec::new(), refusals: Vec::new(), children: Vec::new() };
    field(&mapping, &index, f, &atom("o1"), value, 0, &mut out.facts, &mut out.refusals, &mut out.children);
    out
}

fn facts(out: &Out) -> Vec<(String, Vec<Term>)> {
    out.facts
        .iter()
        .map(|f| (f.predicate.clone(), f.arguments.iter().map(copy).collect()))
        .collect()
}

fn copy(t: &Term) -> Term {
    match t {
        Term::Int(n) => Term::Int(*n),
        Term::Text(s) => Term::Text(s.clone()),
        Term::Apply(c, args) => Term::Apply(c.clone(), args.iter().map(copy).collect()),
    }
}

#[test]
fn a_singular_scalar_is_one_binary_fact_on_its_parent() {
    let f = mapped("shop.v1.Order.qty", "qty", EmitForm::Function, int32());
    let out = run(&f, FieldValue::Scalar(Datum::I32(7)));
    assert_eq!(facts(&out), vec![("qty".to_owned(), vec![atom("o1"), Term::Int(7)])]);
    assert!(out.refusals.is_empty() && out.children.is_empty());
}

#[test]
fn an_enum_number_lowers_to_the_first_declared_constant_of_that_number() {
    let f = mapped(
        "shop.v1.Order.state",
        "order_state",
        EmitForm::Function,
        ValueMapping::Enum { referent: "state".to_owned(), preserve: false },
    );
    let out = run(&f, FieldValue::Scalar(Datum::Enum(1)));
    assert_eq!(facts(&out), vec![("order_state".to_owned(), vec![atom("o1"), atom("shut")])]);
}

#[test]
fn an_undeclared_enum_number_is_refused_at_the_field() {
    let f = mapped(
        "shop.v1.Order.state",
        "order_state",
        EmitForm::Function,
        ValueMapping::Enum { referent: "state".to_owned(), preserve: false },
    );
    let out = run(&f, FieldValue::Scalar(Datum::Enum(-4)));
    assert!(out.facts.is_empty());
    assert_eq!(out.refusals.len(), 1);
    let d = &out.refusals[0];
    assert_eq!(d.kind(), DiagnosticKind::UnknownEnumValue);
    assert_eq!(d.locus().path(), Some("shop.v1.Order.state"));
    assert_eq!(
        d.detail(),
        "the value -4 matches no declared value of the enum `shop.v1.State`; an unknown number of an open enum is a translation error by default — annotate the field `(keryx.unknown) = PRESERVE` to carry it as `unknown(-4)`"
    );
}

#[test]
fn a_message_value_becomes_a_child_one_level_deeper_under_its_occupant_term() {
    let f = mapped("shop.v1.Order.item", "order_item", EmitForm::OneofArm { oneof: "pick".to_owned() }, ValueMapping::Message("item".to_owned()));
    let out = run(&f, FieldValue::Message("the item"));
    assert!(out.facts.is_empty() && out.refusals.is_empty());
    assert_eq!(out.children.len(), 1);
    let child = &out.children[0];
    assert_eq!(copy(&child.parent), Term::Apply("order_item".to_owned(), vec![atom("o1")]));
    assert_eq!(child.message, "the item");
    assert_eq!(child.depth, 1);
    let mapping = shop();
    let index = Index::build(&mapping).expect("a closed mapping");
    assert_eq!(Some(child.sort), index.sort_of("item"));
}

#[test]
fn a_sequence_places_each_element_at_its_index() {
    let mut f = mapped("shop.v1.Order.lines", "line", EmitForm::Sequence, int32());
    f.arity = 3;
    let out = run(
        &f,
        FieldValue::Elements(vec![Element::Scalar(Datum::I32(5)), Element::Scalar(Datum::I32(-5))]),
    );
    assert_eq!(
        facts(&out),
        vec![
            ("line".to_owned(), vec![atom("o1"), Term::Int(0), Term::Int(5)]),
            ("line".to_owned(), vec![atom("o1"), Term::Int(1), Term::Int(-5)]),
        ]
    );
    // A sequence of messages: each element a child under its indexed occupant.
    let mut m = mapped("shop.v1.Order.items", "items", EmitForm::Sequence, ValueMapping::Message("item".to_owned()));
    m.arity = 2;
    let out = run(&m, FieldValue::Elements(vec![Element::Message("a"), Element::Message("b")]));
    let parents: Vec<Term> = out.children.iter().map(|w| copy(&w.parent)).collect();
    assert_eq!(
        parents,
        vec![
            Term::Apply("items".to_owned(), vec![atom("o1"), Term::Int(0)]),
            Term::Apply("items".to_owned(), vec![atom("o1"), Term::Int(1)]),
        ]
    );
}

#[test]
fn a_map_places_each_entry_under_its_lowered_key_and_refuses_a_bad_key_alone() {
    let mut f = mapped(
        "shop.v1.Order.notes",
        "note",
        EmitForm::Mapped { key: MapKey::String, key_treatment: ScalarTreatment::Text },
        int32(),
    );
    f.arity = 3;
    let out = run(
        &f,
        FieldValue::Entries(vec![
            (Datum::Str("a".to_owned()), Element::Scalar(Datum::I32(1))),
            (Datum::Str("b\0".to_owned()), Element::Scalar(Datum::I32(2))),
            (Datum::Str("c".to_owned()), Element::Scalar(Datum::I32(3))),
        ]),
    );
    assert_eq!(
        facts(&out),
        vec![
            ("note".to_owned(), vec![atom("o1"), text("a"), Term::Int(1)]),
            ("note".to_owned(), vec![atom("o1"), text("c"), Term::Int(3)]),
        ]
    );
    assert_eq!(out.refusals.len(), 1);
    assert_eq!(out.refusals[0].kind(), DiagnosticKind::InteriorNul);
    assert_eq!(out.refusals[0].locus().path(), Some("shop.v1.Order.notes"));
}

#[test]
fn a_refused_scalar_is_collected_and_no_fact_is_emitted() {
    let f = mapped(
        "shop.v1.Order.big",
        "big",
        EmitForm::Function,
        ValueMapping::Scalar { kind: Scalar::Uint32, treatment: ScalarTreatment::Native },
    );
    let out = run(&f, FieldValue::Scalar(Datum::U32(u32::MAX)));
    assert!(out.facts.is_empty());
    assert_eq!(out.refusals[0].kind(), DiagnosticKind::ValueOutOfRange);
}

#[test]
fn a_slot_appends_its_value_after_the_given_place() {
    let mapping = shop();
    let index = Index::build(&mapping).expect("a closed mapping");
    let f = mapped("shop.v1.Order.flag", "flag", EmitForm::Function, ValueMapping::Scalar { kind: Scalar::Bool, treatment: ScalarTreatment::Bool });
    let mut facts_out: Vec<Fact> = Vec::new();
    let mut refusals: Vec<Diagnostic> = Vec::new();
    let mut children: Vec<Work<()>> = Vec::new();
    slot(&mapping, &index, &f, vec![atom("o1"), Term::Int(4)], Element::Scalar(Datum::Bool(true)), 0, &mut facts_out, &mut refusals, &mut children);
    assert_eq!(facts_out.len(), 1);
    assert_eq!(facts_out[0].predicate, "flag");
    let args: Vec<Term> = facts_out[0].arguments.iter().map(copy).collect();
    assert_eq!(args, vec![atom("o1"), Term::Int(4), atom("true")]);
}
