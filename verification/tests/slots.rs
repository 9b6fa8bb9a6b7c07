use keryx_core::codec::slots::{SlotIndex, Symbol};
use keryx_core::codec::walk::Index;
use keryx_core::descriptor::model::{FqName, Package, Scalar};
use keryx_core::diagnostics::DiagnosticKind;
use keryx_core::policy::{
    EmitForm, FieldMapping, Mapping, ScalarTreatment, SortMapping, Totality, Unit, ValueMapping,
};

fn field(name: &str, number: i32, form: EmitForm, value: ValueMapping, arity: u32) -> FieldMapping {
    FieldMapping {
        proto: FqName::new(&format!("thermal.v1.Reading.{name}")),
        number,
        predicate: name.to_owned(),
        arity,
        form,
        value,
        presence: Totality::Partial,
        escaped: false,
        doc: None,
    }
}

fn thermal() -> Mapping {
    let int32 = ValueMapping::Scalar { kind: Scalar::Int32, treatment: ScalarTreatment::Native };
    Mapping {
        units: vec![Unit {
            package: Package::parse("thermal.v1").expect("a package"),
            sorts: vec![SortMapping {
                proto: FqName::new("thermal.v1.Reading"),
                predicate: "reading".to_owned(),
                qualifier: Vec::new(),
                escaped: false,
                recursive: false,
                doc: None,
                fields: vec![
                    field("temp_c", 1, EmitForm::Function, int32.clone(), 2),
                    field("child", 2, EmitForm::Function, ValueMapping::Message("reading".to_owned()), 1),
                ],
                subject: true,
            }],
            enums: Vec::new(),
        }],
    }
}

fn f(name: &str, arguments: Vec<Symbol>) -> Symbol {
    Symbol::Function { name: name.to_owned(), arguments, positive: true }
}

fn c(name: &str) -> Symbol {
    f(name, Vec::new())
}

fn n(v: i32) -> Symbol {
    Symbol::Number(v)
}

fn same(a: &Symbol, b: &Symbol) -> bool {
    keryx_core::codec::slots::same_symbol(a, b)
}

#[test]
fn each_atom_is_filed_by_what_it_is() {
    let mapping = thermal();
    let index = Index::build(&mapping).expect("a closed mapping");
    let atoms = vec![
        f("emit_reading", vec![c("r0")]),
        f("reading", vec![c("r0")]),
        f("temp_c", vec![c("r0"), n(21)]),
        f("temp_c", vec![c("r0"), n(1), n(2)]),
        f("violates", vec![c("x")]),
        Symbol::Function { name: "temp_c".to_owned(), arguments: vec![c("r0"), n(5)], positive: false },
        f("reach", vec![c("r0")]),
        f("reading", vec![f("child", vec![c("r0")])]),
    ];
    let slots = SlotIndex::build(&mapping, &index, &atoms);
    let markers = slots.markers();
    assert_eq!(markers.len(), 1);
    assert_eq!(Some(markers[0].0), index.sort_of("reading"));
    assert_eq!(markers[0].1, 0);
    assert_eq!(slots.violations(), &[4]);
    // `temp_c(r0, 21)` alone, the ternary and the negated atom filed nowhere.
    let temps = slots.slot("temp_c", &c("r0"));
    assert_eq!(temps.len(), 1);
    assert!(same(&temps[0], &atoms[2]));
    // The occupant `child(r0)` is filed under its functor and parent.
    let children = slots.slot("child", &c("r0"));
    assert_eq!(children.len(), 1);
    assert!(same(&children[0], &f("child", vec![c("r0")])));
    assert!(slots.slot("temp_c", &c("r1")).is_empty());
    assert!(slots.orphans().is_empty());
}

#[test]
fn a_field_atom_under_an_undeclared_occupant_within_an_exported_tree_is_an_orphan() {
    let mapping = thermal();
    let index = Index::build(&mapping).expect("a closed mapping");
    let atoms = vec![
        f("emit_reading", vec![c("r0")]),
        // `child(r0)` descends from the root `r0`, but no `reading(child(r0))` declares it.
        f("temp_c", vec![f("child", vec![c("r0")]), n(3)]),
        // `other` descends from no marker: the model's own business, not refused.
        f("temp_c", vec![c("other"), n(4)]),
    ];
    let slots = SlotIndex::build(&mapping, &index, &atoms);
    let orphans = slots.orphans();
    assert_eq!(orphans.len(), 1);
    assert_eq!(orphans[0].kind(), DiagnosticKind::ShapeViolation);
    assert_eq!(orphans[0].locus().path(), Some("temp_c"));
    assert_eq!(
        orphans[0].detail(),
        "a field atom's parent occupant descends from a marker root but is declared by no occupancy atom"
    );
    // Both field atoms are still filed.
    assert_eq!(slots.slot("temp_c", &c("other")).len(), 1);
}

#[test]
fn a_declared_occupant_s_field_atoms_are_no_orphans() {
    let mapping = thermal();
    let index = Index::build(&mapping).expect("a closed mapping");
    let atoms = vec![
        f("emit_reading", vec![c("r0")]),
        f("reading", vec![f("child", vec![c("r0")])]),
        f("temp_c", vec![f("child", vec![c("r0")]), n(3)]),
        f("temp_c", vec![c("r0"), n(9)]),
    ];
    let slots = SlotIndex::build(&mapping, &index, &atoms);
    assert!(slots.orphans().is_empty());
}

/// The thermal mapping of a batch: `reading_batch` with its sequence `readings` of `reading`s,
/// each with its `sensor` string.
fn batch() -> Mapping {
    let text = ValueMapping::Scalar { kind: Scalar::String, treatment: ScalarTreatment::Text };
    let sort = |path: &str, predicate: &str, fields: Vec<FieldMapping>| SortMapping {
        proto: FqName::new(path),
        predicate: predicate.to_owned(),
        qualifier: Vec::new(),
        escaped: false,
        recursive: false,
        doc: None,
        fields,
        subject: true,
    };
    Mapping {
        units: vec![Unit {
            package: Package::parse("thermal.v1").expect("a package"),
            sorts: vec![
                sort(
                    "thermal.v1.ReadingBatch",
                    "reading_batch",
                    vec![field("readings", 1, EmitForm::Sequence, ValueMapping::Message("reading".to_owned()), 2)],
                ),
                sort("thermal.v1.Reading", "reading", vec![field("sensor", 1, EmitForm::Function, text, 2)]),
            ],
            enums: Vec::new(),
        }],
    }
}

#[test]
fn a_reachable_child_missing_its_occupancy_is_an_orphan_but_a_private_atom_is_not() {
    let mapping = batch();
    let index = Index::build(&mapping).expect("indexes");
    let private = vec![f("sensor", vec![c("ghost"), Symbol::Text("x".to_owned())])];
    assert!(
        SlotIndex::build(&mapping, &index, &private).orphans().is_empty(),
        "an atom over an occupant no marker reaches is private business, not an orphan"
    );
    let element = f("readings", vec![c("b0"), Symbol::Number(0)]);
    let reachable = vec![
        f("emit_reading_batch", vec![c("b0")]),
        f("sensor", vec![element, Symbol::Text("x".to_owned())]),
    ];
    let slots = SlotIndex::build(&mapping, &index, &reachable);
    assert_eq!(slots.orphans().len(), 1);
    assert_eq!(slots.orphans()[0].kind(), DiagnosticKind::ShapeViolation);
}

#[test]
fn a_violates_atom_is_collected_by_the_slot_index() {
    let mapping = batch();
    let index = Index::build(&mapping).expect("indexes");
    let answer = vec![f(
        "violates",
        vec![Symbol::Text("thermal.v1.Reading.sensor".to_owned()), c("r0")],
    )];
    let slots = SlotIndex::build(&mapping, &index, &answer);
    assert_eq!(slots.violations().len(), 1);
}
