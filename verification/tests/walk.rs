use keryx_core::codec::walk::{final_segment, Index};
use keryx_core::descriptor::model::{FqName, Openness, Package, Scalar};
use keryx_core::diagnostics::DiagnosticKind;
use keryx_core::policy::{
    EmitForm, EnumMapping, FieldMapping, Mapping, ScalarTreatment, SortMapping, Totality, Unit,
    ValueMapping,
};

fn unit(package: &str, sorts: Vec<SortMapping>, enums: Vec<EnumMapping>) -> Unit {
    Unit {
        package: Package::parse(package).expect("test package is valid"),
        sorts,
        enums,
    }
}

fn sort(path: &str, predicate: &str, fields: Vec<FieldMapping>) -> SortMapping {
    SortMapping {
        proto: FqName::new(path),
        predicate: predicate.to_owned(),
        qualifier: Vec::new(),
        escaped: false,
        recursive: false,
        doc: None,
        fields,
        subject: true,
    }
}

fn enumeration(path: &str, predicate: &str) -> EnumMapping {
    EnumMapping {
        proto: FqName::new(path),
        predicate: predicate.to_owned(),
        qualifier: Vec::new(),
        escaped: false,
        openness: Openness::Open,
        preserve: false,
        doc: None,
        values: Vec::new(),
        subject: true,
    }
}

fn field(path: &str, number: i32, value: ValueMapping) -> FieldMapping {
    FieldMapping {
        proto: FqName::new(path),
        number,
        predicate: format!("f{number}"),
        arity: 2,
        form: EmitForm::Function,
        value,
        presence: Totality::Total,
        escaped: false,
        doc: None,
    }
}

fn scalar() -> ValueMapping {
    ValueMapping::Scalar {
        kind: Scalar::Int32,
        treatment: ScalarTreatment::Native,
    }
}

fn refusals(mapping: &Mapping) -> Vec<(DiagnosticKind, Option<String>, String)> {
    match Index::build(mapping) {
        Ok(_) => Vec::new(),
        Err(diagnostics) => diagnostics
            .iter()
            .map(|d| {
                (
                    d.kind(),
                    d.locus().path().map(str::to_owned),
                    d.detail().to_owned(),
                )
            })
            .collect(),
    }
}

fn closed_world() -> Mapping {
    Mapping {
        units: vec![
            unit(
                "shop.v1",
                vec![
                    sort(
                        "shop.v1.Order",
                        "order",
                        vec![
                            field("shop.v1.Order.id", 1, scalar()),
                            field(
                                "shop.v1.Order.item",
                                2,
                                ValueMapping::Message("item".to_owned()),
                            ),
                            field(
                                "shop.v1.Order.state",
                                3,
                                ValueMapping::Enum {
                                    referent: "state".to_owned(),
                                    preserve: false,
                                },
                            ),
                        ],
                    ),
                    sort("shop.v1.Item", "item", Vec::new()),
                ],
                vec![enumeration("shop.v1.State", "state")],
            ),
            unit(
                "billing.v1",
                vec![sort("billing.v1.Item", "billing_item", Vec::new())],
                Vec::new(),
            ),
        ],
    }
}

#[test]
fn final_segment_is_the_text_after_the_last_dot() {
    assert_eq!(final_segment("shop.v1.Order").into_iter().collect::<String>(), "Order");
    assert_eq!(final_segment("Order").into_iter().collect::<String>(), "Order");
    assert_eq!(final_segment("shop.").into_iter().collect::<String>(), "");
    assert_eq!(final_segment("").into_iter().collect::<String>(), "");
}

#[test]
fn a_closed_world_mapping_indexes_every_referent() {
    let mapping = closed_world();
    let index = Index::build(&mapping).expect("the mapping is closed");
    let item = index.sort_of("item").expect("a sort");
    assert_eq!(item.in_mapping(&mapping).proto.as_str(), "shop.v1.Item");
    let state = index.enum_of("state").expect("an enum");
    assert_eq!(state.in_mapping(&mapping).proto.as_str(), "shop.v1.State");
    assert!(index.sort_of("state").is_none());
    assert!(index.enum_of("order").is_none());
}

#[test]
fn root_resolves_by_path_and_by_unshared_short_name() {
    let mapping = closed_world();
    let index = Index::build(&mapping).expect("the mapping is closed");
    let by_path = index.root(&mapping, "shop.v1.Order").expect("a message");
    assert_eq!(by_path.in_mapping(&mapping).predicate, "order");
    let by_short = index.root(&mapping, "Order").expect("an unshared short name");
    assert_eq!(by_short, by_path);
    let billing = index.root(&mapping, "billing.v1.Item").expect("a message");
    assert_eq!(billing.in_mapping(&mapping).predicate, "billing_item");
}

#[test]
fn a_shared_short_name_names_its_namesakes() {
    let mapping = closed_world();
    let index = Index::build(&mapping).expect("the mapping is closed");
    let diagnostics = index.root(&mapping, "Item").expect_err("shared short name");
    let listed: Vec<_> = diagnostics.iter().collect();
    assert_eq!(listed.len(), 1);
    assert_eq!(listed[0].kind(), DiagnosticKind::UnknownRootType);
    assert!(listed[0].locus().is_whole());
    assert_eq!(
        listed[0].detail(),
        "`Item` names more than one message (shop.v1.Item, billing.v1.Item); give the fully-qualified name"
    );
}

#[test]
fn an_unknown_root_is_a_plain_miss() {
    let mapping = closed_world();
    let index = Index::build(&mapping).expect("the mapping is closed");
    let diagnostics = index.root(&mapping, "Nothing").expect_err("no such message");
    let listed: Vec<_> = diagnostics.iter().collect();
    assert_eq!(listed[0].kind(), DiagnosticKind::UnknownRootType);
    assert_eq!(listed[0].detail(), "`Nothing` names no message of the schema");
}

#[test]
fn a_shared_predicate_is_refused_at_the_second_element() {
    let mapping = Mapping {
        units: vec![unit(
            "shop.v1",
            vec![
                sort("shop.v1.A", "thing", Vec::new()),
                sort("shop.v1.B", "thing", Vec::new()),
            ],
            vec![enumeration("shop.v1.C", "thing")],
        )],
    };
    assert_eq!(
        refusals(&mapping),
        vec![
            (
                DiagnosticKind::UnmappableName,
                Some("shop.v1.B".to_owned()),
                "two sorts of the mapping lower to the predicate `thing/1`".to_owned()
            ),
            (
                DiagnosticKind::UnmappableName,
                Some("shop.v1.C".to_owned()),
                "two sorts of the mapping lower to the predicate `thing/1`".to_owned()
            ),
        ]
    );
}

#[test]
fn dangling_referents_are_refused_at_their_fields() {
    let mapping = Mapping {
        units: vec![unit(
            "shop.v1",
            vec![sort(
                "shop.v1.A",
                "a",
                vec![
                    field("shop.v1.A.x", 1, ValueMapping::Message("gone".to_owned())),
                    field(
                        "shop.v1.A.y",
                        2,
                        ValueMapping::Enum {
                            referent: "a".to_owned(),
                            preserve: true,
                        },
                    ),
                    field("shop.v1.A.z", 3, scalar()),
                ],
            )],
            Vec::new(),
        )],
    };
    assert_eq!(
        refusals(&mapping),
        vec![
            (
                DiagnosticKind::UnmappableName,
                Some("shop.v1.A.x".to_owned()),
                "the field's referent `gone` is not a sort of the mapping".to_owned()
            ),
            (
                DiagnosticKind::UnmappableName,
                Some("shop.v1.A.y".to_owned()),
                "the field's referent `a` is not a enum of the mapping".to_owned()
            ),
        ]
    );
}

/// The thermal example's mapping: an alert, a reading, and a batch of readings.
fn thermal() -> Mapping {
    let string = ValueMapping::Scalar {
        kind: Scalar::String,
        treatment: ScalarTreatment::Text,
    };
    Mapping {
        units: vec![unit(
            "thermal.v1",
            vec![
                sort(
                    "thermal.v1.Alert",
                    "alert",
                    vec![field("thermal.v1.Alert.sensor", 1, string.clone())],
                ),
                sort(
                    "thermal.v1.Reading",
                    "reading",
                    vec![
                        field("thermal.v1.Reading.sensor", 1, string),
                        field("thermal.v1.Reading.temp_c", 2, scalar()),
                    ],
                ),
                sort(
                    "thermal.v1.ReadingBatch",
                    "reading_batch",
                    vec![field(
                        "thermal.v1.ReadingBatch.readings",
                        1,
                        ValueMapping::Message("reading".to_owned()),
                    )],
                ),
            ],
            Vec::new(),
        )],
    }
}

fn field_mut<'m>(mapping: &'m mut Mapping, path: &str) -> &'m mut FieldMapping {
    mapping
        .units
        .iter_mut()
        .flat_map(|unit| unit.sorts.iter_mut())
        .flat_map(|sort| sort.fields.iter_mut())
        .find(|field| field.proto.as_str() == path)
        .expect("a field of the mapping")
}

#[test]
fn the_index_resolves_a_root_by_path_or_unique_short_name() {
    let mapping = thermal();
    let index = Index::build(&mapping).expect("builds");
    let by_path = index
        .root(&mapping, "thermal.v1.ReadingBatch")
        .expect("resolves");
    let by_short = index.root(&mapping, "ReadingBatch").expect("resolves");
    assert_eq!(by_path, by_short);
    assert_eq!(
        by_path.in_mapping(&mapping).proto().as_str(),
        "thermal.v1.ReadingBatch"
    );
    let miss = index
        .root(&mapping, "Nowhere")
        .expect_err("no such message");
    assert_eq!(
        miss.iter().next().expect("one").kind(),
        DiagnosticKind::UnknownRootType
    );
}

#[test]
fn a_dangling_referent_is_diagnosed_when_the_index_is_built() {
    let mut mapping = thermal();
    field_mut(&mut mapping, "thermal.v1.ReadingBatch.readings").value =
        ValueMapping::Message("nowhere".to_owned());
    field_mut(&mut mapping, "thermal.v1.Reading.temp_c").value = ValueMapping::Enum {
        referent: "no_enum".to_owned(),
        preserve: false,
    };
    let diagnostics = Index::build(&mapping).expect_err("two dangling referents");
    let located: Vec<(DiagnosticKind, Option<&str>)> = diagnostics
        .iter()
        .map(|d| (d.kind(), d.locus().path()))
        .collect();
    assert_eq!(
        located,
        [
            (
                DiagnosticKind::UnmappableName,
                Some("thermal.v1.Reading.temp_c")
            ),
            (
                DiagnosticKind::UnmappableName,
                Some("thermal.v1.ReadingBatch.readings")
            ),
        ]
    );
}

#[test]
fn a_shared_sort_predicate_is_diagnosed_when_the_index_is_built() {
    let mut mapping = thermal();
    for sort in &mut mapping.units[0].sorts {
        if sort.proto.as_str() == "thermal.v1.Reading" {
            sort.predicate = "alert".to_owned();
        }
    }
    let diagnostics = Index::build(&mapping).expect_err("a shared predicate");
    let diagnostic = diagnostics.iter().next().expect("one");
    assert_eq!(diagnostic.kind(), DiagnosticKind::UnmappableName);
    assert_eq!(diagnostic.locus().path(), Some("thermal.v1.Reading"));
}
