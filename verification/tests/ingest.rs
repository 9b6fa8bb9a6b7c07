use keryx_core::descriptor::builders::EntryView;
use keryx_core::descriptor::closure::Subjects;
use keryx_core::descriptor::ingest::{
    ingest_pool, read_shapes, EnumRead, EnumValueRead, FieldRead, FileRead, MessageRead, OneofRead,
    PoolRead,
};
use keryx_core::descriptor::model::{FieldShape, FqName, MapKey, Openness, Presence, Scalar, SchemaVersion, ValueType};
use keryx_core::diagnostics::{Diagnostics, DiagnosticKind};

fn kinds(d: &Diagnostics) -> Vec<DiagnosticKind> {
    d.iter().map(|x| x.kind()).collect()
}

fn field(path: &str, number: u32, value: ValueType) -> FieldRead {
    FieldRead {
        name: path.rsplit('.').next().expect("a path has a last segment").to_owned(),
        path: path.to_owned(),
        number,
        value,
        map: None,
        list: false,
        required: false,
        tracks_presence: false,
        options: Vec::new(),
        location: Vec::new(),
    }
}

fn message(path: &str, outer: Option<&str>, fields: Vec<FieldRead>, nested: Vec<MessageRead>) -> MessageRead {
    MessageRead {
        path: path.to_owned(),
        outer: outer.map(str::to_owned),
        map_entry: false,
        fields,
        oneofs: Vec::new(),
        options: Vec::new(),
        location: Vec::new(),
        nested,
        enums: Vec::new(),
    }
}

fn level(path: &str, outer: Option<&str>) -> EnumRead {
    EnumRead {
        path: path.to_owned(),
        outer: outer.map(str::to_owned),
        values: vec![EnumValueRead {
            name: "LEVEL_LOW".to_owned(),
            number: 0,
            path: format!("{path}.LEVEL_LOW"),
            options: Vec::new(),
            location: Vec::new(),
        }],
        options: Vec::new(),
        location: Vec::new(),
    }
}

fn file(name: &str, version: SchemaVersion, messages: Vec<MessageRead>, enums: Vec<EnumRead>) -> FileRead {
    FileRead {
        name: name.to_owned(),
        package: "thermal.v1".to_owned(),
        version,
        locations: Vec::new(),
        messages,
        enums,
    }
}

/// `thermal.v1.Batch` holding a nested `Reading` (an int32 and a `Level`), and a top-level
/// `Level` enum.
fn thermal(version: SchemaVersion) -> PoolRead {
    let reading = message(
        "thermal.v1.Batch.Reading",
        Some("thermal.v1.Batch"),
        vec![
            field("thermal.v1.Batch.Reading.temp_c", 2, ValueType::Scalar(Scalar::Int32)),
            field("thermal.v1.Batch.Reading.level", 1, ValueType::Enum(FqName::new("thermal.v1.Level"))),
        ],
        Vec::new(),
    );
    let batch = message(
        "thermal.v1.Batch",
        None,
        vec![field(
            "thermal.v1.Batch.latest",
            1,
            ValueType::Message(FqName::new("thermal.v1.Batch.Reading")),
        )],
        vec![reading],
    );
    PoolRead {
        files: vec![file("thermal.proto", version, vec![batch], vec![level("thermal.v1.Level", None)])],
    }
}

#[test]
fn a_pool_is_ingested_with_its_nested_messages_by_path_and_fields_by_number() {
    let schema = ingest_pool(thermal(SchemaVersion::Proto3), &Subjects::NotDependencies).expect("ingests");
    let paths: Vec<&str> = schema.messages().iter().map(|m| m.path().as_str()).collect();
    assert_eq!(paths, ["thermal.v1.Batch", "thermal.v1.Batch.Reading"]);
    let reading = &schema.messages()[1];
    assert_eq!(reading.outer().map(FqName::as_str), Some("thermal.v1.Batch"));
    let numbers: Vec<i32> = reading.fields().iter().map(|f| f.number()).collect();
    assert_eq!(numbers, [1, 2]);
    assert_eq!(
        reading.fields()[1].shape(),
        &FieldShape::Singular { value: ValueType::Scalar(Scalar::Int32), presence: Presence::Implicit }
    );
    assert_eq!(schema.enums().len(), 1);
    assert_eq!(schema.enums()[0].openness(), Openness::Open);
    assert_eq!(schema.files().len(), 1);
    assert!(!reading.is_recursive());
}

#[test]
fn a_proto2_enum_is_closed() {
    let schema = ingest_pool(thermal(SchemaVersion::Proto2), &Subjects::NotDependencies).expect("ingests");
    assert_eq!(schema.enums()[0].openness(), Openness::Closed);
}

#[test]
fn the_walk_pops_a_files_messages_off_a_stack() {
    // Top-level `A` and `B`, `A` holding `A.C`: the stack pops `B`, then `A`, then `A.C`.
    let a = message("p.A", None, Vec::new(), vec![message("p.A.C", Some("p.A"), Vec::new(), Vec::new())]);
    let b = message("p.B", None, Vec::new(), Vec::new());
    let (shape, messages, enums) = read_shapes(PoolRead {
        files: vec![file("p.proto", SchemaVersion::Proto3, vec![a, b], Vec::new())],
    });
    let paths: Vec<&str> = shape.messages.iter().map(|m| m.path.as_str()).collect();
    assert_eq!(paths, ["p.B", "p.A", "p.A.C"]);
    assert_eq!(shape.files[0].messages, [0, 1, 2]);
    assert_eq!(messages.len(), 3);
    assert!(enums.is_empty());
}

#[test]
fn a_message_referent_is_read_into_its_shape() {
    let (shape, _, _) = read_shapes(thermal(SchemaVersion::Proto3));
    let batch = shape.messages.iter().find(|m| m.path == "thermal.v1.Batch").expect("batch is read");
    assert_eq!(batch.referents, ["thermal.v1.Batch.Reading"]);
    assert_eq!(shape.enums[0].path, "thermal.v1.Level");
}

#[test]
fn a_dangling_referent_is_a_dependency_fault() {
    let mut pool = thermal(SchemaVersion::Proto3);
    pool.files[0].messages[0].fields[0].value = ValueType::Message(FqName::new("thermal.v1.Missing"));
    let refused = ingest_pool(pool, &Subjects::NotDependencies).expect_err("refused");
    assert_eq!(kinds(&refused), [DiagnosticKind::DependencyFault]);
}

#[test]
fn a_repeated_path_is_a_dependency_fault() {
    let a = message("p.A", None, Vec::new(), Vec::new());
    let again = message("p.A", None, Vec::new(), Vec::new());
    let refused = ingest_pool(
        PoolRead { files: vec![file("p.proto", SchemaVersion::Proto3, vec![a, again], Vec::new())] },
        &Subjects::NotDependencies,
    )
    .expect_err("refused");
    assert_eq!(kinds(&refused), [DiagnosticKind::DependencyFault]);
}

#[test]
fn a_map_field_with_a_bad_key_refuses_its_message() {
    let mut pool = thermal(SchemaVersion::Proto3);
    pool.files[0].messages[0].fields[0].map = Some(EntryView::Entry {
        key: Some(Scalar::Double),
        value: ValueType::Scalar(Scalar::Int32),
    });
    let refused = ingest_pool(pool, &Subjects::NotDependencies).expect_err("refused");
    assert_eq!(kinds(&refused), [DiagnosticKind::MalformedDescriptor]);
    let mut keyed = thermal(SchemaVersion::Proto3);
    keyed.files[0].messages[0].fields[0].map = Some(EntryView::Entry {
        key: Some(Scalar::String),
        value: ValueType::Scalar(Scalar::Int32),
    });
    let schema = ingest_pool(keyed, &Subjects::NotDependencies).expect("ingests");
    assert_eq!(
        schema.messages()[0].fields()[0].shape(),
        &FieldShape::Mapped { key: MapKey::String, value: ValueType::Scalar(Scalar::Int32) }
    );
}

#[test]
fn a_synthetic_oneof_is_not_a_message_oneof() {
    let mut pool = thermal(SchemaVersion::Proto3);
    pool.files[0].messages[0].oneofs = vec![
        OneofRead {
            name: "_latest".to_owned(),
            path: "thermal.v1.Batch._latest".to_owned(),
            synthetic: true,
            arms: vec![(1, "thermal.v1.Batch.latest".to_owned())],
            location: Vec::new(),
        },
        OneofRead {
            name: "choice".to_owned(),
            path: "thermal.v1.Batch.choice".to_owned(),
            synthetic: false,
            arms: vec![(1, "thermal.v1.Batch.latest".to_owned())],
            location: Vec::new(),
        },
    ];
    let schema = ingest_pool(pool, &Subjects::NotDependencies).expect("ingests");
    let oneofs: Vec<&str> = schema.messages()[0].oneofs().iter().map(|o| o.name.as_str()).collect();
    assert_eq!(oneofs, ["choice"]);
}
