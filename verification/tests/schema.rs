use keryx_core::descriptor::assemble::build_schema;
use keryx_core::descriptor::builders::{
    build_enum, build_field, build_message, build_oneof, field_number, map_shape, message_referents,
    EntryView,
};
use keryx_core::descriptor::closure::{
    is_subject, plan_schema, pool_is_ok, EnumShape, FileShape, MessageShape, PoolShape, Stop, Subjects,
};
use keryx_core::descriptor::model::{
    EnumValue, FieldShape, FqName, MapKey, Message, Enum, Openness, Presence, Scalar, SchemaVersion,
    ValueType,
};
use keryx_core::diagnostics::{DiagnosticKind, Diagnostics};

fn kinds(d: &Diagnostics) -> Vec<DiagnosticKind> {
    d.iter().map(|x| x.kind()).collect()
}

fn scalar_field(number: u32, name: &str) -> keryx_core::descriptor::model::Field {
    build_field(
        number,
        name.to_owned(),
        FqName::new(&format!("p.M.{name}")),
        FieldShape::Singular { value: ValueType::Scalar(Scalar::Int32), presence: Presence::Implicit },
        Vec::new(),
        None,
    )
    .expect("a number in range builds")
}

fn message_field(number: u32, name: &str, referent: &str) -> keryx_core::descriptor::model::Field {
    build_field(
        number,
        name.to_owned(),
        FqName::new(&format!("p.M.{name}")),
        FieldShape::Repeated { value: ValueType::Message(FqName::new(referent)) },
        Vec::new(),
        None,
    )
    .expect("a number in range builds")
}

#[test]
fn a_map_entry_missing_its_value_is_malformed_not_a_panic() {
    let d = map_shape("p.M.m", EntryView::MissingKeyOrValue).expect_err("refused");
    assert_eq!(kinds(&d), vec![DiagnosticKind::MalformedDescriptor]);
    let first = d.iter().next().unwrap();
    assert_eq!(first.detail(), "a map entry is missing its key or value field");
}

#[test]
fn a_float_map_key_is_malformed_not_a_panic() {
    let d = map_shape(
        "p.M.m",
        EntryView::Entry { key: Some(Scalar::Float), value: ValueType::Scalar(Scalar::String) },
    )
    .expect_err("refused");
    assert_eq!(kinds(&d), vec![DiagnosticKind::MalformedDescriptor]);
    assert_eq!(d.iter().next().unwrap().detail(), "a map key is not an integral, bool, or string kind");
    let d = map_shape("p.M.m", EntryView::NotAnEntry).expect_err("refused");
    assert_eq!(d.iter().next().unwrap().detail(), "a map field's kind is not its entry message");
}

#[test]
fn a_string_keyed_map_desugars_to_its_key_and_value() {
    let shape = map_shape(
        "p.M.m",
        EntryView::Entry { key: Some(Scalar::String), value: ValueType::Enum(FqName::new("p.E")) },
    )
    .expect("a string key is a key");
    assert_eq!(shape, FieldShape::Mapped { key: MapKey::String, value: ValueType::Enum(FqName::new("p.E")) });
}

#[test]
fn a_field_number_past_i32_is_malformed() {
    assert_eq!(field_number(7, "p.M.a").unwrap(), 7);
    assert_eq!(field_number(0x7FFF_FFFF, "p.M.a").unwrap(), i32::MAX);
    let d = field_number(0x8000_0000, "p.M.a").expect_err("out of range");
    let first = d.iter().next().unwrap();
    assert_eq!(first.kind(), DiagnosticKind::MalformedDescriptor);
    assert_eq!(first.detail(), "field number out of range");
    assert_eq!(first.locus().path(), Some("p.M.a"));
}

#[test]
fn a_oneof_lists_its_arms_by_number_and_refuses_an_out_of_range_arm() {
    let o = build_oneof(
        "choice".to_owned(),
        FqName::new("p.M.choice"),
        vec![(9, FqName::new("p.M.b")), (3, FqName::new("p.M.a")), (5, FqName::new("p.M.c"))],
        None,
    )
    .expect("in range");
    assert_eq!(o.arms, vec![3, 5, 9]);
    let d = build_oneof(
        "choice".to_owned(),
        FqName::new("p.M.choice"),
        vec![(1, FqName::new("p.M.a")), (0x9000_0000, FqName::new("p.M.z"))],
        None,
    )
    .expect_err("an arm past i32 is refused");
    assert_eq!(d.iter().next().unwrap().locus().path(), Some("p.M.z"));
}

#[test]
fn a_message_orders_its_fields_by_number_and_lists_its_referents() {
    let m = build_message(
        FqName::new("p.M"),
        "m.proto".to_owned(),
        None,
        vec![message_field(4, "d", "p.D"), scalar_field(1, "a"), message_field(2, "b", "p.B")],
        Vec::new(),
        Vec::new(),
        None,
    );
    let numbers: Vec<i32> = m.fields().iter().map(|f| f.number()).collect();
    assert_eq!(numbers, vec![1, 2, 4]);
    assert!(!m.is_recursive());
    let refs: Vec<String> = message_referents(&m).iter().map(|r| r.as_str().to_owned()).collect();
    assert_eq!(refs, vec!["p.B".to_owned(), "p.D".to_owned()]);
}

#[test]
fn an_enum_orders_its_values_and_takes_its_openness_from_the_syntax() {
    let value = |name: &str, number: i32| EnumValue {
        name: name.to_owned(),
        number,
        path: FqName::new(&format!("p.E.{name}")),
        options: Vec::new(),
        doc: None,
    };
    let e = build_enum(
        FqName::new("p.E"),
        "m.proto".to_owned(),
        None,
        SchemaVersion::Proto2,
        vec![value("B", 2), value("A", 0), value("C", 1)],
        Vec::new(),
        None,
    );
    let numbers: Vec<i32> = e.values().iter().map(|v| v.number).collect();
    assert_eq!(numbers, vec![0, 1, 2]);
    assert_eq!(e.openness(), Openness::Closed);
    let open = build_enum(FqName::new("p.F"), "m.proto".to_owned(), None, SchemaVersion::Proto3, Vec::new(), Vec::new(), None);
    assert_eq!(open.openness(), Openness::Open);
}

fn file(name: &str, package: &str, messages: Vec<usize>, enums: Vec<usize>) -> FileShape {
    FileShape { name: name.to_owned(), package: package.to_owned(), messages, enums }
}

fn shape(path: &str, file: usize, referents: &[&str], outer: Option<&str>) -> MessageShape {
    MessageShape {
        path: path.to_owned(),
        file,
        map_entry: false,
        builds: true,
        referents: referents.iter().map(|r| (*r).to_owned()).collect(),
        outer: outer.map(str::to_owned),
    }
}

/// A subject file `a.proto` whose `a.A` names the well-known `google.protobuf.Timestamp` and a
/// nested `b.B.Inner` in a dependency file `b.proto`; `b.B` is pulled in as `Inner`'s parent,
/// and `b.Unused` is never named.
fn sample_pool() -> PoolShape {
    PoolShape {
        files: vec![
            file("a.proto", "a", vec![0], vec![]),
            file("b.proto", "b", vec![1, 2, 3], vec![0]),
            file("google/protobuf/timestamp.proto", "google.protobuf", vec![4], vec![]),
        ],
        messages: vec![
            shape("a.A", 0, &["google.protobuf.Timestamp", "b.B.Inner"], None),
            shape("b.B", 1, &["b.Kind"], None),
            shape("b.B.Inner", 1, &[], Some("b.B")),
            shape("b.Unused", 1, &[], None),
            shape("google.protobuf.Timestamp", 2, &[], None),
        ],
        enums: vec![EnumShape { path: "b.Kind".to_owned(), file: 1, builds: true, outer: None }],
    }
}

fn sorted(mut v: Vec<usize>) -> Vec<usize> {
    v.sort();
    v
}

#[test]
fn a_subject_is_named_or_not_a_dependency() {
    assert!(is_subject(&Subjects::NotDependencies, "a.proto"));
    assert!(!is_subject(&Subjects::NotDependencies, "google/protobuf/timestamp.proto"));
    let named = Subjects::Named(vec!["b.proto".to_owned()]);
    assert!(is_subject(&named, "b.proto"));
    assert!(!is_subject(&named, "a.proto"));
}

#[test]
fn the_plan_is_the_subjects_and_their_referent_closure() {
    let plan = plan_schema(&sample_pool(), &Subjects::Named(vec!["a.proto".to_owned()])).expect("plans");
    assert_eq!(sorted(plan.messages.clone()), vec![0, 1, 2, 4]);
    assert_eq!(plan.enums, vec![0]);
    assert_eq!(sorted(plan.files.clone()), vec![0, 1, 2]);
}

#[test]
fn a_non_dependency_walk_takes_every_subject_file() {
    let plan = plan_schema(&sample_pool(), &Subjects::NotDependencies).expect("plans");
    assert_eq!(sorted(plan.messages.clone()), vec![0, 1, 2, 3, 4]);
    assert_eq!(sorted(plan.files.clone()), vec![0, 1, 2]);
}

#[test]
fn a_reached_element_that_does_not_build_stops_the_walk() {
    let mut pool = sample_pool();
    pool.messages[2].builds = false;
    match plan_schema(&pool, &Subjects::Named(vec!["a.proto".to_owned()])) {
        Err(Stop::Message(i)) => assert_eq!(i, 2),
        _ => panic!("the nested referent's failure stops the walk"),
    }
    // An unreached element's failure does not.
    let mut pool = sample_pool();
    pool.messages[3].builds = false;
    assert!(plan_schema(&pool, &Subjects::Named(vec!["a.proto".to_owned()])).is_ok());
    let mut pool = sample_pool();
    pool.enums[0].builds = false;
    match plan_schema(&pool, &Subjects::Named(vec!["a.proto".to_owned()])) {
        Err(Stop::Enum(j)) => assert_eq!(j, 0),
        _ => panic!("the enum's failure stops the walk"),
    }
}

#[test]
fn a_taken_file_with_a_bad_package_stops_the_walk() {
    let mut pool = sample_pool();
    pool.files[1].package = "b.9bad".to_owned();
    match plan_schema(&pool, &Subjects::Named(vec!["a.proto".to_owned()])) {
        Err(Stop::Package(f, d)) => {
            assert_eq!(f, 1);
            let first = d.iter().next().unwrap();
            assert_eq!(first.kind(), DiagnosticKind::MalformedDescriptor);
            assert_eq!(first.locus().path(), Some("b.proto"));
        },
        _ => panic!("the package refusal stops the walk"),
    }
}

#[test]
fn a_map_entry_referent_is_not_taken() {
    let mut pool = sample_pool();
    pool.messages[2].map_entry = true;
    let plan = plan_schema(&pool, &Subjects::Named(vec!["a.proto".to_owned()])).expect("plans");
    assert_eq!(sorted(plan.messages.clone()), vec![0, 4]);
    assert_eq!(plan.enums, Vec::<usize>::new());
    assert_eq!(sorted(plan.files.clone()), vec![0, 2]);
}

fn built_message(s: &MessageShape) -> Message {
    let fields = s
        .referents
        .iter()
        .enumerate()
        .map(|(k, r)| message_field(k as u32 + 1, &format!("f{k}"), r))
        .collect();
    build_message(
        FqName::new(&s.path),
        "x.proto".to_owned(),
        s.outer.as_deref().map(FqName::new),
        fields,
        Vec::new(),
        Vec::new(),
        None,
    )
}

fn built_enum(s: &EnumShape) -> Enum {
    build_enum(FqName::new(&s.path), "b.proto".to_owned(), None, SchemaVersion::Proto3, Vec::new(), Vec::new(), None)
}

#[test]
fn the_schema_orders_each_kind_and_marks_cycles() {
    let mut pool = sample_pool();
    // `b.B.Inner` contains itself: a containment cycle; the others take part in none.
    pool.messages[2].referents = vec!["b.B.Inner".to_owned()];
    let messages = pool.messages.iter().map(|s| Ok(built_message(s))).collect();
    let enums = pool.enums.iter().map(|s| Ok(built_enum(s))).collect();
    let schema = build_schema(&pool, &Subjects::Named(vec!["a.proto".to_owned()]), messages, enums).expect("builds");
    let paths: Vec<&str> = schema.messages().iter().map(|m| m.path().as_str()).collect();
    assert_eq!(paths, vec!["a.A", "b.B", "b.B.Inner", "google.protobuf.Timestamp"]);
    let recursive: Vec<bool> = schema.messages().iter().map(|m| m.is_recursive()).collect();
    assert_eq!(recursive, vec![false, false, true, false]);
    let files: Vec<&str> = schema.files().iter().map(|f| f.name.as_str()).collect();
    assert_eq!(files, vec!["a.proto", "b.proto", "google/protobuf/timestamp.proto"]);
    assert_eq!(schema.files()[2].package.as_str(), "google.protobuf");
    let enums: Vec<&str> = schema.enums().iter().map(|e| e.path().as_str()).collect();
    assert_eq!(enums, vec!["b.Kind"]);
}

#[test]
fn a_build_refusal_is_reported_as_it_is() {
    let mut pool = sample_pool();
    pool.messages[4].builds = false;
    let refusal = field_number(0x8000_0000, "google.protobuf.Timestamp.seconds").unwrap_err();
    let messages = pool
        .messages
        .iter()
        .enumerate()
        .map(|(i, s)| if i == 4 { Err(refusal.clone()) } else { Ok(built_message(s)) })
        .collect();
    let enums = pool.enums.iter().map(|s| Ok(built_enum(s))).collect();
    let d = build_schema(&pool, &Subjects::Named(vec!["a.proto".to_owned()]), messages, enums).expect_err("refused");
    assert_eq!(d, refusal);
}

#[test]
fn a_pool_with_a_repeated_name_or_a_stray_position_is_not_one_the_walk_reads() {
    assert!(pool_is_ok(&sample_pool()));
    let mut pool = sample_pool();
    pool.enums[0].path = "b.B".to_owned();
    assert!(!pool_is_ok(&pool), "a message and an enum share a path");
    let mut pool = sample_pool();
    pool.files[2].name = "a.proto".to_owned();
    assert!(!pool_is_ok(&pool), "two files share a name");
    let mut pool = sample_pool();
    pool.files[0].messages.push(9);
    assert!(!pool_is_ok(&pool), "a listed position past the messages");
    let mut pool = sample_pool();
    pool.files[0].messages.push(1);
    assert!(!pool_is_ok(&pool), "a message listed under a file it is not filed under");
    let mut pool = sample_pool();
    pool.files[1].messages.push(1);
    assert!(!pool_is_ok(&pool), "a message listed twice");
    let mut pool = sample_pool();
    pool.messages[0].file = 7;
    assert!(!pool_is_ok(&pool), "a file position past the files");
}

#[test]
fn a_message_keeps_its_oneofs_in_declaration_order() {
    let oneof = |name: &str| {
        build_oneof(name.to_owned(), FqName::new(&format!("p.M.{name}")), Vec::new(), None).expect("no arms")
    };
    let m = build_message(
        FqName::new("p.M"),
        "m.proto".to_owned(),
        None,
        Vec::new(),
        vec![oneof("b"), oneof("a")],
        Vec::new(),
        None,
    );
    let names: Vec<&str> = m.oneofs().iter().map(|o| o.name.as_str()).collect();
    assert_eq!(names, vec!["b", "a"]);
}

#[test]
fn nothing_the_schema_names_dangles() {
    let pool = sample_pool();
    let messages = pool.messages.iter().map(|s| Ok(built_message(s))).collect();
    let enums = pool.enums.iter().map(|s| Ok(built_enum(s))).collect();
    let schema = build_schema(&pool, &Subjects::Named(vec!["a.proto".to_owned()]), messages, enums).expect("builds");
    let names: Vec<&str> = schema
        .messages()
        .iter()
        .map(|m| m.path().as_str())
        .chain(schema.enums().iter().map(|e| e.path().as_str()))
        .collect();
    for message in schema.messages() {
        for referent in message_referents(message) {
            assert!(names.contains(&referent.as_str()), "{} dangles", referent.as_str());
        }
        if let Some(outer) = message.outer() {
            assert!(schema.messages().iter().any(|m| m.path() == outer));
        }
    }
    // `b.B.Inner` pulled in `b.B`, its parent, which pulled in the enum `b.Kind`.
    assert_eq!(names, vec!["a.A", "b.B", "b.B.Inner", "google.protobuf.Timestamp", "b.Kind"]);
}

#[test]
fn the_first_failure_of_the_first_failing_subject_file_stops_the_walk() {
    let every = Subjects::NotDependencies;
    // Two messages and the enum of `b.proto` fail: its first failing message, in its order, stops.
    let mut pool = sample_pool();
    pool.messages[2].builds = false;
    pool.messages[3].builds = false;
    pool.enums[0].builds = false;
    match plan_schema(&pool, &every) {
        Err(Stop::Message(i)) => assert_eq!(i, 2),
        _ => panic!("the file's first failing message stops the walk"),
    }
    // Its package fails too: the package comes first.
    pool.files[1].package = "b.9bad".to_owned();
    match plan_schema(&pool, &every) {
        Err(Stop::Package(f, _)) => assert_eq!(f, 1),
        _ => panic!("the file's package stops the walk"),
    }
    // A failure in `a.proto`, earlier in the pool, comes before all of them.
    pool.messages[0].builds = false;
    match plan_schema(&pool, &every) {
        Err(Stop::Message(i)) => assert_eq!(i, 0),
        _ => panic!("the first failing subject file stops the walk"),
    }
    // Only the enum fails: its messages all build, so the enum stops the walk.
    let mut pool = sample_pool();
    pool.enums[0].builds = false;
    match plan_schema(&pool, &every) {
        Err(Stop::Enum(j)) => assert_eq!(j, 0),
        _ => panic!("the file's failing enum stops the walk"),
    }
}

#[test]
fn every_element_s_file_is_a_listed_file_and_a_nested_path_extends_its_parent() {
    let pool = sample_pool();
    let messages = pool
        .messages
        .iter()
        .map(|s| {
            let file = pool.files[s.file].name.clone();
            Ok(build_message(
                FqName::new(&s.path),
                file,
                s.outer.as_deref().map(FqName::new),
                Vec::new(),
                Vec::new(),
                Vec::new(),
                None,
            ))
        })
        .collect();
    let enums = pool
        .enums
        .iter()
        .map(|s| {
            Ok(build_enum(
                FqName::new(&s.path),
                pool.files[s.file].name.clone(),
                None,
                SchemaVersion::Proto3,
                Vec::new(),
                Vec::new(),
                None,
            ))
        })
        .collect();
    let schema = build_schema(&pool, &Subjects::NotDependencies, messages, enums).expect("builds");
    let files: Vec<&str> = schema.files().iter().map(|f| f.name.as_str()).collect();
    for m in schema.messages() {
        assert!(files.contains(&m.file()), "{} is in no listed file", m.path().as_str());
        if let Some(outer) = m.outer() {
            assert!(m.path().as_str().starts_with(&format!("{}.", outer.as_str())));
        }
    }
    for e in schema.enums() {
        assert!(files.contains(&e.file()));
    }
}
