use std::collections::BTreeSet;

use keryx_core::descriptor::model::{FqName, MapKey, Openness, Package, Scalar};
use keryx_core::diagnostics::DiagnosticKind;
use keryx_core::diff::{
    compare, is_version_segment, normalize_package, relative_name, Change, ChangeKind, Comparison,
    PackageDiff, SortDiff,
};
use keryx_core::policy::{
    EmitForm, EnumMapping, EnumValueMapping, FieldMapping, Mapping, ScalarTreatment, SortMapping,
    Totality, Unit, ValueMapping,
};

fn name(text: &str) -> String {
    text.to_owned()
}

fn mapping(units: Vec<Unit>) -> Mapping {
    Mapping { units }
}

fn unit(package: &str, sorts: Vec<SortMapping>, enums: Vec<EnumMapping>) -> Unit {
    Unit {
        package: Package::parse(package).expect("test package is valid"),
        sorts,
        enums,
    }
}

/// A subject message sort (a test flips `subject` on the literal for a closure sort).
fn sort(path: &str, predicate: &str, fields: Vec<FieldMapping>) -> SortMapping {
    SortMapping {
        proto: FqName::new(path),
        predicate: name(predicate),
        qualifier: Vec::new(),
        escaped: false,
        recursive: false,
        doc: None,
        fields,
        subject: true,
    }
}

/// A field whose arity follows its form as the policy sets it: a family is ternary, the
/// rest binary.
fn field(
    path: &str,
    number: i32,
    predicate: &str,
    form: EmitForm,
    value: ValueMapping,
    presence: Totality,
) -> FieldMapping {
    let arity = match form {
        EmitForm::Function | EmitForm::OneofArm { .. } | EmitForm::Membership => 2,
        EmitForm::Sequence | EmitForm::Mapped { .. } => 3,
    };
    FieldMapping {
        proto: FqName::new(path),
        number,
        predicate: name(predicate),
        arity,
        form,
        value,
        presence,
        escaped: false,
        doc: None,
    }
}

fn int32() -> ValueMapping {
    ValueMapping::Scalar {
        kind: Scalar::Int32,
        treatment: ScalarTreatment::Native,
    }
}

fn text() -> ValueMapping {
    ValueMapping::Scalar {
        kind: Scalar::String,
        treatment: ScalarTreatment::Text,
    }
}

fn message(referent: &str) -> ValueMapping {
    ValueMapping::Message(name(referent))
}

/// A singular, total `int32` field — the common case.
fn scalar(path: &str, number: i32, predicate: &str) -> FieldMapping {
    field(
        path,
        number,
        predicate,
        EmitForm::Function,
        int32(),
        Totality::Total,
    )
}

/// A partial `int32` oneof arm under `oneof`.
fn arm(path: &str, number: i32, predicate: &str, oneof: &str) -> FieldMapping {
    field(
        path,
        number,
        predicate,
        EmitForm::OneofArm {
            oneof: oneof.to_owned(),
        },
        int32(),
        Totality::Partial,
    )
}

fn enumeration(
    path: &str,
    predicate: &str,
    openness: Openness,
    preserve: bool,
    values: Vec<EnumValueMapping>,
) -> EnumMapping {
    EnumMapping {
        proto: FqName::new(path),
        predicate: name(predicate),
        qualifier: Vec::new(),
        escaped: false,
        openness,
        preserve,
        doc: None,
        values,
        subject: true,
    }
}

fn value(proto_name: &str, number: i32, constant: &str) -> EnumValueMapping {
    EnumValueMapping {
        proto_name: proto_name.to_owned(),
        number,
        constant: name(constant),
        escaped: false,
        doc: None,
    }
}

/// The thermal reading at version `v`: `sensor` #1 (a string) and `temp_c` #2 (an int32).
fn reading(v: &str) -> SortMapping {
    sort(
        &format!("thermal.{v}.Reading"),
        "reading",
        vec![
            field(
                &format!("thermal.{v}.Reading.sensor"),
                1,
                "sensor",
                EmitForm::Function,
                text(),
                Totality::Total,
            ),
            scalar(&format!("thermal.{v}.Reading.temp_c"), 2, "temp_c"),
        ],
    )
}

/// The open `Level` enum at version `v`, with `values`.
fn level(v: &str, values: Vec<EnumValueMapping>) -> EnumMapping {
    enumeration(
        &format!("thermal.{v}.Level"),
        "level",
        Openness::Open,
        false,
        values,
    )
}

/// A one-unit mapping for `thermal.<v>`.
fn thermal(v: &str, sorts: Vec<SortMapping>, enums: Vec<EnumMapping>) -> Mapping {
    mapping(vec![unit(&format!("thermal.{v}"), sorts, enums)])
}

/// A referent-closure `google.protobuf.Timestamp` sort with one field named `seconds`.
fn timestamp(seconds: &str) -> SortMapping {
    let mut sort = sort(
        "google.protobuf.Timestamp",
        "timestamp",
        vec![scalar(
            &format!("google.protobuf.Timestamp.{seconds}"),
            1,
            seconds,
        )],
    );
    sort.subject = false;
    sort
}

fn kinds(comparison: &Comparison<'_>) -> Vec<ChangeKind> {
    comparison.changes().iter().map(Change::kind).collect()
}

fn field_kinds(sort: &SortDiff<'_>) -> Vec<(i32, ChangeKind)> {
    sort.fields()
        .iter()
        .map(|field| (field.number(), field.kind()))
        .collect()
}

#[test]
fn a_trailing_version_segment_is_stripped_in_each_of_bufs_four_forms() {
    for (package, want) in [
        ("thermal.v1", "thermal"),
        ("thermal.v2", "thermal"),
        ("thermal.v10", "thermal"),
        ("acme.v1beta1", "acme"),
        ("acme.v2alpha1", "acme"),
        ("acme.v1beta", "acme"),
        ("acme.v1p1beta1", "acme"),
        ("acme.v2p3alpha", "acme"),
        ("acme.v1test", "acme"),
        ("acme.v1testfoo", "acme"),
        ("acme.inner.v1", "acme.inner"),
    ] {
        assert_eq!(normalize_package(package), want, "{package}");
    }
}

#[test]
fn a_package_whose_last_segment_is_not_a_version_is_unchanged() {
    for package in [
        "thermal",
        "acme.v1things",
        "acme.v1.dispatch",
        "",
        "acme.V1",
        "acme.v1p1",
        "acme.v",
    ] {
        assert_eq!(normalize_package(package), package);
    }
}

#[test]
fn a_package_that_is_one_version_segment_alone_is_unchanged() {
    // buf's versioned package is a name and a version, two segments at least: a bare `v1`
    // is not a versioned package, so there is nothing to strip.
    assert_eq!(normalize_package("v1"), "v1");
    assert_eq!(normalize_package("v1beta1"), "v1beta1");
}

#[test]
fn a_version_segment_matches_one_of_bufs_four_forms_in_full() {
    for segment in [
        "v1",
        "v10",
        "v1test",
        "v1testfoo",
        "v1beta",
        "v1beta1",
        "v2alpha",
        "v2alpha12",
        "v1p1beta1",
        "v2p3alpha",
        "v1p1beta",
    ] {
        assert!(is_version_segment(segment), "{segment} is a version");
    }
    for segment in [
        "",
        "v",
        "1",
        "V1",
        "v1x",
        "v1things",
        "v1p1",
        "v1p",
        "v1pbeta1",
        "vp1beta1",
        "v1alpha1x",
        "v1p1test",
        "v1betax",
        "v1gamma1",
        "dispatch",
        "version1",
        "v1 ",
        " v1",
        "v1.2",
    ] {
        assert!(!is_version_segment(segment), "{segment} is not a version");
    }
}

#[test]
fn a_numeric_part_is_at_least_one_by_value_as_buf_reads_it() {
    // buf parses each numeric part as an integer and demands at least 1: a zero is refused in
    // every position; a leading zero is a spelling of the same number, so it is admitted.
    for segment in ["v0", "v00", "v1beta0", "v1p0beta1", "v1p1alpha0"] {
        assert!(!is_version_segment(segment), "{segment} is not a version");
    }
    for segment in ["v01", "v1beta01", "v1p01beta1"] {
        assert!(is_version_segment(segment), "{segment} is a version");
    }
    assert_eq!(normalize_package("acme.v0"), "acme.v0");
    assert_eq!(normalize_package("acme.v01"), "acme");
}

#[test]
fn a_relative_name_strips_the_declaring_package_at_a_segment_boundary() {
    assert_eq!(relative_name("thermal.v1.Reading", "thermal.v1"), "Reading");
    assert_eq!(
        relative_name("thermal.v1.Outer.Inner", "thermal.v1"),
        "Outer.Inner"
    );
    // Only a whole leading run of segments is stripped: `thermal.v1` is a prefix of
    // `thermal.v1x` but not a segment boundary of it.
    assert_eq!(
        relative_name("thermal.v1x.Foo", "thermal.v1"),
        "thermal.v1x.Foo"
    );
    assert_eq!(relative_name("other.Foo", "thermal.v1"), "other.Foo");
    assert_eq!(relative_name("Foo", ""), "Foo");
}

#[test]
fn a_version_bump_matches_fields_by_number_rather_than_removing_and_adding() {
    // thermal.v1 → thermal.v2: the package matches by its normalized key, the sort by its
    // relative name, field #2 by its number — so `temp_c` → `celsius` is one rename, never a
    // removal beside an addition from a mis-stripped key.
    let old = thermal("v1", vec![reading("v1")], vec![]);
    let new = thermal(
        "v2",
        vec![sort(
            "thermal.v2.Reading",
            "reading",
            vec![
                field(
                    "thermal.v2.Reading.sensor",
                    1,
                    "sensor",
                    EmitForm::Function,
                    text(),
                    Totality::Total,
                ),
                scalar("thermal.v2.Reading.celsius", 2, "celsius"),
                scalar("thermal.v2.Reading.humidity", 3, "humidity"),
            ],
        )],
        vec![],
    );
    let comparison = compare(&old, &new).expect("comparable");
    let [package] = comparison.packages() else {
        panic!("one matched package: {comparison:?}")
    };
    assert_eq!(package.key(), "thermal");
    assert_eq!(
        package.old_package().map(Package::as_str),
        Some("thermal.v1")
    );
    assert_eq!(
        package.new_package().map(Package::as_str),
        Some("thermal.v2")
    );
    assert_eq!(package.kind(), ChangeKind::Unchanged);
    let [reading] = package.sorts() else {
        panic!("one matched sort: {package:?}")
    };
    assert_eq!(reading.name(), "Reading");
    assert_eq!(reading.kind(), ChangeKind::Unchanged);
    assert_eq!(
        field_kinds(reading),
        [
            (1, ChangeKind::Unchanged),
            (2, ChangeKind::Renamed),
            (3, ChangeKind::Added)
        ]
    );
    assert_eq!(kinds(&comparison), [ChangeKind::Renamed, ChangeKind::Added]);
    assert!(!comparison.is_breaking());
}

#[test]
fn a_rename_row_carries_both_sides_paths_and_signatures() {
    let old = thermal("v1", vec![reading("v1")], vec![]);
    let mut renamed = reading("v2");
    renamed.fields[1] = scalar("thermal.v2.Reading.celsius", 2, "celsius");
    let new = thermal("v2", vec![renamed], vec![]);
    let comparison = compare(&old, &new).expect("comparable");
    let changes = comparison.changes();
    let [change] = changes.as_slice() else {
        panic!("one change: {changes:?}")
    };
    assert_eq!(change.kind(), ChangeKind::Renamed);
    assert_eq!(change.package(), "thermal");
    assert_eq!(change.number(), Some(2));
    assert_eq!(change.old_path(), Some("thermal.v1.Reading.temp_c"));
    assert_eq!(change.new_path(), Some("thermal.v2.Reading.celsius"));
    assert_eq!(change.old_signature(), Some("temp_c/2 int32 total"));
    assert_eq!(change.new_signature(), Some("celsius/2 int32 total"));
    assert!(!change.is_breaking());
}

#[test]
fn an_added_field_is_additive() {
    let old = thermal("v1", vec![reading("v1")], vec![]);
    let mut with_humidity = reading("v2");
    with_humidity
        .fields
        .push(scalar("thermal.v2.Reading.humidity", 3, "humidity"));
    let new = thermal("v2", vec![with_humidity], vec![]);
    let comparison = compare(&old, &new).expect("comparable");
    let changes = comparison.changes();
    let [change] = changes.as_slice() else {
        panic!("one change: {changes:?}")
    };
    assert_eq!(change.kind(), ChangeKind::Added);
    assert!(!change.is_breaking());
    assert_eq!(change.number(), Some(3));
    assert_eq!(change.old_path(), None);
    assert_eq!(change.new_path(), Some("thermal.v2.Reading.humidity"));
    assert_eq!(change.old_signature(), None);
    assert_eq!(change.new_signature(), Some("humidity/2 int32 total"));
    assert!(!comparison.is_breaking());
}

#[test]
fn a_removed_field_is_breaking() {
    let old = thermal("v1", vec![reading("v1")], vec![]);
    let mut without_sensor = reading("v2");
    without_sensor.fields.remove(0);
    let new = thermal("v2", vec![without_sensor], vec![]);
    let comparison = compare(&old, &new).expect("comparable");
    let changes = comparison.changes();
    let [change] = changes.as_slice() else {
        panic!("one change: {changes:?}")
    };
    assert_eq!(change.kind(), ChangeKind::Removed);
    assert!(change.is_breaking());
    assert_eq!(change.old_path(), Some("thermal.v1.Reading.sensor"));
    assert_eq!(change.new_path(), None);
    assert_eq!(change.old_signature(), Some("sensor/2 string total"));
    assert_eq!(change.new_signature(), None);
    assert!(comparison.is_breaking());
}

#[test]
fn a_rename_that_also_changes_shape_is_a_change_with_no_bridge() {
    // `temp_c` (int32) → `celsius` (int64): the name and the value type both differ, so this
    // is no rename to bridge but a breaking change, its aspect naming exactly those two
    // dimensions.
    let int64 = ValueMapping::Scalar {
        kind: Scalar::Int64,
        treatment: ScalarTreatment::DecimalString,
    };
    let old = thermal("v1", vec![reading("v1")], vec![]);
    let mut widened = reading("v2");
    widened.fields[1] = field(
        "thermal.v2.Reading.celsius",
        2,
        "celsius",
        EmitForm::Function,
        int64.clone(),
        Totality::Total,
    );
    let new = thermal("v2", vec![widened], vec![]);
    let comparison = compare(&old, &new).expect("comparable");
    let celsius = &comparison.packages()[0].sorts()[0].fields()[1];
    assert_eq!(celsius.kind(), ChangeKind::Changed);
    assert_eq!(celsius.bridge(), None);
    let aspect = celsius
        .aspect()
        .expect("a changed field carries its aspect");
    assert_eq!(
        aspect.predicate().map(|(o, n)| (o.as_str(), n.as_str())),
        Some(("temp_c", "celsius"))
    );
    assert_eq!(aspect.value(), Some((&int32(), &int64)));
    assert_eq!(aspect.arity(), None);
    assert_eq!(aspect.form(), None);
    assert_eq!(aspect.presence(), None);
    assert_eq!(aspect.membership(), None);
    assert_eq!(kinds(&comparison), [ChangeKind::Changed]);
    assert!(comparison.is_breaking());
    let changes = comparison.changes();
    assert_eq!(changes[0].bridge(), None);
}

#[test]
fn a_field_number_change_is_a_removal_and_an_addition() {
    let old = thermal("v1", vec![reading("v1")], vec![]);
    let mut renumbered = reading("v2");
    renumbered.fields[1] = scalar("thermal.v2.Reading.temp_c", 4, "temp_c");
    let new = thermal("v2", vec![renumbered], vec![]);
    let comparison = compare(&old, &new).expect("comparable");
    let rows: Vec<(Option<i32>, ChangeKind)> = comparison
        .changes()
        .iter()
        .map(|change| (change.number(), change.kind()))
        .collect();
    assert_eq!(
        rows,
        [(Some(2), ChangeKind::Removed), (Some(4), ChangeKind::Added)]
    );
    assert!(comparison.is_breaking());
}

#[test]
fn a_changed_field_records_each_differing_dimension_in_its_aspect() {
    // `alerts` set → sequence (the form, and with it the arity); `note` total → partial (the
    // presence); `count` native → decimal string (the value's resolved treatment is part of
    // the value dimension — it changes the term a fact carries). Unchanged dimensions are
    // absent, and a pure rename carries no aspect at all.
    let count = |treatment| ValueMapping::Scalar {
        kind: Scalar::Uint32,
        treatment,
    };
    let batch = |v: &str, form: EmitForm, presence: Totality, treatment| {
        sort(
            &format!("thermal.{v}.Batch"),
            "batch",
            vec![
                field(
                    &format!("thermal.{v}.Batch.alerts"),
                    1,
                    "alerts",
                    form,
                    message("alert"),
                    Totality::Total,
                ),
                field(
                    &format!("thermal.{v}.Batch.note"),
                    2,
                    "note",
                    EmitForm::Function,
                    text(),
                    presence,
                ),
                field(
                    &format!("thermal.{v}.Batch.count"),
                    3,
                    "count",
                    EmitForm::Function,
                    count(treatment),
                    Totality::Total,
                ),
            ],
        )
    };
    let old = thermal(
        "v1",
        vec![batch(
            "v1",
            EmitForm::Membership,
            Totality::Total,
            ScalarTreatment::Native,
        )],
        vec![],
    );
    let new = thermal(
        "v2",
        vec![batch(
            "v2",
            EmitForm::Sequence,
            Totality::Partial,
            ScalarTreatment::DecimalString,
        )],
        vec![],
    );
    let comparison = compare(&old, &new).expect("comparable");
    let fields = comparison.packages()[0].sorts()[0].fields();
    let alerts = fields[0].aspect().expect("alerts changed");
    assert_eq!(alerts.form(), Some((&EmitForm::Membership, &EmitForm::Sequence)));
    assert_eq!(alerts.arity(), Some((2, 3)));
    assert_eq!(alerts.predicate(), None);
    assert_eq!(alerts.value(), None);
    assert_eq!(alerts.presence(), None);
    let note = fields[1].aspect().expect("note changed");
    assert_eq!(note.presence(), Some((Totality::Total, Totality::Partial)));
    assert_eq!(note.form(), None);
    assert_eq!(note.arity(), None);
    let count = fields[2].aspect().expect("count changed");
    assert_eq!(
        count.value(),
        Some((
            &count_value(ScalarTreatment::Native),
            &count_value(ScalarTreatment::DecimalString)
        ))
    );
    assert_eq!(kinds(&comparison), [ChangeKind::Changed; 3]);
}

fn count_value(treatment: ScalarTreatment) -> ValueMapping {
    ValueMapping::Scalar {
        kind: Scalar::Uint32,
        treatment,
    }
}

#[test]
fn a_pure_rename_and_an_unchanged_field_carry_no_aspect() {
    let old = thermal("v1", vec![reading("v1")], vec![]);
    let mut renamed = reading("v2");
    renamed.fields[1] = scalar("thermal.v2.Reading.celsius", 2, "celsius");
    let new = thermal("v2", vec![renamed], vec![]);
    let comparison = compare(&old, &new).expect("comparable");
    let fields = comparison.packages()[0].sorts()[0].fields();
    assert_eq!(fields[0].kind(), ChangeKind::Unchanged);
    assert_eq!(fields[0].aspect(), None);
    assert_eq!(fields[1].kind(), ChangeKind::Renamed);
    assert_eq!(fields[1].aspect(), None);
}

#[test]
fn a_closure_only_package_is_not_diffed() {
    // `google.protobuf` is referent closure on both sides (a well-known type pulled in by a
    // subject field): it changes between the versions and the comparison never looks. A
    // closure element inside a subject unit is skipped just the same.
    let mut imported_v1 = sort("thermal.v1.Imported", "imported", vec![]);
    imported_v1.subject = false;
    let mut imported_v2 = sort(
        "thermal.v2.Imported",
        "imported",
        vec![scalar("thermal.v2.Imported.n", 1, "n")],
    );
    imported_v2.subject = false;
    let old = mapping(vec![
        unit("google.protobuf", vec![timestamp("seconds")], vec![]),
        unit("thermal.v1", vec![imported_v1, reading("v1")], vec![]),
    ]);
    let new = mapping(vec![
        unit("google.protobuf", vec![timestamp("secs")], vec![]),
        unit("thermal.v2", vec![imported_v2, reading("v2")], vec![]),
    ]);
    let comparison = compare(&old, &new).expect("comparable");
    let keys: Vec<&str> = comparison.packages().iter().map(PackageDiff::key).collect();
    assert_eq!(keys, ["thermal"]);
    let names: Vec<&str> = comparison.packages()[0]
        .sorts()
        .iter()
        .map(SortDiff::name)
        .collect();
    assert_eq!(names, ["Reading"]);
    assert!(comparison.changes().is_empty());
}

#[test]
fn unrelated_schemas_sharing_only_a_closure_package_are_not_comparable() {
    let old = mapping(vec![
        unit("alpha.v1", vec![sort("alpha.v1.A", "a", vec![])], vec![]),
        unit("google.protobuf", vec![timestamp("seconds")], vec![]),
    ]);
    let new = mapping(vec![
        unit("beta.v1", vec![sort("beta.v1.B", "b", vec![])], vec![]),
        unit("google.protobuf", vec![timestamp("seconds")], vec![]),
    ]);
    let diagnostics = compare(&old, &new).expect_err("nothing comparable");
    assert_eq!(diagnostics.len(), 1);
    let diagnostic = diagnostics.iter().next().expect("one cause");
    assert_eq!(diagnostic.kind(), DiagnosticKind::NoComparableSchemas);
    assert!(diagnostic.locus().is_whole());
    let detail = diagnostic.detail();
    assert!(
        detail.contains("`alpha`") && detail.contains("`beta`"),
        "{detail}"
    );
    assert!(!detail.contains("google"), "closure never named: {detail}");
}

#[test]
fn a_side_with_no_subject_package_is_not_comparable() {
    let old = mapping(vec![unit(
        "google.protobuf",
        vec![timestamp("seconds")],
        vec![],
    )]);
    let new = thermal("v1", vec![reading("v1")], vec![]);
    let diagnostics = compare(&old, &new).expect_err("nothing comparable");
    let diagnostic = diagnostics.iter().next().expect("one cause");
    assert_eq!(diagnostic.kind(), DiagnosticKind::NoComparableSchemas);
    let detail = diagnostic.detail();
    assert!(
        detail.contains("the old schema (no package of its own)"),
        "{detail}"
    );
    assert!(detail.contains("`thermal`"), "{detail}");
}

#[test]
fn two_subject_units_normalizing_to_one_key_are_ambiguous() {
    let two_versions = mapping(vec![
        unit("thermal.v1", vec![reading("v1")], vec![]),
        unit("thermal.v2", vec![reading("v2")], vec![]),
    ]);
    let one = thermal("v3", vec![reading("v3")], vec![]);
    let diagnostics = compare(&two_versions, &one).expect_err("ambiguous");
    assert_eq!(diagnostics.len(), 1);
    let diagnostic = diagnostics.iter().next().expect("one cause");
    assert_eq!(diagnostic.kind(), DiagnosticKind::AmbiguousVersionPackages);
    assert!(diagnostic.locus().is_whole());
    let detail = diagnostic.detail();
    assert!(
        detail.contains("old schema")
            && detail.contains("`thermal.v1`")
            && detail.contains("`thermal.v2`"),
        "{detail}"
    );
    // Both sides ambiguous: every cause is collected, the new side's named as such.
    let diagnostics = compare(&two_versions, &two_versions).expect_err("ambiguous");
    assert_eq!(diagnostics.len(), 2);
    let second = diagnostics.iter().nth(1).expect("two causes");
    assert_eq!(second.kind(), DiagnosticKind::AmbiguousVersionPackages);
    assert!(
        second.detail().contains("new schema"),
        "{}",
        second.detail()
    );
}

#[test]
fn partial_overlap_carries_a_removed_package_with_its_elements() {
    let legacy = unit(
        "legacy.v1",
        vec![sort(
            "legacy.v1.Old",
            "old",
            vec![scalar("legacy.v1.Old.n", 1, "n")],
        )],
        vec![enumeration(
            "legacy.v1.Mode",
            "mode",
            Openness::Open,
            false,
            vec![value("MODE_A", 0, "a")],
        )],
    );
    let old = mapping(vec![
        legacy,
        unit("thermal.v1", vec![reading("v1")], vec![]),
    ]);
    let new = thermal("v2", vec![reading("v2")], vec![]);
    let comparison = compare(&old, &new).expect("comparable");
    let [legacy, thermal] = comparison.packages() else {
        panic!("two packages: {comparison:?}")
    };
    assert_eq!(thermal.kind(), ChangeKind::Unchanged);
    assert_eq!(
        (legacy.key(), legacy.kind()),
        ("legacy", ChangeKind::PackageRemoved)
    );
    assert_eq!(legacy.old_package().map(Package::as_str), Some("legacy.v1"));
    assert_eq!(legacy.new_package(), None);
    let [old_sort] = legacy.sorts() else {
        panic!("one removed sort: {legacy:?}")
    };
    assert_eq!(old_sort.kind(), ChangeKind::MessageRemoved);
    assert!(old_sort.new_sort().is_none());
    assert_eq!(field_kinds(old_sort), [(1, ChangeKind::Removed)]);
    let [mode] = legacy.enums() else {
        panic!("one removed enum: {legacy:?}")
    };
    assert_eq!(mode.kind(), ChangeKind::EnumRemoved);
    assert!(mode.new_enum().is_none());
    let values: Vec<(i32, ChangeKind)> = mode
        .values()
        .iter()
        .map(|value| (value.number(), value.kind()))
        .collect();
    assert_eq!(values, [(0, ChangeKind::ValueRemoved)]);
    assert_eq!(
        kinds(&comparison),
        [
            ChangeKind::PackageRemoved,
            ChangeKind::EnumRemoved,
            ChangeKind::ValueRemoved,
            ChangeKind::MessageRemoved,
            ChangeKind::Removed,
        ]
    );
    assert!(comparison.is_breaking());
}

#[test]
fn partial_overlap_carries_an_added_package_with_its_elements() {
    let fresh = unit(
        "fresh.v1",
        vec![sort(
            "fresh.v1.New",
            "new",
            vec![scalar("fresh.v1.New.n", 1, "n")],
        )],
        vec![enumeration(
            "fresh.v1.Mode",
            "mode",
            Openness::Open,
            false,
            vec![value("MODE_A", 0, "a")],
        )],
    );
    let old = thermal("v1", vec![reading("v1")], vec![]);
    let new = mapping(vec![fresh, unit("thermal.v2", vec![reading("v2")], vec![])]);
    let comparison = compare(&old, &new).expect("comparable");
    let [fresh, thermal] = comparison.packages() else {
        panic!("two packages: {comparison:?}")
    };
    assert_eq!(thermal.kind(), ChangeKind::Unchanged);
    assert_eq!(
        (fresh.key(), fresh.kind()),
        ("fresh", ChangeKind::PackageAdded)
    );
    assert_eq!(fresh.old_package(), None);
    assert_eq!(fresh.new_package().map(Package::as_str), Some("fresh.v1"));
    assert!(fresh.sorts()[0].old_sort().is_none());
    assert!(fresh.enums()[0].old_enum().is_none());
    assert_eq!(
        kinds(&comparison),
        [
            ChangeKind::PackageAdded,
            ChangeKind::EnumAdded,
            ChangeKind::ValueAdded,
            ChangeKind::MessageAdded,
            ChangeKind::Added,
        ]
    );
    assert!(!comparison.is_breaking());
}

#[test]
fn a_package_row_names_the_package_on_its_side_and_has_no_signature() {
    let old = mapping(vec![
        unit(
            "legacy.v1",
            vec![sort("legacy.v1.Old", "old", vec![])],
            vec![],
        ),
        unit("thermal.v1", vec![reading("v1")], vec![]),
    ]);
    let new = thermal("v2", vec![reading("v2")], vec![]);
    let comparison = compare(&old, &new).expect("comparable");
    let changes = comparison.changes();
    let row = &changes[0];
    assert_eq!(
        (row.kind(), row.package(), row.number()),
        (ChangeKind::PackageRemoved, "legacy", None)
    );
    assert_eq!(row.old_path(), Some("legacy.v1"));
    assert_eq!(row.new_path(), None);
    assert_eq!(row.old_signature(), None);
    assert_eq!(row.new_signature(), None);
    assert!(row.is_breaking());
    assert_eq!(row.bridge(), None);
}

#[test]
fn a_message_removed_within_a_matched_package_is_breaking() {
    let old = thermal(
        "v1",
        vec![
            sort(
                "thermal.v1.Alert",
                "alert",
                vec![scalar("thermal.v1.Alert.n", 1, "n")],
            ),
            reading("v1"),
        ],
        vec![],
    );
    let new = thermal("v2", vec![reading("v2")], vec![]);
    let comparison = compare(&old, &new).expect("comparable");
    let [alert, reading] = comparison.packages()[0].sorts() else {
        panic!("two sorts: {comparison:?}")
    };
    assert_eq!(alert.kind(), ChangeKind::MessageRemoved);
    assert_eq!(reading.kind(), ChangeKind::Unchanged);
    assert_eq!(
        kinds(&comparison),
        [ChangeKind::MessageRemoved, ChangeKind::Removed]
    );
    let changes = comparison.changes();
    assert_eq!(changes[0].old_path(), Some("thermal.v1.Alert"));
    assert_eq!(changes[0].old_signature(), Some("alert/1"));
    assert_eq!(changes[0].number(), None);
    assert!(comparison.is_breaking());
}

#[test]
fn a_message_added_within_a_matched_package_is_additive() {
    let old = thermal("v1", vec![reading("v1")], vec![]);
    let new = thermal(
        "v2",
        vec![
            sort(
                "thermal.v2.Alert",
                "alert",
                vec![scalar("thermal.v2.Alert.n", 1, "n")],
            ),
            reading("v2"),
        ],
        vec![],
    );
    let comparison = compare(&old, &new).expect("comparable");
    assert_eq!(
        comparison.packages()[0].sorts()[0].kind(),
        ChangeKind::MessageAdded
    );
    assert_eq!(
        kinds(&comparison),
        [ChangeKind::MessageAdded, ChangeKind::Added]
    );
    assert!(!comparison.is_breaking());
}

#[test]
fn an_enum_removed_within_a_matched_package_is_breaking() {
    let old = thermal(
        "v1",
        vec![reading("v1")],
        vec![level("v1", vec![value("LEVEL_LOW", 0, "low")])],
    );
    let new = thermal("v2", vec![reading("v2")], vec![]);
    let comparison = compare(&old, &new).expect("comparable");
    let [level] = comparison.packages()[0].enums() else {
        panic!("one removed enum: {comparison:?}")
    };
    assert_eq!(level.kind(), ChangeKind::EnumRemoved);
    assert_eq!(level.name(), "Level");
    assert_eq!(
        kinds(&comparison),
        [ChangeKind::EnumRemoved, ChangeKind::ValueRemoved]
    );
    assert!(comparison.is_breaking());
}

#[test]
fn an_enum_added_within_a_matched_package_is_additive() {
    let old = thermal("v1", vec![reading("v1")], vec![]);
    let new = thermal(
        "v2",
        vec![reading("v2")],
        vec![level("v2", vec![value("LEVEL_LOW", 0, "low")])],
    );
    let comparison = compare(&old, &new).expect("comparable");
    assert_eq!(
        comparison.packages()[0].enums()[0].kind(),
        ChangeKind::EnumAdded
    );
    assert_eq!(
        kinds(&comparison),
        [ChangeKind::EnumAdded, ChangeKind::ValueAdded]
    );
    assert!(!comparison.is_breaking());
}

#[test]
fn a_sort_whose_predicate_changes_while_its_identity_holds_is_a_sort_rename() {
    // A new collision in v2 qualifies `reading/1` to `v2__reading/1`: the path
    // `Reading` still matches, the predicate differs, the fields are untouched — a rename,
    // not a silent fork.
    let old = thermal("v1", vec![reading("v1")], vec![]);
    let mut qualified = reading("v2");
    qualified.predicate = name("v2__reading");
    let new = thermal("v2", vec![qualified], vec![]);
    let comparison = compare(&old, &new).expect("comparable");
    let [reading] = comparison.packages()[0].sorts() else {
        panic!("one matched sort: {comparison:?}")
    };
    assert_eq!(reading.kind(), ChangeKind::SortRenamed);
    assert_eq!(
        reading.old_sort().map(|sort| sort.predicate().as_str()),
        Some("reading")
    );
    assert_eq!(
        reading.new_sort().map(|sort| sort.predicate().as_str()),
        Some("v2__reading")
    );
    assert_eq!(
        field_kinds(reading),
        [(1, ChangeKind::Unchanged), (2, ChangeKind::Unchanged)]
    );
    let changes = comparison.changes();
    let [change] = changes.as_slice() else {
        panic!("one change: {changes:?}")
    };
    assert_eq!(
        (change.kind(), change.number()),
        (ChangeKind::SortRenamed, None)
    );
    assert_eq!(change.old_path(), Some("thermal.v1.Reading"));
    assert_eq!(change.new_path(), Some("thermal.v2.Reading"));
    assert_eq!(change.old_signature(), Some("reading/1"));
    assert_eq!(change.new_signature(), Some("v2__reading/1"));
    assert!(!comparison.is_breaking());
}

#[test]
fn nested_sorts_match_by_their_relative_path() {
    let inner =
        |v: &str, predicate: &str| sort(&format!("thermal.{v}.Outer.Inner"), predicate, vec![]);
    let old = thermal("v1", vec![inner("v1", "inner")], vec![]);
    let new = thermal("v2", vec![inner("v2", "outer__inner")], vec![]);
    let comparison = compare(&old, &new).expect("comparable");
    let [inner] = comparison.packages()[0].sorts() else {
        panic!("one matched sort: {comparison:?}")
    };
    assert_eq!(inner.name(), "Outer.Inner");
    assert_eq!(inner.kind(), ChangeKind::SortRenamed);
}

#[test]
fn an_enum_whose_predicate_changes_while_its_identity_holds_is_an_enum_rename() {
    let mut qualified = level("v2", vec![value("LEVEL_LOW", 0, "low")]);
    qualified.predicate = name("v2__level");
    let old = thermal(
        "v1",
        vec![],
        vec![level("v1", vec![value("LEVEL_LOW", 0, "low")])],
    );
    let new = thermal("v2", vec![], vec![qualified]);
    let comparison = compare(&old, &new).expect("comparable");
    let [level] = comparison.packages()[0].enums() else {
        panic!("one matched enum: {comparison:?}")
    };
    assert_eq!(level.kind(), ChangeKind::EnumRenamed);
    assert_eq!(level.name(), "Level");
    assert_eq!(kinds(&comparison), [ChangeKind::EnumRenamed]);
    let changes = comparison.changes();
    assert_eq!(changes[0].old_path(), Some("thermal.v1.Level"));
    assert_eq!(changes[0].old_signature(), Some("level/1 (open)"));
    assert_eq!(changes[0].new_signature(), Some("v2__level/1 (open)"));
    assert!(!comparison.is_breaking());
}

#[test]
fn an_openness_flip_is_breaking() {
    let grade = |v: &str, openness| {
        enumeration(
            &format!("thermal.{v}.Grade"),
            "grade",
            openness,
            false,
            vec![value("GRADE_A", 0, "a")],
        )
    };
    let old = thermal("v1", vec![], vec![grade("v1", Openness::Closed)]);
    let new = thermal("v2", vec![], vec![grade("v2", Openness::Open)]);
    let comparison = compare(&old, &new).expect("comparable");
    assert_eq!(
        comparison.packages()[0].enums()[0].kind(),
        ChangeKind::OpennessChanged
    );
    let changes = comparison.changes();
    assert_eq!(changes[0].old_signature(), Some("grade/1 (closed)"));
    assert_eq!(changes[0].new_signature(), Some("grade/1 (open)"));
    assert!(comparison.is_breaking());
}

#[test]
fn a_preserve_flip_is_breaking() {
    let mut preserving = level("v2", vec![value("LEVEL_LOW", 0, "low")]);
    preserving.preserve = true;
    let old = thermal(
        "v1",
        vec![],
        vec![level("v1", vec![value("LEVEL_LOW", 0, "low")])],
    );
    let new = thermal("v2", vec![], vec![preserving]);
    let comparison = compare(&old, &new).expect("comparable");
    assert_eq!(
        comparison.packages()[0].enums()[0].kind(),
        ChangeKind::PreserveChanged
    );
    let changes = comparison.changes();
    assert_eq!(changes[0].old_signature(), Some("level/1 (open)"));
    assert_eq!(changes[0].new_signature(), Some("level/1 (open, preserve)"));
    assert!(comparison.is_breaking());
}

#[test]
fn the_enum_kind_is_the_dominant_of_its_differences() {
    // One kind per node: a breaking difference outranks a rename, and an openness flip
    // outranks a preserve flip; the rest stays legible in the row's per-side signatures.
    let old = thermal(
        "v1",
        vec![],
        vec![level("v1", vec![value("LEVEL_LOW", 0, "low")])],
    );
    let mut renamed_and_preserving = level("v2", vec![value("LEVEL_LOW", 0, "low")]);
    renamed_and_preserving.predicate = name("v2__level");
    renamed_and_preserving.preserve = true;
    let new = thermal("v2", vec![], vec![renamed_and_preserving.clone()]);
    let comparison = compare(&old, &new).expect("comparable");
    assert_eq!(kinds(&comparison), [ChangeKind::PreserveChanged]);
    let changes = comparison.changes();
    assert_eq!(
        changes[0].new_signature(),
        Some("v2__level/1 (open, preserve)")
    );
    let mut closed_too = renamed_and_preserving;
    closed_too.openness = Openness::Closed;
    closed_too.preserve = false;
    let new = thermal("v2", vec![], vec![closed_too]);
    let comparison = compare(&old, &new).expect("comparable");
    assert_eq!(kinds(&comparison), [ChangeKind::OpennessChanged]);
}

#[test]
fn an_added_enum_value_is_additive() {
    let old = thermal(
        "v1",
        vec![],
        vec![level("v1", vec![value("LEVEL_LOW", 0, "low")])],
    );
    let new = thermal(
        "v2",
        vec![],
        vec![level(
            "v2",
            vec![value("LEVEL_LOW", 0, "low"), value("LEVEL_HIGH", 1, "high")],
        )],
    );
    let comparison = compare(&old, &new).expect("comparable");
    let [level] = comparison.packages()[0].enums() else {
        panic!("one matched enum: {comparison:?}")
    };
    assert_eq!(level.kind(), ChangeKind::Unchanged);
    let values: Vec<(i32, ChangeKind)> = level
        .values()
        .iter()
        .map(|value| (value.number(), value.kind()))
        .collect();
    assert_eq!(
        values,
        [(0, ChangeKind::Unchanged), (1, ChangeKind::ValueAdded)]
    );
    let changes = comparison.changes();
    let [change] = changes.as_slice() else {
        panic!("one change: {changes:?}")
    };
    assert_eq!(change.kind(), ChangeKind::ValueAdded);
    assert_eq!(change.number(), Some(1));
    assert_eq!(change.old_path(), None);
    assert_eq!(change.new_path(), Some("thermal.v2.Level.LEVEL_HIGH"));
    assert_eq!(change.new_signature(), Some("high"));
    assert!(!comparison.is_breaking());
}

#[test]
fn a_removed_enum_value_is_breaking() {
    let old = thermal(
        "v1",
        vec![],
        vec![level(
            "v1",
            vec![value("LEVEL_LOW", 0, "low"), value("LEVEL_HIGH", 1, "high")],
        )],
    );
    let new = thermal(
        "v2",
        vec![],
        vec![level("v2", vec![value("LEVEL_LOW", 0, "low")])],
    );
    let comparison = compare(&old, &new).expect("comparable");
    let changes = comparison.changes();
    let [change] = changes.as_slice() else {
        panic!("one change: {changes:?}")
    };
    assert_eq!(change.kind(), ChangeKind::ValueRemoved);
    assert_eq!(change.old_path(), Some("thermal.v1.Level.LEVEL_HIGH"));
    assert_eq!(change.old_signature(), Some("high"));
    assert_eq!(change.new_path(), None);
    assert!(comparison.is_breaking());
}

#[test]
fn a_renamed_enum_value_is_breaking() {
    // A constant is vocabulary no rule aliases: `low` → `lo` breaks every model naming it.
    let old = thermal(
        "v1",
        vec![],
        vec![level("v1", vec![value("LEVEL_LOW", 0, "low")])],
    );
    let new = thermal(
        "v2",
        vec![],
        vec![level("v2", vec![value("LEVEL_LO", 0, "lo")])],
    );
    let comparison = compare(&old, &new).expect("comparable");
    let changes = comparison.changes();
    let [change] = changes.as_slice() else {
        panic!("one change: {changes:?}")
    };
    assert_eq!(change.kind(), ChangeKind::ValueRenamed);
    assert_eq!(change.old_signature(), Some("low"));
    assert_eq!(change.new_signature(), Some("lo"));
    assert!(change.is_breaking());
    assert!(comparison.is_breaking());
}

#[test]
fn a_value_whose_constant_holds_is_unchanged_whatever_its_proto_name() {
    // Protobuf lets a value's name change; the generated constant is what a model names.
    let old = thermal(
        "v1",
        vec![],
        vec![level("v1", vec![value("LEVEL_LOW", 0, "low")])],
    );
    let new = thermal(
        "v2",
        vec![],
        vec![level("v2", vec![value("LOW", 0, "low")])],
    );
    let comparison = compare(&old, &new).expect("comparable");
    assert_eq!(
        comparison.packages()[0].enums()[0].values()[0].kind(),
        ChangeKind::Unchanged
    );
    assert!(comparison.changes().is_empty());
}

#[test]
fn a_oneof_rename_is_not_breaking() {
    // `source { manual = 1; channel = 2; }` → `origin { … }`: the label reaches only
    // `emit.lp`'s `violates` string; the cell's member set {1, 2} is the same on both sides,
    // so nothing in the vocabulary changed.
    let gauge = |v: &str, oneof: &str| {
        sort(
            &format!("thermal.{v}.Gauge"),
            "gauge",
            vec![
                arm(&format!("thermal.{v}.Gauge.manual"), 1, "manual", oneof),
                arm(&format!("thermal.{v}.Gauge.channel"), 2, "channel", oneof),
            ],
        )
    };
    let old = thermal("v1", vec![gauge("v1", "source")], vec![]);
    let new = thermal("v2", vec![gauge("v2", "origin")], vec![]);
    let comparison = compare(&old, &new).expect("comparable");
    assert_eq!(
        field_kinds(&comparison.packages()[0].sorts()[0]),
        [(1, ChangeKind::Unchanged), (2, ChangeKind::Unchanged)]
    );
    assert!(comparison.changes().is_empty());
    assert!(!comparison.is_breaking());
}

#[test]
fn a_oneof_regrouping_is_breaking() {
    // v1: `x { a = 1; b = 2; }  y { c = 3; }`; v2: `x { a = 1; }  y { b = 2; c = 3; }` — `b`
    // moved from x to y. Its cell {1, 2} → {2, 3}: the exclusivity partition changed, so `b`
    // is a breaking change on the membership dimension alone (its form is still an arm). Its
    // old and new partners' cells changed with it, and the rule reads cells, never labels.
    let choices = |v: &str, b_oneof: &str| {
        sort(
            &format!("thermal.{v}.S"),
            "s",
            vec![
                arm(&format!("thermal.{v}.S.a"), 1, "a", "x"),
                arm(&format!("thermal.{v}.S.b"), 2, "b", b_oneof),
                arm(&format!("thermal.{v}.S.c"), 3, "c", "y"),
            ],
        )
    };
    let old = thermal("v1", vec![choices("v1", "x")], vec![]);
    let new = thermal("v2", vec![choices("v2", "y")], vec![]);
    let comparison = compare(&old, &new).expect("comparable");
    let fields = comparison.packages()[0].sorts()[0].fields();
    let b = fields[1].aspect().expect("b regrouped");
    assert_eq!(
        b.membership(),
        Some((&[1, 2][..], &[2, 3][..]))
    );
    assert_eq!(b.form(), None);
    assert_eq!(b.predicate(), None);
    assert_eq!(
        field_kinds(&comparison.packages()[0].sorts()[0]),
        [
            (1, ChangeKind::Changed),
            (2, ChangeKind::Changed),
            (3, ChangeKind::Changed)
        ]
    );
    assert!(comparison.is_breaking());
}

#[test]
fn a_field_leaving_its_oneof_changes_form_and_membership() {
    // v1: `x { a = 1; b = 2; }`; v2: `a` is a plain optional field beside `x { b = 2; }`.
    let old = thermal(
        "v1",
        vec![sort(
            "thermal.v1.S",
            "s",
            vec![
                arm("thermal.v1.S.a", 1, "a", "x"),
                arm("thermal.v1.S.b", 2, "b", "x"),
            ],
        )],
        vec![],
    );
    let new = thermal(
        "v2",
        vec![sort(
            "thermal.v2.S",
            "s",
            vec![
                field(
                    "thermal.v2.S.a",
                    1,
                    "a",
                    EmitForm::Function,
                    int32(),
                    Totality::Partial,
                ),
                arm("thermal.v2.S.b", 2, "b", "x"),
            ],
        )],
        vec![],
    );
    let comparison = compare(&old, &new).expect("comparable");
    let fields = comparison.packages()[0].sorts()[0].fields();
    let a = fields[0].aspect().expect("a left its oneof");
    assert_eq!(
        a.form(),
        Some((
            &EmitForm::OneofArm {
                oneof: "x".to_owned()
            },
            &EmitForm::Function
        ))
    );
    assert_eq!(
        a.membership(),
        Some((&[1, 2][..], &[][..]))
    );
    assert_eq!(a.presence(), None);
    assert_eq!(a.arity(), None);
    let b = fields[1].aspect().expect("b lost its partner");
    assert_eq!(b.form(), None);
    assert_eq!(
        b.membership(),
        Some((&[1, 2][..], &[2][..]))
    );
}

#[test]
fn unchanged_sorts_and_enums_are_present_in_the_comparison() {
    let old = thermal(
        "v1",
        vec![reading("v1")],
        vec![level("v1", vec![value("LEVEL_LOW", 0, "low")])],
    );
    let new = thermal(
        "v2",
        vec![reading("v2")],
        vec![level("v2", vec![value("LEVEL_LOW", 0, "low")])],
    );
    let comparison = compare(&old, &new).expect("comparable");
    let package = &comparison.packages()[0];
    let [reading] = package.sorts() else {
        panic!("the unchanged sort is present: {package:?}")
    };
    assert_eq!(reading.kind(), ChangeKind::Unchanged);
    assert!(reading.old_sort().is_some() && reading.new_sort().is_some());
    assert_eq!(
        field_kinds(reading),
        [(1, ChangeKind::Unchanged), (2, ChangeKind::Unchanged)]
    );
    assert!(
        reading
            .fields()
            .iter()
            .all(|field| field.old_field().is_some() && field.new_field().is_some())
    );
    let [level] = package.enums() else {
        panic!("the unchanged enum is present: {package:?}")
    };
    assert_eq!(level.kind(), ChangeKind::Unchanged);
    assert!(level.values().iter().all(|value| {
        value.kind() == ChangeKind::Unchanged
            && value.old_value().is_some()
            && value.new_value().is_some()
    }));
    assert!(comparison.changes().is_empty());
    assert!(!comparison.is_breaking());
}

#[test]
fn changes_are_sorted_by_package_then_element_then_number_then_kind() {
    // Two packages, `beta` removed and `alpha` matched; within `alpha`, the enum `Mode` (a
    // value added) sorts before the sort `Zed` (renamed, a field added), and an element's own
    // row precedes its numbered children.
    let old = mapping(vec![
        unit(
            "alpha.v1",
            vec![sort(
                "alpha.v1.Zed",
                "zed",
                vec![scalar("alpha.v1.Zed.n", 1, "n")],
            )],
            vec![enumeration(
                "alpha.v1.Mode",
                "mode",
                Openness::Open,
                false,
                vec![value("MODE_A", 0, "a")],
            )],
        ),
        unit(
            "beta.v1",
            vec![sort("beta.v1.Gone", "gone", vec![])],
            vec![],
        ),
    ]);
    let new = mapping(vec![unit(
        "alpha.v2",
        vec![sort(
            "alpha.v2.Zed",
            "v2__zed",
            vec![
                scalar("alpha.v2.Zed.n", 1, "n"),
                scalar("alpha.v2.Zed.m", 5, "m"),
            ],
        )],
        vec![enumeration(
            "alpha.v2.Mode",
            "mode",
            Openness::Open,
            false,
            vec![value("MODE_A", 0, "a"), value("MODE_B", 1, "b")],
        )],
    )]);
    let comparison = compare(&old, &new).expect("comparable");
    let rows: Vec<(&str, Option<i32>, ChangeKind)> = comparison
        .changes()
        .iter()
        .map(|change| (change.package(), change.number(), change.kind()))
        .collect();
    assert_eq!(
        rows,
        [
            ("alpha", Some(1), ChangeKind::ValueAdded),
            ("alpha", None, ChangeKind::SortRenamed),
            ("alpha", Some(5), ChangeKind::Added),
            ("beta", None, ChangeKind::PackageRemoved),
            ("beta", None, ChangeKind::MessageRemoved),
        ]
    );
}

#[test]
fn a_field_signature_names_its_form_in_the_manifests_vocabulary() {
    // `predicate/arity`, the declared type (the manifest's `<declared>` column), then the
    // manifest's descriptor column: a family names its shape, a singular field or arm its
    // totality — one vocabulary for the manifest and the comparison.
    let batch = sort(
        "thermal.v1.Batch",
        "batch",
        vec![
            field(
                "thermal.v1.Batch.readings",
                1,
                "readings",
                EmitForm::Sequence,
                message("reading"),
                Totality::Total,
            ),
            field(
                "thermal.v1.Batch.counts",
                2,
                "counts",
                EmitForm::Mapped {
                    key: MapKey::String,
                    key_treatment: ScalarTreatment::Text,
                },
                int32(),
                Totality::Total,
            ),
            field(
                "thermal.v1.Batch.tags",
                3,
                "tags",
                EmitForm::Membership,
                text(),
                Totality::Total,
            ),
            field(
                "thermal.v1.Batch.id",
                4,
                "id",
                EmitForm::Function,
                text(),
                Totality::Required,
            ),
            arm("thermal.v1.Batch.note", 5, "note", "x"),
        ],
    );
    let old = thermal("v1", vec![batch], vec![]);
    let new = thermal(
        "v2",
        vec![sort("thermal.v2.Batch", "batch", vec![])],
        vec![],
    );
    let comparison = compare(&old, &new).expect("comparable");
    let changes = comparison.changes();
    let signatures: Vec<Option<&str>> = changes.iter().map(Change::old_signature).collect();
    assert_eq!(
        signatures,
        [
            Some("readings/3 reading seq"),
            Some("counts/3 int32 map<string>"),
            Some("tags/2 string set"),
            Some("id/2 string required"),
            Some("note/2 int32 partial"),
        ]
    );
}

#[test]
fn the_breaking_line_follows_the_detection_rules() {
    for kind in [
        ChangeKind::Removed,
        ChangeKind::Changed,
        ChangeKind::MessageRemoved,
        ChangeKind::EnumRemoved,
        ChangeKind::ValueRemoved,
        ChangeKind::ValueRenamed,
        ChangeKind::OpennessChanged,
        ChangeKind::PreserveChanged,
        ChangeKind::PackageRemoved,
    ] {
        assert!(kind.is_breaking(), "{kind:?} breaks a model");
    }
    for kind in [
        ChangeKind::Unchanged,
        ChangeKind::Renamed,
        ChangeKind::Added,
        ChangeKind::SortRenamed,
        ChangeKind::EnumRenamed,
        ChangeKind::MessageAdded,
        ChangeKind::EnumAdded,
        ChangeKind::ValueAdded,
        ChangeKind::PackageAdded,
    ] {
        assert!(!kind.is_breaking(), "{kind:?} bridges or adds");
    }
}

#[test]
fn every_change_kind_is_pinned_by_a_test() {
    // The checklist — each kind and the test that pins it. The match is exhaustive with no
    // wildcard, so a kind added without a line here fails to compile.
    //
    //   Renamed          a_version_bump_matches_fields_by_number_rather_than_removing_and_adding
    //   Removed          a_removed_field_is_breaking
    //   Added            an_added_field_is_additive
    //   Changed          a_rename_that_also_changes_shape_is_a_change_with_no_bridge
    //   SortRenamed      a_sort_whose_predicate_changes_while_its_identity_holds_is_a_sort_rename
    //   EnumRenamed      an_enum_whose_predicate_changes_while_its_identity_holds_is_an_enum_rename
    //   MessageAdded     a_message_added_within_a_matched_package_is_additive
    //   MessageRemoved   a_message_removed_within_a_matched_package_is_breaking
    //   EnumAdded        an_enum_added_within_a_matched_package_is_additive
    //   EnumRemoved      an_enum_removed_within_a_matched_package_is_breaking
    //   ValueAdded       an_added_enum_value_is_additive
    //   ValueRemoved     a_removed_enum_value_is_breaking
    //   ValueRenamed     a_renamed_enum_value_is_breaking
    //   OpennessChanged  an_openness_flip_is_breaking
    //   PreserveChanged  a_preserve_flip_is_breaking
    //   PackageAdded     partial_overlap_carries_an_added_package_with_its_elements
    //   PackageRemoved   partial_overlap_carries_a_removed_package_with_its_elements
    //
    // and the baseline outside the seventeen:
    //
    //   Unchanged        unchanged_sorts_and_enums_are_present_in_the_comparison
    //
    // These tests pin all seventeen; the worked evolution example (`examples/evolution`)
    // demonstrates twelve of them end to end, and the CLI suite's report goldens the other five.
    match ChangeKind::Unchanged {
        ChangeKind::Unchanged
        | ChangeKind::Renamed
        | ChangeKind::Removed
        | ChangeKind::Added
        | ChangeKind::Changed
        | ChangeKind::SortRenamed
        | ChangeKind::EnumRenamed
        | ChangeKind::MessageAdded
        | ChangeKind::MessageRemoved
        | ChangeKind::EnumAdded
        | ChangeKind::EnumRemoved
        | ChangeKind::ValueAdded
        | ChangeKind::ValueRemoved
        | ChangeKind::ValueRenamed
        | ChangeKind::OpennessChanged
        | ChangeKind::PreserveChanged
        | ChangeKind::PackageAdded
        | ChangeKind::PackageRemoved => {}
    }
}

fn enum_value(referent: &str, preserve: bool) -> ValueMapping {
    ValueMapping::Enum {
        referent: name(referent),
        preserve,
    }
}

/// A `Batch` sort at version `v` whose `readings` #1 is a sequence of the `referent` sort.
fn batch_of(v: &str, referent: &str) -> SortMapping {
    sort(
        &format!("thermal.{v}.Batch"),
        "batch",
        vec![field(
            &format!("thermal.{v}.Batch.readings"),
            1,
            "readings",
            EmitForm::Sequence,
            message(referent),
            Totality::Total,
        )],
    )
}

/// A `Panel` sort at version `v` whose `level` #1 is a value of the `referent` enum.
fn panel(v: &str, referent: &str, preserve: bool) -> SortMapping {
    sort(
        &format!("thermal.{v}.Panel"),
        "panel",
        vec![field(
            &format!("thermal.{v}.Panel.level"),
            1,
            "level",
            EmitForm::Function,
            enum_value(referent, preserve),
            Totality::Total,
        )],
    )
}

#[test]
fn a_field_referencing_a_renamed_sort_is_unchanged() {
    // `Reading` is re-qualified `reading` → `v2__reading` in v2 (a `SortRenamed`, bridged at
    // arity 1). `Batch.readings` names it by predicate on each side, but its *type* — the
    // sort's identity — is the same sort, so the field is unchanged and nothing breaks: the
    // rename is the sort's own row alone.
    let mut qualified = reading("v2");
    qualified.predicate = name("v2__reading");
    let old = thermal("v1", vec![batch_of("v1", "reading"), reading("v1")], vec![]);
    let new = thermal("v2", vec![batch_of("v2", "v2__reading"), qualified], vec![]);
    let comparison = compare(&old, &new).expect("comparable");
    let [batch, reading] = comparison.packages()[0].sorts() else {
        panic!("two sorts: {comparison:?}")
    };
    assert_eq!(reading.kind(), ChangeKind::SortRenamed);
    assert_eq!(field_kinds(batch), [(1, ChangeKind::Unchanged)]);
    assert_eq!(kinds(&comparison), [ChangeKind::SortRenamed]);
    assert!(!comparison.is_breaking());
}

#[test]
fn a_field_referencing_a_renamed_enum_is_unchanged() {
    let mut qualified = level("v2", vec![value("LEVEL_LOW", 0, "low")]);
    qualified.predicate = name("v2__level");
    let old = thermal(
        "v1",
        vec![panel("v1", "level", false)],
        vec![level("v1", vec![value("LEVEL_LOW", 0, "low")])],
    );
    let new = thermal("v2", vec![panel("v2", "v2__level", false)], vec![qualified]);
    let comparison = compare(&old, &new).expect("comparable");
    assert_eq!(
        field_kinds(&comparison.packages()[0].sorts()[0]),
        [(1, ChangeKind::Unchanged)]
    );
    assert_eq!(kinds(&comparison), [ChangeKind::EnumRenamed]);
    assert!(!comparison.is_breaking());
}

#[test]
fn a_field_referencing_a_preserve_changed_enum_is_unchanged() {
    // The flip is the enum's own row (`PreserveChanged`, breaking); the `preserve` a field
    // carries is that enum's, denormalized onto it, not a change of the field.
    let mut preserving = level("v2", vec![value("LEVEL_LOW", 0, "low")]);
    preserving.preserve = true;
    let old = thermal(
        "v1",
        vec![panel("v1", "level", false)],
        vec![level("v1", vec![value("LEVEL_LOW", 0, "low")])],
    );
    let new = thermal("v2", vec![panel("v2", "level", true)], vec![preserving]);
    let comparison = compare(&old, &new).expect("comparable");
    assert_eq!(
        field_kinds(&comparison.packages()[0].sorts()[0]),
        [(1, ChangeKind::Unchanged)]
    );
    assert_eq!(kinds(&comparison), [ChangeKind::PreserveChanged]);
    assert!(comparison.is_breaking());
}

#[test]
fn a_field_retargeted_to_another_sort_is_changed() {
    // `Batch.readings` names `reading` in v1 and `alert` in v2 — both sorts on both sides,
    // two identities — so the field's type changed: breaking, on the value dimension.
    let alert = |v: &str| sort(&format!("thermal.{v}.Alert"), "alert", vec![]);
    let old = thermal(
        "v1",
        vec![alert("v1"), batch_of("v1", "reading"), reading("v1")],
        vec![],
    );
    let new = thermal(
        "v2",
        vec![alert("v2"), batch_of("v2", "alert"), reading("v2")],
        vec![],
    );
    let comparison = compare(&old, &new).expect("comparable");
    let [_, batch, _] = comparison.packages()[0].sorts() else {
        panic!("three sorts: {comparison:?}")
    };
    assert_eq!(batch.fields()[0].kind(), ChangeKind::Changed);
    let aspect = batch.fields()[0].aspect().expect("retargeted");
    assert_eq!(
        aspect.value(),
        Some((&message("reading"), &message("alert")))
    );
    assert_eq!(kinds(&comparison), [ChangeKind::Changed]);
    assert!(comparison.is_breaking());
}

#[test]
fn a_field_whose_referent_resolves_on_one_side_only_is_changed() {
    // `Batch.readings` still says `reading` in v2, but no subject sort answers to it there
    // (`Reading` was removed, its two fields riding as removals): one side resolves the
    // referent, the other does not, so the field's type changed beside the removal.
    let old = thermal("v1", vec![batch_of("v1", "reading"), reading("v1")], vec![]);
    let new = thermal("v2", vec![batch_of("v2", "reading")], vec![]);
    let comparison = compare(&old, &new).expect("comparable");
    let [batch, _] = comparison.packages()[0].sorts() else {
        panic!("two sorts: {comparison:?}")
    };
    assert_eq!(field_kinds(batch), [(1, ChangeKind::Changed)]);
    assert_eq!(
        kinds(&comparison),
        [
            ChangeKind::Changed,
            ChangeKind::MessageRemoved,
            ChangeKind::Removed,
            ChangeKind::Removed
        ]
    );
    assert!(comparison.is_breaking());
}

#[test]
fn a_field_whose_closure_referent_is_requalified_is_changed() {
    // `Reading.at` names the closure sort `google.protobuf.Timestamp`, whose predicate a new
    // subject collision re-qualifies `timestamp` → `v2__timestamp`. A closure referent has no
    // identity in the comparison (it is not diffed, so nothing bridges it): the predicates
    // are compared as spelled, and the field is a breaking change.
    let at = |v: &str, referent: &str| {
        sort(
            &format!("thermal.{v}.Reading"),
            "reading",
            vec![field(
                &format!("thermal.{v}.Reading.at"),
                1,
                "at",
                EmitForm::Function,
                message(referent),
                Totality::Partial,
            )],
        )
    };
    let mut requalified = timestamp("seconds");
    requalified.predicate = name("v2__timestamp");
    let old = mapping(vec![
        unit("google.protobuf", vec![timestamp("seconds")], vec![]),
        unit("thermal.v1", vec![at("v1", "timestamp")], vec![]),
    ]);
    let new = mapping(vec![
        unit("google.protobuf", vec![requalified], vec![]),
        unit("thermal.v2", vec![at("v2", "v2__timestamp")], vec![]),
    ]);
    let comparison = compare(&old, &new).expect("comparable");
    assert_eq!(
        field_kinds(&comparison.packages()[0].sorts()[0]),
        [(1, ChangeKind::Changed)]
    );
    assert!(comparison.is_breaking());
}

#[test]
fn an_arm_added_to_a_oneof_leaves_the_existing_arms_unchanged() {
    // v1: `x { a = 1; b = 2; }`; v2: `x { a = 1; b = 2; c = 3; }` — the additive evolution
    // protobuf allows. Among the fields both sides hold, a's and b's cells are {1, 2} on
    // each side, so `c` is the one row and nothing breaks.
    let old = thermal(
        "v1",
        vec![sort(
            "thermal.v1.S",
            "s",
            vec![
                arm("thermal.v1.S.a", 1, "a", "x"),
                arm("thermal.v1.S.b", 2, "b", "x"),
            ],
        )],
        vec![],
    );
    let new = thermal(
        "v2",
        vec![sort(
            "thermal.v2.S",
            "s",
            vec![
                arm("thermal.v2.S.a", 1, "a", "x"),
                arm("thermal.v2.S.b", 2, "b", "x"),
                arm("thermal.v2.S.c", 3, "c", "x"),
            ],
        )],
        vec![],
    );
    let comparison = compare(&old, &new).expect("comparable");
    assert_eq!(
        field_kinds(&comparison.packages()[0].sorts()[0]),
        [
            (1, ChangeKind::Unchanged),
            (2, ChangeKind::Unchanged),
            (3, ChangeKind::Added)
        ]
    );
    assert_eq!(kinds(&comparison), [ChangeKind::Added]);
    assert!(!comparison.is_breaking());
}

#[test]
fn an_arm_removed_from_a_oneof_leaves_its_surviving_partners_unchanged() {
    // v1: `x { a = 1; b = 2; c = 3; }`; v2: `x { a = 1; b = 2; }` — the removal is the
    // breaking row; a and b, compared among the fields both sides hold, are unchanged.
    let old = thermal(
        "v1",
        vec![sort(
            "thermal.v1.S",
            "s",
            vec![
                arm("thermal.v1.S.a", 1, "a", "x"),
                arm("thermal.v1.S.b", 2, "b", "x"),
                arm("thermal.v1.S.c", 3, "c", "x"),
            ],
        )],
        vec![],
    );
    let new = thermal(
        "v2",
        vec![sort(
            "thermal.v2.S",
            "s",
            vec![
                arm("thermal.v2.S.a", 1, "a", "x"),
                arm("thermal.v2.S.b", 2, "b", "x"),
            ],
        )],
        vec![],
    );
    let comparison = compare(&old, &new).expect("comparable");
    assert_eq!(
        field_kinds(&comparison.packages()[0].sorts()[0]),
        [
            (1, ChangeKind::Unchanged),
            (2, ChangeKind::Unchanged),
            (3, ChangeKind::Removed)
        ]
    );
    assert_eq!(kinds(&comparison), [ChangeKind::Removed]);
    assert!(comparison.is_breaking());
}

#[test]
fn only_a_pure_rename_carries_a_bridge() {
    // A bridge exists for a `Renamed`, `SortRenamed`, or `EnumRenamed` node and for no other:
    // not for a rename that also changed shape (pinned with its aspect in
    // `a_rename_that_also_changes_shape_is_a_change_with_no_bridge`), not for an enum renamed
    // beside a flip (which is the flip), and not for a one-sided or an unchanged node.
    let old = thermal(
        "v1",
        vec![
            sort(
                "thermal.v1.Alert",
                "alert",
                vec![scalar("thermal.v1.Alert.n", 1, "n")],
            ),
            reading("v1"),
        ],
        vec![level("v1", vec![value("LEVEL_LOW", 0, "low")])],
    );
    let mut requalified = reading("v2");
    requalified.predicate = name("v2__reading");
    requalified.fields[1] = scalar("thermal.v2.Reading.celsius", 2, "celsius");
    requalified
        .fields
        .push(scalar("thermal.v2.Reading.humidity", 3, "humidity"));
    let mut renamed_and_preserving = level("v2", vec![value("LEVEL_LOW", 0, "low")]);
    renamed_and_preserving.predicate = name("v2__level");
    renamed_and_preserving.preserve = true;
    let new = thermal("v2", vec![requalified], vec![renamed_and_preserving]);
    let comparison = compare(&old, &new).expect("comparable");
    let [alert, reading] = comparison.packages()[0].sorts() else {
        panic!("two sorts: {comparison:?}")
    };
    assert_eq!(alert.kind(), ChangeKind::MessageRemoved);
    assert_eq!(alert.bridge(), None);
    assert_eq!(alert.fields()[0].bridge(), None);
    assert_eq!(reading.kind(), ChangeKind::SortRenamed);
    assert!(reading.bridge().is_some());
    let [sensor, celsius, humidity] = reading.fields() else {
        panic!("three fields: {reading:?}")
    };
    assert_eq!(
        (sensor.kind(), sensor.bridge()),
        (ChangeKind::Unchanged, None)
    );
    assert_eq!(celsius.kind(), ChangeKind::Renamed);
    assert!(celsius.bridge().is_some());
    assert_eq!(
        (humidity.kind(), humidity.bridge()),
        (ChangeKind::Added, None)
    );
    let level = &comparison.packages()[0].enums()[0];
    assert_eq!(
        (level.kind(), level.bridge()),
        (ChangeKind::PreserveChanged, None)
    );
    let bridged: Vec<ChangeKind> = comparison
        .changes()
        .iter()
        .filter(|change| change.bridge().is_some())
        .map(Change::kind)
        .collect();
    assert_eq!(bridged, [ChangeKind::SortRenamed, ChangeKind::Renamed]);
}

#[test]
fn every_kind_of_change_has_its_slug_and_the_baseline_has_none() {
    // The seventeen, each the variant's name in `snake_case` and no two alike; `Unchanged` is
    // no change and never a row, so it names no record.
    let table = [
        (ChangeKind::Renamed, "renamed"),
        (ChangeKind::Removed, "removed"),
        (ChangeKind::Added, "added"),
        (ChangeKind::Changed, "changed"),
        (ChangeKind::SortRenamed, "sort_renamed"),
        (ChangeKind::EnumRenamed, "enum_renamed"),
        (ChangeKind::MessageAdded, "message_added"),
        (ChangeKind::MessageRemoved, "message_removed"),
        (ChangeKind::EnumAdded, "enum_added"),
        (ChangeKind::EnumRemoved, "enum_removed"),
        (ChangeKind::ValueAdded, "value_added"),
        (ChangeKind::ValueRemoved, "value_removed"),
        (ChangeKind::ValueRenamed, "value_renamed"),
        (ChangeKind::OpennessChanged, "openness_changed"),
        (ChangeKind::PreserveChanged, "preserve_changed"),
        (ChangeKind::PackageAdded, "package_added"),
        (ChangeKind::PackageRemoved, "package_removed"),
    ];
    for (kind, slug) in table {
        assert_eq!(kind.slug(), Some(slug), "{kind:?}");
    }
    let distinct: BTreeSet<&str> = table.iter().map(|(_, slug)| *slug).collect();
    assert_eq!(distinct.len(), 17);
    assert_eq!(ChangeKind::Unchanged.slug(), None);
}


#[test]
fn a_comparison_with_no_change_serializes_to_the_empty_array() {
    let old = thermal("v1", vec![reading("v1")], vec![]);
    let new = thermal("v2", vec![reading("v2")], vec![]);
    let comparison = compare(&old, &new).expect("comparable");
    assert_eq!(comparison.to_json(), "[]");
}

#[test]
fn a_record_spells_its_keys_in_sorted_order_and_its_bridge_verbatim() {
    // One rename: the record's keys serialize in `serde_json`'s sorted order — one fixed
    // spelling whatever order they were put in — and the bridge text round-trips through
    // JSON's escaping of its newlines, so a consumer reads the rule as the renderer wrote it.
    let old = thermal("v1", vec![reading("v1")], vec![]);
    let mut renamed = reading("v2");
    renamed.fields[1] = scalar("thermal.v2.Reading.celsius", 2, "celsius");
    let new = thermal("v2", vec![renamed], vec![]);
    let comparison = compare(&old, &new).expect("comparable");
    let bridge = comparison.changes()[0].bridge().expect("bridged");
    assert!(bridge.contains('\n'));
    let text = comparison.to_json();
    assert_eq!(
        text,
        format!(
            "[{{\"breaking\":false,\"bridge\":{},\"kind\":\"renamed\",\"new\":\"celsius/2 int32 total\",\"new_path\":\"thermal.v2.Reading.celsius\",\"number\":2,\"old\":\"temp_c/2 int32 total\",\"old_path\":\"thermal.v1.Reading.temp_c\",\"package\":\"thermal\"}}]",
            serde_json::to_string(&bridge).expect("a string serializes")
        )
    );
    let parsed: serde_json::Value = serde_json::from_str(&text).expect("the changeset is JSON");
    assert_eq!(parsed[0]["bridge"], serde_json::Value::from(bridge));
}

#[test]
fn a_package_row_serializes_without_a_number_or_a_signature() {
    // `legacy.v1` is on the old side alone: its row is a `package_removed` record whose old
    // path is the package's dotted name, with no new side and no signature on either side (a
    // package has none) — the absent sides null — and neither a number nor a bridge — the
    // absent keys absent. Its sort rides beneath it as a `message_removed` record.
    let old = mapping(vec![
        unit("legacy.v1", vec![sort("legacy.v1.Old", "old", vec![])], vec![]),
        unit("thermal.v1", vec![reading("v1")], vec![]),
    ]);
    let new = thermal("v2", vec![reading("v2")], vec![]);
    let comparison = compare(&old, &new).expect("comparable");
    let json: serde_json::Value = serde_json::from_str(&comparison.to_json()).expect("JSON");
    assert_eq!(json.as_array().map(Vec::len), Some(2));
    let package = &json[0];
    assert_eq!(package["kind"], "package_removed");
    assert_eq!(package["package"], "legacy");
    assert_eq!(package["old_path"], "legacy.v1");
    assert_eq!(package["new_path"], serde_json::Value::Null);
    assert_eq!(package["old"], serde_json::Value::Null);
    assert_eq!(package["new"], serde_json::Value::Null);
    assert_eq!(package["breaking"], serde_json::Value::Bool(true));
    assert!(package.get("number").is_none(), "{package}");
    assert!(package.get("bridge").is_none(), "{package}");
    let removed = &json[1];
    assert_eq!(removed["kind"], "message_removed");
    assert_eq!(removed["old_path"], "legacy.v1.Old");
    assert_eq!(removed["old"], "old/1");
    assert!(removed.get("number").is_none(), "{removed}");
}

#[test]
fn a_mapping_compared_with_itself_has_no_changes() {
    let same = thermal(
        "v1",
        vec![reading("v1")],
        vec![level("v1", vec![value("LOW", 0, "low"), value("HIGH", 1, "high")])],
    );
    let comparison = compare(&same, &same).expect("comparable");
    assert!(comparison.changes().is_empty());
    assert!(!comparison.is_breaking());
    assert!(comparison.spellable());
    assert_eq!(comparison.to_json(), "[]");
}

#[test]
fn only_a_renamed_field_wider_than_a_ternary_family_is_unspellable() {
    let wide = |v: &str, predicate: &str| {
        let mut f = scalar(&format!("thermal.{v}.Reading.grid"), 3, predicate);
        f.arity = 4;
        f
    };
    let with = |v: &str, predicate: &str| {
        let mut s = reading(v);
        s.fields.push(wide(v, predicate));
        s
    };
    // The wide field unchanged across versions: spellable, and the comparison reads.
    let old = thermal("v1", vec![with("v1", "grid")], vec![]);
    let new = thermal("v2", vec![with("v2", "grid")], vec![]);
    let comparison = compare(&old, &new).expect("comparable");
    assert!(comparison.spellable());
    assert!(comparison.changes().is_empty());
    // The wide field renamed: its bridge would need four positions.
    let renamed = thermal("v2", vec![with("v2", "grid_cell")], vec![]);
    let comparison = compare(&old, &renamed).expect("comparable");
    assert!(!comparison.spellable());
}

#[test]
fn a_scalar_field_rename_bridges_the_base_predicate_at_its_arity() {
    // `temp_c` → `celsius` at #2 with the shape intact: one rule aliasing the old base
    // predicate to the new over positional variables, its provenance the `%!` line, and the
    // row carries the same text.
    let old = thermal("v1", vec![reading("v1")], vec![]);
    let mut renamed = reading("v2");
    renamed.fields[1] = scalar("thermal.v2.Reading.celsius", 2, "celsius");
    let new = thermal("v2", vec![renamed], vec![]);
    let comparison = compare(&old, &new).expect("comparable");
    let celsius = &comparison.packages()[0].sorts()[0].fields()[1];
    assert_eq!(celsius.kind(), ChangeKind::Renamed);
    let bridge = celsius.bridge().expect("a pure rename is bridged");
    assert_eq!(
        bridge,
        "%! temp_c/2 reads celsius/2  (inbound-facing bridge: thermal.v1.Reading.temp_c renamed thermal.v2.Reading.celsius)\ntemp_c(A, B) :- celsius(A, B).\n"
    );
    assert_eq!(comparison.changes()[0].bridge(), Some(bridge));
}

#[test]
fn a_message_sequence_field_rename_bridges_the_view_predicate_at_the_view_arity() {
    // `Batch.readings` (a sequence of `Reading`) → `samples`: the bridge aliases the view
    // predicate at the view arity, and its `%!` line says so.
    let old = thermal("v1", vec![batch_of("v1", "reading"), reading("v1")], vec![]);
    let mut renamed = batch_of("v2", "reading");
    renamed.fields[0] = field(
        "thermal.v2.Batch.samples",
        1,
        "samples",
        EmitForm::Sequence,
        message("reading"),
        Totality::Total,
    );
    let new = thermal("v2", vec![renamed, reading("v2")], vec![]);
    let comparison = compare(&old, &new).expect("comparable");
    let readings = &comparison.packages()[0].sorts()[0].fields()[0];
    assert_eq!(readings.kind(), ChangeKind::Renamed);
    assert!(
        readings
            .old_field()
            .is_some_and(|field| field.view().is_some()),
        "a message sequence field has a view"
    );
    let bridge = readings.bridge().expect("a pure rename is bridged");
    assert_eq!(
        bridge,
        "%! readings/3 reads samples/3  (inbound-facing bridge of the view: thermal.v1.Batch.readings renamed thermal.v2.Batch.samples)\nreadings(A, B, C) :- samples(A, B, C).\n"
    );
}

#[test]
fn a_sort_rename_bridges_at_arity_one() {
    // `reading/1` re-qualified to `v2__reading/1`: the bridge aliases the sort predicate at
    // arity 1, so a v1 model's `reading(E)` ranges over the v2 occupants.
    let old = thermal("v1", vec![reading("v1")], vec![]);
    let mut qualified = reading("v2");
    qualified.predicate = name("v2__reading");
    let new = thermal("v2", vec![qualified], vec![]);
    let comparison = compare(&old, &new).expect("comparable");
    let reading = &comparison.packages()[0].sorts()[0];
    assert_eq!(reading.kind(), ChangeKind::SortRenamed);
    let bridge = reading.bridge().expect("a sort rename is bridged");
    assert_eq!(
        bridge,
        "%! reading/1 reads v2__reading/1  (inbound-facing bridge: thermal.v1.Reading renamed thermal.v2.Reading)\nreading(A) :- v2__reading(A).\n"
    );
    assert_eq!(comparison.changes()[0].bridge(), Some(bridge));
}

#[test]
fn an_enum_rename_bridges_at_arity_one() {
    // `level/1` → `v2__level/1` with its openness and preserve intact: the bridge aliases the
    // value sort a model quantifies over at arity 1.
    let mut qualified = level("v2", vec![value("LEVEL_LOW", 0, "low")]);
    qualified.predicate = name("v2__level");
    let old = thermal(
        "v1",
        vec![],
        vec![level("v1", vec![value("LEVEL_LOW", 0, "low")])],
    );
    let new = thermal("v2", vec![], vec![qualified]);
    let comparison = compare(&old, &new).expect("comparable");
    let level = &comparison.packages()[0].enums()[0];
    assert_eq!(level.kind(), ChangeKind::EnumRenamed);
    let bridge = level.bridge().expect("an enum rename is bridged");
    assert_eq!(
        bridge,
        "%! level/1 reads v2__level/1  (inbound-facing bridge: thermal.v1.Level renamed thermal.v2.Level)\nlevel(A) :- v2__level(A).\n"
    );
    assert_eq!(comparison.changes()[0].bridge(), Some(bridge));
}

#[test]
fn an_enum_field_and_a_set_field_rename_bridge_their_base_predicates() {
    // An enum-typed field, and a set field of messages (which has no view), each bridge the
    // base predicate at arity 2, and neither line says `of the view`.
    let panel_at = |v: &str, predicate: &str| {
        sort(
            &format!("thermal.{v}.Panel"),
            "panel",
            vec![field(
                &format!("thermal.{v}.Panel.{predicate}"),
                1,
                predicate,
                EmitForm::Function,
                enum_value("level", false),
                Totality::Total,
            )],
        )
    };
    let batch_at = |v: &str, predicate: &str| {
        sort(
            &format!("thermal.{v}.Batch"),
            "batch",
            vec![field(
                &format!("thermal.{v}.Batch.{predicate}"),
                1,
                predicate,
                EmitForm::Membership,
                message("reading"),
                Totality::Total,
            )],
        )
    };
    let old = thermal(
        "v1",
        vec![batch_at("v1", "readings"), panel_at("v1", "level"), reading("v1")],
        vec![level("v1", vec![value("LEVEL_LOW", 0, "low")])],
    );
    let new = thermal(
        "v2",
        vec![batch_at("v2", "members"), panel_at("v2", "grade"), reading("v2")],
        vec![level("v2", vec![value("LEVEL_LOW", 0, "low")])],
    );
    let comparison = compare(&old, &new).expect("comparable");
    let sorts = comparison.packages()[0].sorts();
    assert_eq!(sorts.len(), 3, "three sorts");
    let members = &sorts[0].fields()[0];
    assert_eq!(members.kind(), ChangeKind::Renamed);
    assert!(
        members
            .old_field()
            .is_some_and(|field| field.view().is_none()),
        "a message set has no view"
    );
    assert_eq!(
        members.bridge().as_deref(),
        Some(
            "%! readings/2 reads members/2  (inbound-facing bridge: thermal.v1.Batch.readings renamed thermal.v2.Batch.members)\nreadings(A, B) :- members(A, B).\n"
        )
    );
    let grade = &sorts[1].fields()[0];
    assert_eq!(grade.kind(), ChangeKind::Renamed);
    assert_eq!(
        grade.bridge().as_deref(),
        Some(
            "%! level/2 reads grade/2  (inbound-facing bridge: thermal.v1.Panel.level renamed thermal.v2.Panel.grade)\nlevel(A, B) :- grade(A, B).\n"
        )
    );
}
