use keryx_core::descriptor::model::{FieldShape, FqName, MapKey, Package, Presence, Scalar, ValueType};

#[test]
fn fq_name_round_trips_its_text() {
    assert_eq!(FqName::new("x").as_str(), "x");
}

#[test]
fn singular_shape_carries_its_presence() {
    let shape = FieldShape::Singular {
        value: ValueType::Scalar(Scalar::Bool),
        presence: Presence::Explicit,
    };
    match shape {
        FieldShape::Singular { presence, .. } => assert_eq!(presence, Presence::Explicit),
        FieldShape::Repeated { .. } | FieldShape::Mapped { .. } => {
            panic!("expected a singular shape")
        }
    }
}

#[test]
fn map_key_widens_to_its_scalar() {
    assert_eq!(Scalar::from_key(MapKey::Int64), Scalar::Int64);
}

#[test]
fn a_package_is_dotted_identifiers_or_empty() {
    assert_eq!(Package::parse("thermal.v1").expect("valid").as_str(), "thermal.v1");
    assert!(Package::parse("").expect("the empty package").is_empty());
    let problem = Package::parse(".thermal").expect_err("a leading dot");
    assert_eq!(
        problem.detail(),
        "package name segment \"\" is not a proto identifier"
    );
    assert!(Package::parse("a.1b").is_err());
    let deep = vec!["a"; 65].join(".");
    assert_eq!(
        Package::parse(&deep).expect_err("too deep").detail(),
        "package has 65 dot-separated segments, beyond keryx's limit of 64"
    );
    assert!(Package::parse(&vec!["a"; 64].join(".")).is_ok());
}

#[test]
fn a_bad_package_segment_is_named_in_debug_quotes() {
    let problem = keryx_core::descriptor::model::Package::parse("a.x\"y").expect_err("not an identifier");
    assert_eq!(problem.detail(), "package name segment \"x\\\"y\" is not a proto identifier");
}
