use enum_rotate_gen::decl::{MemberDecl, TypeShape};
use enum_rotate_gen::errors::GenError;
use enum_rotate_gen::generate;
use enum_rotate_gen::mapping::RotationMapping;

fn member(name: &str) -> MemberDecl {
    MemberDecl { name: name.to_string(), payload_free: true }
}

fn color_shape() -> TypeShape {
    TypeShape::Enumeration { members: vec![member("Red"), member("Green"), member("Blue")] }
}

fn build(shape: &TypeShape, annotations: &[&str]) -> Result<RotationMapping, GenError> {
    let annotations: Vec<String> = annotations.iter().map(|a| a.to_string()).collect();
    generate("Color", shape, &annotations)
}

#[test]
fn declaration_order_successors() {
    let mapping = build(&color_shape(), &[]).unwrap();
    assert_eq!(mapping.successor("Red"), "Green");
    assert_eq!(mapping.successor("Green"), "Blue");
    assert_eq!(mapping.successor("Blue"), "Red");
    assert_eq!(mapping.canonical_sequence(), vec!["Red", "Green", "Blue"]);
    assert_eq!(mapping.sequence_from("Blue"), vec!["Blue", "Red", "Green"]);
}

#[test]
fn declaration_order_predecessors() {
    let mapping = build(&color_shape(), &[]).unwrap();
    assert_eq!(mapping.predecessor("Red"), "Blue");
    assert_eq!(mapping.predecessor("Green"), "Red");
    assert_eq!(mapping.predecessor("Blue"), "Green");
}

#[test]
fn annotation_overrides_declaration_order() {
    let mapping = build(&color_shape(), &["#[iteration_order(Blue, Red, Green)]"]).unwrap();
    assert_eq!(mapping.successor("Blue"), "Red");
    assert_eq!(mapping.successor("Red"), "Green");
    assert_eq!(mapping.successor("Green"), "Blue");
    assert_eq!(mapping.canonical_sequence(), vec!["Blue", "Red", "Green"]);
}

#[test]
fn successor_table_pairs_members_with_successors() {
    let mapping = build(&color_shape(), &[]).unwrap();
    let table = mapping.successor_table();
    let expected = vec![
        ("Red".to_string(), "Green".to_string()),
        ("Green".to_string(), "Blue".to_string()),
        ("Blue".to_string(), "Red".to_string()),
    ];
    assert_eq!(table, expected);
}

#[test]
fn cardinality_mismatch_is_rejected() {
    let result = build(&color_shape(), &["#[iteration_order(Red, Green)]"]);
    match result {
        Err(GenError::CardinalityMismatch { decl_name, expected, got }) => {
            assert_eq!(decl_name, "Color");
            assert_eq!(expected, 3);
            assert_eq!(got, 2);
        },
        other => panic!("expected a cardinality mismatch, got {:?}", other.err()),
    }
}

#[test]
fn empty_annotation_list_is_a_cardinality_mismatch() {
    let result = build(&color_shape(), &["#[iteration_order()]"]);
    match result {
        Err(GenError::CardinalityMismatch { expected, got, .. }) => {
            assert_eq!(expected, 3);
            assert_eq!(got, 0);
        },
        other => panic!("expected a cardinality mismatch, got {:?}", other.err()),
    }
}

#[test]
fn foreign_member_is_rejected() {
    let result = build(&color_shape(), &["#[iteration_order(Red, Green, Yellow)]"]);
    match result {
        Err(GenError::ForeignMember { decl_name, name }) => {
            assert_eq!(decl_name, "Color");
            assert_eq!(name, "Yellow");
        },
        other => panic!("expected a foreign-member error, got {:?}", other.err()),
    }
}

#[test]
fn missing_member_is_rejected() {
    let result = build(&color_shape(), &["#[iteration_order(Red, Green, Green)]"]);
    match result {
        Err(GenError::MissingMember { name, .. }) => {
            assert_eq!(name, "Blue");
        },
        other => panic!("expected a missing-member error, got {:?}", other.err()),
    }
}

#[test]
fn duplicate_annotations_are_rejected_before_semantic_checks() {
    // The second annotation is malformed and names a foreign member; the
    // duplicate-annotation error still comes first.
    let result = build(
        &color_shape(),
        &["#[iteration_order(Red, Green, Blue)]", "#[iteration_order(Yellow"],
    );
    assert!(matches!(result, Err(GenError::DuplicateAnnotation { .. })));
}

#[test]
fn member_with_payload_aborts_the_whole_declaration() {
    let shape = TypeShape::Enumeration {
        members: vec![
            member("Circle"),
            MemberDecl { name: "Shape".to_string(), payload_free: false },
            member("Square"),
        ],
    };
    let result = build(&shape, &[]);
    match result {
        Err(GenError::MemberNotPayloadFree { decl_name, member }) => {
            assert_eq!(decl_name, "Color");
            assert_eq!(member, "Shape");
        },
        other => panic!("expected a payload error, got {:?}", other.err()),
    }
}

#[test]
fn record_shape_is_rejected() {
    let result = build(&TypeShape::Record, &[]);
    assert!(matches!(result, Err(GenError::NotAnEnumeration { .. })));
}

#[test]
fn union_shape_is_rejected() {
    let result = build(&TypeShape::Union, &[]);
    assert!(matches!(result, Err(GenError::NotAnEnumeration { .. })));
}

#[test]
fn zero_member_declaration_yields_empty_sequence() {
    let shape = TypeShape::Enumeration { members: vec![] };
    let mapping = build(&shape, &[]).unwrap();
    assert_eq!(mapping.member_count(), 0);
    assert_eq!(mapping.canonical_sequence(), Vec::<String>::new());
    assert!(mapping.successor_table().is_empty());
}

#[test]
fn zero_member_declaration_accepts_empty_annotation() {
    let shape = TypeShape::Enumeration { members: vec![] };
    let mapping = build(&shape, &["#[iteration_order()]"]).unwrap();
    assert_eq!(mapping.member_count(), 0);
    assert_eq!(mapping.canonical_sequence(), Vec::<String>::new());
}

#[test]
fn single_member_maps_to_itself() {
    let shape = TypeShape::Enumeration { members: vec![member("Only")] };
    let mapping = build(&shape, &[]).unwrap();
    assert_eq!(mapping.successor("Only"), "Only");
    assert_eq!(mapping.predecessor("Only"), "Only");
    assert_eq!(mapping.canonical_sequence(), vec!["Only"]);
    assert_eq!(mapping.sequence_from("Only"), vec!["Only"]);
}
