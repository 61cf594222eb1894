use enum_rotate_gen::annot::parse_annotation;
use enum_rotate_gen::errors::GenError;

#[test]
fn plain_annotation_parses() {
    let names = parse_annotation("#[iteration_order(Blue, Red, Green)]").unwrap();
    assert_eq!(names, vec!["Blue", "Red", "Green"]);
}

#[test]
fn empty_list_parses() {
    let names = parse_annotation("#[iteration_order()]").unwrap();
    assert_eq!(names, Vec::<String>::new());
}

#[test]
fn trailing_comma_is_permitted() {
    let names = parse_annotation("#[iteration_order(A, B,)]").unwrap();
    assert_eq!(names, vec!["A", "B"]);
}

#[test]
fn whitespace_between_tokens_is_permitted() {
    let names = parse_annotation("  # [ iteration_order ( A ,\n\tB2 ) ] ").unwrap();
    assert_eq!(names, vec!["A", "B2"]);
}

#[test]
fn single_identifier_parses() {
    let names = parse_annotation("#[iteration_order(_under_score1)]").unwrap();
    assert_eq!(names, vec!["_under_score1"]);
}

#[test]
fn missing_comma_is_reported_at_the_token() {
    let result = parse_annotation("#[iteration_order(Red Green)]");
    match result {
        Err(GenError::ExpectedComma { at }) => assert_eq!(at, 22),
        other => panic!("expected a missing-comma error, got {:?}", other),
    }
}

#[test]
fn bad_token_in_list_is_reported_at_the_token() {
    let result = parse_annotation("#[iteration_order(A,,B)]");
    match result {
        Err(GenError::ExpectedIdentifier { at }) => assert_eq!(at, 20),
        other => panic!("expected a bad-token error, got {:?}", other),
    }
}

#[test]
fn number_where_identifier_expected_is_rejected() {
    let result = parse_annotation("#[iteration_order(1up)]");
    assert!(matches!(result, Err(GenError::ExpectedIdentifier { at: 18 })));
}

#[test]
fn unclosed_list_is_rejected() {
    let result = parse_annotation("#[iteration_order(A, B");
    assert!(matches!(result, Err(GenError::ExpectedComma { .. })));
}

#[test]
fn wrong_marker_name_is_rejected() {
    let result = parse_annotation("#[iteration_disorder(A)]");
    assert!(matches!(result, Err(GenError::MalformedAnnotation { at: 2 })));
}

#[test]
fn missing_frame_is_rejected() {
    let result = parse_annotation("iteration_order(A)");
    assert!(matches!(result, Err(GenError::MalformedAnnotation { at: 0 })));
}

#[test]
fn trailing_text_after_close_is_rejected() {
    let result = parse_annotation("#[iteration_order(A)] more");
    assert!(matches!(result, Err(GenError::MalformedAnnotation { at: 22 })));
}
