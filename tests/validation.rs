use torm::{Error, ValidationError, ValidationErrors, Validators};

fn message(r: torm::Result<()>) -> String {
    match r {
        Err(Error::Validation(m)) => m,
        other => panic!("expected a validation error, got {:?}", other),
    }
}

#[test]
fn it_works() {
    assert_eq!(2 + 2, 4);
}

#[test]
fn test_min_validator() {
    assert!(Validators::min(&10, 5).is_ok());
    assert!(Validators::min(&3, 5).is_err());
}

#[test]
fn test_max_validator() {
    assert!(Validators::max(&5, 10).is_ok());
    assert!(Validators::max(&15, 10).is_err());
}

#[test]
fn test_min_length() {
    assert!(Validators::min_length("hello", 3).is_ok());
    assert!(Validators::min_length("hi", 3).is_err());
}

#[test]
fn test_max_length() {
    assert!(Validators::max_length("hello", 10).is_ok());
    assert!(Validators::max_length("hello world", 5).is_err());
}

#[test]
fn test_email() {
    assert!(Validators::email("test@example.com").is_ok());
    assert!(Validators::email("invalid-email").is_err());
    assert!(Validators::email("@example.com").is_err());
}

#[test]
fn test_url() {
    assert!(Validators::url("http://example.com").is_ok());
    assert!(Validators::url("https://example.com").is_ok());
    assert!(Validators::url("ftp://example.com").is_err());
    assert!(Validators::url("example.com").is_err());
}

#[test]
fn test_required() {
    assert!(Validators::required("hello").is_ok());
    assert!(Validators::required("").is_err());
}

#[test]
fn test_range() {
    assert!(Validators::range(&5, 1, 10).is_ok());
    assert!(Validators::range(&0, 1, 10).is_err());
    assert!(Validators::range(&11, 1, 10).is_err());
}

#[test]
fn test_validation_errors() {
    let mut errors = ValidationErrors::new();
    assert!(errors.is_empty());

    errors.add("name", "Name is required");
    errors.add("age", "Age must be >= 18");
    assert!(!errors.is_empty());
    assert_eq!(errors.errors().len(), 2);

    let result = errors.into_result();
    assert!(result.is_err());
}

#[test]
fn validation_errors_join_each_field_and_message() {
    let mut errors = ValidationErrors::default();
    errors.add("name", "Name is required");
    errors.add("age", "Age must be >= 18");
    assert_eq!(
        message(errors.into_result()),
        "name: Name is required, age: Age must be >= 18"
    );
}

#[test]
fn empty_validation_errors_give_ok() {
    assert!(ValidationErrors::new().into_result().is_ok());
}

#[test]
fn validation_error_keeps_field_and_message() {
    let e = ValidationError::new("email", "Invalid email format");
    assert_eq!(e.field, "email");
    assert_eq!(e.message, "Invalid email format");
}

#[test]
fn bound_messages_name_the_bound() {
    assert_eq!(message(Validators::min(&3, 5)), "Value must be >= 5");
    assert_eq!(message(Validators::max(&-3, -10)), "Value must be <= -10");
    assert_eq!(message(Validators::min(&i64::MIN, -9223372036854775807)), "Value must be >= -9223372036854775807");
    assert_eq!(
        message(Validators::min_length("hi", 3)),
        "String length must be >= 3 characters"
    );
    assert_eq!(
        message(Validators::max_length("hello world", 5)),
        "String length must be <= 5 characters"
    );
}

#[test]
fn bounds_are_inclusive() {
    assert!(Validators::min(&5, 5).is_ok());
    assert!(Validators::max(&5, 5).is_ok());
    assert!(Validators::range(&1, 1, 10).is_ok());
    assert!(Validators::range(&10, 1, 10).is_ok());
    assert!(Validators::length_range("abc", 3, 3).is_ok());
}

#[test]
fn range_reports_the_bound_that_failed() {
    assert_eq!(message(Validators::range(&0, 1, 10)), "Value must be >= 1");
    assert_eq!(message(Validators::range(&11, 1, 10)), "Value must be <= 10");
    assert_eq!(
        message(Validators::length_range("ab", 3, 5)),
        "String length must be >= 3 characters"
    );
    assert_eq!(
        message(Validators::length_range("abcdef", 3, 5)),
        "String length must be <= 5 characters"
    );
}

#[test]
fn lengths_count_bytes() {
    assert!(Validators::max_length("é", 1).is_err());
    assert!(Validators::min_length("é", 2).is_ok());
}

#[test]
fn required_option_wants_a_value() {
    assert!(Validators::required_option(&Some(3)).is_ok());
    assert_eq!(message(Validators::required_option::<i32>(&None)), "Field is required");
    assert_eq!(message(Validators::required("")), "Field is required");
}

#[test]
fn url_messages_and_prefixes() {
    assert_eq!(
        message(Validators::url("http:/x")),
        "Invalid URL format (must start with http:// or https://)"
    );
    assert!(Validators::url("http://").is_ok());
    assert!(Validators::url("HTTP://example.com").is_err());
}

#[test]
fn email_rejects_short_top_level_part() {
    assert!(Validators::email("a@b.c").is_err());
    assert!(Validators::email("first.last+tag@mail.example.org").is_ok());
    assert_eq!(message(Validators::email("nope")), "Invalid email format");
}

#[test]
fn pattern_matches_anywhere_unless_anchored() {
    assert!(Validators::pattern("abc123", "[0-9]+").is_ok());
    assert!(Validators::pattern("abc", "^[0-9]+$").is_err());
    assert_eq!(
        message(Validators::pattern("abc", "^[0-9]+$")),
        "Value does not match pattern: ^[0-9]+$"
    );
}

#[test]
fn bad_pattern_is_a_validation_error() {
    let m = message(Validators::pattern("abc", "(unclosed"));
    assert!(m.starts_with("Invalid regex pattern: "));
}
