use joinkit::key::DataType;
use joinkit::numbers::{parse_i64, parse_u64, parse_usize, u64_to_string};
use joinkit::plan::{fields_to_idx, plan_to_fields, ConfigError};

#[test]
fn fields_to_idx_sorts_and_remembers_positions() {
    let field_vec = vec!["1", "3-i", "6-u", "4"];
    let field_idx = fields_to_idx(field_vec).unwrap();

    assert_eq!(
        vec![
            (0, 0, DataType::S),
            (2, 1, DataType::I),
            (3, 3, DataType::S),
            (5, 2, DataType::U),
        ],
        field_idx
    );
}

#[test]
fn plan_parse_then_serialize_is_identity() {
    let field_vec = vec!["1", "3-i", "6-u", "4"];
    let plan = fields_to_idx(field_vec.clone()).unwrap();
    let rendered = plan_to_fields(&plan);
    assert_eq!(rendered, field_vec);
}

#[test]
fn fields_to_idx_rejects_bad_index() {
    assert_eq!(fields_to_idx(vec!["x"]), Err(ConfigError::InvalidFieldIndex));
    assert_eq!(fields_to_idx(vec!["0"]), Err(ConfigError::InvalidFieldIndex));
    assert_eq!(fields_to_idx(vec!["1", ""]), Err(ConfigError::InvalidFieldIndex));
}

#[test]
fn fields_to_idx_rejects_bad_tag() {
    assert_eq!(fields_to_idx(vec!["1-z"]), Err(ConfigError::InvalidDataType));
    assert_eq!(fields_to_idx(vec!["2-"]), Err(ConfigError::InvalidDataType));
}

#[test]
fn fields_to_idx_rejects_empty_list() {
    assert_eq!(fields_to_idx(vec![]), Err(ConfigError::EmptyFieldList));
}

#[test]
fn fields_to_idx_rejects_duplicates() {
    assert_eq!(fields_to_idx(vec!["1", "1"]), Err(ConfigError::DuplicateField));
    assert_eq!(fields_to_idx(vec!["2-u", "3", "2-i"]), Err(ConfigError::DuplicateField));
}

#[test]
fn parse_u64_accepts_plain_and_signed_digits() {
    assert_eq!(parse_u64("0"), Some(0));
    assert_eq!(parse_u64("+5"), Some(5));
    assert_eq!(parse_u64("18446744073709551615"), Some(u64::MAX));
    assert_eq!(parse_u64("18446744073709551616"), None);
    assert_eq!(parse_u64(""), None);
    assert_eq!(parse_u64("12a"), None);
    assert_eq!(parse_u64("-3"), None);
}

#[test]
fn parse_i64_covers_the_signed_range() {
    assert_eq!(parse_i64("-9223372036854775808"), Some(i64::MIN));
    assert_eq!(parse_i64("9223372036854775807"), Some(i64::MAX));
    assert_eq!(parse_i64("9223372036854775808"), None);
    assert_eq!(parse_i64("-9223372036854775809"), None);
    assert_eq!(parse_i64("+7"), Some(7));
    assert_eq!(parse_i64("-0"), Some(0));
    assert_eq!(parse_i64("--1"), None);
}

#[test]
fn parse_usize_matches_u64_within_range() {
    assert_eq!(parse_usize("42"), Some(42));
    assert_eq!(parse_usize(""), None);
}

#[test]
fn u64_to_string_renders_decimal() {
    assert_eq!(u64_to_string(0), "0");
    assert_eq!(u64_to_string(7), "7");
    assert_eq!(u64_to_string(12345), "12345");
    assert_eq!(u64_to_string(u64::MAX), "18446744073709551615");
}
