use joinkit::extract::{extract_key, extract_key_value};
use joinkit::key::{DataType, VarData};
use joinkit::output::{write_both, write_left, write_right};
use joinkit::plan::{rec_sep_as_byte, ConfigError};
use joinkit::tokenize::{num_fields, split_record};

#[test]
fn extract_key_single_eq() {
    let rec0 = "20;a;b";
    let rec1 = "20;a;b";
    let key_idx = [(0, 0, DataType::U)];
    let k0 = extract_key(rec0, ";", &key_idx);
    let k1 = extract_key(rec1, ";", &key_idx);

    assert_eq!(k0, k1);
}

#[test]
fn extract_key_single_ne() {
    let rec0 = "20;a;b";
    let rec1 = "2;a;b";
    let key_idx = [(0, 0, DataType::U)];
    let k0 = extract_key(rec0, ";", &key_idx);
    let k1 = extract_key(rec1, ";", &key_idx);

    assert!(k0 > k1);
}

#[test]
fn extract_key_multiple_eq() {
    let rec0 = "20;a;b";
    let rec1 = "20;a;b";
    let key_idx = [(0, 1, DataType::U), (2, 0, DataType::S)];
    let k0 = extract_key(rec0, ";", &key_idx);
    let k1 = extract_key(rec1, ";", &key_idx);

    assert_eq!(k0, k1);
}

#[test]
fn extract_key_multiple_ne() {
    let rec0 = "20;a;b";
    let rec1 = "2;a;b";
    let key_idx = [(0, 1, DataType::U), (2, 0, DataType::S)];
    let k0 = extract_key(rec0, ";", &key_idx);
    let k1 = extract_key(rec1, ";", &key_idx);

    assert!(k0 > k1);
}

#[test]
fn extract_key_permutes_positions() {
    let rec = "a;b;1";
    let field_sep = ";";
    let key_idx = [(0, 1, DataType::S), (2, 0, DataType::I)];
    let key = extract_key(rec, field_sep, &key_idx);
    assert_eq!(vec![VarData::I(1), VarData::S("a".to_string())], key);
}

#[test]
fn extract_key_value_returns_record() {
    let key_idx = [(0, 1, DataType::S), (2, 0, DataType::I)];
    let (key, rec) = extract_key_value("a;b;1".to_string(), ";", &key_idx);
    assert_eq!(vec![VarData::I(1), VarData::S("a".to_string())], key);
    assert_eq!("a;b;1", rec);
}

#[test]
fn num_fields_counts_tokens() {
    assert_eq!(4, num_fields("a;b;c;d", ";"));
    assert_eq!(1, num_fields("", ";"));
    assert_eq!(2, num_fields("a;", ";"));
    assert_eq!(2, num_fields("x,y", ","));
}

#[test]
fn split_overlapping_separator() {
    let parts = split_record("aaa", "aa");
    assert_eq!(parts, vec!["".to_string(), "a".to_string()]);
}

#[test]
fn split_multibyte_content_single_byte_separator() {
    let parts = split_record("héllo;wörld", ";");
    assert_eq!(parts, vec!["héllo".to_string(), "wörld".to_string()]);
}

#[test]
fn write_both_joins_with_separators() {
    let mut out = String::new();
    write_both(&mut out, "a,b", "x,y,z", ",", "\n");
    assert_eq!(out, "a,b,x,y,z\n");
}

#[test]
fn write_padding_full_outer() {
    // Left-only line: the record, then one comma per right field.
    let right_arity = num_fields("p,q,r", ",");
    assert_eq!(right_arity, 3);
    let mut left_line = String::new();
    write_left(&mut left_line, "x,y", right_arity, ",", "\n");
    assert_eq!(left_line, "x,y,,,\n");

    // Right-only line: one comma per left field, then the record.
    let left_arity = num_fields("x,y", ",");
    assert_eq!(left_arity, 2);
    let mut right_line = String::new();
    write_right(&mut right_line, "p,q,r", left_arity, ",", "\n");
    assert_eq!(right_line, ",,p,q,r\n");
}

#[test]
fn rec_sep_single_byte() {
    assert_eq!(rec_sep_as_byte("\n"), Ok(b'\n'));
    assert_eq!(rec_sep_as_byte(";"), Ok(b';'));
    assert_eq!(rec_sep_as_byte("ab"), Err(ConfigError::SeparatorNotSingleByte));
    assert_eq!(rec_sep_as_byte(""), Err(ConfigError::SeparatorNotSingleByte));
    assert_eq!(rec_sep_as_byte("é"), Err(ConfigError::SeparatorNotSingleByte));
}
