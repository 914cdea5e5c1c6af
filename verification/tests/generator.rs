//! Tests for the random JSON generator.

use rand::rngs::SmallRng;
use rand::SeedableRng;
use rekson::generator::{generate, ValueType};

#[test]
fn valid() {
    let mut random = SmallRng::from_entropy();
    let value = generate(10, 10, ValueType::Object, &mut random);
    let value = String::from_utf8(value).expect("generated bytes are ASCII");
    println!("{}", value);
    json::parse(&value).expect("valid json");
}

#[test]
fn every_kind_parses() {
    let mut random = SmallRng::from_seed([7; 32]);
    for kind in [
        ValueType::String,
        ValueType::Number,
        ValueType::Object,
        ValueType::Array,
        ValueType::Bool,
        ValueType::Null,
    ] {
        let value = generate(10, 3, kind, &mut random);
        let value = String::from_utf8(value).expect("generated bytes are ASCII");
        json::parse(&value).expect("valid json");
    }
}

#[test]
fn null_is_literal() {
    let mut random = SmallRng::from_seed([0; 32]);
    assert_eq!(generate(10, 0, ValueType::Null, &mut random), b"null");
}

#[test]
fn bool_is_literal() {
    let mut random = SmallRng::from_seed([1; 32]);
    let value = generate(10, 0, ValueType::Bool, &mut random);
    assert!(value == b"true" || value == b"false");
}

#[test]
fn number_is_decimal() {
    let mut random = SmallRng::from_seed([2; 32]);
    let value = generate(10, 0, ValueType::Number, &mut random);
    let text = String::from_utf8(value).expect("ascii");
    text.parse::<i32>().expect("a 32-bit decimal integer");
}

#[test]
fn string_is_quoted_alphanumeric() {
    let mut random = SmallRng::from_seed([3; 32]);
    let value = generate(10, 0, ValueType::String, &mut random);
    assert!(value.len() >= 2);
    assert!(value.len() <= 11);
    assert_eq!(value[0], b'"');
    assert_eq!(value[value.len() - 1], b'"');
    for c in &value[1..value.len() - 1] {
        assert!(c.is_ascii_alphanumeric());
    }
}

#[test]
fn object_size_is_bounded() {
    let mut random = SmallRng::from_seed([4; 32]);
    // With length 1 the only possible object is empty.
    assert_eq!(generate(1, 1, ValueType::Object, &mut random), b"{}");
    assert_eq!(generate(1, 1, ValueType::Array, &mut random), b"[]");
}

#[test]
fn generated_json_passes_repair_unchanged() {
    let mut random = SmallRng::from_seed([5; 32]);
    for _ in 0..20 {
        let value = generate(8, 4, ValueType::Object, &mut random);
        let repaired = rekson::pipeline::process_bytes(&value);
        assert_eq!(repaired, value);
    }
}
