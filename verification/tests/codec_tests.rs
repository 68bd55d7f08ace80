use yi_json::{JsonSerializable, JsonDeserializable, JsonValue};
use yi_json::json_value::JsonNumber;
use yi_json::parser::JsonParser;
use yi_json::record::Person;

#[test]
fn test_to_json() {
    let person = Person {
        name: "John".to_string(),
        age: 25,
        is_student: true,
    };

    let expected_json = JsonValue::Object(vec![
        ("name".to_string(), JsonValue::String("John".to_string())),
        ("age".to_string(), JsonValue::Number(JsonNumber::from_u32(25))),
        ("is_student".to_string(), JsonValue::Bool(true)),
    ]);

    assert_eq!(person.to_json(), expected_json);
}

#[test]
fn test_from_json() {
    let json_value = JsonValue::Object(vec![
        ("name".to_string(), JsonValue::String("Jane".to_string())),
        ("age".to_string(), JsonValue::Number(JsonNumber::from_u32(30))),
        ("is_student".to_string(), JsonValue::Bool(false)),
    ]);

    let expected_person = Person {
        name: "Jane".to_string(),
        age: 30,
        is_student: false,
    };

    assert_eq!(Person::from_json(&json_value), Some(expected_person));
}

#[test]
fn record_round_trip() {
    let person = Person {
        name: "Ada".to_string(),
        age: 36,
        is_student: false,
    };
    assert_eq!(Person::from_json(&person.to_json()), Some(person));
}

#[test]
fn missing_key_fails_deserialization() {
    // a required field absent: failure, not a zero-filled record
    let mut parser = JsonParser::new("{\"name\":\"x\"}");
    let v = parser.parse().unwrap();
    assert_eq!(Person::from_json(&v), None);
}

#[test]
fn wrong_variant_fails_deserialization() {
    assert_eq!(String::from_json(&JsonValue::Bool(true)), None);
    assert_eq!(u32::from_json(&JsonValue::String("5".to_string())), None);
    assert_eq!(bool::from_json(&JsonValue::Null), None);
    let mut parser = JsonParser::new("{\"name\":\"x\",\"age\":\"old\",\"is_student\":true}");
    let v = parser.parse().unwrap();
    assert_eq!(Person::from_json(&v), None);
}

#[test]
fn primitive_codecs() {
    assert_eq!(
        "hi".to_string().to_json(),
        JsonValue::String("hi".to_string())
    );
    assert_eq!(
        String::from_json(&JsonValue::String("hi".to_string())),
        Some("hi".to_string())
    );
    assert_eq!(true.to_json(), JsonValue::Bool(true));
    assert_eq!(bool::from_json(&JsonValue::Bool(false)), Some(false));
    assert_eq!(
        7u32.to_json(),
        JsonValue::Number(JsonNumber::from_parts(false, "7", "", false, "").unwrap())
    );
    assert_eq!(u32::from_json(&7u32.to_json()), Some(7));
    assert_eq!(u32::from_json(&0u32.to_json()), Some(0));
    assert_eq!(u32::from_json(&4294967295u32.to_json()), Some(4294967295));
}

fn parse_one(text: &str) -> JsonValue {
    JsonParser::new(text).parse().unwrap()
}

#[test]
fn lossy_cast_policy() {
    // the fraction is dropped, not rounded
    assert_eq!(u32::from_json(&parse_one("3.7")), Some(3));
    assert_eq!(u32::from_json(&parse_one("0.9")), Some(0));
    // negative values give zero
    assert_eq!(u32::from_json(&parse_one("-5")), Some(0));
    assert_eq!(u32::from_json(&parse_one("-0.5")), Some(0));
    // exponents are applied before truncating
    assert_eq!(u32::from_json(&parse_one("12e2")), Some(1200));
    assert_eq!(u32::from_json(&parse_one("1.25e2")), Some(125));
    assert_eq!(u32::from_json(&parse_one("5e-1")), Some(0));
    assert_eq!(u32::from_json(&parse_one("250e-1")), Some(25));
    // magnitudes past u32::MAX saturate
    assert_eq!(u32::from_json(&parse_one("4294967296")), Some(u32::MAX));
    assert_eq!(u32::from_json(&parse_one("1e10")), Some(u32::MAX));
    assert_eq!(u32::from_json(&parse_one("1e99999999999999999999")), Some(u32::MAX));
    assert_eq!(u32::from_json(&parse_one("0e99999999999999999999")), Some(0));
    assert_eq!(u32::from_json(&parse_one("1e-99999999999999999999")), Some(0));
    // exactly at the boundary
    assert_eq!(u32::from_json(&parse_one("4294967295")), Some(u32::MAX));
    assert_eq!(u32::from_json(&parse_one("42949672.95e2")), Some(u32::MAX));
}
