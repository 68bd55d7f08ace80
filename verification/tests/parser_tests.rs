use yi_json::JsonValue;
use yi_json::json_value::JsonNumber;
use yi_json::lexer::{LexErrorKind, Lexer};
use yi_json::parser::{JsonParser, ParseError};

fn num(v: u32) -> JsonValue {
    JsonValue::Number(JsonNumber::from_u32(v))
}

#[test]
fn test_parse_simple_object() {
    let json_str = r#"
        {
            "name": "John Doe",
            "age": 30,
            "is_student": false
        }
    "#;
    let mut parser = JsonParser::new(json_str);
    let json_value = parser.parse().unwrap();

    assert_eq!(
        json_value,
        JsonValue::Object(vec![
            (
                "name".to_string(),
                JsonValue::String("John Doe".to_string())
            ),
            ("age".to_string(), num(30)),
            ("is_student".to_string(), JsonValue::Bool(false)),
        ])
    );
}

#[test]
fn test_parse_array() {
    let json_str = "[1, 2, 3, 4, 5]";
    let mut parser = JsonParser::new(json_str);
    let json_value = parser.parse().unwrap();

    assert_eq!(
        json_value,
        JsonValue::Array(vec![num(1), num(2), num(3), num(4), num(5),])
    );
}

#[test]
fn test_parse_nested_object_and_array() {
    let json_str = r#"
        {
            "name": "John Doe",
            "age": 30,
            "is_student": false,
            "grades": [90, 85, 92],
            "info": {
                "city": "New York",
                "country": "USA"
            }
        }
    "#;
    let mut parser = JsonParser::new(json_str);
    let json_value = parser.parse().unwrap();

    assert_eq!(
        json_value,
        JsonValue::Object(vec![
            (
                "name".to_string(),
                JsonValue::String("John Doe".to_string())
            ),
            ("age".to_string(), num(30)),
            ("is_student".to_string(), JsonValue::Bool(false)),
            (
                "grades".to_string(),
                JsonValue::Array(vec![num(90), num(85), num(92)])
            ),
            (
                "info".to_string(),
                JsonValue::Object(vec![
                    (
                        "city".to_string(),
                        JsonValue::String("New York".to_string())
                    ),
                    ("country".to_string(), JsonValue::String("USA".to_string())),
                ])
            ),
        ])
    );
}

#[test]
fn test_parse_boolean_and_null() {
    let json_str = r#"
        {
            "is_true": true,
            "is_false": false,
            "is_null": null
        }
    "#;
    let mut parser = JsonParser::new(json_str);
    let json_value = parser.parse().unwrap();

    assert_eq!(
        json_value,
        JsonValue::Object(vec![
            ("is_true".to_string(), JsonValue::Bool(true)),
            ("is_false".to_string(), JsonValue::Bool(false)),
            ("is_null".to_string(), JsonValue::Null),
        ])
    );
}

#[test]
fn test_parse_complex_json() {
    let json_str = r#"
        {
            "name": "John Doe",
            "age": 30,
            "is_student": false,
            "grades": [90, 85, 92],
            "info": {
                "city": "New York",
                "country": "USA"
            },
            "courses": [
                {
                    "title": "Math",
                    "credits": 3
                },
                {
                    "title": "History",
                    "credits": 4
                }
            ]
        }
    "#;
    let mut parser = JsonParser::new(json_str);
    let json_value = parser.parse().unwrap();

    assert_eq!(
        json_value,
        JsonValue::Object(vec![
            (
                "name".to_string(),
                JsonValue::String("John Doe".to_string())
            ),
            ("age".to_string(), num(30)),
            ("is_student".to_string(), JsonValue::Bool(false)),
            (
                "grades".to_string(),
                JsonValue::Array(vec![num(90), num(85), num(92)])
            ),
            (
                "info".to_string(),
                JsonValue::Object(vec![
                    (
                        "city".to_string(),
                        JsonValue::String("New York".to_string())
                    ),
                    ("country".to_string(), JsonValue::String("USA".to_string())),
                ])
            ),
            (
                "courses".to_string(),
                JsonValue::Array(vec![
                    JsonValue::Object(vec![
                        ("title".to_string(), JsonValue::String("Math".to_string())),
                        ("credits".to_string(), num(3)),
                    ]),
                    JsonValue::Object(vec![
                        (
                            "title".to_string(),
                            JsonValue::String("History".to_string())
                        ),
                        ("credits".to_string(), num(4)),
                    ]),
                ])
            ),
        ])
    );
}

#[test]
fn empty_containers_parse() {
    let mut parser = JsonParser::new("{}");
    assert_eq!(parser.parse().unwrap(), JsonValue::Object(vec![]));

    let mut parser = JsonParser::new("[]");
    assert_eq!(parser.parse().unwrap(), JsonValue::Array(vec![]));
}

#[test]
fn nested_structure_example() {
    let mut parser = JsonParser::new("{\"a\":[1,2,{\"b\":true}]}");
    assert_eq!(
        parser.parse().unwrap(),
        JsonValue::Object(vec![(
            "a".to_string(),
            JsonValue::Array(vec![
                num(1),
                num(2),
                JsonValue::Object(vec![("b".to_string(), JsonValue::Bool(true))]),
            ])
        )])
    );
}

#[test]
fn trailing_comma_is_rejected() {
    let mut parser = JsonParser::new("[1,2,]");
    assert_eq!(parser.parse(), Err(ParseError::ExpectedValue));

    let mut parser = JsonParser::new("{\"a\":1,}");
    assert_eq!(parser.parse(), Err(ParseError::ExpectedValue));
}

#[test]
fn structural_errors() {
    // missing comma between elements
    let mut parser = JsonParser::new("[1 2]");
    assert_eq!(parser.parse(), Err(ParseError::ExpectedComma));

    // missing comma between members
    let mut parser = JsonParser::new("{\"a\":1 \"b\":2}");
    assert_eq!(parser.parse(), Err(ParseError::ExpectedComma));

    // missing colon after a key
    let mut parser = JsonParser::new("{\"a\" 1}");
    assert_eq!(parser.parse(), Err(ParseError::ExpectedColon));

    // a non-string key
    let mut parser = JsonParser::new("{1:2}");
    assert_eq!(parser.parse(), Err(ParseError::ExpectedKey));

    // unterminated containers
    let mut parser = JsonParser::new("[1,2");
    assert_eq!(parser.parse(), Err(ParseError::UnexpectedEnd));
    let mut parser = JsonParser::new("{\"a\":1");
    assert_eq!(parser.parse(), Err(ParseError::UnexpectedEnd));

    // nothing at all where a value is expected
    let mut parser = JsonParser::new("   ");
    assert_eq!(parser.parse(), Err(ParseError::UnexpectedEnd));

    // a bare comma cannot start a value
    let mut parser = JsonParser::new(",");
    assert_eq!(parser.parse(), Err(ParseError::ExpectedValue));

    // an unrecognized word cannot start a value
    let mut parser = JsonParser::new("nil");
    assert_eq!(parser.parse(), Err(ParseError::ExpectedValue));
}

#[test]
fn lexical_errors_propagate() {
    let mut parser = JsonParser::new("[\"abc]");
    match parser.parse() {
        Err(ParseError::Lex(e)) => assert_eq!(e.kind, LexErrorKind::UnterminatedString),
        other => panic!("expected a lexical error, got {:?}", other),
    }

    let mut parser = JsonParser::new("[1.]");
    match parser.parse() {
        Err(ParseError::Lex(e)) => assert_eq!(e.kind, LexErrorKind::MissingFracDigits),
        other => panic!("expected a lexical error, got {:?}", other),
    }
}

#[test]
fn parser_from_lexer() {
    let lexer = Lexer::new("[true]");
    let mut parser = JsonParser::from_lexer(lexer);
    assert_eq!(
        parser.parse().unwrap(),
        JsonValue::Array(vec![JsonValue::Bool(true)])
    );
}

#[test]
fn lookup_on_parsed_object() {
    let mut parser = JsonParser::new("{\"a\":1,\"a\":2,\"b\":3}");
    let v = parser.parse().unwrap();
    // first match wins on duplicate keys
    assert_eq!(v.get("a"), Some(&num(1)));
    assert_eq!(v.get("b"), Some(&num(3)));
    assert_eq!(v.get("c"), None);
    // key lookup on anything but an Object yields nothing
    assert_eq!(num(1).get("a"), None);

    let mut parser = JsonParser::new("[10, 20]");
    let arr = parser.parse().unwrap();
    assert_eq!(arr.get_arr(0), Some(&num(10)));
    assert_eq!(arr.get_arr(1), Some(&num(20)));
    assert_eq!(arr.get_arr(2), None);
    // index lookup on anything but an Array yields nothing
    assert_eq!(num(1).get_arr(0), None);

    let empty = JsonValue::new_obj();
    assert_eq!(empty, JsonValue::Object(vec![]));
    assert_eq!(empty.get("a"), None);
}
