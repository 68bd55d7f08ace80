use yi_json::lexer::{LexErrorKind, Lexer, Token};
use yi_json::json_value::JsonNumber;

#[test]
fn test_lexer_empty_input() {
    let input = "";
    let mut lexer = Lexer::new(input);

    assert_eq!(lexer.next_token(), Ok(None));
}

#[test]
fn test_json_lexer_simple() {
    let input = r#"
        {
            "name": "John",
            "age": 30,
            "is_student": false,
            "grades": [90.5, 85.2, 88.8],
            "address": {
                "city": "New York",
                "zip": "10001"
            },
            "is_null": null
        }
    "#;

    let expected_tokens = vec![
        Token::LBrace,
        Token::Str("name".to_string()),
        Token::Colon,
        Token::Str("John".to_string()),
        Token::Comma,
        Token::Str("age".to_string()),
        Token::Colon,
        Token::Number(JsonNumber::from_parts(false, "30", "", false, "").unwrap()),
        Token::Comma,
        Token::Str("is_student".to_string()),
        Token::Colon,
        Token::Bool(false),
        Token::Comma,
        Token::Str("grades".to_string()),
        Token::Colon,
        Token::LBracket,
        Token::Number(JsonNumber::from_parts(false, "90", "5", false, "").unwrap()),
        Token::Comma,
        Token::Number(JsonNumber::from_parts(false, "85", "2", false, "").unwrap()),
        Token::Comma,
        Token::Number(JsonNumber::from_parts(false, "88", "8", false, "").unwrap()),
        Token::RBracket,
        Token::Comma,
        Token::Str("address".to_string()),
        Token::Colon,
        Token::LBrace,
        Token::Str("city".to_string()),
        Token::Colon,
        Token::Str("New York".to_string()),
        Token::Comma,
        Token::Str("zip".to_string()),
        Token::Colon,
        Token::Str("10001".to_string()),
        Token::RBrace,
        Token::Comma,
        Token::Str("is_null".to_string()),
        Token::Colon,
        Token::Null,
        Token::RBrace,
    ];

    let mut lexer = Lexer::new(input);
    for expected_token in expected_tokens {
        if let Some(token) = lexer.next_token().unwrap() {
            assert_eq!(token, expected_token);
        } else {
            panic!("Expected more tokens but lexer reached the end.");
        }
    }
    assert_eq!(lexer.next_token(), Ok(None));
}

#[test]
fn escape_sequences_decode() {
    // the literal input "a\nb" holds the two characters backslash, n
    let input = "\"a\\nb\"";
    let mut lexer = Lexer::new(input);
    assert_eq!(
        lexer.next_token().unwrap(),
        Some(Token::Str("a\nb".to_string()))
    );
    assert_eq!(lexer.next_token(), Ok(None));

    let all = "\"q:\\\" b:\\b f:\\f n:\\n r:\\r t:\\t s:\\\\ sl:\\/\"";
    let mut lexer = Lexer::new(all);
    assert_eq!(
        lexer.next_token().unwrap(),
        Some(Token::Str(
            "q:\" b:\u{0008} f:\u{000c} n:\n r:\r t:\t s:\\ sl:/".to_string()
        ))
    );
}

#[test]
fn unsupported_escape_is_an_error() {
    let mut lexer = Lexer::new("\"a\\qb\"");
    let err = lexer.next_token().unwrap_err();
    assert_eq!(err.kind, LexErrorKind::UnsupportedEscape);
    assert_eq!(err.pos, 3);

    // the Unicode escape is among the unsupported ones
    let mut lexer = Lexer::new("\"a\\u0041\"");
    let err = lexer.next_token().unwrap_err();
    assert_eq!(err.kind, LexErrorKind::UnsupportedEscape);
}

#[test]
fn unterminated_string_is_an_error() {
    let mut lexer = Lexer::new("\"abc");
    let err = lexer.next_token().unwrap_err();
    assert_eq!(err.kind, LexErrorKind::UnterminatedString);
    assert_eq!(err.pos, 4);

    // a backslash just before the end of the input
    let mut lexer = Lexer::new("\"abc\\");
    let err = lexer.next_token().unwrap_err();
    assert_eq!(err.kind, LexErrorKind::UnterminatedString);
}

#[test]
fn malformed_numbers_are_errors() {
    let mut lexer = Lexer::new("+");
    assert_eq!(
        lexer.next_token().unwrap_err().kind,
        LexErrorKind::MissingIntDigits
    );

    let mut lexer = Lexer::new("-x");
    assert_eq!(
        lexer.next_token().unwrap_err().kind,
        LexErrorKind::MissingIntDigits
    );

    let mut lexer = Lexer::new("1.");
    assert_eq!(
        lexer.next_token().unwrap_err().kind,
        LexErrorKind::MissingFracDigits
    );

    let mut lexer = Lexer::new("1.e5");
    assert_eq!(
        lexer.next_token().unwrap_err().kind,
        LexErrorKind::MissingFracDigits
    );

    let mut lexer = Lexer::new("1e");
    assert_eq!(
        lexer.next_token().unwrap_err().kind,
        LexErrorKind::MissingExpDigits
    );

    let mut lexer = Lexer::new("2e+");
    assert_eq!(
        lexer.next_token().unwrap_err().kind,
        LexErrorKind::MissingExpDigits
    );
}

#[test]
fn number_forms_lex() {
    let mut lexer = Lexer::new("-12.50e-3");
    assert_eq!(
        lexer.next_token().unwrap(),
        Some(Token::Number(
            JsonNumber::from_parts(true, "12", "50", true, "3").unwrap()
        ))
    );

    // a leading plus sign is consumed and not recorded
    let mut lexer = Lexer::new("+7");
    assert_eq!(
        lexer.next_token().unwrap(),
        Some(Token::Number(
            JsonNumber::from_parts(false, "7", "", false, "").unwrap()
        ))
    );

    // an exponent plus sign is consumed and not recorded
    let mut lexer = Lexer::new("7E+2");
    assert_eq!(
        lexer.next_token().unwrap(),
        Some(Token::Number(
            JsonNumber::from_parts(false, "7", "", false, "2").unwrap()
        ))
    );
}

#[test]
fn keywords_and_unknown_words() {
    let mut lexer = Lexer::new("true false null truex nope");
    assert_eq!(lexer.next_token().unwrap(), Some(Token::Bool(true)));
    assert_eq!(lexer.next_token().unwrap(), Some(Token::Bool(false)));
    assert_eq!(lexer.next_token().unwrap(), Some(Token::Null));
    assert_eq!(
        lexer.next_token().unwrap(),
        Some(Token::Unknown("truex".to_string()))
    );
    assert_eq!(
        lexer.next_token().unwrap(),
        Some(Token::Unknown("nope".to_string()))
    );
    assert_eq!(lexer.next_token(), Ok(None));
}

#[test]
fn unknown_single_characters() {
    let mut lexer = Lexer::new("@ ;");
    assert_eq!(
        lexer.next_token().unwrap(),
        Some(Token::Unknown("@".to_string()))
    );
    assert_eq!(
        lexer.next_token().unwrap(),
        Some(Token::Unknown(";".to_string()))
    );
    assert_eq!(lexer.next_token(), Ok(None));
}

#[test]
fn token_stream_idempotence_sample() {
    // lex an input, write each token back in its canonical text separated
    // by spaces, and lex that text: the same token stream comes out
    let input = "[1, \"a b\", true, null, {\"k\": -2.5e1}]";
    let mut lexer = Lexer::new(input);
    let mut tokens: Vec<Token> = Vec::new();
    while let Some(t) = lexer.next_token().unwrap() {
        tokens.push(t);
    }
    let canonical = "[ 1 , \"a b\" , true , null , { \"k\" : -2.5e1 } ]";
    let mut relexer = Lexer::new(canonical);
    let mut relexed: Vec<Token> = Vec::new();
    while let Some(t) = relexer.next_token().unwrap() {
        relexed.push(t);
    }
    assert_eq!(tokens, relexed);
}
