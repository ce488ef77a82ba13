use json_shape::describe::{describe, DescribeError};
use json_shape::lexer::LexError;
use json_shape::parser::{parse_tokens, ParseError};
use json_shape::schema::Value;
use json_shape::token::Token;

fn schema_of(text: &str) -> Result<Value, DescribeError> {
    describe(&text.as_bytes().to_vec())
}

fn sorted_examples(ex: &[String]) -> Vec<String> {
    let mut v = ex.to_vec();
    v.sort();
    v
}

fn field<'a>(fields: &'a [(String, Vec<Value>, bool)], key: &str) -> &'a (String, Vec<Value>, bool) {
    fields.iter().find(|f| f.0 == key).expect("field present")
}

#[test]
fn empty_object_has_no_fields() {
    match schema_of("{}") {
        Ok(Value::Object(fields)) => assert!(fields.is_empty()),
        other => panic!("unexpected: {:?}", other),
    }
}

#[test]
fn empty_array_has_zero_length() {
    match schema_of("[]") {
        Ok(Value::Array(alts, lo, hi)) => {
            assert!(alts.is_empty());
            assert_eq!((lo, hi), (0, 0));
        }
        other => panic!("unexpected: {:?}", other),
    }
}

#[test]
fn mixed_array_groups_by_kind() {
    match schema_of("[1, \"a\", 2, \"a\", true, null]") {
        Ok(Value::Array(alts, lo, hi)) => {
            assert_eq!((lo, hi), (6, 6));
            assert_eq!(alts.len(), 4);
            let mut alts = alts;
            alts.sort_by_key(|v| v.sort_key());
            assert!(matches!(alts[0], Value::Null));
            assert!(matches!(alts[1], Value::Boolean));
            match &alts[2] {
                Value::Number(ex, more) => {
                    assert_eq!(sorted_examples(ex), vec!["1".to_string(), "2".to_string()]);
                    assert!(!more);
                }
                other => panic!("unexpected: {:?}", other),
            }
            match &alts[3] {
                Value::String(ex, more) => {
                    assert_eq!(sorted_examples(ex), vec!["\"a\"".to_string()]);
                    assert!(!more);
                }
                other => panic!("unexpected: {:?}", other),
            }
        }
        other => panic!("unexpected: {:?}", other),
    }
}

#[test]
fn objects_in_array_merge_with_optional_key() {
    match schema_of("[{\"a\":1},{\"a\":1,\"b\":2}]") {
        Ok(Value::Array(alts, lo, hi)) => {
            assert_eq!((lo, hi), (2, 2));
            assert_eq!(alts.len(), 1);
            match &alts[0] {
                Value::Object(fields) => {
                    assert_eq!(fields.len(), 2);
                    let a = field(fields, "a");
                    assert!(!a.2);
                    assert_eq!(a.1.len(), 1);
                    assert!(matches!(&a.1[0], Value::Number(ex, false) if sorted_examples(ex) == vec!["1".to_string()]));
                    let b = field(fields, "b");
                    assert!(b.2);
                    assert_eq!(b.1.len(), 1);
                    assert!(matches!(&b.1[0], Value::Number(ex, false) if sorted_examples(ex) == vec!["2".to_string()]));
                }
                other => panic!("unexpected: {:?}", other),
            }
        }
        other => panic!("unexpected: {:?}", other),
    }
}

#[test]
fn trailing_comma_is_a_grammar_error() {
    match schema_of("{\"a\":1,}") {
        Err(DescribeError::Grammar(ParseError::UnexpectedToken(Token::CurlyClose))) => {}
        other => panic!("unexpected: {:?}", other),
    }
}

#[test]
fn duplicate_key_is_a_grammar_error() {
    match schema_of("{\"a\":1,\"a\":2}") {
        Err(DescribeError::Grammar(ParseError::DuplicateKey(k))) => assert_eq!(k, "a"),
        other => panic!("unexpected: {:?}", other),
    }
}

#[test]
fn fifth_distinct_example_truncates() {
    match schema_of("[\"a\",\"b\",\"c\",\"d\",\"e\",\"a\"]") {
        Ok(Value::Array(alts, _, _)) => match &alts[0] {
            Value::String(ex, more) => {
                assert_eq!(
                    ex.clone(),
                    vec!["\"a\"".to_string(), "\"b\"".to_string(), "\"c\"".to_string(), "\"d\"".to_string()]
                );
                assert!(*more);
            }
            other => panic!("unexpected: {:?}", other),
        },
        other => panic!("unexpected: {:?}", other),
    }
}

#[test]
fn four_distinct_examples_do_not_truncate() {
    match schema_of("[1,2,3,4,1,2]") {
        Ok(Value::Array(alts, _, _)) => {
            assert!(matches!(&alts[0], Value::Number(ex, false) if ex.len() == 4))
        }
        other => panic!("unexpected: {:?}", other),
    }
}

#[test]
fn nested_array_lengths_widen() {
    match schema_of("[[1],[1,2,3],[]]") {
        Ok(Value::Array(alts, lo, hi)) => {
            assert_eq!((lo, hi), (3, 3));
            assert_eq!(alts.len(), 1);
            assert!(matches!(&alts[0], Value::Array(_, 0, 3)));
        }
        other => panic!("unexpected: {:?}", other),
    }
}

#[test]
fn incompatible_field_values_become_alternatives() {
    match schema_of("[{\"k\":1},{\"k\":\"x\"},{\"k\":2}]") {
        Ok(Value::Array(alts, _, _)) => match &alts[0] {
            Value::Object(fields) => {
                let k = field(fields, "k");
                assert!(!k.2);
                assert_eq!(k.1.len(), 2);
                assert!(matches!(&k.1[0], Value::Number(ex, false) if ex.len() == 2));
                assert!(matches!(&k.1[1], Value::String(ex, false) if ex.len() == 1));
            }
            other => panic!("unexpected: {:?}", other),
        },
        other => panic!("unexpected: {:?}", other),
    }
}

#[test]
fn unterminated_array_is_an_error() {
    assert!(matches!(schema_of("[1,"), Err(DescribeError::Grammar(ParseError::UnexpectedEnd))));
}

#[test]
fn missing_colon_is_an_error() {
    match schema_of("{\"a\" 1}") {
        Err(DescribeError::Grammar(ParseError::UnexpectedToken(Token::Number(n)))) => assert_eq!(n, "1"),
        other => panic!("unexpected: {:?}", other),
    }
}

#[test]
fn invalid_literal_is_a_lexical_error() {
    assert!(matches!(schema_of("[tru]"), Err(DescribeError::Lexical(LexError::InvalidToken))));
}

#[test]
fn invalid_utf8_is_a_lexical_error() {
    let bytes = vec![b'[', b'"', 0xff, b'"', b']'];
    assert!(matches!(describe(&bytes), Err(DescribeError::Lexical(LexError::InvalidUtf8))));
}

#[test]
fn parse_tokens_reads_one_value() {
    let tokens = vec![
        Token::BracketOpen,
        Token::Number("1".to_string()),
        Token::Comma,
        Token::Null,
        Token::BracketClose,
    ];
    match parse_tokens(tokens) {
        Ok(Value::Array(alts, 2, 2)) => assert_eq!(alts.len(), 2),
        other => panic!("unexpected: {:?}", other),
    }
}

#[test]
fn key_without_quotes_is_rejected() {
    let tokens = vec![Token::CurlyOpen, Token::String("a".to_string()), Token::Colon, Token::Null, Token::CurlyClose];
    assert!(matches!(parse_tokens(tokens), Err(ParseError::UnexpectedToken(Token::String(_)))));
}

#[test]
fn merge_of_different_kinds_fails() {
    assert!(Value::Boolean.merge_with(&Value::Null).is_err());
    assert!(Value::Null.merge_with(&Value::Null).is_ok());
}

#[test]
fn merge_of_arrays_takes_outer_range() {
    let a = Value::Array(vec![], 2, 5);
    let b = Value::Array(vec![], 1, 3);
    assert!(matches!(a.merge_with(&b), Ok(Value::Array(_, 1, 5))));
    assert!(matches!(b.merge_with(&a), Ok(Value::Array(_, 1, 5))));
}

#[test]
fn merge_keeps_truncation_of_either_side() {
    let a = Value::Number(vec!["1".to_string()], false);
    let b = Value::Number(vec!["2".to_string()], true);
    assert!(matches!(a.merge_with(&b), Ok(Value::Number(ex, true)) if ex.len() == 2));
}

#[test]
fn merge_with_self_changes_nothing() {
    let v = schema_of("{\"a\":[1,\"x\"],\"b\":null}").unwrap();
    let m = v.merge_with(&v).unwrap();
    assert_eq!(format!("{:?}", m), format!("{:?}", v));
}

#[test]
fn sort_key_orders_kinds() {
    let keys: Vec<usize> = vec![
        Value::Null,
        Value::Boolean,
        Value::Number(vec![], false),
        Value::String(vec![], false),
        Value::Array(vec![], 0, 0),
        Value::Object(vec![]),
    ]
    .iter()
    .map(|v| v.sort_key())
    .collect();
    assert_eq!(keys, vec![1, 2, 3, 4, 5, 6]);
}

#[test]
fn from_json_token_keeps_literal_text() {
    let t = Token::from_json_token((json_tools::TokenType::String, json_tools::Buffer::MultiByte(b"\"hi\"".to_vec())));
    assert!(matches!(t, Ok(Token::String(s)) if s == "\"hi\""));
    let n = Token::from_json_token((json_tools::TokenType::Number, json_tools::Buffer::MultiByte(b"12".to_vec())));
    assert!(matches!(n, Ok(Token::Number(s)) if s == "12"));
}

#[test]
fn listing_order_is_by_kind() {
    let alts = vec![
        Value::Object(vec![]),
        Value::String(vec!["\"s\"".to_string()], false),
        Value::Array(vec![], 0, 0),
        Value::Number(vec!["1".to_string()], false),
        Value::Null,
        Value::Boolean,
    ];
    let keys: Vec<usize> = json_shape::merge::in_listing_order(&alts).iter().map(|v| v.sort_key()).collect();
    assert_eq!(keys, vec![1, 2, 3, 4, 5, 6]);
}

#[test]
fn merge_in_both_orders_agrees_on_flags() {
    let a = schema_of("{\"x\":1,\"y\":true}").unwrap();
    let b = schema_of("{\"x\":2,\"z\":null}").unwrap();
    let ab = a.merge_with(&b).unwrap();
    let ba = b.merge_with(&a).unwrap();
    let flags = |v: &Value| -> Vec<(String, bool)> {
        match v {
            Value::Object(fs) => {
                let mut r: Vec<(String, bool)> = fs.iter().map(|f| (f.0.clone(), f.2)).collect();
                r.sort();
                r
            }
            _ => panic!("not an object"),
        }
    };
    assert_eq!(flags(&ab), flags(&ba));
    assert_eq!(
        flags(&ab),
        vec![("x".to_string(), false), ("y".to_string(), true), ("z".to_string(), true)]
    );
}
