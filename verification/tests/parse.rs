use minijson::json::{JsonParser, JsonValue};

fn parse_text(s: &str) -> Result<JsonValue, String> {
    let owned = s.to_string();
    let mut parser = JsonParser::new_from_string(&owned);
    parser.parse()
}

fn parse_bytes(b: &[u8]) -> Result<JsonValue, String> {
    let mut parser = JsonParser::new_from_bytes(b.to_vec());
    parser.parse()
}

fn number(s: &str) -> JsonValue {
    JsonValue::Number(s.to_string())
}

fn entry(k: &str, v: JsonValue) -> (String, JsonValue) {
    (k.to_string(), v)
}

#[test]
fn test_string() {
    let string = "{\"foo\":\"bar\",\"baz\":\"qux\"}".to_string();
    let mut parser = JsonParser::new_from_string(&string);
    let result = parser.parse();
    assert!(result.is_ok());
    let result = result.unwrap();
    println!("{:?}", result);
}

#[test]
fn empty_object() {
    assert_eq!(parse_text("{}").unwrap(), JsonValue::Object(vec![]));
}

#[test]
fn single_number_member() {
    let v = parse_text("{\"a\":1}").unwrap();
    assert_eq!(v, JsonValue::Object(vec![entry("a", number("1"))]));
    match v {
        JsonValue::Object(entries) => match &entries[0].1 {
            JsonValue::Number(lexeme) => {
                assert_eq!(lexeme.parse::<f32>().unwrap(), 1.0f32);
            }
            other => panic!("expected a number, got {:?}", other),
        },
        other => panic!("expected an object, got {:?}", other),
    }
}

#[test]
fn array_keeps_source_order() {
    let v = parse_text("{\"a\":[1,2,3]}").unwrap();
    assert_eq!(
        v,
        JsonValue::Object(vec![entry(
            "a",
            JsonValue::Array(vec![number("1"), number("2"), number("3")]),
        )])
    );
    match v {
        JsonValue::Object(entries) => match &entries[0].1 {
            JsonValue::Array(items) => {
                let floats: Vec<f32> = items
                    .iter()
                    .map(|it| match it {
                        JsonValue::Number(lexeme) => lexeme.parse::<f32>().unwrap(),
                        other => panic!("expected a number, got {:?}", other),
                    })
                    .collect();
                assert_eq!(floats, vec![1.0f32, 2.0f32, 3.0f32]);
            }
            other => panic!("expected an array, got {:?}", other),
        },
        other => panic!("expected an object, got {:?}", other),
    }
}

#[test]
fn boolean_and_null_literals() {
    let v = parse_text("{\"a\":true,\"b\":false,\"c\":null}").unwrap();
    assert_eq!(
        v,
        JsonValue::Object(vec![
            entry("a", JsonValue::Boolean(true)),
            entry("b", JsonValue::Boolean(false)),
            entry("c", JsonValue::Nil),
        ])
    );
}

#[test]
fn missing_closing_brace_fails() {
    let r = parse_text("{\"a\":1");
    assert!(r.is_err());
    assert_eq!(r.unwrap_err(), "Expected ',' or '}'");
}

#[test]
fn unquoted_key_fails_expecting_string() {
    let r = parse_text("{a:1}");
    assert!(r.is_err());
    assert_eq!(r.unwrap_err(), "Expected string");
}

#[test]
fn continuation_byte_as_lead_fails() {
    let r = parse_bytes(&[b'{', 0x80]);
    assert!(r.is_err());
    assert_eq!(r.unwrap_err(), "Invalid UTF-8");
}

#[test]
fn truncated_multibyte_sequence_fails() {
    let r = parse_bytes(&[b'{', b'"', 0xc3]);
    assert!(r.is_err());
    assert_eq!(r.unwrap_err(), "Invalid UTF-8");
}

#[test]
fn whitespace_between_tokens_changes_nothing() {
    let compact = parse_text("{\"a\":1,\"b\":[2,true],\"c\":null}").unwrap();
    let spaced =
        parse_text(" {\t\"a\" :\n 1 ,  \"b\"\t: [ 2 ,\ntrue ] , \"c\" : null\n} ").unwrap();
    assert_eq!(compact, spaced);
}

#[test]
fn duplicate_key_last_occurrence_wins() {
    let v = parse_text("{\"a\":1,\"a\":2}").unwrap();
    assert_eq!(v, JsonValue::Object(vec![entry("a", number("2"))]));
}

#[test]
fn multibyte_characters_decode() {
    let v = parse_text("{\"caf\u{e9}\":\"\u{65e5}\u{672c}\"}").unwrap();
    assert_eq!(
        v,
        JsonValue::Object(vec![entry("caf\u{e9}", JsonValue::String("\u{65e5}\u{672c}".to_string()))])
    );
}

#[test]
fn string_lexemes_accumulate_characters() {
    let v = parse_text("{\"ab\":\"cdef\"}").unwrap();
    assert_eq!(
        v,
        JsonValue::Object(vec![entry("ab", JsonValue::String("cdef".to_string()))])
    );
}

#[test]
fn multi_digit_number_lexeme() {
    let v = parse_text("{\"n\":1234}").unwrap();
    assert_eq!(v, JsonValue::Object(vec![entry("n", number("1234"))]));
    match v {
        JsonValue::Object(entries) => match &entries[0].1 {
            JsonValue::Number(lexeme) => {
                assert_eq!(lexeme, "1234");
                assert_eq!(lexeme.parse::<f32>().unwrap(), 1234.0f32);
            }
            other => panic!("expected a number, got {:?}", other),
        },
        other => panic!("expected an object, got {:?}", other),
    }
}

#[test]
fn unterminated_string_fails() {
    let r = parse_text("{\"a");
    assert!(r.is_err());
    assert_eq!(r.unwrap_err(), "unexpected EOF");
}

#[test]
fn misspelled_keyword_fails() {
    let r = parse_text("{\"a\":tru}");
    assert!(r.is_err());
}

#[test]
fn nested_object() {
    let v = parse_text("{\"a\":{\"b\":2}}").unwrap();
    assert_eq!(
        v,
        JsonValue::Object(vec![entry(
            "a",
            JsonValue::Object(vec![entry("b", number("2"))]),
        )])
    );
}

#[test]
fn empty_array_member() {
    let v = parse_text("{\"a\":[]}").unwrap();
    assert_eq!(v, JsonValue::Object(vec![entry("a", JsonValue::Array(vec![]))]));
}

#[test]
fn non_object_root_fails() {
    let r = parse_text("[1]");
    assert!(r.is_err());
    assert_eq!(r.unwrap_err(), "Expected '{' at start of object");
}

#[test]
fn array_missing_separator_fails() {
    let r = parse_text("{\"a\":[1 2]}");
    assert!(r.is_err());
    assert_eq!(r.unwrap_err(), "Expected ',' or ']'");
}

#[test]
fn missing_colon_fails() {
    let r = parse_text("{\"a\" 1}");
    assert!(r.is_err());
    assert_eq!(r.unwrap_err(), "Expected ':' after object key");
}

#[test]
fn unexpected_value_token_fails() {
    let r = parse_text("{\"a\":}");
    assert!(r.is_err());
    assert_eq!(r.unwrap_err(), "Unexpected input");
}

#[test]
fn repeated_parse_runs_off_the_end() {
    let s = "{}".to_string();
    let mut p = JsonParser::new_from_string(&s);
    assert!(p.parse().is_ok());
    let second = p.parse();
    assert_eq!(second.unwrap_err(), "Expected '{' at start of object");
    let third = p.parse();
    assert_eq!(third.unwrap_err(), "unexpected EOF");
}
