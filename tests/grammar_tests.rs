use json_parser::{traverse_json, values_equal, Parser, ParserError, Value};

fn parse(s: &str) -> Result<Value, ParserError> {
    Parser::new(s).parse()
}

fn token_of(r: Result<Value, ParserError>) -> String {
    match r {
        Ok(v) => panic!("expected an error, got {:?}", v),
        Err(ParserError::UnExpectedToken(s)) => s,
        Err(ParserError::UnExpectedEOF) => panic!("expected a token error, got end of input"),
    }
}

fn is_eof(r: Result<Value, ParserError>) -> bool {
    matches!(r, Err(ParserError::UnExpectedEOF))
}

fn obj(entries: Vec<(&str, Value)>) -> Value {
    Value::Object(entries.into_iter().map(|(k, v)| (k.to_owned(), v)).collect())
}

#[test]
fn keywords_consume_exactly_their_characters() {
    let mut p = Parser::new("true,");
    assert_eq!(p.parse().unwrap(), Value::Bool(true));
    assert_eq!(p.next().unwrap(), ',');
    let mut p = Parser::new("null]");
    assert_eq!(p.parse().unwrap(), Value::Null);
    assert_eq!(*p.peek().unwrap(), ']');
    let mut p = Parser::new("false");
    assert_eq!(p.parse().unwrap(), Value::Bool(false));
    assert!(p.peek().is_err());
}

#[test]
fn integers_and_floats_by_shape() {
    assert_eq!(parse("12342").unwrap(), Value::Number(12342));
    assert_eq!(parse("0").unwrap(), Value::Number(0));
    assert_eq!(parse("-0").unwrap(), Value::Number(0));
    assert_eq!(parse("1.5e3").unwrap(), Value::Float("1.5e3".to_owned()));
    assert_eq!(parse("3E2").unwrap(), Value::Float("3E2".to_owned()));
    assert_ne!(parse("3").unwrap(), parse("3.0").unwrap());
}

#[test]
fn integer_bounds() {
    assert_eq!(parse("9223372036854775807").unwrap(), Value::Number(i64::MAX));
    assert_eq!(parse("-9223372036854775808").unwrap(), Value::Number(i64::MIN));
    assert_eq!(token_of(parse("9223372036854775808")), "9223372036854775808");
    assert_eq!(token_of(parse("-9223372036854775809")), "-9223372036854775809");
}

#[test]
fn leading_zero_rule() {
    assert_eq!(token_of(parse("0123")), "0123");
    assert_eq!(token_of(parse("012.5")), "012.5");
    assert_eq!(token_of(parse("-007")), "-007");
    assert_eq!(parse("0").unwrap(), Value::Number(0));
    assert_eq!(parse("0.5").unwrap(), Value::Float("0.5".to_owned()));
}

#[test]
fn malformed_numerals() {
    assert_eq!(token_of(parse("-")), "-");
    assert_eq!(token_of(parse("1e")), "1e");
    assert_eq!(token_of(parse("1.2.3")), "1.2.3");
    assert_eq!(token_of(parse("1e5e3")), "1e5e3");
    assert_eq!(token_of(parse("-.")), "-.");
    assert_eq!(token_of(parse("1.")), "1.");
    assert_eq!(token_of(parse("1.e5")), "1.e5");
    assert_eq!(token_of(parse("-0.")), "-0.");
}

#[test]
fn string_escapes() {
    assert_eq!(
        parse(r#""\b\f\n\r\t\"""#).unwrap(),
        Value::Str("\u{8}\u{c}\n\r\t\"".to_owned())
    );
    assert_eq!(parse(r#""a\/b\\c""#).unwrap(), Value::Str("a/b\\c".to_owned()));
}

#[test]
fn unicode_escapes() {
    assert_eq!(parse(r#""\u2764""#).unwrap(), Value::Str("\u{2764}".to_owned()));
    assert_eq!(parse(r#""\u00e9\u00E9""#).unwrap(), Value::Str("\u{e9}\u{e9}".to_owned()));
    assert_eq!(parse(r#""\u0041\u0062z""#).unwrap(), Value::Str("Abz".to_owned()));
    assert_eq!(token_of(parse(r#""\u0062C""#)), "\\u0062C");
    assert_eq!(token_of(parse(r#""\uD800""#)), "\\uD800");
    assert_eq!(parse(r#""\u41""#).unwrap(), Value::Str("A".to_owned()));
    assert_eq!(parse(r#""\u12G4""#).unwrap(), Value::Str("\u{12}G4".to_owned()));
    assert_eq!(parse(r#""x\u7e9""#).unwrap(), Value::Str("x\u{7e9}".to_owned()));
    assert_eq!(token_of(parse(r#""\u""#)), "\\u");
    assert_eq!(token_of(parse(r#""\u12345""#)), "\\u12345");
    assert_eq!(token_of(parse(r#""\u12"#)), "\u{12}");
}

#[test]
fn bad_escape_and_unterminated_string() {
    assert_eq!(token_of(parse(r#""a\x""#)), "\\x");
    assert_eq!(token_of(parse("\"hello")), "hello");
    assert!(is_eof(parse("\"ab\\")));
}

#[test]
fn trailing_comma_in_array() {
    let with = parse("[1,2,]").unwrap();
    let without = parse("[1,2]").unwrap();
    assert_eq!(with, without);
    assert_eq!(with, Value::Array(vec![Value::Number(1), Value::Number(2)]));
    let mut p = Parser::new("[1, 2 , ] x");
    p.parse().unwrap();
    p.skip_whitespace();
    assert_eq!(p.next().unwrap(), 'x');
}

#[test]
fn empty_containers() {
    assert_eq!(parse("[]").unwrap(), Value::Array(vec![]));
    assert_eq!(parse("[ ]").unwrap(), Value::Array(vec![]));
    assert_eq!(parse("{ }").unwrap(), Value::Object(vec![]));
    assert_eq!(traverse_json(&Value::Array(vec![])), "[]");
    assert_eq!(traverse_json(&Value::Object(vec![])), "{}");
}

#[test]
fn array_errors() {
    assert_eq!(token_of(parse("[1 2]")), "2");
    assert!(is_eof(parse("[1,")));
    assert!(is_eof(parse("[")));
    assert!(is_eof(parse("[1")));
}

#[test]
fn object_parsing() {
    let v = parse(r#"{"a": 1, "b": [true]}"#).unwrap();
    assert_eq!(
        v,
        obj(vec![("a", Value::Number(1)), ("b", Value::Array(vec![Value::Bool(true)]))])
    );
    assert_eq!(traverse_json(&v), "{ \"a\" : 1, \"b\" : [ true ] }");
}

#[test]
fn repeated_key_last_write_wins() {
    let v = parse(r#"{"a": 1, "b": 2, "a": 3}"#).unwrap();
    match &v {
        Value::Object(entries) => {
            assert_eq!(entries.len(), 2);
            assert_eq!(entries[0].0, "a");
            assert_eq!(entries[0].1, Value::Number(3));
            assert_eq!(entries[1].0, "b");
        }
        _ => panic!(),
    }
}

#[test]
fn object_equality_ignores_order() {
    let a = obj(vec![("x", Value::Number(1)), ("y", Value::Null)]);
    let b = obj(vec![("y", Value::Null), ("x", Value::Number(1))]);
    let c = obj(vec![("y", Value::Null), ("x", Value::Number(2))]);
    assert!(values_equal(&a, &b));
    assert_eq!(a, b);
    assert_ne!(a, c);
    assert_ne!(Value::Number(3), Value::Float("3.0".to_owned()));
}

#[test]
fn object_errors() {
    assert_eq!(token_of(parse(r#"{"a" 1}"#)), "\"a\"1");
    assert_eq!(token_of(parse(r#"{"a": [1, 2] x}"#)), "\"a\" : [ 1, 2 ] x");
    assert_eq!(token_of(parse(r#"{a: 1}"#)), "a");
    assert_eq!(token_of(parse(r#"{"a": 1,}"#)), "}");
    assert!(is_eof(parse(r#"{"a": 1"#)));
    assert!(is_eof(parse(r#"{"a""#)));
}

#[test]
fn nested_round_trip() {
    let v = parse(r#"{"a":{"b":[1,2,3]}}"#).unwrap();
    assert_eq!(traverse_json(&v), "{ \"a\" : { \"b\" : [ 1, 2, 3 ] } }");
}

#[test]
fn keyword_diagnostics() {
    assert_eq!(token_of(parse("flase")), "flase");
    assert_eq!(token_of(parse("nu ll")), "nu");
    assert_eq!(token_of(parse("trueish")), "trueish");
}

#[test]
fn dispatch_failures() {
    assert!(is_eof(parse("")));
    assert!(is_eof(parse("   ")));
    assert!(is_eof(parse("]")));
    assert!(is_eof(parse("+1")));
}

#[test]
fn repeated_parse_continues() {
    let mut p = Parser::new("1 \"two\" [3]");
    assert_eq!(p.parse().unwrap(), Value::Number(1));
    assert_eq!(p.parse().unwrap(), Value::Str("two".to_owned()));
    assert_eq!(p.parse().unwrap(), Value::Array(vec![Value::Number(3)]));
    assert!(is_eof(p.parse()));
}

#[test]
fn render_numbers_and_strings() {
    assert_eq!(traverse_json(&Value::Number(-12342)), "-12342");
    assert_eq!(traverse_json(&Value::Number(0)), "0");
    assert_eq!(traverse_json(&Value::Number(i64::MIN)), "-9223372036854775808");
    assert_eq!(traverse_json(&Value::Str("a\"b".to_owned())), "\"a\"b\"");
}

#[test]
fn escape_at_cursor() {
    let mut p = Parser::new("n");
    assert_eq!(p.parse_escaped().unwrap(), '\n');
    let mut p = Parser::new("u0041z");
    assert_eq!(p.parse_escaped().unwrap(), 'A');
    assert_eq!(p.next().unwrap(), 'z');
    let mut p = Parser::new("");
    assert!(matches!(p.parse_escaped(), Err(ParserError::UnExpectedEOF)));
}

#[test]
fn cursor_after_errors() {
    let mut p = Parser::new("nu ll");
    assert_eq!(token_of(p.parse()), "nu");
    assert_eq!(p.next().unwrap(), ' ');
    let mut p = Parser::new("\"hello");
    assert_eq!(token_of(p.parse()), "hello");
    assert!(p.peek().is_err());
    let mut p = Parser::new("[1 2]");
    assert_eq!(token_of(p.parse()), "2");
    assert_eq!(p.next().unwrap(), '2');
    let mut p = Parser::new("\"\\u12x\"");
    assert_eq!(p.parse().unwrap(), Value::Str("\u{12}x".to_owned()));
}
