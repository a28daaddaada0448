use json_parser::{traverse_json, Parser, ParserError, Value};

fn token_of(r: Result<Value, ParserError>) -> String {
    match r {
        Ok(v) => panic!("expected an error, got {:?}", v),
        Err(ParserError::UnExpectedToken(s)) => s,
        Err(ParserError::UnExpectedEOF) => panic!("expected a token error, got end of input"),
    }
}

fn is_eof(r: Result<Value, ParserError>) -> bool {
    matches!(r, Err(ParserError::UnExpectedEOF))
}

#[test]
fn new_peek_next() {
    let mut parser = Parser::new("He");
    assert_eq!(*parser.peek().unwrap(), 'H');
    assert_eq!(parser.next().unwrap(), 'H');
    assert_eq!(*parser.peek().unwrap(), 'e');
    assert_eq!(parser.next().unwrap(), 'e');

    match parser.peek() {
        Ok(_) => {
            panic!()
        }
        Err(err) => match err {
            ParserError::UnExpectedEOF => {}
            _ => panic!(),
        },
    };
    match parser.next() {
        Ok(_) => {
            panic!()
        }
        Err(err) => match err {
            ParserError::UnExpectedEOF => {}
            _ => panic!(),
        },
    };
}

#[test]
fn skip_whitespace() {
    let mut parser = Parser::new("\t\n    w");
    parser.skip_whitespace();
    assert_eq!(parser.next().unwrap(), 'w');
}

#[test]
fn bool_null() {
    assert_eq!(Parser::new("true").parse().unwrap(), Value::Bool(true));
    assert_eq!(Parser::new("false").parse().unwrap(), Value::Bool(false));
    assert_eq!(Parser::new("null").parse().unwrap(), Value::Null);

    match Parser::new("flase").parse() {
        Ok(_) => panic!(),
        Err(err) => match err {
            ParserError::UnExpectedToken(s) => assert_eq!(s.as_str(), "flase"),
            _ => panic!(),
        },
    }
    match Parser::new("ture").parse() {
        Ok(_) => panic!(),
        Err(err) => match err {
            ParserError::UnExpectedToken(s) => assert_eq!(s.as_str(), "ture"),
            _ => panic!(),
        },
    }
    match Parser::new("nu ll").parse() {
        Ok(_) => panic!(),
        Err(err) => match err {
            ParserError::UnExpectedToken(s) => assert_eq!(s.as_str(), "nu"),
            _ => panic!(),
        },
    }
}

#[test]
fn number_float() {
    assert_eq!(
        Parser::new("-12342").parse().unwrap(),
        Value::Number(-12342)
    );
    assert_eq!(
        Parser::new("-1.23E03").parse().unwrap(),
        Value::Float("-1.23E03".to_owned())
    );
    match Parser::new("0123").parse() {
        Ok(_) => panic!(),
        Err(err) => match err {
            ParserError::UnExpectedToken(s) => assert_eq!("0123", s.as_str()),
            _ => panic!(),
        },
    }
}

#[test]
fn string() {
    assert_eq!(
        Parser::new("\"hello\"").parse().unwrap(),
        Value::Str("hello".to_owned())
    );
    match Parser::new("\"hello").parse() {
        Ok(_) => panic!(),
        Err(err) => match err {
            ParserError::UnExpectedToken(s) => assert_eq!(s.as_str(), "hello"),
            _ => panic!(),
        },
    }
    assert_eq!(
        Parser::new("\"hello\n\"").parse().unwrap(),
        Value::Str("hello\n".to_owned())
    );
    assert_eq!(
        Parser::new(r#""\b\f\n\r\t\"""#).parse().unwrap(),
        Value::Str("\u{8}\u{C}\u{A}\u{D}\u{9}\"".to_owned())
    );
    assert_eq!(
        Parser::new(r#""\u2764""#).parse().unwrap(),
        Value::Str("\u{2764}".to_owned())
    );
}

#[test]
fn array() {
    assert_eq!(
        Parser::new("  [12,\"89\",true,[false,null],   ]")
            .parse()
            .unwrap(),
        Value::Array(vec![
            Value::Number(12),
            Value::Str("89".to_owned()),
            Value::Bool(true),
            Value::Array(vec![Value::Bool(false), Value::Null]),
        ])
    );
}

#[test]
fn traverse_without_indent() {
    assert_eq!(traverse_json(&Value::Null), "null");
    assert_eq!(traverse_json(&Value::Bool(true)), "true");
    assert_eq!(traverse_json(&Value::Bool(false)), "false");
    assert_eq!(traverse_json(&Value::Number(1145)), "1145");
    assert_eq!(traverse_json(&Value::Float("114.514".to_owned())), "114.514");
    assert_eq!(
        traverse_json(&Value::Str("hello json\n".to_owned())),
        "\"hello json\n\""
    );

    let json_array = Parser::new("  [12,\"89\",true,[false,null]]")
        .parse()
        .unwrap();

    assert_eq!(
        traverse_json(&json_array),
        "[ 12, \"89\", true, [ false, null ] ]"
    );
    assert_eq!(
        traverse_json(&json_array),
        "[ 12, \"89\", true, [ false, null ] ]"
    );
    let json_obj = Parser::new("{  \"Bool\":[ true,false]}").parse().unwrap();
    assert_eq!(traverse_json(&json_obj), "{ \"Bool\" : [ true, false ] }");
}

#[test]
fn more_json() {
    let string = r#"
{
   "glossary": {
		"GlossDiv": {
			"GlossList": {
                "GlossEntry": {
					"GlossDef": {
						"GlossSeeAlso": ["GML", "XML"]
                    }
                }
            }
        }
    }
}
"#;
    assert_eq!(
        "{ \"glossary\" : { \"GlossDiv\" : { \"GlossList\" : { \"GlossEntry\" : \
        { \"GlossDef\" : { \"GlossSeeAlso\" : [ \"GML\", \"XML\" ] } } } } } }",
        traverse_json(&Parser::new(string).parse().unwrap())
    );
}
