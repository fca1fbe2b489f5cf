use json::classifier::{classify, Lookahead};
use json::cursor::{Cursor, Position};
use json::error::ParseError;
use json::number::Number;
use json::parser::{
    parse, parse_array, parse_literal, parse_member, parse_number, parse_object, parse_string,
    parse_value, parse_value_first_item_array, tokenize, JSON,
};
use json::value::Value;

fn number(text: &str) -> Value {
    Value::Number(Number::from_text(text).unwrap())
}

fn string(text: &str) -> Value {
    Value::String(text.to_string())
}

fn at(offset: usize, line: usize, column: usize) -> Position {
    Position { offset, line, column }
}

#[test]
fn basic_obj() {
    let input = String::from("{}");

    println!("value: {:?}", JSON::parse(input));

    assert_eq!("{}", "{}");
}

#[test]
fn empty_input_is_unexpected_end() {
    assert_eq!(parse(""), Err(ParseError::UnexpectedEnd { position: at(0, 0, 0) }));
    assert_eq!(parse("   "), Err(ParseError::UnexpectedEnd { position: at(3, 0, 3) }));
    assert_eq!(parse(" \n\t\r\n "), Err(ParseError::UnexpectedEnd { position: at(6, 2, 1) }));
}

#[test]
fn empty_containers() {
    assert_eq!(parse("{}"), Ok(Value::Object(vec![])));
    assert_eq!(parse("[]"), Ok(Value::Array(vec![])));
    assert_eq!(parse(" { \n } "), Ok(Value::Object(vec![])));
    assert_eq!(parse("\t[ \r\n ]\n"), Ok(Value::Array(vec![])));
}

#[test]
fn duplicate_key_takes_last_value() {
    assert_eq!(
        parse("{\"a\":1,\"a\":2}"),
        Ok(Value::Object(vec![("a".to_string(), number("2"))]))
    );
}

#[test]
fn duplicate_key_keeps_first_place() {
    assert_eq!(
        parse("{\"a\":1,\"b\":true,\"a\":null}"),
        Ok(Value::Object(vec![
            ("a".to_string(), Value::Null),
            ("b".to_string(), Value::Bool(true)),
        ]))
    );
}

#[test]
fn trailing_comma_in_array_is_rejected() {
    assert_eq!(
        parse("[1,2,]"),
        Err(ParseError::UnexpectedCharacter { character: ']', position: at(5, 0, 5) })
    );
    assert_eq!(parse("[1,2]"), Ok(Value::Array(vec![number("1"), number("2")])));
}

#[test]
fn trailing_comma_in_object_is_rejected() {
    assert_eq!(
        parse("{\"a\":1,}"),
        Err(ParseError::UnexpectedCharacter { character: '}', position: at(7, 0, 7) })
    );
}

#[test]
fn leading_comma_is_rejected() {
    assert_eq!(
        parse("[,1]"),
        Err(ParseError::UnexpectedCharacter { character: ',', position: at(1, 0, 1) })
    );
    assert_eq!(
        parse("{,}"),
        Err(ParseError::UnexpectedCharacter { character: ',', position: at(1, 0, 1) })
    );
}

#[test]
fn unicode_escape_gives_the_character() {
    assert_eq!(parse("\"\\u0041\""), Ok(string("A")));
    assert_eq!(parse("\"\\u00e9\\u00E9\""), Ok(string("\u{e9}\u{e9}")));
    assert_eq!(parse("\"\\uffff\""), Ok(string("\u{ffff}")));
    assert_eq!(parse("\"\\u0000\""), Ok(string("\u{0}")));
}

#[test]
fn newline_escape_gives_a_newline() {
    assert_eq!(parse("\"\\n\""), Ok(string("\n")));
}

#[test]
fn short_escapes_are_resolved() {
    assert_eq!(
        parse("\"\\\"\\\\\\/\\b\\f\\n\\r\\t\""),
        Ok(string("\"\\/\u{8}\u{c}\n\r\t"))
    );
}

#[test]
fn surrogate_pair_gives_one_character() {
    assert_eq!(parse("\"\\ud83d\\ude00\""), Ok(string("\u{1F600}")));
    assert_eq!(parse("\"\\uD800\\uDC00\""), Ok(string("\u{10000}")));
    assert_eq!(parse("\"\\uDBFF\\uDFFF\""), Ok(string("\u{10FFFF}")));
}

#[test]
fn lone_surrogates_are_invalid_escapes() {
    assert_eq!(
        parse("\"\\udc00\""),
        Err(ParseError::InvalidEscape { position: at(7, 0, 7) })
    );
    assert_eq!(
        parse("\"\\ud800\""),
        Err(ParseError::InvalidEscape { position: at(7, 0, 7) })
    );
    assert_eq!(
        parse("\"\\ud800\\n\""),
        Err(ParseError::InvalidEscape { position: at(8, 0, 8) })
    );
    assert_eq!(
        parse("\"\\ud800\\u0041\""),
        Err(ParseError::InvalidEscape { position: at(13, 0, 13) })
    );
}

#[test]
fn invalid_escapes_are_rejected() {
    assert_eq!(parse("\"\\x\""), Err(ParseError::InvalidEscape { position: at(2, 0, 2) }));
    assert_eq!(
        parse("\"\\u12g4\""),
        Err(ParseError::InvalidEscape { position: at(5, 0, 5) })
    );
}

#[test]
fn unterminated_strings_are_rejected() {
    assert_eq!(
        parse("\"abc"),
        Err(ParseError::UnterminatedString { position: at(4, 0, 4) })
    );
    assert_eq!(
        parse("\"abc\\"),
        Err(ParseError::UnterminatedString { position: at(5, 0, 5) })
    );
    assert_eq!(
        parse("\"\\u12"),
        Err(ParseError::UnterminatedString { position: at(5, 0, 5) })
    );
    assert_eq!(
        parse("\"\\ud800"),
        Err(ParseError::UnterminatedString { position: at(7, 0, 7) })
    );
}

#[test]
fn raw_control_character_in_string_is_rejected() {
    assert_eq!(
        parse("\"a\nb\""),
        Err(ParseError::UnexpectedCharacter { character: '\n', position: at(2, 0, 2) })
    );
    assert_eq!(
        parse("\"\u{1f}\""),
        Err(ParseError::UnexpectedCharacter { character: '\u{1f}', position: at(1, 0, 1) })
    );
    assert_eq!(parse("\"\u{7f} \u{20ac}/\""), Ok(string("\u{7f} \u{20ac}/")));
}

#[test]
fn leading_zero_is_rejected() {
    assert_eq!(parse("01"), Err(ParseError::InvalidNumber { position: at(1, 0, 1) }));
    assert_eq!(parse("-012"), Err(ParseError::InvalidNumber { position: at(2, 0, 2) }));
    assert_eq!(parse("0"), Ok(number("0")));
}

#[test]
fn zero_is_the_number_zero() {
    match parse("0") {
        Ok(Value::Number(n)) => assert_eq!(n.as_str().parse::<f64>().unwrap(), 0.0),
        other => panic!("{:?}", other),
    }
}

#[test]
fn fraction_and_exponent_are_read() {
    match parse("-0.5e2") {
        Ok(Value::Number(n)) => {
            assert_eq!(n.as_str(), "-0.5e2");
            assert_eq!(n.as_str().parse::<f64>().unwrap(), -50.0);
        }
        other => panic!("{:?}", other),
    }
    assert_eq!(parse("12.25E+10"), Ok(number("12.25E+10")));
    assert_eq!(parse("1e-7"), Ok(number("1e-7")));
    assert_eq!(parse(" 10 "), Ok(number("10")));
}

#[test]
fn malformed_numbers_are_rejected() {
    assert_eq!(parse("-"), Err(ParseError::InvalidNumber { position: at(1, 0, 1) }));
    assert_eq!(parse("-x"), Err(ParseError::InvalidNumber { position: at(1, 0, 1) }));
    assert_eq!(parse("1."), Err(ParseError::InvalidNumber { position: at(2, 0, 2) }));
    assert_eq!(parse("1.e3"), Err(ParseError::InvalidNumber { position: at(2, 0, 2) }));
    assert_eq!(parse("1e"), Err(ParseError::InvalidNumber { position: at(2, 0, 2) }));
    assert_eq!(parse("1e+"), Err(ParseError::InvalidNumber { position: at(3, 0, 3) }));
    assert_eq!(parse("[1.]"), Err(ParseError::InvalidNumber { position: at(3, 0, 3) }));
}

#[test]
fn number_without_integer_part_is_rejected() {
    assert_eq!(
        parse(".5"),
        Err(ParseError::UnexpectedCharacter { character: '.', position: at(0, 0, 0) })
    );
    assert_eq!(
        parse("+1"),
        Err(ParseError::UnexpectedCharacter { character: '+', position: at(0, 0, 0) })
    );
}

#[test]
fn trailing_data_is_rejected() {
    assert_eq!(
        parse("{\"a\":1} garbage"),
        Err(ParseError::TrailingData { position: at(8, 0, 8) })
    );
    assert_eq!(parse("1 2"), Err(ParseError::TrailingData { position: at(2, 0, 2) }));
    assert_eq!(parse("truex"), Err(ParseError::TrailingData { position: at(4, 0, 4) }));
    assert_eq!(parse("[]\n]"), Err(ParseError::TrailingData { position: at(3, 1, 0) }));
}

#[test]
fn literals_are_read() {
    assert_eq!(parse("true"), Ok(Value::Bool(true)));
    assert_eq!(parse("false"), Ok(Value::Bool(false)));
    assert_eq!(parse("null"), Ok(Value::Null));
    assert_eq!(
        parse("[true, false, null]"),
        Ok(Value::Array(vec![Value::Bool(true), Value::Bool(false), Value::Null]))
    );
}

#[test]
fn misspelled_literals_are_rejected() {
    assert_eq!(
        parse("tru"),
        Err(ParseError::UnexpectedEnd { position: at(3, 0, 3) })
    );
    assert_eq!(
        parse("nul!"),
        Err(ParseError::UnexpectedCharacter { character: '!', position: at(3, 0, 3) })
    );
    assert_eq!(
        parse("fals3"),
        Err(ParseError::UnexpectedCharacter { character: '3', position: at(4, 0, 4) })
    );
    assert_eq!(
        parse("True"),
        Err(ParseError::UnexpectedCharacter { character: 'T', position: at(0, 0, 0) })
    );
}

#[test]
fn unexpected_characters_are_reported_with_line_and_column() {
    assert_eq!(
        parse("{\n  \"a\": 1,\n  \"b\" 2\n}"),
        Err(ParseError::UnexpectedCharacter { character: '2', position: at(18, 2, 6) })
    );
    assert_eq!(
        parse("[1 2]"),
        Err(ParseError::UnexpectedCharacter { character: '2', position: at(3, 0, 3) })
    );
    assert_eq!(
        parse("{1:2}"),
        Err(ParseError::UnexpectedCharacter { character: '1', position: at(1, 0, 1) })
    );
    assert_eq!(
        parse("[1}"),
        Err(ParseError::UnexpectedCharacter { character: '}', position: at(2, 0, 2) })
    );
}

#[test]
fn unclosed_containers_end_unexpectedly() {
    assert_eq!(parse("["), Err(ParseError::UnexpectedEnd { position: at(1, 0, 1) }));
    assert_eq!(parse("[1"), Err(ParseError::UnexpectedEnd { position: at(2, 0, 2) }));
    assert_eq!(parse("[1,"), Err(ParseError::UnexpectedEnd { position: at(3, 0, 3) }));
    assert_eq!(parse("{"), Err(ParseError::UnexpectedEnd { position: at(1, 0, 1) }));
    assert_eq!(parse("{\"a\""), Err(ParseError::UnexpectedEnd { position: at(4, 0, 4) }));
    assert_eq!(parse("{\"a\":"), Err(ParseError::UnexpectedEnd { position: at(5, 0, 5) }));
    assert_eq!(parse("{\"a\":1"), Err(ParseError::UnexpectedEnd { position: at(6, 0, 6) }));
}

#[test]
fn nested_document_is_read_in_order() {
    let text = " { \"name\" : \"x\" , \"list\" : [ 1 , [ ] , { \"k\" : null } ] } ";
    assert_eq!(
        parse(text),
        Ok(Value::Object(vec![
            ("name".to_string(), string("x")),
            (
                "list".to_string(),
                Value::Array(vec![
                    number("1"),
                    Value::Array(vec![]),
                    Value::Object(vec![("k".to_string(), Value::Null)]),
                ])
            ),
        ]))
    );
}

#[test]
fn parse_never_panics_on_malformed_input() {
    let inputs = [
        "", " ", "{", "}", "[", "]", ",", ":", "\"", "\\", "-", "--1", "1-", "[[[[", "]]]]",
        "{{", "{\"a\"", "{\"a\":", "{\"a\":}", "[1,,2]", "nul", "t", "\"\\u", "\"\\ud800\\u",
        "\u{0}", "\u{10FFFF}", "{\"a\":1,\"a\"", "[\"\\", "0x10", "1e1e1", "NaN", "Infinity",
        "-Infinity", "1e999", "'a'", "/* c */ 1",
    ];
    for input in inputs.iter() {
        let _ = parse(input);
    }
    assert!(parse("NaN").is_err());
    assert!(parse("Infinity").is_err());
    assert!(parse("-Infinity").is_err());
}

#[test]
fn nested_arrays_are_read() {
    let depth = 1000;
    let mut text = String::new();
    for _ in 0..depth {
        text.push('[');
    }
    for _ in 0..depth {
        text.push(']');
    }
    let mut expected = Value::Array(vec![]);
    for _ in 1..depth {
        expected = Value::Array(vec![expected]);
    }
    assert_eq!(parse(&text), Ok(expected));
    text.pop();
    assert!(matches!(parse(&text), Err(ParseError::UnexpectedEnd { .. })));
}

#[test]
fn tokenize_gives_one_element() {
    let json = tokenize("[1, 2]".to_string()).unwrap();
    assert_eq!(json.elements(), &vec![Value::Array(vec![number("1"), number("2")])]);
    assert_eq!(
        tokenize("{}{}".to_string()),
        Err(ParseError::TrailingData { position: at(2, 0, 2) })
    );
    assert_eq!(JSON::parse("null".to_string()), tokenize("null".to_string()));
    assert_eq!(JSON::parse("".to_string()), Err(ParseError::UnexpectedEnd { position: at(0, 0, 0) }));
}

#[test]
fn new_document_is_empty() {
    assert!(JSON::new().elements().is_empty());
}

#[test]
fn cursor_peeks_and_advances() {
    let mut cursor = Cursor::new("a\nb");
    assert_eq!(cursor.position(), at(0, 0, 0));
    assert_eq!(cursor.peek(), Some('a'));
    assert_eq!(cursor.peek(), Some('a'));
    assert_eq!(cursor.advance(), Some('a'));
    assert_eq!(cursor.position(), at(1, 0, 1));
    assert_eq!(cursor.advance(), Some('\n'));
    assert_eq!(cursor.position(), at(2, 1, 0));
    assert_eq!(cursor.advance(), Some('b'));
    assert_eq!(cursor.position(), at(3, 1, 1));
    assert_eq!(cursor.peek(), None);
    assert_eq!(cursor.advance(), None);
    assert_eq!(cursor.position(), at(3, 1, 1));
}

#[test]
fn cursor_counts_characters_not_bytes() {
    let mut cursor = Cursor::new("\u{e9}\u{1F600}x");
    assert_eq!(cursor.advance(), Some('\u{e9}'));
    assert_eq!(cursor.advance(), Some('\u{1F600}'));
    assert_eq!(cursor.position(), at(2, 0, 2));
    assert_eq!(cursor.peek(), Some('x'));
}

#[test]
fn productions_leave_the_cursor_behind_what_they_read() {
    let mut cursor = Cursor::new("\"ab\" : [1 , 2] x");
    assert_eq!(parse_string(&mut cursor), Ok("ab".to_string()));
    assert_eq!(cursor.position().offset, 4);
    assert_eq!(cursor.advance(), Some(' '));
    assert_eq!(cursor.advance(), Some(':'));
    assert_eq!(parse_value(&mut cursor), Ok(Value::Array(vec![number("1"), number("2")])));
    assert_eq!(cursor.position().offset, 14);
    assert_eq!(cursor.peek(), Some(' '));
}

#[test]
fn productions_expect_their_first_character() {
    let mut cursor = Cursor::new("x");
    assert_eq!(
        parse_string(&mut cursor),
        Err(ParseError::UnexpectedCharacter { character: 'x', position: at(0, 0, 0) })
    );
    assert_eq!(
        parse_object(&mut cursor),
        Err(ParseError::UnexpectedCharacter { character: 'x', position: at(0, 0, 0) })
    );
    assert_eq!(
        parse_array(&mut cursor),
        Err(ParseError::UnexpectedCharacter { character: 'x', position: at(0, 0, 0) })
    );
    assert_eq!(
        parse_literal(&mut cursor),
        Err(ParseError::UnexpectedCharacter { character: 'x', position: at(0, 0, 0) })
    );
    assert_eq!(
        parse_number(&mut cursor),
        Err(ParseError::InvalidNumber { position: at(0, 0, 0) })
    );
    assert_eq!(cursor.position().offset, 0);
}

#[test]
fn member_is_key_colon_value() {
    let mut cursor = Cursor::new("  \"k\" : [true] ,");
    assert_eq!(
        parse_member(&mut cursor),
        Ok(("k".to_string(), Value::Array(vec![Value::Bool(true)])))
    );
    assert_eq!(cursor.peek(), Some(' '));
    let mut cursor = Cursor::new("\"k\" 1");
    assert_eq!(
        parse_member(&mut cursor),
        Err(ParseError::UnexpectedCharacter { character: '1', position: at(4, 0, 4) })
    );
}

#[test]
fn first_item_is_none_for_an_empty_array() {
    let mut cursor = Cursor::new("  ] rest");
    assert_eq!(parse_value_first_item_array(&mut cursor), Ok(None));
    assert_eq!(cursor.position().offset, 3);
    let mut cursor = Cursor::new(" 7]");
    assert_eq!(parse_value_first_item_array(&mut cursor), Ok(Some(number("7"))));
    assert_eq!(cursor.peek(), Some(']'));
    let mut cursor = Cursor::new(",");
    assert_eq!(
        parse_value_first_item_array(&mut cursor),
        Err(ParseError::UnexpectedCharacter { character: ',', position: at(0, 0, 0) })
    );
}

#[test]
fn number_stops_at_the_first_character_that_is_not_its_own() {
    let mut cursor = Cursor::new("12.5e3,");
    let n = parse_number(&mut cursor).unwrap();
    assert_eq!(n.as_str(), "12.5e3");
    assert_eq!(cursor.peek(), Some(','));
    let mut cursor = Cursor::new("0.5.1");
    assert_eq!(parse_number(&mut cursor).unwrap().as_str(), "0.5");
    assert_eq!(cursor.peek(), Some('.'));
}

#[test]
fn error_exposes_message_and_position() {
    let error = parse("[1,\n x]").unwrap_err();
    assert_eq!(error.position(), at(5, 1, 1));
    assert_eq!(error.message(), "unexpected character");
    assert_eq!(parse("").unwrap_err().message(), "unexpected end of input");
    assert_eq!(parse("\"\\q\"").unwrap_err().message(), "invalid escape sequence");
    assert_eq!(parse("-").unwrap_err().message(), "invalid number");
    assert_eq!(parse("\"").unwrap_err().message(), "unterminated string");
    assert_eq!(parse("1 1").unwrap_err().message(), "trailing data after the document");
}

#[test]
fn classifier_tells_the_production() {
    assert_eq!(classify('{'), Lookahead::Object);
    assert_eq!(classify('['), Lookahead::Array);
    assert_eq!(classify('"'), Lookahead::String);
    assert_eq!(classify('t'), Lookahead::Literal);
    assert_eq!(classify('f'), Lookahead::Literal);
    assert_eq!(classify('n'), Lookahead::Literal);
    assert_eq!(classify('-'), Lookahead::Number);
    for c in '0'..='9' {
        assert_eq!(classify(c), Lookahead::Number);
    }
    for c in ['}', ']', ',', ':', '+', '.', 'e', 'T', ' ', '/', ':', '\u{0}', '\u{e9}'] {
        assert_eq!(classify(c), Lookahead::Other);
    }
}
