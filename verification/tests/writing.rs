use json::config::{parse_config, Config};
use json::number::Number;
use json::parser::parse;
use json::serializer::serialize;
use json::value::Value;

fn num(text: &str) -> Value {
    Value::Number(Number::from_text(text).unwrap())
}

fn text(s: &str) -> Value {
    Value::String(s.to_string())
}

fn sample() -> Value {
    Value::Object(vec![
        ("null".to_string(), Value::Null),
        ("yes".to_string(), Value::Bool(true)),
        ("no".to_string(), Value::Bool(false)),
        ("n".to_string(), num("-12.5e-3")),
        ("s".to_string(), text("a\"b\\c/\n\t\r\u{8}\u{c}\u{1}\u{1f}\u{7f}\u{e9}\u{1F600}")),
        (
            "list".to_string(),
            Value::Array(vec![
                num("0"),
                Value::Array(vec![]),
                Value::Object(vec![]),
                Value::Array(vec![Value::Array(vec![text("")])]),
            ]),
        ),
        ("".to_string(), Value::Object(vec![("k\n".to_string(), num("1"))])),
    ])
}

#[test]
fn serialize_is_compact() {
    assert_eq!(serialize(&Value::Null), "null");
    assert_eq!(serialize(&Value::Bool(true)), "true");
    assert_eq!(serialize(&Value::Bool(false)), "false");
    assert_eq!(serialize(&num("-0.5e2")), "-0.5e2");
    assert_eq!(serialize(&Value::Array(vec![])), "[]");
    assert_eq!(serialize(&Value::Object(vec![])), "{}");
    assert_eq!(serialize(&Value::Array(vec![num("1")])), "[1]");
    assert_eq!(serialize(&Value::Array(vec![num("1"), num("2"), Value::Null])), "[1,2,null]");
    assert_eq!(
        serialize(&Value::Object(vec![
            ("a".to_string(), num("1")),
            ("b".to_string(), Value::Array(vec![Value::Bool(true)])),
        ])),
        "{\"a\":1,\"b\":[true]}"
    );
}

#[test]
fn serialize_escapes_strings() {
    assert_eq!(serialize(&text("a\"b")), "\"a\\\"b\"");
    assert_eq!(serialize(&text("a\\b")), "\"a\\\\b\"");
    assert_eq!(serialize(&text("\n\t\r\u{8}\u{c}")), "\"\\n\\t\\r\\b\\f\"");
    assert_eq!(serialize(&text("\u{0}\u{1}\u{b}\u{1f}")), "\"\\u0000\\u0001\\u000b\\u001f\"");
    assert_eq!(serialize(&text("a/b")), "\"a/b\"");
    assert_eq!(serialize(&text("\u{7f}\u{e9}\u{1F600} ")), "\"\u{7f}\u{e9}\u{1F600} \"");
    assert_eq!(
        serialize(&Value::Object(vec![("k\"".to_string(), Value::Null)])),
        "{\"k\\\"\":null}"
    );
}

#[test]
fn parse_gives_back_what_serialize_wrote() {
    let value = sample();
    assert_eq!(parse(&serialize(&value)), Ok(value));
    for value in [
        Value::Null,
        Value::Bool(true),
        num("0"),
        num("-0"),
        num("1E400"),
        text(""),
        text("\u{0}"),
        Value::Array(vec![]),
        Value::Object(vec![]),
        Value::Array(vec![num("1.5"), num("2")]),
    ] {
        assert_eq!(parse(&serialize(&value)), Ok(value));
    }
}

#[test]
fn every_control_character_is_read_back() {
    for code in 0u32..0x20 {
        let c = char::from_u32(code).unwrap();
        let value = Value::String(format!("x{}y", c));
        let written = serialize(&value);
        assert!(written.chars().all(|c| c >= ' '));
        assert_eq!(parse(&written), Ok(value));
    }
}

#[test]
fn serialize_gives_back_compact_text() {
    let written = "{\"a\":[1,2.50,{\"b\":\"\\u0001x\"}],\"c\":null}";
    assert_eq!(serialize(&parse(written).unwrap()), written);
    assert_eq!(serialize(&parse(" [ 1 , \"\\u0041\\/\" ] ").unwrap()), "[1,\"A/\"]");
}

#[test]
fn shortest_notation_of_a_float_is_a_number() {
    for x in [0.0f64, -0.0, 1.0, -50.0, 0.1, 1.5e300, 5e-324, 123456789.125, f64::MAX, f64::MIN] {
        let written = format!("{}", x);
        let n = Number::from_text(&written).unwrap();
        assert_eq!(n.as_str().parse::<f64>().unwrap(), x);
        let back = parse(&serialize(&Value::Number(n))).unwrap();
        match back {
            Value::Number(n) => assert_eq!(n.as_str().parse::<f64>().unwrap(), x),
            other => panic!("{:?}", other),
        }
    }
    assert_eq!(format!("{}", 1.0f64), "1");
    assert_eq!(format!("{}", -50.0f64), "-50");
}

#[test]
fn notations_that_are_no_number_are_refused() {
    for written in [
        format!("{}", f64::NAN),
        format!("{}", f64::INFINITY),
        format!("{}", f64::NEG_INFINITY),
        "".to_string(),
        "-".to_string(),
        "01".to_string(),
        "1.".to_string(),
        ".5".to_string(),
        "1e".to_string(),
        "+1".to_string(),
        "1 ".to_string(),
        " 1".to_string(),
        "1,".to_string(),
        "0x1".to_string(),
        "1.5.2".to_string(),
    ] {
        assert_eq!(Number::from_text(&written), None);
    }
    for written in ["0", "-0", "10", "-1.25", "0.0", "1e5", "1E-5", "9.75e+20", "0e0"] {
        assert_eq!(Number::from_text(written).unwrap().as_str(), written);
    }
}

#[test]
fn config_takes_target_and_flags() {
    let args = vec!["prog".to_string(), "file.json".to_string(), "-v".to_string()];
    assert_eq!(
        parse_config(&args),
        Config { target: "file.json".to_string(), flags: "-v".to_string() }
    );
}

#[test]
fn config_defaults() {
    assert_eq!(
        parse_config(&["prog".to_string()]),
        Config { target: "-".to_string(), flags: "".to_string() }
    );
    assert_eq!(parse_config(&[]), Config { target: "-".to_string(), flags: "".to_string() });
    assert_eq!(
        parse_config(&["prog".to_string(), "t".to_string()]),
        Config { target: "t".to_string(), flags: "".to_string() }
    );
    assert_eq!(
        parse_config(&[
            "prog".to_string(),
            "t".to_string(),
            "f".to_string(),
            "more".to_string()
        ]),
        Config { target: "t".to_string(), flags: "f".to_string() }
    );
}
