use toolbox::json::analyze::analyze_json;
use toolbox::json::grammar::ErrorKind;
use toolbox::json::number::JsonNumber;
use toolbox::json::parser::{parse_json, JsonParser, ParseError};
use toolbox::json::query::query_json_path;
use toolbox::json::render::pretty_print_json;
use toolbox::json::value::{JsonObject, JsonValue};

fn number(n: u64) -> JsonValue {
    let digits: Vec<u8> = n.to_string().bytes().map(|b| b - b'0').collect();
    JsonValue::Number(JsonNumber::from_digits(false, &digits, 0).unwrap())
}

fn as_f64(value: &JsonValue) -> f64 {
    match value {
        JsonValue::Number(n) => n.render().parse::<f64>().unwrap(),
        other => panic!("not a number: {:?}", other),
    }
}

fn text(s: &str) -> JsonValue {
    JsonValue::String(s.to_string())
}

fn kind_of(input: &str) -> ErrorKind {
    parse_json(input).unwrap_err().kind
}

#[test]
fn test_parse_simple_object() {
    let json = r#"{"name": "John", "age": 30, "active": true}"#;
    let mut parser = JsonParser::new(json);
    let result = parser.parse().unwrap();

    if let JsonValue::Object(obj) = result {
        assert_eq!(obj.get("name"), Some(&JsonValue::String("John".to_string())));
        assert_eq!(obj.get("age"), Some(&number(30)));
        assert_eq!(as_f64(obj.get("age").unwrap()), 30.0);
        assert_eq!(obj.get("active"), Some(&JsonValue::Bool(true)));
    } else {
        panic!("Expected object");
    }
}

#[test]
fn test_parse_array() {
    let json = r#"[1, 2, 3, "hello", null, true]"#;
    let mut parser = JsonParser::new(json);
    let result = parser.parse().unwrap();

    if let JsonValue::Array(arr) = result {
        assert_eq!(arr.len(), 6);
        assert_eq!(arr[0], number(1));
        assert_eq!(as_f64(&arr[0]), 1.0);
        assert_eq!(arr[3], JsonValue::String("hello".to_string()));
        assert_eq!(arr[4], JsonValue::Null);
        assert_eq!(arr[5], JsonValue::Bool(true));
    } else {
        panic!("Expected array");
    }
}

#[test]
fn test_nested_structure() {
    let json = r#"{"users": [{"name": "Alice", "scores": [95, 87]}]}"#;
    let mut parser = JsonParser::new(json);
    let result = parser.parse().unwrap();

    let alice_score = query_json_path(&result, "users[0].scores[0]");
    assert_eq!(alice_score, Some(&number(95)));
    assert_eq!(as_f64(alice_score.unwrap()), 95.0);
}

#[test]
fn empty_and_blank_input_have_no_value() {
    assert_eq!(parse_json(""), Err(ParseError { kind: ErrorKind::EmptyInput, position: 0 }));
    assert_eq!(parse_json("   "), Err(ParseError { kind: ErrorKind::EmptyInput, position: 3 }));
    assert_eq!(kind_of(" \n\t\r "), ErrorKind::EmptyInput);
}

#[test]
fn duplicate_key_keeps_the_last_value() {
    let value = parse_json(r#"{"a":1,"a":2}"#).unwrap();
    match &value {
        JsonValue::Object(obj) => {
            assert_eq!(obj.len(), 1);
            assert_eq!(obj.get("a"), Some(&number(2)));
        }
        other => panic!("not an object: {:?}", other),
    }
    assert_eq!(value.render_compact(), r#"{"a": 2}"#);
}

#[test]
fn trailing_comma_is_a_syntax_error() {
    assert_eq!(
        parse_json("[1,2,]"),
        Err(ParseError { kind: ErrorKind::SyntaxError, position: 5 })
    );
    assert_eq!(kind_of(r#"{"a":1,}"#), ErrorKind::SyntaxError);
}

#[test]
fn query_follows_keys_and_indices() {
    let value = parse_json(r#"{"users":[{"name":"Alice"}]}"#).unwrap();
    assert_eq!(query_json_path(&value, "users[0].name"), Some(&text("Alice")));
    assert_eq!(query_json_path(&value, "users[5].name"), None);
    assert_eq!(query_json_path(&value, ""), Some(&value));
    assert_eq!(query_json_path(&value, "users.name"), None);
    assert_eq!(query_json_path(&value, "missing"), None);
    assert_eq!(query_json_path(&value, "users[0].name.more"), None);
    assert_eq!(query_json_path(&value, "users[x]"), None);
    assert_eq!(query_json_path(&value, "users[]"), None);
    assert_eq!(query_json_path(&value, "]["), None);
    assert_eq!(query_json_path(&value, "users[0]x"), None);
    assert_eq!(query_json_path(&value, "users[+0].name"), Some(&text("Alice")));
    assert_eq!(query_json_path(&value, "users[99999999999999999999999999]"), None);
    assert_eq!(query_json_path(&value, "users."), None);
}

#[test]
fn query_indexes_a_root_array() {
    let value = parse_json("[[10, 20], [30]]").unwrap();
    assert_eq!(query_json_path(&value, "[0]"), Some(&parse_json("[10,20]").unwrap()));
    assert_eq!(query_json_path(&value, "[1].[0]"), Some(&number(30)));
    assert_eq!(query_json_path(&value, "[2]"), None);
}

#[test]
fn exponent_scales_the_number() {
    let value = parse_json("3.14e2").unwrap();
    assert_eq!(value, number(314));
    assert_eq!(as_f64(&value), 314.0);
    assert_eq!(value.render_compact(), "314");
}

#[test]
fn numbers_are_normalized() {
    assert_eq!(parse_json("1.50").unwrap(), parse_json("15e-1").unwrap());
    assert_eq!(parse_json("-0").unwrap(), parse_json("0.000").unwrap());
    assert_eq!(parse_json("007").unwrap(), number(7));
    assert_eq!(parse_json("1E3").unwrap(), number(1000));
    assert_eq!(parse_json("1e+3").unwrap(), number(1000));
    assert_eq!(parse_json("-2.5").unwrap().render_compact(), "-2.5");
    assert_eq!(parse_json("25e-4").unwrap().render_compact(), "0.0025");
    assert_eq!(parse_json("120e1").unwrap().render_compact(), "1200");
    assert_eq!(parse_json("0e999999999999999999999999999999999999999").unwrap(), number(0));
    match parse_json("12.5e-1").unwrap() {
        JsonValue::Number(n) => {
            assert!(!n.is_negative());
            assert_eq!(n.digits(), &vec![1u8, 2, 5]);
            assert_eq!(n.exponent(), -2);
            assert!(!n.is_integer());
        }
        other => panic!("not a number: {:?}", other),
    }
}

#[test]
fn malformed_numbers_are_lexical_errors() {
    assert_eq!(parse_json("-"), Err(ParseError { kind: ErrorKind::LexicalError, position: 1 }));
    assert_eq!(parse_json("1."), Err(ParseError { kind: ErrorKind::LexicalError, position: 2 }));
    assert_eq!(parse_json("1e"), Err(ParseError { kind: ErrorKind::LexicalError, position: 2 }));
    assert_eq!(parse_json("1e+"), Err(ParseError { kind: ErrorKind::LexicalError, position: 3 }));
    assert_eq!(kind_of("-.5"), ErrorKind::LexicalError);
    assert_eq!(parse_json("1e2000"), Err(ParseError { kind: ErrorKind::LexicalError, position: 0 }));
    assert_eq!(kind_of("1e-2000"), ErrorKind::LexicalError);
    assert_eq!(kind_of("1e99999999999999999999999999999999999999999"), ErrorKind::LexicalError);
    assert!(parse_json("1e1024").is_ok());
    assert_eq!(kind_of("1e1025"), ErrorKind::LexicalError);
}

#[test]
fn each_error_kind_has_its_input() {
    assert_eq!(kind_of(""), ErrorKind::EmptyInput);
    assert_eq!(kind_of("\"abc"), ErrorKind::LexicalError);
    assert_eq!(kind_of("\"abc\\"), ErrorKind::LexicalError);
    assert_eq!(kind_of("tru"), ErrorKind::LexicalError);
    assert_eq!(kind_of("nul"), ErrorKind::LexicalError);
    assert_eq!(kind_of("fals"), ErrorKind::LexicalError);
    assert_eq!(kind_of("[1 2]"), ErrorKind::SyntaxError);
    assert_eq!(kind_of("[1"), ErrorKind::SyntaxError);
    assert_eq!(kind_of("["), ErrorKind::SyntaxError);
    assert_eq!(kind_of(r#"{"a" 1}"#), ErrorKind::SyntaxError);
    assert_eq!(kind_of(r#"{"a":1"#), ErrorKind::SyntaxError);
    assert_eq!(kind_of("{a:1}"), ErrorKind::SyntaxError);
    assert_eq!(kind_of("?"), ErrorKind::SyntaxError);
    assert_eq!(
        parse_json("1 2"),
        Err(ParseError { kind: ErrorKind::TrailingDataError, position: 2 })
    );
    assert_eq!(kind_of("{} x"), ErrorKind::TrailingDataError);
    assert_eq!(kind_of("truex"), ErrorKind::TrailingDataError);
}

#[test]
fn strings_are_unescaped_when_read() {
    assert_eq!(parse_json(r#""a\nb\tc\rd""#).unwrap(), text("a\nb\tc\rd"));
    assert_eq!(parse_json(r#""q\"b\\s\/""#).unwrap(), text("q\"b\\s/"));
    assert_eq!(parse_json(r#""\x\u""#).unwrap(), text("xu"));
    assert_eq!(parse_json("\"héllo ☃\"").unwrap(), text("héllo ☃"));
}

#[test]
fn cursor_moves_forward_only() {
    let mut parser = JsonParser::new(" \u{a0}x");
    assert_eq!(parser.current_char(), Some(' '));
    parser.skip_whitespace();
    assert_eq!(parser.position(), 2);
    assert_eq!(parser.current_char(), Some('x'));
    parser.advance();
    assert_eq!(parser.current_char(), None);
    parser.advance();
    assert_eq!(parser.position(), 3);
    let mut strings = JsonParser::new(r#""one" rest"#);
    assert_eq!(strings.parse_string(), Ok("one".to_string()));
    assert_eq!(strings.position(), 5);
    assert_eq!(
        strings.parse_string(),
        Err(ParseError { kind: ErrorKind::SyntaxError, position: 5 })
    );
}

#[test]
fn compact_rendering() {
    let value = parse_json(r#" { "b" : [1, 2.5, "x\"y", null, false, {}], "a" : [] } "#).unwrap();
    assert_eq!(value.render_compact(), r#"{"a": [], "b": [1, 2.5, "x\"y", null, false, {}]}"#);
    assert_eq!(parse_json("[]").unwrap().render_compact(), "[]");
    assert_eq!(text("back\\slash").render_compact(), r#""back\\slash""#);
}

#[test]
fn pretty_rendering() {
    assert_eq!(parse_json("{}").unwrap().render_pretty(), "{}");
    assert_eq!(parse_json("[]").unwrap().render_pretty(), "[]");
    let value = parse_json(r#"{"b":2,"a":1}"#).unwrap();
    assert_eq!(value.render_pretty(), "{\n  \"a\": 1,\n  \"b\": 2\n}");
    let nested = parse_json(r#"{"k":[1,{"z":null,"y":[]}],"j":"s"}"#).unwrap();
    assert_eq!(
        nested.render_pretty(),
        "{\n  \"j\": \"s\",\n  \"k\": [\n    1,\n    {\n      \"y\": [],\n      \"z\": null\n    }\n  ]\n}"
    );
    assert_eq!(pretty_print_json(&parse_json("[true]").unwrap(), 2), "[\n      true\n    ]");
}

#[test]
fn rendering_reads_back_as_the_same_value() {
    let inputs = [
        r#"{"users": [{"name": "Alice", "scores": [95, 87.5, -0.001, 1e10]}], "ok": true}"#,
        r#"["quote \" and \\ backslash", "line\nbreak", "", "é☃"]"#,
        r#"{"": {"": {}}, "a.b": [[[]]], "z": null}"#,
        "123456789012345678901234567890.000000000000000000001",
        "  -12e-30 ",
    ];
    for input in inputs {
        let value = parse_json(input).unwrap();
        assert_eq!(parse_json(&value.render_compact()), Ok(parse_json(input).unwrap()));
        assert_eq!(parse_json(&value.render_pretty()).unwrap(), value);
    }
}

#[test]
fn analysis_lists_every_node() {
    let value = parse_json(r#"{"name":"Zoë","tags":["a",true,null],"n":-1.5}"#).unwrap();
    let lines = analyze_json(&value, String::new());
    let expected = vec![
        ("", "object (3 properties)"),
        ("n", "number (-1.5)"),
        ("name", "string (Zoë, length 4)"),
        ("tags", "array (length 3)"),
        ("tags[0]", "string (a, length 1)"),
        ("tags[1]", "boolean (true)"),
        ("tags[2]", "null"),
    ];
    assert_eq!(lines.len(), expected.len());
    for (line, (path, description)) in lines.iter().zip(expected) {
        assert_eq!(line.0, path);
        assert_eq!(line.1, description);
    }
    let rooted = analyze_json(&parse_json(r#"[{"k":[false]}]"#).unwrap(), "root".to_string());
    let paths: Vec<&str> = rooted.iter().map(|l| l.0.as_str()).collect();
    assert_eq!(paths, vec!["root", "root[0]", "root[0].k", "root[0].k[0]"]);
    assert_eq!(rooted[3].1, "boolean (false)");
}

#[test]
fn object_keeps_keys_in_order() {
    let mut object = JsonObject::new();
    assert!(object.is_empty());
    object.insert("pear".to_string(), number(1));
    object.insert("apple".to_string(), number(2));
    object.insert("peach".to_string(), number(3));
    object.insert("apple".to_string(), number(4));
    object.insert("app".to_string(), JsonValue::Null);
    assert_eq!(object.len(), 4);
    let keys: Vec<String> = (0..object.len()).map(|i| object.key_at(i)).collect();
    assert_eq!(keys, vec!["app", "apple", "peach", "pear"]);
    assert_eq!(object.value_at(1), &number(4));
    assert!(object.contains_key("pear"));
    assert!(!object.contains_key("plum"));
    assert_eq!(object.get("plum"), None);
}

#[test]
fn numbers_are_made_from_integers() {
    assert_eq!(JsonValue::Number(JsonNumber::from_u64(314)), number(314));
    assert_eq!(JsonValue::Number(JsonNumber::from_u64(0)), parse_json("0").unwrap());
    assert_eq!(JsonNumber::from_u64(1200).exponent(), 2);
    assert_eq!(JsonNumber::from_u64(u64::MAX).render(), "18446744073709551615");
    assert_eq!(JsonNumber::from_i64(i64::MIN).render(), "-9223372036854775808");
    assert_eq!(JsonNumber::from_i64(-50).render(), "-50");
    assert_eq!(JsonNumber::from_i64(7), JsonNumber::from_u64(7));
    assert_eq!(JsonNumber::zero(), JsonNumber::from_i64(0));
    assert_eq!(JsonNumber::from_digits(true, &vec![0, 0], 5), Some(JsonNumber::zero()));
    assert_eq!(JsonNumber::from_digits(false, &vec![1], 1025), None);
    assert_eq!(JsonNumber::from_digits(false, &vec![1, 0], 1024), None);
    assert_eq!(JsonNumber::from_digits(false, &vec![0, 1], -1024).unwrap().exponent(), -1024);
}
