use json5_core::parse;
use json5_core::Number;
use json5_core::NumberForm;
use json5_core::ParseError;
use json5_core::Value;

fn dec(neg: bool, digits: Vec<u8>, exp: i64) -> Value {
    Value::Number(Number { neg, form: NumberForm::Dec { digits, exp } })
}

fn hex(neg: bool, digits: Vec<u8>) -> Value {
    Value::Number(Number { neg, form: NumberForm::Hex { digits } })
}

fn text(s: &str) -> Value {
    Value::String(s.to_string())
}

fn obj(members: Vec<(&str, Value)>) -> Value {
    Value::Object(members.into_iter().map(|(k, v)| (k.to_string(), v)).collect())
}

/// The numeric value a `Number` stands for, for checking mathematical
/// equality of literal forms.
fn num_f64(v: &Value) -> f64 {
    match v {
        Value::Number(n) => {
            let mag = match &n.form {
                NumberForm::Dec { digits, exp } => {
                    let ds: String = digits.iter().map(|d| (b'0' + d) as char).collect();
                    format!("{}e{}", ds, exp).parse::<f64>().unwrap()
                }
                NumberForm::Hex { digits } => {
                    digits.iter().fold(0.0f64, |acc, d| acc * 16.0 + *d as f64)
                }
            };
            if n.neg {
                -mag
            } else {
                mag
            }
        }
        _ => panic!("not a number"),
    }
}

/// A small encoder, external to the parser, used only to exercise the
/// round-trip property: it writes every value in a form the parser maps back
/// to the identical tree.
fn encode(v: &Value) -> String {
    match v {
        Value::Null => "null".to_string(),
        Value::Boolean(true) => "true".to_string(),
        Value::Boolean(false) => "false".to_string(),
        Value::Number(n) => {
            let sign = if n.neg { "-" } else { "" };
            match &n.form {
                NumberForm::Dec { digits, exp } => {
                    let mut mantissa = String::new();
                    mantissa.push((b'0' + digits[0]) as char);
                    if digits.len() > 1 {
                        mantissa.push('.');
                        for d in &digits[1..] {
                            mantissa.push((b'0' + d) as char);
                        }
                    }
                    let e = exp + (digits.len() as i64 - 1);
                    format!("{}{}e{}", sign, mantissa, e)
                }
                NumberForm::Hex { digits } => {
                    let ds: String = digits
                        .iter()
                        .map(|d| std::char::from_digit(*d as u32, 16).unwrap())
                        .collect();
                    format!("{}0x{}", sign, ds)
                }
            }
        }
        Value::String(s) => {
            let mut out = String::from("\"");
            for c in s.chars() {
                match c {
                    '"' => out.push_str("\\\""),
                    '\\' => out.push_str("\\\\"),
                    '\n' => out.push_str("\\n"),
                    '\r' => out.push_str("\\r"),
                    '\t' => out.push_str("\\t"),
                    '\u{0000}' => out.push_str("\\0"),
                    c => out.push(c),
                }
            }
            out.push('"');
            out
        }
        Value::Array(items) => {
            let parts: Vec<String> = items.iter().map(encode).collect();
            format!("[{}]", parts.join(","))
        }
        Value::Object(members) => {
            let parts: Vec<String> = members
                .iter()
                .map(|(k, v)| format!("{}:{}", encode(&Value::String(k.clone())), encode(v)))
                .collect();
            format!("{{{}}}", parts.join(","))
        }
    }
}

#[test]
fn parsing_is_deterministic() {
    let t = "{a: [1, 2.5, null, true, 'x'], b: {c: 0x1A}} // tail";
    let r1 = parse(t.to_string());
    let r2 = parse(t.to_string());
    assert_eq!(r1, r2);
    let bad = "{a: }";
    assert_eq!(parse(bad.to_string()), parse(bad.to_string()));
}

#[test]
fn round_trip_of_form() {
    for t in [
        "null",
        "true",
        "[1,2,3]",
        "{a:1,b:[0.5,'s',null],c:{d:false}}",
        "{\"weird key\":\"a\\nb\\tc\\\\d\",empty:[],nothing:{}}",
        "[-1e10,0x1A,-0.25,5.,.5,+3]",
    ] {
        let v = parse(t.to_string()).unwrap();
        let v2 = parse(encode(&v)).unwrap();
        assert_eq!(v2, v);
    }
}

#[test]
fn duplicate_object_keys_last_write_wins() {
    let v = parse("{\"a\":1,\"a\":2}".to_string()).unwrap();
    assert_eq!(v, obj(vec![("a", dec(false, vec![2], 0))]));
}

#[test]
fn duplicate_keys_keep_first_position() {
    let v = parse("{a:1,b:2,a:3}".to_string()).unwrap();
    assert_eq!(
        v,
        obj(vec![("a", dec(false, vec![3], 0)), ("b", dec(false, vec![2], 0))])
    );
}

#[test]
fn escape_resolution() {
    let v = parse("\"\\n\\t\\\\\\x41\"".to_string()).unwrap();
    assert_eq!(v, text("\n\t\\A"));
}

#[test]
fn escape_named_and_literal() {
    let v = parse("'\\r\\b\\v\\f\\0\\q\\''".to_string()).unwrap();
    assert_eq!(v, text("\r\u{0008}\u{000B}\u{000C}\u{0000}q'"));
}

#[test]
fn bare_identifier_keys() {
    let a = parse("{foo: 1}".to_string()).unwrap();
    let b = parse("{\"foo\": 1}".to_string()).unwrap();
    assert_eq!(a, b);
    assert_eq!(a, obj(vec![("foo", dec(false, vec![1], 0))]));
    let c = parse("{_a$1: 2}".to_string()).unwrap();
    assert_eq!(c, obj(vec![("_a$1", dec(false, vec![2], 0))]));
}

#[test]
fn trailing_commas_accepted() {
    let a = parse("[1,2,3,]".to_string()).unwrap();
    assert_eq!(
        a,
        Value::Array(vec![
            dec(false, vec![1], 0),
            dec(false, vec![2], 0),
            dec(false, vec![3], 0),
        ])
    );
    let b = parse("{a:1,}".to_string()).unwrap();
    assert_eq!(b, obj(vec![("a", dec(false, vec![1], 0))]));
}

#[test]
fn comments_are_transparent() {
    let a = parse("// comment\n{a:1}".to_string()).unwrap();
    let b = parse("{a:1}".to_string()).unwrap();
    assert_eq!(a, b);
    let c = parse("/* block */ {a /* mid */ : 1} // end".to_string()).unwrap();
    assert_eq!(c, b);
}

#[test]
fn malformed_input_is_a_syntax_error() {
    for t in [
        "{a: }", "", "{", "[1", "01", "1e", "0x", "'abc", "\"a\nb\"", "[1 2]", "{a 1}",
        "nulla", "truex", "1 2", ".", "+", "-.", "{1:2}", "[,1]", "1 /* open",
    ] {
        match parse(t.to_string()) {
            Err(ParseError::Syntax { .. }) => {}
            other => panic!("{:?} on {:?}", other, t),
        }
    }
}

#[test]
fn syntax_error_position() {
    match parse("{\na: }".to_string()) {
        Err(ParseError::Syntax { pos, line, column, message }) => {
            assert_eq!(pos, 5);
            assert_eq!(line, 2);
            assert_eq!(column, 4);
            assert_eq!(message, "unexpected character");
        }
        other => panic!("{:?}", other),
    }
}

#[test]
fn unicode_escape_is_unsupported() {
    match parse("\"\\u0041\"".to_string()) {
        Err(ParseError::UnsupportedEscape { pos }) => assert_eq!(pos, 1),
        other => panic!("{:?}", other),
    }
    // A malformed long-form escape is a syntax error, not an unsupported one.
    match parse("\"\\u00\"".to_string()) {
        Err(ParseError::Syntax { .. }) => {}
        other => panic!("{:?}", other),
    }
}

#[test]
fn number_forms_reduce_to_equal_values() {
    assert_eq!(num_f64(&parse("1".to_string()).unwrap()), 1.0);
    assert_eq!(num_f64(&parse("1.5".to_string()).unwrap()), 1.5);
    assert_eq!(num_f64(&parse("-1e10".to_string()).unwrap()), -1e10);
    assert_eq!(num_f64(&parse("0x1A".to_string()).unwrap()), 26.0);
    assert_eq!(
        num_f64(&parse("26".to_string()).unwrap()),
        num_f64(&parse("0x1A".to_string()).unwrap())
    );
}

#[test]
fn number_structures() {
    assert_eq!(parse("1".to_string()).unwrap(), dec(false, vec![1], 0));
    assert_eq!(parse("1.5".to_string()).unwrap(), dec(false, vec![1, 5], -1));
    assert_eq!(parse("-1e10".to_string()).unwrap(), dec(true, vec![1], 10));
    assert_eq!(parse("+3".to_string()).unwrap(), dec(false, vec![3], 0));
    assert_eq!(parse(".5".to_string()).unwrap(), dec(false, vec![5], -1));
    assert_eq!(parse("5.".to_string()).unwrap(), dec(false, vec![5], 0));
    assert_eq!(parse("1E+2".to_string()).unwrap(), dec(false, vec![1], 2));
    assert_eq!(parse("1e-2".to_string()).unwrap(), dec(false, vec![1], -2));
    assert_eq!(parse("0.25".to_string()).unwrap(), dec(false, vec![0, 2, 5], -2));
    assert_eq!(parse("0x1A".to_string()).unwrap(), hex(false, vec![1, 10]));
    assert_eq!(parse("-0XfF".to_string()).unwrap(), hex(true, vec![15, 15]));
    assert_eq!(parse("0".to_string()).unwrap(), dec(false, vec![0], 0));
    assert_eq!(parse("-0".to_string()).unwrap(), dec(true, vec![0], 0));
}

#[test]
fn huge_exponent_saturates() {
    assert_eq!(
        parse("1e99999999999999999999".to_string()).unwrap(),
        dec(false, vec![1], i64::MAX)
    );
}

#[test]
fn strings_both_quote_styles() {
    assert_eq!(parse("'it'".to_string()).unwrap(), text("it"));
    assert_eq!(parse("\"it\"".to_string()).unwrap(), text("it"));
    assert_eq!(parse("'a\"b'".to_string()).unwrap(), text("a\"b"));
    assert_eq!(parse("\"a'b\"".to_string()).unwrap(), text("a'b"));
    assert_eq!(parse("''".to_string()).unwrap(), text(""));
}

#[test]
fn empty_containers() {
    assert_eq!(parse("[]".to_string()).unwrap(), Value::Array(vec![]));
    assert_eq!(parse("{}".to_string()).unwrap(), Value::Object(vec![]));
    assert_eq!(parse(" [ ] ".to_string()).unwrap(), Value::Array(vec![]));
}

#[test]
fn literals() {
    assert_eq!(parse("null".to_string()).unwrap(), Value::Null);
    assert_eq!(parse("true".to_string()).unwrap(), Value::Boolean(true));
    assert_eq!(parse("false".to_string()).unwrap(), Value::Boolean(false));
}

#[test]
fn nested_structure() {
    let v = parse("{a: [1, {b: 'c'}], d: null}".to_string()).unwrap();
    assert_eq!(
        v,
        obj(vec![
            (
                "a",
                Value::Array(vec![
                    dec(false, vec![1], 0),
                    obj(vec![("b", text("c"))]),
                ])
            ),
            ("d", Value::Null),
        ])
    );
}

#[test]
fn whitespace_forms() {
    let v = parse("\u{00A0}\u{FEFF}\t\r\n {a:1}".to_string()).unwrap();
    assert_eq!(v, obj(vec![("a", dec(false, vec![1], 0))]));
}

#[test]
fn deep_nesting() {
    let v = parse("[[[[1]]]]".to_string()).unwrap();
    assert_eq!(
        v,
        Value::Array(vec![Value::Array(vec![Value::Array(vec![Value::Array(vec![dec(
            false,
            vec![1],
            0
        )])])])])
    );
}

#[test]
fn string_keys_resolve_escapes() {
    let v = parse("{'a\\x41': 1}".to_string()).unwrap();
    assert_eq!(v, obj(vec![("aA", dec(false, vec![1], 0))]));
}

#[test]
fn escaped_line_break_keeps_the_character() {
    // An escaped character that names no control code stands for itself,
    // so a backslash before a line break keeps the line break.
    let v = parse("'a\\\nb'".to_string()).unwrap();
    assert_eq!(v, text("a\nb"));
}

#[test]
fn keyword_keys_are_plain_identifiers() {
    let v = parse("{null: 1, true: 2}".to_string()).unwrap();
    assert_eq!(
        v,
        obj(vec![("null", dec(false, vec![1], 0)), ("true", dec(false, vec![2], 0))])
    );
}
