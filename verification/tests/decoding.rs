use celkit::mini;
use celkit::pretty;
use celkit::{from_string, from_string_as, Decimal, Deserialize, Entries, Error, Number, Value};

fn small(n: i8) -> Value {
    Value::Number(Number::I8(n))
}

fn text(s: &str) -> Value {
    Value::Text(s.to_string())
}

fn entries(pairs: Vec<(&str, Value)>) -> Entries {
    let mut e = Entries::new();
    for (k, v) in pairs {
        e.insert(k, v);
    }
    e
}

fn fails(input: &str) -> (String, usize, usize) {
    let e = from_string(input).unwrap_err();
    assert!(e.context.is_none());
    (e.message, e.line.unwrap(), e.column.unwrap())
}

fn failure(message: &str, line: usize, column: usize) -> (String, usize, usize) {
    (message.to_string(), line, column)
}

fn sample() -> Value {
    Value::Object(entries(vec![
        ("name", text("cel\"kit\n")),
        ("tags", Value::Array(vec![text("a"), text("b"), Value::Null, Value::Boolean(true)])),
        ("point", Value::Struct(String::new(), entries(vec![("x", small(1)), ("y", small(-2))]))),
        ("big", Value::Array((1..=12).map(|i| Value::Number(Number::I16(i * 1000))).collect())),
        ("pair", Value::Tuple(vec![Value::Number(Number::F64(Decimal::parse("1.5").unwrap())), Value::Tuple(vec![])])),
        ("", Value::Object(Entries::new())),
    ]))
}

#[test]
fn decode_array_with_trailing_comma() {
    assert_eq!(from_string("[1, 2, 3,]").unwrap(), Value::Array(vec![small(1), small(2), small(3)]));
}

#[test]
fn decode_unclosed_array() {
    let e = from_string("[1, 2").unwrap_err();
    assert_eq!(e.line, Some(1));
    assert_eq!(e.column, Some(6));
    assert_eq!(e.message, "expected ',' or ']', found end of input");
    assert_eq!(
        e.to_string(),
        "Parse error at line 1, column 6: expected ',' or ']', found end of input"
    );
}

#[test]
fn decode_unclosed_array_reports_behind_the_last_token() {
    assert_eq!(fails("[1, 2  \n "), failure("expected ',' or ']', found end of input", 1, 6));
}

#[test]
fn decode_scalars() {
    assert_eq!(from_string("null").unwrap(), Value::Null);
    assert_eq!(from_string("true").unwrap(), Value::Boolean(true));
    assert_eq!(from_string("false").unwrap(), Value::Boolean(false));
    assert_eq!(from_string("\"a\\nb\"").unwrap(), text("a\nb"));
    assert_eq!(from_string("  \t\r\n 7 \n").unwrap(), small(7));
}

#[test]
fn decode_composites() {
    assert_eq!(from_string("[]").unwrap(), Value::Array(vec![]));
    assert_eq!(from_string("( )").unwrap(), Value::Tuple(vec![]));
    assert_eq!(from_string("{}").unwrap(), Value::Object(Entries::new()));
    assert_eq!(from_string("@()").unwrap(), Value::Struct(String::new(), Entries::new()));
    assert_eq!(from_string("@ ( )").unwrap(), Value::Struct(String::new(), Entries::new()));
    assert_eq!(from_string("(1,\"a\")").unwrap(), Value::Tuple(vec![small(1), text("a")]));
    assert_eq!(
        from_string("{\"b\":1,\"a\":[2]}").unwrap(),
        Value::Object(entries(vec![("a", Value::Array(vec![small(2)])), ("b", small(1))]))
    );
    assert_eq!(
        from_string("@(y = 2, x = 1,)").unwrap(),
        Value::Struct(String::new(), entries(vec![("x", small(1)), ("y", small(2))]))
    );
}

#[test]
fn decode_keywords_may_name_fields() {
    assert_eq!(
        from_string("@(null=1,true=2)").unwrap(),
        Value::Struct(String::new(), entries(vec![("null", small(1)), ("true", small(2))]))
    );
}

#[test]
fn decode_integer_takes_the_narrowest_signed_width() {
    let n = |s: &str| match from_string(s).unwrap() {
        Value::Number(n) => n,
        other => panic!("{:?}", other),
    };
    assert_eq!(n("0"), Number::I8(0));
    assert_eq!(n("-0"), Number::I8(0));
    assert_eq!(n("007"), Number::I8(7));
    assert_eq!(n("127"), Number::I8(127));
    assert_eq!(n("-128"), Number::I8(-128));
    assert_eq!(n("128"), Number::I16(128));
    assert_eq!(n("-129"), Number::I16(-129));
    assert_eq!(n("32767"), Number::I16(32767));
    assert_eq!(n("32768"), Number::I32(32768));
    assert_eq!(n("-2147483648"), Number::I32(-2147483648));
    assert_eq!(n("2147483648"), Number::I64(2147483648));
    assert_eq!(n("-9223372036854775808"), Number::I64(i64::MIN));
    assert_eq!(n("9223372036854775808"), Number::I128(9223372036854775808));
    assert_eq!(n("170141183460469231731687303715884105727"), Number::I128(i128::MAX));
    assert_eq!(n("-170141183460469231731687303715884105728"), Number::I128(i128::MIN));
    assert_eq!(n("170141183460469231731687303715884105728"), Number::U128(1 << 127));
    assert_eq!(n("340282366920938463463374607431768211455"), Number::U128(u128::MAX));
}

#[test]
fn decode_other_numbers_keep_their_literal() {
    let n = |s: &str| match from_string(s).unwrap() {
        Value::Number(Number::F64(d)) => d.to_string(),
        other => panic!("{:?}", other),
    };
    assert_eq!(n("1.5"), "1.5");
    assert_eq!(n("-0.25"), "-0.25");
    assert_eq!(n("1e3"), "1e3");
    assert_eq!(n("2E-7"), "2E-7");
    assert_eq!(n("1.0"), "1.0");
    assert_eq!(n("340282366920938463463374607431768211456"), "340282366920938463463374607431768211456");
    assert_eq!(n("-170141183460469231731687303715884105729"), "-170141183460469231731687303715884105729");
}

#[test]
fn decode_expected_value() {
    assert_eq!(fails(""), failure("expected a value, found end of input", 1, 1));
    assert_eq!(fails("   "), failure("expected a value, found end of input", 1, 1));
    assert_eq!(fails("nil"), failure("expected a value, found 'n'", 1, 1));
    assert_eq!(fails("[1,,2]"), failure("expected a value, found ','", 1, 4));
    assert_eq!(fails("[,]"), failure("expected a value, found ','", 1, 2));
    assert_eq!(fails("\n\n  ?"), failure("expected a value, found '?'", 3, 3));
    assert_eq!(fails("{\"a\":}"), failure("expected a value, found '}'", 1, 6));
}

#[test]
fn decode_expected_separator() {
    assert_eq!(fails("[1 2]"), failure("expected ',' or ']', found '2'", 1, 4));
    assert_eq!(fails("(1"), failure("expected ',' or ')', found end of input", 1, 3));
    assert_eq!(fails("{\"a\":1"), failure("expected ',' or '}', found end of input", 1, 7));
    assert_eq!(fails("@(a=1]"), failure("expected ',' or ')', found ']'", 1, 6));
    assert_eq!(fails("[1)"), failure("expected ',' or ']', found ')'", 1, 3));
    assert_eq!(fails("[1,\n 2,\n 3 4]"), failure("expected ',' or ']', found '4'", 3, 4));
}

#[test]
fn decode_expected_key_name_binder_and_open() {
    assert_eq!(fails("{a:1}"), failure("expected a quoted key, found 'a'", 1, 2));
    assert_eq!(fails("{"), failure("expected a quoted key, found end of input", 1, 2));
    assert_eq!(fails("@(\"a\"=1)"), failure("expected a field name, found '\"'", 1, 3));
    assert_eq!(fails("@(1=1)"), failure("expected a field name, found '1'", 1, 3));
    assert_eq!(fails("{\"a\" 1}"), failure("expected ':', found '1'", 1, 6));
    assert_eq!(fails("{\"a\"=1}"), failure("expected ':', found '='", 1, 5));
    assert_eq!(fails("@(a:1)"), failure("expected '=', found ':'", 1, 4));
    assert_eq!(fails("@(a"), failure("expected '=', found end of input", 1, 4));
    assert_eq!(fails("@[a=1]"), failure("expected '(' after '@', found '['", 1, 2));
    assert_eq!(fails("@"), failure("expected '(' after '@', found end of input", 1, 2));
}

#[test]
fn decode_text_faults() {
    assert_eq!(fails("\"abc"), failure("unterminated text literal", 1, 5));
    assert_eq!(fails("[\"abc\\"), failure("unterminated text literal", 1, 7));
    assert_eq!(fails("\"a\nb\""), failure("control character in text literal", 1, 3));
    assert_eq!(fails("\"a\\qb\""), failure("unrecognized escape sequence", 1, 3));
    assert_eq!(fails("\"\\u{12}\""), failure("invalid unicode escape sequence", 1, 2));
    assert_eq!(fails("{\"a\\x\":1}"), failure("unrecognized escape sequence", 1, 4));
}

#[test]
fn decode_number_faults() {
    assert_eq!(fails("-"), failure("expected a digit", 1, 2));
    assert_eq!(fails("[1.]"), failure("expected a digit", 1, 4));
    assert_eq!(fails("1e"), failure("expected a digit", 1, 3));
    assert_eq!(fails("1e+,"), failure("expected a digit", 1, 4));
    assert_eq!(fails("-x"), failure("expected a digit", 1, 2));
}

#[test]
fn decode_duplicate_key() {
    assert_eq!(fails("{\"a\":1,\"b\":2,\n \"a\":3}"), failure("duplicate key", 2, 2));
    assert_eq!(fails("@(x=1, x=2)"), failure("duplicate key", 1, 8));
    assert_eq!(fails("{\"a\":1,\"\\u{0061}\":2}"), failure("duplicate key", 1, 8));
}

#[test]
fn decode_trailing_input() {
    assert_eq!(fails("1 2"), failure("expected end of input, found '2'", 1, 3));
    assert_eq!(fails("[] ]"), failure("expected end of input, found ']'", 1, 4));
    assert_eq!(fails("123abc"), failure("expected end of input, found 'a'", 1, 4));
    assert_eq!(fails("nullx"), failure("expected a value, found 'n'", 1, 1));
}

#[test]
fn decode_inverts_compact() {
    let text = mini::Encoder::new(sample()).encode().unwrap();
    assert_eq!(from_string(&text).unwrap(), sample());
}

#[test]
fn decode_inverts_pretty_in_any_layout() {
    for width in [0usize, 1, 5, 10, 20, 40, 80, 100, 1000] {
        for indent in [0usize, 1, 2, 4, 7] {
            for trailing in [true, false] {
                let text = pretty::Encoder::new(sample())
                    .max_line_length(width)
                    .indent_size(indent)
                    .trailing_comma(trailing)
                    .encode()
                    .unwrap();
                assert_eq!(from_string(&text).unwrap(), sample(), "{}", text);
            }
        }
    }
}

#[test]
fn decode_gives_numbers_their_narrowest_width_back() {
    let v = Value::Array(vec![
        Value::Number(Number::U8(5)),
        Value::Number(Number::U64(300)),
        Value::Number(Number::I128(-1)),
        Value::Number(Number::U128(u128::MAX)),
        Value::Number(Number::F32(Decimal::parse("2.5").unwrap())),
        Value::Number(Number::F64(Decimal::parse("3").unwrap())),
    ]);
    let text = mini::Encoder::new(v).encode().unwrap();
    assert_eq!(text, "[5,300,-1,340282366920938463463374607431768211455,2.5,3]");
    assert_eq!(
        from_string(&text).unwrap(),
        Value::Array(vec![
            Value::Number(Number::I8(5)),
            Value::Number(Number::I16(300)),
            Value::Number(Number::I8(-1)),
            Value::Number(Number::U128(u128::MAX)),
            Value::Number(Number::F64(Decimal::parse("2.5").unwrap())),
            Value::Number(Number::I8(3)),
        ])
    );
}

#[test]
fn struct_name_is_not_read_back() {
    let v = Value::Struct("Point".to_string(), entries(vec![("x", small(1)), ("y", small(2))]));
    let text = mini::Encoder::new(v).encode().unwrap();
    match from_string(&text).unwrap() {
        Value::Struct(name, fields) => {
            assert_eq!(name, "");
            assert_eq!(fields, entries(vec![("x", small(1)), ("y", small(2))]));
        },
        other => panic!("{:?}", other),
    }
}

#[test]
fn deep_nesting_is_read() {
    let depth = 200;
    let text = format!("{}{}", "[".repeat(depth), "]".repeat(depth));
    let mut v = from_string(&text).unwrap();
    for _ in 1..depth {
        v = match v {
            Value::Array(mut items) => {
                assert_eq!(items.len(), 1);
                items.pop().unwrap()
            },
            other => panic!("{:?}", other),
        };
    }
    assert_eq!(v, Value::Array(vec![]));
}

struct Flag(bool);

impl Deserialize for Flag {
    fn deserialize(value: Value) -> Result<Self, Error> {
        match value {
            Value::Boolean(b) => Ok(Flag(b)),
            _ => Err(Error::new("expected a boolean")),
        }
    }
}

#[test]
fn from_string_as_makes_the_target() {
    assert!(from_string_as::<Flag>(" true ").unwrap().0);
    assert_eq!(from_string_as::<Value>("[1]").unwrap(), Value::Array(vec![small(1)]));
}

#[test]
fn from_string_as_reports_a_mismatch_without_a_place() {
    let e = from_string_as::<Flag>("1").err().unwrap();
    assert_eq!(e.message, "expected a boolean");
    assert_eq!((e.line, e.column), (None, None));
    assert_eq!(e.to_string(), "Error: expected a boolean");
}

#[test]
fn from_string_as_reports_malformed_text() {
    let e = from_string_as::<Flag>("tru").err().unwrap();
    assert_eq!((e.line, e.column), (Some(1), Some(1)));
}
