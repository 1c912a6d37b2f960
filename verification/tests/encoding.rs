use celkit::mini;
use celkit::pretty;
use celkit::{to_mini, to_pretty, to_string, Decimal, Entries, Error, Number, Serialize, Value};

fn small(n: i8) -> Value {
    Value::Number(Number::I8(n))
}

fn wide(n: i32) -> Value {
    Value::Number(Number::I32(n))
}

fn text(s: &str) -> Value {
    Value::Text(s.to_string())
}

fn entries(pairs: Vec<(&str, Value)>) -> Entries {
    let mut e = Entries::new();
    for (k, v) in pairs {
        e.insert(k, v);
    }
    e
}

fn compact(v: Value) -> String {
    mini::Encoder::new(v).encode().unwrap()
}

fn one_to_fifty() -> Value {
    Value::Array((1..=50).map(small).collect())
}

fn sample() -> Value {
    Value::Object(entries(vec![
        ("name", text("celkit")),
        ("tags", Value::Array(vec![text("a"), text("b")])),
        (
            "point",
            Value::Struct("Point".to_string(), entries(vec![("x", small(1)), ("y", small(2))])),
        ),
        ("big", Value::Array((1..=12).map(|i| wide(i * 1000)).collect())),
    ]))
}

#[test]
fn compact_object_is_sorted_by_key() {
    let v = Value::Object(entries(vec![("b", small(1)), ("a", small(2))]));
    assert_eq!(compact(v), "{\"a\":2,\"b\":1}");
}

#[test]
fn compact_array_and_tuple() {
    assert_eq!(compact(Value::Array(vec![small(1), small(2), small(3)])), "[1,2,3]");
    assert_eq!(compact(Value::Tuple(vec![small(1), small(2), small(3)])), "(1,2,3)");
}

#[test]
fn compact_text_escapes_line_feed() {
    assert_eq!(compact(text("a\nb")), "\"a\\nb\"");
    assert_eq!(compact(text("a\nb")).chars().count(), 6);
}

#[test]
fn compact_scalars() {
    assert_eq!(compact(Value::Null), "null");
    assert_eq!(compact(Value::Boolean(true)), "true");
    assert_eq!(compact(Value::Boolean(false)), "false");
    assert_eq!(compact(Value::Number(Number::I64(-42))), "-42");
    assert_eq!(compact(text("")), "\"\"");
}

#[test]
fn compact_empty_composites() {
    assert_eq!(compact(Value::Array(vec![])), "[]");
    assert_eq!(compact(Value::Tuple(vec![])), "()");
    assert_eq!(compact(Value::Object(Entries::new())), "{}");
    assert_eq!(compact(Value::Struct("Unit".to_string(), Entries::new())), "@()");
}

#[test]
fn compact_struct_drops_the_name() {
    let v = Value::Struct("Point".to_string(), entries(vec![("y", small(2)), ("x", small(1))]));
    assert_eq!(compact(v), "@(x=1,y=2)");
}

#[test]
fn compact_nested() {
    assert_eq!(
        compact(sample()),
        "{\"big\":[1000,2000,3000,4000,5000,6000,7000,8000,9000,10000,11000,12000],\"name\":\"celkit\",\"point\":@(x=1,y=2),\"tags\":[\"a\",\"b\"]}"
    );
}

#[test]
fn compact_object_key_is_escaped() {
    let v = Value::Object(entries(vec![("a\"b", Value::Null)]));
    assert_eq!(compact(v), "{\"a\\\"b\":null}");
}

#[test]
fn number_text_of_every_width() {
    assert_eq!(Number::U8(255).to_string(), "255");
    assert_eq!(Number::I8(-128).to_string(), "-128");
    assert_eq!(Number::U16(65535).to_string(), "65535");
    assert_eq!(Number::I16(-32768).to_string(), "-32768");
    assert_eq!(Number::U32(4294967295).to_string(), "4294967295");
    assert_eq!(Number::I32(-2147483648).to_string(), "-2147483648");
    assert_eq!(Number::U64(u64::MAX).to_string(), "18446744073709551615");
    assert_eq!(Number::I64(i64::MIN).to_string(), "-9223372036854775808");
    assert_eq!(Number::U128(u128::MAX).to_string(), "340282366920938463463374607431768211455");
    assert_eq!(Number::I128(i128::MIN).to_string(), "-170141183460469231731687303715884105728");
    assert_eq!(Number::U8(0).to_string(), "0");
    assert_eq!(Number::I128(7).to_string(), "7");
}

#[test]
fn decimal_is_written_as_it_is() {
    let d = Decimal::parse("-1.5e10").unwrap();
    assert_eq!(d.to_string(), "-1.5e10");
    assert_eq!(compact(Value::Number(Number::F64(d.clone()))), "-1.5e10");
    assert_eq!(compact(Value::Number(Number::F32(d))), "-1.5e10");
}

#[test]
fn decimal_accepts_numeric_literals_only() {
    for good in ["0", "-0", "12", "1.5", "-1.5", "1e5", "1E5", "1e+5", "1e-5", "0.000001", "007"] {
        assert!(Decimal::parse(good).is_some(), "{}", good);
    }
    for bad in ["", "-", ".5", "1.", "1e", "1e+", "NaN", "inf", "-inf", "1 ", " 1", "1.5.2", "+1", "0x10"] {
        assert!(Decimal::parse(bad).is_none(), "{}", bad);
    }
}

#[test]
fn pretty_defaults() {
    let e = pretty::Encoder::new(one_to_fifty());
    assert_eq!(
        e.encode().unwrap(),
        "[\n  1, 2, 3, 4, 5, 6, 7, 8, 9, 10, 11, 12, 13, 14, 15, 16, 17, 18, 19, 20, 21, 22, 23, 24, 25, 26,\n  27, 28, 29, 30, 31, 32, 33, 34, 35, 36, 37, 38, 39, 40, 41, 42, 43, 44, 45, 46, 47, 48, 49, 50,\n]"
    );
}

#[test]
fn pretty_array_of_fifty_in_lines_of_twenty() {
    let out = pretty::Encoder::new(one_to_fifty()).max_line_length(20).encode().unwrap();
    assert_eq!(
        out,
        "[\n  1, 2, 3, 4, 5, 6,\n  7, 8, 9, 10, 11,\n  12, 13, 14, 15,\n  16, 17, 18, 19,\n  20, 21, 22, 23,\n  24, 25, 26, 27,\n  28, 29, 30, 31,\n  32, 33, 34, 35,\n  36, 37, 38, 39,\n  40, 41, 42, 43,\n  44, 45, 46, 47,\n  48, 49, 50,\n]"
    );
    assert!(out.lines().count() > 1);
    for line in out.lines() {
        assert!(line.chars().count() <= 20, "{:?}", line);
    }
}

#[test]
fn pretty_array_of_fifty_keeps_brackets_margin_and_order() {
    for trailing in [true, false] {
        let out = pretty::Encoder::new(one_to_fifty())
            .max_line_length(20)
            .trailing_comma(trailing)
            .encode()
            .unwrap();
        let lines: Vec<&str> = out.split('\n').collect();
        assert_eq!(lines[0], "[");
        assert_eq!(lines[lines.len() - 1], "]");
        let mut seen: Vec<String> = Vec::new();
        let inner = &lines[1..lines.len() - 1];
        for (k, line) in inner.iter().enumerate() {
            assert!(line.starts_with("  ") && !line.starts_with("   "), "{:?}", line);
            let last_line = k == inner.len() - 1;
            let body = if last_line && !trailing {
                assert!(!line.ends_with(','));
                &line[2..]
            } else {
                assert!(line.ends_with(','), "{:?}", line);
                &line[2..line.len() - 1]
            };
            for item in body.split(", ") {
                seen.push(item.to_string());
            }
        }
        let expected: Vec<String> = (1..=50).map(|k| k.to_string()).collect();
        assert_eq!(seen, expected);
    }
}

#[test]
fn pretty_array_of_fifty_without_trailing_comma() {
    let out = pretty::Encoder::new(one_to_fifty())
        .max_line_length(20)
        .trailing_comma(false)
        .encode()
        .unwrap();
    assert!(out.ends_with("  48, 49, 50\n]"));
    for line in out.lines() {
        assert!(line.chars().count() <= 20, "{:?}", line);
    }
}

#[test]
fn pretty_fits_on_one_line() {
    let v = Value::Array(vec![small(1), small(2), small(3)]);
    assert_eq!(pretty::Encoder::new(v).encode().unwrap(), "[1, 2, 3]");
    let t = Value::Tuple(vec![small(1), text("a")]);
    assert_eq!(pretty::Encoder::new(t).encode().unwrap(), "(1, \"a\")");
    let o = Value::Object(entries(vec![("b", small(1)), ("a", small(2))]));
    assert_eq!(pretty::Encoder::new(o).encode().unwrap(), "{\"a\": 2, \"b\": 1}");
}

#[test]
fn pretty_one_line_limit_is_exact() {
    // "[1, 2, 3]" has 9 characters.
    let v = || Value::Array(vec![small(1), small(2), small(3)]);
    assert_eq!(pretty::Encoder::new(v()).max_line_length(9).encode().unwrap(), "[1, 2, 3]");
    assert_eq!(
        pretty::Encoder::new(v()).max_line_length(8).encode().unwrap(),
        "[\n  1, 2,\n  3,\n]"
    );
}

#[test]
fn pretty_nested_composite_keeps_room_for_a_comma() {
    // The inner array is "[1, 2, 3]": 9 characters behind 2 of indentation.
    let v = || {
        Value::Array(vec![
            Value::Array(vec![small(1), small(2), small(3)]),
            Value::Number(Number::I32(4444444)),
        ])
    };
    assert_eq!(
        pretty::Encoder::new(v()).max_line_length(12).encode().unwrap(),
        "[\n  [1, 2, 3],\n  4444444,\n]"
    );
    assert_eq!(
        pretty::Encoder::new(v()).max_line_length(11).encode().unwrap(),
        "[\n  [\n    1, 2,\n    3,\n  ],\n  4444444,\n]"
    );
}

#[test]
fn pretty_last_item_is_measured_with_its_comma_alone() {
    let v = || {
        Value::Array(vec![
            Value::Number(Number::I32(1)),
            Value::Number(Number::I32(2)),
            Value::Number(Number::I32(3)),
        ])
    };
    // "1, 2, " has 6 characters and "3," has 2: together they fill a line of 8.
    assert_eq!(
        pretty::Encoder::new(v()).indent_size(0).max_line_length(8).encode().unwrap(),
        "[\n1, 2, 3,\n]"
    );
    assert_eq!(
        pretty::Encoder::new(v()).indent_size(0).max_line_length(7).encode().unwrap(),
        "[\n1, 2,\n3,\n]"
    );
    // Without a trailing comma the last item is measured alone: "1, 2, " and "3" fill 7.
    assert_eq!(
        pretty::Encoder::new(v())
            .indent_size(0)
            .max_line_length(7)
            .trailing_comma(false)
            .encode()
            .unwrap(),
        "[\n1, 2, 3\n]"
    );
    assert_eq!(
        pretty::Encoder::new(v())
            .indent_size(0)
            .max_line_length(6)
            .trailing_comma(false)
            .encode()
            .unwrap(),
        "[\n1, 2,\n3\n]"
    );
}

fn widest_line(text: &str) -> usize {
    text.split('\n').map(|line| line.chars().count()).max().unwrap_or(0)
}

#[test]
fn width_bound_holds_around_a_struct() {
    let v = Value::Array(vec![Value::Struct("S".to_string(), entries(vec![("x", small(1))]))]);
    let out = pretty::Encoder::new(v).encode().unwrap();
    assert_eq!(out, "[@(\n    x = 1,\n  )]");
    assert!(widest_line(&out) <= 100);
}

#[test]
fn width_bound_holds_for_what_goes_on_one_line() {
    let out = pretty::Encoder::new(Value::Array(vec![text("abc")]))
        .max_line_length(7)
        .encode()
        .unwrap();
    assert_eq!(out, "[\"abc\"]");
    assert_eq!(widest_line(&out), 7);
}

#[test]
fn width_bound_counts_no_comma_behind_a_last_item_without_one() {
    let v = || {
        Value::Array(vec![small(1), small(2), Value::Number(Number::I32(33333))])
    };
    let out = pretty::Encoder::new(v()).max_line_length(7).trailing_comma(false).encode().unwrap();
    assert_eq!(out, "[\n  1,\n  2,\n  33333\n]");
    assert_eq!(widest_line(&out), 7);
    // With a trailing comma the last item has no room: its line has 8 characters.
    let out = pretty::Encoder::new(v()).max_line_length(7).encode().unwrap();
    assert_eq!(out, "[\n  1,\n  2,\n  33333,\n]");
    assert_eq!(widest_line(&out), 8);
}

#[test]
fn width_bound_holds_for_nested_values() {
    for (width, indent) in [(40usize, 2usize), (40, 4), (30, 2), (24, 1)] {
        for trailing in [true, false] {
            let out = pretty::Encoder::new(sample())
                .max_line_length(width)
                .indent_size(indent)
                .trailing_comma(trailing)
                .encode()
                .unwrap();
            assert!(widest_line(&out) <= width, "{}", out);
        }
    }
}

#[test]
fn width_bound_fails_only_for_an_item_without_room() {
    let out = pretty::Encoder::new(Value::Array(vec![text("abc")]))
        .max_line_length(6)
        .encode()
        .unwrap();
    assert_eq!(out, "[\n  \"abc\",\n]");
    assert_eq!(widest_line(&out), 8);
}

#[test]
fn pretty_empty_composites() {
    assert_eq!(pretty::Encoder::new(Value::Array(vec![])).encode().unwrap(), "[]");
    assert_eq!(pretty::Encoder::new(Value::Tuple(vec![])).encode().unwrap(), "()");
    assert_eq!(pretty::Encoder::new(Value::Object(Entries::new())).encode().unwrap(), "{}");
    assert_eq!(
        pretty::Encoder::new(Value::Struct("U".to_string(), Entries::new())).encode().unwrap(),
        "@()"
    );
    assert_eq!(
        pretty::Encoder::new(Value::Array(vec![])).max_line_length(0).encode().unwrap(),
        "[]"
    );
}

#[test]
fn pretty_struct_never_goes_on_one_line() {
    let v = Value::Struct("P".to_string(), entries(vec![("x", small(1)), ("y", small(2))]));
    assert_eq!(pretty::Encoder::new(v).encode().unwrap(), "@(\n  x = 1,\n  y = 2,\n)");
    let w = Value::Struct("P".to_string(), entries(vec![("x", small(1)), ("y", small(2))]));
    assert_eq!(
        pretty::Encoder::new(w).trailing_comma(false).indent_size(4).encode().unwrap(),
        "@(\n    x = 1,\n    y = 2\n)"
    );
}

#[test]
fn pretty_nested_value() {
    assert_eq!(
        pretty::Encoder::new(sample()).max_line_length(40).encode().unwrap(),
        "{\n  \"big\": [\n    1000, 2000, 3000, 4000, 5000, 6000,\n    7000, 8000, 9000, 10000, 11000,\n    12000,\n  ],\n  \"name\": \"celkit\",\n  \"point\": @(\n    x = 1,\n    y = 2,\n  ),\n  \"tags\": [\"a\", \"b\"],\n}"
    );
}

#[test]
fn pretty_nested_value_wide_indent_no_trailing_comma() {
    assert_eq!(
        pretty::Encoder::new(sample())
            .max_line_length(40)
            .indent_size(4)
            .trailing_comma(false)
            .encode()
            .unwrap(),
        "{\n    \"big\": [\n        1000, 2000, 3000, 4000, 5000,\n        6000, 7000, 8000, 9000, 10000,\n        11000, 12000\n    ],\n    \"name\": \"celkit\",\n    \"point\": @(\n        x = 1,\n        y = 2\n    ),\n    \"tags\": [\"a\", \"b\"]\n}"
    );
}

#[test]
fn pretty_tuple_of_arrays_with_indent_of_one() {
    let v = Value::Tuple(vec![
        Value::Array(vec![small(1), small(2), small(3)]),
        Value::Array(vec![small(4), small(5), small(6)]),
    ]);
    assert_eq!(
        pretty::Encoder::new(v).max_line_length(12).indent_size(1).encode().unwrap(),
        "(\n [1, 2, 3],\n [4, 5, 6],\n)"
    );
}

#[test]
fn pretty_oversized_item_stands_alone() {
    let v = Value::Array(vec![text(&"x".repeat(30)), small(1), small(2)]);
    assert_eq!(
        pretty::Encoder::new(v).max_line_length(10).encode().unwrap(),
        "[\n  \"xxxxxxxxxxxxxxxxxxxxxxxxxxxxxx\",\n  1, 2,\n]"
    );
}

#[test]
fn pretty_without_indent_and_without_room() {
    let v = Value::Array(vec![small(1), small(2), small(3)]);
    assert_eq!(
        pretty::Encoder::new(v).max_line_length(0).indent_size(0).encode().unwrap(),
        "[\n1,\n2,\n3,\n]"
    );
}

#[test]
fn pretty_width_counts_characters_not_bytes() {
    // Each text is 4 characters wide and 6 bytes long once quoted.
    let v = || Value::Array(vec![text("éé"), text("éé")]);
    assert_eq!(
        pretty::Encoder::new(v()).max_line_length(12).encode().unwrap(),
        "[\"éé\", \"éé\"]"
    );
    assert_eq!(
        pretty::Encoder::new(v()).max_line_length(11).encode().unwrap(),
        "[\n  \"éé\",\n  \"éé\",\n]"
    );
}

#[test]
fn encoding_twice_gives_the_same_text() {
    let a = pretty::Encoder::new(sample()).max_line_length(30).encode().unwrap();
    let b = pretty::Encoder::new(sample()).max_line_length(30).encode().unwrap();
    assert_eq!(a, b);
    assert_eq!(compact(sample()), compact(sample()));
}

#[test]
fn insertion_order_does_not_show() {
    let a = entries(vec![("x", small(1)), ("m", small(2)), ("a", small(3))]);
    let b = entries(vec![("a", small(3)), ("x", small(1)), ("m", small(2))]);
    assert_eq!(a, b);
    assert_eq!(compact(Value::Object(a)), "{\"a\":3,\"m\":2,\"x\":1}");
    assert_eq!(compact(Value::Object(b)), "{\"a\":3,\"m\":2,\"x\":1}");
}

struct Point {
    x: i8,
    y: i8,
}

impl Serialize for Point {
    fn serialize(&self) -> Result<Value, Error> {
        if self.x < 0 {
            return Err(Error::new("negative x"));
        }
        Ok(Value::Struct("Point".to_string(), entries(vec![("x", small(self.x)), ("y", small(self.y))])))
    }
}

#[test]
fn to_string_is_pretty_with_defaults() {
    assert_eq!(to_string(&Point { x: 1, y: 2 }).unwrap(), "@(\n  x = 1,\n  y = 2,\n)");
    assert_eq!(to_string(&Value::Array(vec![small(1), small(2)])).unwrap(), "[1, 2]");
}

#[test]
fn to_mini_gives_a_compact_encoder() {
    assert_eq!(to_mini(&Point { x: 1, y: 2 }).unwrap().encode().unwrap(), "@(x=1,y=2)");
}

#[test]
fn to_pretty_gives_a_configurable_encoder() {
    let e = to_pretty(&Point { x: 1, y: 2 }).unwrap().indent_size(1).trailing_comma(false);
    assert_eq!(e.encode().unwrap(), "@(\n x = 1,\n y = 2\n)");
}

#[test]
fn a_failed_serialization_is_handed_on() {
    let bad = Point { x: -1, y: 0 };
    assert_eq!(to_string(&bad).unwrap_err().message, "negative x");
    assert_eq!(to_mini(&bad).err().unwrap().message, "negative x");
    assert_eq!(to_pretty(&bad).err().unwrap().message, "negative x");
    assert!(to_string(&bad).unwrap_err().line.is_none());
}
