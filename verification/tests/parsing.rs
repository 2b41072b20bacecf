use envit::array::{lookup_array_sep, lookup_quoted_sep, FlatArray};
use envit::error::{ArrayError, LiteralError, ValueError};
use envit::literal::{Decimal, Literal};
use envit::value::Value;

fn decimal(text: &str) -> Decimal {
    Decimal::parse(text).expect("a decimal")
}

fn double(v: f64) -> Literal {
    Literal::double(decimal(&format!("{}", v)))
}

#[test]
fn test_simple_literal_parsing() {
    let samples = vec!["", r#""""#, "true", "false"];
    let expected = vec![
        Err(LiteralError::EmptyInput),
        Ok(Literal::string("")),
        Ok(Literal::bool(true)),
        Ok(Literal::bool(false)),
    ];

    for (idx, sample) in samples.iter().enumerate() {
        let result = Literal::parse(sample);
        assert_eq!(result, expected[idx]);
    }
}

#[test]
fn test_literal_parsing() {
    let samples = vec![
        "12121212121",
        "23123123.231231",
        "hello world",
        "  test test ",
        r#""
""#,
    ];

    let expected: Vec<Result<_, LiteralError>> = vec![
        Ok(Literal::integer(12121212121i64)),
        Ok(double(23123123.231231)),
        Ok(Literal::string("hello world")),
        Ok(Literal::string("test test")),
        Ok(Literal::string("\n")),
    ];

    for (idx, sample) in samples.iter().enumerate() {
        let result = Literal::parse(sample);
        assert_eq!(result, expected[idx]);
    }
}

#[test]
fn test_array_parsing() {
    let samples = vec![
        "[]",
        "[1,    2]",
        "[3, true, false,        true]",
        r#"["test", "hello world", 2, 3]"#,
    ];

    let expected: Vec<Result<_, ArrayError>> = vec![
        Ok(FlatArray::default()),
        Ok(FlatArray::new(vec![Literal::from(1), Literal::from(2)])),
        Ok(FlatArray::new(vec![
            Literal::from(3),
            Literal::from(true),
            Literal::from(false),
            Literal::from(true),
        ])),
        Ok(FlatArray::new(vec![
            Literal::from("test"),
            Literal::from("hello world"),
            Literal::from(2),
            Literal::from(3),
        ])),
    ];

    for (idx, sample) in samples.iter().enumerate() {
        let result = FlatArray::parse(sample);
        assert_eq!(result, expected[idx]);
    }
}

#[test]
fn decimal_text_reads_as_the_float_it_writes() {
    match Literal::parse("23123123.231231") {
        Ok(Literal::Number(envit::literal::Number::Double(d))) => {
            let value: f64 = d.as_str().parse().expect("a float");
            assert_eq!(value, 23123123.231231);
        }
        other => panic!("no decimal: {:?}", other),
    }
}

#[test]
fn integers_with_sign_and_at_the_limits() {
    assert_eq!(Literal::parse("-5"), Ok(Literal::integer(-5)));
    assert_eq!(Literal::parse("-0"), Ok(Literal::integer(0)));
    assert_eq!(Literal::parse("007"), Ok(Literal::integer(7)));
    assert_eq!(Literal::parse("9223372036854775807"), Ok(Literal::integer(i64::MAX)));
    assert_eq!(Literal::parse("-9223372036854775808"), Ok(Literal::integer(i64::MIN)));
    assert_eq!(Literal::parse("9223372036854775808"), Err(LiteralError::NumberError));
    assert_eq!(Literal::parse("-9223372036854775809"), Err(LiteralError::NumberError));
    assert_eq!(Literal::parse("99999999999999999999999999999999999999999999"), Err(LiteralError::NumberError));
    assert_eq!(Literal::parse("-"), Err(LiteralError::NumberError));
}

#[test]
fn decimals_need_a_digit() {
    assert_eq!(Literal::parse("1.5"), Ok(Literal::double(decimal("1.5"))));
    assert_eq!(Literal::parse("-1.5"), Ok(Literal::double(decimal("-1.5"))));
    assert_eq!(Literal::parse("1."), Ok(Literal::double(decimal("1."))));
    assert_eq!(Literal::parse("-.5"), Ok(Literal::double(decimal("-.5"))));
    assert_eq!(Literal::parse("-."), Err(LiteralError::NumberError));
    assert!(Decimal::parse("-.").is_none());
    assert!(Decimal::parse("12").is_none());
    assert!(Decimal::parse(" 1.5").is_none());
}

#[test]
fn a_second_point_makes_a_string() {
    assert_eq!(Literal::parse("1.2.3"), Ok(Literal::string("1.2.3")));
    assert_eq!(Literal::parse(".5"), Ok(Literal::string(".5")));
    assert_eq!(Literal::parse("1-2"), Ok(Literal::string("1-2")));
    assert_eq!(Literal::parse("12a"), Ok(Literal::string("12a")));
    assert_eq!(Literal::parse("+5"), Ok(Literal::string("+5")));
}

#[test]
fn quoted_text_keeps_what_is_inside() {
    assert_eq!(Literal::parse(r#""true""#), Ok(Literal::string("true")));
    assert_eq!(Literal::parse(r#""12""#), Ok(Literal::string("12")));
    assert_eq!(Literal::parse(r#""a\"b""#), Ok(Literal::string(r#"a\"b"#)));
    assert_eq!(Literal::parse(r#"  " x "  "#), Ok(Literal::string(" x ")));
    assert_eq!(Literal::parse(r#""abc"#), Ok(Literal::string(r#""abc"#)));
}

#[test]
fn a_lone_quotation_mark_is_a_syntax_error() {
    assert_eq!(Literal::parse("\""), Err(LiteralError::SyntaxError));
    assert_eq!(Literal::parse("  \" "), Err(LiteralError::SyntaxError));
}

#[test]
fn blank_text_is_empty_input() {
    assert_eq!(Literal::parse(""), Err(LiteralError::EmptyInput));
    assert_eq!(Literal::parse(" \t\n"), Err(LiteralError::EmptyInput));
    assert_eq!(Literal::parse("\u{00A0}\u{3000}"), Err(LiteralError::EmptyInput));
}

#[test]
fn booleans_are_exactly_true_and_false() {
    assert_eq!(Literal::parse("true"), Ok(Literal::bool(true)));
    assert_eq!(Literal::parse(" false "), Ok(Literal::bool(false)));
    assert_eq!(Literal::parse("True"), Ok(Literal::string("True")));
    assert_eq!(Literal::parse("truee"), Ok(Literal::string("truee")));
}

#[test]
fn literal_round_trip_on_samples() {
    let samples = vec![
        Literal::integer(0),
        Literal::integer(42),
        Literal::integer(-42),
        Literal::integer(i64::MAX),
        Literal::integer(i64::MIN),
        Literal::double(decimal("3.25")),
        Literal::double(decimal("-0.5")),
        Literal::string(""),
        Literal::string("hello world"),
        Literal::string("a\"b"),
        Literal::string("true"),
        Literal::string("17"),
        Literal::bool(true),
        Literal::bool(false),
    ];
    for sample in samples.iter() {
        let text = sample.to_text();
        assert_eq!(Literal::parse(&text).as_ref(), Ok(sample));
    }
}

#[test]
fn canonical_text_of_each_kind() {
    assert_eq!(Literal::integer(-120).to_text(), "-120");
    assert_eq!(Literal::integer(i64::MIN).to_text(), "-9223372036854775808");
    assert_eq!(Literal::integer(7).to_text(), "7");
    assert_eq!(Literal::double(decimal("2.50")).to_text(), "2.50");
    assert_eq!(Literal::string("a b").to_text(), "\"a b\"");
    assert_eq!(Literal::bool(true).to_text(), "true");
    assert_eq!(Literal::bool(false).to_text(), "false");
}

#[test]
fn array_quoting_keeps_the_comma_inside_quotes() {
    assert_eq!(
        FlatArray::parse(r#"["a,b", c]"#),
        Ok(FlatArray::new(vec![Literal::string("a,b"), Literal::string("c")]))
    );
}

#[test]
fn array_elements_keep_their_order_and_their_doubles() {
    assert_eq!(
        FlatArray::parse("[3, 1, 3, 2]"),
        Ok(FlatArray::new(vec![
            Literal::integer(3),
            Literal::integer(1),
            Literal::integer(3),
            Literal::integer(2),
        ]))
    );
}

#[test]
fn array_errors() {
    assert_eq!(FlatArray::parse(""), Err(ArrayError::EmptyInput));
    assert_eq!(FlatArray::parse("   "), Err(ArrayError::EmptyInput));
    assert_eq!(FlatArray::parse("1, 2"), Err(ArrayError::MalformedBrackets));
    assert_eq!(FlatArray::parse("[1, 2"), Err(ArrayError::MalformedBrackets));
    assert_eq!(FlatArray::parse("["), Err(ArrayError::MalformedBrackets));
    assert_eq!(FlatArray::parse("]"), Err(ArrayError::MalformedBrackets));
    assert_eq!(
        FlatArray::parse("[1,,2]"),
        Err(ArrayError::LiteralError(LiteralError::EmptyInput))
    );
    assert_eq!(
        FlatArray::parse("[1,]"),
        Err(ArrayError::LiteralError(LiteralError::EmptyInput))
    );
    assert_eq!(
        FlatArray::parse("[1, -]"),
        Err(ArrayError::LiteralError(LiteralError::NumberError))
    );
    assert_eq!(
        FlatArray::parse("[\", 2]"),
        Ok(FlatArray::new(vec![Literal::string("\", 2")]))
    );
}

#[test]
fn quoted_elements_behind_whitespace_keep_their_commas() {
    assert_eq!(
        FlatArray::parse(r#"[1, "a,b", "c, d" , e]"#),
        Ok(FlatArray::new(vec![
            Literal::integer(1),
            Literal::string("a,b"),
            Literal::string("c, d"),
            Literal::string("e"),
        ]))
    );
    assert_eq!(lookup_array_sep(r#"  "a,b",c"#, ','), Some(7));
    assert_eq!(lookup_array_sep(r#"  x"a,b",c"#, ','), Some(5));
}

#[test]
fn blank_interior_is_the_empty_array() {
    assert_eq!(FlatArray::parse("[   ]"), Ok(FlatArray::default()));
    assert_eq!(FlatArray::parse("  []  "), Ok(FlatArray::default()));
    assert_eq!(FlatArray::default().len(), 0);
}

#[test]
fn escaped_commas_and_quotes_do_not_separate() {
    assert_eq!(
        FlatArray::parse(r#"[a\,b, c]"#),
        Ok(FlatArray::new(vec![Literal::string(r#"a\,b"#), Literal::string("c")]))
    );
    assert_eq!(
        FlatArray::parse(r#"["a\",b", 2]"#),
        Ok(FlatArray::new(vec![Literal::string(r#"a\",b"#), Literal::integer(2)]))
    );
}

#[test]
fn separators_are_looked_up_by_position() {
    assert_eq!(lookup_quoted_sep("ab,cd", ','), Some(2));
    assert_eq!(lookup_quoted_sep(",ab", ','), Some(0));
    assert_eq!(lookup_quoted_sep(r#"a\,b,c"#, ','), Some(4));
    assert_eq!(lookup_quoted_sep("abc", ','), None);
    assert_eq!(lookup_quoted_sep("", ','), None);
    assert_eq!(lookup_array_sep(r#""a,b",c"#, ','), Some(5));
    assert_eq!(lookup_array_sep(r#""a,b"#, ','), None);
    assert_eq!(lookup_array_sep("a,b", ','), Some(1));
    assert_eq!(lookup_array_sep(r#""",x"#, ','), Some(2));
}

#[test]
fn values_are_arrays_where_bracketed() {
    assert_eq!(Value::parse(""), Err(ValueError::EmptyInput));
    assert_eq!(Value::parse("12"), Ok(Value::integer(12)));
    assert_eq!(Value::parse(" [] "), Ok(Value::empty_list()));
    assert_eq!(
        Value::parse("[1, x]"),
        Ok(Value::Array(FlatArray::new(vec![Literal::integer(1), Literal::string("x")])))
    );
    assert_eq!(
        Value::parse("[1, -]"),
        Err(ValueError::ArrayError(ArrayError::LiteralError(LiteralError::NumberError)))
    );
    assert_eq!(Value::parse("[1"), Ok(Value::string("[1")));
    assert_eq!(Value::parse("-"), Err(ValueError::LiteralError(LiteralError::NumberError)));
}

#[test]
fn scalars_from_the_values_of_the_language() {
    assert_eq!(Literal::from(7u8), Literal::integer(7));
    assert_eq!(Literal::from(7u16), Literal::integer(7));
    assert_eq!(Literal::from(u32::MAX), Literal::integer(4294967295));
    assert_eq!(Literal::from(-7i8), Literal::integer(-7));
    assert_eq!(Literal::from(-7i16), Literal::integer(-7));
    assert_eq!(Literal::from(i32::MIN), Literal::integer(-2147483648));
    assert_eq!(Literal::from(-7i64), Literal::integer(-7));
    assert_eq!(Literal::from(true), Literal::bool(true));
    assert_eq!(Literal::from("x"), Literal::string("x"));
    assert_eq!(Literal::from(String::from("x")), Literal::string("x"));
}

#[test]
fn blank_is_what_the_standard_library_trims() {
    for code in 0u32..=0xFFFF {
        if let Some(c) = char::from_u32(code) {
            let text = c.to_string();
            let blank = Literal::parse(&text) == Err(LiteralError::EmptyInput);
            assert_eq!(blank, c.is_whitespace(), "U+{:04X}", code);
            assert_eq!(blank, text.trim().is_empty(), "U+{:04X}", code);
        }
    }
    for c in ['\u{10000}', '\u{1F600}', '\u{E0020}', '\u{10FFFF}'] {
        assert_eq!(Literal::parse(&c.to_string()), Ok(Literal::string(&c.to_string())));
    }
}

#[test]
fn every_text_is_classified() {
    let samples = [
        "0", "-0", "00", "1-", "--1", "1e5", "1.5e5", "0x10", "1_000", "١٢٣", "12 34", "tru",
        "false ", " true", "\"\"", "\"a", "a\"", "'a'", "[", "]", "[]", "null", "-.", ".-", "..",
        "1..2", "-1.", "1.-", "\u{0}", "\t1\t", "\u{00A0}1\u{3000}", "ünïcödé", "9223372036854775807",
    ];
    for sample in samples.iter() {
        let trimmed = sample.trim();
        match Literal::parse(sample) {
            Ok(Literal::Number(envit::literal::Number::Integer(i))) => {
                assert_eq!(trimmed.parse::<i64>(), Ok(i), "{:?}", sample);
            }
            Ok(Literal::Number(envit::literal::Number::Double(d))) => {
                assert_eq!(d.as_str(), trimmed, "{:?}", sample);
                assert!(trimmed.parse::<f64>().is_ok(), "{:?}", sample);
                assert!(trimmed.contains('.'), "{:?}", sample);
            }
            Ok(Literal::Bool(b)) => {
                assert_eq!(trimmed, if b { "true" } else { "false" });
            }
            Ok(Literal::String(text)) => {
                if trimmed.len() >= 2 && trimmed.starts_with('"') && trimmed.ends_with('"') {
                    assert_eq!(text, trimmed[1..trimmed.len() - 1]);
                } else {
                    assert_eq!(text, trimmed);
                    assert!(trimmed.parse::<i64>().is_err() || trimmed.starts_with('+'));
                }
            }
            Err(LiteralError::EmptyInput) => assert!(trimmed.is_empty(), "{:?}", sample),
            Err(LiteralError::SyntaxError) => assert_eq!(trimmed, "\""),
            Err(LiteralError::NumberError) => {
                assert!(trimmed.parse::<i64>().is_err(), "{:?}", sample);
                assert!(trimmed == "-" || trimmed == "-." || trimmed.len() > 18, "{:?}", sample);
            }
        }
    }
}

#[test]
fn brackets_inside_an_array_are_text() {
    assert_eq!(
        FlatArray::parse("[[1], [2, 3]]"),
        Ok(FlatArray::new(vec![
            Literal::string("[1]"),
            Literal::string("[2"),
            Literal::string("3]"),
        ]))
    );
    assert_eq!(
        Value::parse("[true, 1.5, -2, x y]"),
        Ok(Value::Array(FlatArray::new(vec![
            Literal::bool(true),
            Literal::double(decimal("1.5")),
            Literal::integer(-2),
            Literal::string("x y"),
        ])))
    );
}
