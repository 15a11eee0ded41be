use explodesh::error::{Error, ErrorKind};
use explodesh::implode::{
    deserialize_bool, deserialize_datetime, deserialize_f64, deserialize_i64, deserialize_str,
    infer_scalar,
};
use explodesh::literal::{
    parse_boolean, parse_decimal, parse_index, parse_integer, recognize_float, scan_digits,
    strip_line_ending,
};
use explodesh::text::{chars_of, decimal_string, same_text};
use explodesh::value::{Date, Datetime, Offset, Time, Value};
use std::str::FromStr;

fn no_scalar(content: &str) -> Error {
    Error { kind: ErrorKind::ScalarInference, path: vec![], content: content.to_string() }
}

fn float(text: &str) -> Value {
    Value::Float(text.to_string())
}

#[test]
fn deserialize_bool_accepts_true_and_false_only() {
    assert_eq!(Value::Boolean(true), deserialize_bool("true").unwrap());
    assert_eq!(Value::Boolean(false), deserialize_bool("false").unwrap());
    assert!(!deserialize_bool("foo").is_ok());
    assert_eq!(deserialize_bool("True"), Err(no_scalar("True")));
    assert_eq!(deserialize_bool(""), Err(no_scalar("")));
    assert_eq!(deserialize_bool("true "), Err(no_scalar("true ")));
}

#[test]
fn deserialize_str_takes_what_stands_between_the_quotes() {
    assert_eq!(Value::String(String::from("foo")), deserialize_str("\"foo\"").unwrap());
    assert_eq!(deserialize_str("\"a\"b\""), Ok(Value::String("a\"b".to_string())));
    assert_eq!(deserialize_str("\"a\\nb\""), Ok(Value::String("a\\nb".to_string())));
    assert_eq!(deserialize_str("\"\"\""), Ok(Value::String("\"".to_string())));
    assert_eq!(deserialize_str("\"é \r\t\""), Ok(Value::String("é \r\t".to_string())));
    assert_eq!(deserialize_str("\"a\nb\""), Ok(Value::String("a\nb".to_string())));
    assert_eq!(deserialize_str("\"\n\""), Ok(Value::String("\n".to_string())));
}

#[test]
fn deserialize_str_reads_two_quotes_as_the_empty_string() {
    assert_eq!(deserialize_str("\"\""), Ok(Value::String(String::new())));
    assert_eq!(infer_scalar("\"\""), Ok(Value::String(String::new())));
    assert_eq!(infer_scalar("\"\"\n"), Ok(Value::String(String::new())));
}

#[test]
fn deserialize_str_accepts_exactly_what_two_quotes_enclose() {
    let samples = [
        "", "\"", "\"\"", "\"\"\"", "a", "\"a", "a\"", "\"a\"", "\"a\"b", "a\"b\"", "\"a\nb\"",
        "\"a\"\n", "\n\"a\"", " \"a\"", "\"a\" ", "\"é\"", "\"\\\"", "'a'", "\"\r\n\"",
    ];
    for text in samples {
        let chars: Vec<char> = text.chars().collect();
        let quoted = chars.len() >= 2 && chars[0] == '"' && chars[chars.len() - 1] == '"';
        let result = deserialize_str(text);
        assert_eq!(result.is_ok(), quoted, "{:?}", text);
        if quoted {
            let content: String = chars[1..chars.len() - 1].iter().collect();
            assert_eq!(result, Ok(Value::String(content)), "{:?}", text);
        }
    }
}

#[test]
fn deserialize_str_refuses_what_is_not_quoted() {
    for text in ["", "\"", "foo", "\"foo", "foo\"", "\"foo\"\n", " \"foo\"", "\"foo\" "] {
        assert_eq!(deserialize_str(text), Err(no_scalar(text)), "{:?}", text);
    }
}

#[test]
fn deserialize_i64_reads_decimal_integers() {
    assert_eq!(Value::Integer(1), deserialize_i64("1").unwrap());
    assert_eq!(deserialize_i64("-17"), Ok(Value::Integer(-17)));
    assert_eq!(deserialize_i64("+17"), Ok(Value::Integer(17)));
    assert_eq!(deserialize_i64("0042"), Ok(Value::Integer(42)));
    assert_eq!(deserialize_i64("9223372036854775807"), Ok(Value::Integer(i64::MAX)));
    assert_eq!(deserialize_i64("-9223372036854775808"), Ok(Value::Integer(i64::MIN)));
    assert_eq!(deserialize_i64("9223372036854775808"), Err(no_scalar("9223372036854775808")));
    assert_eq!(deserialize_i64("-9223372036854775809"), Err(no_scalar("-9223372036854775809")));
}

#[test]
fn parse_integer_agrees_with_the_standard_library() {
    let samples = [
        "", "+", "-", "0", "-0", "+0", "00", "1", "12", "123456789", "-123456789", "1 ", " 1",
        "1_000", "1.0", "1e3", "0x10", "--1", "+-1", "1-", "９", "18446744073709551616",
        "9223372036854775807", "9223372036854775808", "-9223372036854775808",
        "-9223372036854775809", "99999999999999999999999999999999999999999",
        "000000000000000000000000000000000000000000000000001",
    ];
    for s in samples {
        assert_eq!(parse_integer(s), s.parse::<i64>().ok(), "{:?}", s);
    }
}

#[test]
fn parse_index_agrees_with_the_standard_library_below_the_bound() {
    let samples = ["", "+", "-", "0", "-0", "+0", "00", "1", "+1", "-1", "7", "8", "007", "1a"];
    for s in samples {
        let expected = s.parse::<usize>().ok().filter(|k| *k < 8);
        assert_eq!(parse_index(s, 8), expected, "{:?}", s);
    }
    assert_eq!(parse_index("0", 0), None);
    assert_eq!(parse_index("18446744073709551616", usize::MAX), None);
    assert_eq!(parse_index("18446744073709551614", usize::MAX), Some(usize::MAX - 1));
}

#[test]
fn parse_decimal_reads_the_rest_as_digits_up_to_a_limit() {
    let chars: Vec<char> = "ab120".chars().collect();
    assert_eq!(parse_decimal(&chars, 2, 120), Some(120));
    assert_eq!(parse_decimal(&chars, 2, 119), None);
    assert_eq!(parse_decimal(&chars, 1, 1000), None);
    assert_eq!(parse_decimal(&chars, 5, 1000), None);
    assert_eq!(scan_digits(&chars, 0), 0);
    assert_eq!(scan_digits(&chars, 2), 5);
    assert_eq!(scan_digits(&chars, 5), 5);
}

#[test]
fn deserialize_f64_keeps_the_literal() {
    assert_eq!(deserialize_f64("3.14"), Ok(float("3.14")));
    assert_eq!("3.14".parse::<f64>(), Ok(3.14));
    assert_eq!(deserialize_f64("42"), Ok(float("42")));
    assert_eq!(deserialize_f64("-1e-7"), Ok(float("-1e-7")));
    assert_eq!(deserialize_f64("abc"), Err(no_scalar("abc")));
}

#[test]
fn recognize_float_agrees_with_the_standard_library() {
    let samples = [
        "", "+", "-", ".", "+.", "-.", "e", "e5", "E5", ".e5", "1", "12", "1.", ".1", "1.5",
        "+1.5", "-1.5", "1e5", "1E5", "1e+5", "1e-5", "1.e5", ".5e5", "1.5e", "1.5e+", "1.5e-",
        "1.5e5.", "1.5e5e", "1e5e5", "1..5", "1.5.", "--1", "+-1", "1 ", " 1", "1_0", "0x1p3",
        "inf", "INF", "Inf", "iNf", "+inf", "-inf", "infinity", "Infinity", "INFINITY",
        "-infinity", "infinit", "infinityy", "nan", "NaN", "NAN", "+nan", "-nan", "nan1", "na",
        "in", "1f", "1d", "1.0f64", "3.14", "6.02e23", "1e400", "0e0", "00.00", "-0.0", "١",
        "1\n", "\n1", "±1", "i\u{307}nf", "ınf", "\u{212a}",
    ];
    for s in samples {
        assert_eq!(recognize_float(s), s.parse::<f64>().is_ok(), "{:?}", s);
    }
}

#[test]
fn deserialize_datetime_reads_dates_and_times() {
    let date = "1979-05-27T07:32:00-08:00";
    let expected = Datetime {
        date: Some(Date { year: 1979, month: 5, day: 27 }),
        time: Some(Time { hour: 7, minute: 32, second: 0, nanosecond: 0 }),
        offset: Some(Offset::Custom { hours: -8, minutes: 0 }),
    };
    assert_eq!(Value::Datetime(expected), deserialize_datetime(date).unwrap());
    let parsed = toml::value::Datetime::from_str(date).unwrap();
    assert_eq!(parsed.date.unwrap().year, 1979);
    assert_eq!(
        deserialize_datetime("1979-05-27"),
        Ok(Value::Datetime(Datetime {
            date: Some(Date { year: 1979, month: 5, day: 27 }),
            time: None,
            offset: None,
        }))
    );
    assert_eq!(
        deserialize_datetime("07:32:00.5"),
        Ok(Value::Datetime(Datetime {
            date: None,
            time: Some(Time { hour: 7, minute: 32, second: 0, nanosecond: 500_000_000 }),
            offset: None,
        }))
    );
    assert_eq!(
        deserialize_datetime("1979-05-27 07:32:00z"),
        Ok(Value::Datetime(Datetime {
            date: Some(Date { year: 1979, month: 5, day: 27 }),
            time: Some(Time { hour: 7, minute: 32, second: 0, nanosecond: 0 }),
            offset: Some(Offset::Z),
        }))
    );
    assert_eq!(deserialize_datetime("1979-13-27"), Err(no_scalar("1979-13-27")));
    assert_eq!(deserialize_datetime(""), Err(no_scalar("")));
}

#[test]
fn an_unquoted_integer_is_an_integer() {
    assert_eq!(infer_scalar("42"), Ok(Value::Integer(42)));
    assert_eq!(infer_scalar("123"), Ok(Value::Integer(123)));
    assert_eq!(infer_scalar("-7\n"), Ok(Value::Integer(-7)));
}

#[test]
fn a_number_with_a_point_is_a_float() {
    assert_eq!(infer_scalar("3.14"), Ok(float("3.14")));
    assert_eq!(infer_scalar("9223372036854775808"), Ok(float("9223372036854775808")));
    assert_eq!(infer_scalar("inf\r\n"), Ok(float("inf")));
}

#[test]
fn a_quoted_integer_is_a_string() {
    assert_eq!(infer_scalar("\"42\""), Ok(Value::String("42".to_string())));
    assert_eq!(infer_scalar("\"true\""), Ok(Value::String("true".to_string())));
    assert_eq!(infer_scalar("\"1979-05-27\""), Ok(Value::String("1979-05-27".to_string())));
}

#[test]
fn a_date_is_read_last() {
    assert_eq!(
        infer_scalar("1979-05-27\n"),
        Ok(Value::Datetime(Datetime {
            date: Some(Date { year: 1979, month: 5, day: 27 }),
            time: None,
            offset: None,
        }))
    );
    assert_eq!(infer_scalar("true"), Ok(Value::Boolean(true)));
    assert_eq!(infer_scalar("false\n"), Ok(Value::Boolean(false)));
}

#[test]
fn what_no_grammar_accepts_fails_with_the_raw_content() {
    for text in ["", "\n", "hello", "\"", "true\n\n", "42 ", " 42", "tru", "1979-05-27T"] {
        assert_eq!(infer_scalar(text), Err(no_scalar(text)), "{:?}", text);
    }
}

#[test]
fn one_line_terminator_is_set_aside() {
    assert_eq!(strip_line_ending("abc"), "abc");
    assert_eq!(strip_line_ending("abc\n"), "abc");
    assert_eq!(strip_line_ending("abc\r\n"), "abc");
    assert_eq!(strip_line_ending("abc\n\n"), "abc\n");
    assert_eq!(strip_line_ending("abc\r"), "abc\r");
    assert_eq!(strip_line_ending("abc\n\r\n"), "abc\n");
    assert_eq!(strip_line_ending("é\n"), "é");
    assert_eq!(strip_line_ending("\n"), "");
    assert_eq!(strip_line_ending("\r\n"), "");
    assert_eq!(strip_line_ending(""), "");
}

#[test]
fn decimal_string_agrees_with_the_standard_library() {
    for n in [0usize, 1, 9, 10, 11, 99, 100, 101, 1234567890, usize::MAX - 1, usize::MAX] {
        assert_eq!(decimal_string(n), n.to_string());
    }
    for n in 0usize..1200 {
        assert_eq!(decimal_string(n), n.to_string());
    }
}

#[test]
fn text_helpers_compare_by_characters() {
    assert_eq!(chars_of("aé\n"), vec!['a', 'é', '\n']);
    assert!(same_text("abc", "abc"));
    assert!(!same_text("abc", "abd"));
    assert!(!same_text("abc", "ab"));
    assert_eq!(parse_boolean("true"), Some(true));
    assert_eq!(parse_boolean("false"), Some(false));
    assert_eq!(parse_boolean("TRUE"), None);
}
