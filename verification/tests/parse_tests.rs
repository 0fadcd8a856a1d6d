use leptjson::parser::parse;
use leptjson::ErrorKind;
use leptjson::ValueKind;

fn render(v: &leptjson::Value) -> String {
    leptjson::serializer::stringify(v)
}

#[test]
fn parses_null_with_whitespace() {
    let v = parse(" \t\n null \t").unwrap();
    assert_eq!(v.kind(), ValueKind::Null);
    let v = parse("null").unwrap();
    assert_eq!(v.kind(), ValueKind::Null);
    let v = parse("\r\nnull").unwrap();
    assert_eq!(v.kind(), ValueKind::Null);
    let v = parse("null    ").unwrap();
    assert_eq!(v.kind(), ValueKind::Null);
}

#[test]
fn parses_booleans() {
    let v = parse("  true ").unwrap();
    assert_eq!(v.kind(), ValueKind::Bool);
    assert_eq!(render(&v), "true");
    let v = parse("false").unwrap();
    assert_eq!(render(&v), "false");
}

#[test]
fn rejects_broken_literals() {
    // the offset points at the first differing character, or at the
    // end of the input when the literal is cut short
    let e = parse("nul").unwrap_err();
    assert_eq!(e.kind, ErrorKind::InvalidValue);
    assert_eq!(e.offset, 3);
    let e = parse("nulx").unwrap_err();
    assert_eq!(e.kind, ErrorKind::InvalidValue);
    assert_eq!(e.offset, 3);
    let e = parse("tru").unwrap_err();
    assert_eq!(e.kind, ErrorKind::InvalidValue);
    assert_eq!(e.offset, 3);
    let e = parse("falsx").unwrap_err();
    assert_eq!(e.kind, ErrorKind::InvalidValue);
    assert_eq!(e.offset, 4);
    let e = parse("nxll").unwrap_err();
    assert_eq!(e.kind, ErrorKind::InvalidValue);
    assert_eq!(e.offset, 1);
    // a full literal followed by trailing text is caught at the top level
    let e = parse("truee").unwrap_err();
    assert_eq!(e.kind, ErrorKind::RootNotSingular);
    assert_eq!(e.offset, 4);
}

#[test]
fn rejects_empty_and_garbage() {
    let e = parse("").unwrap_err();
    assert_eq!(e.kind, ErrorKind::ExpectValue);
    let e = parse("   \t\n").unwrap_err();
    assert_eq!(e.kind, ErrorKind::ExpectValue);
    let e = parse("?").unwrap_err();
    assert_eq!(e.kind, ErrorKind::InvalidValue);
    let e = parse("null x").unwrap_err();
    assert_eq!(e.kind, ErrorKind::RootNotSingular);
    assert_eq!(e.offset, 5);
}

#[test]
fn parses_numbers() {
    for ok in [
        "0", "-0", "1", "-1", "1231", "1.5", "-2.75", "0.0001", "1e10", "1E10", "1e+10",
        "1e-10", "-1.5e-3", "3.1416", "1e308", "0e999999",
    ] {
        let v = parse(ok).unwrap();
        assert_eq!(v.kind(), ValueKind::Number, "{}", ok);
        assert_eq!(render(&v), ok, "{}", ok);
    }
}

#[test]
fn rejects_bad_numbers() {
    let e = parse("01234").unwrap_err();
    assert_eq!(e.kind, ErrorKind::InvalidValue);
    assert_eq!(e.offset, 1);
    for bad in ["+1", ".5", "1.", "1.e3", "1e", "1e+", "-", "--1", "0x1"] {
        let r = parse(bad);
        assert!(r.is_err(), "{}", bad);
    }
}

#[test]
fn rejects_numbers_beyond_double_range() {
    let e = parse("1e400").unwrap_err();
    assert_eq!(e.kind, ErrorKind::NumberTooLarge);
    let e = parse("-1e400").unwrap_err();
    assert_eq!(e.kind, ErrorKind::NumberTooLarge);
    let e = parse("10000e306").unwrap_err();
    assert_eq!(e.kind, ErrorKind::NumberTooLarge);
    // tiny numbers underflow to zero, they are not an error
    assert!(parse("1e-10000").is_ok());
    assert!(parse("0.5e310").is_err());
    // the boundary decade: the largest double still passes, anything
    // at or above the next seventeen-digit prefix is rejected
    assert!(parse("1.7976931348623157e308").is_ok());
    let e = parse("1.7976931348623159e308").unwrap_err();
    assert_eq!(e.kind, ErrorKind::NumberTooLarge);
    let e = parse("2e308").unwrap_err();
    assert_eq!(e.kind, ErrorKind::NumberTooLarge);
    let e = parse("1.8e308").unwrap_err();
    assert_eq!(e.kind, ErrorKind::NumberTooLarge);
}

#[test]
fn parses_strings_and_escapes() {
    let v = parse("\"a\\nb\"").unwrap();
    assert_eq!(v.kind(), ValueKind::Text);
    // decoded content is the three characters a, newline, b
    let vs = render(&v);
    assert_eq!(vs, "\"a\\nb\"");
    let v2 = parse("\"\\\" \\\\ \\/ \\b \\f \\n \\r \\t\"").unwrap();
    assert_eq!(v2.kind(), ValueKind::Text);
    let v3 = parse("\"\\u0041\"").unwrap();
    assert_eq!(render(&v3), "\"A\"");
}

#[test]
fn rejects_bad_strings() {
    let e = parse("\"abc").unwrap_err();
    assert_eq!(e.kind, ErrorKind::MissQuotationMark);
    let e = parse("\"a\\x\"").unwrap_err();
    assert_eq!(e.kind, ErrorKind::InvalidStringEscape);
    let e = parse("\"a\\uZZZZ\"").unwrap_err();
    assert_eq!(e.kind, ErrorKind::InvalidStringEscape);
    let e = parse("\"a\tb\"").unwrap_err();
    assert_eq!(e.kind, ErrorKind::InvalidStringChar);
}

#[test]
fn decodes_surrogate_pairs() {
    let v = parse("\"\\ud83d\\ude00\"").unwrap();
    assert_eq!(v.kind(), ValueKind::Text);
    assert_eq!(render(&v), "\"\u{1F600}\"");
    let e = parse("\"\\ud83d\"").unwrap_err();
    assert_eq!(e.kind, ErrorKind::InvalidUnicodeSurrogate);
    let e = parse("\"\\ude00\"").unwrap_err();
    assert_eq!(e.kind, ErrorKind::InvalidUnicodeSurrogate);
    let e = parse("\"\\ud83d\\u0041\"").unwrap_err();
    assert_eq!(e.kind, ErrorKind::InvalidUnicodeSurrogate);
}

#[test]
fn parses_arrays() {
    let v = parse("[]").unwrap();
    assert_eq!(v.kind(), ValueKind::Array);
    assert_eq!(render(&v), "[]");
    let v = parse("[ ]").unwrap();
    assert_eq!(render(&v), "[]");
    let v = parse("[1, \"two\", [3], null, true]").unwrap();
    assert_eq!(v.length(), 5);
    assert_eq!(render(&v), "[1,\"two\",[3],null,true]");
}

#[test]
fn rejects_bad_arrays() {
    let e = parse("[1,]").unwrap_err();
    assert_eq!(e.kind, ErrorKind::InvalidValue);
    let e = parse("[1 2]").unwrap_err();
    assert_eq!(e.kind, ErrorKind::MissCommaOrSquareBracket);
    let e = parse("[1").unwrap_err();
    assert_eq!(e.kind, ErrorKind::MissCommaOrSquareBracket);
}

#[test]
fn parses_objects() {
    let v = parse("{}").unwrap();
    assert_eq!(v.kind(), ValueKind::Object);
    assert_eq!(render(&v), "{}");
    let v = parse("{ \"a\" : 1 , \"b\" : [true] }").unwrap();
    assert_eq!(v.length(), 2);
    assert_eq!(render(&v), "{\"a\":1,\"b\":[true]}");
}

#[test]
fn rejects_bad_objects() {
    let e = parse("{\"a\":1,}").unwrap_err();
    assert_eq!(e.kind, ErrorKind::MissKey);
    let e = parse("{1:2}").unwrap_err();
    assert_eq!(e.kind, ErrorKind::MissKey);
    let e = parse("{\"a\" 1}").unwrap_err();
    assert_eq!(e.kind, ErrorKind::MissColon);
    let e = parse("{\"a\":1 \"b\":2}").unwrap_err();
    assert_eq!(e.kind, ErrorKind::MissCommaOrSquareBracket);
    let e = parse("{\"a\":1").unwrap_err();
    assert_eq!(e.kind, ErrorKind::MissCommaOrSquareBracket);
}

#[test]
fn parses_nested_structure() {
    let v = parse(" [1231, [null, false], 344] ").unwrap();
    assert_eq!(v.kind(), ValueKind::Array);
    assert_eq!(v.length(), 3);
    let second = v.get(1).unwrap();
    assert_eq!(second.kind(), ValueKind::Array);
    assert_eq!(second.length(), 2);
    assert_eq!(second.get(0).unwrap().kind(), ValueKind::Null);
    assert_eq!(second.get(1).unwrap().kind(), ValueKind::Bool);
}

#[test]
fn parses_object_with_nested_array_of_objects() {
    let v = parse(" { \"123\" : [ {\"x\" : 1234 }] } ").unwrap();
    assert_eq!(v.kind(), ValueKind::Object);
    let arr = v.get_key("123").unwrap();
    assert_eq!(arr.kind(), ValueKind::Array);
    assert_eq!(arr.length(), 1);
    let inner = arr.get(0).unwrap();
    assert_eq!(inner.kind(), ValueKind::Object);
    let x = inner.get_key("x").unwrap();
    assert_eq!(x.kind(), ValueKind::Number);
    assert_eq!(render(x), "1234");
}

#[test]
fn duplicate_keys_resolve_to_last() {
    let v = parse("{\"a\":1,\"a\":2}").unwrap();
    let got = v.get_key("a").unwrap();
    assert_eq!(render(got), "2");
}

#[test]
fn error_offsets_point_at_the_violation() {
    assert_eq!(parse("\"ab").unwrap_err().offset, 3);
    assert_eq!(parse("[null, falze]").unwrap_err().offset, 10);
    assert_eq!(parse("{\"a\"?1}").unwrap_err().offset, 4);
    assert_eq!(parse("  ?").unwrap_err().offset, 2);
}

#[test]
fn fraction_and_exponent_round_trip_textually() {
    let v = parse("[0.5, 2e3, -0.125e-2]").unwrap();
    assert_eq!(render(&v), "[0.5,2e3,-0.125e-2]");
}
