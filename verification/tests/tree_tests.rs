use leptjson::cursor::{lept_parse_whitespace, ISDIGIT};
use leptjson::parser::parse;
use leptjson::ErrorKind;
use leptjson::LeptContext;
use leptjson::Member;
use leptjson::Value;
use leptjson::ValueKind;

fn render(v: &leptjson::Value) -> String {
    leptjson::serializer::stringify(v)
}

fn chars(s: &str) -> Vec<char> {
    s.chars().collect()
}

fn sample_tree() -> Value {
    // { "name": "a\nb", "count": 1231, "tags": [true, null, -2.5e-3], "emoji": "\u{1F600}" }
    let tags = Value::Array(vec![
        Value::Bool(true),
        Value::Null,
        Value::number_from("-2.5e-3").unwrap(),
    ]);
    Value::Object(vec![
        Member { key: chars("name"), value: Value::text_from("a\nb") },
        Member { key: chars("count"), value: Value::number_from("1231").unwrap() },
        Member { key: chars("tags"), value: tags },
        Member { key: chars("emoji"), value: Value::text_from("\u{1F600}") },
    ])
}

#[test]
fn round_trip_restores_the_tree() {
    let v = sample_tree();
    let text = render(&v);
    let back = parse(&text).unwrap();
    assert!(back.deep_eq(&v));
    assert!(v.deep_eq(&back));
}

#[test]
fn stringify_is_idempotent_through_parse() {
    let v = sample_tree();
    let once = render(&v);
    let twice = render(&parse(&once).unwrap());
    assert_eq!(once, twice);
}

#[test]
fn round_trip_with_whitespace_padding() {
    let v = sample_tree();
    let text = format!(" \t\r\n{} \n", render(&v));
    let back = parse(&text).unwrap();
    assert!(back.deep_eq(&v));
}

#[test]
fn deep_eq_tells_trees_apart() {
    let v = sample_tree();
    let mut w = sample_tree();
    assert!(v.deep_eq(&w));
    w.insert_or_update("count", Value::number_from("1232").unwrap());
    assert!(!v.deep_eq(&w));
    assert!(!Value::Null.deep_eq(&Value::Bool(false)));
}

#[test]
fn array_mutation_then_stringify() {
    let mut v = parse("[1,2,3]").unwrap();
    let removed = v.remove(1).unwrap();
    assert_eq!(render(&removed), "2");
    assert_eq!(render(&v), "[1,3]");
}

#[test]
fn array_editing() {
    let mut v = parse("[]").unwrap();
    v.append(Value::number_from("1").unwrap());
    v.append(Value::Bool(false));
    assert_eq!(render(&v), "[1,false]");
    v.insert(1, Value::text_from("mid")).unwrap();
    assert_eq!(render(&v), "[1,\"mid\",false]");
    v.set(0, Value::Null).unwrap();
    assert_eq!(render(&v), "[null,\"mid\",false]");
    assert_eq!(v.length(), 3);
    assert_eq!(v.get(5).unwrap_err(), ErrorKind::IndexOutOfRange);
    assert_eq!(v.set(7, Value::Null).unwrap_err(), ErrorKind::IndexOutOfRange);
    assert_eq!(v.insert(9, Value::Null).unwrap_err(), ErrorKind::IndexOutOfRange);
    assert_eq!(v.remove(3).unwrap_err(), ErrorKind::IndexOutOfRange);
    assert_eq!(render(&v), "[null,\"mid\",false]");
}

#[test]
fn object_editing() {
    let mut v = parse("{\"a\":1,\"b\":2}").unwrap();
    assert!(v.contains("a"));
    assert!(!v.contains("c"));
    v.insert_or_update("c", Value::Bool(true));
    assert_eq!(render(&v), "{\"a\":1,\"b\":2,\"c\":true}");
    // updating an existing key replaces the value in place
    v.insert_or_update("a", Value::number_from("9").unwrap());
    assert_eq!(render(&v), "{\"a\":9,\"b\":2,\"c\":true}");
    assert!(v.remove_key("b"));
    assert!(!v.remove_key("b"));
    assert_eq!(render(&v), "{\"a\":9,\"c\":true}");
    let ks = v.keys();
    assert_eq!(ks.len(), 2);
    assert_eq!(ks[0], "a");
    assert_eq!(ks[1], "c");
}

#[test]
fn duplicate_key_editing_policy() {
    // update touches the last duplicate, in place; removal takes the first
    let mut v = parse("{\"a\":1,\"a\":2,\"z\":0}").unwrap();
    v.insert_or_update("a", Value::number_from("7").unwrap());
    assert_eq!(render(&v), "{\"a\":1,\"a\":7,\"z\":0}");
    assert!(v.remove_key("a"));
    assert_eq!(render(&v), "{\"a\":7,\"z\":0}");
    assert_eq!(render(v.get_key("a").unwrap()), "7");
}

#[test]
fn number_from_checks_the_lexeme() {
    assert!(Value::number_from("0").is_ok());
    assert!(Value::number_from("-1.5e+10").is_ok());
    assert_eq!(Value::number_from("01").unwrap_err(), ErrorKind::InvalidValue);
    assert_eq!(Value::number_from("1.").unwrap_err(), ErrorKind::InvalidValue);
    assert_eq!(Value::number_from("abc").unwrap_err(), ErrorKind::InvalidValue);
    assert_eq!(Value::number_from("1e400").unwrap_err(), ErrorKind::NumberTooLarge);
    assert_eq!(Value::number_from("1 ").unwrap_err(), ErrorKind::InvalidValue);
}

#[test]
fn serializer_escapes_controls_and_specials() {
    let v = Value::text_from("q\"w\\e\u{1}f");
    assert_eq!(render(&v), "\"q\\\"w\\\\e\\u0001f\"");
    let v = Value::text_from("\u{8}\u{c}\n\r\t");
    assert_eq!(render(&v), "\"\\b\\f\\n\\r\\t\"");
    // a slash needs no escaping on output though the parser accepts one
    let v = parse("\"a\\/b\"").unwrap();
    assert_eq!(render(&v), "\"a/b\"");
}

#[test]
fn kind_reports_the_variant() {
    assert_eq!(Value::Null.kind(), ValueKind::Null);
    assert_eq!(Value::Bool(true).kind(), ValueKind::Bool);
    assert_eq!(Value::text_from("x").kind(), ValueKind::Text);
    assert_eq!(Value::number_from("4").unwrap().kind(), ValueKind::Number);
    assert_eq!(Value::Array(Vec::new()).kind(), ValueKind::Array);
    assert_eq!(Value::Object(Vec::new()).kind(), ValueKind::Object);
}

#[test]
fn cursor_peeks_are_total() {
    let mut c = LeptContext { chars: chars("ab"), ptr: 0, stack: Vec::new() };
    assert!(c.hasnext());
    assert_eq!(c.peek(), 'a');
    assert_eq!(c.peek1(), 'b');
    assert_eq!(c.peek2(), '\u{0}');
    assert_eq!(c.peek3(), '\u{0}');
    c.forward();
    c.forward();
    assert!(!c.hasnext());
    assert_eq!(c.peek(), '\u{0}');
    // advancing at the end is a no-op
    c.forward();
    assert_eq!(c.ptr, 2);
}

#[test]
fn cursor_expect_and_putc() {
    let mut c = LeptContext { chars: chars("xy"), ptr: 0, stack: Vec::new() };
    assert!(!c.expect('y'));
    assert_eq!(c.ptr, 0);
    assert!(c.expect('x'));
    assert_eq!(c.ptr, 1);
    c.putc('q');
    c.putc('r');
    assert_eq!(c.stack, vec!['q', 'r']);
}

#[test]
fn digit_test_and_whitespace_skip() {
    for d in ['0', '1', '5', '9'] {
        assert!(ISDIGIT(d));
    }
    for d in ['a', ' ', '-', '.', '\u{0}'] {
        assert!(!ISDIGIT(d));
    }
    let mut c = LeptContext { chars: chars("  \t\r\n x"), ptr: 0, stack: Vec::new() };
    lept_parse_whitespace(&mut c);
    assert_eq!(c.ptr, 6);
    assert_eq!(c.peek(), 'x');
    lept_parse_whitespace(&mut c);
    assert_eq!(c.ptr, 6);
}

#[test]
fn keys_keep_duplicates_in_order() {
    let v = parse("{\"a\":1,\"b\":2,\"a\":3}").unwrap();
    let ks = v.keys();
    assert_eq!(ks, vec!["a", "b", "a"]);
    assert_eq!(v.length(), 3);
}

#[test]
fn insert_at_the_end_appends() {
    let mut v = parse("[1]").unwrap();
    v.insert(1, Value::Bool(true)).unwrap();
    assert_eq!(render(&v), "[1,true]");
}
