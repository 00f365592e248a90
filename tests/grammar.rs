use kv3::chars::{chars_of, truncate_str};
use kv3::lexer::skip_comments_and_whitespace;
use kv3::{parse_kv3, parse_kv3_with_depth, Expected, KV3Object, KV3Value, ParseError, ParseErrorKind, DEFAULT_MAX_DEPTH};

fn root(text: &str) -> KV3Object {
    match parse_kv3(text) {
        Ok((_, o)) => o,
        Err(e) => panic!("parse failed: {:?}", e),
    }
}

fn value_of(text: &str) -> KV3Value {
    let wrapped = format!("{{ v = {} }}", text);
    let mut o = root(&wrapped);
    assert_eq!(o.fields.len(), 1);
    o.fields.remove(0).1
}

fn error_of(text: &str) -> ParseError {
    match parse_kv3(text) {
        Ok(_) => panic!("expected a parse error"),
        Err(e) => e,
    }
}

fn same(a: &KV3Value, b: &KV3Value) -> bool {
    match (a, b) {
        (KV3Value::Bool(x), KV3Value::Bool(y)) => x == y,
        (KV3Value::Int(x), KV3Value::Int(y)) => x == y,
        (KV3Value::Double(x), KV3Value::Double(y)) => x == y,
        (KV3Value::String(x), KV3Value::String(y)) => x == y,
        (KV3Value::HexArray(x), KV3Value::HexArray(y)) => x == y,
        (KV3Value::Null, KV3Value::Null) => true,
        (KV3Value::Array(x), KV3Value::Array(y)) => {
            x.len() == y.len() && x.iter().zip(y.iter()).all(|(p, q)| same(p, q))
        }
        (KV3Value::Object(x), KV3Value::Object(y)) => {
            x.fields.len() == y.fields.len()
                && x.fields.iter().zip(y.fields.iter()).all(|(p, q)| p.0 == q.0 && same(&p.1, &q.1))
        }
        _ => false,
    }
}

#[test]
fn two_int_pairs() {
    let o = root("{ a = 1 b = 2 }");
    assert_eq!(o.len(), 2);
    assert!(matches!(o.get("a"), Some(KV3Value::Int(1))));
    assert!(matches!(o.get("b"), Some(KV3Value::Int(2))));
    assert_eq!(o.fields[0].0, "a");
    assert_eq!(o.fields[1].0, "b");
}

#[test]
fn distinct_keys_give_one_entry_each() {
    let o = root("{ x = 1 y = \"two\" z = [3] w = null }");
    assert_eq!(o.len(), 4);
    let keys: Vec<&str> = o.fields.iter().map(|(k, _)| k.as_str()).collect();
    assert_eq!(keys, vec!["x", "y", "z", "w"]);
    assert!(matches!(o.get("y"), Some(KV3Value::String(s)) if s == "two"));
    assert!(matches!(o.get("w"), Some(KV3Value::Null)));
}

#[test]
fn later_duplicate_key_overwrites() {
    let o = root("{ a = 1 b = 2 a = 3 }");
    assert_eq!(o.len(), 2);
    assert_eq!(o.fields[0].0, "a");
    assert!(matches!(o.get("a"), Some(KV3Value::Int(3))));
}

#[test]
fn hex_array_bytes() {
    match value_of("#[FF 00]") {
        KV3Value::HexArray(b) => assert_eq!(b, vec![255u8, 0]),
        other => panic!("{:?}", other),
    }
}

#[test]
fn hex_array_drops_tokens_that_are_no_byte() {
    match value_of("#[ 0a zz FFF +F 7 ]") {
        KV3Value::HexArray(b) => assert_eq!(b, vec![10u8, 15, 7]),
        other => panic!("{:?}", other),
    }
}

#[test]
fn hex_array_splits_on_unicode_whitespace() {
    match value_of("#[01\u{2003}02\u{a0}03]") {
        KV3Value::HexArray(b) => assert_eq!(b, vec![1u8, 2, 3]),
        other => panic!("{:?}", other),
    }
}

#[test]
fn nested_arrays() {
    let v = value_of("[1, [2, 3], 4]");
    let expected = KV3Value::Array(vec![
        KV3Value::Int(1),
        KV3Value::Array(vec![KV3Value::Int(2), KV3Value::Int(3)]),
        KV3Value::Int(4),
    ]);
    assert!(same(&v, &expected));
}

#[test]
fn trailing_comma_accepted() {
    let a = value_of("[1, 2,]");
    let b = value_of("[1, 2]");
    assert!(same(&a, &b));
    assert!(same(&a, &KV3Value::Array(vec![KV3Value::Int(1), KV3Value::Int(2)])));
}

#[test]
fn empty_arrays_and_objects() {
    assert!(same(&value_of("[ ]"), &KV3Value::Array(vec![])));
    assert!(same(&value_of("[\n]"), &KV3Value::Array(vec![])));
    assert!(same(&value_of("{ }"), &KV3Value::Object(KV3Object { fields: vec![] })));
}

#[test]
fn comments_are_ignored() {
    let o = root("{ // c\n a = 1 /* c2 */ }");
    assert_eq!(o.len(), 1);
    assert!(matches!(o.get("a"), Some(KV3Value::Int(1))));
    let o = root("<!-- head --> { <!-- x --> a /* y */ = // z\n [ 1 /* w */ , 2 ] }");
    assert!(same(
        o.get("a").unwrap(),
        &KV3Value::Array(vec![KV3Value::Int(1), KV3Value::Int(2)])
    ));
}

#[test]
fn comment_bodies_next_to_their_closers() {
    let o = root("{ /* a **/ a = 1 <!--b---> b = 2 }");
    assert_eq!(o.len(), 2);
    assert!(matches!(o.get("b"), Some(KV3Value::Int(2))));
}

#[test]
fn multiline_string_verbatim() {
    assert!(same(&value_of("\"\"\"line1\nline2\"\"\""), &KV3Value::String("line1\nline2".to_string())));
    assert!(same(&value_of("\"\"\"\n  x \n\"\"\""), &KV3Value::String("\n  x \n".to_string())));
}

#[test]
fn single_line_string() {
    assert!(same(&value_of("\"a b\""), &KV3Value::String("a b".to_string())));
    assert!(same(&value_of("\"\""), &KV3Value::String(String::new())));
}

#[test]
fn keywords() {
    assert!(same(&value_of("true"), &KV3Value::Bool(true)));
    assert!(same(&value_of("false"), &KV3Value::Bool(false)));
    assert!(same(&value_of("null"), &KV3Value::Null));
}

#[test]
fn numbers_are_classified() {
    assert!(same(&value_of("5"), &KV3Value::Int(5)));
    assert!(same(&value_of("-42"), &KV3Value::Int(-42)));
    assert!(same(&value_of("+7"), &KV3Value::Int(7)));
    assert!(same(&value_of("5.0"), &KV3Value::Double("5.0".to_string())));
    assert!(same(&value_of("-2.5e3"), &KV3Value::Double("-2.5e3".to_string())));
    assert!(same(&value_of(".5"), &KV3Value::Double(".5".to_string())));
    assert!(same(&value_of("1E5"), &KV3Value::Double("1E5".to_string())));
    assert!(same(&value_of("9223372036854775807"), &KV3Value::Int(i64::MAX)));
    assert!(same(&value_of("-9223372036854775808"), &KV3Value::Int(i64::MIN)));
}

#[test]
fn integer_overflow_is_number_format_error() {
    let e = error_of("{ a = 9223372036854775808 }");
    assert_eq!(e, ParseError { kind: ParseErrorKind::NumberFormat, position: 6 });
    let e = error_of("{ a = -9223372036854775809 }");
    assert_eq!(e.kind, ParseErrorKind::NumberFormat);
}

#[test]
fn exponent_without_digits() {
    let e = error_of("{ a = 5e }");
    assert_eq!(e, ParseError { kind: ParseErrorKind::Syntax(Expected::Digit), position: 8 });
}

#[test]
fn unterminated_comment_and_string() {
    assert_eq!(error_of("{ /* open").kind, ParseErrorKind::UnterminatedLiteral);
    assert_eq!(error_of("{ a = 1 } <!-- open").kind, ParseErrorKind::UnterminatedLiteral);
    assert_eq!(error_of("{ // no line end").kind, ParseErrorKind::UnterminatedLiteral);
    assert_eq!(error_of("{ a = \"open }").kind, ParseErrorKind::UnterminatedLiteral);
    assert_eq!(error_of("{ a = \"\"\"open\" }").kind, ParseErrorKind::UnterminatedLiteral);
}

#[test]
fn syntax_errors() {
    assert_eq!(error_of("  x"), ParseError { kind: ParseErrorKind::Syntax(Expected::OpenBrace), position: 2 });
    assert_eq!(error_of("{ a 1 }"), ParseError { kind: ParseErrorKind::Syntax(Expected::Equals), position: 4 });
    assert_eq!(error_of("{ a = }"), ParseError { kind: ParseErrorKind::Syntax(Expected::Value), position: 6 });
    assert_eq!(error_of("{ a = [1 2] }"), ParseError { kind: ParseErrorKind::Syntax(Expected::CloseBracket), position: 9 });
    assert_eq!(error_of("{ a = 1"), ParseError { kind: ParseErrorKind::Syntax(Expected::CloseBrace), position: 7 });
    assert_eq!(error_of("{ a = #[00"), ParseError { kind: ParseErrorKind::Syntax(Expected::CloseBracket), position: 10 });
}

#[test]
fn trailing_text_is_returned() {
    match parse_kv3(" { a = 1 } \n rest") {
        Ok((rest, o)) => {
            assert_eq!(rest, "rest");
            assert_eq!(o.len(), 1);
        }
        Err(e) => panic!("{:?}", e),
    }
}

#[test]
fn unicode_keys_and_empty_key() {
    let o = root("{ clé_1 = 1 = 2 }");
    assert!(matches!(o.get("clé_1"), Some(KV3Value::Int(1))));
    assert!(matches!(o.get(""), Some(KV3Value::Int(2))));
}

#[test]
fn skipper_twice_is_skipper_once() {
    let text = "  // a\n /* b */ <!-- c --> \t x";
    let cs = chars_of(text);
    let once = skip_comments_and_whitespace(&cs, 0).unwrap();
    assert_eq!(once, text.chars().count() - 1);
    let twice = skip_comments_and_whitespace(&cs, once).unwrap();
    assert_eq!(once, twice);
}

#[test]
fn canonical_rendering_parses_back() {
    let tree = KV3Value::Object(KV3Object {
        fields: vec![
            ("n".to_string(), KV3Value::Int(-3)),
            ("d".to_string(), KV3Value::Double("1.5".to_string())),
            ("s".to_string(), KV3Value::String("hi".to_string())),
            ("h".to_string(), KV3Value::HexArray(vec![1, 254])),
            ("a".to_string(), KV3Value::Array(vec![KV3Value::Bool(true), KV3Value::Null])),
        ],
    });
    let text = "{ n = -3 d = 1.5 s = \"hi\" h = #[01 FE ] a = [true , null ] }";
    let o = root(text);
    assert!(same(&KV3Value::Object(o), &tree));
}

#[test]
fn deep_clone_copies_tree() {
    let v = value_of("{ a = [1, \"x\", #[02]] }");
    assert!(same(&v.deep_clone(), &v));
}

#[test]
fn truncate_long_and_short() {
    assert_eq!(truncate_str("abcdef", 3), "abc... (truncated)");
    assert_eq!(truncate_str("abc", 3), "abc");
    assert_eq!(truncate_str("", 0), "");
}

#[test]
fn float_range_limit() {
    let too_large = ["1e309", "-1e309", "17976931348623158.08e292", "1e99999999999999999999999", "179769313486231580793728971405303415079934132710037826936173778980444968292764750946649017977587207096330286416692887910946555547851940402630657488671505820681908902000708383676273854845817711531764475730270069855571366959622842914819860834936475292719074168444365510704342711559699508093042880177904174497792.0"];
    for text in too_large.iter() {
        let e = error_of(&format!("{{ a = {} }}", text));
        assert_eq!(e, ParseError { kind: ParseErrorKind::NumberFormat, position: 6 });
    }
    let in_range = [
        "1.7976931348623157e308",
        "1.7976931348623158e308",
        "0.000001797693134862315807937e314",
        "0.0e99999999999999999999999",
        "1e-99999999999999999999999",
        "179769313486231580793728971405303415079934132710037826936173778980444968292764750946649017977587207096330286416692887910946555547851940402630657488671505820681908902000708383676273854845817711531764475730270069855571366959622842914819860834936475292719074168444365510704342711559699508093042880177904174497791.0",
    ];
    for text in in_range.iter() {
        assert!(same(&value_of(text), &KV3Value::Double(text.to_string())));
    }
}

#[test]
fn nesting_depth_limit() {
    let text = "{ a = [ { b = [1] } ] }";
    assert!(parse_kv3_with_depth(text, 4).is_ok());
    match parse_kv3_with_depth(text, 3) {
        Err(e) => assert_eq!(e, ParseError { kind: ParseErrorKind::TooDeep, position: 14 }),
        Ok(_) => panic!("expected TooDeep"),
    }
    match parse_kv3_with_depth("  { }", 0) {
        Err(e) => assert_eq!(e, ParseError { kind: ParseErrorKind::TooDeep, position: 2 }),
        Ok(_) => panic!("expected TooDeep"),
    }
    assert!(parse_kv3_with_depth("{ h = #[01] n = 1 }", 1).is_ok());
}

#[test]
fn deep_input_fails_without_exhausting_the_stack() {
    let deep = format!("{{ a = {}1{} }}", "[".repeat(100000), "]".repeat(100000));
    assert_eq!(error_of(&deep).kind, ParseErrorKind::TooDeep);
    let ok = format!("{{ a = {}1{} }}", "[".repeat(DEFAULT_MAX_DEPTH - 1), "]".repeat(DEFAULT_MAX_DEPTH - 1));
    assert!(parse_kv3(&ok).is_ok());
}
