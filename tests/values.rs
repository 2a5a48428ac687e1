use conl::{Text, Token};

fn value(raw: &str) -> Result<String, (usize, String)> {
    match Token::Value(3, raw).unescape() {
        Ok(t) => Ok(t.as_str().to_string()),
        Err(e) => Err((e.lno, e.msg)),
    }
}

#[test]
fn plain_value_is_borrowed() {
    let raw = "hello world";
    match Token::Value(1, raw).unescape().unwrap() {
        Text::Borrowed(s) => assert_eq!(s.as_ptr(), raw.as_ptr()),
        Text::Owned(_) => panic!("expected a borrowed value"),
    }
}

#[test]
fn simple_quoted_value_is_borrowed() {
    let raw = "\"a b\"";
    match Token::MapKey(1, raw).unescape().unwrap() {
        Text::Borrowed(s) => {
            assert_eq!(s, "a b");
            assert_eq!(s.as_ptr(), raw[1..].as_ptr());
        }
        Text::Owned(_) => panic!("expected a borrowed value"),
    }
}

#[test]
fn quoting_round_trip() {
    let s = "hello, world! {x} = 1;";
    assert_eq!(value(&format!("\"{}\"", s)).unwrap(), s);
}

#[test]
fn simple_escapes() {
    assert_eq!(value(r#""a\"b\\c\nd\re\tf""#).unwrap(), "a\"b\\c\nd\re\tf");
}

#[test]
fn unicode_escape_bounds() {
    assert_eq!(value(r#""\{0}""#).unwrap(), "\u{0}");
    assert_eq!(value(r#""\{10FFFF}""#).unwrap(), "\u{10FFFF}");
    assert_eq!(value(r#""x\{1F600}y""#).unwrap(), "x\u{1F600}y");
    assert_eq!(
        value(r#""\{110000}""#).unwrap_err(),
        (3, "invalid escape code: \\{110000}".to_string())
    );
    assert_eq!(
        value(r#""\{D800}""#).unwrap_err(),
        (3, "invalid escape code: \\{D800}".to_string())
    );
    assert_eq!(
        value(r#""\{000000041}""#).unwrap_err(),
        (3, "invalid escape code: \\{000000041}".to_string())
    );
    assert_eq!(
        value(r#""\{}""#).unwrap_err(),
        (3, "invalid escape code: \\{}".to_string())
    );
}

#[test]
fn escape_errors() {
    assert_eq!(value(r#""a\q""#).unwrap_err().1, "invalid escape code: \\q");
    assert_eq!(value("\"a\\").unwrap_err().1, "invalid escape code: end of string");
    assert_eq!(value(r#""a\{41"#).unwrap_err().1, "invalid escape code: end of string");
    assert_eq!(value(r#""ab" c"#).unwrap_err().1, "extra characters after quotes");
    assert_eq!(value(r#""ab"#).unwrap_err().1, "unclosed quotes");
    assert_eq!(value("\"").unwrap_err().1, "unclosed quotes");
}

#[test]
fn multiline_unescape() {
    let t = Token::MultilineValue(1, "  ", "a\n    b\n\n  c");
    assert_eq!(t.unescape().unwrap().as_str(), "a\n  b\n\nc");
    let t = Token::MultilineValue(1, "  ", "a\r\n  b\r  c");
    assert_eq!(t.unescape().unwrap().as_str(), "a\nb\nc");
    let t = Token::MultilineValue(1, "  ", "single");
    assert!(matches!(t.unescape().unwrap(), Text::Borrowed("single")));
    let t = Token::MultilineValue(1, "    ", "a\n  b");
    assert_eq!(t.unescape().unwrap().as_str(), "a\n");
}

#[test]
fn other_tokens_unescape_empty() {
    assert_eq!(Token::Indent(1).unescape().unwrap().as_str(), "");
    assert_eq!(Token::NoValue(1).unescape().unwrap().as_str(), "");
    assert_eq!(Token::MultilineHint(1, "sql").unescape().unwrap().as_str(), "sql");
}

#[test]
fn error_text() {
    let e = conl::SyntaxError { lno: 120, msg: "unclosed quotes".to_string() };
    assert_eq!(e.to_string(), "120: unclosed quotes");
    let e = Token::Value(7, "\"x").unescape().unwrap_err();
    assert_eq!(e.to_string(), "7: unclosed quotes");
}

#[test]
fn escape_with_sign_rejected() {
    assert_eq!(
        value(r#""\{+41}""#).unwrap_err(),
        (3, "invalid escape code: \\{+41}".to_string())
    );
}
