use conl::{parse, tokenize, Parser, SyntaxError, Text, Token};

#[derive(PartialEq)]
enum Kind {
    List,
    Dict,
}

fn string_to_json(input: &str, output: &mut String) {
    output.push('"');
    for c in input.chars() {
        match c {
            '"' => output.push_str("\\\""),
            '\\' => output.push_str("\\\\"),
            '\x08' => output.push_str("\\b"),
            '\x0c' => output.push_str("\\f"),
            '\n' => output.push_str("\\n"),
            '\r' => output.push_str("\\r"),
            '\t' => output.push_str("\\t"),
            _ if c.is_ascii_control() => {
                output.push_str(&format!("\\u{:04x}", c as u32));
            }
            _ => output.push(c),
        }
    }
    output.push('"');
}

fn section_to_json(parser: &mut Parser, output: &mut String) -> Result<(), SyntaxError> {
    let mut kind: Option<Kind> = None;
    while let Some(result) = parser.next() {
        let tok = result?;
        match tok {
            Token::Newline(..) | Token::Comment(..) | Token::MultilineHint(..) => {}
            Token::Indent(..) => section_to_json(parser, output)?,
            Token::Outdent(..) => break,
            Token::ListItem(..) => match kind {
                None => {
                    output.push('[');
                    kind = Some(Kind::List);
                }
                Some(Kind::List) => output.push(','),
                Some(Kind::Dict) => unreachable!(),
            },
            Token::MapKey(..) => {
                match kind {
                    None => {
                        output.push('{');
                        kind = Some(Kind::Dict);
                    }
                    Some(Kind::Dict) => output.push(','),
                    Some(Kind::List) => unreachable!(),
                }
                string_to_json(tok.unescape()?.as_str(), output);
                output.push(':');
            }
            Token::Value(..) | Token::MultilineValue(..) | Token::NoValue(..) => {
                string_to_json(tok.unescape()?.as_str(), output);
            }
        }
    }
    match kind {
        None => output.push_str("{}"),
        Some(Kind::List) => output.push(']'),
        Some(Kind::Dict) => output.push('}'),
    }
    Ok(())
}

fn to_json(content: &[u8]) -> Result<String, SyntaxError> {
    let mut output = String::new();
    let mut parser = parse(content);
    section_to_json(&mut parser, &mut output)?;
    Ok(output)
}

fn error_of(content: &[u8]) -> (usize, String) {
    match to_json(content) {
        Ok(out) => panic!("expected an error, got {}", out),
        Err(e) => (e.lno, e.msg),
    }
}

fn all_tokens(content: &[u8]) -> Vec<Result<Token<'_>, SyntaxError>> {
    let mut out = Vec::new();
    let mut p = parse(content);
    while let Some(t) = p.next() {
        out.push(t);
    }
    out
}

#[test]
fn two_keys() {
    assert_eq!(to_json(b"a = 1\nb = 2").unwrap(), r#"{"a":"1","b":"2"}"#);
}

#[test]
fn nested_list() {
    assert_eq!(to_json(b"list\n  = x\n  = y").unwrap(), r#"{"list":["x","y"]}"#);
}

#[test]
fn multiline_value() {
    assert_eq!(
        to_json(b"k = \"\"\"\n  hello\n  world").unwrap(),
        r#"{"k":"hello\nworld"}"#
    );
}

#[test]
fn quoted_key_and_value() {
    assert_eq!(to_json(b"\"a b\" = \"c d\"").unwrap(), r#"{"a b":"c d"}"#);
}

#[test]
fn indent_under_list_value() {
    assert_eq!(error_of(b"= 1\n  = nested"), (2, "unexpected indent".to_string()));
}

#[test]
fn list_then_key() {
    assert_eq!(error_of(b"= 1\nb"), (2, "expected list item".to_string()));
}

#[test]
fn key_then_list_item() {
    assert_eq!(error_of(b"a = 1\n= 2"), (2, "expected map key".to_string()));
}

#[test]
fn missing_multiline_body() {
    assert_eq!(error_of(b"a = \"\"\"\nb = 1"), (1, "missing value".to_string()));
}

#[test]
fn key_without_value() {
    assert_eq!(to_json(b"key").unwrap(), r#"{"key":""}"#);
    let toks = all_tokens(b"key");
    assert!(matches!(toks[1], Ok(Token::NoValue(1))));
}

#[test]
fn empty_input() {
    assert!(tokenize(b"").next().is_none());
    assert!(parse(b"").next().is_none());
    assert_eq!(to_json(b"").unwrap(), "{}");
}

#[test]
fn trailing_newline() {
    assert_eq!(to_json(b"a = 1\nb\n  c = 2\n").unwrap(), to_json(b"a = 1\nb\n  c = 2").unwrap());
}

#[test]
fn mixed_line_endings() {
    assert_eq!(
        to_json(b"a = 1\r\nb = 2\rc = 3\nd = 4").unwrap(),
        r#"{"a":"1","b":"2","c":"3","d":"4"}"#
    );
}

#[test]
fn multiline_with_crlf() {
    assert_eq!(
        to_json(b"k = \"\"\"\r\n  x\r\n  y\r\nz = 1").unwrap(),
        r#"{"k":"x\ny","z":"1"}"#
    );
    let toks = all_tokens(b"k = \"\"\"\r\n  x\r\n  y\r\nz = 1");
    let z = toks
        .iter()
        .find(|t| matches!(t, Ok(Token::MapKey(_, "z"))))
        .unwrap();
    assert_eq!(z.as_ref().unwrap().line_number(), 4);
}

#[test]
fn multiline_followed_by_outdent() {
    assert_eq!(
        to_json(b"a\n  k = \"\"\"\n    x\nb = 1").unwrap(),
        r#"{"a":{"k":"x"},"b":"1"}"#
    );
}

#[test]
fn deep_nesting() {
    assert_eq!(
        to_json(b"a\n  b\n    c\n      d = 1\ne = 2").unwrap(),
        r#"{"a":{"b":{"c":{"d":"1"}}},"e":"2"}"#
    );
}

#[test]
fn outdent_two_levels_to_sibling() {
    assert_eq!(
        to_json(b"a\n  b\n    c = 1\n  d = 2").unwrap(),
        r#"{"a":{"b":{"c":"1"},"d":"2"}}"#
    );
}

#[test]
fn outdent_to_list_item() {
    assert_eq!(
        to_json(b"l\n  =\n    k = 1\n  = 2").unwrap(),
        r#"{"l":[{"k":"1"},"2"]}"#
    );
}

#[test]
fn indent_and_outdent_balance() {
    let toks = all_tokens(b"a\n  b\n    c\n      d = 1\ne = 2\nf\n  = 1\n");
    let ins = toks.iter().filter(|t| matches!(t, Ok(Token::Indent(_)))).count();
    let outs = toks.iter().filter(|t| matches!(t, Ok(Token::Outdent(_)))).count();
    assert_eq!(ins, 4);
    assert_eq!(ins, outs);
}

#[test]
fn tokenizer_lines_non_decreasing() {
    let input = b"a = 1\r\n\r\nb\n  = x ; note\n  = \"\"\"\n    m\n\n    n\nc";
    let mut t = tokenize(input);
    let mut last = 1;
    while let Some(r) = t.next() {
        let line = match r {
            Ok(tok) => tok.line_number(),
            Err(e) => e.lno,
        };
        assert!(line >= last);
        last = line;
    }
}

#[test]
fn comments_and_hints() {
    let toks = all_tokens(b"; top\na = \"\"\"txt ; tail\n  body");
    let comment = toks[0].as_ref().unwrap();
    assert!(matches!(comment, Token::Comment(1, "top")));
    assert_eq!(comment.unescape().unwrap().as_str(), "top");
    assert_eq!(comment.name(), "comment");
    let hint = toks
        .iter()
        .find(|t| matches!(t, Ok(Token::MultilineHint(..))))
        .unwrap()
        .as_ref()
        .unwrap();
    assert!(matches!(hint, Token::MultilineHint(2, "txt")));
}

#[test]
fn invalid_utf8() {
    let (lno, msg) = error_of(b"a = 1\nb = \xff");
    assert_eq!((lno, msg.as_str()), (2, "invalid UTF-8"));
    let mut t = tokenize(b"\xff = 1\nc = 2");
    assert!(matches!(t.next(), Some(Err(_))));
    let rest: Vec<_> = std::iter::from_fn(|| t.next()).collect();
    assert!(rest.iter().any(|r| matches!(r, Ok(Token::MapKey(2, "c")))));
}

#[test]
fn token_names_and_lines() {
    assert_eq!(Token::Newline(3).name(), "newline");
    assert_eq!(Token::MultilineValue(5, "", "x").name(), "multiline value");
    assert_eq!(Token::NoValue(7).name(), "no value");
    assert_eq!(Token::MapKey(9, "k").line_number(), 9);
    assert_eq!(Token::MultilineValue(4, "  ", "x").line_number(), 4);
}
