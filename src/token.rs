use vstd::prelude::*;
use crate::unescape::{char_from_u32, chars_of, string_of};

verus! {

/// A single token of the input, with the line on which it starts.
///
/// Lexemes borrow from the input buffer. Use [`Token::unescape`] to obtain the
/// logical value of a key, a value or a multi-line value.
#[derive(Debug, Eq, PartialEq, Clone)]
pub enum Token<'a> {
    /// A line terminator: `\r`, `\n` or `\r\n`.
    Newline(usize),
    /// The text of a comment, after `;`, trimmed of spaces and tabs.
    Comment(usize, &'a str),
    /// The start of a nested section.
    Indent(usize),
    /// The end of a nested section; one per `Indent` in well-formed input.
    Outdent(usize),
    /// A list item marker `=`; its value follows.
    ListItem(usize),
    /// The raw lexeme of a map key; its value follows.
    MapKey(usize, &'a str),
    /// The raw lexeme of a single-line value.
    Value(usize, &'a str),
    /// The tag of a `"""` marker announcing a multi-line value.
    MultilineHint(usize, &'a str),
    /// A multi-line value: the indentation to strip, and the raw body.
    MultilineValue(usize, &'a str, &'a str),
    /// Emitted by the parser when a key or list item has no value.
    NoValue(usize),
}

impl<'a> Token<'a> {
    /// The line carried by the token.
    pub open spec fn line(&self) -> usize {
        match self {
            Token::Newline(l) => *l,
            Token::Comment(l, _) => *l,
            Token::Indent(l) => *l,
            Token::Outdent(l) => *l,
            Token::ListItem(l) => *l,
            Token::MapKey(l, _) => *l,
            Token::Value(l, _) => *l,
            Token::MultilineHint(l, _) => *l,
            Token::MultilineValue(l, _, _) => *l,
            Token::NoValue(l) => *l,
        }
    }

    /// The name of the token's kind, for error messages.
    pub open spec fn kind_name(&self) -> Seq<char> {
        match self {
            Token::Newline(..) => "newline"@,
            Token::Comment(..) => "comment"@,
            Token::Indent(..) => "indent"@,
            Token::Outdent(..) => "outdent"@,
            Token::ListItem(..) => "list item"@,
            Token::MapKey(..) => "map key"@,
            Token::Value(..) => "value"@,
            Token::NoValue(..) => "no value"@,
            Token::MultilineHint(..) => "multiline hint"@,
            Token::MultilineValue(..) => "multiline value"@,
        }
    }

    /// Returns the line on which the token starts.
    pub fn line_number(&self) -> (r: usize)
        ensures
            r == self.line(),
    {
        match self {
            Token::Newline(l) => *l,
            Token::Comment(l, _) => *l,
            Token::Indent(l) => *l,
            Token::Outdent(l) => *l,
            Token::ListItem(l) => *l,
            Token::MapKey(l, _) => *l,
            Token::Value(l, _) => *l,
            Token::MultilineHint(l, _) => *l,
            Token::MultilineValue(l, _, _) => *l,
            Token::NoValue(l) => *l,
        }
    }

    /// Returns the name of the token's kind (as in "expected a map key, got a value").
    pub fn name(&self) -> (r: &'static str)
        ensures
            r@ == self.kind_name(),
    {
        match self {
            Token::Newline(..) => "newline",
            Token::Comment(..) => "comment",
            Token::Indent(..) => "indent",
            Token::Outdent(..) => "outdent",
            Token::ListItem(..) => "list item",
            Token::MapKey(..) => "map key",
            Token::Value(..) => "value",
            Token::NoValue(..) => "no value",
            Token::MultilineHint(..) => "multiline hint",
            Token::MultilineValue(..) => "multiline value",
        }
    }
}

/// An error in the input, with the line on which it was found.
#[derive(Debug, Clone)]
pub struct SyntaxError {
    pub lno: usize,
    pub msg: String,
}

impl SyntaxError {
    pub(crate) fn new(lno: usize, msg: &str) -> (r: SyntaxError)
        ensures
            r.lno == lno,
            r.msg@ == msg@,
    {
        SyntaxError { lno, msg: msg.to_owned() }
    }

    /// The error as text: the line in decimal, `": "`, then the message.
    pub fn to_string(&self) -> (r: String)
        ensures
            r@ == decimal(self.lno as nat) + ": "@ + self.msg@,
    {
        let mut out: Vec<char> = Vec::new();
        push_decimal(self.lno, &mut out);
        out.push(':');
        out.push(' ');
        let mut msg: Vec<char> = chars_of(self.msg.as_str());
        out.append(&mut msg);
        proof {
            reveal_strlit(": ");
            assert(out@ =~= decimal(self.lno as nat) + ": "@ + self.msg@);
        }
        string_of(out.as_slice())
    }
}

/// The decimal digits of `n`, most significant first.
pub open spec fn decimal(n: nat) -> Seq<char>
    decreases n,
{
    if n < 10 {
        seq![digit_char(n)]
    } else {
        decimal(n / 10).push(digit_char(n % 10))
    }
}

pub open spec fn digit_char(d: nat) -> char {
    ((d + 48) as u32) as char
}

fn push_decimal(n: usize, out: &mut Vec<char>)
    ensures
        final(out)@ == old(out)@ + decimal(n as nat),
    decreases n,
{
    if n >= 10 {
        push_decimal(n / 10, out);
    }
    let d = (n % 10) as u32 + 48;
    let c = char_from_u32(d).unwrap();
    out.push(c);
    assert(out@ =~= old(out)@ + decimal(n as nat));
}

/// A decoded value: either a view of the input or a freshly built string.
#[derive(Debug, Clone)]
pub enum Text<'a> {
    Borrowed(&'a str),
    Owned(String),
}

impl<'a> Text<'a> {
    /// The characters of the value.
    pub open spec fn chars(&self) -> Seq<char> {
        match self {
            Text::Borrowed(s) => s@,
            Text::Owned(s) => s@,
        }
    }

    /// The value as a string slice.
    pub fn as_str(&self) -> (r: &str)
        ensures
            r@ == self.chars(),
    {
        match self {
            Text::Borrowed(s) => s,
            Text::Owned(s) => s.as_str(),
        }
    }
}

} // verus!
