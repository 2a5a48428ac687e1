use vstd::prelude::*;
use crate::token::{SyntaxError, Token};
use crate::tokenizer::{flags_are, step, tokenize, Tokenizer};

verus! {

/// What a section holds, once its first entry is seen.
#[derive(PartialEq, Eq, Structural, Clone, Copy, Debug)]
pub enum SectionType {
    List,
    Dict,
}

/// Iterates over the tokens of a CONL document and checks its structure; see [`parse`].
pub struct Parser<'a> {
    tokenizer: Tokenizer<'a>,
    peek: Option<Option<Token<'a>>>,
    multiline_hint: Option<usize>,
    needs_value: Option<usize>,
    errored: bool,
    stack: Vec<Option<SectionType>>,
    balance: Ghost<int>,
    last_line: Ghost<int>,
    fetched: Ghost<Option<Result<Token<'a>, SyntaxError>>>,
}

/// Iterates over the tokens of a CONL document, yielding an error and then
/// stopping at the first structural fault. Each map key or list item is followed
/// by its value: a `Value`, a `MultilineHint` and its `MultilineValue`, an
/// `Indent` ... `Outdent` section, or a `NoValue`. Within one section only map
/// keys or only list items occur. For an error-tolerant scan see
/// [`crate::tokenize`].
pub fn parse<'a>(input: &'a [u8]) -> (r: Parser<'a>)
    requires
        input@.len() < usize::MAX,
    ensures
        r.wf(),
        !r.errored(),
        r.balance() == 0,
        r.sections() == seq![None::<SectionType>],
        r.needs_value() is None && r.needs_multiline() is None && r.peeked() is None,
        r.tokens().rest() == input@ && r.tokens().line() == 1,
        r.tokens().sections() == seq![Seq::<u8>::empty()],
        flags_are(r.tokens(), true, false, false, false),
{
    Parser::new(input)
}

/// The parser stops with the error `msg` at line `l`.
pub open spec fn fails_with<'a>(t: Parser<'a>, r: Option<Result<Token<'a>, SyntaxError>>, l: usize, msg: Seq<char>) -> bool {
    &&& r matches Some(Err(e)) && e.lno == l && e.msg@ == msg
    &&& t.errored()
}

/// The token `tok` is yielded; the parser then waits for a value (`value`) or
/// a multi-line body (`body`), with sections `sections` and nothing set aside.
pub open spec fn passes<'a>(
    t: Parser<'a>,
    r: Option<Result<Token<'a>, SyntaxError>>,
    tok: Token<'a>,
    sections: Seq<Option<SectionType>>,
    value: Option<usize>,
    body: Option<usize>,
) -> bool {
    &&& r == Some(Ok::<Token<'a>, SyntaxError>(tok))
    &&& !t.errored()
    &&& t.sections() == sections
    &&& t.needs_value() == value
    &&& t.needs_multiline() == body
    &&& t.peeked() is None
}

/// What the parser does, from state `s` to state `t` with result `r`, with the
/// next token `next` of the document (`None` at its end).
pub open spec fn decide<'a>(
    s: Parser<'a>,
    t: Parser<'a>,
    next: Option<Token<'a>>,
    r: Option<Result<Token<'a>, SyntaxError>>,
) -> bool {
    let secs = s.sections();
    match next {
        Some(Token::Newline(_)) => passes(t, r, next->0, secs, s.needs_value(), s.needs_multiline()),
        Some(Token::Comment(..)) => passes(t, r, next->0, secs, s.needs_value(), s.needs_multiline()),
        _ => if s.needs_multiline() is Some {
            let l = s.needs_multiline()->0;
            if next matches Some(Token::MultilineValue(..)) {
                passes(t, r, next->0, secs, None, None)
            } else {
                fails_with(t, r, l, "missing value"@)
            }
        } else if s.needs_value() is Some {
            let l = s.needs_value()->0;
            match next {
                Some(Token::MultilineHint(..)) => passes(t, r, next->0, secs, None, Some(l)),
                Some(Token::Value(..)) => passes(t, r, next->0, secs, None, None),
                Some(Token::Indent(..)) => passes(t, r, next->0, secs.push(None), None, None),
                _ => {
                    &&& r == Some(Ok::<Token<'a>, SyntaxError>(Token::NoValue(l)))
                    &&& !t.errored()
                    &&& t.sections() == secs
                    &&& t.needs_value() is None
                    &&& t.needs_multiline() is None
                    &&& t.peeked() == Some(next)
                },
            }
        } else {
            match next {
                Some(Token::MapKey(l, _)) => if secs.last() == Some(SectionType::List) {
                    fails_with(t, r, l, "expected list item"@)
                } else {
                    passes(t, r, next->0, secs.update(secs.len() - 1, Some(SectionType::Dict)), Some(l), None)
                },
                Some(Token::ListItem(l)) => if secs.last() == Some(SectionType::Dict) {
                    fails_with(t, r, l, "expected map key"@)
                } else {
                    passes(t, r, next->0, secs.update(secs.len() - 1, Some(SectionType::List)), Some(l), None)
                },
                Some(Token::Outdent(_)) => passes(t, r, next->0, secs.drop_last(), None, None),
                None => r is None && !t.errored() && t.sections() == secs.drop_last(),
                Some(Token::Indent(l)) => fails_with(t, r, l, "unexpected indent"@),
                Some(tok) => fails_with(t, r, tok.line(), "unexpected value"@),
            }
        }
    }
}

/// Within one section, map keys and list items do not mix: a step that yields
/// neither `Indent` nor `Outdent` keeps the kind of the innermost section once it
/// is set, and yields a map key only in a section that is not a list, and a list
/// item only in one that is not a map.
pub proof fn lemma_sections_homogeneous<'a>(
    s: Parser<'a>,
    t: Parser<'a>,
    next: Option<Token<'a>>,
    r: Option<Result<Token<'a>, SyntaxError>>,
)
    requires
        decide(s, t, next, r),
        s.sections().len() > 0,
    ensures
        r matches Some(Ok(tok)) && !(tok is Indent) && !(tok is Outdent) && s.sections().last() is Some
            ==> t.sections().len() == s.sections().len() && t.sections().last() == s.sections().last(),
        r matches Some(Ok(Token::MapKey(..))) ==> s.sections().last() != Some(SectionType::List)
            && t.sections().last() == Some(SectionType::Dict),
        r matches Some(Ok(Token::ListItem(..))) ==> s.sections().last() != Some(SectionType::Dict)
            && t.sections().last() == Some(SectionType::List),
{
}

/// A key or list item gets exactly one value: while one is due, the next token
/// other than a newline or a comment is a `Value`, a `MultilineHint` (and then a
/// `MultilineValue`), an `Indent` opening its section, or a `NoValue`.
pub proof fn lemma_value_follows<'a>(
    s: Parser<'a>,
    t: Parser<'a>,
    next: Option<Token<'a>>,
    r: Option<Result<Token<'a>, SyntaxError>>,
)
    requires
        decide(s, t, next, r),
    ensures
        match r {
            Some(Ok(tok)) => {
                &&& (tok is MapKey || tok is ListItem) ==> t.needs_value() is Some
                &&& (tok is Newline || tok is Comment) ==> t.needs_value() == s.needs_value()
                    && t.needs_multiline() == s.needs_multiline()
                &&& s.needs_value() is Some && s.needs_multiline() is None && !(tok is Newline
                    || tok is Comment) ==> {
                    ||| (tok is Value || tok is Indent || tok is NoValue) && t.needs_value() is None
                        && t.needs_multiline() is None
                    ||| tok is MultilineHint && t.needs_multiline() == s.needs_value()
                }
                &&& s.needs_multiline() is Some && !(tok is Newline || tok is Comment)
                    ==> tok is MultilineValue && t.needs_multiline() is None
            },
            _ => true,
        },
{
}

impl<'a> Parser<'a> {
    /// Whether the parser has yielded an error, after which it yields nothing.
    pub closed spec fn errored(&self) -> bool {
        self.errored
    }

    /// The number of `Indent` tokens yielded so far, less the number of `Outdent` tokens.
    pub closed spec fn balance(&self) -> int {
        self.balance@
    }

    /// The line of the last token other than `NoValue` that was yielded.
    pub closed spec fn last_line(&self) -> int {
        self.last_line@
    }

    /// The kinds of the open sections, outermost first.
    pub closed spec fn sections(&self) -> Seq<Option<SectionType>> {
        self.stack@
    }

    /// The line of the key or list item whose value is still to come.
    pub closed spec fn needs_value(&self) -> Option<usize> {
        self.needs_value
    }

    /// The line of the key or list item whose multi-line value is still to come.
    pub closed spec fn needs_multiline(&self) -> Option<usize> {
        self.multiline_hint
    }

    /// The token set aside to be yielded after a `NoValue`, if any (`Some(None)`
    /// for the end of the document).
    pub closed spec fn peeked(&self) -> Option<Option<Token<'a>>> {
        self.peek
    }

    /// What the tokenizer yielded when the parser last asked it for a token.
    pub closed spec fn fetched(&self) -> Option<Result<Token<'a>, SyntaxError>> {
        self.fetched@
    }

    /// The tokenizer underneath.
    pub closed spec fn tokens(&self) -> Tokenizer<'a> {
        self.tokenizer
    }

    spec fn peeked_outdent(&self) -> bool {
        self.peek matches Some(Some(Token::Outdent(_)))
    }

    pub closed spec fn wf(&self) -> bool {
        &&& self.tokenizer.wf()
        &&& self.tokenizer.sections().len() >= 1
        &&& self.last_line@ <= self.tokenizer.line()
        &&& (self.peek matches Some(Some(t)) ==> self.last_line@ <= t.line() <= self.tokenizer.line())
        &&& (self.peek is Some ==> self.needs_value is None && self.multiline_hint is None)
        &&& !(self.needs_value is Some && self.multiline_hint is Some)
        &&& (!self.errored && self.stack@.len() > 0) ==> {
            &&& self.stack@.len() == self.tokenizer.sections().len() + (if self.peeked_outdent() {
                1int
            } else {
                0int
            })
            &&& self.balance@ == self.stack@.len() - 1
            &&& (self.peek matches Some(None) ==> self.stack@.len() == 1)
        }
        &&& (!self.errored && self.stack@.len() == 0) ==> self.balance@ == 0
    }

    fn new(input: &'a [u8]) -> (r: Parser<'a>)
        requires
            input@.len() < usize::MAX,
        ensures
            r.wf(),
            !r.errored(),
            r.balance() == 0,
            r.sections() == seq![None::<SectionType>],
            r.needs_value() is None && r.needs_multiline() is None && r.peeked() is None,
            r.tokens().rest() == input@ && r.tokens().line() == 1,
            r.tokens().sections() == seq![Seq::<u8>::empty()],
            flags_are(r.tokens(), true, false, false, false),
    {
        let mut stack: Vec<Option<SectionType>> = Vec::new();
        stack.push(None);
        let r = Parser {
            tokenizer: tokenize(input),
            multiline_hint: None,
            needs_value: None,
            errored: false,
            stack,
            peek: None,
            balance: Ghost(0),
            last_line: Ghost(1),
            fetched: Ghost(None),
        };
        assert(r.stack@ =~= seq![None::<SectionType>]);
        r
    }

    /// Yields the next token, or the first structural error, after which it
    /// yields nothing; `None` at the end of the document.
    ///
    /// Line numbers never decrease along the yielded tokens, with one exception:
    /// a `NoValue` carries the line of its key or list item, so after blank lines
    /// (`a\n\nb` yields `Newline(2)`, then `NoValue(1)`) it may be lower than the
    /// line of the token before it.
    pub fn next(&mut self) -> (r: Option<Result<Token<'a>, SyntaxError>>)
        requires
            old(self).wf(),
        ensures
            final(self).wf(),
            old(self).errored() ==> r is None && final(self).errored(),
            !old(self).errored() && old(self).sections().len() > 0 ==> match old(self).peeked() {
                Some(next) => decide(*old(self), *final(self), next, r) && final(self).tokens()
                    == old(self).tokens(),
                None => step(old(self).tokens(), final(self).tokens(), final(self).fetched())
                    && match final(self).fetched() {
                    Some(Err(e)) => r == Some(Err::<Token<'a>, SyntaxError>(e)) && final(self).errored(),
                    Some(Ok(t)) => decide(*old(self), *final(self), Some(t), r),
                    None => decide(*old(self), *final(self), None, r),
                },
            },
            r matches Some(Err(_)) ==> final(self).errored(),
            r matches Some(Ok(_)) ==> !final(self).errored(),
            r is None ==> final(self).errored() || final(self).balance() == 0,
            r matches Some(Ok(Token::Indent(_))) ==> final(self).balance() == old(self).balance() + 1
                && final(self).sections() == old(self).sections().push(None),
            r matches Some(Ok(Token::Outdent(_))) ==> final(self).balance() == old(self).balance() - 1
                && old(self).sections().len() > 1
                && final(self).sections() == old(self).sections().drop_last(),
            match r {
                Some(Ok(Token::MapKey(l, _))) => {
                &&& old(self).sections().len() > 0
                &&& old(self).sections().last() != Some(SectionType::List)
                &&& final(self).sections() == old(self).sections().update(
                    old(self).sections().len() - 1,
                    Some(SectionType::Dict),
                )
                &&& final(self).needs_value() == Some(l)
            },
                Some(Ok(Token::ListItem(l))) => {
                &&& old(self).sections().len() > 0
                &&& old(self).sections().last() != Some(SectionType::Dict)
                &&& final(self).sections() == old(self).sections().update(
                    old(self).sections().len() - 1,
                    Some(SectionType::List),
                )
                &&& final(self).needs_value() == Some(l)
            },
                _ => true,
            },
            match r {
                Some(Ok(t)) => {
                    &&& !(t is Indent) && !(t is Outdent) ==> final(self).balance() == old(
                        self,
                    ).balance()
                    &&& !(t is Indent) && !(t is Outdent) && !(t is MapKey) && !(t is ListItem)
                        ==> final(self).sections() == old(self).sections()
                    &&& (t is Newline || t is Comment) ==> final(self).needs_value() == old(
                        self,
                    ).needs_value() && final(self).needs_multiline() == old(self).needs_multiline()
                    &&& !(t is Newline || t is Comment) && old(self).needs_value() is Some ==> {
                        &&& t is Value || t is MultilineHint || t is Indent || t == Token::NoValue(
                            old(self).needs_value()->0,
                        )
                        &&& final(self).needs_value() is None
                        &&& final(self).needs_multiline() == (if t is MultilineHint {
                            old(self).needs_value()
                        } else {
                            None
                        })
                    }
                    &&& !(t is Newline || t is Comment) && old(self).needs_multiline() is Some
                        ==> t is MultilineValue && final(self).needs_multiline() is None
                        && final(self).needs_value() is None
                    &&& old(self).needs_value() is None && old(self).needs_multiline() is None
                        ==> t is Newline || t is Comment || t is MapKey || t is ListItem
                        || t is Outdent
                    &&& t is NoValue ==> t == Token::NoValue(old(self).needs_value()->0)
                        && old(self).needs_value() is Some
                        && final(self).last_line() == old(self).last_line()
                    &&& !(t is NoValue) ==> old(self).last_line() <= t.line()
                        && final(self).last_line() == t.line()
                },
                _ => true,
            },
    {
        if self.errored {
            return None;
        }
        if self.stack.len() == 0 {
            return None;
        }
        let next: Option<Token<'a>> = match self.peek.take() {
            Some(p) => p,
            None => {
                let fetched = self.tokenizer.next();
                let ghost g = fetched;
                self.fetched = Ghost(g);
                match fetched {
                    Some(Err(e)) => {
                        self.errored = true;
                        return Some(Err(e));
                    },
                    None => None,
                    Some(Ok(t)) => Some(t),
                }
            },
        };
        match next {
            Some(Token::Newline(l)) => {
                self.last_line = Ghost(l as int);
                return Some(Ok(Token::Newline(l)));
            },
            Some(Token::Comment(l, c)) => {
                self.last_line = Ghost(l as int);
                return Some(Ok(Token::Comment(l, c)));
            },
            _ => {},
        }
        if let Some(lno) = self.multiline_hint {
            self.multiline_hint = None;
            return match next {
                Some(Token::MultilineValue(l, i, b)) => {
                    self.last_line = Ghost(l as int);
                    Some(Ok(Token::MultilineValue(l, i, b)))
                },
                _ => {
                    self.errored = true;
                    Some(Err(SyntaxError::new(lno, "missing value")))
                },
            };
        }
        if let Some(lno) = self.needs_value {
            self.needs_value = None;
            return match next {
                Some(Token::MultilineHint(l, t)) => {
                    self.multiline_hint = Some(lno);
                    self.last_line = Ghost(l as int);
                    Some(Ok(Token::MultilineHint(l, t)))
                },
                Some(Token::Value(l, v)) => {
                    self.last_line = Ghost(l as int);
                    Some(Ok(Token::Value(l, v)))
                },
                Some(Token::Indent(l)) => {
                    self.stack.push(None);
                    self.last_line = Ghost(l as int);
                    self.balance = Ghost(self.balance@ + 1);
                    Some(Ok(Token::Indent(l)))
                },
                _ => {
                    self.peek = Some(next);
                    Some(Ok(Token::NoValue(lno)))
                },
            };
        }
        match next {
            Some(Token::MapKey(l, k)) => {
                let top = self.stack.len() - 1;
                match self.stack[top] {
                    Some(SectionType::List) => {
                        self.errored = true;
                        Some(Err(SyntaxError::new(l, "expected list item")))
                    },
                    _ => {
                        self.stack.set(top, Some(SectionType::Dict));
                        self.needs_value = Some(l);
                        self.last_line = Ghost(l as int);
                        Some(Ok(Token::MapKey(l, k)))
                    },
                }
            },
            Some(Token::ListItem(l)) => {
                let top = self.stack.len() - 1;
                match self.stack[top] {
                    Some(SectionType::Dict) => {
                        self.errored = true;
                        Some(Err(SyntaxError::new(l, "expected map key")))
                    },
                    _ => {
                        self.stack.set(top, Some(SectionType::List));
                        self.needs_value = Some(l);
                        self.last_line = Ghost(l as int);
                        Some(Ok(Token::ListItem(l)))
                    },
                }
            },
            Some(Token::Outdent(l)) => {
                self.stack.pop();
                self.last_line = Ghost(l as int);
                self.balance = Ghost(self.balance@ - 1);
                Some(Ok(Token::Outdent(l)))
            },
            None => {
                self.stack.pop();
                None
            },
            Some(Token::Indent(l)) => {
                self.errored = true;
                Some(Err(SyntaxError::new(l, "unexpected indent")))
            },
            Some(t) => {
                self.errored = true;
                Some(Err(SyntaxError::new(t.line_number(), "unexpected value")))
            },
        }
    }
}

} // verus!
