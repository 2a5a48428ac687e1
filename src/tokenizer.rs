use vstd::prelude::*;
use vstd::utf8::{is_leading_byte_width_1, partial_valid_utf8_extend_ascii_block, valid_utf8};
use vstd::string::StringSliceAdditionalSpecFns;
use crate::token::{SyntaxError, Token};

verus! {

const SPACE: u8 = 32;
const TAB: u8 = 9;
const CR: u8 = 13;
const LF: u8 = 10;
const SEMICOLON: u8 = 59;
const EQUALS: u8 = 61;
const QUOTE: u8 = 34;
const BACKSLASH: u8 = 92;

pub open spec fn is_ws(b: u8) -> bool {
    b == 32 || b == 9
}

pub open spec fn is_nl(b: u8) -> bool {
    b == 13 || b == 10
}

/// Whether `b` is trimmed from the ends of a lexeme: a space or a tab, and with
/// `nl` also a line terminator.
pub open spec fn is_pad(b: u8, nl: bool) -> bool {
    is_ws(b) || (nl && is_nl(b))
}

/// `s` without its leading padding.
pub open spec fn trim_start(s: Seq<u8>, nl: bool) -> Seq<u8>
    decreases s.len(),
{
    if s.len() > 0 && is_pad(s[0], nl) {
        trim_start(s.skip(1), nl)
    } else {
        s
    }
}

/// `s` without its trailing padding.
pub open spec fn trim_end(s: Seq<u8>, nl: bool) -> Seq<u8>
    decreases s.len(),
{
    if s.len() > 0 && is_pad(s.last(), nl) {
        trim_end(s.drop_last(), nl)
    } else {
        s
    }
}

/// `s` without padding at either end.
pub open spec fn trim(s: Seq<u8>, nl: bool) -> Seq<u8> {
    trim_end(trim_start(s, nl), nl)
}

/// The length of the leading run of spaces and tabs of `s`.
pub open spec fn ws_len(s: Seq<u8>) -> int
    decreases s.len(),
{
    if s.len() > 0 && is_ws(s[0]) {
        1 + ws_len(s.skip(1))
    } else {
        0
    }
}

/// The length of the text of `s` before its first line terminator.
pub open spec fn to_eol(s: Seq<u8>) -> int
    decreases s.len(),
{
    if s.len() == 0 || is_nl(s[0]) {
        0
    } else {
        1 + to_eol(s.skip(1))
    }
}

/// Where the scan of a key (`stop_at_eq`) or of a value ends in `s`, from
/// position `i`: at a line terminator, or at `;` (and for a key `=`) outside
/// of quotes. An unescaped `"` after the first byte closes a quote.
pub open spec fn scan_end(s: Seq<u8>, i: int, quoted: bool, was_escape: bool, stop_at_eq: bool) -> int
    decreases s.len() - i,
{
    if i < 0 || i >= s.len() {
        s.len() as int
    } else if is_nl(s[i]) || (s[i] == 59 && !quoted) || (stop_at_eq && s[i] == 61 && !quoted) {
        i
    } else {
        scan_end(
            s,
            i + 1,
            if i > 0 && !was_escape && s[i] == 34 { false } else { quoted },
            s[i] == 92,
            stop_at_eq,
        )
    }
}

/// The length of the lexeme of a key (`stop_at_eq`) or a value at the start of `s`.
pub open spec fn lexeme_len(s: Seq<u8>, stop_at_eq: bool) -> int {
    scan_end(s, 0, s.len() > 0 && s[0] == 34, false, stop_at_eq)
}

/// The length of the tag of a multi-line hint: up to a line terminator or `;`.
pub open spec fn hint_len(s: Seq<u8>) -> int
    decreases s.len(),
{
    if s.len() == 0 || is_nl(s[0]) || s[0] == 59 {
        0
    } else {
        1 + hint_len(s.skip(1))
    }
}

proof fn lemma_trim_start(s: Seq<u8>, lo: int, nl: bool)
    requires
        0 <= lo <= s.len(),
        forall|k: int| 0 <= k < lo ==> is_pad(#[trigger] s[k], nl),
        lo == s.len() || !is_pad(s[lo], nl),
    ensures
        trim_start(s, nl) == s.skip(lo),
    decreases lo,
{
    if lo == 0 {
        assert(s.skip(0) =~= s);
    } else {
        lemma_trim_start(s.skip(1), lo - 1, nl);
        assert(s.skip(1).skip(lo - 1) =~= s.skip(lo));
    }
}

proof fn lemma_trim_end(s: Seq<u8>, hi: int, nl: bool)
    requires
        0 <= hi <= s.len(),
        forall|k: int| hi <= k < s.len() ==> is_pad(#[trigger] s[k], nl),
        hi == 0 || !is_pad(s[hi - 1], nl),
    ensures
        trim_end(s, nl) == s.take(hi),
    decreases s.len() - hi,
{
    if hi == s.len() {
        assert(s.take(hi) =~= s);
    } else {
        lemma_trim_end(s.drop_last(), hi, nl);
        assert(s.drop_last().take(hi) =~= s.take(hi));
    }
}

proof fn lemma_ws_len(s: Seq<u8>, m: int)
    requires
        0 <= m <= s.len(),
        forall|k: int| 0 <= k < m ==> is_ws(#[trigger] s[k]),
        m == s.len() || !is_ws(s[m]),
    ensures
        ws_len(s) == m,
    decreases m,
{
    if m > 0 {
        lemma_ws_len(s.skip(1), m - 1);
    }
}

proof fn lemma_to_eol(s: Seq<u8>, m: int)
    requires
        0 <= m <= s.len(),
        forall|k: int| 0 <= k < m ==> !is_nl(#[trigger] s[k]),
        m == s.len() || is_nl(s[m]),
    ensures
        to_eol(s) == m,
    decreases m,
{
    if m > 0 {
        lemma_to_eol(s.skip(1), m - 1);
    }
}

proof fn lemma_hint_len(s: Seq<u8>, m: int)
    requires
        0 <= m <= s.len(),
        forall|k: int| 0 <= k < m ==> !is_nl(#[trigger] s[k]) && s[k] != 59,
        m == s.len() || is_nl(s[m]) || s[m] == 59,
    ensures
        hint_len(s) == m,
    decreases m,
{
    if m > 0 {
        lemma_hint_len(s.skip(1), m - 1);
    }
}

/// Relies on `std::str::from_utf8`: a view of the bytes exactly when they are valid UTF-8.
#[verifier::external_body]
fn utf8_str<'a>(b: &'a [u8]) -> (r: Option<&'a str>)
    ensures
        r is Some <==> valid_utf8(b@),
        r matches Some(s) ==> s.spec_bytes() == b@,
{
    std::str::from_utf8(b).ok()
}

fn is_pad_exec(b: u8, nl: bool) -> (r: bool)
    ensures
        r == is_pad(b, nl),
{
    b == SPACE || b == TAB || (nl && (b == CR || b == LF))
}

/// The bounds of `s` without padding at either end.
fn trim_bounds(s: &[u8], nl: bool) -> (r: (usize, usize))
    ensures
        r.0 <= r.1 <= s@.len(),
        s@.subrange(r.0 as int, r.1 as int) == trim(s@, nl),
{
    let mut lo: usize = 0;
    while lo < s.len() && is_pad_exec(s[lo], nl)
        invariant
            lo <= s@.len(),
            forall|k: int| 0 <= k < lo ==> is_pad(#[trigger] s@[k], nl),
        decreases s.len() - lo,
    {
        lo = lo + 1;
    }
    let mut hi: usize = s.len();
    while hi > lo && is_pad_exec(s[hi - 1], nl)
        invariant
            lo <= hi <= s@.len(),
            forall|k: int| hi <= k < s@.len() ==> is_pad(#[trigger] s@[k], nl),
        decreases hi,
    {
        hi = hi - 1;
    }
    proof {
        lemma_trim_start(s@, lo as int, nl);
        let t = s@.skip(lo as int);
        assert forall|k: int| hi - lo <= k < t.len() implies is_pad(#[trigger] t[k], nl) by {
            assert(t[k] == s@[lo + k]);
        }
        lemma_trim_end(t, hi - lo, nl);
        assert(t.take(hi - lo) =~= s@.subrange(lo as int, hi as int));
    }
    (lo, hi)
}

/// The text of `s` without padding at either end, if it is valid UTF-8.
fn trimmed_str<'a>(s: &'a [u8], nl: bool) -> (r: Option<&'a str>)
    ensures
        r is Some <==> valid_utf8(trim(s@, nl)),
        r matches Some(t) ==> t.spec_bytes() == trim(s@, nl),
{
    let (lo, hi) = trim_bounds(s, nl);
    utf8_str(&s[lo..hi])
}

/// The width of the line terminator at the start of `s`: two for `\r\n`, else one.
fn newline_size(s: &[u8]) -> (r: usize)
    ensures
        r == (if s@.len() >= 2 && s@[0] == 13 && s@[1] == 10 { 2usize } else { 1usize }),
{
    if s.len() >= 2 && s[0] == CR && s[1] == LF {
        2
    } else {
        1
    }
}

fn bytes_eq(a: &[u8], b: &[u8]) -> (r: bool)
    ensures
        r == (a@ == b@),
{
    if a.len() != b.len() {
        return false;
    }
    let mut k: usize = 0;
    while k < a.len()
        invariant
            k <= a@.len() == b@.len(),
            forall|m: int| 0 <= m < k ==> a@[m] == b@[m],
        decreases a.len() - k,
    {
        if a[k] != b[k] {
            return false;
        }
        k = k + 1;
    }
    assert(a@ =~= b@);
    true
}

/// Whether `p` is a prefix of `s`.
fn has_prefix(s: &[u8], p: &[u8]) -> (r: bool)
    ensures
        r == p@.is_prefix_of(s@),
{
    if p.len() > s.len() {
        return false;
    }
    let mut k: usize = 0;
    while k < p.len()
        invariant
            k <= p@.len() <= s@.len(),
            forall|m: int| 0 <= m < k ==> p@[m] == s@[m],
        decreases p.len() - k,
    {
        if p[k] != s[k] {
            assert(s@.subrange(0, p@.len() as int)[k as int] == s@[k as int]);
            return false;
        }
        k = k + 1;
    }
    assert(p@ =~= s@.subrange(0, p@.len() as int));
    true
}

/// Whether `a` is what is left of `b` after some of its first bytes.
pub open spec fn is_suffix(a: Seq<u8>, b: Seq<u8>) -> bool {
    a.len() <= b.len() && a == b.skip(b.len() - a.len())
}

proof fn lemma_skip_is_suffix(s: Seq<u8>, n: int)
    requires
        0 <= n <= s.len(),
    ensures
        is_suffix(s.skip(n), s),
{
    assert(s.skip(n) =~= s.skip(s.len() - s.skip(n).len()));
}

proof fn lemma_suffix_trans(a: Seq<u8>, b: Seq<u8>, c: Seq<u8>)
    requires
        is_suffix(a, b),
        is_suffix(b, c),
    ensures
        is_suffix(a, c),
{
    assert(a =~= c.skip(c.len() - a.len()));
}

/// The length of the first piece of `s`: through its first line terminator,
/// or all of `s` if it has none.
pub open spec fn piece_len(s: Seq<u8>) -> int {
    if to_eol(s) < s.len() {
        to_eol(s) + 1
    } else {
        s.len() as int
    }
}

/// Whether `p` holds only spaces, tabs and line terminators.
pub open spec fn is_blank(p: Seq<u8>) -> bool {
    forall|k: int| 0 <= k < p.len() ==> is_pad(#[trigger] p[k], true)
}

/// The extent of a multi-line body at the start of `s`, as (bytes, lines): the
/// pieces that start with `indent` or are blank. A lone `\n` that completes a
/// `\r\n` split over two pieces starts no new line.
pub open spec fn body_scan(s: Seq<u8>, indent: Seq<u8>, was_cr: bool) -> (int, int)
    decreases s.len(),
{
    let k = piece_len(s);
    if s.len() == 0 || k <= 0 || k > s.len() {
        (0, 0)
    } else if indent.is_prefix_of(s.take(k)) || is_blank(s.take(k)) {
        let more = body_scan(s.skip(k), indent, s[k - 1] == 13);
        (k + more.0, more.1 + if was_cr && s.take(k) == seq![10u8] { 0int } else { 1int })
    } else {
        (0, 0)
    }
}

proof fn lemma_body_scan_bound(s: Seq<u8>, indent: Seq<u8>, was_cr: bool)
    ensures
        0 <= body_scan(s, indent, was_cr).1 <= body_scan(s, indent, was_cr).0 <= s.len(),
    decreases s.len(),
{
    let k = piece_len(s);
    if s.len() == 0 || k <= 0 || k > s.len() {
    } else {
        lemma_body_scan_bound(s.skip(k), indent, s[k - 1] == 13);
    }
}

/// The length of the leading run of spaces and tabs of `s`.
fn ws_prefix(s: &[u8]) -> (r: usize)
    ensures
        r == ws_len(s@),
        r <= s@.len(),
        forall|m: int| 0 <= m < r ==> is_ws(#[trigger] s@[m]),
{
    let mut k: usize = 0;
    while k < s.len() && (s[k] == SPACE || s[k] == TAB)
        invariant
            k <= s@.len(),
            forall|m: int| 0 <= m < k ==> is_ws(#[trigger] s@[m]),
        decreases s.len() - k,
    {
        k = k + 1;
    }
    proof {
        lemma_ws_len(s@, k as int);
    }
    k
}

/// The length of the text of `s` before its first line terminator.
fn eol(s: &[u8]) -> (r: usize)
    ensures
        r == to_eol(s@),
        r <= s@.len(),
{
    let mut k: usize = 0;
    while k < s.len() && s[k] != CR && s[k] != LF
        invariant
            k <= s@.len(),
            forall|m: int| 0 <= m < k ==> !is_nl(#[trigger] s@[m]),
        decreases s.len() - k,
    {
        k = k + 1;
    }
    proof {
        lemma_to_eol(s@, k as int);
    }
    k
}

/// The length of the lexeme of a key (`stop_at_eq`) or a value at the start of `s`.
fn lexeme_end(s: &[u8], stop_at_eq: bool) -> (r: usize)
    ensures
        r == lexeme_len(s@, stop_at_eq),
        r <= s@.len(),
{
    let mut quoted = s.len() > 0 && s[0] == QUOTE;
    let mut was_escape = false;
    let mut i: usize = 0;
    while i < s.len()
        invariant
            i <= s@.len(),
            lexeme_len(s@, stop_at_eq) == scan_end(s@, i as int, quoted, was_escape, stop_at_eq),
        decreases s.len() - i,
    {
        let c = s[i];
        if c == CR || c == LF || (c == SEMICOLON && !quoted) || (stop_at_eq && c == EQUALS && !quoted) {
            return i;
        }
        if i > 0 && !was_escape && c == QUOTE {
            quoted = false;
        }
        was_escape = c == BACKSLASH;
        i = i + 1;
    }
    i
}

/// The length of the tag of a multi-line hint at the start of `s`.
fn hint_end(s: &[u8]) -> (r: usize)
    ensures
        r == hint_len(s@),
        r <= s@.len(),
{
    let mut k: usize = 0;
    while k < s.len() && s[k] != CR && s[k] != LF && s[k] != SEMICOLON
        invariant
            k <= s@.len(),
            forall|m: int| 0 <= m < k ==> !is_nl(#[trigger] s@[m]) && s@[m] != 59,
        decreases s.len() - k,
    {
        k = k + 1;
    }
    proof {
        lemma_hint_len(s@, k as int);
    }
    k
}

fn is_blank_exec(p: &[u8]) -> (r: bool)
    ensures
        r == is_blank(p@),
{
    let mut k: usize = 0;
    while k < p.len()
        invariant
            k <= p@.len(),
            forall|m: int| 0 <= m < k ==> is_pad(#[trigger] p@[m], true),
        decreases p.len() - k,
    {
        if !is_pad_exec(p[k], true) {
            return false;
        }
        k = k + 1;
    }
    true
}

/// The extent of the multi-line body at the start of `s`, as (bytes, lines).
fn body_extent(s: &[u8], indent: &[u8]) -> (r: (usize, usize))
    ensures
        r.0 as int == body_scan(s@, indent@, false).0,
        r.1 as int == body_scan(s@, indent@, false).1,
        r.1 <= r.0 <= s@.len(),
{
    let mut pos: usize = 0;
    let mut lines: usize = 0;
    let mut was_cr = false;
    assert(s@.skip(0) =~= s@);
    loop
        invariant
            lines <= pos <= s@.len(),
            body_scan(s@, indent@, false).0 == pos + body_scan(s@.skip(pos as int), indent@, was_cr).0,
            body_scan(s@, indent@, false).1 == lines + body_scan(s@.skip(pos as int), indent@, was_cr).1,
        decreases s@.len() - pos,
    {
        let rest = &s[pos..s.len()];
        assert(rest@ == s@.skip(pos as int));
        proof {
            lemma_body_scan_bound(rest@, indent@, was_cr);
        }
        if rest.len() == 0 {
            return (pos, lines);
        }
        let e = eol(rest);
        let k = if e < rest.len() { e + 1 } else { e };
        let piece = &rest[0..k];
        if has_prefix(piece, indent) || is_blank_exec(piece) {
            let lone_lf = was_cr && k == 1 && rest[0] == LF;
            assert(lone_lf == (was_cr && rest@.take(k as int) == seq![10u8])) by {
                if k == 1 && rest@.take(1)[0] == 10 {
                    assert(rest@.take(1) =~= seq![10u8]);
                }
            }
            assert(rest@.skip(k as int) =~= s@.skip(pos + k));
            if !lone_lf {
                lines = lines + 1;
            }
            was_cr = rest[k - 1] == CR;
            pos = pos + k;
        } else {
            return (pos, lines);
        }
    }
}

/// Scans CONL text into tokens without checking its structure; see [`tokenize`].
pub struct Tokenizer<'a> {
    input: &'a [u8],
    indent_stack: Vec<&'a [u8]>,
    current_indent: Option<&'a [u8]>,
    expect_indent: bool,
    expect_value: bool,
    expect_multiline: bool,
    lno: usize,
}

/// Iterates over the tokens of `input` without validating its structure, and
/// continues after yielding an error: suitable for error-tolerant tools such as
/// linters. See [`crate::parse`] for the strict interface.
pub fn tokenize<'a>(input: &'a [u8]) -> (r: Tokenizer<'a>)
    requires
        input@.len() < usize::MAX,
    ensures
        r.wf(),
        r.rest() == input@,
        r.line() == 1,
        r.sections() == seq![Seq::<u8>::empty()],
        r.expecting_indent() && !r.expecting_value() && !r.expecting_multiline(),
        !r.indent_waiting(),
{
    let root: &'a [u8] = &input[0..0];
    let mut stack: Vec<&'a [u8]> = Vec::new();
    stack.push(root);
    let r = Tokenizer {
        input,
        indent_stack: stack,
        current_indent: None,
        expect_indent: true,
        expect_value: false,
        expect_multiline: false,
        lno: 1,
    };
    assert(r.indent_stack@[0]@ =~= Seq::<u8>::empty());
    assert(r.sections() =~= seq![Seq::<u8>::empty()]);
    r
}

/// The flags of state `t`: whether the next token starts a line, whether a
/// value is due, whether a multi-line body may come, and whether an indentation
/// set aside by an outdent is waiting.
pub open spec fn flags_are<'a>(t: Tokenizer<'a>, indent: bool, value: bool, multiline: bool, waiting: bool) -> bool {
    &&& t.expecting_indent() == indent
    &&& t.expecting_value() == value
    &&& t.expecting_multiline() == multiline
    &&& t.indent_waiting() == waiting
}

/// An error with message `msg` at line `line`.
pub open spec fn error_at<'a>(r: Option<Result<Token<'a>, SyntaxError>>, line: usize, msg: Seq<char>) -> bool {
    r matches Some(Err(e)) && e.lno == line && e.msg@ == msg
}

/// What one step of the tokenizer does, from state `s` to state `t` with result
/// `r`, by the first byte after the indentation of the current line (see
/// [`lemma_line_parts`] for how that line is split).
pub open spec fn step<'a>(s: Tokenizer<'a>, t: Tokenizer<'a>, r: Option<Result<Token<'a>, SyntaxError>>) -> bool {
    let rest = s.line_rest();
    let ind = s.line_indent();
    let top = s.sections().last();
    let line = s.line() as usize;
    if rest.len() > 0 && is_nl(rest[0]) {
        &&& r == Some(Ok::<Token<'a>, SyntaxError>(Token::Newline(line)))
        &&& t.rest() == rest.skip(if rest.len() >= 2 && rest[0] == 13 && rest[1] == 10 { 2 } else { 1 })
        &&& t.line() == s.line() + 1
        &&& t.sections() == s.sections()
        &&& flags_are(t, true, false, s.expecting_multiline(), false)
    } else if rest.len() == 0 {
        &&& if s.sections().len() > 1 {
            &&& r == Some(Ok::<Token<'a>, SyntaxError>(Token::Outdent(line)))
            &&& t.sections() == s.sections().drop_last()
        } else {
            &&& r is None
            &&& t.sections() == s.sections()
        }
        &&& t.rest() == s.rest()
        &&& t.line() == s.line()
        &&& flags_are(t, s.expecting_indent(), s.expecting_value(), s.expecting_multiline(), false)
    } else if rest[0] == 59 && !(s.expecting_indent() && s.expecting_multiline()) {
        let text = rest.skip(1);
        let comment = trim(text.take(to_eol(text)), false);
        &&& t.rest() == text.skip(to_eol(text))
        &&& t.line() == s.line()
        &&& t.sections() == s.sections()
        &&& flags_are(t, s.expecting_indent(), s.expecting_value(), s.expecting_multiline(), false)
        &&& if valid_utf8(comment) {
            r matches Some(Ok(Token::Comment(l, c))) && l == line && c.spec_bytes() == comment
        } else {
            error_at(r, line, "invalid UTF-8"@)
        }
    } else if s.expecting_indent() && s.expecting_multiline() && top.is_prefix_of(ind) && top.len()
        < ind.len() {
        let scan = body_scan(s.rest(), ind, false);
        let body = trim(s.rest().take(scan.0), true);
        &&& t.rest() == s.rest().skip(scan.0)
        &&& t.line() == s.line() + scan.1
        &&& t.sections() == s.sections()
        &&& flags_are(t, true, s.expecting_value(), false, false)
        &&& if valid_utf8(body) {
            r matches Some(Ok(Token::MultilineValue(l, i, b))) && l == line && i.spec_bytes() == ind
                && b.spec_bytes() == body
        } else {
            error_at(r, line, "invalid UTF-8"@)
        }
    } else if s.expecting_indent() && ind != top {
        &&& t.rest() == rest
        &&& t.line() == s.line()
        &&& if top.is_prefix_of(ind) && top.len() < ind.len() {
            &&& r == Some(Ok::<Token<'a>, SyntaxError>(Token::Indent(line)))
            &&& t.sections() == s.sections().push(ind)
            &&& flags_are(t, false, s.expecting_value(), false, false)
        } else {
            &&& r == Some(Ok::<Token<'a>, SyntaxError>(Token::Outdent(line)))
            &&& t.sections() == s.sections().drop_last()
            &&& flags_are(t, true, s.expecting_value(), false, true)
            &&& t.line_indent() == ind
        }
    } else {
        &&& t.line() == s.line()
        &&& t.sections() == s.sections()
        &&& !t.expecting_indent() && !t.indent_waiting()
        &&& entry_step(
            rest,
            line,
            s.expecting_value(),
            if s.expecting_indent() { false } else { s.expecting_multiline() },
            t,
            r,
        )
    }
}

/// Reading a list item marker, a value or a key from `rest`, the current line
/// after its indentation, with `expect_value` telling whether a value is due and
/// `multiline` whether a multi-line body may still come.
pub open spec fn entry_step<'a>(
    rest: Seq<u8>,
    line: usize,
    expect_value: bool,
    multiline: bool,
    t: Tokenizer<'a>,
    r: Option<Result<Token<'a>, SyntaxError>>,
) -> bool {
    if rest[0] == 61 && !expect_value {
        &&& r == Some(Ok::<Token<'a>, SyntaxError>(Token::ListItem(line)))
        &&& t.rest() == rest.skip(1)
        &&& t.expecting_value() && t.expecting_multiline() == multiline
    } else if expect_value {
        &&& !t.expecting_value()
        &&& if rest.len() >= 3 && rest.take(3) == seq![34u8, 34u8, 34u8] {
            let tag = rest.skip(3);
            let hint = trim(tag.take(hint_len(tag)), false);
            &&& t.rest() == tag.skip(hint_len(tag))
            &&& if valid_utf8(hint) {
                &&& r matches Some(Ok(Token::MultilineHint(l, h))) && l == line && h.spec_bytes() == hint
                &&& t.expecting_multiline()
            } else {
                &&& error_at(r, line, "invalid UTF-8"@)
                &&& t.expecting_multiline() == multiline
            }
        } else {
            let n = lexeme_len(rest, false);
            let value = trim(rest.take(n), false);
            &&& t.rest() == rest.skip(n)
            &&& t.expecting_multiline() == multiline
            &&& if valid_utf8(value) {
                r matches Some(Ok(Token::Value(l, v))) && l == line && v.spec_bytes() == value
            } else {
                error_at(r, line, "invalid UTF-8"@)
            }
        }
    } else {
        let n = lexeme_len(rest, true);
        let after = rest.skip(n);
        let key = trim(rest.take(n), false);
        &&& t.expecting_value() && t.expecting_multiline() == multiline
        &&& t.rest() == (if after.len() > 0 && after[0] == 61 { after.skip(1) } else { after })
        &&& if key.len() == 0 {
            error_at(r, line, "empty key"@)
        } else if valid_utf8(key) {
            r matches Some(Ok(Token::MapKey(l, k))) && l == line && k.spec_bytes() == key
        } else {
            error_at(r, line, "invalid UTF-8"@)
        }
    }
}

proof fn lemma_ws_valid_utf8(s: Seq<u8>)
    requires
        forall|k: int| 0 <= k < s.len() ==> is_ws(#[trigger] s[k]),
    ensures
        valid_utf8(s),
{
    assert(s.subrange(0, 0).len() == 0);
    assert forall|i: int| 0 <= 0 <= i < s.len() <= s.len() implies #[trigger] is_leading_byte_width_1(
        s[i],
    ) by {
        assert(is_ws(s[i]));
    }
    partial_valid_utf8_extend_ascii_block(s, 0, s.len() as int);
    assert(s.subrange(0, s.len() as int) =~= s);
}

proof fn lemma_ws_len_bound(s: Seq<u8>)
    ensures
        0 <= ws_len(s) <= s.len(),
        forall|k: int| 0 <= k < ws_len(s) ==> is_ws(#[trigger] s[k]),
    decreases s.len(),
{
    if s.len() > 0 && is_ws(s[0]) {
        lemma_ws_len_bound(s.skip(1));
        assert forall|k: int| 0 <= k < ws_len(s) implies is_ws(#[trigger] s[k]) by {
            if k > 0 {
                assert(s[k] == s.skip(1)[k - 1]);
            }
        }
    }
}

/// How the current line splits into its indentation and the rest: with an
/// indentation set aside by an outdent, the input is what follows it; else the
/// indentation is the input's leading run of spaces and tabs. Either way the
/// indentation holds only spaces and tabs.
pub proof fn lemma_line_parts<'a>(s: Tokenizer<'a>)
    requires
        s.wf(),
    ensures
        s.indent_waiting() ==> s.line_rest() == s.rest(),
        !s.indent_waiting() ==> s.line_rest() == s.rest().skip(ws_len(s.rest())) && s.line_indent()
            == s.rest().take(ws_len(s.rest())),
        0 <= ws_len(s.rest()) <= s.rest().len(),
        forall|k: int| 0 <= k < s.line_indent().len() ==> is_ws(#[trigger] s.line_indent()[k]),
{
    lemma_ws_len_bound(s.rest());
}

impl<'a> Tokenizer<'a> {
    /// The input that is not consumed yet.
    pub closed spec fn rest(&self) -> Seq<u8> {
        self.input@
    }

    /// The current line, counting from 1.
    pub closed spec fn line(&self) -> int {
        self.lno as int
    }

    /// The indentation prefixes of the open sections, outermost first.
    pub closed spec fn sections(&self) -> Seq<Seq<u8>> {
        self.indent_stack@.map_values(|p: &'a [u8]| p@)
    }

    /// The indentation of the current line: the one set aside by an outdent, or
    /// the leading spaces and tabs of the input.
    pub closed spec fn line_indent(&self) -> Seq<u8> {
        match self.current_indent {
            Some(p) => p@,
            None => self.input@.take(ws_len(self.input@)),
        }
    }

    /// The input after the indentation of the current line.
    pub closed spec fn line_rest(&self) -> Seq<u8> {
        match self.current_indent {
            Some(_) => self.input@,
            None => self.input@.skip(ws_len(self.input@)),
        }
    }

    /// Whether the next token starts a line, so that its indentation is checked.
    pub closed spec fn expecting_indent(&self) -> bool {
        self.expect_indent
    }

    /// Whether a key or list item was just read, so that a value comes next.
    pub closed spec fn expecting_value(&self) -> bool {
        self.expect_value
    }

    /// Whether a multi-line hint was read, so that a multi-line body may come next.
    pub closed spec fn expecting_multiline(&self) -> bool {
        self.expect_multiline
    }

    /// Whether the indentation set aside by an outdent is waiting.
    pub closed spec fn indent_waiting(&self) -> bool {
        self.current_indent is Some
    }

    /// The root section is always open, with the empty prefix, and the line
    /// number stays representable.
    pub closed spec fn wf(&self) -> bool {
        &&& self.indent_stack@.len() >= 1
        &&& self.indent_stack@[0]@.len() == 0
        &&& 1 <= self.lno
        &&& self.lno + self.input@.len() <= usize::MAX
        &&& (self.current_indent matches Some(p) ==> forall|k: int|
            0 <= k < p@.len() ==> is_ws(#[trigger] p@[k]))
    }

    /// Everything but the input and the expectation of a value is unchanged.
    spec fn moved_from(&self, old: &Self) -> bool {
        &&& self.indent_stack == old.indent_stack
        &&& self.current_indent == old.current_indent
        &&& self.expect_indent == old.expect_indent
        &&& self.expect_multiline == old.expect_multiline
        &&& self.lno == old.lno
    }

    fn consume_comment(&mut self, rest: &'a [u8]) -> (r: Result<Token<'a>, SyntaxError>)
        requires
            old(self).wf(),
            rest@.len() <= old(self).input@.len(),
        ensures
            is_suffix(final(self).input@, rest@),
            final(self).wf(),
            final(self).moved_from(old(self)),
            final(self).expect_value == old(self).expect_value,
            final(self).input@ == rest@.skip(to_eol(rest@)),
            r is Ok <==> valid_utf8(trim(rest@.take(to_eol(rest@)), false)),
            match r {
                Ok(Token::Comment(l, t)) => l == old(self).lno && valid_utf8(t.spec_bytes()) && t.spec_bytes() == trim(
                    rest@.take(to_eol(rest@)),
                    false,
                ),
                Ok(_) => false,
                Err(e) => e.lno == old(self).lno && e.msg@ == "invalid UTF-8"@,
            },
    {
        let i = eol(rest);
        let comment = &rest[0..i];
        self.input = &rest[i..rest.len()];
        proof {
            lemma_skip_is_suffix(rest@, i as int);
        }
        assert(comment@ == rest@.take(i as int));
        match trimmed_str(comment, false) {
            Some(t) => Ok(Token::Comment(self.lno, t)),
            None => Err(SyntaxError::new(self.lno, "invalid UTF-8")),
        }
    }

    fn consume_multiline_hint(&mut self, rest: &'a [u8]) -> (r: Result<Token<'a>, SyntaxError>)
        requires
            old(self).wf(),
            rest@.len() <= old(self).input@.len(),
        ensures
            is_suffix(final(self).input@, rest@),
            final(self).wf(),
            final(self).indent_stack == old(self).indent_stack,
            final(self).current_indent == old(self).current_indent,
            final(self).expect_indent == old(self).expect_indent,
            final(self).expect_value == old(self).expect_value,
            final(self).lno == old(self).lno,
            final(self).expect_multiline == (valid_utf8(trim(rest@.take(hint_len(rest@)), false))
                || old(self).expect_multiline),
            final(self).input@ == rest@.skip(hint_len(rest@)),
            r is Ok <==> valid_utf8(trim(rest@.take(hint_len(rest@)), false)),
            match r {
                Ok(Token::MultilineHint(l, t)) => l == old(self).lno && valid_utf8(t.spec_bytes()) && t.spec_bytes() == trim(
                    rest@.take(hint_len(rest@)),
                    false,
                ) && final(self).expect_multiline,
                Ok(_) => false,
                Err(e) => e.lno == old(self).lno && e.msg@ == "invalid UTF-8"@,
            },
    {
        let i = hint_end(rest);
        let tag = &rest[0..i];
        self.input = &rest[i..rest.len()];
        proof {
            lemma_skip_is_suffix(rest@, i as int);
        }
        assert(tag@ == rest@.take(i as int));
        match trimmed_str(tag, false) {
            Some(t) => {
                self.expect_multiline = true;
                Ok(Token::MultilineHint(self.lno, t))
            },
            None => Err(SyntaxError::new(self.lno, "invalid UTF-8")),
        }
    }

    fn consume_value(&mut self, rest: &'a [u8]) -> (r: Result<Token<'a>, SyntaxError>)
        requires
            old(self).wf(),
            rest@.len() <= old(self).input@.len(),
        ensures
            is_suffix(final(self).input@, rest@),
            final(self).wf(),
            final(self).indent_stack == old(self).indent_stack,
            final(self).current_indent == old(self).current_indent,
            final(self).expect_indent == old(self).expect_indent,
            final(self).expect_value == old(self).expect_value,
            final(self).lno == old(self).lno,
            rest@.len() >= 3 && rest@.take(3) == seq![34u8, 34u8, 34u8] ==> {
                let tag = rest@.skip(3);
                &&& final(self).input@ == tag.skip(hint_len(tag))
                &&& final(self).expect_multiline == (valid_utf8(trim(tag.take(hint_len(tag)), false))
                    || old(self).expect_multiline)
                &&& match r {
                    Ok(Token::MultilineHint(l, t)) => l == old(self).lno && valid_utf8(t.spec_bytes()) && t.spec_bytes() == trim(
                        tag.take(hint_len(tag)),
                        false,
                    ) && final(self).expect_multiline,
                    Ok(_) => false,
                    Err(e) => e.lno == old(self).lno && e.msg@ == "invalid UTF-8"@
                        && !valid_utf8(trim(tag.take(hint_len(tag)), false)),
                }
            },
            !(rest@.len() >= 3 && rest@.take(3) == seq![34u8, 34u8, 34u8]) ==> {
                let n = lexeme_len(rest@, false);
                &&& final(self).input@ == rest@.skip(n)
                &&& final(self).expect_multiline == old(self).expect_multiline
                &&& match r {
                    Ok(Token::Value(l, t)) => l == old(self).lno && valid_utf8(t.spec_bytes()) && t.spec_bytes() == trim(
                        rest@.take(n),
                        false,
                    ),
                    Ok(_) => false,
                    Err(e) => e.lno == old(self).lno && e.msg@ == "invalid UTF-8"@
                        && !valid_utf8(trim(rest@.take(n), false)),
                }
            },
    {
        if rest.len() >= 3 && rest[0] == QUOTE && rest[1] == QUOTE && rest[2] == QUOTE {
            assert(rest@.take(3) =~= seq![34u8, 34u8, 34u8]);
            let tag = &rest[3..rest.len()];
            let r = self.consume_multiline_hint(tag);
            proof {
                lemma_skip_is_suffix(rest@, 3);
                lemma_suffix_trans(self.input@, tag@, rest@);
            }
            return r;
        }
        assert(rest@.len() >= 3 && rest@.take(3) == seq![34u8, 34u8, 34u8] ==> rest@[0] == 34
            && rest@[1] == 34 && rest@[2] == 34) by {
            if rest@.len() >= 3 && rest@.take(3) == seq![34u8, 34u8, 34u8] {
                assert(rest@.take(3)[1] == rest@[1]);
                assert(rest@.take(3)[2] == rest@[2]);
            }
        }
        let end = lexeme_end(rest, false);
        let value = &rest[0..end];
        self.input = &rest[end..rest.len()];
        proof {
            lemma_skip_is_suffix(rest@, end as int);
        }
        assert(value@ == rest@.take(end as int));
        match trimmed_str(value, false) {
            Some(t) => Ok(Token::Value(self.lno, t)),
            None => Err(SyntaxError::new(self.lno, "invalid UTF-8")),
        }
    }

    fn consume_key(&mut self, rest: &'a [u8]) -> (r: Result<Token<'a>, SyntaxError>)
        requires
            old(self).wf(),
            rest@.len() <= old(self).input@.len(),
        ensures
            is_suffix(final(self).input@, rest@),
            final(self).wf(),
            final(self).moved_from(old(self)),
            final(self).expect_value,
            ({
                let n = lexeme_len(rest@, true);
                let after = rest@.skip(n);
                let key = trim(rest@.take(n), false);
                &&& final(self).input@ == (if after.len() > 0 && after[0] == 61 {
                    after.skip(1)
                } else {
                    after
                })
                &&& match r {
                    Ok(Token::MapKey(l, t)) => l == old(self).lno && t.spec_bytes() == key
                        && valid_utf8(key) && key.len() > 0,
                    Ok(_) => false,
                    Err(e) => e.lno == old(self).lno && (if key.len() == 0 {
                        e.msg@ == "empty key"@
                    } else {
                        !valid_utf8(key) && e.msg@ == "invalid UTF-8"@
                    }),
                }
            }),
    {
        let end = lexeme_end(rest, true);
        let key = &rest[0..end];
        self.expect_value = true;
        let after = &rest[end..rest.len()];
        assert(after@ == rest@.skip(end as int));
        if after.len() > 0 && after[0] == EQUALS {
            self.input = &after[1..after.len()];
            assert(self.input@ == after@.skip(1));
            proof {
                lemma_skip_is_suffix(after@, 1);
                lemma_skip_is_suffix(rest@, end as int);
                lemma_suffix_trans(self.input@, after@, rest@);
            }
        } else {
            self.input = after;
            proof {
                lemma_skip_is_suffix(rest@, end as int);
            }
        }
        assert(key@ == rest@.take(end as int));
        let (lo, hi) = trim_bounds(key, false);
        if lo == hi {
            return Err(SyntaxError::new(self.lno, "empty key"));
        }
        match utf8_str(&key[lo..hi]) {
            Some(t) => Ok(Token::MapKey(self.lno, t)),
            None => Err(SyntaxError::new(self.lno, "invalid UTF-8")),
        }
    }

    fn consume_multiline(&mut self, indent: &'a [u8]) -> (r: Result<Token<'a>, SyntaxError>)
        requires
            old(self).wf(),
        ensures
            final(self).lno >= old(self).lno,
            is_suffix(final(self).input@, old(self).input@),
            final(self).wf(),
            final(self).indent_stack == old(self).indent_stack,
            final(self).current_indent == old(self).current_indent,
            final(self).expect_indent == old(self).expect_indent,
            final(self).expect_value == old(self).expect_value,
            final(self).expect_multiline == old(self).expect_multiline,
            ({
                let scan = body_scan(old(self).input@, indent@, false);
                let body = trim(old(self).input@.take(scan.0), true);
                &&& final(self).input@ == old(self).input@.skip(scan.0)
                &&& final(self).lno == old(self).lno + scan.1
                &&& match r {
                    Ok(Token::MultilineValue(l, i, b)) => l == old(self).lno && valid_utf8(b.spec_bytes()) && i.spec_bytes()
                        == indent@ && b.spec_bytes() == body,
                    Ok(_) => false,
                    Err(e) => e.lno == old(self).lno && e.msg@ == "invalid UTF-8"@ && !(valid_utf8(
                        body,
                    ) && valid_utf8(indent@)),
                }
            }),
    {
        let lno = self.lno;
        let (end, lines) = body_extent(self.input, indent);
        let value = &self.input[0..end];
        assert(value@ == self.input@.take(end as int));
        self.input = &self.input[end..self.input.len()];
        proof {
            lemma_skip_is_suffix(old(self).input@, end as int);
        }
        self.lno = self.lno + lines;
        let body = match trimmed_str(value, true) {
            Some(b) => b,
            None => {
                return Err(SyntaxError::new(lno, "invalid UTF-8"));
            },
        };
        match utf8_str(indent) {
            Some(i) => Ok(Token::MultilineValue(lno, i, body)),
            None => Err(SyntaxError::new(lno, "invalid UTF-8")),
        }
    }

    /// Reads a list item marker, a value or a key from `rest`, the current line
    /// after its indentation.
    fn read_entry(&mut self, rest: &'a [u8]) -> (r: Option<Result<Token<'a>, SyntaxError>>)
        requires
            old(self).wf(),
            rest@.len() > 0,
            rest@.len() <= old(self).input@.len(),
        ensures
            final(self).wf(),
            entry_step(rest@, old(self).lno, old(self).expect_value, old(self).expect_multiline, *final(self), r),
            is_suffix(final(self).input@, rest@),
            final(self).lno == old(self).lno,
            final(self).indent_stack == old(self).indent_stack,
            final(self).current_indent == old(self).current_indent,
            final(self).expect_indent == old(self).expect_indent,
            !(r matches Some(Ok(Token::MultilineHint(..)))) ==> final(self).expect_multiline
                == old(self).expect_multiline,
            r matches Some(Ok(Token::MultilineHint(..))) ==> final(self).expect_multiline,
            match r {
                Some(Ok(t)) => t.line() == old(self).lno && (t is ListItem || t is Value
                    || t is MultilineHint || t is MapKey),
                Some(Err(e)) => e.lno == old(self).lno,
                None => false,
            },
    {
        let first = rest[0];
        if first == EQUALS && !self.expect_value {
            self.expect_value = true;
            self.input = &rest[1..rest.len()];
            proof {
                lemma_skip_is_suffix(rest@, 1);
            }
            Some(Ok(Token::ListItem(self.lno)))
        } else if self.expect_value {
            self.expect_value = false;
            Some(self.consume_value(rest))
        } else {
            Some(self.consume_key(rest))
        }
    }

    #[verifier::rlimit(40)]
    /// Yields the next token, an error (after which scanning goes on), or
    /// `None` at the end of the input once every section is closed.
    pub fn next(&mut self) -> (r: Option<Result<Token<'a>, SyntaxError>>)
        requires
            old(self).wf(),
        ensures
            final(self).wf(),
            step(*old(self), *final(self), r),
            final(self).sections().len() >= 1,
            old(self).line() <= final(self).line(),
            is_suffix(final(self).rest(), old(self).rest()),
            match r {
                Some(Ok(t)) => old(self).line() <= t.line() <= final(self).line(),
                Some(Err(e)) => old(self).line() <= e.lno <= final(self).line(),
                None => true,
            },
            r is None ==> {
                &&& forall|k: int| 0 <= k < old(self).rest().len() ==> is_ws(#[trigger] old(self).rest()[k])
                &&& old(self).sections().len() == 1
                &&& final(self).sections() == old(self).sections()
                &&& final(self).rest() == old(self).rest()
            },
            r matches Some(Ok(Token::Newline(l))) ==> l == old(self).line() && final(self).line()
                == old(self).line() + 1,
            r matches Some(Ok(Token::Indent(_))) ==> {
                let before = old(self).sections();
                let after = final(self).sections();
                &&& after.len() == before.len() + 1
                &&& after.drop_last() == before
                &&& before.last().is_prefix_of(after.last())
                &&& before.last().len() < after.last().len()
            },
            r matches Some(Ok(Token::Outdent(_))) ==> old(self).sections().len() > 1
                && final(self).sections() == old(self).sections().drop_last(),
            !(r matches Some(Ok(Token::Indent(_)))) && !(r matches Some(Ok(Token::Outdent(_))))
                ==> final(self).sections() == old(self).sections(),
            r matches Some(Ok(Token::NoValue(_))) ==> false,
            match r {
                Some(Ok(t)) => {
                    &&& t.line() == old(self).line()
                    &&& !(t is Newline) && !(t is MultilineValue) ==> final(self).line() == old(
                        self,
                    ).line()
                },
                Some(Err(e)) => e.lno == old(self).line(),
                None => final(self).line() == old(self).line(),
            },
    {
        let pending = self.current_indent;
        self.current_indent = None;
        let (indent, rest) = match pending {
            Some(p) => (p, self.input),
            None => {
                let i = ws_prefix(self.input);
                (&self.input[0..i], &self.input[i..self.input.len()])
            },
        };
        proof {
            if pending is None {
                lemma_skip_is_suffix(self.input@, self.input@.len() - rest@.len());
            } else {
                lemma_skip_is_suffix(self.input@, 0);
                assert(self.input@.skip(0) =~= self.input@);
            }
        }
        assert(is_suffix(rest@, self.input@));
        assert(indent@ == old(self).line_indent());
        assert(rest@ == old(self).line_rest());
        if rest.len() > 0 && (rest[0] == CR || rest[0] == LF) {
            let n = newline_size(rest);
            self.input = &rest[n..rest.len()];
            proof {
                lemma_skip_is_suffix(rest@, n as int);
                lemma_suffix_trans(self.input@, rest@, old(self).input@);
            }
            self.lno = self.lno + 1;
            self.expect_indent = true;
            self.expect_value = false;
            return Some(Ok(Token::Newline(self.lno - 1)));
        }
        if rest.len() == 0 {
            if self.indent_stack.len() > 1 {
                self.indent_stack.pop();
                proof {
                    assert(self.sections() =~= old(self).sections().drop_last());
                    assert(self.input@ =~= old(self).input@.skip(0));
                }
                return Some(Ok(Token::Outdent(self.lno)));
            }
            proof {
                lemma_skip_is_suffix(self.input@, 0);
                assert(self.input@.skip(0) =~= self.input@);
            }
            return None;
        }
        let first = rest[0];
        if first == SEMICOLON && !(self.expect_indent && self.expect_multiline) {
            let text = &rest[1..rest.len()];
            let r = self.consume_comment(text);
            proof {
                lemma_skip_is_suffix(rest@, 1);
                lemma_suffix_trans(self.input@, text@, rest@);
                lemma_suffix_trans(self.input@, rest@, old(self).input@);
            }
            return Some(r);
        }
        if self.expect_indent {
            self.expect_indent = false;
            let current = self.indent_stack[self.indent_stack.len() - 1];
            assert(current@ == old(self).sections().last());
            if self.expect_multiline {
                self.expect_multiline = false;
                if indent.len() > current.len() && has_prefix(indent, current) {
                    proof {
                        lemma_line_parts(*old(self));
                        lemma_ws_valid_utf8(indent@);
                    }
                    let r = self.consume_multiline(indent);
                    self.expect_indent = true;
                    return Some(r);
                }
            }
            if !bytes_eq(indent, current) {
                if indent.len() > current.len() && has_prefix(indent, current) {
                    self.indent_stack.push(indent);
                    self.input = rest;
                    proof {
                        assert(self.sections().drop_last() =~= old(self).sections());
                        assert(self.sections() =~= old(self).sections().push(indent@));
                    }
                    return Some(Ok(Token::Indent(self.lno)));
                } else {
                    proof {
                        if self.indent_stack@.len() == 1 {
                            assert(current@.len() == 0);
                            if indent@.len() == 0 {
                                assert(indent@ =~= current@);
                            }
                            assert(current@ =~= indent@.subrange(0, 0));
                            assert(current@.is_prefix_of(indent@));
                        }
                    }
                    self.indent_stack.pop();
                    self.current_indent = Some(indent);
                    self.expect_indent = true;
                    self.input = rest;
                    proof {
                        assert(self.sections() =~= old(self).sections().drop_last());
                    }
                    return Some(Ok(Token::Outdent(self.lno)));
                }
            }
        }
        let r = self.read_entry(rest);
        proof {
            lemma_suffix_trans(self.input@, rest@, old(self).input@);
        }
        r
    }
}

} // verus!
