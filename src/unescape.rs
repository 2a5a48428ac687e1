use vstd::prelude::*;
use vstd::utf8::is_scalar;
use vstd::std_specs::iter::IteratorSpec;
use crate::token::{SyntaxError, Text, Token};

verus! {

/// A decoding result: the characters, or the message of the error.
pub type Decoded = Result<Seq<char>, Seq<char>>;

pub open spec fn is_newline_char(c: char) -> bool {
    c == '\r' || c == '\n'
}

pub open spec fn is_hex_digit(c: char) -> bool {
    ('0' <= c && c <= '9') || ('a' <= c && c <= 'f') || ('A' <= c && c <= 'F')
}

pub open spec fn hex_digit_value(c: char) -> int {
    if '0' <= c && c <= '9' {
        c as int - '0' as int
    } else if 'a' <= c && c <= 'f' {
        c as int - 'a' as int + 10
    } else {
        c as int - 'A' as int + 10
    }
}

/// The number written by a sequence of hexadecimal digits.
pub open spec fn hex_value(s: Seq<char>) -> int
    decreases s.len(),
{
    if s.len() == 0 {
        0
    } else {
        hex_value(s.drop_last()) * 16 + hex_digit_value(s.last())
    }
}

/// Whether the text between the braces of `\{...}` names a Unicode scalar value:
/// one to eight hex digits.
pub open spec fn escape_code_ok(s: Seq<char>) -> bool {
    &&& s.len() <= 8
    &&& s.len() > 0
    &&& forall|i: int| 0 <= i < s.len() ==> is_hex_digit(#[trigger] s[i])
    &&& hex_value(s) <= 0x10FFFF
    &&& is_scalar(hex_value(s) as u32)
}

/// The length of the text before the first `}` of `s` (all of `s` if there is none).
pub open spec fn brace_len(s: Seq<char>) -> int
    decreases s.len(),
{
    if s.len() == 0 || s[0] == '}' {
        0
    } else {
        1 + brace_len(s.skip(1))
    }
}

pub open spec fn with_prefix(p: Seq<char>, r: Decoded) -> Decoded {
    match r {
        Ok(t) => Ok(p + t),
        Err(e) => Err(e),
    }
}

/// The character that a simple escape `\c` stands for.
pub open spec fn simple_escape(c: char) -> Option<char> {
    if c == '"' {
        Some('"')
    } else if c == '\\' {
        Some('\\')
    } else if c == 'n' {
        Some('\n')
    } else if c == 'r' {
        Some('\r')
    } else if c == 't' {
        Some('\t')
    } else {
        None
    }
}

/// Decodes the text of a quoted lexeme that follows its opening quote.
pub open spec fn decode_quoted(s: Seq<char>) -> Decoded
    decreases s.len(),
{
    if s.len() == 0 {
        Err("unclosed quotes"@)
    } else if s[0] == '"' {
        if s.len() > 1 {
            Err("extra characters after quotes"@)
        } else {
            Ok(Seq::empty())
        }
    } else if s[0] != '\\' {
        with_prefix(seq![s[0]], decode_quoted(s.skip(1)))
    } else if s.len() == 1 {
        Err("invalid escape code: end of string"@)
    } else if simple_escape(s[1]) is Some {
        with_prefix(seq![simple_escape(s[1])->0], decode_quoted(s.skip(2)))
    } else if s[1] == '{' {
        let body = s.skip(2);
        let k = brace_len(body);
        if !(0 <= k < body.len()) {
            Err("invalid escape code: end of string"@)
        } else if escape_code_ok(body.take(k)) {
            with_prefix(
                seq![(hex_value(body.take(k)) as u32) as char],
                decode_quoted(body.skip(k + 1)),
            )
        } else {
            Err("invalid escape code: \\{"@ + body.take(k) + "}"@)
        }
    } else {
        Err("invalid escape code: \\"@ + seq![s[1]])
    }
}

pub open spec fn plain_between_quotes(v: Seq<char>) -> bool {
    &&& v.len() >= 2
    &&& v[0] == '"'
    &&& v.last() == '"'
    &&& forall|i: int| 1 <= i < v.len() - 1 ==> #[trigger] v[i] != '"' && v[i] != '\\'
}

/// The logical value of the lexeme of a key or a single-line value.
pub open spec fn scalar_value(v: Seq<char>) -> Decoded {
    if v.len() == 0 || v[0] != '"' {
        Ok(v)
    } else if plain_between_quotes(v) {
        Ok(v.subrange(1, v.len() - 1))
    } else {
        decode_quoted(v.skip(1))
    }
}

/// The length of the text before the first line terminator of `s`.
pub open spec fn line_len(s: Seq<char>) -> int
    decreases s.len(),
{
    if s.len() == 0 || is_newline_char(s[0]) {
        0
    } else {
        1 + line_len(s.skip(1))
    }
}

/// The width of the line terminator at `k`: two for `\r\n`, else one.
pub open spec fn terminator_len(s: Seq<char>, k: int) -> int {
    if s[k] == '\r' && k + 1 < s.len() && s[k + 1] == '\n' {
        2
    } else {
        1
    }
}

/// One line of a multi-line body: the indentation is stripped; a line that lacks
/// it is kept whole if it is the first line, and dropped otherwise.
pub open spec fn strip_line(line: Seq<char>, indent: Seq<char>, first: bool) -> Seq<char> {
    if indent.is_prefix_of(line) {
        line.skip(indent.len() as int)
    } else if first {
        line
    } else {
        Seq::empty()
    }
}

/// The lines of `s`, each stripped, joined with `\n`.
pub open spec fn strip_lines(s: Seq<char>, indent: Seq<char>, first: bool) -> Seq<char>
    decreases s.len(),
{
    let k = line_len(s);
    if !(0 <= k < s.len()) {
        strip_line(s, indent, first)
    } else {
        strip_line(s.take(k), indent, first) + seq!['\n'] + strip_lines(
            s.skip(k + terminator_len(s, k)),
            indent,
            false,
        )
    }
}

/// The logical value of a multi-line body.
pub open spec fn multiline_value(body: Seq<char>, indent: Seq<char>) -> Seq<char> {
    if exists|i: int| 0 <= i < body.len() && is_newline_char(#[trigger] body[i]) {
        strip_lines(body, indent, true)
    } else {
        body
    }
}

/// The characters of `s`, in order.
pub fn chars_of(s: &str) -> (r: Vec<char>)
    ensures
        r@ == s@,
{
    broadcast use vstd::string::group_string_axioms;
    let n = s.unicode_len();
    let mut it = s.chars();
    let mut v: Vec<char> = Vec::new();
    while v.len() < n
        invariant
            v@ + it.remaining() == s@,
            n == s@.len(),
        decreases n - v.len(),
    {
        let c = it.next().unwrap();
        v.push(c);
    }
    assert(v@ =~= s@);
    v
}

/// Relies on `String`'s `FromIterator<&char>`: the string holds exactly the given characters.
#[verifier::external_body]
pub(crate) fn string_of(v: &[char]) -> (r: String)
    ensures
        r@ == v@,
{
    String::from_iter(v.iter())
}

/// Relies on `char::from_u32`: a character exactly for a Unicode scalar value.
#[verifier::external_body]
pub(crate) fn char_from_u32(n: u32) -> (r: Option<char>)
    ensures
        r is Some <==> is_scalar(n),
        r is Some ==> r->0 == n as char,
{
    char::from_u32(n)
}

pub open spec fn pow16(n: nat) -> int
    decreases n,
{
    if n == 0 {
        1
    } else {
        16 * pow16((n - 1) as nat)
    }
}

proof fn lemma_pow16_mono(a: nat, b: nat)
    requires
        a <= b,
    ensures
        1 <= pow16(a) <= pow16(b),
    decreases b,
{
    if b > a {
        lemma_pow16_mono(a, (b - 1) as nat);
    } else if a > 0 {
        lemma_pow16_mono((a - 1) as nat, (a - 1) as nat);
    }
}

proof fn lemma_with_prefix_push(p: Seq<char>, c: char, r: Decoded)
    ensures
        with_prefix(p, with_prefix(seq![c], r)) == with_prefix(p.push(c), r),
{
    if let Ok(t) = r {
        assert(p + (seq![c] + t) =~= p.push(c) + t);
    }
}

proof fn lemma_brace_len(s: Seq<char>, m: int)
    requires
        0 <= m <= s.len(),
        forall|k: int| 0 <= k < m ==> s[k] != '}',
        m == s.len() || s[m] == '}',
    ensures
        brace_len(s) == m,
    decreases m,
{
    if m > 0 {
        lemma_brace_len(s.skip(1), m - 1);
    }
}

proof fn lemma_line_len(s: Seq<char>, m: int)
    requires
        0 <= m <= s.len(),
        forall|k: int| 0 <= k < m ==> !is_newline_char(#[trigger] s[k]),
        m == s.len() || is_newline_char(s[m]),
    ensures
        line_len(s) == m,
    decreases m,
{
    if m > 0 {
        lemma_line_len(s.skip(1), m - 1);
    }
}

fn hex_digit(c: char) -> (r: Option<u32>)
    ensures
        r is Some <==> is_hex_digit(c),
        r is Some ==> r->0 == hex_digit_value(c) && r->0 < 16,
{
    if '0' <= c && c <= '9' {
        Some(c as u32 - '0' as u32)
    } else if 'a' <= c && c <= 'f' {
        Some(c as u32 - 'a' as u32 + 10)
    } else if 'A' <= c && c <= 'F' {
        Some(c as u32 - 'A' as u32 + 10)
    } else {
        None
    }
}

/// The character named by the text `cs[lo..hi]` of a `\{...}` escape, if it names one.
fn escape_char(cs: &Vec<char>, lo: usize, hi: usize) -> (r: Option<char>)
    requires
        lo <= hi <= cs.len(),
    ensures
        r is Some <==> escape_code_ok(cs@.subrange(lo as int, hi as int)),
        r is Some ==> r->0 == (hex_value(cs@.subrange(lo as int, hi as int)) as u32) as char,
{
    let ghost code = cs@.subrange(lo as int, hi as int);
    if hi - lo > 8 {
        return None;
    }
    let p = lo;
    if p == hi {
        return None;
    }
    let mut k = p;
    let mut val: u64 = 0;
    while k < hi
        invariant
            lo <= p <= k <= hi <= cs.len(),
            hi - p <= 8,
            code == cs@.subrange(lo as int, hi as int),
            code == cs@.subrange(p as int, hi as int),
            val == hex_value(cs@.subrange(p as int, k as int)),
            val < pow16((k - p) as nat),
            forall|i: int| p <= i < k ==> is_hex_digit(#[trigger] cs@[i]),
        decreases hi - k,
    {
        let d = match hex_digit(cs[k]) {
            Some(d) => d,
            None => {
                assert(!is_hex_digit(code[k - p]));
                return None;
            },
        };
        proof {
            lemma_pow16_mono((k + 1 - p) as nat, 8);
            reveal_with_fuel(pow16, 9);
            assert(cs@.subrange(p as int, k + 1).drop_last() =~= cs@.subrange(p as int, k as int));
        }
        val = val * 16 + d as u64;
        k = k + 1;
    }
    proof {
        assert(cs@.subrange(p as int, hi as int) =~= cs@.subrange(p as int, k as int));
        assert forall|i: int| 0 <= i < code.len() implies is_hex_digit(
            #[trigger] code[i],
        ) by {
            assert(code[i] == cs@[p + i]);
        }
    }
    if val > 0x10FFFF {
        return None;
    }
    char_from_u32(val as u32)
}

fn simple_escape_exec(c: char) -> (r: Option<char>)
    ensures
        r == simple_escape(c),
{
    if c == '"' {
        Some('"')
    } else if c == '\\' {
        Some('\\')
    } else if c == 'n' {
        Some('\n')
    } else if c == 'r' {
        Some('\r')
    } else if c == 't' {
        Some('\t')
    } else {
        None
    }
}

fn joined(a: &str, b: &str) -> (r: String)
    ensures
        r@ == a@ + b@,
{
    let mut v = chars_of(a);
    let cs = chars_of(b);
    let mut j: usize = 0;
    while j < cs.len()
        invariant
            j <= cs.len(),
            v@ == a@ + cs@.take(j as int),
            cs@ == b@,
        decreases cs.len() - j,
    {
        v.push(cs[j]);
        j = j + 1;
        assert(v@ =~= a@ + cs@.take(j as int));
    }
    assert(cs@.take(j as int) =~= cs@);
    string_of(v.as_slice())
}

/// Decodes `cs[start..]`, the text of a quoted lexeme after its opening quote.
fn decode_quoted_exec(cs: &Vec<char>, start: usize) -> (r: Result<Vec<char>, String>)
    requires
        start <= cs.len(),
    ensures
        match r {
            Ok(v) => decode_quoted(cs@.skip(start as int)) == Decoded::Ok(v@),
            Err(m) => decode_quoted(cs@.skip(start as int)) == Decoded::Err(m@),
        },
{
    let mut out: Vec<char> = Vec::new();
    let mut i = start;
    assert(out@ + Seq::<char>::empty() =~= Seq::<char>::empty());
    proof {
        assert(forall|t: Seq<char>| Seq::<char>::empty() + t =~= t);
    }
    while i < cs.len()
        invariant
            start <= i <= cs.len(),
            decode_quoted(cs@.skip(start as int)) == with_prefix(out@, decode_quoted(cs@.skip(i as int))),
        decreases cs.len() - i,
    {
        let ghost s = cs@.skip(i as int);
        let c = cs[i];
        if c == '"' {
            if i + 1 < cs.len() {
                return Err("extra characters after quotes".to_owned());
            }
            assert(out@ + Seq::<char>::empty() =~= out@);
            return Ok(out);
        } else if c != '\\' {
            proof {
                lemma_with_prefix_push(out@, c, decode_quoted(s.skip(1)));
                assert(s.skip(1) =~= cs@.skip(i + 1));
            }
            out.push(c);
            i = i + 1;
        } else if i + 1 == cs.len() {
            return Err("invalid escape code: end of string".to_owned());
        } else {
            let e = cs[i + 1];
            if let Some(d) = simple_escape_exec(e) {
                proof {
                    lemma_with_prefix_push(out@, d, decode_quoted(s.skip(2)));
                    assert(s.skip(2) =~= cs@.skip(i + 2));
                }
                out.push(d);
                i = i + 2;
            } else if e == '{' {
                let mut j = i + 2;
                while j < cs.len() && cs[j] != '}'
                    invariant
                        i + 2 <= j <= cs.len(),
                        forall|k: int| i + 2 <= k < j ==> cs@[k] != '}',
                    decreases cs.len() - j,
                {
                    j = j + 1;
                }
                let ghost body = s.skip(2);
                proof {
                    assert(body =~= cs@.skip(i + 2));
                    lemma_brace_len(body, j - (i + 2));
                }
                if j == cs.len() {
                    return Err("invalid escape code: end of string".to_owned());
                }
                assert(body.take(j - (i + 2)) =~= cs@.subrange(i + 2, j as int));
                match escape_char(cs, i + 2, j) {
                    Some(ch) => {
                        proof {
                            lemma_with_prefix_push(out@, ch, decode_quoted(body.skip(j - (i + 2) + 1)));
                            assert(body.skip(j - (i + 2) + 1) =~= cs@.skip(j + 1));
                        }
                        out.push(ch);
                        i = j + 1;
                    },
                    None => {
                        let found = string_of(&cs.as_slice()[i + 2..j]);
                        proof {
                            assert(cs@.subrange(i + 2, j as int) =~= found@);
                        }
                        let m = joined("invalid escape code: \\{", joined(found.as_str(), "}").as_str());
                        assert(m@ =~= "invalid escape code: \\{"@ + body.take(j - (i + 2)) + "}"@);
                        return Err(m);
                    },
                }
            } else {
                let one = string_of(&cs.as_slice()[i + 1..i + 2]);
                assert(one@ =~= seq![s[1]]);
                return Err(joined("invalid escape code: \\", one.as_str()));
            }
        }
    }
    Err("unclosed quotes".to_owned())
}

/// Whether `ind` is a prefix of `cs[lo..hi]`.
fn starts_with_at(cs: &Vec<char>, lo: usize, hi: usize, ind: &Vec<char>) -> (r: bool)
    requires
        lo <= hi <= cs.len(),
    ensures
        r == ind@.is_prefix_of(cs@.subrange(lo as int, hi as int)),
{
    if ind.len() > hi - lo {
        return false;
    }
    let mut k: usize = 0;
    while k < ind.len()
        invariant
            k <= ind.len() <= hi - lo,
            lo <= hi <= cs.len(),
            forall|m: int| 0 <= m < k ==> ind@[m] == cs@[lo + m],
        decreases ind.len() - k,
    {
        if ind[k] != cs[lo + k] {
            assert(cs@.subrange(lo as int, hi as int).subrange(0, ind@.len() as int)[k as int] == cs@[lo + k]);
            return false;
        }
        k = k + 1;
    }
    assert(ind@ =~= cs@.subrange(lo as int, hi as int).subrange(0, ind@.len() as int));
    true
}

/// Appends `strip_line` of `cs[lo..hi]` to `out`.
fn push_stripped(cs: &Vec<char>, lo: usize, hi: usize, ind: &Vec<char>, first: bool, out: &mut Vec<char>)
    requires
        lo <= hi <= cs.len(),
    ensures
        final(out)@ == old(out)@ + strip_line(cs@.subrange(lo as int, hi as int), ind@, first),
{
    let ghost line = cs@.subrange(lo as int, hi as int);
    let from = if starts_with_at(cs, lo, hi, ind) {
        lo + ind.len()
    } else if first {
        lo
    } else {
        hi
    };
    let ghost out0 = out@;
    let mut k = from;
    while k < hi
        invariant
            from <= k <= hi <= cs.len(),
            out@ == out0 + cs@.subrange(from as int, k as int),
        decreases hi - k,
    {
        out.push(cs[k]);
        k = k + 1;
        assert(out@ =~= out0 + cs@.subrange(from as int, k as int));
    }
    assert(strip_line(line, ind@, first) =~= cs@.subrange(from as int, hi as int));
}

/// Strips the indentation `ind` from each line of the multi-line body `cs`.
fn strip_lines_exec(cs: &Vec<char>, ind: &Vec<char>) -> (r: Vec<char>)
    ensures
        r@ == strip_lines(cs@, ind@, true),
{
    let mut out: Vec<char> = Vec::new();
    let mut pos: usize = 0;
    let mut first = true;
    assert(cs@.skip(0) =~= cs@);
    assert(out@ + strip_lines(cs@, ind@, true) =~= strip_lines(cs@, ind@, true));
    loop
        invariant
            pos <= cs.len(),
            out@ + strip_lines(cs@.skip(pos as int), ind@, first) == strip_lines(cs@, ind@, true),
        decreases cs.len() - pos,
    {
        let ghost s = cs@.skip(pos as int);
        let mut k = pos;
        while k < cs.len() && cs[k] != '\r' && cs[k] != '\n'
            invariant
                pos <= k <= cs.len(),
                forall|m: int| pos <= m < k ==> !is_newline_char(#[trigger] cs@[m]),
            decreases cs.len() - k,
        {
            k = k + 1;
        }
        proof {
            assert forall|m: int| 0 <= m < k - pos implies !is_newline_char(#[trigger] s[m]) by {
                assert(s[m] == cs@[pos + m]);
            }
            lemma_line_len(s, k - pos);
        }
        let ghost out0 = out@;
        push_stripped(cs, pos, k, ind, first, &mut out);
        if k == cs.len() {
            assert(s =~= cs@.subrange(pos as int, k as int));
            return out;
        }
        assert(s.take(k - pos) =~= cs@.subrange(pos as int, k as int));
        let w: usize = if cs[k] == '\r' && k + 1 < cs.len() && cs[k + 1] == '\n' {
            2
        } else {
            1
        };
        assert(terminator_len(s, k - pos) == w);
        assert(s.skip(k - pos + w) =~= cs@.skip(k + w));
        out.push('\n');
        assert(out0 + strip_lines(s, ind@, first) =~= out@ + strip_lines(cs@.skip(k + w), ind@, false));
        pos = k + w;
        first = false;
    }
}

/// Whether `cs` holds a line terminator.
fn has_newline(cs: &Vec<char>) -> (r: bool)
    ensures
        r == exists|i: int| 0 <= i < cs@.len() && is_newline_char(#[trigger] cs@[i]),
{
    let mut k: usize = 0;
    while k < cs.len()
        invariant
            k <= cs.len(),
            forall|m: int| 0 <= m < k ==> !is_newline_char(#[trigger] cs@[m]),
        decreases cs.len() - k,
    {
        if cs[k] == '\r' || cs[k] == '\n' {
            return true;
        }
        k = k + 1;
    }
    false
}

impl<'a> Token<'a> {
    /// The logical value of the token, or the line and message of the error that
    /// decoding it raises.
    pub open spec fn unescaped(&self) -> Result<Seq<char>, (usize, Seq<char>)> {
        match self {
            Token::MapKey(l, v) => match scalar_value(v@) {
                Ok(t) => Ok(t),
                Err(m) => Err((*l, m)),
            },
            Token::Value(l, v) => match scalar_value(v@) {
                Ok(t) => Ok(t),
                Err(m) => Err((*l, m)),
            },
            Token::MultilineValue(_, indent, body) => Ok(multiline_value(body@, indent@)),
            Token::Comment(_, t) => Ok(t@),
            Token::MultilineHint(_, t) => Ok(t@),
            _ => Ok(Seq::empty()),
        }
    }

    /// The lexeme of a key or a single-line value.
    pub open spec fn scalar_lexeme(&self) -> Option<&'a str> {
        match self {
            Token::MapKey(_, v) => Some(*v),
            Token::Value(_, v) => Some(*v),
            _ => None,
        }
    }

    /// Returns the logical value of the token, with quotes and escapes decoded.
    ///
    /// This is most useful for keys, values and multi-line values; comments and
    /// multi-line hints give their text, and other tokens the empty string. A
    /// lexeme that needs no decoding is returned as a view of the input.
    pub fn unescape(&self) -> (r: Result<Text<'a>, SyntaxError>)
        ensures
            match self.unescaped() {
                Ok(t) => r is Ok && r->Ok_0.chars() == t,
                Err((l, m)) => r is Err && r->Err_0.lno == l && r->Err_0.msg@ == m,
            },
            match self.scalar_lexeme() {
                Some(v) => {
                    &&& (v@.len() == 0 || v@[0] != '"') ==> r == Ok::<Text<'a>, SyntaxError>(
                        Text::Borrowed(v),
                    )
                    &&& plain_between_quotes(v@) ==> (r matches Ok(Text::Borrowed(_)))
                    &&& (v@.len() > 0 && v@[0] == '"' && !plain_between_quotes(v@) && r is Ok)
                        ==> (r matches Ok(Text::Owned(_)))
                },
                None => true,
            },
            match self {
                Token::Comment(_, c) => r == Ok::<Text<'a>, SyntaxError>(Text::Borrowed(*c)),
                Token::MultilineHint(_, c) => r == Ok::<Text<'a>, SyntaxError>(Text::Borrowed(*c)),
                Token::MapKey(..) | Token::Value(..) | Token::MultilineValue(..) => true,
                _ => r matches Ok(Text::Borrowed(e)) && e@.len() == 0,
            },
            match self {
                Token::MultilineValue(_, _, body) => !(exists|i: int|
                    0 <= i < body@.len() && is_newline_char(#[trigger] body@[i]))
                    ==> r == Ok::<Text<'a>, SyntaxError>(Text::Borrowed(*body)),
                _ => true,
            },
    {
        match self {
            Token::MapKey(l, v) | Token::Value(l, v) => {
                let cs = chars_of(v);
                if cs.len() == 0 || cs[0] != '"' {
                    return Ok(Text::Borrowed(v));
                }
                let n = cs.len();
                if n >= 2 && cs[n - 1] == '"' {
                    let mut k: usize = 1;
                    while k < n - 1 && cs[k] != '"' && cs[k] != '\\'
                        invariant
                            1 <= k <= n - 1,
                            n == cs@.len(),
                            forall|m: int| 1 <= m < k ==> #[trigger] cs@[m] != '"' && cs@[m] != '\\',
                        decreases n - k,
                    {
                        k = k + 1;
                    }
                    if k == n - 1 {
                        assert(plain_between_quotes(cs@));
                        let inner = v.substring_char(1, n - 1);
                        return Ok(Text::Borrowed(inner));
                    }
                }
                match decode_quoted_exec(&cs, 1) {
                    Ok(out) => Ok(Text::Owned(string_of(out.as_slice()))),
                    Err(msg) => Err(SyntaxError { lno: *l, msg }),
                }
            },
            Token::MultilineValue(_, indent, body) => {
                let cs = chars_of(body);
                if !has_newline(&cs) {
                    return Ok(Text::Borrowed(body));
                }
                let ind = chars_of(indent);
                let out = strip_lines_exec(&cs, &ind);
                Ok(Text::Owned(string_of(out.as_slice())))
            },
            Token::Comment(_, t) | Token::MultilineHint(_, t) => Ok(Text::Borrowed(t)),
            _ => {
                proof {
                    reveal_strlit("");
                }
                Ok(Text::Borrowed(""))
            },
        }
    }
}

/// Whether `c` is a printable ASCII character other than `"` and `\`.
pub open spec fn is_plain_char(c: char) -> bool {
    ' ' <= c && c <= '~' && c != '"' && c != '\\'
}

/// Quoting round trip: a string of printable ASCII characters other than `"` and
/// `\`, written between quotes, decodes to itself, both through the borrowing
/// fast path and through the escape decoder.
pub proof fn lemma_quoted_round_trip(s: Seq<char>)
    requires
        forall|i: int| 0 <= i < s.len() ==> is_plain_char(#[trigger] s[i]),
    ensures
        scalar_value(seq!['"'] + s + seq!['"']) == Decoded::Ok(s),
        decode_quoted(s + seq!['"']) == Decoded::Ok(s),
    decreases s.len(),
{
    let q = seq!['"'] + s + seq!['"'];
    assert(q.subrange(1, q.len() - 1) =~= s);
    assert forall|i: int| 1 <= i < q.len() - 1 implies #[trigger] q[i] != '"' && q[i] != '\\' by {
        assert(q[i] == s[i - 1]);
    }
    let u = s + seq!['"'];
    if s.len() == 0 {
        assert(u =~= seq!['"']);
        assert(s =~= Seq::<char>::empty());
    } else {
        assert(u[0] == s[0]);
        let t = s.skip(1);
        assert forall|i: int| 0 <= i < t.len() implies is_plain_char(#[trigger] t[i]) by {
            assert(t[i] == s[i + 1]);
        }
        lemma_quoted_round_trip(t);
        assert(u.skip(1) =~= t + seq!['"']);
        assert(seq![s[0]] + t =~= s);
    }
}

} // verus!
