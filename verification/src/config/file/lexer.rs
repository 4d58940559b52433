//! Conf file lexer: brackets, assignment, commas, newlines, booleans,
//! integers with a radix prefix, identifiers and quoted strings.

use vstd::prelude::*;
use vstd::string::{StrSliceExecFns, StringExecFns};

verus! {

broadcast use vstd::group_vstd_default;

/// Whether the character counts as whitespace.
pub uninterp spec fn is_space(c: char) -> bool;

/// Relies on char::is_whitespace: the Unicode whitespace property.
#[verifier::external_body]
pub fn is_whitespace_char(c: char) -> (r: bool)
    ensures
        r == is_space(c),
{
    c.is_whitespace()
}

/// Whether the character may open an identifier.
pub uninterp spec fn xid_start(c: char) -> bool;

/// Whether the character may continue an identifier.
pub uninterp spec fn xid_continue(c: char) -> bool;

/// Relies on unicode_ident::is_xid_start: the XID_Start property.
#[verifier::external_body]
fn is_xid_start_char(c: char) -> (r: bool)
    ensures
        r == xid_start(c),
{
    unicode_ident::is_xid_start(c)
}

/// Relies on unicode_ident::is_xid_continue: the XID_Continue property.
#[verifier::external_body]
fn is_xid_continue_char(c: char) -> (r: bool)
    ensures
        r == xid_continue(c),
{
    unicode_ident::is_xid_continue(c)
}

/// What the lexer reads, one token per call.
#[derive(Debug)]
pub enum Token<'src> {
    NewLine,
    LBrace,
    RBrace,
    Assign,
    Comma,
    Bool(bool),
    Int(i64),
    Ident(&'src str),
    Str(String),
}

/// What an expectation or an offending input looks like in an error.
#[derive(Clone, Copy, Debug)]
pub enum Expectation {
    Eof,
    Char(char),
    Regex(&'static str),
}

/// Why the lexer stopped.
#[derive(Clone, Copy, Debug)]
pub enum LexerErrorKind {
    /// An integer too large for its type.
    IntOverflow,
    /// Something else stood where `expected` should have.
    Unexpected { expected: Expectation, got: Expectation },
}

/// A lexing failure: where it happened and why.
#[derive(Clone, Copy, Debug)]
pub struct LexerError {
    /// The newline count at the failure.
    pub line: usize,
    pub kind: LexerErrorKind,
}

impl LexerError {
    pub fn new(line: usize, kind: LexerErrorKind) -> (r: LexerError)
        ensures
            r.line == line,
            r.kind == kind,
    {
        LexerError { line, kind }
    }
}

/// The base an integer literal is written in.
#[derive(Clone, Copy, Debug, PartialEq, Eq, Structural)]
pub enum Radix {
    Binary,
    Octal,
    Decimal,
    Hexadecimal,
}

/// The value of one digit under the radix, if it is one.
pub open spec fn spec_digit_val(r: Radix, c: char) -> Option<int> {
    let decimal: Option<int> = if '0' <= c && c <= '9' {
        Some((c as int) - ('0' as int))
    } else {
        None
    };
    match r {
        Radix::Binary => if c == '0' || c == '1' {
            decimal
        } else {
            None
        },
        Radix::Octal => if '0' <= c && c <= '7' {
            decimal
        } else {
            None
        },
        Radix::Decimal => decimal,
        Radix::Hexadecimal => if decimal is Some {
            decimal
        } else if 'a' <= c && c <= 'f' {
            Some((c as int) - ('a' as int) + 10)
        } else if 'A' <= c && c <= 'F' {
            Some((c as int) - ('A' as int) + 10)
        } else {
            None
        },
    }
}

/// The base as a number.
pub open spec fn spec_radix_val(r: Radix) -> int {
    match r {
        Radix::Binary => 2,
        Radix::Octal => 8,
        Radix::Decimal => 10,
        Radix::Hexadecimal => 16,
    }
}

impl Radix {
    /// Return the rule for the digits, which does not include the
    /// radix head.
    pub fn digit_rule(&self) -> (r: Expectation)
        ensures
            exp_matches(r, spec_digit_rule(*self)),
    {
        match self {
            Radix::Binary => Expectation::Regex("[01]+"),
            Radix::Octal => Expectation::Regex("[0-7]+"),
            Radix::Decimal => Expectation::Regex("\\d+"),
            Radix::Hexadecimal => Expectation::Regex("[\\da-fA-F]+"),
        }
    }

    /// Whether `ch` is a digit under this radix.
    pub fn validate(&self, ch: char) -> (r: bool)
        ensures
            r == (spec_digit_val(*self, ch) is Some),
    {
        match self {
            Radix::Binary => ch == '0' || ch == '1',
            Radix::Octal => '0' <= ch && ch <= '7',
            Radix::Decimal => '0' <= ch && ch <= '9',
            Radix::Hexadecimal => ('0' <= ch && ch <= '9') || ('a' <= ch && ch <= 'f') || ('A'
                <= ch && ch <= 'F'),
        }
    }

    /// The digit's value under this radix.
    fn digit_val(&self, ch: char) -> (r: u32)
        requires
            spec_digit_val(*self, ch) is Some,
        ensures
            r == spec_digit_val(*self, ch)->Some_0,
    {
        if '0' <= ch && ch <= '9' {
            (ch as u32) - ('0' as u32)
        } else if 'a' <= ch && ch <= 'f' {
            (ch as u32) - ('a' as u32) + 10
        } else {
            (ch as u32) - ('A' as u32) + 10
        }
    }
}

/// How many leading characters are whitespace other than a line break.
pub open spec fn spec_skip_ws(s: Seq<char>) -> int
    decreases s.len(),
{
    if s.len() > 0 && is_space(s[0]) && s[0] != '\n' && s[0] != '\r' {
        1 + spec_skip_ws(s.drop_first())
    } else {
        0
    }
}

/// Fold the digits under the radix onto `acc`, one leading digit at
/// least, stopping before the first non-digit; `None` when the value
/// outgrows an i64.
pub open spec fn spec_int_digits(s: Seq<char>, r: Radix, acc: int) -> (Option<(int, int)>)
    decreases s.len(),
{
    if s.len() == 0 || spec_digit_val(r, s[0]) is None {
        Some((acc, 0))
    } else {
        let v = acc * spec_radix_val(r) + spec_digit_val(r, s[0])->Some_0;
        if v > i64::MAX {
            None
        } else {
            match spec_int_digits(s.drop_first(), r, v) {
                Some(p) => Some((p.0, p.1 + 1)),
                None => None,
            }
        }
    }
}

/// The token an integer parse yields from the digit run of `s` under
/// the radix, with the count of characters taken: an overflow, a
/// missing first digit, or the value.
pub open spec fn spec_lex_int(s: Seq<char>, r: Radix, negative: bool) -> Result<
    (int, int),
    LexerErrorKind,
> {
    if s.len() == 0 || spec_digit_val(r, s[0]) is None {
        Err(
            LexerErrorKind::Unexpected {
                expected: spec_digit_rule(r),
                got: Expectation::Eof,
            },
        )
    } else {
        match spec_int_digits(s, r, 0) {
            None => Err(LexerErrorKind::IntOverflow),
            Some(p) => Ok((if negative { -p.0 } else { p.0 }, p.1)),
        }
    }
}

/// The rule named in a missing-digit error.
pub open spec fn spec_digit_rule(r: Radix) -> Expectation {
    match r {
        Radix::Binary => Expectation::Regex("[01]+"),
        Radix::Octal => Expectation::Regex("[0-7]+"),
        Radix::Decimal => Expectation::Regex("\\d+"),
        Radix::Hexadecimal => Expectation::Regex("[\\da-fA-F]+"),
    }
}

/// The radix a literal names behind `0`, with the characters the
/// prefix takes.
pub open spec fn spec_radix_prefix(s: Seq<char>) -> (Radix, int) {
    if s.len() >= 2 && s[0] == '0' && s[1] == 'b' {
        (Radix::Binary, 2)
    } else if s.len() >= 2 && s[0] == '0' && s[1] == 'o' {
        (Radix::Octal, 2)
    } else if s.len() >= 2 && s[0] == '0' && s[1] == 'd' {
        (Radix::Decimal, 2)
    } else if s.len() >= 2 && s[0] == '0' && s[1] == 'x' {
        (Radix::Hexadecimal, 2)
    } else {
        (Radix::Decimal, 0)
    }
}

/// What one escape inside a quoted string stands for.
pub open spec fn spec_string_escape(c: char) -> Option<char> {
    if c == 'n' {
        Some('\n')
    } else if c == 'r' {
        Some('\r')
    } else if c == 't' {
        Some('\t')
    } else if c == '"' {
        Some('"')
    } else if c == '\'' {
        Some('\'')
    } else if c == '\\' {
        Some('\\')
    } else {
        None
    }
}

/// The body of a quoted string from `s` (after the opening quote): the
/// unescaped text and the count of characters taken, closing quote
/// included, or the failure.
pub open spec fn spec_lex_string(s: Seq<char>) -> Result<(Seq<char>, int), LexerErrorKind>
    decreases s.len(),
{
    if s.len() == 0 {
        Err(
            LexerErrorKind::Unexpected {
                expected: Expectation::Regex("[^\\\\\"]|(\\\\[nrt\"\\\\])"),
                got: Expectation::Eof,
            },
        )
    } else if s[0] == '"' {
        Ok((Seq::empty(), 1))
    } else if s[0] == '\\' {
        if s.len() == 1 {
            Err(
                LexerErrorKind::Unexpected {
                    expected: Expectation::Regex("[nrt\"\\\\]"),
                    got: Expectation::Eof,
                },
            )
        } else {
            match spec_string_escape(s[1]) {
                None => Err(
                    LexerErrorKind::Unexpected {
                        expected: Expectation::Regex("[nrt\"\\\\]"),
                        got: Expectation::Char(s[1]),
                    },
                ),
                Some(e) => match spec_lex_string(s.skip(2)) {
                    Ok(p) => Ok((seq![e] + p.0, 2 + p.1)),
                    Err(k) => Err(k),
                },
            }
        }
    } else {
        match spec_lex_string(s.drop_first()) {
            Ok(p) => Ok((seq![s[0]] + p.0, 1 + p.1)),
            Err(k) => Err(k),
        }
    }
}

/// How many leading characters continue an identifier.
pub open spec fn spec_skip_xid(s: Seq<char>) -> int
    decreases s.len(),
{
    if s.len() > 0 && xid_continue(s[0]) {
        1 + spec_skip_xid(s.drop_first())
    } else {
        0
    }
}

/// A token at specification level.
pub ghost enum TokRep {
    NewLine,
    LBrace,
    RBrace,
    Assign,
    Comma,
    BoolT(bool),
    IntT(int),
    IdentT(Seq<char>),
    StrT(Seq<char>),
}

/// What one lexing step yields, on the input with leading whitespace
/// already dropped: nothing at the end of the input, or a token and
/// the count of characters it takes, or a failure.
pub ghost enum LexOut {
    End,
    Tok(TokRep, int),
    Fail(LexerErrorKind),
}

/// One token from the head of `t`, which starts at a non-blank
/// character.
pub open spec fn spec_lex_token(t: Seq<char>) -> LexOut {
    if t.len() == 0 {
        LexOut::End
    } else if t[0] == '[' {
        LexOut::Tok(TokRep::LBrace, 1)
    } else if t[0] == ']' {
        LexOut::Tok(TokRep::RBrace, 1)
    } else if t[0] == '=' {
        LexOut::Tok(TokRep::Assign, 1)
    } else if t[0] == ',' {
        LexOut::Tok(TokRep::Comma, 1)
    } else if t[0] == '\n' {
        LexOut::Tok(TokRep::NewLine, 1)
    } else if t[0] == '\r' {
        if t.len() >= 2 && t[1] == '\n' {
            LexOut::Tok(TokRep::NewLine, 2)
        } else if t.len() >= 2 {
            LexOut::Fail(
                LexerErrorKind::Unexpected {
                    expected: Expectation::Regex("\\n"),
                    got: Expectation::Char(t[1]),
                },
            )
        } else {
            LexOut::Fail(
                LexerErrorKind::Unexpected {
                    expected: Expectation::Regex("\\n"),
                    got: Expectation::Eof,
                },
            )
        }
    } else if t[0] == '-' || t[0] == '+' {
        let (radix, plen) = spec_radix_prefix(t.skip(1));
        match spec_lex_int(t.skip(1 + plen), radix, t[0] == '-') {
            Ok(p) => LexOut::Tok(TokRep::IntT(p.0), 1 + plen + p.1),
            Err(k) => LexOut::Fail(k),
        }
    } else if '0' <= t[0] && t[0] <= '9' {
        let (radix, plen) = spec_radix_prefix(t);
        match spec_lex_int(t.skip(plen), radix, false) {
            Ok(p) => LexOut::Tok(TokRep::IntT(p.0), plen + p.1),
            Err(k) => LexOut::Fail(k),
        }
    } else if xid_start(t[0]) {
        let k = 1 + spec_skip_xid(t.skip(1));
        let word = t.take(k);
        if word == "true"@ {
            LexOut::Tok(TokRep::BoolT(true), k)
        } else if word == "false"@ {
            LexOut::Tok(TokRep::BoolT(false), k)
        } else {
            LexOut::Tok(TokRep::IdentT(word), k)
        }
    } else if t[0] == '"' {
        match spec_lex_string(t.skip(1)) {
            Ok(p) => LexOut::Tok(TokRep::StrT(p.0), 1 + p.1),
            Err(k) => LexOut::Fail(k),
        }
    } else {
        LexOut::Fail(
            LexerErrorKind::Unexpected {
                expected: Expectation::Regex("[\\[\\]=,\\n\\r-+0-9\\p{XID_Start}\"]"),
                got: Expectation::Char(t[0]),
            },
        )
    }
}

/// Whether an exec token is the one the lexing step names.
pub open spec fn token_matches(t: Token, rep: TokRep) -> bool {
    match (t, rep) {
        (Token::NewLine, TokRep::NewLine) => true,
        (Token::LBrace, TokRep::LBrace) => true,
        (Token::RBrace, TokRep::RBrace) => true,
        (Token::Assign, TokRep::Assign) => true,
        (Token::Comma, TokRep::Comma) => true,
        (Token::Bool(a), TokRep::BoolT(b)) => a == b,
        (Token::Int(a), TokRep::IntT(b)) => a as int == b,
        (Token::Ident(a), TokRep::IdentT(b)) => a@ == b,
        (Token::Str(a), TokRep::StrT(b)) => a@ == b,
        _ => false,
    }
}

/// Whether the two error kinds say the same thing.
pub open spec fn err_kind_matches(e: LexerErrorKind, k: LexerErrorKind) -> bool {
    match (e, k) {
        (LexerErrorKind::IntOverflow, LexerErrorKind::IntOverflow) => true,
        (
            LexerErrorKind::Unexpected { expected: a, got: b },
            LexerErrorKind::Unexpected { expected: c, got: d },
        ) => exp_matches(a, c) && exp_matches(b, d),
        _ => false,
    }
}

/// Whether the two expectations say the same thing.
pub open spec fn exp_matches(a: Expectation, b: Expectation) -> bool {
    match (a, b) {
        (Expectation::Eof, Expectation::Eof) => true,
        (Expectation::Char(x), Expectation::Char(y)) => x == y,
        (Expectation::Regex(x), Expectation::Regex(y)) => x@ == y@,
        _ => false,
    }
}

/// Walks a source text and hands out one token per call.
#[derive(Clone, Copy, Debug)]
pub struct Lexer<'src> {
    src: &'src str,
    pos: usize,
    line: usize,
}

impl<'src> Lexer<'src> {
    /// The whole source text.
    pub closed spec fn spec_src(self) -> Seq<char> {
        self.src@
    }

    /// How far the walk has come, in characters.
    pub closed spec fn spec_pos(self) -> int {
        self.pos as int
    }

    /// How many line breaks the walk has passed.
    pub closed spec fn spec_line(self) -> int {
        self.line as int
    }

    /// The walk never leaves the text, and cannot have passed more
    /// breaks than characters.
    pub open spec fn wf(self) -> bool {
        0 <= self.spec_pos() <= self.spec_src().len() && 0 <= self.spec_line()
            <= self.spec_pos()
    }

    /// What is left to read.
    pub open spec fn remaining(self) -> Seq<char> {
        self.spec_src().skip(self.spec_pos())
    }

    pub fn new(src: &'src str) -> (r: Lexer<'src>)
        ensures
            r.wf(),
            r.spec_src() == src@,
            r.spec_pos() == 0,
            r.spec_line() == 0,
    {
        Lexer { src, pos: 0, line: 0 }
    }

    /// Read the digits of an integer literal from `start` under the
    /// radix and apply the sign, as [spec_lex_int] says.
    fn next_int_with_radix(&mut self, start: usize, radix: Radix, negative: bool) -> (r: Option<
        Result<Token<'src>, LexerError>,
    >)
        requires
            old(self).wf(),
            old(self).spec_pos() <= start <= old(self).spec_src().len(),
        ensures
            final(self).wf(),
            final(self).spec_src() == old(self).spec_src(),
            final(self).spec_line() == old(self).spec_line(),
            match spec_lex_int(old(self).spec_src().skip(start as int), radix, negative) {
                Ok(p) => (r matches Some(res) && res matches Ok(tok) && token_matches(
                    tok,
                    TokRep::IntT(p.0),
                )) && final(self).spec_pos() == start + p.1,
                Err(k) => (r matches Some(res) && res matches Err(e) && err_kind_matches(
                    e.kind,
                    k,
                ) && e.line == old(self).spec_line()) && final(self).spec_pos() == old(self).spec_pos(),
            },
    {
        let n = self.src.unicode_len();
        let ghost digits = self.src@.skip(start as int);
        if start >= n || !radix.validate(self.src.get_char(start)) {
            proof {
                if start < n {
                    assert(digits[0] == self.src@[start as int]);
                }
            }
            return Some(
                Err(
                    LexerError::new(
                        self.line,
                        LexerErrorKind::Unexpected {
                            expected: radix.digit_rule(),
                            got: Expectation::Eof,
                        },
                    ),
                ),
            );
        }
        let radix_u: u64 = match radix {
            Radix::Binary => 2,
            Radix::Octal => 8,
            Radix::Decimal => 10,
            Radix::Hexadecimal => 16,
        };
        let mut v: u64 = 0;
        let mut j: usize = start;
        proof {
            assert(digits.skip(0) =~= digits);
        }
        while j < n && radix.validate(self.src.get_char(j))
            invariant
                old(self).wf(),
                *self == *old(self),
                n == self.src@.len(),
                start <= j <= n,
                digits == self.src@.skip(start as int),
                v <= i64::MAX as u64,
                radix_u == spec_radix_val(radix),
                spec_int_digits(digits, radix, 0) == (match spec_int_digits(
                    self.src@.skip(start as int).skip(j - start),
                    radix,
                    v as int,
                ) {
                    Some(p) => Some::<(int, int)>((p.0, p.1 + (j - start))),
                    None => None::<(int, int)>,
                }),
            decreases n - j,
        {
            let c = self.src.get_char(j);
            let d = radix.digit_val(c);
            let ghost rest = self.src@.skip(start as int).skip(j - start);
            proof {
                assert(rest[0] == self.src@[j as int]);
                assert(rest.drop_first() =~= self.src@.skip(start as int).skip(j + 1 - start));
            }
            let lim = ((i64::MAX as u64) - (d as u64)) / radix_u;
            if v > lim {
                proof {
                    assert(v as int * spec_radix_val(radix) + d > i64::MAX) by (nonlinear_arith)
                        requires
                            (v as int) > (i64::MAX - (d as int)) / (radix_u as int),
                            radix_u == spec_radix_val(radix),
                            2 <= (radix_u as int) && (radix_u as int) <= 16,
                            (d as int) < (radix_u as int),
                            (v as int) <= i64::MAX,
                    ;
                }
                return Some(Err(LexerError::new(self.line, LexerErrorKind::IntOverflow)));
            }
            proof {
                assert(v as int * spec_radix_val(radix) + d <= i64::MAX) by (nonlinear_arith)
                    requires
                        (v as int) <= (i64::MAX - (d as int)) / (radix_u as int),
                        radix_u == spec_radix_val(radix),
                        2 <= (radix_u as int) && (radix_u as int) <= 16,
                        (d as int) < (radix_u as int),
                ;
            }
            v = v * radix_u + (d as u64);
            j += 1;
        }
        proof {
            let rest = self.src@.skip(start as int).skip(j - start);
            if j < n {
                assert(rest[0] == self.src@[j as int]);
            }
            assert(spec_int_digits(rest, radix, v as int) == Some::<(int, int)>((v as int, 0)));
            assert(digits[0] == self.src@[start as int]);
        }
        let value = if negative {
            -(v as i64)
        } else {
            v as i64
        };
        self.pos = j;
        Some(Ok(Token::Int(value)))
    }

    /// Read an integer literal from `start`: an optional radix prefix,
    /// then its digits.
    fn next_int(&mut self, start: usize, negative: bool) -> (r: Option<
        Result<Token<'src>, LexerError>,
    >)
        requires
            old(self).wf(),
            old(self).spec_pos() <= start <= old(self).spec_src().len(),
        ensures
            final(self).wf(),
            final(self).spec_src() == old(self).spec_src(),
            final(self).spec_line() == old(self).spec_line(),
            ({
                let s = old(self).spec_src().skip(start as int);
                let radix = spec_radix_prefix(s).0;
                let plen = spec_radix_prefix(s).1;
                match spec_lex_int(s.skip(plen), radix, negative) {
                    Ok(p) => (r matches Some(res) && res matches Ok(tok) && token_matches(
                        tok,
                        TokRep::IntT(p.0),
                    )) && final(self).spec_pos() == start + plen + p.1,
                    Err(k) => (r matches Some(res) && res matches Err(e) && err_kind_matches(
                        e.kind,
                        k,
                    ) && e.line == old(self).spec_line()) && final(self).spec_pos() == old(self).spec_pos(),
                }
            }),
    {
        let n = self.src.unicode_len();
        let ghost s = self.src@.skip(start as int);
        let mut radix = Radix::Decimal;
        let mut plen: usize = 0;
        if start < n && start + 1 < n && self.src.get_char(start) == '0' {
            let c = self.src.get_char(start + 1);
            proof {
                assert(s[0] == self.src@[start as int]);
                assert(s[1] == self.src@[start as int + 1]);
            }
            if c == 'b' {
                radix = Radix::Binary;
                plen = 2;
            } else if c == 'o' {
                radix = Radix::Octal;
                plen = 2;
            } else if c == 'd' {
                radix = Radix::Decimal;
                plen = 2;
            } else if c == 'x' {
                radix = Radix::Hexadecimal;
                plen = 2;
            }
        }
        proof {
            if s.len() >= 2 {
                assert(s[0] == self.src@[start as int]);
                assert(s[1] == self.src@[start as int + 1]);
            }
            assert(s.skip(plen as int) =~= self.src@.skip(start + plen));
        }
        self.next_int_with_radix(start + plen, radix, negative)
    }
}

impl<'src> Lexer<'src> {
    /// The next token: leading blanks (but not line breaks) skipped,
    /// then one token as [spec_lex_token] says; `None` at the end of
    /// the text, an error on malformed input, which leaves the walk
    /// where the skipped blanks ended.
    #[verifier::rlimit(100)]
    #[verifier::spinoff_prover]
    pub fn next(&mut self) -> (r: Option<Result<Token<'src>, LexerError>>)
        requires
            old(self).wf(),
        ensures
            final(self).wf(),
            final(self).spec_src() == old(self).spec_src(),
            ({
                let rem = old(self).remaining();
                let k = spec_skip_ws(rem);
                let t = rem.skip(k);
                match spec_lex_token(t) {
                    LexOut::End => r is None && final(self).spec_pos() == old(self).spec_src().len() && final(self).spec_line() == old(self).spec_line(),
                    LexOut::Tok(rep, c) => (r matches Some(res) && res matches Ok(tok)
                        && token_matches(tok, rep)) && final(self).spec_pos() == old(self).spec_pos() + k + c && final(self).spec_line() == old(self).spec_line() + (
                    if rep is NewLine {
                        1int
                    } else {
                        0int
                    }),
                    LexOut::Fail(kind) => (r matches Some(res) && res matches Err(e)
                        && err_kind_matches(e.kind, kind) && e.line == old(self).spec_line())
                        && final(self).spec_pos() == old(self).spec_pos() + k && final(self).spec_line() == old(self).spec_line(),
                }
            }),
    {
        proof {
            reveal_strlit("\\n");
            reveal_strlit("[nrt\"\\\\]");
            reveal_strlit("[^\\\\\"]|(\\\\[nrt\"\\\\])");
            reveal_strlit("[\\[\\]=,\\n\\r-+0-9\\p{XID_Start}\"]");
            reveal_strlit("true");
            reveal_strlit("false");
        }
        let n = self.src.unicode_len();
        let ghost rem = self.remaining();
        let ghost pos0 = self.spec_pos();
        let mut i: usize = self.pos;
        proof {
            assert(rem.skip(0) =~= rem);
        }
        while i < n && is_whitespace_char(self.src.get_char(i)) && self.src.get_char(i) != '\n'
            && self.src.get_char(i) != '\r'
            invariant
                *self == *old(self),
                old(self).wf(),
                n == self.src@.len(),
                pos0 == self.spec_pos(),
                rem == self.remaining(),
                pos0 <= i <= n,
                spec_skip_ws(rem) == i - pos0 + spec_skip_ws(self.src@.skip(i as int)),
            decreases n - i,
        {
            proof {
                let t = self.src@.skip(i as int);
                assert(t[0] == self.src@[i as int]);
                assert(t.drop_first() =~= self.src@.skip(i + 1));
            }
            i += 1;
        }
        proof {
            let t = self.src@.skip(i as int);
            if i < n {
                assert(t[0] == self.src@[i as int]);
            }
            assert(spec_skip_ws(t) == 0);
            assert(rem.skip(spec_skip_ws(rem)) =~= self.src@.skip(i as int));
        }
        self.pos = i;
        let ghost t = self.src@.skip(i as int);
        if i >= n {
            self.pos = n;
            proof {
                assert(t =~= Seq::<char>::empty());
            }
            return None;
        }
        let c = self.src.get_char(i);
        proof {
            assert(t[0] == self.src@[i as int]);
        }
        if c == '[' {
            self.pos = i + 1;
            return Some(Ok(Token::LBrace));
        }
        if c == ']' {
            self.pos = i + 1;
            return Some(Ok(Token::RBrace));
        }
        if c == '=' {
            self.pos = i + 1;
            return Some(Ok(Token::Assign));
        }
        if c == ',' {
            self.pos = i + 1;
            return Some(Ok(Token::Comma));
        }
        if c == '\n' {
            self.pos = i + 1;
            self.line = self.line + 1;
            return Some(Ok(Token::NewLine));
        }
        if c == '\r' {
            if i + 1 < n {
                let c2 = self.src.get_char(i + 1);
                proof {
                    assert(t[1] == self.src@[i as int + 1]);
                }
                if c2 == '\n' {
                    self.pos = i + 2;
                    self.line = self.line + 1;
                    return Some(Ok(Token::NewLine));
                }
                return Some(
                    Err(
                        LexerError::new(
                            self.line,
                            LexerErrorKind::Unexpected {
                                expected: Expectation::Regex("\\n"),
                                got: Expectation::Char(c2),
                            },
                        ),
                    ),
                );
            }
            return Some(
                Err(
                    LexerError::new(
                        self.line,
                        LexerErrorKind::Unexpected {
                            expected: Expectation::Regex("\\n"),
                            got: Expectation::Eof,
                        },
                    ),
                ),
            );
        }
        if c == '-' || c == '+' {
            proof {
                assert(t.skip(1) =~= self.src@.skip(i + 1));
            }
            let r = self.next_int(i + 1, c == '-');
            proof {
                let s1 = t.skip(1);
                let plen = spec_radix_prefix(s1).1;
                assert(plen == 0 || plen == 2);
                assert(s1.len() >= 2 ==> plen <= s1.len());
                assert(s1.skip(plen) =~= t.skip(1 + plen));
            }
            return r;
        }
        if '0' <= c && c <= '9' {
            proof {
                assert(t.skip(0) =~= t);
            }
            return self.next_int(i, false);
        }
        if is_xid_start_char(c) {
            let mut j: usize = i + 1;
            proof {
                assert(t.skip(1) =~= self.src@.skip(i + 1));
            }
            while j < n && is_xid_continue_char(self.src.get_char(j))
                invariant
                    self.spec_src() == old(self).spec_src(),
                    self.spec_pos() == i as int,
                    self.spec_line() == old(self).spec_line(),
                    old(self).wf(),
                    pos0 == old(self).spec_pos(),
                    n == self.src@.len(),
                    t == self.src@.skip(i as int),
                    pos0 <= i < j,
                    j <= n,
                    i < n,
                    spec_skip_xid(t.skip(1)) == j - i - 1 + spec_skip_xid(
                        self.src@.skip(j as int),
                    ),
                decreases n - j,
            {
                proof {
                    let u = self.src@.skip(j as int);
                    assert(u[0] == self.src@[j as int]);
                    assert(u.drop_first() =~= self.src@.skip(j + 1));
                }
                j += 1;
            }
            proof {
                let u = self.src@.skip(j as int);
                if j < n {
                    assert(u[0] == self.src@[j as int]);
                }
                assert(spec_skip_xid(u) == 0);
            }
            let word = self.src.substring_char(i, j);
            proof {
                assert(word@ =~= t.take(1 + spec_skip_xid(t.skip(1))));
            }
            self.pos = j;
            if crate::config::opts::str_eq(word, "true") {
                return Some(Ok(Token::Bool(true)));
            }
            if crate::config::opts::str_eq(word, "false") {
                return Some(Ok(Token::Bool(false)));
            }
            return Some(Ok(Token::Ident(word)));
        }
        if c == '"' {
            let mut text: Vec<char> = Vec::new();
            let mut j: usize = i + 1;
            proof {
                assert(t.skip(1) =~= self.src@.skip(i + 1));
            }
            loop
                invariant
                    self.spec_src() == old(self).spec_src(),
                    self.spec_pos() == i as int,
                    self.spec_line() == old(self).spec_line(),
                    old(self).wf(),
                    pos0 == old(self).spec_pos(),
                    rem == old(self).remaining(),
                    i == pos0 + spec_skip_ws(rem),
                    n == self.src@.len(),
                    t == self.src@.skip(i as int),
                    t == rem.skip(spec_skip_ws(rem)),
                    t.len() > 0 && t[0] == '"',
                    !xid_start(t[0]),
                    pos0 <= i < j,
                    j <= n,
                    i < n,
                    match spec_lex_string(self.src@.skip(j as int)) {
                        Ok(p) => spec_lex_string(t.skip(1)) == Ok::<(Seq<char>, int), LexerErrorKind>(
                            (text@ + p.0, j - i - 1 + p.1),
                        ),
                        Err(k) => spec_lex_string(t.skip(1)) == Err::<
                            (Seq<char>, int),
                            LexerErrorKind,
                        >(k),
                    },
                decreases n - j,
            {
                let ghost u = self.src@.skip(j as int);
                let ghost old_text = text@;
                if j >= n {
                    proof {
                        assert(u =~= Seq::<char>::empty());
                        assert(spec_lex_string(self.src@.skip(j as int)) is Err);
                        assert(spec_lex_string(t.skip(1)) is Err);
                        assert(spec_lex_token(t) is Fail);
                        assert(spec_lex_token(t)->Fail_0 == spec_lex_string(t.skip(1))->Err_0);
                    }
                    return Some(
                        Err(
                            LexerError::new(
                                self.line,
                                LexerErrorKind::Unexpected {
                                    expected: Expectation::Regex(
                                        "[^\\\\\"]|(\\\\[nrt\"\\\\])",
                                    ),
                                    got: Expectation::Eof,
                                },
                            ),
                        ),
                    );
                }
                let ch = self.src.get_char(j);
                proof {
                    assert(u[0] == self.src@[j as int]);
                }
                if ch == '"' {
                    proof {
                        assert(old_text + Seq::<char>::empty() =~= old_text);
                    }
                    self.pos = j + 1;
                    let s = crate::config::key::chars_string(&text);
                    return Some(Ok(Token::Str(s)));
                }
                if ch == '\\' {
                    if j + 1 >= n {
                        proof {
                            assert(u.len() == 1);
                        }
                        return Some(
                            Err(
                                LexerError::new(
                                    self.line,
                                    LexerErrorKind::Unexpected {
                                        expected: Expectation::Regex("[nrt\"\\\\]"),
                                        got: Expectation::Eof,
                                    },
                                ),
                            ),
                        );
                    }
                    let e = self.src.get_char(j + 1);
                    proof {
                        assert(u[1] == self.src@[j as int + 1]);
                        assert(u.skip(2) =~= self.src@.skip(j + 2));
                    }
                    let unescaped = if e == 'n' {
                        Some('\n')
                    } else if e == 'r' {
                        Some('\r')
                    } else if e == 't' {
                        Some('\t')
                    } else if e == '"' {
                        Some('"')
                    } else if e == '\'' {
                        Some('\'')
                    } else if e == '\\' {
                        Some('\\')
                    } else {
                        None
                    };
                    match unescaped {
                        None => {
                            return Some(
                                Err(
                                    LexerError::new(
                                        self.line,
                                        LexerErrorKind::Unexpected {
                                            expected: Expectation::Regex("[nrt\"\\\\]"),
                                            got: Expectation::Char(e),
                                        },
                                    ),
                                ),
                            );
                        },
                        Some(x) => {
                            text.push(x);
                            j += 2;
                            proof {
                                match spec_lex_string(self.src@.skip(j as int)) {
                                    Ok(p) => {
                                        assert(old_text + (seq![x] + p.0) =~= text@ + p.0);
                                    },
                                    Err(_) => {},
                                }
                            }
                        },
                    }
                } else {
                    text.push(ch);
                    j += 1;
                    proof {
                        assert(u.drop_first() =~= self.src@.skip(j as int));
                        match spec_lex_string(self.src@.skip(j as int)) {
                            Ok(p) => {
                                assert(old_text + (seq![u[0]] + p.0) =~= text@ + p.0);
                            },
                            Err(_) => {},
                        }
                    }
                }
            }
        }
        Some(
            Err(
                LexerError::new(
                    self.line,
                    LexerErrorKind::Unexpected {
                        expected: Expectation::Regex(
                            "[\\[\\]=,\\n\\r-+0-9\\p{XID_Start}\"]",
                        ),
                        got: Expectation::Char(c),
                    },
                ),
            ),
        )
    }
}

/// A token takes at least one character and never outruns the input.
pub proof fn lemma_lex_token_bounds(t: Seq<char>)
    ensures
        spec_lex_token(t) matches LexOut::Tok(rep, c) ==> 1 <= c <= t.len(),
{
    if t.len() > 0 {
        if t[0] == '-' || t[0] == '+' {
            let pre = spec_radix_prefix(t.skip(1));
            lemma_int_digits_bounds(t.skip(1 + pre.1), pre.0, 0);
        } else if '0' <= t[0] && t[0] <= '9' {
            let pre = spec_radix_prefix(t);
            lemma_int_digits_bounds(t.skip(pre.1), pre.0, 0);
        } else if !is_special_head(t) && xid_start(t[0]) {
            lemma_skip_xid_bounds(t.skip(1));
        } else if !is_special_head(t) && t[0] == '"' {
            lemma_lex_string_bounds(t.skip(1));
        }
    }
}

/// Whether the head is one of the single-character tokens or a break.
spec fn is_special_head(t: Seq<char>) -> bool {
    t.len() > 0 && (t[0] == '[' || t[0] == ']' || t[0] == '=' || t[0] == ',' || t[0] == '\n'
        || t[0] == '\r' || t[0] == '-' || t[0] == '+' || ('0' <= t[0] && t[0] <= '9'))
}

/// Digit folding never outruns the input.
pub proof fn lemma_int_digits_bounds(s: Seq<char>, r: Radix, acc: int)
    ensures
        spec_int_digits(s, r, acc) matches Some(p) ==> 0 <= p.1 <= s.len(),
        s.len() > 0 && spec_digit_val(r, s[0]) is Some ==> (spec_int_digits(s, r, acc) matches Some(
            p,
        ) ==> p.1 >= 1),
    decreases s.len(),
{
    if s.len() > 0 && spec_digit_val(r, s[0]) is Some {
        let v = acc * spec_radix_val(r) + spec_digit_val(r, s[0])->Some_0;
        if v <= i64::MAX {
            lemma_int_digits_bounds(s.drop_first(), r, v);
        }
    }
}

/// Identifier skipping never outruns the input.
pub proof fn lemma_skip_xid_bounds(s: Seq<char>)
    ensures
        0 <= spec_skip_xid(s) <= s.len(),
    decreases s.len(),
{
    if s.len() > 0 && xid_continue(s[0]) {
        lemma_skip_xid_bounds(s.drop_first());
    }
}

/// A quoted string body never outruns the input.
pub proof fn lemma_lex_string_bounds(s: Seq<char>)
    ensures
        spec_lex_string(s) matches Ok(p) ==> 1 <= p.1 <= s.len(),
    decreases s.len(),
{
    if s.len() > 0 && s[0] != '"' {
        if s[0] == '\\' {
            if s.len() > 1 && spec_string_escape(s[1]) is Some {
                lemma_lex_string_bounds(s.skip(2));
            }
        } else {
            lemma_lex_string_bounds(s.drop_first());
        }
    }
}

} // verus!
