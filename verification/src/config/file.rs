//! Conf file reading: the lexer that turns text into tokens, and the
//! parser that turns tokens into instructions.

pub mod lexer;

use vstd::prelude::*;

use lexer::{
    is_space, spec_lex_token, spec_skip_ws, token_matches, LexOut, Lexer, LexerError,
    LexerErrorKind, TokRep, Token,
};

verus! {

broadcast use vstd::group_vstd_default;

/// A value a configuration instruction carries.
#[derive(Debug)]
pub enum Literal {
    Bool(bool),
    Int(i64),
    Str(String),
}

/// One configuration instruction: a name set to a value, or to an
/// array of values.
#[derive(Debug)]
pub enum Instruction<'src> {
    Array(&'src str, Vec<Literal>),
    Literal(&'src str, Literal),
}

/// The kinds of token an error can name.
#[derive(Clone, Copy, Debug)]
pub enum TokenTy {
    Assign,
    Comma,
    Eof,
    Ident,
    LBrace,
    Literal,
    NewLine,
    RBrace,
    Choice(&'static [TokenTy]),
}

/// Why the parser stopped: the lexer stopped, or a token stood where
/// another was expected.
#[derive(Debug)]
pub enum ParserError {
    Lexer(LexerError),
    Unexpected { expected: TokenTy, got: TokenTy },
}

/// A literal at specification level.
pub ghost enum LitRep {
    B(bool),
    I(int),
    S(Seq<char>),
}

/// An instruction at specification level.
pub ghost enum InstRep {
    ArrR(Seq<char>, Seq<LitRep>),
    LitR(Seq<char>, LitRep),
}

/// Why the parser stopped, at specification level: the lexer's fault,
/// or the kind of token that stood in the way.
pub ghost enum PFault {
    Lex(LexerErrorKind),
    Unexp(TokRep),
    /// The text ended where an array wanted more.
    Ended,
}

/// What one parsing step sees at `s`: the token after leading blanks,
/// with all the characters the step takes.
pub open spec fn spec_lex1(s: Seq<char>) -> (LexOut, int) {
    let k = spec_skip_ws(s);
    let t = s.skip(k);
    (
        spec_lex_token(t),
        match spec_lex_token(t) {
            LexOut::Tok(rep, c) => k + c,
            _ => k,
        },
    )
}

/// Whether the token is a literal.
pub open spec fn is_lit(rep: TokRep) -> bool {
    rep is BoolT || rep is IntT || rep is StrT
}

/// The literal a token carries.
pub open spec fn lit_of(rep: TokRep) -> LitRep {
    match rep {
        TokRep::BoolT(b) => LitRep::B(b),
        TokRep::IntT(i) => LitRep::I(i),
        TokRep::StrT(t) => LitRep::S(t),
        _ => LitRep::B(false),
    }
}

/// One token consumes at least one character past the blanks.
pub proof fn lemma_lex1_bounds(s: Seq<char>)
    ensures
        0 <= spec_skip_ws(s) <= s.len(),
        spec_lex1(s).0 matches LexOut::Tok(rep, c) ==> 1 <= c && spec_lex1(s).1 > spec_skip_ws(s)
            && spec_lex1(s).1 <= s.len(),
        !(spec_lex1(s).0 is Tok) ==> spec_lex1(s).1 == spec_skip_ws(s),
    decreases s.len(),
{
    if s.len() > 0 && is_space(s[0]) && s[0] != '\n' && s[0] != '\r' {
        lemma_lex1_bounds(s.drop_first());
        assert(s.skip(spec_skip_ws(s)) =~= s.drop_first().skip(spec_skip_ws(s.drop_first())));
    } else {
        let t = s.skip(spec_skip_ws(s));
        match spec_lex_token(t) {
            LexOut::Tok(rep, c) => {
                lexer::lemma_lex_token_bounds(t);
            },
            _ => {},
        }
    }
}

/// The items of an array, after its opening bracket: literals split by
/// commas, closed by a bracket, line breaks skipped throughout.
pub open spec fn spec_array_items(s: Seq<char>, want_item: bool) -> Result<
    (Seq<LitRep>, int),
    PFault,
>
    decreases s.len(), 0int,
    via spec_array_items_dec
{
    let (out, c) = spec_lex1(s);
    match out {
        LexOut::End => Err(PFault::Ended),
        LexOut::Fail(k) => Err(PFault::Lex(k)),
        LexOut::Tok(rep, _) => if rep is NewLine {
            match spec_array_items(s.skip(c), want_item) {
                Ok(p) => Ok((p.0, c + p.1)),
                Err(f) => Err(f),
            }
        } else if want_item {
            if rep is RBrace {
                Ok((Seq::empty(), c))
            } else if is_lit(rep) {
                match spec_array_sep(s.skip(c)) {
                    Ok(p) => Ok((seq![lit_of(rep)] + p.0, c + p.1)),
                    Err(f) => Err(f),
                }
            } else {
                Err(PFault::Unexp(rep))
            }
        } else {
            // a separator is wanted
            if rep is RBrace {
                Ok((Seq::empty(), c))
            } else if rep is Comma {
                match spec_array_items(s.skip(c), true) {
                    Ok(p) => Ok((p.0, c + p.1)),
                    Err(f) => Err(f),
                }
            } else {
                Err(PFault::Unexp(rep))
            }
        },
    }
}

/// The continuation after one array item.
pub open spec fn spec_array_sep(s: Seq<char>) -> Result<(Seq<LitRep>, int), PFault>
    decreases s.len(), 1int,
{
    spec_array_items(s, false)
}

#[via_fn]
proof fn spec_array_items_dec(s: Seq<char>, want_item: bool) {
    lemma_lex1_bounds(s);
}

/// What ends an instruction: the end of the text or a line break.
pub open spec fn spec_line_end(s: Seq<char>) -> Result<int, PFault> {
    let (out, c) = spec_lex1(s);
    match out {
        LexOut::End => Ok(c),
        LexOut::Fail(k) => Err(PFault::Lex(k)),
        LexOut::Tok(rep, _) => if rep is NewLine {
            Ok(c)
        } else {
            Err(PFault::Unexp(rep))
        },
    }
}

/// One instruction at the head of `s`: a name, `=`, then one literal
/// or a bracketed array, ended by a line break or the end of the text
/// (an array's closing bracket is so ended twice, once inside the
/// array reading and once after it, as the walker works).  `None` when
/// the text has ended, or ends right after the name or the `=`.
pub open spec fn spec_parse_instruction(s: Seq<char>) -> Option<
    Result<(InstRep, int), PFault>,
> {
    let (out1, c1) = spec_lex1(s);
    match out1 {
        LexOut::End => None,
        LexOut::Fail(k) => Some(Err(PFault::Lex(k))),
        LexOut::Tok(rep1, _) => {
            if !(rep1 is IdentT) {
                Some(Err(PFault::Unexp(rep1)))
            } else {
                let name = rep1->IdentT_0;
                let (out2, c2) = spec_lex1(s.skip(c1));
                match out2 {
                    LexOut::End => None,
                    LexOut::Fail(k) => Some(Err(PFault::Lex(k))),
                    LexOut::Tok(rep2, _) => if !(rep2 is Assign) {
                        Some(Err(PFault::Unexp(rep2)))
                    } else {
                        let s3 = s.skip(c1).skip(c2);
                        let (out3, c3) = spec_lex1(s3);
                        match out3 {
                            LexOut::End => None,
                            LexOut::Fail(k) => Some(Err(PFault::Lex(k))),
                            LexOut::Tok(rep3, _) => if is_lit(rep3) {
                                match spec_line_end(s3.skip(c3)) {
                                    Ok(c4) => Some(
                                        Ok(
                                            (
                                                InstRep::LitR(name, lit_of(rep3)),
                                                c1 + c2 + c3 + c4,
                                            ),
                                        ),
                                    ),
                                    Err(f) => Some(Err(f)),
                                }
                            } else if rep3 is LBrace {
                                match spec_array_items(s3.skip(c3), true) {
                                    Err(PFault::Ended) => None,
                                    Err(f) => Some(Err(f)),
                                    Ok(p) => match spec_line_end(s3.skip(c3).skip(p.1)) {
                                        Err(f) => Some(Err(f)),
                                        Ok(c5) => match spec_line_end(
                                            s3.skip(c3).skip(p.1).skip(c5),
                                        ) {
                                            Err(f) => Some(Err(f)),
                                            Ok(c6) => Some(
                                                Ok(
                                                    (
                                                        InstRep::ArrR(name, p.0),
                                                        c1 + c2 + c3 + p.1 + c5 + c6,
                                                    ),
                                                ),
                                            ),
                                        },
                                    },
                                }
                            } else {
                                Some(Err(PFault::Unexp(rep3)))
                            },
                        }
                    },
                }
            }
        },
    }
}

/// The specification-level view of a literal.
pub open spec fn lit_rep(l: Literal) -> LitRep {
    match l {
        Literal::Bool(b) => LitRep::B(b),
        Literal::Int(i) => LitRep::I(i as int),
        Literal::Str(s) => LitRep::S(s@),
    }
}

/// The specification-level view of a run of literals.
pub open spec fn lits_reps(v: Seq<Literal>) -> Seq<LitRep>
    decreases v.len(),
{
    if v.len() == 0 {
        Seq::empty()
    } else {
        seq![lit_rep(v[0])] + lits_reps(v.drop_first())
    }
}

pub proof fn lemma_lits_reps_push(v: Seq<Literal>, l: Literal)
    ensures
        lits_reps(v.push(l)) == lits_reps(v) + seq![lit_rep(l)],
    decreases v.len(),
{
    if v.len() == 0 {
        assert(v.push(l).drop_first() =~= Seq::<Literal>::empty());
        assert(v.push(l)[0] == l);
        assert(lits_reps(v.push(l)) == seq![lit_rep(l)] + lits_reps(Seq::<Literal>::empty()));
        assert(lits_reps(v.push(l)) =~= lits_reps(v) + seq![lit_rep(l)]);
    } else {
        assert(v.push(l).drop_first() =~= v.drop_first().push(l));
        assert(v.push(l)[0] == v[0]);
        lemma_lits_reps_push(v.drop_first(), l);
        assert(lits_reps(v.push(l)) == seq![lit_rep(v[0])] + (lits_reps(v.drop_first()) + seq![
            lit_rep(l),
        ]));
        assert(lits_reps(v.push(l)) =~= lits_reps(v) + seq![lit_rep(l)]);
    }
}

/// Whether an instruction is the one the parse found.
pub open spec fn inst_matches(i: Instruction, rep: InstRep) -> bool {
    match (i, rep) {
        (Instruction::Literal(name, l), InstRep::LitR(n, r)) => name@ == n && lit_rep(l) == r,
        (Instruction::Array(name, ls), InstRep::ArrR(n, rs)) => name@ == n && lits_reps(ls@) == rs,
        _ => false,
    }
}

/// The error kind a token stands for.
pub open spec fn ty_rep_of(rep: TokRep) -> TokenTy {
    match rep {
        TokRep::NewLine => TokenTy::NewLine,
        TokRep::LBrace => TokenTy::LBrace,
        TokRep::RBrace => TokenTy::RBrace,
        TokRep::Assign => TokenTy::Assign,
        TokRep::Comma => TokenTy::Comma,
        TokRep::BoolT(_) => TokenTy::Literal,
        TokRep::IntT(_) => TokenTy::Literal,
        TokRep::IdentT(_) => TokenTy::Ident,
        TokRep::StrT(_) => TokenTy::Literal,
    }
}

/// Whether a reported fault is the one the parse found; an unexpected
/// token is identified by its kind.
pub open spec fn fault_matches(e: ParserError, f: PFault) -> bool {
    match (e, f) {
        (ParserError::Lexer(le), PFault::Lex(k)) => lexer::err_kind_matches(le.kind, k),
        (ParserError::Unexpected { expected, got }, PFault::Unexp(rep)) => got == ty_rep_of(rep),
        _ => false,
    }
}

/// The kind of an exec token.
fn ty_of(token: &Token) -> (r: TokenTy)
    ensures
        forall|rep: TokRep| token_matches(*token, rep) ==> r == ty_rep_of(rep),
{
    match token {
        Token::NewLine => TokenTy::NewLine,
        Token::LBrace => TokenTy::LBrace,
        Token::RBrace => TokenTy::RBrace,
        Token::Assign => TokenTy::Assign,
        Token::Comma => TokenTy::Comma,
        Token::Bool(_) => TokenTy::Literal,
        Token::Int(_) => TokenTy::Literal,
        Token::Ident(_) => TokenTy::Ident,
        Token::Str(_) => TokenTy::Literal,
    }
}

/// Walks a text instruction by instruction.
#[derive(Debug)]
pub struct Parser<'src> {
    lexer: Lexer<'src>,
}

impl<'src> Parser<'src> {
    /// The wrapped lexer.
    pub closed spec fn spec_lexer(self) -> Lexer<'src> {
        self.lexer
    }

    /// The walk never leaves the text.
    pub open spec fn wf(self) -> bool {
        self.spec_lexer().wf()
    }

    /// What is left to read.
    pub open spec fn remaining(self) -> Seq<char> {
        self.spec_lexer().remaining()
    }

    pub fn new(src: &'src str) -> (r: Parser<'src>)
        ensures
            r.wf(),
            r.spec_lexer().spec_src() == src@,
            r.spec_lexer().spec_pos() == 0,
    {
        Parser { lexer: Lexer::new(src) }
    }

    /// One step of token reading, as [spec_lex1] says.
    fn next_token(&mut self) -> (r: Option<Result<Token<'src>, LexerError>>)
        requires
            old(self).wf(),
        ensures
            final(self).wf(),
            final(self).spec_lexer().spec_src() == old(self).spec_lexer().spec_src(),
            ({
                let (out, c) = spec_lex1(old(self).remaining());
                match out {
                    LexOut::End => r is None && final(self).remaining().len() == 0,
                    LexOut::Tok(rep, _) => (r matches Some(res) && res matches Ok(tok)
                        && token_matches(tok, rep)) && final(self).spec_lexer().spec_pos() == old(
                        self,
                    ).spec_lexer().spec_pos() + c,
                    LexOut::Fail(k) => (r matches Some(res) && res matches Err(e)
                        && lexer::err_kind_matches(e.kind, k)),
                }
            }),
    {
        self.lexer.next()
    }

    /// The next instruction, as [spec_parse_instruction] says; `None`
    /// once the text has ended (also right after a trailing name or
    /// `=`), an error on malformed text.
    #[verifier::rlimit(100)]
    #[verifier::spinoff_prover]
    pub fn next(&mut self) -> (r: Option<Result<Instruction<'src>, ParserError>>)
        requires
            old(self).wf(),
        ensures
            final(self).wf(),
            final(self).spec_lexer().spec_src() == old(self).spec_lexer().spec_src(),
            match spec_parse_instruction(old(self).remaining()) {
                None => r is None,
                Some(Ok(p)) => (r matches Some(res) && res matches Ok(inst) && inst_matches(
                    inst,
                    p.0,
                )) && final(self).spec_lexer().spec_pos() == old(self).spec_lexer().spec_pos()
                    + p.1,
                Some(Err(f)) => (r matches Some(res) && res matches Err(e) && fault_matches(e, f)),
            },
    {
        let ghost s = self.remaining();
        proof {
            lemma_lex1_bounds(s);
        }
        let name = match self.next_token() {
            None => {
                return None;
            },
            Some(Err(e)) => {
                return Some(Err(ParserError::Lexer(e)));
            },
            Some(Ok(Token::Ident(name))) => name,
            Some(Ok(token)) => {
                return Some(
                    Err(
                        ParserError::Unexpected {
                            expected: TokenTy::Choice(&[TokenTy::LBrace]),
                            got: ty_of(&token),
                        },
                    ),
                );
            },
        };
        let ghost c1 = spec_lex1(s).1;
        proof {
            assert(self.remaining() =~= s.skip(c1));
            lemma_lex1_bounds(s.skip(c1));
        }
        match self.next_token() {
            None => {
                return None;
            },
            Some(Err(e)) => {
                return Some(Err(ParserError::Lexer(e)));
            },
            Some(Ok(Token::Assign)) => {},
            Some(Ok(token)) => {
                return Some(
                    Err(
                        ParserError::Unexpected {
                            expected: TokenTy::Assign,
                            got: ty_of(&token),
                        },
                    ),
                );
            },
        }
        let ghost c2 = spec_lex1(s.skip(c1)).1;
        let ghost s3 = s.skip(c1).skip(c2);
        proof {
            assert(self.remaining() =~= s3);
            lemma_lex1_bounds(s3);
        }
        let instruction = match self.next_token() {
            None => {
                return None;
            },
            Some(Err(e)) => {
                return Some(Err(ParserError::Lexer(e)));
            },
            Some(Ok(Token::Bool(b))) => {
                proof {
                    assert(self.remaining() =~= s3.skip(spec_lex1(s3).1));
                }
                Instruction::Literal(name, Literal::Bool(b))
            },
            Some(Ok(Token::Int(i))) => {
                proof {
                    assert(self.remaining() =~= s3.skip(spec_lex1(s3).1));
                }
                Instruction::Literal(name, Literal::Int(i))
            },
            Some(Ok(Token::Str(t))) => {
                proof {
                    assert(self.remaining() =~= s3.skip(spec_lex1(s3).1));
                }
                Instruction::Literal(name, Literal::Str(t))
            },
            Some(Ok(Token::LBrace)) => {
                let ghost c3 = spec_lex1(s3).1;
                let mut items: Vec<Literal> = Vec::new();
                let ghost arr0 = s3.skip(c3);
                let ghost arr_start = self.spec_lexer().spec_pos();
                let mut want_item = true;
                proof {
                    assert(self.remaining() =~= arr0);
                    assert(lits_reps(items@) =~= Seq::<LitRep>::empty());
                }
                loop
                    invariant_except_break
                        match spec_array_items(self.remaining(), want_item) {
                            Ok(p) => spec_array_items(arr0, true) matches Ok(q) && q.0
                                == lits_reps(items@) + p.0 && q.1 == arr0.len()
                                - self.remaining().len() + p.1,
                            Err(f) => spec_array_items(arr0, true) == Err::<
                                (Seq<LitRep>, int),
                                PFault,
                            >(f),
                        },
                    invariant
                        self.wf(),
                        self.spec_lexer().spec_src() == old(self).spec_lexer().spec_src(),
                        arr0 == s3.skip(spec_lex1(s3).1),
                        s3 == s.skip(spec_lex1(s).1).skip(spec_lex1(s.skip(spec_lex1(s).1)).1),
                        s == old(self).remaining(),
                        spec_lex1(s).0 matches LexOut::Tok(rep1, c) && rep1 is IdentT && name@
                            == rep1->IdentT_0,
                        spec_lex1(s.skip(spec_lex1(s).1)).0 matches LexOut::Tok(rep2, c) && rep2
                            is Assign,
                        spec_lex1(s3).0 matches LexOut::Tok(rep3, c) && rep3 is LBrace,
                        arr0 == self.spec_lexer().spec_src().skip(arr_start),
                        arr_start == old(self).spec_lexer().spec_pos() + spec_lex1(s).1
                            + spec_lex1(s.skip(spec_lex1(s).1)).1 + spec_lex1(s3).1,
                        arr_start <= self.spec_lexer().spec_pos(),
                        0 <= arr_start <= self.spec_lexer().spec_src().len(),
                        arr0.len() >= self.remaining().len(),
                    ensures
                        spec_array_items(arr0, true) matches Ok(q) && q.0 == lits_reps(items@)
                            && self.spec_lexer().spec_pos() == arr_start + q.1,
                    decreases self.remaining().len(), (if want_item {
                        0int
                    } else {
                        1int
                    }),
                {
                    let ghost u = self.remaining();
                    let ghost p0 = self.spec_lexer().spec_pos();
                    proof {
                        lemma_lex1_bounds(u);
                    }
                    let token = match self.next_token() {
                        None => {
                            return None;
                        },
                        Some(Err(e)) => {
                            return Some(Err(ParserError::Lexer(e)));
                        },
                        Some(Ok(token)) => token,
                    };
                    proof {
                        assert(self.remaining() =~= u.skip(spec_lex1(u).1));
                    }
                    match token {
                        Token::NewLine => {
                            continue ;
                        },
                        Token::RBrace => {
                            proof {
                                assert(spec_array_items(u, want_item) == Ok::<
                                    (Seq<LitRep>, int),
                                    PFault,
                                >((Seq::empty(), spec_lex1(u).1)));
                                assert(lits_reps(items@) + Seq::<LitRep>::empty() =~= lits_reps(
                                    items@,
                                ));
                                assert(u.len() == self.spec_lexer().spec_src().len() - p0);
                                assert(arr0.len() - u.len() == p0 - arr_start);
                                assert(self.spec_lexer().spec_pos() == p0 + spec_lex1(u).1);
                            }
                            break ;
                        },
                        token => {
                            if want_item {
                                let lit = match token {
                                    Token::Bool(b) => Literal::Bool(b),
                                    Token::Int(i) => Literal::Int(i),
                                    Token::Str(t) => Literal::Str(t),
                                    token => {
                                        return Some(
                                            Err(
                                                ParserError::Unexpected {
                                                    expected: TokenTy::Choice(
                                                        &[TokenTy::Comma, TokenTy::RBrace],
                                                    ),
                                                    got: ty_of(&token),
                                                },
                                            ),
                                        );
                                    },
                                };
                                let ghost pre = items@;
                                items.push(lit);
                                proof {
                                    lemma_lits_reps_push(pre, lit);
                                    assert(lits_reps(pre) + (seq![lit_rep(lit)]
                                        + spec_array_sep(self.remaining())->Ok_0.0) =~= lits_reps(
                                        items@,
                                    ) + spec_array_sep(self.remaining())->Ok_0.0) by {
                                        if spec_array_sep(self.remaining()) is Ok {
                                        }
                                    }
                                }
                                want_item = false;
                            } else {
                                match token {
                                    Token::Comma => {
                                        want_item = true;
                                    },
                                    token => {
                                        return Some(
                                            Err(
                                                ParserError::Unexpected {
                                                    expected: TokenTy::Choice(
                                                        &[TokenTy::Comma, TokenTy::RBrace],
                                                    ),
                                                    got: ty_of(&token),
                                                },
                                            ),
                                        );
                                    },
                                }
                            }
                        },
                    }
                }
                proof {
                    let q = spec_array_items(arr0, true)->Ok_0;
                    assert(arr0.skip(q.1) =~= self.spec_lexer().spec_src().skip(arr_start + q.1));
                    assert(self.remaining() =~= arr0.skip(q.1));
                    lemma_lex1_bounds(arr0.skip(q.1));
                }
                match self.line_end() {
                    Ok(()) => {},
                    Err(e) => {
                        return Some(Err(e));
                    },
                }
                proof {
                    let q = spec_array_items(arr0, true)->Ok_0;
                    let c5 = spec_line_end(arr0.skip(q.1))->Ok_0;
                    assert(self.remaining() =~= arr0.skip(q.1).skip(c5));
                    lemma_lex1_bounds(arr0.skip(q.1).skip(c5));
                }
                Instruction::Array(name, items)
            },
            Some(Ok(token)) => {
                return Some(
                    Err(
                        ParserError::Unexpected {
                            expected: TokenTy::Choice(&[TokenTy::RBrace, TokenTy::Literal]),
                            got: ty_of(&token),
                        },
                    ),
                );
            },
        };
        match self.line_end() {
            Ok(()) => {},
            Err(e) => {
                return Some(Err(e));
            },
        }
        Some(Ok(instruction))
    }

    /// Consume one line break, or nothing at the end of the text, as
    /// [spec_line_end] says.
    fn line_end(&mut self) -> (r: Result<(), ParserError>)
        requires
            old(self).wf(),
        ensures
            final(self).wf(),
            final(self).spec_lexer().spec_src() == old(self).spec_lexer().spec_src(),
            match spec_line_end(old(self).remaining()) {
                Ok(c) => r is Ok && final(self).spec_lexer().spec_pos() == old(
                    self,
                ).spec_lexer().spec_pos() + c,
                Err(f) => r matches Err(e) && fault_matches(e, f),
            },
    {
        proof {
            lemma_lex1_bounds(old(self).remaining());
        }
        match self.next_token() {
            None => {
                proof {
                    assert(old(self).remaining().len() >= spec_lex1(old(self).remaining()).1);
                }
                Ok(())
            },
            Some(Ok(Token::NewLine)) => Ok(()),
            Some(Ok(token)) => Err(
                ParserError::Unexpected {
                    expected: TokenTy::Choice(&[TokenTy::Eof, TokenTy::NewLine]),
                    got: ty_of(&token),
                },
            ),
            Some(Err(e)) => Err(ParserError::Lexer(e)),
        }
    }
}

} // verus!
