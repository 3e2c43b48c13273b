use crate::lexer::{denotes, lemma_scan_progress, lexemes, scan, Lexeme, Lexer};
use crate::token::Token;
use crate::vm::Instr;
use vstd::prelude::*;

verus! {

/// A syntax error, with the position of the offending token in the token
/// stream (the first token is at 0).
#[derive(Debug, Clone, Copy, PartialEq, Eq, Structural)]
pub enum ParseError {
    /// A number literal that does not fit in `i64`.
    NumberTooLarge(usize),
    /// A token that cannot start an expression.
    UnexpectedToken(usize),
    /// A binary operator for which no instruction exists.
    UnsupportedOperator(usize),
    /// `(` was expected after `printf`.
    ExpectedLParen(usize),
    /// `)` was expected after the argument of `printf`.
    ExpectedRParen(usize),
    /// `;` was expected at the end of a statement.
    ExpectedSemicolon(usize),
    /// A statement that starts with neither `printf` nor `return`.
    UnsupportedStatement(usize),
}

/// How tightly a binary operator binds; 0 for tokens that are no binary
/// operator.
pub open spec fn precedence(t: Token) -> nat {
    match t {
        Token::Assign => 1,
        Token::Lor => 2,
        Token::Lan => 3,
        Token::Or => 4,
        Token::Xor => 5,
        Token::And => 6,
        Token::Eq | Token::Ne => 7,
        Token::Lt | Token::Gt | Token::Le | Token::Ge => 8,
        Token::Shl | Token::Shr => 9,
        Token::Add | Token::Sub => 10,
        Token::Mul | Token::Div | Token::Mod => 11,
        _ => 0,
    }
}

pub open spec fn prec_of(l: Lexeme) -> nat {
    match l {
        Lexeme::Fixed(t) => precedence(t),
        _ => 0,
    }
}

/// The instruction of an arithmetic operator.
pub open spec fn op_instr(l: Lexeme) -> Option<Instr> {
    match l {
        Lexeme::Fixed(Token::Add) => Some(Instr::Add),
        Lexeme::Fixed(Token::Sub) => Some(Instr::Sub),
        Lexeme::Fixed(Token::Mul) => Some(Instr::Mul),
        Lexeme::Fixed(Token::Div) => Some(Instr::Div),
        Lexeme::Fixed(Token::Mod) => Some(Instr::Mod),
        _ => None,
    }
}

/// The token at `i`; the end marker past the end.
pub open spec fn lex_at(ts: Seq<Lexeme>, i: int) -> Lexeme {
    if 0 <= i < ts.len() {
        ts[i]
    } else {
        Lexeme::Fixed(Token::Eof)
    }
}

/// The instruction of a primary expression, the token `l` at `i`.
pub open spec fn primary(l: Lexeme, i: int) -> Result<Instr, ParseError> {
    match l {
        Lexeme::Number(v) => if v <= i64::MAX {
            Ok(Instr::Imm(v as i64))
        } else {
            Err(ParseError::NumberTooLarge(i as usize))
        },
        Lexeme::Word(_) => Ok(Instr::Load),
        Lexeme::Fixed(Token::Num(v)) => Ok(Instr::Imm(v)),
        Lexeme::Fixed(Token::Id(_)) => Ok(Instr::Load),
        Lexeme::Fixed(_) => Err(ParseError::UnexpectedToken(i as usize)),
    }
}

/// Puts `code` in front of the code of a successful parse.
pub open spec fn prepend(code: Seq<Instr>, r: Result<(Seq<Instr>, int), ParseError>) -> Result<
    (Seq<Instr>, int),
    ParseError,
> {
    match r {
        Ok((more, k)) => Ok((code + more, k)),
        Err(e) => Err(e),
    }
}

/// Precedence climbing: the code of the expression that starts at token `i`
/// and takes only operators of precedence `min` or more, and the position
/// of the token after it.
pub open spec fn parse_expr(ts: Seq<Lexeme>, i: int, min: nat) -> Result<
    (Seq<Instr>, int),
    ParseError,
>
    decreases ts.len() - i, 1nat,
{
    if i < 0 || i >= ts.len() {
        Err(ParseError::UnexpectedToken(i as usize))
    } else {
        match primary(ts[i], i) {
            Err(e) => Err(e),
            Ok(ins) => prepend(seq![ins], climb(ts, i + 1, min)),
        }
    }
}

/// The operators from token `j` on of precedence `min` or more, each with
/// its right operand, which binds operators of higher precedence only; so
/// operators of one level associate to the left.
pub open spec fn climb(ts: Seq<Lexeme>, j: int, min: nat) -> Result<(Seq<Instr>, int), ParseError>
    decreases ts.len() - j, 0nat,
{
    if j < 0 || j >= ts.len() || prec_of(ts[j]) < min {
        Ok((seq![], j))
    } else {
        match op_instr(ts[j]) {
            None => Err(ParseError::UnsupportedOperator(j as usize)),
            Some(op) => match parse_expr(ts, j + 1, prec_of(ts[j]) + 1) {
                Err(e) => Err(e),
                Ok((rhs, k)) => if k <= j || k > ts.len() {
                    Ok((seq![], j))
                } else {
                    prepend(rhs.push(op), climb(ts, k, min))
                },
            },
        }
    }
}

/// The statement that starts at token `i`: `printf ( e ) ;` gives the code
/// of `e` and `Prtf`, `return e ;` the code of `e` and `Lev`.
pub open spec fn parse_stmt(ts: Seq<Lexeme>, i: int) -> Result<(Seq<Instr>, int), ParseError> {
    let l = lex_at(ts, i);
    if l == Lexeme::Fixed(Token::Printf) {
        if lex_at(ts, i + 1) != Lexeme::Fixed(Token::LParen) {
            Err(ParseError::ExpectedLParen((i + 1) as usize))
        } else {
            match parse_expr(ts, i + 2, 1) {
                Err(e) => Err(e),
                Ok((code, k)) => if lex_at(ts, k) != Lexeme::Fixed(Token::RParen) {
                    Err(ParseError::ExpectedRParen(k as usize))
                } else if lex_at(ts, k + 1) != Lexeme::Fixed(Token::Semicolon) {
                    Err(ParseError::ExpectedSemicolon((k + 1) as usize))
                } else {
                    Ok((code.push(Instr::Prtf), k + 2))
                },
            }
        }
    } else if l == Lexeme::Fixed(Token::Return) {
        match parse_expr(ts, i + 1, 1) {
            Err(e) => Err(e),
            Ok((code, k)) => if lex_at(ts, k) != Lexeme::Fixed(Token::Semicolon) {
                Err(ParseError::ExpectedSemicolon(k as usize))
            } else {
                Ok((code.push(Instr::Lev), k + 1))
            },
        }
    } else {
        Err(ParseError::UnsupportedStatement(i as usize))
    }
}

/// The statements from token `i` up to the end marker, their code joined in
/// order.
pub open spec fn parse_prog(ts: Seq<Lexeme>, i: int) -> Result<Seq<Instr>, ParseError>
    decreases ts.len() - i,
{
    if i < 0 || i >= ts.len() || ts[i] == Lexeme::Fixed(Token::Eof) {
        Ok(seq![])
    } else {
        match parse_stmt(ts, i) {
            Err(e) => Err(e),
            Ok((code, k)) => if k <= i || k > ts.len() {
                Ok(seq![])
            } else {
                match parse_prog(ts, k) {
                    Err(e) => Err(e),
                    Ok(more) => Ok(code + more),
                }
            },
        }
    }
}

/// The code of a whole source text.
pub open spec fn program_of(source: Seq<char>) -> Result<Seq<Instr>, ParseError> {
    parse_prog(lexemes(source), 0)
}

/// Tokenizing and parsing depend on the source text alone: the same text
/// gives the same token stream and the same program, on every run.
pub proof fn lemma_same_source(first: Seq<char>, second: Seq<char>)
    requires
        first == second,
    ensures
        lexemes(first) == lexemes(second),
        program_of(first) == program_of(second),
{
}

pub proof fn lemma_expr_advances(ts: Seq<Lexeme>, i: int, min: nat)
    ensures
        parse_expr(ts, i, min) matches Ok((_, k)) ==> i < k <= ts.len(),
    decreases ts.len() - i, 1nat,
{
    if 0 <= i < ts.len() {
        lemma_climb_advances(ts, i + 1, min);
    }
}

pub proof fn lemma_climb_advances(ts: Seq<Lexeme>, j: int, min: nat)
    ensures
        climb(ts, j, min) matches Ok((_, k)) ==> j <= k,
        0 <= j <= ts.len() ==> (climb(ts, j, min) matches Ok((_, k)) ==> k <= ts.len()),
    decreases ts.len() - j, 0nat,
{
    if 0 <= j < ts.len() && prec_of(ts[j]) >= min {
        if op_instr(ts[j]) is Some {
            lemma_expr_advances(ts, j + 1, prec_of(ts[j]) + 1);
            if let Ok((_, k)) = parse_expr(ts, j + 1, prec_of(ts[j]) + 1) {
                if j < k <= ts.len() {
                    lemma_climb_advances(ts, k, min);
                }
            }
        }
    }
}

pub proof fn lemma_stmt_advances(ts: Seq<Lexeme>, i: int)
    requires
        0 <= i < ts.len(),
        ts.last() == Lexeme::Fixed(Token::Eof),
    ensures
        parse_stmt(ts, i) matches Ok((_, k)) ==> i < k <= ts.len(),
{
    lemma_expr_advances(ts, i + 1, 1);
    lemma_expr_advances(ts, i + 2, 1);
}

/// The token stream of a source is at most one longer than the source, and
/// ends with the end marker.
pub proof fn lemma_lexemes_shape(s: Seq<char>)
    ensures
        1 <= lexemes(s).len() <= s.len() + 1,
        lexemes(s).last() == Lexeme::Fixed(Token::Eof),
    decreases s.len(),
{
    lemma_scan_progress(s);
    let (l, n) = scan(s);
    if !(l == Lexeme::Fixed(Token::Eof) || n == 0 || n > s.len()) {
        lemma_lexemes_shape(s.skip(n as int));
    }
}

/// The first token of a stream is the one that `scan` finds, and the rest
/// of the stream is that of the text after it.
pub proof fn lemma_lexemes_unfold(s: Seq<char>)
    ensures
        lexemes(s)[0] == scan(s).0,
        scan(s).0 == Lexeme::Fixed(Token::Eof) ==> lexemes(s).len() == 1,
        scan(s).0 != Lexeme::Fixed(Token::Eof) ==> lexemes(s).skip(1) == lexemes(
            s.skip(scan(s).1 as int),
        ),
{
    lemma_scan_progress(s);
    let (l, n) = scan(s);
    if l != Lexeme::Fixed(Token::Eof) {
        assert(lexemes(s) == seq![l] + lexemes(s.skip(n as int)));
        assert(lexemes(s).skip(1) =~= lexemes(s.skip(n as int)));
    }
}

/// How tightly `token` binds as a binary operator; 0 when it is none.
fn get_precedence(token: &Token) -> (r: u8)
    ensures
        r == precedence(*token),
{
    match token {
        Token::Assign => 1,
        Token::Lor => 2,
        Token::Lan => 3,
        Token::Or => 4,
        Token::Xor => 5,
        Token::And => 6,
        Token::Eq | Token::Ne => 7,
        Token::Lt | Token::Gt | Token::Le | Token::Ge => 8,
        Token::Shl | Token::Shr => 9,
        Token::Add | Token::Sub => 10,
        Token::Mul | Token::Div | Token::Mod => 11,
        _ => 0,
    }
}

/// The instruction of an arithmetic operator token.
fn binary_instr(token: &Option<Token>) -> (r: Option<Instr>)
    ensures
        r == match token {
            Some(t) => op_instr(Lexeme::Fixed(*t)),
            None => None,
        },
{
    match token {
        Some(Token::Add) => Some(Instr::Add),
        Some(Token::Sub) => Some(Instr::Sub),
        Some(Token::Mul) => Some(Instr::Mul),
        Some(Token::Div) => Some(Instr::Div),
        Some(Token::Mod) => Some(Instr::Mod),
        _ => None,
    }
}

/// The parser: a token stream, read one token ahead, and the instructions
/// emitted so far.
pub struct Parser {
    pub lexer: Lexer,
    pub current_token: Option<Token>,
    pub instructions: Vec<Instr>,
    /// The position of `current_token` in the token stream.
    pub index: usize,
    /// The whole token stream, from the parser's first token on.
    pub tokens: Ghost<Seq<Lexeme>>,
}

impl Parser {
    pub open spec fn wf(&self) -> bool {
        let ts = self.tokens@;
        &&& self.lexer.wf()
        &&& self.index < ts.len() <= self.lexer.chars.len() + 1
        &&& ts.last() == Lexeme::Fixed(Token::Eof)
        &&& denotes(self.current_token, ts[self.index as int])
        &&& ts[self.index as int] == Lexeme::Fixed(Token::Eof) ==> self.index == ts.len() - 1
        &&& ts[self.index as int] != Lexeme::Fixed(Token::Eof) ==> ts.skip(self.index + 1)
            == lexemes(self.lexer.rest())
    }

    /// The current token, as the grammar sees it.
    pub open spec fn at(&self) -> Lexeme {
        self.tokens@[self.index as int]
    }

    /// Creates a parser over the tokens that `lexer` has still to give, and
    /// reads the first of them.
    pub fn new(lexer: Lexer) -> (r: Parser)
        requires
            lexer.wf(),
        ensures
            r.wf(),
            r.tokens@ == lexemes(lexer.rest()),
            r.index == 0,
            r.instructions@ == Seq::<Instr>::empty(),
    {
        let mut lexer = lexer;
        let ghost s = lexer.rest();
        proof {
            lemma_lexemes_shape(s);
            lemma_scan_progress(s);
            lemma_lexemes_shape(s.skip(scan(s).1 as int));
        }
        let current_token = lexer.next_token();
        proof {
            assert(lexer.rest() =~= s.skip(scan(s).1 as int));
            lemma_lexemes_unfold(s);
        }
        Parser { lexer, current_token, instructions: Vec::new(), index: 0, tokens: Ghost(lexemes(s)) }
    }

    /// Moves to the next token; at the end marker, stays there.
    pub fn advance(&mut self)
        requires
            old(self).wf(),
        ensures
            final(self).wf(),
            final(self).tokens == old(self).tokens,
            final(self).instructions == old(self).instructions,
            final(self).index == if old(self).at() == Lexeme::Fixed(Token::Eof) {
                old(self).index as int
            } else {
                old(self).index + 1
            },
    {
        if let Some(Token::Eof) = self.current_token {
            return;
        }
        let ghost s = self.lexer.rest();
        let ghost ts = self.tokens@;
        proof {
            lemma_scan_progress(s);
        }
        self.current_token = self.lexer.next_token();
        self.index = self.index + 1;
        proof {
            assert(self.lexer.rest() =~= s.skip(scan(s).1 as int));
            lemma_lexemes_unfold(s);
            lemma_lexemes_shape(s);
            assert(ts.skip(self.index + 1) =~= ts.skip(self.index as int).skip(1));
            assert(ts[self.index as int] == ts.skip(self.index as int)[0]);
        }
    }

    /// Parses an expression whose binary operators have precedence
    /// `min_prec` or more, and appends its instructions.
    pub fn parse_expression(&mut self, min_prec: u8) -> (r: Result<(), ParseError>)
        requires
            old(self).wf(),
        ensures
            final(self).wf(),
            final(self).tokens == old(self).tokens,
            match parse_expr(old(self).tokens@, old(self).index as int, min_prec as nat) {
                Ok((code, k)) => r is Ok && final(self).instructions@ == old(self).instructions@
                    + code && final(self).index == k,
                Err(e) => r == Err::<(), ParseError>(e),
            },
        decreases old(self).tokens@.len() - old(self).index,
    {
        let ghost ts = self.tokens@;
        let ghost start = self.index as int;
        let ghost base = self.instructions@;
        match &self.current_token {
            Some(Token::Num(v)) => {
                let v = *v;
                self.instructions.push(Instr::Imm(v));
            },
            Some(Token::Id(_)) => {
                self.instructions.push(Instr::Load);
            },
            None => {
                return Err(ParseError::NumberTooLarge(self.index));
            },
            Some(_) => {
                return Err(ParseError::UnexpectedToken(self.index));
            },
        }
        proof {
            let ins = self.instructions@.last();
            assert(self.instructions@.skip(base.len() as int) =~= seq![ins]);
            assert(primary(ts[start], start) == Ok::<Instr, ParseError>(ins));
        }
        self.advance();
        loop
            invariant
                self.wf(),
                self.tokens@ == ts,
                ts == old(self).tokens@,
                start == old(self).index,
                base == old(self).instructions@,
                start < self.index,
                self.instructions@.len() >= base.len(),
                self.instructions@.take(base.len() as int) == base,
                parse_expr(ts, start, min_prec as nat) == prepend(
                    self.instructions@.skip(base.len() as int),
                    climb(ts, self.index as int, min_prec as nat),
                ),
            ensures
                self.wf(),
                self.tokens@ == ts,
                self.instructions@.take(base.len() as int) == base,
                parse_expr(ts, start, min_prec as nat) == Ok::<(Seq<Instr>, int), ParseError>(
                    (self.instructions@.skip(base.len() as int), self.index as int),
                ),
            decreases ts.len() - self.index,
        {
            let p: u8 = match &self.current_token {
                Some(t) => get_precedence(t),
                None => 0,
            };
            assert(p == prec_of(self.at()));
            if p < min_prec {
                assert(self.instructions@.skip(base.len() as int) + seq![] =~= self.instructions@.skip(
                    base.len() as int,
                ));
                break ;
            }
            let op = match binary_instr(&self.current_token) {
                Some(op) => op,
                None => {
                    return Err(ParseError::UnsupportedOperator(self.index));
                },
            };
            let ghost j = self.index as int;
            let ghost before = self.instructions@;
            self.advance();
            match self.parse_expression(p + 1) {
                Ok(()) => {},
                Err(e) => {
                    return Err(e);
                },
            }
            let ghost rhs = self.instructions@.skip(before.len() as int);
            proof {
                if let Ok((c, k)) = parse_expr(ts, j + 1, (p + 1) as nat) {
                    assert(c =~= rhs);
                }
            }
            self.instructions.push(op);
            proof {
                lemma_expr_advances(ts, j + 1, (p + 1) as nat);
                assert(op_instr(ts[j]) == Some(op));
                assert(parse_expr(ts, j + 1, (p + 1) as nat) == Ok::<(Seq<Instr>, int), ParseError>(
                    (rhs, self.index as int),
                ));
                assert(climb(ts, j, min_prec as nat) == prepend(
                    rhs.push(op),
                    climb(ts, self.index as int, min_prec as nat),
                ));
                assert(self.instructions@.skip(base.len() as int) =~= before.skip(base.len() as int)
                    + rhs.push(op));
                assert(self.instructions@.take(base.len() as int) =~= base);
                if let Ok((more, m)) = climb(ts, self.index as int, min_prec as nat) {
                    assert(before.skip(base.len() as int) + (rhs.push(op) + more) =~= self.instructions@.skip(
                        base.len() as int,
                    ) + more);
                }
            }
        }
        Ok(())
    }

    /// Parses one statement, `printf ( e ) ;` or `return e ;`, and appends
    /// its instructions.
    pub fn parse_statement(&mut self) -> (r: Result<(), ParseError>)
        requires
            old(self).wf(),
        ensures
            final(self).wf(),
            final(self).tokens == old(self).tokens,
            match parse_stmt(old(self).tokens@, old(self).index as int) {
                Ok((code, k)) => r is Ok && final(self).instructions@ == old(self).instructions@
                    + code && final(self).index == k,
                Err(e) => r == Err::<(), ParseError>(e),
            },
    {
        let ghost base = self.instructions@;
        if let Some(Token::Printf) = self.current_token {
            self.advance();
            if !matches!(self.current_token, Some(Token::LParen)) {
                return Err(ParseError::ExpectedLParen(self.index));
            }
            self.advance();
            match self.parse_expression(1) {
                Ok(()) => {},
                Err(e) => {
                    return Err(e);
                },
            }
            self.instructions.push(Instr::Prtf);
            if !matches!(self.current_token, Some(Token::RParen)) {
                return Err(ParseError::ExpectedRParen(self.index));
            }
            self.advance();
            if !matches!(self.current_token, Some(Token::Semicolon)) {
                return Err(ParseError::ExpectedSemicolon(self.index));
            }
            self.advance();
            assert(self.instructions@ =~= base + self.instructions@.skip(base.len() as int));
            Ok(())
        } else if let Some(Token::Return) = self.current_token {
            self.advance();
            match self.parse_expression(1) {
                Ok(()) => {},
                Err(e) => {
                    return Err(e);
                },
            }
            self.instructions.push(Instr::Lev);
            if !matches!(self.current_token, Some(Token::Semicolon)) {
                return Err(ParseError::ExpectedSemicolon(self.index));
            }
            self.advance();
            assert(self.instructions@ =~= base + self.instructions@.skip(base.len() as int));
            Ok(())
        } else {
            Err(ParseError::UnsupportedStatement(self.index))
        }
    }

    /// Parses statements up to the end of input, appending their
    /// instructions in order; stops at the first error.
    pub fn parse_program(&mut self) -> (r: Result<(), ParseError>)
        requires
            old(self).wf(),
        ensures
            final(self).wf(),
            final(self).tokens == old(self).tokens,
            match parse_prog(old(self).tokens@, old(self).index as int) {
                Ok(code) => r is Ok && final(self).instructions@ == old(self).instructions@ + code,
                Err(e) => r == Err::<(), ParseError>(e),
            },
    {
        let ghost ts = self.tokens@;
        let ghost start = self.index as int;
        let ghost base = self.instructions@;
        while !matches!(self.current_token, Some(Token::Eof))
            invariant
                self.wf(),
                self.tokens@ == ts,
                ts == old(self).tokens@,
                start == old(self).index,
                base == old(self).instructions@,
                self.instructions@.len() >= base.len(),
                self.instructions@.take(base.len() as int) == base,
                match parse_prog(ts, self.index as int) {
                    Ok(more) => parse_prog(ts, start) == Ok::<Seq<Instr>, ParseError>(
                        self.instructions@.skip(base.len() as int) + more,
                    ),
                    Err(e) => parse_prog(ts, start) == Err::<Seq<Instr>, ParseError>(e),
                },
            decreases ts.len() - self.index,
        {
            let ghost i = self.index as int;
            let ghost before = self.instructions@;
            assert(ts[i] != Lexeme::Fixed(Token::Eof));
            match self.parse_statement() {
                Ok(()) => {},
                Err(e) => {
                    return Err(e);
                },
            }
            proof {
                lemma_stmt_advances(ts, i);
                let code = self.instructions@.skip(before.len() as int);
                if let Ok((c, k)) = parse_stmt(ts, i) {
                    assert(c =~= code);
                }
                assert(self.instructions@.skip(base.len() as int) =~= before.skip(base.len() as int)
                    + code);
                assert(self.instructions@.take(base.len() as int) =~= base);
                if let Ok(more) = parse_prog(ts, self.index as int) {
                    assert(before.skip(base.len() as int) + (code + more) =~= self.instructions@.skip(
                        base.len() as int,
                    ) + more);
                }
            }
        }
        proof {
            assert(self.instructions@ =~= base + (self.instructions@.skip(base.len() as int) + seq![]));
        }
        Ok(())
    }
}

/// Compiles a whole source text into instructions.
pub fn compile(source: &str) -> (r: Result<Vec<Instr>, ParseError>)
    ensures
        match program_of(source@) {
            Ok(code) => r matches Ok(v) && v@ == code,
            Err(e) => r == Err::<Vec<Instr>, ParseError>(e),
        },
{
    let lexer = Lexer::new(source);
    assert(lexer.rest() =~= source@);
    let mut parser = Parser::new(lexer);
    match parser.parse_program() {
        Ok(()) => {
            assert(parser.instructions@ =~= Seq::<Instr>::empty() + parser.instructions@);
            Ok(parser.instructions)
        },
        Err(e) => Err(e),
    }
}

} // verus!
