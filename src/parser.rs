//! A precedence-climbing parser from tokens to syntax trees.
use vstd::prelude::*;
use crate::ast::{BinaryOp, Expr, UnaryOp};
use crate::lexer::{Token, TokenV, tokens_view};

verus! {

/// Why a statement cannot be parsed; `pos` is the offending token's index
/// within its statement.
#[derive(Debug, Clone, Copy, PartialEq, Eq, Structural)]
pub enum ParseError {
    UnexpectedToken { pos: usize },
    ExpectedRParen { pos: usize },
    ExpectedArgSeparator { pos: usize },
    TrailingTokens { pos: usize },
}

impl Token {
    /// An independent copy of this token.
    pub fn duplicate(&self) -> (r: Token)
        ensures
            r@ == self@,
    {
        match self {
            Token::If => Token::If,
            Token::Else => Token::Else,
            Token::Plus => Token::Plus,
            Token::Minus => Token::Minus,
            Token::Star => Token::Star,
            Token::Slash => Token::Slash,
            Token::LParen => Token::LParen,
            Token::RParen => Token::RParen,
            Token::Comma => Token::Comma,
            Token::Equals => Token::Equals,
            Token::Gt => Token::Gt,
            Token::Lt => Token::Lt,
            Token::EqComp => Token::EqComp,
            Token::Colon => Token::Colon,
            Token::Semicolon => Token::Semicolon,
            Token::Number(n) => Token::Number(*n),
            Token::Ident(s) => Token::Ident(s.clone()),
            Token::Eof => Token::Eof,
        }
    }
}

/// The binding power of an infix operator token; all infix operators
/// associate to the left. Comparisons bind loosest, then `+` and `-`, then
/// `*` and `/`.
pub open spec fn prec_of(t: TokenV) -> Option<u8> {
    match t {
        TokenV::Gt => Some(1u8),
        TokenV::Lt => Some(1u8),
        TokenV::EqComp => Some(1u8),
        TokenV::Plus => Some(2u8),
        TokenV::Minus => Some(2u8),
        TokenV::Star => Some(3u8),
        TokenV::Slash => Some(3u8),
        _ => None,
    }
}

/// The binding power of a negation's operand: tighter than any infix
/// operator.
pub const UNARY_PREC: u8 = 4;

/// A syntax tree as a mathematical value.
pub enum ExprV {
    Number(i64),
    Ident(Seq<char>),
    Neg(Box<ExprV>),
    Binary(Box<ExprV>, BinaryOp, Box<ExprV>),
    Call(Box<ExprV>, Seq<ExprV>),
    If(Box<ExprV>, Box<ExprV>, Option<Box<ExprV>>),
}

pub open spec fn expr_view(e: Expr) -> ExprV
    decreases e,
{
    match e {
        Expr::Number(n) => ExprV::Number(n),
        Expr::Ident(s) => ExprV::Ident(s@),
        Expr::Unary { expr, .. } => ExprV::Neg(Box::new(expr_view(*expr))),
        Expr::Binary { left, op, right } => ExprV::Binary(
            Box::new(expr_view(*left)),
            op,
            Box::new(expr_view(*right)),
        ),
        Expr::Call { callee, args } => ExprV::Call(Box::new(expr_view(*callee)), exprs_view(args@)),
        Expr::If { cond, body, else_branch } => ExprV::If(
            Box::new(expr_view(*cond)),
            Box::new(expr_view(*body)),
            match else_branch {
                Some(b) => Some(Box::new(expr_view(*b))),
                None => None,
            },
        ),
    }
}

pub open spec fn exprs_view(s: Seq<Expr>) -> Seq<ExprV>
    decreases s,
{
    if s.len() == 0 {
        seq![]
    } else {
        exprs_view(s.subrange(0, s.len() - 1)).push(expr_view(s[s.len() - 1]))
    }
}

pub proof fn lemma_exprs_view_push(s: Seq<Expr>, e: Expr)
    ensures
        exprs_view(s.push(e)) == exprs_view(s).push(expr_view(e)),
{
    assert(s.push(e).subrange(0, s.len() as int) =~= s);
}

/// The position after `p`: the parser never moves past the last token.
pub open spec fn adv(toks: Seq<TokenV>, p: int) -> int {
    if p + 1 < toks.len() {
        p + 1
    } else {
        p
    }
}

pub open spec fn unexpected(p: int) -> ParseError {
    ParseError::UnexpectedToken { pos: p as usize }
}

/// The operator of an infix operator token.
pub open spec fn bin_of(t: TokenV) -> BinaryOp {
    match t {
        TokenV::Gt => BinaryOp::Greater,
        TokenV::Lt => BinaryOp::Less,
        TokenV::EqComp => BinaryOp::Equal,
        TokenV::Plus => BinaryOp::Add,
        TokenV::Minus => BinaryOp::Sub,
        TokenV::Star => BinaryOp::Mul,
        _ => BinaryOp::Div,
    }
}

/// The grammar, as precedence climbing: an expression whose infix
/// operators bind at least `min`, read from position `p`, with the
/// position after it.
pub open spec fn pprec(toks: Seq<TokenV>, p: int, min: u8) -> Result<(ExprV, int), ParseError>
    decreases toks.len() - p, 2int,
{
    if !(0 <= p < toks.len()) {
        Err(unexpected(p))
    } else {
        match pprefix(toks, p) {
            Ok((left, q)) => if p < q < toks.len() {
                climb(toks, q, left, min)
            } else {
                Err(unexpected(p))
            },
            Err(e) => Err(e),
        }
    }
}

/// The operand that starts an expression: a negation (whose operand binds
/// tighter than any infix operator), a number, an identifier, a call, an
/// assignment, a parenthesized expression, or an if with an optional else.
pub open spec fn pprefix(toks: Seq<TokenV>, p: int) -> Result<(ExprV, int), ParseError>
    decreases toks.len() - p, 1int,
{
    let p1 = adv(toks, p);
    if !(0 <= p < p1 < toks.len()) {
        Err(unexpected(p))
    } else {
        match toks[p] {
            TokenV::Minus => match pprec(toks, p1, UNARY_PREC) {
                Ok((e, q)) => Ok((ExprV::Neg(Box::new(e)), q)),
                Err(err) => Err(err),
            },
            TokenV::Number(n) => Ok((ExprV::Number(n), p1)),
            TokenV::Ident(name) => {
                let p2 = adv(toks, p1);
                match toks[p1] {
                    TokenV::LParen => if p1 < p2 {
                        match pargs(toks, p2) {
                            Ok((a, q)) => Ok((ExprV::Call(Box::new(ExprV::Ident(name)), a), q)),
                            Err(err) => Err(err),
                        }
                    } else {
                        Err(unexpected(p))
                    },
                    TokenV::Equals => if p1 < p2 {
                        match pprec(toks, p2, 0) {
                            Ok((e, q)) => Ok(
                                (
                                    ExprV::Binary(
                                        Box::new(ExprV::Ident(name)),
                                        BinaryOp::Assign,
                                        Box::new(e),
                                    ),
                                    q,
                                ),
                            ),
                            Err(err) => Err(err),
                        }
                    } else {
                        Err(unexpected(p))
                    },
                    _ => Ok((ExprV::Ident(name), p1)),
                }
            },
            TokenV::LParen => match pprec(toks, p1, 0) {
                Ok((e, q)) => if 0 <= q < toks.len() && toks[q] is RParen {
                    Ok((e, adv(toks, q)))
                } else {
                    Err(ParseError::ExpectedRParen { pos: q as usize })
                },
                Err(err) => Err(err),
            },
            TokenV::If => match pprec(toks, p1, 0) {
                Ok((c, q1)) => if p < q1 < toks.len() {
                    match pprec(toks, q1, 0) {
                        Ok((b, q2)) => if p < q2 < toks.len() {
                            if toks[q2] is Else {
                                let q3 = adv(toks, q2);
                                if p < q3 {
                                    match pprec(toks, q3, 0) {
                                        Ok((e, q4)) => Ok(
                                            (
                                                ExprV::If(
                                                    Box::new(c),
                                                    Box::new(b),
                                                    Some(Box::new(e)),
                                                ),
                                                q4,
                                            ),
                                        ),
                                        Err(err) => Err(err),
                                    }
                                } else {
                                    Err(unexpected(p))
                                }
                            } else {
                                Ok((ExprV::If(Box::new(c), Box::new(b), None), q2))
                            }
                        } else {
                            Err(unexpected(p))
                        },
                        Err(err) => Err(err),
                    }
                } else {
                    Err(unexpected(p))
                },
                Err(err) => Err(err),
            },
            _ => Err(unexpected(p)),
        }
    }
}

/// The infix operators after an operand `left`, at position `p`: each one
/// that binds at least `min` takes as its right operand an expression of
/// operators binding strictly tighter, so operators of one level associate
/// to the left.
pub open spec fn climb(toks: Seq<TokenV>, p: int, left: ExprV, min: u8) -> Result<(ExprV, int), ParseError>
    decreases toks.len() - p, 0int,
{
    if !(0 <= p < toks.len()) {
        Err(unexpected(p))
    } else {
        match prec_of(toks[p]) {
            Some(prec) => if prec < min {
                Ok((left, p))
            } else {
                let p1 = adv(toks, p);
                if p < p1 {
                    match pprec(toks, p1, (prec + 1) as u8) {
                        Ok((r, q)) => if p < q < toks.len() {
                            climb(toks, q, ExprV::Binary(Box::new(left), bin_of(toks[p]), Box::new(r)), min)
                        } else {
                            Err(unexpected(p))
                        },
                        Err(err) => Err(err),
                    }
                } else {
                    Err(unexpected(p))
                }
            },
            None => Ok((left, p)),
        }
    }
}

/// Call arguments after the opening parenthesis, through the closing one.
pub open spec fn pargs(toks: Seq<TokenV>, p: int) -> Result<(Seq<ExprV>, int), ParseError>
    decreases toks.len() - p, 4int,
{
    if !(0 <= p < toks.len()) {
        Err(unexpected(p))
    } else if toks[p] is RParen {
        Ok((seq![], adv(toks, p)))
    } else {
        pargs_from(toks, p)
    }
}

/// One or more arguments separated by commas, then the closing parenthesis.
pub open spec fn pargs_from(toks: Seq<TokenV>, p: int) -> Result<(Seq<ExprV>, int), ParseError>
    decreases toks.len() - p, 3int,
{
    if !(0 <= p < toks.len()) {
        Err(unexpected(p))
    } else {
        match pprec(toks, p, 0) {
            Ok((e, q)) => if 0 <= q < toks.len() {
                if toks[q] is Comma {
                    let q1 = adv(toks, q);
                    if p < q1 {
                        match pargs_from(toks, q1) {
                            Ok((rest, r)) => Ok((seq![e] + rest, r)),
                            Err(err) => Err(err),
                        }
                    } else {
                        Err(unexpected(p))
                    }
                } else if toks[q] is RParen {
                    Ok((seq![e], adv(toks, q)))
                } else {
                    Err(ParseError::ExpectedArgSeparator { pos: q as usize })
                }
            } else {
                Err(unexpected(p))
            },
            Err(err) => Err(err),
        }
    }
}

/// One statement: its tokens followed by `Eof` must form exactly one
/// expression.
pub open spec fn parse_stmt_spec(stmt: Seq<TokenV>) -> Result<ExprV, ParseError> {
    let toks = stmt.push(TokenV::Eof);
    match pprec(toks, 0, 0) {
        Ok((e, q)) => if 0 <= q < toks.len() && toks[q] is Eof {
            Ok(e)
        } else {
            Err(ParseError::TrailingTokens { pos: q as usize })
        },
        Err(err) => Err(err),
    }
}

/// All statements in order; the first that fails decides the error.
pub open spec fn parse_all(stmts: Seq<Seq<TokenV>>) -> Result<Seq<ExprV>, ParseError>
    decreases stmts.len(),
{
    if stmts.len() == 0 {
        Ok(seq![])
    } else {
        match parse_stmt_spec(stmts[0]) {
            Ok(e) => match parse_all(stmts.subrange(1, stmts.len() as int)) {
                Ok(rest) => Ok(seq![e] + rest),
                Err(err) => Err(err),
            },
            Err(err) => Err(err),
        }
    }
}

/// The tokens of one statement, with the parser's position in them.
pub struct Parser {
    tokens: Vec<Token>,
    pos: usize,
}

impl Parser {
    pub closed spec fn wf(&self) -> bool {
        &&& self.tokens@.len() > 0
        &&& self.tokens@[self.tokens@.len() - 1] is Eof
        &&& self.pos < self.tokens@.len()
    }

    pub closed spec fn remaining(&self) -> nat {
        (self.tokens@.len() - self.pos) as nat
    }

    /// The current token is the final `Eof`.
    pub closed spec fn at_end(&self) -> bool {
        self.tokens@[self.pos as int] is Eof
    }

    pub closed spec fn tokens(&self) -> Seq<TokenV> {
        tokens_view(self.tokens@)
    }

    /// A parser at the start of `tokens`, which end with `Eof`.
    pub fn new(tokens: Vec<Token>) -> (r: Parser)
        requires
            tokens@.len() > 0,
            tokens@[tokens@.len() - 1] is Eof,
        ensures
            r.wf(),
            r.remaining() == tokens@.len(),
            r.tokens() == tokens_view(tokens@),
    {
        Parser { tokens, pos: 0 }
    }

    pub closed spec fn current(&self) -> Token {
        self.tokens@[self.pos as int]
    }

    /// The token at the current position.
    pub fn peek(&self) -> (r: &Token)
        requires
            self.wf(),
        ensures
            *r == self.current(),
    {
        &self.tokens[self.pos]
    }

    /// Moves past the current token, staying on the final `Eof`.
    pub fn next(&mut self)
        requires
            old(self).wf(),
        ensures
            final(self).wf(),
            final(self).tokens() == old(self).tokens(),
            !old(self).at_end() ==> final(self).remaining()
                == old(self).remaining() - 1,
            final(self).position() == adv(old(self).tokens(), old(self).position()),
            final(self).remaining() <= old(self).remaining(),
    {
        if self.pos < self.tokens.len() - 1 {
            self.pos = self.pos + 1;
        }
    }

    fn at_eof(&self) -> (r: bool)
        requires
            self.wf(),
        ensures
            r == self.at_end(),
    {
        match self.peek() {
            Token::Eof => true,
            _ => false,
        }
    }

    pub closed spec fn position(&self) -> int {
        self.pos as int
    }

    /// Parses one expression.
    pub fn parse_expression(&mut self) -> (r: Result<Expr, ParseError>)
        requires
            old(self).wf(),
        ensures
            final(self).wf(),
            final(self).tokens() == old(self).tokens(),
            final(self).remaining() <= old(self).remaining(),
            match pprec(old(self).tokens(), old(self).position(), 0) {
                Ok((ev, q)) => r matches Ok(e) && expr_view(e) == ev && final(self).position() == q,
                Err(err) => r == Err::<Expr, ParseError>(err),
            },
        decreases old(self).remaining(), 5nat,
    {
        self.parse_prec(0)
    }

    /// The binding power of an infix operator token, and whether it
    /// associates to the left.
    pub fn precedence(tok: &Token) -> (r: Option<(u8, bool)>)
        ensures
            match prec_of(tok@) {
                Some(p) => r == Some((p, true)),
                None => r is None,
            },
    {
        match tok {
            Token::Gt => Some((1, true)),
            Token::Lt => Some((1, true)),
            Token::EqComp => Some((1, true)),
            Token::Plus => Some((2, true)),
            Token::Minus => Some((2, true)),
            Token::Star => Some((3, true)),
            Token::Slash => Some((3, true)),
            _ => None,
        }
    }

    fn binary_op(tok: &Token) -> (r: BinaryOp)
        ensures
            r == bin_of(tok@),
    {
        match tok {
            Token::Gt => BinaryOp::Greater,
            Token::Lt => BinaryOp::Less,
            Token::EqComp => BinaryOp::Equal,
            Token::Plus => BinaryOp::Add,
            Token::Minus => BinaryOp::Sub,
            Token::Star => BinaryOp::Mul,
            _ => BinaryOp::Div,
        }
    }

    /// Parses a negation.
    fn parse_neg(&mut self) -> (r: Result<Expr, ParseError>)
        requires
            old(self).wf(),
            old(self).current() is Minus,
        ensures
            final(self).wf(),
            final(self).tokens() == old(self).tokens(),
            final(self).remaining() <= old(self).remaining(),
            r is Ok ==> final(self).remaining() < old(self).remaining(),
            match pprefix(old(self).tokens(), old(self).position()) {
                Ok((ev, q)) => r matches Ok(e) && expr_view(e) == ev && final(self).position() == q,
                Err(err) => r == Err::<Expr, ParseError>(err),
            },
        decreases old(self).remaining(), 0nat,
    {
        let ghost toks = self.tokens();
        let ghost p = self.position();
        proof {
            assert(toks[p] == self.current()@);
            assert(toks[toks.len() - 1] == self.tokens@[self.tokens@.len() - 1]@);
            assert(p < toks.len() - 1);
        }
        self.next();
        let rhs = self.parse_prec(UNARY_PREC)?;
        Ok(Expr::Unary { op: UnaryOp::Neg, expr: Box::new(rhs) })
    }

    /// Parses an identifier, a call or an assignment.
    fn parse_word(&mut self) -> (r: Result<Expr, ParseError>)
        requires
            old(self).wf(),
            old(self).current() is Ident,
        ensures
            final(self).wf(),
            final(self).tokens() == old(self).tokens(),
            final(self).remaining() <= old(self).remaining(),
            r is Ok ==> final(self).remaining() < old(self).remaining(),
            match pprefix(old(self).tokens(), old(self).position()) {
                Ok((ev, q)) => r matches Ok(e) && expr_view(e) == ev && final(self).position() == q,
                Err(err) => r == Err::<Expr, ParseError>(err),
            },
        decreases old(self).remaining(), 0nat,
    {
        let ghost toks = self.tokens();
        let ghost p = self.position();
        proof {
            assert(toks[p] == self.current()@);
            assert(toks[toks.len() - 1] == self.tokens@[self.tokens@.len() - 1]@);
            assert(p < toks.len() - 1);
        }
        let name = match self.peek() {
            Token::Ident(s) => s.clone(),
            _ => String::new(),
        };
        self.next();
        proof {
            assert(toks[self.position()] == self.current()@);
            assert(expr_view(Expr::Ident(name)) == ExprV::Ident(name@));
        }
        match self.peek() {
            Token::LParen => {
                self.next();
                proof {
                    assert(toks[p] == TokenV::Ident(name@));
                    assert(toks[p + 1] is LParen);
                    assert(self.position() == p + 2);
                    assert(adv(toks, p + 1) == p + 2);
                }
                let args = match self.parse_args() {
                    Ok(a) => a,
                    Err(e) => {
                        proof {
                            assert(pargs(toks, p + 2) == Err::<(Seq<ExprV>, int), ParseError>(e));
                            assert(pprefix(toks, p) == Err::<(ExprV, int), ParseError>(e));
                        }
                        return Err(e);
                    },
                };
                proof {
                    let (evs, q) = pargs(toks, p + 2)->Ok_0;
                    assert(pprefix(toks, p) == Ok::<(ExprV, int), ParseError>(
                        (ExprV::Call(Box::new(ExprV::Ident(name@)), evs), q),
                    ));
                }
                Ok(Expr::Call { callee: Box::new(Expr::Ident(name)), args })
            },
            Token::Equals => {
                self.next();
                proof {
                    assert(toks[p] == TokenV::Ident(name@));
                    assert(toks[p + 1] is Equals);
                    assert(self.position() == p + 2);
                    assert(adv(toks, p + 1) == p + 2);
                }
                let rhs = match self.parse_prec(0) {
                    Ok(e) => e,
                    Err(e) => {
                        proof {
                            assert(pprefix(toks, p) == Err::<(ExprV, int), ParseError>(e));
                        }
                        return Err(e);
                    },
                };
                proof {
                    let (ev, q) = pprec(toks, p + 2, 0)->Ok_0;
                    assert(pprefix(toks, p) == Ok::<(ExprV, int), ParseError>(
                        (ExprV::Binary(Box::new(ExprV::Ident(name@)), BinaryOp::Assign, Box::new(ev)), q),
                    ));
                }
                Ok(
                    Expr::Binary {
                        left: Box::new(Expr::Ident(name)),
                        op: BinaryOp::Assign,
                        right: Box::new(rhs),
                    },
                )
            },
            _ => {
                proof {
                    assert(toks[p] == TokenV::Ident(name@));
                    assert(adv(toks, p) == p + 1);
                    assert(!(toks[p + 1] is LParen) && !(toks[p + 1] is Equals));
                    assert(pprefix(toks, p) == Ok::<(ExprV, int), ParseError>((ExprV::Ident(name@), p + 1)));
                }
                Ok(Expr::Ident(name))
            },
        }
    }

    /// Parses a parenthesized expression.
    fn parse_group(&mut self) -> (r: Result<Expr, ParseError>)
        requires
            old(self).wf(),
            old(self).current() is LParen,
        ensures
            final(self).wf(),
            final(self).tokens() == old(self).tokens(),
            final(self).remaining() <= old(self).remaining(),
            r is Ok ==> final(self).remaining() < old(self).remaining(),
            match pprefix(old(self).tokens(), old(self).position()) {
                Ok((ev, q)) => r matches Ok(e) && expr_view(e) == ev && final(self).position() == q,
                Err(err) => r == Err::<Expr, ParseError>(err),
            },
        decreases old(self).remaining(), 0nat,
    {
        let ghost toks = self.tokens();
        let ghost p = self.position();
        proof {
            assert(toks[p] == self.current()@);
            assert(toks[toks.len() - 1] == self.tokens@[self.tokens@.len() - 1]@);
            assert(p < toks.len() - 1);
        }
        self.next();
        let e = self.parse_prec(0)?;
        proof {
            assert(toks[self.position()] == self.current()@);
        }
        match self.peek() {
            Token::RParen => {
                self.next();
                Ok(e)
            },
            _ => Err(ParseError::ExpectedRParen { pos: self.pos }),
        }
    }

    /// Parses an if with an optional else.
    fn parse_if(&mut self) -> (r: Result<Expr, ParseError>)
        requires
            old(self).wf(),
            old(self).current() is If,
        ensures
            final(self).wf(),
            final(self).tokens() == old(self).tokens(),
            final(self).remaining() <= old(self).remaining(),
            r is Ok ==> final(self).remaining() < old(self).remaining(),
            match pprefix(old(self).tokens(), old(self).position()) {
                Ok((ev, q)) => r matches Ok(e) && expr_view(e) == ev && final(self).position() == q,
                Err(err) => r == Err::<Expr, ParseError>(err),
            },
        decreases old(self).remaining(), 0nat,
    {
        let ghost toks = self.tokens();
        let ghost p = self.position();
        proof {
            assert(toks[p] == self.current()@);
            assert(toks[toks.len() - 1] == self.tokens@[self.tokens@.len() - 1]@);
            assert(p < toks.len() - 1);
        }
        self.next();
        let cond = self.parse_prec(0)?;
        let body = self.parse_prec(0)?;
        proof {
            assert(toks[self.position()] == self.current()@);
        }
        let else_branch = match self.peek() {
            Token::Else => {
                self.next();
                let e = self.parse_prec(0)?;
                Some(Box::new(e))
            },
            _ => None,
        };
        Ok(Expr::If { cond: Box::new(cond), body: Box::new(body), else_branch })
    }

    /// Parses the operand that starts an expression.
    fn parse_prefix(&mut self) -> (r: Result<Expr, ParseError>)
        requires
            old(self).wf(),
        ensures
            final(self).wf(),
            final(self).tokens() == old(self).tokens(),
            final(self).remaining() <= old(self).remaining(),
            r is Ok ==> final(self).remaining() < old(self).remaining(),
            match pprefix(old(self).tokens(), old(self).position()) {
                Ok((ev, q)) => r matches Ok(e) && expr_view(e) == ev && final(self).position() == q,
                Err(err) => r == Err::<Expr, ParseError>(err),
            },
        decreases old(self).remaining(), 1nat,
    {
        let ghost toks = self.tokens();
        let ghost p = self.position();
        proof {
            assert(toks[p] == self.current()@);
            assert(toks[toks.len() - 1] == self.tokens@[self.tokens@.len() - 1]@);
        }
        match self.peek() {
            Token::Minus => self.parse_neg(),
            Token::Number(n) => {
                let v = *n;
                self.next();
                Ok(Expr::Number(v))
            },
            Token::Ident(_) => self.parse_word(),
            Token::LParen => self.parse_group(),
            Token::If => self.parse_if(),
            _ => Err(ParseError::UnexpectedToken { pos: self.pos }),
        }
    }

    /// Parses an expression whose infix operators bind at least `min_prec`.
    fn parse_prec(&mut self, min_prec: u8) -> (r: Result<Expr, ParseError>)
        requires
            old(self).wf(),
        ensures
            final(self).wf(),
            final(self).tokens() == old(self).tokens(),
            final(self).remaining() <= old(self).remaining(),
            r is Ok ==> final(self).remaining() < old(self).remaining(),
            match pprec(old(self).tokens(), old(self).position(), min_prec) {
                Ok((ev, q)) => r matches Ok(e) && expr_view(e) == ev && final(self).position() == q,
                Err(err) => r == Err::<Expr, ParseError>(err),
            },
        decreases old(self).remaining(), 2nat,
    {
        let ghost toks = self.tokens();
        let ghost p0 = self.position();
        let mut left = self.parse_prefix()?;
        proof {
            assert(toks[toks.len() - 1] == self.tokens@[self.tokens@.len() - 1]@);
        }
        loop
            invariant
                self.wf(),
                self.tokens() == toks,
                toks == old(self).tokens(),
                p0 == old(self).position(),
                p0 < self.position(),
                toks.len() == self.tokens@.len(),
                toks[toks.len() - 1] is Eof,
                pprec(toks, p0, min_prec) == climb(toks, self.position(), expr_view(left), min_prec),
            ensures
                pprec(toks, p0, min_prec) == Ok::<(ExprV, int), ParseError>((expr_view(left), self.position())),
            decreases self.remaining(),
        {
            proof {
                assert(toks[self.position()] == self.current()@);
            }
            let prec = match Parser::precedence(self.peek()) {
                Some((p, _)) => p,
                None => {
                    break ;
                },
            };
            if prec < min_prec {
                break ;
            }
            let op = Parser::binary_op(self.peek());
            self.next();
            let right = self.parse_prec(prec + 1)?;
            left = Expr::Binary { left: Box::new(left), op, right: Box::new(right) };
        }
        Ok(left)
    }

    /// Parses call arguments after the opening parenthesis, through the
    /// closing one.
    fn parse_args(&mut self) -> (r: Result<Vec<Expr>, ParseError>)
        requires
            old(self).wf(),
        ensures
            final(self).wf(),
            final(self).tokens() == old(self).tokens(),
            final(self).remaining() <= old(self).remaining(),
            match pargs(old(self).tokens(), old(self).position()) {
                Ok((evs, q)) => r matches Ok(a) && exprs_view(a@) == evs && final(self).position() == q,
                Err(err) => r == Err::<Vec<Expr>, ParseError>(err),
            },
        decreases old(self).remaining(), 3nat,
    {
        let ghost toks = self.tokens();
        let ghost p0 = self.position();
        proof {
            assert(toks[p0] == self.current()@);
            assert(toks[toks.len() - 1] == self.tokens@[self.tokens@.len() - 1]@);
        }
        let mut args: Vec<Expr> = Vec::new();
        if let Token::RParen = self.peek() {
            self.next();
            proof {
                assert(exprs_view(args@) =~= Seq::<ExprV>::empty());
            }
            return Ok(args);
        }
        proof {
            assert(exprs_view(args@) =~= Seq::<ExprV>::empty());
            lemma_prefix_empty(pargs_from(toks, p0));
        }
        loop
            invariant_except_break
                pargs(toks, p0) == prefix_vals(exprs_view(args@), pargs_from(toks, self.position())),
            invariant
                self.wf(),
                self.tokens() == toks,
                toks == old(self).tokens(),
                p0 == old(self).position(),
                p0 <= self.position(),
                toks.len() == self.tokens@.len(),
                toks[toks.len() - 1] is Eof,
            ensures
                pargs(toks, p0) == Ok::<(Seq<ExprV>, int), ParseError>((exprs_view(args@), self.position())),
            decreases self.remaining(),
        {
            let ghost before = exprs_view(args@);
            let ghost pos = self.position();
            let e = self.parse_prec(0)?;
            let ghost ev = expr_view(e);
            proof {
                lemma_exprs_view_push(args@, e);
                assert(toks[self.position()] == self.current()@);
            }
            args.push(e);
            match self.peek() {
                Token::Comma => {
                    self.next();
                    proof {
                        lemma_prefix_assoc(before, ev, pargs_from(toks, self.position()));
                    }
                },
                Token::RParen => {
                    self.next();
                    proof {
                        assert(before + seq![ev] =~= before.push(ev));
                    }
                    break ;
                },
                _ => {
                    return Err(ParseError::ExpectedArgSeparator { pos: self.pos });
                },
            }
        }
        Ok(args)
    }
}

/// Puts parsed arguments in front of the parse of the ones after them.
pub open spec fn prefix_vals(done: Seq<ExprV>, rest: Result<(Seq<ExprV>, int), ParseError>) -> Result<(Seq<ExprV>, int), ParseError> {
    match rest {
        Ok((r, q)) => Ok((done + r, q)),
        Err(e) => Err(e),
    }
}

proof fn lemma_prefix_empty(rest: Result<(Seq<ExprV>, int), ParseError>)
    ensures
        prefix_vals(seq![], rest) == rest,
{
    if let Ok((r, q)) = rest {
        assert(Seq::<ExprV>::empty() + r =~= r);
    }
}

proof fn lemma_prefix_assoc(done: Seq<ExprV>, e: ExprV, rest: Result<(Seq<ExprV>, int), ParseError>)
    ensures
        prefix_vals(done, match rest {
            Ok((r, q)) => Ok((seq![e] + r, q)),
            Err(err) => Err(err),
        }) == prefix_vals(done.push(e), rest),
{
    if let Ok((r, q)) = rest {
        assert(done + (seq![e] + r) =~= done.push(e) + r);
    }
}

/// Statements so far and the tokens of the statement being read, after
/// reading `ts`: a `;` ends a statement, `Eof` is dropped.
pub open spec fn split_spec(ts: Seq<TokenV>) -> (Seq<Seq<TokenV>>, Seq<TokenV>)
    decreases ts.len(),
{
    if ts.len() == 0 {
        (seq![], seq![])
    } else {
        let (done, cur) = split_spec(ts.drop_last());
        match ts.last() {
            TokenV::Semicolon => if cur.len() > 0 {
                (done.push(cur), seq![])
            } else {
                (done, seq![])
            },
            TokenV::Eof => (done, cur),
            t => (done, cur.push(t)),
        }
    }
}

/// The statements of a token sequence: the nonempty runs of tokens between
/// semicolons, the last one ended by a semicolon or by the end of input.
pub open spec fn statements(ts: Seq<TokenV>) -> Seq<Seq<TokenV>> {
    let (done, cur) = split_spec(ts);
    if cur.len() > 0 {
        done.push(cur)
    } else {
        done
    }
}

pub open spec fn stmts_view(s: Seq<Vec<Token>>) -> Seq<Seq<TokenV>> {
    s.map_values(|v: Vec<Token>| tokens_view(v@))
}

/// Splits tokens into statements.
pub fn parse_statement(tokens: &Vec<Token>) -> (r: Vec<Vec<Token>>)
    ensures
        stmts_view(r@) == statements(tokens_view(tokens@)),
{
    let ghost ts = tokens_view(tokens@);
    let mut done: Vec<Vec<Token>> = Vec::new();
    let mut cur: Vec<Token> = Vec::new();
    let mut i: usize = 0;
    proof {
        assert(ts.subrange(0, 0) =~= Seq::<TokenV>::empty());
        assert(stmts_view(done@) =~= Seq::<Seq<TokenV>>::empty());
        assert(tokens_view(cur@) =~= Seq::<TokenV>::empty());
    }
    while i < tokens.len()
        invariant
            i <= tokens@.len(),
            ts == tokens_view(tokens@),
            split_spec(ts.subrange(0, i as int)) == (stmts_view(done@), tokens_view(cur@)),
        decreases tokens@.len() - i,
    {
        let ghost pre = ts.subrange(0, i + 1);
        proof {
            assert(pre.drop_last() =~= ts.subrange(0, i as int));
            assert(pre.last() == tokens@[i as int]@);
        }
        match &tokens[i] {
            Token::Semicolon => {
                if cur.len() > 0 {
                    let mut finished: Vec<Token> = Vec::new();
                    std::mem::swap(&mut finished, &mut cur);
                    let ghost fv = tokens_view(finished@);
                    let ghost dv = stmts_view(done@);
                    done.push(finished);
                    proof {
                        assert(stmts_view(done@) =~= dv.push(fv));
                    }
                }
                proof {
                    assert(tokens_view(cur@) =~= Seq::<TokenV>::empty());
                }
            },
            Token::Eof => {},
            t => {
                let ghost before = tokens_view(cur@);
                cur.push(t.duplicate());
                proof {
                    assert(tokens_view(cur@) =~= before.push(tokens@[i as int]@));
                }
            },
        }
        i = i + 1;
    }
    proof {
        assert(ts.subrange(0, tokens@.len() as int) =~= ts);
    }
    if cur.len() > 0 {
        let ghost cv = tokens_view(cur@);
        let ghost dv = stmts_view(done@);
        done.push(cur);
        proof {
            assert(stmts_view(done@) =~= dv.push(cv));
        }
    }
    done
}

/// Puts parsed statements in front of the parse of the ones after them.
pub open spec fn prefix_all(done: Seq<ExprV>, rest: Result<Seq<ExprV>, ParseError>) -> Result<Seq<ExprV>, ParseError> {
    match rest {
        Ok(r) => Ok(done + r),
        Err(e) => Err(e),
    }
}

/// Parses each statement of a token sequence into one expression: the
/// statements in order, each of which must be exactly one expression; the
/// first that fails decides the error.
pub fn parse_tokens(tokens: Vec<Token>) -> (r: Result<Vec<Expr>, ParseError>)
    ensures
        match parse_all(statements(tokens_view(tokens@))) {
            Ok(evs) => r matches Ok(es) && exprs_view(es@) == evs,
            Err(err) => r == Err::<Vec<Expr>, ParseError>(err),
        },
{
    let mut stmts = parse_statement(&tokens);
    let ghost all = statements(tokens_view(tokens@));
    let mut exprs: Vec<Expr> = Vec::new();
    proof {
        assert(exprs_view(exprs@) =~= Seq::<ExprV>::empty());
        if let Ok(r) = parse_all(all) {
            assert(Seq::<ExprV>::empty() + r =~= r);
        }
    }
    while stmts.len() > 0
        invariant
            all == statements(tokens_view(tokens@)),
            parse_all(all) == prefix_all(exprs_view(exprs@), parse_all(stmts_view(stmts@))),
        decreases stmts@.len(),
    {
        let ghost sv = stmts_view(stmts@);
        let mut stmt = stmts.remove(0);
        let ghost st = tokens_view(stmt@);
        proof {
            assert(sv[0] == st);
            assert(stmts_view(stmts@) =~= sv.subrange(1, sv.len() as int));
        }
        stmt.push(Token::Eof);
        proof {
            assert(tokens_view(stmt@) =~= st.push(TokenV::Eof));
        }
        let mut p = Parser::new(stmt);
        let e = p.parse_expression()?;
        if !p.at_eof() {
            return Err(ParseError::TrailingTokens { pos: p.pos });
        }
        let ghost ev = expr_view(e);
        proof {
            lemma_exprs_view_push(exprs@, e);
            if let Ok(rest) = parse_all(stmts_view(stmts@)) {
                assert(exprs_view(exprs@) + (seq![ev] + rest) =~= exprs_view(exprs@).push(ev) + rest);
            }
        }
        exprs.push(e);
    }
    proof {
        assert(exprs_view(exprs@) + Seq::<ExprV>::empty() =~= exprs_view(exprs@));
    }
    Ok(exprs)
}

} // verus!
