//! Parser: builds an abstract syntax tree from a token stream by
//! precedence climbing, with implicit function application between
//! adjacent primary expressions.
//!
//! `spec_module_at`, `spec_declaration_at`, `spec_expr_at`, `spec_climb`
//! and `spec_primary` are the mathematical description of the grammar;
//! the executable functions are proved to return exactly what they say.

use vstd::prelude::*;
use crate::lexer::{Token, TokenType, SpecToken, toks_view};

verus! {

/// A whole source file: its declarations in order.
#[derive(Debug)]
pub struct Module {
    pub declarations: Vec<Declaration>,
}

/// One `let name = initializer` binding.
#[derive(Debug)]
pub struct Declaration {
    pub identifier: String,
    pub initializer: Expression,
}

/// A statement form; the grammar so far produces declarations only.
#[derive(Debug)]
pub enum Statement {
    DeclarationStatement(Declaration),
    ExpressionStatement(Expression),
    ReturnStatement(Expression),
}

/// An expression tree. Each node owns its children outright.
#[derive(Debug)]
pub enum Expression {
    IdentifierExpression(String),
    NumberExpression(String),
    StringExpression(String),
    FunctionExpression(String, Box<Expression>),
    CallExpression(Box<Expression>, Box<Expression>),
    BinaryExpression(Operator, Box<Expression>, Box<Expression>),
    UnaryExpression(Operator, Box<Expression>),
    BlockExpression,
}

/// The operators, in order of rising precedence.
#[derive(Debug, Clone, Copy, PartialEq, Eq, Structural)]
pub enum Operator {
    Add,
    Subtract,
    Multiply,
    Divide,
    Modulo,
    UnaryPlus,
    UnaryMinus,
}

enum Associativity {
    Right,
    Left,
}

/// What a parse can fail with. `NoMatch` is the backtrackable signal that
/// a grammar alternative does not apply; every other variant is fatal to
/// the parse attempt that raised it.
#[derive(Debug)]
pub enum ParseError {
    UnexpectedToken(Token, TokenType),
    UnexpectedTokenMultiple(Token, Vec<TokenType>),
    ExpectingOther(Token, String),
    ExpectingEndOfFile,
    UnexpectedEndOfFile,
    NoMatch,
}

/// The mathematical image of an expression tree.
pub ghost enum SpecExpr {
    Ident(Seq<char>),
    Num(Seq<char>),
    Str(Seq<char>),
    Func(Seq<char>, Box<SpecExpr>),
    Call(Box<SpecExpr>, Box<SpecExpr>),
    Binary(Operator, Box<SpecExpr>, Box<SpecExpr>),
    Unary(Operator, Box<SpecExpr>),
    Block,
}

/// The mathematical image of a declaration.
pub ghost struct SpecDecl {
    pub name: Seq<char>,
    pub init: SpecExpr,
}

/// The mathematical image of a parse error.
pub ghost enum SpecParseError {
    UnexpectedToken(SpecToken, TokenType),
    UnexpectedTokenMultiple(SpecToken, Seq<TokenType>),
    ExpectingOther(SpecToken, Seq<char>),
    ExpectingEndOfFile,
    UnexpectedEndOfFile,
    NoMatch,
}

pub open spec fn expr_view(e: Expression) -> SpecExpr
    decreases e,
{
    match e {
        Expression::IdentifierExpression(id) => SpecExpr::Ident(id@),
        Expression::NumberExpression(tx) => SpecExpr::Num(tx@),
        Expression::StringExpression(tx) => SpecExpr::Str(tx@),
        Expression::FunctionExpression(p, b) => SpecExpr::Func(p@, Box::new(expr_view(*b))),
        Expression::CallExpression(f, a) => SpecExpr::Call(
            Box::new(expr_view(*f)),
            Box::new(expr_view(*a)),
        ),
        Expression::BinaryExpression(op, l, r) => SpecExpr::Binary(
            op,
            Box::new(expr_view(*l)),
            Box::new(expr_view(*r)),
        ),
        Expression::UnaryExpression(op, o) => SpecExpr::Unary(op, Box::new(expr_view(*o))),
        Expression::BlockExpression => SpecExpr::Block,
    }
}

impl View for Expression {
    type V = SpecExpr;

    open spec fn view(&self) -> SpecExpr {
        expr_view(*self)
    }
}

impl View for Declaration {
    type V = SpecDecl;

    open spec fn view(&self) -> SpecDecl {
        SpecDecl { name: self.identifier@, init: self.initializer@ }
    }
}

impl View for Module {
    type V = Seq<SpecDecl>;

    open spec fn view(&self) -> Seq<SpecDecl> {
        self.declarations@.map_values(|d: Declaration| d@)
    }
}

impl View for ParseError {
    type V = SpecParseError;

    open spec fn view(&self) -> SpecParseError {
        match self {
            ParseError::UnexpectedToken(t, ty) => SpecParseError::UnexpectedToken(t@, *ty),
            ParseError::UnexpectedTokenMultiple(t, tys) => SpecParseError::UnexpectedTokenMultiple(
                t@,
                tys@,
            ),
            ParseError::ExpectingOther(t, what) => SpecParseError::ExpectingOther(t@, what@),
            ParseError::ExpectingEndOfFile => SpecParseError::ExpectingEndOfFile,
            ParseError::UnexpectedEndOfFile => SpecParseError::UnexpectedEndOfFile,
            ParseError::NoMatch => SpecParseError::NoMatch,
        }
    }
}

/// The unary operator a token kind stands for, if any.
pub open spec fn unary_op_of(ty: TokenType) -> Option<Operator> {
    match ty {
        TokenType::OpPlus => Some(Operator::UnaryPlus),
        TokenType::OpMinus => Some(Operator::UnaryMinus),
        _ => None,
    }
}

/// The binary operator a token kind stands for, if any.
pub open spec fn binary_op_of(ty: TokenType) -> Option<Operator> {
    match ty {
        TokenType::OpPlus => Some(Operator::Add),
        TokenType::OpMinus => Some(Operator::Subtract),
        TokenType::OpMultiply => Some(Operator::Multiply),
        TokenType::OpDivide => Some(Operator::Divide),
        TokenType::OpModulo => Some(Operator::Modulo),
        _ => None,
    }
}

/// Each operator's fixed precedence level.
pub open spec fn op_prec(op: Operator) -> int {
    match op {
        Operator::Add => 0,
        Operator::Subtract => 1,
        Operator::Multiply => 2,
        Operator::Divide => 3,
        Operator::Modulo => 4,
        Operator::UnaryPlus => 5,
        Operator::UnaryMinus => 6,
    }
}

/// Whether an operator groups to the right; only the unary operators do.
pub open spec fn op_right_assoc(op: Operator) -> bool {
    op is UnaryPlus || op is UnaryMinus
}

/// The least precedence the right operand of a binary operator may bind:
/// the operator's own level when right-associative, one above it when
/// left-associative.
pub open spec fn rhs_min_prec(op: Operator) -> int {
    if op_right_assoc(op) {
        op_prec(op)
    } else {
        op_prec(op) + 1
    }
}

/// Consumes the token at `i` when it has kind `ty`; otherwise the
/// backtrackable non-match, with nothing consumed.
pub open spec fn spec_try_match(ts: Seq<SpecToken>, i: int, ty: TokenType) -> (Result<
    SpecToken,
    SpecParseError,
>, int) {
    if 0 <= i && i < ts.len() && ts[i].kind == ty {
        (Ok(ts[i]), i + 1)
    } else {
        (Err(SpecParseError::NoMatch), i)
    }
}

/// Consumes the token at `i`, which must have kind `ty`; a token of another
/// kind is a syntax error (and is consumed), and a missing one is the
/// end-of-input error.
pub open spec fn spec_expect(ts: Seq<SpecToken>, i: int, ty: TokenType) -> (Result<
    SpecToken,
    SpecParseError,
>, int) {
    if !(0 <= i && i < ts.len()) {
        (Err(SpecParseError::UnexpectedEndOfFile), i)
    } else if ts[i].kind == ty {
        (Ok(ts[i]), i + 1)
    } else {
        (Err(SpecParseError::UnexpectedToken(ts[i], ty)), i + 1)
    }
}

/// A primary expression at `i`: a unary-prefixed expression, a
/// parenthesized sub-expression, an identifier (turned into a lambda when
/// the function arrow follows), a number literal, or a string literal.
pub open spec fn spec_primary(ts: Seq<SpecToken>, i: int) -> (Result<
    SpecExpr,
    SpecParseError,
>, int)
    decreases ts.len() - i, 0int,
{
    if !(0 <= i && i < ts.len()) {
        (Err(SpecParseError::UnexpectedEndOfFile), i)
    } else {
        let tok = ts[i];
        match unary_op_of(tok.kind) {
            Some(op) => {
                let r = spec_expr_at(ts, i + 1, op_prec(op));
                match r.0 {
                    Ok(e) => (Ok(SpecExpr::Unary(op, Box::new(e))), r.1),
                    Err(er) => (Err(er), r.1),
                }
            },
            None => {
                if tok.kind == TokenType::OpenParen {
                    let r = spec_expr_at(ts, i + 1, 0);
                    match r.0 {
                        Ok(e) => {
                            let x = spec_expect(ts, r.1, TokenType::CloseParen);
                            match x.0 {
                                Ok(_) => (Ok(e), x.1),
                                Err(er) => (Err(er), x.1),
                            }
                        },
                        Err(er) => (Err(er), r.1),
                    }
                } else if tok.kind == TokenType::Identifier {
                    if i + 1 < ts.len() && ts[i + 1].kind == TokenType::OpFunction {
                        let r = spec_expr_at(ts, i + 2, 0);
                        match r.0 {
                            Ok(body) => (Ok(SpecExpr::Func(tok.text, Box::new(body))), r.1),
                            Err(er) => (Err(er), r.1),
                        }
                    } else {
                        (Ok(SpecExpr::Ident(tok.text)), i + 1)
                    }
                } else if tok.kind == TokenType::NumberLiteral {
                    (Ok(SpecExpr::Num(tok.text)), i + 1)
                } else if tok.kind == TokenType::StringLiteral {
                    (Ok(SpecExpr::Str(tok.text)), i + 1)
                } else {
                    (
                        Err(
                            SpecParseError::UnexpectedTokenMultiple(
                                tok,
                                seq![
                                    TokenType::Identifier,
                                    TokenType::NumberLiteral,
                                    TokenType::StringLiteral,
                                ],
                            ),
                        ),
                        i,
                    )
                }
            },
        }
    }
}

/// The climbing loop, already holding the expression `t` parsed so far.
/// A binary operator of precedence at least `min_prec` folds `t` with a
/// right operand parsed at that operator's right-hand minimum; any other
/// token starts an attempt at another primary, which folds into an
/// implicit application, and when that attempt fails, `t` stands.
pub open spec fn spec_climb(ts: Seq<SpecToken>, i: int, min_prec: int, t: SpecExpr) -> (Result<
    SpecExpr,
    SpecParseError,
>, int)
    decreases ts.len() - i, 1int,
{
    if !(0 <= i && i < ts.len()) {
        (Ok(t), i)
    } else {
        match binary_op_of(ts[i].kind) {
            Some(op) => {
                if op_prec(op) >= min_prec {
                    let r = spec_expr_at(ts, i + 1, rhs_min_prec(op));
                    match r.0 {
                        Ok(rhs) => {
                            let nt = SpecExpr::Binary(op, Box::new(t), Box::new(rhs));
                            if i < r.1 && r.1 <= ts.len() {
                                spec_climb(ts, r.1, min_prec, nt)
                            } else {
                                (Ok(nt), r.1)
                            }
                        },
                        Err(er) => (Err(er), r.1),
                    }
                } else {
                    (Ok(t), i)
                }
            },
            None => {
                let r = spec_primary(ts, i);
                match r.0 {
                    Ok(arg) => {
                        let nt = SpecExpr::Call(Box::new(t), Box::new(arg));
                        if i < r.1 && r.1 <= ts.len() {
                            spec_climb(ts, r.1, min_prec, nt)
                        } else {
                            (Ok(nt), r.1)
                        }
                    },
                    Err(_) => (Ok(t), i),
                }
            },
        }
    }
}

/// A full expression at `i`, every operator binding at least `min_prec`:
/// one primary, then the climbing loop.
pub open spec fn spec_expr_at(ts: Seq<SpecToken>, i: int, min_prec: int) -> (Result<
    SpecExpr,
    SpecParseError,
>, int)
    decreases ts.len() - i, 2int,
{
    let r = spec_primary(ts, i);
    match r.0 {
        Err(er) => (Err(er), r.1),
        Ok(t) => {
            if i < r.1 && r.1 <= ts.len() {
                spec_climb(ts, r.1, min_prec, t)
            } else {
                (Ok(t), r.1)
            }
        },
    }
}

/// A declaration at `i`: the `let` keyword (its absence is the
/// backtrackable non-match), an identifier, `=`, and an initializer
/// expression.
pub open spec fn spec_declaration_at(ts: Seq<SpecToken>, i: int) -> (Result<
    SpecDecl,
    SpecParseError,
>, int) {
    let m = spec_try_match(ts, i, TokenType::LetKeyword);
    match m.0 {
        Err(er) => (Err(er), m.1),
        Ok(_) => {
            let idr = spec_expect(ts, m.1, TokenType::Identifier);
            match idr.0 {
                Err(er) => (Err(er), idr.1),
                Ok(idtok) => {
                    let eqr = spec_expect(ts, idr.1, TokenType::OpAssign);
                    match eqr.0 {
                        Err(er) => (Err(er), eqr.1),
                        Ok(_) => {
                            let er2 = spec_expr_at(ts, eqr.1, 0);
                            match er2.0 {
                                Ok(e) => (Ok(SpecDecl { name: idtok.text, init: e }), er2.1),
                                Err(er) => (Err(er), er2.1),
                            }
                        },
                    }
                },
            }
        },
    }
}

/// Declarations from `i` until the non-match, which must then stand at the
/// end of the input; a trailing token is a syntax error naming it.
pub open spec fn spec_module_at(ts: Seq<SpecToken>, i: int) -> (Result<
    Seq<SpecDecl>,
    SpecParseError,
>, int)
    decreases ts.len() - i,
{
    let d = spec_declaration_at(ts, i);
    match d.0 {
        Ok(decl) => {
            if i < d.1 && d.1 <= ts.len() {
                let rest = spec_module_at(ts, d.1);
                match rest.0 {
                    Ok(ds) => (Ok(seq![decl] + ds), rest.1),
                    Err(er) => (Err(er), rest.1),
                }
            } else {
                (Ok(seq![decl]), d.1)
            }
        },
        Err(er) => {
            if er is NoMatch {
                if 0 <= i && i < ts.len() {
                    (
                        (Err(
                            SpecParseError::ExpectingOther(ts[i], "declaration or end of file"@),
                        )),
                        i + 1,
                    )
                } else {
                    (Ok(Seq::empty()), i)
                }
            } else {
                (Err(er), d.1)
            }
        },
    }
}

/// The whole-module parse: declarations until end of input.
pub open spec fn spec_parse_module(ts: Seq<SpecToken>) -> Result<Seq<SpecDecl>, SpecParseError> {
    spec_module_at(ts, 0).0
}

/// A standalone declaration: one declaration, then the end of the input.
pub open spec fn spec_parse_single_decl(ts: Seq<SpecToken>) -> Result<SpecDecl, SpecParseError> {
    let d = spec_declaration_at(ts, 0);
    match d.0 {
        Ok(decl) => {
            if d.1 < ts.len() {
                Err(SpecParseError::ExpectingEndOfFile)
            } else {
                Ok(decl)
            }
        },
        Err(er) => Err(er),
    }
}

/// A standalone expression: one expression, then the end of the input.
pub open spec fn spec_parse_single_expr(ts: Seq<SpecToken>) -> Result<SpecExpr, SpecParseError> {
    let r = spec_expr_at(ts, 0, 0);
    match r.0 {
        Ok(e) => {
            if r.1 < ts.len() {
                Err(SpecParseError::ExpectingEndOfFile)
            } else {
                Ok(e)
            }
        },
        Err(er) => Err(er),
    }
}

/// Parsing is deterministic: two token sequences with the same kinds and
/// texts parse to the same outcome, so re-parsing identical source text
/// always produces a structurally identical tree. With the parsing
/// functions' contracts, which equate each result with a function of the
/// token sequence alone, no run-to-run variation is possible.
pub proof fn lemma_parse_deterministic(ts1: Seq<SpecToken>, ts2: Seq<SpecToken>)
    requires
        ts1 == ts2,
    ensures
        spec_parse_module(ts1) == spec_parse_module(ts2),
        spec_parse_single_decl(ts1) == spec_parse_single_decl(ts2),
        spec_parse_single_expr(ts1) == spec_parse_single_expr(ts2),
{
}

/// How an executable expression outcome corresponds to the specified one.
pub open spec fn expr_result_matches(
    r: Result<Expression, ParseError>,
    m: Result<SpecExpr, SpecParseError>,
) -> bool {
    match (r, m) {
        (Ok(e), Ok(se)) => e@ == se,
        (Err(e), Err(se)) => e@ == se,
        _ => false,
    }
}

/// How an executable declaration outcome corresponds to the specified one.
pub open spec fn decl_result_matches(
    r: Result<Declaration, ParseError>,
    m: Result<SpecDecl, SpecParseError>,
) -> bool {
    match (r, m) {
        (Ok(d), Ok(sd)) => d@ == sd,
        (Err(e), Err(se)) => e@ == se,
        _ => false,
    }
}

/// How an executable module outcome corresponds to the specified one.
pub open spec fn module_result_matches(
    r: Result<Module, ParseError>,
    m: Result<Seq<SpecDecl>, SpecParseError>,
) -> bool {
    match (r, m) {
        (Ok(md), Ok(ds)) => md@ == ds,
        (Err(e), Err(se)) => e@ == se,
        _ => false,
    }
}

/// A copy of a token with the same kind and text.
fn token_dup(t: &Token) -> (r: Token)
    ensures
        r@ == t@,
{
    Token { variant: t.variant, value: t.value.clone() }
}

fn try_match(tokens: &[Token], pos: usize, ty: TokenType) -> (res: (Result<
    Token,
    ParseError,
>, usize))
    requires
        pos <= tokens@.len(),
    ensures
        ({
            let m = spec_try_match(toks_view(tokens@), pos as int, ty);
            &&& match (res.0, m.0) {
                (Ok(t), Ok(st)) => t@ == st,
                (Err(e), Err(se)) => e@ == se,
                _ => false,
            }
            &&& res.1 as int == m.1
        }),
        pos <= res.1 <= tokens@.len(),
{
    if pos < tokens.len() && tokens[pos].variant == ty {
        proof {
            assert(toks_view(tokens@)[pos as int] == tokens@[pos as int]@);
        }
        (Ok(token_dup(&tokens[pos])), pos + 1)
    } else {
        proof {
            if pos < tokens@.len() {
                assert(toks_view(tokens@)[pos as int] == tokens@[pos as int]@);
            }
        }
        (Err(ParseError::NoMatch), pos)
    }
}

fn expect(tokens: &[Token], pos: usize, ty: TokenType) -> (res: (Result<Token, ParseError>, usize))
    requires
        pos <= tokens@.len(),
    ensures
        ({
            let m = spec_expect(toks_view(tokens@), pos as int, ty);
            &&& match (res.0, m.0) {
                (Ok(t), Ok(st)) => t@ == st,
                (Err(e), Err(se)) => e@ == se,
                _ => false,
            }
            &&& res.1 as int == m.1
        }),
        pos <= res.1 <= tokens@.len(),
        res.0 is Ok ==> pos < res.1,
{
    if pos >= tokens.len() {
        return (Err(ParseError::UnexpectedEndOfFile), pos);
    }
    proof {
        assert(toks_view(tokens@)[pos as int] == tokens@[pos as int]@);
    }
    if tokens[pos].variant == ty {
        (Ok(token_dup(&tokens[pos])), pos + 1)
    } else {
        (Err(ParseError::UnexpectedToken(token_dup(&tokens[pos]), ty)), pos + 1)
    }
}

impl Operator {
    /// The unary operator a token kind stands for, if any.
    pub fn unary(ty: &TokenType) -> (r: Option<Operator>)
        ensures
            r == unary_op_of(*ty),
    {
        match ty {
            TokenType::OpPlus => Some(Operator::UnaryPlus),
            TokenType::OpMinus => Some(Operator::UnaryMinus),
            _ => None,
        }
    }

    /// The binary operator a token kind stands for, if any.
    pub fn binary(ty: &TokenType) -> (r: Option<Operator>)
        ensures
            r == binary_op_of(*ty),
    {
        match ty {
            TokenType::OpPlus => Some(Operator::Add),
            TokenType::OpMinus => Some(Operator::Subtract),
            TokenType::OpMultiply => Some(Operator::Multiply),
            TokenType::OpDivide => Some(Operator::Divide),
            TokenType::OpModulo => Some(Operator::Modulo),
            _ => None,
        }
    }

    /// This operator's precedence level.
    pub fn precedence(&self) -> (p: u8)
        ensures
            p as int == op_prec(*self),
            p <= 6,
    {
        match self {
            Operator::Add => 0,
            Operator::Subtract => 1,
            Operator::Multiply => 2,
            Operator::Divide => 3,
            Operator::Modulo => 4,
            Operator::UnaryPlus => 5,
            Operator::UnaryMinus => 6,
        }
    }

    fn associativity(&self) -> (a: Associativity)
        ensures
            (a is Right) == op_right_assoc(*self),
    {
        match self {
            Operator::Add => Associativity::Left,
            Operator::Divide => Associativity::Left,
            Operator::Modulo => Associativity::Left,
            Operator::Multiply => Associativity::Left,
            Operator::Subtract => Associativity::Left,
            Operator::UnaryMinus => Associativity::Right,
            Operator::UnaryPlus => Associativity::Right,
        }
    }
}

/// The climbing loop of the parser, holding the expression parsed so far.
fn climb(tokens: &[Token], pos: usize, min_prec: u8, t: Expression) -> (res: (Result<
    Expression,
    ParseError,
>, usize))
    requires
        pos <= tokens@.len(),
    ensures
        ({
            let m = spec_climb(toks_view(tokens@), pos as int, min_prec as int, t@);
            &&& expr_result_matches(res.0, m.0)
            &&& res.1 as int == m.1
        }),
        pos <= res.1 <= tokens@.len(),
    decreases tokens@.len() - pos, 1int,
{
    if pos >= tokens.len() {
        return (Ok(t), pos);
    }
    proof {
        assert(toks_view(tokens@)[pos as int] == tokens@[pos as int]@);
    }
    let tok_ty = tokens[pos].variant;
    match Operator::binary(&tok_ty) {
        Some(op) => {
            if op.precedence() >= min_prec {
                let q = match op.associativity() {
                    Associativity::Right => op.precedence(),
                    Associativity::Left => op.precedence() + 1,
                };
                let (rr, rpos) = Expression::exp(tokens, pos + 1, q);
                match rr {
                    Ok(rhs) => {
                        let nt = Expression::BinaryExpression(op, Box::new(t), Box::new(rhs));
                        climb(tokens, rpos, min_prec, nt)
                    },
                    Err(er) => (Err(er), rpos),
                }
            } else {
                (Ok(t), pos)
            }
        },
        None => {
            let (ar, apos) = Expression::p(tokens, pos);
            match ar {
                Ok(arg) => {
                    let nt = Expression::CallExpression(Box::new(t), Box::new(arg));
                    climb(tokens, apos, min_prec, nt)
                },
                Err(_) => (Ok(t), pos),
            }
        },
    }
}

impl Expression {
    /// A full expression, with operators of every precedence allowed.
    fn parse(tokens: &[Token], pos: usize) -> (res: (Result<Self, ParseError>, usize))
        requires
            pos <= tokens@.len(),
        ensures
            ({
                let m = spec_expr_at(toks_view(tokens@), pos as int, 0);
                &&& expr_result_matches(res.0, m.0)
                &&& res.1 as int == m.1
            }),
            pos <= res.1 <= tokens@.len(),
            res.0 is Ok ==> pos < res.1,
        decreases tokens@.len() - pos, 3int,
    {
        Self::exp(tokens, pos, 0)
    }

    /// An expression whose operators all bind at least `min_prec`.
    fn exp(tokens: &[Token], pos: usize, min_prec: u8) -> (res: (Result<Self, ParseError>, usize))
        requires
            pos <= tokens@.len(),
        ensures
            ({
                let m = spec_expr_at(toks_view(tokens@), pos as int, min_prec as int);
                &&& expr_result_matches(res.0, m.0)
                &&& res.1 as int == m.1
            }),
            pos <= res.1 <= tokens@.len(),
            res.0 is Ok ==> pos < res.1,
        decreases tokens@.len() - pos, 2int,
    {
        let (pr, ppos) = Self::p(tokens, pos);
        match pr {
            Err(er) => (Err(er), ppos),
            Ok(t) => climb(tokens, ppos, min_prec, t),
        }
    }

    /// A primary expression.
    fn p(tokens: &[Token], pos: usize) -> (res: (Result<Self, ParseError>, usize))
        requires
            pos <= tokens@.len(),
        ensures
            ({
                let m = spec_primary(toks_view(tokens@), pos as int);
                &&& expr_result_matches(res.0, m.0)
                &&& res.1 as int == m.1
            }),
            pos <= res.1 <= tokens@.len(),
            res.0 is Ok ==> pos < res.1,
        decreases tokens@.len() - pos, 0int,
    {
        if pos >= tokens.len() {
            return (Err(ParseError::UnexpectedEndOfFile), pos);
        }
        proof {
            assert(toks_view(tokens@)[pos as int] == tokens@[pos as int]@);
        }
        let tok_ty = tokens[pos].variant;
        match Operator::unary(&tok_ty) {
            Some(op) => {
                let (rr, rpos) = Self::exp(tokens, pos + 1, op.precedence());
                match rr {
                    Ok(e) => (Ok(Expression::UnaryExpression(op, Box::new(e))), rpos),
                    Err(er) => (Err(er), rpos),
                }
            },
            None => {
                if tok_ty == TokenType::OpenParen {
                    let (rr, rpos) = Self::exp(tokens, pos + 1, 0);
                    match rr {
                        Ok(e) => {
                            let (xr, xpos) = expect(tokens, rpos, TokenType::CloseParen);
                            match xr {
                                Ok(_) => (Ok(e), xpos),
                                Err(er) => (Err(er), xpos),
                            }
                        },
                        Err(er) => (Err(er), rpos),
                    }
                } else if tok_ty == TokenType::Identifier {
                    let idval = tokens[pos].value.clone();
                    if pos + 1 < tokens.len() && tokens[pos + 1].variant == TokenType::OpFunction {
                        proof {
                            assert(toks_view(tokens@)[pos as int + 1] == tokens@[pos as int + 1]@);
                        }
                        let (rr, rpos) = Self::exp(tokens, pos + 2, 0);
                        match rr {
                            Ok(body) => (
                                Ok(Expression::FunctionExpression(idval, Box::new(body))),
                                rpos,
                            ),
                            Err(er) => (Err(er), rpos),
                        }
                    } else {
                        proof {
                            if pos as int + 1 < tokens@.len() {
                                assert(toks_view(tokens@)[pos as int + 1] == tokens@[pos as int
                                    + 1]@);
                            }
                        }
                        (Ok(Expression::IdentifierExpression(idval)), pos + 1)
                    }
                } else if tok_ty == TokenType::NumberLiteral {
                    (Ok(Expression::NumberExpression(tokens[pos].value.clone())), pos + 1)
                } else if tok_ty == TokenType::StringLiteral {
                    (Ok(Expression::StringExpression(tokens[pos].value.clone())), pos + 1)
                } else {
                    let mut expected: Vec<TokenType> = Vec::new();
                    expected.push(TokenType::Identifier);
                    expected.push(TokenType::NumberLiteral);
                    expected.push(TokenType::StringLiteral);
                    proof {
                        assert(expected@ =~= seq![
                            TokenType::Identifier,
                            TokenType::NumberLiteral,
                            TokenType::StringLiteral,
                        ]);
                    }
                    (
                        (Err(
                            ParseError::UnexpectedTokenMultiple(token_dup(&tokens[pos]), expected),
                        )),
                        pos,
                    )
                }
            },
        }
    }
}

impl Expression {
    /// A structurally identical copy of this expression.
    pub fn dup(&self) -> (r: Expression)
        ensures
            r@ == self@,
        decreases self,
    {
        match self {
            Expression::IdentifierExpression(id) => Expression::IdentifierExpression(id.clone()),
            Expression::NumberExpression(tx) => Expression::NumberExpression(tx.clone()),
            Expression::StringExpression(tx) => Expression::StringExpression(tx.clone()),
            Expression::FunctionExpression(p, b) => Expression::FunctionExpression(
                p.clone(),
                Box::new((**b).dup()),
            ),
            Expression::CallExpression(f, a) => Expression::CallExpression(
                Box::new((**f).dup()),
                Box::new((**a).dup()),
            ),
            Expression::BinaryExpression(op, l, r0) => Expression::BinaryExpression(
                *op,
                Box::new((**l).dup()),
                Box::new((**r0).dup()),
            ),
            Expression::UnaryExpression(op, o) => Expression::UnaryExpression(
                *op,
                Box::new((**o).dup()),
            ),
            Expression::BlockExpression => Expression::BlockExpression,
        }
    }
}

impl Declaration {
    /// One `let name = initializer` declaration.
    fn parse(tokens: &[Token], pos: usize) -> (res: (Result<Self, ParseError>, usize))
        requires
            pos <= tokens@.len(),
        ensures
            ({
                let m = spec_declaration_at(toks_view(tokens@), pos as int);
                &&& decl_result_matches(res.0, m.0)
                &&& res.1 as int == m.1
            }),
            pos <= res.1 <= tokens@.len(),
            res.0 is Ok ==> pos < res.1,
    {
        let (mr, mpos) = try_match(tokens, pos, TokenType::LetKeyword);
        match mr {
            Err(er) => (Err(er), mpos),
            Ok(_) => {
                let (idr, idpos) = expect(tokens, mpos, TokenType::Identifier);
                match idr {
                    Err(er) => (Err(er), idpos),
                    Ok(idtok) => {
                        let (eqr, eqpos) = expect(tokens, idpos, TokenType::OpAssign);
                        match eqr {
                            Err(er) => (Err(er), eqpos),
                            Ok(_) => {
                                let (er2, epos) = Expression::parse(tokens, eqpos);
                                match er2 {
                                    Ok(e) => (
                                        Ok(
                                            Declaration {
                                                identifier: idtok.value,
                                                initializer: e,
                                            },
                                        ),
                                        epos,
                                    ),
                                    Err(er) => (Err(er), epos),
                                }
                            },
                        }
                    },
                }
            },
        }
    }
}

proof fn lemma_decls_view_push(ds: Seq<Declaration>, d: Declaration)
    ensures
        ds.push(d).map_values(|x: Declaration| x@) == ds.map_values(|x: Declaration| x@).push(d@),
{
    assert(ds.push(d).map_values(|x: Declaration| x@) =~= ds.map_values(|x: Declaration| x@).push(
        d@,
    ));
}

impl Module {
    /// Declarations until the non-match signal, which must then stand at
    /// the end of the input.
    fn parse(tokens: &[Token], pos: usize) -> (r: Result<Self, ParseError>)
        requires
            pos <= tokens@.len(),
        ensures
            module_result_matches(r, spec_module_at(toks_view(tokens@), pos as int).0),
    {
        let ghost ts = toks_view(tokens@);
        let mut decls: Vec<Declaration> = Vec::new();
        let mut p: usize = pos;
        loop
            invariant
                pos <= p <= tokens@.len(),
                ts == toks_view(tokens@),
                ({
                    let whole = spec_module_at(ts, pos as int).0;
                    let rest = spec_module_at(ts, p as int).0;
                    match rest {
                        Ok(ds) => whole == Ok::<Seq<SpecDecl>, SpecParseError>(
                            decls@.map_values(|x: Declaration| x@) + ds,
                        ),
                        Err(e) => whole == Err::<Seq<SpecDecl>, SpecParseError>(e),
                    }
                }),
            decreases tokens@.len() - p,
        {
            let ghost done = decls@.map_values(|x: Declaration| x@);
            let ghost pp = p as int;
            let (dr, dpos) = Declaration::parse(tokens, p);
            match dr {
                Ok(d) => {
                    proof {
                        let rest = spec_module_at(ts, dpos as int).0;
                        match rest {
                            Ok(ds) => {
                                assert(done + (seq![d@] + ds) =~= done.push(d@) + ds);
                            },
                            Err(_) => {},
                        }
                        lemma_decls_view_push(decls@, d);
                    }
                    decls.push(d);
                    p = dpos;
                },
                Err(e) => {
                    match e {
                        ParseError::NoMatch => {
                            if p < tokens.len() {
                                proof {
                                    assert(ts[p as int] == tokens@[p as int]@);
                                }
                                return Err(
                                    ParseError::ExpectingOther(
                                        token_dup(&tokens[p]),
                                        "declaration or end of file".to_owned(),
                                    ),
                                );
                            } else {
                                proof {
                                    assert(done + Seq::<SpecDecl>::empty() =~= done);
                                }
                                return Ok(Module { declarations: decls });
                            }
                        },
                        _ => {
                            return Err(e);
                        },
                    }
                },
            }
        }
    }
}

/// Parses a whole module: declarations until the end of the input.
pub fn parse_module(tokens: &[Token]) -> (r: Result<Module, ParseError>)
    ensures
        module_result_matches(r, spec_parse_module(toks_view(tokens@))),
{
    Module::parse(tokens, 0)
}

/// Parses one declaration, which must span the whole input.
pub fn parse_single_decl(tokens: &[Token]) -> (r: Result<Declaration, ParseError>)
    ensures
        decl_result_matches(r, spec_parse_single_decl(toks_view(tokens@))),
{
    let (dr, dpos) = Declaration::parse(tokens, 0);
    match dr {
        Ok(d) => {
            if dpos < tokens.len() {
                Err(ParseError::ExpectingEndOfFile)
            } else {
                Ok(d)
            }
        },
        Err(er) => Err(er),
    }
}

/// Parses one expression, which must span the whole input.
pub fn parse_single_expr(tokens: &[Token]) -> (r: Result<Expression, ParseError>)
    ensures
        expr_result_matches(r, spec_parse_single_expr(toks_view(tokens@))),
{
    let (er, epos) = Expression::parse(tokens, 0);
    match er {
        Ok(e) => {
            if epos < tokens.len() {
                Err(ParseError::ExpectingEndOfFile)
            } else {
                Ok(e)
            }
        },
        Err(e) => Err(e),
    }
}

} // verus!
