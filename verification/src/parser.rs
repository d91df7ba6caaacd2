//! Recursive descent parser for the C subset.
//!
//! The grammar, with the precedence of the binary operators from loosest to
//! tightest (all left-associative), is written out as the spec functions
//! `parse_expr` ... `parse_program` below; the executable parser follows them
//! token by token.

use vstd::prelude::*;
use crate::ast::{BinOp, UnaryOp, SExpr, SStatement, SFunction, SProgram, Expr, Statement, Function, Program, stmt_view, stmts_view, exprs_view, names_view, functions_view, opt_expr_view};
use crate::lexer::{Token, SpecToken, spec_lex, lex, lex_error_message, byte_offset, tokens_view, copy_token, opt_token_view, opt_debug_text, append_opt_debug, double_token, single_token};
use vstd::string::*;

verus! {

/// Why parsing failed.
#[derive(Debug)]
pub enum ParseError {
    /// The source text did not lex; the lexer's message.
    Lex(String),
    /// `want` was expected where `got` (or the end of input) came.
    Expected { want: Token, got: Option<Token> },
    /// An identifier was expected where `got` (or the end of input) came.
    ExpectedIdent { got: Option<Token> },
    /// An expression was expected where `got` (or the end of input) came.
    ExpectedExpression { got: Option<Token> },
}

/// Model of a parse error.
pub enum SpecParseError {
    Lex(Seq<char>),
    Expected { want: SpecToken, got: Option<SpecToken> },
    ExpectedIdent { got: Option<SpecToken> },
    ExpectedExpression { got: Option<SpecToken> },
}


impl View for ParseError {
    type V = SpecParseError;

    open spec fn view(&self) -> SpecParseError {
        match self {
            ParseError::Lex(m) => SpecParseError::Lex(m@),
            ParseError::Expected { want, got } => SpecParseError::Expected {
                want: want@,
                got: opt_token_view(*got),
            },
            ParseError::ExpectedIdent { got } => SpecParseError::ExpectedIdent { got: opt_token_view(*got) },
            ParseError::ExpectedExpression { got } => SpecParseError::ExpectedExpression {
                got: opt_token_view(*got),
            },
        }
    }
}

/// A parse of some `T` from a token position: the value and the position after
/// it, or the error and the position at which the parser stopped.
pub type PResult<T> = Result<(T, int), (SpecParseError, int)>;

/// The token at position `p`, if any.
pub open spec fn peek(ts: Seq<SpecToken>, p: int) -> Option<SpecToken> {
    if 0 <= p < ts.len() {
        Some(ts[p])
    } else {
        None
    }
}

/// The position after reading one token at `p`: one further, unless the
/// input has ended there.
pub open spec fn after(ts: Seq<SpecToken>, p: int) -> int {
    if 0 <= p < ts.len() {
        p + 1
    } else {
        p
    }
}

/// Tokens that are compared by kind alone: all but numbers and identifiers.
pub open spec fn is_simple(t: SpecToken) -> bool {
    !(t is Number) && !(t is Ident)
}

/// Whether the token at `p` is `want` (never true for numbers and identifiers).
pub open spec fn at(ts: Seq<SpecToken>, p: int, want: SpecToken) -> bool {
    peek(ts, p) == Some(want) && is_simple(want)
}

/// Consumes the token at `p`, which must be `want`; a wrong token is
/// consumed too.
pub open spec fn expect(ts: Seq<SpecToken>, p: int, want: SpecToken) -> Result<int, (SpecParseError, int)> {
    if at(ts, p, want) {
        Ok(p + 1)
    } else {
        Err((SpecParseError::Expected { want, got: peek(ts, p) }, after(ts, p)))
    }
}

/// Consumes the token at `p`, which must be an identifier.
pub open spec fn expect_ident(ts: Seq<SpecToken>, p: int) -> PResult<Seq<char>> {
    match peek(ts, p) {
        Some(SpecToken::Ident(s)) => Ok((s, p + 1)),
        other => Err((SpecParseError::ExpectedIdent { got: other }, after(ts, p))),
    }
}

/// `p < q <= ts.len()`: a parse that went on from `p` to `q` consumed tokens.
/// Every successful parse consumes at least one token, so where the
/// definitions below test this it always holds; the test witnesses that the
/// definitions terminate.
pub open spec fn advanced(ts: Seq<SpecToken>, p: int, q: int) -> bool {
    p < q <= ts.len()
}

/// The value of a failed termination witness (never reached, see `advanced`).
pub open spec fn stuck<T>() -> PResult<T> {
    Err((SpecParseError::ExpectedExpression { got: None }, 0))
}

pub open spec fn binop(op: BinOp, left: SExpr, right: SExpr) -> SExpr {
    SExpr::BinOp { op, left: Box::new(left), right: Box::new(right) }
}

/// expr := or
pub open spec fn parse_expr(ts: Seq<SpecToken>, p: int) -> PResult<SExpr>
    decreases ts.len() - p, 16int,
{
    parse_or(ts, p)
}

/// or := and ('||' and)*, left-associative
pub open spec fn parse_or(ts: Seq<SpecToken>, p: int) -> PResult<SExpr>
    decreases ts.len() - p, 15int,
{
    match parse_and(ts, p) {
        Ok((l, p1)) => if advanced(ts, p, p1) {
            parse_or_rest(ts, l, p1)
        } else {
            stuck()
        },
        Err(e) => Err(e),
    }
}

pub open spec fn parse_or_rest(ts: Seq<SpecToken>, left: SExpr, p: int) -> PResult<SExpr>
    decreases ts.len() - p, 14int,
{
    if at(ts, p, SpecToken::OrOr) {
        match parse_and(ts, p + 1) {
            Ok((r, p2)) => if advanced(ts, p, p2) {
                parse_or_rest(ts, binop(BinOp::OrOr, left, r), p2)
            } else {
                stuck()
            },
            Err(e) => Err(e),
        }
    } else {
        Ok((left, p))
    }
}

/// and := eq ('&&' eq)*, left-associative
pub open spec fn parse_and(ts: Seq<SpecToken>, p: int) -> PResult<SExpr>
    decreases ts.len() - p, 13int,
{
    match parse_eq(ts, p) {
        Ok((l, p1)) => if advanced(ts, p, p1) {
            parse_and_rest(ts, l, p1)
        } else {
            stuck()
        },
        Err(e) => Err(e),
    }
}

pub open spec fn parse_and_rest(ts: Seq<SpecToken>, left: SExpr, p: int) -> PResult<SExpr>
    decreases ts.len() - p, 12int,
{
    if at(ts, p, SpecToken::AndAnd) {
        match parse_eq(ts, p + 1) {
            Ok((r, p2)) => if advanced(ts, p, p2) {
                parse_and_rest(ts, binop(BinOp::AndAnd, left, r), p2)
            } else {
                stuck()
            },
            Err(e) => Err(e),
        }
    } else {
        Ok((left, p))
    }
}

/// The equality operator at `p`, if any.
pub open spec fn eq_op(ts: Seq<SpecToken>, p: int) -> Option<BinOp> {
    if at(ts, p, SpecToken::EqEq) {
        Some(BinOp::Eq)
    } else if at(ts, p, SpecToken::Ne) {
        Some(BinOp::Ne)
    } else {
        None
    }
}

/// eq := rel (('==' | '!=') rel)*, left-associative
pub open spec fn parse_eq(ts: Seq<SpecToken>, p: int) -> PResult<SExpr>
    decreases ts.len() - p, 11int,
{
    match parse_rel(ts, p) {
        Ok((l, p1)) => if advanced(ts, p, p1) {
            parse_eq_rest(ts, l, p1)
        } else {
            stuck()
        },
        Err(e) => Err(e),
    }
}

pub open spec fn parse_eq_rest(ts: Seq<SpecToken>, left: SExpr, p: int) -> PResult<SExpr>
    decreases ts.len() - p, 10int,
{
    match eq_op(ts, p) {
        Some(op) => match parse_rel(ts, p + 1) {
            Ok((r, p2)) => if advanced(ts, p, p2) {
                parse_eq_rest(ts, binop(op, left, r), p2)
            } else {
                stuck()
            },
            Err(e) => Err(e),
        },
        None => Ok((left, p)),
    }
}

/// The relational operator at `p`, if any.
pub open spec fn rel_op(ts: Seq<SpecToken>, p: int) -> Option<BinOp> {
    if at(ts, p, SpecToken::Lt) {
        Some(BinOp::Lt)
    } else if at(ts, p, SpecToken::Le) {
        Some(BinOp::Le)
    } else if at(ts, p, SpecToken::Gt) {
        Some(BinOp::Gt)
    } else if at(ts, p, SpecToken::Ge) {
        Some(BinOp::Ge)
    } else {
        None
    }
}

/// rel := add (('<' | '<=' | '>' | '>=') add)*, left-associative
pub open spec fn parse_rel(ts: Seq<SpecToken>, p: int) -> PResult<SExpr>
    decreases ts.len() - p, 9int,
{
    match parse_add(ts, p) {
        Ok((l, p1)) => if advanced(ts, p, p1) {
            parse_rel_rest(ts, l, p1)
        } else {
            stuck()
        },
        Err(e) => Err(e),
    }
}

pub open spec fn parse_rel_rest(ts: Seq<SpecToken>, left: SExpr, p: int) -> PResult<SExpr>
    decreases ts.len() - p, 8int,
{
    match rel_op(ts, p) {
        Some(op) => match parse_add(ts, p + 1) {
            Ok((r, p2)) => if advanced(ts, p, p2) {
                parse_rel_rest(ts, binop(op, left, r), p2)
            } else {
                stuck()
            },
            Err(e) => Err(e),
        },
        None => Ok((left, p)),
    }
}

/// The additive operator at `p`, if any.
pub open spec fn add_op(ts: Seq<SpecToken>, p: int) -> Option<BinOp> {
    match peek(ts, p) {
        Some(SpecToken::Plus) => Some(BinOp::Add),
        Some(SpecToken::Minus) => Some(BinOp::Sub),
        _ => None,
    }
}

/// add := mul (('+' | '-') mul)*, left-associative
pub open spec fn parse_add(ts: Seq<SpecToken>, p: int) -> PResult<SExpr>
    decreases ts.len() - p, 7int,
{
    match parse_mul(ts, p) {
        Ok((l, p1)) => if advanced(ts, p, p1) {
            parse_add_rest(ts, l, p1)
        } else {
            stuck()
        },
        Err(e) => Err(e),
    }
}

pub open spec fn parse_add_rest(ts: Seq<SpecToken>, left: SExpr, p: int) -> PResult<SExpr>
    decreases ts.len() - p, 6int,
{
    match add_op(ts, p) {
        Some(op) => match parse_mul(ts, p + 1) {
            Ok((r, p2)) => if advanced(ts, p, p2) {
                parse_add_rest(ts, binop(op, left, r), p2)
            } else {
                stuck()
            },
            Err(e) => Err(e),
        },
        None => Ok((left, p)),
    }
}

/// The multiplicative operator at `p`, if any.
pub open spec fn mul_op(ts: Seq<SpecToken>, p: int) -> Option<BinOp> {
    match peek(ts, p) {
        Some(SpecToken::Star) => Some(BinOp::Mul),
        Some(SpecToken::Slash) => Some(BinOp::Div),
        Some(SpecToken::Percent) => Some(BinOp::Mod),
        _ => None,
    }
}

/// mul := unary (('*' | '/' | '%') unary)*, left-associative
pub open spec fn parse_mul(ts: Seq<SpecToken>, p: int) -> PResult<SExpr>
    decreases ts.len() - p, 5int,
{
    match parse_unary(ts, p) {
        Ok((l, p1)) => if advanced(ts, p, p1) {
            parse_mul_rest(ts, l, p1)
        } else {
            stuck()
        },
        Err(e) => Err(e),
    }
}

pub open spec fn parse_mul_rest(ts: Seq<SpecToken>, left: SExpr, p: int) -> PResult<SExpr>
    decreases ts.len() - p, 4int,
{
    match mul_op(ts, p) {
        Some(op) => match parse_unary(ts, p + 1) {
            Ok((r, p2)) => if advanced(ts, p, p2) {
                parse_mul_rest(ts, binop(op, left, r), p2)
            } else {
                stuck()
            },
            Err(e) => Err(e),
        },
        None => Ok((left, p)),
    }
}

/// unary := '-' unary | '!' unary | primary
pub open spec fn parse_unary(ts: Seq<SpecToken>, p: int) -> PResult<SExpr>
    decreases ts.len() - p, 3int,
{
    if at(ts, p, SpecToken::Minus) {
        match parse_unary(ts, p + 1) {
            Ok((o, p2)) => Ok((SExpr::UnaryOp { op: UnaryOp::Neg, operand: Box::new(o) }, p2)),
            Err(e) => Err(e),
        }
    } else if at(ts, p, SpecToken::Bang) {
        match parse_unary(ts, p + 1) {
            Ok((o, p2)) => Ok((SExpr::UnaryOp { op: UnaryOp::Not, operand: Box::new(o) }, p2)),
            Err(e) => Err(e),
        }
    } else {
        parse_primary(ts, p)
    }
}

/// primary := number | ident '(' args ')' | ident '=' expr | ident | '(' expr ')'
pub open spec fn parse_primary(ts: Seq<SpecToken>, p: int) -> PResult<SExpr>
    decreases ts.len() - p, 2int,
{
    match peek(ts, p) {
        Some(SpecToken::Number(n)) => Ok((SExpr::Number(n), p + 1)),
        Some(SpecToken::Ident(name)) => if at(ts, p + 1, SpecToken::LParen) {
            match parse_arg_list(ts, p + 2) {
                Ok((args, p3)) => match expect(ts, p3, SpecToken::RParen) {
                    Ok(p4) => Ok((SExpr::Call { name, args }, p4)),
                    Err(e) => Err(e),
                },
                Err(e) => Err(e),
            }
        } else if at(ts, p + 1, SpecToken::Eq) {
            match parse_expr(ts, p + 2) {
                Ok((v, p3)) => Ok((SExpr::Assign { name, value: Box::new(v) }, p3)),
                Err(e) => Err(e),
            }
        } else {
            Ok((SExpr::Ident(name), p + 1))
        },
        Some(SpecToken::LParen) => match parse_expr(ts, p + 1) {
            Ok((e, p2)) => match expect(ts, p2, SpecToken::RParen) {
                Ok(p3) => Ok((e, p3)),
                Err(err) => Err(err),
            },
            Err(e) => Err(e),
        },
        other => Err((SpecParseError::ExpectedExpression { got: other }, after(ts, p))),
    }
}

/// args := (expr (',' expr)*)? before a ')'
pub open spec fn parse_arg_list(ts: Seq<SpecToken>, p: int) -> PResult<Seq<SExpr>>
    decreases ts.len() - p, 18int,
{
    if !at(ts, p, SpecToken::RParen) {
        match parse_expr(ts, p) {
            Ok((e, p1)) => if advanced(ts, p, p1) {
                parse_arg_rest(ts, seq![e], p1)
            } else {
                stuck()
            },
            Err(e) => Err(e),
        }
    } else {
        Ok((Seq::empty(), p))
    }
}

pub open spec fn parse_arg_rest(ts: Seq<SpecToken>, acc: Seq<SExpr>, p: int) -> PResult<Seq<SExpr>>
    decreases ts.len() - p, 17int,
{
    if at(ts, p, SpecToken::Comma) {
        match parse_expr(ts, p + 1) {
            Ok((e, p2)) => if advanced(ts, p, p2) {
                parse_arg_rest(ts, acc.push(e), p2)
            } else {
                stuck()
            },
            Err(e) => Err(e),
        }
    } else {
        Ok((acc, p))
    }
}

/// block := statement* before a '}', appended to `acc`
pub open spec fn parse_block(ts: Seq<SpecToken>, acc: Seq<SStatement>, p: int) -> PResult<Seq<SStatement>>
    decreases ts.len() - p, 3int,
{
    if at(ts, p, SpecToken::RBrace) {
        Ok((acc, p))
    } else {
        match parse_statement(ts, p) {
            Ok((s, p1)) => if advanced(ts, p, p1) {
                parse_block(ts, acc.push(s), p1)
            } else {
                stuck()
            },
            Err(e) => Err(e),
        }
    }
}

/// braced := '{' block '}'
pub open spec fn parse_braced(ts: Seq<SpecToken>, p: int) -> PResult<Seq<SStatement>>
    decreases ts.len() - p, 4int,
{
    match expect(ts, p, SpecToken::LBrace) {
        Ok(p1) => match parse_block(ts, Seq::empty(), p1) {
            Ok((body, p2)) => match expect(ts, p2, SpecToken::RBrace) {
                Ok(p3) => Ok((body, p3)),
                Err(e) => Err(e),
            },
            Err(e) => Err(e),
        },
        Err(e) => Err(e),
    }
}

/// The rest of a declaration after `int`: ident ('=' expr)? ';'
pub open spec fn parse_declaration(ts: Seq<SpecToken>, p: int) -> PResult<SStatement> {
    match expect_ident(ts, p) {
        Ok((name, p2)) => if at(ts, p2, SpecToken::Eq) {
            match parse_expr(ts, p2 + 1) {
                Ok((e, p3)) => match expect(ts, p3, SpecToken::Semicolon) {
                    Ok(p4) => Ok((SStatement::DeclInit { name, init: e }, p4)),
                    Err(err) => Err(err),
                },
                Err(err) => Err(err),
            }
        } else {
            match expect(ts, p2, SpecToken::Semicolon) {
                Ok(p3) => Ok((SStatement::Decl { name }, p3)),
                Err(err) => Err(err),
            }
        },
        Err(err) => Err(err),
    }
}

/// An expression followed by `end`.
pub open spec fn parse_expr_then(ts: Seq<SpecToken>, p: int, end: SpecToken) -> PResult<SExpr> {
    match parse_expr(ts, p) {
        Ok((e, p1)) => match expect(ts, p1, end) {
            Ok(p2) => Ok((e, p2)),
            Err(err) => Err(err),
        },
        Err(err) => Err(err),
    }
}

/// '(' expr ')', the condition of `if` and `while`
pub open spec fn parse_paren_cond(ts: Seq<SpecToken>, p: int) -> PResult<SExpr> {
    match expect(ts, p, SpecToken::LParen) {
        Ok(p1) => parse_expr_then(ts, p1, SpecToken::RParen),
        Err(err) => Err(err),
    }
}

/// for_init := ';' | 'int' declaration | expr ';'
pub open spec fn parse_for_init(ts: Seq<SpecToken>, p: int) -> PResult<Option<Box<SStatement>>> {
    if at(ts, p, SpecToken::Semicolon) {
        Ok((None, p + 1))
    } else if at(ts, p, SpecToken::Int) {
        match parse_declaration(ts, p + 1) {
            Ok((s, p2)) => Ok((Some(Box::new(s)), p2)),
            Err(err) => Err(err),
        }
    } else {
        match parse_expr_then(ts, p, SpecToken::Semicolon) {
            Ok((e, p2)) => Ok((Some(Box::new(SStatement::Expr(e))), p2)),
            Err(err) => Err(err),
        }
    }
}

/// for_cond := ';' | expr ';'
pub open spec fn parse_for_cond(ts: Seq<SpecToken>, p: int) -> PResult<Option<SExpr>> {
    if at(ts, p, SpecToken::Semicolon) {
        Ok((None, p + 1))
    } else {
        match parse_expr_then(ts, p, SpecToken::Semicolon) {
            Ok((e, p2)) => Ok((Some(e), p2)),
            Err(err) => Err(err),
        }
    }
}

/// for_step := expr? ')'
pub open spec fn parse_for_step(ts: Seq<SpecToken>, p: int) -> PResult<Option<SExpr>> {
    if at(ts, p, SpecToken::RParen) {
        Ok((None, p + 1))
    } else {
        match parse_expr_then(ts, p, SpecToken::RParen) {
            Ok((e, p2)) => Ok((Some(e), p2)),
            Err(err) => Err(err),
        }
    }
}

/// if_stmt := 'if' '(' expr ')' braced ('else' braced)?   (p is after 'if')
pub open spec fn parse_if(ts: Seq<SpecToken>, start: int, p: int) -> PResult<SStatement>
    decreases ts.len() - start, 1int,
{
    match parse_paren_cond(ts, p) {
        Ok((cond, p3)) => if advanced(ts, start, p3) {
            match parse_braced(ts, p3) {
                Ok((then_body, p4)) => if at(ts, p4, SpecToken::Else) {
                    if advanced(ts, start, p4) {
                        match parse_braced(ts, p4 + 1) {
                            Ok((eb, p5)) => Ok((SStatement::If { cond, then_body, else_body: Some(eb) }, p5)),
                            Err(e) => Err(e),
                        }
                    } else {
                        stuck()
                    }
                } else {
                    Ok((SStatement::If { cond, then_body, else_body: None }, p4))
                },
                Err(e) => Err(e),
            }
        } else {
            stuck()
        },
        Err(e) => Err(e),
    }
}

/// while_stmt := 'while' '(' expr ')' braced   (p is after 'while')
pub open spec fn parse_while(ts: Seq<SpecToken>, start: int, p: int) -> PResult<SStatement>
    decreases ts.len() - start, 1int,
{
    match parse_paren_cond(ts, p) {
        Ok((cond, p3)) => if advanced(ts, start, p3) {
            match parse_braced(ts, p3) {
                Ok((body, p4)) => Ok((SStatement::While { cond, body }, p4)),
                Err(e) => Err(e),
            }
        } else {
            stuck()
        },
        Err(e) => Err(e),
    }
}

/// for_stmt := 'for' '(' for_init for_cond for_step braced   (p is after 'for')
pub open spec fn parse_for(ts: Seq<SpecToken>, start: int, p: int) -> PResult<SStatement>
    decreases ts.len() - start, 1int,
{
    match expect(ts, p, SpecToken::LParen) {
        Ok(p1) => match parse_for_init(ts, p1) {
            Ok((init, p2)) => match parse_for_cond(ts, p2) {
                Ok((cond, p3)) => match parse_for_step(ts, p3) {
                    Ok((step, p4)) => if advanced(ts, start, p4) {
                        match parse_braced(ts, p4) {
                            Ok((body, p5)) => Ok((SStatement::For { init, cond, step, body }, p5)),
                            Err(e) => Err(e),
                        }
                    } else {
                        stuck()
                    },
                    Err(e) => Err(e),
                },
                Err(e) => Err(e),
            },
            Err(e) => Err(e),
        },
        Err(e) => Err(e),
    }
}

/// statement := 'int' declaration | 'return' expr? ';' | if_stmt | while_stmt
///            | for_stmt | expr ';'
pub open spec fn parse_statement(ts: Seq<SpecToken>, p: int) -> PResult<SStatement>
    decreases ts.len() - p, 2int,
{
    if at(ts, p, SpecToken::Int) {
        parse_declaration(ts, p + 1)
    } else if at(ts, p, SpecToken::Return) {
        if at(ts, p + 1, SpecToken::Semicolon) {
            Ok((SStatement::Return(None), p + 2))
        } else {
            match parse_expr_then(ts, p + 1, SpecToken::Semicolon) {
                Ok((e, p2)) => Ok((SStatement::Return(Some(e)), p2)),
                Err(err) => Err(err),
            }
        }
    } else if at(ts, p, SpecToken::If) {
        parse_if(ts, p, p + 1)
    } else if at(ts, p, SpecToken::While) {
        parse_while(ts, p, p + 1)
    } else if at(ts, p, SpecToken::For) {
        parse_for(ts, p, p + 1)
    } else {
        match parse_expr_then(ts, p, SpecToken::Semicolon) {
            Ok((e, p2)) => Ok((SStatement::Expr(e), p2)),
            Err(err) => Err(err),
        }
    }
}

/// params := ('int' ident (',' 'int' ident)*)?
pub open spec fn parse_param_list(ts: Seq<SpecToken>, p: int) -> PResult<Seq<Seq<char>>> {
    if at(ts, p, SpecToken::Int) {
        match expect_ident(ts, p + 1) {
            Ok((name, p2)) => parse_param_rest(ts, seq![name], p2),
            Err(e) => Err(e),
        }
    } else {
        Ok((Seq::empty(), p))
    }
}

pub open spec fn parse_param_rest(ts: Seq<SpecToken>, acc: Seq<Seq<char>>, p: int) -> PResult<Seq<Seq<char>>>
    decreases ts.len() - p,
{
    if at(ts, p, SpecToken::Comma) {
        match expect(ts, p + 1, SpecToken::Int) {
            Ok(p2) => match expect_ident(ts, p2) {
                Ok((name, p3)) => parse_param_rest(ts, acc.push(name), p3),
                Err(e) => Err(e),
            },
            Err(e) => Err(e),
        }
    } else {
        Ok((acc, p))
    }
}

/// function := 'int' ident '(' params ')' '{' block '}'
pub open spec fn parse_function(ts: Seq<SpecToken>, p: int) -> PResult<SFunction> {
    match expect(ts, p, SpecToken::Int) {
        Ok(p1) => match expect_ident(ts, p1) {
            Ok((name, p2)) => match expect(ts, p2, SpecToken::LParen) {
                Ok(p3) => match parse_param_list(ts, p3) {
                    Ok((params, p4)) => match expect(ts, p4, SpecToken::RParen) {
                        Ok(p5) => match parse_braced(ts, p5) {
                            Ok((body, p6)) => Ok((SFunction { name, params, body }, p6)),
                            Err(e) => Err(e),
                        },
                        Err(e) => Err(e),
                    },
                    Err(e) => Err(e),
                },
                Err(e) => Err(e),
            },
            Err(e) => Err(e),
        },
        Err(e) => Err(e),
    }
}

/// program := function* up to the end of input, appended to `acc`
pub open spec fn parse_program(ts: Seq<SpecToken>, acc: Seq<SFunction>, p: int) -> Result<Seq<SFunction>, (SpecParseError, int)>
    decreases ts.len() - p,
{
    if 0 <= p < ts.len() {
        match parse_function(ts, p) {
            Ok((f, p1)) => if advanced(ts, p, p1) {
                parse_program(ts, acc.push(f), p1)
            } else {
                Err((SpecParseError::ExpectedExpression { got: None }, 0))
            },
            Err(e) => Err(e),
        }
    } else {
        Ok(acc)
    }
}

/// The program that a token sequence stands for.
pub open spec fn parse_tokens(ts: Seq<SpecToken>) -> Result<SProgram, SpecParseError> {
    match parse_program(ts, Seq::empty(), 0) {
        Ok(fs) => Ok(SProgram { functions: fs }),
        Err((e, _)) => Err(e),
    }
}

/// The program that a source text stands for: lexing errors come first.
pub open spec fn spec_parse(source: Seq<char>) -> Result<SProgram, SpecParseError> {
    match spec_lex(source) {
        Ok(ts) => parse_tokens(ts),
        Err(i) => Err(SpecParseError::Lex(lex_error_message(byte_offset(source, i)))),
    }
}
/// Whether `got` is the token `want`, compared by kind; never for numbers and identifiers.
fn same_kind(want: &Token, got: Option<&Token>) -> (b: bool)
    ensures
        b == (got matches Some(g) && g@ == want@ && is_simple(want@)),
{
    match (want, got) {
        (Token::Int, Some(Token::Int)) => true,
        (Token::Return, Some(Token::Return)) => true,
        (Token::If, Some(Token::If)) => true,
        (Token::Else, Some(Token::Else)) => true,
        (Token::While, Some(Token::While)) => true,
        (Token::For, Some(Token::For)) => true,
        (Token::LParen, Some(Token::LParen)) => true,
        (Token::RParen, Some(Token::RParen)) => true,
        (Token::LBrace, Some(Token::LBrace)) => true,
        (Token::RBrace, Some(Token::RBrace)) => true,
        (Token::Semicolon, Some(Token::Semicolon)) => true,
        (Token::Comma, Some(Token::Comma)) => true,
        (Token::Eq, Some(Token::Eq)) => true,
        (Token::EqEq, Some(Token::EqEq)) => true,
        (Token::Ne, Some(Token::Ne)) => true,
        (Token::Lt, Some(Token::Lt)) => true,
        (Token::Le, Some(Token::Le)) => true,
        (Token::Gt, Some(Token::Gt)) => true,
        (Token::Ge, Some(Token::Ge)) => true,
        (Token::Plus, Some(Token::Plus)) => true,
        (Token::Minus, Some(Token::Minus)) => true,
        (Token::Star, Some(Token::Star)) => true,
        (Token::Slash, Some(Token::Slash)) => true,
        (Token::Percent, Some(Token::Percent)) => true,
        (Token::AndAnd, Some(Token::AndAnd)) => true,
        (Token::OrOr, Some(Token::OrOr)) => true,
        (Token::Bang, Some(Token::Bang)) => true,
        _ => false,
    }
}

/// One step of `parse_block` where no `}` comes.
proof fn lemma_block_step(ts: Seq<SpecToken>, acc: Seq<SStatement>, p: int)
    requires
        !at(ts, p, SpecToken::RBrace),
    ensures
        parse_block(ts, acc, p) == (match parse_statement(ts, p) {
            Ok((s, p1)) => if advanced(ts, p, p1) {
                parse_block(ts, acc.push(s), p1)
            } else {
                stuck()
            },
            Err(e) => Err(e),
        }),
{
}

/// `r` is what the spec parse `s` gives: the same value (by `view`) or the
/// same error, with the parser left at `pos`.
pub open spec fn agrees<T, V>(r: Result<T, ParseError>, s: PResult<V>, pos: int, view: spec_fn(T) -> V) -> bool {
    match s {
        Ok((v, q)) => r matches Ok(x) && view(x) == v && pos == q,
        Err((e, q)) => r matches Err(x) && x@ == e && pos == q,
    }
}

pub open spec fn opt_boxed_view(o: Option<Box<Statement>>) -> Option<Box<SStatement>> {
    match o {
        Some(b) => Some(Box::new(stmt_view(*b))),
        None => None,
    }
}

/// A cursor over a token sequence.
struct Parser {
    tokens: Vec<Token>,
    pos: usize,
}

impl Parser {
    spec fn toks(&self) -> Seq<SpecToken> {
        tokens_view(self.tokens@)
    }

    spec fn wf(&self) -> bool {
        self.pos <= self.tokens.len()
    }

    fn new(tokens: Vec<Token>) -> (p: Self)
        ensures
            p.tokens == tokens,
            p.pos == 0,
            p.wf(),
    {
        Self { tokens, pos: 0 }
    }

    fn peek(&self) -> (t: Option<&Token>)
        requires
            self.wf(),
        ensures
            opt_token_view(match t {
                Some(x) => Some(*x),
                None => None,
            }) == peek(self.toks(), self.pos as int),
    {
        if self.pos < self.tokens.len() {
            Some(&self.tokens[self.pos])
        } else {
            None
        }
    }

    fn next(&mut self) -> (t: Option<Token>)
        requires
            old(self).wf(),
        ensures
            final(self).wf(),
            final(self).tokens == old(self).tokens,
            opt_token_view(t) == peek(old(self).toks(), old(self).pos as int),
            final(self).pos == if old(self).pos < old(self).tokens.len() {
                old(self).pos + 1
            } else {
                old(self).pos as int
            },
    {
        if self.pos < self.tokens.len() {
            let t = copy_token(&self.tokens[self.pos]);
            self.pos = self.pos + 1;
            Some(t)
        } else {
            None
        }
    }

    fn is_token(&self, t: Token) -> (b: bool)
        requires
            self.wf(),
        ensures
            b == at(self.toks(), self.pos as int, t@),
    {
        same_kind(&t, self.peek())
    }

    fn expect_token(&mut self, want: Token) -> (r: Result<(), ParseError>)
        requires
            old(self).wf(),
        ensures
            final(self).wf(),
            final(self).tokens == old(self).tokens,
            match expect(old(self).toks(), old(self).pos as int, want@) {
                Ok(q) => r is Ok && final(self).pos == q,
                Err((e, q)) => r matches Err(x) && x@ == e && final(self).pos == q,
            },
    {
        let got = self.next();
        let same = match &got {
            Some(g) => same_kind(&want, Some(g)),
            None => false,
        };
        if same {
            Ok(())
        } else {
            Err(ParseError::Expected { want, got })
        }
    }

    fn expect_ident(&mut self) -> (r: Result<String, ParseError>)
        requires
            old(self).wf(),
        ensures
            final(self).wf(),
            final(self).tokens == old(self).tokens,
            agrees(r, expect_ident(old(self).toks(), old(self).pos as int), final(self).pos as int, |s: String| s@),
    {
        match self.next() {
            Some(Token::Ident(s)) => Ok(s),
            other => Err(ParseError::ExpectedIdent { got: other }),
        }
    }

    fn or_op(&self) -> (r: Option<BinOp>)
        requires
            self.wf(),
        ensures
            r == (if at(self.toks(), self.pos as int, SpecToken::OrOr) {
                Some(BinOp::OrOr)
            } else {
                None
            }),
    {
        if self.is_token(Token::OrOr) {
            Some(BinOp::OrOr)
        } else {
            None
        }
    }

    fn and_op(&self) -> (r: Option<BinOp>)
        requires
            self.wf(),
        ensures
            r == (if at(self.toks(), self.pos as int, SpecToken::AndAnd) {
                Some(BinOp::AndAnd)
            } else {
                None
            }),
    {
        if self.is_token(Token::AndAnd) {
            Some(BinOp::AndAnd)
        } else {
            None
        }
    }

    fn eq_op(&self) -> (r: Option<BinOp>)
        requires
            self.wf(),
        ensures
            r == eq_op(self.toks(), self.pos as int),
    {
        if self.is_token(Token::EqEq) {
            Some(BinOp::Eq)
        } else if self.is_token(Token::Ne) {
            Some(BinOp::Ne)
        } else {
            None
        }
    }

    fn rel_op(&self) -> (r: Option<BinOp>)
        requires
            self.wf(),
        ensures
            r == rel_op(self.toks(), self.pos as int),
    {
        if self.is_token(Token::Lt) {
            Some(BinOp::Lt)
        } else if self.is_token(Token::Le) {
            Some(BinOp::Le)
        } else if self.is_token(Token::Gt) {
            Some(BinOp::Gt)
        } else if self.is_token(Token::Ge) {
            Some(BinOp::Ge)
        } else {
            None
        }
    }

    fn add_op(&self) -> (r: Option<BinOp>)
        requires
            self.wf(),
        ensures
            r == add_op(self.toks(), self.pos as int),
    {
        match self.peek() {
            Some(Token::Plus) => Some(BinOp::Add),
            Some(Token::Minus) => Some(BinOp::Sub),
            _ => None,
        }
    }

    fn mul_op(&self) -> (r: Option<BinOp>)
        requires
            self.wf(),
        ensures
            r == mul_op(self.toks(), self.pos as int),
    {
        match self.peek() {
            Some(Token::Star) => Some(BinOp::Mul),
            Some(Token::Slash) => Some(BinOp::Div),
            Some(Token::Percent) => Some(BinOp::Mod),
            _ => None,
        }
    }
}

impl Parser {
    fn parse_expr(&mut self) -> (r: Result<Expr, ParseError>)
        requires
            old(self).wf(),
        ensures
            final(self).wf(),
            final(self).tokens == old(self).tokens,
            agrees(r, parse_expr(old(self).toks(), old(self).pos as int), final(self).pos as int, |e: Expr| e@),
            r is Ok ==> final(self).pos > old(self).pos,
        decreases old(self).tokens.len() - old(self).pos, 9int,
    {
        self.parse_or()
    }

    /// or := and ('||' and)*, left-associative
    fn parse_or(&mut self) -> (r: Result<Expr, ParseError>)
        requires
            old(self).wf(),
        ensures
            final(self).wf(),
            final(self).tokens == old(self).tokens,
            agrees(r, parse_or(old(self).toks(), old(self).pos as int), final(self).pos as int, |e: Expr| e@),
            r is Ok ==> final(self).pos > old(self).pos,
        decreases old(self).tokens.len() - old(self).pos, 8int,
    {
        let ghost ts = self.toks();
        let ghost start = self.pos as int;
        let mut left = match self.parse_and() {
            Ok(e) => e,
            Err(e) => return Err(e),
        };
        loop
            invariant
                self.wf(),
                self.tokens == old(self).tokens,
                ts == self.toks(),
                start == old(self).pos as int,
                self.pos > start,
                parse_or_rest(ts, left@, self.pos as int) == parse_or(ts, start),
            decreases self.tokens.len() - self.pos,
        {
            match self.or_op() {
                None => {
                    return Ok(left);
                },
                Some(op) => {
                    self.next();
                    let right = match self.parse_and() {
                        Ok(e) => e,
                        Err(e) => return Err(e),
                    };
                    left = Expr::BinOp { op, left: Box::new(left), right: Box::new(right) };
                },
            }
        }
    }

    /// and := eq ('&&' eq)*, left-associative
    fn parse_and(&mut self) -> (r: Result<Expr, ParseError>)
        requires
            old(self).wf(),
        ensures
            final(self).wf(),
            final(self).tokens == old(self).tokens,
            agrees(r, parse_and(old(self).toks(), old(self).pos as int), final(self).pos as int, |e: Expr| e@),
            r is Ok ==> final(self).pos > old(self).pos,
        decreases old(self).tokens.len() - old(self).pos, 7int,
    {
        let ghost ts = self.toks();
        let ghost start = self.pos as int;
        let mut left = match self.parse_eq() {
            Ok(e) => e,
            Err(e) => return Err(e),
        };
        loop
            invariant
                self.wf(),
                self.tokens == old(self).tokens,
                ts == self.toks(),
                start == old(self).pos as int,
                self.pos > start,
                parse_and_rest(ts, left@, self.pos as int) == parse_and(ts, start),
            decreases self.tokens.len() - self.pos,
        {
            match self.and_op() {
                None => {
                    return Ok(left);
                },
                Some(op) => {
                    self.next();
                    let right = match self.parse_eq() {
                        Ok(e) => e,
                        Err(e) => return Err(e),
                    };
                    left = Expr::BinOp { op, left: Box::new(left), right: Box::new(right) };
                },
            }
        }
    }

    /// eq := rel (('==' | '!=') rel)*, left-associative
    fn parse_eq(&mut self) -> (r: Result<Expr, ParseError>)
        requires
            old(self).wf(),
        ensures
            final(self).wf(),
            final(self).tokens == old(self).tokens,
            agrees(r, parse_eq(old(self).toks(), old(self).pos as int), final(self).pos as int, |e: Expr| e@),
            r is Ok ==> final(self).pos > old(self).pos,
        decreases old(self).tokens.len() - old(self).pos, 6int,
    {
        let ghost ts = self.toks();
        let ghost start = self.pos as int;
        let mut left = match self.parse_rel() {
            Ok(e) => e,
            Err(e) => return Err(e),
        };
        loop
            invariant
                self.wf(),
                self.tokens == old(self).tokens,
                ts == self.toks(),
                start == old(self).pos as int,
                self.pos > start,
                parse_eq_rest(ts, left@, self.pos as int) == parse_eq(ts, start),
            decreases self.tokens.len() - self.pos,
        {
            match self.eq_op() {
                None => {
                    return Ok(left);
                },
                Some(op) => {
                    self.next();
                    let right = match self.parse_rel() {
                        Ok(e) => e,
                        Err(e) => return Err(e),
                    };
                    left = Expr::BinOp { op, left: Box::new(left), right: Box::new(right) };
                },
            }
        }
    }

    /// rel := add (('<' | '<=' | '>' | '>=') add)*, left-associative
    fn parse_rel(&mut self) -> (r: Result<Expr, ParseError>)
        requires
            old(self).wf(),
        ensures
            final(self).wf(),
            final(self).tokens == old(self).tokens,
            agrees(r, parse_rel(old(self).toks(), old(self).pos as int), final(self).pos as int, |e: Expr| e@),
            r is Ok ==> final(self).pos > old(self).pos,
        decreases old(self).tokens.len() - old(self).pos, 5int,
    {
        let ghost ts = self.toks();
        let ghost start = self.pos as int;
        let mut left = match self.parse_add() {
            Ok(e) => e,
            Err(e) => return Err(e),
        };
        loop
            invariant
                self.wf(),
                self.tokens == old(self).tokens,
                ts == self.toks(),
                start == old(self).pos as int,
                self.pos > start,
                parse_rel_rest(ts, left@, self.pos as int) == parse_rel(ts, start),
            decreases self.tokens.len() - self.pos,
        {
            match self.rel_op() {
                None => {
                    return Ok(left);
                },
                Some(op) => {
                    self.next();
                    let right = match self.parse_add() {
                        Ok(e) => e,
                        Err(e) => return Err(e),
                    };
                    left = Expr::BinOp { op, left: Box::new(left), right: Box::new(right) };
                },
            }
        }
    }

    /// add := mul (('+' | '-') mul)*, left-associative
    fn parse_add(&mut self) -> (r: Result<Expr, ParseError>)
        requires
            old(self).wf(),
        ensures
            final(self).wf(),
            final(self).tokens == old(self).tokens,
            agrees(r, parse_add(old(self).toks(), old(self).pos as int), final(self).pos as int, |e: Expr| e@),
            r is Ok ==> final(self).pos > old(self).pos,
        decreases old(self).tokens.len() - old(self).pos, 4int,
    {
        let ghost ts = self.toks();
        let ghost start = self.pos as int;
        let mut left = match self.parse_mul() {
            Ok(e) => e,
            Err(e) => return Err(e),
        };
        loop
            invariant
                self.wf(),
                self.tokens == old(self).tokens,
                ts == self.toks(),
                start == old(self).pos as int,
                self.pos > start,
                parse_add_rest(ts, left@, self.pos as int) == parse_add(ts, start),
            decreases self.tokens.len() - self.pos,
        {
            match self.add_op() {
                None => {
                    return Ok(left);
                },
                Some(op) => {
                    self.next();
                    let right = match self.parse_mul() {
                        Ok(e) => e,
                        Err(e) => return Err(e),
                    };
                    left = Expr::BinOp { op, left: Box::new(left), right: Box::new(right) };
                },
            }
        }
    }

    /// mul := unary (('*' | '/' | '%') unary)*, left-associative
    fn parse_mul(&mut self) -> (r: Result<Expr, ParseError>)
        requires
            old(self).wf(),
        ensures
            final(self).wf(),
            final(self).tokens == old(self).tokens,
            agrees(r, parse_mul(old(self).toks(), old(self).pos as int), final(self).pos as int, |e: Expr| e@),
            r is Ok ==> final(self).pos > old(self).pos,
        decreases old(self).tokens.len() - old(self).pos, 3int,
    {
        let ghost ts = self.toks();
        let ghost start = self.pos as int;
        let mut left = match self.parse_unary() {
            Ok(e) => e,
            Err(e) => return Err(e),
        };
        loop
            invariant
                self.wf(),
                self.tokens == old(self).tokens,
                ts == self.toks(),
                start == old(self).pos as int,
                self.pos > start,
                parse_mul_rest(ts, left@, self.pos as int) == parse_mul(ts, start),
            decreases self.tokens.len() - self.pos,
        {
            match self.mul_op() {
                None => {
                    return Ok(left);
                },
                Some(op) => {
                    self.next();
                    let right = match self.parse_unary() {
                        Ok(e) => e,
                        Err(e) => return Err(e),
                    };
                    left = Expr::BinOp { op, left: Box::new(left), right: Box::new(right) };
                },
            }
        }
    }

    /// unary := '-' unary | '!' unary | primary
    fn parse_unary(&mut self) -> (r: Result<Expr, ParseError>)
        requires
            old(self).wf(),
        ensures
            final(self).wf(),
            final(self).tokens == old(self).tokens,
            agrees(r, parse_unary(old(self).toks(), old(self).pos as int), final(self).pos as int, |e: Expr| e@),
            r is Ok ==> final(self).pos > old(self).pos,
        decreases old(self).tokens.len() - old(self).pos, 2int,
    {
        if self.is_token(Token::Minus) {
            self.next();
            let operand = match self.parse_unary() {
                Ok(e) => e,
                Err(e) => return Err(e),
            };
            return Ok(Expr::UnaryOp { op: UnaryOp::Neg, operand: Box::new(operand) });
        }
        if self.is_token(Token::Bang) {
            self.next();
            let operand = match self.parse_unary() {
                Ok(e) => e,
                Err(e) => return Err(e),
            };
            return Ok(Expr::UnaryOp { op: UnaryOp::Not, operand: Box::new(operand) });
        }
        self.parse_primary()
    }

    /// primary := number | ident '(' args ')' | ident '=' expr | ident | '(' expr ')'
    fn parse_primary(&mut self) -> (r: Result<Expr, ParseError>)
        requires
            old(self).wf(),
        ensures
            final(self).wf(),
            final(self).tokens == old(self).tokens,
            agrees(r, parse_primary(old(self).toks(), old(self).pos as int), final(self).pos as int, |e: Expr| e@),
            r is Ok ==> final(self).pos > old(self).pos,
        decreases old(self).tokens.len() - old(self).pos, 1int,
    {
        match self.next() {
            Some(Token::Number(n)) => Ok(Expr::Number(n)),
            Some(Token::Ident(name)) => {
                if self.is_token(Token::LParen) {
                    self.next();
                    let args = match self.parse_arg_list() {
                        Ok(a) => a,
                        Err(e) => return Err(e),
                    };
                    match self.expect_token(Token::RParen) {
                        Ok(()) => {},
                        Err(e) => return Err(e),
                    }
                    Ok(Expr::Call { name, args })
                } else if self.is_token(Token::Eq) {
                    self.next();
                    let value = match self.parse_expr() {
                        Ok(v) => v,
                        Err(e) => return Err(e),
                    };
                    Ok(Expr::Assign { name, value: Box::new(value) })
                } else {
                    Ok(Expr::Ident(name))
                }
            },
            Some(Token::LParen) => {
                let expr = match self.parse_expr() {
                    Ok(e) => e,
                    Err(e) => return Err(e),
                };
                match self.expect_token(Token::RParen) {
                    Ok(()) => {},
                    Err(e) => return Err(e),
                }
                Ok(expr)
            },
            other => Err(ParseError::ExpectedExpression { got: other }),
        }
    }

    /// args := (expr (',' expr)*)? before a ')'
    fn parse_arg_list(&mut self) -> (r: Result<Vec<Expr>, ParseError>)
        requires
            old(self).wf(),
        ensures
            final(self).wf(),
            final(self).tokens == old(self).tokens,
            agrees(
                r,
                parse_arg_list(old(self).toks(), old(self).pos as int),
                final(self).pos as int,
                |a: Vec<Expr>| exprs_view(a@),
            ),
            r is Ok ==> final(self).pos >= old(self).pos,
        decreases old(self).tokens.len() - old(self).pos, 10int,
    {
        let ghost ts = self.toks();
        let ghost start = self.pos as int;
        let mut args: Vec<Expr> = Vec::new();
        if !self.is_token(Token::RParen) {
            let first = match self.parse_expr() {
                Ok(e) => e,
                Err(e) => return Err(e),
            };
            let ghost fv = first@;
            args.push(first);
            assert(args@.drop_last() == Seq::<Expr>::empty());
            assert(exprs_view(Seq::<Expr>::empty()) == Seq::<SExpr>::empty());
            assert(exprs_view(args@) == seq![fv]);
            while self.is_token(Token::Comma)
                invariant
                    self.wf(),
                    self.tokens == old(self).tokens,
                    ts == self.toks(),
                    start == old(self).pos as int,
                    self.pos > start,
                    parse_arg_rest(ts, exprs_view(args@), self.pos as int) == parse_arg_list(ts, start),
                decreases self.tokens.len() - self.pos,
            {
                self.next();
                let e = match self.parse_expr() {
                    Ok(e) => e,
                    Err(e) => return Err(e),
                };
                let ghost before = args@;
                args.push(e);
                assert(args@.drop_last() == before);
            }
        }
        Ok(args)
    }
}

impl Parser {
    /// The rest of a declaration after `int`: ident ('=' expr)? ';'
    fn parse_declaration(&mut self) -> (r: Result<Statement, ParseError>)
        requires
            old(self).wf(),
        ensures
            final(self).wf(),
            final(self).tokens == old(self).tokens,
            agrees(r, parse_declaration(old(self).toks(), old(self).pos as int), final(self).pos as int, |s: Statement| s@),
            r is Ok ==> final(self).pos > old(self).pos,
    {
        let name = match self.expect_ident() {
            Ok(n) => n,
            Err(e) => return Err(e),
        };
        if self.is_token(Token::Eq) {
            self.next();
            let init = match self.parse_expr() {
                Ok(e) => e,
                Err(e) => return Err(e),
            };
            match self.expect_token(Token::Semicolon) {
                Ok(()) => {},
                Err(e) => return Err(e),
            }
            return Ok(Statement::DeclInit { name, init: Box::new(init) });
        }
        match self.expect_token(Token::Semicolon) {
            Ok(()) => {},
            Err(e) => return Err(e),
        }
        Ok(Statement::Decl { name })
    }

    /// braced := '{' statement* '}'
    fn parse_braced(&mut self) -> (r: Result<Vec<Statement>, ParseError>)
        requires
            old(self).wf(),
        ensures
            final(self).wf(),
            final(self).tokens == old(self).tokens,
            agrees(
                r,
                parse_braced(old(self).toks(), old(self).pos as int),
                final(self).pos as int,
                |b: Vec<Statement>| stmts_view(b@),
            ),
            r is Ok ==> final(self).pos > old(self).pos,
        decreases old(self).tokens.len() - old(self).pos, 3int,
    {
        let ghost ts = self.toks();
        let ghost start = self.pos as int;
        match self.expect_token(Token::LBrace) {
            Ok(()) => {},
            Err(e) => return Err(e),
        }
        let ghost open = self.pos as int;
        let mut body: Vec<Statement> = Vec::new();
        assert(stmts_view(body@) == Seq::<SStatement>::empty());
        while !self.is_token(Token::RBrace)
            invariant
                self.wf(),
                self.tokens == old(self).tokens,
                ts == self.toks(),
                start == old(self).pos as int,
                open == start + 1,
                expect(ts, start, SpecToken::LBrace) == Ok::<int, (SpecParseError, int)>(open),
                self.pos >= open,
                parse_block(ts, stmts_view(body@), self.pos as int) == parse_block(ts, Seq::empty(), open),
            decreases self.tokens.len() - self.pos,
        {
            let ghost here = self.pos as int;
            let s = match self.parse_statement() {
                Ok(s) => s,
                Err(e) => {
                    proof {
                        lemma_block_step(ts, stmts_view(body@), here);
                    }
                    return Err(e);
                },
            };
            proof {
                lemma_block_step(ts, stmts_view(body@), here);
            }
            let ghost before = body@;
            body.push(s);
            assert(body@.drop_last() == before);
        }
        match self.expect_token(Token::RBrace) {
            Ok(()) => {},
            Err(e) => return Err(e),
        }
        Ok(body)
    }

    /// if_stmt := 'if' '(' expr ')' braced ('else' braced)?
    fn parse_if(&mut self) -> (r: Result<Statement, ParseError>)
        requires
            old(self).wf(),
            at(old(self).toks(), old(self).pos as int, SpecToken::If),
        ensures
            final(self).wf(),
            final(self).tokens == old(self).tokens,
            agrees(
                r,
                parse_if(old(self).toks(), old(self).pos as int, old(self).pos + 1),
                final(self).pos as int,
                |s: Statement| s@,
            ),
            r is Ok ==> final(self).pos > old(self).pos,
        decreases old(self).tokens.len() - old(self).pos, 1int,
    {
        self.next();
        match self.expect_token(Token::LParen) {
            Ok(()) => {},
            Err(e) => return Err(e),
        }
        let cond = match self.parse_expr() {
            Ok(e) => e,
            Err(e) => return Err(e),
        };
        match self.expect_token(Token::RParen) {
            Ok(()) => {},
            Err(e) => return Err(e),
        }
        let then_body = match self.parse_braced() {
            Ok(b) => b,
            Err(e) => return Err(e),
        };
        let else_body = if self.is_token(Token::Else) {
            self.next();
            let body = match self.parse_braced() {
                Ok(b) => b,
                Err(e) => return Err(e),
            };
            Some(body)
        } else {
            None
        };
        Ok(Statement::If { cond, then_body, else_body })
    }

    /// while_stmt := 'while' '(' expr ')' braced
    fn parse_while(&mut self) -> (r: Result<Statement, ParseError>)
        requires
            old(self).wf(),
            at(old(self).toks(), old(self).pos as int, SpecToken::While),
        ensures
            final(self).wf(),
            final(self).tokens == old(self).tokens,
            agrees(
                r,
                parse_while(old(self).toks(), old(self).pos as int, old(self).pos + 1),
                final(self).pos as int,
                |s: Statement| s@,
            ),
            r is Ok ==> final(self).pos > old(self).pos,
        decreases old(self).tokens.len() - old(self).pos, 1int,
    {
        self.next();
        match self.expect_token(Token::LParen) {
            Ok(()) => {},
            Err(e) => return Err(e),
        }
        let cond = match self.parse_expr() {
            Ok(e) => e,
            Err(e) => return Err(e),
        };
        match self.expect_token(Token::RParen) {
            Ok(()) => {},
            Err(e) => return Err(e),
        }
        let body = match self.parse_braced() {
            Ok(b) => b,
            Err(e) => return Err(e),
        };
        Ok(Statement::While { cond, body })
    }

    /// for_stmt := 'for' '(' for_init for_cond for_step braced
    fn parse_for(&mut self) -> (r: Result<Statement, ParseError>)
        requires
            old(self).wf(),
            at(old(self).toks(), old(self).pos as int, SpecToken::For),
        ensures
            final(self).wf(),
            final(self).tokens == old(self).tokens,
            agrees(
                r,
                parse_for(old(self).toks(), old(self).pos as int, old(self).pos + 1),
                final(self).pos as int,
                |s: Statement| s@,
            ),
            r is Ok ==> final(self).pos > old(self).pos,
        decreases old(self).tokens.len() - old(self).pos, 1int,
    {
        self.next();
        match self.expect_token(Token::LParen) {
            Ok(()) => {},
            Err(e) => return Err(e),
        }
        let init = match self.parse_for_init() {
            Ok(i) => i,
            Err(e) => return Err(e),
        };
        let cond = match self.parse_for_cond() {
            Ok(c) => c,
            Err(e) => return Err(e),
        };
        let step = match self.parse_for_step() {
            Ok(s) => s,
            Err(e) => return Err(e),
        };
        let body = match self.parse_braced() {
            Ok(b) => b,
            Err(e) => return Err(e),
        };
        Ok(Statement::For { init, cond, step, body })
    }

    /// for_init := ';' | 'int' declaration | expr ';'
    fn parse_for_init(&mut self) -> (r: Result<Option<Box<Statement>>, ParseError>)
        requires
            old(self).wf(),
        ensures
            final(self).wf(),
            final(self).tokens == old(self).tokens,
            agrees(
                r,
                parse_for_init(old(self).toks(), old(self).pos as int),
                final(self).pos as int,
                |o: Option<Box<Statement>>| opt_boxed_view(o),
            ),
            r is Ok ==> final(self).pos > old(self).pos,
    {
        if self.is_token(Token::Semicolon) {
            self.next();
            return Ok(None);
        }
        if self.is_token(Token::Int) {
            self.next();
            let decl = match self.parse_declaration() {
                Ok(d) => d,
                Err(e) => return Err(e),
            };
            return Ok(Some(Box::new(decl)));
        }
        let expr = match self.parse_expr() {
            Ok(e) => e,
            Err(e) => return Err(e),
        };
        match self.expect_token(Token::Semicolon) {
            Ok(()) => {},
            Err(e) => return Err(e),
        }
        Ok(Some(Box::new(Statement::Expr(expr))))
    }

    /// for_cond := ';' | expr ';'
    fn parse_for_cond(&mut self) -> (r: Result<Option<Expr>, ParseError>)
        requires
            old(self).wf(),
        ensures
            final(self).wf(),
            final(self).tokens == old(self).tokens,
            agrees(
                r,
                parse_for_cond(old(self).toks(), old(self).pos as int),
                final(self).pos as int,
                |o: Option<Expr>| opt_expr_view(o),
            ),
            r is Ok ==> final(self).pos > old(self).pos,
    {
        if self.is_token(Token::Semicolon) {
            self.next();
            return Ok(None);
        }
        let expr = match self.parse_expr() {
            Ok(e) => e,
            Err(e) => return Err(e),
        };
        match self.expect_token(Token::Semicolon) {
            Ok(()) => {},
            Err(e) => return Err(e),
        }
        Ok(Some(expr))
    }

    /// for_step := expr? ')'
    fn parse_for_step(&mut self) -> (r: Result<Option<Expr>, ParseError>)
        requires
            old(self).wf(),
        ensures
            final(self).wf(),
            final(self).tokens == old(self).tokens,
            agrees(
                r,
                parse_for_step(old(self).toks(), old(self).pos as int),
                final(self).pos as int,
                |o: Option<Expr>| opt_expr_view(o),
            ),
            r is Ok ==> final(self).pos >= old(self).pos,
    {
        if self.is_token(Token::RParen) {
            self.next();
            return Ok(None);
        }
        let expr = match self.parse_expr() {
            Ok(e) => e,
            Err(e) => return Err(e),
        };
        match self.expect_token(Token::RParen) {
            Ok(()) => {},
            Err(e) => return Err(e),
        }
        Ok(Some(expr))
    }

    /// statement := 'int' declaration | 'return' expr? ';' | if_stmt | while_stmt
    ///            | for_stmt | expr ';'
    fn parse_statement(&mut self) -> (r: Result<Statement, ParseError>)
        requires
            old(self).wf(),
        ensures
            final(self).wf(),
            final(self).tokens == old(self).tokens,
            agrees(r, parse_statement(old(self).toks(), old(self).pos as int), final(self).pos as int, |s: Statement| s@),
            r is Ok ==> final(self).pos > old(self).pos,
        decreases old(self).tokens.len() - old(self).pos, 2int,
    {
        if self.is_token(Token::Int) {
            self.next();
            return self.parse_declaration();
        }
        if self.is_token(Token::Return) {
            self.next();
            if self.is_token(Token::Semicolon) {
                self.next();
                return Ok(Statement::Return(None));
            }
            let expr = match self.parse_expr() {
                Ok(e) => e,
                Err(e) => return Err(e),
            };
            match self.expect_token(Token::Semicolon) {
                Ok(()) => {},
                Err(e) => return Err(e),
            }
            return Ok(Statement::Return(Some(expr)));
        }
        if self.is_token(Token::If) {
            return self.parse_if();
        }
        if self.is_token(Token::While) {
            return self.parse_while();
        }
        if self.is_token(Token::For) {
            return self.parse_for();
        }
        let expr = match self.parse_expr() {
            Ok(e) => e,
            Err(e) => return Err(e),
        };
        match self.expect_token(Token::Semicolon) {
            Ok(()) => {},
            Err(e) => return Err(e),
        }
        Ok(Statement::Expr(expr))
    }
}

impl Parser {
    /// params := ('int' ident (',' 'int' ident)*)?
    fn parse_param_list(&mut self) -> (r: Result<Vec<String>, ParseError>)
        requires
            old(self).wf(),
        ensures
            final(self).wf(),
            final(self).tokens == old(self).tokens,
            agrees(
                r,
                parse_param_list(old(self).toks(), old(self).pos as int),
                final(self).pos as int,
                |ps: Vec<String>| names_view(ps@),
            ),
            r is Ok ==> final(self).pos >= old(self).pos,
    {
        let ghost ts = self.toks();
        let ghost start = self.pos as int;
        let mut params: Vec<String> = Vec::new();
        assert(names_view(params@) == Seq::<Seq<char>>::empty());
        if self.is_token(Token::Int) {
            self.next();
            let first = match self.expect_ident() {
                Ok(n) => n,
                Err(e) => return Err(e),
            };
            let ghost fv = first@;
            params.push(first);
            assert(names_view(params@) == seq![fv]);
            while self.is_token(Token::Comma)
                invariant
                    self.wf(),
                    self.tokens == old(self).tokens,
                    ts == self.toks(),
                    start == old(self).pos as int,
                    self.pos > start,
                    parse_param_rest(ts, names_view(params@), self.pos as int) == parse_param_list(ts, start),
                decreases self.tokens.len() - self.pos,
            {
                self.next();
                match self.expect_token(Token::Int) {
                    Ok(()) => {},
                    Err(e) => return Err(e),
                }
                let name = match self.expect_ident() {
                    Ok(n) => n,
                    Err(e) => return Err(e),
                };
                let ghost before = names_view(params@);
                let ghost nv = name@;
                params.push(name);
                assert(names_view(params@) == before.push(nv));
            }
        }
        Ok(params)
    }

    /// function := 'int' ident '(' params ')' '{' statement* '}'
    fn parse_function(&mut self) -> (r: Result<Function, ParseError>)
        requires
            old(self).wf(),
        ensures
            final(self).wf(),
            final(self).tokens == old(self).tokens,
            agrees(r, parse_function(old(self).toks(), old(self).pos as int), final(self).pos as int, |f: Function| f@),
            r is Ok ==> final(self).pos > old(self).pos,
    {
        match self.expect_token(Token::Int) {
            Ok(()) => {},
            Err(e) => return Err(e),
        }
        let name = match self.expect_ident() {
            Ok(n) => n,
            Err(e) => return Err(e),
        };
        match self.expect_token(Token::LParen) {
            Ok(()) => {},
            Err(e) => return Err(e),
        }
        let params = match self.parse_param_list() {
            Ok(p) => p,
            Err(e) => return Err(e),
        };
        match self.expect_token(Token::RParen) {
            Ok(()) => {},
            Err(e) => return Err(e),
        }
        let body = match self.parse_braced() {
            Ok(b) => b,
            Err(e) => return Err(e),
        };
        Ok(Function { name, params, body })
    }

    /// program := function* up to the end of input
    fn parse_program(&mut self) -> (r: Result<Program, ParseError>)
        requires
            old(self).wf(),
        ensures
            match parse_program(old(self).toks(), Seq::empty(), old(self).pos as int) {
                Ok(fs) => r matches Ok(p) && p@ == (SProgram { functions: fs }),
                Err((e, q)) => r matches Err(x) && x@ == e && final(self).pos == q,
            },
    {
        let ghost ts = self.toks();
        let ghost start = self.pos as int;
        let mut functions: Vec<Function> = Vec::new();
        assert(functions_view(functions@) == Seq::<SFunction>::empty());
        while self.peek().is_some()
            invariant
                self.wf(),
                ts == self.toks(),
                self.tokens == old(self).tokens,
                start == old(self).pos as int,
                parse_program(ts, functions_view(functions@), self.pos as int) == parse_program(
                    ts,
                    Seq::empty(),
                    start,
                ),
            decreases self.tokens.len() - self.pos,
        {
            let f = match self.parse_function() {
                Ok(f) => f,
                Err(e) => return Err(e),
            };
            let ghost before = functions_view(functions@);
            let ghost fv = f@;
            functions.push(f);
            assert(functions_view(functions@) == before.push(fv));
        }
        Ok(Program { functions })
    }
}

/// Parses C source text: lexes it, then parses the tokens as a program.
pub fn parse(source: &str) -> (r: Result<Program, ParseError>)
    ensures
        match spec_parse(source@) {
            Ok(p) => r matches Ok(x) && x@ == p,
            Err(e) => r matches Err(x) && x@ == e,
        },
{
    let tokens = match lex(source) {
        Ok(t) => t,
        Err(e) => return Err(ParseError::Lex(e)),
    };
    let mut p = Parser::new(tokens);
    p.parse_program()
}

impl SpecParseError {
    /// The error's message.
    pub open spec fn message(self) -> Seq<char> {
        match self {
            SpecParseError::Lex(m) => "Lex error: "@ + m,
            SpecParseError::Expected { want, got } => "Expected "@ + want.debug_text() + ", got "@
                + opt_debug_text(got),
            SpecParseError::ExpectedIdent { got } => "Expected identifier, got "@ + opt_debug_text(got),
            SpecParseError::ExpectedExpression { got } => "Unexpected token "@ + opt_debug_text(got)
                + ", expected expression"@,
        }
    }
}

impl ParseError {
    /// The error's message, e.g. `Expected Semicolon, got Some(RBrace)`.
    pub fn message(&self) -> (m: String)
        ensures
            m@ == self@.message(),
    {
        match self {
            ParseError::Lex(e) => {
                let mut m = String::from_str("Lex error: ");
                m.append(e.as_str());
                m
            },
            ParseError::Expected { want, got } => {
                let mut m = String::from_str("Expected ");
                want.append_debug(&mut m);
                m.append(", got ");
                append_opt_debug(got, &mut m);
                m
            },
            ParseError::ExpectedIdent { got } => {
                let mut m = String::from_str("Expected identifier, got ");
                append_opt_debug(got, &mut m);
                m
            },
            ParseError::ExpectedExpression { got } => {
                let mut m = String::from_str("Unexpected token ");
                append_opt_debug(got, &mut m);
                m.append(", expected expression");
                m
            },
        }
    }
}

/// Every successful parse of an expression consumes at least one token and
/// stays within the input, so the termination tests (`advanced`) in the
/// grammar always hold and `stuck` is never reached.
pub proof fn lemma_expr_advances(ts: Seq<SpecToken>, p: int)
    requires
        0 <= p <= ts.len(),
    ensures
        parse_expr(ts, p) matches Ok((_, q)) ==> p < q <= ts.len(),
    decreases ts.len() - p, 16int,
{
    lemma_or_advances(ts, p);
}

pub proof fn lemma_or_advances(ts: Seq<SpecToken>, p: int)
    requires
        0 <= p <= ts.len(),
    ensures
        parse_or(ts, p) matches Ok((_, q)) ==> p < q <= ts.len(),
    decreases ts.len() - p, 15int,
{
    lemma_and_advances(ts, p);
    if let Ok((l, p1)) = parse_and(ts, p) {
        if advanced(ts, p, p1) {
            lemma_or_rest_advances(ts, l, p1);
        }
    }
}

pub proof fn lemma_or_rest_advances(ts: Seq<SpecToken>, left: SExpr, p: int)
    requires
        0 <= p <= ts.len(),
    ensures
        parse_or_rest(ts, left, p) matches Ok((_, q)) ==> p <= q <= ts.len(),
    decreases ts.len() - p, 14int,
{
    if at(ts, p, SpecToken::OrOr) {
        lemma_and_advances(ts, p + 1);
        if let Ok((r, p2)) = parse_and(ts, p + 1) {
            if advanced(ts, p, p2) {
                lemma_or_rest_advances(ts, binop(BinOp::OrOr, left, r), p2);
            }
        }
    }
}

pub proof fn lemma_and_advances(ts: Seq<SpecToken>, p: int)
    requires
        0 <= p <= ts.len(),
    ensures
        parse_and(ts, p) matches Ok((_, q)) ==> p < q <= ts.len(),
    decreases ts.len() - p, 13int,
{
    lemma_eq_advances(ts, p);
    if let Ok((l, p1)) = parse_eq(ts, p) {
        if advanced(ts, p, p1) {
            lemma_and_rest_advances(ts, l, p1);
        }
    }
}

pub proof fn lemma_and_rest_advances(ts: Seq<SpecToken>, left: SExpr, p: int)
    requires
        0 <= p <= ts.len(),
    ensures
        parse_and_rest(ts, left, p) matches Ok((_, q)) ==> p <= q <= ts.len(),
    decreases ts.len() - p, 12int,
{
    if at(ts, p, SpecToken::AndAnd) {
        lemma_eq_advances(ts, p + 1);
        if let Ok((r, p2)) = parse_eq(ts, p + 1) {
            if advanced(ts, p, p2) {
                lemma_and_rest_advances(ts, binop(BinOp::AndAnd, left, r), p2);
            }
        }
    }
}

pub proof fn lemma_eq_advances(ts: Seq<SpecToken>, p: int)
    requires
        0 <= p <= ts.len(),
    ensures
        parse_eq(ts, p) matches Ok((_, q)) ==> p < q <= ts.len(),
    decreases ts.len() - p, 11int,
{
    lemma_rel_advances(ts, p);
    if let Ok((l, p1)) = parse_rel(ts, p) {
        if advanced(ts, p, p1) {
            lemma_eq_rest_advances(ts, l, p1);
        }
    }
}

pub proof fn lemma_eq_rest_advances(ts: Seq<SpecToken>, left: SExpr, p: int)
    requires
        0 <= p <= ts.len(),
    ensures
        parse_eq_rest(ts, left, p) matches Ok((_, q)) ==> p <= q <= ts.len(),
    decreases ts.len() - p, 10int,
{
    if let Some(op) = eq_op(ts, p) {
        lemma_rel_advances(ts, p + 1);
        if let Ok((r, p2)) = parse_rel(ts, p + 1) {
            if advanced(ts, p, p2) {
                lemma_eq_rest_advances(ts, binop(op, left, r), p2);
            }
        }
    }
}

pub proof fn lemma_rel_advances(ts: Seq<SpecToken>, p: int)
    requires
        0 <= p <= ts.len(),
    ensures
        parse_rel(ts, p) matches Ok((_, q)) ==> p < q <= ts.len(),
    decreases ts.len() - p, 9int,
{
    lemma_add_advances(ts, p);
    if let Ok((l, p1)) = parse_add(ts, p) {
        if advanced(ts, p, p1) {
            lemma_rel_rest_advances(ts, l, p1);
        }
    }
}

pub proof fn lemma_rel_rest_advances(ts: Seq<SpecToken>, left: SExpr, p: int)
    requires
        0 <= p <= ts.len(),
    ensures
        parse_rel_rest(ts, left, p) matches Ok((_, q)) ==> p <= q <= ts.len(),
    decreases ts.len() - p, 8int,
{
    if let Some(op) = rel_op(ts, p) {
        lemma_add_advances(ts, p + 1);
        if let Ok((r, p2)) = parse_add(ts, p + 1) {
            if advanced(ts, p, p2) {
                lemma_rel_rest_advances(ts, binop(op, left, r), p2);
            }
        }
    }
}

pub proof fn lemma_add_advances(ts: Seq<SpecToken>, p: int)
    requires
        0 <= p <= ts.len(),
    ensures
        parse_add(ts, p) matches Ok((_, q)) ==> p < q <= ts.len(),
    decreases ts.len() - p, 7int,
{
    lemma_mul_advances(ts, p);
    if let Ok((l, p1)) = parse_mul(ts, p) {
        if advanced(ts, p, p1) {
            lemma_add_rest_advances(ts, l, p1);
        }
    }
}

pub proof fn lemma_add_rest_advances(ts: Seq<SpecToken>, left: SExpr, p: int)
    requires
        0 <= p <= ts.len(),
    ensures
        parse_add_rest(ts, left, p) matches Ok((_, q)) ==> p <= q <= ts.len(),
    decreases ts.len() - p, 6int,
{
    if let Some(op) = add_op(ts, p) {
        lemma_mul_advances(ts, p + 1);
        if let Ok((r, p2)) = parse_mul(ts, p + 1) {
            if advanced(ts, p, p2) {
                lemma_add_rest_advances(ts, binop(op, left, r), p2);
            }
        }
    }
}

pub proof fn lemma_mul_advances(ts: Seq<SpecToken>, p: int)
    requires
        0 <= p <= ts.len(),
    ensures
        parse_mul(ts, p) matches Ok((_, q)) ==> p < q <= ts.len(),
    decreases ts.len() - p, 5int,
{
    lemma_unary_advances(ts, p);
    if let Ok((l, p1)) = parse_unary(ts, p) {
        if advanced(ts, p, p1) {
            lemma_mul_rest_advances(ts, l, p1);
        }
    }
}

pub proof fn lemma_mul_rest_advances(ts: Seq<SpecToken>, left: SExpr, p: int)
    requires
        0 <= p <= ts.len(),
    ensures
        parse_mul_rest(ts, left, p) matches Ok((_, q)) ==> p <= q <= ts.len(),
    decreases ts.len() - p, 4int,
{
    if let Some(op) = mul_op(ts, p) {
        lemma_unary_advances(ts, p + 1);
        if let Ok((r, p2)) = parse_unary(ts, p + 1) {
            if advanced(ts, p, p2) {
                lemma_mul_rest_advances(ts, binop(op, left, r), p2);
            }
        }
    }
}


pub proof fn lemma_unary_advances(ts: Seq<SpecToken>, p: int)
    requires
        0 <= p <= ts.len(),
    ensures
        parse_unary(ts, p) matches Ok((_, q)) ==> p < q <= ts.len(),
    decreases ts.len() - p, 3int,
{
    if at(ts, p, SpecToken::Minus) || at(ts, p, SpecToken::Bang) {
        lemma_unary_advances(ts, p + 1);
    } else {
        lemma_primary_advances(ts, p);
    }
}

pub proof fn lemma_primary_advances(ts: Seq<SpecToken>, p: int)
    requires
        0 <= p <= ts.len(),
    ensures
        parse_primary(ts, p) matches Ok((_, q)) ==> p < q <= ts.len(),
    decreases ts.len() - p, 2int,
{
    match peek(ts, p) {
        Some(SpecToken::Ident(name)) => {
            if at(ts, p + 1, SpecToken::LParen) {
                lemma_arg_list_advances(ts, p + 2);
            } else if at(ts, p + 1, SpecToken::Eq) {
                lemma_expr_advances(ts, p + 2);
            }
        },
        Some(SpecToken::LParen) => lemma_expr_advances(ts, p + 1),
        _ => {},
    }
}

pub proof fn lemma_arg_list_advances(ts: Seq<SpecToken>, p: int)
    requires
        0 <= p <= ts.len(),
    ensures
        parse_arg_list(ts, p) matches Ok((_, q)) ==> p <= q <= ts.len(),
    decreases ts.len() - p, 18int,
{
    if !at(ts, p, SpecToken::RParen) {
        lemma_expr_advances(ts, p);
        if let Ok((e, p1)) = parse_expr(ts, p) {
            if advanced(ts, p, p1) {
                lemma_arg_rest_advances(ts, seq![e], p1);
            }
        }
    }
}

pub proof fn lemma_arg_rest_advances(ts: Seq<SpecToken>, acc: Seq<SExpr>, p: int)
    requires
        0 <= p <= ts.len(),
    ensures
        parse_arg_rest(ts, acc, p) matches Ok((_, q)) ==> p <= q <= ts.len(),
    decreases ts.len() - p, 17int,
{
    if at(ts, p, SpecToken::Comma) {
        lemma_expr_advances(ts, p + 1);
        if let Ok((e, p2)) = parse_expr(ts, p + 1) {
            if advanced(ts, p, p2) {
                lemma_arg_rest_advances(ts, acc.push(e), p2);
            }
        }
    }
}

proof fn lemma_expr_then_advances(ts: Seq<SpecToken>, p: int, end: SpecToken)
    requires
        0 <= p <= ts.len(),
    ensures
        parse_expr_then(ts, p, end) matches Ok((_, q)) ==> p < q <= ts.len(),
{
    lemma_expr_advances(ts, p);
}

proof fn lemma_declaration_advances(ts: Seq<SpecToken>, p: int)
    requires
        0 <= p <= ts.len(),
    ensures
        parse_declaration(ts, p) matches Ok((_, q)) ==> p < q <= ts.len(),
{
    if let Ok((name, p2)) = expect_ident(ts, p) {
        if at(ts, p2, SpecToken::Eq) {
            lemma_expr_advances(ts, p2 + 1);
        }
    }
}

/// Every successful parse of a statement consumes at least one token and
/// stays within the input.
pub proof fn lemma_statement_advances(ts: Seq<SpecToken>, p: int)
    requires
        0 <= p <= ts.len(),
    ensures
        parse_statement(ts, p) matches Ok((_, q)) ==> p < q <= ts.len(),
    decreases ts.len() - p, 2int,
{
    if at(ts, p, SpecToken::Int) {
        lemma_declaration_advances(ts, p + 1);
    } else if at(ts, p, SpecToken::Return) {
        if !at(ts, p + 1, SpecToken::Semicolon) {
            lemma_expr_then_advances(ts, p + 1, SpecToken::Semicolon);
        }
    } else if at(ts, p, SpecToken::If) {
        lemma_if_advances(ts, p);
    } else if at(ts, p, SpecToken::While) {
        lemma_while_advances(ts, p);
    } else if at(ts, p, SpecToken::For) {
        lemma_for_advances(ts, p);
    } else {
        lemma_expr_then_advances(ts, p, SpecToken::Semicolon);
    }
}

proof fn lemma_paren_cond_advances(ts: Seq<SpecToken>, p: int)
    requires
        0 <= p <= ts.len(),
    ensures
        parse_paren_cond(ts, p) matches Ok((_, q)) ==> p < q <= ts.len(),
{
    if let Ok(p1) = expect(ts, p, SpecToken::LParen) {
        lemma_expr_then_advances(ts, p1, SpecToken::RParen);
    }
}

proof fn lemma_if_advances(ts: Seq<SpecToken>, p: int)
    requires
        0 <= p < ts.len(),
    ensures
        parse_if(ts, p, p + 1) matches Ok((_, q)) ==> p < q <= ts.len(),
    decreases ts.len() - p, 1int,
{
    lemma_paren_cond_advances(ts, p + 1);
    if let Ok((cond, p3)) = parse_paren_cond(ts, p + 1) {
        if advanced(ts, p, p3) {
            lemma_braced_advances(ts, p3);
            if let Ok((tb, p4)) = parse_braced(ts, p3) {
                if at(ts, p4, SpecToken::Else) && advanced(ts, p, p4) {
                    lemma_braced_advances(ts, p4 + 1);
                }
            }
        }
    }
}

proof fn lemma_while_advances(ts: Seq<SpecToken>, p: int)
    requires
        0 <= p < ts.len(),
    ensures
        parse_while(ts, p, p + 1) matches Ok((_, q)) ==> p < q <= ts.len(),
    decreases ts.len() - p, 1int,
{
    lemma_paren_cond_advances(ts, p + 1);
    if let Ok((cond, p3)) = parse_paren_cond(ts, p + 1) {
        if advanced(ts, p, p3) {
            lemma_braced_advances(ts, p3);
        }
    }
}

proof fn lemma_for_advances(ts: Seq<SpecToken>, p: int)
    requires
        0 <= p < ts.len(),
    ensures
        parse_for(ts, p, p + 1) matches Ok((_, q)) ==> p < q <= ts.len(),
    decreases ts.len() - p, 1int,
{
    if let Ok(p1) = expect(ts, p + 1, SpecToken::LParen) {
        if let Ok((init, p2)) = parse_for_init(ts, p1) {
            if let Ok((cond, p3)) = parse_for_cond(ts, p2) {
                if let Ok((step, p4)) = parse_for_step(ts, p3) {
                    if advanced(ts, p, p4) {
                        lemma_braced_advances(ts, p4);
                    }
                }
            }
        }
    }
}

proof fn lemma_braced_advances(ts: Seq<SpecToken>, p: int)
    requires
        0 <= p <= ts.len(),
    ensures
        parse_braced(ts, p) matches Ok((_, q)) ==> p < q <= ts.len(),
    decreases ts.len() - p, 4int,
{
    if let Ok(p1) = expect(ts, p, SpecToken::LBrace) {
        lemma_block_advances(ts, Seq::empty(), p1);
    }
}

pub proof fn lemma_block_advances(ts: Seq<SpecToken>, acc: Seq<SStatement>, p: int)
    requires
        0 <= p <= ts.len(),
    ensures
        parse_block(ts, acc, p) matches Ok((_, q)) ==> p <= q <= ts.len(),
    decreases ts.len() - p, 3int,
{
    if !at(ts, p, SpecToken::RBrace) {
        lemma_statement_advances(ts, p);
        if let Ok((s, p1)) = parse_statement(ts, p) {
            if advanced(ts, p, p1) {
                lemma_block_advances(ts, acc.push(s), p1);
            }
        }
    }
}

/// Every successful parse of a function consumes at least one token and
/// stays within the input.
pub proof fn lemma_function_advances(ts: Seq<SpecToken>, p: int)
    requires
        0 <= p <= ts.len(),
    ensures
        parse_function(ts, p) matches Ok((_, q)) ==> p < q <= ts.len(),
{
    if let Ok(p1) = expect(ts, p, SpecToken::Int) {
        if let Ok((name, p2)) = expect_ident(ts, p1) {
            if let Ok(p3) = expect(ts, p2, SpecToken::LParen) {
                lemma_param_list_advances(ts, p3);
                if let Ok((params, p4)) = parse_param_list(ts, p3) {
                    if let Ok(p5) = expect(ts, p4, SpecToken::RParen) {
                        lemma_braced_advances(ts, p5);
                    }
                }
            }
        }
    }
}

proof fn lemma_param_list_advances(ts: Seq<SpecToken>, p: int)
    requires
        0 <= p <= ts.len(),
    ensures
        parse_param_list(ts, p) matches Ok((_, q)) ==> p <= q <= ts.len(),
{
    if at(ts, p, SpecToken::Int) {
        if let Ok((name, p2)) = expect_ident(ts, p + 1) {
            lemma_param_rest_advances(ts, seq![name], p2);
        }
    }
}

proof fn lemma_param_rest_advances(ts: Seq<SpecToken>, acc: Seq<Seq<char>>, p: int)
    requires
        0 <= p <= ts.len(),
    ensures
        parse_param_rest(ts, acc, p) matches Ok((_, q)) ==> p <= q <= ts.len(),
    decreases ts.len() - p,
{
    if at(ts, p, SpecToken::Comma) {
        if let Ok(p2) = expect(ts, p + 1, SpecToken::Int) {
            if let Ok((name, p3)) = expect_ident(ts, p2) {
                lemma_param_rest_advances(ts, acc.push(name), p3);
            }
        }
    }
}


/// The operand `y` at position 2 of `ts`, at the end of the input, parses at
/// every level of the grammar to itself.
proof fn lemma_last_operand(ts: Seq<SpecToken>, y: i32)
    requires
        ts.len() == 3,
        ts[2] == SpecToken::Number(y),
    ensures
        parse_unary(ts, 2) == Ok::<(SExpr, int), (SpecParseError, int)>((SExpr::Number(y), 3)),
        parse_mul(ts, 2) == Ok::<(SExpr, int), (SpecParseError, int)>((SExpr::Number(y), 3)),
        parse_add(ts, 2) == Ok::<(SExpr, int), (SpecParseError, int)>((SExpr::Number(y), 3)),
        parse_rel(ts, 2) == Ok::<(SExpr, int), (SpecParseError, int)>((SExpr::Number(y), 3)),
        parse_eq(ts, 2) == Ok::<(SExpr, int), (SpecParseError, int)>((SExpr::Number(y), 3)),
        parse_and(ts, 2) == Ok::<(SExpr, int), (SpecParseError, int)>((SExpr::Number(y), 3)),
{
    let n = SExpr::Number(y);
    assert(parse_primary(ts, 2) == Ok::<(SExpr, int), (SpecParseError, int)>((n, 3)));
    assert(parse_unary(ts, 2) == Ok::<(SExpr, int), (SpecParseError, int)>((n, 3)));
    assert(parse_mul_rest(ts, n, 3) == Ok::<(SExpr, int), (SpecParseError, int)>((n, 3)));
    assert(parse_add_rest(ts, n, 3) == Ok::<(SExpr, int), (SpecParseError, int)>((n, 3)));
    assert(parse_rel_rest(ts, n, 3) == Ok::<(SExpr, int), (SpecParseError, int)>((n, 3)));
    assert(parse_eq_rest(ts, n, 3) == Ok::<(SExpr, int), (SpecParseError, int)>((n, 3)));
    assert(parse_and_rest(ts, n, 3) == Ok::<(SExpr, int), (SpecParseError, int)>((n, 3)));
}

/// The token stream `x t y` parses to `x op y`, for some operator `op`.
pub open spec fn parses_to_binop(t: SpecToken, x: i32, y: i32, spelling: Seq<char>) -> bool {
    parse_expr(seq![SpecToken::Number(x), t, SpecToken::Number(y)], 0) matches Ok((SExpr::BinOp { op, left, right }, q))
        && q == 3 && *left == SExpr::Number(x) && *right == SExpr::Number(y) && op.spec_symbol() == spelling
}

/// Each two-character operator that the lexer knows parses, between two
/// operands, to the binary operator that it spells.
pub proof fn lemma_double_operator_spelling(c: char, d: char, x: i32, y: i32)
    requires
        double_token(c, d) is Some,
    ensures
        parses_to_binop(double_token(c, d)->0, x, y, seq![c, d]),
{
    let t = double_token(c, d)->0;
    let ts = seq![SpecToken::Number(x), t, SpecToken::Number(y)];
    lemma_last_operand(ts, y);
    lemma_three_tokens(ts, x, y);
    let op = if c == '=' {
        BinOp::Eq
    } else if c == '!' {
        BinOp::Ne
    } else if c == '<' {
        BinOp::Le
    } else if c == '>' {
        BinOp::Ge
    } else if c == '&' {
        BinOp::AndAnd
    } else {
        BinOp::OrOr
    };
    assert(parse_expr(ts, 0) == Ok::<(SExpr, int), (SpecParseError, int)>((binop(op, SExpr::Number(x), SExpr::Number(y)), 3)));
    assert(op.spec_symbol() == seq![c, d]) by {
        reveal_strlit("==");
        reveal_strlit("!=");
        reveal_strlit("<=");
        reveal_strlit(">=");
        reveal_strlit("&&");
        reveal_strlit("||");
        if c == '=' {
            assert("=="@ =~= seq![c, d]);
        } else if c == '!' {
            assert("!="@ =~= seq![c, d]);
        } else if c == '<' {
            assert("<="@ =~= seq![c, d]);
        } else if c == '>' {
            assert(">="@ =~= seq![c, d]);
        } else if c == '&' {
            assert("&&"@ =~= seq![c, d]);
        } else {
            assert("||"@ =~= seq![c, d]);
        }
    }
}

/// Each one-character binary operator that the lexer knows parses, between
/// two operands, to the binary operator that it spells.
pub proof fn lemma_single_operator_spelling(c: char, x: i32, y: i32)
    requires
        single_token(c) is Some,
        c == '+' || c == '-' || c == '*' || c == '/' || c == '%' || c == '<' || c == '>',
    ensures
        parses_to_binop(single_token(c)->0, x, y, seq![c]),
{
    let t = single_token(c)->0;
    let ts = seq![SpecToken::Number(x), t, SpecToken::Number(y)];
    lemma_last_operand(ts, y);
    lemma_three_tokens(ts, x, y);
    let op = if c == '+' {
        BinOp::Add
    } else if c == '-' {
        BinOp::Sub
    } else if c == '*' {
        BinOp::Mul
    } else if c == '/' {
        BinOp::Div
    } else if c == '%' {
        BinOp::Mod
    } else if c == '<' {
        BinOp::Lt
    } else {
        BinOp::Gt
    };
    assert(parse_expr(ts, 0) == Ok::<(SExpr, int), (SpecParseError, int)>((binop(op, SExpr::Number(x), SExpr::Number(y)), 3)));
    assert(op.spec_symbol() == seq![c]) by {
        reveal_strlit("+");
        reveal_strlit("-");
        reveal_strlit("*");
        reveal_strlit("/");
        reveal_strlit("%");
        reveal_strlit("<");
        reveal_strlit(">");
        if c == '+' {
            assert("+"@ =~= seq![c]);
        } else if c == '-' {
            assert("-"@ =~= seq![c]);
        } else if c == '*' {
            assert("*"@ =~= seq![c]);
        } else if c == '/' {
            assert("/"@ =~= seq![c]);
        } else if c == '%' {
            assert("%"@ =~= seq![c]);
        } else if c == '<' {
            assert("<"@ =~= seq![c]);
        } else {
            assert(">"@ =~= seq![c]);
        }
    }
}

/// `x t y` parses, when `t` is a binary operator token, to the operator
/// that the grammar's level for `t` gives.
proof fn lemma_three_tokens(ts: Seq<SpecToken>, x: i32, y: i32)
    requires
        ts.len() == 3,
        ts[0] == SpecToken::Number(x),
        ts[2] == SpecToken::Number(y),
        parse_and(ts, 2) == Ok::<(SExpr, int), (SpecParseError, int)>((SExpr::Number(y), 3)),
        parse_eq(ts, 2) == Ok::<(SExpr, int), (SpecParseError, int)>((SExpr::Number(y), 3)),
        parse_rel(ts, 2) == Ok::<(SExpr, int), (SpecParseError, int)>((SExpr::Number(y), 3)),
        parse_add(ts, 2) == Ok::<(SExpr, int), (SpecParseError, int)>((SExpr::Number(y), 3)),
        parse_mul(ts, 2) == Ok::<(SExpr, int), (SpecParseError, int)>((SExpr::Number(y), 3)),
        parse_unary(ts, 2) == Ok::<(SExpr, int), (SpecParseError, int)>((SExpr::Number(y), 3)),
    ensures
        ts[1] == SpecToken::OrOr ==> parse_expr(ts, 0) == Ok::<(SExpr, int), (SpecParseError, int)>((binop(BinOp::OrOr, SExpr::Number(x), SExpr::Number(y)), 3)),
        ts[1] == SpecToken::AndAnd ==> parse_expr(ts, 0) == Ok::<(SExpr, int), (SpecParseError, int)>((binop(BinOp::AndAnd, SExpr::Number(x), SExpr::Number(y)), 3)),
        eq_op(ts, 1) matches Some(op) ==> parse_expr(ts, 0) == Ok::<(SExpr, int), (SpecParseError, int)>((binop(op, SExpr::Number(x), SExpr::Number(y)), 3)),
        rel_op(ts, 1) matches Some(op) ==> parse_expr(ts, 0) == Ok::<(SExpr, int), (SpecParseError, int)>((binop(op, SExpr::Number(x), SExpr::Number(y)), 3)),
        add_op(ts, 1) matches Some(op) ==> parse_expr(ts, 0) == Ok::<(SExpr, int), (SpecParseError, int)>((binop(op, SExpr::Number(x), SExpr::Number(y)), 3)),
        mul_op(ts, 1) matches Some(op) ==> parse_expr(ts, 0) == Ok::<(SExpr, int), (SpecParseError, int)>((binop(op, SExpr::Number(x), SExpr::Number(y)), 3)),
{
    let n = SExpr::Number(x);
    assert(parse_primary(ts, 0) == Ok::<(SExpr, int), (SpecParseError, int)>((n, 1)));
    assert(parse_unary(ts, 0) == Ok::<(SExpr, int), (SpecParseError, int)>((n, 1)));
    let m = parse_mul_rest(ts, n, 1);
    assert(parse_mul(ts, 0) == m);
    let a = match m { Ok((l, p1)) => parse_add_rest(ts, l, p1), Err(e) => Err(e) };
    assert(parse_add(ts, 0) == a);
    let r = match a { Ok((l, p1)) => parse_rel_rest(ts, l, p1), Err(e) => Err(e) };
    assert(parse_rel(ts, 0) == r);
    let e = match r { Ok((l, p1)) => parse_eq_rest(ts, l, p1), Err(e) => Err(e) };
    assert(parse_eq(ts, 0) == e);
    let d = match e { Ok((l, p1)) => parse_and_rest(ts, l, p1), Err(e) => Err(e) };
    assert(parse_and(ts, 0) == d);
    let o = match d { Ok((l, p1)) => parse_or_rest(ts, l, p1), Err(e) => Err(e) };
    assert(parse_or(ts, 0) == o);
}

} // verus!
