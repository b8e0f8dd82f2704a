//! The grammar: a recursive-descent parser from tokens to a program.
//!
//! ```text
//! program := (assign ';')*
//! assign  := 'print' assign | IDENT '=' assign | term
//! term    := term ('+' | '-') fact | fact
//! fact    := fact ('*' | '/') atom | atom
//! atom    := IDENT | INTEGER | '(' assign ')'
//! ```
//!
//! A failed parse names the first token that cannot continue a valid
//! prefix of a program, or no token where the input ended too early. An
//! assignment to something other than a bare identifier is named by the
//! first token of its left side.
use vstd::prelude::*;
use crate::ast::{Expr, ExprV, Expr_, NodeV, Program};
use crate::token::{join, Span, Token, TokenV};

verus! {

/// The diagnostic for a token that cannot continue the program.
pub const UNEXPECTED_TOKEN: &'static str = "syntax error: unexpected token";

/// The diagnostic for input that ends before the program is complete.
pub const UNEXPECTED_END: &'static str = "syntax error: unexpected end of input";

/// The tokens and spans that the parser reads, as values.
pub open spec fn input_view(v: Seq<(Token, Span)>) -> Seq<(TokenV, Span)> {
    v.map_values(|x: (Token, Span)| (x.0@, x.1))
}

pub open spec fn tok(ts: Seq<(TokenV, Span)>, i: int) -> Option<TokenV> {
    if 0 <= i < ts.len() {
        Some(ts[i].0)
    } else {
        None
    }
}

/// A node built by a rule that matched the tokens in `[lo, hi)`: its span
/// runs from the first of them to the last, parentheses of a child included.
pub open spec fn node(ts: Seq<(TokenV, Span)>, lo: int, hi: int, n: NodeV) -> ExprV {
    ExprV { span: Span(ts[lo].1.0, ts[hi - 1].1.1), node: n }
}

/// The result of a rule applied at a position: the expression and the
/// position after it, or the position of the offending token.
pub type Parsed = Result<(ExprV, int), int>;

/// `assign := 'print' assign | IDENT '=' assign | term`
pub open spec fn p_assign(ts: Seq<(TokenV, Span)>, i: int) -> Parsed
    decreases ts.len() - i, 4int,
{
    if 0 <= i < ts.len() && ts[i].0 is Print {
        match p_assign(ts, i + 1) {
            Ok((a, j)) => Ok((node(ts, i, j, NodeV::Print(Box::new(a))), j)),
            Err(k) => Err(k),
        }
    } else if 0 <= i < ts.len() && ts[i].0 is Ident && tok(ts, i + 1) == Some(TokenV::Equals) {
        match p_assign(ts, i + 2) {
            Ok((a, j)) => Ok(
                (node(ts, i, j, NodeV::Assign(ts[i].0->Ident_0, Box::new(a))), j),
            ),
            Err(k) => Err(k),
        }
    } else {
        match p_term(ts, i) {
            // only a bare identifier may stand left of `=`
            Ok((e, j)) => if tok(ts, j) == Some(TokenV::Equals) {
                Err(i)
            } else {
                Ok((e, j))
            },
            Err(k) => Err(k),
        }
    }
}

/// `term := fact (('+' | '-') fact)*`, grouped to the left.
pub open spec fn p_term(ts: Seq<(TokenV, Span)>, i: int) -> Parsed
    decreases ts.len() - i, 3int,
{
    match p_fact(ts, i) {
        // every rule consumes a token, so the guard always holds
        Ok((l, j)) => if i < j <= ts.len() {
            p_term_rest(ts, i, j, l)
        } else {
            Err(j)
        },
        Err(k) => Err(k),
    }
}

/// The `('+' | '-') fact` continuations of a term that starts at `i` and
/// whose left part `l` ends before `j`.
pub open spec fn p_term_rest(ts: Seq<(TokenV, Span)>, i: int, j: int, l: ExprV) -> Parsed
    decreases ts.len() - j, 3int,
{
    if 0 <= j < ts.len() && (ts[j].0 is Plus || ts[j].0 is Minus) {
        match p_fact(ts, j + 1) {
            Ok((r, k)) => {
                let n = if ts[j].0 is Plus {
                    NodeV::Add(Box::new(l), Box::new(r))
                } else {
                    NodeV::Sub(Box::new(l), Box::new(r))
                };
                if j < k <= ts.len() {
                    p_term_rest(ts, i, k, node(ts, i, k, n))
                } else {
                    Err(k)
                }
            },
            Err(k) => Err(k),
        }
    } else {
        Ok((l, j))
    }
}

/// `fact := atom (('*' | '/') atom)*`, grouped to the left.
pub open spec fn p_fact(ts: Seq<(TokenV, Span)>, i: int) -> Parsed
    decreases ts.len() - i, 2int,
{
    match p_atom(ts, i) {
        Ok((l, j)) => if i < j <= ts.len() {
            p_fact_rest(ts, i, j, l)
        } else {
            Err(j)
        },
        Err(k) => Err(k),
    }
}

/// The `('*' | '/') atom` continuations of a factor that starts at `i` and
/// whose left part `l` ends before `j`.
pub open spec fn p_fact_rest(ts: Seq<(TokenV, Span)>, i: int, j: int, l: ExprV) -> Parsed
    decreases ts.len() - j, 2int,
{
    if 0 <= j < ts.len() && (ts[j].0 is Star || ts[j].0 is Slash) {
        match p_atom(ts, j + 1) {
            Ok((r, k)) => {
                let n = if ts[j].0 is Star {
                    NodeV::Mul(Box::new(l), Box::new(r))
                } else {
                    NodeV::Div(Box::new(l), Box::new(r))
                };
                if j < k <= ts.len() {
                    p_fact_rest(ts, i, k, node(ts, i, k, n))
                } else {
                    Err(k)
                }
            },
            Err(k) => Err(k),
        }
    } else {
        Ok((l, j))
    }
}

/// `atom := IDENT | INTEGER | '(' assign ')'`
pub open spec fn p_atom(ts: Seq<(TokenV, Span)>, i: int) -> Parsed
    decreases ts.len() - i, 1int,
{
    if 0 <= i < ts.len() {
        match ts[i].0 {
            TokenV::Ident(x) => Ok((ExprV { span: ts[i].1, node: NodeV::Var(x) }, i + 1)),
            TokenV::Integer(v) => Ok((ExprV { span: ts[i].1, node: NodeV::Literal(v) }, i + 1)),
            TokenV::LeftParen => match p_assign(ts, i + 1) {
                Ok((a, j)) => if tok(ts, j) == Some(TokenV::RightParen) {
                    Ok((a, j + 1))
                } else {
                    Err(j)
                },
                Err(k) => Err(k),
            },
            _ => Err(i),
        }
    } else {
        Err(i)
    }
}

/// `program := (assign ';')*`: the statements from position `i` on, or the
/// position of the offending token.
pub open spec fn p_program(ts: Seq<(TokenV, Span)>, i: int) -> Result<Seq<ExprV>, int>
    decreases ts.len() - i,
{
    if i < 0 || i >= ts.len() {
        Ok(seq![])
    } else {
        match p_assign(ts, i) {
            Ok((e, j)) => if tok(ts, j) == Some(TokenV::Semi) && i < j {
                match p_program(ts, j + 1) {
                    Ok(rest) => Ok(seq![e] + rest),
                    Err(k) => Err(k),
                }
            } else {
                Err(j)
            },
            Err(k) => Err(k),
        }
    }
}

pub open spec fn parsed_view(r: Result<(Expr, usize), usize>) -> Parsed {
    match r {
        Ok((e, j)) => Ok((e@, j as int)),
        Err(k) => Err(k as int),
    }
}

fn parse_assign(ts: &Vec<(Token, Span)>, i: usize) -> (r: Result<(Expr, usize), usize>)
    requires
        i <= ts@.len(),
    ensures
        parsed_view(r) == p_assign(input_view(ts@), i as int),
        r matches Ok((_, j)) ==> i < j <= ts@.len(),
        r matches Err(k) ==> k <= ts@.len(),
    decreases ts@.len() - i, 4int,
{
    let ghost tv = input_view(ts@);
    if i < ts.len() {
        match &ts[i].0 {
            Token::Print => {
                return match parse_assign(ts, i + 1) {
                    Ok((a, j)) => {
                        let span = join(ts[i].1, ts[j - 1].1);
                        Ok((Expr { span, node: Expr_::Print(Box::new(a)) }, j))
                    },
                    Err(k) => Err(k),
                };
            },
            Token::Ident(name) => {
                if i + 1 < ts.len() {
                    if let Token::Equals = ts[i + 1].0 {
                        assert(tok(tv, i + 1) == Some(TokenV::Equals));
                        return match parse_assign(ts, i + 2) {
                            Ok((a, j)) => {
                                let span = join(ts[i].1, ts[j - 1].1);
                                let var = name.clone();
                                Ok((Expr { span, node: Expr_::Assign(var, Box::new(a)) }, j))
                            },
                            Err(k) => Err(k),
                        };
                    }
                }
            },
            _ => {},
        }
    }
    let (e, j) = match parse_term(ts, i) {
        Ok(x) => x,
        Err(k) => {
            return Err(k);
        },
    };
    if j < ts.len() {
        if let Token::Equals = ts[j].0 {
            assert(tok(tv, j as int) == Some(TokenV::Equals));
            return Err(i);
        }
    }
    Ok((e, j))
}

fn parse_term(ts: &Vec<(Token, Span)>, i: usize) -> (r: Result<(Expr, usize), usize>)
    requires
        i <= ts@.len(),
    ensures
        parsed_view(r) == p_term(input_view(ts@), i as int),
        r matches Ok((_, j)) ==> i < j <= ts@.len(),
        r matches Err(k) ==> k <= ts@.len(),
    decreases ts@.len() - i, 3int,
{
    let ghost tv = input_view(ts@);
    let (mut l, mut j) = match parse_fact(ts, i) {
        Ok(x) => x,
        Err(k) => {
            return Err(k);
        },
    };
    loop
        invariant
            i < j <= ts@.len(),
            tv == input_view(ts@),
            p_term(tv, i as int) == p_term_rest(tv, i as int, j as int, l@),
        decreases ts@.len() - j,
    {
        let op: u8 = if j < ts.len() {
            match ts[j].0 {
                Token::Plus => 1,
                Token::Minus => 2,
                _ => 0,
            }
        } else {
            0
        };
        if op == 0 {
            return Ok((l, j));
        }
        match parse_fact(ts, j + 1) {
            Ok((r, k)) => {
                let span = join(ts[i].1, ts[k - 1].1);
                let node = if op == 1 {
                    Expr_::Add(Box::new(l), Box::new(r))
                } else {
                    Expr_::Sub(Box::new(l), Box::new(r))
                };
                l = Expr { span, node };
                j = k;
            },
            Err(k) => {
                return Err(k);
            },
        }
    }
}

fn parse_fact(ts: &Vec<(Token, Span)>, i: usize) -> (r: Result<(Expr, usize), usize>)
    requires
        i <= ts@.len(),
    ensures
        parsed_view(r) == p_fact(input_view(ts@), i as int),
        r matches Ok((_, j)) ==> i < j <= ts@.len(),
        r matches Err(k) ==> k <= ts@.len(),
    decreases ts@.len() - i, 2int,
{
    let ghost tv = input_view(ts@);
    let (mut l, mut j) = match parse_atom(ts, i) {
        Ok(x) => x,
        Err(k) => {
            return Err(k);
        },
    };
    loop
        invariant
            i < j <= ts@.len(),
            tv == input_view(ts@),
            p_fact(tv, i as int) == p_fact_rest(tv, i as int, j as int, l@),
        decreases ts@.len() - j,
    {
        let op: u8 = if j < ts.len() {
            match ts[j].0 {
                Token::Star => 1,
                Token::Slash => 2,
                _ => 0,
            }
        } else {
            0
        };
        if op == 0 {
            return Ok((l, j));
        }
        match parse_atom(ts, j + 1) {
            Ok((r, k)) => {
                let span = join(ts[i].1, ts[k - 1].1);
                let node = if op == 1 {
                    Expr_::Mul(Box::new(l), Box::new(r))
                } else {
                    Expr_::Div(Box::new(l), Box::new(r))
                };
                l = Expr { span, node };
                j = k;
            },
            Err(k) => {
                return Err(k);
            },
        }
    }
}

fn parse_atom(ts: &Vec<(Token, Span)>, i: usize) -> (r: Result<(Expr, usize), usize>)
    requires
        i <= ts@.len(),
    ensures
        parsed_view(r) == p_atom(input_view(ts@), i as int),
        r matches Ok((_, j)) ==> i < j <= ts@.len(),
        r matches Err(k) ==> k <= ts@.len(),
    decreases ts@.len() - i, 1int,
{
    let ghost tv = input_view(ts@);
    if i >= ts.len() {
        return Err(i);
    }
    match &ts[i].0 {
        Token::Ident(x) => Ok((Expr { span: ts[i].1, node: Expr_::Var(x.clone()) }, i + 1)),
        Token::Integer(v) => Ok((Expr { span: ts[i].1, node: Expr_::Literal(*v) }, i + 1)),
        Token::LeftParen => match parse_assign(ts, i + 1) {
            Ok((a, j)) => {
                if j < ts.len() {
                    if let Token::RightParen = ts[j].0 {
                        assert(tok(tv, j as int) == Some(TokenV::RightParen));
                        return Ok((a, j + 1));
                    }
                }
                Err(j)
            },
            Err(k) => Err(k),
        },
        _ => Err(i),
    }
}

/// Parses a token sequence into a program. On failure it returns the
/// offending token with its span (`None` where the input ended too early)
/// and a diagnostic.
pub fn parse(tokens: Vec<(Token, Span)>) -> (r: Result<Program, (Option<(Token, Span)>, &'static str)>)
    ensures
        match p_program(input_view(tokens@), 0) {
            Ok(stmts) => r matches Ok(p) && p@ == stmts,
            Err(k) => r matches Err((o, _)) && (if k < tokens@.len() {
                o == Some(tokens@[k])
            } else {
                o is None
            }),
        },
        r matches Err((o, m)) ==> m@ == if o is Some {
            UNEXPECTED_TOKEN@
        } else {
            UNEXPECTED_END@
        },
{
    let ghost tv = input_view(tokens@);
    let mut stmts: Vec<Expr> = Vec::new();
    let mut i: usize = 0;
    while i < tokens.len()
        invariant
            i <= tokens@.len(),
            tv == input_view(tokens@),
            p_program(tv, 0) == match p_program(tv, i as int) {
                Ok(rest) => Ok(stmts@.map_values(|e: Expr| e@) + rest),
                Err(k) => Err(k),
            },
        decreases tokens@.len() - i,
    {
        match parse_assign(&tokens, i) {
            Ok((e, j)) => {
                let semi = if j < tokens.len() {
                    match tokens[j].0 {
                        Token::Semi => true,
                        _ => false,
                    }
                } else {
                    false
                };
                if !semi {
                    return syntax_error(tokens, j);
                }
                assert(tok(tv, j as int) == Some(TokenV::Semi));
                let ghost old_stmts = stmts@.map_values(|e: Expr| e@);
                stmts.push(e);
                proof {
                    assert(stmts@.map_values(|e: Expr| e@) =~= old_stmts + seq![e@]);
                    if let Ok(rest) = p_program(tv, j + 1) {
                        assert(old_stmts + seq![e@] + rest =~= old_stmts + (seq![e@] + rest));
                    }
                }
                i = j + 1;
            },
            Err(k) => {
                return syntax_error(tokens, k);
            },
        }
    }
    assert(stmts@.map_values(|e: Expr| e@) + seq![] =~= stmts@.map_values(|e: Expr| e@));
    Ok(Program { stmts })
}

/// The failure that names the token at position `k`, or the end of input.
fn syntax_error(tokens: Vec<(Token, Span)>, k: usize) -> (r: Result<
    Program,
    (Option<(Token, Span)>, &'static str),
>)
    ensures
        r matches Err((o, m)) && (if k < tokens@.len() {
            o == Some(tokens@[k as int]) && m@ == UNEXPECTED_TOKEN@
        } else {
            o is None && m@ == UNEXPECTED_END@
        }),
{
    let mut tokens = tokens;
    if k < tokens.len() {
        let t = tokens.remove(k);
        Err((Some(t), UNEXPECTED_TOKEN))
    } else {
        Err((None, UNEXPECTED_END))
    }
}

} // verus!
