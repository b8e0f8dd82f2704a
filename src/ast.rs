//! The syntax tree that parsing produces.
use vstd::prelude::*;
use crate::token::Span;

verus! {

/// An expression node with the span of source it was parsed from.
#[derive(Debug, PartialEq)]
pub struct Expr {
    pub span: Span,
    pub node: Expr_,
}

/// The kinds of expression node.
#[derive(Debug, PartialEq)]
pub enum Expr_ {
    Print(Box<Expr>),
    Assign(String, Box<Expr>),
    Add(Box<Expr>, Box<Expr>),
    Sub(Box<Expr>, Box<Expr>),
    Mul(Box<Expr>, Box<Expr>),
    Div(Box<Expr>, Box<Expr>),
    Var(String),
    Literal(i32),
}

/// A whole program: its statements in source order.
#[derive(Debug, PartialEq)]
pub struct Program {
    pub stmts: Vec<Expr>,
}

/// The mathematical value of an expression node.
pub struct ExprV {
    pub span: Span,
    pub node: NodeV,
}

pub enum NodeV {
    Print(Box<ExprV>),
    Assign(Seq<char>, Box<ExprV>),
    Add(Box<ExprV>, Box<ExprV>),
    Sub(Box<ExprV>, Box<ExprV>),
    Mul(Box<ExprV>, Box<ExprV>),
    Div(Box<ExprV>, Box<ExprV>),
    Var(Seq<char>),
    Literal(i32),
}

pub open spec fn expr_view(e: Expr) -> ExprV
    decreases e,
{
    let node = match e.node {
        Expr_::Print(a) => NodeV::Print(Box::new(expr_view(*a))),
        Expr_::Assign(x, a) => NodeV::Assign(x@, Box::new(expr_view(*a))),
        Expr_::Add(a, b) => NodeV::Add(Box::new(expr_view(*a)), Box::new(expr_view(*b))),
        Expr_::Sub(a, b) => NodeV::Sub(Box::new(expr_view(*a)), Box::new(expr_view(*b))),
        Expr_::Mul(a, b) => NodeV::Mul(Box::new(expr_view(*a)), Box::new(expr_view(*b))),
        Expr_::Div(a, b) => NodeV::Div(Box::new(expr_view(*a)), Box::new(expr_view(*b))),
        Expr_::Var(x) => NodeV::Var(x@),
        Expr_::Literal(v) => NodeV::Literal(v),
    };
    ExprV { span: e.span, node }
}

impl View for Expr {
    type V = ExprV;

    open spec fn view(&self) -> ExprV {
        expr_view(*self)
    }
}

impl View for Program {
    type V = Seq<ExprV>;

    open spec fn view(&self) -> Seq<ExprV> {
        self.stmts@.map_values(|e: Expr| e@)
    }
}

} // verus!
