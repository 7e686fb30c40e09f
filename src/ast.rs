use vstd::prelude::*;

verus! {

/// Prefix operators of the source language.
#[derive(Debug, Clone, Copy, PartialEq, Eq, Structural)]
pub enum UnaryOp {
    Neg,
}

/// Infix operators of the source language.
#[derive(Debug, Clone, Copy, PartialEq, Eq, Structural)]
pub enum BinaryOp {
    Add,
    Sub,
    Mul,
    Div,
    Assign,
    Greater,
    Less,
    Equal,
}

/// Syntax tree of one top-level expression.
#[derive(Debug)]
pub enum Expr {
    Number(i64),
    Ident(String),
    Unary { op: UnaryOp, expr: Box<Expr> },
    Binary { left: Box<Expr>, op: BinaryOp, right: Box<Expr> },
    Call { callee: Box<Expr>, args: Vec<Expr> },
    If { cond: Box<Expr>, body: Box<Expr>, else_branch: Option<Box<Expr>> },
}

} // verus!
