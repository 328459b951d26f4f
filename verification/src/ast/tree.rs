//! The typed expression grove: expression trees with `let` bindings and
//! ternary choices, classified by the Summer type checker.
use vstd::prelude::*;
use crate::num::Num;

verus! {

/// Binary operator kinds of the expression grove.
#[derive(Debug, Clone, Copy, PartialEq, Eq, Structural)]
pub enum BinOpKind {
    Add,
    Sub,
    Mul,
    Div,
    Eq,
    Neq,
    Lt,
    Gt,
}

/// Unary operator kinds of the expression grove.
#[derive(Debug, Clone, Copy, PartialEq, Eq, Structural)]
pub enum UnaryKind {
    Neg,
    Not,
}

/// An expression of the grove.
#[derive(Debug, PartialEq)]
pub enum Expr {
    /// Numeric literal.
    Lit(Num),
    /// Variable reference.
    Var(String),
    /// Binary operation: left `op` right.
    BinOp(Box<Expr>, BinOpKind, Box<Expr>),
    /// Unary operation: `op` expr.
    Unary(UnaryKind, Box<Expr>),
    /// Conditional: `if condition then else`.
    If(Box<Expr>, Box<Expr>, Box<Expr>),
    /// Let binding: `let name = value in body`.
    Let(String, Box<Expr>, Box<Expr>),
    /// Ternary: `condition ? then : else`.
    Ternary(Box<Expr>, Box<Expr>, Box<Expr>),
}

/// A top-level statement of the grove.
#[derive(Debug, PartialEq)]
pub enum Stmt {
    /// Expression statement.
    Expr(Expr),
    /// Let declaration at top level.
    Let(String, Expr),
}

/// Type classification for expressions.
#[derive(Debug, Clone, Copy, PartialEq, Eq, Hash, Structural)]
pub enum Type {
    /// Integer / numeric type.
    Int,
    /// Boolean type.
    Bool,
    /// Ternary type: values in {-1, 0, +1}.
    Ternary,
}

/// A type-annotated expression, produced by the summer (type-checking) pass.
#[derive(Debug, PartialEq)]
pub struct TypedExpr {
    pub expr: Expr,
    pub ty: Type,
}

/// A diagnostic message with source span information.
#[derive(Debug, PartialEq, Eq)]
pub struct Diagnostic {
    pub message: String,
    pub start: usize,
    pub end: usize,
}

/// The model of a grove expression: names as character sequences.
pub enum SpecTree {
    Lit(Num),
    Var(Seq<char>),
    BinOp(Box<SpecTree>, BinOpKind, Box<SpecTree>),
    Unary(UnaryKind, Box<SpecTree>),
    If(Box<SpecTree>, Box<SpecTree>, Box<SpecTree>),
    Let(Seq<char>, Box<SpecTree>, Box<SpecTree>),
    Ternary(Box<SpecTree>, Box<SpecTree>, Box<SpecTree>),
}

pub open spec fn tree_view(e: Expr) -> SpecTree
    decreases e,
{
    match e {
        Expr::Lit(n) => SpecTree::Lit(n),
        Expr::Var(s) => SpecTree::Var(s@),
        Expr::BinOp(l, op, r) => SpecTree::BinOp(
            Box::new(tree_view(*l)),
            op,
            Box::new(tree_view(*r)),
        ),
        Expr::Unary(op, x) => SpecTree::Unary(op, Box::new(tree_view(*x))),
        Expr::If(c, t, f) => SpecTree::If(
            Box::new(tree_view(*c)),
            Box::new(tree_view(*t)),
            Box::new(tree_view(*f)),
        ),
        Expr::Let(n, v, b) => SpecTree::Let(n@, Box::new(tree_view(*v)), Box::new(tree_view(*b))),
        Expr::Ternary(c, t, f) => SpecTree::Ternary(
            Box::new(tree_view(*c)),
            Box::new(tree_view(*t)),
            Box::new(tree_view(*f)),
        ),
    }
}

impl View for Expr {
    type V = SpecTree;

    open spec fn view(&self) -> SpecTree {
        tree_view(*self)
    }
}

impl Clone for Expr {
    fn clone(&self) -> (r: Expr)
        ensures
            r@ == self@,
        decreases self,
    {
        match self {
            Expr::Lit(n) => Expr::Lit(*n),
            Expr::Var(s) => Expr::Var(s.clone()),
            Expr::BinOp(l, op, r) => Expr::BinOp(Box::new((**l).clone()), *op, Box::new((**r).clone())),
            Expr::Unary(op, x) => Expr::Unary(*op, Box::new((**x).clone())),
            Expr::If(c, t, f) => Expr::If(
                Box::new((**c).clone()),
                Box::new((**t).clone()),
                Box::new((**f).clone()),
            ),
            Expr::Let(n, v, b) => Expr::Let(n.clone(), Box::new((**v).clone()), Box::new((**b).clone())),
            Expr::Ternary(c, t, f) => Expr::Ternary(
                Box::new((**c).clone()),
                Box::new((**t).clone()),
                Box::new((**f).clone()),
            ),
        }
    }
}

impl Clone for Stmt {
    fn clone(&self) -> (r: Stmt)
        ensures
            match (r, *self) {
                (Stmt::Expr(e), Stmt::Expr(e0)) => e@ == e0@,
                (Stmt::Let(n, e), Stmt::Let(n0, e0)) => n@ == n0@ && e@ == e0@,
                _ => false,
            },
    {
        match self {
            Stmt::Expr(e) => Stmt::Expr(e.clone()),
            Stmt::Let(n, e) => Stmt::Let(n.clone(), e.clone()),
        }
    }
}

impl Clone for TypedExpr {
    fn clone(&self) -> (r: TypedExpr)
        ensures
            r.expr@ == self.expr@,
            r.ty == self.ty,
    {
        TypedExpr { expr: self.expr.clone(), ty: self.ty }
    }
}

impl Clone for Diagnostic {
    fn clone(&self) -> (r: Diagnostic)
        ensures
            r.message@ == self.message@,
            r.start == self.start,
            r.end == self.end,
    {
        Diagnostic { message: self.message.clone(), start: self.start, end: self.end }
    }
}

/// The name shown for a type.
pub open spec fn spec_type_text(t: Type) -> Seq<char> {
    match t {
        Type::Int => "Int"@,
        Type::Bool => "Bool"@,
        Type::Ternary => "Ternary"@,
    }
}

impl Type {
    /// The name shown for the type: `Int`, `Bool` or `Ternary`.
    pub fn to_string(&self) -> (r: String)
        ensures
            r@ == spec_type_text(*self),
    {
        match self {
            Type::Int => String::from_str("Int"),
            Type::Bool => String::from_str("Bool"),
            Type::Ternary => String::from_str("Ternary"),
        }
    }
}

impl Diagnostic {
    /// A diagnostic with the given message covering `start..end`.
    pub fn new(message: &str, start: usize, end: usize) -> (r: Diagnostic)
        ensures
            r.message@ == message@,
            r.start == start,
            r.end == end,
    {
        Diagnostic { message: String::from_str(message), start, end }
    }
}

} // verus!
