//! Abstract syntax of Grove programs, and the ternary bytecode they become.
//!
//! The AST is the grove: a forest of expression trees that grow during spring
//! (parsing), are checked through summer, pruned in autumn (optimization) and
//! harvested in winter (code generation).
use vstd::prelude::*;
use crate::num::Num;
use crate::token::{Token, SpecToken};

pub mod ternary;
pub mod tree;

pub use tree::{BinOpKind, UnaryKind, Type, TypedExpr, Diagnostic};

verus! {

/// Binary operators of the program language.
#[derive(Debug, Clone, Copy, PartialEq, Eq, Structural)]
pub enum BinOp {
    Add,
    Sub,
    Mul,
    Div,
    Eq,
    Neq,
    Lt,
    Gt,
    Le,
    Ge,
}

/// Unary operators of the program language.
#[derive(Debug, Clone, Copy, PartialEq, Eq, Structural)]
pub enum UnOp {
    Neg,
}

/// An expression of the program language.
#[derive(Debug, PartialEq)]
pub enum Expr {
    /// Number literal.
    Literal(Num),
    /// Number literal beyond what a `Num` holds, as written.
    Numeral(String),
    /// Variable reference.
    Var(String),
    /// Binary operation: left `op` right.
    Binary(Box<Expr>, BinOp, Box<Expr>),
    /// Unary operation.
    Unary(UnOp, Box<Expr>),
    /// Conditional expression: `if cond { then } else { else }`.
    If(Box<Expr>, Box<Expr>, Box<Expr>),
    /// Function call: `name(args)`.
    Call(String, Vec<Expr>),
}

/// A statement of the program language.
#[derive(Debug, PartialEq)]
pub enum Stmt {
    /// `let name = expr;`
    Let(String, Expr),
    /// `name = expr;`
    Assign(String, Expr),
    /// `if cond { .. } else { .. }`
    If(Expr, Vec<Stmt>, Vec<Stmt>),
    /// `return expr;`
    Return(Expr),
    /// `expr;`
    Expr(Expr),
}

/// A whole program: a sequence of statements.
#[derive(Debug, PartialEq)]
pub struct Program {
    pub stmts: Vec<Stmt>,
}

/// The model of an expression: names as character sequences.
pub enum SpecExpr {
    Literal(Num),
    Numeral(Seq<char>),
    Var(Seq<char>),
    Binary(Box<SpecExpr>, BinOp, Box<SpecExpr>),
    Unary(UnOp, Box<SpecExpr>),
    If(Box<SpecExpr>, Box<SpecExpr>, Box<SpecExpr>),
    Call(Seq<char>, Seq<SpecExpr>),
}

/// The model of a statement.
pub enum SpecStmt {
    Let(Seq<char>, SpecExpr),
    Assign(Seq<char>, SpecExpr),
    If(SpecExpr, Seq<SpecStmt>, Seq<SpecStmt>),
    Return(SpecExpr),
    Expr(SpecExpr),
}

pub open spec fn expr_view(e: Expr) -> SpecExpr
    decreases e,
{
    match e {
        Expr::Literal(n) => SpecExpr::Literal(n),
        Expr::Numeral(s) => SpecExpr::Numeral(s@),
        Expr::Var(s) => SpecExpr::Var(s@),
        Expr::Binary(l, op, r) => SpecExpr::Binary(
            Box::new(expr_view(*l)),
            op,
            Box::new(expr_view(*r)),
        ),
        Expr::Unary(op, x) => SpecExpr::Unary(op, Box::new(expr_view(*x))),
        Expr::If(c, t, f) => SpecExpr::If(
            Box::new(expr_view(*c)),
            Box::new(expr_view(*t)),
            Box::new(expr_view(*f)),
        ),
        Expr::Call(s, args) => SpecExpr::Call(
            s@,
            Seq::new(
                args@.len(),
                |i: int|
                    if 0 <= i < args@.len() {
                        expr_view(args@[i])
                    } else {
                        SpecExpr::Literal(arbitrary())
                    },
            ),
        ),
    }
}

pub open spec fn stmt_view(s: Stmt) -> SpecStmt
    decreases s,
{
    match s {
        Stmt::Let(n, e) => SpecStmt::Let(n@, expr_view(e)),
        Stmt::Assign(n, e) => SpecStmt::Assign(n@, expr_view(e)),
        Stmt::If(c, t, f) => SpecStmt::If(
            expr_view(c),
            Seq::new(
                t@.len(),
                |i: int|
                    if 0 <= i < t@.len() {
                        stmt_view(t@[i])
                    } else {
                        SpecStmt::Return(SpecExpr::Literal(arbitrary()))
                    },
            ),
            Seq::new(
                f@.len(),
                |i: int|
                    if 0 <= i < f@.len() {
                        stmt_view(f@[i])
                    } else {
                        SpecStmt::Return(SpecExpr::Literal(arbitrary()))
                    },
            ),
        ),
        Stmt::Return(e) => SpecStmt::Return(expr_view(e)),
        Stmt::Expr(e) => SpecStmt::Expr(expr_view(e)),
    }
}

pub open spec fn exprs_view(es: Seq<Expr>) -> Seq<SpecExpr> {
    es.map_values(|e: Expr| expr_view(e))
}

pub open spec fn stmts_view(ss: Seq<Stmt>) -> Seq<SpecStmt> {
    ss.map_values(|s: Stmt| stmt_view(s))
}

impl View for Expr {
    type V = SpecExpr;

    open spec fn view(&self) -> SpecExpr {
        expr_view(*self)
    }
}

impl View for Stmt {
    type V = SpecStmt;

    open spec fn view(&self) -> SpecStmt {
        stmt_view(*self)
    }
}

impl View for Program {
    type V = Seq<SpecStmt>;

    open spec fn view(&self) -> Seq<SpecStmt> {
        stmts_view(self.stmts@)
    }
}

/// The binary operator a token stands for, if any.
pub open spec fn binop_of(t: SpecToken) -> Option<BinOp> {
    match t {
        SpecToken::Plus => Some(BinOp::Add),
        SpecToken::Minus => Some(BinOp::Sub),
        SpecToken::Star => Some(BinOp::Mul),
        SpecToken::Slash => Some(BinOp::Div),
        SpecToken::Eq => Some(BinOp::Eq),
        SpecToken::Neq => Some(BinOp::Neq),
        SpecToken::Lt => Some(BinOp::Lt),
        SpecToken::Gt => Some(BinOp::Gt),
        SpecToken::Le => Some(BinOp::Le),
        SpecToken::Ge => Some(BinOp::Ge),
        _ => None,
    }
}

impl BinOp {
    /// The binary operator a token stands for, if any.
    pub fn from_token(t: &Token) -> (r: Option<BinOp>)
        ensures
            r == binop_of(t@),
    {
        match t {
            Token::Plus => Some(BinOp::Add),
            Token::Minus => Some(BinOp::Sub),
            Token::Star => Some(BinOp::Mul),
            Token::Slash => Some(BinOp::Div),
            Token::Eq => Some(BinOp::Eq),
            Token::Neq => Some(BinOp::Neq),
            Token::Lt => Some(BinOp::Lt),
            Token::Gt => Some(BinOp::Gt),
            Token::Le => Some(BinOp::Le),
            Token::Ge => Some(BinOp::Ge),
            _ => None,
        }
    }
}

impl Clone for Expr {
    fn clone(&self) -> (r: Expr)
        ensures
            r@ == self@,
        decreases self,
    {
        match self {
            Expr::Literal(n) => Expr::Literal(*n),
            Expr::Numeral(s) => Expr::Numeral(s.clone()),
            Expr::Var(s) => Expr::Var(s.clone()),
            Expr::Binary(l, op, r) => {
                let l2 = (**l).clone();
                let r2 = (**r).clone();
                Expr::Binary(Box::new(l2), *op, Box::new(r2))
            },
            Expr::Unary(op, x) => {
                let x2 = (**x).clone();
                Expr::Unary(*op, Box::new(x2))
            },
            Expr::If(c, t, f) => {
                let c2 = (**c).clone();
                let t2 = (**t).clone();
                let f2 = (**f).clone();
                Expr::If(Box::new(c2), Box::new(t2), Box::new(f2))
            },
            Expr::Call(s, args) => {
                let mut out: Vec<Expr> = Vec::new();
                let mut i: usize = 0;
                while i < args.len()
                    invariant
                        *self == Expr::Call(*s, *args),
                        0 <= i <= args.len(),
                        out@.len() == i,
                        forall|j: int| 0 <= j < i ==> #[trigger] out@[j]@ == args@[j]@,
                    decreases args.len() - i,
                {
                    proof {
                        assert(decreases_to!(*self => self->Call_1));
                        assert(decreases_to!(self->Call_1 => (self->Call_1)@));
                        assert(decreases_to!(args@ => args@[i as int]));
                    }
                    let a = args[i].clone();
                    out.push(a);
                    i = i + 1;
                }
                let r = Expr::Call(s.clone(), out);
                proof {
                    assert(r@ == self@) by {
                        let v1 = expr_view(r);
                        let v2 = expr_view(*self);
                        assert forall|j: int| 0 <= j < args@.len() implies #[trigger] v1->Call_1[j]
                            == v2->Call_1[j] by {
                            assert(out@[j]@ == args@[j]@);
                        }
                        assert(v1->Call_1 =~= v2->Call_1);
                    }
                }
                r
            },
        }
    }
}

impl Clone for Stmt {
    fn clone(&self) -> (r: Stmt)
        ensures
            r@ == self@,
        decreases self,
    {
        match self {
            Stmt::Let(n, e) => Stmt::Let(n.clone(), e.clone()),
            Stmt::Assign(n, e) => Stmt::Assign(n.clone(), e.clone()),
            Stmt::Return(e) => Stmt::Return(e.clone()),
            Stmt::Expr(e) => Stmt::Expr(e.clone()),
            Stmt::If(c, t, f) => {
                let mut t2: Vec<Stmt> = Vec::new();
                let mut i: usize = 0;
                while i < t.len()
                    invariant
                        *self == Stmt::If(*c, *t, *f),
                        0 <= i <= t.len(),
                        t2@.len() == i,
                        forall|j: int| 0 <= j < i ==> #[trigger] t2@[j]@ == t@[j]@,
                    decreases t.len() - i,
                {
                    proof {
                        assert(decreases_to!(*self => self->If_1));
                        assert(decreases_to!(self->If_1 => (self->If_1)@));
                        assert(decreases_to!(t@ => t@[i as int]));
                    }
                    let s = t[i].clone();
                    t2.push(s);
                    i = i + 1;
                }
                let mut f2: Vec<Stmt> = Vec::new();
                let mut k: usize = 0;
                while k < f.len()
                    invariant
                        *self == Stmt::If(*c, *t, *f),
                        0 <= k <= f.len(),
                        f2@.len() == k,
                        forall|j: int| 0 <= j < k ==> #[trigger] f2@[j]@ == f@[j]@,
                    decreases f.len() - k,
                {
                    proof {
                        assert(decreases_to!(*self => self->If_2));
                        assert(decreases_to!(self->If_2 => (self->If_2)@));
                        assert(decreases_to!(f@ => f@[k as int]));
                    }
                    let s = f[k].clone();
                    f2.push(s);
                    k = k + 1;
                }
                let r = Stmt::If(c.clone(), t2, f2);
                proof {
                    let v1 = stmt_view(r);
                    let v2 = stmt_view(*self);
                    assert forall|j: int| 0 <= j < t@.len() implies #[trigger] v1->If_1[j] == v2->If_1[j] by {
                        assert(t2@[j]@ == t@[j]@);
                    }
                    assert forall|j: int| 0 <= j < f@.len() implies #[trigger] v1->If_2[j] == v2->If_2[j] by {
                        assert(f2@[j]@ == f@[j]@);
                    }
                    assert(v1->If_1 =~= v2->If_1);
                    assert(v1->If_2 =~= v2->If_2);
                }
                r
            },
        }
    }
}

impl Clone for Program {
    fn clone(&self) -> (r: Program)
        ensures
            r@ == self@,
    {
        let mut out: Vec<Stmt> = Vec::new();
        let mut i: usize = 0;
        while i < self.stmts.len()
            invariant
                0 <= i <= self.stmts.len(),
                out@.len() == i,
                forall|j: int| 0 <= j < i ==> #[trigger] out@[j]@ == self.stmts@[j]@,
            decreases self.stmts.len() - i,
        {
            let s = self.stmts[i].clone();
            out.push(s);
            i = i + 1;
        }
        let r = Program { stmts: out };
        assert(r@ =~= self@) by {
            assert forall|j: int| 0 <= j < out@.len() implies #[trigger] r@[j] == self@[j] by {
                assert(out@[j]@ == self.stmts@[j]@);
            }
        }
        r
    }
}

/// A balanced ternary digit.
#[derive(Debug, Clone, Copy, PartialEq, Eq, Structural)]
pub enum Trit {
    Neg,
    Zero,
    Pos,
}

pub open spec fn trit_value(t: Trit) -> int {
    match t {
        Trit::Neg => -1,
        Trit::Zero => 0,
        Trit::Pos => 1,
    }
}

impl Trit {
    /// The digit's value: -1, 0 or +1.
    pub fn value(&self) -> (r: i8)
        ensures
            r == trit_value(*self),
    {
        match self {
            Trit::Neg => -1,
            Trit::Zero => 0,
            Trit::Pos => 1,
        }
    }
}

/// One bytecode instruction: an opcode trit and a trit-encoded operand.
#[derive(Debug, PartialEq)]
pub struct TernaryInstruction {
    pub opcode: Trit,
    pub operand: Vec<Trit>,
}

/// An entry of the constant pool.
#[derive(Debug, PartialEq)]
pub enum Constant {
    /// A number, by its exact value.
    Number(Num),
    /// A number literal beyond what a `Num` holds, as written.
    Numeral(String),
}

/// The model of a constant.
pub enum SpecConstant {
    Number(Num),
    Numeral(Seq<char>),
}

impl View for Constant {
    type V = SpecConstant;

    open spec fn view(&self) -> SpecConstant {
        match self {
            Constant::Number(n) => SpecConstant::Number(*n),
            Constant::Numeral(s) => SpecConstant::Numeral(s@),
        }
    }
}

pub open spec fn constants_view(cs: Seq<Constant>) -> Seq<SpecConstant> {
    cs.map_values(|c: Constant| c@)
}

/// Emitted bytecode: the instruction stream and its constant pool.
#[derive(Debug, PartialEq)]
pub struct TernaryBytecode {
    pub instructions: Vec<TernaryInstruction>,
    pub constants: Vec<Constant>,
}

/// The model of an instruction.
pub struct SpecInstruction {
    pub opcode: Trit,
    pub operand: Seq<Trit>,
}

impl View for TernaryInstruction {
    type V = SpecInstruction;

    open spec fn view(&self) -> SpecInstruction {
        SpecInstruction { opcode: self.opcode, operand: self.operand@ }
    }
}

pub open spec fn instrs_view(is: Seq<TernaryInstruction>) -> Seq<SpecInstruction> {
    is.map_values(|i: TernaryInstruction| i@)
}

impl TernaryBytecode {
    /// Empty bytecode: no instructions, no constants.
    pub fn new() -> (r: TernaryBytecode)
        ensures
            r.instructions@.len() == 0,
            r.constants@.len() == 0,
    {
        TernaryBytecode { instructions: Vec::new(), constants: Vec::new() }
    }
}

} // verus!
