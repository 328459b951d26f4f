//! Autumn: the optimizer.
//!
//! Performs constant folding, dead code elimination and strength reduction.
use vstd::prelude::*;
use crate::ast::{BinOp, Expr, Program, SpecExpr, SpecStmt, Stmt, UnOp, expr_view, stmt_view,
    stmts_view};
use crate::num::{Num, lemma_identities, lemma_int_wf, lemma_is_int, lemma_neg_wf, lemma_ops_wf, spec_add, spec_sub, spec_mul, spec_div, spec_same, spec_lt, spec_neg, spec_int};

verus! {

/// `1` for true, `0` for false.
pub open spec fn truth(b: bool) -> Num {
    spec_int(if b { 1 } else { 0 })
}

/// The value of `l op r`, or `None` when it is undefined (division by
/// zero) or does not fit.
pub open spec fn fold_binop(l: Num, op: BinOp, r: Num) -> Option<Num> {
    match op {
        BinOp::Add => spec_add(l, r),
        BinOp::Sub => spec_sub(l, r),
        BinOp::Mul => spec_mul(l, r),
        BinOp::Div => if r.is_zero_spec() { None } else { spec_div(l, r) },
        BinOp::Eq => Some(truth(spec_same(l, r))),
        BinOp::Neq => Some(truth(!spec_same(l, r))),
        BinOp::Lt => Some(truth(spec_lt(l, r))),
        BinOp::Gt => Some(truth(spec_lt(r, l))),
        BinOp::Le => Some(truth(!spec_lt(r, l))),
        BinOp::Ge => Some(truth(!spec_lt(l, r))),
    }
}

/// The literal `v`, when `e` is one.
pub open spec fn lit_is(e: SpecExpr, v: int) -> bool {
    e matches SpecExpr::Literal(n) && n.is_int_spec(v)
}

/// The optimized form of an expression. Folding is exact rational
/// arithmetic (`fold_binop`): there is no ternary wrap-around, so `1 + 1`
/// folds to `2`, not to `-1`.
pub open spec fn spec_optimize(e: SpecExpr) -> SpecExpr
    decreases e,
{
    match e {
        SpecExpr::Literal(n) => SpecExpr::Literal(n),
        SpecExpr::Numeral(t) => SpecExpr::Numeral(t),
        SpecExpr::Var(s) => SpecExpr::Var(s),
        SpecExpr::Binary(l, op, r) => {
            let ol = spec_optimize(*l);
            let or = spec_optimize(*r);
            if ol is Literal && or is Literal && fold_binop(ol->Literal_0, op, or->Literal_0) is Some {
                SpecExpr::Literal(fold_binop(ol->Literal_0, op, or->Literal_0)->Some_0)
            } else {
                reduce_binary(ol, op, or)
            }
        },
        SpecExpr::Unary(op, x) => {
            let ox = spec_optimize(*x);
            match ox {
                SpecExpr::Literal(n) => SpecExpr::Literal(spec_neg(n)),
                _ => SpecExpr::Unary(op, Box::new(ox)),
            }
        },
        SpecExpr::If(c, t, f) => {
            let oc = spec_optimize(*c);
            let ot = spec_optimize(*t);
            let of = spec_optimize(*f);
            match oc {
                SpecExpr::Literal(n) => if !n.is_zero_spec() { ot } else { of },
                _ => SpecExpr::If(Box::new(oc), Box::new(ot), Box::new(of)),
            }
        },
        SpecExpr::Call(name, args) => SpecExpr::Call(
            name,
            Seq::new(
                args.len(),
                |i: int|
                    if 0 <= i < args.len() {
                        spec_optimize(args[i])
                    } else {
                        SpecExpr::Literal(arbitrary())
                    },
            ),
        ),
    }
}

/// Strength reduction and identities on an unfolded binary node whose
/// operands are already optimized: `x * 1`, `1 * x`, `x + 0`, `0 + x`,
/// `x - 0` and `x / 1` become `x`; `x * 2` becomes `x + x`.
pub open spec fn reduce_binary(ol: SpecExpr, op: BinOp, or: SpecExpr) -> SpecExpr {
    match op {
        BinOp::Mul => if lit_is(or, 1) {
            ol
        } else if lit_is(ol, 1) {
            or
        } else if lit_is(or, 2) {
            SpecExpr::Binary(Box::new(ol), BinOp::Add, Box::new(ol))
        } else {
            SpecExpr::Binary(Box::new(ol), op, Box::new(or))
        },
        BinOp::Add => if lit_is(or, 0) {
            ol
        } else if lit_is(ol, 0) {
            or
        } else {
            SpecExpr::Binary(Box::new(ol), op, Box::new(or))
        },
        BinOp::Sub => if lit_is(or, 0) {
            ol
        } else {
            SpecExpr::Binary(Box::new(ol), op, Box::new(or))
        },
        BinOp::Div => if lit_is(or, 1) {
            ol
        } else {
            SpecExpr::Binary(Box::new(ol), op, Box::new(or))
        },
        _ => SpecExpr::Binary(Box::new(ol), op, Box::new(or)),
    }
}

/// The optimized form of a statement. A conditional whose condition folds
/// to a constant keeps only the branch that runs: a non-zero constant keeps
/// the then-branch, zero keeps the else-branch, and a conditional left with
/// nothing to run (zero, no else-branch) becomes the expression statement
/// `0`.
pub open spec fn spec_optimize_stmt(s: SpecStmt) -> SpecStmt
    decreases s,
{
    match s {
        SpecStmt::Let(n, e) => SpecStmt::Let(n, spec_optimize(e)),
        SpecStmt::Assign(n, e) => SpecStmt::Assign(n, spec_optimize(e)),
        SpecStmt::If(c, t, f) => {
            let oc = spec_optimize(c);
            let ot = Seq::new(
                t.len(),
                |i: int|
                    if 0 <= i < t.len() {
                        spec_optimize_stmt(t[i])
                    } else {
                        SpecStmt::Expr(SpecExpr::Literal(arbitrary()))
                    },
            );
            let of = Seq::new(
                f.len(),
                |i: int|
                    if 0 <= i < f.len() {
                        spec_optimize_stmt(f[i])
                    } else {
                        SpecStmt::Expr(SpecExpr::Literal(arbitrary()))
                    },
            );
            if oc is Literal && !oc->Literal_0.is_zero_spec() {
                SpecStmt::If(oc, ot, seq![])
            } else if oc is Literal && f.len() == 0 {
                SpecStmt::Expr(SpecExpr::Literal(spec_int(0)))
            } else if oc is Literal {
                SpecStmt::If(oc, seq![], of)
            } else {
                SpecStmt::If(oc, ot, of)
            }
        },
        SpecStmt::Return(e) => SpecStmt::Return(spec_optimize(e)),
        SpecStmt::Expr(e) => SpecStmt::Expr(spec_optimize(e)),
    }
}

pub open spec fn spec_optimize_stmts(ss: Seq<SpecStmt>) -> Seq<SpecStmt> {
    ss.map_values(|s: SpecStmt| spec_optimize_stmt(s))
}

/// The value of an expression when every variable bound in `env` has the
/// value given there and every call has the value `calls` gives for its name
/// and argument values; `None` when it has no value (an unbound variable, an
/// undefined operation, a call without a value, or a numeral, whose exact
/// value is beyond what a `Num` holds).
pub open spec fn eval(
    e: SpecExpr,
    env: Map<Seq<char>, Num>,
    calls: spec_fn(Seq<char>, Seq<Num>) -> Option<Num>,
) -> Option<Num>
    decreases e,
{
    match e {
        SpecExpr::Literal(n) => Some(n),
        SpecExpr::Numeral(_) => None,
        SpecExpr::Var(x) => if env.contains_key(x) { Some(env[x]) } else { None },
        SpecExpr::Binary(l, op, r) => combine(eval(*l, env, calls), op, eval(*r, env, calls)),
        SpecExpr::Unary(_, x) => match eval(*x, env, calls) {
            Some(v) => Some(spec_neg(v)),
            None => None,
        },
        SpecExpr::If(c, t, f) => match eval(*c, env, calls) {
            Some(v) => if !v.is_zero_spec() { eval(*t, env, calls) } else { eval(*f, env, calls) },
            None => None,
        },
        SpecExpr::Call(name, args) => match eval_args(args, env, calls) {
            Some(vs) => calls(name, vs),
            None => None,
        },
    }
}

/// The values of a list of expressions, when all have one.
pub open spec fn eval_args(
    args: Seq<SpecExpr>,
    env: Map<Seq<char>, Num>,
    calls: spec_fn(Seq<char>, Seq<Num>) -> Option<Num>,
) -> Option<Seq<Num>>
    decreases args,
{
    if args.len() == 0 {
        Some(seq![])
    } else {
        match (eval(args[0], env, calls), eval_args(args.drop_first(), env, calls)) {
            (Some(v), Some(vs)) => Some(seq![v] + vs),
            _ => None,
        }
    }
}

pub open spec fn combine(a: Option<Num>, op: BinOp, b: Option<Num>) -> Option<Num> {
    match (a, b) {
        (Some(x), Some(y)) => fold_binop(x, op, y),
        _ => None,
    }
}

/// Every literal in the expression is a well-formed number.
pub open spec fn lits_wf(e: SpecExpr) -> bool
    decreases e,
{
    match e {
        SpecExpr::Literal(n) => n.wf(),
        SpecExpr::Numeral(_) => true,
        SpecExpr::Var(_) => true,
        SpecExpr::Binary(l, _, r) => lits_wf(*l) && lits_wf(*r),
        SpecExpr::Unary(_, x) => lits_wf(*x),
        SpecExpr::If(c, t, f) => lits_wf(*c) && lits_wf(*t) && lits_wf(*f),
        SpecExpr::Call(_, args) => args_lits_wf(args),
    }
}

pub open spec fn args_lits_wf(args: Seq<SpecExpr>) -> bool
    decreases args,
{
    if args.len() == 0 {
        true
    } else {
        lits_wf(args[0]) && args_lits_wf(args.drop_first())
    }
}

/// Every call has a well-formed value, or none.
pub open spec fn calls_wf(calls: spec_fn(Seq<char>, Seq<Num>) -> Option<Num>) -> bool {
    forall|n: Seq<char>, vs: Seq<Num>| #[trigger] calls(n, vs) matches Some(v) ==> v.wf()
}

/// Every bound variable has a well-formed value.
pub open spec fn env_wf(env: Map<Seq<char>, Num>) -> bool {
    forall|x: Seq<char>| #[trigger] env.contains_key(x) ==> env[x].wf()
}

proof fn lemma_args_lits_wf(args: Seq<SpecExpr>, i: int)
    requires
        args_lits_wf(args),
        0 <= i < args.len(),
    ensures
        lits_wf(args[i]),
    decreases args.len(),
{
    if i > 0 {
        lemma_args_lits_wf(args.drop_first(), i - 1);
    }
}

proof fn lemma_args_lits_wf_from_all(args: Seq<SpecExpr>)
    requires
        forall|i: int| 0 <= i < args.len() ==> lits_wf(#[trigger] args[i]),
    ensures
        args_lits_wf(args),
    decreases args.len(),
{
    if args.len() > 0 {
        let rest = args.drop_first();
        assert forall|i: int| 0 <= i < rest.len() implies lits_wf(#[trigger] rest[i]) by {
            assert(rest[i] == args[i + 1]);
        }
        lemma_args_lits_wf_from_all(rest);
    }
}

proof fn lemma_fold_wf(a: Num, op: BinOp, b: Num)
    requires
        a.wf(),
        b.wf(),
    ensures
        fold_binop(a, op, b) matches Some(v) ==> v.wf(),
{
    lemma_ops_wf(a, b);
    lemma_int_wf(0);
    lemma_int_wf(1);
}

proof fn lemma_eval_wf(
    e: SpecExpr,
    env: Map<Seq<char>, Num>,
    calls: spec_fn(Seq<char>, Seq<Num>) -> Option<Num>,
)
    requires
        lits_wf(e),
        env_wf(env),
        calls_wf(calls),
    ensures
        eval(e, env, calls) matches Some(v) ==> v.wf(),
    decreases e,
{
    match e {
        SpecExpr::Literal(_) => {},
        SpecExpr::Numeral(_) => {},
        SpecExpr::Var(x) => {
            if env.contains_key(x) {
                assert(env[x].wf());
            }
        },
        SpecExpr::Binary(l, op, r) => {
            lemma_eval_wf(*l, env, calls);
            lemma_eval_wf(*r, env, calls);
            if let (Some(a), Some(b)) = (eval(*l, env, calls), eval(*r, env, calls)) {
                lemma_fold_wf(a, op, b);
            }
        },
        SpecExpr::Unary(_, x) => {
            lemma_eval_wf(*x, env, calls);
            if let Some(v) = eval(*x, env, calls) {
                lemma_neg_wf(v);
            }
        },
        SpecExpr::If(c, t, f) => {
            lemma_eval_wf(*c, env, calls);
            lemma_eval_wf(*t, env, calls);
            lemma_eval_wf(*f, env, calls);
        },
        SpecExpr::Call(name, args) => {
            if let Some(vs) = eval_args(args, env, calls) {
                assert(calls(name, vs) matches Some(v) ==> v.wf());
            }
        },
    }
}

/// Optimization keeps literals well formed.
proof fn lemma_optimize_wf(e: SpecExpr)
    requires
        lits_wf(e),
    ensures
        lits_wf(spec_optimize(e)),
    decreases e,
{
    match e {
        SpecExpr::Literal(_) => {},
        SpecExpr::Numeral(_) => {},
        SpecExpr::Var(_) => {},
        SpecExpr::Binary(l, op, r) => {
            lemma_optimize_wf(*l);
            lemma_optimize_wf(*r);
            let ol = spec_optimize(*l);
            let or = spec_optimize(*r);
            if ol is Literal && or is Literal {
                lemma_fold_wf(ol->Literal_0, op, or->Literal_0);
            }
        },
        SpecExpr::Unary(_, x) => {
            lemma_optimize_wf(*x);
            if spec_optimize(*x) is Literal {
                lemma_neg_wf(spec_optimize(*x)->Literal_0);
            }
        },
        SpecExpr::If(c, t, f) => {
            lemma_optimize_wf(*c);
            lemma_optimize_wf(*t);
            lemma_optimize_wf(*f);
        },
        SpecExpr::Call(name, args) => {
            let oargs = spec_optimize(e)->Call_1;
            assert forall|i: int| 0 <= i < oargs.len() implies lits_wf(#[trigger] oargs[i]) by {
                lemma_args_lits_wf(args, i);
                lemma_optimize_wf(args[i]);
            }
            lemma_args_lits_wf_from_all(oargs);
        },
    }
}

/// Strength reduction and the identities do not change the value.
proof fn lemma_reduce_binary_eval(
    ol: SpecExpr,
    op: BinOp,
    or: SpecExpr,
    env: Map<Seq<char>, Num>,
    calls: spec_fn(Seq<char>, Seq<Num>) -> Option<Num>,
)
    requires
        eval(ol, env, calls) matches Some(v) ==> v.wf(),
        eval(or, env, calls) matches Some(v) ==> v.wf(),
    ensures
        eval(reduce_binary(ol, op, or), env, calls) == combine(
            eval(ol, env, calls),
            op,
            eval(or, env, calls),
        ),
{
    if let Some(v) = eval(ol, env, calls) {
        lemma_identities(v);
    }
    if let Some(v) = eval(or, env, calls) {
        lemma_identities(v);
    }
    if lit_is(ol, 0) {
        lemma_is_int(ol->Literal_0, 0);
    }
    if lit_is(ol, 1) {
        lemma_is_int(ol->Literal_0, 1);
    }
    if lit_is(or, 0) {
        lemma_is_int(or->Literal_0, 0);
    }
    if lit_is(or, 1) {
        lemma_is_int(or->Literal_0, 1);
    }
    if lit_is(or, 2) {
        lemma_is_int(or->Literal_0, 2);
    }
    lemma_int_wf(1);
}

proof fn lemma_eval_args_pointwise(
    a1: Seq<SpecExpr>,
    a2: Seq<SpecExpr>,
    env: Map<Seq<char>, Num>,
    calls: spec_fn(Seq<char>, Seq<Num>) -> Option<Num>,
)
    requires
        a1.len() == a2.len(),
        forall|i: int| 0 <= i < a1.len() ==> eval(#[trigger] a1[i], env, calls) == eval(a2[i], env, calls),
    ensures
        eval_args(a1, env, calls) == eval_args(a2, env, calls),
    decreases a1.len(),
{
    if a1.len() > 0 {
        let r1 = a1.drop_first();
        let r2 = a2.drop_first();
        assert forall|i: int| 0 <= i < r1.len() implies eval(#[trigger] r1[i], env, calls) == eval(
            r2[i],
            env,
            calls,
        ) by {
            assert(r1[i] == a1[i + 1]);
            assert(r2[i] == a2[i + 1]);
        }
        lemma_eval_args_pointwise(r1, r2, env, calls);
        assert(eval(a1[0], env, calls) == eval(a2[0], env, calls));
    }
}

/// Optimization preserves meaning: in every environment that binds
/// variables to well-formed numbers, and for every interpretation of calls
/// that yields well-formed numbers, the optimized expression has exactly
/// the value of the unoptimized one (both have none when it has none).
pub proof fn lemma_optimize_preserves_value(
    e: SpecExpr,
    env: Map<Seq<char>, Num>,
    calls: spec_fn(Seq<char>, Seq<Num>) -> Option<Num>,
)
    requires
        lits_wf(e),
        env_wf(env),
        calls_wf(calls),
    ensures
        eval(spec_optimize(e), env, calls) == eval(e, env, calls),
    decreases e,
{
    match e {
        SpecExpr::Literal(_) => {},
        SpecExpr::Numeral(_) => {},
        SpecExpr::Var(_) => {},
        SpecExpr::Binary(l, op, r) => {
            lemma_optimize_preserves_value(*l, env, calls);
            lemma_optimize_preserves_value(*r, env, calls);
            lemma_eval_wf(*l, env, calls);
            lemma_eval_wf(*r, env, calls);
            let ol = spec_optimize(*l);
            let or = spec_optimize(*r);
            if !(ol is Literal && or is Literal && fold_binop(ol->Literal_0, op, or->Literal_0) is Some) {
                lemma_reduce_binary_eval(ol, op, or, env, calls);
            }
        },
        SpecExpr::Unary(_, x) => {
            lemma_optimize_preserves_value(*x, env, calls);
        },
        SpecExpr::If(c, t, f) => {
            lemma_optimize_preserves_value(*c, env, calls);
            lemma_optimize_preserves_value(*t, env, calls);
            lemma_optimize_preserves_value(*f, env, calls);
        },
        SpecExpr::Call(name, args) => {
            let oargs = spec_optimize(e)->Call_1;
            assert forall|i: int| 0 <= i < oargs.len() implies eval(#[trigger] oargs[i], env, calls)
                == eval(args[i], env, calls) by {
                lemma_args_lits_wf(args, i);
                lemma_optimize_preserves_value(args[i], env, calls);
            }
            lemma_eval_args_pointwise(oargs, args, env, calls);
        },
    }
}

/// Optimizing an optimized expression changes nothing.
pub proof fn lemma_optimize_idempotent(e: SpecExpr)
    requires
        lits_wf(e),
    ensures
        spec_optimize(spec_optimize(e)) == spec_optimize(e),
    decreases e,
{
    match e {
        SpecExpr::Literal(_) => {},
        SpecExpr::Numeral(_) => {},
        SpecExpr::Var(_) => {},
        SpecExpr::Binary(l, op, r) => {
            lemma_optimize_idempotent(*l);
            lemma_optimize_idempotent(*r);
            lemma_optimize_wf(*l);
            lemma_optimize_wf(*r);
            let ol = spec_optimize(*l);
            let or = spec_optimize(*r);
            if ol is Literal {
                lemma_identities(ol->Literal_0);
            }
            if lit_is(ol, 0) {
                lemma_is_int(ol->Literal_0, 0);
            }
            if lit_is(or, 2) {
                lemma_is_int(or->Literal_0, 2);
            }
            lemma_int_wf(0);
        },
        SpecExpr::Unary(_, x) => {
            lemma_optimize_idempotent(*x);
        },
        SpecExpr::If(c, t, f) => {
            lemma_optimize_idempotent(*c);
            lemma_optimize_idempotent(*t);
            lemma_optimize_idempotent(*f);
        },
        SpecExpr::Call(name, args) => {
            let o = spec_optimize(e);
            let oargs = o->Call_1;
            let ooargs = spec_optimize(o)->Call_1;
            assert forall|i: int| 0 <= i < oargs.len() implies #[trigger] ooargs[i] == oargs[i] by {
                lemma_args_lits_wf(args, i);
                lemma_optimize_idempotent(args[i]);
            }
            assert(ooargs =~= oargs);
        },
    }
}

/// Evaluates `l op r` on numbers.
pub(crate) fn eval_binop(l: &Num, op: BinOp, r: &Num) -> (res: Option<Num>)
    ensures
        res == fold_binop(*l, op, *r),
{
    match op {
        BinOp::Add => l.add(r),
        BinOp::Sub => l.sub(r),
        BinOp::Mul => l.mul(r),
        BinOp::Div => {
            if r.is_zero() {
                None
            } else {
                l.div(r)
            }
        },
        BinOp::Eq => Some(truth_exec(l.same_value(r))),
        BinOp::Neq => Some(truth_exec(!l.same_value(r))),
        BinOp::Lt => Some(truth_exec(l.less_than(r))),
        BinOp::Gt => Some(truth_exec(r.less_than(l))),
        BinOp::Le => Some(truth_exec(!r.less_than(l))),
        BinOp::Ge => Some(truth_exec(!l.less_than(r))),
    }
}

fn truth_exec(b: bool) -> (r: Num)
    ensures
        r == truth(b),
{
    if b {
        Num::from_int(1)
    } else {
        Num::from_int(0)
    }
}

/// Whether `e` is the literal `v`.
fn is_lit(e: &Expr, v: i64) -> (r: bool)
    ensures
        r == lit_is(e@, v as int),
{
    match e {
        Expr::Literal(n) => n.is_int(v),
        _ => false,
    }
}

fn reduce_binary_exec(ol: Expr, op: BinOp, or: Expr) -> (r: Expr)
    ensures
        r@ == reduce_binary(ol@, op, or@),
{
    match op {
        BinOp::Mul => {
            if is_lit(&or, 1) {
                ol
            } else if is_lit(&ol, 1) {
                or
            } else if is_lit(&or, 2) {
                let l = ol.clone();
                Expr::Binary(Box::new(ol), BinOp::Add, Box::new(l))
            } else {
                Expr::Binary(Box::new(ol), op, Box::new(or))
            }
        },
        BinOp::Add => {
            if is_lit(&or, 0) {
                ol
            } else if is_lit(&ol, 0) {
                or
            } else {
                Expr::Binary(Box::new(ol), op, Box::new(or))
            }
        },
        BinOp::Sub => {
            if is_lit(&or, 0) {
                ol
            } else {
                Expr::Binary(Box::new(ol), op, Box::new(or))
            }
        },
        BinOp::Div => {
            if is_lit(&or, 1) {
                ol
            } else {
                Expr::Binary(Box::new(ol), op, Box::new(or))
            }
        },
        _ => Expr::Binary(Box::new(ol), op, Box::new(or)),
    }
}

/// Constant-folds and strength-reduces an expression, as `spec_optimize`
/// says. Folding is exact rational arithmetic, with no ternary wrap-around.
pub fn optimize_expr(expr: &Expr) -> (r: Expr)
    ensures
        r@ == spec_optimize(expr@),
    decreases expr,
{
    match expr {
        Expr::Literal(n) => Expr::Literal(*n),
        Expr::Numeral(t) => Expr::Numeral(t.clone()),
        Expr::Var(name) => Expr::Var(name.clone()),
        Expr::Binary(left, op, right) => {
            let opt_left = optimize_expr(left);
            let opt_right = optimize_expr(right);
            let folded = match &opt_left {
                Expr::Literal(l) => match &opt_right {
                    Expr::Literal(r) => eval_binop(l, *op, r),
                    _ => None,
                },
                _ => None,
            };
            match folded {
                Some(v) => Expr::Literal(v),
                None => reduce_binary_exec(opt_left, *op, opt_right),
            }
        },
        Expr::Unary(op, e) => {
            let opt_e = optimize_expr(e);
            match opt_e {
                Expr::Literal(n) => Expr::Literal(n.neg()),
                _ => Expr::Unary(*op, Box::new(opt_e)),
            }
        },
        Expr::If(cond, then_e, else_e) => {
            let opt_cond = optimize_expr(cond);
            let opt_then = optimize_expr(then_e);
            let opt_else = optimize_expr(else_e);
            match opt_cond {
                Expr::Literal(n) => {
                    if !n.is_zero() {
                        opt_then
                    } else {
                        opt_else
                    }
                },
                _ => Expr::If(Box::new(opt_cond), Box::new(opt_then), Box::new(opt_else)),
            }
        },
        Expr::Call(name, args) => {
            let mut opt_args: Vec<Expr> = Vec::new();
            let mut i: usize = 0;
            while i < args.len()
                invariant
                    *expr == Expr::Call(*name, *args),
                    0 <= i <= args.len(),
                    opt_args@.len() == i,
                    forall|j: int|
                        0 <= j < i ==> #[trigger] opt_args@[j]@ == spec_optimize(args@[j]@),
                decreases args.len() - i,
            {
                proof {
                    assert(decreases_to!(*expr => expr->Call_1));
                    assert(decreases_to!(expr->Call_1 => (expr->Call_1)@));
                    assert(decreases_to!(args@ => args@[i as int]));
                }
                let a = optimize_expr(&args[i]);
                opt_args.push(a);
                i = i + 1;
            }
            let r = Expr::Call(name.clone(), opt_args);
            proof {
                let v1 = expr_view(r);
                let v2 = spec_optimize(expr_view(*expr));
                assert forall|j: int| 0 <= j < args@.len() implies #[trigger] v1->Call_1[j]
                    == v2->Call_1[j] by {
                    assert(opt_args@[j]@ == spec_optimize(args@[j]@));
                }
                assert(v1->Call_1 =~= v2->Call_1);
            }
            r
        },
    }
}

fn optimize_stmts(stmts: &Vec<Stmt>) -> (r: Vec<Stmt>)
    ensures
        stmts_view(r@) == spec_optimize_stmts(stmts_view(stmts@)),
    decreases stmts@, 0int,
{
    let mut out: Vec<Stmt> = Vec::new();
    let mut i: usize = 0;
    while i < stmts.len()
        invariant
            0 <= i <= stmts.len(),
            out@.len() == i,
            forall|j: int| 0 <= j < i ==> #[trigger] out@[j]@ == spec_optimize_stmt(stmts@[j]@),
        decreases stmts.len() - i,
    {
        proof {
            assert(decreases_to!(stmts@ => stmts@[i as int]));
        }
        let s = optimize_stmt(&stmts[i]);
        out.push(s);
        i = i + 1;
    }
    assert forall|j: int| 0 <= j < out@.len() implies #[trigger] stmts_view(out@)[j]
        == spec_optimize_stmts(stmts_view(stmts@))[j] by {
        assert(out@[j]@ == spec_optimize_stmt(stmts@[j]@));
    }
    assert(stmts_view(out@) =~= spec_optimize_stmts(stmts_view(stmts@)));
    out
}

fn optimize_stmt(stmt: &Stmt) -> (r: Stmt)
    ensures
        r@ == spec_optimize_stmt(stmt@),
    decreases *stmt, 1int,
{
    match stmt {
        Stmt::Let(name, expr) => Stmt::Let(name.clone(), optimize_expr(expr)),
        Stmt::Assign(name, expr) => Stmt::Assign(name.clone(), optimize_expr(expr)),
        Stmt::If(cond, then_b, else_b) => {
            let opt_cond = optimize_expr(cond);
            // Dead code elimination: when the condition is a constant, keep
            // only the branch that runs
            let (keep_then, keep_else) = match &opt_cond {
                Expr::Literal(n) => {
                    if !n.is_zero() {
                        (true, false)
                    } else if else_b.len() == 0 {
                        return Stmt::Expr(Expr::Literal(Num::from_int(0)));
                    } else {
                        (false, true)
                    }
                },
                _ => (true, true),
            };
            proof {
                assert(decreases_to!(*stmt => stmt->If_1));
                assert(decreases_to!(*stmt => stmt->If_2));
            }
            let t = if keep_then {
                optimize_stmts(then_b)
            } else {
                Vec::new()
            };
            let f = if keep_else {
                optimize_stmts(else_b)
            } else {
                Vec::new()
            };
            let r = Stmt::If(opt_cond, t, f);
            proof {
                let v1 = stmt_view(r);
                let sv = stmt_view(*stmt);
                assert(sv->If_0 == cond@);
                assert(sv->If_1 =~= stmts_view(then_b@));
                assert(sv->If_2 =~= stmts_view(else_b@));
                let ot = spec_optimize_stmts(stmts_view(then_b@));
                let of = spec_optimize_stmts(stmts_view(else_b@));
                let v2 = spec_optimize_stmt(sv);
                assert(v2 is If);
                assert(v1->If_1 =~= stmts_view(t@));
                assert(v1->If_2 =~= stmts_view(f@));
                if keep_then {
                    assert(stmts_view(t@) == ot);
                    assert(v2->If_1 =~= ot);
                } else {
                    assert(stmts_view(t@) =~= Seq::<SpecStmt>::empty());
                    assert(v2->If_1 =~= Seq::<SpecStmt>::empty());
                }
                if keep_else {
                    assert(stmts_view(f@) == of);
                    assert(v2->If_2 =~= of);
                } else {
                    assert(stmts_view(f@) =~= Seq::<SpecStmt>::empty());
                    assert(v2->If_2 =~= Seq::<SpecStmt>::empty());
                }
            }
            r
        },
        Stmt::Return(expr) => Stmt::Return(optimize_expr(expr)),
        Stmt::Expr(expr) => Stmt::Expr(optimize_expr(expr)),
    }
}

/// Optimizes a full program in place.
pub fn autumn(program: &mut Program)
    ensures
        final(program)@ == spec_optimize_stmts(old(program)@),
{
    let stmts = optimize_stmts(&program.stmts);
    program.stmts = stmts;
}

// ── Running statements ─────────────────────────────────────────────────

/// The outcome of running a statement list.
pub enum Outcome {
    /// The statements ran to their end, leaving these variable values.
    Done(Map<Seq<char>, Num>),
    /// A `return` gave this value.
    Returned(Num),
    /// An expression had no value (`eval`), so running could not go on.
    Stuck,
}

/// What running the statements `ss` does, from the variable values `env`,
/// with calls valued by `calls`: `let` and assignment set a variable to the
/// value of their expression, an expression statement evaluates its
/// expression, `return` ends with a value, and a conditional runs its
/// then-branch when the condition is non-zero and its else-branch when it
/// is zero; names a branch defines are gone after it.
pub open spec fn run_stmts(
    ss: Seq<SpecStmt>,
    env: Map<Seq<char>, Num>,
    calls: spec_fn(Seq<char>, Seq<Num>) -> Option<Num>,
) -> Outcome
    decreases ss,
{
    if ss.len() == 0 {
        Outcome::Done(env)
    } else {
        let rest = ss.drop_first();
        match ss[0] {
            SpecStmt::Let(n, e) => match eval(e, env, calls) {
                Some(v) => run_stmts(rest, env.insert(n, v), calls),
                None => Outcome::Stuck,
            },
            SpecStmt::Assign(n, e) => match eval(e, env, calls) {
                Some(v) => run_stmts(rest, env.insert(n, v), calls),
                None => Outcome::Stuck,
            },
            SpecStmt::Expr(e) => match eval(e, env, calls) {
                Some(_) => run_stmts(rest, env, calls),
                None => Outcome::Stuck,
            },
            SpecStmt::Return(e) => match eval(e, env, calls) {
                Some(v) => Outcome::Returned(v),
                None => Outcome::Stuck,
            },
            SpecStmt::If(c, t, f) => match eval(c, env, calls) {
                Some(v) => {
                    let branch = if !v.is_zero_spec() {
                        run_stmts(t, env, calls)
                    } else {
                        run_stmts(f, env, calls)
                    };
                    match branch {
                        Outcome::Done(after) => run_stmts(rest, after.restrict(env.dom()), calls),
                        other => other,
                    }
                },
                None => Outcome::Stuck,
            },
        }
    }
}

/// Every literal in the statements is a well-formed number.
pub open spec fn stmts_lits_wf(ss: Seq<SpecStmt>) -> bool
    decreases ss,
{
    if ss.len() == 0 {
        true
    } else {
        stmts_lits_wf(ss.drop_first()) && match ss[0] {
            SpecStmt::Let(_, e) => lits_wf(e),
            SpecStmt::Assign(_, e) => lits_wf(e),
            SpecStmt::Expr(e) => lits_wf(e),
            SpecStmt::Return(e) => lits_wf(e),
            SpecStmt::If(c, t, f) => lits_wf(c) && stmts_lits_wf(t) && stmts_lits_wf(f),
        }
    }
}

/// Optimization preserves what statements do: in every environment of
/// well-formed numbers, and for every interpretation of calls that yields
/// well-formed numbers, running the optimized statements has exactly the
/// outcome of running the original ones: the same final variable values,
/// the same returned value, or both stuck. (In particular a conditional
/// whose condition is not constant keeps both of its branches.)
pub proof fn lemma_optimize_preserves_run(
    ss: Seq<SpecStmt>,
    env: Map<Seq<char>, Num>,
    calls: spec_fn(Seq<char>, Seq<Num>) -> Option<Num>,
)
    requires
        stmts_lits_wf(ss),
        env_wf(env),
        calls_wf(calls),
    ensures
        run_stmts(spec_optimize_stmts(ss), env, calls) == run_stmts(ss, env, calls),
        run_stmts(ss, env, calls) matches Outcome::Done(after) ==> env_wf(after),
    decreases ss,
{
    if ss.len() > 0 {
        let os = spec_optimize_stmts(ss);
        let rest = ss.drop_first();
        assert(os.drop_first() =~= spec_optimize_stmts(rest));
        assert(os[0] == spec_optimize_stmt(ss[0]));
        match ss[0] {
            SpecStmt::Let(n, e) => {
                lemma_optimize_preserves_value(e, env, calls);
                lemma_eval_wf(e, env, calls);
                if let Some(v) = eval(e, env, calls) {
                    lemma_optimize_preserves_run(rest, env.insert(n, v), calls);
                }
            },
            SpecStmt::Assign(n, e) => {
                lemma_optimize_preserves_value(e, env, calls);
                lemma_eval_wf(e, env, calls);
                if let Some(v) = eval(e, env, calls) {
                    lemma_optimize_preserves_run(rest, env.insert(n, v), calls);
                }
            },
            SpecStmt::Expr(e) => {
                lemma_optimize_preserves_value(e, env, calls);
                lemma_optimize_preserves_run(rest, env, calls);
            },
            SpecStmt::Return(e) => {
                lemma_optimize_preserves_value(e, env, calls);
            },
            SpecStmt::If(c, t, f) => {
                lemma_optimize_preserves_value(c, env, calls);
                lemma_optimize_preserves_run(t, env, calls);
                lemma_optimize_preserves_run(f, env, calls);
                let oc = spec_optimize(c);
                let o = spec_optimize_stmt(ss[0]);
                if o is If {
                    assert(o->If_1 =~= spec_optimize_stmts(t) || o->If_1 =~= Seq::<SpecStmt>::empty());
                    assert(o->If_2 =~= spec_optimize_stmts(f) || o->If_2 =~= Seq::<SpecStmt>::empty());
                }
                if let Some(v) = eval(c, env, calls) {
                    let branch = if !v.is_zero_spec() {
                        run_stmts(t, env, calls)
                    } else {
                        run_stmts(f, env, calls)
                    };
                    assert(run_stmts(Seq::<SpecStmt>::empty(), env, calls) == Outcome::Done(env));
                    assert(env.restrict(env.dom()) =~= env);
                    if let Outcome::Done(after) = branch {
                        let kept = after.restrict(env.dom());
                        assert(env_wf(kept));
                        lemma_optimize_preserves_run(rest, kept, calls);
                    } else {
                        lemma_optimize_preserves_run(rest, env, calls);
                    }
                    if o is Expr {
                        lemma_int_wf(0);
                        lemma_optimize_preserves_run(rest, env, calls);
                    }
                }
            },
        }
    }
}

} // verus!
