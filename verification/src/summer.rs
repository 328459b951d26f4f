//! Summer: the checking season.
//!
//! The canopy thickens. For the expression grove, each tree is classified
//! by its niche: `Int` for the hardwoods of arithmetic, `Bool` for branching
//! logic and `Ternary` for the {-1, 0, +1} undergrowth. For programs, every
//! variable must be defined before it is used or assigned.
use vstd::prelude::*;
use crate::ast::tree::{BinOpKind, Expr as TreeExpr, SpecTree, Type, TypedExpr, UnaryKind,
    spec_type_text};
use crate::ast::{BinOp, UnOp, Expr, Program, SpecExpr, SpecStmt, Stmt, expr_view, stmts_view};
use crate::autumn::{eval, eval_binop, spec_optimize, spec_optimize_stmt, spec_optimize_stmts,
    reduce_binary, lits_wf, env_wf, calls_wf, lemma_optimize_preserves_value};
use crate::error::{GroveError, SpecError};
use crate::num::{LIMIT, Num, lemma_arith_values, lemma_int_parts, lemma_int_wf, lemma_order, spec_int, spec_neg};

verus! {

// ── The expression grove ───────────────────────────────────────────────

/// Result of type-checking an expression.
#[derive(Debug)]
pub struct TypeCheckResult {
    pub typed: Option<TypedExpr>,
    pub errors: Vec<String>,
}

/// The type of the innermost binding of `name`, if any.
pub open spec fn lookup(env: Seq<(Seq<char>, Type)>, name: Seq<char>) -> Option<Type>
    decreases env.len(),
{
    if env.len() == 0 {
        None
    } else if env.last().0 == name {
        Some(env.last().1)
    } else {
        lookup(env.drop_last(), name)
    }
}

/// Literals -1, 0 and +1 are ternary; all other numbers are integers.
pub open spec fn literal_type(n: Num) -> Type {
    if n.is_int_spec(-1) || n.is_int_spec(0) || n.is_int_spec(1) {
        Type::Ternary
    } else {
        Type::Int
    }
}

pub open spec fn undefined_message(name: Seq<char>) -> Seq<char> {
    "undefined variable: "@ + name
}

/// The error for branches of different types, if they differ.
pub open spec fn mismatch_errors(a: Type, b: Type) -> Seq<Seq<char>> {
    if a == b {
        seq![]
    } else {
        seq!["if branches have mismatched types: "@ + spec_type_text(a) + " vs "@ + spec_type_text(b)]
    }
}

/// The type of a grove expression under `env`, and the errors found while
/// checking it, in the order the checker reports them.
pub open spec fn check_tree(e: SpecTree, env: Seq<(Seq<char>, Type)>) -> (Type, Seq<Seq<char>>)
    decreases e,
{
    match e {
        SpecTree::Lit(n) => (literal_type(n), seq![]),
        SpecTree::Var(x) => match lookup(env, x) {
            Some(t) => (t, seq![]),
            None => (Type::Int, seq![undefined_message(x)]),
        },
        SpecTree::BinOp(l, op, r) => {
            let (lt, le) = check_tree(*l, env);
            let (rt, re) = check_tree(*r, env);
            let t = match op {
                BinOpKind::Add | BinOpKind::Sub | BinOpKind::Mul | BinOpKind::Div => {
                    if lt == Type::Ternary && rt == Type::Ternary {
                        Type::Ternary
                    } else {
                        Type::Int
                    }
                },
                _ => Type::Bool,
            };
            (t, le + re)
        },
        SpecTree::Unary(k, x) => {
            let (t, es) = check_tree(*x, env);
            (if k == UnaryKind::Neg { t } else { Type::Bool }, es)
        },
        SpecTree::If(c, a, b) => {
            let (ct, ce) = check_tree(*c, env);
            let (at, ae) = check_tree(*a, env);
            let (bt, be) = check_tree(*b, env);
            let e1: Seq<Seq<char>> = if ct != Type::Bool && ct != Type::Ternary {
                seq!["if condition must be Bool or Ternary, got "@ + spec_type_text(ct)]
            } else {
                seq![]
            };
            (at, ce + ae + be + e1 + mismatch_errors(at, bt))
        },
        SpecTree::Let(n, v, b) => {
            let (vt, ve) = check_tree(*v, env);
            let (bt, be) = check_tree(*b, env.push((n, vt)));
            (bt, ve + be)
        },
        SpecTree::Ternary(c, a, b) => {
            let (ct, ce) = check_tree(*c, env);
            let (at, ae) = check_tree(*a, env);
            let (bt, be) = check_tree(*b, env);
            (if at == bt { at } else { Type::Int }, ce + ae + be + mismatch_errors(at, bt))
        },
    }
}

pub open spec fn env_view(env: Seq<(String, Type)>) -> Seq<(Seq<char>, Type)> {
    env.map_values(|p: (String, Type)| (p.0@, p.1))
}

pub open spec fn strings_view(ss: Seq<String>) -> Seq<Seq<char>> {
    ss.map_values(|s: String| s@)
}

/// The type checker's state: the errors found so far and the variables in
/// scope with their types.
struct TypeChecker {
    errors: Vec<String>,
    env: Vec<(String, Type)>,
}

impl TypeChecker {
    fn new() -> (r: Self)
        ensures
            r.errors@.len() == 0,
            r.env@.len() == 0,
    {
        TypeChecker { errors: Vec::new(), env: Vec::new() }
    }

    fn lookup(&self, name: &String) -> (r: Option<Type>)
        ensures
            r == lookup(env_view(self.env@), name@),
    {
        let mut i = self.env.len();
        proof {
            assert(env_view(self.env@).subrange(0, i as int) =~= env_view(self.env@));
        }
        while i > 0
            invariant
                i <= self.env.len(),
                lookup(env_view(self.env@), name@) == lookup(
                    env_view(self.env@).subrange(0, i as int),
                    name@,
                ),
            decreases i,
        {
            let ghost sub = env_view(self.env@).subrange(0, i as int);
            assert(sub.last() == (self.env@[i - 1].0@, self.env@[i - 1].1));
            if self.env[i - 1].0 == *name {
                return Some(self.env[i - 1].1);
            }
            assert(sub.drop_last() =~= env_view(self.env@).subrange(0, i - 1));
            i = i - 1;
        }
        None
    }

    fn report(&mut self, message: String)
        ensures
            final(self).errors@ == old(self).errors@.push(message),
            final(self).env == old(self).env,
    {
        self.errors.push(message);
    }

    /// Reports branches of different types.
    fn report_mismatch(&mut self, a: Type, b: Type)
        ensures
            strings_view(final(self).errors@) == strings_view(old(self).errors@) + mismatch_errors(a, b),
            final(self).env == old(self).env,
    {
        if a != b {
            let mut m = String::from_str("if branches have mismatched types: ");
            let x = a.to_string();
            let y = b.to_string();
            m.append(x.as_str());
            m.append(" vs ");
            m.append(y.as_str());
            self.report(m);
            assert(strings_view(self.errors@) =~= strings_view(old(self).errors@) + mismatch_errors(a, b));
        } else {
            assert(strings_view(self.errors@) =~= strings_view(old(self).errors@) + mismatch_errors(a, b));
        }
    }

    #[verifier::spinoff_prover]
    #[verifier::rlimit(60)]
    fn check(&mut self, expr: &TreeExpr) -> (t: Type)
        ensures
            t == check_tree(expr@, env_view(old(self).env@)).0,
            strings_view(final(self).errors@) == strings_view(old(self).errors@) + check_tree(
                expr@,
                env_view(old(self).env@),
            ).1,
            final(self).env@ == old(self).env@,
        decreases expr,
    {
        let ghost env0 = env_view(self.env@);
        let ghost errs0 = strings_view(self.errors@);
        match expr {
            TreeExpr::Lit(n) => {
                assert(errs0 + Seq::<Seq<char>>::empty() =~= errs0);
                if n.is_int(-1) || n.is_int(0) || n.is_int(1) {
                    Type::Ternary
                } else {
                    Type::Int
                }
            },
            TreeExpr::Var(name) => {
                match self.lookup(name) {
                    Some(t) => {
                        assert(errs0 + Seq::<Seq<char>>::empty() =~= errs0);
                        t
                    },
                    None => {
                        let mut m = String::from_str("undefined variable: ");
                        m.append(name.as_str());
                        self.report(m);
                        assert(strings_view(self.errors@) =~= errs0 + seq![
                            undefined_message(name@),
                        ]);
                        Type::Int
                    },
                }
            },
            TreeExpr::BinOp(left, op, right) => {
                let lt = self.check(left);
                let rt = self.check(right);
                proof {
                    let le = check_tree(left@, env0).1;
                    let re = check_tree(right@, env0).1;
                    assert(errs0 + le + re =~= errs0 + (le + re));
                }
                match op {
                    BinOpKind::Add | BinOpKind::Sub | BinOpKind::Mul | BinOpKind::Div => {
                        if lt == Type::Ternary && rt == Type::Ternary {
                            Type::Ternary
                        } else {
                            Type::Int
                        }
                    },
                    _ => Type::Bool,
                }
            },
            TreeExpr::Unary(kind, operand) => {
                let t = self.check(operand);
                match kind {
                    UnaryKind::Neg => t,
                    UnaryKind::Not => Type::Bool,
                }
            },
            TreeExpr::If(cond, then_e, else_e) => {
                let ct = self.check(cond);
                let tt = self.check(then_e);
                let et = self.check(else_e);
                let ghost mid = strings_view(self.errors@);
                if ct != Type::Bool && ct != Type::Ternary {
                    let mut m = String::from_str("if condition must be Bool or Ternary, got ");
                    let tn = ct.to_string();
                    m.append(tn.as_str());
                    self.report(m);
                }
                let ghost mid2 = strings_view(self.errors@);
                self.report_mismatch(tt, et);
                proof {
                    let ce = check_tree(cond@, env0).1;
                    let te = check_tree(then_e@, env0).1;
                    let ee = check_tree(else_e@, env0).1;
                    let e1: Seq<Seq<char>> = if ct != Type::Bool && ct != Type::Ternary {
                        seq!["if condition must be Bool or Ternary, got "@ + spec_type_text(ct)]
                    } else {
                        seq![]
                    };
                    let e2 = mismatch_errors(tt, et);
                    assert(mid == errs0 + ce + te + ee);
                    assert(mid2 =~= mid + e1);
                    assert(strings_view(self.errors@) =~= mid2 + e2);
                    assert(strings_view(self.errors@) =~= errs0 + (ce + te + ee + e1 + e2));
                }
                tt
            },
            TreeExpr::Let(name, value, body) => {
                let vt = self.check(value);
                self.env.push((name.clone(), vt));
                proof {
                    assert(env_view(self.env@) =~= env0.push((name@, vt)));
                }
                let bt = self.check(body);
                self.env.pop();
                proof {
                    assert(self.env@ =~= old(self).env@);
                    let ve = check_tree(value@, env0).1;
                    let be = check_tree(body@, env0.push((name@, vt))).1;
                    assert(errs0 + ve + be =~= errs0 + (ve + be));
                }
                bt
            },
            TreeExpr::Ternary(cond, then_e, else_e) => {
                let _ct = self.check(cond);
                let tt = self.check(then_e);
                let et = self.check(else_e);
                let ghost mid = strings_view(self.errors@);
                self.report_mismatch(tt, et);
                proof {
                    let ce = check_tree(cond@, env0).1;
                    let te = check_tree(then_e@, env0).1;
                    let ee = check_tree(else_e@, env0).1;
                    assert(mid == errs0 + ce + te + ee);
                    assert(strings_view(self.errors@) =~= errs0 + (ce + te + ee + mismatch_errors(tt, et)));
                }
                if tt == et {
                    tt
                } else {
                    Type::Int
                }
            },
        }
    }
}

/// Type-checks an expression: its type and the errors found, in order.
pub fn typecheck(expr: &TreeExpr) -> (r: TypeCheckResult)
    ensures
        r.typed matches Some(te) && te.expr@ == expr@ && te.ty == check_tree(expr@, seq![]).0,
        strings_view(r.errors@) == check_tree(expr@, seq![]).1,
{
    let mut checker = TypeChecker::new();
    proof {
        assert(env_view(checker.env@) =~= Seq::<(Seq<char>, Type)>::empty());
        assert(strings_view(checker.errors@) =~= Seq::<Seq<char>>::empty());
    }
    let ty = checker.check(expr);
    proof {
        assert(strings_view(checker.errors@) =~= Seq::<Seq<char>>::empty() + check_tree(
            expr@,
            seq![],
        ).1);
    }
    TypeCheckResult { typed: Some(TypedExpr { expr: expr.clone(), ty }), errors: checker.errors }
}

/// Summer flags an `if` or a ternary choice whose branches grow in
/// different niches. The `if` takes the type of its then-branch, the
/// ternary choice the type `Int`.
pub proof fn lemma_mismatched_branches_flagged(
    c: SpecTree,
    t: SpecTree,
    f: SpecTree,
    env: Seq<(Seq<char>, Type)>,
)
    requires
        check_tree(t, env).0 != check_tree(f, env).0,
    ensures
        check_tree(SpecTree::If(Box::new(c), Box::new(t), Box::new(f)), env).0 == check_tree(t, env).0,
        check_tree(SpecTree::If(Box::new(c), Box::new(t), Box::new(f)), env).1.contains(
            "if branches have mismatched types: "@ + spec_type_text(check_tree(t, env).0) + " vs "@
                + spec_type_text(check_tree(f, env).0),
        ),
        check_tree(SpecTree::Ternary(Box::new(c), Box::new(t), Box::new(f)), env).0 == Type::Int,
        check_tree(SpecTree::Ternary(Box::new(c), Box::new(t), Box::new(f)), env).1.contains(
            "if branches have mismatched types: "@ + spec_type_text(check_tree(t, env).0) + " vs "@
                + spec_type_text(check_tree(f, env).0),
        ),
{
    let m = "if branches have mismatched types: "@ + spec_type_text(check_tree(t, env).0) + " vs "@
        + spec_type_text(check_tree(f, env).0);
    let r = check_tree(SpecTree::If(Box::new(c), Box::new(t), Box::new(f)), env).1;
    assert(r[r.len() - 1] == m);
    let q = check_tree(SpecTree::Ternary(Box::new(c), Box::new(t), Box::new(f)), env).1;
    assert(q[q.len() - 1] == m);
}

/// Logical negation is always Boolean, and arithmetic negation keeps the
/// niche of its operand; neither adds an error of its own.
pub proof fn lemma_unary_types(x: SpecTree, env: Seq<(Seq<char>, Type)>)
    ensures
        check_tree(SpecTree::Unary(UnaryKind::Not, Box::new(x)), env).0 == Type::Bool,
        check_tree(SpecTree::Unary(UnaryKind::Neg, Box::new(x)), env).0 == check_tree(x, env).0,
        check_tree(SpecTree::Unary(UnaryKind::Not, Box::new(x)), env).1 == check_tree(x, env).1,
        check_tree(SpecTree::Unary(UnaryKind::Neg, Box::new(x)), env).1 == check_tree(x, env).1,
{
}

/// Comparisons are Boolean; arithmetic is ternary exactly when both
/// operands are ternary (the {-1, 0, +1} niche is closed under it) and an
/// integer otherwise. The operation adds no error of its own: its errors
/// are those of its left operand, then those of its right one.
pub proof fn lemma_binop_types(l: SpecTree, op: BinOpKind, r: SpecTree, env: Seq<(Seq<char>, Type)>)
    ensures
        ({
            let t = check_tree(SpecTree::BinOp(Box::new(l), op, Box::new(r)), env).0;
            let lt = check_tree(l, env).0;
            let rt = check_tree(r, env).0;
            &&& (op == BinOpKind::Eq || op == BinOpKind::Neq || op == BinOpKind::Lt || op
                == BinOpKind::Gt) ==> t == Type::Bool
            &&& (op == BinOpKind::Add || op == BinOpKind::Sub || op == BinOpKind::Mul || op
                == BinOpKind::Div) ==> (t == Type::Ternary <==> lt == Type::Ternary && rt
                == Type::Ternary)
            &&& (op == BinOpKind::Add || op == BinOpKind::Sub || op == BinOpKind::Mul || op
                == BinOpKind::Div) ==> (t == Type::Ternary || t == Type::Int)
        }),
        check_tree(SpecTree::BinOp(Box::new(l), op, Box::new(r)), env).1 == check_tree(l, env).1
            + check_tree(r, env).1,
{
}

/// A literal is ternary exactly when it is the integer -1, 0 or 1, and an
/// integer otherwise; it adds no error.
pub proof fn lemma_literal_types(n: Num, env: Seq<(Seq<char>, Type)>)
    ensures
        check_tree(SpecTree::Lit(n), env).0 == (if n.denom_spec() == 1 && -1 <= n.numer_spec() <= 1 {
            Type::Ternary
        } else {
            Type::Int
        }),
        check_tree(SpecTree::Lit(n), env).1 == Seq::<Seq<char>>::empty(),
{
    lemma_int_parts(n, -1);
    lemma_int_parts(n, 0);
    lemma_int_parts(n, 1);
}

/// A variable has the type of its innermost binding, without error; a
/// variable bound nowhere is reported as undefined and counted an integer.
pub proof fn lemma_variable_types(x: Seq<char>, t: Type, env: Seq<(Seq<char>, Type)>)
    ensures
        check_tree(SpecTree::Var(x), env.push((x, t))) == (t, Seq::<Seq<char>>::empty()),
        (forall|i: int| 0 <= i < env.len() ==> (#[trigger] env[i]).0 != x) ==> check_tree(
            SpecTree::Var(x),
            env,
        ) == (Type::Int, seq!["undefined variable: "@ + x]),
{
    assert(env.push((x, t)).last() == (x, t));
    if forall|i: int| 0 <= i < env.len() ==> (#[trigger] env[i]).0 != x {
        lemma_lookup_absent(env, x);
    }
}

proof fn lemma_lookup_absent(env: Seq<(Seq<char>, Type)>, x: Seq<char>)
    requires
        forall|i: int| 0 <= i < env.len() ==> (#[trigger] env[i]).0 != x,
    ensures
        lookup(env, x) is None,
    decreases env.len(),
{
    if env.len() > 0 {
        assert(env.last() == env[env.len() - 1]);
        let d = env.drop_last();
        assert forall|i: int| 0 <= i < d.len() implies (#[trigger] d[i]).0 != x by {
            assert(d[i] == env[i]);
        }
        lemma_lookup_absent(d, x);
    }
}

/// Bindings are inferred: a `let` gives its name the type of its value, so
/// `let x = v in x` has the type of `v`, with no annotation.
pub proof fn lemma_let_type_inferred(x: Seq<char>, v: SpecTree, env: Seq<(Seq<char>, Type)>)
    ensures
        check_tree(SpecTree::Let(x, Box::new(v), Box::new(SpecTree::Var(x))), env).0 == check_tree(
            v,
            env,
        ).0,
{
    let env2 = env.push((x, check_tree(v, env).0));
    assert(lookup(env2, x) == Some(check_tree(v, env).0));
    assert(check_tree(SpecTree::Var(x), env2).0 == check_tree(v, env).0);
}

// ── Programs: scope validation ─────────────────────────────────────────

/// The first of two optional findings.
pub open spec fn first_of<T>(a: Option<T>, b: Option<T>) -> Option<T> {
    if a is Some { a } else { b }
}

/// The first variable of `e`, in evaluation order, that is not in `scope`.
pub open spec fn unbound_in(e: SpecExpr, scope: Seq<Seq<char>>) -> Option<Seq<char>>
    decreases e,
{
    match e {
        SpecExpr::Literal(_) => None,
        SpecExpr::Numeral(_) => None,
        SpecExpr::Var(x) => if scope.contains(x) { None } else { Some(x) },
        SpecExpr::Binary(l, _, r) => first_of(unbound_in(*l, scope), unbound_in(*r, scope)),
        SpecExpr::Unary(_, x) => unbound_in(*x, scope),
        SpecExpr::If(c, t, f) => first_of(
            unbound_in(*c, scope),
            first_of(unbound_in(*t, scope), unbound_in(*f, scope)),
        ),
        SpecExpr::Call(_, args) => unbound_in_args(args, scope),
    }
}

pub open spec fn unbound_in_args(args: Seq<SpecExpr>, scope: Seq<Seq<char>>) -> Option<Seq<char>>
    decreases args,
{
    if args.len() == 0 {
        None
    } else {
        first_of(unbound_in(args[0], scope), unbound_in_args(args.drop_first(), scope))
    }
}

pub open spec fn assign_message(name: Seq<char>) -> Seq<char> {
    "assignment to undefined variable: "@ + name
}

/// The first scope error of a statement list run with the variables of
/// `scope` defined: a use of an undefined variable, or an assignment to
/// one. A `let` defines its name for the statements after it; names defined
/// inside a branch of an `if` are local to that branch.
pub open spec fn scope_error(ss: Seq<SpecStmt>, scope: Seq<Seq<char>>) -> Option<Seq<char>>
    decreases ss,
{
    if ss.len() == 0 {
        None
    } else {
        let rest = ss.drop_first();
        match ss[0] {
            SpecStmt::Let(n, e) => first_of(
                undefined_of(unbound_in(e, scope)),
                scope_error(rest, scope.push(n)),
            ),
            SpecStmt::Assign(n, e) => if !scope.contains(n) {
                Some(assign_message(n))
            } else {
                first_of(undefined_of(unbound_in(e, scope)), scope_error(rest, scope))
            },
            SpecStmt::If(c, t, f) => first_of(
                undefined_of(unbound_in(c, scope)),
                first_of(
                    scope_error(t, scope),
                    first_of(scope_error(f, scope), scope_error(rest, scope)),
                ),
            ),
            SpecStmt::Return(e) => first_of(
                undefined_of(unbound_in(e, scope)),
                scope_error(rest, scope),
            ),
            SpecStmt::Expr(e) => first_of(
                undefined_of(unbound_in(e, scope)),
                scope_error(rest, scope),
            ),
        }
    }
}

/// The message for an undefined variable, if there is one.
pub open spec fn undefined_of(x: Option<Seq<char>>) -> Option<Seq<char>> {
    match x {
        Some(n) => Some(undefined_message(n)),
        None => None,
    }
}

fn in_scope(scope: &Vec<String>, name: &String) -> (r: bool)
    ensures
        r == strings_view(scope@).contains(name@),
{
    let mut i: usize = 0;
    while i < scope.len()
        invariant
            0 <= i <= scope.len(),
            forall|j: int| 0 <= j < i ==> strings_view(scope@)[j] != name@,
        decreases scope.len() - i,
    {
        if scope[i] == *name {
            assert(strings_view(scope@)[i as int] == name@);
            return true;
        }
        i = i + 1;
    }
    false
}

fn undefined_error(name: &String) -> (r: String)
    ensures
        r@ == undefined_message(name@),
{
    let mut m = String::from_str("undefined variable: ");
    m.append(name.as_str());
    m
}

fn find_unbound(expr: &Expr, scope: &Vec<String>) -> (r: Option<String>)
    ensures
        r matches Some(n) ==> unbound_in(expr@, strings_view(scope@)) == Some(n@),
        r is None ==> unbound_in(expr@, strings_view(scope@)) is None,
    decreases expr,
{
    match expr {
        Expr::Literal(_) => None,
        Expr::Numeral(_) => None,
        Expr::Var(name) => {
            if in_scope(scope, name) {
                None
            } else {
                Some(name.clone())
            }
        },
        Expr::Binary(l, _, r) => {
            let a = find_unbound(l, scope);
            if a.is_some() {
                a
            } else {
                find_unbound(r, scope)
            }
        },
        Expr::Unary(_, x) => find_unbound(x, scope),
        Expr::If(c, t, f) => {
            let a = find_unbound(c, scope);
            if a.is_some() {
                return a;
            }
            let b = find_unbound(t, scope);
            if b.is_some() {
                return b;
            }
            find_unbound(f, scope)
        },
        Expr::Call(_, args) => {
            let ghost sc = strings_view(scope@);
            let ghost vargs = expr@->Call_1;
            let mut i: usize = 0;
            assert(vargs.skip(0) =~= vargs);
            while i < args.len()
                invariant
                    *expr == Expr::Call(expr->Call_0, *args),
                    vargs == expr@->Call_1,
                    vargs.len() == args@.len(),
                    forall|j: int| 0 <= j < args@.len() ==> #[trigger] vargs[j] == args@[j]@,
                    sc == strings_view(scope@),
                    0 <= i <= args.len(),
                    unbound_in(expr@, sc) == unbound_in_args(vargs.skip(i as int), sc),
                decreases args.len() - i,
            {
                proof {
                    assert(decreases_to!(*expr => expr->Call_1));
                    assert(decreases_to!(expr->Call_1 => (expr->Call_1)@));
                    assert(decreases_to!(args@ => args@[i as int]));
                    assert(vargs.skip(i as int)[0] == args@[i as int]@);
                    assert(vargs.skip(i as int).drop_first() =~= vargs.skip(i + 1));
                }
                let a = find_unbound(&args[i], scope);
                if a.is_some() {
                    return a;
                }
                i = i + 1;
            }
            assert(vargs.skip(i as int).len() == 0);
            None
        },
    }
}

/// Checks a statement list with `scope` defined; `scope` is restored before
/// returning.
fn check_block(stmts: &Vec<Stmt>, scope: &mut Vec<String>) -> (r: Option<String>)
    ensures
        r matches Some(m) ==> scope_error(stmts_view(stmts@), strings_view(old(scope)@)) == Some(m@),
        r is None ==> scope_error(stmts_view(stmts@), strings_view(old(scope)@)) is None,
        final(scope)@ == old(scope)@,
    decreases stmts@,
{
    let ghost ss = stmts_view(stmts@);
    let n = scope.len();
    let mut i: usize = 0;
    assert(ss.skip(0) =~= ss);
    while i < stmts.len()
        invariant
            ss == stmts_view(stmts@),
            0 <= i <= stmts.len(),
            n <= scope.len(),
            scope@.subrange(0, n as int) == old(scope)@,
            scope_error(ss, strings_view(old(scope)@)) == scope_error(
                ss.skip(i as int),
                strings_view(scope@),
            ),
        decreases stmts.len() - i,
    {
        let ghost sc = strings_view(scope@);
        let ghost rest = ss.skip(i as int);
        proof {
            assert(rest[0] == stmts@[i as int]@);
            assert(rest.drop_first() =~= ss.skip(i + 1));
            assert(decreases_to!(stmts@ => stmts@[i as int]));
        }
        let found: Option<String> = match &stmts[i] {
            Stmt::Let(name, e) => {
                match find_unbound(e, scope) {
                    Some(x) => Some(undefined_error(&x)),
                    None => {
                        scope.push(name.clone());
                        proof {
                            assert(strings_view(scope@) =~= sc.push(name@));
                            assert(scope@.subrange(0, n as int) =~= old(scope)@);
                        }
                        None
                    },
                }
            },
            Stmt::Assign(name, e) => {
                if !in_scope(scope, name) {
                    let mut m = String::from_str("assignment to undefined variable: ");
                    m.append(name.as_str());
                    Some(m)
                } else {
                    match find_unbound(e, scope) {
                        Some(x) => Some(undefined_error(&x)),
                        None => None,
                    }
                }
            },
            Stmt::If(c, t, f) => {
                match find_unbound(c, scope) {
                    Some(x) => Some(undefined_error(&x)),
                    None => {
                        proof {
                            assert(decreases_to!(stmts@[i as int] => stmts@[i as int]->If_1));
                            assert(decreases_to!(stmts@[i as int] => stmts@[i as int]->If_2));
                            assert(rest[0]->If_1 =~= stmts_view(t@));
                            assert(rest[0]->If_2 =~= stmts_view(f@));
                        }
                        let a = check_block(t, scope);
                        if a.is_some() {
                            a
                        } else {
                            check_block(f, scope)
                        }
                    },
                }
            },
            Stmt::Return(e) => {
                match find_unbound(e, scope) {
                    Some(x) => Some(undefined_error(&x)),
                    None => None,
                }
            },
            Stmt::Expr(e) => {
                match find_unbound(e, scope) {
                    Some(x) => Some(undefined_error(&x)),
                    None => None,
                }
            },
        };
        if found.is_some() {
            scope.truncate(n);
            return found;
        }
        i = i + 1;
    }
    scope.truncate(n);
    None
}

/// Checks that every variable of the program is defined before it is used
/// or assigned.
pub fn summer(program: &Program) -> (r: Result<(), GroveError>)
    ensures
        (r is Ok) == (scope_error(program@, seq![]) is None),
        r matches Err(e) ==> (e@ == (SpecError::TypeCheck {
            message: scope_error(program@, seq![])->Some_0,
        })),
{
    let mut scope: Vec<String> = Vec::new();
    proof {
        assert(strings_view(scope@) =~= Seq::<Seq<char>>::empty());
    }
    match check_block(&program.stmts, &mut scope) {
        Some(m) => Err(GroveError::TypeCheck { message: m }),
        None => Ok(()),
    }
}

// ── Constant evaluation ────────────────────────────────────────────────

/// No call has a value.
pub open spec fn no_calls() -> spec_fn(Seq<char>, Seq<Num>) -> Option<Num> {
    |n: Seq<char>, vs: Seq<Num>| None::<Num>
}

/// The value of an expression without variables or calls.
pub open spec fn const_value(e: SpecExpr) -> Option<Num> {
    eval(e, Map::empty(), no_calls())
}

/// Evaluates a constant expression; `None` when it uses a variable or a
/// call, divides by zero, or leaves the range of numbers.
pub fn const_eval(expr: &Expr) -> (r: Option<Num>)
    ensures
        r == const_value(expr@),
    decreases expr,
{
    match expr {
        Expr::Literal(n) => Some(*n),
        Expr::Numeral(_) => None,
        Expr::Var(_) => None,
        Expr::Binary(l, op, r) => {
            let a = const_eval(l);
            let b = const_eval(r);
            match a {
                Some(x) => match b {
                    Some(y) => eval_binop(&x, *op, &y),
                    None => None,
                },
                None => None,
            }
        },
        Expr::Unary(_, x) => {
            match const_eval(x) {
                Some(v) => Some(v.neg()),
                None => None,
            }
        },
        Expr::If(c, t, f) => {
            match const_eval(c) {
                Some(v) => if !v.is_zero() {
                    const_eval(t)
                } else {
                    const_eval(f)
                },
                None => None,
            }
        },
        Expr::Call(_, _) => {
            proof {
                let v = expr@;
                if let Some(vs) = crate::autumn::eval_args(v->Call_1, Map::empty(), no_calls()) {
                    assert((no_calls())(v->Call_0, vs) == None::<Num>);
                }
            }
            None
        },
    }
}

proof fn lemma_const_value_folds(e: SpecExpr)
    ensures
        const_value(e) matches Some(v) ==> spec_optimize(e) == SpecExpr::Literal(v),
    decreases e,
{
    match e {
        SpecExpr::Binary(l, op, r) => {
            lemma_const_value_folds(*l);
            lemma_const_value_folds(*r);
        },
        SpecExpr::Unary(_, x) => {
            lemma_const_value_folds(*x);
        },
        SpecExpr::If(c, t, f) => {
            lemma_const_value_folds(*c);
            lemma_const_value_folds(*t);
            lemma_const_value_folds(*f);
        },
        SpecExpr::Call(name, args) => {
            if let Some(vs) = crate::autumn::eval_args(args, Map::empty(), no_calls()) {
                assert((no_calls())(name, vs) == None::<Num>);
            }
        },
        _ => {},
    }
}

/// Constant evaluation agrees with constant folding: an expression has a
/// constant value exactly when the optimizer folds it to a literal, and
/// that literal is the value.
pub proof fn lemma_const_eval_is_folding(e: SpecExpr)
    requires
        lits_wf(e),
    ensures
        const_value(e) == (if spec_optimize(e) is Literal {
            Some(spec_optimize(e)->Literal_0)
        } else {
            None
        }),
{
    lemma_const_value_folds(e);
    assert(env_wf(Map::<Seq<char>, Num>::empty()));
    assert(calls_wf(no_calls()));
    lemma_optimize_preserves_value(e, Map::empty(), no_calls());
}

// ── Comparisons ───────────────────────────────────────────────────────

/// Whether `x op y` holds for a comparison `op`, in the order of the
/// rationals (by cross products; denominators are positive).
pub open spec fn compares(x: Num, op: BinOp, y: Num) -> bool {
    let a = x.numer_spec() * y.denom_spec();
    let b = y.numer_spec() * x.denom_spec();
    match op {
        BinOp::Eq => a == b,
        BinOp::Neq => a != b,
        BinOp::Lt => a < b,
        BinOp::Gt => a > b,
        BinOp::Le => a <= b,
        BinOp::Ge => a >= b,
        _ => false,
    }
}

/// A comparison of two numbers has the value 1 when it holds and 0 when it
/// does not, and the optimizer folds it to that literal.
pub proof fn lemma_comparison_values(x: Num, op: BinOp, y: Num)
    requires
        x.wf(),
        y.wf(),
        op == BinOp::Eq || op == BinOp::Neq || op == BinOp::Lt || op == BinOp::Gt || op
            == BinOp::Le || op == BinOp::Ge,
    ensures
        const_value(SpecExpr::Binary(
            Box::new(SpecExpr::Literal(x)),
            op,
            Box::new(SpecExpr::Literal(y)),
        )) == Some(spec_int(if compares(x, op, y) { 1 } else { 0 })),
        spec_optimize(SpecExpr::Binary(
            Box::new(SpecExpr::Literal(x)),
            op,
            Box::new(SpecExpr::Literal(y)),
        )) == SpecExpr::Literal(spec_int(if compares(x, op, y) { 1 } else { 0 })),
{
    lemma_order(x, y);
    lemma_order(y, x);
    let e = SpecExpr::Binary(Box::new(SpecExpr::Literal(x)), op, Box::new(SpecExpr::Literal(y)));
    assert(lits_wf(SpecExpr::Literal(x)) && lits_wf(SpecExpr::Literal(y)));
    assert(lits_wf(e));
    assert(eval(SpecExpr::Literal(x), Map::empty(), no_calls()) == Some(x));
    assert(eval(SpecExpr::Literal(y), Map::empty(), no_calls()) == Some(y));
    lemma_const_eval_is_folding(e);
}

/// Whether `r` is the rational result of `x op y` for an arithmetic `op`,
/// by cross products: `r`'s numerator over its denominator equals the
/// exact sum, difference, product or quotient.
pub open spec fn denotes_arith(x: Num, op: BinOp, y: Num, r: Num) -> bool {
    let (xn, xd, yn, yd) = (x.numer_spec(), x.denom_spec(), y.numer_spec(), y.denom_spec());
    let (rn, rd) = (r.numer_spec(), r.denom_spec());
    match op {
        BinOp::Add => rn * (xd * yd) == (xn * yd + yn * xd) * rd,
        BinOp::Sub => rn * (xd * yd) == (xn * yd - yn * xd) * rd,
        BinOp::Mul => rn * (xd * yd) == (xn * yn) * rd,
        BinOp::Div => rn * (xd * yn) == (xn * yd) * rd,
        _ => false,
    }
}

/// Arithmetic on two numbers has, when it has a value, the exact rational
/// result, and the optimizer folds it to that literal; dividing by zero has
/// no value.
pub proof fn lemma_arithmetic_values(x: Num, op: BinOp, y: Num)
    requires
        x.wf(),
        y.wf(),
        op == BinOp::Add || op == BinOp::Sub || op == BinOp::Mul || op == BinOp::Div,
    ensures
        ({
            let e = SpecExpr::Binary(Box::new(SpecExpr::Literal(x)), op, Box::new(SpecExpr::Literal(y)));
            &&& const_value(e) matches Some(r) ==> denotes_arith(x, op, y, r)
                && spec_optimize(e) == SpecExpr::Literal(r)
            &&& (op == BinOp::Div && y.numer_spec() == 0) ==> const_value(e) is None
        }),
{
    lemma_arith_values(x, y);
    let e = SpecExpr::Binary(Box::new(SpecExpr::Literal(x)), op, Box::new(SpecExpr::Literal(y)));
    assert(lits_wf(SpecExpr::Literal(x)) && lits_wf(SpecExpr::Literal(y)));
    assert(lits_wf(e));
    assert(eval(SpecExpr::Literal(x), Map::empty(), no_calls()) == Some(x));
    assert(eval(SpecExpr::Literal(y), Map::empty(), no_calls()) == Some(y));
    lemma_const_eval_is_folding(e);
}

/// Negating a number has the negated value, and the optimizer folds it.
pub proof fn lemma_negation_value(x: Num)
    requires
        x.wf(),
    ensures
        const_value(SpecExpr::Unary(UnOp::Neg, Box::new(SpecExpr::Literal(x)))) matches Some(r)
            && r.numer_spec() == -x.numer_spec() && r.denom_spec() == x.denom_spec()
            && spec_optimize(SpecExpr::Unary(UnOp::Neg, Box::new(SpecExpr::Literal(x))))
            == SpecExpr::Literal(r),
{
    lemma_arith_values(x, x);
    let e = SpecExpr::Unary(UnOp::Neg, Box::new(SpecExpr::Literal(x)));
    assert(lits_wf(SpecExpr::Literal(x)));
    assert(lits_wf(e));
    assert(eval(SpecExpr::Literal(x), Map::empty(), no_calls()) == Some(x));
    lemma_const_eval_is_folding(e);
}

/// On integers, comparisons are the integer comparisons: `a > b` has the
/// value 1 exactly when `a > b`, and so on.
pub proof fn lemma_integer_comparisons(a: int, b: int)
    requires
        -LIMIT <= a <= LIMIT,
        -LIMIT <= b <= LIMIT,
    ensures
        compares(spec_int(a), BinOp::Eq, spec_int(b)) == (a == b),
        compares(spec_int(a), BinOp::Neq, spec_int(b)) == (a != b),
        compares(spec_int(a), BinOp::Lt, spec_int(b)) == (a < b),
        compares(spec_int(a), BinOp::Gt, spec_int(b)) == (a > b),
        compares(spec_int(a), BinOp::Le, spec_int(b)) == (a <= b),
        compares(spec_int(a), BinOp::Ge, spec_int(b)) == (a >= b),
{
    lemma_int_wf(a);
    lemma_int_wf(b);
    lemma_order(spec_int(a), spec_int(b));
}

// ── Scope rules ───────────────────────────────────────────────────────

/// The scope rules of programs: a `let` does not see its own name in its
/// value; a name a `let` defines is visible to the statements after it;
/// assigning to a name that is not defined is reported as such; and a name
/// defined inside a branch of a conditional is gone after it.
pub proof fn lemma_scope_rules(n: Seq<char>, e: SpecExpr, c: SpecExpr, scope: Seq<Seq<char>>)
    requires
        !scope.contains(n),
        unbound_in(e, scope) is None,
        unbound_in(c, scope) is None,
    ensures
        scope_error(seq![SpecStmt::Let(n, SpecExpr::Var(n))], scope) == Some(undefined_message(n)),
        scope_error(seq![SpecStmt::Let(n, e), SpecStmt::Expr(SpecExpr::Var(n))], scope) is None,
        scope_error(seq![SpecStmt::Assign(n, e)], scope) == Some(assign_message(n)),
        scope_error(
            seq![SpecStmt::If(c, seq![SpecStmt::Let(n, e)], seq![]), SpecStmt::Expr(SpecExpr::Var(n))],
            scope,
        ) == Some(undefined_message(n)),
{
    let s1 = seq![SpecStmt::Let(n, SpecExpr::Var(n))];
    assert(s1.drop_first() =~= Seq::<SpecStmt>::empty());
    let s2 = seq![SpecStmt::Let(n, e), SpecStmt::Expr(SpecExpr::Var(n))];
    let r2 = s2.drop_first();
    assert(r2 =~= seq![SpecStmt::Expr(SpecExpr::Var(n))]);
    assert(r2.drop_first() =~= Seq::<SpecStmt>::empty());
    assert(scope.push(n).contains(n)) by {
        assert(scope.push(n)[scope.len() as int] == n);
    }
    assert(unbound_in(SpecExpr::Var(n), scope.push(n)) is None);
    assert(scope_error(Seq::<SpecStmt>::empty(), scope.push(n)) is None);
    assert(r2[0] == SpecStmt::Expr(SpecExpr::Var(n)));
    assert(scope_error(r2, scope.push(n)) is None);
    let s3 = seq![SpecStmt::Assign(n, e)];
    assert(s3.drop_first() =~= Seq::<SpecStmt>::empty());
    let b = seq![SpecStmt::Let(n, e)];
    assert(b.drop_first() =~= Seq::<SpecStmt>::empty());
    assert(scope_error(b, scope) is None);
    assert(scope_error(Seq::<SpecStmt>::empty(), scope) is None);
    let s4 = seq![SpecStmt::If(c, b, seq![]), SpecStmt::Expr(SpecExpr::Var(n))];
    let r4 = s4.drop_first();
    assert(r4 =~= seq![SpecStmt::Expr(SpecExpr::Var(n))]);
    assert(r4.drop_first() =~= Seq::<SpecStmt>::empty());
    assert(scope_error(r4, scope) == Some(undefined_message(n)));
}

// ── Optimization keeps programs in scope ──────────────────────────────

proof fn lemma_args_bound(args: Seq<SpecExpr>, scope: Seq<Seq<char>>)
    ensures
        (unbound_in_args(args, scope) is None) == (forall|i: int|
            0 <= i < args.len() ==> #[trigger] unbound_in(args[i], scope) is None),
    decreases args.len(),
{
    if args.len() > 0 {
        lemma_args_bound(args.drop_first(), scope);
        assert forall|i: int| 1 <= i < args.len() implies #[trigger] args.drop_first()[i - 1]
            == args[i] by {}
        if unbound_in(args[0], scope) is None && unbound_in_args(args.drop_first(), scope) is None {
            assert forall|i: int| 0 <= i < args.len() implies #[trigger] unbound_in(args[i], scope)
                is None by {
                if i > 0 {
                    assert(args.drop_first()[i - 1] == args[i]);
                }
            }
        }
        if forall|i: int| 0 <= i < args.len() ==> #[trigger] unbound_in(args[i], scope) is None {
            assert(unbound_in(args[0], scope) is None);
            assert forall|i: int| 0 <= i < args.drop_first().len() implies #[trigger] unbound_in(
                args.drop_first()[i],
                scope,
            ) is None by {
                assert(args.drop_first()[i] == args[i + 1]);
            }
        }
    }
}

/// Optimizing an expression whose variables are all in scope leaves an
/// expression whose variables are all in scope.
pub proof fn lemma_optimize_keeps_bound(e: SpecExpr, scope: Seq<Seq<char>>)
    requires
        unbound_in(e, scope) is None,
    ensures
        unbound_in(spec_optimize(e), scope) is None,
    decreases e,
{
    match e {
        SpecExpr::Binary(l, op, r) => {
            lemma_optimize_keeps_bound(*l, scope);
            lemma_optimize_keeps_bound(*r, scope);
            let ol = spec_optimize(*l);
            let or = spec_optimize(*r);
            assert(unbound_in(reduce_binary(ol, op, or), scope) is None);
        },
        SpecExpr::Unary(_, x) => {
            lemma_optimize_keeps_bound(*x, scope);
        },
        SpecExpr::If(c, t, f) => {
            lemma_optimize_keeps_bound(*c, scope);
            lemma_optimize_keeps_bound(*t, scope);
            lemma_optimize_keeps_bound(*f, scope);
        },
        SpecExpr::Call(name, args) => {
            lemma_args_bound(args, scope);
            let oargs = spec_optimize(e)->Call_1;
            assert forall|i: int| 0 <= i < oargs.len() implies #[trigger] unbound_in(oargs[i], scope)
                is None by {
                assert(unbound_in(args[i], scope) is None);
                lemma_optimize_keeps_bound(args[i], scope);
            }
            lemma_args_bound(oargs, scope);
        },
        _ => {},
    }
}

/// Autumn keeps a program valid for summer: when no statement of `ss` uses
/// or assigns a variable that is not defined, none of the optimized
/// statements does either.
pub proof fn lemma_optimize_keeps_scope(ss: Seq<SpecStmt>, scope: Seq<Seq<char>>)
    requires
        scope_error(ss, scope) is None,
    ensures
        scope_error(spec_optimize_stmts(ss), scope) is None,
    decreases ss,
{
    if ss.len() > 0 {
        let os = spec_optimize_stmts(ss);
        let rest = ss.drop_first();
        assert(os.drop_first() =~= spec_optimize_stmts(rest));
        assert(os[0] == spec_optimize_stmt(ss[0]));
        match ss[0] {
            SpecStmt::Let(n, e) => {
                lemma_optimize_keeps_bound(e, scope);
                lemma_optimize_keeps_scope(rest, scope.push(n));
            },
            SpecStmt::Assign(n, e) => {
                lemma_optimize_keeps_bound(e, scope);
                lemma_optimize_keeps_scope(rest, scope);
            },
            SpecStmt::If(c, t, f) => {
                lemma_optimize_keeps_bound(c, scope);
                lemma_optimize_keeps_scope(t, scope);
                lemma_optimize_keeps_scope(f, scope);
                lemma_optimize_keeps_scope(rest, scope);
                let o = spec_optimize_stmt(ss[0]);
                if o is If {
                    assert(o->If_1 =~= spec_optimize_stmts(t) || o->If_1 =~= Seq::<SpecStmt>::empty());
                    assert(o->If_2 =~= spec_optimize_stmts(f) || o->If_2 =~= Seq::<SpecStmt>::empty());
                    assert(scope_error(Seq::<SpecStmt>::empty(), scope) is None);
                }
            },
            SpecStmt::Return(e) => {
                lemma_optimize_keeps_bound(e, scope);
                lemma_optimize_keeps_scope(rest, scope);
            },
            SpecStmt::Expr(e) => {
                lemma_optimize_keeps_bound(e, scope);
                lemma_optimize_keeps_scope(rest, scope);
            },
        }
    }
}

} // verus!
