//! Winter: emission of balanced ternary bytecode from an (optimized) AST.
use vstd::prelude::*;
use crate::ast::ternary::{encode_int, spec_encode, trits_value, lemma_encode_decode};
use crate::ast::{BinOp, Constant, Expr, Program, SpecConstant, SpecExpr, SpecInstruction, SpecStmt,
    Stmt, TernaryBytecode, TernaryInstruction, Trit, UnOp, constants_view, expr_view, instrs_view,
    stmts_view};
use crate::num::Num;

verus! {

// Opcodes, encoded as trits.
pub const OP_LOAD_CONST: Trit = Trit::Zero;
pub const OP_LOAD_VAR: Trit = Trit::Pos;
pub const OP_ADD: Trit = Trit::Pos;
pub const OP_SUB: Trit = Trit::Neg;
pub const OP_MUL: Trit = Trit::Zero;
pub const OP_DIV: Trit = Trit::Neg;
pub const OP_NEG: Trit = Trit::Neg;
pub const OP_RETURN: Trit = Trit::Pos;
pub const OP_ASSIGN: Trit = Trit::Zero;
pub const OP_JUMP_IF_ZERO: Trit = Trit::Neg;

/// The opcode for a binary operator; comparisons use the addition opcode.
pub open spec fn binop_code(op: BinOp) -> Trit {
    match op {
        BinOp::Add => OP_ADD,
        BinOp::Sub => OP_SUB,
        BinOp::Mul => OP_MUL,
        BinOp::Div => OP_DIV,
        _ => OP_ADD,
    }
}

/// One step of the name hash: `h * 33` (wrapping) xor the byte.
pub open spec fn hash_step(h: i64, b: u8) -> i64 {
    h.wrapping_mul(33) ^ (b as i64)
}

/// The hash state after absorbing the bytes `bs`, starting from 5381.
pub open spec fn hash_state(bs: Seq<u8>) -> i64
    decreases bs.len(),
{
    if bs.len() == 0 {
        5381
    } else {
        hash_step(hash_state(bs.drop_last()), bs.last())
    }
}

/// The magnitude of the final state (which stays `i64::MIN` when it is
/// `i64::MIN`), reduced modulo 10000 with the sign of the dividend.
pub open spec fn hash_finish(h: i64) -> int {
    if h == i64::MIN {
        -(0x8000_0000_0000_0000int % 10000)
    } else if h < 0 {
        (-h) % 10000int
    } else {
        (h as int) % 10000int
    }
}

/// The hash of a variable name: over the bytes of its UTF-8 encoding.
pub open spec fn name_hash(name: Seq<char>) -> int {
    hash_finish(hash_state(vstd::utf8::encode_utf8(name)))
}

/// Simple deterministic hash for variable names.
pub fn simple_hash(s: &str) -> (r: i64)
    ensures
        r == name_hash(s@),
{
    let bytes = s.as_bytes();
    let mut h: i64 = 5381;
    let mut i: usize = 0;
    while i < bytes.len()
        invariant
            0 <= i <= bytes.len(),
            bytes@ == vstd::utf8::encode_utf8(s@),
            h == hash_state(bytes@.take(i as int)),
        decreases bytes.len() - i,
    {
        proof {
            assert(bytes@.take(i + 1).drop_last() =~= bytes@.take(i as int));
        }
        h = h.wrapping_mul(33) ^ (bytes[i] as i64);
        i = i + 1;
    }
    assert(bytes@.take(bytes.len() as int) =~= bytes@);
    if h == i64::MIN {
        -((0x8000_0000_0000_0000u64 % 10000) as i64)
    } else if h < 0 {
        ((-h) as u64 % 10000) as i64
    } else {
        (h as u64 % 10000) as i64
    }
}

/// The emitter's state: the instructions and the constant pool so far.
pub type EmitState = (Seq<SpecInstruction>, Seq<SpecConstant>);

pub open spec fn emit_one(st: EmitState, opcode: Trit, operand: Seq<Trit>) -> EmitState {
    (st.0.push(SpecInstruction { opcode, operand }), st.1)
}

/// The state after emitting a constant: it is appended to the pool and
/// loaded by its index there.
pub open spec fn emit_constant(st: EmitState, c: SpecConstant) -> EmitState {
    emit_one((st.0, st.1.push(c)), OP_LOAD_CONST, spec_encode((st.1.len() as i64) as int))
}

/// The state after emitting an expression: operands first, then the
/// operation. A literal is appended to the constant pool and loaded by its
/// index; a variable is loaded by the hash of its name.
pub open spec fn emit_expr_spec(e: SpecExpr, st: EmitState) -> EmitState
    decreases e,
{
    match e {
        SpecExpr::Literal(n) => emit_constant(st, SpecConstant::Number(n)),
        SpecExpr::Numeral(text) => emit_constant(st, SpecConstant::Numeral(text)),
        SpecExpr::Var(name) => emit_one(st, OP_LOAD_VAR, spec_encode(name_hash(name))),
        SpecExpr::Binary(l, op, r) => {
            let s1 = emit_expr_spec(*l, st);
            let s2 = emit_expr_spec(*r, s1);
            emit_one(s2, binop_code(op), seq![])
        },
        SpecExpr::Unary(_, x) => emit_one(emit_expr_spec(*x, st), OP_NEG, seq![]),
        SpecExpr::If(c, t, f) => {
            let s1 = emit_one(emit_expr_spec(*c, st), OP_JUMP_IF_ZERO, seq![Trit::Pos]);
            emit_expr_spec(*f, emit_expr_spec(*t, s1))
        },
        SpecExpr::Call(_, args) => emit_args_spec(args, st),
    }
}

pub open spec fn emit_args_spec(args: Seq<SpecExpr>, st: EmitState) -> EmitState
    decreases args,
{
    if args.len() == 0 {
        st
    } else {
        emit_args_spec(args.drop_first(), emit_expr_spec(args[0], st))
    }
}

/// The state after emitting a statement. A binding stores with the byte
/// length of the name as operand; a conditional jumps with the number of
/// statements of its else-branch as operand.
pub open spec fn emit_stmt_spec(s: SpecStmt, st: EmitState) -> EmitState
    decreases s,
{
    match s {
        SpecStmt::Let(name, e) => emit_one(
            emit_expr_spec(e, st),
            OP_ASSIGN,
            spec_encode((vstd::utf8::encode_utf8(name).len() as i64) as int),
        ),
        SpecStmt::Assign(name, e) => emit_one(
            emit_expr_spec(e, st),
            OP_ASSIGN,
            spec_encode((vstd::utf8::encode_utf8(name).len() as i64) as int),
        ),
        SpecStmt::If(c, t, f) => {
            let s1 = emit_one(emit_expr_spec(c, st), OP_JUMP_IF_ZERO, spec_encode((f.len() as i64) as int));
            emit_stmts_spec(f, emit_stmts_spec(t, s1))
        },
        SpecStmt::Return(e) => emit_one(emit_expr_spec(e, st), OP_RETURN, seq![]),
        SpecStmt::Expr(e) => emit_expr_spec(e, st),
    }
}

pub open spec fn emit_stmts_spec(ss: Seq<SpecStmt>, st: EmitState) -> EmitState
    decreases ss,
{
    if ss.len() == 0 {
        st
    } else {
        emit_stmts_spec(ss.drop_first(), emit_stmt_spec(ss[0], st))
    }
}

pub open spec fn code_view(bc: TernaryBytecode) -> EmitState {
    (instrs_view(bc.instructions@), constants_view(bc.constants@))
}

struct Emitter {
    bytecode: TernaryBytecode,
}

impl Emitter {
    fn new() -> (r: Self)
        ensures
            code_view(r.bytecode) == (Seq::<SpecInstruction>::empty(), Seq::<SpecConstant>::empty()),
    {
        let e = Emitter { bytecode: TernaryBytecode::new() };
        assert(instrs_view(e.bytecode.instructions@) =~= Seq::<SpecInstruction>::empty());
        assert(constants_view(e.bytecode.constants@) =~= Seq::<SpecConstant>::empty());
        e
    }

    fn add_constant(&mut self, val: Constant) -> (idx: usize)
        ensures
            idx == old(self).bytecode.constants@.len(),
            constants_view(final(self).bytecode.constants@) == constants_view(
                old(self).bytecode.constants@,
            ).push(val@),
            final(self).bytecode.instructions == old(self).bytecode.instructions,
    {
        let idx = self.bytecode.constants.len();
        self.bytecode.constants.push(val);
        assert(constants_view(self.bytecode.constants@) =~= constants_view(
            old(self).bytecode.constants@,
        ).push(val@));
        idx
    }

    fn emit(&mut self, opcode: Trit, operand: Vec<Trit>)
        ensures
            code_view(final(self).bytecode) == emit_one(code_view(old(self).bytecode), opcode, operand@),
    {
        self.bytecode.instructions.push(TernaryInstruction { opcode, operand });
        assert(instrs_view(self.bytecode.instructions@) =~= instrs_view(
            old(self).bytecode.instructions@,
        ).push(SpecInstruction { opcode, operand: operand@ }));
    }

    fn emit_expr(&mut self, expr: &Expr)
        ensures
            code_view(final(self).bytecode) == emit_expr_spec(expr@, code_view(old(self).bytecode)),
        decreases expr,
    {
        let ghost st = code_view(self.bytecode);
        match expr {
            Expr::Literal(n) => {
                let idx = self.add_constant(Constant::Number(*n));
                let idx_trits = encode_int(idx as i64);
                self.emit(OP_LOAD_CONST, idx_trits);
            },
            Expr::Numeral(text) => {
                let idx = self.add_constant(Constant::Numeral(text.clone()));
                let idx_trits = encode_int(idx as i64);
                self.emit(OP_LOAD_CONST, idx_trits);
            },
            Expr::Var(name) => {
                let hash = simple_hash(name.as_str());
                let trits = encode_int(hash);
                self.emit(OP_LOAD_VAR, trits);
            },
            Expr::Binary(left, op, right) => {
                self.emit_expr(left);
                self.emit_expr(right);
                let opcode = match op {
                    BinOp::Add => OP_ADD,
                    BinOp::Sub => OP_SUB,
                    BinOp::Mul => OP_MUL,
                    BinOp::Div => OP_DIV,
                    _ => OP_ADD,
                };
                self.emit(opcode, Vec::new());
            },
            Expr::Unary(UnOp::Neg, e) => {
                self.emit_expr(e);
                self.emit(OP_NEG, Vec::new());
            },
            Expr::If(cond, then_e, else_e) => {
                let ghost s1 = emit_one(emit_expr_spec(cond@, st), OP_JUMP_IF_ZERO, seq![Trit::Pos]);
                self.emit_expr(cond);
                let operand = vec![Trit::Pos];
                assert(operand@ =~= seq![Trit::Pos]);
                self.emit(OP_JUMP_IF_ZERO, operand);
                self.emit_expr(then_e);
                self.emit_expr(else_e);
            },
            Expr::Call(_name, args) => {
                let ghost vargs = expr@->Call_1;
                let mut i: usize = 0;
                assert(vargs.skip(0) =~= vargs);
                while i < args.len()
                    invariant
                        *expr == Expr::Call(expr->Call_0, *args),
                        vargs == expr@->Call_1,
                        vargs.len() == args@.len(),
                        forall|j: int| 0 <= j < args@.len() ==> #[trigger] vargs[j] == args@[j]@,
                        0 <= i <= args.len(),
                        emit_expr_spec(expr@, st) == emit_args_spec(
                            vargs.skip(i as int),
                            code_view(self.bytecode),
                        ),
                    decreases args.len() - i,
                {
                    proof {
                        assert(decreases_to!(*expr => expr->Call_1));
                        assert(decreases_to!(expr->Call_1 => (expr->Call_1)@));
                        assert(decreases_to!(args@ => args@[i as int]));
                        assert(vargs.skip(i as int)[0] == args@[i as int]@);
                        assert(vargs.skip(i as int).drop_first() =~= vargs.skip(i + 1));
                    }
                    self.emit_expr(&args[i]);
                    i = i + 1;
                }
            },
        }
    }

    fn emit_stmts(&mut self, stmts: &Vec<Stmt>)
        ensures
            code_view(final(self).bytecode) == emit_stmts_spec(
                stmts_view(stmts@),
                code_view(old(self).bytecode),
            ),
        decreases stmts@, 0int,
    {
        let ghost ss = stmts_view(stmts@);
        let ghost st = code_view(self.bytecode);
        let mut i: usize = 0;
        assert(ss.skip(0) =~= ss);
        while i < stmts.len()
            invariant
                ss == stmts_view(stmts@),
                0 <= i <= stmts.len(),
                emit_stmts_spec(ss, st) == emit_stmts_spec(ss.skip(i as int), code_view(self.bytecode)),
            decreases stmts.len() - i,
        {
            proof {
                assert(decreases_to!(stmts@ => stmts@[i as int]));
                assert(ss.skip(i as int)[0] == stmts@[i as int]@);
                assert(ss.skip(i as int).drop_first() =~= ss.skip(i + 1));
            }
            self.emit_stmt(&stmts[i]);
            i = i + 1;
        }
    }

    fn emit_stmt(&mut self, stmt: &Stmt)
        ensures
            code_view(final(self).bytecode) == emit_stmt_spec(stmt@, code_view(old(self).bytecode)),
        decreases *stmt, 1int,
    {
        let ghost st = code_view(self.bytecode);
        match stmt {
            Stmt::Let(name, expr) => {
                self.emit_expr(expr);
                // Store variable: the operand encodes the name's length
                let len_trits = encode_int(name.as_str().as_bytes().len() as i64);
                self.emit(OP_ASSIGN, len_trits);
            },
            Stmt::Assign(name, expr) => {
                self.emit_expr(expr);
                let len_trits = encode_int(name.as_str().as_bytes().len() as i64);
                self.emit(OP_ASSIGN, len_trits);
            },
            Stmt::If(cond, then_b, else_b) => {
                let ghost s1 = emit_one(
                    emit_expr_spec(cond@, st),
                    OP_JUMP_IF_ZERO,
                    spec_encode((else_b@.len() as i64) as int),
                );
                proof {
                    assert(stmt@->If_1 =~= stmts_view(then_b@));
                    assert(stmt@->If_2 =~= stmts_view(else_b@));
                    assert(decreases_to!(*stmt => stmt->If_1));
                    assert(decreases_to!(*stmt => stmt->If_2));
                }
                self.emit_expr(cond);
                // Jump instruction: the operand encodes the else-branch size
                let else_size = else_b.len() as i64;
                self.emit(OP_JUMP_IF_ZERO, encode_int(else_size));
                self.emit_stmts(then_b);
                self.emit_stmts(else_b);
            },
            Stmt::Return(expr) => {
                self.emit_expr(expr);
                self.emit(OP_RETURN, Vec::new());
            },
            Stmt::Expr(expr) => {
                self.emit_expr(expr);
            },
        }
    }
}

/// A binary operation is emitted as its left operand, then its right one,
/// then one instruction without operand whose opcode is that of the
/// operation: `OP_ADD`, `OP_SUB`, `OP_MUL` or `OP_DIV` (comparisons use
/// `OP_ADD`). The pool gets the operands' constants only.
pub proof fn lemma_binary_emission(l: SpecExpr, op: BinOp, r: SpecExpr, st: EmitState)
    ensures
        ({
            let out = emit_expr_spec(SpecExpr::Binary(Box::new(l), op, Box::new(r)), st);
            let operands = emit_expr_spec(r, emit_expr_spec(l, st));
            &&& out.1 == operands.1
            &&& out.0.len() == operands.0.len() + 1
            &&& out.0.drop_last() == operands.0
            &&& out.0.last().operand == Seq::<Trit>::empty()
            &&& op == BinOp::Add ==> out.0.last().opcode == OP_ADD
            &&& op == BinOp::Sub ==> out.0.last().opcode == OP_SUB
            &&& op == BinOp::Mul ==> out.0.last().opcode == OP_MUL
            &&& op == BinOp::Div ==> out.0.last().opcode == OP_DIV
            &&& (op != BinOp::Add && op != BinOp::Sub && op != BinOp::Mul && op != BinOp::Div)
                ==> out.0.last().opcode == OP_ADD
        }),
{
    let operands = emit_expr_spec(r, emit_expr_spec(l, st));
    let out = emit_expr_spec(SpecExpr::Binary(Box::new(l), op, Box::new(r)), st);
    assert(out.0.drop_last() =~= operands.0);
}

/// Negation is emitted as its operand followed by `OP_NEG` without operand.
pub proof fn lemma_negation_emission(x: SpecExpr, st: EmitState)
    ensures
        ({
            let out = emit_expr_spec(SpecExpr::Unary(UnOp::Neg, Box::new(x)), st);
            let operand = emit_expr_spec(x, st);
            &&& out.1 == operand.1
            &&& out.0.drop_last() == operand.0
            &&& out.0.last() == SpecInstruction { opcode: OP_NEG, operand: Seq::<Trit>::empty() }
        }),
{
    let out = emit_expr_spec(SpecExpr::Unary(UnOp::Neg, Box::new(x)), st);
    assert(out.0.drop_last() =~= emit_expr_spec(x, st).0);
}

/// How statements are emitted: a binding or an assignment is its value
/// followed by `OP_ASSIGN` with the byte length of the name; a `return` is
/// its value followed by `OP_RETURN` without operand; an expression
/// statement is just its expression; a conditional is its condition, then
/// `OP_JUMP_IF_ZERO` with the number of else-statements, then the
/// then-statements and the else-statements.
pub proof fn lemma_statement_emission(s: SpecStmt, st: EmitState)
    ensures
        ({
            let out = emit_stmt_spec(s, st);
            match s {
                SpecStmt::Let(n, e) | SpecStmt::Assign(n, e) => {
                    let v = emit_expr_spec(e, st);
                    &&& out.1 == v.1
                    &&& out.0.drop_last() == v.0
                    &&& out.0.last().opcode == OP_ASSIGN
                    &&& trits_value(out.0.last().operand) == vstd::utf8::encode_utf8(n).len()
                        || vstd::utf8::encode_utf8(n).len() > i64::MAX
                },
                SpecStmt::Return(e) => {
                    let v = emit_expr_spec(e, st);
                    &&& out.1 == v.1
                    &&& out.0.drop_last() == v.0
                    &&& out.0.last() == SpecInstruction { opcode: OP_RETURN, operand: Seq::<Trit>::empty() }
                },
                SpecStmt::Expr(e) => out == emit_expr_spec(e, st),
                SpecStmt::If(c, t, f) => {
                    let v = emit_expr_spec(c, st);
                    let jump = SpecInstruction { opcode: OP_JUMP_IF_ZERO, operand: spec_encode(f.len() as int) };
                    &&& f.len() <= i64::MAX ==> out == emit_stmts_spec(
                        f,
                        emit_stmts_spec(t, (v.0.push(jump), v.1)),
                    )
                    &&& trits_value(jump.operand) == f.len()
                },
            }
        }),
{
    match s {
        SpecStmt::Let(n, e) | SpecStmt::Assign(n, e) => {
            let v = emit_expr_spec(e, st);
            let out = emit_stmt_spec(s, st);
            assert(out.0.drop_last() =~= v.0);
            let len = vstd::utf8::encode_utf8(n).len();
            if len <= i64::MAX {
                assert((len as i64) as int == len as int);
                lemma_encode_decode(len as int);
            }
        },
        SpecStmt::Return(e) => {
            let out = emit_stmt_spec(s, st);
            assert(out.0.drop_last() =~= emit_expr_spec(e, st).0);
        },
        SpecStmt::Expr(_) => {},
        SpecStmt::If(c, t, f) => {
            lemma_encode_decode(f.len() as int);
            if f.len() <= i64::MAX {
                assert((f.len() as i64) as int == f.len() as int);
            }
        },
    }
}

/// A variable is loaded by `OP_LOAD_VAR` with the hash of its name, which
/// decodes back to that hash; the pool is unchanged.
pub proof fn lemma_variable_emission(name: Seq<char>, st: EmitState)
    ensures
        emit_expr_spec(SpecExpr::Var(name), st) == (
            st.0.push(SpecInstruction { opcode: OP_LOAD_VAR, operand: spec_encode(name_hash(name)) }),
            st.1,
        ),
        trits_value(spec_encode(name_hash(name))) == name_hash(name),
{
    lemma_encode_decode(name_hash(name));
}

/// A literal is loaded by its index in the constant pool: emitting it
/// appends it to the pool and appends the instruction `{Zero, encode(i)}`,
/// `i` being its index there, whose operand decodes back to `i`.
pub proof fn lemma_literal_load(n: Num, st: EmitState)
    requires
        st.1.len() <= i64::MAX,
    ensures
        emit_expr_spec(SpecExpr::Literal(n), st).1 == st.1.push(SpecConstant::Number(n)),
        emit_expr_spec(SpecExpr::Literal(n), st).1[st.1.len() as int] == SpecConstant::Number(n),
        emit_expr_spec(SpecExpr::Literal(n), st).0 == st.0.push(
            SpecInstruction { opcode: Trit::Zero, operand: spec_encode(st.1.len() as int) },
        ),
        trits_value(spec_encode(st.1.len() as int)) == st.1.len(),
{
    let i = st.1.len();
    assert((i as i64) as int == i as int);
    lemma_encode_decode(i as int);
}

/// The instruction that loads constant `i`: `{Zero, encode(i)}`.
pub open spec fn load_of(i: int) -> SpecInstruction {
    SpecInstruction { opcode: OP_LOAD_CONST, operand: spec_encode(i) }
}

/// Every constant of the pool is loaded, in pool order: there are
/// increasing positions `js` in the instructions, the `i`-th holding
/// `load_of(i)`.
pub open spec fn loads_in_order(st: EmitState) -> bool {
    exists|js: Seq<int>| #[trigger] loads_at(st, js)
}

/// The `i`-th constant of the pool is loaded at position `js[i]`, and the
/// positions increase.
pub open spec fn loads_at(st: EmitState, js: Seq<int>) -> bool {
    &&& js.len() == st.1.len()
    &&& forall|i: int| 0 <= i < js.len() ==> 0 <= #[trigger] js[i] < st.0.len()
    &&& forall|i: int| 0 <= i < js.len() ==> st.0[#[trigger] js[i]] == load_of(i)
    &&& forall|i: int, k: int| 0 <= i < k < js.len() ==> #[trigger] js[i] < #[trigger] js[k]
}

/// `b` continues `a`: its instructions and constants start with those of `a`.
pub open spec fn continues(a: EmitState, b: EmitState) -> bool {
    &&& a.0.len() <= b.0.len()
    &&& a.1.len() <= b.1.len()
    &&& forall|i: int| 0 <= i < a.0.len() ==> #[trigger] b.0[i] == a.0[i]
}

proof fn lemma_same_pool_loads(a: EmitState, b: EmitState)
    requires
        loads_in_order(a),
        continues(a, b),
        b.1.len() == a.1.len(),
    ensures
        loads_in_order(b),
{
    let js = choose|js: Seq<int>| loads_at(a, js);
    assert forall|i: int| 0 <= i < js.len() implies b.0[#[trigger] js[i]] == load_of(i) by {
        assert(b.0[js[i]] == a.0[js[i]]);
    }
    assert(loads_at(b, js));
}

proof fn lemma_expr_loads(e: SpecExpr, st: EmitState)
    requires
        loads_in_order(st),
        emit_expr_spec(e, st).1.len() <= i64::MAX,
    ensures
        loads_in_order(emit_expr_spec(e, st)),
        continues(st, emit_expr_spec(e, st)),
    decreases e,
{
    lemma_expr_pool(e, st);
    match e {
        SpecExpr::Literal(_) | SpecExpr::Numeral(_) => {
            let js = choose|js: Seq<int>| loads_at(st, js);
            let r = emit_expr_spec(e, st);
            let i0 = st.1.len();
            assert((i0 as i64) as int == i0 as int);
            assert(r.0 == st.0.push(load_of(i0 as int)));
            let js2 = js.push(st.0.len() as int);
            assert forall|i: int| 0 <= i < js2.len() implies r.0[#[trigger] js2[i]] == load_of(i) by {
                if i < js.len() {
                    assert(js2[i] == js[i]);
                }
            }
            assert forall|i: int, k: int| 0 <= i < k < js2.len() implies #[trigger] js2[i]
                < #[trigger] js2[k] by {
                if k < js.len() {
                    assert(js2[i] == js[i] && js2[k] == js[k]);
                } else {
                    assert(js2[i] == js[i]);
                }
            }
            assert(js2.len() == r.1.len());
            assert forall|i: int| 0 <= i < js2.len() implies 0 <= #[trigger] js2[i] < r.0.len() by {
                if i < js.len() {
                    assert(js2[i] == js[i]);
                }
            }
            assert(loads_at(r, js2));
        },
        SpecExpr::Var(_) => {
            lemma_same_pool_loads(st, emit_expr_spec(e, st));
        },
        SpecExpr::Binary(l, op, r) => {
            let s1 = emit_expr_spec(*l, st);
            let s2 = emit_expr_spec(*r, s1);
            lemma_expr_pool(*r, s1);
            lemma_expr_loads(*l, st);
            lemma_expr_loads(*r, s1);
            lemma_same_pool_loads(s2, emit_one(s2, binop_code(op), seq![]));
        },
        SpecExpr::Unary(_, x) => {
            let s1 = emit_expr_spec(*x, st);
            lemma_expr_loads(*x, st);
            lemma_same_pool_loads(s1, emit_one(s1, OP_NEG, seq![]));
        },
        SpecExpr::If(c, t, f) => {
            let s0 = emit_expr_spec(*c, st);
            let s1 = emit_one(s0, OP_JUMP_IF_ZERO, seq![Trit::Pos]);
            let s2 = emit_expr_spec(*t, s1);
            lemma_expr_pool(*c, st);
            lemma_expr_pool(*t, s1);
            lemma_expr_pool(*f, s2);
            lemma_expr_loads(*c, st);
            lemma_same_pool_loads(s0, s1);
            lemma_expr_loads(*t, s1);
            lemma_expr_loads(*f, s2);
        },
        SpecExpr::Call(_, args) => {
            lemma_args_loads(args, st);
        },
    }
}

proof fn lemma_args_loads(args: Seq<SpecExpr>, st: EmitState)
    requires
        loads_in_order(st),
        emit_args_spec(args, st).1.len() <= i64::MAX,
    ensures
        loads_in_order(emit_args_spec(args, st)),
        continues(st, emit_args_spec(args, st)),
    decreases args,
{
    if args.len() > 0 {
        let s1 = emit_expr_spec(args[0], st);
        lemma_args_pool(args.drop_first(), s1);
        lemma_expr_pool(args[0], st);
        lemma_expr_loads(args[0], st);
        lemma_args_loads(args.drop_first(), s1);
    }
}

proof fn lemma_stmt_loads(s: SpecStmt, st: EmitState)
    requires
        loads_in_order(st),
        emit_stmt_spec(s, st).1.len() <= i64::MAX,
    ensures
        loads_in_order(emit_stmt_spec(s, st)),
        continues(st, emit_stmt_spec(s, st)),
    decreases s,
{
    lemma_stmt_pool(s, st);
    match s {
        SpecStmt::If(c, t, f) => {
            let s0 = emit_expr_spec(c, st);
            let s1 = emit_one(s0, OP_JUMP_IF_ZERO, spec_encode((f.len() as i64) as int));
            let s2 = emit_stmts_spec(t, s1);
            lemma_expr_pool(c, st);
            lemma_stmts_pool(t, s1);
            lemma_stmts_pool(f, s2);
            lemma_expr_loads(c, st);
            lemma_same_pool_loads(s0, s1);
            lemma_stmts_loads(t, s1);
            lemma_stmts_loads(f, s2);
        },
        SpecStmt::Let(n, e) => {
            let s0 = emit_expr_spec(e, st);
            lemma_expr_pool(e, st);
            lemma_expr_loads(e, st);
            lemma_same_pool_loads(s0, emit_stmt_spec(s, st));
        },
        SpecStmt::Assign(n, e) => {
            let s0 = emit_expr_spec(e, st);
            lemma_expr_pool(e, st);
            lemma_expr_loads(e, st);
            lemma_same_pool_loads(s0, emit_stmt_spec(s, st));
        },
        SpecStmt::Return(e) => {
            let s0 = emit_expr_spec(e, st);
            lemma_expr_pool(e, st);
            lemma_expr_loads(e, st);
            lemma_same_pool_loads(s0, emit_stmt_spec(s, st));
        },
        SpecStmt::Expr(e) => {
            lemma_expr_loads(e, st);
        },
    }
}

proof fn lemma_stmts_loads(ss: Seq<SpecStmt>, st: EmitState)
    requires
        loads_in_order(st),
        emit_stmts_spec(ss, st).1.len() <= i64::MAX,
    ensures
        loads_in_order(emit_stmts_spec(ss, st)),
        continues(st, emit_stmts_spec(ss, st)),
    decreases ss,
{
    if ss.len() > 0 {
        let s1 = emit_stmt_spec(ss[0], st);
        lemma_stmts_pool(ss.drop_first(), s1);
        lemma_stmt_pool(ss[0], st);
        lemma_stmt_loads(ss[0], st);
        lemma_stmts_loads(ss.drop_first(), s1);
    }
}

/// Each constant is loaded where it is used: the instructions of a program
/// hold `{Zero, encode(i)}` for every index `i` of its constant pool, in
/// pool order (when the pool's indices fit in an `i64`).
pub proof fn lemma_constants_loaded(program: Seq<SpecStmt>)
    requires
        stmts_literals(program).len() <= i64::MAX,
    ensures
        loads_in_order(emit_stmts_spec(program, (Seq::<SpecInstruction>::empty(), Seq::<SpecConstant>::empty()))),
{
    let st0 = (Seq::<SpecInstruction>::empty(), Seq::<SpecConstant>::empty());
    assert(loads_in_order(st0)) by {
        assert(loads_at(st0, Seq::<int>::empty()));
    }
    lemma_constant_pool(program);
    lemma_stmts_loads(program, st0);
}

/// The literals of an expression, left to right.
pub open spec fn expr_literals(e: SpecExpr) -> Seq<SpecConstant>
    decreases e,
{
    match e {
        SpecExpr::Literal(n) => seq![SpecConstant::Number(n)],
        SpecExpr::Numeral(text) => seq![SpecConstant::Numeral(text)],
        SpecExpr::Var(_) => seq![],
        SpecExpr::Binary(l, _, r) => expr_literals(*l) + expr_literals(*r),
        SpecExpr::Unary(_, x) => expr_literals(*x),
        SpecExpr::If(c, t, f) => expr_literals(*c) + expr_literals(*t) + expr_literals(*f),
        SpecExpr::Call(_, args) => args_literals(args),
    }
}

pub open spec fn args_literals(args: Seq<SpecExpr>) -> Seq<SpecConstant>
    decreases args,
{
    if args.len() == 0 {
        seq![]
    } else {
        expr_literals(args[0]) + args_literals(args.drop_first())
    }
}

/// The literals of a statement, left to right.
pub open spec fn stmt_literals(s: SpecStmt) -> Seq<SpecConstant>
    decreases s,
{
    match s {
        SpecStmt::Let(_, e) => expr_literals(e),
        SpecStmt::Assign(_, e) => expr_literals(e),
        SpecStmt::If(c, t, f) => expr_literals(c) + stmts_literals(t) + stmts_literals(f),
        SpecStmt::Return(e) => expr_literals(e),
        SpecStmt::Expr(e) => expr_literals(e),
    }
}

/// The literals of a statement list, left to right.
pub open spec fn stmts_literals(ss: Seq<SpecStmt>) -> Seq<SpecConstant>
    decreases ss,
{
    if ss.len() == 0 {
        seq![]
    } else {
        stmt_literals(ss[0]) + stmts_literals(ss.drop_first())
    }
}

proof fn lemma_expr_pool(e: SpecExpr, st: EmitState)
    ensures
        emit_expr_spec(e, st).1 == st.1 + expr_literals(e),
    decreases e,
{
    match e {
        SpecExpr::Literal(n) => {
            assert(st.1.push(SpecConstant::Number(n)) =~= st.1 + seq![SpecConstant::Number(n)]);
        },
        SpecExpr::Numeral(text) => {
            assert(st.1.push(SpecConstant::Numeral(text)) =~= st.1 + seq![SpecConstant::Numeral(text)]);
        },
        SpecExpr::Var(_) => {
            assert(st.1 + Seq::<SpecConstant>::empty() =~= st.1);
        },
        SpecExpr::Binary(l, _, r) => {
            lemma_expr_pool(*l, st);
            lemma_expr_pool(*r, emit_expr_spec(*l, st));
            assert(st.1 + expr_literals(*l) + expr_literals(*r) =~= st.1 + (expr_literals(*l)
                + expr_literals(*r)));
        },
        SpecExpr::Unary(_, x) => {
            lemma_expr_pool(*x, st);
        },
        SpecExpr::If(c, t, f) => {
            lemma_expr_pool(*c, st);
            let s1 = emit_one(emit_expr_spec(*c, st), OP_JUMP_IF_ZERO, seq![Trit::Pos]);
            lemma_expr_pool(*t, s1);
            lemma_expr_pool(*f, emit_expr_spec(*t, s1));
            assert(st.1 + expr_literals(*c) + expr_literals(*t) + expr_literals(*f) =~= st.1 + (
            expr_literals(*c) + expr_literals(*t) + expr_literals(*f)));
        },
        SpecExpr::Call(_, args) => {
            lemma_args_pool(args, st);
        },
    }
}

proof fn lemma_args_pool(args: Seq<SpecExpr>, st: EmitState)
    ensures
        emit_args_spec(args, st).1 == st.1 + args_literals(args),
    decreases args,
{
    if args.len() == 0 {
        assert(st.1 + Seq::<SpecConstant>::empty() =~= st.1);
    } else {
        lemma_expr_pool(args[0], st);
        lemma_args_pool(args.drop_first(), emit_expr_spec(args[0], st));
        assert(st.1 + expr_literals(args[0]) + args_literals(args.drop_first()) =~= st.1 + (
        expr_literals(args[0]) + args_literals(args.drop_first())));
    }
}

proof fn lemma_stmt_pool(s: SpecStmt, st: EmitState)
    ensures
        emit_stmt_spec(s, st).1 == st.1 + stmt_literals(s),
    decreases s,
{
    match s {
        SpecStmt::If(c, t, f) => {
            lemma_expr_pool(c, st);
            let s1 = emit_one(
                emit_expr_spec(c, st),
                OP_JUMP_IF_ZERO,
                spec_encode((f.len() as i64) as int),
            );
            lemma_stmts_pool(t, s1);
            lemma_stmts_pool(f, emit_stmts_spec(t, s1));
            assert(st.1 + expr_literals(c) + stmts_literals(t) + stmts_literals(f) =~= st.1 + (
            expr_literals(c) + stmts_literals(t) + stmts_literals(f)));
        },
        SpecStmt::Let(_, e) => lemma_expr_pool(e, st),
        SpecStmt::Assign(_, e) => lemma_expr_pool(e, st),
        SpecStmt::Return(e) => lemma_expr_pool(e, st),
        SpecStmt::Expr(e) => lemma_expr_pool(e, st),
    }
}

proof fn lemma_stmts_pool(ss: Seq<SpecStmt>, st: EmitState)
    ensures
        emit_stmts_spec(ss, st).1 == st.1 + stmts_literals(ss),
    decreases ss,
{
    if ss.len() == 0 {
        assert(st.1 + Seq::<SpecConstant>::empty() =~= st.1);
    } else {
        lemma_stmt_pool(ss[0], st);
        lemma_stmts_pool(ss.drop_first(), emit_stmt_spec(ss[0], st));
        assert(st.1 + stmt_literals(ss[0]) + stmts_literals(ss.drop_first()) =~= st.1 + (
        stmt_literals(ss[0]) + stmts_literals(ss.drop_first())));
    }
}

/// The constant pool of emitted bytecode is the list of the program's
/// literals, in source order.
pub proof fn lemma_constant_pool(program: Seq<SpecStmt>)
    ensures
        emit_stmts_spec(program, (Seq::<SpecInstruction>::empty(), Seq::<SpecConstant>::empty())).1
            == stmts_literals(program),
{
    lemma_stmts_pool(program, (Seq::<SpecInstruction>::empty(), Seq::<SpecConstant>::empty()));
    assert(Seq::<SpecConstant>::empty() + stmts_literals(program) =~= stmts_literals(program));
}

/// Emits ternary bytecode for a program.
pub fn winter(program: &Program) -> (r: TernaryBytecode)
    ensures
        code_view(r) == emit_stmts_spec(
            program@,
            (Seq::<SpecInstruction>::empty(), Seq::<SpecConstant>::empty()),
        ),
{
    let mut emitter = Emitter::new();
    emitter.emit_stmts(&program.stmts);
    emitter.bytecode
}

} // verus!
