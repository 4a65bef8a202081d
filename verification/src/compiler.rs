//! The compiler: walks the syntax tree and emits a flat instruction
//! sequence with patched control-flow targets, interning literals in the
//! shared constant pool and registering procedures by name.
//!
//! `c_decls` is the mathematical emission function; the executable
//! compiler is proved to produce exactly its result.

use vstd::prelude::*;

use crate::ast::{
    BinaryOperator, DeclV, Declaration, ExprV, Expression, LogicalOperator, StmtV, Statement,
    UnaryOperator,
};
use crate::value::{Val, Value};
use crate::vm::{Op, OpCode, VmState, VM};

verus! {

/// The part of the machine the compiler builds: the code under
/// construction, the shared constant pool, and the procedure table.
pub struct CState {
    pub code: Seq<Op>,
    pub pool: Seq<Val>,
    pub procs: Map<Seq<char>, Seq<Op>>,
}

/// The compiler's slice of a machine state.
pub open spec fn cstate_of(s: VmState) -> CState {
    CState { code: s.code, pool: s.constants, procs: s.procedures }
}

/// Everything the compiler does not touch.
pub open spec fn rest_unchanged(a: VmState, b: VmState) -> bool {
    &&& b.globals == a.globals
    &&& b.stack == a.stack
    &&& b.ip == a.ip
    &&& b.output == a.output
    &&& b.balance == a.balance
    &&& b.debt == a.debt
    &&& b.won_last_gamble == a.won_last_gamble
}

/// The instruction a unary operator compiles to.
pub open spec fn unary_opcode(op: UnaryOperator) -> Op {
    match op {
        UnaryOperator::Negate => Op::Negate,
        UnaryOperator::Not => Op::Not,
    }
}

/// The instruction a binary operator compiles to.
pub open spec fn binary_opcode(op: BinaryOperator) -> Op {
    match op {
        BinaryOperator::Add => Op::Add,
        BinaryOperator::Subtract => Op::Subtract,
        BinaryOperator::Multiply => Op::Multiply,
        BinaryOperator::Divide => Op::Divide,
        BinaryOperator::Equal => Op::Equal,
        BinaryOperator::NotEqual => Op::NotEqual,
        BinaryOperator::Greater => Op::Greater,
        BinaryOperator::GreaterEqual => Op::GreaterEqual,
        BinaryOperator::Less => Op::Less,
        BinaryOperator::LessEqual => Op::LessEqual,
    }
}

/// The instruction a logical operator compiles to.
pub open spec fn logical_opcode(op: LogicalOperator) -> Op {
    match op {
        LogicalOperator::And => Op::And,
        LogicalOperator::Or => Op::Or,
    }
}

/// Interns a literal and emits the load-constant instruction for it.
pub open spec fn emit_const(st: CState, v: Val) -> CState {
    let (i, pool) = VM::pool_insert(st.pool, v);
    CState { code: st.code.push(Op::Constant(i)), pool, procs: st.procs }
}

/// Size measure for expressions, used for compilation termination.
pub open spec fn esize(e: ExprV) -> nat
    decreases e,
{
    match e {
        ExprV::Unary(_, a) => 1 + esize(*a),
        ExprV::Binary(_, a, b) => 1 + esize(*a) + esize(*b),
        ExprV::Logical(_, a, b) => 1 + esize(*a) + esize(*b),
        _ => 1,
    }
}

/// Size measure for statements.  A range loop weighs enough extra that
/// its desugared while-loop form is strictly smaller.
pub open spec fn ssize(s: StmtV) -> nat
    decreases s,
{
    match s {
        StmtV::Expression(e) => 1 + esize(e),
        StmtV::Print(e) => 1 + esize(e),
        StmtV::Block(ds) => 2 + dssize(ds),
        StmtV::If(c, t, e) => 1 + esize(c) + ssize(*t) + (match e {
            Some(s2) => ssize(*s2),
            None => 0,
        }),
        StmtV::While(c, b) => 1 + esize(c) + ssize(*b),
        StmtV::Range(_, lo, hi, stp, b) => 20 + esize(lo) + esize(hi) + esize(stp) + ssize(*b),
        StmtV::Procedure(_, body) => 2 + dssize(body),
        StmtV::ProcedureCall(_) => 1,
    }
}

/// Size measure for declarations.
pub open spec fn dsize(d: DeclV) -> nat
    decreases d,
{
    match d {
        DeclV::Variable(_, e) => 1 + esize(e),
        DeclV::Statement(s) => 1 + ssize(s),
    }
}

/// Size measure for declaration lists.
pub open spec fn dssize(ds: Seq<DeclV>) -> nat
    decreases ds,
{
    if ds.len() == 0 {
        0
    } else {
        dsize(ds[0]) + dssize(ds.subrange(1, ds.len() as int))
    }
}

proof fn lemma_esize_pos(e: ExprV)
    ensures
        esize(e) >= 1,
{
}

/// What compiling an expression emits: operands in evaluation order, left
/// before right, then the single operator instruction; literals intern
/// into the pool; a void literal emits nothing.
pub open spec fn c_expr(e: ExprV, st: CState) -> CState
    decreases esize(e),
{
    match e {
        ExprV::Number(n) => emit_const(st, Val::Num(n)),
        ExprV::Text(s) => emit_const(st, Val::Text(s)),
        ExprV::Boolean(b) => emit_const(st, Val::Bool(b)),
        ExprV::Void => st,
        ExprV::Variable(name) => CState { code: st.code.push(Op::GetGlobal(name)), ..st },
        ExprV::Unary(op, a) => {
            let st1 = c_expr(*a, st);
            CState { code: st1.code.push(unary_opcode(op)), ..st1 }
        },
        ExprV::Binary(op, a, b) => {
            let st1 = c_expr(*a, st);
            let st2 = c_expr(*b, st1);
            CState { code: st2.code.push(binary_opcode(op)), ..st2 }
        },
        ExprV::Logical(op, a, b) => {
            let st1 = c_expr(*a, st);
            let st2 = c_expr(*b, st1);
            CState { code: st2.code.push(logical_opcode(op)), ..st2 }
        },
    }
}

/// The desugared form of a range loop: initialize the variable, then a
/// while-loop that tests `var < end` and, after the body, steps the
/// variable.
pub open spec fn range_desugared(
    v: Seq<char>,
    hi: ExprV,
    stp: ExprV,
    body: StmtV,
) -> StmtV {
    StmtV::While(
        ExprV::Binary(BinaryOperator::Less, Box::new(ExprV::Variable(v)), Box::new(hi)),
        Box::new(
            StmtV::Block(
                seq![
                    DeclV::Statement(body),
                    DeclV::Variable(
                        v,
                        ExprV::Binary(
                            BinaryOperator::Add,
                            Box::new(ExprV::Variable(v)),
                            Box::new(stp),
                        ),
                    ),
                ],
            ),
        ),
    )
}

/// What compiling a statement emits, per construct: conditionals and
/// loops emit conditional jumps whose placeholder targets are patched to
/// the index just past the guarded code; a range loop compiles exactly as
/// its desugared while form; a procedure compiles its body as a fresh
/// unit sharing the pool and registers it, emitting nothing inline.
pub open spec fn c_stmt(s: StmtV, st: CState) -> CState
    decreases ssize(s),
    via c_stmt_decreases
{
    match s {
        StmtV::Print(e) => {
            let st1 = c_expr(e, st);
            CState { code: st1.code.push(Op::Print), ..st1 }
        },
        StmtV::Expression(e) => {
            let st1 = c_expr(e, st);
            CState { code: st1.code.push(Op::Pop), ..st1 }
        },
        StmtV::Block(ds) => c_decls(ds, st),
        StmtV::If(c, t, els) => {
            let st1 = c_expr(c, st);
            let jf = st1.code.len();
            let st2 = CState { code: st1.code.push(Op::JumpIfFalse(0)), ..st1 };
            let st3 = c_stmt(*t, st2);
            match els {
                None => CState {
                    code: st3.code.update(jf as int, Op::JumpIfFalse(st3.code.len())),
                    ..st3
                },
                Some(e2) => {
                    let je = st3.code.len();
                    let st4 = CState { code: st3.code.push(Op::Jump(0)), ..st3 };
                    let st5 = c_stmt(*e2, st4);
                    CState {
                        code: st5.code.update(jf as int, Op::JumpIfFalse(je + 1)).update(
                            je as int,
                            Op::Jump(st5.code.len()),
                        ),
                        ..st5
                    }
                },
            }
        },
        StmtV::While(c, b) => {
            let start = st.code.len();
            let st1 = c_expr(c, st);
            let jf = st1.code.len();
            let st2 = CState { code: st1.code.push(Op::JumpIfFalse(0)), ..st1 };
            let st3 = c_stmt(*b, st2);
            let st4 = CState { code: st3.code.push(Op::Jump(start)), ..st3 };
            CState { code: st4.code.update(jf as int, Op::JumpIfFalse(st4.code.len())), ..st4 }
        },
        StmtV::Range(v, lo, hi, stp, b) => {
            let st1 = c_expr(lo, st);
            let st2 = CState { code: st1.code.push(Op::SetGlobal(v)), ..st1 };
            c_stmt(range_desugared(v, hi, stp, *b), st2)
        },
        StmtV::Procedure(name, body) => {
            let sub = c_decls(
                body,
                CState { code: Seq::<Op>::empty(), pool: st.pool, procs: st.procs },
            );
            CState { code: st.code, pool: sub.pool, procs: sub.procs.insert(name, sub.code) }
        },
        StmtV::ProcedureCall(name) => CState { code: st.code.push(Op::ProcedureCall(name)), ..st },
    }
}

/// What compiling one declaration emits: a variable declaration computes
/// its initializer, then writes the global.
pub open spec fn c_decl(d: DeclV, st: CState) -> CState
    decreases dsize(d),
{
    match d {
        DeclV::Variable(name, e) => {
            let st1 = c_expr(e, st);
            CState { code: st1.code.push(Op::SetGlobal(name)), ..st1 }
        },
        DeclV::Statement(s) => c_stmt(s, st),
    }
}

/// What compiling a declaration list emits: each declaration in order.
pub open spec fn c_decls(ds: Seq<DeclV>, st: CState) -> CState
    decreases dssize(ds) + 1,
    via c_decls_decreases
{
    if ds.len() == 0 {
        st
    } else {
        c_decls(ds.subrange(1, ds.len() as int), c_decl(ds[0], st))
    }
}

#[via_fn]
proof fn c_decls_decreases(ds: Seq<DeclV>, st: CState) {
    if ds.len() > 0 {
        assert(dssize(ds) == dsize(ds[0]) + dssize(ds.subrange(1, ds.len() as int)));
        assert(dsize(ds[0]) >= 1) by {
            match ds[0] {
                DeclV::Variable(_, e) => {},
                DeclV::Statement(s) => {},
            }
        }
    }
}

#[via_fn]
proof fn c_stmt_decreases(s: StmtV, st: CState) {
    reveal_with_fuel(ssize, 5);
    reveal_with_fuel(esize, 5);
    reveal_with_fuel(dsize, 5);
    reveal_with_fuel(dssize, 5);
    match s {
        StmtV::Range(v, lo, hi, stp, b) => {
            let w = range_desugared(v, hi, stp, *b);
            let ds = seq![
                DeclV::Statement(*b),
                DeclV::Variable(
                    v,
                    ExprV::Binary(
                        BinaryOperator::Add,
                        Box::new(ExprV::Variable(v)),
                        Box::new(stp),
                    ),
                ),
            ];
            assert(ds.subrange(1, 2).subrange(1, 1) =~= Seq::<DeclV>::empty());
            assert(dssize(ds.subrange(1, 2).subrange(1, 1)) == 0);
            assert(ds.subrange(1, 2)[0] == ds[1]);
            assert(dssize(ds.subrange(1, 2)) == dsize(ds[1]));
            assert(dssize(ds) == dsize(ds[0]) + dsize(ds[1]));
            lemma_esize_pos(lo);
            assert(ssize(w) < ssize(s));
        },
        _ => {},
    }
}

/// The desugared while form weighs strictly less than the range loop it
/// stands for.
proof fn lemma_range_measure(v: Seq<char>, lo: ExprV, hi: ExprV, stp: ExprV, body: StmtV)
    ensures
        ssize(range_desugared(v, hi, stp, body)) < ssize(
            StmtV::Range(v, lo, hi, stp, Box::new(body)),
        ),
{
    reveal_with_fuel(ssize, 5);
    reveal_with_fuel(esize, 5);
    reveal_with_fuel(dsize, 5);
    reveal_with_fuel(dssize, 5);
    let ds = seq![
        DeclV::Statement(body),
        DeclV::Variable(
            v,
            ExprV::Binary(BinaryOperator::Add, Box::new(ExprV::Variable(v)), Box::new(stp)),
        ),
    ];
    assert(ds.subrange(1, 2).subrange(1, 1) =~= Seq::<DeclV>::empty());
    assert(ds.subrange(1, 2)[0] == ds[1]);
    assert(dssize(ds.subrange(1, 2)) == dsize(ds[1]));
    assert(dssize(ds) == dsize(ds[0]) + dsize(ds[1]));
    lemma_esize_pos(lo);
}

/// An element weighs no more than its whole list.
proof fn lemma_dssize_elem(ds: Seq<DeclV>, i: int)
    requires
        0 <= i < ds.len(),
    ensures
        dsize(ds[i]) <= dssize(ds),
    decreases i,
{
    if i == 0 {
    } else {
        let rest = ds.subrange(1, ds.len() as int);
        lemma_dssize_elem(rest, i - 1);
        assert(rest[i - 1] == ds[i]);
    }
}

proof fn lemma_c_expr_grows(e: ExprV, st: CState)
    ensures
        c_expr(e, st).code.len() >= st.code.len(),
    decreases esize(e),
{
    match e {
        ExprV::Unary(_, a) => {
            lemma_c_expr_grows(*a, st);
        },
        ExprV::Binary(_, a, b) => {
            lemma_c_expr_grows(*a, st);
            lemma_c_expr_grows(*b, c_expr(*a, st));
        },
        ExprV::Logical(_, a, b) => {
            lemma_c_expr_grows(*a, st);
            lemma_c_expr_grows(*b, c_expr(*a, st));
        },
        _ => {},
    }
}

proof fn lemma_c_stmt_grows(s: StmtV, st: CState)
    ensures
        c_stmt(s, st).code.len() >= st.code.len(),
    decreases ssize(s),
{
    match s {
        StmtV::Print(e) => {
            lemma_c_expr_grows(e, st);
        },
        StmtV::Expression(e) => {
            lemma_c_expr_grows(e, st);
        },
        StmtV::Block(ds) => {
            lemma_c_decls_grows(ds, st);
        },
        StmtV::If(c, t, els) => {
            lemma_c_expr_grows(c, st);
            let st1 = c_expr(c, st);
            let st2 = CState { code: st1.code.push(Op::JumpIfFalse(0)), ..st1 };
            lemma_c_stmt_grows(*t, st2);
            match els {
                None => {},
                Some(e2) => {
                    let st3 = c_stmt(*t, st2);
                    let st4 = CState { code: st3.code.push(Op::Jump(0)), ..st3 };
                    lemma_c_stmt_grows(*e2, st4);
                },
            }
        },
        StmtV::While(c, b) => {
            lemma_c_expr_grows(c, st);
            let st1 = c_expr(c, st);
            let st2 = CState { code: st1.code.push(Op::JumpIfFalse(0)), ..st1 };
            lemma_c_stmt_grows(*b, st2);
        },
        StmtV::Range(v, lo, hi, stp, b) => {
            lemma_range_measure(v, lo, hi, stp, *b);
            lemma_c_expr_grows(lo, st);
            let st1 = c_expr(lo, st);
            let st2 = CState { code: st1.code.push(Op::SetGlobal(v)), ..st1 };
            lemma_c_stmt_grows(range_desugared(v, hi, stp, *b), st2);
        },
        StmtV::Procedure(_, _) => {},
        StmtV::ProcedureCall(_) => {},
    }
}

proof fn lemma_c_decl_grows(d: DeclV, st: CState)
    ensures
        c_decl(d, st).code.len() >= st.code.len(),
    decreases dsize(d),
{
    match d {
        DeclV::Variable(_, e) => {
            lemma_c_expr_grows(e, st);
        },
        DeclV::Statement(s) => {
            lemma_c_stmt_grows(s, st);
        },
    }
}

proof fn lemma_c_decls_grows(ds: Seq<DeclV>, st: CState)
    ensures
        c_decls(ds, st).code.len() >= st.code.len(),
    decreases dssize(ds) + 1,
{
    if ds.len() > 0 {
        lemma_dssize_elem(ds, 0);
        assert(dssize(ds) == dsize(ds[0]) + dssize(ds.subrange(1, ds.len() as int)));
        lemma_c_decl_grows(ds[0], st);
        lemma_c_decls_grows(ds.subrange(1, ds.len() as int), c_decl(ds[0], st));
    }
}

/// The instruction a unary operator compiles to.
fn opcode_of_unary(op: &UnaryOperator) -> (r: OpCode)
    ensures
        r@ == unary_opcode(*op),
{
    match op {
        UnaryOperator::Negate => OpCode::Negate,
        UnaryOperator::Not => OpCode::Not,
    }
}

/// The instruction a binary operator compiles to.
fn opcode_of_binary(op: &BinaryOperator) -> (r: OpCode)
    ensures
        r@ == binary_opcode(*op),
{
    match op {
        BinaryOperator::Add => OpCode::Add,
        BinaryOperator::Subtract => OpCode::Subtract,
        BinaryOperator::Multiply => OpCode::Multiply,
        BinaryOperator::Divide => OpCode::Divide,
        BinaryOperator::Equal => OpCode::Equal,
        BinaryOperator::NotEqual => OpCode::NotEqual,
        BinaryOperator::Greater => OpCode::Greater,
        BinaryOperator::GreaterEqual => OpCode::GreaterEqual,
        BinaryOperator::Less => OpCode::Less,
        BinaryOperator::LessEqual => OpCode::LessEqual,
    }
}

/// The instruction a logical operator compiles to.
fn opcode_of_logical(op: &LogicalOperator) -> (r: OpCode)
    ensures
        r@ == logical_opcode(*op),
{
    match op {
        LogicalOperator::And => OpCode::And,
        LogicalOperator::Or => OpCode::Or,
    }
}

fn compile_expr(vm: &mut VM, e: &Expression)
    ensures
        cstate_of(final(vm)@) == c_expr(e@, cstate_of(old(vm)@)),
        rest_unchanged(old(vm)@, final(vm)@),
    decreases esize(e@),
{
    match e {
        Expression::Number(n) => {
            let idx = vm.write_constant(Value::from_number(*n));
            vm.write_op(OpCode::Constant(idx));
        },
        Expression::Text(s) => {
            let idx = vm.write_constant(Value::Text(s.clone()));
            vm.write_op(OpCode::Constant(idx));
        },
        Expression::Boolean(b) => {
            let idx = vm.write_constant(Value::from_boolean(*b));
            vm.write_op(OpCode::Constant(idx));
        },
        Expression::Void => {},
        Expression::Variable(name) => {
            vm.write_op(OpCode::GetGlobal(name.clone()));
        },
        Expression::Unary(op, a) => {
            compile_expr(vm, a);
            let oc = opcode_of_unary(op);
            vm.write_op(oc);
        },
        Expression::Binary(op, a, b) => {
            compile_expr(vm, a);
            compile_expr(vm, b);
            let oc = opcode_of_binary(op);
            vm.write_op(oc);
        },
        Expression::Logical(op, a, b) => {
            compile_expr(vm, a);
            compile_expr(vm, b);
            let oc = opcode_of_logical(op);
            vm.write_op(oc);
        },
    }
}

#[verifier::rlimit(100)]
#[verifier::spinoff_prover]
fn compile_stmt(vm: &mut VM, s: &Statement)
    ensures
        cstate_of(final(vm)@) == c_stmt(s@, cstate_of(old(vm)@)),
        rest_unchanged(old(vm)@, final(vm)@),
    decreases ssize(s@),
{
    let ghost st0 = cstate_of(vm@);
    match s {
        Statement::Print(e) => {
            compile_expr(vm, e);
            vm.write_op(OpCode::Print);
        },
        Statement::Expression(e) => {
            compile_expr(vm, e);
            vm.write_op(OpCode::Pop);
        },
        Statement::Block(ds) => {
            proof {
                assert(ssize(s@) == 2 + dssize(crate::ast::decls_view(ds@)));
            }
            compile_decls(vm, ds);
        },
        Statement::If(c, t, els) => {
            compile_expr(vm, c);
            let jf = vm.write_op(OpCode::JumpIfFalse(0));
            compile_stmt(vm, t);
            proof {
                lemma_c_stmt_grows(
                    t@,
                    CState {
                        code: c_expr(c@, st0).code.push(Op::JumpIfFalse(0)),
                        ..c_expr(c@, st0)
                    },
                );
            }
            match els {
                None => {
                    let end = vm.code_len();
                    vm.patch_op(jf, OpCode::JumpIfFalse(end));
                },
                Some(e2) => {
                    let je = vm.write_op(OpCode::Jump(0));
                    compile_stmt(vm, e2);
                    proof {
                        let st1 = c_expr(c@, st0);
                        let st2 = CState { code: st1.code.push(Op::JumpIfFalse(0)), ..st1 };
                        let st3 = c_stmt(t@, st2);
                        let st4 = CState { code: st3.code.push(Op::Jump(0)), ..st3 };
                        lemma_c_stmt_grows(e2@, st4);
                    }
                    let end = vm.code_len();
                    vm.patch_op(jf, OpCode::JumpIfFalse(je + 1));
                    vm.patch_op(je, OpCode::Jump(end));
                },
            }
        },
        Statement::While(c, b) => {
            let start = vm.code_len();
            compile_expr(vm, c);
            let jf = vm.write_op(OpCode::JumpIfFalse(0));
            compile_stmt(vm, b);
            proof {
                let st1 = c_expr(c@, st0);
                let st2 = CState { code: st1.code.push(Op::JumpIfFalse(0)), ..st1 };
                lemma_c_stmt_grows(b@, st2);
            }
            vm.write_op(OpCode::Jump(start));
            let end = vm.code_len();
            vm.patch_op(jf, OpCode::JumpIfFalse(end));
        },
        Statement::Range(v, lo, hi, stp, b) => {
            proof {
                lemma_range_measure(v@, lo@, hi@, stp@, b@);
            }
            compile_expr(vm, lo);
            vm.write_op(OpCode::SetGlobal(v.clone()));
            let desugared = Statement::While(
                Expression::Binary(
                    BinaryOperator::Less,
                    Box::new(Expression::Variable(v.clone())),
                    Box::new(hi.clone()),
                ),
                Box::new(
                    Statement::Block(
                        vec![
                            Declaration::Statement((**b).clone()),
                            Declaration::Variable(
                                v.clone(),
                                Expression::Binary(
                                    BinaryOperator::Add,
                                    Box::new(Expression::Variable(v.clone())),
                                    Box::new(stp.clone()),
                                ),
                            ),
                        ],
                    ),
                ),
            );
            proof {
                let ds = seq![
                    DeclV::Statement(b@),
                    DeclV::Variable(
                        v@,
                        ExprV::Binary(
                            BinaryOperator::Add,
                            Box::new(ExprV::Variable(v@)),
                            Box::new(stp@),
                        ),
                    ),
                ];
                reveal_with_fuel(crate::ast::decls_view, 4);
                reveal_with_fuel(crate::ast::expr_view, 4);
                reveal_with_fuel(crate::ast::stmt_view, 4);
                reveal_with_fuel(crate::ast::decl_view, 4);
                let dv = match &desugared {
                    Statement::While(_, bb) => match &**bb {
                        Statement::Block(dds) => dds@,
                        _ => arbitrary(),
                    },
                    _ => arbitrary(),
                };
                assert(dv.len() == 2);
                crate::ast::lemma_decls_view_len(dv);
                crate::ast::lemma_decls_view_index(dv, 0);
                crate::ast::lemma_decls_view_index(dv, 1);
                assert(crate::ast::decl_view(&dv[0]) == ds[0]);
                assert(crate::ast::decl_view(&dv[1]) == ds[1]);
                assert(crate::ast::decls_view(dv) =~= ds);
                assert(desugared@ == range_desugared(v@, hi@, stp@, b@));
            }
            compile_stmt(vm, &desugared);
        },
        Statement::Procedure(name, body) => {
            proof {
                assert(ssize(s@) == 2 + dssize(crate::ast::decls_view(body@)));
            }
            let mut buf: Vec<OpCode> = Vec::new();
            proof {
                assert(buf.deep_view() =~= Seq::<Op>::empty());
            }
            vm.swap_code(&mut buf);
            compile_decls(vm, body);
            vm.swap_code(&mut buf);
            vm.write_procedure(name.clone(), buf);
        },
        Statement::ProcedureCall(name) => {
            vm.write_op(OpCode::ProcedureCall(name.clone()));
        },
    }
}

fn compile_decl(vm: &mut VM, d: &Declaration)
    ensures
        cstate_of(final(vm)@) == c_decl(d@, cstate_of(old(vm)@)),
        rest_unchanged(old(vm)@, final(vm)@),
    decreases dsize(d@),
{
    match d {
        Declaration::Variable(name, e) => {
            compile_expr(vm, e);
            vm.write_op(OpCode::SetGlobal(name.clone()));
        },
        Declaration::Statement(s) => {
            compile_stmt(vm, s);
        },
    }
}

fn compile_decls(vm: &mut VM, ds: &Vec<Declaration>)
    ensures
        cstate_of(final(vm)@) == c_decls(crate::ast::decls_view(ds@), cstate_of(old(vm)@)),
        rest_unchanged(old(vm)@, final(vm)@),
    decreases dssize(crate::ast::decls_view(ds@)) + 1,
{
    let ghost dv = crate::ast::decls_view(ds@);
    let ghost st0 = cstate_of(vm@);
    proof {
        crate::ast::lemma_decls_view_len(ds@);
        assert(dv.subrange(0, dv.len() as int) =~= dv);
    }
    let n = ds.len();
    let mut i: usize = 0;
    while i < n
        invariant
            i <= n,
            n == ds@.len(),
            dv == crate::ast::decls_view(ds@),
            dv.len() == n,
            st0 == cstate_of(old(vm)@),
            c_decls(dv.subrange(i as int, dv.len() as int), cstate_of(vm@)) == c_decls(dv, st0),
            rest_unchanged(old(vm)@, vm@),
        decreases n - i,
    {
        proof {
            crate::ast::lemma_decls_view_index(ds@, i as int);
            lemma_dssize_elem(dv, i as int);
            assert(dv.subrange(i as int, dv.len() as int)[0] == dv[i as int]);
            assert(dv.subrange(i as int, dv.len() as int).subrange(
                1,
                dv.len() - i,
            ) =~= dv.subrange(i + 1 as int, dv.len() as int));
        }
        compile_decl(vm, &ds[i]);
        i = i + 1;
    }
    proof {
        assert(dv.subrange(n as int, dv.len() as int) =~= Seq::<DeclV>::empty());
    }
}

/// The compiler: holds the tree it lowers and the machine it emits into.
pub struct Compiler {
    pub ast: Vec<Declaration>,
    pub vm: VM,
}

impl Compiler {
    /// The tree this compiler lowers.
    pub open spec fn decls(&self) -> Seq<DeclV> {
        crate::ast::decls_view(self.ast@)
    }

    pub fn new(ast: Vec<Declaration>, vm: VM) -> (r: Compiler)
        ensures
            r.decls() == crate::ast::decls_view(ast@),
            r.vm@ == vm@,
    {
        Compiler { ast, vm }
    }

    /// Lowers the whole tree into the machine: the emitted code, pool and
    /// procedure table are exactly what `c_decls` says.
    pub fn compile(&mut self)
        ensures
            cstate_of(final(self).vm@) == c_decls(old(self).decls(), cstate_of(old(self).vm@)),
            rest_unchanged(old(self).vm@, final(self).vm@),
            final(self).decls() == old(self).decls(),
    {
        compile_decls(&mut self.vm, &self.ast);
    }

    /// Interns a value in the shared constant pool and returns its index.
    pub fn write_constant(&mut self, value: Value) -> (idx: usize)
        ensures
            ({
                let (i, pool) = VM::pool_insert(old(self).vm@.constants, value@);
                &&& idx == i
                &&& final(self).vm@ == (VmState { constants: pool, ..old(self).vm@ })
            }),
            final(self).decls() == old(self).decls(),
    {
        self.vm.write_constant(value)
    }
}

/// Law: a range loop compiles exactly as the manually written form it
/// desugars to — initialize the variable from the start expression, then
/// the while-loop that tests `var < end` and steps `var` after the body.
pub proof fn lemma_range_desugaring(
    v: Seq<char>,
    lo: ExprV,
    hi: ExprV,
    stp: ExprV,
    body: StmtV,
    st: CState,
)
    ensures
        c_stmt(StmtV::Range(v, lo, hi, stp, Box::new(body)), st) == ({
            let st1 = c_expr(lo, st);
            let st2 = CState { code: st1.code.push(Op::SetGlobal(v)), ..st1 };
            c_stmt(range_desugared(v, hi, stp, body), st2)
        }),
{
}

/// Well-formedness of a compilation state: every jump target stays
/// within (or just past) its own unit, and constant indices point into
/// the pool, for the code under construction and for every registered
/// procedure.
pub open spec fn cstate_wf(st: CState) -> bool {
    &&& crate::vm::code_wf(st.code, st.pool.len())
    &&& forall|k: Seq<char>|
        st.procs.contains_key(k) ==> crate::vm::code_wf(#[trigger] st.procs[k], st.pool.len())
}

proof fn lemma_code_wf_mono(code: Seq<Op>, n1: nat, n2: nat)
    requires
        crate::vm::code_wf(code, n1),
        n1 <= n2,
    ensures
        crate::vm::code_wf(code, n2),
{
    assert forall|i: int| 0 <= i < code.len() implies crate::vm::op_wf(
        #[trigger] code[i],
        code.len(),
        n2,
    ) by {
        assert(crate::vm::op_wf(code[i], code.len(), n1));
    }
}

proof fn lemma_code_wf_push(code: Seq<Op>, n: nat, o: Op)
    requires
        crate::vm::code_wf(code, n),
        crate::vm::op_wf(o, code.len() + 1, n),
    ensures
        crate::vm::code_wf(code.push(o), n),
{
    let c2 = code.push(o);
    assert forall|i: int| 0 <= i < c2.len() implies crate::vm::op_wf(
        #[trigger] c2[i],
        c2.len(),
        n,
    ) by {
        if i < code.len() {
            assert(crate::vm::op_wf(code[i], code.len(), n));
            match code[i] {
                Op::Jump(t) => {},
                Op::JumpIfFalse(t) => {},
                _ => {},
            }
        }
    }
}

proof fn lemma_code_wf_patch(code: Seq<Op>, n: nat, j: int, o: Op)
    requires
        crate::vm::code_wf(code, n),
        0 <= j < code.len(),
        crate::vm::op_wf(o, code.len(), n),
    ensures
        crate::vm::code_wf(code.update(j, o), n),
{
    let c2 = code.update(j, o);
    assert forall|i: int| 0 <= i < c2.len() implies crate::vm::op_wf(
        #[trigger] c2[i],
        c2.len(),
        n,
    ) by {
        if i != j {
            assert(c2[i] == code[i]);
            assert(crate::vm::op_wf(code[i], code.len(), n));
        }
    }
}

proof fn lemma_pool_insert_grows(pool: Seq<Val>, v: Val)
    ensures
        pool.len() <= VM::pool_insert(pool, v).1.len(),
        VM::pool_insert(pool, v).0 < VM::pool_insert(pool, v).1.len(),
{
    crate::vm::lemma_constant_dedup(pool, v);
}

proof fn lemma_procs_wf_mono(st: CState, n2: nat)
    requires
        cstate_wf(st),
        st.pool.len() <= n2,
    ensures
        forall|k: Seq<char>|
            st.procs.contains_key(k) ==> crate::vm::code_wf(#[trigger] st.procs[k], n2),
{
    assert forall|k: Seq<char>| st.procs.contains_key(k) implies crate::vm::code_wf(
        #[trigger] st.procs[k],
        n2,
    ) by {
        lemma_code_wf_mono(st.procs[k], st.pool.len(), n2);
    }
}

/// Law: compiling an expression preserves compilation-state
/// well-formedness; the pool only grows.
pub proof fn lemma_c_expr_wf(e: ExprV, st: CState)
    requires
        cstate_wf(st),
    ensures
        cstate_wf(c_expr(e, st)),
        st.pool.len() <= c_expr(e, st).pool.len(),
        c_expr(e, st).procs == st.procs,
    decreases esize(e),
{
    match e {
        ExprV::Number(n) => {
            lemma_pool_insert_grows(st.pool, Val::Num(n));
            lemma_code_wf_mono(st.code, st.pool.len(), VM::pool_insert(st.pool, Val::Num(n)).1.len());
            lemma_code_wf_push(
                st.code,
                VM::pool_insert(st.pool, Val::Num(n)).1.len(),
                Op::Constant(VM::pool_insert(st.pool, Val::Num(n)).0),
            );
            lemma_procs_wf_mono(st, VM::pool_insert(st.pool, Val::Num(n)).1.len());
        },
        ExprV::Text(t) => {
            lemma_pool_insert_grows(st.pool, Val::Text(t));
            lemma_code_wf_mono(st.code, st.pool.len(), VM::pool_insert(st.pool, Val::Text(t)).1.len());
            lemma_code_wf_push(
                st.code,
                VM::pool_insert(st.pool, Val::Text(t)).1.len(),
                Op::Constant(VM::pool_insert(st.pool, Val::Text(t)).0),
            );
            lemma_procs_wf_mono(st, VM::pool_insert(st.pool, Val::Text(t)).1.len());
        },
        ExprV::Boolean(b) => {
            lemma_pool_insert_grows(st.pool, Val::Bool(b));
            lemma_code_wf_mono(st.code, st.pool.len(), VM::pool_insert(st.pool, Val::Bool(b)).1.len());
            lemma_code_wf_push(
                st.code,
                VM::pool_insert(st.pool, Val::Bool(b)).1.len(),
                Op::Constant(VM::pool_insert(st.pool, Val::Bool(b)).0),
            );
            lemma_procs_wf_mono(st, VM::pool_insert(st.pool, Val::Bool(b)).1.len());
        },
        ExprV::Void => {},
        ExprV::Variable(name) => {
            lemma_code_wf_push(st.code, st.pool.len(), Op::GetGlobal(name));
        },
        ExprV::Unary(op, a) => {
            lemma_c_expr_wf(*a, st);
            let st1 = c_expr(*a, st);
            lemma_code_wf_push(st1.code, st1.pool.len(), unary_opcode(op));
        },
        ExprV::Binary(op, a, b) => {
            lemma_c_expr_wf(*a, st);
            let st1 = c_expr(*a, st);
            lemma_c_expr_wf(*b, st1);
            let st2 = c_expr(*b, st1);
            lemma_code_wf_push(st2.code, st2.pool.len(), binary_opcode(op));
        },
        ExprV::Logical(op, a, b) => {
            lemma_c_expr_wf(*a, st);
            let st1 = c_expr(*a, st);
            lemma_c_expr_wf(*b, st1);
            let st2 = c_expr(*b, st1);
            lemma_code_wf_push(st2.code, st2.pool.len(), logical_opcode(op));
        },
    }
}

/// Law: compiling a statement preserves compilation-state
/// well-formedness; in particular every patched jump target lands within
/// the emitted code, and a registered procedure's own jump targets stay
/// within the procedure.
pub proof fn lemma_c_stmt_wf(s: StmtV, st: CState)
    requires
        cstate_wf(st),
    ensures
        cstate_wf(c_stmt(s, st)),
        st.pool.len() <= c_stmt(s, st).pool.len(),
    decreases ssize(s),
{
    match s {
        StmtV::Print(e) => {
            lemma_c_expr_wf(e, st);
            let st1 = c_expr(e, st);
            lemma_code_wf_push(st1.code, st1.pool.len(), Op::Print);
        },
        StmtV::Expression(e) => {
            lemma_c_expr_wf(e, st);
            let st1 = c_expr(e, st);
            lemma_code_wf_push(st1.code, st1.pool.len(), Op::Pop);
        },
        StmtV::Block(ds) => {
            lemma_c_decls_wf(ds, st);
        },
        StmtV::If(c, t, els) => {
            lemma_c_expr_wf(c, st);
            let st1 = c_expr(c, st);
            let jf = st1.code.len();
            lemma_code_wf_push(st1.code, st1.pool.len(), Op::JumpIfFalse(0));
            let st2 = CState { code: st1.code.push(Op::JumpIfFalse(0)), ..st1 };
            lemma_c_stmt_wf(*t, st2);
            lemma_c_stmt_grows(*t, st2);
            let st3 = c_stmt(*t, st2);
            match els {
                None => {
                    lemma_code_wf_patch(
                        st3.code,
                        st3.pool.len(),
                        jf as int,
                        Op::JumpIfFalse(st3.code.len()),
                    );
                },
                Some(e2) => {
                    let je = st3.code.len();
                    lemma_code_wf_push(st3.code, st3.pool.len(), Op::Jump(0));
                    let st4 = CState { code: st3.code.push(Op::Jump(0)), ..st3 };
                    lemma_c_stmt_wf(*e2, st4);
                    lemma_c_stmt_grows(*e2, st4);
                    let st5 = c_stmt(*e2, st4);
                    lemma_code_wf_patch(
                        st5.code,
                        st5.pool.len(),
                        jf as int,
                        Op::JumpIfFalse(je + 1),
                    );
                    lemma_code_wf_patch(
                        st5.code.update(jf as int, Op::JumpIfFalse(je + 1)),
                        st5.pool.len(),
                        je as int,
                        Op::Jump(st5.code.len()),
                    );
                },
            }
        },
        StmtV::While(c, b) => {
            let start = st.code.len();
            lemma_c_expr_wf(c, st);
            lemma_c_expr_grows(c, st);
            let st1 = c_expr(c, st);
            let jf = st1.code.len();
            lemma_code_wf_push(st1.code, st1.pool.len(), Op::JumpIfFalse(0));
            let st2 = CState { code: st1.code.push(Op::JumpIfFalse(0)), ..st1 };
            lemma_c_stmt_wf(*b, st2);
            lemma_c_stmt_grows(*b, st2);
            let st3 = c_stmt(*b, st2);
            lemma_code_wf_push(st3.code, st3.pool.len(), Op::Jump(start));
            let st4 = CState { code: st3.code.push(Op::Jump(start)), ..st3 };
            lemma_code_wf_patch(
                st4.code,
                st4.pool.len(),
                jf as int,
                Op::JumpIfFalse(st4.code.len()),
            );
        },
        StmtV::Range(v, lo, hi, stp, b) => {
            lemma_range_measure(v, lo, hi, stp, *b);
            lemma_c_expr_wf(lo, st);
            let st1 = c_expr(lo, st);
            lemma_code_wf_push(st1.code, st1.pool.len(), Op::SetGlobal(v));
            let st2 = CState { code: st1.code.push(Op::SetGlobal(v)), ..st1 };
            lemma_c_stmt_wf(range_desugared(v, hi, stp, *b), st2);
        },
        StmtV::Procedure(name, body) => {
            let fresh = CState { code: Seq::<Op>::empty(), pool: st.pool, procs: st.procs };
            assert(crate::vm::code_wf(fresh.code, fresh.pool.len()));
            lemma_c_decls_wf(body, fresh);
            let sub = c_decls(body, fresh);
            let res = CState { code: st.code, pool: sub.pool, procs: sub.procs.insert(name, sub.code) };
            lemma_code_wf_mono(st.code, st.pool.len(), sub.pool.len());
            assert forall|k: Seq<char>| res.procs.contains_key(k) implies crate::vm::code_wf(
                #[trigger] res.procs[k],
                res.pool.len(),
            ) by {
                if k == name {
                    assert(res.procs[k] == sub.code);
                } else {
                    assert(res.procs[k] == sub.procs[k]);
                }
            }
        },
        StmtV::ProcedureCall(name) => {
            lemma_code_wf_push(st.code, st.pool.len(), Op::ProcedureCall(name));
        },
    }
}

/// Law: compiling one declaration preserves compilation-state
/// well-formedness.
pub proof fn lemma_c_decl_wf(d: DeclV, st: CState)
    requires
        cstate_wf(st),
    ensures
        cstate_wf(c_decl(d, st)),
        st.pool.len() <= c_decl(d, st).pool.len(),
    decreases dsize(d),
{
    match d {
        DeclV::Variable(name, e) => {
            lemma_c_expr_wf(e, st);
            let st1 = c_expr(e, st);
            lemma_code_wf_push(st1.code, st1.pool.len(), Op::SetGlobal(name));
        },
        DeclV::Statement(s2) => {
            lemma_c_stmt_wf(s2, st);
        },
    }
}

/// Law: compiling a declaration list preserves compilation-state
/// well-formedness, so a freshly compiled machine is well formed and the
/// engine can run it: constant indices stay valid across nested units,
/// and every procedure's jump targets are relative to its own start.
pub proof fn lemma_c_decls_wf(ds: Seq<DeclV>, st: CState)
    requires
        cstate_wf(st),
    ensures
        cstate_wf(c_decls(ds, st)),
        st.pool.len() <= c_decls(ds, st).pool.len(),
    decreases dssize(ds) + 1,
{
    if ds.len() > 0 {
        lemma_dssize_elem(ds, 0);
        assert(dssize(ds) == dsize(ds[0]) + dssize(ds.subrange(1, ds.len() as int)));
        lemma_c_decl_wf(ds[0], st);
        lemma_c_decls_wf(ds.subrange(1, ds.len() as int), c_decl(ds[0], st));
    }
}

/// Law: a freshly created machine compiled from any tree is well formed,
/// so `execute` accepts it.
pub proof fn lemma_compiled_machine_wf(ds: Seq<DeclV>, s: VmState)
    requires
        crate::vm::state_wf(s),
        cstate_wf(cstate_of(s)),
        s.ip == 0,
    ensures
        ({
            let c2 = c_decls(ds, cstate_of(s));
            crate::vm::state_wf(
                VmState { code: c2.code, constants: c2.pool, procedures: c2.procs, ..s },
            )
        }),
{
    lemma_c_decls_wf(ds, cstate_of(s));
}

} // verus!
