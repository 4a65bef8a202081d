//! The execution engine: a flat instruction sequence, a deduplicated
//! constant pool, a flat global environment, a named-procedure table and an
//! operand stack, driven by a fetch-execute loop.  Procedure invocation
//! splices a relocated copy of the callee's instructions into the program
//! in place of the call instruction.
//!
//! `spec_step` is the mathematical small-step machine; the executable
//! `step` is proved to follow it, and `execute` to iterate it.

use vstd::prelude::*;

use crate::value::{dec_of_i64, fmt_val, truthy, Val, Value};

verus! {

/// Mathematical mirror of an instruction.  Jump targets are absolute
/// indices into the instruction sequence.
pub enum Op {
    Constant(nat),
    Print,
    GetGlobal(Seq<char>),
    SetGlobal(Seq<char>),
    Add,
    Subtract,
    Multiply,
    Divide,
    Negate,
    Not,
    Equal,
    NotEqual,
    Greater,
    GreaterEqual,
    Less,
    LessEqual,
    And,
    Or,
    JumpIfFalse(nat),
    Jump(nat),
    ProcedureCall(Seq<char>),
    Pop,
    // Economy extension
    Cost(i64),
    Gamble,
}

/// An instruction as the engine holds it.
#[derive(Debug)]
pub enum OpCode {
    Constant(usize),
    Print,
    GetGlobal(String),
    SetGlobal(String),
    Add,
    Subtract,
    Multiply,
    Divide,
    Negate,
    Not,
    Equal,
    NotEqual,
    Greater,
    GreaterEqual,
    Less,
    LessEqual,
    And,
    Or,
    JumpIfFalse(usize),
    Jump(usize),
    ProcedureCall(String),
    Pop,
    // Economy extension
    Cost(i64),
    Gamble,
}

impl View for OpCode {
    type V = Op;

    open spec fn view(&self) -> Op {
        match self {
            OpCode::Constant(i) => Op::Constant(*i as nat),
            OpCode::Print => Op::Print,
            OpCode::GetGlobal(n) => Op::GetGlobal(n@),
            OpCode::SetGlobal(n) => Op::SetGlobal(n@),
            OpCode::Add => Op::Add,
            OpCode::Subtract => Op::Subtract,
            OpCode::Multiply => Op::Multiply,
            OpCode::Divide => Op::Divide,
            OpCode::Negate => Op::Negate,
            OpCode::Not => Op::Not,
            OpCode::Equal => Op::Equal,
            OpCode::NotEqual => Op::NotEqual,
            OpCode::Greater => Op::Greater,
            OpCode::GreaterEqual => Op::GreaterEqual,
            OpCode::Less => Op::Less,
            OpCode::LessEqual => Op::LessEqual,
            OpCode::And => Op::And,
            OpCode::Or => Op::Or,
            OpCode::JumpIfFalse(t) => Op::JumpIfFalse(*t as nat),
            OpCode::Jump(t) => Op::Jump(*t as nat),
            OpCode::ProcedureCall(n) => Op::ProcedureCall(n@),
            OpCode::Pop => Op::Pop,
            OpCode::Cost(a) => Op::Cost(*a),
            OpCode::Gamble => Op::Gamble,
        }
    }
}

impl DeepView for OpCode {
    type V = Op;

    open spec fn deep_view(&self) -> Op {
        self.view()
    }
}

impl Clone for OpCode {
    fn clone(&self) -> (r: OpCode)
        ensures
            r@ == self@,
    {
        match self {
            OpCode::Constant(i) => OpCode::Constant(*i),
            OpCode::Print => OpCode::Print,
            OpCode::GetGlobal(n) => OpCode::GetGlobal(n.clone()),
            OpCode::SetGlobal(n) => OpCode::SetGlobal(n.clone()),
            OpCode::Add => OpCode::Add,
            OpCode::Subtract => OpCode::Subtract,
            OpCode::Multiply => OpCode::Multiply,
            OpCode::Divide => OpCode::Divide,
            OpCode::Negate => OpCode::Negate,
            OpCode::Not => OpCode::Not,
            OpCode::Equal => OpCode::Equal,
            OpCode::NotEqual => OpCode::NotEqual,
            OpCode::Greater => OpCode::Greater,
            OpCode::GreaterEqual => OpCode::GreaterEqual,
            OpCode::Less => OpCode::Less,
            OpCode::LessEqual => OpCode::LessEqual,
            OpCode::And => OpCode::And,
            OpCode::Or => OpCode::Or,
            OpCode::JumpIfFalse(t) => OpCode::JumpIfFalse(*t),
            OpCode::Jump(t) => OpCode::Jump(*t),
            OpCode::ProcedureCall(n) => OpCode::ProcedureCall(n.clone()),
            OpCode::Pop => OpCode::Pop,
            OpCode::Cost(a) => OpCode::Cost(*a),
            OpCode::Gamble => OpCode::Gamble,
        }
    }
}

/// Mathematical mirror of a runtime failure.
pub enum ErrV {
    UndefinedVariable(Seq<char>),
    UnknownProcedure(Seq<char>),
    TypeMismatch,
    StackUnderflow,
    InsufficientFunds,
}

/// A runtime failure: execution has no recovery path, so `execute`
/// surfaces the first failure as a typed error and stops.
#[derive(Debug)]
pub enum RuntimeError {
    /// A read of a name that no write ever bound.
    UndefinedVariable(String),
    /// A call to a procedure name that was never registered.
    UnknownProcedure(String),
    /// An operator applied to operand kinds it does not accept.
    TypeMismatch,
    /// A pop from an empty operand stack; well-formed compiled code never
    /// produces this.
    StackUnderflow,
    /// The engine-maintained balance was exhausted.
    InsufficientFunds,
}

impl View for RuntimeError {
    type V = ErrV;

    open spec fn view(&self) -> ErrV {
        match self {
            RuntimeError::UndefinedVariable(n) => ErrV::UndefinedVariable(n@),
            RuntimeError::UnknownProcedure(n) => ErrV::UnknownProcedure(n@),
            RuntimeError::TypeMismatch => ErrV::TypeMismatch,
            RuntimeError::StackUnderflow => ErrV::StackUnderflow,
            RuntimeError::InsufficientFunds => ErrV::InsufficientFunds,
        }
    }
}

/// Mathematical mirror of the whole machine.
pub struct VmState {
    pub code: Seq<Op>,
    pub constants: Seq<Val>,
    pub globals: Map<Seq<char>, Val>,
    pub procedures: Map<Seq<char>, Seq<Op>>,
    pub stack: Seq<Val>,
    pub ip: nat,
    pub output: Seq<Seq<char>>,
    pub balance: i64,
    pub debt: i64,
    pub won_last_gamble: bool,
}

/// The map a name-to-value list stands for; a later entry for the same
/// name wins.
pub open spec fn globals_map(entries: Seq<(String, Value)>) -> Map<Seq<char>, Val>
    decreases entries.len(),
{
    if entries.len() == 0 {
        Map::<Seq<char>, Val>::empty()
    } else {
        globals_map(entries.drop_last()).insert(entries.last().0@, entries.last().1@)
    }
}

/// The map a name-to-code list stands for; a later entry for the same
/// name wins.
pub open spec fn procs_map(entries: Seq<(String, Vec<OpCode>)>) -> Map<Seq<char>, Seq<Op>>
    decreases entries.len(),
{
    if entries.len() == 0 {
        Map::<Seq<char>, Seq<Op>>::empty()
    } else {
        procs_map(entries.drop_last()).insert(entries.last().0@, entries.last().1.deep_view())
    }
}

/// Backward lookup in a name-to-value list.
pub open spec fn assoc_lookup(entries: Seq<(String, Value)>, k: Seq<char>) -> Option<Val>
    decreases entries.len(),
{
    if entries.len() == 0 {
        None
    } else if entries.last().0@ == k {
        Some(entries.last().1@)
    } else {
        assoc_lookup(entries.drop_last(), k)
    }
}

/// Backward lookup in a name-to-code list, returning the entry index.
pub open spec fn assoc_lookup_proc(entries: Seq<(String, Vec<OpCode>)>, k: Seq<char>) -> Option<
    int,
>
    decreases entries.len(),
{
    if entries.len() == 0 {
        None
    } else if entries.last().0@ == k {
        Some(entries.len() - 1)
    } else {
        assoc_lookup_proc(entries.drop_last(), k)
    }
}

proof fn lemma_assoc_lookup_is_map(entries: Seq<(String, Value)>, k: Seq<char>)
    ensures
        match assoc_lookup(entries, k) {
            Some(v) => globals_map(entries).contains_key(k) && globals_map(entries)[k] == v,
            None => !globals_map(entries).contains_key(k),
        },
    decreases entries.len(),
{
    if entries.len() > 0 {
        lemma_assoc_lookup_is_map(entries.drop_last(), k);
    }
}

proof fn lemma_assoc_lookup_proc_is_map(entries: Seq<(String, Vec<OpCode>)>, k: Seq<char>)
    ensures
        match assoc_lookup_proc(entries, k) {
            Some(i) => {
                &&& procs_map(entries).contains_key(k)
                &&& 0 <= i < entries.len()
                &&& entries[i].0@ == k
                &&& procs_map(entries)[k] == entries[i].1.deep_view()
            },
            None => !procs_map(entries).contains_key(k),
        },
    decreases entries.len(),
{
    if entries.len() > 0 {
        lemma_assoc_lookup_proc_is_map(entries.drop_last(), k);
    }
}

/// Whether an instruction's immediate fits the machine it runs in: constant
/// indices point into the pool and jump targets stay within (or just past)
/// the code.
pub open spec fn op_wf(o: Op, code_len: nat, n_consts: nat) -> bool {
    match o {
        Op::Constant(i) => i < n_consts,
        Op::Jump(t) => t <= code_len,
        Op::JumpIfFalse(t) => t <= code_len,
        _ => true,
    }
}

pub open spec fn code_wf(code: Seq<Op>, n_consts: nat) -> bool {
    forall|i: int| 0 <= i < code.len() ==> op_wf(#[trigger] code[i], code.len(), n_consts)
}

/// The machine invariant that `execute` requires and every step preserves:
/// the program and every registered procedure are well formed against the
/// constant pool, and the instruction pointer is within or just past the
/// program.
pub open spec fn state_wf(s: VmState) -> bool {
    &&& code_wf(s.code, s.constants.len())
    &&& forall|k: Seq<char>|
        s.procedures.contains_key(k) ==> code_wf(#[trigger] s.procedures[k], s.constants.len())
    &&& s.ip <= s.code.len()
}

pub struct VM {
    code: Vec<OpCode>,
    constants: Vec<Value>,
    globals: Vec<(String, Value)>,
    procedures: Vec<(String, Vec<OpCode>)>,
    stack: Vec<Value>,
    ip: usize,
    output: Vec<String>,
    // Economy extension
    balance: i64,
    debt: i64,
    won_last_gamble: bool,
}

impl View for VM {
    type V = VmState;

    closed spec fn view(&self) -> VmState {
        VmState {
            code: self.code.deep_view(),
            constants: self.constants.deep_view(),
            globals: globals_map(self.globals@),
            procedures: procs_map(self.procedures@),
            stack: self.stack.deep_view(),
            ip: self.ip as nat,
            output: self.output.deep_view(),
            balance: self.balance,
            debt: self.debt,
            won_last_gamble: self.won_last_gamble,
        }
    }
}

impl VM {
    /// A fresh machine: everything empty, the balance at its starting
    /// stake.
    pub fn new() -> (r: VM)
        ensures
            r@ == (VmState {
                code: Seq::<Op>::empty(),
                constants: Seq::<Val>::empty(),
                globals: Map::<Seq<char>, Val>::empty(),
                procedures: Map::<Seq<char>, Seq<Op>>::empty(),
                stack: Seq::<Val>::empty(),
                ip: 0,
                output: Seq::<Seq<char>>::empty(),
                balance: 100,
                debt: 0,
                won_last_gamble: false,
            }),
            state_wf(r@),
    {
        let r = VM {
            code: Vec::new(),
            constants: Vec::new(),
            globals: Vec::new(),
            procedures: Vec::new(),
            stack: Vec::new(),
            ip: 0,
            output: Vec::new(),
            balance: 100,
            debt: 0,
            won_last_gamble: false,
        };
        proof {
            assert(r@.code =~= Seq::<Op>::empty());
            assert(r@.constants =~= Seq::<Val>::empty());
            assert(r@.stack =~= Seq::<Val>::empty());
            assert(r@.output =~= Seq::<Seq<char>>::empty());
        }
        r
    }

    /// Appends one instruction and returns its index.
    pub fn write_op(&mut self, op: OpCode) -> (idx: usize)
        ensures
            final(self)@ == (VmState { code: old(self)@.code.push(op@), ..old(self)@ }),
            idx == old(self)@.code.len(),
    {
        let idx = self.code.len();
        self.code.push(op);
        proof {
            assert(self@.code =~= old(self)@.code.push(op@));
        }
        idx
    }

    /// First index at or after `i` holding a value equal to `v`, or the
    /// pool length if there is none.
    pub open spec fn pool_find(pool: Seq<Val>, v: Val, i: nat) -> nat
        decreases pool.len() - i,
    {
        if i >= pool.len() {
            pool.len()
        } else if pool[i as int] == v {
            i
        } else {
            Self::pool_find(pool, v, i + 1)
        }
    }

    /// Where `write_constant` puts a value, and the pool it leaves behind:
    /// an existing equal entry is reused, otherwise the value is appended.
    pub open spec fn pool_insert(pool: Seq<Val>, v: Val) -> (nat, Seq<Val>) {
        let i = Self::pool_find(pool, v, 0);
        if i < pool.len() {
            (i, pool)
        } else {
            (i, pool.push(v))
        }
    }

    /// Interns a value in the constant pool and returns its index; a value
    /// already present is not added again.
    pub fn write_constant(&mut self, value: Value) -> (idx: usize)
        ensures
            ({
                let (i, pool) = Self::pool_insert(old(self)@.constants, value@);
                &&& idx == i
                &&& final(self)@ == (VmState { constants: pool, ..old(self)@ })
            }),
            idx <= old(self)@.constants.len(),
            final(self)@.constants[idx as int] == value@,
    {
        let ghost pool = self@.constants;
        let mut i: usize = 0;
        while i < self.constants.len()
            invariant
                i <= self.constants.len(),
                self == old(self),
                pool == self@.constants,
                Self::pool_find(pool, value@, 0) == Self::pool_find(pool, value@, i as nat),
            decreases self.constants.len() - i,
        {
            if self.constants[i].equals(&value) {
                return i;
            }
            i = i + 1;
        }
        self.constants.push(value);
        proof {
            assert(self@.constants =~= pool.push(value@));
        }
        i
    }

    /// Registers a compiled procedure under its name; a procedure's jump
    /// targets are relative to its own start.
    pub fn write_procedure(&mut self, name: String, code: Vec<OpCode>)
        ensures
            final(self)@ == (VmState {
                procedures: old(self)@.procedures.insert(name@, code.deep_view()),
                ..old(self)@
            }),
    {
        self.procedures.push((name, code));
        proof {
            assert(self.procedures@.drop_last() =~= old(self).procedures@);
        }
    }

    /// The number of instructions in the program.
    pub fn code_len(&self) -> (r: usize)
        ensures
            r == self@.code.len(),
    {
        self.code.len()
    }

    /// Overwrites the instruction at `idx`; the compiler patches jump
    /// placeholders this way.
    pub fn patch_op(&mut self, idx: usize, op: OpCode)
        requires
            idx < old(self)@.code.len(),
        ensures
            final(self)@ == (VmState {
                code: old(self)@.code.update(idx as int, op@),
                ..old(self)@
            }),
    {
        self.code[idx] = op;
        proof {
            assert(self@.code =~= old(self)@.code.update(idx as int, op@));
        }
    }

    /// Swaps the program with another instruction buffer; nested
    /// compilation units are compiled into a fresh buffer this way while
    /// sharing everything else.
    pub fn swap_code(&mut self, buf: &mut Vec<OpCode>)
        ensures
            final(self)@ == (VmState { code: old(buf).deep_view(), ..old(self)@ }),
            final(buf).deep_view() == old(self)@.code,
    {
        core::mem::swap(&mut self.code, buf);
    }

    /// The number of values interned in the constant pool.
    pub fn constants_len(&self) -> (r: usize)
        ensures
            r == self@.constants.len(),
    {
        self.constants.len()
    }

    /// Reads a constant by index.
    pub fn read_constant(&self, index: usize) -> (r: Value)
        requires
            index < self@.constants.len(),
        ensures
            r@ == self@.constants[index as int],
    {
        self.constants[index].clone()
    }

    /// The lines printed so far, in order.
    pub fn output(&self) -> (r: &Vec<String>)
        ensures
            r.deep_view() == self@.output,
    {
        &self.output
    }

    /// Looks a global up by name, the engine-maintained counters aside.
    fn get_global(&self, name: &String) -> (r: Option<&Value>)
        ensures
            match r {
                Some(v) => self@.globals.contains_key(name@) && v@ == self@.globals[name@],
                None => !self@.globals.contains_key(name@),
            },
    {
        proof {
            lemma_assoc_lookup_is_map(self.globals@, name@);
            assert(self.globals@.take(self.globals@.len() as int) =~= self.globals@);
        }
        let mut i: usize = self.globals.len();
        while i > 0
            invariant
                i <= self.globals.len(),
                assoc_lookup(self.globals@, name@) == assoc_lookup(
                    self.globals@.take(i as int),
                    name@,
                ),
            decreases i,
        {
            i = i - 1;
            proof {
                assert(self.globals@.take(i + 1 as int).drop_last() =~= self.globals@.take(
                    i as int,
                ));
                assert(self.globals@.take(i + 1 as int).last() == self.globals@[i as int]);
            }
            if self.globals[i].0 == *name {
                proof {
                    lemma_assoc_lookup_is_map(self.globals@, name@);
                    assert(self.globals@.take(i + 1 as int).last().0@ == name@);
                    assert(assoc_lookup(self.globals@.take(i + 1 as int), name@) == Some(
                        self.globals@[i as int].1@,
                    ));
                    assert(assoc_lookup(self.globals@, name@) == Some(
                        self.globals@[i as int].1@,
                    ));
                }
                return Some(&self.globals[i].1);
            }
        }
        proof {
            lemma_assoc_lookup_is_map(self.globals@, name@);
            assert(self.globals@.take(0) =~= Seq::<(String, Value)>::empty());
        }
        None
    }

    /// Binds a name in the global environment, overwriting any previous
    /// binding.
    fn set_global(&mut self, name: String, value: Value)
        ensures
            final(self)@ == (VmState {
                globals: old(self)@.globals.insert(name@, value@),
                ..old(self)@
            }),
    {
        self.globals.push((name, value));
        proof {
            assert(self.globals@.drop_last() =~= old(self).globals@);
        }
    }

    /// Finds a registered procedure by name, returning its table index.
    fn find_procedure(&self, name: &String) -> (r: Option<usize>)
        ensures
            match r {
                Some(i) => {
                    &&& self@.procedures.contains_key(name@)
                    &&& i < self.procedures@.len()
                    &&& self.procedures@[i as int].1.deep_view() == self@.procedures[name@]
                },
                None => !self@.procedures.contains_key(name@),
            },
    {
        proof {
            lemma_assoc_lookup_proc_is_map(self.procedures@, name@);
            assert(self.procedures@.take(self.procedures@.len() as int) =~= self.procedures@);
        }
        let mut i: usize = self.procedures.len();
        while i > 0
            invariant
                i <= self.procedures.len(),
                assoc_lookup_proc(self.procedures@, name@) == assoc_lookup_proc(
                    self.procedures@.take(i as int),
                    name@,
                ),
                forall|j: int|
                    i <= j < self.procedures@.len() ==> (#[trigger] self.procedures@[j].0@)
                        != name@,
            decreases i,
        {
            i = i - 1;
            proof {
                assert(self.procedures@.take(i + 1 as int).drop_last() =~= self.procedures@.take(
                    i as int,
                ));
                assert(self.procedures@.take(i + 1 as int).last() == self.procedures@[i as int]);
            }
            if self.procedures[i].0 == *name {
                proof {
                    lemma_assoc_lookup_proc_is_map(self.procedures@, name@);
                    assert(self.procedures@.take(i + 1 as int).last().0@ == name@);
                    assert(assoc_lookup_proc(self.procedures@.take(i + 1 as int), name@) == Some(
                        i as int,
                    ));
                    assert(assoc_lookup_proc(self.procedures@, name@) == Some(i as int));
                }
                return Some(i);
            }
        }
        proof {
            lemma_assoc_lookup_proc_is_map(self.procedures@, name@);
            assert(self.procedures@.take(0) =~= Seq::<(String, Vec<OpCode>)>::empty());
        }
        None
    }
}

/// Wrapped 64-bit addition: the numeric model of `+`.
pub open spec fn num_add(x: i64, y: i64) -> i64 {
    vstd::wrapping::i64_specs::wrapping_add(x, y)
}

/// Wrapped 64-bit subtraction: the numeric model of `-`.
pub open spec fn num_sub(x: i64, y: i64) -> i64 {
    vstd::wrapping::i64_specs::wrapping_sub(x, y)
}

/// Wrapped 64-bit multiplication: the numeric model of `*`.
pub open spec fn num_mul(x: i64, y: i64) -> i64 {
    vstd::wrapping::i64_specs::wrapping_mul(x, y)
}

/// Division in the numeric model: truncated quotient; a zero divisor
/// yields zero (division never faults), and the one overflowing quotient
/// wraps to itself.
pub open spec fn num_div(x: i64, y: i64) -> i64 {
    if y == 0 {
        0
    } else {
        match x.checked_div(y) {
            Some(q) => q,
            None => i64::MIN,
        }
    }
}

/// Arithmetic negation in the numeric model.
pub open spec fn num_neg(x: i64) -> i64 {
    num_sub(0, x)
}

/// What `+` yields: numbers add; if either operand is text and the other
/// is text or a number, their display forms concatenate; anything else is
/// a type mismatch.
pub open spec fn add_vals(a: Val, b: Val) -> Option<Val> {
    match (a, b) {
        (Val::Num(x), Val::Num(y)) => Some(Val::Num(num_add(x, y))),
        (Val::Text(x), Val::Text(y)) => Some(Val::Text(x + y)),
        (Val::Text(x), Val::Num(y)) => Some(Val::Text(x + dec_of_i64(y))),
        (Val::Num(x), Val::Text(y)) => Some(Val::Text(dec_of_i64(x) + y)),
        _ => None,
    }
}

/// Whether an instruction is a binary operator.
pub open spec fn is_binop(o: Op) -> bool {
    match o {
        Op::Add | Op::Subtract | Op::Multiply | Op::Divide | Op::Equal | Op::NotEqual
            | Op::Greater | Op::GreaterEqual | Op::Less | Op::LessEqual | Op::And | Op::Or => true,
        _ => false,
    }
}

/// What a binary operator yields on two operands, `a` the first-pushed
/// (left) operand: `None` is a type mismatch.  Equality and the logical
/// operators are total; the orderings and the remaining arithmetic demand
/// two numbers.
pub open spec fn binop_vals(o: Op, a: Val, b: Val) -> Option<Val> {
    match o {
        Op::Add => add_vals(a, b),
        Op::Subtract => match (a, b) {
            (Val::Num(x), Val::Num(y)) => Some(Val::Num(num_sub(x, y))),
            _ => None,
        },
        Op::Multiply => match (a, b) {
            (Val::Num(x), Val::Num(y)) => Some(Val::Num(num_mul(x, y))),
            _ => None,
        },
        Op::Divide => match (a, b) {
            (Val::Num(x), Val::Num(y)) => Some(Val::Num(num_div(x, y))),
            _ => None,
        },
        Op::Equal => Some(Val::Bool(a == b)),
        Op::NotEqual => Some(Val::Bool(a != b)),
        Op::Greater => match (a, b) {
            (Val::Num(x), Val::Num(y)) => Some(Val::Bool(x > y)),
            _ => None,
        },
        Op::GreaterEqual => match (a, b) {
            (Val::Num(x), Val::Num(y)) => Some(Val::Bool(x >= y)),
            _ => None,
        },
        Op::Less => match (a, b) {
            (Val::Num(x), Val::Num(y)) => Some(Val::Bool(x < y)),
            _ => None,
        },
        Op::LessEqual => match (a, b) {
            (Val::Num(x), Val::Num(y)) => Some(Val::Bool(x <= y)),
            _ => None,
        },
        Op::And => Some(Val::Bool(truthy(a) && truthy(b))),
        Op::Or => Some(Val::Bool(truthy(a) || truthy(b))),
        _ => None,
    }
}

/// Relocation of an instruction spliced out of a procedure body: its jump
/// targets, relative to the body's start, shift to the splice site.
pub open spec fn reloc_inner(o: Op, ip: nat) -> Op {
    match o {
        Op::Jump(t) => Op::Jump((t + ip) as nat),
        Op::JumpIfFalse(t) => Op::JumpIfFalse((t + ip) as nat),
        _ => o,
    }
}

/// Relocation of an instruction that survives a splice: a jump target
/// strictly past the splice site shifts by the callee's length less the
/// one replaced call instruction.
pub open spec fn reloc_outer(o: Op, ip: nat, plen: nat) -> Op {
    match o {
        Op::Jump(t) => if t > ip {
            Op::Jump((t + plen - 1) as nat)
        } else {
            o
        },
        Op::JumpIfFalse(t) => if t > ip {
            Op::JumpIfFalse((t + plen - 1) as nat)
        } else {
            o
        },
        _ => o,
    }
}

/// The program after a call at `ip` is replaced by the procedure body `p`:
/// the body, its jumps shifted to the site, sits in place of the call, and
/// every surrounding jump past the site shifts by the change in length.
pub open spec fn splice_code(code: Seq<Op>, ip: nat, p: Seq<Op>) -> Seq<Op> {
    Seq::new(
        (code.len() + p.len() - 1) as nat,
        |k: int|
            if k < ip {
                reloc_outer(code[k], ip, p.len())
            } else if k < ip + p.len() {
                reloc_inner(p[k - ip], ip)
            } else {
                reloc_outer(code[k - p.len() + 1], ip, p.len())
            },
    )
}

/// What one fetch-execute step yields.
pub enum StepRes {
    Next(VmState),
    Fault(ErrV),
    Halted,
}

/// The machine's small step: fetches the instruction under the pointer,
/// performs its effect, and advances the pointer — except for jumps and
/// calls, which set it.  `coin` decides a gamble and nothing else; faults
/// never depend on it.  Reading past the constant pool is excluded by
/// `state_wf`.
pub open spec fn spec_step(s: VmState, coin: bool) -> StepRes {
    if s.ip >= s.code.len() {
        StepRes::Halted
    } else {
        let op = s.code[s.ip as int];
        match op {
            Op::Constant(i) => StepRes::Next(
                VmState { stack: s.stack.push(s.constants[i as int]), ip: s.ip + 1, ..s },
            ),
            Op::Print => if s.stack.len() == 0 {
                StepRes::Fault(ErrV::StackUnderflow)
            } else {
                StepRes::Next(
                    VmState {
                        stack: s.stack.drop_last(),
                        output: s.output.push(fmt_val(s.stack.last())),
                        ip: s.ip + 1,
                        ..s
                    },
                )
            },
            Op::GetGlobal(name) => if name == "@balance"@ {
                StepRes::Next(
                    VmState { stack: s.stack.push(Val::Num(s.balance)), ip: s.ip + 1, ..s },
                )
            } else if name == "@debt"@ {
                StepRes::Next(VmState { stack: s.stack.push(Val::Num(s.debt)), ip: s.ip + 1, ..s })
            } else if name == "@won"@ {
                StepRes::Next(
                    VmState {
                        stack: s.stack.push(Val::Bool(s.won_last_gamble)),
                        ip: s.ip + 1,
                        ..s
                    },
                )
            } else if s.globals.contains_key(name) {
                StepRes::Next(VmState { stack: s.stack.push(s.globals[name]), ip: s.ip + 1, ..s })
            } else {
                StepRes::Fault(ErrV::UndefinedVariable(name))
            },
            Op::SetGlobal(name) => if s.stack.len() == 0 {
                StepRes::Fault(ErrV::StackUnderflow)
            } else {
                StepRes::Next(
                    VmState {
                        globals: s.globals.insert(name, s.stack.last()),
                        stack: s.stack.drop_last(),
                        ip: s.ip + 1,
                        ..s
                    },
                )
            },
            Op::Add | Op::Subtract | Op::Multiply | Op::Divide | Op::Equal | Op::NotEqual
                | Op::Greater | Op::GreaterEqual | Op::Less | Op::LessEqual | Op::And
                | Op::Or => if s.stack.len() < 2 {
                StepRes::Fault(ErrV::StackUnderflow)
            } else {
                let a = s.stack[s.stack.len() - 2];
                let b = s.stack.last();
                match binop_vals(op, a, b) {
                    Some(v) => StepRes::Next(
                        VmState {
                            stack: s.stack.drop_last().drop_last().push(v),
                            ip: s.ip + 1,
                            ..s
                        },
                    ),
                    None => StepRes::Fault(ErrV::TypeMismatch),
                }
            },
            Op::Negate => if s.stack.len() == 0 {
                StepRes::Fault(ErrV::StackUnderflow)
            } else {
                match s.stack.last() {
                    Val::Num(x) => StepRes::Next(
                        VmState {
                            stack: s.stack.drop_last().push(Val::Num(num_neg(x))),
                            ip: s.ip + 1,
                            ..s
                        },
                    ),
                    _ => StepRes::Fault(ErrV::TypeMismatch),
                }
            },
            Op::Not => if s.stack.len() == 0 {
                StepRes::Fault(ErrV::StackUnderflow)
            } else {
                StepRes::Next(
                    VmState {
                        stack: s.stack.drop_last().push(Val::Bool(!truthy(s.stack.last()))),
                        ip: s.ip + 1,
                        ..s
                    },
                )
            },
            Op::JumpIfFalse(t) => if s.stack.len() == 0 {
                StepRes::Fault(ErrV::StackUnderflow)
            } else if truthy(s.stack.last()) {
                StepRes::Next(VmState { stack: s.stack.drop_last(), ip: s.ip + 1, ..s })
            } else {
                StepRes::Next(VmState { stack: s.stack.drop_last(), ip: t, ..s })
            },
            Op::Jump(t) => StepRes::Next(VmState { ip: t, ..s }),
            Op::ProcedureCall(name) => if s.procedures.contains_key(name) {
                StepRes::Next(
                    VmState { code: splice_code(s.code, s.ip, s.procedures[name]), ..s },
                )
            } else {
                StepRes::Fault(ErrV::UnknownProcedure(name))
            },
            Op::Pop => StepRes::Next(
                VmState {
                    stack: if s.stack.len() == 0 {
                        s.stack
                    } else {
                        s.stack.drop_last()
                    },
                    ip: s.ip + 1,
                    ..s
                },
            ),
            Op::Cost(amount) => if num_sub(s.balance, amount) <= 0 {
                StepRes::Fault(ErrV::InsufficientFunds)
            } else {
                StepRes::Next(VmState { balance: num_sub(s.balance, amount), ip: s.ip + 1, ..s })
            },
            Op::Gamble => if s.stack.len() == 0 {
                StepRes::Fault(ErrV::StackUnderflow)
            } else {
                match s.stack.last() {
                    Val::Num(amount) => if amount > s.balance {
                        StepRes::Fault(ErrV::InsufficientFunds)
                    } else if coin {
                        StepRes::Next(
                            VmState {
                                stack: s.stack.drop_last(),
                                balance: num_add(s.balance, amount),
                                won_last_gamble: true,
                                ip: s.ip + 1,
                                ..s
                            },
                        )
                    } else {
                        StepRes::Next(
                            VmState {
                                stack: s.stack.drop_last(),
                                balance: num_sub(s.balance, amount),
                                won_last_gamble: false,
                                ip: s.ip + 1,
                                ..s
                            },
                        )
                    },
                    _ => StepRes::Fault(ErrV::TypeMismatch),
                }
            },
        }
    }
}

/// `s2` is reachable from `s1` in exactly `n` steps, for some run of the
/// coin.
pub open spec fn reaches_n(s1: VmState, s2: VmState, n: nat) -> bool
    decreases n,
{
    if n == 0 {
        s1 == s2
    } else {
        exists|mid: VmState, coin: bool|
            spec_step(s1, coin) == StepRes::Next(mid) && reaches_n(mid, s2, (n - 1) as nat)
    }
}

/// `s2` is reachable from `s1` by running the machine.
pub open spec fn reaches(s1: VmState, s2: VmState) -> bool {
    exists|n: nat| reaches_n(s1, s2, n)
}

pub proof fn lemma_reaches_refl(s: VmState)
    ensures
        reaches(s, s),
{
    assert(reaches_n(s, s, 0));
}

proof fn lemma_reaches_n_snoc(s1: VmState, s2: VmState, s3: VmState, n: nat, coin: bool)
    requires
        reaches_n(s1, s2, n),
        spec_step(s2, coin) == StepRes::Next(s3),
    ensures
        reaches_n(s1, s3, n + 1),
    decreases n,
{
    if n == 0 {
        assert(reaches_n(s3, s3, 0));
        assert(reaches_n(s1, s3, 1));
    } else {
        let (mid, c0): (VmState, bool) = choose|mid: VmState, c0: bool|
            spec_step(s1, c0) == StepRes::Next(mid) && reaches_n(mid, s2, (n - 1) as nat);
        lemma_reaches_n_snoc(mid, s2, s3, (n - 1) as nat, coin);
        assert(reaches_n(s1, s3, n + 1));
    }
}

/// Reachability extends by one step.
pub proof fn lemma_reaches_snoc(s1: VmState, s2: VmState, s3: VmState, coin: bool)
    requires
        reaches(s1, s2),
        spec_step(s2, coin) == StepRes::Next(s3),
    ensures
        reaches(s1, s3),
{
    let n = choose|n: nat| reaches_n(s1, s2, n);
    lemma_reaches_n_snoc(s1, s2, s3, n, coin);
}

proof fn lemma_step_preserves_tables(s: VmState, coin: bool, s2: VmState)
    requires
        spec_step(s, coin) == StepRes::Next(s2),
    ensures
        s2.constants == s.constants,
        s2.procedures == s.procedures,
{
}

proof fn lemma_reaches_n_preserves_tables(s1: VmState, s2: VmState, n: nat)
    requires
        reaches_n(s1, s2, n),
    ensures
        s2.constants == s1.constants,
        s2.procedures == s1.procedures,
    decreases n,
{
    if n > 0 {
        let (mid, coin): (VmState, bool) = choose|mid: VmState, coin: bool|
            spec_step(s1, coin) == StepRes::Next(mid) && reaches_n(mid, s2, (n - 1) as nat);
        lemma_step_preserves_tables(s1, coin, mid);
        lemma_reaches_n_preserves_tables(mid, s2, (n - 1) as nat);
    }
}

/// Law: execution reads but never writes the constant pool and the
/// procedure table: every reachable state keeps both unchanged.
pub proof fn lemma_reaches_preserves_tables(s1: VmState, s2: VmState)
    requires
        reaches(s1, s2),
    ensures
        s2.constants == s1.constants,
        s2.procedures == s1.procedures,
{
    let n = choose|n: nat| reaches_n(s1, s2, n);
    lemma_reaches_n_preserves_tables(s1, s2, n);
}

/// Whether a string equals a literal.
fn string_is(a: &String, lit: &str) -> (r: bool)
    ensures
        r == (a@ == lit@),
{
    let s = lit.to_owned();
    *a == s
}

/// Relies on `rand::random`: a fair random boolean from the thread-local
/// generator.  Nothing is promised of the outcome.
#[verifier::external_body]
fn random_coin() -> bool {
    rand::random::<bool>()
}

/// What a binary operator yields on two operand values, per `binop_vals`.
fn binop_values(op: &OpCode, a: &Value, b: &Value) -> (r: Option<Value>)
    requires
        is_binop(op@),
    ensures
        match r {
            Some(v) => binop_vals(op@, a@, b@) == Some(v@),
            None => binop_vals(op@, a@, b@) is None,
        },
{
    match op {
        OpCode::Add => match (a, b) {
            (Value::Number(x), Value::Number(y)) => Some(Value::Number(x.wrapping_add(*y))),
            (Value::Text(_), Value::Text(_))
            | (Value::Text(_), Value::Number(_))
            | (Value::Number(_), Value::Text(_)) => {
                let s1 = a.format();
                let s2 = b.format();
                Some(Value::Text(s1.concat(s2.as_str())))
            },
            _ => None,
        },
        OpCode::Subtract => match (a, b) {
            (Value::Number(x), Value::Number(y)) => Some(Value::Number(x.wrapping_sub(*y))),
            _ => None,
        },
        OpCode::Multiply => match (a, b) {
            (Value::Number(x), Value::Number(y)) => Some(Value::Number(x.wrapping_mul(*y))),
            _ => None,
        },
        OpCode::Divide => match (a, b) {
            (Value::Number(x), Value::Number(y)) => {
                let q = if *y == 0 {
                    0
                } else {
                    match x.checked_div(*y) {
                        Some(q) => q,
                        None => i64::MIN,
                    }
                };
                Some(Value::Number(q))
            },
            _ => None,
        },
        OpCode::Equal => Some(Value::from_boolean(a.equals(b))),
        OpCode::NotEqual => Some(Value::from_boolean(!a.equals(b))),
        OpCode::Greater => match (a, b) {
            (Value::Number(x), Value::Number(y)) => Some(Value::from_boolean(*x > *y)),
            _ => None,
        },
        OpCode::GreaterEqual => match (a, b) {
            (Value::Number(x), Value::Number(y)) => Some(Value::from_boolean(*x >= *y)),
            _ => None,
        },
        OpCode::Less => match (a, b) {
            (Value::Number(x), Value::Number(y)) => Some(Value::from_boolean(*x < *y)),
            _ => None,
        },
        OpCode::LessEqual => match (a, b) {
            (Value::Number(x), Value::Number(y)) => Some(Value::from_boolean(*x <= *y)),
            _ => None,
        },
        OpCode::And => Some(Value::from_boolean(a.is_truthy() && b.is_truthy())),
        _ => Some(Value::from_boolean(a.is_truthy() || b.is_truthy())),
    }
}

impl VM {
    /// One fetch-execute step, proved to follow `spec_step`: on success the
    /// machine is some coin's next state; on a fault the machine is
    /// untouched and the error is the one `spec_step` assigns whatever the
    /// coin.
    #[verifier::rlimit(100)]
    #[verifier::spinoff_prover]
    pub fn step(&mut self) -> (r: Result<(), RuntimeError>)
        requires
            state_wf(old(self)@),
            old(self)@.ip < old(self)@.code.len(),
        ensures
            state_wf(final(self)@),
            match r {
                Ok(_) => exists|coin: bool|
                    spec_step(old(self)@, coin) == StepRes::Next(final(self)@),
                Err(e) => final(self)@ == old(self)@ && forall|coin: bool|
                    spec_step(old(self)@, coin) == StepRes::Fault(e@),
            },
    {
        let ghost s0 = self@;
        let ip = self.ip;
        let n_code = self.code.len();
        let op = self.code[ip].clone();
        proof {
            assert(n_code == s0.code.len());
            assert(ip < n_code);
            assert(op@ == s0.code[s0.ip as int]);
            assert(op_wf(s0.code[s0.ip as int], s0.code.len(), s0.constants.len()));
        }
        match &op {
            OpCode::Constant(i) => {
                let v = self.read_constant(*i);
                self.stack.push(v);
                self.ip = ip + 1;
                proof {
                    assert(self@.stack =~= s0.stack.push(s0.constants[*i as int]));
                    assert(spec_step(s0, true) == StepRes::Next(self@));
                }
                Ok(())
            },
            OpCode::Print => {
                if self.stack.len() == 0 {
                    return Err(RuntimeError::StackUnderflow);
                }
                let v = self.stack.pop().unwrap();
                let line = v.format();
                self.output.push(line);
                self.ip = ip + 1;
                proof {
                    assert(self@.stack =~= s0.stack.drop_last());
                    assert(self@.output =~= s0.output.push(fmt_val(s0.stack.last())));
                    assert(spec_step(s0, true) == StepRes::Next(self@));
                }
                Ok(())
            },
            OpCode::GetGlobal(name) => {
                if string_is(name, "@balance") {
                    let v = Value::Number(self.balance);
                    self.stack.push(v);
                    self.ip = ip + 1;
                    proof {
                        assert(self@.stack =~= s0.stack.push(Val::Num(s0.balance)));
                        assert(spec_step(s0, true) == StepRes::Next(self@));
                    }
                    Ok(())
                } else if string_is(name, "@debt") {
                    let v = Value::Number(self.debt);
                    self.stack.push(v);
                    self.ip = ip + 1;
                    proof {
                        assert(self@.stack =~= s0.stack.push(Val::Num(s0.debt)));
                        assert(spec_step(s0, true) == StepRes::Next(self@));
                    }
                    Ok(())
                } else if string_is(name, "@won") {
                    let v = Value::Boolean(self.won_last_gamble);
                    self.stack.push(v);
                    self.ip = ip + 1;
                    proof {
                        assert(self@.stack =~= s0.stack.push(Val::Bool(s0.won_last_gamble)));
                        assert(spec_step(s0, true) == StepRes::Next(self@));
                    }
                    Ok(())
                } else {
                    let looked = match self.get_global(name) {
                        Some(v) => Some(v.clone()),
                        None => None,
                    };
                    match looked {
                        Some(v) => {
                            self.stack.push(v);
                            self.ip = ip + 1;
                            proof {
                                assert(self@.stack =~= s0.stack.push(s0.globals[name@]));
                                assert(spec_step(s0, true) == StepRes::Next(self@));
                            }
                            Ok(())
                        },
                        None => Err(RuntimeError::UndefinedVariable(name.clone())),
                    }
                }
            },
            OpCode::SetGlobal(name) => {
                if self.stack.len() == 0 {
                    return Err(RuntimeError::StackUnderflow);
                }
                let v = self.stack.pop().unwrap();
                self.set_global(name.clone(), v);
                self.ip = ip + 1;
                proof {
                    assert(self@.stack =~= s0.stack.drop_last());
                    assert(spec_step(s0, true) == StepRes::Next(self@));
                }
                Ok(())
            },
            OpCode::Add | OpCode::Subtract | OpCode::Multiply | OpCode::Divide | OpCode::Equal
                | OpCode::NotEqual | OpCode::Greater | OpCode::GreaterEqual | OpCode::Less
                | OpCode::LessEqual | OpCode::And | OpCode::Or => {
                if self.stack.len() < 2 {
                    return Err(RuntimeError::StackUnderflow);
                }
                let n = self.stack.len();
                let r = binop_values(&op, &self.stack[n - 2], &self.stack[n - 1]);
                match r {
                    Some(v) => {
                        self.stack.pop();
                        self.stack.pop();
                        self.stack.push(v);
                        self.ip = ip + 1;
                        proof {
                            assert(self@.stack =~= s0.stack.drop_last().drop_last().push(v@));
                            assert(spec_step(s0, true) == StepRes::Next(self@));
                        }
                        Ok(())
                    },
                    None => Err(RuntimeError::TypeMismatch),
                }
            },
            OpCode::Negate => {
                if self.stack.len() == 0 {
                    return Err(RuntimeError::StackUnderflow);
                }
                let n = self.stack.len();
                let x = match &self.stack[n - 1] {
                    Value::Number(x) => *x,
                    _ => {
                        return Err(RuntimeError::TypeMismatch);
                    },
                };
                self.stack.pop();
                let v = Value::Number(0i64.wrapping_sub(x));
                self.stack.push(v);
                self.ip = ip + 1;
                proof {
                    assert(self@.stack =~= s0.stack.drop_last().push(Val::Num(num_neg(x))));
                    assert(spec_step(s0, true) == StepRes::Next(self@));
                }
                Ok(())
            },
            OpCode::Not => {
                if self.stack.len() == 0 {
                    return Err(RuntimeError::StackUnderflow);
                }
                let v = self.stack.pop().unwrap();
                let r = Value::from_boolean(!v.is_truthy());
                self.stack.push(r);
                self.ip = ip + 1;
                proof {
                    assert(self@.stack =~= s0.stack.drop_last().push(
                        Val::Bool(!truthy(s0.stack.last())),
                    ));
                    assert(spec_step(s0, true) == StepRes::Next(self@));
                }
                Ok(())
            },
            OpCode::JumpIfFalse(t) => {
                if self.stack.len() == 0 {
                    return Err(RuntimeError::StackUnderflow);
                }
                let v = self.stack.pop().unwrap();
                if v.is_truthy() {
                    self.ip = ip + 1;
                } else {
                    self.ip = *t;
                }
                proof {
                    assert(self@.stack =~= s0.stack.drop_last());
                    assert(spec_step(s0, true) == StepRes::Next(self@));
                }
                Ok(())
            },
            OpCode::Jump(t) => {
                self.ip = *t;
                proof {
                    assert(spec_step(s0, true) == StepRes::Next(self@));
                }
                Ok(())
            },
            OpCode::ProcedureCall(name) => {
                let pidx = match self.find_procedure(name) {
                    Some(i) => i,
                    None => {
                        return Err(RuntimeError::UnknownProcedure(name.clone()));
                    },
                };
                self.splice_procedure(pidx);
                proof {
                    assert(spec_step(s0, true) == StepRes::Next(self@));
                }
                Ok(())
            },
            OpCode::Pop => {
                self.stack.pop();
                self.ip = ip + 1;
                proof {
                    if s0.stack.len() > 0 {
                        assert(self@.stack =~= s0.stack.drop_last());
                    } else {
                        assert(self@.stack =~= s0.stack);
                    }
                    assert(spec_step(s0, true) == StepRes::Next(self@));
                }
                Ok(())
            },
            OpCode::Cost(amount) => {
                let nb = self.balance.wrapping_sub(*amount);
                if nb <= 0 {
                    return Err(RuntimeError::InsufficientFunds);
                }
                self.balance = nb;
                self.ip = ip + 1;
                proof {
                    assert(spec_step(s0, true) == StepRes::Next(self@));
                }
                Ok(())
            },
            OpCode::Gamble => {
                if self.stack.len() == 0 {
                    return Err(RuntimeError::StackUnderflow);
                }
                let n = self.stack.len();
                let amount = match &self.stack[n - 1] {
                    Value::Number(x) => *x,
                    _ => {
                        return Err(RuntimeError::TypeMismatch);
                    },
                };
                if amount > self.balance {
                    return Err(RuntimeError::InsufficientFunds);
                }
                self.stack.pop();
                let won = random_coin();
                if won {
                    self.balance = self.balance.wrapping_add(amount);
                    self.won_last_gamble = true;
                } else {
                    self.balance = self.balance.wrapping_sub(amount);
                    self.won_last_gamble = false;
                }
                self.ip = ip + 1;
                proof {
                    assert(self@.stack =~= s0.stack.drop_last());
                    assert(spec_step(s0, won) == StepRes::Next(self@));
                }
                Ok(())
            },
        }
    }
}

/// Jump targets of an instruction stay within bound `b`.
pub open spec fn jump_ok(o: Op, b: nat) -> bool {
    match o {
        Op::Jump(t) => t <= b,
        Op::JumpIfFalse(t) => t <= b,
        _ => true,
    }
}

/// The unrelocated concatenation: the program up to the call site, the
/// whole procedure body, and the program after the call site.
pub open spec fn unspliced(code: Seq<Op>, ip: nat, p: Seq<Op>) -> Seq<Op> {
    code.take(ip as int) + p + code.skip(ip as int + 1)
}

/// Builds the unrelocated splice of `body` into `code` at `ip`.
fn build_spliced(code: &Vec<OpCode>, body: &Vec<OpCode>, ip: usize) -> (r: Vec<OpCode>)
    requires
        ip < code@.len(),
    ensures
        r.deep_view() == unspliced(code.deep_view(), ip as nat, body.deep_view()),
{
    let ghost cv = code.deep_view();
    let ghost bv = body.deep_view();
    let clen = code.len();
    let mut r: Vec<OpCode> = Vec::new();
    let mut k: usize = 0;
    while k < ip
        invariant
            k <= ip,
            ip < code@.len(),
            cv == code.deep_view(),
            r.deep_view() == cv.take(k as int),
        decreases ip - k,
    {
        let ghost pre = r.deep_view();
        let el = code[k].clone();
        r.push(el);
        proof {
            assert(k <= cv.len());
            assert(pre.len() == k);
            assert(r@.len() == pre.len() + 1);
            assert forall|i: int| 0 <= i < r@.len() implies #[trigger] r.deep_view()[i]
                == cv.take(k + 1 as int)[i] by {
                if i < pre.len() {
                    assert(r.deep_view()[i] == pre[i]);
                } else {
                    assert(r.deep_view()[i] == el@);
                }
            }
            assert(r.deep_view().len() == k + 1);
            assert(cv.take(k + 1 as int).len() == k + 1);
            assert(r.deep_view() =~= cv.take(k + 1 as int));
        }
        k = k + 1;
    }
    let mut j: usize = 0;
    while j < body.len()
        invariant
            j <= body@.len(),
            ip < code@.len(),
            cv == code.deep_view(),
            bv == body.deep_view(),
            r.deep_view() == cv.take(ip as int) + bv.take(j as int),
        decreases body@.len() - j,
    {
        let ghost pre = r.deep_view();
        let el = body[j].clone();
        r.push(el);
        proof {
            assert(ip <= cv.len());
            assert(j < bv.len());
            assert(pre.len() == ip + j);
            assert(r@.len() == pre.len() + 1);
            let target = cv.take(ip as int) + bv.take(j + 1 as int);
            assert forall|i: int| 0 <= i < r@.len() implies #[trigger] r.deep_view()[i]
                == target[i] by {
                if i < pre.len() {
                    assert(r.deep_view()[i] == pre[i]);
                } else {
                    assert(r.deep_view()[i] == el@);
                }
            }
            assert(r.deep_view().len() == target.len());
            assert(r.deep_view() =~= target);
        }
        j = j + 1;
    }
    proof {
        assert(bv.take(bv.len() as int) =~= bv);
    }
    let mut m: usize = ip + 1;
    while m < clen
        invariant
            ip + 1 <= m <= code@.len(),
            clen == code@.len(),
            cv == code.deep_view(),
            bv == body.deep_view(),
            r.deep_view() == cv.take(ip as int) + bv + cv.subrange(ip + 1 as int, m as int),
        decreases code@.len() - m,
    {
        let ghost pre = r.deep_view();
        let el = code[m].clone();
        r.push(el);
        proof {
            assert(ip + 1 <= m + 1 <= cv.len());
            assert(pre.len() == ip + bv.len() + (m - ip - 1));
            assert(r@.len() == pre.len() + 1);
            let target = cv.take(ip as int) + bv + cv.subrange(ip + 1 as int, m + 1 as int);
            assert forall|i: int| 0 <= i < r@.len() implies #[trigger] r.deep_view()[i]
                == target[i] by {
                if i < pre.len() {
                    assert(r.deep_view()[i] == pre[i]);
                } else {
                    assert(r.deep_view()[i] == el@);
                }
            }
            assert(r.deep_view().len() == target.len());
            assert(r.deep_view() =~= target);
        }
        m = m + 1;
    }
    proof {
        assert(cv.subrange(ip + 1 as int, cv.len() as int) =~= cv.skip(ip as int + 1));
        assert(r.deep_view() =~= unspliced(cv, ip as nat, bv));
    }
    r
}

/// Relocates a freshly built splice in place: instructions inside the
/// spliced body shift their targets by the splice site; the surrounding
/// instructions shift targets past the site by the body's length less
/// one.
fn relocate_spliced(nc: &mut Vec<OpCode>, ip: usize, plen: usize, old_len: usize)
    requires
        old(nc)@.len() == old_len + plen - 1,
        ip < old_len,
        forall|x: int|
            0 <= x < old(nc)@.len() && ip <= x < ip + plen ==> jump_ok(
                #[trigger] old(nc).deep_view()[x],
                plen as nat,
            ),
        forall|x: int|
            0 <= x < old(nc)@.len() && !(ip <= x < ip + plen) ==> jump_ok(
                #[trigger] old(nc).deep_view()[x],
                old_len as nat,
            ),
    ensures
        final(nc)@.len() == old(nc)@.len(),
        forall|x: int|
            0 <= x < old(nc)@.len() ==> (#[trigger] final(nc).deep_view()[x]) == (if ip <= x < ip
                + plen {
                reloc_inner(old(nc).deep_view()[x], ip as nat)
            } else {
                reloc_outer(old(nc).deep_view()[x], ip as nat, plen as nat)
            }),
{
    let new_len = nc.len();
    let mut k: usize = 0;
    while k < new_len
        invariant
            k <= new_len,
            new_len == nc@.len(),
            old(nc)@.len() == new_len,
            new_len == old_len + plen - 1,
            ip < old_len,
            forall|x: int|
                0 <= x < old(nc)@.len() && ip <= x < ip + plen ==> jump_ok(
                    #[trigger] old(nc).deep_view()[x],
                    plen as nat,
                ),
            forall|x: int|
                0 <= x < old(nc)@.len() && !(ip <= x < ip + plen) ==> jump_ok(
                    #[trigger] old(nc).deep_view()[x],
                    old_len as nat,
                ),
            forall|x: int|
                k <= x < new_len ==> (#[trigger] nc.deep_view()[x]) == old(nc).deep_view()[x],
            forall|x: int|
                0 <= x < k ==> (#[trigger] nc.deep_view()[x]) == (if ip <= x < ip + plen {
                    reloc_inner(old(nc).deep_view()[x], ip as nat)
                } else {
                    reloc_outer(old(nc).deep_view()[x], ip as nat, plen as nat)
                }),
        decreases new_len - k,
    {
        let cur = nc[k].clone();
        proof {
            assert(cur@ == nc.deep_view()[k as int]);
            assert(cur@ == old(nc).deep_view()[k as int]);
            assert(ip + plen <= new_len);
        }
        let op2 = if k >= ip && k < ip + plen {
            match &cur {
                OpCode::Jump(t) => OpCode::Jump(*t + ip),
                OpCode::JumpIfFalse(t) => OpCode::JumpIfFalse(*t + ip),
                _ => cur,
            }
        } else {
            match &cur {
                OpCode::Jump(t) => if *t > ip {
                    OpCode::Jump(*t - 1 + plen)
                } else {
                    cur
                },
                OpCode::JumpIfFalse(t) => if *t > ip {
                    OpCode::JumpIfFalse(*t - 1 + plen)
                } else {
                    cur
                },
                _ => cur,
            }
        };
        let ghost pre = nc.deep_view();
        nc[k] = op2;
        proof {
            assert forall|x: int| 0 <= x < nc@.len() && x != k implies #[trigger] nc.deep_view()[x]
                == pre[x] by {}
            assert(nc.deep_view()[k as int] == op2@);
        }
        k = k + 1;
    }
}

impl VM {
    /// Replaces the call instruction under the pointer with a relocated
    /// copy of the procedure at table index `pidx`, per `splice_code`:
    /// the copy's own jumps shift to the splice site, and every
    /// surrounding jump past the site shifts by the growth in length.
    #[verifier::spinoff_prover]
    fn splice_procedure(&mut self, pidx: usize)
        requires
            state_wf(old(self)@),
            old(self)@.ip < old(self)@.code.len(),
            pidx < old(self).procedures@.len(),
            code_wf(
                old(self).procedures@[pidx as int].1.deep_view(),
                old(self)@.constants.len(),
            ),
        ensures
            state_wf(final(self)@),
            final(self)@ == (VmState {
                code: splice_code(
                    old(self)@.code,
                    old(self)@.ip,
                    old(self).procedures@[pidx as int].1.deep_view(),
                ),
                ..old(self)@
            }),
    {
        let ghost s0 = self@;
        let ghost procv = self.procedures@[pidx as int].1.deep_view();
        let ip = self.ip;
        let old_len = self.code.len();
        let plen = self.procedures[pidx].1.len();
        let mut new_code = build_spliced(&self.code, &self.procedures[pidx].1, ip);
        proof {
            let u = unspliced(s0.code, s0.ip, procv);
            assert(new_code.deep_view() == u);
            assert(u.len() == old_len + plen - 1);
            assert forall|x: int| 0 <= x < u.len() && ip <= x < ip + plen implies jump_ok(
                #[trigger] u[x],
                plen as nat,
            ) by {
                assert(u[x] == procv[x - ip]);
                assert(op_wf(procv[x - ip], plen as nat, s0.constants.len()));
            }
            assert forall|x: int| 0 <= x < u.len() && !(ip <= x < ip + plen) implies jump_ok(
                #[trigger] u[x],
                old_len as nat,
            ) by {
                if x < ip {
                    assert(u[x] == s0.code[x]);
                    assert(op_wf(s0.code[x], s0.code.len(), s0.constants.len()));
                } else {
                    assert(u[x] == s0.code[x - plen + 1]);
                    assert(op_wf(s0.code[x - plen + 1], s0.code.len(), s0.constants.len()));
                }
            }
        }
        relocate_spliced(&mut new_code, ip, plen, old_len);
        proof {
            let u = unspliced(s0.code, s0.ip, procv);
            let sp = splice_code(s0.code, s0.ip, procv);
            assert forall|x: int| 0 <= x < sp.len() implies #[trigger] new_code.deep_view()[x]
                == sp[x] by {
                if ip <= x < ip + plen {
                    assert(u[x] == procv[x - ip]);
                } else if x < ip {
                    assert(u[x] == s0.code[x]);
                } else {
                    assert(u[x] == s0.code[x - plen + 1]);
                }
            }
            assert(new_code.deep_view() =~= sp);
        }
        self.code = new_code;
        self.ip = ip;
        proof {
            let sp = splice_code(s0.code, s0.ip, procv);
            assert(self@ == (VmState { code: sp, ..s0 }));
            assert forall|x: int| 0 <= x < sp.len() implies op_wf(
                #[trigger] sp[x],
                sp.len(),
                s0.constants.len(),
            ) by {
                if x < ip {
                    assert(op_wf(s0.code[x], s0.code.len(), s0.constants.len()));
                } else if x < ip + plen {
                    assert(op_wf(procv[x - ip], plen as nat, s0.constants.len()));
                } else {
                    assert(op_wf(s0.code[x - plen + 1], s0.code.len(), s0.constants.len()));
                }
            }
            assert(state_wf(self@));
        }
    }
}

impl VM {
    /// Runs the fetch-execute loop until the pointer runs off the end of
    /// the program, a failure occurs, or `fuel` steps have been taken;
    /// call splicing can grow the program without bound, so the step
    /// budget is the explicit guard against unbounded runs.  On success
    /// the machine is the state that some run of at most `fuel` steps
    /// reaches, the flag says whether it halted, and a run reported
    /// unfinished took exactly the full budget; on a failure the machine
    /// stands at the faulting instruction, untouched by it, fewer than
    /// `fuel` steps in.
    pub fn execute(&mut self, fuel: u64) -> (r: Result<bool, RuntimeError>)
        requires
            state_wf(old(self)@),
        ensures
            state_wf(final(self)@),
            reaches(old(self)@, final(self)@),
            match r {
                Ok(done) => exists|n: nat|
                    {
                        &&& n <= fuel
                        &&& #[trigger] reaches_n(old(self)@, final(self)@, n)
                        &&& done == (final(self)@.ip >= final(self)@.code.len())
                        &&& (!done ==> n == fuel)
                    },
                Err(e) => {
                    &&& final(self)@.ip < final(self)@.code.len()
                    &&& (forall|coin: bool| spec_step(final(self)@, coin) == StepRes::Fault(e@))
                    &&& exists|n: nat|
                        n < fuel && #[trigger] reaches_n(old(self)@, final(self)@, n)
                },
            },
    {
        let ghost s0 = self@;
        proof {
            assert(reaches_n(s0, s0, 0));
        }
        let mut steps: u64 = 0;
        while steps < fuel && self.ip < self.code.len()
            invariant
                s0 == old(self)@,
                state_wf(self@),
                steps <= fuel,
                reaches_n(s0, self@, steps as nat),
            decreases fuel - steps,
        {
            let ghost pre = self@;
            match self.step() {
                Ok(_) => {
                    proof {
                        let coin = choose|coin: bool|
                            spec_step(pre, coin) == StepRes::Next(self@);
                        lemma_reaches_n_snoc(s0, pre, self@, steps as nat, coin);
                    }
                },
                Err(e) => {
                    proof {
                        assert(reaches_n(s0, self@, steps as nat));
                        assert(reaches(s0, self@));
                    }
                    return Err(e);
                },
            }
            steps = steps + 1;
        }
        proof {
            assert(reaches_n(s0, self@, steps as nat));
            assert(reaches(s0, self@));
        }
        Ok(self.ip >= self.code.len())
    }
}

proof fn lemma_pool_find_props(pool: Seq<Val>, v: Val, i: nat)
    requires
        i <= pool.len(),
    ensures
        ({
            let f = VM::pool_find(pool, v, i);
            &&& i <= f <= pool.len()
            &&& (f < pool.len() ==> pool[f as int] == v)
            &&& forall|j: int| i <= j < f ==> pool[j] != v
        }),
    decreases pool.len() - i,
{
    if i < pool.len() && pool[i as int] != v {
        lemma_pool_find_props(pool, v, i + 1);
    }
}

proof fn lemma_pool_find_at(pool: Seq<Val>, v: Val, i: nat, k: nat)
    requires
        i <= k <= pool.len(),
        forall|j: int| i <= j < k ==> pool[j] != v,
        k < pool.len() ==> pool[k as int] == v,
    ensures
        VM::pool_find(pool, v, i) == k || (k == pool.len() && VM::pool_find(pool, v, i)
            == pool.len()),
    decreases k - i,
{
    if i < k {
        lemma_pool_find_at(pool, v, i + 1, k);
    }
}

/// Law: interning a value a second time returns the same index and leaves
/// the pool exactly as it was after the first time; the pool holds the
/// value at that index.
pub proof fn lemma_constant_dedup(pool: Seq<Val>, v: Val)
    ensures
        ({
            let (i1, p1) = VM::pool_insert(pool, v);
            let (i2, p2) = VM::pool_insert(p1, v);
            &&& i2 == i1
            &&& p2 == p1
            &&& i1 < p1.len()
            &&& p1[i1 as int] == v
        }),
{
    let f = VM::pool_find(pool, v, 0);
    lemma_pool_find_props(pool, v, 0);
    if f < pool.len() {
    } else {
        let p1 = pool.push(v);
        assert(p1[pool.len() as int] == v);
        lemma_pool_find_at(p1, v, 0, pool.len());
    }
}

/// Law: two structurally different values intern at different indices.
pub proof fn lemma_distinct_constants(pool: Seq<Val>, v1: Val, v2: Val)
    requires
        v1 != v2,
    ensures
        ({
            let (i1, p1) = VM::pool_insert(pool, v1);
            let (i2, p2) = VM::pool_insert(p1, v2);
            i1 != i2
        }),
{
    lemma_constant_dedup(pool, v1);
    let (i1, p1) = VM::pool_insert(pool, v1);
    lemma_pool_find_props(p1, v2, 0);
    let f2 = VM::pool_find(p1, v2, 0);
    if f2 < p1.len() {
        assert(p1[f2 as int] == v2);
    }
}

/// Which variant a value carries.
pub open spec fn same_variant(a: Val, b: Val) -> bool {
    match (a, b) {
        (Val::Num(_), Val::Num(_)) => true,
        (Val::Text(_), Val::Text(_)) => true,
        (Val::Bool(_), Val::Bool(_)) => true,
        (Val::Void, Val::Void) => true,
        _ => false,
    }
}

/// Law: equality is total — Equal and NotEqual always yield a boolean and
/// never fault — and values of different variants are never equal.
pub proof fn lemma_equality_total(a: Val, b: Val)
    ensures
        binop_vals(Op::Equal, a, b) == Some(Val::Bool(a == b)),
        binop_vals(Op::NotEqual, a, b) == Some(Val::Bool(a != b)),
        !same_variant(a, b) ==> binop_vals(Op::Equal, a, b) == Some(Val::Bool(false)),
        !same_variant(a, b) ==> binop_vals(Op::NotEqual, a, b) == Some(Val::Bool(true)),
{
}

/// Law: the arithmetic operators fault with a type mismatch whenever a
/// boolean or void operand meets them.
pub proof fn lemma_arith_rejects_booleans(op: Op, a: Val, b: Val)
    requires
        op == Op::Add || op == Op::Subtract || op == Op::Multiply || op == Op::Divide,
        a is Bool || b is Bool || a is Void || b is Void,
    ensures
        binop_vals(op, a, b) is None,
{
}

/// Law: addition of text and a number concatenates the text with the
/// number's numeral, on either side.
pub proof fn lemma_add_concatenates(s: Seq<char>, n: i64)
    ensures
        binop_vals(Op::Add, Val::Text(s), Val::Num(n)) == Some(Val::Text(s + dec_of_i64(n))),
        binop_vals(Op::Add, Val::Num(n), Val::Text(s)) == Some(Val::Text(dec_of_i64(n) + s)),
{
}

/// Law: splicing a procedure body in place of its call instruction grows
/// the program by the body's length less the one replaced instruction.
pub proof fn lemma_splice_length(code: Seq<Op>, ip: nat, p: Seq<Op>)
    requires
        ip < code.len(),
    ensures
        splice_code(code, ip, p).len() == code.len() + p.len() - 1,
{
}

} // verus!
