//! The virtual machine: a fetch-dispatch loop over a compiled chunk.
//!
//! The semantics of every instruction is pinned down by the specification
//! function [`step`]; running the machine is iterating [`step`], which
//! [`run_n`] captures.  The machine itself never panics: on a well-formed
//! chunk every internal access is proved in bounds, and every dynamic
//! failure (a type mismatch, an undefined variable, a stack slot out of
//! range) is a reported fault, exactly where [`step`] says so.

use vstd::prelude::*;

use crate::chunk::{chunk_wf, line_at, op_wf, Chunk, ChunkM, OpCode};
use crate::compiler::{starts_no_statement, Compiler, Diagnostic};
use crate::scanner::scan_spec;
use crate::token::TokenType;
use crate::value::{eq_values, is_truthy, value_rep, Value, ValueM};
use vstd::string::StringSliceAdditionalSpecFns;

verus! {

/// The model of one global-table entry: a name and its value.
pub ghost struct GlobalM {
    pub name: Seq<u8>,
    pub value: ValueM,
}

/// The model of the machine state between steps.
pub ghost struct MState {
    pub ip: int,
    pub stack: Seq<ValueM>,
    pub globals: Seq<GlobalM>,
    pub output: Seq<Seq<u8>>,
}

/// A runtime fault, as the model sees it.
pub ghost enum FaultM {
    /// An operator was applied to operands of the wrong type.
    TypeMismatch { op: OpCode, line: usize },
    /// A global variable was read or assigned before being defined.
    UndefinedVariable { name: Seq<u8>, line: usize },
    /// The divisor of a division was zero.
    DivisionByZero { line: usize },
    /// An internal invariant was violated: a stack slot or constant index
    /// out of range, or an operand-stack underflow.  A correct compiler
    /// never produces code that reaches this.
    Internal { line: usize },
}

/// What one step of the machine yields: the next state, a successful
/// halt, or a fault (carrying the state at the fault).
pub ghost enum StepR {
    Next(MState),
    Done(MState),
    Fault(FaultM, MState),
}

/// The value of a global variable: the first entry with the name, front
/// to back.
pub open spec fn lookup(gs: Seq<GlobalM>, name: Seq<u8>) -> Option<ValueM>
    decreases gs.len(),
{
    if gs.len() == 0 {
        None
    } else if gs[0].name == name {
        Some(gs[0].value)
    } else {
        lookup(gs.subrange(1, gs.len() as int), name)
    }
}

/// The global table after binding `name` to `v`: the first entry with the
/// name is overwritten, or a new entry is appended.
pub open spec fn store(gs: Seq<GlobalM>, name: Seq<u8>, v: ValueM) -> Seq<GlobalM>
    decreases gs.len(),
{
    if gs.len() == 0 {
        seq![GlobalM { name, value: v }]
    } else if gs[0].name == name {
        seq![GlobalM { name, value: v }] + gs.subrange(1, gs.len() as int)
    } else {
        seq![gs[0]] + store(gs.subrange(1, gs.len() as int), name, v)
    }
}

/// Negation that wraps: the minimum value is its own negation.
pub open spec fn neg_wrap(x: i64) -> i64 {
    if x == i64::MIN {
        i64::MIN
    } else {
        (-(x as int)) as i64
    }
}

/// The magnitude of a number.
pub open spec fn mag(a: i64) -> nat {
    if a >= 0 {
        a as nat
    } else {
        (-(a as int)) as nat
    }
}

/// Truncating signed division, wrapping on the one overflowing case
/// (the minimum value divided by minus one).  The divisor must not be
/// zero; the machine faults before reaching this.
pub open spec fn div_trunc(a: i64, b: i64) -> i64 {
    let q = mag(a) / mag(b);
    if (a < 0) == (b < 0) {
        if q > (i64::MAX as nat) {
            i64::MIN
        } else {
            q as i64
        }
    } else {
        (-(q as int)) as i64
    }
}

/// The state with the instruction pointer advanced past the current
/// instruction and `v` pushed.
pub open spec fn push_v(s: MState, v: ValueM) -> MState {
    MState { ip: s.ip + 1, stack: s.stack.push(v), globals: s.globals, output: s.output }
}

/// The state after a binary operator: both operands replaced by `v`.
pub open spec fn binop_v(s: MState, v: ValueM) -> MState {
    MState {
        ip: s.ip + 1,
        stack: s.stack.drop_last().drop_last().push(v),
        globals: s.globals,
        output: s.output,
    }
}

/// The state a faulting binary operator halts in: both operands consumed,
/// nothing pushed.
pub open spec fn binop_fault(s: MState) -> MState {
    MState {
        ip: s.ip,
        stack: s.stack.drop_last().drop_last(),
        globals: s.globals,
        output: s.output,
    }
}

/// The state a faulting unary operator halts in: the operand consumed.
pub open spec fn unop_fault(s: MState) -> MState {
    MState { ip: s.ip, stack: s.stack.drop_last(), globals: s.globals, output: s.output }
}

/// One step of the machine on chunk `c` from state `s`.  Running past the
/// end of the code halts successfully, as `Return` does.  This function
/// is the semantics of the instruction set: constant and literal loads
/// push; arithmetic requires numbers, except that `Add` concatenates two
/// strings; comparisons push booleans and `Equal` never faults; local
/// slots index the stack from its base; global instructions consult the
/// global table through [`lookup`] and [`store`]; jumps move the
/// instruction pointer by their distance, `JumpIfFalse` popping and
/// testing the condition; `Print` pops and appends the value's rendering
/// to the output.  A faulting operator consumes its operands; every other
/// fault halts with the state unchanged.
pub open spec fn step(c: ChunkM, s: MState) -> StepR {
    if !(0 <= s.ip < c.code.len()) {
        StepR::Done(s)
    } else {
        let op = c.code[s.ip];
        let line = line_at(c.lines, s.ip);
        match op {
            OpCode::Constant(k) => StepR::Next(push_v(s, c.constants[k as int])),
            OpCode::Nil => StepR::Next(push_v(s, ValueM::Nil)),
            OpCode::True => StepR::Next(push_v(s, ValueM::Boolean(true))),
            OpCode::False => StepR::Next(push_v(s, ValueM::Boolean(false))),
            OpCode::Pop => if s.stack.len() >= 1 {
                StepR::Next(
                    MState {
                        ip: s.ip + 1,
                        stack: s.stack.drop_last(),
                        globals: s.globals,
                        output: s.output,
                    },
                )
            } else {
                StepR::Fault(FaultM::Internal { line }, s)
            },
            OpCode::Negate => if s.stack.len() >= 1 {
                match s.stack.last() {
                    ValueM::Number(x) => StepR::Next(
                        MState {
                            ip: s.ip + 1,
                            stack: s.stack.drop_last().push(ValueM::Number(neg_wrap(x))),
                            globals: s.globals,
                            output: s.output,
                        },
                    ),
                    _ => StepR::Fault(FaultM::TypeMismatch { op, line }, unop_fault(s)),
                }
            } else {
                StepR::Fault(FaultM::Internal { line }, s)
            },
            OpCode::Not => if s.stack.len() >= 1 {
                StepR::Next(
                    MState {
                        ip: s.ip + 1,
                        stack: s.stack.drop_last().push(
                            ValueM::Boolean(!is_truthy(s.stack.last())),
                        ),
                        globals: s.globals,
                        output: s.output,
                    },
                )
            } else {
                StepR::Fault(FaultM::Internal { line }, s)
            },
            OpCode::Add => if s.stack.len() >= 2 {
                match (s.stack[s.stack.len() - 2], s.stack.last()) {
                    (ValueM::Number(x), ValueM::Number(y)) => StepR::Next(
                        binop_v(s, ValueM::Number(vstd::wrapping::i64_specs::wrapping_add(x, y))),
                    ),
                    (ValueM::Str(x), ValueM::Str(y)) => StepR::Next(
                        binop_v(s, ValueM::Str(x + y)),
                    ),
                    _ => StepR::Fault(FaultM::TypeMismatch { op, line }, binop_fault(s)),
                }
            } else {
                StepR::Fault(FaultM::Internal { line }, s)
            },
            OpCode::Subtract => if s.stack.len() >= 2 {
                match (s.stack[s.stack.len() - 2], s.stack.last()) {
                    (ValueM::Number(x), ValueM::Number(y)) => StepR::Next(
                        binop_v(s, ValueM::Number(vstd::wrapping::i64_specs::wrapping_sub(x, y))),
                    ),
                    _ => StepR::Fault(FaultM::TypeMismatch { op, line }, binop_fault(s)),
                }
            } else {
                StepR::Fault(FaultM::Internal { line }, s)
            },
            OpCode::Multiply => if s.stack.len() >= 2 {
                match (s.stack[s.stack.len() - 2], s.stack.last()) {
                    (ValueM::Number(x), ValueM::Number(y)) => StepR::Next(
                        binop_v(s, ValueM::Number(vstd::wrapping::i64_specs::wrapping_mul(x, y))),
                    ),
                    _ => StepR::Fault(FaultM::TypeMismatch { op, line }, binop_fault(s)),
                }
            } else {
                StepR::Fault(FaultM::Internal { line }, s)
            },
            OpCode::Divide => if s.stack.len() >= 2 {
                match (s.stack[s.stack.len() - 2], s.stack.last()) {
                    (ValueM::Number(x), ValueM::Number(y)) => if y == 0 {
                        StepR::Fault(FaultM::DivisionByZero { line }, binop_fault(s))
                    } else {
                        StepR::Next(binop_v(s, ValueM::Number(div_trunc(x, y))))
                    },
                    _ => StepR::Fault(FaultM::TypeMismatch { op, line }, binop_fault(s)),
                }
            } else {
                StepR::Fault(FaultM::Internal { line }, s)
            },
            OpCode::Equal => if s.stack.len() >= 2 {
                StepR::Next(
                    binop_v(
                        s,
                        ValueM::Boolean(eq_values(s.stack[s.stack.len() - 2], s.stack.last())),
                    ),
                )
            } else {
                StepR::Fault(FaultM::Internal { line }, s)
            },
            OpCode::Greater => if s.stack.len() >= 2 {
                match (s.stack[s.stack.len() - 2], s.stack.last()) {
                    (ValueM::Number(x), ValueM::Number(y)) => StepR::Next(
                        binop_v(s, ValueM::Boolean(x > y)),
                    ),
                    _ => StepR::Fault(FaultM::TypeMismatch { op, line }, binop_fault(s)),
                }
            } else {
                StepR::Fault(FaultM::Internal { line }, s)
            },
            OpCode::Less => if s.stack.len() >= 2 {
                match (s.stack[s.stack.len() - 2], s.stack.last()) {
                    (ValueM::Number(x), ValueM::Number(y)) => StepR::Next(
                        binop_v(s, ValueM::Boolean(x < y)),
                    ),
                    _ => StepR::Fault(FaultM::TypeMismatch { op, line }, binop_fault(s)),
                }
            } else {
                StepR::Fault(FaultM::Internal { line }, s)
            },
            OpCode::GetLocal(k) => if (k as int) < s.stack.len() {
                StepR::Next(push_v(s, s.stack[k as int]))
            } else {
                StepR::Fault(FaultM::Internal { line }, s)
            },
            OpCode::SetLocal(k) => if s.stack.len() >= 1 && (k as int) < s.stack.len() {
                StepR::Next(
                    MState {
                        ip: s.ip + 1,
                        stack: s.stack.update(k as int, s.stack.last()),
                        globals: s.globals,
                        output: s.output,
                    },
                )
            } else {
                StepR::Fault(FaultM::Internal { line }, s)
            },
            OpCode::GetGlobal(k) => match c.constants[k as int] {
                ValueM::Str(name) => match lookup(s.globals, name) {
                    Some(v) => StepR::Next(push_v(s, v)),
                    None => StepR::Fault(FaultM::UndefinedVariable { name, line }, s),
                },
                _ => StepR::Fault(FaultM::Internal { line }, s),
            },
            OpCode::SetGlobal(k) => match c.constants[k as int] {
                ValueM::Str(name) => if s.stack.len() >= 1 {
                    match lookup(s.globals, name) {
                        Some(_) => StepR::Next(
                            MState {
                                ip: s.ip + 1,
                                stack: s.stack,
                                globals: store(s.globals, name, s.stack.last()),
                                output: s.output,
                            },
                        ),
                        None => StepR::Fault(FaultM::UndefinedVariable { name, line }, s),
                    }
                } else {
                    StepR::Fault(FaultM::Internal { line }, s)
                },
                _ => StepR::Fault(FaultM::Internal { line }, s),
            },
            OpCode::DefineGlobal(k) => match c.constants[k as int] {
                ValueM::Str(name) => if s.stack.len() >= 1 {
                    StepR::Next(
                        MState {
                            ip: s.ip + 1,
                            stack: s.stack.drop_last(),
                            globals: store(s.globals, name, s.stack.last()),
                            output: s.output,
                        },
                    )
                } else {
                    StepR::Fault(FaultM::Internal { line }, s)
                },
                _ => StepR::Fault(FaultM::Internal { line }, s),
            },
            OpCode::Print => if s.stack.len() >= 1 {
                StepR::Next(
                    MState {
                        ip: s.ip + 1,
                        stack: s.stack.drop_last(),
                        globals: s.globals,
                        output: s.output.push(value_rep(s.stack.last())),
                    },
                )
            } else {
                StepR::Fault(FaultM::Internal { line }, s)
            },
            OpCode::Jump(d) => StepR::Next(
                MState { ip: s.ip + 1 + d, stack: s.stack, globals: s.globals, output: s.output },
            ),
            OpCode::JumpIfFalse(d) => if s.stack.len() >= 1 {
                StepR::Next(
                    MState {
                        ip: if is_truthy(s.stack.last()) {
                            s.ip + 1
                        } else {
                            s.ip + 1 + d
                        },
                        stack: s.stack.drop_last(),
                        globals: s.globals,
                        output: s.output,
                    },
                )
            } else {
                StepR::Fault(FaultM::Internal { line }, s)
            },
            OpCode::Loop(d) => StepR::Next(
                MState { ip: s.ip + 1 - d, stack: s.stack, globals: s.globals, output: s.output },
            ),
            OpCode::Return => StepR::Done(s),
        }
    }
}

/// The machine after `n` steps from `s`: still running, halted, or
/// faulted.
pub open spec fn run_n(c: ChunkM, s: MState, n: nat) -> StepR
    decreases n,
{
    if n == 0 {
        StepR::Next(s)
    } else {
        match run_n(c, s, (n - 1) as nat) {
            StepR::Next(s1) => step(c, s1),
            r => r,
        }
    }
}

/// The state a step result carries.
pub open spec fn step_state(r: StepR) -> MState {
    match r {
        StepR::Next(s) => s,
        StepR::Done(s) => s,
        StepR::Fault(_, s) => s,
    }
}

/// The fault a step result carries, if any.
pub open spec fn step_fault(r: StepR) -> Option<FaultM> {
    match r {
        StepR::Fault(f, _) => Some(f),
        _ => None,
    }
}

/// A runtime fault as reported to the caller: the same cases as
/// [`FaultM`], with the variable name owned.
pub enum RuntimeFault {
    TypeMismatch { op: OpCode, line: usize },
    UndefinedVariable { name: Vec<u8>, line: usize },
    DivisionByZero { line: usize },
    Internal { line: usize },
}

impl View for RuntimeFault {
    type V = FaultM;

    open spec fn view(&self) -> FaultM {
        match self {
            RuntimeFault::TypeMismatch { op, line } => FaultM::TypeMismatch {
                op: *op,
                line: *line,
            },
            RuntimeFault::UndefinedVariable { name, line } => FaultM::UndefinedVariable {
                name: name@,
                line: *line,
            },
            RuntimeFault::DivisionByZero { line } => FaultM::DivisionByZero { line: *line },
            RuntimeFault::Internal { line } => FaultM::Internal { line: *line },
        }
    }
}

/// The source line a fault names.
pub open spec fn fault_line(f: FaultM) -> usize {
    match f {
        FaultM::TypeMismatch { line, .. } => line,
        FaultM::UndefinedVariable { line, .. } => line,
        FaultM::DivisionByZero { line } => line,
        FaultM::Internal { line } => line,
    }
}

/// The fixed message text of a fault; an undefined variable's name is
/// carried beside the message, not inside it.
pub open spec fn fault_message(f: FaultM) -> Seq<char> {
    match f {
        FaultM::TypeMismatch { op, .. } => match op {
            OpCode::Add => "Operands must be two numbers or two strings."@,
            OpCode::Negate => "Operand must be a number."@,
            _ => "Operands must be numbers."@,
        },
        FaultM::UndefinedVariable { .. } => "Undefined variable."@,
        FaultM::DivisionByZero { .. } => "Division by zero."@,
        FaultM::Internal { .. } => "Internal error: invalid bytecode reached."@,
    }
}

impl RuntimeFault {
    /// The source line the fault names.
    pub fn line(&self) -> (l: usize)
        ensures
            l == fault_line(self@),
    {
        match self {
            RuntimeFault::TypeMismatch { line, .. } => *line,
            RuntimeFault::UndefinedVariable { line, .. } => *line,
            RuntimeFault::DivisionByZero { line } => *line,
            RuntimeFault::Internal { line } => *line,
        }
    }

    /// The fixed message text of the fault.
    pub fn message(&self) -> (m: &'static str)
        ensures
            m@ == fault_message(self@),
    {
        match self {
            RuntimeFault::TypeMismatch { op, .. } => match op {
                OpCode::Add => "Operands must be two numbers or two strings.",
                OpCode::Negate => "Operand must be a number.",
                _ => "Operands must be numbers.",
            },
            RuntimeFault::UndefinedVariable { .. } => "Undefined variable.",
            RuntimeFault::DivisionByZero { .. } => "Division by zero.",
            RuntimeFault::Internal { .. } => "Internal error: invalid bytecode reached.",
        }
    }
}

/// One entry of the global-variable table.
pub struct GlobalEntry {
    pub name: Vec<u8>,
    pub value: Value,
}

impl View for GlobalEntry {
    type V = GlobalM;

    open spec fn view(&self) -> GlobalM {
        GlobalM { name: self.name@, value: self.value@ }
    }
}

/// The model of an operand stack.
pub open spec fn stack_model_of(s: Seq<Value>) -> Seq<ValueM> {
    s.map_values(|v: Value| v@)
}

/// The model of a global table.
pub open spec fn globals_model_of(gs: Seq<GlobalEntry>) -> Seq<GlobalM> {
    gs.map_values(|e: GlobalEntry| e@)
}

/// The model of the output buffer.
pub open spec fn output_model_of(os: Seq<Vec<u8>>) -> Seq<Seq<u8>> {
    os.map_values(|o: Vec<u8>| o@)
}

pub proof fn lemma_stack_push(s: Seq<Value>, x: Value)
    ensures
        stack_model_of(s.push(x)) =~= stack_model_of(s).push(x@),
{
}

pub proof fn lemma_stack_sub(s: Seq<Value>, a: int, b: int)
    requires
        0 <= a <= b <= s.len(),
    ensures
        stack_model_of(s.subrange(a, b)) =~= stack_model_of(s).subrange(a, b),
{
}

pub proof fn lemma_stack_update(s: Seq<Value>, i: int, x: Value)
    requires
        0 <= i < s.len(),
    ensures
        stack_model_of(s.update(i, x)) =~= stack_model_of(s).update(i, x@),
{
}

pub proof fn lemma_globals_push(gs: Seq<GlobalEntry>, e: GlobalEntry)
    ensures
        globals_model_of(gs.push(e)) =~= globals_model_of(gs).push(e@),
{
}

pub proof fn lemma_globals_update(gs: Seq<GlobalEntry>, i: int, e: GlobalEntry)
    requires
        0 <= i < gs.len(),
    ensures
        globals_model_of(gs.update(i, e)) =~= globals_model_of(gs).update(i, e@),
{
}

pub proof fn lemma_output_push(os: Seq<Vec<u8>>, o: Vec<u8>)
    ensures
        output_model_of(os.push(o)) =~= output_model_of(os).push(o@),
{
}

/// Where the first entry named `name` sits, [`lookup`] finds its value.
pub proof fn lemma_lookup_at(gs: Seq<GlobalM>, name: Seq<u8>, i: int)
    requires
        0 <= i < gs.len(),
        gs[i].name == name,
        forall|j: int| 0 <= j < i ==> (#[trigger] gs[j]).name != name,
    ensures
        lookup(gs, name) == Some(gs[i].value),
    decreases i,
{
    if i > 0 {
        let tail = gs.subrange(1, gs.len() as int);
        lemma_lookup_at(tail, name, i - 1);
    }
}

/// Where no entry is named `name`, [`lookup`] finds nothing.
pub proof fn lemma_lookup_none(gs: Seq<GlobalM>, name: Seq<u8>)
    requires
        forall|j: int| 0 <= j < gs.len() ==> (#[trigger] gs[j]).name != name,
    ensures
        lookup(gs, name) == None::<ValueM>,
    decreases gs.len(),
{
    if gs.len() > 0 {
        lemma_lookup_none(gs.subrange(1, gs.len() as int), name);
    }
}

/// Where the first entry named `name` sits at `i`, [`store`] overwrites
/// exactly that entry.
pub proof fn lemma_store_at(gs: Seq<GlobalM>, name: Seq<u8>, v: ValueM, i: int)
    requires
        0 <= i < gs.len(),
        gs[i].name == name,
        forall|j: int| 0 <= j < i ==> (#[trigger] gs[j]).name != name,
    ensures
        store(gs, name, v) =~= gs.update(i, GlobalM { name, value: v }),
    decreases i,
{
    if i == 0 {
        assert(store(gs, name, v) =~= gs.update(0, GlobalM { name, value: v }));
    } else {
        let tail = gs.subrange(1, gs.len() as int);
        lemma_store_at(tail, name, v, i - 1);
        assert(store(gs, name, v) =~= seq![gs[0]] + tail.update(
            i - 1,
            GlobalM { name, value: v },
        ));
        assert(seq![gs[0]] + tail.update(i - 1, GlobalM { name, value: v }) =~= gs.update(
            i,
            GlobalM { name, value: v },
        ));
    }
}

/// Where no entry is named `name`, [`store`] appends a fresh entry.
pub proof fn lemma_store_none(gs: Seq<GlobalM>, name: Seq<u8>, v: ValueM)
    requires
        forall|j: int| 0 <= j < gs.len() ==> (#[trigger] gs[j]).name != name,
    ensures
        store(gs, name, v) =~= gs.push(GlobalM { name, value: v }),
    decreases gs.len(),
{
    if gs.len() == 0 {
        assert(store(gs, name, v) =~= gs.push(GlobalM { name, value: v }));
    } else {
        let tail = gs.subrange(1, gs.len() as int);
        lemma_store_none(tail, name, v);
        assert(store(gs, name, v) =~= seq![gs[0]] + tail.push(GlobalM { name, value: v }));
        assert(seq![gs[0]] + tail.push(GlobalM { name, value: v }) =~= gs.push(
            GlobalM { name, value: v },
        ));
    }
}

/// Binding a name, then looking a name up: the bound name answers with
/// the bound value, every other name is untouched.
pub proof fn lemma_lookup_store(gs: Seq<GlobalM>, name: Seq<u8>, v: ValueM, other: Seq<u8>)
    ensures
        lookup(store(gs, name, v), other) == if other == name {
            Some(v)
        } else {
            lookup(gs, other)
        },
    decreases gs.len(),
{
    let stored = store(gs, name, v);
    if gs.len() == 0 {
        assert(stored =~= seq![GlobalM { name, value: v }]);
        assert(stored.subrange(1, stored.len() as int) =~= Seq::<GlobalM>::empty());
        assert(lookup(stored.subrange(1, stored.len() as int), other) == None::<ValueM>);
        if other == name {
            assert(lookup(stored, other) == Some(v));
        } else {
            assert(lookup(stored, other) == None::<ValueM>);
        }
    } else if gs[0].name == name {
        assert(stored =~= seq![GlobalM { name, value: v }] + gs.subrange(1, gs.len() as int));
        assert(stored.subrange(1, stored.len() as int) =~= gs.subrange(1, gs.len() as int));
        if other == name {
            assert(lookup(stored, other) == Some(v));
        } else {
            assert(lookup(stored, other) == lookup(gs.subrange(1, gs.len() as int), other));
            assert(lookup(gs, other) == lookup(gs.subrange(1, gs.len() as int), other));
        }
    } else {
        let tail = gs.subrange(1, gs.len() as int);
        lemma_lookup_store(tail, name, v, other);
        assert(stored =~= seq![gs[0]] + store(tail, name, v));
        assert(stored.subrange(1, stored.len() as int) =~= store(tail, name, v));
        assert(stored[0] == gs[0]);
        if gs[0].name == other {
            assert(lookup(stored, other) == Some(gs[0].value));
            assert(lookup(gs, other) == Some(gs[0].value));
        } else {
            assert(lookup(stored, other) == lookup(store(tail, name, v), other));
            assert(lookup(gs, other) == lookup(tail, other));
        }
    }
}

/// Finds the first global-table entry with the given name.
fn find_global(globals: &Vec<GlobalEntry>, name: &Vec<u8>) -> (r: Option<usize>)
    ensures
        match r {
            Some(i) => {
                &&& (i as int) < globals@.len()
                &&& globals@[i as int]@.name == name@
                &&& forall|j: int| 0 <= j < i ==> (#[trigger] globals@[j])@.name != name@
            },
            None => forall|j: int|
                0 <= j < globals@.len() ==> (#[trigger] globals@[j])@.name != name@,
        },
{
    let n: usize = globals.len();
    let mut i: usize = 0;
    while i < n
        invariant
            n == globals@.len(),
            i <= n,
            forall|j: int| 0 <= j < i ==> (#[trigger] globals@[j])@.name != name@,
        decreases n - i,
    {
        if crate::value::bytes_eq(&globals[i].name, name) {
            return Some(i);
        }
        i = i + 1;
    }
    None
}

/// The magnitude of a number, as an unsigned machine word.
fn mag_u64(a: i64) -> (m: u64)
    ensures
        m as nat == mag(a),
{
    if a == i64::MIN {
        9223372036854775808u64
    } else if a < 0 {
        (-a) as u64
    } else {
        a as u64
    }
}

/// What one run of the machine yielded: a successful halt, a runtime
/// fault, or an exhausted step budget.
pub enum RunOutcome {
    Done,
    Fault(RuntimeFault),
    OutOfSteps,
}

/// The virtual machine: an operand stack, a global-variable table, and a
/// buffer of rendered print output.  The global table persists across
/// runs on the same instance; the caller drains the output.
pub struct VM {
    pub stack: Vec<Value>,
    pub globals: Vec<GlobalEntry>,
    pub output: Vec<Vec<u8>>,
}

impl VM {
    /// The model of the operand stack.
    pub open spec fn stack_model(&self) -> Seq<ValueM> {
        stack_model_of(self.stack@)
    }

    /// The model of the global table.
    pub open spec fn globals_model(&self) -> Seq<GlobalM> {
        globals_model_of(self.globals@)
    }

    /// The model of the output buffer.
    pub open spec fn output_model(&self) -> Seq<Seq<u8>> {
        output_model_of(self.output@)
    }

    /// A fresh machine: empty stack, no globals, no output.
    pub fn new() -> (vm: VM)
        ensures
            vm.stack_model() =~= Seq::<ValueM>::empty(),
            vm.globals_model() =~= Seq::<GlobalM>::empty(),
            vm.output_model() =~= Seq::<Seq<u8>>::empty(),
    {
        VM { stack: Vec::new(), globals: Vec::new(), output: Vec::new() }
    }

    /// Removes the top of the stack; the model loses its last value.
    fn pop1(&mut self) -> (v: Value)
        requires
            old(self).stack_model().len() >= 1,
        ensures
            v@ == old(self).stack_model().last(),
            final(self).stack_model() =~= old(self).stack_model().drop_last(),
            final(self).globals == old(self).globals,
            final(self).output == old(self).output,
    {
        proof {
            lemma_stack_sub(self.stack@, 0, self.stack@.len() - 1);
            assert(self.stack_model().subrange(0, self.stack_model().len() - 1)
                =~= self.stack_model().drop_last());
        }
        self.stack.pop().unwrap()
    }

    /// Pushes a value; the model gains it as its last value.
    fn push1(&mut self, v: Value)
        ensures
            final(self).stack_model() =~= old(self).stack_model().push(v@),
            final(self).globals == old(self).globals,
            final(self).output == old(self).output,
    {
        proof {
            lemma_stack_push(self.stack@, v);
        }
        self.stack.push(v);
    }

    /// The fetch-dispatch loop over a well-formed chunk, from instruction
    /// pointer zero and the machine's current stack, globals and output,
    /// spending at most `fuel` steps.  The result is exactly what
    /// iterating [`step`] yields: a successful halt or a fault within
    /// `fuel` steps, reported as such with the machine left in the halt
    /// state; or the budget ran out with the machine still mid-run.
    pub fn run(&mut self, chunk: &Chunk, fuel: u64) -> (r: RunOutcome)
        requires
            chunk_wf(chunk@),
        ensures
            ({
                let init = MState {
                    ip: 0,
                    stack: old(self).stack_model(),
                    globals: old(self).globals_model(),
                    output: old(self).output_model(),
                };
                match r {
                    RunOutcome::Done => exists|n: nat|
                        {
                            let res = #[trigger] run_n(chunk@, init, n);
                            &&& res is Done
                            &&& step_state(res).stack == final(self).stack_model()
                            &&& step_state(res).globals == final(self).globals_model()
                            &&& step_state(res).output == final(self).output_model()
                        },
                    RunOutcome::Fault(f) => exists|n: nat|
                        {
                            let res = #[trigger] run_n(chunk@, init, n);
                            &&& res is Fault
                            &&& step_fault(res) == Some(f@)
                            &&& step_state(res).stack == final(self).stack_model()
                            &&& step_state(res).globals == final(self).globals_model()
                            &&& step_state(res).output == final(self).output_model()
                        },
                    RunOutcome::OutOfSteps => {
                        let res = run_n(chunk@, init, fuel as nat);
                        &&& res is Next
                        &&& step_state(res).stack == final(self).stack_model()
                        &&& step_state(res).globals == final(self).globals_model()
                        &&& step_state(res).output == final(self).output_model()
                    },
                }
            }),
    {
        let ghost init = MState {
            ip: 0,
            stack: self.stack_model(),
            globals: self.globals_model(),
            output: self.output_model(),
        };
        let code_len: usize = chunk.code.len();
        let mut ip: usize = 0;
        let mut fuel_left: u64 = fuel;
        let ghost mut steps: nat = 0;
        loop
            invariant
                chunk_wf(chunk@),
                code_len == chunk@.code.len(),
                steps + fuel_left == fuel,
                init == (MState {
                    ip: 0,
                    stack: old(self).stack_model(),
                    globals: old(self).globals_model(),
                    output: old(self).output_model(),
                }),
                run_n(chunk@, init, steps) == StepR::Next(
                    MState {
                        ip: ip as int,
                        stack: self.stack_model(),
                        globals: self.globals_model(),
                        output: self.output_model(),
                    },
                ),
            decreases fuel_left,
        {
            let ghost pre = MState {
                ip: ip as int,
                stack: self.stack_model(),
                globals: self.globals_model(),
                output: self.output_model(),
            };
            if ip >= code_len {
                proof {
                    assert(step(chunk@, pre) == StepR::Done(pre));
                    assert(run_n(chunk@, init, steps + 1) == StepR::Done(pre));
                }
                return RunOutcome::Done;
            }
            if fuel_left == 0 {
                return RunOutcome::OutOfSteps;
            }
            fuel_left = fuel_left - 1;
            proof {
                assert(run_n(chunk@, init, steps + 1) == step(chunk@, pre));
                assert(op_wf(
                    chunk@.code[ip as int],
                    ip as int,
                    chunk@.code.len() as int,
                    chunk@.constants,
                ));
            }
            let op: OpCode = chunk.code[ip];
            match op {
                OpCode::Constant(k) => {
                    let v: Value = chunk.constants[k as usize].duplicate();
                    self.push1(v);
                    ip = ip + 1;
                    proof {
                        assert(step(chunk@, pre) == StepR::Next(push_v(pre, v@)));
                        steps = steps + 1;
                    }
                },
                OpCode::Nil => {
                    self.push1(Value::Nil);
                    ip = ip + 1;
                    proof {
                        steps = steps + 1;
                    }
                },
                OpCode::True => {
                    self.push1(Value::Boolean(true));
                    ip = ip + 1;
                    proof {
                        steps = steps + 1;
                    }
                },
                OpCode::False => {
                    self.push1(Value::Boolean(false));
                    ip = ip + 1;
                    proof {
                        steps = steps + 1;
                    }
                },
                OpCode::Pop => {
                    if self.stack.len() < 1 {
                        let f = RuntimeFault::Internal { line: chunk.line_of(ip) };
                        proof {
                            assert(run_n(chunk@, init, steps + 1) == StepR::Fault(f@, pre));
                        }
                        return RunOutcome::Fault(f);
                    }
                    let _discarded: Value = self.pop1();
                    ip = ip + 1;
                    proof {
                        steps = steps + 1;
                    }
                },
                OpCode::Negate => {
                    if self.stack.len() < 1 {
                        let f = RuntimeFault::Internal { line: chunk.line_of(ip) };
                        proof {
                            assert(run_n(chunk@, init, steps + 1) == StepR::Fault(f@, pre));
                        }
                        return RunOutcome::Fault(f);
                    }
                    let a: Value = self.pop1();
                    match a {
                        Value::Number(x) => {
                            let nx: i64 = if x == i64::MIN {
                                i64::MIN
                            } else {
                                -x
                            };
                            self.push1(Value::Number(nx));
                            ip = ip + 1;
                            proof {
                                assert(nx == neg_wrap(x));
                                steps = steps + 1;
                            }
                        },
                        _other => {
                            let f = RuntimeFault::TypeMismatch { op, line: chunk.line_of(ip) };
                            proof {
                                assert(run_n(chunk@, init, steps + 1) == StepR::Fault(
                                    f@,
                                    unop_fault(pre),
                                ));
                            }
                            return RunOutcome::Fault(f);
                        },
                    }
                },
                OpCode::Not => {
                    if self.stack.len() < 1 {
                        let f = RuntimeFault::Internal { line: chunk.line_of(ip) };
                        proof {
                            assert(run_n(chunk@, init, steps + 1) == StepR::Fault(f@, pre));
                        }
                        return RunOutcome::Fault(f);
                    }
                    let a: Value = self.pop1();
                    let falsy: bool = !a.truthy();
                    self.push1(Value::Boolean(falsy));
                    ip = ip + 1;
                    proof {
                        steps = steps + 1;
                    }
                },
                OpCode::Add => {
                    if self.stack.len() < 2 {
                        let f = RuntimeFault::Internal { line: chunk.line_of(ip) };
                        proof {
                            assert(run_n(chunk@, init, steps + 1) == StepR::Fault(f@, pre));
                        }
                        return RunOutcome::Fault(f);
                    }
                    let b: Value = self.pop1();
                    let a: Value = self.pop1();
                    proof {
                        assert(a@ == pre.stack[pre.stack.len() - 2]);
                    }
                    match (a, b) {
                        (Value::Number(x), Value::Number(y)) => {
                            self.push1(Value::Number(x.wrapping_add(y)));
                            ip = ip + 1;
                            proof {
                                steps = steps + 1;
                            }
                        },
                        (Value::Str(xs), Value::Str(ys)) => {
                            let mut xs: Vec<u8> = xs;
                            let mut ys: Vec<u8> = ys;
                            let ghost xm = xs@;
                            let ghost ym = ys@;
                            xs.append(&mut ys);
                            proof {
                                assert(xs@ == xm + ym);
                            }
                            self.push1(Value::Str(xs));
                            ip = ip + 1;
                            proof {
                                steps = steps + 1;
                            }
                        },
                        _other => {
                            let f = RuntimeFault::TypeMismatch { op, line: chunk.line_of(ip) };
                            proof {
                                assert(self.stack_model() =~= pre.stack.drop_last().drop_last());
                                assert(run_n(chunk@, init, steps + 1) == StepR::Fault(
                                    f@,
                                    binop_fault(pre),
                                ));
                            }
                            return RunOutcome::Fault(f);
                        },
                    }
                },
                OpCode::Subtract => {
                    if self.stack.len() < 2 {
                        let f = RuntimeFault::Internal { line: chunk.line_of(ip) };
                        proof {
                            assert(run_n(chunk@, init, steps + 1) == StepR::Fault(f@, pre));
                        }
                        return RunOutcome::Fault(f);
                    }
                    let b: Value = self.pop1();
                    let a: Value = self.pop1();
                    proof {
                        assert(a@ == pre.stack[pre.stack.len() - 2]);
                    }
                    match (a, b) {
                        (Value::Number(x), Value::Number(y)) => {
                            self.push1(Value::Number(x.wrapping_sub(y)));
                            ip = ip + 1;
                            proof {
                                steps = steps + 1;
                            }
                        },
                        _other => {
                            let f = RuntimeFault::TypeMismatch { op, line: chunk.line_of(ip) };
                            proof {
                                assert(self.stack_model() =~= pre.stack.drop_last().drop_last());
                                assert(run_n(chunk@, init, steps + 1) == StepR::Fault(
                                    f@,
                                    binop_fault(pre),
                                ));
                            }
                            return RunOutcome::Fault(f);
                        },
                    }
                },
                OpCode::Multiply => {
                    if self.stack.len() < 2 {
                        let f = RuntimeFault::Internal { line: chunk.line_of(ip) };
                        proof {
                            assert(run_n(chunk@, init, steps + 1) == StepR::Fault(f@, pre));
                        }
                        return RunOutcome::Fault(f);
                    }
                    let b: Value = self.pop1();
                    let a: Value = self.pop1();
                    proof {
                        assert(a@ == pre.stack[pre.stack.len() - 2]);
                    }
                    match (a, b) {
                        (Value::Number(x), Value::Number(y)) => {
                            self.push1(Value::Number(x.wrapping_mul(y)));
                            ip = ip + 1;
                            proof {
                                steps = steps + 1;
                            }
                        },
                        _other => {
                            let f = RuntimeFault::TypeMismatch { op, line: chunk.line_of(ip) };
                            proof {
                                assert(self.stack_model() =~= pre.stack.drop_last().drop_last());
                                assert(run_n(chunk@, init, steps + 1) == StepR::Fault(
                                    f@,
                                    binop_fault(pre),
                                ));
                            }
                            return RunOutcome::Fault(f);
                        },
                    }
                },
                OpCode::Divide => {
                    if self.stack.len() < 2 {
                        let f = RuntimeFault::Internal { line: chunk.line_of(ip) };
                        proof {
                            assert(run_n(chunk@, init, steps + 1) == StepR::Fault(f@, pre));
                        }
                        return RunOutcome::Fault(f);
                    }
                    let b: Value = self.pop1();
                    let a: Value = self.pop1();
                    proof {
                        assert(a@ == pre.stack[pre.stack.len() - 2]);
                    }
                    match (a, b) {
                        (Value::Number(x), Value::Number(y)) => {
                            if y == 0 {
                                let f = RuntimeFault::DivisionByZero { line: chunk.line_of(ip) };
                                proof {
                                    assert(self.stack_model() =~= pre.stack.drop_last().drop_last());
                                    assert(run_n(chunk@, init, steps + 1) == StepR::Fault(
                                        f@,
                                        binop_fault(pre),
                                    ));
                                }
                                return RunOutcome::Fault(f);
                            }
                            let q: u64 = mag_u64(x) / mag_u64(y);
                            let r: i64 = if (x < 0) == (y < 0) {
                                if q > 9223372036854775807u64 {
                                    i64::MIN
                                } else {
                                    q as i64
                                }
                            } else {
                                if q == 9223372036854775808u64 {
                                    i64::MIN
                                } else {
                                    -(q as i64)
                                }
                            };
                            proof {
                                assert(mag(x) <= 9223372036854775808);
                                assert(mag(y) >= 1);
                                assert(q as nat == mag(x) / mag(y));
                                assert(r == div_trunc(x, y));
                            }
                            self.push1(Value::Number(r));
                            ip = ip + 1;
                            proof {
                                steps = steps + 1;
                            }
                        },
                        _other => {
                            let f = RuntimeFault::TypeMismatch { op, line: chunk.line_of(ip) };
                            proof {
                                assert(self.stack_model() =~= pre.stack.drop_last().drop_last());
                                assert(run_n(chunk@, init, steps + 1) == StepR::Fault(
                                    f@,
                                    binop_fault(pre),
                                ));
                            }
                            return RunOutcome::Fault(f);
                        },
                    }
                },
                OpCode::Equal => {
                    if self.stack.len() < 2 {
                        let f = RuntimeFault::Internal { line: chunk.line_of(ip) };
                        proof {
                            assert(run_n(chunk@, init, steps + 1) == StepR::Fault(f@, pre));
                        }
                        return RunOutcome::Fault(f);
                    }
                    let b: Value = self.pop1();
                    let a: Value = self.pop1();
                    proof {
                        assert(a@ == pre.stack[pre.stack.len() - 2]);
                    }
                    let eq: bool = a.equals(&b);
                    self.push1(Value::Boolean(eq));
                    ip = ip + 1;
                    proof {
                        steps = steps + 1;
                    }
                },
                OpCode::Greater => {
                    if self.stack.len() < 2 {
                        let f = RuntimeFault::Internal { line: chunk.line_of(ip) };
                        proof {
                            assert(run_n(chunk@, init, steps + 1) == StepR::Fault(f@, pre));
                        }
                        return RunOutcome::Fault(f);
                    }
                    let b: Value = self.pop1();
                    let a: Value = self.pop1();
                    proof {
                        assert(a@ == pre.stack[pre.stack.len() - 2]);
                    }
                    match (a, b) {
                        (Value::Number(x), Value::Number(y)) => {
                            self.push1(Value::Boolean(x > y));
                            ip = ip + 1;
                            proof {
                                steps = steps + 1;
                            }
                        },
                        _other => {
                            let f = RuntimeFault::TypeMismatch { op, line: chunk.line_of(ip) };
                            proof {
                                assert(self.stack_model() =~= pre.stack.drop_last().drop_last());
                                assert(run_n(chunk@, init, steps + 1) == StepR::Fault(
                                    f@,
                                    binop_fault(pre),
                                ));
                            }
                            return RunOutcome::Fault(f);
                        },
                    }
                },
                OpCode::Less => {
                    if self.stack.len() < 2 {
                        let f = RuntimeFault::Internal { line: chunk.line_of(ip) };
                        proof {
                            assert(run_n(chunk@, init, steps + 1) == StepR::Fault(f@, pre));
                        }
                        return RunOutcome::Fault(f);
                    }
                    let b: Value = self.pop1();
                    let a: Value = self.pop1();
                    proof {
                        assert(a@ == pre.stack[pre.stack.len() - 2]);
                    }
                    match (a, b) {
                        (Value::Number(x), Value::Number(y)) => {
                            self.push1(Value::Boolean(x < y));
                            ip = ip + 1;
                            proof {
                                steps = steps + 1;
                            }
                        },
                        _other => {
                            let f = RuntimeFault::TypeMismatch { op, line: chunk.line_of(ip) };
                            proof {
                                assert(self.stack_model() =~= pre.stack.drop_last().drop_last());
                                assert(run_n(chunk@, init, steps + 1) == StepR::Fault(
                                    f@,
                                    binop_fault(pre),
                                ));
                            }
                            return RunOutcome::Fault(f);
                        },
                    }
                },
                OpCode::GetLocal(k) => {
                    if (k as usize) >= self.stack.len() {
                        let f = RuntimeFault::Internal { line: chunk.line_of(ip) };
                        proof {
                            assert(run_n(chunk@, init, steps + 1) == StepR::Fault(f@, pre));
                        }
                        return RunOutcome::Fault(f);
                    }
                    let v: Value = self.stack[k as usize].duplicate();
                    self.push1(v);
                    ip = ip + 1;
                    proof {
                        assert(v@ == pre.stack[k as int]);
                        steps = steps + 1;
                    }
                },
                OpCode::SetLocal(k) => {
                    let n: usize = self.stack.len();
                    if n < 1 || (k as usize) >= n {
                        let f = RuntimeFault::Internal { line: chunk.line_of(ip) };
                        proof {
                            assert(run_n(chunk@, init, steps + 1) == StepR::Fault(f@, pre));
                        }
                        return RunOutcome::Fault(f);
                    }
                    let v: Value = self.stack[n - 1].duplicate();
                    proof {
                        assert(v@ == pre.stack.last());
                        lemma_stack_update(self.stack@, k as int, v);
                    }
                    self.stack[k as usize] = v;
                    ip = ip + 1;
                    proof {
                        steps = steps + 1;
                    }
                },
                OpCode::GetGlobal(k) => {
                    let cval: &Value = &chunk.constants[k as usize];
                    match cval {
                        Value::Str(nm) => {
                            proof {
                                assert(chunk@.constants[k as int] == ValueM::Str(nm@));
                            }
                            match find_global(&self.globals, nm) {
                                Some(i) => {
                                    proof {
                                        assert forall|j: int| 0 <= j < i as int implies (
                                        #[trigger] pre.globals[j]).name != nm@ by {
                                            assert(pre.globals[j] == self.globals@[j]@);
                                        }
                                        assert(pre.globals[i as int] == self.globals@[i as int]@);
                                        lemma_lookup_at(pre.globals, nm@, i as int);
                                    }
                                    let v: Value = self.globals[i].value.duplicate();
                                    self.push1(v);
                                    ip = ip + 1;
                                    proof {
                                        steps = steps + 1;
                                    }
                                },
                                None => {
                                    proof {
                                        assert forall|j: int|
                                            0 <= j < pre.globals.len() implies (
                                        #[trigger] pre.globals[j]).name != nm@ by {
                                            assert(pre.globals[j] == self.globals@[j]@);
                                        }
                                        lemma_lookup_none(pre.globals, nm@);
                                    }
                                    let f = RuntimeFault::UndefinedVariable {
                                        name: crate::value::copy_bytes(nm),
                                        line: chunk.line_of(ip),
                                    };
                                    proof {
                                        assert(run_n(chunk@, init, steps + 1) == StepR::Fault(
                                            f@,
                                            pre,
                                        ));
                                    }
                                    return RunOutcome::Fault(f);
                                },
                            }
                        },
                        _ => {
                            let f = RuntimeFault::Internal { line: chunk.line_of(ip) };
                            proof {
                                assert(run_n(chunk@, init, steps + 1) == StepR::Fault(f@, pre));
                            }
                            return RunOutcome::Fault(f);
                        },
                    }
                },
                OpCode::SetGlobal(k) => {
                    let cval: &Value = &chunk.constants[k as usize];
                    match cval {
                        Value::Str(nm) => {
                            proof {
                                assert(chunk@.constants[k as int] == ValueM::Str(nm@));
                            }
                            let n: usize = self.stack.len();
                            if n < 1 {
                                let f = RuntimeFault::Internal { line: chunk.line_of(ip) };
                                proof {
                                    assert(run_n(chunk@, init, steps + 1) == StepR::Fault(f@, pre));
                                }
                                return RunOutcome::Fault(f);
                            }
                            let v: Value = self.stack[n - 1].duplicate();
                            proof {
                                assert(v@ == pre.stack.last());
                            }
                            match find_global(&self.globals, nm) {
                                Some(i) => {
                                    let entry = GlobalEntry {
                                        name: crate::value::copy_bytes(nm),
                                        value: v,
                                    };
                                    proof {
                                        assert forall|j: int| 0 <= j < i as int implies (
                                        #[trigger] pre.globals[j]).name != nm@ by {
                                            assert(pre.globals[j] == self.globals@[j]@);
                                        }
                                        assert(pre.globals[i as int] == self.globals@[i as int]@);
                                        lemma_lookup_at(pre.globals, nm@, i as int);
                                        lemma_store_at(pre.globals, nm@, v@, i as int);
                                        lemma_globals_update(self.globals@, i as int, entry);
                                    }
                                    self.globals[i] = entry;
                                    ip = ip + 1;
                                    proof {
                                        assert(self.globals_model() =~= store(
                                            pre.globals,
                                            nm@,
                                            pre.stack.last(),
                                        ));
                                        steps = steps + 1;
                                    }
                                },
                                None => {
                                    proof {
                                        assert forall|j: int|
                                            0 <= j < pre.globals.len() implies (
                                        #[trigger] pre.globals[j]).name != nm@ by {
                                            assert(pre.globals[j] == self.globals@[j]@);
                                        }
                                        lemma_lookup_none(pre.globals, nm@);
                                    }
                                    let f = RuntimeFault::UndefinedVariable {
                                        name: crate::value::copy_bytes(nm),
                                        line: chunk.line_of(ip),
                                    };
                                    proof {
                                        assert(run_n(chunk@, init, steps + 1) == StepR::Fault(
                                            f@,
                                            pre,
                                        ));
                                    }
                                    return RunOutcome::Fault(f);
                                },
                            }
                        },
                        _ => {
                            let f = RuntimeFault::Internal { line: chunk.line_of(ip) };
                            proof {
                                assert(run_n(chunk@, init, steps + 1) == StepR::Fault(f@, pre));
                            }
                            return RunOutcome::Fault(f);
                        },
                    }
                },
                OpCode::DefineGlobal(k) => {
                    let cval: &Value = &chunk.constants[k as usize];
                    match cval {
                        Value::Str(nm) => {
                            proof {
                                assert(chunk@.constants[k as int] == ValueM::Str(nm@));
                            }
                            if self.stack.len() < 1 {
                                let f = RuntimeFault::Internal { line: chunk.line_of(ip) };
                                proof {
                                    assert(run_n(chunk@, init, steps + 1) == StepR::Fault(f@, pre));
                                }
                                return RunOutcome::Fault(f);
                            }
                            let v: Value = self.pop1();
                            proof {
                                assert(v@ == pre.stack.last());
                            }
                            match find_global(&self.globals, nm) {
                                Some(i) => {
                                    let entry = GlobalEntry {
                                        name: crate::value::copy_bytes(nm),
                                        value: v,
                                    };
                                    proof {
                                        assert forall|j: int| 0 <= j < i as int implies (
                                        #[trigger] pre.globals[j]).name != nm@ by {
                                            assert(pre.globals[j] == self.globals@[j]@);
                                        }
                                        assert(pre.globals[i as int] == self.globals@[i as int]@);
                                        lemma_store_at(pre.globals, nm@, entry@.value, i as int);
                                        lemma_globals_update(self.globals@, i as int, entry);
                                    }
                                    self.globals[i] = entry;
                                    ip = ip + 1;
                                    proof {
                                        assert(self.globals_model() =~= store(
                                            pre.globals,
                                            nm@,
                                            pre.stack.last(),
                                        ));
                                        steps = steps + 1;
                                    }
                                },
                                None => {
                                    let entry = GlobalEntry {
                                        name: crate::value::copy_bytes(nm),
                                        value: v,
                                    };
                                    proof {
                                        assert forall|j: int|
                                            0 <= j < pre.globals.len() implies (
                                        #[trigger] pre.globals[j]).name != nm@ by {
                                            assert(pre.globals[j] == self.globals@[j]@);
                                        }
                                        lemma_store_none(pre.globals, nm@, entry@.value);
                                        lemma_globals_push(self.globals@, entry);
                                    }
                                    self.globals.push(entry);
                                    ip = ip + 1;
                                    proof {
                                        assert(self.globals_model() =~= store(
                                            pre.globals,
                                            nm@,
                                            pre.stack.last(),
                                        ));
                                        steps = steps + 1;
                                    }
                                },
                            }
                        },
                        _ => {
                            let f = RuntimeFault::Internal { line: chunk.line_of(ip) };
                            proof {
                                assert(run_n(chunk@, init, steps + 1) == StepR::Fault(f@, pre));
                            }
                            return RunOutcome::Fault(f);
                        },
                    }
                },
                OpCode::Print => {
                    if self.stack.len() < 1 {
                        let f = RuntimeFault::Internal { line: chunk.line_of(ip) };
                        proof {
                            assert(run_n(chunk@, init, steps + 1) == StepR::Fault(f@, pre));
                        }
                        return RunOutcome::Fault(f);
                    }
                    let v: Value = self.pop1();
                    let rendered: Vec<u8> = v.render();
                    proof {
                        lemma_output_push(self.output@, rendered);
                    }
                    self.output.push(rendered);
                    ip = ip + 1;
                    proof {
                        steps = steps + 1;
                    }
                },
                OpCode::Jump(d) => {
                    proof {
                        assert(ip + 1 + d <= code_len);
                    }
                    ip = ip + 1 + d;
                    proof {
                        steps = steps + 1;
                    }
                },
                OpCode::JumpIfFalse(d) => {
                    if self.stack.len() < 1 {
                        let f = RuntimeFault::Internal { line: chunk.line_of(ip) };
                        proof {
                            assert(run_n(chunk@, init, steps + 1) == StepR::Fault(f@, pre));
                        }
                        return RunOutcome::Fault(f);
                    }
                    let cond: Value = self.pop1();
                    proof {
                        assert(ip + 1 + d <= code_len);
                    }
                    if cond.truthy() {
                        ip = ip + 1;
                    } else {
                        ip = ip + 1 + d;
                    }
                    proof {
                        steps = steps + 1;
                    }
                },
                OpCode::Loop(d) => {
                    proof {
                        assert(d <= ip + 1);
                    }
                    ip = ip + 1 - d;
                    proof {
                        steps = steps + 1;
                    }
                },
                OpCode::Return => {
                    proof {
                        assert(step(chunk@, pre) == StepR::Done(pre));
                        assert(run_n(chunk@, init, steps + 1) == StepR::Done(pre));
                    }
                    return RunOutcome::Done;
                },
            }
        }
    }
}


/// A chunk holding only `Return` halts at once, in its start state.
proof fn lemma_single_return_runs(c: ChunkM, s: MState, n: nat)
    requires
        c.code.len() == 1,
        c.code[0] == OpCode::Return,
        s.ip == 0,
        n >= 1,
    ensures
        run_n(c, s, n) == StepR::Done(s),
    decreases n,
{
    if n == 1 {
        assert(run_n(c, s, 0nat) == StepR::Next(s));
        assert(step(c, s) == StepR::Done(s));
    } else {
        lemma_single_return_runs(c, s, (n - 1) as nat);
    }
}

/// A chunk of exactly one constant load, `Print` and `Return` halts after
/// three steps, having printed the constant's rendering and nothing else.
proof fn lemma_print_literal_runs(c: ChunkM, s: MState, n: nat, v: i64)
    requires
        c.code.len() == 3,
        c.code[0] == OpCode::Constant(0),
        c.code[1] == OpCode::Print,
        c.code[2] == OpCode::Return,
        c.constants.len() == 1,
        c.constants[0] == ValueM::Number(v),
        s.ip == 0,
        s.stack.len() == 0,
        n >= 3,
    ensures
        run_n(c, s, n) == StepR::Done(
            MState {
                ip: 2,
                stack: s.stack,
                globals: s.globals,
                output: s.output.push(value_rep(ValueM::Number(v))),
            },
        ),
    decreases n,
{
    let s1 = MState {
        ip: 1,
        stack: s.stack.push(ValueM::Number(v)),
        globals: s.globals,
        output: s.output,
    };
    let s2 = MState {
        ip: 2,
        stack: s.stack,
        globals: s.globals,
        output: s.output.push(value_rep(ValueM::Number(v))),
    };
    if n == 3 {
        assert(run_n(c, s, 0nat) == StepR::Next(s));
        assert(step(c, s) == StepR::Next(s1));
        assert(run_n(c, s, 1nat) == StepR::Next(s1));
        assert(s1.stack.drop_last() =~= s.stack);
        assert(step(c, s1) == StepR::Next(s2));
        assert(run_n(c, s, 2nat) == StepR::Next(s2));
        assert(step(c, s2) == StepR::Done(s2));
    } else {
        lemma_print_literal_runs(c, s, (n - 1) as nat, v);
    }
}

/// The outcome of one interpretation: success, a compile failure with its
/// diagnostics, a runtime fault, or an exhausted step budget.
pub enum InterpretResult {
    Success,
    CompileError(Vec<Diagnostic>),
    RuntimeError(RuntimeFault),
    OutOfSteps,
}

impl VM {
    /// Compiles and runs one source text with the given step budget.  The
    /// operand stack and the output buffer are reset first; the global
    /// table persists across calls on the same machine.  On a compile
    /// failure the diagnostics come back and nothing executes.  Otherwise
    /// some well-formed chunk is executed from scratch, and the outcome
    /// and the machine's final stack, globals and output are exactly what
    /// iterating [`step`] over that chunk yields.  A source with no
    /// tokens is guaranteed to succeed, with no output and the globals
    /// untouched; a source whose first token can begin no statement is
    /// guaranteed to be a compile failure; a program printing one number
    /// literal is guaranteed to print exactly that number's rendering.
    pub fn interpret(&mut self, source: &str, fuel: u64) -> (r: InterpretResult)
        requires
            source.spec_bytes().len() < usize::MAX,
        ensures
            ({
                let init = MState {
                    ip: 0,
                    stack: Seq::empty(),
                    globals: old(self).globals_model(),
                    output: Seq::empty(),
                };
                match r {
                    InterpretResult::Success => exists|c: ChunkM, n: nat|
                        {
                            let res = #[trigger] run_n(c, init, n);
                            &&& chunk_wf(c)
                            &&& c.code.len() >= 1
                            &&& c.code.last() == OpCode::Return
                            &&& res is Done
                            &&& step_state(res).stack == final(self).stack_model()
                            &&& step_state(res).globals == final(self).globals_model()
                            &&& step_state(res).output == final(self).output_model()
                        },
                    InterpretResult::CompileError(ds) => {
                        &&& ds@.len() > 0
                        &&& final(self).globals_model() == old(self).globals_model()
                        &&& final(self).stack_model() == Seq::<ValueM>::empty()
                        &&& final(self).output_model() == Seq::<Seq<u8>>::empty()
                    },
                    InterpretResult::RuntimeError(f) => exists|c: ChunkM, n: nat|
                        {
                            let res = #[trigger] run_n(c, init, n);
                            &&& chunk_wf(c)
                            &&& c.code.len() >= 1
                            &&& c.code.last() == OpCode::Return
                            &&& res is Fault
                            &&& step_fault(res) == Some(f@)
                            &&& step_state(res).stack == final(self).stack_model()
                            &&& step_state(res).globals == final(self).globals_model()
                            &&& step_state(res).output == final(self).output_model()
                        },
                    InterpretResult::OutOfSteps => exists|c: ChunkM|
                        {
                            let res = #[trigger] run_n(c, init, fuel as nat);
                            &&& chunk_wf(c)
                            &&& c.code.len() >= 1
                            &&& c.code.last() == OpCode::Return
                            &&& res is Next
                            &&& step_state(res).stack == final(self).stack_model()
                            &&& step_state(res).globals == final(self).globals_model()
                            &&& step_state(res).output == final(self).output_model()
                        },
                }
            }),
            ({
                let first = scan_spec(source.spec_bytes(), 0, 1).token_type;
                &&& (first != TokenType::Eof && starts_no_statement(first) ==> r
                    is CompileError)
                &&& (first == TokenType::Eof && fuel >= 1 ==> {
                    &&& r is Success
                    &&& final(self).stack_model() == Seq::<ValueM>::empty()
                    &&& final(self).output_model() == Seq::<Seq<u8>>::empty()
                    &&& final(self).globals_model() == old(self).globals_model()
                })
            }),
            ({
                let src = source.spec_bytes();
                let t1 = scan_spec(src, 0, 1);
                let t2 = scan_spec(src, t1.end, t1.line);
                let lex2 = src.subrange(t2.start, t2.end);
                let t3 = scan_spec(src, t2.end, t2.line);
                let t4 = scan_spec(src, t3.end, t3.line);
                t1.token_type == TokenType::Print && t2.token_type == TokenType::Number
                    && crate::compiler::all_digits(lex2) && lex2.len() > 0
                    && crate::compiler::digits_val(lex2) <= i64::MAX as int && t3.token_type
                    == TokenType::Semicolon && t4.token_type == TokenType::Eof && fuel >= 3 ==> {
                    &&& r is Success
                    &&& final(self).output_model() =~= seq![
                        value_rep(
                            ValueM::Number(crate::compiler::digits_val(lex2) as i64),
                        ),
                    ]
                    &&& final(self).stack_model() == Seq::<ValueM>::empty()
                    &&& final(self).globals_model() == old(self).globals_model()
                }
            }),
    {
        self.stack = Vec::new();
        self.output = Vec::new();
        proof {
            assert(self.stack_model() =~= Seq::<ValueM>::empty());
            assert(self.output_model() =~= Seq::<Seq<u8>>::empty());
        }
        let compiler: Compiler = Compiler::new(source);
        let mut chunk: Chunk = Chunk::new();
        let compiled: Result<(), Vec<Diagnostic>> = compiler.compile(&mut chunk);
        let ghost first = scan_spec(source.spec_bytes(), 0, 1).token_type;
        let ghost src = source.spec_bytes();
        let ghost t1 = scan_spec(src, 0, 1);
        let ghost t2 = scan_spec(src, t1.end, t1.line);
        let ghost lex2 = src.subrange(t2.start, t2.end);
        let ghost t3 = scan_spec(src, t2.end, t2.line);
        let ghost t4 = scan_spec(src, t3.end, t3.line);
        let ghost pnum = t1.token_type == TokenType::Print && t2.token_type == TokenType::Number
            && crate::compiler::all_digits(lex2) && lex2.len() > 0
            && crate::compiler::digits_val(lex2) <= i64::MAX as int && t3.token_type
            == TokenType::Semicolon && t4.token_type == TokenType::Eof;
        let ghost init = MState {
            ip: 0,
            stack: self.stack_model(),
            globals: self.globals_model(),
            output: self.output_model(),
        };
        match compiled {
            Err(ds) => {
                proof {
                    assert(first != TokenType::Eof);
                }
                InterpretResult::CompileError(ds)
            },
            Ok(()) => {
                proof {
                    assert(!(first != TokenType::Eof && starts_no_statement(first)));
                    if first == TokenType::Eof {
                        assert(chunk@.code =~= seq![OpCode::Return]);
                    }
                }
                let ghost v = crate::compiler::digits_val(lex2) as i64;
                proof {
                    if pnum {
                        assert(chunk@.code =~= seq![
                            OpCode::Constant(0),
                            OpCode::Print,
                            OpCode::Return,
                        ]);
                        assert(chunk@.constants =~= seq![ValueM::Number(v)]);
                    }
                }
                let outcome: RunOutcome = self.run(&chunk, fuel);
                proof {
                    if pnum && fuel >= 3 {
                        let done_state = MState {
                            ip: 2,
                            stack: init.stack,
                            globals: init.globals,
                            output: init.output.push(value_rep(ValueM::Number(v))),
                        };
                        match outcome {
                            RunOutcome::Done => {
                                let n = choose|n: nat|
                                    {
                                        let res = #[trigger] run_n(chunk@, init, n);
                                        &&& res is Done
                                        &&& step_state(res).stack == self.stack_model()
                                        &&& step_state(res).globals == self.globals_model()
                                        &&& step_state(res).output == self.output_model()
                                    };
                                assert(run_n(chunk@, init, n) is Done);
                                if n < 3 {
                                    assert(run_n(chunk@, init, 0nat) == StepR::Next(init));
                                    if n >= 1 {
                                        assert(run_n(chunk@, init, 1nat) == step(chunk@, init));
                                        assert(run_n(chunk@, init, 1nat) is Next);
                                    }
                                    if n >= 2 {
                                        lemma_print_literal_runs(chunk@, init, 3nat, v);
                                        assert(run_n(chunk@, init, 2nat) is Next);
                                    }
                                    assert(false);
                                } else {
                                    lemma_print_literal_runs(chunk@, init, n, v);
                                    assert(step_state(run_n(chunk@, init, n)) == done_state);
                                    assert(self.output_model() =~= seq![
                                        value_rep(ValueM::Number(v)),
                                    ]);
                                    assert(self.stack_model() =~= Seq::<ValueM>::empty());
                                }
                            },
                            RunOutcome::Fault(_) => {
                                let n = choose|n: nat|
                                    #[trigger] run_n(chunk@, init, n) is Fault;
                                if n == 0 {
                                    assert(run_n(chunk@, init, 0nat) == StepR::Next(init));
                                } else if n == 1 {
                                    assert(run_n(chunk@, init, 1nat) == step(chunk@, init));
                                } else if n == 2 {
                                    lemma_print_literal_runs(chunk@, init, 3nat, v);
                                } else {
                                    lemma_print_literal_runs(chunk@, init, n, v);
                                }
                                assert(false);
                            },
                            RunOutcome::OutOfSteps => {
                                lemma_print_literal_runs(chunk@, init, fuel as nat, v);
                                assert(false);
                            },
                        }
                    }
                    if first == TokenType::Eof && fuel >= 1 {
                        match outcome {
                            RunOutcome::Done => {
                                let n = choose|n: nat|
                                    {
                                        let res = #[trigger] run_n(chunk@, init, n);
                                        &&& res is Done
                                        &&& step_state(res).stack == self.stack_model()
                                        &&& step_state(res).globals == self.globals_model()
                                        &&& step_state(res).output == self.output_model()
                                    };
                                assert(run_n(chunk@, init, n) is Done);
                                assert(n >= 1);
                                lemma_single_return_runs(chunk@, init, n);
                            },
                            RunOutcome::Fault(_) => {
                                let n = choose|n: nat|
                                    #[trigger] run_n(chunk@, init, n) is Fault;
                                if n == 0 {
                                    assert(run_n(chunk@, init, 0nat) == StepR::Next(init));
                                } else {
                                    lemma_single_return_runs(chunk@, init, n);
                                }
                                assert(false);
                            },
                            RunOutcome::OutOfSteps => {
                                lemma_single_return_runs(chunk@, init, fuel as nat);
                                assert(false);
                            },
                        }
                    }
                }
                match outcome {
                    RunOutcome::Done => InterpretResult::Success,
                    RunOutcome::Fault(f) => InterpretResult::RuntimeError(f),
                    RunOutcome::OutOfSteps => InterpretResult::OutOfSteps,
                }
            },
        }
    }
}

/// Short-circuit evaluation, at the level of the machine's semantics: a
/// conditional jump pops the condition and decides.  On a falsy condition
/// the instruction pointer lands past the jumped-over instructions, on a
/// truthy one just past the jump; either way no global is written and no
/// output is produced by the jump itself.
pub proof fn lemma_jump_if_false_short_circuits(c: ChunkM, s: MState, d: usize)
    requires
        0 <= s.ip < c.code.len(),
        c.code[s.ip] == OpCode::JumpIfFalse(d),
        s.stack.len() >= 1,
    ensures
        step(c, s) == StepR::Next(
            MState {
                ip: if is_truthy(s.stack.last()) {
                    s.ip + 1
                } else {
                    s.ip + 1 + d
                },
                stack: s.stack.drop_last(),
                globals: s.globals,
                output: s.output,
            },
        ),
{
}

} // verus!
