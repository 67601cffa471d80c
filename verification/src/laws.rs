//! Laws of the machine's semantics, stated and proved over the
//! specification functions [`step`] and [`run_n`].

use vstd::prelude::*;

use crate::chunk::{chunk_wf, ChunkM, OpCode};
use crate::value::{value_rep, ValueM};
use crate::vm::{neg_wrap, run_n, step, MState, StepR};

verus! {

/// Running `n1` steps and then continuing is running from where the first
/// leg ended.
pub proof fn lemma_run_n_chain(c: ChunkM, s: MState, n1: nat, n2: nat, s1: MState)
    requires
        run_n(c, s, n1) == StepR::Next(s1),
    ensures
        run_n(c, s, n1 + n2) == run_n(c, s1, n2),
    decreases n2,
{
    if n2 == 0 {
        assert(run_n(c, s, n1 + 0) == StepR::Next(s1));
    } else {
        lemma_run_n_chain(c, s, n1, (n2 - 1) as nat, s1);
        assert(run_n(c, s, n1 + n2) == match run_n(c, s, (n1 + n2 - 1) as nat) {
            StepR::Next(t) => step(c, t),
            r => r,
        });
    }
}

/// An arithmetic expression: a number literal, a negation, or a sum,
/// difference or product of subexpressions.
pub ghost enum AExp {
    Lit(i64),
    Neg(Box<AExp>),
    Add(Box<AExp>, Box<AExp>),
    Sub(Box<AExp>, Box<AExp>),
    Mul(Box<AExp>, Box<AExp>),
}

/// The value of an arithmetic expression under standard precedence-free
/// tree evaluation, with wrapping arithmetic.
pub open spec fn aeval(e: AExp) -> i64
    decreases e,
{
    match e {
        AExp::Lit(n) => n,
        AExp::Neg(x) => neg_wrap(aeval(*x)),
        AExp::Add(x, y) => vstd::wrapping::i64_specs::wrapping_add(aeval(*x), aeval(*y)),
        AExp::Sub(x, y) => vstd::wrapping::i64_specs::wrapping_sub(aeval(*x), aeval(*y)),
        AExp::Mul(x, y) => vstd::wrapping::i64_specs::wrapping_mul(aeval(*x), aeval(*y)),
    }
}

/// How many instructions the post-order code of an expression holds.
pub open spec fn asize(e: AExp) -> int
    decreases e,
{
    match e {
        AExp::Lit(_) => 1,
        AExp::Neg(x) => asize(*x) + 1,
        AExp::Add(x, y) => asize(*x) + asize(*y) + 1,
        AExp::Sub(x, y) => asize(*x) + asize(*y) + 1,
        AExp::Mul(x, y) => asize(*x) + asize(*y) + 1,
    }
}

/// The chunk holds the post-order code of `e` at offset `a`: the operands'
/// code first, the operator behind them; a literal is a constant load
/// whose pool entry holds the literal's number.
pub open spec fn compiled_at(c: ChunkM, a: int, e: AExp) -> bool
    decreases e,
{
    match e {
        AExp::Lit(n) => exists|k: u8|
            #![trigger c.constants[k as int]]
            {
                &&& c.code[a] == OpCode::Constant(k)
                &&& (k as int) < c.constants.len()
                &&& c.constants[k as int] == ValueM::Number(n)
            },
        AExp::Neg(x) => compiled_at(c, a, *x) && c.code[a + asize(*x)] == OpCode::Negate,
        AExp::Add(x, y) => compiled_at(c, a, *x) && compiled_at(c, a + asize(*x), *y) && c.code[a
            + asize(*x) + asize(*y)] == OpCode::Add,
        AExp::Sub(x, y) => compiled_at(c, a, *x) && compiled_at(c, a + asize(*x), *y) && c.code[a
            + asize(*x) + asize(*y)] == OpCode::Subtract,
        AExp::Mul(x, y) => compiled_at(c, a, *x) && compiled_at(c, a + asize(*x), *y) && c.code[a
            + asize(*x) + asize(*y)] == OpCode::Multiply,
    }
}

/// Executing the post-order code of an arithmetic expression pushes
/// exactly the expression's value: the machine walks from the fragment's
/// start to its end, the stack gains the value, and globals and output
/// are untouched.
pub proof fn lemma_arithmetic_code_evaluates(c: ChunkM, s: MState, e: AExp)
    requires
        0 <= s.ip,
        s.ip + asize(e) <= c.code.len(),
        compiled_at(c, s.ip, e),
    ensures
        exists|n: nat|
            #[trigger] run_n(c, s, n) == StepR::Next(
                MState {
                    ip: s.ip + asize(e),
                    stack: s.stack.push(ValueM::Number(aeval(e))),
                    globals: s.globals,
                    output: s.output,
                },
            ),
    decreases e, 1int,
{
    match e {
        AExp::Lit(n) => {
            let target = MState {
                ip: s.ip + 1,
                stack: s.stack.push(ValueM::Number(n)),
                globals: s.globals,
                output: s.output,
            };
            assert(step(c, s) == StepR::Next(target));
            assert(run_n(c, s, 0nat) == StepR::Next(s));
            assert(run_n(c, s, 1nat) == StepR::Next(target));
        },
        AExp::Neg(x) => {
            lemma_asize_pos(*x);
            lemma_arithmetic_code_evaluates(c, s, *x);
            let s1 = MState {
                ip: s.ip + asize(*x),
                stack: s.stack.push(ValueM::Number(aeval(*x))),
                globals: s.globals,
                output: s.output,
            };
            let n1 = choose|n: nat| #[trigger] run_n(c, s, n) == StepR::Next(s1);
            let target = MState {
                ip: s.ip + asize(e),
                stack: s.stack.push(ValueM::Number(aeval(e))),
                globals: s.globals,
                output: s.output,
            };
            assert(s1.stack.drop_last().push(ValueM::Number(neg_wrap(aeval(*x)))) =~= target.stack);
            assert(step(c, s1) == StepR::Next(target));
            lemma_run_n_chain(c, s, n1, 1nat, s1);
            assert(run_n(c, s, (n1 + 1) as nat) == StepR::Next(target));
        },
        AExp::Add(x, y) => {
            lemma_binop_case(c, s, e, *x, *y);
        },
        AExp::Sub(x, y) => {
            lemma_binop_case(c, s, e, *x, *y);
        },
        AExp::Mul(x, y) => {
            lemma_binop_case(c, s, e, *x, *y);
        },
    }
}

/// The shared argument for the three binary operators of
/// [`lemma_arithmetic_code_evaluates`]: run the left operand's code, then
/// the right operand's, then one operator step.
proof fn lemma_binop_case(c: ChunkM, s: MState, e: AExp, x: AExp, y: AExp)
    requires
        0 <= s.ip,
        s.ip + asize(e) <= c.code.len(),
        compiled_at(c, s.ip, e),
        e == AExp::Add(Box::new(x), Box::new(y)) || e == AExp::Sub(Box::new(x), Box::new(y)) || e
            == AExp::Mul(Box::new(x), Box::new(y)),
    ensures
        exists|n: nat|
            #[trigger] run_n(c, s, n) == StepR::Next(
                MState {
                    ip: s.ip + asize(e),
                    stack: s.stack.push(ValueM::Number(aeval(e))),
                    globals: s.globals,
                    output: s.output,
                },
            ),
    decreases e, 0int,
{
    assert(asize(e) == asize(x) + asize(y) + 1);
    assert(compiled_at(c, s.ip, x));
    assert(compiled_at(c, s.ip + asize(x), y));
    lemma_asize_pos(x);
    lemma_asize_pos(y);
    lemma_arithmetic_code_evaluates(c, s, x);
    let s1 = MState {
        ip: s.ip + asize(x),
        stack: s.stack.push(ValueM::Number(aeval(x))),
        globals: s.globals,
        output: s.output,
    };
    let n1 = choose|n: nat| #[trigger] run_n(c, s, n) == StepR::Next(s1);
    lemma_arithmetic_code_evaluates(c, s1, y);
    let s2 = MState {
        ip: s1.ip + asize(y),
        stack: s1.stack.push(ValueM::Number(aeval(y))),
        globals: s.globals,
        output: s.output,
    };
    let n2 = choose|n: nat| #[trigger] run_n(c, s1, n) == StepR::Next(s2);
    let target = MState {
        ip: s.ip + asize(e),
        stack: s.stack.push(ValueM::Number(aeval(e))),
        globals: s.globals,
        output: s.output,
    };
    assert(s2.stack.len() >= 2);
    assert(s2.stack[s2.stack.len() - 2] == ValueM::Number(aeval(x)));
    assert(s2.stack.last() == ValueM::Number(aeval(y)));
    assert(s2.stack.drop_last().drop_last().push(ValueM::Number(aeval(e))) =~= target.stack) by {
        assert(s2.stack.drop_last() =~= s1.stack);
        assert(s1.stack.drop_last() =~= s.stack);
    }
    assert(step(c, s2) == StepR::Next(target));
    lemma_run_n_chain(c, s, n1, n2, s1);
    lemma_run_n_chain(c, s, (n1 + n2) as nat, 1nat, s2);
    assert(run_n(c, s, (n1 + n2 + 1) as nat) == StepR::Next(target));
}

/// The code of every expression holds at least its operator or load.
proof fn lemma_asize_pos(e: AExp)
    ensures
        asize(e) >= 1,
    decreases e,
{
    match e {
        AExp::Lit(_) => {},
        AExp::Neg(x) => lemma_asize_pos(*x),
        AExp::Add(x, y) => {
            lemma_asize_pos(*x);
            lemma_asize_pos(*y);
        },
        AExp::Sub(x, y) => {
            lemma_asize_pos(*x);
            lemma_asize_pos(*y);
        },
        AExp::Mul(x, y) => {
            lemma_asize_pos(*x);
            lemma_asize_pos(*y);
        },
    }
}

/// A whole program consisting solely of printing one literal-arithmetic
/// expression prints exactly the expression's value under tree
/// evaluation, leaves the operand stack empty, touches no global, and
/// halts successfully.
pub proof fn lemma_arithmetic_program_prints_value(c: ChunkM, e: AExp, globals: Seq<crate::vm::GlobalM>)
    requires
        chunk_wf(c),
        c.code.len() == asize(e) + 2,
        compiled_at(c, 0, e),
        c.code[asize(e)] == OpCode::Print,
        c.code[asize(e) + 1] == OpCode::Return,
    ensures
        exists|n: nat|
            #[trigger] run_n(
                c,
                MState { ip: 0, stack: Seq::empty(), globals, output: Seq::empty() },
                n,
            ) == StepR::Done(
                MState {
                    ip: asize(e) + 1,
                    stack: Seq::empty(),
                    globals,
                    output: seq![value_rep(ValueM::Number(aeval(e)))],
                },
            ),
{
    let init = MState { ip: 0, stack: Seq::empty(), globals, output: Seq::empty() };
    lemma_arithmetic_code_evaluates(c, init, e);
    let s1 = MState {
        ip: asize(e),
        stack: init.stack.push(ValueM::Number(aeval(e))),
        globals,
        output: Seq::empty(),
    };
    let n1 = choose|n: nat| #[trigger] run_n(c, init, n) == StepR::Next(s1);
    let s2 = MState {
        ip: asize(e) + 1,
        stack: Seq::empty(),
        globals,
        output: seq![value_rep(ValueM::Number(aeval(e)))],
    };
    assert(s1.stack.drop_last() =~= s2.stack);
    assert(s1.output.push(value_rep(s1.stack.last())) =~= s2.output);
    assert(step(c, s1) == StepR::Next(s2));
    assert(step(c, s2) == StepR::Done(s2));
    lemma_run_n_chain(c, init, n1, 1nat, s1);
    assert(run_n(c, init, (n1 + 1) as nat) == StepR::Next(s2));
    lemma_run_n_chain(c, init, (n1 + 1) as nat, 1nat, s2);
    assert(run_n(c, init, (n1 + 2) as nat) == StepR::Done(s2));
}

} // verus!
