//! Plans: what the compiled form of a function does, step by step.
//!
//! A plan works on numbered values and on the stack of the machine. A function with a signature
//! takes its arguments as values and hands its results back as values; any other function finds
//! them on the stack and leaves them there.
use std::collections::BTreeMap;

use vstd::prelude::*;

#[allow(unused_imports)]
use crate::builtins::{arith, arith_faults};
use crate::jit::analysis::ResolvedSig;
#[allow(unused_imports)]
use crate::semantics::{drop_range_step, Effect, Outcome, Step, World};
use crate::types::{ArithOp, Value};

verus! {

/// A value that a plan works on: a parameter of its block, or a result of one of the operations
/// before.
#[derive(Debug, Clone, Copy, PartialEq, Eq, Structural)]
pub enum Reg {
    Param(usize),
    Result { op: usize, k: usize },
}

/// One operation of a plan.
#[derive(Debug)]
pub enum Op {
    /// A number.
    Const(Value),
    /// Arithmetic.
    Arith { op: ArithOp, a: Reg, b: Reg },
    Print(Reg),
    Quit,
    Syscall { number: Reg, a1: Reg, a2: Reg, a3: Reg, a4: Reg, a5: Reg, a6: Reg },
    Read8(Reg),
    /// Writes the lowest byte of the value.
    Write8 { addr: Reg, value: Reg },
    ReadNative(Reg),
    WriteNative { addr: Reg, value: Reg },
    /// Takes the top value off the stack.
    Pop,
    /// Takes the top value off the stack without looking at it.
    Discard,
    /// Puts a value on the stack.
    Push(Reg),
    /// Looks at the value at a known distance from the top.
    Peek(usize),
    /// Copies the value at some distance from the top, to the top.
    Pick(Reg),
    /// Of as many values from the top as `start` says, drops as many of the lowest as `amount`
    /// says.
    DropRange { start: Reg, amount: Reg },
    /// Calls a function with a signature.
    Call { callee: String, args: Vec<Reg>, results: usize },
    /// Calls a function without a signature.
    CallStack(String),
}

/// Where a plan goes at the end of a block.
#[derive(Debug, Clone, Copy, PartialEq, Eq, Structural)]
pub enum Goal {
    /// Nowhere.
    Trap(u8),
    /// Back to the caller.
    Return,
    /// To another block.
    Block(usize),
}

/// How a block of a plan ends. The values in `args` go to the block, or to the caller.
#[derive(Debug)]
pub enum Ending {
    Goto { goal: Goal, args: Vec<Reg> },
    /// Two ways, by whether a value is zero.
    Branch { cond: Reg, on_true: Goal, on_false: Goal, args: Vec<Reg> },
    /// As many ways as there are goals; none if the value is not a number below that.
    Switch { index: Reg, goals: Vec<Goal>, args: Vec<Reg> },
    /// Leaves the rest to another function with a signature.
    TailCall { callee: String, args: Vec<Reg> },
    /// Leaves the rest to another function without a signature.
    TailCallStack(String),
}

/// A block of a plan.
#[derive(Debug)]
pub struct BlockPlan {
    /// The number of values that the block is entered with.
    pub params: usize,
    pub ops: Vec<Op>,
    pub ending: Ending,
}

/// The plan of a function. It starts with block 0; without one, it does nothing.
#[derive(Debug)]
pub struct FunctionPlan {
    pub signature: Option<ResolvedSig>,
    pub blocks: BTreeMap<usize, BlockPlan>,
    /// All blocks have smaller numbers than this.
    pub length: usize,
}

/// How many results an operation has.
pub open spec fn result_count(op: Op) -> nat {
    match op {
        Op::Const(_) => 1,
        Op::Arith { .. } => 1,
        Op::Print(_) => 0,
        Op::Quit => 0,
        Op::Syscall { .. } => 1,
        Op::Read8(_) => 1,
        Op::Write8 { .. } => 0,
        Op::ReadNative(_) => 1,
        Op::WriteNative { .. } => 0,
        Op::Pop => 1,
        Op::Discard => 0,
        Op::Push(_) => 0,
        Op::Peek(_) => 1,
        Op::Pick(_) => 0,
        Op::DropRange { .. } => 0,
        Op::Call { results, .. } => results as nat,
        Op::CallStack(_) => 0,
    }
}

/// Whether a value is there after the given operations, in a block with so many parameters.
pub open spec fn reg_ok(reg: Reg, params: nat, ops: Seq<Op>) -> bool {
    match reg {
        Reg::Param(k) => k < params,
        Reg::Result { op, k } => op < ops.len() && k < result_count(ops[op as int]),
    }
}

/// The same for several values.
pub open spec fn regs_ok(regs: Seq<Reg>, params: nat, ops: Seq<Op>) -> bool {
    forall|i: int| 0 <= i < regs.len() ==> reg_ok(#[trigger] regs[i], params, ops)
}

/// Whether an operation can stand after the given ones.
pub open spec fn op_ok(op: Op, params: nat, ops: Seq<Op>) -> bool {
    match op {
        Op::Const(_) => true,
        Op::Arith { op: _, a, b } => reg_ok(a, params, ops) && reg_ok(b, params, ops),
        Op::Print(v) => reg_ok(v, params, ops),
        Op::Quit => true,
        Op::Syscall { number, a1, a2, a3, a4, a5, a6 } => regs_ok(
            seq![number, a1, a2, a3, a4, a5, a6],
            params,
            ops,
        ),
        Op::Read8(addr) => reg_ok(addr, params, ops),
        Op::Write8 { addr, value } => reg_ok(addr, params, ops) && reg_ok(value, params, ops),
        Op::ReadNative(addr) => reg_ok(addr, params, ops),
        Op::WriteNative { addr, value } => reg_ok(addr, params, ops) && reg_ok(value, params, ops),
        Op::Pop => true,
        Op::Discard => true,
        Op::Push(v) => reg_ok(v, params, ops),
        Op::Peek(_) => true,
        Op::Pick(v) => reg_ok(v, params, ops),
        Op::DropRange { start, amount } => reg_ok(start, params, ops) && reg_ok(
            amount,
            params,
            ops,
        ),
        Op::Call { args, .. } => regs_ok(args@, params, ops),
        Op::CallStack(_) => true,
    }
}

/// Whether each operation only uses values that are there before it.
pub open spec fn ops_ok(ops: Seq<Op>, params: nat) -> bool {
    forall|j: int| 0 <= j < ops.len() ==> op_ok(#[trigger] ops[j], params, ops.take(j))
}

/// Whether an operation works on the stack.
pub open spec fn touches_stack(op: Op) -> bool {
    match op {
        Op::Pop => true,
        Op::Discard => true,
        Op::Push(_) => true,
        Op::Peek(_) => true,
        Op::Pick(_) => true,
        Op::DropRange { .. } => true,
        Op::CallStack(_) => true,
        _ => false,
    }
}

/// Whether no operation works on the stack.
pub open spec fn keeps_off_stack(ops: Seq<Op>) -> bool {
    forall|j: int| 0 <= j < ops.len() ==> !touches_stack(#[trigger] ops[j])
}

/// Where a run of a block of a plan has got to.
pub struct Frame {
    pub params: Seq<Value>,
    /// The results of the operations so far.
    pub results: Seq<Seq<Value>>,
    pub world: World,
}

/// The value that a number stands for.
pub open spec fn value_of(reg: Reg, fr: Frame) -> Value {
    match reg {
        Reg::Param(k) => fr.params[k as int],
        Reg::Result { op, k } => fr.results[op as int][k as int],
    }
}

/// The values that several numbers stand for.
pub open spec fn values_of(regs: Seq<Reg>, fr: Frame) -> Seq<Value> {
    regs.map_values(|reg: Reg| value_of(reg, fr))
}

/// How a run of a plan, or of a part of one, comes out.
pub enum Ran {
    /// It is to go on.
    On(Frame),
    /// It is over.
    Over(Outcome),
    /// It has reached below the bottom of the stack, where anything can happen.
    Lost,
}

/// What a plan meets outside itself. A call that gets lost comes out as nothing.
pub struct Machine {
    /// The reply to the last of the effects, given all that went before it.
    pub reply: spec_fn(Seq<Effect>) -> Value,
    /// What a call of a function with a signature makes of its arguments.
    pub call: spec_fn(Seq<char>, Seq<Value>, Seq<Effect>) -> Option<Outcome>,
    /// What a call of a function without a signature makes of the world.
    pub call_stack: spec_fn(Seq<char>, World) -> Option<Outcome>,
}

/// The frame after an operation with the given results.
pub open spec fn yields(fr: Frame, results: Seq<Value>, world: World) -> Ran {
    Ran::On(Frame { params: fr.params, results: fr.results.push(results), world })
}

/// The frame after an effect.
pub open spec fn asks(fr: Frame, effect: Effect, machine: Machine) -> Ran {
    let log = fr.world.log.push(effect);
    yields(
        fr,
        if effect.has_reply() {
            seq![(machine.reply)(log)]
        } else {
            Seq::empty()
        },
        World { stack: fr.world.stack, log },
    )
}

/// What one operation does.
pub open spec fn run_op(op: Op, fr: Frame, machine: Machine) -> Ran {
    let stack = fr.world.stack;
    let log = fr.world.log;
    match op {
        Op::Const(v) => yields(fr, seq![v], fr.world),
        Op::Arith { op, a, b } => if arith_faults(op, value_of(a, fr), value_of(b, fr)) {
            Ran::Over(Outcome::Failed(log))
        } else {
            match arith(op, value_of(a, fr), value_of(b, fr)) {
                Some(v) => yields(fr, seq![v], fr.world),
                None => Ran::Over(Outcome::Failed(log)),
            }
        },
        Op::Print(v) => asks(fr, Effect::Print(value_of(v, fr)), machine),
        Op::Quit => Ran::Over(Outcome::Stopped(log)),
        Op::Syscall { number, a1, a2, a3, a4, a5, a6 } => asks(
            fr,
            Effect::Syscall {
                number: value_of(number, fr),
                a1: value_of(a1, fr),
                a2: value_of(a2, fr),
                a3: value_of(a3, fr),
                a4: value_of(a4, fr),
                a5: value_of(a5, fr),
                a6: value_of(a6, fr),
            },
            machine,
        ),
        Op::Read8(addr) => asks(fr, Effect::Read8(value_of(addr, fr)), machine),
        Op::Write8 { addr, value } => asks(
            fr,
            Effect::Write8 { addr: value_of(addr, fr), byte: value_of(value, fr) as u8 },
            machine,
        ),
        Op::ReadNative(addr) => asks(fr, Effect::ReadNative(value_of(addr, fr)), machine),
        Op::WriteNative { addr, value } => asks(
            fr,
            Effect::WriteNative { addr: value_of(addr, fr), value: value_of(value, fr) },
            machine,
        ),
        Op::Pop => if stack.len() == 0 {
            Ran::Lost
        } else {
            yields(fr, seq![stack.last()], World { stack: stack.drop_last(), log })
        },
        Op::Discard => if stack.len() == 0 {
            Ran::Lost
        } else {
            yields(fr, Seq::empty(), World { stack: stack.drop_last(), log })
        },
        Op::Push(v) => yields(
            fr,
            Seq::empty(),
            World { stack: stack.push(value_of(v, fr)), log },
        ),
        Op::Peek(n) => if 1 <= n <= stack.len() {
            yields(fr, seq![stack[stack.len() - n]], fr.world)
        } else {
            Ran::Lost
        },
        Op::Pick(v) => {
            let n = value_of(v, fr) as int;
            if 1 <= n <= stack.len() {
                yields(fr, Seq::empty(), World { stack: stack.push(stack[stack.len() - n]), log })
            } else {
                Ran::Lost
            }
        },
        Op::DropRange { start, amount } => match drop_range_step(
            stack,
            value_of(start, fr) as int,
            value_of(amount, fr) as int,
        ) {
            Step::Next(s) => yields(fr, Seq::empty(), World { stack: s, log }),
            _ => Ran::Lost,
        },
        Op::Call { callee, args, results } => match (machine.call)(
            callee@,
            values_of(args@, fr),
            log,
        ) {
            Some(Outcome::Done(w)) => if w.stack.len() == results {
                yields(fr, w.stack, World { stack, log: w.log })
            } else {
                Ran::Lost
            },
            Some(o) => Ran::Over(o),
            None => Ran::Lost,
        },
        Op::CallStack(callee) => match (machine.call_stack)(callee@, fr.world) {
            Some(Outcome::Done(w)) => yields(fr, Seq::empty(), w),
            Some(o) => Ran::Over(o),
            None => Ran::Lost,
        },
    }
}

/// What several operations do, one after the other.
pub open spec fn run_ops(ops: Seq<Op>, fr: Frame, machine: Machine) -> Ran
    decreases ops.len(),
{
    if ops.len() == 0 {
        Ran::On(fr)
    } else {
        match run_ops(ops.drop_last(), fr, machine) {
            Ran::On(fr2) => run_op(ops.last(), fr2, machine),
            other => other,
        }
    }
}

/// A run of a plan from the block at `pos` on, entered with the given values. `None` if it gets
/// lost.
pub open spec fn run_block(
    plan: FunctionPlan,
    pos: int,
    params: Seq<Value>,
    world: World,
    machine: Machine,
) -> Option<Outcome>
    decreases plan.length - pos, 2int,
{
    if !(0 <= pos < plan.length && plan.blocks@.contains_key(pos as usize)) {
        None
    } else {
        let block = plan.blocks@[pos as usize];
        match run_ops(
            block.ops@,
            Frame { params, results: Seq::empty(), world },
            machine,
        ) {
            Ran::On(fr) => run_ending(plan, pos, block.ending, fr, machine),
            Ran::Over(o) => Some(o),
            Ran::Lost => None,
        }
    }
}

/// The end of a block, and what follows.
pub open spec fn run_ending(
    plan: FunctionPlan,
    pos: int,
    ending: Ending,
    fr: Frame,
    machine: Machine,
) -> Option<Outcome>
    decreases plan.length - pos, 1int,
{
    match ending {
        Ending::Goto { goal, args } => run_goal(
            plan,
            pos,
            goal,
            values_of(args@, fr),
            fr.world,
            machine,
        ),
        Ending::Branch { cond, on_true, on_false, args } => run_goal(
            plan,
            pos,
            if value_of(cond, fr) == 0 {
                on_false
            } else {
                on_true
            },
            values_of(args@, fr),
            fr.world,
            machine,
        ),
        Ending::Switch { index, goals, args } => {
            let k = value_of(index, fr) as int;
            if 0 <= k < goals@.len() {
                run_goal(plan, pos, goals@[k], values_of(args@, fr), fr.world, machine)
            } else {
                Some(Outcome::Failed(fr.world.log))
            }
        },
        Ending::TailCall { callee, args } => (machine.call)(
            callee@,
            values_of(args@, fr),
            fr.world.log,
        ),
        Ending::TailCallStack(callee) => (machine.call_stack)(callee@, fr.world),
    }
}

/// What follows on a goal.
pub open spec fn run_goal(
    plan: FunctionPlan,
    pos: int,
    goal: Goal,
    args: Seq<Value>,
    world: World,
    machine: Machine,
) -> Option<Outcome>
    decreases plan.length - pos, 0int,
{
    match goal {
        Goal::Trap(_) => Some(Outcome::Failed(world.log)),
        Goal::Return => Some(
            Outcome::Done(
                World {
                    stack: if plan.signature is Some {
                        args
                    } else {
                        world.stack
                    },
                    log: world.log,
                },
            ),
        ),
        Goal::Block(p) => if pos < p < plan.length {
            run_block(plan, p as int, args, world, machine)
        } else {
            None
        },
    }
}

/// A run of a whole plan.
pub open spec fn run_plan(
    plan: FunctionPlan,
    args: Seq<Value>,
    world: World,
    machine: Machine,
) -> Option<Outcome> {
    if plan.length == 0 {
        run_goal(plan, 0, Goal::Return, args, world, machine)
    } else {
        run_block(plan, 0, args, world, machine)
    }
}

} // verus!
