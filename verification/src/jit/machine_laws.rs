//! What the operations of plans, and the instructions for a machine with memory, compute.
use vstd::prelude::*;

#[allow(unused_imports)]
use crate::arithmetic_laws::{
    divides_into, law_division, law_division_faults, law_less_than,
    law_one_value_stands_for_an_integer, law_sums_and_products, law_wrapped_stands,
    stands_for_integer,
};
#[allow(unused_imports)]
use crate::builtins::{arith, arith_faults, wrap};
#[allow(unused_imports)]
use crate::jit::cfg::{guarded, UNDEFINED_CALLEE};
#[allow(unused_imports)]
use crate::jit::compile::{goal_of, trap_behind, NO_RETURN, PAST_THE_END};
#[allow(unused_imports)]
use crate::jit::cfg::Next;
#[allow(unused_imports)]
use crate::jit::native::{
    at, run_inst, Inst, NativeFrame, NativeMachine, NativeRan, Region, STRIDE,
};
#[allow(unused_imports)]
use crate::jit::plan::{
    run_ending, run_goal, run_op, value_of, values_of, Ending, Frame, FunctionPlan, Goal, Machine,
    Op, Ran, Reg,
};
#[allow(unused_imports)]
use crate::semantics::{without_range, Effect, Outcome, World};
#[allow(unused_imports)]
use crate::types::{ArithOp, BasicBlockInstr, Instr, Value};

verus! {

/// The frame after an operation.
pub open spec fn frame_after(fr: Frame, results: Seq<Value>, stack: Seq<Value>, log: Seq<Effect>) -> Ran {
    Ran::On(
        Frame {
            params: fr.params,
            results: fr.results.push(results),
            world: World { stack, log },
        },
    )
}

/// Operations compute sums, differences, products and the order of the integers, as far as cells
/// hold them, and leave the world as it is.
pub proof fn law_operations_compute(fr: Frame, machine: Machine, a: Reg, b: Reg, v: Value)
    ensures
        ({
            let x = value_of(a, fr);
            let y = value_of(b, fr);
            let gives = frame_after(fr, seq![v], fr.world.stack, fr.world.log);
            &&& run_op(Op::Const(v), fr, machine) == gives
            &&& stands_for_integer(v, x + y) ==> run_op(
                (Op::Arith { op: ArithOp::Add, a, b }),
                fr,
                machine,
            ) == gives
            &&& stands_for_integer(v, x - y) ==> run_op(
                (Op::Arith { op: ArithOp::Sub, a, b }),
                fr,
                machine,
            ) == gives
            &&& stands_for_integer(v, x * y) ==> run_op(
                (Op::Arith { op: ArithOp::Mul, a, b }),
                fr,
                machine,
            ) == gives
            &&& (v == 1 && y - x > 0) || (v == 0 && y - x <= 0) ==> run_op(
                (Op::Arith { op: ArithOp::Lt, a, b }),
                fr,
                machine,
            ) == gives
        }),
{
    let x = value_of(a, fr);
    let y = value_of(b, fr);
    law_sums_and_products(x, y);
    law_less_than(x, y);
    if stands_for_integer(v, x + y) {
        law_one_value_stands_for_an_integer(v, arith(ArithOp::Add, x, y)->0, x + y);
    }
    if stands_for_integer(v, x - y) {
        law_one_value_stands_for_an_integer(v, arith(ArithOp::Sub, x, y)->0, x - y);
    }
    if stands_for_integer(v, x * y) {
        law_one_value_stands_for_an_integer(v, arith(ArithOp::Mul, x, y)->0, x * y);
    }
}

/// An operation without a result ends the run.
pub proof fn law_operations_fail(fr: Frame, machine: Machine, a: Reg, b: Reg)
    ensures
        ({
            let x = value_of(a, fr);
            let y = value_of(b, fr);
            &&& !(exists|q: Value, r: Value| #[trigger] divides_into(x, y, q, r)) ==> run_op(
                (Op::Arith { op: ArithOp::Div, a, b }),
                fr,
                machine,
            ) == Ran::Over(Outcome::Failed(fr.world.log)) && run_op(
                (Op::Arith { op: ArithOp::Rem, a, b }),
                fr,
                machine,
            ) == Ran::Over(Outcome::Failed(fr.world.log))
            &&& y < 0 ==> run_op((Op::Arith { op: ArithOp::Pow, a, b }), fr, machine) == Ran::Over(
                Outcome::Failed(fr.world.log),
            )
        }),
        run_op(Op::Quit, fr, machine) == Ran::Over(Outcome::Stopped(fr.world.log)),
{
    law_division_faults(ArithOp::Div, value_of(a, fr), value_of(b, fr));
    law_division_faults(ArithOp::Rem, value_of(a, fr), value_of(b, fr));
}

/// Operations ask the world for what they say, once, with the values that they name; a reply is
/// their result.
pub proof fn law_operations_ask(fr: Frame, machine: Machine, a: Reg, b: Reg)
    ensures
        ({
            let log = fr.world.log;
            let stack = fr.world.stack;
            let x = value_of(a, fr);
            let y = value_of(b, fr);
            let read8 = log.push(Effect::Read8(x));
            let read_native = log.push(Effect::ReadNative(x));
            &&& run_op(Op::Print(a), fr, machine) == frame_after(
                fr,
                Seq::empty(),
                stack,
                log.push(Effect::Print(x)),
            )
            &&& run_op(Op::Read8(a), fr, machine) == frame_after(
                fr,
                seq![(machine.reply)(read8)],
                stack,
                read8,
            )
            &&& run_op(Op::ReadNative(a), fr, machine) == frame_after(
                fr,
                seq![(machine.reply)(read_native)],
                stack,
                read_native,
            )
            &&& run_op((Op::WriteNative { addr: a, value: b }), fr, machine) == frame_after(
                fr,
                Seq::empty(),
                stack,
                log.push(Effect::WriteNative { addr: x, value: y }),
            )
            &&& 0 <= y <= u8::MAX ==> run_op((Op::Write8 { addr: a, value: b }), fr, machine)
                == frame_after(
                fr,
                Seq::empty(),
                stack,
                log.push(Effect::Write8 { addr: x, byte: y as u8 }),
            )
        }),
{
}

/// Calls of the system are asked for with the operands in their order.
pub proof fn law_operations_call_the_system(
    fr: Frame,
    machine: Machine,
    number: Reg,
    a1: Reg,
    a2: Reg,
    a3: Reg,
    a4: Reg,
    a5: Reg,
    a6: Reg,
)
    ensures
        ({
            let asked = fr.world.log.push(
                Effect::Syscall {
                    number: value_of(number, fr),
                    a1: value_of(a1, fr),
                    a2: value_of(a2, fr),
                    a3: value_of(a3, fr),
                    a4: value_of(a4, fr),
                    a5: value_of(a5, fr),
                    a6: value_of(a6, fr),
                },
            );
            run_op((Op::Syscall { number, a1, a2, a3, a4, a5, a6 }), fr, machine) == frame_after(
                fr,
                seq![(machine.reply)(asked)],
                fr.world.stack,
                asked,
            )
        }),
{
}

/// What operations do to the stack.
pub proof fn law_operations_on_the_stack(
    fr: Frame,
    machine: Machine,
    s: Seq<Value>,
    v: Value,
    r: Reg,
    n: usize,
)
    requires
        fr.world.stack == s.push(v),
    ensures
        run_op(Op::Pop, fr, machine) == frame_after(fr, seq![v], s, fr.world.log),
        run_op(Op::Discard, fr, machine) == frame_after(fr, Seq::empty(), s, fr.world.log),
        run_op(Op::Push(r), fr, machine) == frame_after(
            fr,
            Seq::empty(),
            s.push(v).push(value_of(r, fr)),
            fr.world.log,
        ),
        1 <= n <= s.len() + 1 ==> run_op(Op::Peek(n), fr, machine) == frame_after(
            fr,
            seq![s.push(v)[s.len() + 1 - n]],
            s.push(v),
            fr.world.log,
        ),
        1 <= value_of(r, fr) <= s.len() + 1 ==> run_op(Op::Pick(r), fr, machine) == frame_after(
            fr,
            Seq::empty(),
            s.push(v).push(s.push(v)[s.len() + 1 - value_of(r, fr)]),
            fr.world.log,
        ),
{
    assert(fr.world.stack.drop_last() =~= s);
}

/// Values are dropped from between those below and those above.
pub proof fn law_operations_drop_a_range(
    fr: Frame,
    machine: Machine,
    low: Seq<Value>,
    gone: Seq<Value>,
    kept: Seq<Value>,
    start: Reg,
    amount: Reg,
)
    requires
        fr.world.stack == low + gone + kept,
        value_of(start, fr) == gone.len() + kept.len(),
        value_of(amount, fr) == gone.len(),
    ensures
        run_op((Op::DropRange { start, amount }), fr, machine) == frame_after(
            fr,
            Seq::empty(),
            low + kept,
            fr.world.log,
        ),
{
    assert(without_range(
        low + gone + kept,
        (gone.len() + kept.len()) as int,
        gone.len() as int,
    ) =~= low + kept);
}

/// Calls hand over the values that they name, and the results of a function are those of the call.
pub proof fn law_operations_call(
    fr: Frame,
    machine: Machine,
    callee: String,
    args: Vec<Reg>,
    results: usize,
    w: World,
)
    ensures
        (machine.call)(callee@, values_of(args@, fr), fr.world.log) == Some(Outcome::Done(w))
            && w.stack.len() == results ==> run_op(
            (Op::Call { callee, args, results }),
            fr,
            machine,
        ) == frame_after(fr, w.stack, fr.world.stack, w.log),
        (machine.call_stack)(callee@, fr.world) == Some(Outcome::Done(w)) ==> run_op(
            Op::CallStack(callee),
            fr,
            machine,
        ) == frame_after(fr, Seq::empty(), w.stack, w.log),
        values_of(args@, fr).len() == args@.len(),
        forall|i: int|
            0 <= i < args@.len() ==> #[trigger] values_of(args@, fr)[i] == value_of(args@[i], fr),
{
}

/// Where a block of a plan goes on: at the one goal; at one of two, by whether a value is zero; at
/// the one with a number, or nowhere if there is none with that number.
pub proof fn law_endings_lead_on(
    plan: FunctionPlan,
    pos: int,
    fr: Frame,
    machine: Machine,
    value: Reg,
    goal: Goal,
    other: Goal,
    goals: Vec<Goal>,
    args: Vec<Reg>,
)
    ensures
        ({
            let handed = values_of(args@, fr);
            let k = value_of(value, fr);
            &&& run_ending(plan, pos, (Ending::Goto { goal, args }), fr, machine) == run_goal(
                plan,
                pos,
                goal,
                handed,
                fr.world,
                machine,
            )
            &&& k != 0 ==> run_ending(
                plan,
                pos,
                (Ending::Branch { cond: value, on_true: goal, on_false: other, args }),
                fr,
                machine,
            ) == run_goal(plan, pos, goal, handed, fr.world, machine)
            &&& k == 0 ==> run_ending(
                plan,
                pos,
                (Ending::Branch { cond: value, on_true: goal, on_false: other, args }),
                fr,
                machine,
            ) == run_goal(plan, pos, other, handed, fr.world, machine)
            &&& 0 <= k < goals@.len() ==> run_ending(
                plan,
                pos,
                (Ending::Switch { index: value, goals, args }),
                fr,
                machine,
            ) == run_goal(plan, pos, goals@[k as int], handed, fr.world, machine)
            &&& !(0 <= k < goals@.len()) ==> run_ending(
                plan,
                pos,
                (Ending::Switch { index: value, goals, args }),
                fr,
                machine,
            ) == Some(Outcome::Failed(fr.world.log))
        }),
{
}

/// A function gives back the values that are handed over, if it has a signature; else the stack. A
/// trap ends the run.
pub proof fn law_goals_end(
    plan: FunctionPlan,
    pos: int,
    args: Seq<Value>,
    w: World,
    machine: Machine,
    code: u8,
)
    ensures
        plan.signature is Some ==> run_goal(plan, pos, Goal::Return, args, w, machine) == Some(
            Outcome::Done(World { stack: args, log: w.log }),
        ),
        plan.signature is None ==> run_goal(plan, pos, Goal::Return, args, w, machine) == Some(
            Outcome::Done(w),
        ),
        run_goal(plan, pos, Goal::Trap(code), args, w, machine) == Some(Outcome::Failed(w.log)),
{
}

/// Control that goes to a block, or to the end, or past it, does so in a plan as well. A trap keeps
/// its code, and the codes tell why there is a trap.
pub proof fn law_traps_tell_why(
    next: Next,
    instr: BasicBlockInstr,
    callee: String,
    defined: Set<Seq<char>>,
)
    ensures
        next matches Next::Block(p) ==> goal_of(next) == Goal::Block(p),
        next is Terminate ==> goal_of(next) == Goal::Return,
        next is Trap ==> goal_of(next) == Goal::Trap(67),
        instr matches BasicBlockInstr::Trap(code) ==> trap_behind(instr) == code,
        instr is ResolvedPick || instr is ResolvedDropRange ==> trap_behind(instr) == 67,
        !(instr is Trap) && !(instr is ResolvedPick) && !(instr is ResolvedDropRange)
            ==> trap_behind(instr) == 68,
        defined.contains(callee@) ==> guarded(
            Instr::BBInstr(BasicBlockInstr::FunctionCall(callee)),
            defined,
        ) == BasicBlockInstr::FunctionCall(callee),
        !defined.contains(callee@) ==> guarded(
            Instr::BBInstr(BasicBlockInstr::FunctionCall(callee)),
            defined,
        ) == BasicBlockInstr::Trap(20),
        !(instr is FunctionCall) ==> guarded(Instr::BBInstr(instr), defined) == instr,
{
}

/// The frame after an instruction that computes.
pub open spec fn computed(fr: NativeFrame, v: Value) -> NativeRan {
    NativeRan::On(NativeFrame { results: fr.results.push(seq![v]), ..fr })
}

/// Instructions add, subtract and multiply as the integers do, as far as cells hold the result.
pub proof fn law_instructions_compute(
    fr: NativeFrame,
    machine: NativeMachine,
    region: Region,
    a: Reg,
    b: Reg,
    imm: Value,
    v: Value,
)
    ensures
        stands_for_integer(v, at(a, fr) + at(b, fr)) ==> run_inst(
            Inst::Add(a, b),
            fr,
            machine,
            region,
        ) == computed(fr, v),
        stands_for_integer(v, at(a, fr) - at(b, fr)) ==> run_inst(
            Inst::Sub(a, b),
            fr,
            machine,
            region,
        ) == computed(fr, v),
        stands_for_integer(v, at(a, fr) + imm) ==> run_inst(
            Inst::AddImm(a, imm),
            fr,
            machine,
            region,
        ) == computed(fr, v),
        stands_for_integer(v, at(a, fr) * imm) ==> run_inst(
            Inst::MulImm(a, imm),
            fr,
            machine,
            region,
        ) == computed(fr, v),
        run_inst(Inst::UsePointer, fr, machine, region) == computed(fr, fr.pointer),
{
    let x = at(a, fr);
    let y = at(b, fr);
    law_wrapped_stands(x + y);
    law_wrapped_stands(x - y);
    law_wrapped_stands(x + imm);
    law_wrapped_stands(x * imm);
    if stands_for_integer(v, x + y) {
        law_one_value_stands_for_an_integer(v, wrap(x + y), x + y);
    }
    if stands_for_integer(v, x - y) {
        law_one_value_stands_for_an_integer(v, wrap(x - y), x - y);
    }
    if stands_for_integer(v, x + imm) {
        law_one_value_stands_for_an_integer(v, wrap(x + imm), x + imm);
    }
    if stands_for_integer(v, x * imm) {
        law_one_value_stands_for_an_integer(v, wrap(x * imm), x * imm);
    }
}

/// A cell that is filled holds the value, and no other cell changes. A cell that is looked at gives
/// what it holds. Outside the memory of the stack neither can be done.
pub proof fn law_instructions_keep_memory(
    fr: NativeFrame,
    machine: NativeMachine,
    region: Region,
    value: Reg,
    addr: Reg,
    other: int,
)
    ensures
        region.has_cell(at(addr, fr) as int) ==> (run_inst(
            (Inst::Store { value, addr }),
            fr,
            machine,
            region,
        ) matches NativeRan::On(fr2) && {
            &&& fr2.mem[at(addr, fr) as int] == at(value, fr)
            &&& other != at(addr, fr) ==> fr2.mem[other] == fr.mem[other]
            &&& fr2.pointer == fr.pointer
            &&& fr2.log == fr.log
            &&& fr2.params == fr.params
            &&& fr2.results == fr.results.push(Seq::empty())
        }),
        region.has_cell(at(addr, fr) as int) ==> run_inst(Inst::Load(addr), fr, machine, region)
            == computed(fr, fr.mem[at(addr, fr) as int]),
        !region.has_cell(at(addr, fr) as int) ==> !(run_inst(
            Inst::Load(addr),
            fr,
            machine,
            region,
        ) is On) && !(run_inst((Inst::Store { value, addr }), fr, machine, region) is On),
{
}

/// Copying bytes puts at each place of the destination what was at that place of the source, even if
/// they overlap, and changes nothing else.
pub proof fn law_instructions_copy(
    fr: NativeFrame,
    machine: NativeMachine,
    region: Region,
    dest: Reg,
    source: Reg,
    size: Reg,
    i: int,
    other: int,
)
    requires
        region.has_end(at(dest, fr) as int),
        region.has_end(at(dest, fr) + at(size, fr)),
        region.has_end(at(source, fr) as int),
        region.has_end(at(source, fr) + at(size, fr)),
        at(size, fr) >= 0,
    ensures
        run_inst((Inst::Memmove { dest, source, size }), fr, machine, region) matches NativeRan::On(
            fr2,
        ) && {
            &&& 0 <= i < at(size, fr) ==> fr2.mem[at(dest, fr) + i] == fr.mem[at(source, fr) + i]
            &&& !(at(dest, fr) <= other < at(dest, fr) + at(size, fr)) ==> fr2.mem[other]
                == fr.mem[other]
            &&& fr2.pointer == fr.pointer
            &&& fr2.log == fr.log
        },
{
}

/// The free end of the stack is where it was moved to, as long as that is in the memory of the
/// stack.
pub proof fn law_instructions_move_the_pointer(
    fr: NativeFrame,
    machine: NativeMachine,
    region: Region,
    to: Reg,
)
    ensures
        region.has_end(at(to, fr) as int) ==> (run_inst(
            Inst::DefPointer(to),
            fr,
            machine,
            region,
        ) matches NativeRan::On(fr2) && fr2.pointer == at(to, fr) && fr2.mem == fr.mem && fr2.log
            == fr.log),
        !region.has_end(at(to, fr) as int) ==> !(run_inst(
            Inst::DefPointer(to),
            fr,
            machine,
            region,
        ) is On),
{
}

/// Cells lie next to each other, eight bytes each, from the bottom of the stack up.
pub proof fn law_cells_lie_in_a_row(region: Region, i: int)
    requires
        0 <= i < region.room,
    ensures
        region.cell(0) == region.base,
        region.cell(i + 1) - region.cell(i) == 8,
        region.has_cell(region.cell(i)),
        region.has_end(region.cell(i)),
        region.has_end(region.cell(i + 1)),
        !region.has_cell(region.cell(region.room as int)),
{
}

} // verus!
