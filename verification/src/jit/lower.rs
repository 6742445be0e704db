//! From plans to instructions for a machine with memory.
use std::collections::BTreeMap;

use vstd::prelude::*;

#[allow(unused_imports)]
use crate::jit::compile::{ending_args, ending_ok};
#[allow(unused_imports)]
use crate::jit::memory_laws::{block_ok, plan_ok};
#[allow(unused_imports)]
use crate::jit::native::{
    all_placed, block_lowered, ending_placed, first_inst, function_lowered, lowers, offset,
    op_lowered, op_placed, ops_lowered, placed, result,
};
use crate::jit::native::{Inst, NativeBlock, NativeFunction, STRIDE};
#[allow(unused_imports)]
use crate::jit::plan::{op_ok, ops_ok, reg_ok, regs_ok, touches_stack};
use crate::jit::plan::{BlockPlan, Ending, FunctionPlan, Goal, Op, Reg};
use crate::types::Value;

verus! {

/// The number of a value among the instructions.
fn place_reg(reg: Reg, place: &Vec<usize>) -> (r: Reg)
    requires
        reg matches Reg::Result { op, .. } ==> op < place.len(),
    ensures
        r == placed(reg, place@),
{
    match reg {
        Reg::Param(k) => Reg::Param(k),
        Reg::Result { op, k } => Reg::Result { op: place[op], k },
    }
}

/// The numbers of several values among the instructions.
fn place_regs(regs: &Vec<Reg>, place: &Vec<usize>) -> (r: Vec<Reg>)
    requires
        forall|i: int|
            0 <= i < regs.len() ==> (#[trigger] regs[i] matches Reg::Result { op, .. } ==> op
                < place.len()),
    ensures
        r@ == all_placed(regs@, place@),
{
    let mut moved: Vec<Reg> = Vec::new();
    let mut i: usize = 0;
    while i < regs.len()
        invariant
            i <= regs.len(),
            moved@.len() == i,
            forall|k: int|
                0 <= k < regs.len() ==> (#[trigger] regs[k] matches Reg::Result { op, .. } ==> op
                    < place.len()),
            forall|k: int| 0 <= k < i ==> #[trigger] moved@[k] == placed(regs@[k], place@),
        decreases regs.len() - i,
    {
        moved.push(place_reg(regs[i], place));
        i = i + 1;
    }
    assert(moved@ =~= all_placed(regs@, place@));
    moved
}

/// The result of the last instruction so far.
fn last_result(insts: &Vec<Inst>) -> (r: Reg)
    requires
        insts.len() > 0,
    ensures
        r == result(insts@.len() - 1),
{
    Reg::Result { op: insts.len() - 1, k: 0 }
}

/// What is added to a pointer to reach a cell at a distance.
fn offset_of(n: usize) -> (r: Value)
    ensures
        r == offset(n),
{
    if n as u64 <= 0xfff_ffff_ffff_ffff {
        -(STRIDE * (n as i64))
    } else {
        i64::MIN
    }
}

/// Writes the instructions that move the free end of the stack down by one value.
fn emit_pop_loadless(insts: &mut Vec<Inst>)
    ensures
        old(insts)@.len() <= final(insts)@.len(),
        final(insts)@.take(old(insts)@.len() as int) == old(insts)@,
        lowers(
            Op::Discard,
            final(insts)@.skip(old(insts)@.len() as int),
            old(insts)@.len() as int,
            Seq::empty(),
        ),
{
    let ghost n = insts@.len() as int;
    insts.push(Inst::UsePointer);
    let pointer = last_result(insts);
    insts.push(Inst::AddImm(pointer, -STRIDE));
    let moved = last_result(insts);
    insts.push(Inst::DefPointer(moved));
    assert(insts@.take(n) =~= old(insts)@);
    assert(insts@.skip(n) =~= seq![
        Inst::UsePointer,
        Inst::AddImm(result(n), (-STRIDE) as i64),
        Inst::DefPointer(result(n + 1)),
    ]);
}

/// Writes the instructions that take the top value off the stack.
fn emit_pop(insts: &mut Vec<Inst>)
    ensures
        old(insts)@.len() <= final(insts)@.len(),
        final(insts)@.take(old(insts)@.len() as int) == old(insts)@,
        lowers(
            Op::Pop,
            final(insts)@.skip(old(insts)@.len() as int),
            old(insts)@.len() as int,
            Seq::empty(),
        ),
{
    let ghost n = insts@.len() as int;
    insts.push(Inst::UsePointer);
    let pointer = last_result(insts);
    insts.push(Inst::AddImm(pointer, -STRIDE));
    let moved = last_result(insts);
    insts.push(Inst::DefPointer(moved));
    insts.push(Inst::Load(moved));
    assert(insts@.take(n) =~= old(insts)@);
    assert(insts@.skip(n) =~= seq![
        Inst::UsePointer,
        Inst::AddImm(result(n), (-STRIDE) as i64),
        Inst::DefPointer(result(n + 1)),
        Inst::Load(result(n + 1)),
    ]);
}

/// Writes the instructions that put a value on the stack.
fn emit_push(insts: &mut Vec<Inst>, value: Reg, place: &Vec<usize>)
    requires
        value matches Reg::Result { op, .. } ==> op < place.len(),
    ensures
        old(insts)@.len() <= final(insts)@.len(),
        final(insts)@.take(old(insts)@.len() as int) == old(insts)@,
        lowers(
            Op::Push(value),
            final(insts)@.skip(old(insts)@.len() as int),
            old(insts)@.len() as int,
            place@,
        ),
{
    let ghost n = insts@.len() as int;
    insts.push(Inst::UsePointer);
    let pointer = last_result(insts);
    insts.push(Inst::Store { value: place_reg(value, place), addr: pointer });
    insts.push(Inst::AddImm(pointer, STRIDE));
    let moved = last_result(insts);
    insts.push(Inst::DefPointer(moved));
    assert(insts@.take(n) =~= old(insts)@);
    assert(insts@.skip(n) =~= seq![
        Inst::UsePointer,
        Inst::Store { value: placed(value, place@), addr: result(n) },
        Inst::AddImm(result(n), STRIDE),
        Inst::DefPointer(result(n + 2)),
    ]);
}

/// Writes the instructions that look at the value at a known distance from the top of the stack.
fn emit_peek(insts: &mut Vec<Inst>, distance: usize)
    ensures
        old(insts)@.len() <= final(insts)@.len(),
        final(insts)@.take(old(insts)@.len() as int) == old(insts)@,
        lowers(
            Op::Peek(distance),
            final(insts)@.skip(old(insts)@.len() as int),
            old(insts)@.len() as int,
            Seq::empty(),
        ),
{
    let ghost n = insts@.len() as int;
    insts.push(Inst::UsePointer);
    let pointer = last_result(insts);
    insts.push(Inst::AddImm(pointer, offset_of(distance)));
    let found = last_result(insts);
    insts.push(Inst::Load(found));
    assert(insts@.take(n) =~= old(insts)@);
    assert(insts@.skip(n) =~= seq![
        Inst::UsePointer,
        Inst::AddImm(result(n), offset(distance)),
        Inst::Load(result(n + 1)),
    ]);
}

/// Writes the instructions that copy the value at some distance from the top of the stack, to the
/// top.
fn emit_pick(insts: &mut Vec<Inst>, distance: Reg, place: &Vec<usize>)
    requires
        distance matches Reg::Result { op, .. } ==> op < place.len(),
    ensures
        old(insts)@.len() <= final(insts)@.len(),
        final(insts)@.take(old(insts)@.len() as int) == old(insts)@,
        lowers(
            Op::Pick(distance),
            final(insts)@.skip(old(insts)@.len() as int),
            old(insts)@.len() as int,
            place@,
        ),
{
    let ghost n = insts@.len() as int;
    insts.push(Inst::UsePointer);
    let pointer = last_result(insts);
    insts.push(Inst::MulImm(place_reg(distance, place), STRIDE));
    let strided = last_result(insts);
    insts.push(Inst::Sub(pointer, strided));
    let target = last_result(insts);
    insts.push(Inst::Load(target));
    let loaded = last_result(insts);
    insts.push(Inst::Store { value: loaded, addr: pointer });
    insts.push(Inst::AddImm(pointer, STRIDE));
    let moved = last_result(insts);
    insts.push(Inst::DefPointer(moved));
    assert(insts@.take(n) =~= old(insts)@);
    assert(insts@.skip(n) =~= seq![
        Inst::UsePointer,
        Inst::MulImm(placed(distance, place@), STRIDE),
        Inst::Sub(result(n), result(n + 1)),
        Inst::Load(result(n + 2)),
        Inst::Store { value: result(n + 3), addr: result(n) },
        Inst::AddImm(result(n), STRIDE),
        Inst::DefPointer(result(n + 5)),
    ]);
}

/// Writes the instructions that drop the lowest of the top values of the stack.
fn emit_drop_range(insts: &mut Vec<Inst>, start: Reg, amount: Reg, place: &Vec<usize>)
    requires
        start matches Reg::Result { op, .. } ==> op < place.len(),
        amount matches Reg::Result { op, .. } ==> op < place.len(),
    ensures
        old(insts)@.len() <= final(insts)@.len(),
        final(insts)@.take(old(insts)@.len() as int) == old(insts)@,
        lowers(
            Op::DropRange { start, amount },
            final(insts)@.skip(old(insts)@.len() as int),
            old(insts)@.len() as int,
            place@,
        ),
{
    let ghost n = insts@.len() as int;
    insts.push(Inst::UsePointer);
    let pointer = last_result(insts);
    insts.push(Inst::MulImm(place_reg(start, place), STRIDE));
    let start_strided = last_result(insts);
    insts.push(Inst::MulImm(place_reg(amount, place), STRIDE));
    let amount_strided = last_result(insts);
    insts.push(Inst::Sub(pointer, start_strided));
    let drop_start = last_result(insts);
    insts.push(Inst::Add(drop_start, amount_strided));
    let drop_end = last_result(insts);
    insts.push(Inst::Sub(start_strided, amount_strided));
    let kept_strided = last_result(insts);
    insts.push(Inst::Memmove { dest: drop_start, source: drop_end, size: kept_strided });
    insts.push(Inst::Sub(pointer, amount_strided));
    let moved = last_result(insts);
    insts.push(Inst::DefPointer(moved));
    assert(insts@.take(n) =~= old(insts)@);
    assert(insts@.skip(n) =~= seq![
        Inst::UsePointer,
        Inst::MulImm(placed(start, place@), STRIDE),
        Inst::MulImm(placed(amount, place@), STRIDE),
        Inst::Sub(result(n), result(n + 1)),
        Inst::Add(result(n + 3), result(n + 2)),
        Inst::Sub(result(n + 1), result(n + 2)),
        Inst::Memmove { dest: result(n + 3), source: result(n + 4), size: result(n + 5) },
        Inst::Sub(result(n), result(n + 2)),
        Inst::DefPointer(result(n + 7)),
    ]);
}

/// Writes the instructions that call a function that works on the stack.
fn emit_call_stack(insts: &mut Vec<Inst>, callee: &String)
    ensures
        old(insts)@.len() <= final(insts)@.len(),
        final(insts)@.take(old(insts)@.len() as int) == old(insts)@,
        lowers(
            Op::CallStack(*callee),
            final(insts)@.skip(old(insts)@.len() as int),
            old(insts)@.len() as int,
            Seq::empty(),
        ),
{
    let ghost n = insts@.len() as int;
    insts.push(Inst::UsePointer);
    let pointer = last_result(insts);
    insts.push(Inst::CallStack { callee: callee.clone(), pointer });
    let moved = last_result(insts);
    insts.push(Inst::DefPointer(moved));
    assert(insts@.take(n) =~= old(insts)@);
    assert(insts@.skip(n).len() == 3);
    assert(insts@.skip(n)[0] == insts@[n]);
    assert(insts@.skip(n)[1] == insts@[n + 1]);
    assert(insts@.skip(n)[2] == insts@[n + 2]);
}

/// An operation that does not work on the stack, with its numbers changed.
fn place_op(op: &Op, place: &Vec<usize>, params: Ghost<nat>, ops: Ghost<Seq<Op>>) -> (r: Op)
    requires
        !touches_stack(*op),
        op_ok(*op, params@, ops@),
        place.len() == ops@.len(),
    ensures
        op_placed(*op, r, place@),
{
    match op {
        Op::Arith { op, a, b } => Op::Arith {
            op: *op,
            a: place_reg(*a, place),
            b: place_reg(*b, place),
        },
        Op::Print(v) => Op::Print(place_reg(*v, place)),
        Op::Quit => Op::Quit,
        Op::Syscall { number, a1, a2, a3, a4, a5, a6 } => {
            proof {
                let regs = seq![*number, *a1, *a2, *a3, *a4, *a5, *a6];
                assert forall|i: int| 0 <= i < 7 implies reg_ok(#[trigger] regs[i], params@, ops@) by {
                }
                assert(regs[0] == number && regs[1] == a1 && regs[2] == a2 && regs[3] == a3
                    && regs[4] == a4 && regs[5] == a5 && regs[6] == a6);
            }
            Op::Syscall {
                number: place_reg(*number, place),
                a1: place_reg(*a1, place),
                a2: place_reg(*a2, place),
                a3: place_reg(*a3, place),
                a4: place_reg(*a4, place),
                a5: place_reg(*a5, place),
                a6: place_reg(*a6, place),
            }
        },
        Op::Read8(addr) => Op::Read8(place_reg(*addr, place)),
        Op::Write8 { addr, value } => Op::Write8 {
            addr: place_reg(*addr, place),
            value: place_reg(*value, place),
        },
        Op::ReadNative(addr) => Op::ReadNative(place_reg(*addr, place)),
        Op::WriteNative { addr, value } => Op::WriteNative {
            addr: place_reg(*addr, place),
            value: place_reg(*value, place),
        },
        Op::Call { callee, args, results } => {
            proof {
                lemma_regs_placed(args@, params@, ops@);
            }
            Op::Call {
                callee: callee.clone(),
                args: place_regs(args, place),
                results: *results,
            }
        },
        Op::Const(v) => Op::Const(*v),
        _ => Op::Quit,
    }
}

/// Values that are there have a number among the instructions.
proof fn lemma_regs_placed(regs: Seq<Reg>, params: nat, ops: Seq<Op>)
    requires
        regs_ok(regs, params, ops),
    ensures
        forall|i: int|
            0 <= i < regs.len() ==> (#[trigger] regs[i] matches Reg::Result { op, .. } ==> op
                < ops.len()),
{
    assert forall|i: int| 0 <= i < regs.len() implies (#[trigger] regs[i] matches Reg::Result {
        op,
        ..
    } ==> op < ops.len()) by {
        assert(reg_ok(regs[i], params, ops));
    }
}

/// Writes the instructions for an operation.
fn lower_op(
    op: &Op,
    insts: &mut Vec<Inst>,
    place: &Vec<usize>,
    params: Ghost<nat>,
    ops: Ghost<Seq<Op>>,
)
    requires
        op_ok(*op, params@, ops@),
        place.len() == ops@.len(),
    ensures
        old(insts)@.len() < final(insts)@.len(),
        final(insts)@.take(old(insts)@.len() as int) == old(insts)@,
        lowers(
            *op,
            final(insts)@.skip(old(insts)@.len() as int),
            old(insts)@.len() as int,
            place@,
        ),
{
    let ghost n = insts@.len() as int;
    match op {
        Op::Pop => emit_pop(insts),
        Op::Discard => emit_pop_loadless(insts),
        Op::Push(v) => emit_push(insts, *v, place),
        Op::Peek(distance) => emit_peek(insts, *distance),
        Op::Pick(v) => emit_pick(insts, *v, place),
        Op::DropRange { start, amount } => emit_drop_range(insts, *start, *amount, place),
        Op::CallStack(callee) => emit_call_stack(insts, callee),
        _ => {
            insts.push(Inst::Plain(place_op(op, place, params, ops)));
            proof {
                assert(insts@.take(n) =~= old(insts)@);
                assert(insts@.skip(n).len() == 1);
                assert(insts@.skip(n)[0] == insts@[n]);
            }
        },
    }
    assert(insts@.skip(n).len() > 0);
}

/// One operation more.
proof fn lemma_one_more(
    ops: Seq<Op>,
    op: Op,
    insts: Seq<Inst>,
    more: Seq<Inst>,
    place: Seq<usize>,
)
    requires
        ops_lowered(ops, insts, place),
        insts.len() < more.len() <= usize::MAX,
        more.take(insts.len() as int) == insts,
        lowers(op, more.skip(insts.len() as int), insts.len() as int, place),
    ensures
        ops_lowered(ops.push(op), more, place.push((more.len() - 1) as usize)),
{
    let ops2 = ops.push(op);
    let place2 = place.push((more.len() - 1) as usize);
    assert forall|j: int| 0 <= j < ops2.len() implies #[trigger] op_lowered(
        ops2[j],
        more,
        place2,
        j,
    ) by {
        assert(place2.take(j) =~= place.take(j));
        assert(first_inst(place2, j) == first_inst(place, j));
        if j < ops.len() {
            assert(op_lowered(ops[j], insts, place, j));
            assert(more.subrange(first_inst(place, j), place[j] + 1) =~= insts.subrange(
                first_inst(place, j),
                place[j] + 1,
            )) by {
                assert forall|k: int| 0 <= k < insts.len() implies insts[k] == more[k] by {
                    assert(more.take(insts.len() as int)[k] == more[k]);
                }
            }
        } else {
            assert(place.take(j) =~= place);
            assert(more.subrange(insts.len() as int, more.len() as int) =~= more.skip(
                insts.len() as int,
            ));
        }
    }
    assert(place2[ops.len() as int] == more.len() - 1);
    assert(first_inst(place2, ops2.len() as int) == more.len());
}

/// The end of a block, with its numbers changed.
fn place_ending(
    ending: &Ending,
    place: &Vec<usize>,
    params: Ghost<nat>,
    ops: Ghost<Seq<Op>>,
) -> (r: Ending)
    requires
        ending_ok(*ending, params@, ops@),
        place.len() == ops@.len(),
    ensures
        ending_placed(*ending, r, place@),
{
    proof {
        lemma_regs_placed(ending_args(*ending), params@, ops@);
    }
    match ending {
        Ending::Goto { goal, args } => Ending::Goto { goal: *goal, args: place_regs(args, place) },
        Ending::Branch { cond, on_true, on_false, args } => Ending::Branch {
            cond: place_reg(*cond, place),
            on_true: *on_true,
            on_false: *on_false,
            args: place_regs(args, place),
        },
        Ending::Switch { index, goals, args } => Ending::Switch {
            index: place_reg(*index, place),
            goals: copy_goals(goals),
            args: place_regs(args, place),
        },
        Ending::TailCall { callee, args } => Ending::TailCall {
            callee: callee.clone(),
            args: place_regs(args, place),
        },
        Ending::TailCallStack(callee) => Ending::TailCallStack(callee.clone()),
    }
}

/// The same goals.
fn copy_goals(goals: &Vec<Goal>) -> (r: Vec<Goal>)
    ensures
        r@ == goals@,
{
    let mut same: Vec<Goal> = Vec::new();
    let mut i: usize = 0;
    while i < goals.len()
        invariant
            i <= goals.len(),
            same@ == goals@.take(i as int),
        decreases goals.len() - i,
    {
        same.push(goals[i]);
        i = i + 1;
        assert(same@ =~= goals@.take(i as int));
    }
    assert(goals@.take(i as int) =~= goals@);
    same
}

/// A block of a plan, for a machine with memory.
fn lower_block(block: &BlockPlan, stacked: Ghost<bool>) -> (r: NativeBlock)
    requires
        block_ok(*block, stacked@),
    ensures
        block_lowered(*block, r),
{
    let ghost params = block.params as nat;
    let ghost ops = block.ops@;
    let mut insts: Vec<Inst> = Vec::new();
    let mut place: Vec<usize> = Vec::new();
    let mut i: usize = 0;
    while i < block.ops.len()
        invariant
            i <= ops.len(),
            ops == block.ops@,
            ops_ok(ops, params),
            place.len() == i,
            ops_lowered(ops.take(i as int), insts@, place@),
        decreases ops.len() - i,
    {
        let ghost before = insts@;
        let ghost some = ops.take(i as int);
        let op = &block.ops[i];
        assert(op_ok(ops[i as int], params, some));
        lower_op(op, &mut insts, &place, Ghost(params), Ghost(some));
        let last = insts.len() - 1;
        proof {
            lemma_one_more(some, ops[i as int], before, insts@, place@);
            assert(ops.take(i + 1) =~= some.push(ops[i as int]));
        }
        place.push(last);
        i = i + 1;
    }
    assert(ops.take(i as int) =~= ops);
    let ending = place_ending(&block.ending, &place, Ghost(params), Ghost(ops));
    let native = NativeBlock { params: block.params, insts, ending };
    assert(ops_lowered(ops, native.insts@, place@) && ending_placed(
        block.ending,
        native.ending,
        place@,
    ));
    native
}

/// The function of a plan, for a machine with memory.
pub fn lower(plan: &FunctionPlan) -> (r: NativeFunction)
    requires
        plan_ok(*plan),
    ensures
        function_lowered(*plan, r),
{
    let mut blocks: BTreeMap<usize, NativeBlock> = BTreeMap::new();
    let mut at: usize = 0;
    while at < plan.length
        invariant
            at <= plan.length,
            plan_ok(*plan),
            forall|p: usize|
                #![trigger blocks@.contains_key(p)]
                (blocks@.contains_key(p) <==> p < at && plan.blocks@.contains_key(p)) && (
                blocks@.contains_key(p) ==> block_lowered(plan.blocks@[p], blocks@[p])),
        decreases plan.length - at,
    {
        if let Some(block) = plan.blocks.get(&at) {
            let native = lower_block(block, Ghost(plan.signature is None));
            blocks.insert(at, native);
        }
        at = at + 1;
    }
    NativeFunction { signature: plan.signature, blocks, length: plan.length }
}

} // verus!
