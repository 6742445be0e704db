//! Calls: where functions make them, with how much on the stack, and which of them come last.
use vstd::prelude::*;

#[allow(unused_imports)]
use crate::jit::calls::{
    body_calls, func_calls, instr_calls, leaving_calls, next_calls, path_calls, then_calls, Call,
};
#[allow(unused_imports)]
use crate::jit::cfg::{FunctionModel, Next, TerminatorModel};
#[allow(unused_imports)]
use crate::jit::delta::{instr_delta, Delta};
#[allow(unused_imports)]
use crate::jit::plan::{run_op, BlockPlan, Ending, Frame, FunctionPlan, Goal, Machine, Op, Ran, Reg};
#[allow(unused_imports)]
use crate::jit::tailcall::{goes_back, has_side_effects, last_effect, optimized, tail_call};
#[allow(unused_imports)]
use crate::types::{ArithOp, BasicBlockInstr};

verus! {

/// An instruction makes a call just where it is one of a function that is asked about; the stack has
/// not grown then.
pub proof fn law_calls_of_an_instruction(instr: BasicBlockInstr, names: Seq<Seq<char>>)
    requires
        names.len() <= usize::MAX,
    ensures
        instr matches BasicBlockInstr::FunctionCall(name) ==> (names.contains(name@) ==> (
        instr_calls(instr, names).len() == 1 && instr_calls(instr, names)[0].0 < names.len()
            && names[instr_calls(instr, names)[0].0 as int] == name@ && instr_calls(
            instr,
            names,
        )[0].1 == 0)) && (!names.contains(name@) ==> instr_calls(instr, names).len() == 0),
        !(instr is FunctionCall) ==> instr_calls(instr, names).len() == 0,
{
}

/// The calls of code in a row: those of the first piece, and those of the second with the stack
/// grown by what the first one adds; there are none behind what never ends.
pub proof fn law_calls_of_a_sequence(c1: Seq<Call>, d: isize, c2: Seq<Call>, i: int)
    ensures
        then_calls(c1, Delta::Never, c2) == Some(c1),
        then_calls(c1, Delta::Num(d), c2) matches Some(c) ==> {
            &&& c.len() == c1.len() + c2.len()
            &&& 0 <= i < c1.len() ==> c[i] == c1[i]
            &&& 0 <= i < c2.len() ==> c[c1.len() + i].0 == c2[i].0 && c[c1.len() + i].1 == d
                + c2[i].1
        },
        then_calls(c1, Delta::Num(d), c2) is None <==> exists|k: int|
            0 <= k < c2.len() && !(isize::MIN <= d + (#[trigger] c2[k]).1 <= isize::MAX),
{
}

/// The calls from an instruction on: its own, and those behind it with the stack grown by what it
/// adds.
pub proof fn law_calls_of_a_stretch(
    code: Seq<BasicBlockInstr>,
    i: int,
    rest: Seq<Call>,
    known: Map<Seq<char>, Delta>,
    names: Seq<Seq<char>>,
    c: Seq<Call>,
    d: isize,
    k: int,
)
    requires
        0 <= i < code.len(),
        body_calls(code, i + 1, rest, known, names) == Some(c),
        instr_delta(code[i], known) == Some(Delta::Num(d)),
    ensures
        body_calls(code, i, rest, known, names) matches Some(all) ==> {
            let own = instr_calls(code[i], names);
            &&& all.len() == own.len() + c.len()
            &&& 0 <= k < own.len() ==> all[k] == own[k]
            &&& 0 <= k < c.len() ==> all[own.len() + k].0 == c[k].0 && all[own.len() + k].1 == d
                + c[k].1
        },
        body_calls(code, code.len() as int, rest, known, names) == Some(rest),
{
    law_calls_of_a_sequence(instr_calls(code[i], names), d, c, k);
}

/// The calls behind a branch: those of both its sides, with the stack lower by the value that
/// decides.
pub proof fn law_calls_of_a_branch(
    f: FunctionModel,
    pos: int,
    on_true: Next,
    on_false: Next,
    known: Map<Seq<char>, Delta>,
    names: Seq<Seq<char>>,
    a: Seq<Call>,
    b: Seq<Call>,
    k: int,
)
    requires
        next_calls(f, pos, on_true, known, names) == Some(a),
        next_calls(f, pos, on_false, known, names) == Some(b),
    ensures
        leaving_calls(f, pos, (TerminatorModel::If { on_true, on_false }), known, names) matches Some(
            c,
        ) ==> {
            &&& c.len() == a.len() + b.len()
            &&& 0 <= k < a.len() ==> c[k].0 == a[k].0 && c[k].1 == a[k].1 - 1
            &&& 0 <= k < b.len() ==> c[a.len() + k].0 == b[k].0 && c[a.len() + k].1 == b[k].1 - 1
        },
        leaving_calls(f, pos, TerminatorModel::Jump(on_true), known, names) == Some(a),
{
    law_calls_of_a_sequence(Seq::empty(), (-1) as isize, a + b, k);
    law_calls_of_a_sequence(Seq::empty(), (-1) as isize, a + b, a.len() + k);
}

/// Numbers, sums, differences, products and comparisons compute a value and do no more: they always
/// go on, with the world as it was. All other operations do more.
pub proof fn law_what_does_more(op: Op, fr: Frame, machine: Machine)
    ensures
        !has_side_effects(op) <==> op is Const || (op matches Op::Arith { op: kind, .. } && (kind
            == ArithOp::Add || kind == ArithOp::Sub || kind == ArithOp::Mul || kind == ArithOp::Lt)),
        !has_side_effects(op) ==> (run_op(op, fr, machine) matches Ran::On(fr2) && fr2.world
            == fr.world),
{
}

/// Behind the last operation that does more than compute there is none; if there is no last one,
/// there is none at all.
pub proof fn law_last_effect_is_the_last(ops: Seq<Op>)
    ensures
        -1 <= last_effect(ops) < ops.len(),
        last_effect(ops) >= 0 ==> has_side_effects(ops[last_effect(ops)]),
        forall|i: int| last_effect(ops) < i < ops.len() ==> !has_side_effects(#[trigger] ops[i]),
    decreases ops.len(),
{
    if ops.len() > 0 && !has_side_effects(ops.last()) {
        let fewer = ops.drop_last();
        law_last_effect_is_the_last(fewer);
        assert forall|i: int| last_effect(ops) < i < ops.len() implies !has_side_effects(
            #[trigger] ops[i],
        ) by {
            if i < fewer.len() {
                assert(!has_side_effects(fewer[i]));
            }
        }
    }
}

/// A way back to the caller: at once; or through a block, further on, that does no more than
/// compute, and from which a way leads back.
pub proof fn law_ways_back(
    blocks: Map<usize, BlockPlan>,
    length: usize,
    pos: int,
    q: usize,
    code: u8,
    goal: Goal,
)
    ensures
        goes_back(blocks, length, pos, Goal::Return),
        !goes_back(blocks, length, pos, Goal::Trap(code)),
        pos < q < length && blocks.contains_key(q) && (forall|i: int|
            0 <= i < blocks[q].ops@.len() ==> !has_side_effects(#[trigger] blocks[q].ops@[i]))
            && blocks[q].ending is Goto && blocks[q].ending->Goto_goal == goal && goes_back(
            blocks,
            length,
            q as int,
            goal,
        ) ==> goes_back(blocks, length, pos, Goal::Block(q)),
        goes_back(blocks, length, pos, Goal::Block(q)) ==> pos < q < length && blocks.contains_key(
            q,
        ) && (forall|i: int|
            0 <= i < blocks[q].ops@.len() ==> !has_side_effects(#[trigger] blocks[q].ops@[i]))
            && blocks[q].ending is Goto,
{
    if blocks.contains_key(q) {
        law_last_effect_is_the_last(blocks[q].ops@);
    }
}

/// A call at the end of a block that works on the stack is left the rest, if all behind it is to
/// compute and a way leads back to the caller. What stood before it stays.
pub proof fn law_last_call_is_found(
    new: FunctionPlan,
    plan: FunctionPlan,
    pos: usize,
    before: Seq<Op>,
    callee: String,
    behind: Seq<Op>,
    goal: Goal,
)
    requires
        plan.signature is None,
        optimized(new, plan),
        pos < plan.length,
        plan.blocks@.contains_key(pos),
        plan.blocks@[pos].ops@ == before.push(Op::CallStack(callee)) + behind,
        forall|i: int| 0 <= i < behind.len() ==> !has_side_effects(#[trigger] behind[i]),
        plan.blocks@[pos].ending is Goto,
        plan.blocks@[pos].ending->Goto_goal == goal,
    ensures
        new.blocks@.contains_key(pos),
        goes_back(plan.blocks@, plan.length, pos as int, goal) ==> new.blocks@[pos].ops@ == before
            && (new.blocks@[pos].ending matches Ending::TailCallStack(name) && name@ == callee@),
        !goes_back(plan.blocks@, plan.length, pos as int, goal) ==> new.blocks@[pos]
            == plan.blocks@[pos],
{
    let ops = plan.blocks@[pos].ops@;
    let n = before.len() as int;
    assert(ops[n] == Op::CallStack(callee));
    law_last_effect_is_the_last(ops);
    let k = last_effect(ops);
    if k < n {
        assert(!has_side_effects(ops[n]));
    } else if k > n {
        assert(ops[k] == behind[k - n - 1]);
    }
    assert(k == n);
    assert(ops.take(n) =~= before);
    assert(new.blocks@.contains_key(pos));
}

/// A block whose last operation that does more than compute is no call, or that does not go to one
/// goal, stays as it is.
pub proof fn law_other_blocks_stay(new: FunctionPlan, plan: FunctionPlan, pos: usize)
    requires
        optimized(new, plan),
        pos < plan.length,
        plan.blocks@.contains_key(pos),
        plan.signature is Some || !(plan.blocks@[pos].ending is Goto) || (forall|i: int|
            0 <= i < plan.blocks@[pos].ops@.len() ==> !(#[trigger] plan.blocks@[pos].ops@[i]
                is CallStack)),
    ensures
        new.blocks@.contains_key(pos),
        new.blocks@[pos] == plan.blocks@[pos],
{
    law_last_effect_is_the_last(plan.blocks@[pos].ops@);
    assert(new.blocks@.contains_key(pos));
}

} // verus!
