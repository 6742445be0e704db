//! Calls at the end of a function, found in its plan.
use std::collections::BTreeMap;

use vstd::prelude::*;

use crate::jit::plan::{BlockPlan, Ending, FunctionPlan, Goal, Op};
#[allow(unused_imports)]
use crate::jit::plan::{
    run_block, run_ending, run_goal, run_ops, run_plan, value_of, values_of, Frame, Machine, Ran,
};
#[allow(unused_imports)]
use crate::semantics::{Outcome, World};
use crate::types::ArithOp;
#[allow(unused_imports)]
use crate::types::Value;

verus! {

/// Whether an operation does more than to compute a value.
pub open spec fn has_side_effects(op: Op) -> bool {
    match op {
        Op::Const(_) => false,
        Op::Arith { op, .. } => op is Div || op is Rem || op is Pow,
        _ => true,
    }
}

/// Whether an operation does more than to compute a value.
pub fn trivially_has_side_effects(op: &Op) -> (r: bool)
    ensures
        r == has_side_effects(*op),
{
    match op {
        Op::Const(_) => false,
        Op::Arith { op, .. } => match op {
            ArithOp::Div | ArithOp::Rem | ArithOp::Pow => true,
            ArithOp::Add | ArithOp::Sub | ArithOp::Mul | ArithOp::Lt => false,
        },
        _ => true,
    }
}

/// The number of the last operation that does more than to compute a value; -1 if there is none.
pub open spec fn last_effect(ops: Seq<Op>) -> int
    decreases ops.len(),
{
    if ops.len() == 0 {
        -1
    } else if has_side_effects(ops.last()) {
        ops.len() - 1
    } else {
        last_effect(ops.drop_last())
    }
}

/// Whether from a goal on nothing happens but a return to the caller.
pub open spec fn goes_back(
    blocks: Map<usize, BlockPlan>,
    length: usize,
    pos: int,
    goal: Goal,
) -> bool
    decreases length - pos,
{
    match goal {
        Goal::Trap(_) => false,
        Goal::Return => true,
        Goal::Block(q) => {
            &&& pos < q < length
            &&& blocks.contains_key(q)
            &&& last_effect(blocks[q].ops@) < 0
            &&& match blocks[q].ending {
                Ending::Goto { goal, .. } => goes_back(blocks, length, q as int, goal),
                _ => false,
            }
        },
    }
}

/// The number of the operation that calls a function to which a block leaves the rest.
pub open spec fn tail_call(
    blocks: Map<usize, BlockPlan>,
    length: usize,
    pos: usize,
) -> Option<int> {
    let ops = blocks[pos].ops@;
    let k = last_effect(ops);
    match blocks[pos].ending {
        Ending::Goto { goal, .. } => if k >= 0 && ops[k] is CallStack && goes_back(
            blocks,
            length,
            pos as int,
            goal,
        ) {
            Some(k)
        } else {
            None
        },
        _ => None,
    }
}

/// Whether a block leaves the rest to the function that it calls last, where it can.
pub open spec fn optimized_block(
    new: BlockPlan,
    blocks: Map<usize, BlockPlan>,
    length: usize,
    pos: usize,
) -> bool {
    match tail_call(blocks, length, pos) {
        Some(k) => {
            &&& new.params == blocks[pos].params
            &&& new.ops@ == blocks[pos].ops@.take(k)
            &&& new.ending is TailCallStack
            &&& new.ending->TailCallStack_0@ == blocks[pos].ops@[k]->CallStack_0@
        },
        None => new == blocks[pos],
    }
}

/// Whether all blocks of a plan that works on the stack leave the rest to the function that they
/// call last, where they can.
pub open spec fn optimized(new: FunctionPlan, plan: FunctionPlan) -> bool {
    if plan.signature is Some {
        new == plan
    } else {
        &&& new.signature == plan.signature
        &&& new.length == plan.length
        &&& forall|p: usize| #[trigger]
            new.blocks@.contains_key(p) <==> plan.blocks@.contains_key(p)
        &&& forall|p: usize| #[trigger]
            new.blocks@.contains_key(p) && p < plan.length ==> optimized_block(
                new.blocks@[p],
                plan.blocks@,
                plan.length,
                p,
            )
    }
}

/// Behind the last operation with an effect, nothing happens.
proof fn lemma_quiet(ops: Seq<Op>, fr: Frame, machine: Machine)
    ensures
        -1 <= last_effect(ops) < ops.len(),
        last_effect(ops) >= 0 ==> has_side_effects(ops[last_effect(ops)]),
        match run_ops(ops.take(last_effect(ops) + 1), fr, machine) {
            Ran::On(fr1) => {
                &&& run_ops(ops, fr, machine) matches Ran::On(fr2)
                &&& fr2.world == fr1.world
            },
            other => run_ops(ops, fr, machine) == other,
        },
    decreases ops.len(),
{
    if ops.len() > 0 && !has_side_effects(ops.last()) {
        let fewer = ops.drop_last();
        lemma_quiet(fewer, fr, machine);
        assert(ops.take(last_effect(ops) + 1) =~= fewer.take(last_effect(fewer) + 1));
    } else {
        assert(ops.take(ops.len() as int) =~= ops);
    }
}

/// From such a goal on, nothing happens but a return to the caller.
proof fn lemma_goes_back(
    plan: FunctionPlan,
    pos: int,
    goal: Goal,
    args: Seq<Value>,
    world: World,
    machine: Machine,
)
    requires
        plan.signature is None,
        goes_back(plan.blocks@, plan.length, pos, goal),
    ensures
        run_goal(plan, pos, goal, args, world, machine) == Some(Outcome::Done(world)),
    decreases plan.length - pos,
{
    if let Goal::Block(q) = goal {
        let ops = plan.blocks@[q].ops@;
        let fr = Frame { params: args, results: Seq::empty(), world };
        lemma_quiet(ops, fr, machine);
        assert(ops.take(0) =~= Seq::empty());
        let fr2 = run_ops(ops, fr, machine)->On_0;
        if let Ending::Goto { goal: further, args: regs } = plan.blocks@[q].ending {
            lemma_goes_back(plan, q as int, further, values_of(regs@, fr2), fr2.world, machine);
        }
    }
}

/// From a block on, both plans do the same.
proof fn lemma_block_runs_alike(
    new: FunctionPlan,
    plan: FunctionPlan,
    pos: int,
    args: Seq<Value>,
    world: World,
    machine: Machine,
)
    requires
        optimized(new, plan),
        plan.signature is None,
    ensures
        run_block(new, pos, args, world, machine) == run_block(plan, pos, args, world, machine),
    decreases plan.length - pos, 2int,
{
    if 0 <= pos < plan.length && plan.blocks@.contains_key(pos as usize) {
        let p = pos as usize;
        let old_block = plan.blocks@[p];
        let ops = old_block.ops@;
        let fr = Frame { params: args, results: Seq::empty(), world };
        assert(new.blocks@.contains_key(p));
        assert(optimized_block(new.blocks@[p], plan.blocks@, plan.length, p));
        match tail_call(plan.blocks@, plan.length, p) {
            Some(k) => {
                lemma_quiet(ops, fr, machine);
                assert(ops.take(k + 1).drop_last() =~= ops.take(k));
                assert(ops.take(k + 1).last() == ops[k]);
                if let Ran::On(fr2) = run_ops(ops, fr, machine) {
                    if let Ending::Goto { goal, args: regs } = old_block.ending {
                        lemma_goes_back(
                            plan,
                            pos,
                            goal,
                            values_of(regs@, fr2),
                            fr2.world,
                            machine,
                        );
                    }
                }
            },
            None => {
                if let Ran::On(fr2) = run_ops(ops, fr, machine) {
                    lemma_ending_runs_alike(new, plan, pos, old_block.ending, fr2, machine);
                }
            },
        }
    }
}

proof fn lemma_ending_runs_alike(
    new: FunctionPlan,
    plan: FunctionPlan,
    pos: int,
    ending: Ending,
    fr: Frame,
    machine: Machine,
)
    requires
        optimized(new, plan),
        plan.signature is None,
        0 <= pos < plan.length,
    ensures
        run_ending(new, pos, ending, fr, machine) == run_ending(plan, pos, ending, fr, machine),
    decreases plan.length - pos, 1int,
{
    match ending {
        Ending::Goto { goal, args } => {
            lemma_goal_runs_alike(new, plan, pos, goal, values_of(args@, fr), fr.world, machine);
        },
        Ending::Branch { cond, on_true, on_false, args } => {
            let goal = if value_of(cond, fr) == 0 {
                on_false
            } else {
                on_true
            };
            lemma_goal_runs_alike(new, plan, pos, goal, values_of(args@, fr), fr.world, machine);
        },
        Ending::Switch { index, goals, args } => {
            let k = value_of(index, fr) as int;
            if 0 <= k < goals@.len() {
                lemma_goal_runs_alike(
                    new,
                    plan,
                    pos,
                    goals@[k],
                    values_of(args@, fr),
                    fr.world,
                    machine,
                );
            }
        },
        Ending::TailCall { .. } => {},
        Ending::TailCallStack(_) => {},
    }
}

proof fn lemma_goal_runs_alike(
    new: FunctionPlan,
    plan: FunctionPlan,
    pos: int,
    goal: Goal,
    args: Seq<Value>,
    world: World,
    machine: Machine,
)
    requires
        optimized(new, plan),
        plan.signature is None,
        0 <= pos < plan.length,
    ensures
        run_goal(new, pos, goal, args, world, machine) == run_goal(
            plan,
            pos,
            goal,
            args,
            world,
            machine,
        ),
    decreases plan.length - pos, 0int,
{
    if let Goal::Block(q) = goal {
        if pos < q < plan.length {
            lemma_block_runs_alike(new, plan, q as int, args, world, machine);
        }
    }
}

/// A plan whose calls at the end have been found does what the plan did before.
pub proof fn law_tailcall_runs_alike(
    new: FunctionPlan,
    plan: FunctionPlan,
    args: Seq<Value>,
    world: World,
    machine: Machine,
)
    requires
        optimized(new, plan),
    ensures
        run_plan(new, args, world, machine) == run_plan(plan, args, world, machine),
{
    if plan.signature is None {
        lemma_block_runs_alike(new, plan, 0, args, world, machine);
    }
}

/// The number of the last operation that does more than to compute a value.
fn find_last_effect(ops: &Vec<Op>) -> (r: Option<usize>)
    ensures
        r matches Some(k) ==> k == last_effect(ops@) && k < ops@.len(),
        r is None ==> last_effect(ops@) == -1,
{
    let mut n: usize = ops.len();
    assert(ops@.take(n as int) =~= ops@);
    while n > 0
        invariant
            n <= ops@.len(),
            last_effect(ops@) == last_effect(ops@.take(n as int)),
        decreases n,
    {
        assert(ops@.take(n as int).last() == ops@[n - 1]);
        if trivially_has_side_effects(&ops[n - 1]) {
            return Some(n - 1);
        }
        assert(ops@.take(n as int).drop_last() =~= ops@.take(n - 1));
        n = n - 1;
    }
    assert(ops@.take(0).len() == 0);
    None
}

/// Follows jumps from a goal to a return to the caller, unless something else happens on the way.
fn follows_jump_path_to_return(
    blocks: &BTreeMap<usize, BlockPlan>,
    length: usize,
    pos: usize,
    goal: Goal,
) -> (r: bool)
    ensures
        r == goes_back(blocks@, length, pos as int, goal),
{
    let mut at: usize = pos;
    let mut next: Goal = goal;
    loop
        invariant
            goes_back(blocks@, length, pos as int, goal) == goes_back(
                blocks@,
                length,
                at as int,
                next,
            ),
        decreases length - at,
    {
        match next {
            Goal::Trap(_) => {
                return false;
            },
            Goal::Return => {
                return true;
            },
            Goal::Block(q) => {
                if q <= at || q >= length {
                    return false;
                }
                match blocks.get(&q) {
                    Some(block) => {
                        if find_last_effect(&block.ops).is_some() {
                            return false;
                        }
                        match &block.ending {
                            Ending::Goto { goal: further, .. } => {
                                at = q;
                                next = *further;
                            },
                            _ => {
                                return false;
                            },
                        }
                    },
                    None => {
                        return false;
                    },
                }
            },
        }
    }
}

/// The function to which a block can leave the rest, and the number of the operation that calls it.
fn find_tail_call(
    block: &BlockPlan,
    blocks: &BTreeMap<usize, BlockPlan>,
    length: usize,
    pos: usize,
) -> (r: Option<(usize, String)>)
    requires
        blocks@[pos] == *block,
    ensures
        r matches Some((k, callee)) ==> tail_call(blocks@, length, pos) == Some(k as int) && k
            < block.ops@.len() && callee@ == block.ops@[k as int]->CallStack_0@,
        r is None ==> tail_call(blocks@, length, pos) is None,
{
    match &block.ending {
        Ending::Goto { goal, .. } => match find_last_effect(&block.ops) {
            Some(k) => match &block.ops[k] {
                Op::CallStack(callee) => if follows_jump_path_to_return(
                    blocks,
                    length,
                    pos,
                    *goal,
                ) {
                    Some((k, callee.clone()))
                } else {
                    None
                },
                _ => None,
            },
            None => None,
        },
        _ => None,
    }
}

/// What lies ahead of a block decides where it can leave the rest to a function.
proof fn lemma_goes_back_ahead(
    a: Map<usize, BlockPlan>,
    b: Map<usize, BlockPlan>,
    length: usize,
    pos: int,
    goal: Goal,
)
    requires
        forall|q: usize| q > pos ==> (#[trigger] a.contains_key(q) <==> b.contains_key(q)),
        forall|q: usize| q > pos && #[trigger] a.contains_key(q) ==> a[q] == b[q],
    ensures
        goes_back(a, length, pos, goal) == goes_back(b, length, pos, goal),
    decreases length - pos,
{
    if let Goal::Block(q) = goal {
        if pos < q < length && a.contains_key(q) {
            if let Ending::Goto { goal: further, .. } = a[q].ending {
                lemma_goes_back_ahead(a, b, length, q as int, further);
            }
        }
    }
}

/// Finds the calls at the end of a function that works on the stack, and leaves the rest to the
/// functions that are called.
pub fn optimize_tailcall(plan: FunctionPlan) -> (r: FunctionPlan)
    ensures
        optimized(r, plan),
{
    if plan.signature.is_some() {
        return plan;
    }
    let ghost before = plan.blocks@;
    let length = plan.length;
    let mut blocks = plan.blocks;
    let mut pos: usize = 0;
    while pos < length
        invariant
            pos <= length,
            forall|p: usize| #[trigger] blocks@.contains_key(p) <==> before.contains_key(p),
            forall|p: usize| p >= pos && #[trigger] blocks@.contains_key(p) ==> blocks@[p]
                == before[p],
            forall|p: usize|
                p < pos && #[trigger] blocks@.contains_key(p) ==> optimized_block(
                    blocks@[p],
                    before,
                    length,
                    p,
                ),
        decreases length - pos,
    {
        let ghost now = blocks@;
        let found = match blocks.get(&pos) {
            Some(block) => find_tail_call(block, &blocks, length, pos),
            None => None,
        };
        proof {
            if now.contains_key(pos) {
                assert(now[pos] == before[pos]);
                if let Ending::Goto { goal, .. } = before[pos].ending {
                    lemma_goes_back_ahead(now, before, length, pos as int, goal);
                }
                assert(tail_call(now, length, pos) == tail_call(before, length, pos));
            }
        }
        if let Some((k, callee)) = found {
            if let Some(mut block) = blocks.remove(&pos) {
                block.ops.truncate(k);
                block.ending = Ending::TailCallStack(callee);
                blocks.insert(pos, block);
            }
        }
        assert forall|p: usize| #[trigger] blocks@.contains_key(p) <==> before.contains_key(p) by {
            assert(now.contains_key(p) <==> before.contains_key(p));
        }
        pos = pos + 1;
    }
    FunctionPlan { signature: plan.signature, blocks, length }
}

} // verus!
