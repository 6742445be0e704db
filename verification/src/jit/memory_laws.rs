//! Programs in memory do what programs on a stack do.
use vstd::prelude::*;

#[allow(unused_imports)]
use crate::jit::compile::{
    block_fits, blocks_connect, ending_args, ending_goals, ending_ok, goes_to, plan_fits,
};
#[allow(unused_imports)]
use crate::jit::analysis::ResolvedSig;
#[allow(unused_imports)]
use crate::jit::cfg::FunctionModel;
#[allow(unused_imports)]
use crate::jit::correct::{call_plan, compiled_program, takes_values, works_on_stack};
#[allow(unused_imports)]
use crate::jit::emit::{frame_ok, lemma_one_op, lemma_op_fits};
#[allow(unused_imports)]
use crate::jit::memory::{
    end_stands_in, lemma_all_placed, lemma_op_lowers, lemma_placed, machine_stands_in, stands_in,
};
#[allow(unused_imports)]
use crate::jit::native::{
    at, block_lowered, call_native, ending_placed, first_inst, function_lowered, hold_stack,
    native_program, op_lowered, ops_lowered, run_inst, run_insts, run_native, run_native_block,
    run_native_ending, run_native_goal, without_memory, without_stack, Inst, NativeBlock, NativeEnd,
    NativeFrame, NativeFunction, NativeMachine, NativeRan, Region,
};
#[allow(unused_imports)]
use crate::jit::plan::{
    keeps_off_stack, ops_ok, run_block, run_ending, run_goal, run_ops, run_plan, touches_stack,
    value_of, values_of, BlockPlan, Ending, Frame, FunctionPlan, Goal, Machine, Op, Ran,
};
#[allow(unused_imports)]
use crate::semantics::{Effect, Outcome, World};
#[allow(unused_imports)]
use crate::stack::{cell, cells};
#[allow(unused_imports)]
use crate::types::Value;

verus! {

/// Whether a block of a plan only uses what is there.
pub open spec fn block_ok(block: BlockPlan, stacked: bool) -> bool {
    &&& ops_ok(block.ops@, block.params as nat)
    &&& ending_ok(block.ending, block.params as nat, block.ops@)
    &&& !stacked ==> keeps_off_stack(block.ops@)
    &&& block.ending is TailCall ==> !stacked
    &&& block.ending is TailCallStack ==> stacked
}

/// Whether a plan only uses what is there.
pub open spec fn plan_ok(plan: FunctionPlan) -> bool {
    &&& plan.length > 0 ==> plan.blocks@.contains_key(0) && plan.blocks@[0].params
        == match plan.signature {
        Some(sig) => sig.reach,
        None => 0,
    }
    &&& forall|p: usize| #[trigger]
        plan.blocks@.contains_key(p) ==> block_ok(plan.blocks@[p], plan.signature is None)
            && blocks_connect(plan, p)
}

/// A plan that fits a function only uses what is there.
pub proof fn law_plan_is_ok(
    plan: FunctionPlan,
    f: FunctionModel,
    own: Option<ResolvedSig>,
    sigs: Map<Seq<char>, ResolvedSig>,
)
    requires
        plan_fits(plan, f, own, sigs),
    ensures
        plan_ok(plan),
{
    assert forall|p: usize| #[trigger] plan.blocks@.contains_key(p) implies block_ok(
        plan.blocks@[p],
        plan.signature is None,
    ) && blocks_connect(plan, p) by {
        assert(block_fits(plan.blocks@[p], f.blocks[p], own, sigs));
    }
    if plan.length > 0 {
        assert(block_fits(plan.blocks@[0], f.blocks[0], own, sigs));
    }
}

/// Whether how a function comes out in memory is how its plan comes out. A function with a
/// signature gives its values back; one without leaves them in memory, unless the memory is too
/// small.
pub open spec fn ends_alike(
    c: Option<Outcome>,
    end: NativeEnd,
    region: Region,
    stacked: bool,
) -> bool {
    match c {
        None => true,
        Some(Outcome::Done(w)) => {
            ||| stacked && end is Full
            ||| (end matches NativeEnd::Done { values, pointer, mem, log } && log == w.log
                && if stacked {
                hold_stack(region, pointer, mem, w.stack)
            } else {
                values == w.stack
            })
        },
        Some(o) => (stacked && end is Full) || end == NativeEnd::Over(o),
    }
}

/// What a run of the instructions for the first `j` operations has to come to.
spec fn ops_stand_in(
    ran: Ran,
    insts: Seq<Inst>,
    j: int,
    start: NativeFrame,
    nf: NativeFrame,
    place: Seq<usize>,
    params: nat,
    ops: Seq<Op>,
    native: NativeMachine,
    region: Region,
) -> bool {
    let out = run_insts(insts, 0, start, native, region);
    match ran {
        Ran::Lost => true,
        Ran::Over(o) => out is Full || out == NativeRan::Over(o),
        Ran::On(fr) => frame_ok(fr, params, ops.take(j)) && (out is Full || {
            &&& out == run_insts(insts, first_inst(place, j), nf, native, region)
            &&& stands_in(fr, nf, place.take(j), region)
            &&& nf.results.len() == first_inst(place, j)
        }),
    }
}

/// The instructions for the first `j` operations do what these do.
proof fn lemma_ops_lower(
    ops: Seq<Op>,
    insts: Seq<Inst>,
    j: int,
    place: Seq<usize>,
    start: Frame,
    native_start: NativeFrame,
    params: nat,
    machine: Machine,
    native: NativeMachine,
    region: Region,
) -> (nf: NativeFrame)
    requires
        region.wf(),
        machine_stands_in(machine, native, region),
        ops_ok(ops, params),
        ops_lowered(ops, insts, place),
        insts.len() <= usize::MAX,
        0 <= j <= ops.len(),
        start.params.len() == params,
        start.results.len() == 0,
        native_start.results.len() == 0,
        stands_in(start, native_start, Seq::empty(), region),
    ensures
        ops_stand_in(
            run_ops(ops.take(j), start, machine),
            insts,
            j,
            native_start,
            nf,
            place,
            params,
            ops,
            native,
            region,
        ),
    decreases j,
{
    if j == 0 {
        assert(place.take(0) =~= Seq::empty());
        native_start
    } else {
        let nf = lemma_ops_lower(
            ops,
            insts,
            j - 1,
            place,
            start,
            native_start,
            params,
            machine,
            native,
            region,
        );
        let op = ops[j - 1];
        assert(op_lowered(op, insts, place, j - 1));
        assert(ops.take(j) =~= ops.take(j - 1).push(op));
        lemma_one_op(ops.take(j - 1), op, start, machine);
        match run_ops(ops.take(j - 1), start, machine) {
            Ran::On(fr) => {
                lemma_op_fits(op, fr, params, ops.take(j - 1), machine);
                if run_insts(insts, 0, native_start, native, region) is Full {
                    nf
                } else {
                    let nf2 = lemma_op_lowers(
                        op,
                        insts,
                        first_inst(place, j - 1),
                        place[j - 1] as int,
                        fr,
                        nf,
                        place.take(j - 1),
                        machine,
                        native,
                        region,
                        params,
                        ops.take(j - 1),
                    );
                    assert(place.take(j) =~= place.take(j - 1).push(place[j - 1]));
                    nf2
                }
            },
            _ => nf,
        }
    }
}

/// Where no operation works on the stack, no instruction does.
proof fn lemma_only_plain(ops: Seq<Op>, insts: Seq<Inst>, j: int, place: Seq<usize>)
    requires
        keeps_off_stack(ops),
        ops_lowered(ops, insts, place),
        0 <= j <= ops.len(),
    ensures
        forall|i: int| 0 <= i < first_inst(place, j) ==> #[trigger] insts[i] is Plain,
    decreases j,
{
    if j > 0 {
        lemma_only_plain(ops, insts, j - 1, place);
        let first = first_inst(place, j - 1);
        assert(op_lowered(ops[j - 1], insts, place, j - 1));
        let some = insts.subrange(first, place[j - 1] + 1);
        assert(!touches_stack(ops[j - 1]));
        assert(some.len() == 1);
        assert(insts[first] == some[0]);
    }
}

/// Instructions that do not work on the stack do not run out of it.
proof fn lemma_never_full(
    insts: Seq<Inst>,
    i: int,
    nf: NativeFrame,
    native: NativeMachine,
    region: Region,
)
    requires
        forall|k: int| 0 <= k < insts.len() ==> #[trigger] insts[k] is Plain,
        0 <= i <= insts.len(),
    ensures
        !(run_insts(insts, i, nf, native, region) is Full),
    decreases insts.len() - i,
{
    if i < insts.len() {
        if let NativeRan::On(nf2) = run_inst(insts[i], nf, native, region) {
            lemma_never_full(insts, i + 1, nf2, native, region);
        }
    }
}

/// The end of a block leads to the same goal, with the same values.
proof fn lemma_ending_placed(
    ending: Ending,
    new: Ending,
    fr: Frame,
    nf: NativeFrame,
    place: Seq<usize>,
    params: nat,
    ops: Seq<Op>,
    region: Region,
)
    requires
        ending_placed(ending, new, place),
        ending_ok(ending, params, ops),
        frame_ok(fr, params, ops),
        stands_in(fr, nf, place, region),
    ensures
        ending_goals(new) == ending_goals(ending),
        values_of(ending_args(new), without_memory(nf)) == values_of(ending_args(ending), fr),
        ending matches Ending::Branch { cond, .. } ==> at(new->Branch_cond, nf) == value_of(cond, fr),
        ending matches Ending::Switch { index, .. } ==> at(new->Switch_index, nf) == value_of(
            index,
            fr,
        ),
{
    lemma_all_placed(ending_args(ending), fr, nf, place, region, params, ops);
    match ending {
        Ending::Branch { cond, .. } => {
            lemma_placed(cond, fr, nf, place, region, params, ops);
        },
        Ending::Switch { index, .. } => {
            lemma_placed(index, fr, nf, place, region, params, ops);
        },
        Ending::TailCallStack(_) => {
            assert(values_of(Seq::empty(), without_memory(nf)) =~= values_of(Seq::empty(), fr));
        },
        _ => {},
    }
}

/// Operations that end a run do not end it as if it had come through.
proof fn lemma_over_is_not_done(ops: Seq<Op>, start: Frame, machine: Machine)
    ensures
        run_ops(ops, start, machine) matches Ran::Over(o) ==> !(o is Done),
    decreases ops.len(),
{
    if ops.len() > 0 {
        lemma_over_is_not_done(ops.drop_last(), start, machine);
    }
}

/// What the instructions of a block have to come to.
spec fn block_stands_in(
    ran: Ran,
    out: NativeRan,
    nf: NativeFrame,
    block: BlockPlan,
    place: Seq<usize>,
    region: Region,
    stacked: bool,
) -> bool {
    match ran {
        Ran::Lost => true,
        Ran::Over(o) => !(o is Done) && ((stacked && out is Full) || out == NativeRan::Over(o)),
        Ran::On(fr) => {
            &&& frame_ok(fr, block.params as nat, block.ops@)
            &&& (stacked && out is Full) || (out == NativeRan::On(nf) && stands_in(
                fr,
                nf,
                place,
                region,
            ))
        },
    }
}

/// The instructions of a block do what its operations do.
proof fn lemma_insts_in_memory(
    block: BlockPlan,
    nb: NativeBlock,
    place: Seq<usize>,
    start: Frame,
    native_start: NativeFrame,
    machine: Machine,
    native: NativeMachine,
    region: Region,
    stacked: bool,
) -> (nf: NativeFrame)
    requires
        region.wf(),
        block_ok(block, stacked),
        ops_lowered(block.ops@, nb.insts@, place),
        machine_stands_in(machine, native, region),
        start.params.len() == block.params,
        start.results.len() == 0,
        native_start.results.len() == 0,
        stands_in(start, native_start, Seq::empty(), region),
    ensures
        block_stands_in(
            run_ops(block.ops@, start, machine),
            run_insts(nb.insts@, 0, native_start, native, region),
            nf,
            block,
            place,
            region,
            stacked,
        ),
{
    let n = block.ops@.len() as int;
    assert(nb.insts@.len() == nb.insts.len());
    let nf = lemma_ops_lower(
        block.ops@,
        nb.insts@,
        n,
        place,
        start,
        native_start,
        block.params as nat,
        machine,
        native,
        region,
    );
    assert(block.ops@.take(n) =~= block.ops@);
    assert(place.take(n) =~= place);
    lemma_over_is_not_done(block.ops@, start, machine);
    if !stacked {
        lemma_only_plain(block.ops@, nb.insts@, n, place);
        lemma_never_full(nb.insts@, 0, native_start, native, region);
    }
    nf
}

/// From a block on, a function does in memory what its plan does on a stack.
proof fn lemma_block_in_memory(
    plan: FunctionPlan,
    f: NativeFunction,
    pos: int,
    params: Seq<Value>,
    world: World,
    pointer: Value,
    mem: Map<int, Value>,
    machine: Machine,
    native: NativeMachine,
    region: Region,
)
    requires
        region.wf(),
        plan_ok(plan),
        function_lowered(plan, f),
        machine_stands_in(machine, native, region),
        hold_stack(region, pointer, mem, world.stack),
        plan.blocks@.contains_key(pos as usize) ==> params.len()
            == plan.blocks@[pos as usize].params,
        0 <= pos < plan.length,
    ensures
        ends_alike(
            run_block(plan, pos, params, world, machine),
            run_native_block(f, pos, params, pointer, mem, world.log, native, region),
            region,
            plan.signature is None,
        ),
    decreases plan.length - pos, 1int, 0int,
{
    let p = pos as usize;
    if plan.blocks@.contains_key(p) {
        let stacked = plan.signature is None;
        let block = plan.blocks@[p];
        assert(f.blocks@.contains_key(p));
        let nb = f.blocks@[p];
        assert(block_lowered(block, nb));
        let place = choose|place: Seq<usize>| #[trigger]
            ops_lowered(block.ops@, nb.insts@, place) && ending_placed(
                block.ending,
                nb.ending,
                place,
            );
        let start = Frame { params, results: Seq::empty(), world };
        let native_start = NativeFrame {
            params,
            results: Seq::empty(),
            pointer,
            mem,
            log: world.log,
        };
        let nf = lemma_insts_in_memory(
            block,
            nb,
            place,
            start,
            native_start,
            machine,
            native,
            region,
            stacked,
        );
        let out = run_insts(nb.insts@, 0, native_start, native, region);
        if let Ran::On(fr) = run_ops(block.ops@, start, machine) {
            if !(out is Full) {
                lemma_ending_in_memory(
                    plan,
                    f,
                    pos,
                    nb.ending,
                    place,
                    fr,
                    nf,
                    machine,
                    native,
                    region,
                );
            }
        }
    }
}

/// The end of a block does in memory what it does on a stack.
proof fn lemma_ending_in_memory(
    plan: FunctionPlan,
    f: NativeFunction,
    pos: int,
    new: Ending,
    place: Seq<usize>,
    fr: Frame,
    nf: NativeFrame,
    machine: Machine,
    native: NativeMachine,
    region: Region,
)
    requires
        region.wf(),
        plan_ok(plan),
        function_lowered(plan, f),
        machine_stands_in(machine, native, region),
        0 <= pos < plan.length,
        plan.blocks@.contains_key(pos as usize),
        ending_placed(plan.blocks@[pos as usize].ending, new, place),
        frame_ok(
            fr,
            plan.blocks@[pos as usize].params as nat,
            plan.blocks@[pos as usize].ops@,
        ),
        stands_in(fr, nf, place, region),
    ensures
        ends_alike(
            run_ending(plan, pos, plan.blocks@[pos as usize].ending, fr, machine),
            run_native_ending(f, pos, new, nf, native, region),
            region,
            plan.signature is None,
        ),
    decreases plan.length - pos, 0int, 1int,
{
    let block = plan.blocks@[pos as usize];
    assert(block_ok(block, plan.signature is None));
    lemma_ending_placed(
        block.ending,
        new,
        fr,
        nf,
        place,
        block.params as nat,
        block.ops@,
        region,
    );
    let args = values_of(ending_args(block.ending), fr);
    match block.ending {
        Ending::Goto { goal, .. } => {
            assert(ending_goals(block.ending)[0] == goal);
            lemma_goal_in_memory(plan, f, pos, goal, args, fr, nf, machine, native, region);
        },
        Ending::Branch { cond, on_true, on_false, .. } => {
            assert(ending_goals(block.ending)[0] == on_true);
            assert(ending_goals(block.ending)[1] == on_false);
            let goal = if value_of(cond, fr) == 0 {
                on_false
            } else {
                on_true
            };
            lemma_goal_in_memory(plan, f, pos, goal, args, fr, nf, machine, native, region);
        },
        Ending::Switch { index, goals, .. } => {
            let k = value_of(index, fr) as int;
            if 0 <= k < goals@.len() {
                assert(ending_goals(block.ending)[k] == goals@[k]);
                lemma_goal_in_memory(
                    plan,
                    f,
                    pos,
                    goals@[k],
                    args,
                    fr,
                    nf,
                    machine,
                    native,
                    region,
                );
            }
        },
        Ending::TailCall { callee, .. } => {
            assert((native.call)(callee@, args, fr.world.log) == (native.call)(
                new->TailCall_callee@,
                args,
                nf.log,
            ));
        },
        Ending::TailCallStack(callee) => {
            let s = fr.world.stack;
            assert(hold_stack(region, nf.pointer, nf.mem, s));
            assert(World { stack: s, log: nf.log } == fr.world);
            let end = (native.call_stack)(callee@, nf.pointer, nf.mem, nf.log);
            assert(end_stands_in((machine.call_stack)(callee@, fr.world), end, region));
        },
    }
}

/// From a goal on, a function does in memory what its plan does on a stack.
proof fn lemma_goal_in_memory(
    plan: FunctionPlan,
    f: NativeFunction,
    pos: int,
    goal: Goal,
    args: Seq<Value>,
    fr: Frame,
    nf: NativeFrame,
    machine: Machine,
    native: NativeMachine,
    region: Region,
)
    requires
        region.wf(),
        plan_ok(plan),
        function_lowered(plan, f),
        machine_stands_in(machine, native, region),
        0 <= pos < plan.length,
        plan.blocks@.contains_key(pos as usize),
        ending_goals(plan.blocks@[pos as usize].ending).contains(goal),
        args.len() == ending_args(plan.blocks@[pos as usize].ending).len(),
        hold_stack(region, nf.pointer, nf.mem, fr.world.stack),
        nf.log == fr.world.log,
    ensures
        ends_alike(
            run_goal(plan, pos, goal, args, fr.world, machine),
            run_native_goal(f, pos, goal, args, nf, native, region),
            region,
            plan.signature is None,
        ),
    decreases plan.length - pos, 0int, 0int,
{
    if let Goal::Block(q) = goal {
        assert(blocks_connect(plan, pos as usize));
        assert(goes_to(plan.blocks@[pos as usize].ending, q));
        lemma_block_in_memory(
            plan,
            f,
            q as int,
            args,
            fr.world,
            nf.pointer,
            nf.mem,
            machine,
            native,
            region,
        );
    }
}

/// A function does in memory what its plan does on a stack, as long as the memory suffices. Where
/// the plan reaches below the bottom of the stack, nothing is said.
pub proof fn law_function_runs_in_memory(
    plan: FunctionPlan,
    f: NativeFunction,
    args: Seq<Value>,
    world: World,
    pointer: Value,
    mem: Map<int, Value>,
    machine: Machine,
    native: NativeMachine,
    region: Region,
)
    requires
        region.wf(),
        plan_ok(plan),
        function_lowered(plan, f),
        machine_stands_in(machine, native, region),
        hold_stack(region, pointer, mem, world.stack),
        args.len() == match plan.signature {
            Some(sig) => sig.reach,
            None => 0,
        },
    ensures
        ends_alike(
            run_plan(plan, args, world, machine),
            run_native(f, args, pointer, mem, world.log, native, region),
            region,
            plan.signature is None,
        ),
{
    if plan.length > 0 {
        lemma_block_in_memory(
            plan,
            f,
            0,
            args,
            world,
            pointer,
            mem,
            machine,
            native,
            region,
        );
    }
}

/// Whether there are functions for a machine with memory, for all the plans of a program.
pub open spec fn all_lowered(
    plans: Map<Seq<char>, FunctionPlan>,
    functions: Map<Seq<char>, NativeFunction>,
) -> bool {
    &&& functions.dom() == plans.dom()
    &&& forall|name: Seq<char>| #[trigger]
        plans.contains_key(name) ==> plan_ok(plans[name]) && function_lowered(
            plans[name],
            functions[name],
        )
}

/// However deep the calls of a program are nested, the program in memory does what the program on a
/// stack does, as long as the memory suffices.
pub proof fn law_program_runs_in_memory(
    plans: Map<Seq<char>, FunctionPlan>,
    functions: Map<Seq<char>, NativeFunction>,
    reply: spec_fn(Seq<Effect>) -> Value,
    region: Region,
    depth: nat,
)
    requires
        region.wf(),
        all_lowered(plans, functions),
    ensures
        machine_stands_in(
            compiled_program(plans, reply, depth),
            native_program(functions, reply, region, depth),
            region,
        ),
    decreases depth,
{
    let machine = compiled_program(plans, reply, depth);
    let native = native_program(functions, reply, region, depth);
    if depth > 0 {
        law_program_runs_in_memory(plans, functions, reply, region, (depth - 1) as nat);
    }
    let base = region.base as i64;
    let none = Map::<int, Value>::empty();
    assert forall|name: Seq<char>, args: Seq<Value>, log: Seq<Effect>|
        (machine.call)(name, args, log) is Some implies #[trigger] (native.call)(name, args, log)
        == (machine.call)(name, args, log) by {
        let world = World { stack: Seq::empty(), log };
        assert(takes_values(plans, name, args.len()));
        assert((machine.call)(name, args, log) == call_plan(
            plans,
            reply,
            depth,
            name,
            args,
            world,
        ));
        assert((native.call)(name, args, log) == without_stack(
            call_native(functions, reply, region, depth, name, args, base, none, log),
        ));
        assert(functions.dom().contains(name));
        if depth > 0 {
            assert(hold_stack(region, base, none, world.stack));
            law_function_runs_in_memory(
                plans[name],
                functions[name],
                args,
                world,
                base,
                none,
                compiled_program(plans, reply, (depth - 1) as nat),
                native_program(functions, reply, region, (depth - 1) as nat),
                region,
            );
        }
    }
    assert forall|
        name: Seq<char>,
        s: Seq<Value>,
        pointer: Value,
        mem: Map<int, Value>,
        log: Seq<Effect>,
    |
        #![trigger (native.call_stack)(name, pointer, mem, log), hold_stack(region, pointer, mem, s)]
        hold_stack(region, pointer, mem, s) implies end_stands_in(
        (machine.call_stack)(name, World { stack: s, log }),
        (native.call_stack)(name, pointer, mem, log),
        region,
    ) by {
        let world = World { stack: s, log };
        if works_on_stack(plans, name) {
            assert((machine.call_stack)(name, world) == call_plan(
                plans,
                reply,
                depth,
                name,
                Seq::empty(),
                world,
            ));
            assert((native.call_stack)(name, pointer, mem, log) == call_native(
                functions,
                reply,
                region,
                depth,
                name,
                Seq::empty(),
                pointer,
                mem,
                log,
            ));
            assert(functions.dom().contains(name) == plans.dom().contains(name));
            if depth > 0 && plans.contains_key(name) {
                law_function_runs_in_memory(
                    plans[name],
                    functions[name],
                    Seq::empty(),
                    world,
                    pointer,
                    mem,
                    compiled_program(plans, reply, (depth - 1) as nat),
                    native_program(functions, reply, region, (depth - 1) as nat),
                    region,
                );
            }
        }
    }
}

/// Whether the cells of a region are those that bytes spell.
pub open spec fn spell_cells(bytes: Seq<u8>, mem: Map<int, Value>, region: Region) -> bool {
    forall|i: int| 0 <= i < region.room ==> mem[#[trigger] region.cell(i)] == cell(bytes, i)
}

/// Bytes hold a stack, and a pointer leads to its free end, exactly if the pointer is as far from
/// the first cell as the stack is long, and the stack is what the cells up to there hold.
pub proof fn law_bytes_hold_stack(
    bytes: Seq<u8>,
    mem: Map<int, Value>,
    region: Region,
    pointer: Value,
    s: Seq<Value>,
)
    requires
        region.wf(),
        spell_cells(bytes, mem, region),
    ensures
        hold_stack(region, pointer, mem, s) <==> s.len() <= region.room && pointer == region.cell(
            s.len() as int,
        ) && s == cells(bytes, s.len()),
{
    if s.len() <= region.room {
        assert forall|i: int| 0 <= i < s.len() implies mem[region.cell(i)] == #[trigger] cells(
            bytes,
            s.len(),
        )[i] by {}
        if hold_stack(region, pointer, mem, s) {
            assert forall|i: int| 0 <= i < s.len() implies s[i] == cells(bytes, s.len())[i] by {
                assert(mem[region.cell(i)] == s[i]);
            }
            assert(s =~= cells(bytes, s.len()));
        }
    }
}

} // verus!
