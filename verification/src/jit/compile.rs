//! From control flow graphs to plans.
use std::collections::BTreeMap;

use vstd::prelude::*;

#[allow(unused_imports)]
use crate::jit::analysis::{returned, signature, signatures, ResolvedSig};
#[allow(unused_imports)]
use crate::jit::cfg::{
    chosen, goes_forward, leads_forward, leaves_forward, BasicBlock, BlockModel, Function,
    FunctionModel, Next, Terminator, TerminatorModel,
};
#[allow(unused_imports)]
use crate::jit::delta::{
    additional_delta, body_delta, func_delta, instr_delta, leaving_delta,
    lemma_body_delta_is_settled, next_delta, path_delta, Delta,
};
use crate::jit::emit::Emitter;
#[allow(unused_imports)]
use crate::jit::emit::{
    carries_out, follows, frame_ok, halts, held, keeps_up, on_track, same_unless_astray, sig_delta,
    spilled, spills, stands_for, takes, took,
};
use crate::jit::plan::{BlockPlan, Ending, FunctionPlan, Goal, Op, Reg};
#[allow(unused_imports)]
use crate::jit::plan::{
    keeps_off_stack, ops_ok, reg_ok, regs_ok, run_ops, value_of, values_of, Frame, Machine, Ran,
};
#[allow(unused_imports)]
use crate::jit::reach::{
    body_reach, func_reach, instr_reach, leaving_reach, next_reach, path_reach, Known, Reach,
};
#[allow(unused_imports)]
use crate::jit::monotone::delta_below;
#[allow(unused_imports)]
use crate::jit::sound::lemma_each_target;
use crate::names::NameMap;
#[allow(unused_imports)]
use crate::semantics::{below, run_from, run_instr, top, Outcome, Surroundings, World};
#[allow(unused_imports)]
use crate::types::{BasicBlockInstr, Value};

verus! {

/// Why a function could not be compiled.
#[derive(Debug, Clone, Copy, PartialEq, Eq, Structural)]
pub enum JITError {
    IndeterminateControlFlow,
    BadSkip,
    CallsUnknownFunctions,
}

/// The text that describes `e`.
pub open spec fn jit_error_text(e: JITError) -> Seq<char> {
    match e {
        JITError::IndeterminateControlFlow => "Indeterminate Control Flow"@,
        JITError::BadSkip => "Detected a negative skip!"@,
        JITError::CallsUnknownFunctions => {
            "Could not compile due to function calling non-compiled function"@
        },
    }
}

impl JITError {
    /// The text that describes the error to a user.
    pub fn message(&self) -> (r: String)
        ensures
            r@ == jit_error_text(*self),
    {
        match self {
            JITError::IndeterminateControlFlow => "Indeterminate Control Flow".to_string(),
            JITError::BadSkip => "Detected a negative skip!".to_string(),
            JITError::CallsUnknownFunctions => {
                "Could not compile due to function calling non-compiled function".to_string()
            },
        }
    }
}

/// The first `n` instructions of a stretch, carried out one after the other.
pub open spec fn run_prefix(
    code: Seq<BasicBlockInstr>,
    n: int,
    w: World,
    env: Surroundings,
) -> Outcome
    decreases n,
{
    if n <= 0 {
        Outcome::Done(w)
    } else {
        match run_prefix(code, n - 1, w, env) {
            Outcome::Done(w2) => run_instr(code[n - 1], w2, env),
            other => other,
        }
    }
}

/// A stretch falls apart at any point.
proof fn lemma_run_prefix(code: Seq<BasicBlockInstr>, n: int, w: World, env: Surroundings)
    requires
        0 <= n <= code.len(),
    ensures
        run_from(code, 0, w, env) == (match run_prefix(code, n, w, env) {
            Outcome::Done(w2) => run_from(code, n, w2, env),
            other => other,
        }),
    decreases n,
{
    if n > 0 {
        lemma_run_prefix(code, n - 1, w, env);
    }
}

/// The frame in which a block starts.
pub open spec fn start_frame(params: Seq<Value>, world: World) -> Frame {
    Frame { params, results: Seq::empty(), world }
}

/// Whether a block of a plan can be entered with these values and in this world.
pub open spec fn enters(
    params: Seq<Value>,
    world: World,
    count: nat,
    stacked: bool,
) -> bool {
    &&& params.len() == count
    &&& if stacked {
        params.len() == 0
    } else {
        world.stack.len() == 0
    }
}

/// The world that interpreted code starts in where compiled code starts with these values and in
/// this world.
pub open spec fn whole(params: Seq<Value>, world: World) -> World {
    World { stack: world.stack + params, log: world.log }
}

/// Whether the operations so far do what the first `n` instructions do.
pub open spec fn simulates(
    e: Emitter,
    code: Seq<BasicBlockInstr>,
    n: int,
    sigs: Map<Seq<char>, ResolvedSig>,
) -> bool {
    forall|env: Surroundings, machine: Machine, params: Seq<Value>, world: World|
        #![trigger stands_for(env, machine, sigs), run_ops(e.ops@, start_frame(params, world), machine)]
        stands_for(env, machine, sigs) && enters(params, world, e.params as nat, e.stacked) ==> {
            let c = run_ops(e.ops@, start_frame(params, world), machine);
            &&& keeps_up(run_prefix(code, n, whole(params, world), env), c, e.tmp@)
            &&& on_track(e, c)
        }
}

/// Operations that end a run do not end it as if it had come through.
pub proof fn lemma_over_is_not_done(ops: Seq<Op>, fr: Frame, machine: Machine)
    ensures
        run_ops(ops, fr, machine) matches Ran::Over(o) ==> !(o is Done),
    decreases ops.len(),
{
    if ops.len() > 0 {
        lemma_over_is_not_done(ops.drop_last(), fr, machine);
    }
}

/// One instruction more.
proof fn lemma_simulates_more(
    e1: Emitter,
    e2: Emitter,
    code: Seq<BasicBlockInstr>,
    n: int,
    sigs: Map<Seq<char>, ResolvedSig>,
)
    requires
        0 <= n < code.len(),
        e1.params == e2.params,
        e1.stacked == e2.stacked,
        simulates(e1, code, n, sigs),
        carries_out(e1, e2, code[n], sigs),
    ensures
        simulates(e2, code, n + 1, sigs),
{
    assert forall|env: Surroundings, machine: Machine, params: Seq<Value>, world: World|
        #![trigger stands_for(env, machine, sigs), run_ops(e2.ops@, start_frame(params, world), machine)]
        stands_for(env, machine, sigs) && enters(
            params,
            world,
            e2.params as nat,
            e2.stacked,
        ) implies {
        let c = run_ops(e2.ops@, start_frame(params, world), machine);
        &&& keeps_up(run_prefix(code, n + 1, whole(params, world), env), c, e2.tmp@)
        &&& on_track(e2, c)
    } by {
        let start = start_frame(params, world);
        let c1 = run_ops(e1.ops@, start, machine);
        let o1 = run_prefix(code, n, whole(params, world), env);
        assert(keeps_up(o1, c1, e1.tmp@) && on_track(e1, c1));
        assert(follows(e1, e2, code[n], env, machine, start));
        lemma_over_is_not_done(e1.ops@, start, machine);
    }
}

/// The start of a block.
proof fn lemma_simulates_start(
    e: Emitter,
    code: Seq<BasicBlockInstr>,
    sigs: Map<Seq<char>, ResolvedSig>,
)
    requires
        e.ops@ == Seq::<Op>::empty(),
        e.stacked ==> e.tmp@ == Seq::<Reg>::empty(),
        !e.stacked ==> e.tmp@ == Seq::new(e.params as nat, |k: int| Reg::Param(k as usize)),
    ensures
        simulates(e, code, 0, sigs),
{
    assert forall|env: Surroundings, machine: Machine, params: Seq<Value>, world: World|
        #![trigger stands_for(env, machine, sigs), run_ops(e.ops@, start_frame(params, world), machine)]
        stands_for(env, machine, sigs) && enters(
            params,
            world,
            e.params as nat,
            e.stacked,
        ) implies {
        let c = run_ops(e.ops@, start_frame(params, world), machine);
        &&& keeps_up(run_prefix(code, 0, whole(params, world), env), c, e.tmp@)
        &&& on_track(e, c)
    } by {
        let start = start_frame(params, world);
        assert(values_of(e.tmp@, start) =~= params);
        assert(held(start, e.tmp@) =~= world.stack + params);
    }
}

/// Where a plan goes for where control goes.
pub open spec fn goal_of(next: Next) -> Goal {
    match next {
        Next::Trap => Goal::Trap(PAST_THE_END),
        Next::Terminate => Goal::Return,
        Next::Block(p) => Goal::Block(p),
    }
}

/// The code of the trap for control that leaves a function past its end.
pub const PAST_THE_END: u8 = 67;

/// The code of the trap behind something that does not come back.
pub const NO_RETURN: u8 = 68;

/// Whether a goal, with the values that go there, is where interpreted code goes on.
pub open spec fn arrives(goal: Goal, args: Seq<Value>, world: World, next: Next, w: World) -> bool {
    &&& goal == goal_of(next)
    &&& w.log == world.log
    &&& w.stack == world.stack + args
}

/// Whether the end of a block of a plan does what the end of the block does, after the instructions
/// of the block have come out as `o`.
pub open spec fn ends_right(
    ending: Ending,
    fr: Frame,
    o: Outcome,
    terminator: TerminatorModel,
    machine: Machine,
) -> bool {
    match ending {
        Ending::Goto { goal, args } => match o {
            Outcome::Failed(log) => goal is Trap && log == fr.world.log,
            Outcome::Done(w) => match chosen(terminator, w) {
                Some((next, w2)) => arrives(goal, values_of(args@, fr), fr.world, next, w2),
                None => w.stack.len() == 0,
            },
            _ => false,
        },
        Ending::Branch { cond, on_true, on_false, args } => {
            let goal = if value_of(cond, fr) == 0 {
                on_false
            } else {
                on_true
            };
            &&& o matches Outcome::Done(w)
            &&& match chosen(terminator, w) {
                Some((next, w2)) => arrives(goal, values_of(args@, fr), fr.world, next, w2),
                None => w.stack.len() == 0,
            }
        },
        Ending::Switch { index, goals, args } => {
            let k = value_of(index, fr);
            &&& o matches Outcome::Done(w)
            &&& match chosen(terminator, w) {
                Some((next, w2)) => 0 <= k < goals@.len() && arrives(
                    goals@[k as int],
                    values_of(args@, fr),
                    fr.world,
                    next,
                    w2,
                ),
                None => w.stack.len() == 0 || (!(0 <= k < goals@.len()) && fr.world.log == w.log),
            }
        },
        Ending::TailCall { callee, args } => {
            &&& terminator == TerminatorModel::Jump(Next::Terminate)
            &&& (machine.call)(callee@, values_of(args@, fr), fr.world.log) matches Some(c)
            &&& same_unless_astray(o, c)
        },
        Ending::TailCallStack(callee) => {
            &&& terminator == TerminatorModel::Jump(Next::Terminate)
            &&& match (machine.call_stack)(callee@, fr.world) {
                Some(c) => same_unless_astray(o, c),
                None => o is Astray,
            }
        },
    }
}

/// Whether a block whose instructions have come out as `o` has not found its operands.
pub open spec fn goes_astray(o: Outcome, terminator: TerminatorModel) -> bool {
    o is Astray || (o matches Outcome::Done(w) && chosen(terminator, w) is None && w.stack.len()
        == 0)
}

/// Whether a block of a plan does what the block does.
pub open spec fn plans_block(
    ops: Seq<Op>,
    ending: Ending,
    params: nat,
    block: BlockModel,
    sigs: Map<Seq<char>, ResolvedSig>,
    stacked: bool,
) -> bool {
    forall|env: Surroundings, machine: Machine, values: Seq<Value>, world: World|
        #![trigger stands_for(env, machine, sigs), run_ops(ops, start_frame(values, world), machine)]
        stands_for(env, machine, sigs) && enters(values, world, params, stacked) ==> {
            let o = run_from(block.code, 0, whole(values, world), env);
            match run_ops(ops, start_frame(values, world), machine) {
                Ran::Lost => stacked && goes_astray(o, block.terminator),
                Ran::Over(oc) => same_unless_astray(o, oc) && !(oc is Done),
                Ran::On(fr) => {
                    &&& o is Astray || ends_right(ending, fr, o, block.terminator, machine)
                    &&& frame_ok(fr, params, ops)
                    &&& !stacked ==> fr.world.stack.len() == 0
                },
            }
        }
}

/// Whether the signatures are those of the functions of which this is known, and their results can
/// be counted.
pub open spec fn sigs_match(sigs: Map<Seq<char>, ResolvedSig>, known: Known) -> bool {
    &&& sigs == signatures(known.deltas, known.reaches)
    &&& forall|name: Seq<char>| #[trigger]
        known.deltas.contains_key(name) ==> known.reaches.contains_key(name)
    &&& forall|name: Seq<char>| #[trigger]
        sigs.contains_key(name) ==> 0 <= returned(sigs[name]) <= usize::MAX
}

/// Whether all that an instruction looks at is held.
pub open spec fn at_hand(instr: BasicBlockInstr, count: nat, known: Known) -> bool {
    &&& instr_delta(instr, known.deltas) is Some
    &&& instr_reach(instr, known.reaches) matches Reach::Num(r)
    &&& count >= r
}

/// Whether an instruction of which all that it looks at is held can be followed by another one.
pub open spec fn comes_through(instr: BasicBlockInstr, deltas: Map<Seq<char>, Delta>) -> bool {
    &&& instr_delta(instr, deltas) matches Some(Delta::Num(_))
    &&& !(instr matches BasicBlockInstr::ResolvedPick(n) && n == 0)
    &&& !(instr matches BasicBlockInstr::ResolvedDropRange { start, amt } && amt > start)
}

/// Whether all the instructions of a block can be followed by another one.
pub open spec fn all_come_through(
    code: Seq<BasicBlockInstr>,
    deltas: Map<Seq<char>, Delta>,
) -> bool {
    forall|i: int| 0 <= i < code.len() ==> comes_through(#[trigger] code[i], deltas)
}

/// Whether the operations of `e2`, after those of `e1`, and then a trap, do what an instruction does
/// that nothing follows.
pub open spec fn stops(
    e1: Emitter,
    e2: Emitter,
    instr: BasicBlockInstr,
    sigs: Map<Seq<char>, ResolvedSig>,
) -> bool {
    forall|env: Surroundings, machine: Machine, start: Frame|
        #![trigger stands_for(env, machine, sigs), run_ops(e2.ops@, start, machine)]
        stands_for(env, machine, sigs) ==> match run_ops(e1.ops@, start, machine) {
            Ran::On(fr) => e1.fits(fr) ==> {
                let o = run_instr(
                    instr,
                    World { stack: held(fr, e1.tmp@), log: fr.world.log },
                    env,
                );
                match run_ops(e2.ops@, start, machine) {
                    Ran::Lost => e2.stacked && o is Astray,
                    Ran::Over(oc) => same_unless_astray(o, oc),
                    Ran::On(fr2) => {
                        &&& e2.fits(fr2)
                        &&& o is Astray || o == Outcome::Failed(fr2.world.log)
                    },
                }
            },
            other => run_ops(e2.ops@, start, machine) == other,
        }
}

/// Operations that are gone through only where an instruction goes astray.
proof fn lemma_stops(
    e1: Emitter,
    e2: Emitter,
    instr: BasicBlockInstr,
    sigs: Map<Seq<char>, ResolvedSig>,
)
    requires
        carries_out(e1, e2, instr, sigs),
        halts(e1, e2, instr, sigs),
    ensures
        stops(e1, e2, instr, sigs),
{
    assert forall|env: Surroundings, machine: Machine, start: Frame|
        #![trigger stands_for(env, machine, sigs), run_ops(e2.ops@, start, machine)]
        stands_for(env, machine, sigs) implies match run_ops(e1.ops@, start, machine) {
        Ran::On(fr) => e1.fits(fr) ==> {
            let o = run_instr(instr, World { stack: held(fr, e1.tmp@), log: fr.world.log }, env);
            match run_ops(e2.ops@, start, machine) {
                Ran::Lost => e2.stacked && o is Astray,
                Ran::Over(oc) => same_unless_astray(o, oc),
                Ran::On(fr2) => {
                    &&& e2.fits(fr2)
                    &&& o is Astray || o == Outcome::Failed(fr2.world.log)
                },
            }
        },
        other => run_ops(e2.ops@, start, machine) == other,
    } by {
        assert(follows(e1, e2, instr, env, machine, start));
    }
}

/// A trap needs no operation.
proof fn lemma_traps(e: Emitter, instr: BasicBlockInstr, sigs: Map<Seq<char>, ResolvedSig>)
    requires
        instr is Trap,
    ensures
        stops(e, e, instr, sigs),
{
}

/// An instruction that always goes astray needs no operation.
proof fn lemma_always_astray(e: Emitter, instr: BasicBlockInstr, sigs: Map<Seq<char>, ResolvedSig>)
    requires
        forall|w: World, env: Surroundings| #[trigger] run_instr(instr, w, env) is Astray,
    ensures
        stops(e, e, instr, sigs),
{
}

/// Whether an instruction that is not a call can be followed by no other.
pub open spec fn never_goes_on(instr: BasicBlockInstr) -> bool {
    match instr {
        BasicBlockInstr::Quit => true,
        BasicBlockInstr::Trap(_) => true,
        BasicBlockInstr::ResolvedPick(n) => n == 0,
        BasicBlockInstr::ResolvedDropRange { start, amt } => amt > start,
        _ => false,
    }
}

/// Writes the operations for one instruction that is not a call. Says whether anything can follow.
fn emit_instr(e: &mut Emitter, instr: &BasicBlockInstr, known: Ghost<Known>) -> (goes: bool)
    requires
        old(e).wf(),
        !(instr is FunctionCall),
        !old(e).stacked ==> at_hand(*instr, old(e).tmp@.len(), known@),
    ensures
        final(e).wf(),
        final(e).params == old(e).params,
        final(e).stacked == old(e).stacked,
        goes ==> forall|sigs: Map<Seq<char>, ResolvedSig>| #[trigger]
            carries_out(*old(e), *final(e), *instr, sigs),
        !goes ==> forall|sigs: Map<Seq<char>, ResolvedSig>| #[trigger]
            stops(*old(e), *final(e), *instr, sigs),
        goes <==> !never_goes_on(*instr),
        !old(e).stacked ==> (goes <==> comes_through(*instr, known@.deltas)),
        goes && !old(e).stacked ==> final(e).tmp@.len() == old(e).tmp@.len() + instr_delta(
            *instr,
            known@.deltas,
        )->0->Num_0,
{
    let ghost e1 = *e;
    match instr {
        BasicBlockInstr::Literal(n) => {
            e.emit_const(instr, *n);
            true
        },
        BasicBlockInstr::FunctionCall(_) => true,
        BasicBlockInstr::Quit => {
            e.emit_quit();
            proof {
                assert forall|sigs: Map<Seq<char>, ResolvedSig>| #[trigger]
                    stops(e1, *e, *instr, sigs) by {
                    assert(carries_out(e1, *e, *instr, sigs));
                    assert(halts(e1, *e, *instr, sigs));
                    lemma_stops(e1, *e, *instr, sigs);
                }
            }
            false
        },
        BasicBlockInstr::Print => {
            e.emit_print();
            true
        },
        BasicBlockInstr::Syscall => {
            e.emit_syscall();
            true
        },
        BasicBlockInstr::Drop => {
            e.emit_drop();
            true
        },
        BasicBlockInstr::Swap => {
            e.emit_swap();
            true
        },
        BasicBlockInstr::Rot => {
            e.emit_rot();
            true
        },
        BasicBlockInstr::BadDropRange => {
            e.emit_bad_drop_range();
            true
        },
        BasicBlockInstr::ResolvedDropRange { start, amt } => {
            if *amt <= *start {
                e.emit_drop_range(*start, *amt);
                true
            } else {
                proof {
                    assert forall|sigs: Map<Seq<char>, ResolvedSig>| #[trigger]
                        stops(e1, e1, *instr, sigs) by {
                        lemma_always_astray(e1, *instr, sigs);
                    }
                }
                false
            }
        },
        BasicBlockInstr::BadPick => {
            e.emit_bad_pick();
            true
        },
        BasicBlockInstr::ResolvedPick(n) => {
            if *n >= 1 {
                e.emit_pick(*n);
                true
            } else {
                proof {
                    assert forall|sigs: Map<Seq<char>, ResolvedSig>| #[trigger]
                        stops(e1, e1, *instr, sigs) by {
                        lemma_always_astray(e1, *instr, sigs);
                    }
                }
                false
            }
        },
        BasicBlockInstr::Arith(op) => {
            e.emit_arith(*op);
            true
        },
        BasicBlockInstr::Mem(memop) => {
            e.emit_mem(*memop);
            true
        },
        BasicBlockInstr::Trap(_) => {
            proof {
                assert forall|sigs: Map<Seq<char>, ResolvedSig>| #[trigger]
                    stops(e1, e1, *instr, sigs) by {
                    lemma_traps(e1, *instr, sigs);
                }
            }
            false
        },
    }
}

/// The code of the trap behind an instruction that nothing follows.
pub open spec fn trap_behind(instr: BasicBlockInstr) -> u8 {
    match instr {
        BasicBlockInstr::Trap(code) => code,
        BasicBlockInstr::ResolvedPick(_) => PAST_THE_END,
        BasicBlockInstr::ResolvedDropRange { .. } => PAST_THE_END,
        _ => NO_RETURN,
    }
}

/// The code of the trap behind an instruction that nothing follows.
fn trap_code(instr: &BasicBlockInstr) -> (r: u8)
    ensures
        r == trap_behind(*instr),
{
    match instr {
        BasicBlockInstr::Trap(code) => *code,
        BasicBlockInstr::ResolvedPick(_) => PAST_THE_END,
        BasicBlockInstr::ResolvedDropRange { .. } => PAST_THE_END,
        _ => NO_RETURN,
    }
}

/// A block that ends where nothing can follow.
proof fn lemma_ends_halted(
    e1: Emitter,
    e2: Emitter,
    ending: Ending,
    block: BlockModel,
    n: int,
    sigs: Map<Seq<char>, ResolvedSig>,
)
    requires
        0 <= n < block.code.len(),
        e1.params == e2.params,
        e1.stacked == e2.stacked,
        simulates(e1, block.code, n, sigs),
        stops(e1, e2, block.code[n], sigs),
        ending is Goto,
        ending->Goto_goal is Trap,
    ensures
        plans_block(e2.ops@, ending, e2.params as nat, block, sigs, e2.stacked),
{
    assert forall|env: Surroundings, machine: Machine, values: Seq<Value>, world: World|
        #![trigger stands_for(env, machine, sigs), run_ops(e2.ops@, start_frame(values, world), machine)]
        stands_for(env, machine, sigs) && enters(
            values,
            world,
            e2.params as nat,
            e2.stacked,
        ) implies {
        let o = run_from(block.code, 0, whole(values, world), env);
        match run_ops(e2.ops@, start_frame(values, world), machine) {
            Ran::Lost => e2.stacked && goes_astray(o, block.terminator),
            Ran::Over(oc) => same_unless_astray(o, oc) && !(oc is Done),
            Ran::On(fr) => {
                &&& o is Astray || ends_right(ending, fr, o, block.terminator, machine)
                &&& frame_ok(fr, e2.params as nat, e2.ops@)
                &&& !e2.stacked ==> fr.world.stack.len() == 0
            },
        }
    } by {
        let start = start_frame(values, world);
        let w = whole(values, world);
        lemma_run_prefix(block.code, n + 1, w, env);
        lemma_over_is_not_done(e2.ops@, start, machine);
        let c1 = run_ops(e1.ops@, start, machine);
        let c2 = run_ops(e2.ops@, start, machine);
        lemma_over_is_not_done(e1.ops@, start, machine);
        assert(keeps_up(run_prefix(block.code, n, w, env), c1, e1.tmp@) && on_track(e1, c1));
        assert(run_prefix(block.code, n + 1, w, env) == match run_prefix(block.code, n, w, env) {
            Outcome::Done(w2) => run_instr(block.code[n], w2, env),
            other => other,
        });
    }
}

/// The places that control can go to from a block.
pub open spec fn nexts(terminator: TerminatorModel) -> Seq<Next> {
    match terminator {
        TerminatorModel::Jump(next) => seq![next],
        TerminatorModel::If { on_true, on_false } => seq![on_true, on_false],
        TerminatorModel::Skip { targets } => targets,
    }
}

/// The goals that a plan can go to from a block.
pub open spec fn ending_goals(ending: Ending) -> Seq<Goal> {
    match ending {
        Ending::Goto { goal, .. } => seq![goal],
        Ending::Branch { on_true, on_false, .. } => seq![on_true, on_false],
        Ending::Switch { goals, .. } => goals@,
        Ending::TailCall { .. } => Seq::empty(),
        Ending::TailCallStack(_) => Seq::empty(),
    }
}

/// Whether a plan can go to a block from here.
pub open spec fn goes_to(ending: Ending, p: usize) -> bool {
    ending_goals(ending).contains(Goal::Block(p))
}

/// The values that go to the goal, or to the function that the rest is left to.
pub open spec fn ending_args(ending: Ending) -> Seq<Reg> {
    match ending {
        Ending::Goto { args, .. } => args@,
        Ending::Branch { args, .. } => args@,
        Ending::Switch { args, .. } => args@,
        Ending::TailCall { args, .. } => args@,
        Ending::TailCallStack(_) => Seq::empty(),
    }
}

/// Whether the end of a block only uses values that are there.
pub open spec fn ending_ok(ending: Ending, params: nat, ops: Seq<Op>) -> bool {
    &&& regs_ok(ending_args(ending), params, ops)
    &&& match ending {
        Ending::Branch { cond, .. } => reg_ok(cond, params, ops),
        Ending::Switch { index, .. } => reg_ok(index, params, ops),
        _ => true,
    }
}

/// Where a plan goes for where control goes.
fn goal_for(next: &Next) -> (r: Goal)
    ensures
        r == goal_of(*next),
{
    match next {
        Next::Trap => Goal::Trap(PAST_THE_END),
        Next::Terminate => Goal::Return,
        Next::Block(p) => Goal::Block(*p),
    }
}

/// What the operations of `e2` do more than those of `e1` if they take the values `regs` off, and
/// then, where there is a stack, put everything there.
spec fn settled(
    e1: Emitter,
    e2: Emitter,
    regs: Seq<Reg>,
    machine: Machine,
    start: Frame,
) -> bool {
    match run_ops(e1.ops@, start, machine) {
        Ran::On(fr) => e1.fits(fr) ==> {
            if held(fr, e1.tmp@).len() < regs.len() {
                run_ops(e2.ops@, start, machine) is Lost && e1.stacked
            } else {
                &&& run_ops(e2.ops@, start, machine) matches Ran::On(fr2)
                &&& e2.fits(fr2)
                &&& fr2.world.log == fr.world.log
                &&& fr2.world.stack + values_of(e2.tmp@, fr2) == below(
                    held(fr, e1.tmp@),
                    regs.len() as int,
                )
                &&& forall|j: int|
                    0 <= j < regs.len() ==> value_of(#[trigger] regs[j], fr2) == top(
                        held(fr, e1.tmp@),
                        j + 1,
                    )
            }
        },
        other => run_ops(e2.ops@, start, machine) == other,
    }
}

/// Takes the values that decide how a block ends, and then, where there is a stack, puts everything
/// there.
fn settle_block(e: &mut Emitter, n: usize) -> (r: Vec<Reg>)
    requires
        old(e).wf(),
        !old(e).stacked ==> old(e).tmp@.len() >= n,
    ensures
        final(e).wf(),
        final(e).params == old(e).params,
        final(e).stacked == old(e).stacked,
        r@.len() == n,
        regs_ok(r@, final(e).params as nat, final(e).ops@),
        old(e).stacked ==> final(e).tmp@.len() == 0,
        !old(e).stacked ==> final(e).tmp@.len() == old(e).tmp@.len() - n,
        forall|machine: Machine, start: Frame|
            #![trigger run_ops(final(e).ops@, start, machine)]
            settled(*old(e), *final(e), r@, machine, start),
{
    let ghost e1 = *e;
    let v = e.take(n);
    let ghost mid = *e;
    if e.stacked {
        e.flush();
        proof {
            assert forall|j: int| 0 <= j < v@.len() implies reg_ok(
                #[trigger] v@[j],
                e.params as nat,
                e.ops@,
            ) by {
                assert(reg_ok(v@[j], mid.params as nat, mid.ops@));
            }
        }
    }
    proof {
        let e2 = *e;
        assert forall|machine: Machine, start: Frame|
            #![trigger run_ops(e2.ops@, start, machine)]
            settled(e1, e2, v@, machine, start) by {
            assert(took(e1, mid, v@, machine, start)) by {
                let c = run_ops(mid.ops@, start, machine);
            }
            if e1.stacked {
                assert(spilled(mid, e2, mid.tmp@.len() as int, machine, start));
            }
            if let Ran::On(fr) = run_ops(e1.ops@, start, machine) {
                let h = held(fr, e1.tmp@);
                assert(values_of(e1.tmp@, fr).len() == e1.tmp@.len());
                if e1.fits(fr) && h.len() >= v@.len() {
                    let fr2 = run_ops(mid.ops@, start, machine)->On_0;
                    if e1.stacked {
                        let fr3 = run_ops(e2.ops@, start, machine)->On_0;
                        assert(values_of(mid.tmp@, fr2).take(mid.tmp@.len() as int) =~= values_of(
                            mid.tmp@,
                            fr2,
                        ));
                        assert(fr3.world.stack + values_of(e2.tmp@, fr3) =~= fr3.world.stack);
                        assert forall|j: int| 0 <= j < v@.len() implies value_of(
                            #[trigger] v@[j],
                            fr3,
                        ) == top(h, j + 1) by {
                            assert(reg_ok(v@[j], mid.params as nat, mid.ops@));
                            assert(value_of(v@[j], fr2) == top(h, j + 1));
                        }
                    }
                }
            }
        }
    }
    v
}

/// A block that ends as its terminator says.
proof fn lemma_ends(
    e1: Emitter,
    e2: Emitter,
    regs: Seq<Reg>,
    ending: Ending,
    block: BlockModel,
    sigs: Map<Seq<char>, ResolvedSig>,
)
    requires
        e1.params == e2.params,
        e1.stacked == e2.stacked,
        simulates(e1, block.code, block.code.len() as int, sigs),
        forall|machine: Machine, start: Frame|
            #![trigger run_ops(e2.ops@, start, machine)]
            settled(e1, e2, regs, machine, start),
        ending_args(ending) == e2.tmp@,
        match block.terminator {
            TerminatorModel::Jump(next) => {
                &&& regs.len() == 0
                &&& ending is Goto
                &&& ending->Goto_goal == goal_of(next)
            },
            TerminatorModel::If { on_true, on_false } => {
                &&& regs.len() == 1
                &&& ending is Branch
                &&& ending->Branch_cond == regs[0]
                &&& ending->Branch_on_true == goal_of(on_true)
                &&& ending->Branch_on_false == goal_of(on_false)
            },
            TerminatorModel::Skip { targets } => {
                &&& regs.len() == 1
                &&& ending is Switch
                &&& ending->Switch_index == regs[0]
                &&& ending->Switch_goals@ == targets.map_values(|next: Next| goal_of(next))
            },
        },
    ensures
        plans_block(e2.ops@, ending, e2.params as nat, block, sigs, e2.stacked),
{
    let n = block.code.len() as int;
    assert forall|env: Surroundings, machine: Machine, values: Seq<Value>, world: World|
        #![trigger stands_for(env, machine, sigs), run_ops(e2.ops@, start_frame(values, world), machine)]
        stands_for(env, machine, sigs) && enters(
            values,
            world,
            e2.params as nat,
            e2.stacked,
        ) implies {
        let o = run_from(block.code, 0, whole(values, world), env);
        match run_ops(e2.ops@, start_frame(values, world), machine) {
            Ran::Lost => e2.stacked && goes_astray(o, block.terminator),
            Ran::Over(oc) => same_unless_astray(o, oc) && !(oc is Done),
            Ran::On(fr) => {
                &&& o is Astray || ends_right(ending, fr, o, block.terminator, machine)
                &&& frame_ok(fr, e2.params as nat, e2.ops@)
                &&& !e2.stacked ==> fr.world.stack.len() == 0
            },
        }
    } by {
        let start = start_frame(values, world);
        let w = whole(values, world);
        lemma_run_prefix(block.code, n, w, env);
        lemma_over_is_not_done(e2.ops@, start, machine);
        let c1 = run_ops(e1.ops@, start, machine);
        assert(keeps_up(run_prefix(block.code, n, w, env), c1, e1.tmp@) && on_track(e1, c1));
        assert(settled(e1, e2, regs, machine, start));
        if let Ran::On(fr) = c1 {
            let h = held(fr, e1.tmp@);
            if h.len() >= regs.len() {
                let fr2 = run_ops(e2.ops@, start, machine)->On_0;
                assert(below(h, 0) =~= h);
                if regs.len() == 1 {
                    assert(value_of(regs[0], fr2) == top(h, 1));
                }
            }
        }
    }
}

/// Ends a block as its terminator says.
fn finish(
    emitter: Emitter,
    terminator: &Terminator,
    block: Ghost<BlockModel>,
    sigs: Ghost<Map<Seq<char>, ResolvedSig>>,
) -> (r: BlockPlan)
    requires
        emitter.wf(),
        block@.terminator == terminator@,
        simulates(emitter, block@.code, block@.code.len() as int, sigs@),
        !emitter.stacked ==> emitter.tmp@.len() + additional_delta(terminator@) >= 0,
    ensures
        r.params == emitter.params,
        ops_ok(r.ops@, r.params as nat),
        ending_ok(r.ending, r.params as nat, r.ops@),
        plans_block(r.ops@, r.ending, r.params as nat, block@, sigs@, emitter.stacked),
        ending_goals(r.ending) == nexts(terminator@).map_values(|next: Next| goal_of(next)),
        emitter.stacked ==> ending_args(r.ending).len() == 0,
        !emitter.stacked ==> ending_args(r.ending).len() == emitter.tmp@.len() + additional_delta(
            terminator@,
        ),
        !(r.ending is TailCall),
        !(r.ending is TailCallStack),
        terminator@ is Jump ==> r.ending is Goto,
        terminator@ is If ==> r.ending is Branch,
        terminator@ is Skip ==> r.ending is Switch,
        !emitter.stacked ==> keeps_off_stack(r.ops@),
{
    let ghost e1 = emitter;
    let mut e = emitter;
    match terminator {
        Terminator::Jump(next) => {
            let v = settle_block(&mut e, 0);
            let ghost e2 = e;
            let ending = Ending::Goto { goal: goal_for(next), args: e.tmp };
            proof {
                lemma_ends(e1, e2, v@, ending, block@, sigs@);
                assert(ending_goals(ending) =~= nexts(terminator@).map_values(
                    |next: Next| goal_of(next),
                ));
            }
            BlockPlan { params: e.params, ops: e.ops, ending }
        },
        Terminator::If { on_true, on_false } => {
            let v = settle_block(&mut e, 1);
            let ghost e2 = e;
            assert(reg_ok(v@[0], e2.params as nat, e2.ops@));
            let ending = Ending::Branch {
                cond: v[0],
                on_true: goal_for(on_true),
                on_false: goal_for(on_false),
                args: e.tmp,
            };
            proof {
                lemma_ends(e1, e2, v@, ending, block@, sigs@);
                assert(ending_goals(ending) =~= nexts(terminator@).map_values(
                    |next: Next| goal_of(next),
                ));
            }
            BlockPlan { params: e.params, ops: e.ops, ending }
        },
        Terminator::Skip { targets } => {
            let v = settle_block(&mut e, 1);
            let ghost e2 = e;
            assert(reg_ok(v@[0], e2.params as nat, e2.ops@));
            let mut goals: Vec<Goal> = Vec::new();
            let mut k: usize = 0;
            while k < targets.len()
                invariant
                    k <= targets@.len(),
                    goals@ == targets@.take(k as int).map_values(|next: Next| goal_of(next)),
                decreases targets@.len() - k,
            {
                goals.push(goal_for(&targets[k]));
                k = k + 1;
                assert(goals@ =~= targets@.take(k as int).map_values(|next: Next| goal_of(next)));
            }
            assert(targets@.take(k as int) =~= targets@);
            let ending = Ending::Switch { index: v[0], goals, args: e.tmp };
            proof {
                lemma_ends(e1, e2, v@, ending, block@, sigs@);
            }
            BlockPlan { params: e.params, ops: e.ops, ending }
        },
    }
}

/// What follows a call.
enum AfterCall {
    /// The next instruction.
    Goes,
    /// Nothing.
    Halts,
    /// Nothing, because the rest was left to the function that is called.
    Ends(Ending),
}

/// Whether the operations of `e2`, and then an ending, leave the rest to a function.
spec fn hands_over(
    e1: Emitter,
    e2: Emitter,
    ending: Ending,
    callee: Seq<char>,
    sigs: Map<Seq<char>, ResolvedSig>,
) -> bool {
    forall|env: Surroundings, machine: Machine, start: Frame|
        #![trigger stands_for(env, machine, sigs), run_ops(e2.ops@, start, machine)]
        stands_for(env, machine, sigs) ==> match run_ops(e1.ops@, start, machine) {
            Ran::On(fr) => e1.fits(fr) ==> {
                &&& run_ops(e2.ops@, start, machine) matches Ran::On(fr2)
                &&& e2.fits(fr2)
                &&& ends_right(
                    ending,
                    fr2,
                    (env.call)(callee, World { stack: held(fr, e1.tmp@), log: fr.world.log }),
                    TerminatorModel::Jump(Next::Terminate),
                    machine,
                )
            },
            other => run_ops(e2.ops@, start, machine) == other,
        }
}

/// Whether an ending that leaves the rest to a function with a signature fits the caller's own.
pub open spec fn tail_fits(
    ending: Ending,
    own: Option<ResolvedSig>,
    sigs: Map<Seq<char>, ResolvedSig>,
) -> bool {
    match ending {
        Ending::TailCall { callee, args } => {
            &&& own is Some
            &&& sigs.contains_key(callee@)
            &&& args@.len() == sigs[callee@].reach
            &&& returned(sigs[callee@]) == returned(own->0)
        },
        Ending::TailCallStack(callee) => own is None && !sigs.contains_key(callee@),
        _ => true,
    }
}

/// Writes the operations for a call. At the end of a function the rest is left to the one that is
/// called, where its results are the caller's.
fn emit_function_call(
    e: &mut Emitter,
    callee: &String,
    sigs: &NameMap<ResolvedSig>,
    at_end: bool,
    own: Option<ResolvedSig>,
    known: Ghost<Known>,
) -> (r: AfterCall)
    requires
        old(e).wf(),
        sigs.wf(),
        sigs_match(sigs@, known@),
        own is None <==> old(e).stacked,
        own matches Some(sig) ==> 0 <= returned(sig) <= usize::MAX,
        !old(e).stacked ==> at_hand(
            BasicBlockInstr::FunctionCall(*callee),
            old(e).tmp@.len(),
            known@,
        ),
    ensures
        final(e).wf(),
        final(e).params == old(e).params,
        final(e).stacked == old(e).stacked,
        !(r is Ends) ==> carries_out(
            *old(e),
            *final(e),
            BasicBlockInstr::FunctionCall(*callee),
            sigs@,
        ),
        !old(e).stacked && (r is Goes || r is Halts) ==> (r is Goes <==> comes_through(
            BasicBlockInstr::FunctionCall(*callee),
            known@.deltas,
        )),
        r is Goes && !old(e).stacked ==> final(e).tmp@.len() == old(e).tmp@.len()
            + known@.deltas[callee@]->Num_0,
        r is Halts ==> stops(*old(e), *final(e), BasicBlockInstr::FunctionCall(*callee), sigs@),
        r is Halts <==> !(r is Ends) && sigs@.contains_key(callee@) && sigs@[callee@].delta is None,
        r is Ends <==> at_end && match own {
            None => !sigs@.contains_key(callee@),
            Some(mine) => sigs@.contains_key(callee@) && old(e).tmp@.len()
                == sigs@[callee@].reach && returned(mine) == returned(sigs@[callee@]),
        },
        r matches AfterCall::Ends(ending) ==> {
            &&& match ending {
                Ending::TailCall { callee: name, .. } => own is Some && name@ == callee@,
                Ending::TailCallStack(name) => own is None && name@ == callee@,
                _ => false,
            }
            &&& hands_over(*old(e), *final(e), ending, callee@, sigs@)
            &&& ending_ok(ending, final(e).params as nat, final(e).ops@)
            &&& tail_fits(ending, own, sigs@)
        },
{
    let ghost e1 = *e;
    match sigs.get(callee.as_str()) {
        Some(sig) => {
            let args = e.take_args(sig.argc());
            let ghost mid = *e;
            if at_end && !e.stacked && e.tmp.len() == 0 {
                if let Some(mine) = own {
                    if mine.retc() == sig.retc() {
                        let ending = Ending::TailCall { callee: callee.clone(), args };
                        proof {
                            lemma_tail_call(e1, mid, ending, callee@, sigs@);
                        }
                        return AfterCall::Ends(ending);
                    }
                }
            }
            e.emit_call(callee, sig, args, Ghost(e1));
            if sig.delta.is_some() {
                AfterCall::Goes
            } else {
                proof {
                    lemma_stops(e1, *e, BasicBlockInstr::FunctionCall(*callee), sigs@);
                }
                AfterCall::Halts
            }
        },
        None => {
            e.flush();
            let ghost low = *e;
            if at_end {
                let ending = Ending::TailCallStack(callee.clone());
                proof {
                    lemma_tail_call_stack(e1, low, ending, callee@, sigs@);
                }
                return AfterCall::Ends(ending);
            }
            e.emit_call_stack(callee, Ghost(e1));
            AfterCall::Goes
        },
    }
}

proof fn lemma_tail_call(
    e1: Emitter,
    mid: Emitter,
    ending: Ending,
    callee: Seq<char>,
    sigs: Map<Seq<char>, ResolvedSig>,
)
    requires
        !e1.stacked,
        !mid.stacked,
        e1.params == mid.params,
        mid.tmp@.len() == 0,
        sigs.contains_key(callee),
        ending is TailCall,
        ending->TailCall_callee@ == callee,
        ending->TailCall_args@.len() == sigs[callee].reach,
        e1.tmp@.len() >= sigs[callee].reach,
        takes(e1, mid, ending->TailCall_args@.reverse()),
    ensures
        hands_over(e1, mid, ending, callee, sigs),
{
    let args = ending->TailCall_args@;
    let regs = args.reverse();
    let n = args.len() as int;
    assert forall|env: Surroundings, machine: Machine, start: Frame|
        #![trigger stands_for(env, machine, sigs), run_ops(mid.ops@, start, machine)]
        stands_for(env, machine, sigs) implies match run_ops(e1.ops@, start, machine) {
        Ran::On(fr) => e1.fits(fr) ==> {
            &&& run_ops(mid.ops@, start, machine) matches Ran::On(fr2)
            &&& mid.fits(fr2)
            &&& ends_right(
                ending,
                fr2,
                (env.call)(callee, World { stack: held(fr, e1.tmp@), log: fr.world.log }),
                TerminatorModel::Jump(Next::Terminate),
                machine,
            )
        },
        other => run_ops(mid.ops@, start, machine) == other,
    } by {
        assert(took(e1, mid, regs, machine, start));
        if let Ran::On(fr) = run_ops(e1.ops@, start, machine) {
            if e1.fits(fr) {
                let h = held(fr, e1.tmp@);
                assert(values_of(e1.tmp@, fr).len() == e1.tmp@.len());
                let fr2 = run_ops(mid.ops@, start, machine)->On_0;
                assert(held(fr2, mid.tmp@).len() == 0);
                assert(h.len() == n);
                assert(values_of(args, fr2) =~= h) by {
                    assert forall|j: int| 0 <= j < n implies values_of(args, fr2)[j] == h[j] by {
                        assert(regs[n - 1 - j] == args[j]);
                        assert(value_of(regs[n - 1 - j], fr2) == top(h, n - j));
                    }
                }
                assert((machine.call)(callee, h, fr.world.log) is Some);
            }
        }
    }
}

proof fn lemma_tail_call_stack(
    e1: Emitter,
    low: Emitter,
    ending: Ending,
    callee: Seq<char>,
    sigs: Map<Seq<char>, ResolvedSig>,
)
    requires
        e1.stacked,
        low.stacked,
        e1.params == low.params,
        !sigs.contains_key(callee),
        ending is TailCallStack,
        ending->TailCallStack_0@ == callee,
        spills(e1, low, e1.tmp@.len() as int),
    ensures
        hands_over(e1, low, ending, callee, sigs),
{
    assert forall|env: Surroundings, machine: Machine, start: Frame|
        #![trigger stands_for(env, machine, sigs), run_ops(low.ops@, start, machine)]
        stands_for(env, machine, sigs) implies match run_ops(e1.ops@, start, machine) {
        Ran::On(fr) => e1.fits(fr) ==> {
            &&& run_ops(low.ops@, start, machine) matches Ran::On(fr2)
            &&& low.fits(fr2)
            &&& ends_right(
                ending,
                fr2,
                (env.call)(callee, World { stack: held(fr, e1.tmp@), log: fr.world.log }),
                TerminatorModel::Jump(Next::Terminate),
                machine,
            )
        },
        other => run_ops(low.ops@, start, machine) == other,
    } by {
        assert(spilled(e1, low, e1.tmp@.len() as int, machine, start));
        if let Ran::On(fr) = run_ops(e1.ops@, start, machine) {
            if e1.fits(fr) {
                let h = held(fr, e1.tmp@);
                let fr2 = run_ops(low.ops@, start, machine)->On_0;
                assert(values_of(e1.tmp@, fr).take(e1.tmp@.len() as int) =~= values_of(
                    e1.tmp@,
                    fr,
                ));
                assert(fr2.world == World { stack: h, log: fr.world.log });
                let c = (machine.call_stack)(callee, fr2.world);
            }
        }
    }
}

/// A block that ends by leaving the rest to a function.
proof fn lemma_ends_tail(
    e1: Emitter,
    e2: Emitter,
    ending: Ending,
    block: BlockModel,
    sigs: Map<Seq<char>, ResolvedSig>,
)
    requires
        block.code.len() > 0,
        block.code.last() is FunctionCall,
        block.terminator == TerminatorModel::Jump(Next::Terminate),
        e1.params == e2.params,
        e1.stacked == e2.stacked,
        simulates(e1, block.code, block.code.len() - 1, sigs),
        hands_over(e1, e2, ending, block.code.last()->FunctionCall_0@, sigs),
    ensures
        plans_block(e2.ops@, ending, e2.params as nat, block, sigs, e2.stacked),
{
    let n = block.code.len() as int;
    assert forall|env: Surroundings, machine: Machine, values: Seq<Value>, world: World|
        #![trigger stands_for(env, machine, sigs), run_ops(e2.ops@, start_frame(values, world), machine)]
        stands_for(env, machine, sigs) && enters(
            values,
            world,
            e2.params as nat,
            e2.stacked,
        ) implies {
        let o = run_from(block.code, 0, whole(values, world), env);
        match run_ops(e2.ops@, start_frame(values, world), machine) {
            Ran::Lost => e2.stacked && goes_astray(o, block.terminator),
            Ran::Over(oc) => same_unless_astray(o, oc) && !(oc is Done),
            Ran::On(fr) => {
                &&& o is Astray || ends_right(ending, fr, o, block.terminator, machine)
                &&& frame_ok(fr, e2.params as nat, e2.ops@)
                &&& !e2.stacked ==> fr.world.stack.len() == 0
            },
        }
    } by {
        let start = start_frame(values, world);
        let w = whole(values, world);
        lemma_run_prefix(block.code, n - 1, w, env);
        lemma_run_prefix(block.code, n, w, env);
        lemma_over_is_not_done(e2.ops@, start, machine);
        let c1 = run_ops(e1.ops@, start, machine);
        assert(keeps_up(run_prefix(block.code, n - 1, w, env), c1, e1.tmp@) && on_track(e1, c1));
    }
}

/// Whether what is known of a block allows it to be entered with `count` values by a function with
/// this signature.
pub open spec fn enterable(
    f: FunctionModel,
    pos: int,
    count: nat,
    own: ResolvedSig,
    known: Known,
) -> bool {
    &&& path_delta(f, pos, known.deltas) is Some
    &&& path_delta(f, pos, known.deltas) matches Some(Delta::Num(d)) ==> own.delta is Some && count
        + d == returned(own)
    &&& path_reach(f, pos, known) matches Reach::Num(r)
    &&& count >= r
}

/// Whether the goals of an ending can be reached with the values that go there.
pub open spec fn goals_fit(
    ending: Ending,
    f: FunctionModel,
    pos: int,
    own: Option<ResolvedSig>,
    known: Known,
) -> bool {
    &&& own is None ==> ending_args(ending).len() == 0
    &&& forall|k: int|
        0 <= k < ending_goals(ending).len() ==> match #[trigger] ending_goals(ending)[k] {
            Goal::Trap(_) => true,
            Goal::Return => own matches Some(sig) ==> sig.delta is Some && ending_args(ending).len()
                == returned(sig),
            Goal::Block(p) => {
                &&& pos < p < f.length
                &&& f.blocks.contains_key(p)
                &&& own matches Some(sig) ==> enterable(
                    f,
                    p as int,
                    ending_args(ending).len(),
                    sig,
                    known,
                )
            },
        }
}

/// What holds of all the places that control can go to holds of each of them.
proof fn lemma_each_next(
    f: FunctionModel,
    pos: int,
    terminator: TerminatorModel,
    known: Known,
    k: int,
)
    requires
        0 <= k < nexts(terminator).len(),
        leaving_delta(f, pos, terminator, known.deltas) is Some,
        leaving_reach(f, pos, terminator, known) is Num,
    ensures
        next_delta(f, pos, nexts(terminator)[k], known.deltas) is Some,
        delta_below(
            next_delta(f, pos, nexts(terminator)[k], known.deltas)->0,
            leaving_delta(f, pos, terminator, known.deltas)->0,
        ),
        next_reach(f, pos, nexts(terminator)[k], known) is Num,
        next_reach(f, pos, nexts(terminator)[k], known)->Num_0 <= leaving_reach(
            f,
            pos,
            terminator,
            known,
        )->Num_0 + additional_delta(terminator),
{
    if let TerminatorModel::Skip { targets } = terminator {
        lemma_each_target(f, pos, targets, known, k);
    }
}

/// The goals at the end of a block can be reached with what is left of the values that it was
/// entered with.
proof fn lemma_goals_fit(
    ending: Ending,
    f: FunctionModel,
    pos: int,
    params: nat,
    sig: ResolvedSig,
    known: Known,
)
    requires
        goes_forward(f),
        0 <= pos < f.length,
        f.blocks.contains_key(pos as usize),
        enterable(f, pos, params, sig, known),
        ({
            let block = f.blocks[pos as usize];
            let n = block.code.len() as int;
            &&& body_delta(block.code, n, known.deltas) matches Some(Delta::Num(t))
            &&& leaving_reach(f, pos, block.terminator, known) matches Reach::Num(rr)
            &&& params + t >= rr
            &&& ending_args(ending).len() == params + t + additional_delta(block.terminator)
            &&& ending_goals(ending) == nexts(block.terminator).map_values(
                |next: Next| goal_of(next),
            )
        }),
    ensures
        goals_fit(ending, f, pos, Some(sig), known),
{
    let block = f.blocks[pos as usize];
    let all = nexts(block.terminator);
    assert(leaves_forward(f, pos, block.terminator));
    assert forall|k: int| 0 <= k < ending_goals(ending).len() implies match #[trigger] ending_goals(
        ending,
    )[k] {
        Goal::Trap(_) => true,
        Goal::Return => sig.delta is Some && ending_args(ending).len() == returned(sig),
        Goal::Block(p) => {
            &&& pos < p < f.length
            &&& f.blocks.contains_key(p)
            &&& enterable(f, p as int, ending_args(ending).len(), sig, known)
        },
    } by {
        assert(ending_goals(ending)[k] == goal_of(all[k]));
        assert(leads_forward(f, pos, all[k]));
        lemma_each_next(f, pos, block.terminator, known, k);
    }
}

/// The deltas that signatures give.
pub open spec fn sig_deltas(sigs: Map<Seq<char>, ResolvedSig>) -> Map<Seq<char>, Delta> {
    sigs.map_values(|sig: ResolvedSig| sig_delta(sig))
}

/// By how much a block changes the height of the stack, if it is gone through.
pub open spec fn gain(block: BlockModel, deltas: Map<Seq<char>, Delta>) -> int {
    body_delta(block.code, block.code.len() as int, deltas)->0->Num_0 + additional_delta(
        block.terminator,
    )
}

/// Whether a call, or another instruction, can be followed by no other.
pub open spec fn nothing_follows(
    instr: BasicBlockInstr,
    sigs: Map<Seq<char>, ResolvedSig>,
) -> bool {
    match instr {
        BasicBlockInstr::FunctionCall(name) => sigs.contains_key(name@) && sigs[name@].delta is None,
        _ => never_goes_on(instr),
    }
}

/// Whether a block leaves the rest to the function that it calls last. It does if the call is the
/// last thing that the function does, and its results are the function's: either neither function
/// has a signature, or both have one, all values that are left are arguments of the call, and it
/// has as many results as the function.
pub open spec fn leaves_rest(
    block: BlockModel,
    params: nat,
    own: Option<ResolvedSig>,
    sigs: Map<Seq<char>, ResolvedSig>,
) -> bool {
    let n = block.code.len() as int;
    &&& block.terminator == TerminatorModel::Jump(Next::Terminate)
    &&& n > 0
    &&& forall|i: int| 0 <= i < n - 1 ==> !nothing_follows(#[trigger] block.code[i], sigs)
    &&& block.code[n - 1] matches BasicBlockInstr::FunctionCall(callee)
    &&& match own {
        None => !sigs.contains_key(callee@),
        Some(mine) => {
            &&& sigs.contains_key(callee@)
            &&& body_delta(block.code, n - 1, sig_deltas(sigs)) matches Some(Delta::Num(d))
            &&& params + d == sigs[callee@].reach
            &&& returned(mine) == returned(sigs[callee@])
        },
    }
}

/// Whether an instruction is the first that nothing follows.
pub open spec fn stops_first(
    code: Seq<BasicBlockInstr>,
    i: int,
    sigs: Map<Seq<char>, ResolvedSig>,
) -> bool {
    &&& 0 <= i < code.len()
    &&& nothing_follows(code[i], sigs)
    &&& forall|j: int| 0 <= j < i ==> !nothing_follows(#[trigger] code[j], sigs)
}

/// Whether a block of a plan ends as it should: by leaving the rest to the function that the block
/// calls last, where that can be done; else, if nothing follows one of its instructions, at a trap
/// with the code of the first of these; else just where the terminator of the block leads.
pub open spec fn ends_as_said(
    ending: Ending,
    block: BlockModel,
    params: nat,
    own: Option<ResolvedSig>,
    sigs: Map<Seq<char>, ResolvedSig>,
) -> bool {
    let goals = nexts(block.terminator).map_values(|next: Next| goal_of(next));
    if leaves_rest(block, params, own, sigs) {
        let callee = block.code.last()->FunctionCall_0@;
        match ending {
            Ending::TailCall { callee: name, .. } => own is Some && name@ == callee,
            Ending::TailCallStack(name) => own is None && name@ == callee,
            _ => false,
        }
    } else if exists|i: int|
        0 <= i < block.code.len() && nothing_follows(#[trigger] block.code[i], sigs) {
        &&& ending is Goto
        &&& ending->Goto_args@.len() == 0
        &&& exists|i: int| #[trigger]
            stops_first(block.code, i, sigs) && ending->Goto_goal == Goal::Trap(
                trap_behind(block.code[i]),
            )
    } else {
        &&& ending_goals(ending) == goals
        &&& block.terminator is Jump ==> ending is Goto
        &&& block.terminator is If ==> ending is Branch
        &&& block.terminator is Skip ==> ending is Switch
    }
}

/// Whether all blocks of a plan end as those of the function say.
pub open spec fn all_end_as_said(
    blocks: Map<usize, BlockPlan>,
    f: FunctionModel,
    own: Option<ResolvedSig>,
    sigs: Map<Seq<char>, ResolvedSig>,
) -> bool {
    forall|p: usize| #[trigger]
        blocks.contains_key(p) ==> ends_as_said(
            blocks[p].ending,
            f.blocks[p],
            blocks[p].params as nat,
            own,
            sigs,
        )
}

/// Writes the plan of a block.
fn compile_block(
    block: &BasicBlock,
    params: usize,
    sigs: &NameMap<ResolvedSig>,
    own: Option<ResolvedSig>,
    f: Ghost<FunctionModel>,
    pos: Ghost<int>,
    known: Ghost<Known>,
) -> (r: BlockPlan)
    requires
        sigs.wf(),
        sigs_match(sigs@, known@),
        goes_forward(f@),
        0 <= pos@ < f@.length,
        f@.blocks.contains_key(pos@ as usize),
        f@.blocks[pos@ as usize] == block@,
        own is None ==> params == 0,
        own matches Some(sig) ==> 0 <= returned(sig) <= usize::MAX && enterable(
            f@,
            pos@,
            params as nat,
            sig,
            known@,
        ),
    ensures
        r.params == params,
        ops_ok(r.ops@, params as nat),
        ending_ok(r.ending, params as nat, r.ops@),
        plans_block(r.ops@, r.ending, params as nat, block@, sigs@, own is None),
        tail_fits(r.ending, own, sigs@),
        goals_fit(r.ending, f@, pos@, own, known@),
        own is Some ==> keeps_off_stack(r.ops@),
        own is Some && all_come_through(block@.code, sig_deltas(sigs@)) ==> (ending_goals(r.ending)
            == nexts(block@.terminator).map_values(|next: Next| goal_of(next)) || (
        r.ending is TailCall && block@.terminator == TerminatorModel::Jump(Next::Terminate))),
        own is Some && all_come_through(block@.code, sig_deltas(sigs@)) && !(r.ending is TailCall)
            ==> ending_args(r.ending).len() == params + gain(block@, sig_deltas(sigs@)),
        own is Some && !all_come_through(block@.code, sig_deltas(sigs@)) ==> forall|p: usize|
            !#[trigger] goes_to(r.ending, p),
        (exists|i: int| 0 <= i < block@.code.len() && (#[trigger] block@.code[i]) is Trap) ==> (
        r.ending is Goto && r.ending->Goto_goal is Trap),
        ends_as_said(r.ending, block@, params as nat, own, sigs@),
{
    let ghost code = block@.code;
    let ghost n = code.len() as int;
    let ghost rest = leaving_reach(f@, pos@, block@.terminator, known@);
    let stacked = own.is_none();
    let mut e = Emitter::new(params, stacked);
    proof {
        lemma_simulates_start(e, code, sigs@);
    }
    let ends_function = match &block.terminator {
        Terminator::Jump(Next::Terminate) => true,
        _ => false,
    };
    let mut i: usize = 0;
    while i < block.code.len()
        invariant
            sigs.wf(),
            sigs_match(sigs@, known@),
            code == block@.code,
            n == code.len(),
            rest == leaving_reach(f@, pos@, block@.terminator, known@),
            stacked == (own is None),
            own matches Some(sig) ==> 0 <= returned(sig) <= usize::MAX,
            ends_function <==> block@.terminator == TerminatorModel::Jump(Next::Terminate),
            i <= code.len(),
            e.wf(),
            e.params == params,
            e.stacked == stacked,
            simulates(e, code, i as int, sigs@),
            forall|j: int| 0 <= j < i ==> !nothing_follows(#[trigger] code[j], sigs@),
            i == n ==> !leaves_rest(block@, params as nat, own, sigs@),
            !stacked ==> {
                &&& body_delta(code, n, known@.deltas) is Some
                &&& body_delta(code, i as int, known@.deltas) matches Some(Delta::Num(a))
                &&& e.tmp@.len() == params + a
                &&& body_reach(code, i as int, rest, known@) matches Reach::Num(r)
                &&& e.tmp@.len() >= r
            },
            !stacked ==> forall|j: int|
                0 <= j < i ==> comes_through(#[trigger] code[j], sig_deltas(sigs@)),
            !stacked ==> body_delta(code, i as int, sig_deltas(sigs@)) == body_delta(
                code,
                i as int,
                known@.deltas,
            ),
        decreases code.len() - i,
    {
        let ghost e1 = e;
        let instr = &block.code[i];
        let ghost at = code[i as int];
        assert(*instr == at);
        proof {
            if !stacked {
                if !(body_delta(code, i + 1, known@.deltas) matches Some(Delta::Num(_))) {
                    lemma_body_delta_is_settled(code, i + 1, n, known@.deltas);
                }
                assert(at_hand(at, e.tmp@.len(), known@));
                assert(instr_delta(at, sig_deltas(sigs@)) == instr_delta(at, known@.deltas)) by {
                    if let BasicBlockInstr::FunctionCall(name) = at {
                        assert(known@.deltas.contains_key(name@));
                        assert(sigs@.contains_key(name@));
                    }
                }
            }
        }
        let goes = match instr {
            BasicBlockInstr::FunctionCall(callee) => {
                let at_end = ends_function && i == block.code.len() - 1;
                match emit_function_call(&mut e, callee, sigs, at_end, own, known) {
                    AfterCall::Goes => true,
                    AfterCall::Halts => false,
                    AfterCall::Ends(ending) => {
                        proof {
                            assert(code.last() == at);
                            assert(forall|j: int|
                                0 <= j < n ==> (#[trigger] code[j]) is Trap ==> j < i);
                            lemma_ends_tail(e1, e, ending, block@, sigs@);
                        }
                        return BlockPlan { params, ops: e.ops, ending };
                    },
                }
            },
            _ => emit_instr(&mut e, instr, known),
        };
        proof {
            if i == n - 1 && leaves_rest(block@, params as nat, own, sigs@) {
                let callee = at->FunctionCall_0;
                assert(own is None ==> !sigs@.contains_key(callee@));
                assert(own is Some ==> e1.tmp@.len() == sigs@[callee@].reach);
            }
        }
        if !goes {
            let ending = Ending::Goto { goal: Goal::Trap(trap_code(instr)), args: Vec::new() };
            proof {
                lemma_ends_halted(e1, e, ending, block@, i as int, sigs@);
                assert(!stacked ==> !comes_through(code[i as int], sig_deltas(sigs@)));
                assert(nothing_follows(code[i as int], sigs@));
                assert(stops_first(code, i as int, sigs@));
            }
            return BlockPlan { params, ops: e.ops, ending };
        }
        proof {
            lemma_simulates_more(e1, e, code, i as int, sigs@);
        }
        i = i + 1;
    }
    let ghost last = e;
    let r = finish(e, &block.terminator, Ghost(block@), Ghost(sigs@));
    proof {
        if let Some(sig) = own {
            lemma_goals_fit(r.ending, f@, pos@, params as nat, sig, known@);
        } else {
            assert(leaves_forward(f@, pos@, block@.terminator));
            assert forall|k: int| 0 <= k < ending_goals(r.ending).len() implies match #[trigger] ending_goals(
                r.ending,
            )[k] {
                Goal::Trap(_) => true,
                Goal::Return => true,
                Goal::Block(p) => pos@ < p < f@.length && f@.blocks.contains_key(p),
            } by {
                let all = nexts(block@.terminator);
                assert(ending_goals(r.ending)[k] == goal_of(all[k]));
                assert(leads_forward(f@, pos@, all[k]));
            }
        }
    }
    r
}

/// Whether control can go from block `p` to block `q`.
pub open spec fn live_step(
    f: FunctionModel,
    deltas: Map<Seq<char>, Delta>,
    p: usize,
    q: usize,
) -> bool {
    &&& f.blocks.contains_key(p)
    &&& all_come_through(f.blocks[p].code, deltas)
    &&& nexts(f.blocks[p].terminator).contains(Next::Block(q))
}

/// Whether control can go along these blocks, from the start of the function on.
pub open spec fn is_trail(
    f: FunctionModel,
    deltas: Map<Seq<char>, Delta>,
    trail: Seq<usize>,
) -> bool {
    &&& trail.len() > 0
    &&& trail[0] == 0
    &&& forall|i: int| 0 <= i < trail.len() - 1 ==> #[trigger] steps_on(f, deltas, trail, i)
}

/// Whether control can go from block number `i` of a trail to the next.
pub open spec fn steps_on(
    f: FunctionModel,
    deltas: Map<Seq<char>, Delta>,
    trail: Seq<usize>,
    i: int,
) -> bool {
    live_step(f, deltas, trail[i], trail[i + 1])
}

/// By how much the stack has grown where the last block of a trail starts.
pub open spec fn trail_height(
    f: FunctionModel,
    deltas: Map<Seq<char>, Delta>,
    trail: Seq<usize>,
) -> int
    decreases trail.len(),
{
    if trail.len() <= 1 {
        0
    } else {
        trail_height(f, deltas, trail.drop_last()) + gain(
            f.blocks[trail[trail.len() - 2]],
            deltas,
        )
    }
}

/// Whether a block can be reached on two ways on which the stack has grown differently.
pub open spec fn conflicting(f: FunctionModel, deltas: Map<Seq<char>, Delta>) -> bool {
    exists|a: Seq<usize>, b: Seq<usize>| #[trigger]
        is_trail(f, deltas, a) && #[trigger] is_trail(f, deltas, b) && a.last() == b.last()
            && trail_height(f, deltas, a) != trail_height(f, deltas, b)
}

/// One block more on a trail.
proof fn lemma_trail_more(
    f: FunctionModel,
    deltas: Map<Seq<char>, Delta>,
    trail: Seq<usize>,
    q: usize,
)
    requires
        is_trail(f, deltas, trail),
        live_step(f, deltas, trail.last(), q),
    ensures
        is_trail(f, deltas, trail.push(q)),
        trail_height(f, deltas, trail.push(q)) == trail_height(f, deltas, trail) + gain(
            f.blocks[trail.last()],
            deltas,
        ),
{
    let more = trail.push(q);
    assert(more.drop_last() =~= trail);
    assert forall|i: int| 0 <= i < more.len() - 1 implies #[trigger] steps_on(
        f,
        deltas,
        more,
        i,
    ) by {
        if i < trail.len() - 1 {
            assert(steps_on(f, deltas, trail, i));
        }
    }
}

/// Whether a trail leads to a block, on which the stack has grown so that `count` values are there.
spec fn led_to(
    f: FunctionModel,
    deltas: Map<Seq<char>, Delta>,
    reach: int,
    q: usize,
    count: int,
) -> bool {
    exists|trail: Seq<usize>| #[trigger]
        is_trail(f, deltas, trail) && trail.last() == q && reach + trail_height(f, deltas, trail)
            == count
}

/// Whether a plan fits the function that it was made for.
pub open spec fn plan_fits(
    plan: FunctionPlan,
    f: FunctionModel,
    own: Option<ResolvedSig>,
    sigs: Map<Seq<char>, ResolvedSig>,
) -> bool {
    &&& plan.signature == own
    &&& plan.length == f.length
    &&& f.length > 0 ==> plan.blocks@.contains_key(0)
    &&& own is Some && f.length > 0 ==> plan.blocks@[0].params == own->0.reach
    &&& own is Some && f.length == 0 ==> returned(own->0) == own->0.reach
    &&& forall|p: usize| #[trigger]
        plan.blocks@.contains_key(p) ==> f.blocks.contains_key(p) && block_fits(
            plan.blocks@[p],
            f.blocks[p],
            own,
            sigs,
        ) && blocks_connect(plan, p)
}

/// Whether a block of a plan fits the block that it was made for.
pub open spec fn block_fits(
    bp: BlockPlan,
    block: BlockModel,
    own: Option<ResolvedSig>,
    sigs: Map<Seq<char>, ResolvedSig>,
) -> bool {
    &&& ops_ok(bp.ops@, bp.params as nat)
    &&& ending_ok(bp.ending, bp.params as nat, bp.ops@)
    &&& plans_block(bp.ops@, bp.ending, bp.params as nat, block, sigs, own is None)
    &&& tail_fits(bp.ending, own, sigs)
    &&& own is None ==> bp.params == 0 && ending_args(bp.ending).len() == 0
    &&& own is Some ==> keeps_off_stack(bp.ops@)
    &&& own is Some && ending_goals(bp.ending).contains(Goal::Return) ==> ending_args(
        bp.ending,
    ).len() == returned(own->0)
}

/// Whether the blocks that a block leads to are there, and take the values that it hands on.
pub open spec fn blocks_connect(plan: FunctionPlan, p: usize) -> bool {
    forall|q: usize| #[trigger]
        goes_to(plan.blocks@[p].ending, q) ==> p < q < plan.length && plan.blocks@.contains_key(q)
            && plan.blocks@[q].params == ending_args(plan.blocks@[p].ending).len()
}

/// Whether a function can be compiled with these signatures, given what is known.
pub open spec fn compilable(
    f: FunctionModel,
    own: Option<ResolvedSig>,
    sigs: Map<Seq<char>, ResolvedSig>,
    known: Known,
) -> bool {
    &&& sigs_match(sigs, known)
    &&& own matches Some(sig) ==> {
        &&& 0 <= returned(sig) <= usize::MAX
        &&& func_delta(f, known.deltas) == Some(sig_delta(sig))
        &&& func_reach(f, known) == Reach::Num(sig.reach)
    }
}

/// The goals that a plan can go to from a block.
fn goals_of(ending: &Ending) -> (r: Vec<Goal>)
    ensures
        r@ == ending_goals(*ending),
{
    let mut result: Vec<Goal> = Vec::new();
    match ending {
        Ending::Goto { goal, .. } => {
            result.push(*goal);
        },
        Ending::Branch { on_true, on_false, .. } => {
            result.push(*on_true);
            result.push(*on_false);
        },
        Ending::Switch { goals, .. } => {
            let mut k: usize = 0;
            while k < goals.len()
                invariant
                    k <= goals@.len(),
                    result@ == goals@.take(k as int),
                decreases goals@.len() - k,
            {
                result.push(goals[k]);
                k = k + 1;
                assert(result@ =~= goals@.take(k as int));
            }
            assert(goals@.take(k as int) =~= goals@);
        },
        _ => {},
    }
    assert(result@ =~= ending_goals(*ending));
    result
}

/// The number of values that go to the goal.
fn args_len(ending: &Ending) -> (r: usize)
    ensures
        r == ending_args(*ending).len(),
{
    match ending {
        Ending::Goto { args, .. } => args.len(),
        Ending::Branch { args, .. } => args.len(),
        Ending::Switch { args, .. } => args.len(),
        Ending::TailCall { args, .. } => args.len(),
        Ending::TailCallStack(_) => 0,
    }
}

/// Notes how many values the blocks are entered with that a block leads to. `Some` if one of them
/// is entered with another number of values elsewhere.
fn cache_param_counts(counts: &mut BTreeMap<usize, usize>, ending: &Ending) -> (r: Option<usize>)
    ensures
        forall|q: usize| #[trigger]
            old(counts)@.contains_key(q) ==> final(counts)@.contains_key(q) && final(counts)@[q]
                == old(counts)@[q],
        forall|q: usize| #[trigger]
            final(counts)@.contains_key(q) && !old(counts)@.contains_key(q) ==> goes_to(*ending, q)
                && final(counts)@[q] == ending_args(*ending).len(),
        r is None ==> forall|q: usize| #[trigger]
            goes_to(*ending, q) ==> final(counts)@.contains_key(q) && final(counts)@[q]
                == ending_args(*ending).len(),
        r matches Some(q) ==> goes_to(*ending, q) && old(counts)@.contains_key(q) && old(counts)@[q]
            != ending_args(*ending).len(),
{
    let goals = goals_of(ending);
    let count = args_len(ending);
    let mut k: usize = 0;
    while k < goals.len()
        invariant
            goals@ == ending_goals(*ending),
            count == ending_args(*ending).len(),
            k <= goals@.len(),
            forall|q: usize| #[trigger]
                old(counts)@.contains_key(q) ==> counts@.contains_key(q) && counts@[q]
                    == old(counts)@[q],
            forall|q: usize| #[trigger]
                counts@.contains_key(q) && !old(counts)@.contains_key(q) ==> goes_to(*ending, q)
                    && counts@[q] == count,
            forall|j: int|
                0 <= j < k ==> (#[trigger] goals@[j] matches Goal::Block(q) ==> counts@.contains_key(q)
                    && counts@[q] == count),
        decreases goals@.len() - k,
    {
        if let Goal::Block(q) = goals[k] {
            assert(ending_goals(*ending)[k as int] == Goal::Block(q));
            assert(goes_to(*ending, q));
            match counts.get(&q) {
                Some(old_count) => {
                    if *old_count != count {
                        return Some(q);
                    }
                },
                None => {
                    counts.insert(q, count);
                },
            }
        }
        k = k + 1;
    }
    assert forall|q: usize| #[trigger] goes_to(*ending, q) implies counts@.contains_key(q)
        && counts@[q] == count by {
        let j = choose|j: int| 0 <= j < goals@.len() && goals@[j] == Goal::Block(q);
        assert(goals@[j] == Goal::Block(q));
    }
    None
}

/// What holds while the blocks of a function with a signature are compiled, the first `pos`
/// positions being done.
spec fn underway(
    f: FunctionModel,
    sig: ResolvedSig,
    sigs: Map<Seq<char>, ResolvedSig>,
    known: Known,
    pos: int,
    counts: Map<usize, usize>,
    blocks: Map<usize, BlockPlan>,
) -> bool {
    let deltas = sig_deltas(sigs);
    &&& f.length > 0 ==> counts.contains_key(0) && counts[0] == sig.reach
    &&& forall|q: usize| #[trigger]
        counts.contains_key(q) ==> q < f.length && f.blocks.contains_key(q) && enterable(
            f,
            q as int,
            counts[q] as nat,
            sig,
            known,
        ) && led_to(f, deltas, sig.reach as int, q, counts[q] as int)
    &&& forall|p: usize| #[trigger]
        blocks.contains_key(p) <==> p < pos && counts.contains_key(p)
    &&& forall|p: usize| #[trigger]
        blocks.contains_key(p) ==> blocks[p].params == counts[p] && block_fits(
            blocks[p],
            f.blocks[p],
            Some(sig),
            sigs,
        ) && leads_on(f, deltas, counts, blocks, p)
}

/// Whether the blocks that a block leads to are noted with the values that it hands on.
spec fn leads_on(
    f: FunctionModel,
    deltas: Map<Seq<char>, Delta>,
    counts: Map<usize, usize>,
    blocks: Map<usize, BlockPlan>,
    p: usize,
) -> bool {
    &&& forall|q: usize| #[trigger]
        goes_to(blocks[p].ending, q) ==> p < q && counts.contains_key(q) && counts[q]
            == ending_args(blocks[p].ending).len()
    &&& forall|q: usize| #[trigger]
        live_step(f, deltas, p, q) ==> counts.contains_key(q) && counts[q] == counts[p] + gain(
            f.blocks[p],
            deltas,
        )
}

/// A goal is a place.
proof fn lemma_goal_is_next(terminator: TerminatorModel, q: usize)
    ensures
        nexts(terminator).map_values(|next: Next| goal_of(next)).contains(Goal::Block(q))
            <==> nexts(terminator).contains(Next::Block(q)),
{
    let all = nexts(terminator);
    let goals = all.map_values(|next: Next| goal_of(next));
    if goals.contains(Goal::Block(q)) {
        let k = choose|k: int| 0 <= k < goals.len() && goals[k] == Goal::Block(q);
        assert(all[k] == Next::Block(q));
    }
    if all.contains(Next::Block(q)) {
        let k = choose|k: int| 0 <= k < all.len() && all[k] == Next::Block(q);
        assert(goals[k] == Goal::Block(q));
    }
}

/// Where the plan of a block goes, control can go.
proof fn lemma_goes_where_control_goes(
    f: FunctionModel,
    sig: ResolvedSig,
    sigs: Map<Seq<char>, ResolvedSig>,
    p: usize,
    bp: BlockPlan,
)
    requires
        f.blocks.contains_key(p),
        ({
            let block = f.blocks[p];
            let deltas = sig_deltas(sigs);
            &&& all_come_through(block.code, deltas) ==> (ending_goals(bp.ending) == nexts(
                block.terminator,
            ).map_values(|next: Next| goal_of(next)) || (bp.ending is TailCall && block.terminator
                == TerminatorModel::Jump(Next::Terminate)))
            &&& all_come_through(block.code, deltas) && !(bp.ending is TailCall) ==> ending_args(
                bp.ending,
            ).len() == bp.params + gain(block, deltas)
            &&& !all_come_through(block.code, deltas) ==> forall|q: usize|
                !#[trigger] goes_to(bp.ending, q)
        }),
    ensures
        forall|q: usize| #[trigger]
            goes_to(bp.ending, q) ==> live_step(f, sig_deltas(sigs), p, q) && ending_args(
                bp.ending,
            ).len() == bp.params + gain(f.blocks[p], sig_deltas(sigs)),
        forall|q: usize| #[trigger]
            live_step(f, sig_deltas(sigs), p, q) ==> goes_to(bp.ending, q) && ending_args(
                bp.ending,
            ).len() == bp.params + gain(f.blocks[p], sig_deltas(sigs)),
{
    let block = f.blocks[p];
    let deltas = sig_deltas(sigs);
    assert forall|q: usize| #[trigger] goes_to(bp.ending, q) implies live_step(f, deltas, p, q)
        && ending_args(bp.ending).len() == bp.params + gain(block, deltas) by {
        lemma_goal_is_next(block.terminator, q);
    }
    assert forall|q: usize| #[trigger] live_step(f, deltas, p, q) implies goes_to(bp.ending, q)
        && ending_args(bp.ending).len() == bp.params + gain(block, deltas) by {
        lemma_goal_is_next(block.terminator, q);
        if bp.ending is TailCall && block.terminator == TerminatorModel::Jump(Next::Terminate) {
            assert(nexts(block.terminator) =~= seq![Next::Terminate]);
            let k = choose|k: int|
                0 <= k < nexts(block.terminator).len() && nexts(block.terminator)[k] == Next::Block(
                    q,
                );
            assert(false);
        }
    }
}

/// One block more is compiled.
proof fn lemma_underway_more(
    f: FunctionModel,
    sig: ResolvedSig,
    sigs: Map<Seq<char>, ResolvedSig>,
    known: Known,
    pos: usize,
    counts: Map<usize, usize>,
    counts2: Map<usize, usize>,
    blocks: Map<usize, BlockPlan>,
    bp: BlockPlan,
)
    requires
        underway(f, sig, sigs, known, pos as int, counts, blocks),
        counts.contains_key(pos),
        bp.params == counts[pos],
        block_fits(bp, f.blocks[pos], Some(sig), sigs),
        goals_fit(bp.ending, f, pos as int, Some(sig), known),
        forall|q: usize| #[trigger]
            goes_to(bp.ending, q) ==> live_step(f, sig_deltas(sigs), pos, q) && ending_args(
                bp.ending,
            ).len() == bp.params + gain(f.blocks[pos], sig_deltas(sigs)),
        forall|q: usize| #[trigger]
            live_step(f, sig_deltas(sigs), pos, q) ==> goes_to(bp.ending, q) && ending_args(
                bp.ending,
            ).len() == bp.params + gain(f.blocks[pos], sig_deltas(sigs)),
        forall|q: usize| #[trigger]
            counts.contains_key(q) ==> counts2.contains_key(q) && counts2[q] == counts[q],
        forall|q: usize| #[trigger]
            counts2.contains_key(q) && !counts.contains_key(q) ==> goes_to(bp.ending, q)
                && counts2[q] == ending_args(bp.ending).len(),
        forall|q: usize| #[trigger]
            goes_to(bp.ending, q) ==> counts2.contains_key(q) && counts2[q] == ending_args(
                bp.ending,
            ).len(),
    ensures
        underway(f, sig, sigs, known, pos + 1, counts2, blocks.insert(pos, bp)),
{
    let deltas = sig_deltas(sigs);
    let blocks2 = blocks.insert(pos, bp);
    assert forall|q: usize| #[trigger] goes_to(bp.ending, q) implies pos < q < f.length
        && f.blocks.contains_key(q) && enterable(
        f,
        q as int,
        ending_args(bp.ending).len(),
        sig,
        known,
    ) by {
        let goals = ending_goals(bp.ending);
        let k = choose|k: int| 0 <= k < goals.len() && goals[k] == Goal::Block(q);
        assert(goals[k] == Goal::Block(q));
    }
    assert forall|q: usize| #[trigger] counts2.contains_key(q) implies q < f.length
        && f.blocks.contains_key(q) && enterable(f, q as int, counts2[q] as nat, sig, known) && led_to(
        f,
        deltas,
        sig.reach as int,
        q,
        counts2[q] as int,
    ) by {
        if !counts.contains_key(q) {
            assert(goes_to(bp.ending, q));
            assert(led_to(f, deltas, sig.reach as int, pos, counts[pos] as int));
            let trail = choose|trail: Seq<usize>| #[trigger]
                is_trail(f, deltas, trail) && trail.last() == pos && sig.reach + trail_height(
                    f,
                    deltas,
                    trail,
                ) == counts[pos];
            lemma_trail_more(f, deltas, trail, q);
            assert(trail.push(q).last() == q);
        }
    }
    assert forall|p: usize| #[trigger] blocks2.contains_key(p) <==> p < pos + 1
        && counts2.contains_key(p) by {
        if p < pos && counts2.contains_key(p) && !counts.contains_key(p) {
            assert(goes_to(bp.ending, p));
        }
        assert(blocks.contains_key(p) <==> p < pos && counts.contains_key(p));
    }
    assert forall|p: usize| #[trigger] blocks2.contains_key(p) implies blocks2[p].params
        == counts2[p] && block_fits(blocks2[p], f.blocks[p], Some(sig), sigs) && leads_on(
        f,
        deltas,
        counts2,
        blocks2,
        p,
    ) by {
        if p != pos {
            assert(blocks.contains_key(p));
            assert(counts.contains_key(p));
            assert(leads_on(f, deltas, counts, blocks, p));
        }
    }
}

/// A second way on which the stack has grown differently.
proof fn lemma_conflict(
    f: FunctionModel,
    sig: ResolvedSig,
    sigs: Map<Seq<char>, ResolvedSig>,
    known: Known,
    pos: usize,
    counts: Map<usize, usize>,
    blocks: Map<usize, BlockPlan>,
    q: usize,
)
    requires
        underway(f, sig, sigs, known, pos as int, counts, blocks),
        counts.contains_key(pos),
        counts.contains_key(q),
        live_step(f, sig_deltas(sigs), pos, q),
        counts[q] != counts[pos] + gain(f.blocks[pos], sig_deltas(sigs)),
    ensures
        conflicting(f, sig_deltas(sigs)),
{
    let deltas = sig_deltas(sigs);
    assert(led_to(f, deltas, sig.reach as int, pos, counts[pos] as int));
    assert(led_to(f, deltas, sig.reach as int, q, counts[q] as int));
    let a = choose|trail: Seq<usize>| #[trigger]
        is_trail(f, deltas, trail) && trail.last() == pos && sig.reach + trail_height(
            f,
            deltas,
            trail,
        ) == counts[pos];
    let b = choose|trail: Seq<usize>| #[trigger]
        is_trail(f, deltas, trail) && trail.last() == q && sig.reach + trail_height(
            f,
            deltas,
            trail,
        ) == counts[q];
    lemma_trail_more(f, deltas, a, q);
    assert(is_trail(f, deltas, a.push(q)) && is_trail(f, deltas, b));
    assert(a.push(q).last() == b.last());
}

/// Once all blocks are compiled, every way leads to a block with the values that are noted for it.
proof fn lemma_every_trail(
    f: FunctionModel,
    sig: ResolvedSig,
    sigs: Map<Seq<char>, ResolvedSig>,
    known: Known,
    counts: Map<usize, usize>,
    blocks: Map<usize, BlockPlan>,
    trail: Seq<usize>,
)
    requires
        f.length > 0,
        underway(f, sig, sigs, known, f.length as int, counts, blocks),
        is_trail(f, sig_deltas(sigs), trail),
    ensures
        counts.contains_key(trail.last()),
        counts[trail.last()] == sig.reach + trail_height(f, sig_deltas(sigs), trail),
    decreases trail.len(),
{
    let deltas = sig_deltas(sigs);
    if trail.len() > 1 {
        let shorter = trail.drop_last();
        assert(is_trail(f, deltas, shorter)) by {
            assert forall|i: int| 0 <= i < shorter.len() - 1 implies #[trigger] steps_on(
                f,
                deltas,
                shorter,
                i,
            ) by {
                assert(steps_on(f, deltas, trail, i));
            }
        }
        lemma_every_trail(f, sig, sigs, known, counts, blocks, shorter);
        let p = shorter.last();
        assert(p == trail[trail.len() - 2]);
        assert(steps_on(f, deltas, trail, trail.len() - 2));
        assert(blocks.contains_key(p));
        assert(leads_on(f, deltas, counts, blocks, p));
    }
}

/// Compiles a function with a signature.
pub(crate) fn compile_with_signature(
    f: &Function,
    sig: ResolvedSig,
    sigs: &NameMap<ResolvedSig>,
    known: Ghost<Known>,
) -> (r: Result<FunctionPlan, JITError>)
    requires
        goes_forward(f@),
        sigs.wf(),
        compilable(f@, Some(sig), sigs@, known@),
    ensures
        r matches Ok(plan) ==> plan_fits(plan, f@, Some(sig), sigs@) && all_end_as_said(
            plan.blocks@,
            f@,
            Some(sig),
            sigs@,
        ),
        r is Err <==> conflicting(f@, sig_deltas(sigs@)),
        r matches Err(e) ==> e is IndeterminateControlFlow,
{
    let ghost model = f@;
    let ghost deltas = sig_deltas(sigs@);
    let mut blocks: BTreeMap<usize, BlockPlan> = BTreeMap::new();
    let mut counts: BTreeMap<usize, usize> = BTreeMap::new();
    if f.length > 0 {
        counts.insert(0, sig.reach);
    }
    proof {
        let trail = seq![0usize];
        assert(is_trail(model, deltas, trail));
        assert(trail_height(model, deltas, trail) == 0);
        assert(trail.last() == 0);
        assert(led_to(model, deltas, sig.reach as int, 0, sig.reach as int));
        if model.length > 0 {
            assert(path_delta(model, 0, known@.deltas) == Some(sig_delta(sig)));
            assert(path_reach(model, 0, known@) == Reach::Num(sig.reach));
            assert(enterable(model, 0, sig.reach as nat, sig, known@));
        }
    }
    let mut pos: usize = 0;
    while pos < f.length
        invariant
            model == f@,
            deltas == sig_deltas(sigs@),
            goes_forward(model),
            sigs.wf(),
            compilable(model, Some(sig), sigs@, known@),
            pos <= f.length,
            underway(model, sig, sigs@, known@, pos as int, counts@, blocks@),
            all_end_as_said(blocks@, model, Some(sig), sigs@),
        decreases f.length - pos,
    {
        let ghost old_counts = counts@;
        let ghost old_blocks = blocks@;
        match (counts.get(&pos), f.blocks.get(&pos)) {
            (Some(count), Some(block)) => {
                let params = *count;
                assert(model.blocks[pos] == block@);
                let bp = compile_block(
                    block,
                    params,
                    sigs,
                    Some(sig),
                    Ghost(model),
                    Ghost(pos as int),
                    known,
                );
                proof {
                    lemma_goes_where_control_goes(model, sig, sigs@, pos, bp);
                    assert(block_fits(bp, model.blocks[pos], Some(sig), sigs@)) by {
                        if ending_goals(bp.ending).contains(Goal::Return) {
                            let goals = ending_goals(bp.ending);
                            let k = choose|k: int|
                                0 <= k < goals.len() && goals[k] == Goal::Return;
                            assert(goals[k] == Goal::Return);
                        }
                    }
                }
                if let Some(q) = cache_param_counts(&mut counts, &bp.ending) {
                    proof {
                        lemma_conflict(
                            model,
                            sig,
                            sigs@,
                            known@,
                            pos,
                            old_counts,
                            old_blocks,
                            q,
                        );
                    }
                    return Err(JITError::IndeterminateControlFlow);
                }
                proof {
                    lemma_underway_more(
                        model,
                        sig,
                        sigs@,
                        known@,
                        pos,
                        old_counts,
                        counts@,
                        old_blocks,
                        bp,
                    );
                }
                blocks.insert(pos, bp);
            },
            _ => {
                assert(!old_counts.contains_key(pos));
            },
        }
        pos = pos + 1;
    }
    let length = f.length;
    let plan = FunctionPlan { signature: Some(sig), blocks, length };
    proof {
        assert forall|p: usize| #[trigger]
            plan.blocks@.contains_key(p) implies model.blocks.contains_key(p) && block_fits(
            plan.blocks@[p],
            model.blocks[p],
            Some(sig),
            sigs@,
        ) && blocks_connect(plan, p) by {
            assert(counts@.contains_key(p));
            assert(leads_on(model, deltas, counts@, blocks@, p));
            assert forall|q: usize| #[trigger]
                goes_to(plan.blocks@[p].ending, q) implies p < q < plan.length
                && plan.blocks@.contains_key(q) && plan.blocks@[q].params == ending_args(
                plan.blocks@[p].ending,
            ).len() by {
                assert(counts@.contains_key(q));
            }
        }
        if model.length > 0 {
            assert(counts@.contains_key(0));
            assert(blocks@.contains_key(0));
        }
        if conflicting(model, deltas) {
            let (a, b) = choose|a: Seq<usize>, b: Seq<usize>| #[trigger]
                is_trail(model, deltas, a) && #[trigger] is_trail(model, deltas, b) && a.last()
                    == b.last() && trail_height(model, deltas, a) != trail_height(
                    model,
                    deltas,
                    b,
                );
            if model.length > 0 {
                lemma_every_trail(model, sig, sigs@, known@, counts@, blocks@, a);
                lemma_every_trail(model, sig, sigs@, known@, counts@, blocks@, b);
            } else {
                lemma_no_trail(model, deltas, a);
                lemma_no_trail(model, deltas, b);
            }
            assert(false);
        }
    }
    Ok(plan)
}

/// In a function without blocks there is nowhere to go.
proof fn lemma_no_trail(f: FunctionModel, deltas: Map<Seq<char>, Delta>, trail: Seq<usize>)
    requires
        goes_forward(f),
        f.length == 0,
        is_trail(f, deltas, trail),
    ensures
        trail_height(f, deltas, trail) == 0,
{
    if trail.len() > 1 {
        assert(steps_on(f, deltas, trail, 0));
        assert(f.blocks.contains_key(trail[0]));
    }
}

/// Compiles a function without a signature.
pub(crate) fn compile_without_signature(
    f: &Function,
    sigs: &NameMap<ResolvedSig>,
    known: Ghost<Known>,
) -> (r: FunctionPlan)
    requires
        goes_forward(f@),
        sigs.wf(),
        sigs_match(sigs@, known@),
    ensures
        plan_fits(r, f@, None, sigs@),
        all_end_as_said(r.blocks@, f@, None, sigs@),
{
    let ghost model = f@;
    let mut blocks: BTreeMap<usize, BlockPlan> = BTreeMap::new();
    let mut pos: usize = 0;
    while pos < f.length
        invariant
            model == f@,
            goes_forward(model),
            sigs.wf(),
            sigs_match(sigs@, known@),
            pos <= f.length,
            forall|p: usize| #[trigger]
                blocks@.contains_key(p) <==> p < pos && model.blocks.contains_key(p),
            forall|p: usize| #[trigger]
                blocks@.contains_key(p) ==> block_fits(
                    blocks@[p],
                    model.blocks[p],
                    None,
                    sigs@,
                ) && goals_fit(blocks@[p].ending, model, p as int, None, known@),
            all_end_as_said(blocks@, model, None, sigs@),
        decreases f.length - pos,
    {
        let ghost old_blocks = blocks@;
        if let Some(block) = f.blocks.get(&pos) {
            assert(model.blocks.contains_key(pos));
            assert(model.blocks[pos] == block@);
            let bp = compile_block(
                block,
                0,
                sigs,
                None,
                Ghost(model),
                Ghost(pos as int),
                known,
            );
            blocks.insert(pos, bp);
            assert forall|p: usize| #[trigger] blocks@.contains_key(p) implies block_fits(
                blocks@[p],
                model.blocks[p],
                None,
                sigs@,
            ) && goals_fit(blocks@[p].ending, model, p as int, None, known@) by {
                if p != pos {
                    assert(old_blocks.contains_key(p));
                }
            }
        } else {
            assert(!model.blocks.contains_key(pos));
        }
        assert forall|p: usize| #[trigger] blocks@.contains_key(p) <==> p < pos + 1
            && model.blocks.contains_key(p) by {
            assert(old_blocks.contains_key(p) <==> p < pos && model.blocks.contains_key(p));
        }
        pos = pos + 1;
    }
    let length = f.length;
    let plan = FunctionPlan { signature: None, blocks, length };
    proof {
        assert forall|p: usize| #[trigger] plan.blocks@.contains_key(p) implies blocks_connect(
            plan,
            p,
        ) by {
            assert(goals_fit(blocks@[p].ending, model, p as int, None, known@));
            assert forall|q: usize| #[trigger]
                goes_to(plan.blocks@[p].ending, q) implies p < q < plan.length
                && plan.blocks@.contains_key(q) && plan.blocks@[q].params == ending_args(
                plan.blocks@[p].ending,
            ).len() by {
                let goals = ending_goals(blocks@[p].ending);
                let k = choose|k: int| 0 <= k < goals.len() && goals[k] == Goal::Block(q);
                assert(goals[k] == Goal::Block(q));
                assert(model.blocks.contains_key(q));
                assert(blocks@.contains_key(q));
            }
        }
    }
    plan
}

/// A plan that works on the stack, calls a function and goes back to its caller, and what it is a
/// plan of.
pub(crate) fn wrap(name: &String, sigs: &NameMap<ResolvedSig>, known: Ghost<Known>) -> (r: (
    FunctionPlan,
    Ghost<FunctionModel>,
))
    requires
        sigs.wf(),
        sigs_match(sigs@, known@),
    ensures
        plan_fits(r.0, r.1@, None, sigs@),
        r.1@.length == 1,
        r.1@.blocks.contains_key(0),
        r.1@.blocks[0].code == seq![BasicBlockInstr::FunctionCall(*name)],
        r.1@.blocks[0].terminator == TerminatorModel::Jump(Next::Terminate),
        forall|p: usize| #[trigger]
            r.0.blocks@.contains_key(p) ==> r.0.blocks@[p].ending is Goto,
{
    let ghost instr = BasicBlockInstr::FunctionCall(*name);
    let ghost block = BlockModel {
        code: seq![instr],
        terminator: TerminatorModel::Jump(Next::Terminate),
    };
    let ghost f = FunctionModel { blocks: Map::empty().insert(0usize, block), length: 1 };
    let mut e = Emitter::new(0, true);
    proof {
        lemma_simulates_start(e, block.code, sigs@);
    }
    let ghost e1 = e;
    let after = emit_function_call(&mut e, name, sigs, false, None, known);
    proof {
        assert(block.code[0] == instr);
        lemma_simulates_more(e1, e, block.code, 0, sigs@);
    }
    let terminator = Terminator::Jump(Next::Terminate);
    let bp = finish(e, &terminator, Ghost(block), Ghost(sigs@));
    let mut blocks: BTreeMap<usize, BlockPlan> = BTreeMap::new();
    blocks.insert(0, bp);
    let plan = FunctionPlan { signature: None, blocks, length: 1 };
    proof {
        let goals = ending_goals(bp.ending);
        assert(goals.len() == nexts(terminator@).len());
        assert(nexts(terminator@) == seq![Next::Terminate]);
        assert(goals[0] == Goal::Return);
        assert(goals == seq![Goal::Return]);
        assert forall|q: usize| !#[trigger] goes_to(bp.ending, q) by {
            if goals.contains(Goal::Block(q)) {
                let k = goals.index_of(Goal::Block(q));
                assert(goals[k] == Goal::Block(q));
            }
        }
    }
    (plan, Ghost(f))
}

} // verus!
