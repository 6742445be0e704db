//! A compiled program does what the program does.
use vstd::prelude::*;

#[allow(unused_imports)]
use crate::jit::analysis::{program_graphs, returned, signatures, solved, ResolvedSig};
#[allow(unused_imports)]
use crate::jit::cfg::{run_graph, run_next, run_path, FunctionModel, Next};
#[allow(unused_imports)]
use crate::jit::compile::{
    arrives, block_fits, blocks_connect, ending_args, ending_goals, enters, goes_to, plan_fits,
    start_frame, whole,
};
#[allow(unused_imports)]
use crate::jit::delta::Delta;
#[allow(unused_imports)]
use crate::jit::emit::{same_unless_astray, sig_delta, stands_for};
#[allow(unused_imports)]
use crate::jit::plan::{
    run_block, run_goal, run_ops, run_plan, value_of, values_of, Ending, Frame, FunctionPlan, Goal,
    Machine, Ran,
};
#[allow(unused_imports)]
use crate::jit::reach::{Known, Reach};
#[allow(unused_imports)]
use crate::jit::sound::{
    call_function, call_holds, law_signatures_hold, lemma_call_runs_graph, program,
};
#[allow(unused_imports)]
use crate::semantics::{below, run_from, top, Effect, Outcome, Surroundings, World};
#[allow(unused_imports)]
use crate::types::{Code, Value};

verus! {

/// Whether compiled code that comes out as `c` has done what interpreted code that comes out as `o`
/// has. It gets lost only where that goes astray. A function with a signature never gets lost, and leaves
/// as many results as the signature says.
pub open spec fn refines(o: Outcome, c: Option<Outcome>, own: Option<ResolvedSig>) -> bool {
    &&& match c {
        Some(oc) => same_unless_astray(o, oc),
        None => o is Astray,
    }
    &&& own matches Some(sig) ==> c is Some && (c->0 matches Outcome::Done(w) ==> w.stack.len()
        == returned(sig))
}

/// From a block on, a plan does what the function does.
proof fn lemma_block_refines(
    plan: FunctionPlan,
    f: FunctionModel,
    own: Option<ResolvedSig>,
    sigs: Map<Seq<char>, ResolvedSig>,
    pos: int,
    values: Seq<Value>,
    world: World,
    env: Surroundings,
    machine: Machine,
)
    requires
        plan_fits(plan, f, own, sigs),
        stands_for(env, machine, sigs),
        0 <= pos < plan.length,
        plan.blocks@.contains_key(pos as usize),
        enters(values, world, plan.blocks@[pos as usize].params as nat, own is None),
    ensures
        refines(
            run_path(f, pos, whole(values, world), env),
            run_block(plan, pos, values, world, machine),
            own,
        ),
    decreases plan.length - pos, 1int,
{
    let p = pos as usize;
    let bp = plan.blocks@[p];
    let block = f.blocks[p];
    let start = start_frame(values, world);
    assert(block_fits(bp, block, own, sigs) && blocks_connect(plan, p));
    let o = run_from(block.code, 0, whole(values, world), env);
    let ran = run_ops(bp.ops@, start, machine);
    assert(start == Frame { params: values, results: Seq::empty(), world });
    if let Ran::On(fr) = ran {
        let args = values_of(ending_args(bp.ending), fr);
        match bp.ending {
            Ending::Goto { goal, args: regs } => {
                assert(ending_goals(bp.ending)[0] == goal);
                lemma_goal_refines(plan, f, own, sigs, pos, goal, args, fr.world, env, machine);
            },
            Ending::Branch { cond, on_true, on_false, args: regs } => {
                assert(ending_goals(bp.ending)[0] == on_true);
                assert(ending_goals(bp.ending)[1] == on_false);
                let goal = if value_of(cond, fr) == 0 {
                    on_false
                } else {
                    on_true
                };
                lemma_goal_refines(plan, f, own, sigs, pos, goal, args, fr.world, env, machine);
            },
            Ending::Switch { index, goals, args: regs } => {
                let k = value_of(index, fr) as int;
                if 0 <= k < goals@.len() {
                    assert(ending_goals(bp.ending)[k] == goals@[k]);
                    lemma_goal_refines(
                        plan,
                        f,
                        own,
                        sigs,
                        pos,
                        goals@[k],
                        args,
                        fr.world,
                        env,
                        machine,
                    );
                }
            },
            Ending::TailCall { callee, args: regs } => {
                assert((machine.call)(callee@, values_of(regs@, fr), fr.world.log) is Some);
            },
            Ending::TailCallStack(callee) => {},
        }
    }
}

/// From a goal on, a plan does what the function does.
proof fn lemma_goal_refines(
    plan: FunctionPlan,
    f: FunctionModel,
    own: Option<ResolvedSig>,
    sigs: Map<Seq<char>, ResolvedSig>,
    pos: int,
    goal: Goal,
    args: Seq<Value>,
    world: World,
    env: Surroundings,
    machine: Machine,
)
    requires
        plan_fits(plan, f, own, sigs),
        stands_for(env, machine, sigs),
        0 <= pos < plan.length,
        plan.blocks@.contains_key(pos as usize),
        ending_goals(plan.blocks@[pos as usize].ending).contains(goal),
        args.len() == ending_args(plan.blocks@[pos as usize].ending).len(),
        own is Some ==> world.stack.len() == 0,
    ensures
        refines(
            Outcome::Astray(world.log),
            run_goal(plan, pos, goal, args, world, machine),
            own,
        ),
        forall|next: Next, w: World| #[trigger]
            arrives(goal, args, world, next, w) ==> refines(
                run_next(f, pos, next, w, env),
                run_goal(plan, pos, goal, args, world, machine),
                own,
            ),
    decreases plan.length - pos, 0int,
{
    let p = pos as usize;
    let bp = plan.blocks@[p];
    assert(block_fits(bp, f.blocks[p], own, sigs) && blocks_connect(plan, p));
    match goal {
        Goal::Trap(_) => {},
        Goal::Return => {
            assert forall|next: Next, w: World| #[trigger]
                arrives(goal, args, world, next, w) implies refines(
                run_next(f, pos, next, w, env),
                run_goal(plan, pos, goal, args, world, machine),
                own,
            ) by {
                if own is Some {
                    assert(w.stack =~= args);
                } else {
                    assert(w.stack =~= world.stack);
                }
            }
        },
        Goal::Block(q) => {
            assert(goes_to(bp.ending, q));
            lemma_block_refines(plan, f, own, sigs, q as int, args, world, env, machine);
        },
    }
}

/// From a block on, a plan fails just where the block does: at a trap, at arithmetic without a
/// result, and at a computed skip whose distance is that of no target. For any other distance it
/// goes on where the target is.
pub proof fn law_block_fails_alike(
    plan: FunctionPlan,
    f: FunctionModel,
    own: Option<ResolvedSig>,
    sigs: Map<Seq<char>, ResolvedSig>,
    pos: int,
    values: Seq<Value>,
    world: World,
    env: Surroundings,
    machine: Machine,
)
    requires
        plan_fits(plan, f, own, sigs),
        stands_for(env, machine, sigs),
        0 <= pos < plan.length,
        plan.blocks@.contains_key(pos as usize),
        enters(values, world, plan.blocks@[pos as usize].params as nat, own is None),
    ensures
        ({
            let block = f.blocks[pos as usize];
            let c = run_block(plan, pos, values, world, machine);
            match run_from(block.code, 0, whole(values, world), env) {
                Outcome::Failed(log) => c == Some(Outcome::Failed(log)),
                Outcome::Stopped(log) => c == Some(Outcome::Stopped(log)),
                Outcome::Done(w) => block.terminator is Skip && w.stack.len() > 0 ==> {
                    let targets = block.terminator->Skip_targets;
                    let n = top(w.stack, 1);
                    let popped = World { stack: below(w.stack, 1), log: w.log };
                    if 0 <= n < targets.len() {
                        refines(run_next(f, pos, targets[n as int], popped, env), c, own)
                    } else {
                        c == Some(Outcome::Failed(w.log))
                    }
                },
                _ => true,
            }
        }),
{
    assert(block_fits(plan.blocks@[pos as usize], f.blocks[pos as usize], own, sigs));
    lemma_block_refines(plan, f, own, sigs, pos, values, world, env, machine);
}

/// A plan of a function does what the control flow graph of the function does, except that it does
/// not look whether operands are there and suit an instruction. If the function has a signature, the plan finds all the values that it looks
/// at among its arguments, and leaves as many results as the signature says.
pub proof fn law_plan_runs_like_graph(
    plan: FunctionPlan,
    f: FunctionModel,
    own: Option<ResolvedSig>,
    sigs: Map<Seq<char>, ResolvedSig>,
    args: Seq<Value>,
    world: World,
    env: Surroundings,
    machine: Machine,
)
    requires
        plan_fits(plan, f, own, sigs),
        stands_for(env, machine, sigs),
        own matches Some(sig) ==> enters(args, world, sig.reach as nat, false),
        own is None ==> enters(args, world, 0, true),
    ensures
        refines(
            run_graph(f, whole(args, world), env),
            run_plan(plan, args, world, machine),
            own,
        ),
{
    if f.length > 0 {
        assert(block_fits(plan.blocks@[0], f.blocks[0], own, sigs));
        lemma_block_refines(plan, f, own, sigs, 0, args, world, env, machine);
    } else {
        assert(world.stack + args =~= if own is Some {
            args
        } else {
            world.stack
        });
    }
}

/// A call of a function of a compiled program, in which calls may be nested up to the given depth. A
/// call of a function that is not there fails.
pub open spec fn call_plan(
    plans: Map<Seq<char>, FunctionPlan>,
    reply: spec_fn(Seq<Effect>) -> Value,
    depth: nat,
    name: Seq<char>,
    args: Seq<Value>,
    world: World,
) -> Option<Outcome>
    decreases depth, 0int,
{
    if !plans.contains_key(name) {
        Some(Outcome::Failed(world.log))
    } else if depth == 0 {
        Some(Outcome::Unfinished)
    } else {
        run_plan(plans[name], args, world, compiled_program(plans, reply, (depth - 1) as nat))
    }
}

/// Whether a name is that of a function that takes so many values as arguments.
pub open spec fn takes_values(
    plans: Map<Seq<char>, FunctionPlan>,
    name: Seq<char>,
    count: nat,
) -> bool {
    &&& plans.contains_key(name)
    &&& plans[name].signature matches Some(sig)
    &&& sig.reach == count
}

/// Whether a name is that of a function that works on the stack, or of none.
pub open spec fn works_on_stack(plans: Map<Seq<char>, FunctionPlan>, name: Seq<char>) -> bool {
    plans.contains_key(name) ==> plans[name].signature is None
}

/// What compiled functions meet when calls may be nested up to the given depth. A call that does
/// not suit the function gets lost.
pub open spec fn compiled_program(
    plans: Map<Seq<char>, FunctionPlan>,
    reply: spec_fn(Seq<Effect>) -> Value,
    depth: nat,
) -> Machine
    decreases depth, 1int,
{
    Machine {
        reply,
        call: |name: Seq<char>, args: Seq<Value>, log: Seq<Effect>|
            if takes_values(plans, name, args.len()) {
                call_plan(plans, reply, depth, name, args, World { stack: Seq::empty(), log })
            } else {
                None
            },
        call_stack: |name: Seq<char>, w: World|
            if works_on_stack(plans, name) {
                call_plan(plans, reply, depth, name, Seq::empty(), w)
            } else {
                None
            },
    }
}

/// What a map holds under a name.
pub open spec fn under<T>(m: Map<Seq<char>, T>, name: Seq<char>) -> Option<T> {
    if m.contains_key(name) {
        Some(m[name])
    } else {
        None
    }
}

/// Whether there are plans that fit for all the functions of a program.
pub open spec fn plans_fit(
    plans: Map<Seq<char>, FunctionPlan>,
    funcs: Map<Seq<char>, Code>,
    sigs: Map<Seq<char>, ResolvedSig>,
) -> bool {
    &&& plans.dom() == funcs.dom()
    &&& forall|name: Seq<char>| #[trigger]
        plans.contains_key(name) ==> plan_fits(
            plans[name],
            program_graphs(funcs)[name],
            under(sigs, name),
            sigs,
        )
}

/// One call of a compiled function does what the function does, if the calls in it do.
proof fn lemma_call_refines(
    plans: Map<Seq<char>, FunctionPlan>,
    funcs: Map<Seq<char>, Code>,
    sigs: Map<Seq<char>, ResolvedSig>,
    reply: spec_fn(Seq<Effect>) -> Value,
    depth: nat,
    name: Seq<char>,
    args: Seq<Value>,
    world: World,
)
    requires
        plans_fit(plans, funcs, sigs),
        funcs.contains_key(name),
        depth > 0 ==> stands_for(
            program(funcs, sigs, reply, (depth - 1) as nat),
            compiled_program(plans, reply, (depth - 1) as nat),
            sigs,
        ),
        sigs.contains_key(name) ==> enters(args, world, sigs[name].reach as nat, false),
        !sigs.contains_key(name) ==> enters(args, world, 0, true),
    ensures
        refines(
            call_function(funcs, sigs, reply, depth, name, whole(args, world)),
            call_plan(plans, reply, depth, name, args, world),
            under(sigs, name),
        ),
{
    assert(plans.dom().contains(name));
    if depth > 0 {
        lemma_call_runs_graph(funcs, sigs, reply, depth, name, whole(args, world));
        law_plan_runs_like_graph(
            plans[name],
            program_graphs(funcs)[name],
            under(sigs, name),
            sigs,
            args,
            world,
            program(funcs, sigs, reply, (depth - 1) as nat),
            compiled_program(plans, reply, (depth - 1) as nat),
        );
    }
}

/// However deep the calls of a program are nested, the compiled program stands for it: every
/// function with a signature takes the arguments and leaves the results that the signature says,
/// and every function does to the stack and to the world what the interpreted function does, unless
/// that one goes astray or calls a function with fewer values on the stack than the signature
/// says.
pub proof fn law_compiled_program_runs_like_program(
    names: Seq<Seq<char>>,
    funcs: Map<Seq<char>, Code>,
    deltas: Map<Seq<char>, Delta>,
    reaches: Map<Seq<char>, Reach>,
    plans: Map<Seq<char>, FunctionPlan>,
    reply: spec_fn(Seq<Effect>) -> Value,
    depth: nat,
)
    requires
        solved(names, funcs, deltas, reaches),
        names.len() <= usize::MAX,
        forall|x: Seq<char>| #[trigger] funcs.contains_key(x) ==> names.contains(x),
        plans_fit(plans, funcs, signatures(deltas, reaches)),
    ensures
        stands_for(
            program(funcs, signatures(deltas, reaches), reply, depth),
            compiled_program(plans, reply, depth),
            signatures(deltas, reaches),
        ),
    decreases depth,
{
    let sigs = signatures(deltas, reaches);
    let known = Known { deltas, reaches };
    let env = program(funcs, sigs, reply, depth);
    let machine = compiled_program(plans, reply, depth);
    if depth > 0 {
        law_compiled_program_runs_like_program(
            names,
            funcs,
            deltas,
            reaches,
            plans,
            reply,
            (depth - 1) as nat,
        );
    }
    law_signatures_hold(names, funcs, deltas, reaches, sigs, reply, depth);
    assert forall|name: Seq<char>| #[trigger] sigs.contains_key(name) implies call_holds(
        env.call,
        name,
        sig_delta(sigs[name]),
        sigs[name].reach,
    ) by {
        assert(reaches.dom().contains(name)) by {
            assert(deltas.dom().contains(name));
        }
        assert(known.deltas.contains_key(name) && known.reaches.contains_key(name));
    }
    assert forall|name: Seq<char>, args: Seq<Value>, log: Seq<Effect>|
        sigs.contains_key(name) && args.len() == sigs[name].reach implies {
        &&& #[trigger] (machine.call)(name, args, log) is Some
        &&& same_unless_astray(
            (env.call)(name, World { stack: args, log }),
            (machine.call)(name, args, log)->0,
        )
        &&& (machine.call)(name, args, log)->0 matches Outcome::Done(w) ==> w.stack.len()
            == returned(sigs[name])
    } by {
        let world = World { stack: Seq::empty(), log };
        assert(deltas.dom().contains(name));
        assert(funcs.contains_key(name));
        assert(whole(args, world).stack =~= args);
        assert(plans.dom().contains(name));
        assert(takes_values(plans, name, args.len()));
        assert((machine.call)(name, args, log) == call_plan(
            plans,
            reply,
            depth,
            name,
            args,
            world,
        ));
        assert((env.call)(name, World { stack: args, log }) == call_function(
            funcs,
            sigs,
            reply,
            depth,
            name,
            World { stack: args, log },
        ));
        lemma_call_refines(plans, funcs, sigs, reply, depth, name, args, world);
    }
    assert forall|name: Seq<char>, w: World|
        sigs.contains_key(name) && w.stack.len() < sigs[name].reach implies (#[trigger] (env.call)(
        name,
        w,
    )) is Astray by {
        assert((env.call)(name, w) == call_function(funcs, sigs, reply, depth, name, w));
    }
    assert forall|name: Seq<char>, w: World| !sigs.contains_key(name) implies match #[trigger] (
    machine.call_stack)(name, w) {
        Some(c) => same_unless_astray((env.call)(name, w), c),
        None => (env.call)(name, w) is Astray,
    } by {
        assert((env.call)(name, w) == call_function(funcs, sigs, reply, depth, name, w));
        assert(plans.dom().contains(name) == funcs.dom().contains(name));
        if funcs.contains_key(name) {
            assert(works_on_stack(plans, name));
            assert((machine.call_stack)(name, w) == call_plan(
                plans,
                reply,
                depth,
                name,
                Seq::empty(),
                w,
            ));
            assert(whole(Seq::empty(), w).stack =~= w.stack);
            lemma_call_refines(plans, funcs, sigs, reply, depth, name, Seq::empty(), w);
        }
    }
}

} // verus!
