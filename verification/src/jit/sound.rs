//! Why signatures tell the truth: what a function with a signature can do to a stack.
use vstd::prelude::*;

#[allow(unused_imports)]
use crate::jit::analysis::{
    is_mate, mates, program_graphs, returned, signature, signatures, solved, solved_at, ResolvedSig,
};
#[allow(unused_imports)]
use crate::jit::cfg::{run_graph, run_next, run_path, FunctionModel, Next, TerminatorModel};
#[allow(unused_imports)]
use crate::jit::cfg_laws::{
    law_graph_goes_forward, law_whole_graph_runs_like_body, unknown_calls_fail,
};
#[allow(unused_imports)]
use crate::jit::delta::{
    body_delta, func_delta, instr_delta, lemma_body_delta_is_settled, next_delta, path_delta,
    targets_delta, Delta,
};
#[allow(unused_imports)]
use crate::jit::graph::{call_edges, is_path, leads_to};
#[allow(unused_imports)]
use crate::jit::monotone::{delta_below, reach_below};
#[allow(unused_imports)]
use crate::jit::reach::{
    body_reach, func_reach, instr_reach, leaving_reach, next_reach, path_reach, targets_reach,
    Known, Reach,
};
#[allow(unused_imports)]
use crate::semantics::{
    basic_step, below, perform, run_from, run_instr, run_raw, settle, step, top, without_range,
    Effect, Outcome, Step, Surroundings, World,
};
#[allow(unused_imports)]
use crate::types::{BasicBlockInstr, Code, Instr, MemOp, Value};

verus! {

/// How something comes out on a stack that has `base` under it.
pub open spec fn over(base: Seq<Value>, o: Outcome) -> Outcome {
    match o {
        Outcome::Done(w) => Outcome::Done(World { stack: base + w.stack, log: w.log }),
        other => other,
    }
}

/// Whether something that started on a stack of height `n` ends, if it does, on one that is higher
/// by the delta.
pub open spec fn ends_at(o: Outcome, n: int, delta: Delta) -> bool {
    o matches Outcome::Done(w) ==> delta matches Delta::Num(d) && w.stack.len() == n + d
}

/// Whether calls of a function have the given delta, and look at no more than `reach` values.
pub open spec fn call_holds(
    call: spec_fn(Seq<char>, World) -> Outcome,
    name: Seq<char>,
    delta: Delta,
    reach: usize,
) -> bool {
    &&& forall|base: Seq<Value>, w: World|
        #![trigger call(name, World { stack: base + w.stack, log: w.log })]
        w.stack.len() >= reach ==> call(name, World { stack: base + w.stack, log: w.log }) == over(
            base,
            call(name, w),
        )
    &&& forall|w: World|
        w.stack.len() >= reach ==> ends_at(#[trigger] call(name, w), w.stack.len() as int, delta)
}

/// The same for all functions of which the delta and the reach are known.
pub open spec fn calls_hold(call: spec_fn(Seq<char>, World) -> Outcome, known: Known) -> bool {
    forall|name: Seq<char>| #[trigger]
        known.deltas.contains_key(name) && known.reaches.contains_key(name) && known.reaches[name] is Num
            ==> call_holds(call, name, known.deltas[name], known.reaches[name]->Num_0)
}

proof fn lemma_pushed(base: Seq<Value>, s: Seq<Value>, v: Value)
    ensures
        (base + s).push(v) == base + s.push(v),
{
    assert((base + s).push(v) =~= base + s.push(v));
}

proof fn lemma_popped(base: Seq<Value>, s: Seq<Value>, n: int)
    requires
        0 <= n <= s.len(),
    ensures
        below(base + s, n) == base + below(s, n),
        forall|k: int| 1 <= k <= s.len() ==> #[trigger] top(base + s, k) == top(s, k),
{
    assert(below(base + s, n) =~= base + below(s, n));
}

/// An instruction looks at no more of the stack than its reach, and changes its height by its
/// delta.
pub proof fn law_instruction_holds(
    instr: BasicBlockInstr,
    base: Seq<Value>,
    w: World,
    env: Surroundings,
    known: Known,
)
    requires
        calls_hold(env.call, known),
        instr_delta(instr, known.deltas) is Some,
        instr_reach(instr, known.reaches) is Num,
        w.stack.len() >= instr_reach(instr, known.reaches)->Num_0,
    ensures
        run_instr(instr, World { stack: base + w.stack, log: w.log }, env) == over(
            base,
            run_instr(instr, w, env),
        ),
        ends_at(
            run_instr(instr, w, env),
            w.stack.len() as int,
            instr_delta(instr, known.deltas)->0,
        ),
{
    let s = w.stack;
    let both = base + s;
    match instr {
        BasicBlockInstr::Literal(n) => {
            lemma_pushed(base, s, n);
        },
        BasicBlockInstr::FunctionCall(name) => {
            let text = name@;
            assert(known.deltas.contains_key(text));
            assert(World { stack: s, log: w.log } == w);
            assert(call_holds(
                env.call,
                text,
                known.deltas[text],
                known.reaches[text]->Num_0,
            ));
            assert((env.call)(text, World { stack: base + w.stack, log: w.log }) == over(
                base,
                (env.call)(text, w),
            ));
        },
        BasicBlockInstr::Quit => {},
        BasicBlockInstr::Print => {
            lemma_popped(base, s, 1);
        },
        BasicBlockInstr::Syscall => {
            lemma_popped(base, s, 7);
            lemma_replied(base, w, 7, basic_step(instr, s)->Perform_1, env);
        },
        BasicBlockInstr::Drop => {
            lemma_popped(base, s, 1);
        },
        BasicBlockInstr::Swap => {
            lemma_popped(base, s, 2);
            lemma_pushed(base, below(s, 2), top(s, 1));
            lemma_pushed(base, below(s, 2).push(top(s, 1)), top(s, 2));
        },
        BasicBlockInstr::Rot => {
            lemma_popped(base, s, 3);
            lemma_pushed(base, below(s, 3), top(s, 2));
            lemma_pushed(base, below(s, 3).push(top(s, 2)), top(s, 1));
            lemma_pushed(base, below(s, 3).push(top(s, 2)).push(top(s, 1)), top(s, 3));
        },
        BasicBlockInstr::BadDropRange => {},
        BasicBlockInstr::ResolvedDropRange { start, amt } => {
            if amt <= start {
                lemma_popped(base, s, start as int);
                assert(without_range(both, start as int, amt as int) =~= base + without_range(
                    s,
                    start as int,
                    amt as int,
                ));
            }
        },
        BasicBlockInstr::BadPick => {},
        BasicBlockInstr::ResolvedPick(n) => {
            lemma_popped(base, s, 0);
            if n >= 1 {
                lemma_pushed(base, s, top(s, n as int));
            }
        },
        BasicBlockInstr::Arith(op) => {
            lemma_popped(base, s, 2);
            if let Step::Next(after) = basic_step(instr, s) {
                lemma_pushed(base, below(s, 2), after.last());
            }
        },
        BasicBlockInstr::Mem(MemOp::Read8) => {
            lemma_popped(base, s, 1);
            lemma_replied(base, w, 1, basic_step(instr, s)->Perform_1, env);
        },
        BasicBlockInstr::Mem(MemOp::ReadNative) => {
            lemma_popped(base, s, 1);
            lemma_replied(base, w, 1, basic_step(instr, s)->Perform_1, env);
        },
        BasicBlockInstr::Mem(MemOp::Write8) => {
            lemma_popped(base, s, 2);
        },
        BasicBlockInstr::Mem(MemOp::WriteNative) => {
            lemma_popped(base, s, 2);
        },
        BasicBlockInstr::Mem(MemOp::WidthNative) => {
            lemma_pushed(base, s, crate::types::VALUE_BITS);
        },
        BasicBlockInstr::Trap(_) => {},
    }
}

proof fn lemma_replied(base: Seq<Value>, w: World, n: int, effect: Effect, env: Surroundings)
    requires
        0 <= n <= w.stack.len(),
    ensures
        perform(base + below(w.stack, n), w.log, effect, env).stack == base + perform(
            below(w.stack, n),
            w.log,
            effect,
            env,
        ).stack,
{
    lemma_pushed(base, below(w.stack, n), (env.reply)(w.log.push(effect)));
}

/// The instructions of a block from number `i` on, which a stack reaches whose height was `h` at
/// the start of the block.
proof fn lemma_body_holds(
    code: Seq<BasicBlockInstr>,
    i: int,
    h: int,
    base: Seq<Value>,
    w: World,
    env: Surroundings,
    known: Known,
    rest: Reach,
)
    requires
        calls_hold(env.call, known),
        0 <= i <= code.len(),
        body_delta(code, code.len() as int, known.deltas) is Some,
        body_delta(code, i, known.deltas) matches Some(Delta::Num(a)) && w.stack.len() == h + a,
        body_reach(code, i, rest, known) matches Reach::Num(r) && w.stack.len() >= r,
    ensures
        run_from(code, i, World { stack: base + w.stack, log: w.log }, env) == over(
            base,
            run_from(code, i, w, env),
        ),
        run_from(code, i, w, env) matches Outcome::Done(w2) ==> {
            &&& body_delta(code, code.len() as int, known.deltas) matches Some(Delta::Num(t))
            &&& w2.stack.len() == h + t
            &&& rest matches Reach::Num(rr)
            &&& w2.stack.len() >= rr
        },
    decreases code.len() - i,
{
    if i < code.len() {
        let n = code.len() as int;
        let instr = code[i];
        if !(body_delta(code, i + 1, known.deltas) matches Some(Delta::Num(_))) {
            lemma_body_delta_is_settled(code, i + 1, n, known.deltas);
        }
        assert(instr_delta(instr, known.deltas) is Some);
        assert(instr_reach(instr, known.reaches) is Num);
        law_instruction_holds(instr, base, w, env, known);
        match run_instr(instr, w, env) {
            Outcome::Done(w2) => {
                lemma_body_holds(code, i + 1, h, base, w2, env, known, rest);
            },
            _ => {},
        }
    }
}

/// What holds of several places holds of each of them.
pub proof fn lemma_each_target(f: FunctionModel, pos: int, targets: Seq<Next>, known: Known, k: int)
    requires
        0 <= k < targets.len(),
        targets_delta(f, pos, targets, known.deltas) is Some,
        targets_reach(f, pos, targets, known) is Num,
    ensures
        next_delta(f, pos, targets[k], known.deltas) is Some,
        delta_below(
            next_delta(f, pos, targets[k], known.deltas)->0,
            targets_delta(f, pos, targets, known.deltas)->0,
        ),
        reach_below(
            next_reach(f, pos, targets[k], known),
            targets_reach(f, pos, targets, known),
        ),
    decreases targets.len(),
{
    if k < targets.len() - 1 {
        assert(targets.drop_last()[k] == targets[k]);
        lemma_each_target(f, pos, targets.drop_last(), known, k);
    }
}

/// From a block on, a function looks at no more of the stack than the reach, and changes its height
/// by the delta.
proof fn lemma_path_holds(
    f: FunctionModel,
    pos: int,
    base: Seq<Value>,
    w: World,
    env: Surroundings,
    known: Known,
)
    requires
        calls_hold(env.call, known),
        path_delta(f, pos, known.deltas) is Some,
        path_reach(f, pos, known) matches Reach::Num(r) && w.stack.len() >= r,
    ensures
        run_path(f, pos, World { stack: base + w.stack, log: w.log }, env) == over(
            base,
            run_path(f, pos, w, env),
        ),
        ends_at(
            run_path(f, pos, w, env),
            w.stack.len() as int,
            path_delta(f, pos, known.deltas)->0,
        ),
    decreases f.length - pos, 1int,
{
    let block = f.blocks[pos as usize];
    let rest = leaving_reach(f, pos, block.terminator, known);
    lemma_body_holds(block.code, 0, w.stack.len() as int, base, w, env, known, rest);
    if let Outcome::Done(w2) = run_from(block.code, 0, w, env) {
        let popped = World { stack: below(w2.stack, 1), log: w2.log };
        let both = World { stack: base + w2.stack, log: w2.log };
        match block.terminator {
            TerminatorModel::Jump(next) => {
                lemma_next_holds(f, pos, next, base, w2, env, known);
            },
            TerminatorModel::If { on_true, on_false } => {
                lemma_popped(base, w2.stack, 1);
                assert(top(both.stack, 1) == top(w2.stack, 1));
                if top(w2.stack, 1) == 0 {
                    lemma_next_holds(f, pos, on_false, base, popped, env, known);
                } else {
                    lemma_next_holds(f, pos, on_true, base, popped, env, known);
                }
            },
            TerminatorModel::Skip { targets } => {
                lemma_popped(base, w2.stack, 1);
                assert(top(both.stack, 1) == top(w2.stack, 1));
                let k = top(w2.stack, 1) as int;
                if 0 <= k < targets.len() {
                    lemma_each_target(f, pos, targets, known, k);
                    lemma_next_holds(f, pos, targets[k], base, popped, env, known);
                }
            },
        }
    }
}

proof fn lemma_next_holds(
    f: FunctionModel,
    pos: int,
    next: Next,
    base: Seq<Value>,
    w: World,
    env: Surroundings,
    known: Known,
)
    requires
        calls_hold(env.call, known),
        next_delta(f, pos, next, known.deltas) is Some,
        next_reach(f, pos, next, known) matches Reach::Num(r) && w.stack.len() >= r,
    ensures
        run_next(f, pos, next, World { stack: base + w.stack, log: w.log }, env) == over(
            base,
            run_next(f, pos, next, w, env),
        ),
        ends_at(
            run_next(f, pos, next, w, env),
            w.stack.len() as int,
            next_delta(f, pos, next, known.deltas)->0,
        ),
    decreases f.length - pos, 0int,
{
    if let Next::Block(p) = next {
        if pos < p < f.length {
            lemma_path_holds(f, p as int, base, w, env, known);
        }
    }
}

/// A function looks at no more of the stack than its reach, and changes its height by its delta, if
/// the functions that it calls do so.
pub proof fn law_function_holds(
    f: FunctionModel,
    base: Seq<Value>,
    w: World,
    env: Surroundings,
    known: Known,
)
    requires
        calls_hold(env.call, known),
        f.length > 0 ==> f.blocks.contains_key(0),
        func_delta(f, known.deltas) is Some,
        func_reach(f, known) matches Reach::Num(r) && w.stack.len() >= r,
    ensures
        run_graph(f, World { stack: base + w.stack, log: w.log }, env) == over(
            base,
            run_graph(f, w, env),
        ),
        ends_at(run_graph(f, w, env), w.stack.len() as int, func_delta(f, known.deltas)->0),
{
    if f.length > 0 {
        lemma_path_holds(f, 0, base, w, env, known);
    }
}

/// A call of a function of a program, in which calls may be nested up to the given depth. A call of
/// a function that is not there fails. A call goes astray that finds fewer values on the stack than
/// `guards` says for the function.
pub open spec fn call_function(
    funcs: Map<Seq<char>, Code>,
    guards: Map<Seq<char>, ResolvedSig>,
    reply: spec_fn(Seq<Effect>) -> Value,
    depth: nat,
    name: Seq<char>,
    w: World,
) -> Outcome
    decreases depth, 0int,
{
    if !funcs.contains_key(name) {
        Outcome::Failed(w.log)
    } else if too_few(guards, name, w) {
        Outcome::Astray(w.log)
    } else if depth == 0 {
        Outcome::Unfinished
    } else {
        run_raw(funcs[name]@, 0, w, program(funcs, guards, reply, (depth - 1) as nat))
    }
}

/// Whether there are fewer values on the stack than a signature asks for.
pub open spec fn too_few(
    guards: Map<Seq<char>, ResolvedSig>,
    name: Seq<char>,
    w: World,
) -> bool {
    guards.contains_key(name) && w.stack.len() < guards[name].reach
}

/// What functions meet when calls may be nested up to the given depth.
pub open spec fn program(
    funcs: Map<Seq<char>, Code>,
    guards: Map<Seq<char>, ResolvedSig>,
    reply: spec_fn(Seq<Effect>) -> Value,
    depth: nat,
) -> Surroundings
    decreases depth, 1int,
{
    Surroundings {
        reply,
        call: |name: Seq<char>, w: World| call_function(funcs, guards, reply, depth, name, w),
    }
}

/// In a solution, the delta and the reach of a function are those of its graph.
pub proof fn lemma_solution_is_exact(
    names: Seq<Seq<char>>,
    funcs: Map<Seq<char>, Code>,
    deltas: Map<Seq<char>, Delta>,
    reaches: Map<Seq<char>, Reach>,
    name: Seq<char>,
)
    requires
        solved(names, funcs, deltas, reaches),
        names.len() <= usize::MAX,
        forall|x: Seq<char>| #[trigger] funcs.contains_key(x) ==> names.contains(x),
        deltas.contains_key(name),
    ensures
        funcs.contains_key(name),
        reaches.contains_key(name),
        func_delta(program_graphs(funcs)[name], deltas) == Some(deltas[name]),
        func_reach(program_graphs(funcs)[name], (Known { deltas, reaches })) == reaches[name],
{
    assert(deltas.dom().contains(name));
    assert(funcs.dom().contains(name));
    assert(funcs.contains_key(name));
    assert(reaches.dom().contains(name));
    let i = names.index_of(name) as usize;
    assert(names[i as int] == name);
    assert(solved_at(names, funcs, deltas, reaches, i));
    let scc = mates(names, funcs, i);
    let edges = call_edges(names, funcs);
    assert(is_path(edges, seq![i]));
    assert(seq![i].first() == i && seq![i].last() == i);
    assert(leads_to(edges, i, i));
    assert(is_mate(names, funcs, i, i, name));
    assert(scc.contains(name));
    assert(deltas.restrict(scc).contains_key(name));
    assert(reaches.restrict(scc).contains_key(name));
    assert(deltas.restrict(scc).union_prefer_right(deltas.remove_keys(scc)) =~= deltas);
    assert(reaches.restrict(scc).union_prefer_right(reaches.remove_keys(scc)) =~= reaches);
}

/// A call of a function runs its graph.
pub proof fn lemma_call_runs_graph(
    funcs: Map<Seq<char>, Code>,
    guards: Map<Seq<char>, ResolvedSig>,
    reply: spec_fn(Seq<Effect>) -> Value,
    depth: nat,
    name: Seq<char>,
    w: World,
)
    requires
        funcs.contains_key(name),
        !too_few(guards, name, w),
        depth > 0,
    ensures
        call_function(funcs, guards, reply, depth, name, w) == run_graph(
            program_graphs(funcs)[name],
            w,
            program(funcs, guards, reply, (depth - 1) as nat),
        ),
{
    let inner = program(funcs, guards, reply, (depth - 1) as nat);
    let code = funcs[name]@;
    assert(code.len() == funcs[name].len());
    assert(unknown_calls_fail(funcs.dom(), inner)) by {
        assert forall|x: Seq<char>, v: World|
            !funcs.dom().contains(x) implies #[trigger] (inner.call)(x, v) == Outcome::Failed(
            v.log,
        ) by {
            assert((inner.call)(x, v) == call_function(
                funcs,
                guards,
                reply,
                (depth - 1) as nat,
                x,
                v,
            ));
        }
    }
    law_whole_graph_runs_like_body(code, funcs.dom(), w, inner);
}

/// A call that finds as many values as the function looks at is not refused.
proof fn lemma_enough(
    guards: Map<Seq<char>, ResolvedSig>,
    known: Known,
    name: Seq<char>,
    w: World,
)
    requires
        guards.submap_of(signatures(known.deltas, known.reaches)),
        known.reaches[name] is Num,
        w.stack.len() >= known.reaches[name]->Num_0,
    ensures
        !too_few(guards, name, w),
{
    if guards.contains_key(name) {
        assert(guards.dom().contains(name));
        assert(signatures(known.deltas, known.reaches).dom().contains(name));
        assert(guards[name] == signatures(known.deltas, known.reaches)[name]);
    }
}

/// A call of one function holds, if those that it can lead to do.
proof fn lemma_call_holds(
    names: Seq<Seq<char>>,
    funcs: Map<Seq<char>, Code>,
    known: Known,
    guards: Map<Seq<char>, ResolvedSig>,
    reply: spec_fn(Seq<Effect>) -> Value,
    depth: nat,
    name: Seq<char>,
)
    requires
        solved(names, funcs, known.deltas, known.reaches),
        names.len() <= usize::MAX,
        forall|x: Seq<char>| #[trigger] funcs.contains_key(x) ==> names.contains(x),
        guards.submap_of(signatures(known.deltas, known.reaches)),
        known.deltas.contains_key(name),
        known.reaches[name] is Num,
        depth > 0 ==> calls_hold(program(funcs, guards, reply, (depth - 1) as nat).call, known),
    ensures
        call_holds(
            program(funcs, guards, reply, depth).call,
            name,
            known.deltas[name],
            known.reaches[name]->Num_0,
        ),
{
    let call = program(funcs, guards, reply, depth).call;
    let inner = program(funcs, guards, reply, (depth - 1) as nat);
    let f = program_graphs(funcs)[name];
    lemma_solution_is_exact(names, funcs, known.deltas, known.reaches, name);
    let code = funcs[name]@;
    assert(code.len() == funcs[name].len());
    law_graph_goes_forward(code, funcs.dom());
    assert forall|base: Seq<Value>, w: World|
        #![trigger call(name, World { stack: base + w.stack, log: w.log })]
        w.stack.len() >= known.reaches[name]->Num_0 implies call(
        name,
        World { stack: base + w.stack, log: w.log },
    ) == over(base, call(name, w)) by {
        let both = World { stack: base + w.stack, log: w.log };
        lemma_enough(guards, known, name, w);
        lemma_enough(guards, known, name, both);
        assert(call(name, w) == call_function(funcs, guards, reply, depth, name, w));
        assert(call(name, both) == call_function(funcs, guards, reply, depth, name, both));
        if depth > 0 {
            lemma_call_runs_graph(funcs, guards, reply, depth, name, w);
            lemma_call_runs_graph(funcs, guards, reply, depth, name, both);
            law_function_holds(f, base, w, inner, known);
        }
    }
    assert forall|w: World| w.stack.len() >= known.reaches[name]->Num_0 implies ends_at(
        #[trigger] call(name, w),
        w.stack.len() as int,
        known.deltas[name],
    ) by {
        lemma_enough(guards, known, name, w);
        assert(call(name, w) == call_function(funcs, guards, reply, depth, name, w));
        if depth > 0 {
            lemma_call_runs_graph(funcs, guards, reply, depth, name, w);
            law_function_holds(f, Seq::empty(), w, inner, known);
        }
    }
}

/// Whatever a program does, a function with a signature looks at no more values than the signature
/// says, and if it ends, it has changed the height of the stack as the signature says.
pub proof fn law_signatures_hold(
    names: Seq<Seq<char>>,
    funcs: Map<Seq<char>, Code>,
    deltas: Map<Seq<char>, Delta>,
    reaches: Map<Seq<char>, Reach>,
    guards: Map<Seq<char>, ResolvedSig>,
    reply: spec_fn(Seq<Effect>) -> Value,
    depth: nat,
)
    requires
        solved(names, funcs, deltas, reaches),
        names.len() <= usize::MAX,
        forall|x: Seq<char>| #[trigger] funcs.contains_key(x) ==> names.contains(x),
        guards.submap_of(signatures(deltas, reaches)),
    ensures
        calls_hold(program(funcs, guards, reply, depth).call, (Known { deltas, reaches })),
    decreases depth,
{
    let known = Known { deltas, reaches };
    if depth > 0 {
        law_signatures_hold(names, funcs, deltas, reaches, guards, reply, (depth - 1) as nat);
    }
    assert forall|name: Seq<char>| #[trigger]
        known.deltas.contains_key(name) && known.reaches.contains_key(name)
            && known.reaches[name] is Num implies call_holds(
        program(funcs, guards, reply, depth).call,
        name,
        known.deltas[name],
        known.reaches[name]->Num_0,
    ) by {
        lemma_call_holds(names, funcs, known, guards, reply, depth, name);
    }
}

/// A body that meets surroundings in which more calls go astray, and which are otherwise the same,
/// goes astray or does the same.
proof fn lemma_stricter(
    code: Seq<Instr>,
    pc: int,
    w: World,
    strict: Surroundings,
    plain: Surroundings,
)
    requires
        strict.reply == plain.reply,
        forall|name: Seq<char>, v: World|
            (#[trigger] (strict.call)(name, v)) is Astray || (strict.call)(name, v) == (plain.call)(
                name,
                v,
            ),
    ensures
        run_raw(code, pc, w, strict) is Astray || run_raw(code, pc, w, strict) == run_raw(
            code,
            pc,
            w,
            plain,
        ),
    decreases code.len() - pc,
{
    if 0 <= pc < code.len() {
        match step(code[pc], w.stack) {
            Step::Skip(s, n) => {
                if pc + 1 + n <= code.len() {
                    lemma_stricter(
                        code,
                        pc + 1 + n,
                        World { stack: s, log: w.log },
                        strict,
                        plain,
                    );
                }
            },
            other => {
                if let Outcome::Done(w2) = settle(other, w.log, strict) {
                    lemma_stricter(code, pc + 1, w2, strict, plain);
                }
            },
        }
    }
}

/// To refuse calls that find too few values is all that guards do: a call in a program with guards
/// goes astray, or comes out as in the program without them.
pub proof fn law_guards_only_refuse(
    funcs: Map<Seq<char>, Code>,
    guards: Map<Seq<char>, ResolvedSig>,
    reply: spec_fn(Seq<Effect>) -> Value,
    depth: nat,
    name: Seq<char>,
    w: World,
)
    ensures
        call_function(funcs, guards, reply, depth, name, w) is Astray || call_function(
            funcs,
            guards,
            reply,
            depth,
            name,
            w,
        ) == call_function(funcs, Map::empty(), reply, depth, name, w),
    decreases depth,
{
    if depth > 0 && funcs.contains_key(name) {
        let inner = (depth - 1) as nat;
        let strict = program(funcs, guards, reply, inner);
        let plain = program(funcs, Map::empty(), reply, inner);
        assert forall|x: Seq<char>, v: World|
            (#[trigger] (strict.call)(x, v)) is Astray || (strict.call)(x, v) == (plain.call)(
            x,
            v,
        ) by {
            assert((strict.call)(x, v) == call_function(funcs, guards, reply, inner, x, v));
            assert((plain.call)(x, v) == call_function(funcs, Map::empty(), reply, inner, x, v));
            law_guards_only_refuse(funcs, guards, reply, inner, x, v);
        }
        lemma_stricter(funcs[name]@, 0, w, strict, plain);
    }
}

/// The delta never takes more off the stack than the reach covers.
proof fn lemma_body_returns(
    code: Seq<BasicBlockInstr>,
    i: int,
    known: Known,
    rest: Reach,
)
    requires
        0 <= i <= code.len(),
        body_delta(code, code.len() as int, known.deltas) matches Some(Delta::Num(_)),
        body_delta(code, i, known.deltas) matches Some(Delta::Num(_)),
        body_reach(code, i, rest, known) is Num,
    ensures
        rest is Num,
        body_reach(code, i, rest, known)->Num_0 + body_delta(
            code,
            code.len() as int,
            known.deltas,
        )->0->Num_0 - body_delta(code, i, known.deltas)->0->Num_0 >= rest->Num_0,
    decreases code.len() - i,
{
    if i < code.len() {
        let n = code.len() as int;
        if !(body_delta(code, i + 1, known.deltas) matches Some(Delta::Num(_))) {
            lemma_body_delta_is_settled(code, i + 1, n, known.deltas);
        }
        lemma_body_returns(code, i + 1, known, rest);
    }
}

proof fn lemma_path_returns(f: FunctionModel, pos: int, known: Known)
    requires
        path_delta(f, pos, known.deltas) matches Some(Delta::Num(_)),
        path_reach(f, pos, known) is Num,
    ensures
        path_reach(f, pos, known)->Num_0 + path_delta(f, pos, known.deltas)->0->Num_0 >= 0,
    decreases f.length - pos, 2int, 0int,
{
    let block = f.blocks[pos as usize];
    let rest = leaving_reach(f, pos, block.terminator, known);
    lemma_body_returns(block.code, 0, known, rest);
    match block.terminator {
        TerminatorModel::Jump(next) => {
            lemma_next_returns(f, pos, next, known);
        },
        TerminatorModel::If { on_true, on_false } => {
            if next_delta(f, pos, on_true, known.deltas)->0 is Num {
                lemma_next_returns(f, pos, on_true, known);
            } else {
                lemma_next_returns(f, pos, on_false, known);
            }
        },
        TerminatorModel::Skip { targets } => {
            lemma_targets_returns(f, pos, targets, known);
        },
    }
}

proof fn lemma_targets_returns(f: FunctionModel, pos: int, targets: Seq<Next>, known: Known)
    requires
        targets_delta(f, pos, targets, known.deltas) matches Some(Delta::Num(_)),
        targets_reach(f, pos, targets, known) is Num,
    ensures
        targets_reach(f, pos, targets, known)->Num_0 + targets_delta(
            f,
            pos,
            targets,
            known.deltas,
        )->0->Num_0 >= 0,
    decreases f.length - pos, 1int, targets.len(),
{
    if next_delta(f, pos, targets.last(), known.deltas)->0 is Num {
        lemma_next_returns(f, pos, targets.last(), known);
    } else {
        lemma_targets_returns(f, pos, targets.drop_last(), known);
    }
}

proof fn lemma_next_returns(f: FunctionModel, pos: int, next: Next, known: Known)
    requires
        next_delta(f, pos, next, known.deltas) matches Some(Delta::Num(_)),
        next_reach(f, pos, next, known) is Num,
    ensures
        next_reach(f, pos, next, known)->Num_0 + next_delta(f, pos, next, known.deltas)->0->Num_0
            >= 0,
    decreases f.length - pos, 0int, 0int,
{
    if let Next::Block(p) = next {
        lemma_path_returns(f, p as int, known);
    }
}

/// No function takes more values off the stack than it looks at: the number of results that a
/// signature makes is a number of values.
pub proof fn law_signatures_return(
    names: Seq<Seq<char>>,
    funcs: Map<Seq<char>, Code>,
    deltas: Map<Seq<char>, Delta>,
    reaches: Map<Seq<char>, Reach>,
    name: Seq<char>,
)
    requires
        solved(names, funcs, deltas, reaches),
        names.len() <= usize::MAX,
        forall|x: Seq<char>| #[trigger] funcs.contains_key(x) ==> names.contains(x),
        signatures(deltas, reaches).contains_key(name),
    ensures
        0 <= returned(signatures(deltas, reaches)[name]) <= usize::MAX,
        signatures(deltas, reaches)[name].reach <= isize::MAX,
{
    lemma_solution_is_exact(names, funcs, deltas, reaches, name);
    let f = program_graphs(funcs)[name];
    let known = Known { deltas, reaches };
    if f.length > 0 && deltas[name] is Num {
        lemma_path_returns(f, 0, known);
    }
}

} // verus!
