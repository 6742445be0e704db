//! Why signatures ask for no more than there has to be: reaches are as small as they can be, and
//! there are deltas and reaches wherever there can be.
use vstd::prelude::*;

#[allow(unused_imports)]
use crate::jit::analysis::{program_graphs, returned, signature, signatures, solved, ResolvedSig};
#[allow(unused_imports)]
use crate::jit::cfg::{
    analyzed, chosen, run_graph, run_next, run_path, FunctionModel, Next, TerminatorModel,
};
#[allow(unused_imports)]
use crate::jit::cfg_laws::law_graph_goes_forward;
#[allow(unused_imports)]
use crate::jit::compiler::{
    compiled_right, law_compiled_call_is_call, plans_of, CompiledFunction,
};
#[allow(unused_imports)]
use crate::jit::correct::compiled_program;
#[allow(unused_imports)]
use crate::jit::delta::{
    body_delta, either, func_delta, instr_delta, next_delta, num, path_delta, plus, Delta,
};
#[allow(unused_imports)]
use crate::jit::plan::run_plan;
#[allow(unused_imports)]
use crate::jit::reach::{
    body_reach, func_reach, instr_reach, leaving_reach, limited, next_reach, path_reach,
    targets_reach, then_reach, wider, Known, Reach,
};
#[allow(unused_imports)]
use crate::jit::sound::{
    call_function, calls_hold, law_guards_only_refuse, law_instruction_holds, law_signatures_hold,
    lemma_call_runs_graph, lemma_solution_is_exact, program, too_few,
};
use crate::names::NameMap;
#[allow(unused_imports)]
use crate::semantics::{
    basic_step, below, run_from, run_instr, run_raw, settle, step, top, Effect, Outcome, Step,
    Surroundings, World,
};
#[allow(unused_imports)]
use crate::types::{BasicBlockInstr, Code, Instr, Value};

verus! {

/// An instruction comes to nothing on a stack with fewer values than it reaches for.
pub proof fn law_reach_is_tight(
    instr: BasicBlockInstr,
    known: Map<Seq<char>, Reach>,
    s: Seq<Value>,
)
    requires
        !(instr is FunctionCall),
        instr_reach(instr, known) matches Reach::Num(r) && s.len() < r,
    ensures
        !(basic_step(instr, s) is Next),
        !(basic_step(instr, s) is Perform),
{
}

/// The reach of an instruction is known wherever its operands are, and a call reaches as far as the
/// function that is called.
pub proof fn law_reach_is_known(instr: BasicBlockInstr, known: Map<Seq<char>, Reach>)
    ensures
        !(instr is FunctionCall) ==> (instr_reach(instr, known) is Unbounded <==> instr is BadPick
            || instr is BadDropRange),
        instr matches BasicBlockInstr::FunctionCall(name) ==> (known.contains_key(name@)
            ==> instr_reach(instr, known) == known[name@]) && (!known.contains_key(name@)
            ==> instr_reach(instr, known) is Unbounded),
{
}

/// The delta of an instruction is known wherever its operands are, and can be counted. There is no
/// end just to what quits or traps, and a call changes the height as the function does.
pub proof fn law_delta_is_known(instr: BasicBlockInstr, known: Map<Seq<char>, Delta>)
    ensures
        !(instr is FunctionCall) ==> (instr_delta(instr, known) is None <==> instr is BadPick
            || instr is BadDropRange || (instr matches BasicBlockInstr::ResolvedDropRange {
            amt,
            ..
        } && amt > isize::MAX)),
        !(instr is FunctionCall) ==> (instr_delta(instr, known) == Some(Delta::Never)
            <==> instr is Quit || instr is Trap),
        instr matches BasicBlockInstr::FunctionCall(name) ==> (known.contains_key(name@)
            ==> instr_delta(instr, known) == Some(known[name@])) && (!known.contains_key(name@)
            ==> instr_delta(instr, known) is None),
{
}

/// Code that other code follows reaches as far as it has to for both, and no further.
pub proof fn law_reach_of_a_sequence(a: usize, d: isize, b: usize, r: Reach)
    ensures
        then_reach(Reach::Num(a), Delta::Num(d), Reach::Num(b)) matches Reach::Num(n) ==> n >= a && n
            + d >= b && (n == a || n + d == b),
        then_reach(Reach::Num(a), Delta::Num(d), Reach::Num(b)) is Unbounded <==> b - d
            > usize::MAX,
        then_reach(r, Delta::Never, Reach::Num(b)) == r,
        then_reach(r, Delta::Never, Reach::Unbounded) == r,
        then_reach(Reach::Unbounded, Delta::Num(d), r) is Unbounded,
        then_reach(r, Delta::Num(d), Reach::Unbounded) is Unbounded,
{
}

/// A branch reaches as far as the side of it that reaches further.
pub proof fn law_reach_of_a_choice(a: usize, b: usize, r: Reach)
    ensures
        wider(Reach::Num(a), Reach::Num(b)) matches Reach::Num(n) && n >= a && n >= b && (n == a || n
            == b),
        wider(Reach::Unbounded, r) is Unbounded,
        wider(r, Reach::Unbounded) is Unbounded,
{
}

/// Deltas of code in a row add up, where they can be counted; nothing goes on behind what never
/// ends.
pub proof fn law_delta_of_a_sequence(x: isize, y: isize, d: Delta)
    ensures
        plus(Delta::Num(x), Delta::Num(y)) matches Some(Delta::Num(z)) ==> z == x + y,
        plus(Delta::Num(x), Delta::Num(y)) is None <==> !(isize::MIN <= x + y <= isize::MAX),
        plus(Delta::Num(x), Delta::Num(y)) != Some(Delta::Never),
        plus(Delta::Never, d) == Some(Delta::Never),
        plus(d, Delta::Never) == Some(Delta::Never),
{
}

/// A branch has the delta that both its sides have, or the one that has an end; there is none if
/// they differ.
pub proof fn law_delta_of_a_choice(x: isize, y: isize, d: Delta)
    ensures
        either(d, d) == Some(d),
        either(d, Delta::Never) == Some(d),
        either(Delta::Never, d) == Some(d),
        x != y ==> either(Delta::Num(x), Delta::Num(y)) is None,
{
}

/// A signature takes the values that the function reaches for. What it leaves differs from that by
/// the delta; a function that never ends leaves nothing. There is one just where there is a limit to
/// the reach.
pub proof fn law_signature_counts(delta: Delta, reach: Reach)
    ensures
        signature(delta, reach) is Some <==> reach is Num,
        reach matches Reach::Num(n) ==> signature(delta, reach)->0.reach == n,
        reach is Num && delta is Num ==> returned(signature(delta, reach)->0) - signature(
            delta,
            reach,
        )->0.reach == delta->Num_0,
        reach is Num && delta is Never ==> returned(signature(delta, reach)->0) == 0,
        reach matches Reach::Num(n) && n <= isize::MAX ==> limited(reach) == reach,
        reach matches Reach::Num(n) && n > isize::MAX ==> limited(reach) is Unbounded,
{
}

/// The signatures of a program are those of the functions that have a delta, and a limit to their
/// reach; each says both.
pub proof fn law_signatures_say_both(
    deltas: Map<Seq<char>, Delta>,
    reaches: Map<Seq<char>, Reach>,
    name: Seq<char>,
)
    ensures
        signatures(deltas, reaches).contains_key(name) <==> deltas.contains_key(name)
            && reaches[name] is Num,
        signatures(deltas, reaches).contains_key(name) ==> {
            let sig = signatures(deltas, reaches)[name];
            &&& Reach::Num(sig.reach) == reaches[name]
            &&& sig.delta matches Some(d) ==> deltas[name] == Delta::Num(d)
            &&& sig.delta is None ==> deltas[name] is Never
        },
{
}

/// An instruction and what stands behind it reach as far as they have to for both, and no further,
/// wherever they stand.
pub proof fn law_reach_of_a_stretch(
    code: Seq<BasicBlockInstr>,
    i: int,
    rest: Reach,
    known: Known,
    a: usize,
    d: isize,
    b: usize,
)
    requires
        0 <= i < code.len(),
        instr_reach(code[i], known.reaches) == Reach::Num(a),
        instr_delta(code[i], known.deltas) == Some(Delta::Num(d)),
        body_reach(code, i + 1, rest, known) == Reach::Num(b),
        b - d <= usize::MAX,
    ensures
        body_reach(code, i, rest, known) matches Reach::Num(n) && n >= a && n + d >= b && (n == a || n
            + d == b),
        body_reach(code, code.len() as int, rest, known) == rest,
{
}

/// What stands behind an instruction that never ends does not count.
pub proof fn law_nothing_reaches_behind_the_end(
    code: Seq<BasicBlockInstr>,
    i: int,
    rest: Reach,
    known: Known,
)
    requires
        0 <= i < code.len(),
        instr_delta(code[i], known.deltas) == Some(Delta::Never),
    ensures
        body_reach(code, i, rest, known) == instr_reach(code[i], known.reaches),
{
}

/// From a block on, a function reaches as far as the instructions of the block do with what comes
/// behind them; a function reaches as far as its first block does. One that reaches further than can
/// be counted has no limit.
pub proof fn law_reach_of_a_function(f: FunctionModel, pos: usize, known: Known)
    requires
        pos < f.length,
        f.blocks.contains_key(pos),
    ensures
        path_reach(f, pos as int, known) == body_reach(
            f.blocks[pos].code,
            0,
            leaving_reach(f, pos as int, f.blocks[pos].terminator, known),
            known,
        ),
        path_reach(f, 0, known) matches Reach::Num(n) ==> func_reach(f, known) == if n
            <= isize::MAX {
            Reach::Num(n)
        } else {
            Reach::Unbounded
        },
        path_reach(f, 0, known) is Unbounded ==> func_reach(f, known) is Unbounded,
{
}

/// Whether a function that is called comes to its end only on stacks with as many values as it
/// reaches for.
pub open spec fn calls_are_tight(call: spec_fn(Seq<char>, World) -> Outcome, known: Known) -> bool {
    forall|name: Seq<char>, w: World|
        known.deltas.contains_key(name) && known.reaches.contains_key(name) && known.reaches[name] is Num
            && (#[trigger] call(name, w)) is Done ==> w.stack.len() >= known.reaches[name]->Num_0
}

/// An instruction comes to its end only on a stack with as many values as it reaches for, if the
/// functions that it calls do so.
pub proof fn law_instruction_is_tight(
    instr: BasicBlockInstr,
    w: World,
    env: Surroundings,
    known: Known,
)
    requires
        calls_are_tight(env.call, known),
        instr_delta(instr, known.deltas) is Some,
        instr_reach(instr, known.reaches) is Num,
        run_instr(instr, w, env) is Done,
    ensures
        w.stack.len() >= instr_reach(instr, known.reaches)->Num_0,
{
    match instr {
        BasicBlockInstr::FunctionCall(name) => {
            assert(World { stack: w.stack, log: w.log } == w);
            assert((env.call)(name@, w) is Done);
        },
        _ => {
            if w.stack.len() < instr_reach(instr, known.reaches)->Num_0 {
                law_reach_is_tight(instr, known.reaches, w.stack);
            }
        },
    }
}

/// Instructions come to their end, with as many values left as what follows them reaches for, only
/// on a stack with as many values as they reach for together.
pub proof fn law_stretch_is_tight(
    code: Seq<BasicBlockInstr>,
    i: int,
    w: World,
    env: Surroundings,
    known: Known,
    rest: Reach,
)
    requires
        calls_hold(env.call, known),
        calls_are_tight(env.call, known),
        0 <= i <= code.len(),
        body_reach(code, i, rest, known) is Num,
        run_from(code, i, w, env) matches Outcome::Done(w2) && (rest matches Reach::Num(n)
            ==> w2.stack.len() >= n),
    ensures
        w.stack.len() >= body_reach(code, i, rest, known)->Num_0,
    decreases code.len() - i,
{
    if i < code.len() {
        let instr = code[i];
        let w2 = run_instr(instr, w, env)->Done_0;
        assert(run_instr(instr, w, env) is Done);
        law_instruction_is_tight(instr, w, env, known);
        law_instruction_holds(instr, Seq::empty(), w, env, known);
        law_stretch_is_tight(code, i + 1, w2, env, known, rest);
    }
}

/// Whether all places that a terminator can send control to reach equally far.
pub open spec fn leaves_evenly(
    f: FunctionModel,
    pos: int,
    terminator: TerminatorModel,
    known: Known,
) -> bool {
    match terminator {
        TerminatorModel::Jump(_) => true,
        TerminatorModel::If { on_true, on_false } => next_reach(f, pos, on_true, known)
            == next_reach(f, pos, on_false, known),
        TerminatorModel::Skip { targets } => forall|k: int|
            0 <= k < targets.len() ==> next_reach(f, pos, #[trigger] targets[k], known)
                == next_reach(f, pos, targets[0], known),
    }
}

/// Whether it makes no difference to how far a function reaches which way it takes.
#[verifier::opaque]
pub open spec fn reaches_evenly(f: FunctionModel, known: Known) -> bool {
    forall|x: usize| #[trigger]
        f.blocks.contains_key(x) ==> leaves_evenly(f, x as int, f.blocks[x].terminator, known)
}

/// A choice between places reaches as far as the one that reaches furthest.
pub proof fn law_reach_of_several(f: FunctionModel, pos: int, targets: Seq<Next>, known: Known)
    ensures
        targets_reach(f, pos, targets, known) matches Reach::Num(n) ==> {
            &&& forall|k: int|
                0 <= k < targets.len() ==> (next_reach(f, pos, #[trigger] targets[k], known) matches
                    Reach::Num(m) && m <= n)
            &&& n == 0 || exists|k: int|
                0 <= k < targets.len() && next_reach(f, pos, #[trigger] targets[k], known)
                    == Reach::Num(n)
        },
        targets_reach(f, pos, targets, known) is Unbounded ==> exists|k: int|
            0 <= k < targets.len() && next_reach(f, pos, #[trigger] targets[k], known) is Unbounded,
    decreases targets.len(),
{
    if targets.len() > 0 {
        let fewer = targets.drop_last();
        law_reach_of_several(f, pos, fewer, known);
        let before = targets_reach(f, pos, fewer, known);
        let last = next_reach(f, pos, targets.last(), known);
        let end = targets.len() - 1;
        assert(targets[end] == targets.last());
        assert(forall|k: int| 0 <= k < fewer.len() ==> fewer[k] == targets[k]);
        match targets_reach(f, pos, targets, known) {
            Reach::Num(n) => {
                assert forall|k: int| 0 <= k < targets.len() implies (next_reach(
                    f,
                    pos,
                    #[trigger] targets[k],
                    known,
                ) matches Reach::Num(m) && m <= n) by {
                    if k < end {
                        assert(fewer[k] == targets[k]);
                    }
                }
                if n > 0 {
                    if last == Reach::Num(n) {
                        assert(next_reach(f, pos, targets[end], known) == Reach::Num(n));
                    } else {
                        let k = choose|k: int|
                            0 <= k < fewer.len() && next_reach(f, pos, #[trigger] fewer[k], known)
                                == Reach::Num(n);
                        assert(next_reach(f, pos, targets[k], known) == Reach::Num(n));
                    }
                }
            },
            Reach::Unbounded => {
                if last is Unbounded {
                    assert(next_reach(f, pos, targets[end], known) is Unbounded);
                } else {
                    let k = choose|k: int|
                        0 <= k < fewer.len() && next_reach(
                            f,
                            pos,
                            #[trigger] fewer[k],
                            known,
                        ) is Unbounded;
                    assert(next_reach(f, pos, targets[k], known) is Unbounded);
                }
            },
        }
    }
}

/// How far a terminator reaches, together with what follows it: for the value that decides, where
/// there is a choice, and under it as far as the side that reaches further.
pub proof fn law_reach_of_a_terminator(
    f: FunctionModel,
    pos: int,
    on_true: Next,
    on_false: Next,
    known: Known,
)
    ensures
        leaving_reach(f, pos, TerminatorModel::Jump(on_true), known) == next_reach(
            f,
            pos,
            on_true,
            known,
        ),
        leaving_reach(f, pos, (TerminatorModel::If { on_true, on_false }), known) matches Reach::Num(
            n,
        ) ==> (next_reach(f, pos, on_true, known) matches Reach::Num(a) && (next_reach(
            f,
            pos,
            on_false,
            known,
        ) matches Reach::Num(b) && a + 1 <= n && b + 1 <= n && (n == a + 1 || n == b + 1))),
        leaving_reach(f, pos, (TerminatorModel::If { on_true, on_false }), known) is Unbounded
            ==> next_reach(f, pos, on_true, known) is Unbounded || next_reach(
            f,
            pos,
            on_false,
            known,
        ) is Unbounded || next_reach(f, pos, on_true, known)->Num_0 == usize::MAX || next_reach(
            f,
            pos,
            on_false,
            known,
        )->Num_0 == usize::MAX,
        next_reach(f, pos, Next::Terminate, known) == Reach::Num(0),
        next_reach(f, pos, Next::Trap, known) == Reach::Num(0),
{
}

/// The same where there are as many ways as there are places.
pub proof fn law_reach_of_a_switch(f: FunctionModel, pos: int, targets: Seq<Next>, known: Known)
    ensures
        leaving_reach(f, pos, (TerminatorModel::Skip { targets }), known) matches Reach::Num(n) ==> {
            &&& forall|k: int|
                0 <= k < targets.len() ==> (next_reach(f, pos, #[trigger] targets[k], known) matches
                    Reach::Num(m) && m + 1 <= n)
            &&& n == 1 || exists|k: int|
                0 <= k < targets.len() && (next_reach(f, pos, #[trigger] targets[k], known) matches
                    Reach::Num(m) && m + 1 == n)
        },
        leaving_reach(f, pos, (TerminatorModel::Skip { targets }), known) is Unbounded ==> exists|
            k: int,
        |
            0 <= k < targets.len() && (next_reach(f, pos, #[trigger] targets[k], known) is Unbounded
                || next_reach(f, pos, targets[k], known) == Reach::Num(usize::MAX)),
{
    law_reach_of_several(f, pos, targets, known);
    match targets_reach(f, pos, targets, known) {
        Reach::Num(n) => {
            if n > 0 {
                let k = choose|k: int|
                    0 <= k < targets.len() && next_reach(f, pos, #[trigger] targets[k], known)
                        == Reach::Num(n);
                assert(next_reach(f, pos, targets[k], known) == Reach::Num(n));
            }
        },
        Reach::Unbounded => {},
    }
}

/// Of places that reach equally far, each reaches as far as all of them.
proof fn lemma_even_targets(f: FunctionModel, pos: int, targets: Seq<Next>, known: Known, k: int)
    requires
        leaves_evenly(f, pos, (TerminatorModel::Skip { targets }), known),
        targets_reach(f, pos, targets, known) is Num,
        0 <= k < targets.len(),
    ensures
        next_reach(f, pos, targets[k], known) == targets_reach(f, pos, targets, known),
{
    law_reach_of_several(f, pos, targets, known);
    let n = targets_reach(f, pos, targets, known)->Num_0;
    assert(next_reach(f, pos, targets[k], known) is Num);
    if n > 0 {
        let j = choose|j: int|
            0 <= j < targets.len() && next_reach(f, pos, #[trigger] targets[j], known)
                == Reach::Num(n);
        assert(next_reach(f, pos, targets[j], known) == next_reach(f, pos, targets[k], known));
    }
}

proof fn lemma_leaves_evenly(f: FunctionModel, known: Known, x: usize)
    requires
        reaches_evenly(f, known),
        f.blocks.contains_key(x),
    ensures
        leaves_evenly(f, x as int, f.blocks[x].terminator, known),
{
    reveal(reaches_evenly);
}

/// Where a terminator sends control, the reach is known if it is from the terminator on.
proof fn lemma_chosen_is_known(
    f: FunctionModel,
    pos: int,
    terminator: TerminatorModel,
    w: World,
    next: Next,
    after: World,
    known: Known,
)
    requires
        leaving_reach(f, pos, terminator, known) is Num,
        chosen(terminator, w) == Some((next, after)),
    ensures
        next_reach(f, pos, next, known) is Num,
{
    if let TerminatorModel::Skip { targets } = terminator {
        law_reach_of_several(f, pos, targets, known);
    }
}

/// A terminator that leaves as many values as what follows reaches for has found as many as it
/// reaches for itself.
proof fn lemma_leaving_is_tight(
    f: FunctionModel,
    pos: int,
    terminator: TerminatorModel,
    w: World,
    next: Next,
    after: World,
    known: Known,
)
    requires
        leaves_evenly(f, pos, terminator, known),
        leaving_reach(f, pos, terminator, known) is Num,
        chosen(terminator, w) == Some((next, after)),
        next_reach(f, pos, next, known) matches Reach::Num(n) && after.stack.len() >= n,
    ensures
        w.stack.len() >= leaving_reach(f, pos, terminator, known)->Num_0,
{
    if let TerminatorModel::Skip { targets } = terminator {
        lemma_even_targets(f, pos, targets, known, top(w.stack, 1) as int);
    }
}

/// From a block on, a function that reaches equally far on all ways comes to its end only on a stack
/// with as many values as it reaches for.
proof fn lemma_path_is_tight(f: FunctionModel, pos: int, w: World, env: Surroundings, known: Known)
    requires
        calls_hold(env.call, known),
        calls_are_tight(env.call, known),
        f.length <= usize::MAX,
        reaches_evenly(f, known),
        path_reach(f, pos, known) is Num,
        run_path(f, pos, w, env) is Done,
    ensures
        w.stack.len() >= path_reach(f, pos, known)->Num_0,
    decreases f.length - pos, 1int,
{
    let block = f.blocks[pos as usize];
    assert(f.blocks.contains_key(pos as usize));
    let rest = leaving_reach(f, pos, block.terminator, known);
    lemma_leaves_evenly(f, known, pos as usize);
    assert(run_from(block.code, 0, w, env) is Done);
    let w2 = run_from(block.code, 0, w, env)->Done_0;
    if rest is Num {
        let (next, w3) = chosen(block.terminator, w2)->0;
        assert(chosen(block.terminator, w2) == Some((next, w3)));
        lemma_chosen_is_known(f, pos, block.terminator, w2, next, w3, known);
        assert(run_next(f, pos, next, w3, env) is Done);
        lemma_next_is_tight(f, pos, next, w3, env, known);
        lemma_leaving_is_tight(f, pos, block.terminator, w2, next, w3, known);
    }
    law_stretch_is_tight(block.code, 0, w, env, known, rest);
}

proof fn lemma_next_is_tight(
    f: FunctionModel,
    pos: int,
    next: Next,
    w: World,
    env: Surroundings,
    known: Known,
)
    requires
        calls_hold(env.call, known),
        calls_are_tight(env.call, known),
        f.length <= usize::MAX,
        reaches_evenly(f, known),
        next_reach(f, pos, next, known) is Num,
        run_next(f, pos, next, w, env) is Done,
    ensures
        w.stack.len() >= next_reach(f, pos, next, known)->Num_0,
    decreases f.length - pos, 0int,
{
    if let Next::Block(p) = next {
        if pos < p < f.length {
            lemma_path_is_tight(f, p as int, w, env, known);
        }
    }
}

/// A function that reaches equally far on all ways comes to its end only on a stack with as many
/// values as it reaches for, if the functions that it calls do so.
pub proof fn law_function_is_tight(f: FunctionModel, w: World, env: Surroundings, known: Known)
    requires
        calls_hold(env.call, known),
        calls_are_tight(env.call, known),
        f.length <= usize::MAX,
        reaches_evenly(f, known),
        func_reach(f, known) is Num,
        run_graph(f, w, env) is Done,
    ensures
        w.stack.len() >= func_reach(f, known)->Num_0,
{
    if f.length > 0 {
        lemma_path_is_tight(f, 0, w, env, known);
    }
}

/// Whether all functions of a program that have a signature reach equally far on all ways.
pub open spec fn all_reach_evenly(funcs: Map<Seq<char>, Code>, known: Known) -> bool {
    forall|name: Seq<char>| #[trigger]
        known.deltas.contains_key(name) && known.reaches[name] is Num ==> reaches_evenly(
            program_graphs(funcs)[name],
            known,
        )
}

/// A function with a signature that is called, with nothing that refuses calls, comes to its end
/// only on a stack with as many values as the signature takes.
pub proof fn law_signatures_are_tight(
    names: Seq<Seq<char>>,
    funcs: Map<Seq<char>, Code>,
    deltas: Map<Seq<char>, Delta>,
    reaches: Map<Seq<char>, Reach>,
    reply: spec_fn(Seq<Effect>) -> Value,
    depth: nat,
)
    requires
        solved(names, funcs, deltas, reaches),
        names.len() <= usize::MAX,
        forall|x: Seq<char>| #[trigger] funcs.contains_key(x) ==> names.contains(x),
        all_reach_evenly(funcs, Known { deltas, reaches }),
    ensures
        calls_are_tight(
            program(funcs, Map::empty(), reply, depth).call,
            (Known { deltas, reaches }),
        ),
    decreases depth,
{
    let known = Known { deltas, reaches };
    let none = Map::<Seq<char>, ResolvedSig>::empty();
    let call = program(funcs, none, reply, depth).call;
    assert forall|name: Seq<char>, w: World|
        known.deltas.contains_key(name) && known.reaches.contains_key(name)
            && known.reaches[name] is Num && (#[trigger] call(name, w)) is Done implies w.stack.len()
        >= known.reaches[name]->Num_0 by {
        assert(call(name, w) == call_function(funcs, none, reply, depth, name, w));
        lemma_solution_is_exact(names, funcs, deltas, reaches, name);
        assert(depth > 0);
        let inner = (depth - 1) as nat;
        law_signatures_are_tight(names, funcs, deltas, reaches, reply, inner);
        law_signatures_hold(names, funcs, deltas, reaches, none, reply, inner);
        lemma_call_runs_graph(funcs, none, reply, depth, name, w);
        assert(funcs[name]@.len() == funcs[name].len());
        law_function_is_tight(
            program_graphs(funcs)[name],
            w,
            program(funcs, none, reply, inner),
            known,
        );
    }
}

/// A body that comes to its end does so as well where all calls that come to their end come out the
/// same.
proof fn lemma_done_alike(
    code: Seq<Instr>,
    pc: int,
    w: World,
    strict: Surroundings,
    plain: Surroundings,
)
    requires
        strict.reply == plain.reply,
        forall|name: Seq<char>, v: World|
            (#[trigger] (plain.call)(name, v)) is Done ==> (strict.call)(name, v) == (plain.call)(
                name,
                v,
            ),
        run_raw(code, pc, w, plain) is Done,
    ensures
        run_raw(code, pc, w, strict) == run_raw(code, pc, w, plain),
    decreases code.len() - pc,
{
    if 0 <= pc < code.len() {
        match step(code[pc], w.stack) {
            Step::Skip(s, n) => {
                if pc + 1 + n <= code.len() {
                    lemma_done_alike(
                        code,
                        pc + 1 + n,
                        World { stack: s, log: w.log },
                        strict,
                        plain,
                    );
                }
            },
            Step::Call(s, name) => {
                let v = World { stack: s, log: w.log };
                let w2 = (plain.call)(name, v)->Done_0;
                assert((plain.call)(name, v) is Done);
                lemma_done_alike(code, pc + 1, w2, strict, plain);
            },
            other => {
                if let Outcome::Done(w2) = settle(other, w.log, plain) {
                    lemma_done_alike(code, pc + 1, w2, strict, plain);
                }
            },
        }
    }
}

/// A call that comes to its end is not refused for what signatures take.
pub proof fn law_signatures_refuse_no_end(
    names: Seq<Seq<char>>,
    funcs: Map<Seq<char>, Code>,
    deltas: Map<Seq<char>, Delta>,
    reaches: Map<Seq<char>, Reach>,
    reply: spec_fn(Seq<Effect>) -> Value,
    depth: nat,
    name: Seq<char>,
    w: World,
)
    requires
        solved(names, funcs, deltas, reaches),
        names.len() <= usize::MAX,
        forall|x: Seq<char>| #[trigger] funcs.contains_key(x) ==> names.contains(x),
        all_reach_evenly(funcs, Known { deltas, reaches }),
        call_function(funcs, Map::empty(), reply, depth, name, w) is Done,
    ensures
        call_function(funcs, signatures(deltas, reaches), reply, depth, name, w) == call_function(
            funcs,
            Map::empty(),
            reply,
            depth,
            name,
            w,
        ),
    decreases depth,
{
    let known = Known { deltas, reaches };
    let none = Map::<Seq<char>, ResolvedSig>::empty();
    let sigs = signatures(deltas, reaches);
    law_signatures_are_tight(names, funcs, deltas, reaches, reply, depth);
    let call = program(funcs, none, reply, depth).call;
    assert(call(name, w) == call_function(funcs, none, reply, depth, name, w));
    if too_few(sigs, name, w) {
        assert(sigs.dom().contains(name));
        assert(deltas.contains_key(name) && reaches[name] is Num);
        assert(deltas.dom().contains(name));
        assert(reaches.dom().contains(name));
        assert(call(name, w) is Done);
        assert(false);
    }
    let inner = (depth - 1) as nat;
    let strict = program(funcs, sigs, reply, inner);
    let plain = program(funcs, none, reply, inner);
    assert forall|x: Seq<char>, v: World| (#[trigger] (plain.call)(x, v)) is Done implies (
    strict.call)(x, v) == (plain.call)(x, v) by {
        assert((plain.call)(x, v) == call_function(funcs, none, reply, inner, x, v));
        assert((strict.call)(x, v) == call_function(funcs, sigs, reply, inner, x, v));
        law_signatures_refuse_no_end(names, funcs, deltas, reaches, reply, inner, x, v);
    }
    lemma_done_alike(funcs[name]@, 0, w, strict, plain);
}

/// A call that comes to its end in the program comes to the same end when it is compiled.
pub proof fn law_compiled_call_comes_to_its_end(
    names: Seq<Seq<char>>,
    funcs: Map<Seq<char>, Code>,
    deltas: Map<Seq<char>, Delta>,
    reaches: Map<Seq<char>, Reach>,
    functions: NameMap<CompiledFunction>,
    reply: spec_fn(Seq<Effect>) -> Value,
    depth: nat,
    name: Seq<char>,
    w: World,
)
    requires
        solved(names, funcs, deltas, reaches),
        names.len() <= usize::MAX,
        forall|x: Seq<char>| #[trigger] funcs.contains_key(x) ==> names.contains(x),
        compiled_right(Ok(functions), names, funcs, signatures(deltas, reaches)),
        functions@.contains_key(name),
        all_reach_evenly(funcs, Known { deltas, reaches }),
        call_function(funcs, Map::empty(), reply, depth, name, w) is Done,
    ensures
        run_plan(
            functions@[name].wrapper,
            Seq::empty(),
            w,
            compiled_program(plans_of(functions@), reply, depth),
        ) == Some(call_function(funcs, Map::empty(), reply, depth, name, w)),
{
    law_signatures_refuse_no_end(names, funcs, deltas, reaches, reply, depth, name, w);
    law_compiled_call_is_call(names, funcs, deltas, reaches, functions, reply, depth, name, w);
}

} // verus!
