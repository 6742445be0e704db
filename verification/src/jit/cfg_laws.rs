//! Why a control flow graph is a faithful picture of the body that it was made from.
use vstd::prelude::*;

#[allow(unused_imports)]
use crate::jit::cfg::{
    analyzed, block_at, breaks_at, chosen, ending, goes_forward, guarded, leads_forward,
    leaves_forward, lemma_block_is_straight, lemma_breaks_grow, lemma_next_break, lemma_put,
    literal_distance, next_break, place, puts_break, resolved, resolved_at, run_graph, run_next,
    run_path, starts_block, unchosen, Next, TerminatorModel,
};
#[allow(unused_imports)]
use crate::semantics::{
    below, perform, run_from, run_instr, run_raw, settle, step, top, Outcome, Step, Surroundings,
    World,
};
use crate::types::ExecError;
#[allow(unused_imports)]
use crate::types::{BasicBlockInstr, ControlFlowInstr, Instr};

verus! {

/// An instruction only puts breaks after itself.
proof fn lemma_breaks_lie_ahead(code: Seq<Instr>, k: int, x: int)
    requires
        0 <= k <= code.len() <= usize::MAX,
        breaks_at(code, k, x),
        x < k,
    ensures
        breaks_at(code, x, x),
    decreases k,
{
    if breaks_at(code, k - 1, x) {
        if x < k - 1 {
            lemma_breaks_lie_ahead(code, k - 1, x);
        }
    } else {
        assert(puts_break(code, k - 1, x));
    }
}

/// The places that a block leads to are those at which there are breaks.
proof fn lemma_targets_are_breaks(code: Seq<Instr>, b: int, x: int)
    requires
        starts_block(code, b),
        code.len() <= usize::MAX,
        ({
            let e = next_break(code, b + 1);
            let (taken, terminator) = ending(code.subrange(b, e), b, code.len() as int);
            match terminator {
                TerminatorModel::Jump(next) => next == Next::Block(x as usize),
                TerminatorModel::If { on_true, on_false } => on_true == Next::Block(x as usize)
                    || on_false == Next::Block(x as usize),
                TerminatorModel::Skip { targets } => exists|k: int|
                    0 <= k < targets.len() && #[trigger] targets[k] == Next::Block(x as usize),
            }
        }),
        0 <= x <= usize::MAX,
    ensures
        b < x < code.len(),
        starts_block(code, x),
{
    let length = code.len() as int;
    let e = next_break(code, b + 1);
    lemma_next_break(code, b + 1);
    let block = code.subrange(b, e);
    let last = e - 1;
    assert(block.last() == code[last]);
    match code[last] {
        Instr::BBInstr(_) => {
            assert(x == e);
        },
        Instr::CFInstr(ControlFlowInstr::If) => {
            assert(x == e || x == e + 3);
            assert(puts_break(code, last, x));
            lemma_put(code, last, x);
        },
        Instr::CFInstr(ControlFlowInstr::Skip) => {
            if breaks_at(code, last, last) && last > b {
                lemma_breaks_grow(code, last, length, last);
                assert(false);
            }
            match literal_distance(block, block.len() - 1) {
                Some(n) => {
                    assert(block[block.len() - 2] == code[last - 1]);
                    assert(x == e + n);
                    assert(puts_break(code, last, x));
                    lemma_put(code, last, x);
                },
                None => {
                    if last == b {
                        if b > 0 {
                            lemma_breaks_lie_ahead(code, length, b);
                        }
                    } else {
                        assert(block[block.len() - 2] == code[last - 1]);
                    }
                    let (taken, terminator) = ending(block, b, length);
                    assert(terminator is Skip);
                    let targets = terminator->Skip_targets;
                    let k = choose|k: int|
                        0 <= k < targets.len() && #[trigger] targets[k] == Next::Block(x as usize);
                    assert(targets[k] == place(e + k, length));
                    assert(x == e + k);
                    assert(puts_break(code, last, x));
                    lemma_put(code, last, x);
                },
            }
        },
    }
}

/// Control in the graph of a body only ever goes forward, from block to block.
pub proof fn law_graph_goes_forward(code: Seq<Instr>, defined: Set<Seq<char>>)
    requires
        code.len() <= usize::MAX,
    ensures
        goes_forward(analyzed(code, defined)),
{
    let f = analyzed(code, defined);
    assert forall|x: usize| #[trigger] f.blocks.contains_key(x) implies x < f.length
        && leaves_forward(f, x as int, f.blocks[x].terminator) by {
        let e = next_break(code, x + 1);
        lemma_next_break(code, x + 1);
        let (taken, terminator) = ending(code.subrange(x as int, e), x as int, code.len() as int);
        assert(f.blocks[x].terminator == terminator);
        match terminator {
            TerminatorModel::Jump(next) => {
                if let Next::Block(p) = next {
                    lemma_targets_are_breaks(code, x as int, p as int);
                }
            },
            TerminatorModel::If { on_true, on_false } => {
                if let Next::Block(p) = on_true {
                    lemma_targets_are_breaks(code, x as int, p as int);
                }
                if let Next::Block(p) = on_false {
                    lemma_targets_are_breaks(code, x as int, p as int);
                }
            },
            TerminatorModel::Skip { targets } => {
                assert forall|k: int| 0 <= k < targets.len() implies leads_forward(
                    f,
                    x as int,
                    #[trigger] targets[k],
                ) by {
                    if let Next::Block(p) = targets[k] {
                        assert(targets[k] == Next::Block((p as int) as usize));
                        lemma_targets_are_breaks(code, x as int, p as int);
                    }
                }
            },
        }
    }
}

/// A stretch runs the same way behind another instruction.
proof fn lemma_run_shifted(x: BasicBlockInstr, code: Seq<BasicBlockInstr>, i: int, w: World, env: Surroundings)
    requires
        0 <= i,
    ensures
        run_from(seq![x] + code, i + 1, w, env) == run_from(code, i, w, env),
    decreases code.len() - i,
{
    if i < code.len() {
        let both = seq![x] + code;
        assert(both[i + 1] == code[i]);
        match run_instr(code[i], w, env) {
            Outcome::Done(w2) => {
                lemma_run_shifted(x, code, i + 1, w2, env);
            },
            _ => {},
        }
    }
}

/// The functions that a body calls and that are not defined cannot be run.
pub open spec fn unknown_calls_fail(defined: Set<Seq<char>>, env: Surroundings) -> bool {
    forall|name: Seq<char>, w: World|
        !defined.contains(name) ==> #[trigger] (env.call)(name, w) == Outcome::Failed(w.log)
}

/// The instructions of a block, resolved and guarded, do what they did in the body.
proof fn lemma_body(
    code: Seq<Instr>,
    b: int,
    n: int,
    i: int,
    defined: Set<Seq<char>>,
    w: World,
    env: Surroundings,
)
    requires
        0 <= b <= b + n <= code.len(),
        0 <= i <= n,
        forall|j: int| b <= j < b + n ==> code[j] is BBInstr,
        unknown_calls_fail(defined, env),
    ensures
        run_raw(code, b + i, w, env) == (match run_from(
            resolved(code.subrange(b, b + n), i).map_values(|x: Instr| guarded(x, defined)),
            0,
            w,
            env,
        ) {
            Outcome::Done(w2) => run_raw(code, b + n, w2, env),
            other => other,
        }),
    decreases n - i,
{
    let body = code.subrange(b, b + n);
    let guard = |x: Instr| guarded(x, defined);
    let done = resolved(body, i).map_values(guard);
    if i < n {
        let (instr, count) = resolved_at(body, i);
        let first = guarded(instr, defined);
        let rest = resolved(body, i + count).map_values(guard);
        assert(done =~= seq![first] + rest);
        assert(done[0] == first);
        assert(body[i] == code[b + i]);
        assert(run_from(done, 0, w, env) == (match run_instr(first, w, env) {
            Outcome::Done(w2) => run_from(done, 1, w2, env),
            other => other,
        }));
        if count == 1 {
            assert(World { stack: w.stack, log: w.log } == w);
            assert(settle(step(code[b + i], w.stack), w.log, env) == run_instr(first, w, env));
            assert(run_raw(code, b + i, w, env) == (match run_instr(first, w, env) {
                Outcome::Done(w2) => run_raw(code, b + i + 1, w2, env),
                other => other,
            }));
        } else if count == 2 {
            assert(body[i + 1] == code[b + i + 1]);
            let a = code[b + i]->BBInstr_0->Literal_0;
            let w1 = World { stack: w.stack.push(a), log: w.log };
            assert(run_raw(code, b + i, w, env) == run_raw(code, b + i + 1, w1, env));
            assert(below(w1.stack, 1) =~= w.stack);
            assert(top(w1.stack, 1) == a);
            assert(settle(step(code[b + i + 1], w1.stack), w.log, env) == run_instr(first, w, env));
            assert(run_raw(code, b + i + 1, w1, env) == (match run_instr(first, w, env) {
                Outcome::Done(w2) => run_raw(code, b + i + 2, w2, env),
                other => other,
            }));
        } else {
            assert(body[i + 1] == code[b + i + 1]);
            assert(body[i + 2] == code[b + i + 2]);
            let start = code[b + i]->BBInstr_0->Literal_0;
            let amt = code[b + i + 1]->BBInstr_0->Literal_0;
            let w1 = World { stack: w.stack.push(start), log: w.log };
            let w2 = World { stack: w1.stack.push(amt), log: w.log };
            assert(run_raw(code, b + i, w, env) == run_raw(code, b + i + 1, w1, env));
            assert(run_raw(code, b + i + 1, w1, env) == run_raw(code, b + i + 2, w2, env));
            assert(below(w2.stack, 2) =~= w.stack);
            assert(top(w2.stack, 1) == amt);
            assert(top(w2.stack, 2) == start);
            assert(settle(step(code[b + i + 2], w2.stack), w.log, env) == run_instr(first, w, env));
            assert(run_raw(code, b + i + 2, w2, env) == (match run_instr(first, w, env) {
                Outcome::Done(w3) => run_raw(code, b + i + 3, w3, env),
                other => other,
            }));
        }
        match run_instr(first, w, env) {
            Outcome::Done(w2) => {
                lemma_run_shifted(first, rest, 0, w2, env);
                lemma_body(code, b, n, i + count, defined, w2, env);
            },
            _ => {},
        }
    } else {
        assert(done =~= Seq::<BasicBlockInstr>::empty());
    }
}

/// How instructions come out that are carried out one after the other, with the stack that they
/// leave and the error that ends them.
pub enum Exact {
    /// All are done.
    Done(World),
    /// One of them passes over others.
    Skip(World, nat),
    Fail(World, ExecError),
    Fault(World),
    /// A function that is called does not come back.
    Called(Outcome),
}

/// How the instructions from number `i` on come out.
pub open spec fn run_exact(code: Seq<Instr>, i: int, w: World, env: Surroundings) -> Exact
    decreases code.len() - i,
{
    if i < 0 || i >= code.len() {
        Exact::Done(w)
    } else {
        match step(code[i], w.stack) {
            Step::Next(s) => run_exact(code, i + 1, World { stack: s, log: w.log }, env),
            Step::Skip(s, n) => Exact::Skip(World { stack: s, log: w.log }, n),
            Step::Perform(s, effect) => run_exact(
                code,
                i + 1,
                perform(s, w.log, effect, env),
                env,
            ),
            Step::Call(s, name) => match (env.call)(name, World { stack: s, log: w.log }) {
                Outcome::Done(w2) => run_exact(code, i + 1, w2, env),
                other => Exact::Called(other),
            },
            Step::Fail(s, e) => Exact::Fail(World { stack: s, log: w.log }, e),
            Step::Fault { .. } => Exact::Fault(w),
        }
    }
}

/// The rest of some instructions comes out as it does by itself.
proof fn lemma_exact_rest(
    first: Instr,
    rest: Seq<Instr>,
    i: int,
    w: World,
    env: Surroundings,
)
    requires
        0 <= i,
    ensures
        run_exact(seq![first] + rest, i + 1, w, env) == run_exact(rest, i, w, env),
    decreases rest.len() - i,
{
    let all = seq![first] + rest;
    if i < rest.len() {
        assert(all[i + 1] == rest[i]);
        match step(rest[i], w.stack) {
            Step::Next(s) => {
                lemma_exact_rest(first, rest, i + 1, World { stack: s, log: w.log }, env);
            },
            Step::Perform(s, effect) => {
                lemma_exact_rest(first, rest, i + 1, perform(s, w.log, effect, env), env);
            },
            Step::Call(s, name) => {
                if let Outcome::Done(w2) = (env.call)(name, World { stack: s, log: w.log }) {
                    lemma_exact_rest(first, rest, i + 1, w2, env);
                }
            },
            _ => {},
        }
    }
}

/// To join `drop_range` and `pick` to literal operands changes nothing: neither the stack that the
/// instructions leave, nor the effects, nor the error that ends them, nor the instruction at which
/// others are passed over. The instructions do not get more.
pub proof fn law_resolved_runs_alike(code: Seq<Instr>, i: int, w: World, env: Surroundings)
    requires
        0 <= i <= code.len(),
    ensures
        run_exact(resolved(code, i), 0, w, env) == run_exact(code, i, w, env),
        resolved(code, i).len() <= code.len() - i,
    decreases code.len() - i,
{
    if i < code.len() {
        let (instr, count) = resolved_at(code, i);
        let rest = resolved(code, i + count);
        let done = resolved(code, i);
        assert(done == seq![instr] + rest);
        assert(done[0] == instr);
        if count == 2 {
            let a = code[i]->BBInstr_0->Literal_0;
            let w1 = World { stack: w.stack.push(a), log: w.log };
            assert(run_exact(code, i, w, env) == run_exact(code, i + 1, w1, env));
            assert(below(w1.stack, 1) =~= w.stack);
            assert(top(w1.stack, 1) == a);
            assert(step(code[i + 1], w1.stack) == step(instr, w.stack));
        } else if count == 3 {
            let start = code[i]->BBInstr_0->Literal_0;
            let amt = code[i + 1]->BBInstr_0->Literal_0;
            let w1 = World { stack: w.stack.push(start), log: w.log };
            let w2 = World { stack: w1.stack.push(amt), log: w.log };
            assert(run_exact(code, i, w, env) == run_exact(code, i + 1, w1, env));
            assert(run_exact(code, i + 1, w1, env) == run_exact(code, i + 2, w2, env));
            assert(below(w2.stack, 2) =~= w.stack);
            assert(top(w2.stack, 1) == amt);
            assert(top(w2.stack, 2) == start);
            assert(step(code[i + 2], w2.stack) == step(instr, w.stack));
        }
        law_resolved_runs_alike(code, i + count, w, env);
        match step(instr, w.stack) {
            Step::Next(s) => {
                let v = World { stack: s, log: w.log };
                lemma_exact_rest(instr, rest, 0, v, env);
                law_resolved_runs_alike(code, i + count, v, env);
            },
            Step::Perform(s, effect) => {
                let v = perform(s, w.log, effect, env);
                lemma_exact_rest(instr, rest, 0, v, env);
                law_resolved_runs_alike(code, i + count, v, env);
            },
            Step::Call(s, name) => {
                if let Outcome::Done(v) = (env.call)(name, World { stack: s, log: w.log }) {
                    lemma_exact_rest(instr, rest, 0, v, env);
                    law_resolved_runs_alike(code, i + count, v, env);
                }
            },
            _ => {},
        }
    }
}

/// The graph of a body runs from each of its blocks exactly as the body runs from there.
pub proof fn law_graph_runs_like_body(
    code: Seq<Instr>,
    defined: Set<Seq<char>>,
    b: int,
    w: World,
    env: Surroundings,
)
    requires
        code.len() <= usize::MAX,
        starts_block(code, b),
        unknown_calls_fail(defined, env),
    ensures
        run_path(analyzed(code, defined), b, w, env) == run_raw(code, b, w, env),
    decreases code.len() - b, 2int,
{
    let f = analyzed(code, defined);
    let length = code.len() as int;
    let e = next_break(code, b + 1);
    lemma_next_break(code, b + 1);
    let block = code.subrange(b, e);
    let (taken, terminator) = ending(block, b, length);
    assert(block.last() == code[e - 1]);
    assert forall|j: int| b <= j < e - taken implies code[j] is BBInstr by {
        if j < e - 1 {
            lemma_block_is_straight(code, b, j);
        }
    }
    let n = e - taken - b;
    assert(f.blocks.contains_key(b as usize));
    assert(f.blocks[b as usize] == block_at(code, defined, b));
    lemma_body(code, b, n, 0, defined, w, env);
    let ran = run_from(f.blocks[b as usize].code, 0, w, env);
    if let Outcome::Done(w2) = ran {
        lemma_ending(code, defined, b, w2, env);
    }
}

/// A terminator does what it did in the body.
proof fn lemma_ending(
    code: Seq<Instr>,
    defined: Set<Seq<char>>,
    b: int,
    w: World,
    env: Surroundings,
)
    requires
        code.len() <= usize::MAX,
        starts_block(code, b),
        unknown_calls_fail(defined, env),
    ensures
        ({
            let f = analyzed(code, defined);
            let e = next_break(code, b + 1);
            let (taken, terminator) = ending(code.subrange(b, e), b, code.len() as int);
            run_raw(code, e - taken, w, env) == (match chosen(terminator, w) {
                Some((next, w2)) => run_next(f, b, next, w2, env),
                None => unchosen(w),
            })
        }),
    decreases code.len() - b, 1int,
{
    let f = analyzed(code, defined);
    let length = code.len() as int;
    let e = next_break(code, b + 1);
    lemma_next_break(code, b + 1);
    let block = code.subrange(b, e);
    let (taken, terminator) = ending(block, b, length);
    assert(block.last() == code[e - 1]);
    let popped = World { stack: below(w.stack, 1), log: w.log };
    match code[e - 1] {
        Instr::BBInstr(_) => {
            lemma_place(code, defined, b, e, w, env);
        },
        Instr::CFInstr(ControlFlowInstr::If) => {
            if w.stack.len() >= 1 {
                if top(w.stack, 1) == 0 {
                    lemma_place(code, defined, b, e + 3, popped, env);
                } else {
                    lemma_place(code, defined, b, e, popped, env);
                }
            }
        },
        Instr::CFInstr(ControlFlowInstr::Skip) => {
            match literal_distance(block, block.len() - 1) {
                Some(d) => {
                    assert(block[block.len() - 2] == code[e - 2]);
                    let w1 = World { stack: w.stack.push(d as i64), log: w.log };
                    assert(run_raw(code, e - 2, w, env) == run_raw(code, e - 1, w1, env));
                    assert(below(w1.stack, 1) =~= w.stack);
                    assert(World { stack: w.stack, log: w.log } == w);
                    lemma_place(code, defined, b, e + d, w, env);
                },
                None => {
                    if w.stack.len() >= 1 {
                        let d = top(w.stack, 1);
                        if 0 <= d <= length - e {
                            assert(terminator->Skip_targets[d as int] == place(e + d, length));
                            lemma_place(code, defined, b, e + d, popped, env);
                        }
                    }
                },
            }
        },
    }
}

/// Going on at a place is going on at its position.
proof fn lemma_place(
    code: Seq<Instr>,
    defined: Set<Seq<char>>,
    b: int,
    p: int,
    w: World,
    env: Surroundings,
)
    requires
        code.len() <= usize::MAX,
        starts_block(code, b),
        b < p,
        unknown_calls_fail(defined, env),
        ({
            let e = next_break(code, b + 1);
            let (taken, terminator) = ending(code.subrange(b, e), b, code.len() as int);
            let next = place(p, code.len() as int);
            match terminator {
                TerminatorModel::Jump(n) => n == next,
                TerminatorModel::If { on_true, on_false } => on_true == next || on_false == next,
                TerminatorModel::Skip { targets } => exists|k: int|
                    0 <= k < targets.len() && #[trigger] targets[k] == next,
            }
        }),
    ensures
        run_next(analyzed(code, defined), b, place(p, code.len() as int), w, env) == (if p
            <= code.len() {
            run_raw(code, p, w, env)
        } else {
            Outcome::Failed(w.log)
        }),
    decreases code.len() - b, 0int,
{
    if p < code.len() {
        lemma_targets_are_breaks(code, b, p);
        law_graph_runs_like_body(code, defined, p, w, env);
    }
}

/// The graph of a body runs exactly as the body does.
pub proof fn law_whole_graph_runs_like_body(
    code: Seq<Instr>,
    defined: Set<Seq<char>>,
    w: World,
    env: Surroundings,
)
    requires
        code.len() <= usize::MAX,
        unknown_calls_fail(defined, env),
    ensures
        run_graph(analyzed(code, defined), w, env) == run_raw(code, 0, w, env),
{
    if code.len() > 0 {
        law_graph_runs_like_body(code, defined, 0, w, env);
    }
}

} // verus!
