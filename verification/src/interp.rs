//! Carrying out functions without compiling them.
use vstd::prelude::*;

#[allow(unused_imports)]
use crate::jit::analysis::ResolvedSig;
#[allow(unused_imports)]
use crate::jit::sound::{call_function, program, too_few};
use crate::machine::{execute, faults, needs_room, ExecRes};
use crate::names::NameMap;
use crate::semantics::Effect;
#[allow(unused_imports)]
use crate::semantics::{
    below, ended_by, faulted, is_index, overfills, perform, run_raw, settle, step, top, Outcome, Step, Surroundings,
    World,
};
use crate::stack::Stack;
#[allow(unused_imports)]
use crate::types::Value;
use crate::types::{BasicBlockInstr, Code, ControlFlowInstr, ExecError, Instr};

verus! {

/// A function that is being carried out: its number in the order of the names, and the number of
/// the next instruction.
#[derive(Debug, Clone, Copy, PartialEq, Eq, Structural)]
pub struct Frame {
    pub function: usize,
    pub pc: usize,
}

/// The functions that are being carried out, the innermost last.
pub type CallStack = Vec<Frame>;

/// The instructions that are left of the functions that are being carried out, the innermost last.
pub type Lines = Seq<Seq<Instr>>;

/// Where carrying out functions has led to.
pub enum Move {
    /// To go on with these instructions and this stack.
    Go(Lines, Seq<Value>),
    /// The world is asked for an effect, before it goes on.
    Ask(Lines, Seq<Value>, Effect),
    /// To an error.
    Stop(Seq<Value>, ExecError),
    /// To a call of a function that there is not.
    Unknown(Seq<Value>, Seq<char>),
    /// To something that has no meaning.
    Fault { trapped: bool },
    /// To the end.
    Finished,
}

/// What is left to do after an instruction, with the rest of its function.
pub open spec fn pushed(lines: Lines, rest: Seq<Instr>) -> Lines {
    if rest.len() == 0 {
        lines
    } else {
        lines.push(rest)
    }
}

/// Whether instructions do nothing but skip all that is left.
pub open spec fn skips_itself(rest: Seq<Instr>) -> bool {
    &&& rest.len() >= 2
    &&& rest[0] matches Instr::BBInstr(BasicBlockInstr::Literal(n))
    &&& rest[1] == Instr::CFInstr(ControlFlowInstr::Skip)
    &&& is_index(n)
    &&& n == rest.len() - 2
}

/// What is left to do after a call. Nothing is kept of a function that has nothing left to do.
pub open spec fn resumed(lines: Lines, rest: Seq<Instr>) -> Lines {
    if rest.len() == 0 || skips_itself(rest) {
        lines
    } else {
        lines.push(rest)
    }
}

/// The next instruction, carried out.
pub open spec fn advance(funcs: Map<Seq<char>, Code>, lines: Lines, s: Seq<Value>) -> Move {
    if lines.len() == 0 {
        Move::Finished
    } else {
        let line = lines.last();
        let outer = lines.drop_last();
        if line.len() == 0 {
            Move::Go(outer, s)
        } else {
            let rest = line.skip(1);
            match step(line[0], s) {
                Step::Next(s2) => Move::Go(pushed(outer, rest), s2),
                Step::Skip(s2, n) => if n <= rest.len() {
                    Move::Go(pushed(outer, rest.skip(n as int)), s2)
                } else {
                    Move::Stop(s2, ExecError::InvalidSkip)
                },
                Step::Perform(s2, effect) => Move::Ask(pushed(outer, rest), s2, effect),
                Step::Call(s2, name) => if funcs.contains_key(name) {
                    Move::Go(resumed(outer, rest).push(funcs[name]@), s2)
                } else {
                    Move::Unknown(s2, name)
                },
                Step::Fail(s2, e) => Move::Stop(s2, e),
                Step::Fault { trapped } => Move::Fault { trapped },
            }
        }
    }
}

/// What carrying out instructions comes to, one line after the other.
pub open spec fn run_lines(lines: Lines, w: World, env: Surroundings) -> Outcome
    decreases lines.len(),
{
    if lines.len() == 0 {
        Outcome::Done(w)
    } else {
        match run_raw(lines.last(), 0, w, env) {
            Outcome::Done(w2) => run_lines(lines.drop_last(), w2, env),
            other => other,
        }
    }
}

/// The rest of a body can be carried out by itself.
proof fn lemma_rest(code: Seq<Instr>, k: int, pc: int, w: World, env: Surroundings)
    requires
        0 <= k <= code.len(),
        0 <= pc,
    ensures
        run_raw(code.skip(k), pc, w, env) == run_raw(code, k + pc, w, env),
    decreases code.len() - k - pc,
{
    let rest = code.skip(k);
    if pc < rest.len() {
        assert(rest[pc] == code[k + pc]);
        match step(code[k + pc], w.stack) {
            Step::Skip(s, n) => {
                if pc + 1 + n <= rest.len() {
                    lemma_rest(code, k, pc + 1 + n, World { stack: s, log: w.log }, env);
                }
            },
            other => {
                if let Outcome::Done(w2) = settle(other, w.log, env) {
                    lemma_rest(code, k, pc + 1, w2, env);
                }
            },
        }
    }
}

/// Nothing left of a line is as good as no line.
proof fn lemma_pushed(lines: Lines, rest: Seq<Instr>, w: World, env: Surroundings)
    ensures
        run_lines(pushed(lines, rest), w, env) == (match run_raw(rest, 0, w, env) {
            Outcome::Done(w2) => run_lines(lines, w2, env),
            other => other,
        }),
{
    assert(lines.push(rest).drop_last() =~= lines);
}

/// A line that skips itself is as good as no line.
proof fn lemma_resumed(lines: Lines, rest: Seq<Instr>, w: World, env: Surroundings)
    ensures
        run_lines(resumed(lines, rest), w, env) == (match run_raw(rest, 0, w, env) {
            Outcome::Done(w2) => run_lines(lines, w2, env),
            other => other,
        }),
{
    assert(lines.push(rest).drop_last() =~= lines);
    if skips_itself(rest) {
        let n = rest[0]->BBInstr_0->Literal_0;
        let s1 = w.stack.push(n);
        let w1 = World { stack: s1, log: w.log };
        assert(step(rest[0], w.stack) == Step::Next(s1));
        assert(below(s1, 1) =~= w.stack);
        assert(top(s1, 1) == n);
        assert(step(rest[1], s1) == Step::Skip(w.stack, n as nat));
        assert(run_raw(rest, 1, w1, env) == run_raw(
            rest,
            rest.len() as int,
            World { stack: w.stack, log: w.log },
            env,
        ));
        assert(run_raw(rest, 0, w, env) == run_raw(rest, 1, w1, env));
    }
}

/// What comes out of a body does not change where calls may be nested deeper, once it has come out.
proof fn lemma_deeper(
    funcs: Map<Seq<char>, Code>,
    guards: Map<Seq<char>, ResolvedSig>,
    reply: spec_fn(Seq<Effect>) -> Value,
    code: Seq<Instr>,
    pc: int,
    w: World,
    depth: nat,
)
    requires
        !(run_raw(code, pc, w, program(funcs, guards, reply, depth)) is Unfinished),
    ensures
        run_raw(code, pc, w, program(funcs, guards, reply, depth + 1)) == run_raw(
            code,
            pc,
            w,
            program(funcs, guards, reply, depth),
        ),
    decreases depth, code.len() - pc,
{
    let env = program(funcs, guards, reply, depth);
    let more = program(funcs, guards, reply, depth + 1);
    if 0 <= pc < code.len() {
        match step(code[pc], w.stack) {
            Step::Skip(s, n) => {
                if pc + 1 + n <= code.len() {
                    lemma_deeper(
                        funcs,
                        guards,
                        reply,
                        code,
                        pc + 1 + n,
                        World { stack: s, log: w.log },
                        depth,
                    );
                }
            },
            Step::Call(s, name) => {
                let v = World { stack: s, log: w.log };
                assert((env.call)(name, v) == call_function(funcs, guards, reply, depth, name, v));
                assert((more.call)(name, v) == call_function(
                    funcs,
                    guards,
                    reply,
                    depth + 1,
                    name,
                    v,
                ));
                if depth > 0 && funcs.contains_key(name) && !too_few(guards, name, v) {
                    lemma_deeper(funcs, guards, reply, funcs[name]@, 0, v, (depth - 1) as nat);
                }
                if let Outcome::Done(w2) = (env.call)(name, v) {
                    lemma_deeper(funcs, guards, reply, code, pc + 1, w2, depth);
                }
            },
            other => {
                if let Outcome::Done(w2) = settle(other, w.log, env) {
                    lemma_deeper(funcs, guards, reply, code, pc + 1, w2, depth);
                }
            },
        }
    }
}

/// The same for several lines.
proof fn lemma_lines_deeper(
    funcs: Map<Seq<char>, Code>,
    reply: spec_fn(Seq<Effect>) -> Value,
    lines: Lines,
    w: World,
    depth: nat,
)
    requires
        !(run_lines(lines, w, program(funcs, Map::empty(), reply, depth)) is Unfinished),
    ensures
        run_lines(lines, w, program(funcs, Map::empty(), reply, depth + 1)) == run_lines(
            lines,
            w,
            program(funcs, Map::empty(), reply, depth),
        ),
    decreases lines.len(),
{
    if lines.len() > 0 {
        let env = program(funcs, Map::empty(), reply, depth);
        lemma_deeper(funcs, Map::empty(), reply, lines.last(), 0, w, depth);
        if let Outcome::Done(w2) = run_raw(lines.last(), 0, w, env) {
            lemma_lines_deeper(funcs, reply, lines.drop_last(), w2, depth);
        }
    }
}

/// The world after a move, if it goes on.
pub open spec fn moved(
    m: Move,
    log: Seq<Effect>,
    reply: spec_fn(Seq<Effect>) -> Value,
) -> Option<(Lines, World)> {
    match m {
        Move::Go(lines, s) => Some((lines, World { stack: s, log })),
        Move::Ask(lines, s, effect) => {
            let log2 = log.push(effect);
            Some(
                (
                    lines,
                    World {
                        stack: if effect.has_reply() {
                            s.push(reply(log2))
                        } else {
                            s
                        },
                        log: log2,
                    },
                ),
            )
        },
        _ => None,
    }
}

/// How a run ends with a move that does not go on.
pub open spec fn ended(m: Move, w: World) -> Outcome {
    match m {
        Move::Finished => Outcome::Done(w),
        Move::Stop(_, e) => ended_by(e, w.log),
        Move::Fault { trapped } => faulted(trapped, w.log),
        _ => Outcome::Failed(w.log),
    }
}

/// Each move keeps what a run comes to. Where a move ends the run, the run comes to that; where it
/// goes on, what the rest comes to is what the whole comes to, whatever depth it takes.
pub proof fn law_moves_keep_meaning(
    funcs: Map<Seq<char>, Code>,
    reply: spec_fn(Seq<Effect>) -> Value,
    lines: Lines,
    w: World,
    depth: nat,
)
    ensures
        ({
            let here = run_lines(lines, w, program(funcs, Map::empty(), reply, depth));
            let deeper = run_lines(lines, w, program(funcs, Map::empty(), reply, depth + 1));
            match moved(advance(funcs, lines, w.stack), w.log, reply) {
                Some((lines2, w2)) => {
                    let on = run_lines(lines2, w2, program(funcs, Map::empty(), reply, depth));
                    &&& here is Unfinished || on == here
                    &&& on is Unfinished || deeper == on
                },
                None => here == ended(advance(funcs, lines, w.stack), w),
            }
        }),
{
    let env = program(funcs, Map::empty(), reply, depth);
    let more = program(funcs, Map::empty(), reply, depth + 1);
    let here = run_lines(lines, w, env);
    if lines.len() > 0 {
        let line = lines.last();
        let outer = lines.drop_last();
        if !(here is Unfinished) {
            lemma_lines_deeper(funcs, reply, lines, w, depth);
        }
        if line.len() > 0 {
            let rest = line.skip(1);
            let m = advance(funcs, lines, w.stack);
            match step(line[0], w.stack) {
                Step::Next(s2) => {
                    let w2 = World { stack: s2, log: w.log };
                    lemma_rest(line, 1, 0, w2, env);
                    lemma_pushed(outer, rest, w2, env);
                    lemma_line_moves(funcs, reply, lines, w, pushed(outer, rest), w2, depth);
                },
                Step::Skip(s2, n) => {
                    if n <= rest.len() {
                        let w2 = World { stack: s2, log: w.log };
                        assert(rest.skip(n as int) =~= line.skip(1 + n as int));
                        lemma_rest(line, 1 + n as int, 0, w2, env);
                        lemma_pushed(outer, rest.skip(n as int), w2, env);
                        lemma_line_moves(
                            funcs,
                            reply,
                            lines,
                            w,
                            pushed(outer, rest.skip(n as int)),
                            w2,
                            depth,
                        );
                    }
                },
                Step::Perform(s2, effect) => {
                    let w2 = perform(s2, w.log, effect, env);
                    lemma_rest(line, 1, 0, w2, env);
                    lemma_pushed(outer, rest, w2, env);
                    lemma_line_moves(funcs, reply, lines, w, pushed(outer, rest), w2, depth);
                },
                Step::Call(s2, name) => {
                    let v = World { stack: s2, log: w.log };
                    lemma_call_moves(funcs, reply, lines, w, v, name, depth);
                },
                Step::Fail(s2, e) => {},
                Step::Fault { .. } => {},
            }
        }
    }
}

/// Lines that come to the same do so wherever calls may be nested deeper.
proof fn lemma_line_moves(
    funcs: Map<Seq<char>, Code>,
    reply: spec_fn(Seq<Effect>) -> Value,
    lines: Lines,
    w: World,
    lines2: Lines,
    w2: World,
    depth: nat,
)
    requires
        run_lines(lines, w, program(funcs, Map::empty(), reply, depth)) == run_lines(
            lines2,
            w2,
            program(funcs, Map::empty(), reply, depth),
        ),
    ensures
        ({
            let on = run_lines(lines2, w2, program(funcs, Map::empty(), reply, depth));
            on is Unfinished || run_lines(
                lines,
                w,
                program(funcs, Map::empty(), reply, depth + 1),
            ) == on
        }),
{
    let on = run_lines(lines2, w2, program(funcs, Map::empty(), reply, depth));
    if !(on is Unfinished) {
        lemma_lines_deeper(funcs, reply, lines, w, depth);
    }
}

/// A call keeps what a run comes to.
proof fn lemma_call_moves(
    funcs: Map<Seq<char>, Code>,
    reply: spec_fn(Seq<Effect>) -> Value,
    lines: Lines,
    w: World,
    v: World,
    name: Seq<char>,
    depth: nat,
)
    requires
        lines.len() > 0,
        lines.last().len() > 0,
        step(lines.last()[0], w.stack) == Step::Call(v.stack, name),
        v.log == w.log,
    ensures
        ({
            let here = run_lines(lines, w, program(funcs, Map::empty(), reply, depth));
            let deeper = run_lines(lines, w, program(funcs, Map::empty(), reply, depth + 1));
            if funcs.contains_key(name) {
                let lines2 = resumed(lines.drop_last(), lines.last().skip(1)).push(funcs[name]@);
                let on = run_lines(lines2, v, program(funcs, Map::empty(), reply, depth));
                &&& here is Unfinished || on == here
                &&& on is Unfinished || deeper == on
            } else {
                here == Outcome::Failed(w.log)
            }
        }),
{
    let env = program(funcs, Map::empty(), reply, depth);
    let more = program(funcs, Map::empty(), reply, depth + 1);
    let line = lines.last();
    let outer = lines.drop_last();
    let rest = line.skip(1);
    assert((env.call)(name, v) == call_function(funcs, Map::empty(), reply, depth, name, v));
    assert((more.call)(name, v) == call_function(funcs, Map::empty(), reply, depth + 1, name, v));
    if funcs.contains_key(name) {
        let kept = resumed(outer, rest);
        let lines2 = kept.push(funcs[name]@);
        assert(lines2.drop_last() =~= kept);
        let inner = run_raw(funcs[name]@, 0, v, env);
        assert((more.call)(name, v) == inner);
        if depth > 0 && !((env.call)(name, v) is Unfinished) {
            lemma_deeper(funcs, Map::empty(), reply, funcs[name]@, 0, v, (depth - 1) as nat);
            assert((env.call)(name, v) == inner);
        }
        if let Outcome::Done(w2) = inner {
            lemma_rest(line, 1, 0, w2, env);
            lemma_rest(line, 1, 0, w2, more);
            lemma_resumed(outer, rest, w2, env);
            lemma_resumed(outer, rest, w2, more);
            let on = run_lines(kept, w2, env);
            if !(on is Unfinished) {
                lemma_lines_deeper(funcs, reply, kept, w2, depth);
            }
        }
    }
}

/// What a run comes to within so many moves; `None` if it takes more.
pub open spec fn run_moves(
    funcs: Map<Seq<char>, Code>,
    reply: spec_fn(Seq<Effect>) -> Value,
    lines: Lines,
    w: World,
    n: nat,
) -> Option<Outcome>
    decreases n,
{
    match moved(advance(funcs, lines, w.stack), w.log, reply) {
        Some((lines2, w2)) => if n == 0 {
            None
        } else {
            run_moves(funcs, reply, lines2, w2, (n - 1) as nat)
        },
        None => Some(ended(advance(funcs, lines, w.stack), w)),
    }
}

/// What moves come to is what the lines come to.
proof fn lemma_moves_agree(
    funcs: Map<Seq<char>, Code>,
    reply: spec_fn(Seq<Effect>) -> Value,
    lines: Lines,
    w: World,
    n: nat,
    depth: nat,
)
    requires
        run_moves(funcs, reply, lines, w, n) is Some,
    ensures
        ({
            let o = run_moves(funcs, reply, lines, w, n)->0;
            let here = run_lines(lines, w, program(funcs, Map::empty(), reply, depth));
            &&& run_lines(lines, w, program(funcs, Map::empty(), reply, n)) == o
            &&& !(o is Unfinished)
            &&& here is Unfinished || here == o
        }),
    decreases n,
{
    law_moves_keep_meaning(funcs, reply, lines, w, depth);
    law_moves_keep_meaning(funcs, reply, lines, w, n);
    if let Some((lines2, w2)) = moved(advance(funcs, lines, w.stack), w.log, reply) {
        law_moves_keep_meaning(funcs, reply, lines, w, (n - 1) as nat);
        lemma_moves_agree(funcs, reply, lines2, w2, (n - 1) as nat, depth);
    }
}

/// If a call that is carried out move by move comes to an end, then that is what the call comes to
/// where calls may be nested deep enough; and where they may not, it comes to nothing else.
pub proof fn law_interpreter_agrees(
    funcs: Map<Seq<char>, Code>,
    reply: spec_fn(Seq<Effect>) -> Value,
    name: Seq<char>,
    w: World,
    n: nat,
    depth: nat,
)
    requires
        funcs.contains_key(name),
        run_moves(funcs, reply, seq![funcs[name]@], w, n) is Some,
    ensures
        call_function(funcs, Map::empty(), reply, n + 1, name, w) == run_moves(
            funcs,
            reply,
            seq![funcs[name]@],
            w,
            n,
        )->0,
        call_function(funcs, Map::empty(), reply, depth, name, w) is Unfinished || call_function(
            funcs,
            Map::empty(),
            reply,
            depth,
            name,
            w,
        ) == run_moves(funcs, reply, seq![funcs[name]@], w, n)->0,
{
    let lines = seq![funcs[name]@];
    assert(lines.drop_last() =~= Seq::<Seq<Instr>>::empty());
    lemma_moves_agree(funcs, reply, lines, w, n, n);
    lemma_one_line(funcs, reply, lines, w, n);
    if depth > 0 {
        lemma_moves_agree(funcs, reply, lines, w, n, (depth - 1) as nat);
        lemma_one_line(funcs, reply, lines, w, (depth - 1) as nat);
    }
}

/// One line comes to what its instructions come to.
proof fn lemma_one_line(
    funcs: Map<Seq<char>, Code>,
    reply: spec_fn(Seq<Effect>) -> Value,
    lines: Lines,
    w: World,
    depth: nat,
)
    requires
        lines.len() == 1,
    ensures
        run_lines(lines, w, program(funcs, Map::empty(), reply, depth)) == run_raw(
            lines[0],
            0,
            w,
            program(funcs, Map::empty(), reply, depth),
        ),
{
    let env = program(funcs, Map::empty(), reply, depth);
    if let Outcome::Done(w2) = run_raw(lines[0], 0, w, env) {
        assert(lines.drop_last().len() == 0);
        assert(run_lines(lines.drop_last(), w2, env) == Outcome::Done(w2));
    }
}

/// Why carrying out functions has paused.
#[derive(Debug)]
pub enum Pause {
    /// There is nothing left to do.
    Finished,
    /// The world is asked for an effect, whose reply, if it has one, goes on the stack.
    Perform(Effect),
    Failed(ExecError),
    /// The next instruction means nothing.
    Fault,
    /// The next instruction leaves more values than there is room for.
    StackFull,
    /// As many instructions as were asked for have been carried out.
    OutOfSteps,
}

/// The body of function number `i`.
pub open spec fn body(functions: NameMap<Code>, i: int) -> Seq<Instr> {
    functions@[functions.names()[i]]@
}

/// The instructions that are left of the functions that are being carried out.
pub open spec fn lines_of(callstack: Seq<Frame>, functions: NameMap<Code>) -> Lines {
    callstack.map_values(
        |frame: Frame| body(functions, frame.function as int).skip(frame.pc as int),
    )
}

/// Whether the functions that are being carried out are there, and none has got past its end.
pub open spec fn frames_ok(callstack: Seq<Frame>, functions: NameMap<Code>) -> bool {
    forall|i: int|
        0 <= i < callstack.len() ==> (#[trigger] callstack[i]).function < functions.names().len()
            && callstack[i].pc <= body(functions, callstack[i].function as int).len()
}

/// Where so many moves lead, if the world replies to what is asked of it.
pub open spec fn moved_on(
    funcs: Map<Seq<char>, Code>,
    reply: spec_fn(Seq<Effect>) -> Value,
    lines: Lines,
    w: World,
    k: nat,
) -> Option<(Lines, World)>
    decreases k,
{
    if k == 0 {
        Some((lines, w))
    } else {
        match moved_on(funcs, reply, lines, w, (k - 1) as nat) {
            Some((lines2, w2)) => moved(advance(funcs, lines2, w2.stack), w2.log, reply),
            None => None,
        }
    }
}

/// Whether nothing is left to do after any call among some instructions.
pub open spec fn calls_last(line: Seq<Instr>) -> bool {
    forall|i: int|
        0 <= i < line.len() && (#[trigger] line[i] matches Instr::BBInstr(instr) && instr
            is FunctionCall) ==> line.skip(i + 1).len() == 0 || skips_itself(line.skip(i + 1))
}

/// The same of what is left of such instructions.
proof fn lemma_rest_calls_last(line: Seq<Instr>, k: int)
    requires
        calls_last(line),
        0 <= k <= line.len(),
    ensures
        calls_last(line.skip(k)),
{
    let rest = line.skip(k);
    assert forall|i: int|
        0 <= i < rest.len() && (#[trigger] rest[i] matches Instr::BBInstr(instr) && instr
            is FunctionCall) implies rest.skip(i + 1).len() == 0 || skips_itself(
        rest.skip(i + 1),
    ) by {
        assert(line[k + i] == rest[i]);
        assert(rest.skip(i + 1) =~= line.skip(k + i + 1));
    }
}

/// One move of functions that call only at their end.
proof fn lemma_move_keeps_nothing(funcs: Map<Seq<char>, Code>, lines: Lines, s: Seq<Value>)
    requires
        forall|name: Seq<char>| #[trigger] funcs.contains_key(name) ==> calls_last(funcs[name]@),
        forall|i: int| 0 <= i < lines.len() ==> calls_last(#[trigger] lines[i]),
    ensures
        match advance(funcs, lines, s) {
            Move::Go(lines2, _) => lines2.len() <= lines.len() && forall|i: int|
                0 <= i < lines2.len() ==> calls_last(#[trigger] lines2[i]),
            Move::Ask(lines2, _, _) => lines2.len() <= lines.len() && forall|i: int|
                0 <= i < lines2.len() ==> calls_last(#[trigger] lines2[i]),
            _ => true,
        },
{
    if lines.len() > 0 {
        let line = lines[lines.len() - 1];
        if line.len() > 0 {
            let rest = line.skip(1);
            lemma_rest_calls_last(line, 1);
            match step(line[0], s) {
                Step::Skip(_, n) => {
                    if n <= rest.len() {
                        lemma_rest_calls_last(rest, n as int);
                    }
                },
                Step::Call(_, name) => {
                    assert(line[0] matches Instr::BBInstr(instr) && instr is FunctionCall);
                    assert(resumed(lines.drop_last(), rest) == lines.drop_last());
                },
                _ => {},
            }
        }
    }
}

/// Recursion has no limit where nothing is left to do after a call: however long functions that call
/// only at their end are carried out, no more is kept of them than was there at the start.
pub proof fn law_last_calls_keep_nothing(
    funcs: Map<Seq<char>, Code>,
    reply: spec_fn(Seq<Effect>) -> Value,
    lines: Lines,
    w: World,
    k: nat,
)
    requires
        forall|name: Seq<char>| #[trigger] funcs.contains_key(name) ==> calls_last(funcs[name]@),
        forall|i: int| 0 <= i < lines.len() ==> calls_last(#[trigger] lines[i]),
    ensures
        moved_on(funcs, reply, lines, w, k) matches Some((lines2, _)) ==> lines2.len()
            <= lines.len() && forall|i: int|
            0 <= i < lines2.len() ==> calls_last(#[trigger] lines2[i]),
    decreases k,
{
    if k > 0 {
        law_last_calls_keep_nothing(funcs, reply, lines, w, (k - 1) as nat);
        if let Some((lines2, w2)) = moved_on(funcs, reply, lines, w, (k - 1) as nat) {
            lemma_move_keeps_nothing(funcs, lines2, w2.stack);
        }
    }
}

/// Where so many moves lead that ask for nothing.
pub open spec fn after_moves(
    funcs: Map<Seq<char>, Code>,
    lines: Lines,
    s: Seq<Value>,
    k: nat,
) -> Option<(Lines, Seq<Value>)>
    decreases k,
{
    if k == 0 {
        Some((lines, s))
    } else {
        match after_moves(funcs, lines, s, (k - 1) as nat) {
            Some((lines2, s2)) => match advance(funcs, lines2, s2) {
                Move::Go(lines3, s3) => Some((lines3, s3)),
                _ => None,
            },
            None => None,
        }
    }
}

/// Whether a pause is the one that is due with these instructions and this stack, `room` being what
/// the stack has room for; and what is left then.
pub open spec fn pauses(
    r: Pause,
    funcs: Map<Seq<char>, Code>,
    lines: Lines,
    s: Seq<Value>,
    room: nat,
    left: Lines,
    after: Seq<Value>,
) -> bool {
    match r {
        Pause::Finished => lines.len() == 0 && left == lines && after == s,
        Pause::Perform(effect) => advance(funcs, lines, s) == Move::Ask(left, after, effect),
        Pause::Failed(ExecError::UnknownFunction(name)) => advance(funcs, lines, s)
            == Move::Unknown(after, name@),
        Pause::Failed(e) => advance(funcs, lines, s) == Move::Stop(after, e),
        Pause::Fault => advance(funcs, lines, s) is Fault && left == lines && after == s,
        Pause::StackFull => {
            &&& lines.len() > 0 && lines.last().len() > 0
            &&& overfills(step(lines.last()[0], s), room)
            &&& left == lines && after == s
        },
        Pause::OutOfSteps => left == lines && after == s,
    }
}

/// Whether a run has paused after `k` moves.
pub open spec fn paused_after(
    k: nat,
    r: Pause,
    funcs: Map<Seq<char>, Code>,
    lines: Lines,
    s: Seq<Value>,
    room: nat,
    left: Lines,
    after: Seq<Value>,
) -> bool {
    match after_moves(funcs, lines, s, k) {
        Some((lines2, s2)) => pauses(r, funcs, lines2, s2, room, left, after),
        None => false,
    }
}

/// Whether instructions from number `pc` on do nothing but skip all that is left.
fn nothing_left(code: &Code, pc: usize) -> (r: bool)
    requires
        pc <= code@.len(),
    ensures
        r == (pc == code@.len() || skips_itself(code@.skip(pc as int))),
{
    let ghost rest = code@.skip(pc as int);
    if pc == code.len() {
        return true;
    }
    if code.len() - pc < 2 {
        return false;
    }
    assert(rest[0] == code@[pc as int] && rest[1] == code@[pc + 1]);
    match (&code[pc], &code[pc + 1]) {
        (
            Instr::BBInstr(BasicBlockInstr::Literal(n)),
            Instr::CFInstr(ControlFlowInstr::Skip),
        ) => match usize::try_from(*n) {
            Ok(n) => n == code.len() - pc - 2,
            Err(_) => false,
        },
        _ => false,
    }
}

/// The functions that are being carried out, with one more or one less.
proof fn lemma_frames(callstack: Seq<Frame>, functions: NameMap<Code>, frame: Frame)
    ensures
        lines_of(callstack.push(frame), functions) == lines_of(callstack, functions).push(
            body(functions, frame.function as int).skip(frame.pc as int),
        ),
        callstack.len() > 0 ==> lines_of(callstack.drop_last(), functions) == lines_of(
            callstack,
            functions,
        ).drop_last(),
{
    assert(lines_of(callstack.push(frame), functions) =~= lines_of(callstack, functions).push(
        body(functions, frame.function as int).skip(frame.pc as int),
    ));
    if callstack.len() > 0 {
        assert(lines_of(callstack.drop_last(), functions) =~= lines_of(
            callstack,
            functions,
        ).drop_last());
    }
}

/// Keeps the rest of a function, if there is any.
fn keep(callstack: &mut CallStack, frame: Frame, functions: &NameMap<Code>)
    requires
        functions.wf(),
        frames_ok(old(callstack)@, *functions),
        frame.function < functions.names().len(),
        frame.pc <= body(*functions, frame.function as int).len(),
    ensures
        frames_ok(final(callstack)@, *functions),
        lines_of(final(callstack)@, *functions) == pushed(
            lines_of(old(callstack)@, *functions),
            body(*functions, frame.function as int).skip(frame.pc as int),
        ),
{
    proof {
        lemma_frames(callstack@, *functions, frame);
    }
    if frame.pc < functions.value_at(frame.function).len() {
        callstack.push(frame);
    }
}

/// Starts a function. Of the one that calls it, the rest is kept if there is anything left to do.
fn enter(callstack: &mut CallStack, frame: Frame, callee: usize, functions: &NameMap<Code>)
    requires
        functions.wf(),
        frames_ok(old(callstack)@, *functions),
        frame.function < functions.names().len(),
        frame.pc <= body(*functions, frame.function as int).len(),
        callee < functions.names().len(),
    ensures
        frames_ok(final(callstack)@, *functions),
        lines_of(final(callstack)@, *functions) == resumed(
            lines_of(old(callstack)@, *functions),
            body(*functions, frame.function as int).skip(frame.pc as int),
        ).push(body(*functions, callee as int)),
{
    let first = Frame { function: callee, pc: 0 };
    proof {
        lemma_frames(callstack@, *functions, frame);
        assert(body(*functions, callee as int).skip(0) =~= body(*functions, callee as int));
    }
    if !nothing_left(functions.value_at(frame.function), frame.pc) {
        callstack.push(frame);
    }
    proof {
        lemma_frames(callstack@, *functions, first);
    }
    callstack.push(first);
}

/// Carries out one instruction of the innermost function; `None` if nothing has to be said of it.
fn move_on(
    stack: &mut Stack,
    functions: &NameMap<Code>,
    callstack: &mut CallStack,
) -> (r: Option<Pause>)
    requires
        old(stack).wf(),
        functions.wf(),
        frames_ok(old(callstack)@, *functions),
    ensures
        final(stack).wf(),
        final(stack).room() == old(stack).room(),
        frames_ok(final(callstack)@, *functions),
        r matches Some(pause) ==> !(pause is OutOfSteps) && pauses(
            pause,
            functions@,
            lines_of(old(callstack)@, *functions),
            old(stack)@,
            old(stack).room(),
            lines_of(final(callstack)@, *functions),
            final(stack)@,
        ),
        r is None ==> advance(
            functions@,
            lines_of(old(callstack)@, *functions),
            old(stack)@,
        ) == Move::Go(lines_of(final(callstack)@, *functions), final(stack)@),
{
    let ghost lines = lines_of(callstack@, *functions);
    let n = callstack.len();
    if n == 0 {
        return Some(Pause::Finished);
    }
    let Frame { function, pc } = callstack[n - 1];
    let code = functions.value_at(function);
    let ghost line = lines.last();
    proof {
        lemma_frames(callstack@, *functions, callstack@.last());
        assert(line == code@.skip(pc as int));
    }
    if pc >= code.len() {
        callstack.pop();
        return None;
    }
    let instr = &code[pc];
    assert(line[0] == *instr);
    assert(line.skip(1) =~= code@.skip(pc + 1));
    if needs_room(stack, instr) {
        return Some(Pause::StackFull);
    }
    if faults(stack, instr) {
        return Some(Pause::Fault);
    }
    callstack.pop();
    let next = Frame { function, pc: pc + 1 };
    match execute(stack, functions, instr) {
        Ok(ExecRes::Executed) => {
            keep(callstack, next, functions);
            None
        },
        Ok(ExecRes::Skip(k)) => {
            if k > code.len() - pc - 1 {
                return Some(Pause::Failed(ExecError::InvalidSkip));
            }
            assert(line.skip(1).skip(k as int) =~= code@.skip(pc + 1 + k));
            keep(callstack, Frame { function, pc: pc + 1 + k }, functions);
            None
        },
        Ok(ExecRes::Perform(effect)) => {
            keep(callstack, next, functions);
            Some(Pause::Perform(effect))
        },
        Ok(ExecRes::Call(name)) => {
            if let Some(callee) = functions.position(name.as_str()) {
                enter(callstack, next, callee, functions);
            }
            None
        },
        Err(e) => Some(Pause::Failed(e)),
    }
}

/// Carries out functions until there is something to say of it, or so many instructions are done.
/// To go on after an effect, the reply is pushed, if there is one, and this is called again.
pub fn exec_function(
    stack: &mut Stack,
    functions: &NameMap<Code>,
    callstack: &mut CallStack,
    steps: u64,
) -> (r: Pause)
    requires
        old(stack).wf(),
        functions.wf(),
        frames_ok(old(callstack)@, *functions),
    ensures
        final(stack).wf(),
        final(stack).room() == old(stack).room(),
        frames_ok(final(callstack)@, *functions),
        exists|k: nat| #[trigger]
            paused_after(
                k,
                r,
                functions@,
                lines_of(old(callstack)@, *functions),
                old(stack)@,
                old(stack).room(),
                lines_of(final(callstack)@, *functions),
                final(stack)@,
            ) && k <= steps && (r is OutOfSteps ==> k == steps),
{
    let ghost lines = lines_of(callstack@, *functions);
    let ghost s = stack@;
    let ghost room = stack.room();
    let mut k: u64 = 0;
    while k < steps
        invariant
            stack.wf(),
            stack.room() == room,
            functions.wf(),
            frames_ok(callstack@, *functions),
            k <= steps,
            lines == lines_of(old(callstack)@, *functions),
            s == old(stack)@,
            room == old(stack).room(),
            after_moves(functions@, lines, s, k as nat) == Some(
                (lines_of(callstack@, *functions), stack@),
            ),
        decreases steps - k,
    {
        if let Some(pause) = move_on(stack, functions, callstack) {
            assert(paused_after(
                k as nat,
                pause,
                functions@,
                lines,
                s,
                room,
                lines_of(callstack@, *functions),
                stack@,
            ));
            return pause;
        }
        k = k + 1;
    }
    assert(paused_after(
        k as nat,
        Pause::OutOfSteps,
        functions@,
        lines,
        s,
        room,
        lines_of(callstack@, *functions),
        stack@,
    ));
    Pause::OutOfSteps
}

} // verus!
