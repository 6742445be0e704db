//! What one move does to the functions that are being carried out.
use vstd::prelude::*;

#[allow(unused_imports)]
use crate::interp::{advance, lines_of, pauses, Frame, Lines, Move, Pause};
use crate::names::NameMap;
#[allow(unused_imports)]
use crate::semantics::{step, Effect, Step};
#[allow(unused_imports)]
use crate::types::{BasicBlockInstr, Code, ControlFlowInstr, ExecError, Instr, Value};

verus! {

/// Functions that are being carried out, the innermost having these instructions left; nothing is
/// kept of it if there are none.
pub open spec fn with_rest(outer: Lines, rest: Seq<Instr>) -> Lines {
    if rest.len() == 0 {
        outer
    } else {
        outer.push(rest)
    }
}

/// A move carries out the first instruction that is left of the innermost function, and goes on with
/// the next one.
pub proof fn law_move_is_a_step(
    funcs: Map<Seq<char>, Code>,
    outer: Lines,
    instr: Instr,
    rest: Seq<Instr>,
    s: Seq<Value>,
)
    ensures
        ({
            let m = advance(funcs, outer.push(seq![instr] + rest), s);
            match step(instr, s) {
                Step::Next(s2) => m == Move::Go(with_rest(outer, rest), s2),
                Step::Perform(s2, effect) => m == Move::Ask(with_rest(outer, rest), s2, effect),
                Step::Fail(s2, e) => m == Move::Stop(s2, e),
                Step::Fault { trapped } => m == (Move::Fault { trapped }),
                _ => true,
            }
        }),
{
    let line = seq![instr] + rest;
    let lines = outer.push(line);
    assert(lines.last() == line);
    assert(lines.drop_last() =~= outer);
    assert(line[0] == instr);
    assert(line.skip(1) =~= rest);
}

/// A move that passes over instructions goes on behind as many as it says, if so many are left; else
/// it is an error.
pub proof fn law_move_skips(
    funcs: Map<Seq<char>, Code>,
    outer: Lines,
    instr: Instr,
    passed: Seq<Instr>,
    rest: Seq<Instr>,
    s: Seq<Value>,
    s2: Seq<Value>,
    n: nat,
)
    requires
        step(instr, s) == Step::Skip(s2, n),
    ensures
        passed.len() == n ==> advance(funcs, outer.push(seq![instr] + (passed + rest)), s)
            == Move::Go(with_rest(outer, rest), s2),
        passed.len() < n ==> advance(funcs, outer.push(seq![instr] + passed), s) == Move::Stop(
            s2,
            ExecError::InvalidSkip,
        ),
{
    let line = seq![instr] + (passed + rest);
    let lines = outer.push(line);
    assert(lines.last() == line);
    assert(lines.drop_last() =~= outer);
    assert(line[0] == instr);
    assert(line.skip(1) =~= passed + rest);
    if passed.len() == n {
        assert((passed + rest).skip(n as int) =~= rest);
    }
    let short = seq![instr] + passed;
    assert(outer.push(short).last() == short);
    assert(outer.push(short).drop_last() =~= outer);
    assert(short[0] == instr);
    assert(short.skip(1) =~= passed);
}

/// A move that calls starts the function from its first instruction, with the stack as it is. The
/// rest of the caller is kept unless there is nothing left to do in it, because nothing is left or
/// all that is left is to pass over itself.
pub proof fn law_move_calls(
    funcs: Map<Seq<char>, Code>,
    outer: Lines,
    name: String,
    rest: Seq<Instr>,
    s: Seq<Value>,
)
    ensures
        ({
            let call = Instr::BBInstr(BasicBlockInstr::FunctionCall(name));
            let m = advance(funcs, outer.push(seq![call] + rest), s);
            let over = rest.len() >= 2 && (rest[0] matches Instr::BBInstr(BasicBlockInstr::Literal(n))
                && 0 <= n <= usize::MAX && n == rest.len() - 2) && rest[1] == Instr::CFInstr(
                ControlFlowInstr::Skip,
            );
            &&& !funcs.contains_key(name@) ==> m == Move::Unknown(s, name@)
            &&& funcs.contains_key(name@) && (rest.len() == 0 || over) ==> m == Move::Go(
                outer.push(funcs[name@]@),
                s,
            )
            &&& funcs.contains_key(name@) && rest.len() > 0 && !over ==> m == Move::Go(
                outer.push(rest).push(funcs[name@]@),
                s,
            )
        }),
{
    let call = Instr::BBInstr(BasicBlockInstr::FunctionCall(name));
    let line = seq![call] + rest;
    let lines = outer.push(line);
    assert(lines.last() == line);
    assert(lines.drop_last() =~= outer);
    assert(line[0] == call);
    assert(line.skip(1) =~= rest);
}

/// A function without instructions left gives way to the one that called it; without one, the run is
/// finished.
pub proof fn law_move_ends(funcs: Map<Seq<char>, Code>, outer: Lines, s: Seq<Value>)
    ensures
        advance(funcs, outer.push(Seq::empty()), s) == Move::Go(outer, s),
        advance(funcs, Seq::empty(), s) == Move::Finished,
{
    let lines = outer.push(Seq::<Instr>::empty());
    assert(lines.last() == Seq::<Instr>::empty());
    assert(lines.drop_last() =~= outer);
}

/// A pause says what the next instruction does: which effect is asked for, or which error it is, and
/// with which stack. There is no room just where all of it is taken and one more value is due, and
/// the run is finished just where nothing is left.
pub proof fn law_pause_says_why(
    r: Pause,
    funcs: Map<Seq<char>, Code>,
    outer: Lines,
    instr: Instr,
    rest: Seq<Instr>,
    s: Seq<Value>,
    room: nat,
    left: Lines,
    after: Seq<Value>,
)
    requires
        s.len() <= room,
        pauses(r, funcs, outer.push(seq![instr] + rest), s, room, left, after),
    ensures
        !(r is Finished),
        r matches Pause::Perform(effect) ==> step(instr, s) == Step::Perform(after, effect) && left
            == with_rest(outer, rest),
        r matches Pause::Failed(e) ==> (match e {
            ExecError::UnknownFunction(name) => step(instr, s) == Step::Call(after, name@)
                && !funcs.contains_key(name@),
            ExecError::InvalidSkip => step(instr, s) == Step::Fail(after, e) || (step(instr, s) matches
                Step::Skip(s2, n) && s2 == after && n > rest.len()),
            _ => step(instr, s) == Step::Fail(after, e),
        }),
        r is Fault ==> step(instr, s) is Fault && after == s && left == outer.push(
            seq![instr] + rest,
        ),
        r is StackFull ==> (step(instr, s) matches Step::Next(s2) && s2.len() > room) && after == s
            && left == outer.push(seq![instr] + rest),
        r is OutOfSteps ==> after == s && left == outer.push(seq![instr] + rest),
{
    let line = seq![instr] + rest;
    let lines = outer.push(line);
    assert(lines.last() == line);
    assert(lines.drop_last() =~= outer);
    assert(line[0] == instr);
    assert(line.skip(1) =~= rest);
}

/// What is left of functions that are being carried out: of each, the instructions of its body from
/// the next one on.
pub proof fn law_what_is_left(callstack: Seq<Frame>, functions: NameMap<Code>, i: int)
    requires
        0 <= i < callstack.len(),
    ensures
        lines_of(callstack, functions).len() == callstack.len(),
        lines_of(callstack, functions)[i] == functions@[functions.names()[callstack[i].function as int]]@.skip(
            callstack[i].pc as int,
        ),
{
}

/// Where nothing is left to do, a pause can only say so, or that there was no more time.
pub proof fn law_pause_at_the_end(
    r: Pause,
    funcs: Map<Seq<char>, Code>,
    s: Seq<Value>,
    room: nat,
    left: Lines,
    after: Seq<Value>,
)
    requires
        pauses(r, funcs, Seq::empty(), s, room, left, after),
    ensures
        r is Finished || r is OutOfSteps,
        after == s,
        left == Lines::empty(),
{
}

} // verus!
