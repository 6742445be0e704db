//! What instructions do: to a stack, to the world around the program, and to a run as a whole.
use vstd::prelude::*;

#[allow(unused_imports)]
use crate::builtins::{arith, arith_faults};
use crate::types::{BasicBlockInstr, ControlFlowInstr, ExecError, Instr, MemOp, Value, VALUE_BITS};

verus! {

/// Something that an instruction asks of the world outside the stack.
#[derive(Debug, Clone, Copy, PartialEq, Eq, Structural)]
pub enum Effect {
    Print(Value),
    Read8(Value),
    Write8 { addr: Value, byte: u8 },
    ReadNative(Value),
    WriteNative { addr: Value, value: Value },
    Syscall {
        number: Value,
        a1: Value,
        a2: Value,
        a3: Value,
        a4: Value,
        a5: Value,
        a6: Value,
    },
}

impl Effect {
    /// Whether the world answers with a value, which then goes on the stack.
    pub open spec fn has_reply(self) -> bool {
        self is Read8 || self is ReadNative || self is Syscall
    }

    /// Whether the world answers with a value, which then goes on the stack.
    pub fn replies(&self) -> (r: bool)
        ensures
            r == self.has_reply(),
    {
        match self {
            Effect::Read8(_) | Effect::ReadNative(_) | Effect::Syscall { .. } => true,
            Effect::Print(_) | Effect::Write8 { .. } | Effect::WriteNative { .. } => false,
        }
    }
}

/// What one instruction makes of a stack.
pub enum Step {
    /// The instruction is done.
    Next(Seq<Value>),
    /// The instruction is done, and so many of those that follow are passed over.
    Skip(Seq<Value>, nat),
    /// The operands are off the stack, and the world is asked for an effect.
    Perform(Seq<Value>, Effect),
    /// A function is called.
    Call(Seq<Value>, Seq<char>),
    /// The run ends with an error.
    Fail(Seq<Value>, ExecError),
    /// There is nothing that the instruction could mean here: its operands have no result, and it is
    /// trapped, or they do not suit it.
    Fault { trapped: bool },
}

/// The stack without its top `n` values.
pub open spec fn below(s: Seq<Value>, n: int) -> Seq<Value> {
    s.take(s.len() - n)
}

/// The value number `n` from the top, the topmost being number 1.
pub open spec fn top(s: Seq<Value>, n: int) -> Value {
    s[s.len() - n]
}

/// A stack that is too short: all of it has been popped in the search for operands.
pub open spec fn too_short() -> Step {
    Step::Fail(Seq::empty(), ExecError::MissingArguments)
}

/// `s` without the lowest `amt` of its top `start` values.
pub open spec fn without_range(s: Seq<Value>, start: int, amt: int) -> Seq<Value> {
    below(s, start) + s.skip(s.len() - start + amt)
}

/// Whether a value can serve as a count or a distance.
pub open spec fn is_index(n: Value) -> bool {
    0 <= n <= usize::MAX
}

/// `pick` with a known distance.
pub open spec fn pick_step(s: Seq<Value>, n: int) -> Step {
    if 1 <= n <= s.len() {
        Step::Next(s.push(top(s, n)))
    } else {
        Step::Fail(s, ExecError::InvalidPick)
    }
}

/// `drop_range` with known bounds.
pub open spec fn drop_range_step(s: Seq<Value>, start: int, amt: int) -> Step {
    if 0 <= amt <= start <= s.len() {
        Step::Next(without_range(s, start, amt))
    } else {
        Step::Fail(s, ExecError::InvalidDropRange)
    }
}

/// What an instruction that leads to the next one does.
pub open spec fn basic_step(instr: BasicBlockInstr, s: Seq<Value>) -> Step {
    match instr {
        BasicBlockInstr::Literal(n) => Step::Next(s.push(n)),
        BasicBlockInstr::FunctionCall(name) => Step::Call(s, name@),
        BasicBlockInstr::Quit => Step::Fail(s, ExecError::Quit),
        BasicBlockInstr::Print => if s.len() < 1 {
            too_short()
        } else {
            Step::Perform(below(s, 1), Effect::Print(top(s, 1)))
        },
        BasicBlockInstr::Syscall => if s.len() < 7 {
            too_short()
        } else {
            Step::Perform(
                below(s, 7),
                Effect::Syscall {
                    number: top(s, 7),
                    a1: top(s, 6),
                    a2: top(s, 5),
                    a3: top(s, 4),
                    a4: top(s, 3),
                    a5: top(s, 2),
                    a6: top(s, 1),
                },
            )
        },
        BasicBlockInstr::Drop => if s.len() < 1 {
            too_short()
        } else {
            Step::Next(below(s, 1))
        },
        BasicBlockInstr::Swap => if s.len() < 2 {
            too_short()
        } else {
            Step::Next(below(s, 2).push(top(s, 1)).push(top(s, 2)))
        },
        BasicBlockInstr::Rot => if s.len() < 3 {
            too_short()
        } else {
            Step::Next(below(s, 3).push(top(s, 2)).push(top(s, 1)).push(top(s, 3)))
        },
        BasicBlockInstr::Arith(op) => if s.len() < 2 {
            too_short()
        } else if arith_faults(op, top(s, 2), top(s, 1)) {
            Step::Fault { trapped: true }
        } else {
            match arith(op, top(s, 2), top(s, 1)) {
                Some(v) => Step::Next(below(s, 2).push(v)),
                None => Step::Fail(below(s, 2), ExecError::InvalidExponent),
            }
        },
        BasicBlockInstr::Mem(op) => match op {
            MemOp::Read8 => if s.len() < 1 {
                too_short()
            } else {
                Step::Perform(below(s, 1), Effect::Read8(top(s, 1)))
            },
            MemOp::ReadNative => if s.len() < 1 {
                too_short()
            } else {
                Step::Perform(below(s, 1), Effect::ReadNative(top(s, 1)))
            },
            MemOp::Write8 => if s.len() < 1 {
                too_short()
            } else if !(0 <= top(s, 1) <= u8::MAX) {
                Step::Fault { trapped: false }
            } else if s.len() < 2 {
                too_short()
            } else {
                Step::Perform(
                    below(s, 2),
                    Effect::Write8 { addr: top(s, 2), byte: top(s, 1) as u8 },
                )
            },
            MemOp::WriteNative => if s.len() < 2 {
                too_short()
            } else {
                Step::Perform(
                    below(s, 2),
                    Effect::WriteNative { addr: top(s, 2), value: top(s, 1) },
                )
            },
            MemOp::WidthNative => Step::Next(s.push(VALUE_BITS)),
        },
        BasicBlockInstr::BadPick => if s.len() < 1 {
            too_short()
        } else if !is_index(top(s, 1)) {
            Step::Fail(below(s, 1), ExecError::InvalidPick)
        } else {
            pick_step(below(s, 1), top(s, 1) as int)
        },
        BasicBlockInstr::ResolvedPick(n) => pick_step(s, n as int),
        BasicBlockInstr::BadDropRange => if s.len() < 1 {
            too_short()
        } else if !is_index(top(s, 1)) {
            Step::Fail(below(s, 1), ExecError::InvalidDropRange)
        } else if s.len() < 2 {
            too_short()
        } else if !is_index(top(s, 2)) {
            Step::Fail(below(s, 2), ExecError::InvalidDropRange)
        } else {
            drop_range_step(below(s, 2), top(s, 2) as int, top(s, 1) as int)
        },
        BasicBlockInstr::ResolvedDropRange { start, amt } => drop_range_step(
            s,
            start as int,
            amt as int,
        ),
        BasicBlockInstr::Trap(_) => Step::Fault { trapped: true },
    }
}

/// How many instructions `if` passes over when its condition is zero.
pub const IF_DISTANCE: usize = 3;

/// What an instruction does.
pub open spec fn step(instr: Instr, s: Seq<Value>) -> Step {
    match instr {
        Instr::BBInstr(i) => basic_step(i, s),
        Instr::CFInstr(ControlFlowInstr::If) => if s.len() < 1 {
            too_short()
        } else if top(s, 1) == 0 {
            Step::Skip(below(s, 1), IF_DISTANCE as nat)
        } else {
            Step::Next(below(s, 1))
        },
        Instr::CFInstr(ControlFlowInstr::Skip) => if s.len() < 1 {
            too_short()
        } else if !is_index(top(s, 1)) {
            Step::Fail(below(s, 1), ExecError::InvalidSkip)
        } else {
            Step::Skip(below(s, 1), top(s, 1) as nat)
        },
    }
}

/// Whether a step leaves more values than there is room for.
pub open spec fn overfills(step: Step, room: nat) -> bool {
    step matches Step::Next(s) && s.len() > room
}

/// A stack together with the effects that there have been.
pub struct World {
    pub stack: Seq<Value>,
    pub log: Seq<Effect>,
}

/// How a run, or a part of one, comes out.
pub enum Outcome {
    /// It reached its end.
    Done(World),
    /// It quit.
    Stopped(Seq<Effect>),
    /// It ended in an error that compiled code runs into as well: at a trap, at a skip that leads
    /// nowhere, or at arithmetic without a result.
    Failed(Seq<Effect>),
    /// It ended because operands were not there, or did not suit an instruction. Compiled code does
    /// not look for that.
    Astray(Seq<Effect>),
    /// It did not come to an end.
    Unfinished,
}

/// What a run meets outside itself: the replies to effects, and the functions that it calls.
pub struct Surroundings {
    /// The reply to the last of the effects, given all that went before it.
    pub reply: spec_fn(Seq<Effect>) -> Value,
    /// What a call of a function makes of the world.
    pub call: spec_fn(Seq<char>, World) -> Outcome,
}

/// The world after an effect.
pub open spec fn perform(s: Seq<Value>, log: Seq<Effect>, effect: Effect, env: Surroundings) -> World {
    let log2 = log.push(effect);
    World {
        stack: if effect.has_reply() {
            s.push((env.reply)(log2))
        } else {
            s
        },
        log: log2,
    }
}

/// How a run comes out that an error ends.
pub open spec fn ended_by(e: ExecError, log: Seq<Effect>) -> Outcome {
    match e {
        ExecError::Quit => Outcome::Stopped(log),
        ExecError::MissingArguments => Outcome::Astray(log),
        ExecError::InvalidPick => Outcome::Astray(log),
        ExecError::InvalidDropRange => Outcome::Astray(log),
        _ => Outcome::Failed(log),
    }
}

/// How a run comes out that a fault ends.
pub open spec fn faulted(trapped: bool, log: Seq<Effect>) -> Outcome {
    if trapped {
        Outcome::Failed(log)
    } else {
        Outcome::Astray(log)
    }
}

/// How a step comes out.
pub open spec fn settle(step: Step, log: Seq<Effect>, env: Surroundings) -> Outcome {
    match step {
        Step::Next(s) => Outcome::Done(World { stack: s, log }),
        Step::Skip(s, _) => Outcome::Done(World { stack: s, log }),
        Step::Perform(s, effect) => Outcome::Done(perform(s, log, effect, env)),
        Step::Call(s, name) => (env.call)(name, World { stack: s, log }),
        Step::Fail(_, e) => ended_by(e, log),
        Step::Fault { trapped } => faulted(trapped, log),
    }
}

/// One instruction, carried out in a world.
pub open spec fn run_instr(instr: BasicBlockInstr, w: World, env: Surroundings) -> Outcome {
    settle(basic_step(instr, w.stack), w.log, env)
}

/// A stretch of instructions from number `i` on, carried out one after the other.
pub open spec fn run_from(code: Seq<BasicBlockInstr>, i: int, w: World, env: Surroundings) -> Outcome
    decreases code.len() - i,
{
    if i < 0 || i >= code.len() {
        Outcome::Done(w)
    } else {
        match run_instr(code[i], w, env) {
            Outcome::Done(w2) => run_from(code, i + 1, w2, env),
            other => other,
        }
    }
}

/// The body of a function from instruction number `pc` on.
pub open spec fn run_raw(code: Seq<Instr>, pc: int, w: World, env: Surroundings) -> Outcome
    decreases code.len() - pc,
{
    if pc < 0 || pc >= code.len() {
        Outcome::Done(w)
    } else {
        match step(code[pc], w.stack) {
            Step::Skip(s, n) => if pc + 1 + n <= code.len() {
                run_raw(code, pc + 1 + n, World { stack: s, log: w.log }, env)
            } else {
                Outcome::Failed(w.log)
            },
            other => match settle(other, w.log, env) {
                Outcome::Done(w2) => run_raw(code, pc + 1, w2, env),
                end => end,
            },
        }
    }
}

/// `swap` undoes `swap`.
pub proof fn law_swap_undoes_swap(s: Seq<Value>)
    requires
        s.len() >= 2,
    ensures
        basic_step(BasicBlockInstr::Swap, s) matches Step::Next(s2) && basic_step(
            BasicBlockInstr::Swap,
            s2,
        ) == Step::Next(s),
{
    let s2 = below(s, 2).push(top(s, 1)).push(top(s, 2));
    assert(below(s2, 2).push(top(s2, 1)).push(top(s2, 2)) =~= s);
}

/// `rot` three times changes nothing.
pub proof fn law_rot_comes_round(s: Seq<Value>)
    requires
        s.len() >= 3,
    ensures
        basic_step(BasicBlockInstr::Rot, s) matches Step::Next(s2) && (basic_step(
            BasicBlockInstr::Rot,
            s2,
        ) matches Step::Next(s3) && basic_step(BasicBlockInstr::Rot, s3) == Step::Next(s)),
{
    let s2 = below(s, 3).push(top(s, 2)).push(top(s, 1)).push(top(s, 3));
    let s3 = below(s2, 3).push(top(s2, 2)).push(top(s2, 1)).push(top(s2, 3));
    assert(below(s3, 3).push(top(s3, 2)).push(top(s3, 1)).push(top(s3, 3)) =~= s);
}

/// `drop` undoes what pushes a value, and `drop_range` of one value out of one is `drop`.
pub proof fn law_drop_undoes_push(s: Seq<Value>, v: Value)
    ensures
        basic_step(BasicBlockInstr::Literal(v), s) == Step::Next(s.push(v)),
        basic_step(BasicBlockInstr::Drop, s.push(v)) == Step::Next(s),
        drop_range_step(s.push(v), 1, 1) == Step::Next(s),
{
    assert(below(s.push(v), 1) =~= s);
    assert(without_range(s.push(v), 1, 1) =~= s);
}

/// `pick` copies: with the literal before it, or with its operand on the stack, it pushes the value
/// at that distance, and changes nothing below.
pub proof fn law_pick_copies(s: Seq<Value>, n: Value)
    requires
        1 <= n <= s.len(),
        is_index(n),
    ensures
        basic_step(BasicBlockInstr::BadPick, s.push(n)) == Step::Next(s.push(top(s, n as int))),
        basic_step(BasicBlockInstr::ResolvedPick(n as usize), s) == Step::Next(
            s.push(top(s, n as int)),
        ),
{
    assert(below(s.push(n), 1) =~= s);
}

/// Whether an effect can change the cell of memory at an address.
pub open spec fn touches_cell(effect: Effect, addr: Value) -> bool {
    match effect {
        Effect::Write8 { addr: a, .. } => addr <= a < addr + 8,
        Effect::WriteNative { addr: a, .. } => addr - 8 < a < addr + 8,
        Effect::Syscall { .. } => true,
        _ => false,
    }
}

/// The value that was written to the cell of memory at an address, if nothing can have changed it
/// since.
pub open spec fn last_written(log: Seq<Effect>, addr: Value) -> Option<Value>
    decreases log.len(),
{
    if log.len() == 0 {
        None
    } else {
        match log.last() {
            Effect::WriteNative { addr: a, value } if a == addr => Some(value),
            effect => if touches_cell(effect, addr) {
                None
            } else {
                last_written(log.drop_last(), addr)
            },
        }
    }
}

/// Whether the world keeps what is written to memory: a cell that is read is what was written there
/// last, if nothing can have changed it since.
pub open spec fn keeps_memory(reply: spec_fn(Seq<Effect>) -> Value) -> bool {
    forall|log: Seq<Effect>, addr: Value|
        last_written(log, addr) is Some ==> #[trigger] reply(log.push(Effect::ReadNative(addr)))
            == last_written(log, addr)->0
}

/// What has been written stays as long as nothing can change it.
proof fn lemma_last_written(log: Seq<Effect>, since: Seq<Effect>, addr: Value)
    requires
        forall|i: int| 0 <= i < since.len() ==> !touches_cell(#[trigger] since[i], addr),
    ensures
        last_written(log + since, addr) == last_written(log, addr),
    decreases since.len(),
{
    if since.len() == 0 {
        assert(log + since =~= log);
    } else {
        let all = log + since;
        assert(all.last() == since[since.len() - 1]);
        assert(all.drop_last() =~= log + since.drop_last());
        assert forall|i: int| 0 <= i < since.len() - 1 implies !touches_cell(
            #[trigger] since.drop_last()[i],
            addr,
        ) by {
            assert(since.drop_last()[i] == since[i]);
        }
        lemma_last_written(log, since.drop_last(), addr);
    }
}

/// In a world that keeps memory, `read_native` gives back what `write_native` wrote, whatever
/// happens in between that cannot change it. The write leaves what was below its operands, and the
/// read puts the value in the place of the address.
pub proof fn law_read_gives_back_write(
    s: Seq<Value>,
    addr: Value,
    v: Value,
    log: Seq<Effect>,
    since: Seq<Effect>,
    later: Seq<Value>,
    env: Surroundings,
)
    requires
        keeps_memory(env.reply),
        forall|i: int| 0 <= i < since.len() ==> !touches_cell(#[trigger] since[i], addr),
    ensures
        ({
            let written = log.push(Effect::WriteNative { addr, value: v });
            let read = (written + since).push(Effect::ReadNative(addr));
            &&& run_instr(
                BasicBlockInstr::Mem(MemOp::WriteNative),
                World { stack: s.push(addr).push(v), log },
                env,
            ) == Outcome::Done(World { stack: s, log: written })
            &&& run_instr(
                BasicBlockInstr::Mem(MemOp::ReadNative),
                World { stack: later.push(addr), log: written + since },
                env,
            ) == Outcome::Done(World { stack: later.push(v), log: read })
        }),
{
    let written = log.push(Effect::WriteNative { addr, value: v });
    assert(below(s.push(addr).push(v), 2) =~= s);
    assert(below(later.push(addr), 1) =~= later);
    assert(written.last() == (Effect::WriteNative { addr, value: v }));
    lemma_last_written(written, since, addr);
}

/// Whether an effect can change the byte of memory at an address.
pub open spec fn touches_byte(effect: Effect, addr: Value) -> bool {
    match effect {
        Effect::Write8 { addr: a, .. } => a == addr,
        Effect::WriteNative { addr: a, .. } => a <= addr < a + 8,
        Effect::Syscall { .. } => true,
        _ => false,
    }
}

/// The byte that was written to memory at an address, if nothing can have changed it since.
pub open spec fn last_byte(log: Seq<Effect>, addr: Value) -> Option<u8>
    decreases log.len(),
{
    if log.len() == 0 {
        None
    } else {
        match log.last() {
            Effect::Write8 { addr: a, byte } if a == addr => Some(byte),
            effect => if touches_byte(effect, addr) {
                None
            } else {
                last_byte(log.drop_last(), addr)
            },
        }
    }
}

/// Whether the world keeps memory byte by byte: what is read at an address is a byte, and the one
/// that was written there last, if nothing can have changed it since.
pub open spec fn keeps_bytes(reply: spec_fn(Seq<Effect>) -> Value) -> bool {
    forall|log: Seq<Effect>, addr: Value|
        0 <= #[trigger] reply(log.push(Effect::Read8(addr))) <= u8::MAX && (last_byte(
            log,
            addr,
        ) is Some ==> reply(log.push(Effect::Read8(addr))) == last_byte(log, addr)->0)
}

/// A byte that has been written stays as long as nothing can change it.
proof fn lemma_last_byte(log: Seq<Effect>, since: Seq<Effect>, addr: Value)
    requires
        forall|i: int| 0 <= i < since.len() ==> !touches_byte(#[trigger] since[i], addr),
    ensures
        last_byte(log + since, addr) == last_byte(log, addr),
    decreases since.len(),
{
    if since.len() == 0 {
        assert(log + since =~= log);
    } else {
        let all = log + since;
        assert(all.last() == since[since.len() - 1]);
        assert(all.drop_last() =~= log + since.drop_last());
        assert forall|i: int| 0 <= i < since.len() - 1 implies !touches_byte(
            #[trigger] since.drop_last()[i],
            addr,
        ) by {
            assert(since.drop_last()[i] == since[i]);
        }
        lemma_last_byte(log, since.drop_last(), addr);
    }
}

/// In a world that keeps memory byte by byte, `read8` gives back what `write8` wrote, whatever
/// happens in between that cannot change it. The write leaves what was below its operands, and the
/// read puts the byte in the place of the address.
pub proof fn law_read8_gives_back_write8(
    s: Seq<Value>,
    addr: Value,
    byte: u8,
    log: Seq<Effect>,
    since: Seq<Effect>,
    later: Seq<Value>,
    env: Surroundings,
)
    requires
        keeps_bytes(env.reply),
        forall|i: int| 0 <= i < since.len() ==> !touches_byte(#[trigger] since[i], addr),
    ensures
        ({
            let written = log.push(Effect::Write8 { addr, byte });
            let read = (written + since).push(Effect::Read8(addr));
            &&& run_instr(
                BasicBlockInstr::Mem(MemOp::Write8),
                World { stack: s.push(addr).push(byte as i64), log },
                env,
            ) == Outcome::Done(World { stack: s, log: written })
            &&& run_instr(
                BasicBlockInstr::Mem(MemOp::Read8),
                World { stack: later.push(addr), log: written + since },
                env,
            ) == Outcome::Done(World { stack: later.push(byte as i64), log: read })
        }),
{
    let written = log.push(Effect::Write8 { addr, byte });
    assert(below(s.push(addr).push(byte as i64), 2) =~= s);
    assert(below(later.push(addr), 1) =~= later);
    assert(written.last() == (Effect::Write8 { addr, byte }));
    lemma_last_byte(written, since, addr);
}

/// In a world that keeps memory byte by byte, what `read8` pushes is a byte, at every address.
pub proof fn law_read8_pushes_a_byte(s: Seq<Value>, addr: Value, log: Seq<Effect>, env: Surroundings)
    requires
        keeps_bytes(env.reply),
    ensures
        run_instr(BasicBlockInstr::Mem(MemOp::Read8), World { stack: s.push(addr), log }, env) matches
            Outcome::Done(w) && w.stack.len() == s.len() + 1 && w.stack.take(s.len() as int) == s
            && 0 <= w.stack.last() <= u8::MAX,
{
    assert(below(s.push(addr), 1) =~= s);
    let w = perform(s, log, Effect::Read8(addr), env);
    assert(w.stack.take(s.len() as int) =~= s);
}

/// `print` and the writes leave what was below their operands; the reads and the calls of the system
/// put the reply in the place of theirs. Each is asked of the world once, and after all before it.
pub proof fn law_effects_are_asked_once(
    s: Seq<Value>,
    a: Value,
    v: Value,
    log: Seq<Effect>,
    env: Surroundings,
)
    ensures
        run_instr(BasicBlockInstr::Print, World { stack: s.push(a), log }, env) == Outcome::Done(
            World { stack: s, log: log.push(Effect::Print(a)) },
        ),
        run_instr(
            BasicBlockInstr::Mem(MemOp::WriteNative),
            World { stack: s.push(a).push(v), log },
            env,
        ) == Outcome::Done(
            World { stack: s, log: log.push(Effect::WriteNative { addr: a, value: v }) },
        ),
        run_instr(BasicBlockInstr::Mem(MemOp::Read8), World { stack: s.push(a), log }, env)
            == Outcome::Done(
            World {
                stack: s.push((env.reply)(log.push(Effect::Read8(a)))),
                log: log.push(Effect::Read8(a)),
            },
        ),
        run_instr(BasicBlockInstr::Mem(MemOp::ReadNative), World { stack: s.push(a), log }, env)
            == Outcome::Done(
            World {
                stack: s.push((env.reply)(log.push(Effect::ReadNative(a)))),
                log: log.push(Effect::ReadNative(a)),
            },
        ),
{
    assert(below(s.push(a), 1) =~= s);
    assert(below(s.push(a).push(v), 2) =~= s);
}

/// The reply to a call of the system goes in the place of its seven operands.
pub proof fn law_syscall_is_asked_once(
    s: Seq<Value>,
    operands: Seq<Value>,
    log: Seq<Effect>,
    env: Surroundings,
)
    requires
        operands.len() == 7,
    ensures
        ({
            let asked = log.push(
                Effect::Syscall {
                    number: operands[0],
                    a1: operands[1],
                    a2: operands[2],
                    a3: operands[3],
                    a4: operands[4],
                    a5: operands[5],
                    a6: operands[6],
                },
            );
            run_instr(BasicBlockInstr::Syscall, World { stack: s + operands, log }, env)
                == Outcome::Done(World { stack: s.push((env.reply)(asked)), log: asked })
        }),
{
    assert(below(s + operands, 7) =~= s);
}

/// An operand that was a literal before the instruction does what it does on the stack.
pub proof fn law_known_operands(s: Seq<Value>, n: Value, m: Value)
    requires
        is_index(n),
        is_index(m),
    ensures
        basic_step(BasicBlockInstr::ResolvedPick(n as usize), s) == basic_step(
            BasicBlockInstr::BadPick,
            s.push(n),
        ),
        basic_step(BasicBlockInstr::ResolvedDropRange { start: n as usize, amt: m as usize }, s)
            == basic_step(BasicBlockInstr::BadDropRange, s.push(n).push(m)),
{
    assert(below(s.push(n), 1) =~= s);
    assert(below(s.push(n).push(m), 2) =~= s);
}

/// Whether there are too few values for an instruction, or they do not suit it.
pub open spec fn operands_amiss(instr: BasicBlockInstr, s: Seq<Value>) -> bool {
    match instr {
        BasicBlockInstr::Print | BasicBlockInstr::Drop => s.len() == 0,
        BasicBlockInstr::Swap | BasicBlockInstr::Arith(_) => s.len() < 2,
        BasicBlockInstr::Rot => s.len() < 3,
        BasicBlockInstr::Syscall => s.len() < 7,
        BasicBlockInstr::Mem(MemOp::Read8) | BasicBlockInstr::Mem(MemOp::ReadNative) => s.len()
            == 0,
        BasicBlockInstr::Mem(MemOp::WriteNative) => s.len() < 2,
        BasicBlockInstr::Mem(MemOp::Write8) => s.len() < 2 || !(0 <= s.last() < 256),
        BasicBlockInstr::BadPick => s.len() == 0 || !(1 <= s.last() < s.len()) || s.last()
            > usize::MAX,
        BasicBlockInstr::ResolvedPick(n) => !(1 <= n <= s.len()),
        BasicBlockInstr::BadDropRange => s.len() < 2 || !(0 <= s.last() <= s[s.len() - 2]
            <= s.len() - 2) || s[s.len() - 2] > usize::MAX,
        BasicBlockInstr::ResolvedDropRange { start, amt } => !(amt <= start <= s.len()),
        _ => false,
    }
}

/// An instruction goes astray just where there are too few values for it, or they do not suit it.
pub proof fn law_what_goes_astray(instr: BasicBlockInstr, w: World, env: Surroundings)
    requires
        !(instr is FunctionCall),
    ensures
        run_instr(instr, w, env) is Astray <==> operands_amiss(instr, w.stack),
        run_instr(instr, w, env) matches Outcome::Astray(log) ==> log == w.log,
{
}

/// An instruction with operands that suit it fails just where it is a trap, or arithmetic that has
/// no result, and stops the program just where it is `quit`. The world has been asked nothing then.
pub proof fn law_what_fails(instr: BasicBlockInstr, w: World, env: Surroundings)
    requires
        !(instr is FunctionCall),
        !operands_amiss(instr, w.stack),
    ensures
        run_instr(instr, w, env) is Stopped <==> instr is Quit,
        run_instr(instr, w, env) is Failed <==> instr is Trap || (instr matches
            BasicBlockInstr::Arith(op) && (arith_faults(op, top(w.stack, 2), top(w.stack, 1))
            || arith(op, top(w.stack, 2), top(w.stack, 1)) is None)),
        !(run_instr(instr, w, env) is Unfinished),
        run_instr(instr, w, env) matches Outcome::Stopped(log) ==> log == w.log,
        run_instr(instr, w, env) matches Outcome::Failed(log) ==> log == w.log,
{
}

/// In a body, `if` goes on behind itself where it finds a value other than zero; else it passes over
/// three instructions, if there are so many left, and fails if there are not.
pub proof fn law_if_in_a_body(
    code: Seq<Instr>,
    pc: int,
    s: Seq<Value>,
    v: Value,
    log: Seq<Effect>,
    env: Surroundings,
)
    requires
        0 <= pc < code.len(),
        code[pc] == Instr::CFInstr(ControlFlowInstr::If),
    ensures
        v != 0 ==> run_raw(code, pc, World { stack: s.push(v), log }, env) == run_raw(
            code,
            pc + 1,
            World { stack: s, log },
            env,
        ),
        v == 0 && code.len() - pc >= 4 ==> run_raw(code, pc, World { stack: s.push(v), log }, env)
            == run_raw(code, pc + 4, World { stack: s, log }, env),
        v == 0 && code.len() - pc < 4 ==> run_raw(code, pc, World { stack: s.push(v), log }, env)
            == Outcome::Failed(log),
        run_raw(code, pc, World { stack: Seq::empty(), log }, env) == Outcome::Astray(log),
{
    assert(below(s.push(v), 1) =~= s);
    if code.len() - pc == 4 {
        assert(run_raw(code, pc + 4, World { stack: s, log }, env) == Outcome::Done(
            World { stack: s, log },
        ));
    }
}

/// In a body, `skip` passes over as many instructions as it is told to, if there are so many left.
pub proof fn law_skip_in_a_body(
    code: Seq<Instr>,
    pc: int,
    s: Seq<Value>,
    n: Value,
    log: Seq<Effect>,
    env: Surroundings,
)
    requires
        0 <= pc < code.len() <= usize::MAX,
        code[pc] == Instr::CFInstr(ControlFlowInstr::Skip),
    ensures
        0 <= n < code.len() - pc ==> run_raw(code, pc, World { stack: s.push(n), log }, env)
            == run_raw(code, pc + 1 + n, World { stack: s, log }, env),
        !(0 <= n < code.len() - pc) ==> run_raw(code, pc, World { stack: s.push(n), log }, env)
            == Outcome::Failed(log),
        run_raw(code, pc, World { stack: Seq::empty(), log }, env) == Outcome::Astray(log),
{
    assert(below(s.push(n), 1) =~= s);
}

/// In a body, the instruction behind one that comes to its end follows.
pub proof fn law_body_goes_on(
    code: Seq<Instr>,
    pc: int,
    instr: BasicBlockInstr,
    w: World,
    env: Surroundings,
)
    requires
        0 <= pc < code.len(),
        code[pc] == Instr::BBInstr(instr),
    ensures
        run_instr(instr, w, env) matches Outcome::Done(w2) ==> run_raw(code, pc, w, env) == run_raw(
            code,
            pc + 1,
            w2,
            env,
        ),
        !(run_instr(instr, w, env) is Done) ==> run_raw(code, pc, w, env) == run_instr(
            instr,
            w,
            env,
        ),
        run_raw(code, code.len() as int, w, env) == Outcome::Done(w),
{
}

} // verus!
