//! Carrying out instructions, one at a time.
use vstd::prelude::*;

use crate::builtins::compute;
use crate::names::NameMap;
#[allow(unused_imports)]
use crate::semantics::{
    basic_step, below, drop_range_step, is_index, overfills, pick_step, step, top, without_range, Step,
};
use crate::semantics::{Effect, IF_DISTANCE};
use crate::stack::Stack;
use crate::types::{
    ArithOp, BasicBlockInstr, Code, ControlFlowInstr, ExecError, Instr, MemOp, Value, VALUE_BITS,
};

verus! {

/// What carrying out an instruction leads to.
#[derive(Debug)]
pub enum ExecRes {
    /// The instruction is done.
    Executed,
    /// The instruction is done, and so many of those that follow are passed over.
    Skip(usize),
    /// The operands are off the stack, and the world is asked for an effect.
    Perform(Effect),
    /// A function is to be called.
    Call(String),
}

/// Whether a step has been carried out that left the stack as `after`.
pub open spec fn carried_out(
    r: Result<ExecRes, ExecError>,
    after: Seq<Value>,
    step: Step,
    defined: Set<Seq<char>>,
) -> bool {
    match step {
        Step::Next(s) => after == s && (r matches Ok(ExecRes::Executed)),
        Step::Skip(s, n) => after == s && (r matches Ok(ExecRes::Skip(k)) && k == n),
        Step::Perform(s, effect) => after == s && (r matches Ok(ExecRes::Perform(e)) && e == effect),
        Step::Call(s, name) => after == s && if defined.contains(name) {
            r matches Ok(ExecRes::Call(callee)) && callee@ == name
        } else {
            r matches Err(ExecError::UnknownFunction(callee)) && callee@ == name
        },
        Step::Fail(s, error) => after == s && (r matches Err(e) && e == error),
        Step::Fault { .. } => false,
    }
}

/// Whether there is nothing that an instruction could mean on a stack.
pub fn faults(stack: &Stack, token: &Instr) -> (r: bool)
    requires
        stack.wf(),
    ensures
        r == (step(*token, stack@) is Fault),
{
    let n = stack.len();
    match token {
        Instr::BBInstr(BasicBlockInstr::Arith(op)) => {
            if n < 2 {
                return false;
            }
            let b = stack.get(n - 1);
            let a = stack.get(n - 2);
            match op {
                ArithOp::Div | ArithOp::Rem => b == 0 || (a == i64::MIN && b == -1),
                _ => false,
            }
        },
        Instr::BBInstr(BasicBlockInstr::Mem(MemOp::Write8)) => {
            if n < 1 {
                return false;
            }
            let byte = stack.get(n - 1);
            byte < 0 || byte > 255
        },
        Instr::BBInstr(BasicBlockInstr::Trap(_)) => true,
        _ => false,
    }
}

/// Whether an instruction leaves more values on a stack than there is room for.
pub fn needs_room(stack: &Stack, token: &Instr) -> (r: bool)
    requires
        stack.wf(),
    ensures
        r == overfills(step(*token, stack@), stack.room()),
{
    proof {
        stack.lemma_wf();
    }
    match token {
        Instr::BBInstr(BasicBlockInstr::Literal(_)) => !stack.has_room(),
        Instr::BBInstr(BasicBlockInstr::Mem(MemOp::WidthNative)) => !stack.has_room(),
        Instr::BBInstr(BasicBlockInstr::ResolvedPick(n)) => {
            1 <= *n && *n <= stack.len() && !stack.has_room()
        },
        _ => false,
    }
}

/// Takes the top two values off, or all if there are fewer. The topmost comes last.
fn pop_two(stack: &mut Stack) -> (r: Option<(Value, Value)>)
    requires
        old(stack).wf(),
    ensures
        final(stack).wf(),
        final(stack).room() == old(stack).room(),
        old(stack)@.len() < 2 ==> r is None && final(stack)@ == Seq::<Value>::empty(),
        old(stack)@.len() >= 2 ==> r == Some((top(old(stack)@, 2), top(old(stack)@, 1)))
            && final(stack)@ == below(old(stack)@, 2),
{
    match stack.pop() {
        Some(b) => match stack.pop() {
            Some(a) => {
                assert(stack@ =~= below(old(stack)@, 2));
                Some((a, b))
            },
            None => {
                assert(stack@ =~= Seq::<Value>::empty());
                None
            },
        },
        None => {
            assert(stack@ =~= Seq::<Value>::empty());
            None
        },
    }
}

/// Copies the value at a distance from the top, to the top.
fn pick(stack: &mut Stack, n: usize) -> (r: Result<ExecRes, ExecError>)
    requires
        old(stack).wf(),
        !overfills(pick_step(old(stack)@, n as int), old(stack).room()),
    ensures
        final(stack).wf(),
        final(stack).room() == old(stack).room(),
        carried_out(r, final(stack)@, pick_step(old(stack)@, n as int), Set::empty()),
{
    let len = stack.len();
    if n == 0 || n > len {
        return Err(ExecError::InvalidPick);
    }
    let v = stack.get(len - n);
    stack.push(v);
    Ok(ExecRes::Executed)
}

/// Of the top `start` values, drops the lowest `amount`.
fn drop_range(stack: &mut Stack, start: usize, amount: usize) -> (r: Result<ExecRes, ExecError>)
    requires
        old(stack).wf(),
    ensures
        final(stack).wf(),
        final(stack).room() == old(stack).room(),
        carried_out(
            r,
            final(stack)@,
            drop_range_step(old(stack)@, start as int, amount as int),
            Set::empty(),
        ),
{
    let ghost s = stack@;
    let len = stack.len();
    if amount > start || start > len {
        return Err(ExecError::InvalidDropRange);
    }
    let keep: usize = start - amount;
    let base: usize = len - start;
    let mut i: usize = 0;
    while i < keep
        invariant
            stack.wf(),
            stack.room() == old(stack).room(),
            keep == start - amount,
            base == len - start,
            amount <= start <= len,
            len == s.len(),
            i <= keep,
            stack@.len() == s.len(),
            forall|j: int| 0 <= j < base ==> #[trigger] stack@[j] == s[j],
            forall|j: int| base <= j < base + i ==> #[trigger] stack@[j] == s[j + amount],
            forall|j: int| base + i <= j < len ==> #[trigger] stack@[j] == s[j],
        decreases keep - i,
    {
        let v = stack.get(base + amount + i);
        stack.set(base + i, v);
        i = i + 1;
    }
    stack.truncate(len - amount);
    assert(stack@ =~= without_range(s, start as int, amount as int));
    Ok(ExecRes::Executed)
}

/// Carries out an instruction that changes the order of the top values, or drops one.
fn shuffle(stack: &mut Stack, instr: &BasicBlockInstr) -> (r: Result<ExecRes, ExecError>)
    requires
        old(stack).wf(),
        *instr is Drop || *instr is Swap || *instr is Rot,
    ensures
        final(stack).wf(),
        final(stack).room() == old(stack).room(),
        carried_out(r, final(stack)@, basic_step(*instr, old(stack)@), Set::empty()),
{
    let ghost s = stack@;
    proof {
        stack.lemma_wf();
    }
    match instr {
        BasicBlockInstr::Drop => match stack.pop() {
            Some(_) => {
                assert(stack@ =~= below(s, 1));
                Ok(ExecRes::Executed)
            },
            None => {
                assert(stack@ =~= Seq::<Value>::empty());
                Err(ExecError::MissingArguments)
            },
        },
        BasicBlockInstr::Swap => match pop_two(stack) {
            Some((a, b)) => {
                stack.push(b);
                stack.push(a);
                Ok(ExecRes::Executed)
            },
            None => Err(ExecError::MissingArguments),
        },
        _ => match pop_two(stack) {
            Some((y, z)) => match stack.pop() {
                Some(x) => {
                    assert(stack@ =~= below(s, 3));
                    stack.push(y);
                    stack.push(z);
                    stack.push(x);
                    Ok(ExecRes::Executed)
                },
                None => {
                    assert(stack@ =~= Seq::<Value>::empty());
                    Err(ExecError::MissingArguments)
                },
            },
            None => Err(ExecError::MissingArguments),
        },
    }
}

/// Carries out an instruction on memory outside the stack.
fn access(stack: &mut Stack, memop: MemOp) -> (r: Result<ExecRes, ExecError>)
    requires
        old(stack).wf(),
        !overfills(basic_step(BasicBlockInstr::Mem(memop), old(stack)@), old(stack).room()),
        !(basic_step(BasicBlockInstr::Mem(memop), old(stack)@) is Fault),
    ensures
        final(stack).wf(),
        final(stack).room() == old(stack).room(),
        carried_out(
            r,
            final(stack)@,
            basic_step(BasicBlockInstr::Mem(memop), old(stack)@),
            Set::empty(),
        ),
{
    let ghost s = stack@;
    match memop {
        MemOp::Read8 | MemOp::ReadNative => match stack.pop() {
            Some(addr) => {
                assert(stack@ =~= below(s, 1));
                Ok(
                    ExecRes::Perform(
                        match memop {
                            MemOp::Read8 => Effect::Read8(addr),
                            _ => Effect::ReadNative(addr),
                        },
                    ),
                )
            },
            None => {
                assert(stack@ =~= Seq::<Value>::empty());
                Err(ExecError::MissingArguments)
            },
        },
        MemOp::Write8 => match pop_two(stack) {
            Some((addr, value)) => {
                let byte = value as u8;
                Ok(ExecRes::Perform(Effect::Write8 { addr, byte }))
            },
            None => Err(ExecError::MissingArguments),
        },
        MemOp::WriteNative => match pop_two(stack) {
            Some((addr, value)) => Ok(ExecRes::Perform(Effect::WriteNative { addr, value })),
            None => Err(ExecError::MissingArguments),
        },
        MemOp::WidthNative => {
            stack.push(VALUE_BITS);
            Ok(ExecRes::Executed)
        },
    }
}

/// Takes the number and the arguments of a system call off the stack.
fn system_call(stack: &mut Stack) -> (r: Result<ExecRes, ExecError>)
    requires
        old(stack).wf(),
    ensures
        final(stack).wf(),
        final(stack).room() == old(stack).room(),
        carried_out(
            r,
            final(stack)@,
            basic_step(BasicBlockInstr::Syscall, old(stack)@),
            Set::empty(),
        ),
{
    let ghost s = stack@;
    let n = stack.len();
    if n < 7 {
        stack.truncate(0);
        assert(stack@ =~= Seq::<Value>::empty());
        return Err(ExecError::MissingArguments);
    }
    let effect = Effect::Syscall {
        number: stack.get(n - 7),
        a1: stack.get(n - 6),
        a2: stack.get(n - 5),
        a3: stack.get(n - 4),
        a4: stack.get(n - 3),
        a5: stack.get(n - 2),
        a6: stack.get(n - 1),
    };
    stack.truncate(n - 7);
    Ok(ExecRes::Perform(effect))
}

/// Takes a count or a distance off the stack.
fn pop_index(stack: &mut Stack, otherwise: ExecError) -> (r: Result<usize, ExecError>)
    requires
        old(stack).wf(),
    ensures
        final(stack).wf(),
        final(stack).room() == old(stack).room(),
        old(stack)@.len() == 0 ==> final(stack)@ == Seq::<Value>::empty() && (r matches Err(e) && e
            == ExecError::MissingArguments),
        old(stack)@.len() > 0 ==> final(stack)@ == below(old(stack)@, 1) && if is_index(
            top(old(stack)@, 1),
        ) {
            r matches Ok(n) && n == top(old(stack)@, 1)
        } else {
            r matches Err(e) && e == otherwise
        },
{
    match stack.pop() {
        Some(n) => {
            assert(stack@ =~= below(old(stack)@, 1));
            match usize::try_from(n) {
                Ok(n) => Ok(n),
                Err(_) => Err(otherwise),
            }
        },
        None => {
            assert(stack@ =~= Seq::<Value>::empty());
            Err(ExecError::MissingArguments)
        },
    }
}

/// Carries out an instruction, as far as the stack is concerned. A call is only announced.
pub fn execute(stack: &mut Stack, functions: &NameMap<Code>, token: &Instr) -> (r: Result<
    ExecRes,
    ExecError,
>)
    requires
        old(stack).wf(),
        !overfills(step(*token, old(stack)@), old(stack).room()),
        functions.wf(),
        !(step(*token, old(stack)@) is Fault),
    ensures
        final(stack).wf(),
        final(stack).room() == old(stack).room(),
        carried_out(r, final(stack)@, step(*token, old(stack)@), functions@.dom()),
{
    let ghost s = stack@;
    proof {
        stack.lemma_wf();
    }
    match token {
        Instr::CFInstr(ControlFlowInstr::If) => match stack.pop() {
            Some(cond) => {
                assert(stack@ =~= below(s, 1));
                if cond == 0 {
                    Ok(ExecRes::Skip(IF_DISTANCE))
                } else {
                    Ok(ExecRes::Executed)
                }
            },
            None => {
                assert(stack@ =~= Seq::<Value>::empty());
                Err(ExecError::MissingArguments)
            },
        },
        Instr::CFInstr(ControlFlowInstr::Skip) => match pop_index(stack, ExecError::InvalidSkip) {
            Ok(n) => Ok(ExecRes::Skip(n)),
            Err(e) => Err(e),
        },
        Instr::BBInstr(instr) => match instr {
            BasicBlockInstr::Literal(n) => {
                stack.push(*n);
                Ok(ExecRes::Executed)
            },
            BasicBlockInstr::Quit => Err(ExecError::Quit),
            BasicBlockInstr::FunctionCall(name) => if functions.contains_key(name.as_str()) {
                Ok(ExecRes::Call(name.clone()))
            } else {
                Err(ExecError::UnknownFunction(name.clone()))
            },
            BasicBlockInstr::Print => match stack.pop() {
                Some(v) => {
                    assert(stack@ =~= below(s, 1));
                    Ok(ExecRes::Perform(Effect::Print(v)))
                },
                None => {
                    assert(stack@ =~= Seq::<Value>::empty());
                    Err(ExecError::MissingArguments)
                },
            },
            BasicBlockInstr::Drop | BasicBlockInstr::Swap | BasicBlockInstr::Rot => shuffle(
                stack,
                instr,
            ),
            BasicBlockInstr::Arith(op) => match pop_two(stack) {
                Some((a, b)) => match compute(*op, a, b) {
                    Some(v) => {
                        stack.push(v);
                        Ok(ExecRes::Executed)
                    },
                    None => Err(ExecError::InvalidExponent),
                },
                None => Err(ExecError::MissingArguments),
            },
            BasicBlockInstr::Mem(memop) => access(stack, *memop),
            BasicBlockInstr::Syscall => system_call(stack),
            BasicBlockInstr::ResolvedPick(n) => pick(stack, *n),
            BasicBlockInstr::BadPick => match pop_index(stack, ExecError::InvalidPick) {
                Ok(n) => pick(stack, n),
                Err(e) => Err(e),
            },
            BasicBlockInstr::ResolvedDropRange { start, amt } => drop_range(stack, *start, *amt),
            BasicBlockInstr::BadDropRange => match pop_index(stack, ExecError::InvalidDropRange) {
                Ok(amount) => match pop_index(stack, ExecError::InvalidDropRange) {
                    Ok(start) => {
                        assert(stack@ =~= below(s, 2));
                        drop_range(stack, start, amount)
                    },
                    Err(e) => {
                        assert(s.len() >= 2 ==> stack@ =~= below(s, 2));
                        Err(e)
                    },
                },
                Err(e) => Err(e),
            },
            BasicBlockInstr::Trap(_) => Err(ExecError::Quit),
        },
    }
}

} // verus!
