//! Plans whose stack is a run of cells in memory.
//!
//! The free end of the stack is where a pointer leads. What a plan does to the stack becomes loads
//! and stores around it.
use std::collections::BTreeMap;

use vstd::prelude::*;

#[allow(unused_imports)]
use crate::builtins::wrap;
use crate::jit::analysis::ResolvedSig;
#[allow(unused_imports)]
use crate::jit::plan::{run_op, touches_stack, value_of, values_of, Frame, Machine, Ran};
use crate::jit::plan::{BlockPlan, Ending, FunctionPlan, Goal, Op, Reg};
#[allow(unused_imports)]
use crate::semantics::{Effect, Outcome, World};
use crate::types::Value;

verus! {

/// The number of bytes from one cell to the next.
pub const STRIDE: Value = 8;

/// An instruction for a machine with memory.
#[derive(Debug)]
pub enum Inst {
    /// An operation that does not work on the stack.
    Plain(Op),
    /// The pointer to the free end of the stack.
    UsePointer,
    /// Moves the free end of the stack.
    DefPointer(Reg),
    AddImm(Reg, Value),
    MulImm(Reg, Value),
    Add(Reg, Reg),
    Sub(Reg, Reg),
    /// Looks at a cell.
    Load(Reg),
    /// Fills a cell.
    Store { value: Reg, addr: Reg },
    /// Copies so many bytes from one place to another, which may overlap.
    Memmove { dest: Reg, source: Reg, size: Reg },
    /// Calls a function that works on the stack: it takes a pointer to the free end, and gives one
    /// back.
    CallStack { callee: String, pointer: Reg },
}

/// A block for a machine with memory.
#[derive(Debug)]
pub struct NativeBlock {
    pub params: usize,
    pub insts: Vec<Inst>,
    pub ending: Ending,
}

/// A function for a machine with memory. It starts with block 0; without one, it does nothing.
#[derive(Debug)]
pub struct NativeFunction {
    pub signature: Option<ResolvedSig>,
    pub blocks: BTreeMap<usize, NativeBlock>,
    pub length: usize,
}

/// The memory that a stack is in.
pub struct Region {
    pub base: int,
    /// The number of cells.
    pub room: nat,
}

impl Region {
    /// All addresses of the region are values.
    pub open spec fn wf(self) -> bool {
        0 <= self.base && self.base + STRIDE * self.room <= i64::MAX
    }

    /// The address of cell number `i`.
    pub open spec fn cell(self, i: int) -> int {
        self.base + STRIDE * i
    }

    /// Whether there is a cell at an address.
    pub open spec fn has_cell(self, addr: int) -> bool {
        self.base <= addr < self.cell(self.room as int) && (addr - self.base) % (STRIDE as int) == 0
    }

    /// Whether the free end of a stack can be at an address.
    pub open spec fn has_end(self, addr: int) -> bool {
        self.base <= addr <= self.cell(self.room as int) && (addr - self.base) % (STRIDE as int)
            == 0
    }
}

/// Where a run of a block has got to.
pub struct NativeFrame {
    pub params: Seq<Value>,
    /// The results of the instructions so far.
    pub results: Seq<Seq<Value>>,
    pub pointer: Value,
    pub mem: Map<int, Value>,
    pub log: Seq<Effect>,
}

/// How a run of instructions comes out.
pub enum NativeRan {
    /// It is to go on.
    On(NativeFrame),
    /// It is over.
    Over(Outcome),
    /// It has reached below the bottom of the stack, where anything can happen.
    Lost,
    /// It has reached beyond the memory of the stack.
    Full,
}

/// How a run of a function comes out.
pub enum NativeEnd {
    /// It came back, with values if it has a signature.
    Done { values: Seq<Value>, pointer: Value, mem: Map<int, Value>, log: Seq<Effect> },
    Over(Outcome),
    Lost,
    Full,
}

/// What instructions meet outside themselves.
pub struct NativeMachine {
    /// The reply to the last of the effects, given all that went before it.
    pub reply: spec_fn(Seq<Effect>) -> Value,
    /// What a call of a function with a signature makes of its arguments.
    pub call: spec_fn(Seq<char>, Seq<Value>, Seq<Effect>) -> Option<Outcome>,
    /// What a call of a function without a signature makes of the pointer and the memory.
    pub call_stack: spec_fn(Seq<char>, Value, Map<int, Value>, Seq<Effect>) -> NativeEnd,
}

/// A frame without its memory.
pub open spec fn without_memory(fr: NativeFrame) -> Frame {
    Frame {
        params: fr.params,
        results: fr.results,
        world: World { stack: Seq::empty(), log: fr.log },
    }
}

/// A machine without its memory.
pub open spec fn machine_without_memory(machine: NativeMachine) -> Machine {
    Machine {
        reply: machine.reply,
        call: machine.call,
        call_stack: |name: Seq<char>, w: World| None,
    }
}

/// The value that a number stands for.
pub open spec fn at(reg: Reg, fr: NativeFrame) -> Value {
    value_of(reg, without_memory(fr))
}

/// The frame after an instruction with the given results.
pub open spec fn gives(fr: NativeFrame, results: Seq<Value>) -> NativeRan {
    NativeRan::On(NativeFrame { results: fr.results.push(results), ..fr })
}

/// Memory after bytes have been copied.
pub open spec fn copied(mem: Map<int, Value>, dest: int, source: int, size: int) -> Map<int, Value> {
    Map::new(
        |addr: int| true,
        |addr: int|
            if dest <= addr < dest + size {
                mem[addr - dest + source]
            } else {
                mem[addr]
            },
    )
}

/// Whether so many bytes from an address on are cells.
pub open spec fn are_cells(region: Region, addr: int, size: int) -> bool {
    region.has_end(addr) && region.has_end(addr + size) && 0 <= size
}

/// What one instruction does.
pub open spec fn run_inst(
    inst: Inst,
    fr: NativeFrame,
    machine: NativeMachine,
    region: Region,
) -> NativeRan {
    match inst {
        Inst::Plain(op) => if touches_stack(op) {
            NativeRan::Lost
        } else {
            match run_op(op, without_memory(fr), machine_without_memory(machine)) {
                Ran::On(fr2) => NativeRan::On(
                    NativeFrame { results: fr2.results, log: fr2.world.log, ..fr },
                ),
                Ran::Over(o) => NativeRan::Over(o),
                Ran::Lost => NativeRan::Lost,
            }
        },
        Inst::UsePointer => gives(fr, seq![fr.pointer]),
        Inst::DefPointer(v) => if region.has_end(at(v, fr) as int) {
            NativeRan::On(
                NativeFrame { results: fr.results.push(Seq::empty()), pointer: at(v, fr), ..fr },
            )
        } else if at(v, fr) > region.cell(region.room as int) {
            NativeRan::Full
        } else {
            NativeRan::Lost
        },
        Inst::AddImm(a, imm) => gives(fr, seq![wrap(at(a, fr) + imm)]),
        Inst::MulImm(a, imm) => gives(fr, seq![wrap(at(a, fr) * imm)]),
        Inst::Add(a, b) => gives(fr, seq![wrap(at(a, fr) + at(b, fr))]),
        Inst::Sub(a, b) => gives(fr, seq![wrap(at(a, fr) - at(b, fr))]),
        Inst::Load(addr) => if region.has_cell(at(addr, fr) as int) {
            gives(fr, seq![fr.mem[at(addr, fr) as int]])
        } else {
            NativeRan::Lost
        },
        Inst::Store { value, addr } => if region.has_cell(at(addr, fr) as int) {
            NativeRan::On(
                NativeFrame {
                    results: fr.results.push(Seq::empty()),
                    mem: fr.mem.insert(at(addr, fr) as int, at(value, fr)),
                    ..fr
                },
            )
        } else if at(addr, fr) >= region.cell(region.room as int) {
            NativeRan::Full
        } else {
            NativeRan::Lost
        },
        Inst::Memmove { dest, source, size } => {
            let (d, s, n) = (at(dest, fr) as int, at(source, fr) as int, at(size, fr) as int);
            if are_cells(region, d, n) && are_cells(region, s, n) {
                NativeRan::On(
                    NativeFrame {
                        results: fr.results.push(Seq::empty()),
                        mem: copied(fr.mem, d, s, n),
                        ..fr
                    },
                )
            } else {
                NativeRan::Lost
            }
        },
        Inst::CallStack { callee, pointer } => match (machine.call_stack)(
            callee@,
            at(pointer, fr),
            fr.mem,
            fr.log,
        ) {
            NativeEnd::Done { values: _, pointer: p, mem, log } => NativeRan::On(
                NativeFrame { results: fr.results.push(seq![p]), mem, log, ..fr },
            ),
            NativeEnd::Over(o) => NativeRan::Over(o),
            NativeEnd::Lost => NativeRan::Lost,
            NativeEnd::Full => NativeRan::Full,
        },
    }
}

/// What the instructions from number `i` on do, one after the other.
pub open spec fn run_insts(
    insts: Seq<Inst>,
    i: int,
    fr: NativeFrame,
    machine: NativeMachine,
    region: Region,
) -> NativeRan
    decreases insts.len() - i,
{
    if i < 0 || i >= insts.len() {
        NativeRan::On(fr)
    } else {
        match run_inst(insts[i], fr, machine, region) {
            NativeRan::On(fr2) => run_insts(insts, i + 1, fr2, machine, region),
            other => other,
        }
    }
}

/// Whether cells hold a stack, and a pointer leads to its free end.
pub open spec fn hold_stack(
    region: Region,
    pointer: Value,
    mem: Map<int, Value>,
    s: Seq<Value>,
) -> bool {
    &&& s.len() <= region.room
    &&& pointer == region.cell(s.len() as int)
    &&& forall|i: int| 0 <= i < s.len() ==> mem[region.cell(i)] == #[trigger] s[i]
}

/// A number of a plan, where the results of operation number `j` are those of instruction number
/// `place[j]`.
pub open spec fn placed(reg: Reg, place: Seq<usize>) -> Reg {
    match reg {
        Reg::Param(k) => Reg::Param(k),
        Reg::Result { op, k } => Reg::Result { op: place[op as int], k },
    }
}

/// The same for several numbers.
pub open spec fn all_placed(regs: Seq<Reg>, place: Seq<usize>) -> Seq<Reg> {
    regs.map_values(|reg: Reg| placed(reg, place))
}

/// Whether an operation is another one with its numbers changed.
pub open spec fn op_placed(op: Op, new: Op, place: Seq<usize>) -> bool {
    match op {
        Op::Const(v) => new == Op::Const(v),
        Op::Arith { op, a, b } => new == (Op::Arith {
            op,
            a: placed(a, place),
            b: placed(b, place),
        }),
        Op::Print(v) => new == Op::Print(placed(v, place)),
        Op::Quit => new == Op::Quit,
        Op::Syscall { number, a1, a2, a3, a4, a5, a6 } => new == (Op::Syscall {
            number: placed(number, place),
            a1: placed(a1, place),
            a2: placed(a2, place),
            a3: placed(a3, place),
            a4: placed(a4, place),
            a5: placed(a5, place),
            a6: placed(a6, place),
        }),
        Op::Read8(addr) => new == Op::Read8(placed(addr, place)),
        Op::Write8 { addr, value } => new == (Op::Write8 {
            addr: placed(addr, place),
            value: placed(value, place),
        }),
        Op::ReadNative(addr) => new == Op::ReadNative(placed(addr, place)),
        Op::WriteNative { addr, value } => new == (Op::WriteNative {
            addr: placed(addr, place),
            value: placed(value, place),
        }),
        Op::Call { callee, args, results } => {
            &&& new is Call
            &&& new->Call_callee@ == callee@
            &&& new->Call_args@ == all_placed(args@, place)
            &&& new->Call_results == results
        },
        _ => false,
    }
}

/// The only result of instruction number `i`.
pub open spec fn result(i: int) -> Reg {
    Reg::Result { op: i as usize, k: 0 }
}

/// What is added to a pointer to reach a cell at a distance. No stack reaches as far as a distance
/// that is no value.
pub open spec fn offset(n: usize) -> Value {
    if STRIDE * n <= i64::MAX {
        (-(STRIDE * n)) as i64
    } else {
        i64::MIN
    }
}

/// The instructions for an operation, the first of them being number `first`.
pub open spec fn lowers(op: Op, insts: Seq<Inst>, first: int, place: Seq<usize>) -> bool {
    let p = result(first);
    match op {
        Op::Pop => insts == seq![
            Inst::UsePointer,
            Inst::AddImm(p, (-STRIDE) as i64),
            Inst::DefPointer(result(first + 1)),
            Inst::Load(result(first + 1)),
        ],
        Op::Discard => insts == seq![
            Inst::UsePointer,
            Inst::AddImm(p, (-STRIDE) as i64),
            Inst::DefPointer(result(first + 1)),
        ],
        Op::Push(v) => insts == seq![
            Inst::UsePointer,
            Inst::Store { value: placed(v, place), addr: p },
            Inst::AddImm(p, STRIDE),
            Inst::DefPointer(result(first + 2)),
        ],
        Op::Peek(n) => insts == seq![
            Inst::UsePointer,
            Inst::AddImm(p, offset(n)),
            Inst::Load(result(first + 1)),
        ],
        Op::Pick(v) => insts == seq![
            Inst::UsePointer,
            Inst::MulImm(placed(v, place), STRIDE),
            Inst::Sub(p, result(first + 1)),
            Inst::Load(result(first + 2)),
            Inst::Store { value: result(first + 3), addr: p },
            Inst::AddImm(p, STRIDE),
            Inst::DefPointer(result(first + 5)),
        ],
        Op::DropRange { start, amount } => insts == seq![
            Inst::UsePointer,
            Inst::MulImm(placed(start, place), STRIDE),
            Inst::MulImm(placed(amount, place), STRIDE),
            Inst::Sub(p, result(first + 1)),
            Inst::Add(result(first + 3), result(first + 2)),
            Inst::Sub(result(first + 1), result(first + 2)),
            Inst::Memmove {
                dest: result(first + 3),
                source: result(first + 4),
                size: result(first + 5),
            },
            Inst::Sub(p, result(first + 2)),
            Inst::DefPointer(result(first + 7)),
        ],
        Op::CallStack(callee) => {
            &&& insts.len() == 3
            &&& insts[0] == Inst::UsePointer
            &&& insts[1] is CallStack
            &&& insts[1]->CallStack_callee@ == callee@
            &&& insts[1]->CallStack_pointer == p
            &&& insts[2] == Inst::DefPointer(result(first + 1))
        },
        _ => {
            &&& insts.len() == 1
            &&& insts[0] is Plain
            &&& op_placed(op, insts[0]->Plain_0, place)
        },
    }
}

/// The number of the first instruction for operation number `j`, where `place` gives that of the
/// last one for each operation.
pub open spec fn first_inst(place: Seq<usize>, j: int) -> int {
    if j == 0 {
        0
    } else {
        place[j - 1] + 1
    }
}

/// Whether instructions hold those for operation number `j`.
pub open spec fn op_lowered(op: Op, insts: Seq<Inst>, place: Seq<usize>, j: int) -> bool {
    let first = first_inst(place, j);
    &&& first <= place[j] < insts.len()
    &&& lowers(op, insts.subrange(first, place[j] + 1), first, place.take(j))
}

/// Whether instructions are those for operations, one after the other.
pub open spec fn ops_lowered(ops: Seq<Op>, insts: Seq<Inst>, place: Seq<usize>) -> bool {
    &&& place.len() == ops.len()
    &&& first_inst(place, ops.len() as int) == insts.len()
    &&& forall|j: int| 0 <= j < ops.len() ==> #[trigger] op_lowered(ops[j], insts, place, j)
}

/// Whether the end of a block is another one with its numbers changed.
pub open spec fn ending_placed(ending: Ending, new: Ending, place: Seq<usize>) -> bool {
    match ending {
        Ending::Goto { goal, args } => {
            &&& new is Goto
            &&& new->Goto_goal == goal
            &&& new->Goto_args@ == all_placed(args@, place)
        },
        Ending::Branch { cond, on_true, on_false, args } => {
            &&& new is Branch
            &&& new->Branch_cond == placed(cond, place)
            &&& new->Branch_on_true == on_true
            &&& new->Branch_on_false == on_false
            &&& new->Branch_args@ == all_placed(args@, place)
        },
        Ending::Switch { index, goals, args } => {
            &&& new is Switch
            &&& new->Switch_index == placed(index, place)
            &&& new->Switch_goals@ == goals@
            &&& new->Switch_args@ == all_placed(args@, place)
        },
        Ending::TailCall { callee, args } => {
            &&& new is TailCall
            &&& new->TailCall_callee@ == callee@
            &&& new->TailCall_args@ == all_placed(args@, place)
        },
        Ending::TailCallStack(callee) => {
            &&& new is TailCallStack
            &&& new->TailCallStack_0@ == callee@
        },
    }
}

/// Whether a block is that of a plan, for a machine with memory.
pub open spec fn block_lowered(block: BlockPlan, native: NativeBlock) -> bool {
    &&& native.params == block.params
    &&& exists|place: Seq<usize>| #[trigger]
        ops_lowered(block.ops@, native.insts@, place) && ending_placed(
            block.ending,
            native.ending,
            place,
        )
}

/// Whether a function is that of a plan, for a machine with memory.
pub open spec fn function_lowered(plan: FunctionPlan, native: NativeFunction) -> bool {
    &&& native.signature == plan.signature
    &&& native.length == plan.length
    &&& forall|p: usize|
        p < plan.length ==> {
            &&& #[trigger] native.blocks@.contains_key(p) <==> plan.blocks@.contains_key(p)
            &&& plan.blocks@.contains_key(p) ==> block_lowered(plan.blocks@[p], native.blocks@[p])
        }
}

/// A run of a function from the block at `pos` on, entered with the given values.
pub open spec fn run_native_block(
    f: NativeFunction,
    pos: int,
    params: Seq<Value>,
    pointer: Value,
    mem: Map<int, Value>,
    log: Seq<Effect>,
    machine: NativeMachine,
    region: Region,
) -> NativeEnd
    decreases f.length - pos, 2int,
{
    if !(0 <= pos < f.length && f.blocks@.contains_key(pos as usize)) {
        NativeEnd::Lost
    } else {
        let block = f.blocks@[pos as usize];
        let start = NativeFrame { params, results: Seq::empty(), pointer, mem, log };
        match run_insts(block.insts@, 0, start, machine, region) {
            NativeRan::On(fr) => run_native_ending(f, pos, block.ending, fr, machine, region),
            NativeRan::Over(o) => NativeEnd::Over(o),
            NativeRan::Lost => NativeEnd::Lost,
            NativeRan::Full => NativeEnd::Full,
        }
    }
}

/// The end of a block, and what follows.
pub open spec fn run_native_ending(
    f: NativeFunction,
    pos: int,
    ending: Ending,
    fr: NativeFrame,
    machine: NativeMachine,
    region: Region,
) -> NativeEnd
    decreases f.length - pos, 1int,
{
    match ending {
        Ending::Goto { goal, args } => run_native_goal(
            f,
            pos,
            goal,
            values_of(args@, without_memory(fr)),
            fr,
            machine,
            region,
        ),
        Ending::Branch { cond, on_true, on_false, args } => run_native_goal(
            f,
            pos,
            if at(cond, fr) == 0 {
                on_false
            } else {
                on_true
            },
            values_of(args@, without_memory(fr)),
            fr,
            machine,
            region,
        ),
        Ending::Switch { index, goals, args } => {
            let k = at(index, fr) as int;
            if 0 <= k < goals@.len() {
                run_native_goal(
                    f,
                    pos,
                    goals@[k],
                    values_of(args@, without_memory(fr)),
                    fr,
                    machine,
                    region,
                )
            } else {
                NativeEnd::Over(Outcome::Failed(fr.log))
            }
        },
        Ending::TailCall { callee, args } => match (machine.call)(
            callee@,
            values_of(args@, without_memory(fr)),
            fr.log,
        ) {
            Some(Outcome::Done(w)) => NativeEnd::Done {
                values: w.stack,
                pointer: fr.pointer,
                mem: fr.mem,
                log: w.log,
            },
            Some(o) => NativeEnd::Over(o),
            None => NativeEnd::Lost,
        },
        Ending::TailCallStack(callee) => (machine.call_stack)(
            callee@,
            fr.pointer,
            fr.mem,
            fr.log,
        ),
    }
}

/// What follows on a goal.
pub open spec fn run_native_goal(
    f: NativeFunction,
    pos: int,
    goal: Goal,
    args: Seq<Value>,
    fr: NativeFrame,
    machine: NativeMachine,
    region: Region,
) -> NativeEnd
    decreases f.length - pos, 0int,
{
    match goal {
        Goal::Trap(_) => NativeEnd::Over(Outcome::Failed(fr.log)),
        Goal::Return => NativeEnd::Done {
            values: args,
            pointer: fr.pointer,
            mem: fr.mem,
            log: fr.log,
        },
        Goal::Block(p) => if pos < p < f.length {
            run_native_block(f, p as int, args, fr.pointer, fr.mem, fr.log, machine, region)
        } else {
            NativeEnd::Lost
        },
    }
}

/// A run of a whole function.
pub open spec fn run_native(
    f: NativeFunction,
    args: Seq<Value>,
    pointer: Value,
    mem: Map<int, Value>,
    log: Seq<Effect>,
    machine: NativeMachine,
    region: Region,
) -> NativeEnd {
    if f.length == 0 {
        NativeEnd::Done { values: args, pointer, mem, log }
    } else {
        run_native_block(f, 0, args, pointer, mem, log, machine, region)
    }
}

/// What is left of how a function comes out, if it has no stack.
pub open spec fn without_stack(end: NativeEnd) -> Option<Outcome> {
    match end {
        NativeEnd::Done { values, pointer: _, mem: _, log } => Some(
            Outcome::Done(World { stack: values, log }),
        ),
        NativeEnd::Over(o) => Some(o),
        NativeEnd::Lost => None,
        NativeEnd::Full => None,
    }
}

/// A call of a function of a program, in which calls may be nested up to the given depth. A call of
/// a function that is not there fails.
pub open spec fn call_native(
    functions: Map<Seq<char>, NativeFunction>,
    reply: spec_fn(Seq<Effect>) -> Value,
    region: Region,
    depth: nat,
    name: Seq<char>,
    args: Seq<Value>,
    pointer: Value,
    mem: Map<int, Value>,
    log: Seq<Effect>,
) -> NativeEnd
    decreases depth, 0int,
{
    if !functions.contains_key(name) {
        NativeEnd::Over(Outcome::Failed(log))
    } else if depth == 0 {
        NativeEnd::Over(Outcome::Unfinished)
    } else {
        run_native(
            functions[name],
            args,
            pointer,
            mem,
            log,
            native_program(functions, reply, region, (depth - 1) as nat),
            region,
        )
    }
}

/// What functions meet when calls may be nested up to the given depth. A function with a signature
/// has no stack to work on.
pub open spec fn native_program(
    functions: Map<Seq<char>, NativeFunction>,
    reply: spec_fn(Seq<Effect>) -> Value,
    region: Region,
    depth: nat,
) -> NativeMachine
    decreases depth, 1int,
{
    NativeMachine {
        reply,
        call: |name: Seq<char>, args: Seq<Value>, log: Seq<Effect>|
            without_stack(
                call_native(
                    functions,
                    reply,
                    region,
                    depth,
                    name,
                    args,
                    region.base as i64,
                    Map::empty(),
                    log,
                ),
            ),
        call_stack: |name: Seq<char>, pointer: Value, mem: Map<int, Value>, log: Seq<Effect>|
            call_native(functions, reply, region, depth, name, Seq::empty(), pointer, mem, log),
    }
}

} // verus!
