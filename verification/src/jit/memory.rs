//! Instructions for a machine with memory do what operations do on a stack.
use vstd::prelude::*;

#[allow(unused_imports)]
use crate::builtins::wrap;
#[allow(unused_imports)]
use crate::jit::emit::frame_ok;
#[allow(unused_imports)]
use crate::jit::native::{
    all_placed, are_cells, at, copied, hold_stack, lowers, machine_without_memory, offset,
    op_placed, placed, result, run_inst, run_insts, without_memory, NativeEnd, NativeFrame,
    NativeMachine, NativeRan, Region, STRIDE,
};
#[allow(unused_imports)]
use crate::jit::native::Inst;
#[allow(unused_imports)]
use crate::jit::plan::{
    op_ok, reg_ok, regs_ok, run_op, touches_stack, value_of, values_of, Frame, Machine, Ran,
};
#[allow(unused_imports)]
use crate::jit::plan::{Op, Reg};
#[allow(unused_imports)]
use crate::semantics::{without_range, Effect, Outcome, World};
#[allow(unused_imports)]
use crate::types::Value;

verus! {

/// Whether a frame with memory stands for a frame with a stack.
pub open spec fn stands_in(
    fr: Frame,
    nf: NativeFrame,
    place: Seq<usize>,
    region: Region,
) -> bool {
    &&& nf.params == fr.params
    &&& place.len() == fr.results.len()
    &&& forall|j: int|
        0 <= j < place.len() ==> (#[trigger] place[j]) < nf.results.len()
            && nf.results[place[j] as int] == fr.results[j]
    &&& hold_stack(region, nf.pointer, nf.mem, fr.world.stack)
    &&& nf.log == fr.world.log
}

/// Whether what a function without a signature makes of a pointer and memory stands for what it
/// makes of a stack.
pub open spec fn end_stands_in(c: Option<Outcome>, end: NativeEnd, region: Region) -> bool {
    match c {
        None => true,
        Some(Outcome::Done(w)) => {
            ||| end is Full
            ||| (end matches NativeEnd::Done { values: _, pointer, mem, log } && log == w.log
                && hold_stack(region, pointer, mem, w.stack))
        },
        Some(o) => end is Full || end == NativeEnd::Over(o),
    }
}

/// Whether a machine with memory does what a machine with a stack does.
pub open spec fn machine_stands_in(
    machine: Machine,
    native: NativeMachine,
    region: Region,
) -> bool {
    &&& native.reply == machine.reply
    &&& forall|name: Seq<char>, args: Seq<Value>, log: Seq<Effect>|
        (machine.call)(name, args, log) is Some ==> #[trigger] (native.call)(name, args, log)
            == (machine.call)(name, args, log)
    &&& forall|name: Seq<char>, s: Seq<Value>, pointer: Value, mem: Map<int, Value>, log: Seq<Effect>|
        #![trigger (native.call_stack)(name, pointer, mem, log), hold_stack(region, pointer, mem, s)]
        hold_stack(region, pointer, mem, s) ==> end_stands_in(
            (machine.call_stack)(name, World { stack: s, log }),
            (native.call_stack)(name, pointer, mem, log),
            region,
        )
}

/// A value that a cell can hold is not changed by wrapping.
proof fn lemma_wrap(x: int)
    requires
        i64::MIN <= x <= i64::MAX,
    ensures
        wrap(x) == x,
{
}

/// A number stands for the same value after it has been changed.
pub proof fn lemma_placed(
    reg: Reg,
    fr: Frame,
    nf: NativeFrame,
    place: Seq<usize>,
    region: Region,
    params: nat,
    ops: Seq<Op>,
)
    requires
        stands_in(fr, nf, place, region),
        frame_ok(fr, params, ops),
        reg_ok(reg, params, ops),
    ensures
        at(placed(reg, place), nf) == value_of(reg, fr),
{
    if let Reg::Result { op, k } = reg {
        assert(place[op as int] < nf.results.len());
    }
}

/// The same for several numbers.
pub proof fn lemma_all_placed(
    regs: Seq<Reg>,
    fr: Frame,
    nf: NativeFrame,
    place: Seq<usize>,
    region: Region,
    params: nat,
    ops: Seq<Op>,
)
    requires
        stands_in(fr, nf, place, region),
        frame_ok(fr, params, ops),
        regs_ok(regs, params, ops),
    ensures
        values_of(all_placed(regs, place), without_memory(nf)) == values_of(regs, fr),
{
    assert forall|i: int| 0 <= i < regs.len() implies values_of(
        all_placed(regs, place),
        without_memory(nf),
    )[i] == values_of(regs, fr)[i] by {
        assert(reg_ok(regs[i], params, ops));
        lemma_placed(regs[i], fr, nf, place, region, params, ops);
    }
    assert(values_of(all_placed(regs, place), without_memory(nf)) =~= values_of(regs, fr));
}

/// What a run of the instructions of an operation has to come to.
pub open spec fn op_stands_in(
    ran: Ran,
    insts: Seq<Inst>,
    first: int,
    last: int,
    nf: NativeFrame,
    nf2: NativeFrame,
    place: Seq<usize>,
    native: NativeMachine,
    region: Region,
) -> bool {
    let out = run_insts(insts, first, nf, native, region);
    match ran {
        Ran::Lost => true,
        Ran::Over(o) => out is Full || out == NativeRan::Over(o),
        Ran::On(fr2) => out is Full || {
            &&& out == run_insts(insts, last + 1, nf2, native, region)
            &&& stands_in(fr2, nf2, place.push(last as usize), region)
            &&& nf2.results.len() == last + 1
        },
    }
}

/// The frames that instructions leave still hold what earlier operations gave.
proof fn lemma_results_stay(
    fr: Frame,
    nf: NativeFrame,
    fr2: Frame,
    nf2: NativeFrame,
    place: Seq<usize>,
    last: int,
    region: Region,
)
    requires
        stands_in(fr, nf, place, region),
        fr2.params == fr.params,
        nf2.params == nf.params,
        fr2.results.len() == fr.results.len() + 1,
        fr2.results.drop_last() == fr.results,
        nf2.results.len() == last + 1,
        last >= nf.results.len(),
        nf2.results.take(nf.results.len() as int) == nf.results,
        nf2.results[last] == fr2.results.last(),
        last <= usize::MAX,
        hold_stack(region, nf2.pointer, nf2.mem, fr2.world.stack),
        nf2.log == fr2.world.log,
    ensures
        stands_in(fr2, nf2, place.push(last as usize), region),
{
    let more = place.push(last as usize);
    assert forall|j: int| 0 <= j < more.len() implies (#[trigger] more[j]) < nf2.results.len()
        && nf2.results[more[j] as int] == fr2.results[j] by {
        if j < place.len() {
            assert(place[j] < nf.results.len());
            assert(nf2.results.take(nf.results.len() as int)[place[j] as int]
                == nf2.results[place[j] as int]);
            assert(fr2.results.drop_last()[j] == fr2.results[j]);
        }
    }
}

/// An operation that does not work on the stack.
proof fn lemma_plain(
    op: Op,
    insts: Seq<Inst>,
    first: int,
    fr: Frame,
    nf: NativeFrame,
    place: Seq<usize>,
    machine: Machine,
    native: NativeMachine,
    region: Region,
    params: nat,
    ops: Seq<Op>,
) -> (nf2: NativeFrame)
    requires
        machine_stands_in(machine, native, region),
        stands_in(fr, nf, place, region),
        frame_ok(fr, params, ops),
        op_ok(op, params, ops),
        nf.results.len() == first,
        first < insts.len() <= usize::MAX,
        insts[first] is Plain,
        op_placed(op, insts[first]->Plain_0, place),
    ensures
        op_stands_in(
            run_op(op, fr, machine),
            insts,
            first,
            first,
            nf,
            nf2,
            place,
            native,
            region,
        ),
{
    let new = insts[first]->Plain_0;
    let plain = without_memory(nf);
    let mm = machine_without_memory(native);
    match op {
        Op::Arith { op: _, a, b } => {
            lemma_placed(a, fr, nf, place, region, params, ops);
            lemma_placed(b, fr, nf, place, region, params, ops);
        },
        Op::Print(v) => {
            lemma_placed(v, fr, nf, place, region, params, ops);
        },
        Op::Syscall { number, a1, a2, a3, a4, a5, a6 } => {
            let regs = seq![number, a1, a2, a3, a4, a5, a6];
            assert forall|i: int| 0 <= i < 7 implies at(placed(#[trigger] regs[i], place), nf)
                == value_of(regs[i], fr) by {
                assert(reg_ok(regs[i], params, ops));
                lemma_placed(regs[i], fr, nf, place, region, params, ops);
            }
            assert(regs[0] == number && regs[1] == a1 && regs[2] == a2 && regs[3] == a3 && regs[4]
                == a4 && regs[5] == a5 && regs[6] == a6);
        },
        Op::Read8(addr) => {
            lemma_placed(addr, fr, nf, place, region, params, ops);
        },
        Op::Write8 { addr, value } => {
            lemma_placed(addr, fr, nf, place, region, params, ops);
            lemma_placed(value, fr, nf, place, region, params, ops);
        },
        Op::ReadNative(addr) => {
            lemma_placed(addr, fr, nf, place, region, params, ops);
        },
        Op::WriteNative { addr, value } => {
            lemma_placed(addr, fr, nf, place, region, params, ops);
            lemma_placed(value, fr, nf, place, region, params, ops);
        },
        Op::Call { callee, args, results } => {
            lemma_all_placed(args@, fr, nf, place, region, params, ops);
        },
        _ => {},
    }
    assert(!touches_stack(new));
    let ran = run_op(op, fr, machine);
    match ran {
        Ran::On(fr2) => {
            let given = fr2.results.last();
            let nf2 = NativeFrame {
                results: nf.results.push(given),
                log: fr2.world.log,
                ..nf
            };
            assert(run_op(new, plain, mm) == Ran::On(
                Frame {
                    params: nf.params,
                    results: nf.results.push(given),
                    world: World { stack: Seq::empty(), log: fr2.world.log },
                },
            ));
            assert(fr2.results.drop_last() =~= fr.results);
            assert(nf2.results.take(nf.results.len() as int) =~= nf.results);
            lemma_results_stay(fr, nf, fr2, nf2, place, first, region);
            nf2
        },
        Ran::Over(o) => {
            assert(run_op(new, plain, mm) == Ran::Over(o));
            nf
        },
        Ran::Lost => nf,
    }
}

/// The frame after an instruction with one result.
spec fn gave(nf: NativeFrame, v: Value) -> NativeFrame {
    NativeFrame { results: nf.results.push(seq![v]), ..nf }
}

/// The frame after the free end of the stack has moved.
spec fn moved_to(nf: NativeFrame, pointer: Value) -> NativeFrame {
    NativeFrame { results: nf.results.push(Seq::empty()), pointer, ..nf }
}

/// The frame after a cell has been filled.
spec fn filled(nf: NativeFrame, addr: int, v: Value) -> NativeFrame {
    NativeFrame {
        results: nf.results.push(Seq::empty()),
        mem: nf.mem.insert(addr, v),
        ..nf
    }
}

/// The only result of an instruction, looked up later.
proof fn lemma_result(nf: NativeFrame, i: int)
    requires
        0 <= i < nf.results.len() <= usize::MAX,
        nf.results[i].len() > 0,
    ensures
        at(result(i), nf) == nf.results[i][0],
{
}

/// Whether the first instructions for an operation are these.
spec fn found_at(insts: Seq<Inst>, first: int, some: Seq<Inst>) -> bool {
    &&& 0 <= first
    &&& first + some.len() <= insts.len() <= usize::MAX
    &&& forall|k: int| 0 <= k < some.len() ==> #[trigger] insts[first + k] == some[k]
}

/// `Discard`, and the part that `Pop` has in common with it.
proof fn lemma_lower_end(
    insts: Seq<Inst>,
    first: int,
    s: Seq<Value>,
    nf: NativeFrame,
    native: NativeMachine,
    region: Region,
)
    requires
        region.wf(),
        hold_stack(region, nf.pointer, nf.mem, s),
        s.len() > 0,
        nf.results.len() == first,
        found_at(
            insts,
            first,
            seq![
                Inst::UsePointer,
                Inst::AddImm(result(first), (-STRIDE) as i64),
                Inst::DefPointer(result(first + 1)),
            ],
        ),
    ensures
        ({
            let q = (nf.pointer - STRIDE) as i64;
            let nf2 = moved_to(gave(gave(nf, nf.pointer), q), q);
            &&& q == region.cell(s.len() - 1)
            &&& run_insts(insts, first, nf, native, region) == run_insts(
                insts,
                first + 3,
                nf2,
                native,
                region,
            )
            &&& hold_stack(region, nf2.pointer, nf2.mem, s.drop_last())
        }),
{
    let q = (nf.pointer - STRIDE) as i64;
    let f1 = gave(nf, nf.pointer);
    let f2 = gave(f1, q);
    let f3 = moved_to(f2, q);
    assert(insts[first + 0] == Inst::UsePointer);
    assert(insts[first + 1] == Inst::AddImm(result(first), (-STRIDE) as i64));
    assert(insts[first + 2] == Inst::DefPointer(result(first + 1)));
    lemma_result(f1, first);
    lemma_wrap(nf.pointer - STRIDE);
    assert(run_insts(insts, first, nf, native, region) == run_insts(
        insts,
        first + 1,
        f1,
        native,
        region,
    ));
    assert(run_inst(insts[first + 1], f1, native, region) == NativeRan::On(f2));
    assert(run_insts(insts, first + 1, f1, native, region) == run_insts(
        insts,
        first + 2,
        f2,
        native,
        region,
    ));
    lemma_result(f2, first + 1);
    assert(region.has_end(q as int));
    assert(run_inst(insts[first + 2], f2, native, region) == NativeRan::On(f3));
    assert(run_insts(insts, first + 2, f2, native, region) == run_insts(
        insts,
        first + 3,
        f3,
        native,
        region,
    ));
}

/// Putting a value on the stack, where the pointer is the result of instruction number `p`.
proof fn lemma_lower_push(
    insts: Seq<Inst>,
    i: int,
    p: int,
    value: Reg,
    v: Value,
    s: Seq<Value>,
    nf: NativeFrame,
    native: NativeMachine,
    region: Region,
)
    requires
        region.wf(),
        hold_stack(region, nf.pointer, nf.mem, s),
        nf.results.len() == i,
        0 <= p < i,
        nf.results[p] == seq![nf.pointer],
        at(value, nf) == v,
        found_at(
            insts,
            i,
            seq![
                Inst::Store { value, addr: result(p) },
                Inst::AddImm(result(p), STRIDE),
                Inst::DefPointer(result(i + 1)),
            ],
        ),
    ensures
        ({
            let q = (nf.pointer + STRIDE) as i64;
            let nf2 = moved_to(gave(filled(nf, nf.pointer as int, v), q), q);
            if s.len() < region.room {
                &&& run_insts(insts, i, nf, native, region) == run_insts(
                    insts,
                    i + 3,
                    nf2,
                    native,
                    region,
                )
                &&& hold_stack(region, nf2.pointer, nf2.mem, s.push(v))
            } else {
                run_insts(insts, i, nf, native, region) is Full
            }
        }),
{
    let q = (nf.pointer + STRIDE) as i64;
    assert(insts[i + 0] == (Inst::Store { value, addr: result(p) }));
    assert(insts[i + 1] == Inst::AddImm(result(p), STRIDE));
    assert(insts[i + 2] == Inst::DefPointer(result(i + 1)));
    lemma_result(nf, p);
    if s.len() < region.room {
        assert(region.has_cell(nf.pointer as int));
        let f1 = filled(nf, nf.pointer as int, v);
        let f2 = gave(f1, q);
        let f3 = moved_to(f2, q);
        assert(run_inst(insts[i + 0], nf, native, region) == NativeRan::On(f1));
        assert(run_insts(insts, i, nf, native, region) == run_insts(
            insts,
            i + 1,
            f1,
            native,
            region,
        ));
        lemma_result(f1, p);
        lemma_wrap(nf.pointer + STRIDE);
        assert(run_inst(insts[i + 1], f1, native, region) == NativeRan::On(f2));
        assert(run_insts(insts, i + 1, f1, native, region) == run_insts(
            insts,
            i + 2,
            f2,
            native,
            region,
        ));
        lemma_result(f2, i + 1);
        assert(region.has_end(q as int));
        assert(run_inst(insts[i + 2], f2, native, region) == NativeRan::On(f3));
        assert(run_insts(insts, i + 2, f2, native, region) == run_insts(
            insts,
            i + 3,
            f3,
            native,
            region,
        ));
        assert forall|k: int| 0 <= k < s.push(v).len() implies f3.mem[region.cell(k)]
            == #[trigger] s.push(v)[k] by {
            if k < s.len() {
                assert(nf.mem[region.cell(k)] == s[k]);
                assert(region.cell(k) != nf.pointer);
            }
        }
    } else {
        assert(run_inst(insts[i + 0], nf, native, region) is Full);
    }
}

/// The frame after the pointer has been looked up.
proof fn lemma_lower_pointer(
    insts: Seq<Inst>,
    first: int,
    nf: NativeFrame,
    native: NativeMachine,
    region: Region,
)
    requires
        0 <= first < insts.len() <= usize::MAX,
        insts[first] == Inst::UsePointer,
        nf.results.len() == first,
    ensures
        run_insts(insts, first, nf, native, region) == run_insts(
            insts,
            first + 1,
            gave(nf, nf.pointer),
            native,
            region,
        ),
        at(result(first), gave(nf, nf.pointer)) == nf.pointer,
{
    lemma_result(gave(nf, nf.pointer), first);
}

/// `Pop`.
proof fn lemma_pop(
    op: Op,
    insts: Seq<Inst>,
    first: int,
    last: int,
    fr: Frame,
    nf: NativeFrame,
    place: Seq<usize>,
    machine: Machine,
    native: NativeMachine,
    region: Region,
    params: nat,
    ops: Seq<Op>,
) -> (nf2: NativeFrame)
    requires
        region.wf(),
        stands_in(fr, nf, place, region),
        frame_ok(fr, params, ops),
        op_ok(op, params, ops),
        nf.results.len() == first,
        0 <= first <= last < insts.len() <= usize::MAX,
        op is Pop,
        lowers(op, insts.subrange(first, last + 1), first, place),
    ensures
        op_stands_in(
            run_op(op, fr, machine),
            insts,
            first,
            last,
            nf,
            nf2,
            place,
            native,
            region,
        ),
{
    let s = fr.world.stack;
    let some = insts.subrange(first, last + 1);
    let p = nf.pointer;
    let f1 = gave(nf, p);
    assert(some.len() == 4);
    assert(last == first + 3);
    assert(insts[first + 0] == some[0]);
    assert forall|k: int| 0 <= k < 3 implies #[trigger] insts[first + k] == seq![
        Inst::UsePointer,
        Inst::AddImm(result(first), (-STRIDE) as i64),
        Inst::DefPointer(result(first + 1)),
    ][k] by {
        assert(insts[first + k] == some[k]);
    }
    if s.len() > 0 {
        let q = (p - STRIDE) as i64;
        lemma_lower_end(insts, first, s, nf, native, region);
        let f3 = moved_to(gave(f1, q), q);
        let fr2 = run_op(op, fr, machine)->On_0;
        let v = s.last();
        let f4 = gave(f3, v);
        assert(fr2.results.drop_last() =~= fr.results);
        assert(insts[first + 3] == some[3]);
        lemma_result(f3, first + 1);
        assert(region.has_cell(q as int));
        assert(nf.mem[region.cell(s.len() - 1)] == s[s.len() - 1]);
        assert(run_inst(insts[first + 3], f3, native, region) == NativeRan::On(f4));
        assert(run_insts(insts, first + 3, f3, native, region) == run_insts(
            insts,
            first + 4,
            f4,
            native,
            region,
        ));
        assert(f4.results.take(nf.results.len() as int) =~= nf.results);
        lemma_results_stay(fr, nf, fr2, f4, place, last, region);
        f4
    } else {
        nf
    }
}

/// `Discard`.
proof fn lemma_discard(
    op: Op,
    insts: Seq<Inst>,
    first: int,
    last: int,
    fr: Frame,
    nf: NativeFrame,
    place: Seq<usize>,
    machine: Machine,
    native: NativeMachine,
    region: Region,
    params: nat,
    ops: Seq<Op>,
) -> (nf2: NativeFrame)
    requires
        region.wf(),
        stands_in(fr, nf, place, region),
        frame_ok(fr, params, ops),
        op_ok(op, params, ops),
        nf.results.len() == first,
        0 <= first <= last < insts.len() <= usize::MAX,
        op is Discard,
        lowers(op, insts.subrange(first, last + 1), first, place),
    ensures
        op_stands_in(
            run_op(op, fr, machine),
            insts,
            first,
            last,
            nf,
            nf2,
            place,
            native,
            region,
        ),
{
    let s = fr.world.stack;
    let some = insts.subrange(first, last + 1);
    let p = nf.pointer;
    let f1 = gave(nf, p);
    assert(some.len() == 3);
    assert(last == first + 2);
    assert(insts[first + 0] == some[0]);
    assert forall|k: int| 0 <= k < 3 implies #[trigger] insts[first + k] == seq![
        Inst::UsePointer,
        Inst::AddImm(result(first), (-STRIDE) as i64),
        Inst::DefPointer(result(first + 1)),
    ][k] by {
        assert(insts[first + k] == some[k]);
    }
    if s.len() > 0 {
        let q = (p - STRIDE) as i64;
        lemma_lower_end(insts, first, s, nf, native, region);
        let f3 = moved_to(gave(f1, q), q);
        let fr2 = run_op(op, fr, machine)->On_0;
        assert(fr2.results.drop_last() =~= fr.results);
        assert(f3.results.take(nf.results.len() as int) =~= nf.results);
        lemma_results_stay(fr, nf, fr2, f3, place, last, region);
        f3
    } else {
        nf
    }
}

/// `Push`.
proof fn lemma_push(
    op: Op,
    insts: Seq<Inst>,
    first: int,
    last: int,
    fr: Frame,
    nf: NativeFrame,
    place: Seq<usize>,
    machine: Machine,
    native: NativeMachine,
    region: Region,
    params: nat,
    ops: Seq<Op>,
) -> (nf2: NativeFrame)
    requires
        region.wf(),
        stands_in(fr, nf, place, region),
        frame_ok(fr, params, ops),
        op_ok(op, params, ops),
        nf.results.len() == first,
        0 <= first <= last < insts.len() <= usize::MAX,
        op is Push,
        lowers(op, insts.subrange(first, last + 1), first, place),
    ensures
        op_stands_in(
            run_op(op, fr, machine),
            insts,
            first,
            last,
            nf,
            nf2,
            place,
            native,
            region,
        ),
{
    let s = fr.world.stack;
    let some = insts.subrange(first, last + 1);
    let p = nf.pointer;
    let f1 = gave(nf, p);
    assert(some.len() == 4);
    assert(last == first + 3);
    assert(insts[first + 0] == some[0]);
    lemma_lower_pointer(insts, first, nf, native, region);
    let reg = op->Push_0;
    lemma_placed(reg, fr, nf, place, region, params, ops);
    let v = value_of(reg, fr);
    let moved = placed(reg, place);
    assert(at(moved, f1) == at(moved, nf)) by {
        if let Reg::Result { op: o, k } = reg {
            assert(place[o as int] < nf.results.len());
        }
    }
    assert forall|k: int| 0 <= k < 3 implies #[trigger] insts[first + 1 + k] == seq![
        Inst::Store { value: moved, addr: result(first) },
        Inst::AddImm(result(first), STRIDE),
        Inst::DefPointer(result(first + 2)),
    ][k] by {
        assert(insts[first + (1 + k)] == some[1 + k]);
    }
    lemma_lower_push(insts, first + 1, first, moved, v, s, f1, native, region);
    let q = (p + STRIDE) as i64;
    let f4 = moved_to(gave(filled(f1, p as int, v), q), q);
    if s.len() < region.room {
        let fr2 = run_op(op, fr, machine)->On_0;
        assert(fr2.results.drop_last() =~= fr.results);
        assert(f4.results.take(nf.results.len() as int) =~= nf.results);
        lemma_results_stay(fr, nf, fr2, f4, place, last, region);
    }
    f4
}

/// `Peek`.
proof fn lemma_peek(
    op: Op,
    insts: Seq<Inst>,
    first: int,
    last: int,
    fr: Frame,
    nf: NativeFrame,
    place: Seq<usize>,
    machine: Machine,
    native: NativeMachine,
    region: Region,
    params: nat,
    ops: Seq<Op>,
) -> (nf2: NativeFrame)
    requires
        region.wf(),
        stands_in(fr, nf, place, region),
        frame_ok(fr, params, ops),
        op_ok(op, params, ops),
        nf.results.len() == first,
        0 <= first <= last < insts.len() <= usize::MAX,
        op is Peek,
        lowers(op, insts.subrange(first, last + 1), first, place),
    ensures
        op_stands_in(
            run_op(op, fr, machine),
            insts,
            first,
            last,
            nf,
            nf2,
            place,
            native,
            region,
        ),
{
    let s = fr.world.stack;
    let some = insts.subrange(first, last + 1);
    let p = nf.pointer;
    let f1 = gave(nf, p);
    assert(some.len() == 3);
    assert(last == first + 2);
    assert(insts[first + 0] == some[0]);
    lemma_lower_pointer(insts, first, nf, native, region);
    let n = op->Peek_0;
    if 1 <= n <= s.len() {
        let q = (p - STRIDE * n) as i64;
        let v = s[s.len() - n];
        let f2 = gave(f1, q);
        let f3 = gave(f2, v);
        assert(insts[first + 1] == some[1]);
        assert(insts[first + 2] == some[2]);
        lemma_wrap(p + offset(n));
        assert(run_inst(insts[first + 1], f1, native, region) == NativeRan::On(f2));
        lemma_result(f2, first + 1);
        assert(q == region.cell(s.len() - n));
        assert(region.has_cell(q as int));
        assert(nf.mem[region.cell(s.len() - n)] == s[s.len() - n]);
        assert(run_inst(insts[first + 2], f2, native, region) == NativeRan::On(f3));
        assert(run_insts(insts, first + 1, f1, native, region) == run_insts(
            insts,
            first + 2,
            f2,
            native,
            region,
        ));
        assert(run_insts(insts, first + 2, f2, native, region) == run_insts(
            insts,
            first + 3,
            f3,
            native,
            region,
        ));
        let fr2 = run_op(op, fr, machine)->On_0;
        assert(fr2.results.drop_last() =~= fr.results);
        assert(f3.results.take(nf.results.len() as int) =~= nf.results);
        lemma_results_stay(fr, nf, fr2, f3, place, last, region);
        f3
    } else {
        nf
    }
}

/// A number that has been changed stands for the same value in later frames.
proof fn lemma_placed_later(
    reg: Reg,
    fr: Frame,
    nf: NativeFrame,
    later: NativeFrame,
    place: Seq<usize>,
    region: Region,
    params: nat,
    ops: Seq<Op>,
)
    requires
        stands_in(fr, nf, place, region),
        frame_ok(fr, params, ops),
        reg_ok(reg, params, ops),
        later.params == nf.params,
        later.results.len() >= nf.results.len(),
        later.results.take(nf.results.len() as int) == nf.results,
    ensures
        at(placed(reg, place), later) == value_of(reg, fr),
{
    lemma_placed(reg, fr, nf, place, region, params, ops);
    if let Reg::Result { op, k } = reg {
        assert(place[op as int] < nf.results.len());
        assert(later.results.take(nf.results.len() as int)[place[op as int] as int]
            == later.results[place[op as int] as int]);
    }
}

/// One instruction more.
proof fn lemma_step(
    insts: Seq<Inst>,
    i: int,
    nf: NativeFrame,
    nf2: NativeFrame,
    native: NativeMachine,
    region: Region,
)
    requires
        0 <= i < insts.len(),
        run_inst(insts[i], nf, native, region) == NativeRan::On(nf2),
    ensures
        run_insts(insts, i, nf, native, region) == run_insts(insts, i + 1, nf2, native, region),
{
}

/// The cells that are left when the lowest of the top values have been dropped.
proof fn lemma_cells_move(
    region: Region,
    mem: Map<int, Value>,
    s: Seq<Value>,
    start: int,
    amount: int,
)
    requires
        region.wf(),
        s.len() <= region.room,
        forall|i: int| 0 <= i < s.len() ==> mem[region.cell(i)] == #[trigger] s[i],
        0 <= amount <= start <= s.len(),
    ensures
        ({
            let dest = region.cell(s.len() - start);
            let source = region.cell(s.len() - start + amount);
            let size = STRIDE * (start - amount);
            let s2 = without_range(s, start, amount);
            &&& are_cells(region, dest, size)
            &&& are_cells(region, source, size)
            &&& s2.len() == s.len() - amount
            &&& forall|i: int|
                0 <= i < s2.len() ==> copied(mem, dest, source, size)[region.cell(i)]
                    == #[trigger] s2[i]
        }),
{
    let dest = region.cell(s.len() - start);
    let source = region.cell(s.len() - start + amount);
    let size = STRIDE * (start - amount);
    let s2 = without_range(s, start, amount);
    assert forall|i: int| 0 <= i < s2.len() implies copied(mem, dest, source, size)[region.cell(i)]
        == #[trigger] s2[i] by {
        if i < s.len() - start {
            assert(mem[region.cell(i)] == s[i]);
        } else {
            assert(mem[region.cell(i + amount)] == s[i + amount]);
            assert(region.cell(i) - dest + source == region.cell(i + amount));
        }
    }
}

/// The instructions for `Pick` up to the one that looks at the cell.
proof fn lemma_pick_looks(
    reg: Reg,
    insts: Seq<Inst>,
    first: int,
    fr: Frame,
    nf: NativeFrame,
    place: Seq<usize>,
    native: NativeMachine,
    region: Region,
    params: nat,
    ops: Seq<Op>,
)
    requires
        region.wf(),
        stands_in(fr, nf, place, region),
        frame_ok(fr, params, ops),
        reg_ok(reg, params, ops),
        nf.results.len() == first,
        0 <= first,
        first + 4 <= insts.len() <= usize::MAX,
        insts[first] == Inst::UsePointer,
        insts[first + 1] == Inst::MulImm(placed(reg, place), STRIDE),
        insts[first + 2] == Inst::Sub(result(first), result(first + 1)),
        insts[first + 3] == Inst::Load(result(first + 2)),
        1 <= value_of(reg, fr) <= fr.world.stack.len(),
    ensures
        ({
            let s = fr.world.stack;
            let n = value_of(reg, fr);
            let far = (STRIDE * n) as i64;
            let f3 = gave(gave(gave(nf, nf.pointer), far), (nf.pointer - far) as i64);
            run_insts(insts, first, nf, native, region) == run_insts(
                insts,
                first + 4,
                gave(f3, s[s.len() - n]),
                native,
                region,
            )
        }),
{
    let s = fr.world.stack;
    let p = nf.pointer;
    let n = value_of(reg, fr);
    let far = (STRIDE * n) as i64;
    let q = (p - far) as i64;
    let v = s[s.len() - n];
    let f1 = gave(nf, p);
    let f2 = gave(f1, far);
    let f3 = gave(f2, q);
    let f4 = gave(f3, v);
    lemma_lower_pointer(insts, first, nf, native, region);
    assert(f1.results.take(nf.results.len() as int) =~= nf.results);
    lemma_placed_later(reg, fr, nf, f1, place, region, params, ops);
    lemma_wrap(n * STRIDE);
    lemma_step(insts, first + 1, f1, f2, native, region);
    lemma_result(f2, first);
    lemma_result(f2, first + 1);
    lemma_wrap(p - far);
    lemma_step(insts, first + 2, f2, f3, native, region);
    lemma_result(f3, first + 2);
    assert(q == region.cell(s.len() - n));
    assert(region.has_cell(q as int));
    assert(nf.mem[region.cell(s.len() - n)] == s[s.len() - n]);
    lemma_step(insts, first + 3, f3, f4, native, region);
}

/// `Pick`.
proof fn lemma_pick(
    op: Op,
    insts: Seq<Inst>,
    first: int,
    last: int,
    fr: Frame,
    nf: NativeFrame,
    place: Seq<usize>,
    machine: Machine,
    native: NativeMachine,
    region: Region,
    params: nat,
    ops: Seq<Op>,
) -> (nf2: NativeFrame)
    requires
        region.wf(),
        stands_in(fr, nf, place, region),
        frame_ok(fr, params, ops),
        op_ok(op, params, ops),
        nf.results.len() == first,
        0 <= first <= last < insts.len() <= usize::MAX,
        op is Pick,
        lowers(op, insts.subrange(first, last + 1), first, place),
    ensures
        op_stands_in(
            run_op(op, fr, machine),
            insts,
            first,
            last,
            nf,
            nf2,
            place,
            native,
            region,
        ),
{
    let s = fr.world.stack;
    let some = insts.subrange(first, last + 1);
    let p = nf.pointer;
    assert(some.len() == 7);
    assert(last == first + 6);
    assert forall|k: int| 0 <= k < 7 implies #[trigger] insts[first + k] == some[k] by {}
    let reg = op->Pick_0;
    let n = value_of(reg, fr);
    if 1 <= n <= s.len() {
        let far = (STRIDE * n) as i64;
        let v = s[s.len() - n];
        let f4 = gave(gave(gave(gave(nf, p), far), (p - far) as i64), v);
        assert(insts[first + 0] == some[0]);
        assert(insts[first + 1] == some[1]);
        assert(insts[first + 2] == some[2]);
        assert(insts[first + 3] == some[3]);
        lemma_pick_looks(reg, insts, first, fr, nf, place, native, region, params, ops);
        lemma_result(f4, first + 3);
        assert forall|k: int| 0 <= k < 3 implies #[trigger] insts[first + 4 + k] == seq![
            Inst::Store { value: result(first + 3), addr: result(first) },
            Inst::AddImm(result(first), STRIDE),
            Inst::DefPointer(result(first + 5)),
        ][k] by {
            assert(insts[first + (4 + k)] == some[4 + k]);
        }
        lemma_lower_push(
            insts,
            first + 4,
            first,
            result(first + 3),
            v,
            s,
            f4,
            native,
            region,
        );
        let up = (p + STRIDE) as i64;
        let f7 = moved_to(gave(filled(f4, p as int, v), up), up);
        if s.len() < region.room {
            let fr2 = run_op(op, fr, machine)->On_0;
            assert(fr2.results.drop_last() =~= fr.results);
            assert(f7.results.take(nf.results.len() as int) =~= nf.results);
            lemma_results_stay(fr, nf, fr2, f7, place, last, region);
        }
        f7
    } else {
        nf
    }
}

/// `DropRange`.
proof fn lemma_drop_range(
    op: Op,
    insts: Seq<Inst>,
    first: int,
    last: int,
    fr: Frame,
    nf: NativeFrame,
    place: Seq<usize>,
    machine: Machine,
    native: NativeMachine,
    region: Region,
    params: nat,
    ops: Seq<Op>,
) -> (nf2: NativeFrame)
    requires
        region.wf(),
        stands_in(fr, nf, place, region),
        frame_ok(fr, params, ops),
        op_ok(op, params, ops),
        nf.results.len() == first,
        0 <= first <= last < insts.len() <= usize::MAX,
        op is DropRange,
        lowers(op, insts.subrange(first, last + 1), first, place),
    ensures
        op_stands_in(
            run_op(op, fr, machine),
            insts,
            first,
            last,
            nf,
            nf2,
            place,
            native,
            region,
        ),
{
    let s = fr.world.stack;
    let some = insts.subrange(first, last + 1);
    let p = nf.pointer;
    assert(some.len() == 9);
    assert(last == first + 8);
    assert forall|k: int| 0 <= k < 9 implies #[trigger] insts[first + k] == some[k] by {}
    let from = op->DropRange_start;
    let by = op->DropRange_amount;
    let start = value_of(from, fr);
    let amount = value_of(by, fr);
    if 0 <= amount <= start <= s.len() {
        let s2 = without_range(s, start as int, amount as int);
        let far = (STRIDE * start) as i64;
        let gap = (STRIDE * amount) as i64;
        let dest = region.cell(s.len() - start) as i64;
        let source = region.cell(s.len() - start + amount) as i64;
        let size = (STRIDE * (start - amount)) as i64;
        let q = region.cell(s.len() - amount) as i64;
        lemma_cells_move(region, nf.mem, s, start as int, amount as int);
        let f1 = gave(nf, p);
        let f2 = gave(f1, far);
        let f3 = gave(f2, gap);
        let f4 = gave(f3, dest);
        let f5 = gave(f4, source);
        let f6 = gave(f5, size);
        let f7 = NativeFrame {
            results: f6.results.push(Seq::empty()),
            mem: copied(nf.mem, dest as int, source as int, size as int),
            ..f6
        };
        let f8 = gave(f7, q);
        let f9 = moved_to(f8, q);
        lemma_drop_range_steps(
            op,
            insts,
            first,
            fr,
            nf,
            place,
            native,
            region,
            params,
            ops,
        );
        let fr2 = run_op(op, fr, machine)->On_0;
        assert(fr2.results.drop_last() =~= fr.results);
        assert(f9.results.take(nf.results.len() as int) =~= nf.results);
        lemma_results_stay(fr, nf, fr2, f9, place, last, region);
        f9
    } else {
        nf
    }
}

/// The instructions for `DropRange`, one by one.
proof fn lemma_drop_range_steps(
    op: Op,
    insts: Seq<Inst>,
    first: int,
    fr: Frame,
    nf: NativeFrame,
    place: Seq<usize>,
    native: NativeMachine,
    region: Region,
    params: nat,
    ops: Seq<Op>,
)
    requires
        region.wf(),
        stands_in(fr, nf, place, region),
        frame_ok(fr, params, ops),
        op_ok(op, params, ops),
        nf.results.len() == first,
        0 <= first,
        first + 9 <= insts.len() <= usize::MAX,
        op is DropRange,
        lowers(op, insts.subrange(first, first + 9), first, place),
        0 <= value_of(op->DropRange_amount, fr) <= value_of(op->DropRange_start, fr)
            <= fr.world.stack.len(),
    ensures
        ({
            let s = fr.world.stack;
            let start = value_of(op->DropRange_start, fr);
            let amount = value_of(op->DropRange_amount, fr);
            let dest = region.cell(s.len() - start) as i64;
            let source = region.cell(s.len() - start + amount) as i64;
            let size = (STRIDE * (start - amount)) as i64;
            let q = region.cell(s.len() - amount) as i64;
            let f6 = gave(
                gave(
                    gave(
                        gave(
                            gave(gave(nf, nf.pointer), (STRIDE * start) as i64),
                            (STRIDE * amount) as i64,
                        ),
                        dest,
                    ),
                    source,
                ),
                size,
            );
            let f7 = NativeFrame {
                results: f6.results.push(Seq::empty()),
                mem: copied(nf.mem, dest as int, source as int, size as int),
                ..f6
            };
            run_insts(insts, first, nf, native, region) == run_insts(
                insts,
                first + 9,
                moved_to(gave(f7, q), q),
                native,
                region,
            )
        }),
{
    let s = fr.world.stack;
    let some = insts.subrange(first, first + 9);
    let p = nf.pointer;
    assert forall|k: int| 0 <= k < 9 implies #[trigger] insts[first + k] == some[k] by {}
    let from = op->DropRange_start;
    let by = op->DropRange_amount;
    let start = value_of(from, fr);
    let amount = value_of(by, fr);
    let far = (STRIDE * start) as i64;
    let gap = (STRIDE * amount) as i64;
    let dest = region.cell(s.len() - start) as i64;
    let source = region.cell(s.len() - start + amount) as i64;
    let size = (STRIDE * (start - amount)) as i64;
    let q = region.cell(s.len() - amount) as i64;
    let f1 = gave(nf, p);
    let f2 = gave(f1, far);
    let f3 = gave(f2, gap);
    let f4 = gave(f3, dest);
    let f5 = gave(f4, source);
    let f6 = gave(f5, size);
    let f7 = NativeFrame {
        results: f6.results.push(Seq::empty()),
        mem: copied(nf.mem, dest as int, source as int, size as int),
        ..f6
    };
    let f8 = gave(f7, q);
    let f9 = moved_to(f8, q);
    assert(insts[first + 0] == Inst::UsePointer);
    lemma_lower_pointer(insts, first, nf, native, region);
    assert(f1.results.take(nf.results.len() as int) =~= nf.results);
    lemma_placed_later(from, fr, nf, f1, place, region, params, ops);
    lemma_wrap(start * STRIDE);
    assert(insts[first + 1] == Inst::MulImm(placed(from, place), STRIDE));
    lemma_step(insts, first + 1, f1, f2, native, region);
    assert(f2.results.take(nf.results.len() as int) =~= nf.results);
    lemma_placed_later(by, fr, nf, f2, place, region, params, ops);
    lemma_wrap(amount * STRIDE);
    assert(insts[first + 2] == Inst::MulImm(placed(by, place), STRIDE));
    lemma_step(insts, first + 2, f2, f3, native, region);
    lemma_result(f3, first);
    lemma_result(f3, first + 1);
    lemma_wrap(p - far);
    assert(insts[first + 3] == Inst::Sub(result(first), result(first + 1)));
    lemma_step(insts, first + 3, f3, f4, native, region);
    lemma_result(f4, first + 3);
    lemma_result(f4, first + 2);
    lemma_wrap(dest + gap);
    assert(insts[first + 4] == Inst::Add(result(first + 3), result(first + 2)));
    lemma_step(insts, first + 4, f4, f5, native, region);
    lemma_result(f5, first + 1);
    lemma_result(f5, first + 2);
    lemma_wrap(far - gap);
    assert(insts[first + 5] == Inst::Sub(result(first + 1), result(first + 2)));
    lemma_step(insts, first + 5, f5, f6, native, region);
    lemma_result(f6, first + 3);
    lemma_result(f6, first + 4);
    lemma_result(f6, first + 5);
    lemma_cells_move(region, nf.mem, s, start as int, amount as int);
    assert(insts[first + 6] == (Inst::Memmove {
        dest: result(first + 3),
        source: result(first + 4),
        size: result(first + 5),
    }));
    lemma_step(insts, first + 6, f6, f7, native, region);
    lemma_result(f7, first);
    lemma_result(f7, first + 2);
    lemma_wrap(p - gap);
    assert(insts[first + 7] == Inst::Sub(result(first), result(first + 2)));
    lemma_step(insts, first + 7, f7, f8, native, region);
    lemma_result(f8, first + 7);
    assert(region.has_end(q as int));
    assert(insts[first + 8] == Inst::DefPointer(result(first + 7)));
    lemma_step(insts, first + 8, f8, f9, native, region);
}

/// A call of a function that works on the stack.
proof fn lemma_call_stack(
    op: Op,
    insts: Seq<Inst>,
    first: int,
    last: int,
    fr: Frame,
    nf: NativeFrame,
    place: Seq<usize>,
    machine: Machine,
    native: NativeMachine,
    region: Region,
) -> (nf2: NativeFrame)
    requires
        region.wf(),
        machine_stands_in(machine, native, region),
        stands_in(fr, nf, place, region),
        nf.results.len() == first,
        0 <= first <= last < insts.len() <= usize::MAX,
        op is CallStack,
        lowers(op, insts.subrange(first, last + 1), first, place),
    ensures
        op_stands_in(
            run_op(op, fr, machine),
            insts,
            first,
            last,
            nf,
            nf2,
            place,
            native,
            region,
        ),
{
    let s = fr.world.stack;
    let some = insts.subrange(first, last + 1);
    let p = nf.pointer;
    assert(some.len() == 3);
    assert(last == first + 2);
    assert forall|k: int| 0 <= k < 3 implies #[trigger] insts[first + k] == some[k] by {}
    assert(insts[first + 0] == some[0]);
    assert(insts[first + 1] == some[1]);
    assert(insts[first + 2] == some[2]);
    lemma_lower_pointer(insts, first, nf, native, region);
    let f1 = gave(nf, p);
    let name = op->CallStack_0@;
    let end = (native.call_stack)(name, p, nf.mem, nf.log);
    let c = (machine.call_stack)(name, World { stack: s, log: nf.log });
    assert(World { stack: s, log: nf.log } == fr.world);
    assert(hold_stack(region, p, nf.mem, s));
    assert(end_stands_in(c, end, region));
    if let NativeEnd::Done { values, pointer: q, mem, log } = end {
        let f2 = NativeFrame { results: f1.results.push(seq![q]), mem, log, ..f1 };
        let f3 = moved_to(f2, q);
        assert(run_inst(insts[first + 1], f1, native, region) == NativeRan::On(f2));
        lemma_step(insts, first + 1, f1, f2, native, region);
        if let Some(Outcome::Done(w)) = c {
            lemma_result(f2, first + 1);
            assert(region.has_end(q as int));
            lemma_step(insts, first + 2, f2, f3, native, region);
            let fr2 = run_op(op, fr, machine)->On_0;
            assert(fr2.results.drop_last() =~= fr.results);
            assert(f3.results.take(nf.results.len() as int) =~= nf.results);
            lemma_results_stay(fr, nf, fr2, f3, place, last, region);
        }
        f3
    } else {
        nf
    }
}

/// The instructions for an operation do what the operation does, unless the stack runs full.
pub proof fn lemma_op_lowers(
    op: Op,
    insts: Seq<Inst>,
    first: int,
    last: int,
    fr: Frame,
    nf: NativeFrame,
    place: Seq<usize>,
    machine: Machine,
    native: NativeMachine,
    region: Region,
    params: nat,
    ops: Seq<Op>,
) -> (nf2: NativeFrame)
    requires
        region.wf(),
        machine_stands_in(machine, native, region),
        stands_in(fr, nf, place, region),
        frame_ok(fr, params, ops),
        op_ok(op, params, ops),
        nf.results.len() == first,
        0 <= first <= last < insts.len() <= usize::MAX,
        lowers(op, insts.subrange(first, last + 1), first, place),
    ensures
        op_stands_in(
            run_op(op, fr, machine),
            insts,
            first,
            last,
            nf,
            nf2,
            place,
            native,
            region,
        ),
{
    match op {
        Op::Pop => lemma_pop(
            op,
            insts,
            first,
            last,
            fr,
            nf,
            place,
            machine,
            native,
            region,
            params,
            ops,
        ),
        Op::Discard => lemma_discard(
            op,
            insts,
            first,
            last,
            fr,
            nf,
            place,
            machine,
            native,
            region,
            params,
            ops,
        ),
        Op::Push(_) => lemma_push(
            op,
            insts,
            first,
            last,
            fr,
            nf,
            place,
            machine,
            native,
            region,
            params,
            ops,
        ),
        Op::Peek(_) => lemma_peek(
            op,
            insts,
            first,
            last,
            fr,
            nf,
            place,
            machine,
            native,
            region,
            params,
            ops,
        ),
        Op::Pick(_) => lemma_pick(
            op,
            insts,
            first,
            last,
            fr,
            nf,
            place,
            machine,
            native,
            region,
            params,
            ops,
        ),
        Op::DropRange { .. } => lemma_drop_range(
            op,
            insts,
            first,
            last,
            fr,
            nf,
            place,
            machine,
            native,
            region,
            params,
            ops,
        ),
        Op::CallStack(_) => lemma_call_stack(
            op,
            insts,
            first,
            last,
            fr,
            nf,
            place,
            machine,
            native,
            region,
        ),
        _ => {
            let some = insts.subrange(first, last + 1);
            assert(some.len() == 1);
            assert(insts[first] == some[0]);
            lemma_plain(
                op,
                insts,
                first,
                fr,
                nf,
                place,
                machine,
                native,
                region,
                params,
                ops,
            )
        },
    }
}

} // verus!
