//! Writing the plan of a block, instruction by instruction.
//!
//! There are two levels of stack: that of the machine, and the values that the plan holds. What is
//! pushed is held first; it goes to the machine's stack when something is to find it there.
use vstd::prelude::*;

#[allow(unused_imports)]
use crate::jit::analysis::{returned, ResolvedSig};
#[allow(unused_imports)]
use crate::jit::delta::Delta;
use crate::jit::plan::{Op, Reg};
#[allow(unused_imports)]
use crate::jit::plan::{
    asks, keeps_off_stack, op_ok, ops_ok, reg_ok, regs_ok, result_count, run_op, run_ops,
    touches_stack, value_of, values_of, Frame, Machine, Ran,
};
#[allow(unused_imports)]
use crate::jit::sound::{call_holds, ends_at, over};
#[allow(unused_imports)]
use crate::semantics::{below, run_instr, top, without_range, Effect, Outcome, Surroundings, World};
use crate::types::{ArithOp, BasicBlockInstr, MemOp, Value, VALUE_BITS};

verus! {

/// The plan of a block so far.
pub struct Emitter {
    pub ops: Vec<Op>,
    /// The values that are held, those that go to the stack first coming first.
    pub tmp: Vec<Reg>,
    /// The number of values that the block is entered with.
    pub params: usize,
    /// Whether what is not held is on the machine's stack. Otherwise everything is held.
    pub stacked: bool,
}

/// By how much a function with a signature changes the height of the stack.
pub open spec fn sig_delta(sig: ResolvedSig) -> Delta {
    match sig.delta {
        Some(d) => Delta::Num(d),
        None => Delta::Never,
    }
}

/// Whether something that comes out as `o` when it is interpreted may come out as `c` when it is
/// compiled. Compiled code does not look whether operands are there and suit an instruction, so that
/// anything goes where they do not.
pub open spec fn same_unless_astray(o: Outcome, c: Outcome) -> bool {
    o is Astray || c == o
}

/// Whether a machine does for compiled code what the surroundings do for code that is interpreted.
/// In the surroundings, a call has to go astray that finds fewer values than the signature says.
pub open spec fn stands_for(
    env: Surroundings,
    machine: Machine,
    sigs: Map<Seq<char>, ResolvedSig>,
) -> bool {
    &&& machine.reply == env.reply
    &&& forall|name: Seq<char>| #[trigger]
        sigs.contains_key(name) ==> call_holds(
            env.call,
            name,
            sig_delta(sigs[name]),
            sigs[name].reach,
        )
    &&& forall|name: Seq<char>, args: Seq<Value>, log: Seq<Effect>|
        sigs.contains_key(name) && args.len() == sigs[name].reach ==> {
            &&& #[trigger] (machine.call)(name, args, log) is Some
            &&& same_unless_astray(
                (env.call)(name, World { stack: args, log }),
                (machine.call)(name, args, log)->0,
            )
            &&& (machine.call)(name, args, log)->0 matches Outcome::Done(w) ==> w.stack.len()
                == returned(sigs[name])
        }
    &&& forall|name: Seq<char>, w: World|
        sigs.contains_key(name) && w.stack.len() < sigs[name].reach ==> (#[trigger] (env.call)(
            name,
            w,
        )) is Astray
    &&& forall|name: Seq<char>, w: World|
        !sigs.contains_key(name) ==> match #[trigger] (machine.call_stack)(name, w) {
            Some(c) => same_unless_astray((env.call)(name, w), c),
            None => (env.call)(name, w) is Astray,
        }
}

/// What the stack looks like that is partly held.
pub open spec fn held(fr: Frame, tmp: Seq<Reg>) -> Seq<Value> {
    fr.world.stack + values_of(tmp, fr)
}

/// Whether a frame fits the operations that led to it.
pub open spec fn frame_ok(fr: Frame, params: nat, ops: Seq<Op>) -> bool {
    &&& fr.params.len() == params
    &&& fr.results.len() == ops.len()
    &&& forall|j: int|
        0 <= j < ops.len() ==> (#[trigger] fr.results[j]).len() == result_count(ops[j])
}

/// Whether compiled code that has come out as `c` has kept up with interpreted code that has come
/// out as `o`.
pub open spec fn keeps_up(o: Outcome, c: Ran, tmp: Seq<Reg>) -> bool {
    match c {
        Ran::Lost => o is Astray,
        Ran::Over(oc) => same_unless_astray(o, oc),
        Ran::On(fr) => same_unless_astray(
            o,
            Outcome::Done(World { stack: held(fr, tmp), log: fr.world.log }),
        ),
    }
}

impl Emitter {
    /// The operations are in order, and the values that are held are there. If everything is held,
    /// no operation works on the stack.
    pub open spec fn wf(self) -> bool {
        &&& !self.stacked ==> keeps_off_stack(self.ops@)
        &&& ops_ok(self.ops@, self.params as nat)
        &&& regs_ok(self.tmp@, self.params as nat, self.ops@)
    }

    /// Whether `fr` is a frame that the operations so far can lead to.
    pub open spec fn fits(self, fr: Frame) -> bool {
        &&& frame_ok(fr, self.params as nat, self.ops@)
        &&& !self.stacked ==> fr.world.stack.len() == 0
    }
}

/// Whether compiled code, come from `fr`, is on its way, and where it should be.
pub open spec fn on_track(e: Emitter, c: Ran) -> bool {
    match c {
        Ran::On(fr) => e.fits(fr),
        Ran::Over(_) => true,
        Ran::Lost => e.stacked,
    }
}

/// Whether the operations of `e2` do one instruction more than those of `e1`.
pub open spec fn follows(
    e1: Emitter,
    e2: Emitter,
    instr: BasicBlockInstr,
    env: Surroundings,
    machine: Machine,
    start: Frame,
) -> bool {
    match run_ops(e1.ops@, start, machine) {
        Ran::On(fr) => e1.fits(fr) ==> {
            &&& keeps_up(
                run_instr(instr, World { stack: held(fr, e1.tmp@), log: fr.world.log }, env),
                run_ops(e2.ops@, start, machine),
                e2.tmp@,
            )
            &&& on_track(e2, run_ops(e2.ops@, start, machine))
        },
        other => run_ops(e2.ops@, start, machine) == other,
    }
}

/// The same from whatever start and on whatever machine.
pub open spec fn carries_out(
    e1: Emitter,
    e2: Emitter,
    instr: BasicBlockInstr,
    sigs: Map<Seq<char>, ResolvedSig>,
) -> bool {
    forall|env: Surroundings, machine: Machine, start: Frame|
        #![trigger stands_for(env, machine, sigs), run_ops(e2.ops@, start, machine)]
        stands_for(env, machine, sigs) ==> follows(e1, e2, instr, env, machine, start)
}

/// Whether the operations of `e2` are gone through, after those of `e1`, only where an instruction
/// goes astray.
pub open spec fn halts(
    e1: Emitter,
    e2: Emitter,
    instr: BasicBlockInstr,
    sigs: Map<Seq<char>, ResolvedSig>,
) -> bool {
    forall|env: Surroundings, machine: Machine, start: Frame|
        #![trigger stands_for(env, machine, sigs), run_ops(e2.ops@, start, machine)]
        stands_for(env, machine, sigs) && run_ops(e2.ops@, start, machine) is On ==> {
            run_ops(e1.ops@, start, machine) matches Ran::On(fr) && (e1.fits(fr) ==> run_instr(
                instr,
                World { stack: held(fr, e1.tmp@), log: fr.world.log },
                env,
            ) is Astray)
        }
}

/// One operation more.
pub proof fn lemma_one_op(ops: Seq<Op>, op: Op, start: Frame, machine: Machine)
    ensures
        run_ops(ops.push(op), start, machine) == (match run_ops(ops, start, machine) {
            Ran::On(fr) => run_op(op, fr, machine),
            other => other,
        }),
{
    assert(ops.push(op).drop_last() =~= ops);
    assert(ops.push(op).last() == op);
}

/// An operation leaves a frame that fits.
pub proof fn lemma_op_fits(op: Op, fr: Frame, params: nat, ops: Seq<Op>, machine: Machine)
    requires
        frame_ok(fr, params, ops),
    ensures
        run_op(op, fr, machine) matches Ran::On(fr2) ==> {
            &&& frame_ok(fr2, params, ops.push(op))
            &&& fr2.params == fr.params
            &&& fr2.results.drop_last() == fr.results
        },
{
    if let Ran::On(fr2) = run_op(op, fr, machine) {
        assert(fr2.results.drop_last() =~= fr.results);
        assert forall|j: int| 0 <= j < ops.len() + 1 implies (#[trigger] fr2.results[j]).len()
            == result_count(ops.push(op)[j]) by {
            if j < ops.len() {
                assert(fr2.results[j] == fr.results[j]);
            }
        }
    }
}

/// A value that is there stays there.
pub proof fn lemma_reg_stays(reg: Reg, params: nat, ops: Seq<Op>, op: Op)
    requires
        reg_ok(reg, params, ops),
    ensures
        reg_ok(reg, params, ops.push(op)),
{
}

/// Values that are there stay there.
pub proof fn lemma_regs_stay(regs: Seq<Reg>, params: nat, ops: Seq<Op>, op: Op)
    requires
        regs_ok(regs, params, ops),
    ensures
        regs_ok(regs, params, ops.push(op)),
{
    assert forall|i: int| 0 <= i < regs.len() implies reg_ok(
        #[trigger] regs[i],
        params,
        ops.push(op),
    ) by {
        lemma_reg_stays(regs[i], params, ops, op);
    }
}

/// A value that is there does not change.
pub proof fn lemma_value_stays(reg: Reg, params: nat, ops: Seq<Op>, fr: Frame, fr2: Frame)
    requires
        reg_ok(reg, params, ops),
        frame_ok(fr, params, ops),
        fr2.params == fr.params,
        fr2.results.len() == fr.results.len() + 1,
        fr2.results.drop_last() == fr.results,
    ensures
        value_of(reg, fr2) == value_of(reg, fr),
{
    if let Reg::Result { op, k } = reg {
        assert(fr2.results.drop_last()[op as int] == fr2.results[op as int]);
    }
}

/// Values that are there do not change.
pub proof fn lemma_values_stay(regs: Seq<Reg>, params: nat, ops: Seq<Op>, fr: Frame, fr2: Frame)
    requires
        regs_ok(regs, params, ops),
        frame_ok(fr, params, ops),
        fr2.params == fr.params,
        fr2.results.len() == fr.results.len() + 1,
        fr2.results.drop_last() == fr.results,
    ensures
        values_of(regs, fr2) == values_of(regs, fr),
{
    assert forall|i: int| 0 <= i < regs.len() implies values_of(regs, fr2)[i] == values_of(
        regs,
        fr,
    )[i] by {
        lemma_value_stays(regs[i], params, ops, fr, fr2);
    }
    assert(values_of(regs, fr2) =~= values_of(regs, fr));
}

/// The operations stay in order when one more is added.
pub proof fn lemma_ops_ok_push(ops: Seq<Op>, params: nat, op: Op)
    requires
        ops_ok(ops, params),
        op_ok(op, params, ops),
    ensures
        ops_ok(ops.push(op), params),
{
    let more = ops.push(op);
    assert forall|j: int| 0 <= j < more.len() implies op_ok(
        #[trigger] more[j],
        params,
        more.take(j),
    ) by {
        if j < ops.len() {
            assert(more.take(j) =~= ops.take(j));
            assert(op_ok(ops[j], params, ops.take(j)));
        } else {
            assert(more.take(j) =~= ops);
        }
    }
}

/// What the operations of `e2` do more than those of `e1` if they take the top `k` values off, the
/// topmost being the first in `regs`.
pub open spec fn took(
    e1: Emitter,
    e2: Emitter,
    regs: Seq<Reg>,
    machine: Machine,
    start: Frame,
) -> bool {
    match run_ops(e1.ops@, start, machine) {
        Ran::On(fr) => frame_ok(fr, e1.params as nat, e1.ops@) ==> {
            if held(fr, e1.tmp@).len() < regs.len() {
                run_ops(e2.ops@, start, machine) is Lost
            } else {
                &&& run_ops(e2.ops@, start, machine) matches Ran::On(fr2)
                &&& frame_ok(fr2, e2.params as nat, e2.ops@)
                &&& fr2.world.log == fr.world.log
                &&& held(fr2, e2.tmp@) == below(held(fr, e1.tmp@), regs.len() as int)
                &&& forall|j: int|
                    0 <= j < regs.len() ==> value_of(#[trigger] regs[j], fr2) == top(
                        held(fr, e1.tmp@),
                        j + 1,
                    )
                &&& !e1.stacked ==> fr2.world.stack == fr.world.stack
            }
        },
        other => run_ops(e2.ops@, start, machine) == other,
    }
}

/// The same from whatever start and on whatever machine.
pub open spec fn takes(e1: Emitter, e2: Emitter, regs: Seq<Reg>) -> bool {
    forall|machine: Machine, start: Frame|
        #![trigger run_ops(e2.ops@, start, machine)]
        took(e1, e2, regs, machine, start)
}

/// Taking one value more.
proof fn lemma_take_more(e1: Emitter, e2: Emitter, e3: Emitter, regs: Seq<Reg>, reg: Reg)
    requires
        e1.params == e2.params == e3.params,
        e1.stacked == e2.stacked,
        e2.stacked == e3.stacked,
        takes(e1, e2, regs),
        takes(e2, e3, seq![reg]),
        regs_ok(regs, e2.params as nat, e2.ops@),
        e3.ops@ == e2.ops@ || e3.ops@ == e2.ops@.push(Op::Pop),
    ensures
        takes(e1, e3, regs.push(reg)),
{
    assert forall|machine: Machine, start: Frame|
        #![trigger run_ops(e3.ops@, start, machine)]
        took(e1, e3, regs.push(reg), machine, start) by {
        assert(took(e1, e2, regs, machine, start)) by {
            let c = run_ops(e2.ops@, start, machine);
        }
        assert(took(e2, e3, seq![reg], machine, start));
        match run_ops(e1.ops@, start, machine) {
            Ran::On(fr) => {
                let h = held(fr, e1.tmp@);
                let k = regs.len() as int;
                if frame_ok(fr, e1.params as nat, e1.ops@) && h.len() > k {
                    let fr2 = run_ops(e2.ops@, start, machine)->On_0;
                    let fr3 = run_ops(e3.ops@, start, machine)->On_0;
                    assert(held(fr2, e2.tmp@).len() >= 1);
                    assert(below(below(h, k), 1) =~= below(h, k + 1));
                    assert(value_of(seq![reg][0], fr3) == top(held(fr2, e2.tmp@), 1));
                    assert(top(below(h, k), 1) == top(h, k + 1));
                    if e3.ops@ != e2.ops@ {
                        lemma_one_op(e2.ops@, Op::Pop, start, machine);
                        lemma_op_fits(Op::Pop, fr2, e2.params as nat, e2.ops@, machine);
                    }
                    assert forall|j: int| 0 <= j < regs.push(reg).len() implies value_of(
                        #[trigger] regs.push(reg)[j],
                        fr3,
                    ) == top(h, j + 1) by {
                        if j < regs.len() {
                            assert(reg_ok(regs[j], e2.params as nat, e2.ops@));
                            assert(value_of(regs[j], fr2) == top(h, j + 1));
                            if e3.ops@ != e2.ops@ {
                                lemma_value_stays(
                                    regs[j],
                                    e2.params as nat,
                                    e2.ops@,
                                    fr2,
                                    fr3,
                                );
                            }
                        }
                    }
                }
            },
            _ => {},
        }
    }
}

/// Taking nothing.
proof fn lemma_take_none(e: Emitter)
    ensures
        takes(e, e, Seq::empty()),
{
    assert forall|machine: Machine, start: Frame|
        #![trigger run_ops(e.ops@, start, machine)]
        took(e, e, Seq::empty(), machine, start) by {
        if let Ran::On(fr) = run_ops(e.ops@, start, machine) {
            let h = held(fr, e.tmp@);
            assert(below(h, 0) =~= h);
        }
    }
}

/// The values that the operation with the given number has as its results.
pub open spec fn result_regs(op: usize, n: nat) -> Seq<Reg> {
    Seq::new(n, |k: int| Reg::Result { op, k: k as usize })
}

impl Emitter {
    /// Nothing is done yet. In a plan that does not use the stack, all parameters are held.
    pub fn new(params: usize, stacked: bool) -> (r: Emitter)
        ensures
            r.wf(),
            r.ops@ == Seq::<Op>::empty(),
            r.params == params,
            r.stacked == stacked,
            stacked ==> r.tmp@ == Seq::<Reg>::empty(),
            !stacked ==> r.tmp@ == Seq::new(params as nat, |k: int| Reg::Param(k as usize)),
    {
        let mut tmp: Vec<Reg> = Vec::new();
        if !stacked {
            let mut k: usize = 0;
            while k < params
                invariant
                    k <= params,
                    tmp@ == Seq::new(k as nat, |k: int| Reg::Param(k as usize)),
                decreases params - k,
            {
                tmp.push(Reg::Param(k));
                k = k + 1;
                assert(tmp@ =~= Seq::new(k as nat, |k: int| Reg::Param(k as usize)));
            }
        }
        Emitter { ops: Vec::new(), tmp, params, stacked }
    }

    /// Adds an operation.
    fn emit(&mut self, op: Op)
        requires
            old(self).wf(),
            op_ok(op, old(self).params as nat, old(self).ops@),
            !old(self).stacked ==> !touches_stack(op),
        ensures
            final(self).wf(),
            final(self).ops@ == old(self).ops@.push(op),
            final(self).tmp == old(self).tmp,
            final(self).params == old(self).params,
            final(self).stacked == old(self).stacked,
    {
        proof {
            lemma_ops_ok_push(self.ops@, self.params as nat, op);
            lemma_regs_stay(self.tmp@, self.params as nat, self.ops@, op);
        }
        self.ops.push(op);
    }

    /// Holds a value that is there.
    fn hold(&mut self, reg: Reg)
        requires
            old(self).wf(),
            reg_ok(reg, old(self).params as nat, old(self).ops@),
        ensures
            final(self).wf(),
            final(self).ops == old(self).ops,
            final(self).tmp@ == old(self).tmp@.push(reg),
            final(self).params == old(self).params,
            final(self).stacked == old(self).stacked,
    {
        self.tmp.push(reg);
    }

    /// Holds all the results of the last operation.
    fn hold_results(&mut self, n: usize)
        requires
            old(self).wf(),
            old(self).ops@.len() > 0,
            n == result_count(old(self).ops@.last()),
        ensures
            final(self).wf(),
            final(self).ops == old(self).ops,
            final(self).tmp@ == old(self).tmp@ + result_regs(
                (old(self).ops@.len() - 1) as usize,
                n as nat,
            ),
            final(self).params == old(self).params,
            final(self).stacked == old(self).stacked,
    {
        let op = self.ops.len() - 1;
        let ghost before = self.tmp@;
        let mut k: usize = 0;
        while k < n
            invariant
                k <= n,
                self.wf(),
                self.ops == old(self).ops,
                self.params == old(self).params,
                self.stacked == old(self).stacked,
                op == self.ops@.len() - 1,
                n == result_count(self.ops@.last()),
                self.tmp@ == before + result_regs(op, k as nat),
            decreases n - k,
        {
            self.hold(Reg::Result { op, k });
            k = k + 1;
            assert(self.tmp@ =~= before + result_regs(op, k as nat));
        }
        assert(self.tmp@ =~= before + result_regs(op, n as nat));
    }

    /// Takes one value: one that is held if there is one, else one from the stack.
    fn xpop(&mut self) -> (r: Reg)
        requires
            old(self).wf(),
            !old(self).stacked ==> old(self).tmp@.len() > 0,
        ensures
            final(self).wf(),
            final(self).params == old(self).params,
            final(self).stacked == old(self).stacked,
            reg_ok(r, final(self).params as nat, final(self).ops@),
            takes(*old(self), *final(self), seq![r]),
            final(self).ops@ == old(self).ops@ || final(self).ops@ == old(self).ops@.push(Op::Pop),
            old(self).tmp@.len() > 0 ==> final(self).ops@ == old(self).ops@,
            old(self).tmp@.len() > 0 ==> final(self).tmp@.len() == old(self).tmp@.len() - 1,
            old(self).tmp@.len() == 0 ==> final(self).tmp@.len() == 0,
    {
        let ghost e1 = *self;
        match self.tmp.pop() {
            Some(reg) => {
                proof {
                    let e2 = *self;
                    assert(reg == e1.tmp@.last());
                    assert forall|machine: Machine, start: Frame|
                        #![trigger run_ops(e2.ops@, start, machine)]
                        took(e1, e2, seq![reg], machine, start) by {
                        if let Ran::On(fr) = run_ops(e1.ops@, start, machine) {
                            let h = held(fr, e1.tmp@);
                            assert(held(fr, e2.tmp@) =~= below(h, 1));
                            assert(value_of(reg, fr) == top(h, 1));
                        }
                    }
                }
                reg
            },
            None => {
                self.emit(Op::Pop);
                let op = self.ops.len() - 1;
                let reg = Reg::Result { op, k: 0 };
                proof {
                    let e2 = *self;
                    assert forall|machine: Machine, start: Frame|
                        #![trigger run_ops(e2.ops@, start, machine)]
                        took(e1, e2, seq![reg], machine, start) by {
                        lemma_one_op(e1.ops@, Op::Pop, start, machine);
                        if let Ran::On(fr) = run_ops(e1.ops@, start, machine) {
                            if frame_ok(fr, e1.params as nat, e1.ops@) {
                                lemma_op_fits(Op::Pop, fr, e1.params as nat, e1.ops@, machine);
                                let h = held(fr, e1.tmp@);
                                assert(h =~= fr.world.stack);
                                if h.len() > 0 {
                                    let fr2 = run_op(Op::Pop, fr, machine)->On_0;
                                    assert(fr2.results[op as int] == fr2.results.last());
                                    assert(held(fr2, e2.tmp@) =~= below(h, 1));
                                }
                            }
                        }
                    }
                }
                reg
            },
        }
    }

    /// Takes `n` values, the topmost first.
    pub fn take(&mut self, n: usize) -> (r: Vec<Reg>)
        requires
            old(self).wf(),
            !old(self).stacked ==> old(self).tmp@.len() >= n,
        ensures
            final(self).wf(),
            final(self).params == old(self).params,
            final(self).stacked == old(self).stacked,
            r@.len() == n,
            regs_ok(r@, final(self).params as nat, final(self).ops@),
            takes(*old(self), *final(self), r@),
            final(self).tmp@.len() == if old(self).tmp@.len() >= n {
                old(self).tmp@.len() - n
            } else {
                0
            },
            old(self).tmp@.len() >= n ==> final(self).ops@ == old(self).ops@,
    {
        let mut regs: Vec<Reg> = Vec::new();
        proof {
            lemma_take_none(*self);
            assert(regs@ =~= Seq::<Reg>::empty());
        }
        let mut k: usize = 0;
        while k < n
            invariant
                k <= n,
                self.wf(),
                self.params == old(self).params,
                self.stacked == old(self).stacked,
                !old(self).stacked ==> old(self).tmp@.len() >= n,
                regs@.len() == k,
                regs_ok(regs@, self.params as nat, self.ops@),
                takes(*old(self), *self, regs@),
                self.tmp@.len() == if old(self).tmp@.len() >= k {
                    old(self).tmp@.len() - k
                } else {
                    0
                },
                old(self).tmp@.len() >= k ==> self.ops@ == old(self).ops@,
            decreases n - k,
        {
            let ghost e2 = *self;
            let reg = self.xpop();
            proof {
                lemma_take_more(*old(self), e2, *self, regs@, reg);
                if self.ops@ != e2.ops@ {
                    lemma_regs_stay(regs@, e2.params as nat, e2.ops@, Op::Pop);
                }
            }
            let ghost before = regs@;
            regs.push(reg);
            k = k + 1;
        }
        regs
    }
}

/// An operation whose results are then held.
proof fn lemma_results_held(e1: Emitter, e2: Emitter, op: Op, fr: Frame, machine: Machine)
    requires
        e1.wf(),
        frame_ok(fr, e1.params as nat, e1.ops@),
        e2.params == e1.params,
        e2.ops@ == e1.ops@.push(op),
        e2.tmp@ == e1.tmp@ + result_regs(e1.ops@.len() as usize, result_count(op)),
        run_op(op, fr, machine) is On,
        e1.ops@.len() <= usize::MAX,
        result_count(op) <= usize::MAX,
    ensures
        ({
            let fr2 = run_op(op, fr, machine)->On_0;
            &&& frame_ok(fr2, e2.params as nat, e2.ops@)
            &&& held(fr2, e2.tmp@) == fr2.world.stack + values_of(e1.tmp@, fr)
                + fr2.results.last()
        }),
{
    let fr2 = run_op(op, fr, machine)->On_0;
    lemma_op_fits(op, fr, e1.params as nat, e1.ops@, machine);
    lemma_values_stay(e1.tmp@, e1.params as nat, e1.ops@, fr, fr2);
    let new = result_regs(e1.ops@.len() as usize, result_count(op));
    assert(fr2.results[e1.ops@.len() as int] == fr2.results.last());
    assert(fr2.results.last().len() == result_count(op));
    assert(values_of(new, fr2) =~= fr2.results.last());
    assert(values_of(e2.tmp@, fr2) =~= values_of(e1.tmp@, fr2) + values_of(new, fr2));
    assert(held(fr2, e2.tmp@) =~= fr2.world.stack + values_of(e1.tmp@, fr) + fr2.results.last());
}

/// What is left of the stack once `n` values are taken off whose numbers are `regs`.
spec fn taken(h: Seq<Value>, fr: Frame, e: Emitter, regs: Seq<Reg>) -> bool {
    &&& frame_ok(fr, e.params as nat, e.ops@)
    &&& held(fr, e.tmp@) == below(h, regs.len() as int)
    &&& forall|j: int|
        0 <= j < regs.len() ==> value_of(#[trigger] regs[j], fr) == top(h, j + 1)
}

/// Whether one operation on the values that were taken off a stack does what an instruction does to
/// the stack.
spec fn does_at(
    mid: Emitter,
    regs: Seq<Reg>,
    op: Op,
    instr: BasicBlockInstr,
    env: Surroundings,
    machine: Machine,
    h: Seq<Value>,
    fr: Frame,
) -> bool {
    let o = run_instr(instr, World { stack: h, log: fr.world.log }, env);
    if h.len() < regs.len() {
        o is Astray
    } else {
        match run_op(op, fr, machine) {
            Ran::On(fr2) => {
                &&& fr2.world.stack == fr.world.stack
                &&& same_unless_astray(
                    o,
                    Outcome::Done(
                        World {
                            stack: below(h, regs.len() as int) + fr2.results.last(),
                            log: fr2.world.log,
                        },
                    ),
                )
            },
            Ran::Over(oc) => same_unless_astray(o, oc),
            Ran::Lost => false,
        }
    }
}

/// The same wherever the values were taken off.
spec fn does(
    mid: Emitter,
    regs: Seq<Reg>,
    op: Op,
    instr: BasicBlockInstr,
    env: Surroundings,
    machine: Machine,
) -> bool {
    forall|h: Seq<Value>, fr: Frame|
        #![trigger does_at(mid, regs, op, instr, env, machine, h, fr)]
        (h.len() >= regs.len() ==> taken(h, fr, mid, regs)) ==> does_at(
            mid,
            regs,
            op,
            instr,
            env,
            machine,
            h,
            fr,
        )
}

/// An instruction that takes values, does one operation on them, and holds its results.
proof fn lemma_take_and_do(
    e1: Emitter,
    mid: Emitter,
    e2: Emitter,
    regs: Seq<Reg>,
    op: Op,
    instr: BasicBlockInstr,
    sigs: Map<Seq<char>, ResolvedSig>,
)
    requires
        mid.wf(),
        e1.params == mid.params == e2.params,
        e1.stacked == mid.stacked,
        mid.stacked == e2.stacked,
        takes(e1, mid, regs),
        e2.ops@ == mid.ops@.push(op),
        e2.tmp@ == mid.tmp@ + result_regs(mid.ops@.len() as usize, result_count(op)),
        result_count(op) <= usize::MAX,
        !e1.stacked ==> e1.tmp@.len() >= regs.len(),
        forall|env: Surroundings, machine: Machine|
            stands_for(env, machine, sigs) ==> #[trigger] does(
                mid,
                regs,
                op,
                instr,
                env,
                machine,
            ),
    ensures
        carries_out(e1, e2, instr, sigs),
{
    assert(mid.ops.len() == mid.ops@.len());
    assert forall|env: Surroundings, machine: Machine, start: Frame|
        #![trigger stands_for(env, machine, sigs), run_ops(e2.ops@, start, machine)]
        stands_for(env, machine, sigs) implies follows(e1, e2, instr, env, machine, start) by {
        assert(does(mid, regs, op, instr, env, machine));
        lemma_one_op(mid.ops@, op, start, machine);
        assert(took(e1, mid, regs, machine, start)) by {
            let c = run_ops(mid.ops@, start, machine);
        }
        if let Ran::On(fr) = run_ops(e1.ops@, start, machine) {
            if e1.fits(fr) {
                let h = held(fr, e1.tmp@);
                assert(values_of(e1.tmp@, fr).len() == e1.tmp@.len());
                if h.len() >= regs.len() {
                    let fr2 = run_ops(mid.ops@, start, machine)->On_0;
                    assert(taken(h, fr2, mid, regs));
                    assert(does_at(mid, regs, op, instr, env, machine, h, fr2));
                    if run_op(op, fr2, machine) is On {
                        lemma_results_held(mid, e2, op, fr2, machine);
                    }
                } else {
                    assert(does_at(mid, regs, op, instr, env, machine, h, fr));
                }
            }
        }
    }
}

proof fn lemma_const_does(
    mid: Emitter,
    v: Value,
    instr: BasicBlockInstr,
    env: Surroundings,
    machine: Machine,
)
    requires
        instr == BasicBlockInstr::Literal(v) || (instr == BasicBlockInstr::Mem(MemOp::WidthNative)
            && v == VALUE_BITS),
    ensures
        does(mid, Seq::empty(), Op::Const(v), instr, env, machine),
{
    let regs = Seq::<Reg>::empty();
    assert forall|h: Seq<Value>, fr: Frame|
        #![trigger does_at(mid, regs, Op::Const(v), instr, env, machine, h, fr)]
        does_at(mid, regs, Op::Const(v), instr, env, machine, h, fr) by {
        assert(below(h, 0) + seq![v] =~= h.push(v));
    }
}

proof fn lemma_arith_does(
    mid: Emitter,
    regs: Seq<Reg>,
    op: ArithOp,
    env: Surroundings,
    machine: Machine,
)
    requires
        regs.len() == 2,
    ensures
        does(
            mid,
            regs,
            (Op::Arith { op, a: regs[1], b: regs[0] }),
            BasicBlockInstr::Arith(op),
            env,
            machine,
        ),
{
    let new = Op::Arith { op, a: regs[1], b: regs[0] };
    let instr = BasicBlockInstr::Arith(op);
    assert forall|h: Seq<Value>, fr: Frame|
        #![trigger does_at(mid, regs, new, instr, env, machine, h, fr)]
        (h.len() >= 2 ==> taken(h, fr, mid, regs)) implies does_at(
        mid,
        regs,
        new,
        instr,
        env,
        machine,
        h,
        fr,
    ) by {
        if h.len() >= 2 {
            assert(value_of(regs[0], fr) == top(h, 1));
            assert(value_of(regs[1], fr) == top(h, 2));
            if let Ran::On(fr2) = run_op(new, fr, machine) {
                assert(below(h, 2) + fr2.results.last() =~= below(h, 2).push(
                    fr2.results.last()[0],
                ));
            }
        }
    }
}

/// What an instruction that asks for an effect asks for, given its operands, the topmost first.
spec fn asked(instr: BasicBlockInstr, v: Seq<Value>) -> Effect {
    match instr {
        BasicBlockInstr::Print => Effect::Print(v[0]),
        BasicBlockInstr::Syscall => Effect::Syscall {
            number: v[6],
            a1: v[5],
            a2: v[4],
            a3: v[3],
            a4: v[2],
            a5: v[1],
            a6: v[0],
        },
        BasicBlockInstr::Mem(MemOp::Read8) => Effect::Read8(v[0]),
        BasicBlockInstr::Mem(MemOp::ReadNative) => Effect::ReadNative(v[0]),
        BasicBlockInstr::Mem(MemOp::Write8) => Effect::Write8 { addr: v[1], byte: v[0] as u8 },
        _ => Effect::WriteNative { addr: v[1], value: v[0] },
    }
}

/// The operation for an instruction that asks for an effect.
spec fn effect_op(instr: BasicBlockInstr, regs: Seq<Reg>) -> Op {
    match instr {
        BasicBlockInstr::Print => Op::Print(regs[0]),
        BasicBlockInstr::Syscall => Op::Syscall {
            number: regs[6],
            a1: regs[5],
            a2: regs[4],
            a3: regs[3],
            a4: regs[2],
            a5: regs[1],
            a6: regs[0],
        },
        BasicBlockInstr::Mem(MemOp::Read8) => Op::Read8(regs[0]),
        BasicBlockInstr::Mem(MemOp::ReadNative) => Op::ReadNative(regs[0]),
        BasicBlockInstr::Mem(MemOp::Write8) => Op::Write8 { addr: regs[1], value: regs[0] },
        _ => Op::WriteNative { addr: regs[1], value: regs[0] },
    }
}

/// How many operands an instruction has that asks for an effect; none if it asks for none.
pub open spec fn effect_operands(instr: BasicBlockInstr) -> nat {
    match instr {
        BasicBlockInstr::Print => 1,
        BasicBlockInstr::Syscall => 7,
        BasicBlockInstr::Mem(MemOp::Read8) => 1,
        BasicBlockInstr::Mem(MemOp::ReadNative) => 1,
        BasicBlockInstr::Mem(MemOp::Write8) => 2,
        BasicBlockInstr::Mem(MemOp::WriteNative) => 2,
        _ => 0,
    }
}

proof fn lemma_effect_does(
    mid: Emitter,
    regs: Seq<Reg>,
    instr: BasicBlockInstr,
    env: Surroundings,
    machine: Machine,
)
    requires
        effect_operands(instr) > 0,
        regs.len() == effect_operands(instr),
        machine.reply == env.reply,
    ensures
        does(mid, regs, effect_op(instr, regs), instr, env, machine),
{
    let op = effect_op(instr, regs);
    let n = regs.len() as int;
    assert forall|h: Seq<Value>, fr: Frame|
        #![trigger does_at(mid, regs, op, instr, env, machine, h, fr)]
        (h.len() >= n ==> taken(h, fr, mid, regs)) implies does_at(
        mid,
        regs,
        op,
        instr,
        env,
        machine,
        h,
        fr,
    ) by {
        if h.len() >= n {
            let v = values_of(regs, fr);
            assert forall|j: int| 0 <= j < n implies v[j] == top(h, j + 1) by {
                assert(value_of(regs[j], fr) == top(h, j + 1));
            }
            assert(value_of(regs[0], fr) == v[0]);
            if n >= 2 {
                assert(value_of(regs[1], fr) == v[1]);
            }
            if n == 7 {
                assert(value_of(regs[2], fr) == v[2]);
                assert(value_of(regs[3], fr) == v[3]);
                assert(value_of(regs[4], fr) == v[4]);
                assert(value_of(regs[5], fr) == v[5]);
                assert(value_of(regs[6], fr) == v[6]);
            }
            let effect = asked(instr, v);
            assert(run_op(op, fr, machine) == asks(fr, effect, machine));
            let log = fr.world.log.push(effect);
            let rest = below(h, n);
            if effect.has_reply() {
                assert(rest + seq![(env.reply)(log)] =~= rest.push((env.reply)(log)));
            } else {
                assert(rest + Seq::<Value>::empty() =~= rest);
            }
        }
    }
}

impl Emitter {
    /// A number.
    pub fn emit_const(&mut self, instr: &BasicBlockInstr, v: Value)
        requires
            old(self).wf(),
            *instr == BasicBlockInstr::Literal(v) || (*instr == BasicBlockInstr::Mem(
                MemOp::WidthNative,
            ) && v == VALUE_BITS),
        ensures
            final(self).wf(),
            final(self).params == old(self).params,
            final(self).stacked == old(self).stacked,
            final(self).tmp@.len() == old(self).tmp@.len() + 1,
            forall|sigs: Map<Seq<char>, ResolvedSig>| #[trigger]
                carries_out(*old(self), *final(self), *instr, sigs),
    {
        let ghost e1 = *self;
        self.emit(Op::Const(v));
        self.hold_results(1);
        proof {
            lemma_take_none(e1);
            assert forall|sigs: Map<Seq<char>, ResolvedSig>| #[trigger]
                carries_out(e1, *self, *instr, sigs) by {
                assert forall|env: Surroundings, machine: Machine|
                    stands_for(env, machine, sigs) implies #[trigger] does(
                    e1,
                    Seq::empty(),
                    Op::Const(v),
                    *instr,
                    env,
                    machine,
                ) by {
                    lemma_const_does(e1, v, *instr, env, machine);
                }
                lemma_take_and_do(e1, e1, *self, Seq::empty(), Op::Const(v), *instr, sigs);
            }
        }
    }

    /// Arithmetic.
    pub fn emit_arith(&mut self, op: ArithOp)
        requires
            old(self).wf(),
            !old(self).stacked ==> old(self).tmp@.len() >= 2,
        ensures
            final(self).wf(),
            final(self).params == old(self).params,
            final(self).stacked == old(self).stacked,
            old(self).tmp@.len() >= 2 ==> final(self).tmp@.len() == old(self).tmp@.len() - 1,
            forall|sigs: Map<Seq<char>, ResolvedSig>| #[trigger]
                carries_out(*old(self), *final(self), BasicBlockInstr::Arith(op), sigs),
    {
        let ghost e1 = *self;
        let ghost instr = BasicBlockInstr::Arith(op);
        let v = self.take(2);
        let ghost mid = *self;
        assert(reg_ok(v@[0], mid.params as nat, mid.ops@));
        assert(reg_ok(v@[1], mid.params as nat, mid.ops@));
        let ghost new = Op::Arith { op, a: v@[1], b: v@[0] };
        self.emit(Op::Arith { op, a: v[1], b: v[0] });
        self.hold_results(1);
        proof {
            assert forall|sigs: Map<Seq<char>, ResolvedSig>| #[trigger]
                carries_out(e1, *self, instr, sigs) by {
                assert forall|env: Surroundings, machine: Machine|
                    stands_for(env, machine, sigs) implies #[trigger] does(
                    mid,
                    v@,
                    new,
                    instr,
                    env,
                    machine,
                ) by {
                    lemma_arith_does(mid, v@, op, env, machine);
                }
                lemma_take_and_do(e1, mid, *self, v@, new, instr, sigs);
            }
        }
    }

    /// An instruction that asks for an effect, given its operation, after its operands were taken.
    fn emit_effect(
        &mut self,
        op: Op,
        replies: bool,
        before: Ghost<Emitter>,
        regs: Ghost<Seq<Reg>>,
        instr: Ghost<BasicBlockInstr>,
    )
        requires
            old(self).wf(),
            old(self).params == before@.params,
            old(self).stacked == before@.stacked,
            takes(before@, *old(self), regs@),
            !before@.stacked ==> before@.tmp@.len() >= regs@.len(),
            regs_ok(regs@, old(self).params as nat, old(self).ops@),
            effect_operands(instr@) > 0,
            regs@.len() == effect_operands(instr@),
            op == effect_op(instr@, regs@),
            result_count(op) == (if replies {
                1nat
            } else {
                0nat
            }),
        ensures
            final(self).wf(),
            final(self).params == old(self).params,
            final(self).stacked == old(self).stacked,
            final(self).tmp@.len() == old(self).tmp@.len() + (if replies {
                1int
            } else {
                0int
            }),
            forall|sigs: Map<Seq<char>, ResolvedSig>| #[trigger]
                carries_out(before@, *final(self), instr@, sigs),
    {
        let ghost mid = *self;
        proof {
            assert forall|j: int| 0 <= j < regs@.len() implies reg_ok(
                #[trigger] regs@[j],
                self.params as nat,
                self.ops@,
            ) by {}
            assert(reg_ok(regs@[0], self.params as nat, self.ops@));
            if regs@.len() >= 2 {
                assert(reg_ok(regs@[1], self.params as nat, self.ops@));
            }
            if regs@.len() == 7 {
                assert(reg_ok(regs@[2], self.params as nat, self.ops@));
                assert(reg_ok(regs@[3], self.params as nat, self.ops@));
                assert(reg_ok(regs@[4], self.params as nat, self.ops@));
                assert(reg_ok(regs@[5], self.params as nat, self.ops@));
                assert(reg_ok(regs@[6], self.params as nat, self.ops@));
            }
        }
        let ghost new = op;
        self.emit(op);
        if replies {
            self.hold_results(1);
        } else {
            assert(self.tmp@ =~= mid.tmp@ + result_regs(mid.ops@.len() as usize, 0));
        }
        proof {
            assert forall|sigs: Map<Seq<char>, ResolvedSig>| #[trigger]
                carries_out(before@, *self, instr@, sigs) by {
                assert forall|env: Surroundings, machine: Machine|
                    stands_for(env, machine, sigs) implies #[trigger] does(
                    mid,
                    regs@,
                    new,
                    instr@,
                    env,
                    machine,
                ) by {
                    lemma_effect_does(mid, regs@, instr@, env, machine);
                }
                lemma_take_and_do(before@, mid, *self, regs@, new, instr@, sigs);
            }
        }
    }

    /// Printing.
    pub fn emit_print(&mut self)
        requires
            old(self).wf(),
            !old(self).stacked ==> old(self).tmp@.len() >= 1,
        ensures
            final(self).wf(),
            final(self).params == old(self).params,
            final(self).stacked == old(self).stacked,
            old(self).tmp@.len() >= 1 ==> final(self).tmp@.len() == old(self).tmp@.len() - 1,
            forall|sigs: Map<Seq<char>, ResolvedSig>| #[trigger]
                carries_out(*old(self), *final(self), BasicBlockInstr::Print, sigs),
    {
        let ghost e1 = *self;
        let v = self.take(1);
        self.emit_effect(
            Op::Print(v[0]),
            false,
            Ghost(e1),
            Ghost(v@),
            Ghost(BasicBlockInstr::Print),
        );
    }

    /// A system call.
    pub fn emit_syscall(&mut self)
        requires
            old(self).wf(),
            !old(self).stacked ==> old(self).tmp@.len() >= 7,
        ensures
            final(self).wf(),
            final(self).params == old(self).params,
            final(self).stacked == old(self).stacked,
            old(self).tmp@.len() >= 7 ==> final(self).tmp@.len() == old(self).tmp@.len() - 6,
            forall|sigs: Map<Seq<char>, ResolvedSig>| #[trigger]
                carries_out(*old(self), *final(self), BasicBlockInstr::Syscall, sigs),
    {
        let ghost e1 = *self;
        let v = self.take(7);
        let op = Op::Syscall {
            number: v[6],
            a1: v[5],
            a2: v[4],
            a3: v[3],
            a4: v[2],
            a5: v[1],
            a6: v[0],
        };
        self.emit_effect(op, true, Ghost(e1), Ghost(v@), Ghost(BasicBlockInstr::Syscall));
    }

    /// An access to memory.
    pub fn emit_mem(&mut self, memop: MemOp)
        requires
            old(self).wf(),
            !old(self).stacked ==> old(self).tmp@.len() >= effect_operands(
                BasicBlockInstr::Mem(memop),
            ),
        ensures
            final(self).wf(),
            final(self).params == old(self).params,
            final(self).stacked == old(self).stacked,
            old(self).tmp@.len() >= effect_operands(BasicBlockInstr::Mem(memop)) ==> final(self).tmp@.len()
                == old(self).tmp@.len() + (match memop {
                MemOp::Read8 => 0int,
                MemOp::ReadNative => 0int,
                MemOp::Write8 => -2int,
                MemOp::WriteNative => -2int,
                MemOp::WidthNative => 1int,
            }),
            forall|sigs: Map<Seq<char>, ResolvedSig>| #[trigger]
                carries_out(*old(self), *final(self), BasicBlockInstr::Mem(memop), sigs),
    {
        let ghost e1 = *self;
        let ghost instr = BasicBlockInstr::Mem(memop);
        match memop {
            MemOp::Read8 => {
                let v = self.take(1);
                self.emit_effect(Op::Read8(v[0]), true, Ghost(e1), Ghost(v@), Ghost(instr));
            },
            MemOp::ReadNative => {
                let v = self.take(1);
                self.emit_effect(Op::ReadNative(v[0]), true, Ghost(e1), Ghost(v@), Ghost(instr));
            },
            MemOp::Write8 => {
                let v = self.take(2);
                let op = Op::Write8 { addr: v[1], value: v[0] };
                self.emit_effect(op, false, Ghost(e1), Ghost(v@), Ghost(instr));
            },
            MemOp::WriteNative => {
                let v = self.take(2);
                let op = Op::WriteNative { addr: v[1], value: v[0] };
                self.emit_effect(op, false, Ghost(e1), Ghost(v@), Ghost(instr));
            },
            MemOp::WidthNative => {
                self.emit_const(&BasicBlockInstr::Mem(MemOp::WidthNative), VALUE_BITS);
            },
        }
    }
}

/// Whether values that were taken off a stack, put back in another order, make of it what an
/// instruction makes of it.
spec fn puts_back_at(
    regs: Seq<Reg>,
    kept: Seq<Reg>,
    instr: BasicBlockInstr,
    env: Surroundings,
    h: Seq<Value>,
    fr: Frame,
) -> bool {
    let o = run_instr(instr, World { stack: h, log: fr.world.log }, env);
    if h.len() < regs.len() {
        o is Astray
    } else {
        same_unless_astray(
            o,
            Outcome::Done(
                World {
                    stack: below(h, regs.len() as int) + values_of(kept, fr),
                    log: fr.world.log,
                },
            ),
        )
    }
}

/// The same wherever the values were taken off.
spec fn puts_back(
    mid: Emitter,
    regs: Seq<Reg>,
    kept: Seq<Reg>,
    instr: BasicBlockInstr,
    env: Surroundings,
) -> bool {
    forall|h: Seq<Value>, fr: Frame|
        #![trigger puts_back_at(regs, kept, instr, env, h, fr)]
        (h.len() >= regs.len() ==> taken(h, fr, mid, regs)) ==> puts_back_at(
            regs,
            kept,
            instr,
            env,
            h,
            fr,
        )
}

/// An instruction that takes values and holds them in another order.
proof fn lemma_take_and_hold(
    e1: Emitter,
    mid: Emitter,
    e2: Emitter,
    regs: Seq<Reg>,
    kept: Seq<Reg>,
    instr: BasicBlockInstr,
    sigs: Map<Seq<char>, ResolvedSig>,
)
    requires
        e1.params == mid.params == e2.params,
        e1.stacked == mid.stacked,
        mid.stacked == e2.stacked,
        takes(e1, mid, regs),
        e2.ops@ == mid.ops@,
        e2.tmp@ == mid.tmp@ + kept,
        !e1.stacked ==> e1.tmp@.len() >= regs.len(),
        forall|env: Surroundings| #[trigger] puts_back(mid, regs, kept, instr, env),
    ensures
        carries_out(e1, e2, instr, sigs),
{
    assert forall|env: Surroundings, machine: Machine, start: Frame|
        #![trigger stands_for(env, machine, sigs), run_ops(e2.ops@, start, machine)]
        stands_for(env, machine, sigs) implies follows(e1, e2, instr, env, machine, start) by {
        assert(puts_back(mid, regs, kept, instr, env));
        assert(took(e1, mid, regs, machine, start)) by {
            let c = run_ops(mid.ops@, start, machine);
        }
        if let Ran::On(fr) = run_ops(e1.ops@, start, machine) {
            if e1.fits(fr) {
                let h = held(fr, e1.tmp@);
                assert(values_of(e1.tmp@, fr).len() == e1.tmp@.len());
                if h.len() >= regs.len() {
                    let fr2 = run_ops(mid.ops@, start, machine)->On_0;
                    assert(taken(h, fr2, mid, regs));
                    assert(puts_back_at(regs, kept, instr, env, h, fr2));
                    assert(held(fr2, e2.tmp@) =~= held(fr2, mid.tmp@) + values_of(kept, fr2));
                } else {
                    assert(puts_back_at(regs, kept, instr, env, h, fr));
                }
            }
        }
    }
}

proof fn lemma_swap_puts_back(mid: Emitter, regs: Seq<Reg>, env: Surroundings)
    requires
        regs.len() == 2,
    ensures
        puts_back(mid, regs, seq![regs[0], regs[1]], BasicBlockInstr::Swap, env),
{
    let kept = seq![regs[0], regs[1]];
    let instr = BasicBlockInstr::Swap;
    assert forall|h: Seq<Value>, fr: Frame|
        #![trigger puts_back_at(regs, kept, instr, env, h, fr)]
        (h.len() >= 2 ==> taken(h, fr, mid, regs)) implies puts_back_at(
        regs,
        kept,
        instr,
        env,
        h,
        fr,
    ) by {
        if h.len() >= 2 {
            assert(value_of(regs[0], fr) == top(h, 1));
            assert(value_of(regs[1], fr) == top(h, 2));
            assert(below(h, 2) + values_of(kept, fr) =~= below(h, 2).push(top(h, 1)).push(
                top(h, 2),
            ));
        }
    }
}

proof fn lemma_rot_puts_back(mid: Emitter, regs: Seq<Reg>, env: Surroundings)
    requires
        regs.len() == 3,
    ensures
        puts_back(mid, regs, seq![regs[1], regs[0], regs[2]], BasicBlockInstr::Rot, env),
{
    let kept = seq![regs[1], regs[0], regs[2]];
    let instr = BasicBlockInstr::Rot;
    assert forall|h: Seq<Value>, fr: Frame|
        #![trigger puts_back_at(regs, kept, instr, env, h, fr)]
        (h.len() >= 3 ==> taken(h, fr, mid, regs)) implies puts_back_at(
        regs,
        kept,
        instr,
        env,
        h,
        fr,
    ) by {
        if h.len() >= 3 {
            assert(value_of(regs[0], fr) == top(h, 1));
            assert(value_of(regs[1], fr) == top(h, 2));
            assert(value_of(regs[2], fr) == top(h, 3));
            assert(below(h, 3) + values_of(kept, fr) =~= below(h, 3).push(top(h, 2)).push(
                top(h, 1),
            ).push(top(h, 3)));
        }
    }
}

/// What the operations of `e2` do more than those of `e1` if they drop the top `n` values.
pub open spec fn shed(e1: Emitter, e2: Emitter, n: int, machine: Machine, start: Frame) -> bool {
    match run_ops(e1.ops@, start, machine) {
        Ran::On(fr) => frame_ok(fr, e1.params as nat, e1.ops@) ==> {
            if held(fr, e1.tmp@).len() < n {
                run_ops(e2.ops@, start, machine) is Lost
            } else {
                &&& run_ops(e2.ops@, start, machine) matches Ran::On(fr2)
                &&& frame_ok(fr2, e2.params as nat, e2.ops@)
                &&& fr2.world.log == fr.world.log
                &&& held(fr2, e2.tmp@) == below(held(fr, e1.tmp@), n)
                &&& forall|reg: Reg|
                    reg_ok(reg, e1.params as nat, e1.ops@) ==> #[trigger] value_of(reg, fr2)
                        == value_of(reg, fr)
                &&& !e1.stacked ==> fr2.world.stack == fr.world.stack
            }
        },
        other => run_ops(e2.ops@, start, machine) == other,
    }
}

/// The same from whatever start and on whatever machine.
pub open spec fn sheds(e1: Emitter, e2: Emitter, n: int) -> bool {
    forall|machine: Machine, start: Frame|
        #![trigger run_ops(e2.ops@, start, machine)]
        shed(e1, e2, n, machine, start)
}

/// Whether all values that are there in `e1` are there in `e2`.
pub open spec fn keeps_regs(e1: Emitter, e2: Emitter) -> bool {
    forall|reg: Reg|
        reg_ok(reg, e1.params as nat, e1.ops@) ==> #[trigger] reg_ok(
            reg,
            e2.params as nat,
            e2.ops@,
        )
}

proof fn lemma_shed_none(e: Emitter)
    ensures
        sheds(e, e, 0),
{
    assert forall|machine: Machine, start: Frame|
        #![trigger run_ops(e.ops@, start, machine)]
        shed(e, e, 0, machine, start) by {
        if let Ran::On(fr) = run_ops(e.ops@, start, machine) {
            let h = held(fr, e.tmp@);
            assert(below(h, 0) =~= h);
        }
    }
}

/// Dropping one value more.
proof fn lemma_shed_more(e1: Emitter, e2: Emitter, e3: Emitter, n: int)
    requires
        0 <= n,
        e1.params == e2.params == e3.params,
        e1.stacked == e2.stacked,
        e2.stacked == e3.stacked,
        keeps_regs(e1, e2),
        sheds(e1, e2, n),
        sheds(e2, e3, 1),
    ensures
        sheds(e1, e3, n + 1),
{
    assert forall|machine: Machine, start: Frame|
        #![trigger run_ops(e3.ops@, start, machine)]
        shed(e1, e3, n + 1, machine, start) by {
        assert(shed(e1, e2, n, machine, start)) by {
            let c = run_ops(e2.ops@, start, machine);
        }
        assert(shed(e2, e3, 1, machine, start));
        if let Ran::On(fr) = run_ops(e1.ops@, start, machine) {
            let h = held(fr, e1.tmp@);
            if frame_ok(fr, e1.params as nat, e1.ops@) && h.len() > n {
                let fr2 = run_ops(e2.ops@, start, machine)->On_0;
                let fr3 = run_ops(e3.ops@, start, machine)->On_0;
                assert(held(fr2, e2.tmp@).len() >= 1);
                assert(below(below(h, n), 1) =~= below(h, n + 1));
                assert forall|reg: Reg|
                    reg_ok(reg, e1.params as nat, e1.ops@) implies #[trigger] value_of(reg, fr3)
                    == value_of(reg, fr) by {
                    assert(reg_ok(reg, e2.params as nat, e2.ops@));
                    assert(value_of(reg, fr2) == value_of(reg, fr));
                }
            }
        }
    }
}

impl Emitter {
    /// Drops one value: one that is held if there is one, else one from the stack.
    fn xdrop(&mut self)
        requires
            old(self).wf(),
            !old(self).stacked ==> old(self).tmp@.len() > 0,
        ensures
            final(self).wf(),
            final(self).params == old(self).params,
            final(self).stacked == old(self).stacked,
            keeps_regs(*old(self), *final(self)),
            sheds(*old(self), *final(self), 1),
            final(self).tmp@.len() == if old(self).tmp@.len() > 0 {
                old(self).tmp@.len() - 1
            } else {
                0
            },
    {
        let ghost e1 = *self;
        match self.tmp.pop() {
            Some(_) => {
                proof {
                    let e2 = *self;
                    assert forall|machine: Machine, start: Frame|
                        #![trigger run_ops(e2.ops@, start, machine)]
                        shed(e1, e2, 1, machine, start) by {
                        if let Ran::On(fr) = run_ops(e1.ops@, start, machine) {
                            assert(held(fr, e2.tmp@) =~= below(held(fr, e1.tmp@), 1));
                        }
                    }
                }
            },
            None => {
                self.emit(Op::Discard);
                proof {
                    let e2 = *self;
                    assert forall|machine: Machine, start: Frame|
                        #![trigger run_ops(e2.ops@, start, machine)]
                        shed(e1, e2, 1, machine, start) by {
                        lemma_one_op(e1.ops@, Op::Discard, start, machine);
                        if let Ran::On(fr) = run_ops(e1.ops@, start, machine) {
                            if frame_ok(fr, e1.params as nat, e1.ops@) {
                                lemma_op_fits(Op::Discard, fr, e1.params as nat, e1.ops@, machine);
                                let h = held(fr, e1.tmp@);
                                assert(h =~= fr.world.stack);
                                if h.len() > 0 {
                                    let fr2 = run_op(Op::Discard, fr, machine)->On_0;
                                    assert(held(fr2, e2.tmp@) =~= below(h, 1));
                                    assert forall|reg: Reg|
                                        reg_ok(
                                            reg,
                                            e1.params as nat,
                                            e1.ops@,
                                        ) implies #[trigger] value_of(reg, fr2) == value_of(
                                        reg,
                                        fr,
                                    ) by {
                                        lemma_value_stays(
                                            reg,
                                            e1.params as nat,
                                            e1.ops@,
                                            fr,
                                            fr2,
                                        );
                                    }
                                }
                            }
                        }
                    }
                }
            },
        }
    }

    /// Drops `n` values.
    fn discard(&mut self, n: usize)
        requires
            old(self).wf(),
            !old(self).stacked ==> old(self).tmp@.len() >= n,
        ensures
            final(self).wf(),
            final(self).params == old(self).params,
            final(self).stacked == old(self).stacked,
            keeps_regs(*old(self), *final(self)),
            sheds(*old(self), *final(self), n as int),
            final(self).tmp@.len() == if old(self).tmp@.len() >= n {
                old(self).tmp@.len() - n
            } else {
                0
            },
    {
        let mut k: usize = 0;
        proof {
            lemma_shed_none(*self);
        }
        while k < n
            invariant
                k <= n,
                self.wf(),
                self.params == old(self).params,
                self.stacked == old(self).stacked,
                !old(self).stacked ==> old(self).tmp@.len() >= n,
                keeps_regs(*old(self), *self),
                sheds(*old(self), *self, k as int),
                self.tmp@.len() == if old(self).tmp@.len() >= k {
                    old(self).tmp@.len() - k
                } else {
                    0
                },
            decreases n - k,
        {
            let ghost e2 = *self;
            self.xdrop();
            proof {
                lemma_shed_more(*old(self), e2, *self, k as int);
                assert forall|reg: Reg|
                    reg_ok(
                        reg,
                        old(self).params as nat,
                        old(self).ops@,
                    ) implies #[trigger] reg_ok(reg, self.params as nat, self.ops@) by {
                    assert(reg_ok(reg, e2.params as nat, e2.ops@));
                }
            }
            k = k + 1;
        }
    }

    /// `swap`.
    pub fn emit_swap(&mut self)
        requires
            old(self).wf(),
            !old(self).stacked ==> old(self).tmp@.len() >= 2,
        ensures
            final(self).wf(),
            final(self).params == old(self).params,
            final(self).stacked == old(self).stacked,
            old(self).tmp@.len() >= 2 ==> final(self).tmp@.len() == old(self).tmp@.len(),
            forall|sigs: Map<Seq<char>, ResolvedSig>| #[trigger]
                carries_out(*old(self), *final(self), BasicBlockInstr::Swap, sigs),
    {
        let ghost e1 = *self;
        let v = self.take(2);
        let ghost mid = *self;
        assert(reg_ok(v@[0], mid.params as nat, mid.ops@));
        assert(reg_ok(v@[1], mid.params as nat, mid.ops@));
        self.hold(v[0]);
        self.hold(v[1]);
        proof {
            let kept = seq![v@[0], v@[1]];
            assert(self.tmp@ =~= mid.tmp@ + kept);
            assert forall|env: Surroundings| #[trigger]
                puts_back(mid, v@, kept, BasicBlockInstr::Swap, env) by {
                lemma_swap_puts_back(mid, v@, env);
            }
            assert forall|sigs: Map<Seq<char>, ResolvedSig>| #[trigger]
                carries_out(e1, *self, BasicBlockInstr::Swap, sigs) by {
                lemma_take_and_hold(e1, mid, *self, v@, kept, BasicBlockInstr::Swap, sigs);
            }
        }
    }

    /// `rot`.
    pub fn emit_rot(&mut self)
        requires
            old(self).wf(),
            !old(self).stacked ==> old(self).tmp@.len() >= 3,
        ensures
            final(self).wf(),
            final(self).params == old(self).params,
            final(self).stacked == old(self).stacked,
            old(self).tmp@.len() >= 3 ==> final(self).tmp@.len() == old(self).tmp@.len(),
            forall|sigs: Map<Seq<char>, ResolvedSig>| #[trigger]
                carries_out(*old(self), *final(self), BasicBlockInstr::Rot, sigs),
    {
        let ghost e1 = *self;
        let v = self.take(3);
        let ghost mid = *self;
        assert(reg_ok(v@[0], mid.params as nat, mid.ops@));
        assert(reg_ok(v@[1], mid.params as nat, mid.ops@));
        assert(reg_ok(v@[2], mid.params as nat, mid.ops@));
        self.hold(v[1]);
        self.hold(v[0]);
        self.hold(v[2]);
        proof {
            let kept = seq![v@[1], v@[0], v@[2]];
            assert(self.tmp@ =~= mid.tmp@ + kept);
            assert forall|env: Surroundings| #[trigger]
                puts_back(mid, v@, kept, BasicBlockInstr::Rot, env) by {
                lemma_rot_puts_back(mid, v@, env);
            }
            assert forall|sigs: Map<Seq<char>, ResolvedSig>| #[trigger]
                carries_out(e1, *self, BasicBlockInstr::Rot, sigs) by {
                lemma_take_and_hold(e1, mid, *self, v@, kept, BasicBlockInstr::Rot, sigs);
            }
        }
    }

    /// `drop`.
    pub fn emit_drop(&mut self)
        requires
            old(self).wf(),
            !old(self).stacked ==> old(self).tmp@.len() >= 1,
        ensures
            final(self).wf(),
            final(self).params == old(self).params,
            final(self).stacked == old(self).stacked,
            old(self).tmp@.len() >= 1 ==> final(self).tmp@.len() == old(self).tmp@.len() - 1,
            forall|sigs: Map<Seq<char>, ResolvedSig>| #[trigger]
                carries_out(*old(self), *final(self), BasicBlockInstr::Drop, sigs),
    {
        let ghost e1 = *self;
        self.xdrop();
        proof {
            let e2 = *self;
            assert forall|sigs: Map<Seq<char>, ResolvedSig>| #[trigger]
                carries_out(e1, e2, BasicBlockInstr::Drop, sigs) by {
                assert forall|env: Surroundings, machine: Machine, start: Frame|
                    #![trigger stands_for(env, machine, sigs), run_ops(e2.ops@, start, machine)]
                    stands_for(env, machine, sigs) implies follows(
                    e1,
                    e2,
                    BasicBlockInstr::Drop,
                    env,
                    machine,
                    start,
                ) by {
                    assert(shed(e1, e2, 1, machine, start));
                    if let Ran::On(fr) = run_ops(e1.ops@, start, machine) {
                        assert(values_of(e1.tmp@, fr).len() == e1.tmp@.len());
                    }
                }
            }
        }
    }

    /// `pick` at a known distance.
    pub fn emit_pick(&mut self, n: usize)
        requires
            old(self).wf(),
            n >= 1,
            !old(self).stacked ==> old(self).tmp@.len() >= n,
        ensures
            final(self).wf(),
            final(self).params == old(self).params,
            final(self).stacked == old(self).stacked,
            final(self).tmp@.len() == old(self).tmp@.len() + 1,
            forall|sigs: Map<Seq<char>, ResolvedSig>| #[trigger]
                carries_out(*old(self), *final(self), BasicBlockInstr::ResolvedPick(n), sigs),
    {
        let ghost e1 = *self;
        let ghost instr = BasicBlockInstr::ResolvedPick(n);
        let count = self.tmp.len();
        if n <= count {
            let reg = self.tmp[count - n];
            assert(reg_ok(e1.tmp@[count - n], e1.params as nat, e1.ops@));
            self.hold(reg);
            proof {
                assert forall|sigs: Map<Seq<char>, ResolvedSig>| #[trigger]
                    carries_out(e1, *self, instr, sigs) by {
                    lemma_pick_held(e1, *self, n, sigs);
                }
            }
        } else {
            let depth = n - count;
            self.emit(Op::Peek(depth));
            self.hold_results(1);
            proof {
                assert(e1.ops.len() == e1.ops@.len());
                assert forall|sigs: Map<Seq<char>, ResolvedSig>| #[trigger]
                    carries_out(e1, *self, instr, sigs) by {
                    lemma_pick_peeked(e1, *self, n, depth, sigs);
                }
            }
        }
    }

    /// `drop_range` with known bounds.
    pub fn emit_drop_range(&mut self, start: usize, amt: usize)
        requires
            old(self).wf(),
            amt <= start,
            !old(self).stacked ==> old(self).tmp@.len() >= start,
        ensures
            final(self).wf(),
            final(self).params == old(self).params,
            final(self).stacked == old(self).stacked,
            old(self).tmp@.len() >= start ==> final(self).tmp@.len() == old(self).tmp@.len() - amt,
            forall|sigs: Map<Seq<char>, ResolvedSig>| #[trigger]
                carries_out(
                    *old(self),
                    *final(self),
                    (BasicBlockInstr::ResolvedDropRange { start, amt }),
                    sigs,
                ),
    {
        let ghost e1 = *self;
        let keep = start - amt;
        let v = self.take(keep);
        let ghost mid = *self;
        self.discard(amt);
        let ghost low = *self;
        assert(regs_ok(v@, low.params as nat, low.ops@)) by {
            assert forall|j: int| 0 <= j < v@.len() implies reg_ok(
                #[trigger] v@[j],
                low.params as nat,
                low.ops@,
            ) by {
                assert(reg_ok(v@[j], mid.params as nat, mid.ops@));
            }
        }
        self.hold_reversed(&v);
        proof {
            let e2 = *self;
            let instr = BasicBlockInstr::ResolvedDropRange { start, amt };
            assert forall|sigs: Map<Seq<char>, ResolvedSig>| #[trigger]
                carries_out(e1, e2, instr, sigs) by {
                assert forall|env: Surroundings, machine: Machine, from: Frame|
                    #![trigger stands_for(env, machine, sigs), run_ops(e2.ops@, from, machine)]
                    stands_for(env, machine, sigs) implies follows(
                    e1,
                    e2,
                    instr,
                    env,
                    machine,
                    from,
                ) by {
                    assert(took(e1, mid, v@, machine, from)) by {
                        let c = run_ops(mid.ops@, from, machine);
                    }
                    assert(shed(mid, low, amt as int, machine, from)) by {
                        let c = run_ops(low.ops@, from, machine);
                    }
                    if let Ran::On(fr) = run_ops(e1.ops@, from, machine) {
                        let h = held(fr, e1.tmp@);
                        assert(values_of(e1.tmp@, fr).len() == e1.tmp@.len());
                        if e1.fits(fr) && h.len() >= start {
                            let fr2 = run_ops(mid.ops@, from, machine)->On_0;
                            let fr3 = run_ops(low.ops@, from, machine)->On_0;
                            assert(held(fr2, mid.tmp@).len() >= amt);
                            assert forall|j: int| 0 <= j < keep implies value_of(
                                #[trigger] v@[j],
                                fr3,
                            ) == top(h, j + 1) by {
                                assert(reg_ok(v@[j], mid.params as nat, mid.ops@));
                                assert(value_of(v@[j], fr2) == top(h, j + 1));
                            }
                            assert(held(fr3, e2.tmp@) =~= held(fr3, low.tmp@) + values_of(
                                v@.reverse(),
                                fr3,
                            ));
                            assert(below(below(h, keep as int), amt as int) =~= below(
                                h,
                                start as int,
                            ));
                            assert(values_of(v@.reverse(), fr3) =~= h.skip(h.len() - keep)) by {
                                assert forall|j: int| 0 <= j < keep implies values_of(
                                    v@.reverse(),
                                    fr3,
                                )[j] == h.skip(h.len() - keep)[j] by {
                                    assert(v@.reverse()[j] == v@[keep - 1 - j]);
                                }
                            }
                            assert(held(fr3, e2.tmp@) =~= without_range(
                                h,
                                start as int,
                                amt as int,
                            ));
                        }
                    }
                }
            }
        }
    }

    /// Holds several values, the last first.
    fn hold_reversed(&mut self, v: &Vec<Reg>)
        requires
            old(self).wf(),
            regs_ok(v@, old(self).params as nat, old(self).ops@),
        ensures
            final(self).wf(),
            final(self).ops == old(self).ops,
            final(self).tmp@ == old(self).tmp@ + v@.reverse(),
            final(self).params == old(self).params,
            final(self).stacked == old(self).stacked,
    {
        let ghost before = self.tmp@;
        let mut i: usize = v.len();
        while i > 0
            invariant
                i <= v@.len(),
                self.wf(),
                self.ops == old(self).ops,
                self.params == old(self).params,
                self.stacked == old(self).stacked,
                regs_ok(v@, self.params as nat, self.ops@),
                self.tmp@ == before + v@.reverse().take(v@.len() - i),
            decreases i,
        {
            i = i - 1;
            assert(reg_ok(v@[i as int], self.params as nat, self.ops@));
            self.hold(v[i]);
            assert(v@.reverse()[v@.len() - 1 - i] == v@[i as int]);
            assert(self.tmp@ =~= before + v@.reverse().take(v@.len() - i));
        }
        assert(v@.reverse().take(v@.len() as int) =~= v@.reverse());
    }
}

/// What the operations of `e2` do more than those of `e1` if they put the first `i` of the values
/// that are held on the stack.
pub open spec fn spilled(e1: Emitter, e2: Emitter, i: int, machine: Machine, start: Frame) -> bool {
    match run_ops(e1.ops@, start, machine) {
        Ran::On(fr) => frame_ok(fr, e1.params as nat, e1.ops@) ==> {
            &&& run_ops(e2.ops@, start, machine) matches Ran::On(fr2)
            &&& frame_ok(fr2, e2.params as nat, e2.ops@)
            &&& fr2.world.log == fr.world.log
            &&& fr2.world.stack == fr.world.stack + values_of(e1.tmp@, fr).take(i)
            &&& forall|reg: Reg|
                reg_ok(reg, e1.params as nat, e1.ops@) ==> #[trigger] value_of(reg, fr2) == value_of(
                    reg,
                    fr,
                )
        },
        other => run_ops(e2.ops@, start, machine) == other,
    }
}

/// The same from whatever start and on whatever machine.
pub open spec fn spills(e1: Emitter, e2: Emitter, i: int) -> bool {
    forall|machine: Machine, start: Frame|
        #![trigger run_ops(e2.ops@, start, machine)]
        spilled(e1, e2, i, machine, start)
}

proof fn lemma_spill_more(e1: Emitter, e2: Emitter, e3: Emitter, i: int)
    requires
        e1.wf(),
        e1.params == e2.params == e3.params,
        0 <= i < e1.tmp@.len(),
        keeps_regs(e1, e2),
        spills(e1, e2, i),
        e3.ops@ == e2.ops@.push(Op::Push(e1.tmp@[i])),
    ensures
        spills(e1, e3, i + 1),
        keeps_regs(e1, e3),
{
    let op = Op::Push(e1.tmp@[i]);
    assert(reg_ok(e1.tmp@[i], e1.params as nat, e1.ops@));
    assert forall|machine: Machine, start: Frame|
        #![trigger run_ops(e3.ops@, start, machine)]
        spilled(e1, e3, i + 1, machine, start) by {
        assert(spilled(e1, e2, i, machine, start)) by {
            let c = run_ops(e2.ops@, start, machine);
        }
        lemma_one_op(e2.ops@, op, start, machine);
        if let Ran::On(fr) = run_ops(e1.ops@, start, machine) {
            if frame_ok(fr, e1.params as nat, e1.ops@) {
                let fr2 = run_ops(e2.ops@, start, machine)->On_0;
                lemma_op_fits(op, fr2, e2.params as nat, e2.ops@, machine);
                let fr3 = run_op(op, fr2, machine)->On_0;
                assert(value_of(e1.tmp@[i], fr2) == values_of(e1.tmp@, fr)[i]);
                assert(fr3.world.stack =~= fr.world.stack + values_of(e1.tmp@, fr).take(i + 1));
                assert forall|reg: Reg|
                    reg_ok(reg, e1.params as nat, e1.ops@) implies #[trigger] value_of(reg, fr3)
                    == value_of(reg, fr) by {
                    assert(reg_ok(reg, e2.params as nat, e2.ops@));
                    assert(value_of(reg, fr2) == value_of(reg, fr));
                    lemma_value_stays(reg, e2.params as nat, e2.ops@, fr2, fr3);
                }
            }
        }
    }
    assert forall|reg: Reg|
        reg_ok(reg, e1.params as nat, e1.ops@) implies #[trigger] reg_ok(
        reg,
        e3.params as nat,
        e3.ops@,
    ) by {
        assert(reg_ok(reg, e2.params as nat, e2.ops@));
        lemma_reg_stays(reg, e2.params as nat, e2.ops@, op);
    }
}

/// A value that is held is picked by holding it once more.
proof fn lemma_pick_held(e1: Emitter, e2: Emitter, n: usize, sigs: Map<Seq<char>, ResolvedSig>)
    requires
        1 <= n <= e1.tmp@.len(),
        e2.ops == e1.ops,
        e2.params == e1.params,
        e2.stacked == e1.stacked,
        e2.tmp@ == e1.tmp@.push(e1.tmp@[e1.tmp@.len() - n]),
    ensures
        carries_out(e1, e2, BasicBlockInstr::ResolvedPick(n), sigs),
{
    let instr = BasicBlockInstr::ResolvedPick(n);
    let reg = e1.tmp@[e1.tmp@.len() - n];
    assert forall|env: Surroundings, machine: Machine, start: Frame|
        #![trigger stands_for(env, machine, sigs), run_ops(e2.ops@, start, machine)]
        stands_for(env, machine, sigs) implies follows(e1, e2, instr, env, machine, start) by {
        if let Ran::On(fr) = run_ops(e1.ops@, start, machine) {
            let h = held(fr, e1.tmp@);
            assert(values_of(e1.tmp@, fr).len() == e1.tmp@.len());
            assert(top(h, n as int) == value_of(reg, fr));
            assert(held(fr, e2.tmp@) =~= h.push(top(h, n as int)));
        }
    }
}

/// A value on the stack is picked by looking at it.
proof fn lemma_pick_peeked(
    e1: Emitter,
    e2: Emitter,
    n: usize,
    depth: usize,
    sigs: Map<Seq<char>, ResolvedSig>,
)
    requires
        e1.wf(),
        e1.stacked,
        e1.tmp@.len() < n,
        depth == n - e1.tmp@.len(),
        e1.ops@.len() <= usize::MAX,
        e2.params == e1.params,
        e2.stacked == e1.stacked,
        e2.ops@ == e1.ops@.push(Op::Peek(depth)),
        e2.tmp@ == e1.tmp@ + result_regs(e1.ops@.len() as usize, 1),
    ensures
        carries_out(e1, e2, BasicBlockInstr::ResolvedPick(n), sigs),
{
    let instr = BasicBlockInstr::ResolvedPick(n);
    let op = Op::Peek(depth);
    assert forall|env: Surroundings, machine: Machine, start: Frame|
        #![trigger stands_for(env, machine, sigs), run_ops(e2.ops@, start, machine)]
        stands_for(env, machine, sigs) implies follows(e1, e2, instr, env, machine, start) by {
        lemma_one_op(e1.ops@, op, start, machine);
        if let Ran::On(fr) = run_ops(e1.ops@, start, machine) {
            let h = held(fr, e1.tmp@);
            assert(values_of(e1.tmp@, fr).len() == e1.tmp@.len());
            if e1.fits(fr) && run_op(op, fr, machine) is On {
                lemma_results_held(e1, e2, op, fr, machine);
                let fr2 = run_op(op, fr, machine)->On_0;
                assert(fr2.results.last()[0] == top(h, n as int));
                assert(held(fr2, e2.tmp@) =~= h.push(top(h, n as int)));
            }
        }
    }
}

proof fn lemma_call_does(
    mid: Emitter,
    regs: Seq<Reg>,
    op: Op,
    instr: BasicBlockInstr,
    sigs: Map<Seq<char>, ResolvedSig>,
    env: Surroundings,
    machine: Machine,
)
    requires
        stands_for(env, machine, sigs),
        instr is FunctionCall,
        sigs.contains_key(instr->FunctionCall_0@),
        ({
            let sig = sigs[instr->FunctionCall_0@];
            &&& regs.len() == sig.reach
            &&& 0 <= returned(sig) <= usize::MAX
            &&& op is Call
            &&& op->Call_callee@ == instr->FunctionCall_0@
            &&& op->Call_args@ == regs.reverse()
            &&& op->Call_results == returned(sig)
        }),
    ensures
        forall|h: Seq<Value>, fr: Frame|
            #![trigger does_at(mid, regs, op, instr, env, machine, h, fr)]
            h.len() >= regs.len() && taken(h, fr, mid, regs) ==> does_at(
                mid,
                regs,
                op,
                instr,
                env,
                machine,
                h,
                fr,
            ),
{
    let name = instr->FunctionCall_0@;
    let sig = sigs[name];
    let n = regs.len() as int;
    assert forall|h: Seq<Value>, fr: Frame|
        #![trigger does_at(mid, regs, op, instr, env, machine, h, fr)]
        h.len() >= n && taken(h, fr, mid, regs) implies does_at(
        mid,
        regs,
        op,
        instr,
        env,
        machine,
        h,
        fr,
    ) by {
        let args = h.skip(h.len() - n);
        let base = below(h, n);
        let log = fr.world.log;
        let w = World { stack: args, log };
        assert(values_of(regs.reverse(), fr) =~= args) by {
            assert forall|j: int| 0 <= j < n implies values_of(regs.reverse(), fr)[j] == args[j] by {
                assert(regs.reverse()[j] == regs[n - 1 - j]);
                assert(value_of(regs[n - 1 - j], fr) == top(h, n - j));
            }
        }
        assert(h =~= base + w.stack);
        assert(World { stack: h, log } == World { stack: base + w.stack, log: w.log });
        assert(call_holds(env.call, name, sig_delta(sig), sig.reach));
        assert((env.call)(name, World { stack: base + w.stack, log: w.log }) == over(
            base,
            (env.call)(name, w),
        ));
        assert(ends_at((env.call)(name, w), n, sig_delta(sig)));
        assert((machine.call)(name, args, log) is Some);
        let c = (machine.call)(name, args, log)->0;
        assert(same_unless_astray((env.call)(name, w), c));
    }
}

/// Where a call comes back that should not, it has gone astray.
proof fn lemma_never_comes_back(
    mid: Emitter,
    regs: Seq<Reg>,
    op: Op,
    instr: BasicBlockInstr,
    sigs: Map<Seq<char>, ResolvedSig>,
    env: Surroundings,
    machine: Machine,
    h: Seq<Value>,
    fr: Frame,
)
    requires
        stands_for(env, machine, sigs),
        instr is FunctionCall,
        sigs.contains_key(instr->FunctionCall_0@),
        sigs[instr->FunctionCall_0@].delta is None,
        regs.len() == sigs[instr->FunctionCall_0@].reach,
        op is Call,
        op->Call_callee@ == instr->FunctionCall_0@,
        op->Call_args@ == regs.reverse(),
        h.len() >= regs.len(),
        taken(h, fr, mid, regs),
        run_op(op, fr, machine) is On,
    ensures
        run_instr(instr, World { stack: h, log: fr.world.log }, env) is Astray,
{
    let name = instr->FunctionCall_0@;
    let sig = sigs[name];
    let n = regs.len() as int;
    let args = h.skip(h.len() - n);
    let base = below(h, n);
    let log = fr.world.log;
    let w = World { stack: args, log };
    assert(values_of(regs.reverse(), fr) =~= args) by {
        assert forall|j: int| 0 <= j < n implies values_of(regs.reverse(), fr)[j] == args[j] by {
            assert(regs.reverse()[j] == regs[n - 1 - j]);
            assert(value_of(regs[n - 1 - j], fr) == top(h, n - j));
        }
    }
    assert(h =~= base + w.stack);
    assert(World { stack: h, log } == World { stack: base + w.stack, log: w.log });
    assert(call_holds(env.call, name, sig_delta(sig), sig.reach));
    assert((env.call)(name, World { stack: base + w.stack, log: w.log }) == over(
        base,
        (env.call)(name, w),
    ));
    assert(ends_at((env.call)(name, w), n, sig_delta(sig)));
    assert((machine.call)(name, args, log) is Some);
    assert(same_unless_astray((env.call)(name, w), (machine.call)(name, args, log)->0));
}

impl Emitter {
    /// Puts all values that are held on the stack.
    pub fn flush(&mut self)
        requires
            old(self).wf(),
            old(self).stacked,
        ensures
            final(self).wf(),
            final(self).params == old(self).params,
            final(self).stacked == old(self).stacked,
            final(self).tmp@ == Seq::<Reg>::empty(),
            keeps_regs(*old(self), *final(self)),
            spills(*old(self), *final(self), old(self).tmp@.len() as int),
    {
        let ghost e1 = *self;
        let count = self.tmp.len();
        let mut i: usize = 0;
        proof {
            assert forall|machine: Machine, start: Frame|
                #![trigger run_ops(e1.ops@, start, machine)]
                spilled(e1, e1, 0, machine, start) by {
                if let Ran::On(fr) = run_ops(e1.ops@, start, machine) {
                    assert(fr.world.stack + values_of(e1.tmp@, fr).take(0) =~= fr.world.stack);
                }
            }
        }
        while i < count
            invariant
                i <= count,
                count == e1.tmp@.len(),
                e1.wf(),
                e1.stacked,
                self.wf(),
                self.tmp == e1.tmp,
                self.params == e1.params,
                self.stacked == e1.stacked,
                keeps_regs(e1, *self),
                spills(e1, *self, i as int),
            decreases count - i,
        {
            let ghost e2 = *self;
            let reg = self.tmp[i];
            assert(reg_ok(self.tmp@[i as int], self.params as nat, self.ops@));
            self.emit(Op::Push(reg));
            proof {
                lemma_spill_more(e1, e2, *self, i as int);
            }
            i = i + 1;
        }
        self.tmp = Vec::new();
        assert(self.tmp@ =~= Seq::<Reg>::empty());
        proof {
            let e2 = *self;
            assert forall|machine: Machine, start: Frame|
                #![trigger run_ops(e2.ops@, start, machine)]
                spilled(e1, e2, count as int, machine, start) by {}
        }
    }

    /// `pick` at a distance that is on the stack.
    pub fn emit_bad_pick(&mut self)
        requires
            old(self).wf(),
            old(self).stacked,
        ensures
            final(self).wf(),
            final(self).params == old(self).params,
            final(self).stacked == old(self).stacked,
            forall|sigs: Map<Seq<char>, ResolvedSig>| #[trigger]
                carries_out(*old(self), *final(self), BasicBlockInstr::BadPick, sigs),
    {
        let ghost e1 = *self;
        let v = self.take(1);
        let ghost mid = *self;
        self.flush();
        let ghost low = *self;
        assert(reg_ok(v@[0], mid.params as nat, mid.ops@));
        assert(reg_ok(v@[0], low.params as nat, low.ops@));
        let ghost op = Op::Pick(v@[0]);
        self.emit(Op::Pick(v[0]));
        proof {
            let e2 = *self;
            let instr = BasicBlockInstr::BadPick;
            assert forall|sigs: Map<Seq<char>, ResolvedSig>| #[trigger]
                carries_out(e1, e2, instr, sigs) by {
                assert forall|env: Surroundings, machine: Machine, start: Frame|
                    #![trigger stands_for(env, machine, sigs), run_ops(e2.ops@, start, machine)]
                    stands_for(env, machine, sigs) implies follows(
                    e1,
                    e2,
                    instr,
                    env,
                    machine,
                    start,
                ) by {
                    lemma_one_op(low.ops@, op, start, machine);
                    assert(took(e1, mid, v@, machine, start)) by {
                        let c = run_ops(mid.ops@, start, machine);
                    }
                    assert(spilled(mid, low, mid.tmp@.len() as int, machine, start)) by {
                        let c = run_ops(low.ops@, start, machine);
                    }
                    if let Ran::On(fr) = run_ops(e1.ops@, start, machine) {
                        let h = held(fr, e1.tmp@);
                        if e1.fits(fr) && h.len() >= 1 {
                            let fr2 = run_ops(mid.ops@, start, machine)->On_0;
                            let fr3 = run_ops(low.ops@, start, machine)->On_0;
                            assert(values_of(mid.tmp@, fr2).take(mid.tmp@.len() as int)
                                =~= values_of(mid.tmp@, fr2));
                            assert(fr3.world.stack == below(h, 1));
                            assert(value_of(v@[0], fr2) == top(h, 1));
                            assert(value_of(v@[0], fr3) == top(h, 1));
                            lemma_op_fits(op, fr3, low.params as nat, low.ops@, machine);
                            if let Ran::On(fr4) = run_op(op, fr3, machine) {
                                assert(held(fr4, e2.tmp@) =~= fr4.world.stack);
                            }
                        }
                    }
                }
            }
        }
    }

    /// `drop_range` with bounds that are on the stack.
    pub fn emit_bad_drop_range(&mut self)
        requires
            old(self).wf(),
            old(self).stacked,
        ensures
            final(self).wf(),
            final(self).params == old(self).params,
            final(self).stacked == old(self).stacked,
            forall|sigs: Map<Seq<char>, ResolvedSig>| #[trigger]
                carries_out(*old(self), *final(self), BasicBlockInstr::BadDropRange, sigs),
    {
        let ghost e1 = *self;
        let v = self.take(2);
        let ghost mid = *self;
        self.flush();
        let ghost low = *self;
        assert(reg_ok(v@[0], mid.params as nat, mid.ops@));
        assert(reg_ok(v@[1], mid.params as nat, mid.ops@));
        assert(reg_ok(v@[0], low.params as nat, low.ops@));
        assert(reg_ok(v@[1], low.params as nat, low.ops@));
        let ghost op = Op::DropRange { start: v@[1], amount: v@[0] };
        self.emit(Op::DropRange { start: v[1], amount: v[0] });
        proof {
            let e2 = *self;
            let instr = BasicBlockInstr::BadDropRange;
            assert forall|sigs: Map<Seq<char>, ResolvedSig>| #[trigger]
                carries_out(e1, e2, instr, sigs) by {
                assert forall|env: Surroundings, machine: Machine, start: Frame|
                    #![trigger stands_for(env, machine, sigs), run_ops(e2.ops@, start, machine)]
                    stands_for(env, machine, sigs) implies follows(
                    e1,
                    e2,
                    instr,
                    env,
                    machine,
                    start,
                ) by {
                    lemma_one_op(low.ops@, op, start, machine);
                    assert(took(e1, mid, v@, machine, start)) by {
                        let c = run_ops(mid.ops@, start, machine);
                    }
                    assert(spilled(mid, low, mid.tmp@.len() as int, machine, start)) by {
                        let c = run_ops(low.ops@, start, machine);
                    }
                    if let Ran::On(fr) = run_ops(e1.ops@, start, machine) {
                        let h = held(fr, e1.tmp@);
                        if e1.fits(fr) && h.len() >= 2 {
                            let fr2 = run_ops(mid.ops@, start, machine)->On_0;
                            let fr3 = run_ops(low.ops@, start, machine)->On_0;
                            assert(values_of(mid.tmp@, fr2).take(mid.tmp@.len() as int)
                                =~= values_of(mid.tmp@, fr2));
                            assert(fr3.world.stack == below(h, 2));
                            assert(value_of(v@[0], fr2) == top(h, 1));
                            assert(value_of(v@[1], fr2) == top(h, 2));
                            assert(value_of(v@[0], fr3) == top(h, 1));
                            assert(value_of(v@[1], fr3) == top(h, 2));
                            lemma_op_fits(op, fr3, low.params as nat, low.ops@, machine);
                            if let Ran::On(fr4) = run_op(op, fr3, machine) {
                                assert(held(fr4, e2.tmp@) =~= fr4.world.stack);
                            }
                        }
                    }
                }
            }
        }
    }

    /// Takes the arguments of a call, the deepest first.
    pub fn take_args(&mut self, n: usize) -> (r: Vec<Reg>)
        requires
            old(self).wf(),
            !old(self).stacked ==> old(self).tmp@.len() >= n,
        ensures
            final(self).wf(),
            final(self).params == old(self).params,
            final(self).stacked == old(self).stacked,
            r@.len() == n,
            regs_ok(r@, final(self).params as nat, final(self).ops@),
            takes(*old(self), *final(self), r@.reverse()),
            final(self).tmp@.len() == if old(self).tmp@.len() >= n {
                old(self).tmp@.len() - n
            } else {
                0
            },
            old(self).tmp@.len() >= n ==> final(self).ops@ == old(self).ops@,
    {
        let v = self.take(n);
        let mut args: Vec<Reg> = Vec::new();
        let mut i: usize = v.len();
        while i > 0
            invariant
                i <= v@.len(),
                args@ == v@.reverse().take(v@.len() - i),
            decreases i,
        {
            i = i - 1;
            args.push(v[i]);
            assert(v@.reverse()[v@.len() - 1 - i] == v@[i as int]);
            assert(args@ =~= v@.reverse().take(v@.len() - i));
        }
        proof {
            assert(args@ =~= v@.reverse());
            assert(args@.reverse() =~= v@);
            assert forall|j: int| 0 <= j < args@.len() implies reg_ok(
                #[trigger] args@[j],
                self.params as nat,
                self.ops@,
            ) by {
                assert(args@[j] == v@[v@.len() - 1 - j]);
            }
        }
        args
    }

    /// A call of a function with a signature, whose arguments were taken.
    pub fn emit_call(
        &mut self,
        callee: &String,
        sig: &ResolvedSig,
        args: Vec<Reg>,
        before: Ghost<Emitter>,
    )
        requires
            old(self).wf(),
            old(self).params == before@.params,
            old(self).stacked == before@.stacked,
            args@.len() == sig.reach,
            regs_ok(args@, old(self).params as nat, old(self).ops@),
            takes(before@, *old(self), args@.reverse()),
            !before@.stacked ==> before@.tmp@.len() >= sig.reach,
            0 <= returned(*sig) <= usize::MAX,
        ensures
            final(self).wf(),
            final(self).params == old(self).params,
            final(self).stacked == old(self).stacked,
            final(self).tmp@.len() == old(self).tmp@.len() + returned(*sig),
            forall|sigs: Map<Seq<char>, ResolvedSig>|
                sigs.contains_key(callee@) && sigs[callee@] == *sig ==> #[trigger] carries_out(
                    before@,
                    *final(self),
                    BasicBlockInstr::FunctionCall(*callee),
                    sigs,
                ),
            forall|sigs: Map<Seq<char>, ResolvedSig>|
                sigs.contains_key(callee@) && sigs[callee@] == *sig && sig.delta is None
                    ==> #[trigger] halts(
                    before@,
                    *final(self),
                    BasicBlockInstr::FunctionCall(*callee),
                    sigs,
                ),
    {
        let ghost e1 = before@;
        let ghost mid = *self;
        let ghost regs = args@.reverse();
        let results = sig.retc();
        let op = Op::Call { callee: callee.clone(), args, results };
        let ghost new = op;
        assert(regs.reverse() =~= args@);
        self.emit(op);
        self.hold_results(results);
        proof {
            let e2 = *self;
            let instr = BasicBlockInstr::FunctionCall(*callee);
            assert(mid.ops.len() == mid.ops@.len());
            assert forall|sigs: Map<Seq<char>, ResolvedSig>|
                sigs.contains_key(callee@) && sigs[callee@] == *sig implies #[trigger] carries_out(
                e1,
                e2,
                instr,
                sigs,
            ) by {
                assert forall|env: Surroundings, machine: Machine, start: Frame|
                    #![trigger stands_for(env, machine, sigs), run_ops(e2.ops@, start, machine)]
                    stands_for(env, machine, sigs) implies follows(
                    e1,
                    e2,
                    instr,
                    env,
                    machine,
                    start,
                ) by {
                    lemma_call_does(mid, regs, new, instr, sigs, env, machine);
                    lemma_one_op(mid.ops@, new, start, machine);
                    assert(took(e1, mid, regs, machine, start)) by {
                        let c = run_ops(mid.ops@, start, machine);
                    }
                    if let Ran::On(fr) = run_ops(e1.ops@, start, machine) {
                        if e1.fits(fr) {
                            let h = held(fr, e1.tmp@);
                            assert(values_of(e1.tmp@, fr).len() == e1.tmp@.len());
                            if h.len() >= regs.len() {
                                let fr2 = run_ops(mid.ops@, start, machine)->On_0;
                                assert(taken(h, fr2, mid, regs));
                                assert(does_at(mid, regs, new, instr, env, machine, h, fr2));
                                if run_op(new, fr2, machine) is On {
                                    lemma_results_held(mid, e2, new, fr2, machine);
                                }
                            }
                        }
                    }
                }
            }
            assert forall|sigs: Map<Seq<char>, ResolvedSig>|
                sigs.contains_key(callee@) && sigs[callee@] == *sig
                    && sig.delta is None implies #[trigger] halts(e1, e2, instr, sigs) by {
                assert forall|env: Surroundings, machine: Machine, start: Frame|
                    #![trigger stands_for(env, machine, sigs), run_ops(e2.ops@, start, machine)]
                    stands_for(env, machine, sigs) && run_ops(e2.ops@, start, machine) is On implies {
                    run_ops(e1.ops@, start, machine) matches Ran::On(fr) && (e1.fits(fr)
                        ==> run_instr(
                        instr,
                        World { stack: held(fr, e1.tmp@), log: fr.world.log },
                        env,
                    ) is Astray)
                } by {
                    lemma_one_op(mid.ops@, new, start, machine);
                    assert(took(e1, mid, regs, machine, start)) by {
                        let c = run_ops(mid.ops@, start, machine);
                    }
                    let fr = run_ops(e1.ops@, start, machine)->On_0;
                    if e1.fits(fr) {
                        let h = held(fr, e1.tmp@);
                        let fr2 = run_ops(mid.ops@, start, machine)->On_0;
                        assert(taken(h, fr2, mid, regs));
                        lemma_never_comes_back(
                            mid,
                            regs,
                            new,
                            instr,
                            sigs,
                            env,
                            machine,
                            h,
                            fr2,
                        );
                    }
                }
            }
        }
    }

    /// A call of a function without a signature, after everything has gone to the stack.
    pub fn emit_call_stack(&mut self, callee: &String, before: Ghost<Emitter>)
        requires
            old(self).wf(),
            old(self).stacked,
            before@.stacked,
            old(self).params == before@.params,
            old(self).tmp@ == Seq::<Reg>::empty(),
            spills(before@, *old(self), before@.tmp@.len() as int),
        ensures
            final(self).wf(),
            final(self).params == old(self).params,
            final(self).stacked == old(self).stacked,
            forall|sigs: Map<Seq<char>, ResolvedSig>|
                !sigs.contains_key(callee@) ==> #[trigger] carries_out(
                    before@,
                    *final(self),
                    BasicBlockInstr::FunctionCall(*callee),
                    sigs,
                ),
    {
        let ghost e1 = before@;
        let ghost low = *self;
        let op = Op::CallStack(callee.clone());
        let ghost new = op;
        self.emit(op);
        proof {
            let e2 = *self;
            let instr = BasicBlockInstr::FunctionCall(*callee);
            assert forall|sigs: Map<Seq<char>, ResolvedSig>|
                !sigs.contains_key(callee@) implies #[trigger] carries_out(
                e1,
                e2,
                instr,
                sigs,
            ) by {
                assert forall|env: Surroundings, machine: Machine, start: Frame|
                    #![trigger stands_for(env, machine, sigs), run_ops(e2.ops@, start, machine)]
                    stands_for(env, machine, sigs) implies follows(
                    e1,
                    e2,
                    instr,
                    env,
                    machine,
                    start,
                ) by {
                    lemma_one_op(low.ops@, new, start, machine);
                    assert(spilled(e1, low, e1.tmp@.len() as int, machine, start)) by {
                        let c = run_ops(low.ops@, start, machine);
                    }
                    if let Ran::On(fr) = run_ops(e1.ops@, start, machine) {
                        if e1.fits(fr) {
                            let h = held(fr, e1.tmp@);
                            let fr2 = run_ops(low.ops@, start, machine)->On_0;
                            assert(values_of(e1.tmp@, fr).take(e1.tmp@.len() as int) =~= values_of(
                                e1.tmp@,
                                fr,
                            ));
                            assert(fr2.world == World { stack: h, log: fr.world.log });
                            let c = (machine.call_stack)(callee@, fr2.world);
                            lemma_op_fits(new, fr2, low.params as nat, low.ops@, machine);
                            if let Ran::On(fr3) = run_op(new, fr2, machine) {
                                assert(held(fr3, e2.tmp@) =~= fr3.world.stack);
                            }
                        }
                    }
                }
            }
        }
    }

    /// `quit`.
    pub fn emit_quit(&mut self)
        requires
            old(self).wf(),
        ensures
            final(self).wf(),
            final(self).params == old(self).params,
            final(self).stacked == old(self).stacked,
            final(self).tmp == old(self).tmp,
            forall|sigs: Map<Seq<char>, ResolvedSig>| #[trigger]
                carries_out(*old(self), *final(self), BasicBlockInstr::Quit, sigs),
            forall|sigs: Map<Seq<char>, ResolvedSig>| #[trigger]
                halts(*old(self), *final(self), BasicBlockInstr::Quit, sigs),
    {
        let ghost e1 = *self;
        self.emit(Op::Quit);
        proof {
            let e2 = *self;
            assert forall|sigs: Map<Seq<char>, ResolvedSig>| #[trigger]
                carries_out(e1, e2, BasicBlockInstr::Quit, sigs) by {
                assert forall|env: Surroundings, machine: Machine, start: Frame|
                    #![trigger stands_for(env, machine, sigs), run_ops(e2.ops@, start, machine)]
                    stands_for(env, machine, sigs) implies follows(
                    e1,
                    e2,
                    BasicBlockInstr::Quit,
                    env,
                    machine,
                    start,
                ) by {
                    lemma_one_op(e1.ops@, Op::Quit, start, machine);
                }
            }
            assert forall|sigs: Map<Seq<char>, ResolvedSig>| #[trigger]
                halts(e1, e2, BasicBlockInstr::Quit, sigs) by {
                assert forall|machine: Machine, start: Frame| !(#[trigger] run_ops(
                    e2.ops@,
                    start,
                    machine,
                ) is On) by {
                    lemma_one_op(e1.ops@, Op::Quit, start, machine);
                }
            }
        }
    }
}

} // verus!
