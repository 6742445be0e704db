//! How functions end: which calls are left the rest, which instructions nothing follows, and which
//! programs can be compiled.
use vstd::prelude::*;

#[allow(unused_imports)]
use crate::jit::abi::{imports, AbiParam, CallConv, Import};
#[allow(unused_imports)]
use crate::jit::analysis::{program_graphs, returned, ResolvedSig};
#[allow(unused_imports)]
use crate::jit::cfg::{goes_forward, BlockModel, FunctionModel, Next, TerminatorModel};
#[allow(unused_imports)]
use crate::jit::compile::{
    conflicting, ending_goals, is_trail, leaves_rest, never_goes_on, nexts, nothing_follows,
    sig_deltas, trail_height,
};
#[allow(unused_imports)]
use crate::jit::compiler::{any_conflicting, compiled_right, CompiledFunction, CompilerError};
#[allow(unused_imports)]
use crate::jit::delta::{body_delta, func_delta, path_delta, Delta};
#[allow(unused_imports)]
use crate::jit::heights::law_conflicts_never_end;
#[allow(unused_imports)]
use crate::jit::plan::{Ending, Goal, Reg};
use crate::names::NameMap;
#[allow(unused_imports)]
use crate::semantics::{basic_step, run_instr, Outcome, Step, Surroundings, World};
#[allow(unused_imports)]
use crate::types::{BasicBlockInstr, Code};

verus! {

/// Nothing follows `quit`, a trap, `pick` of no value and `drop_range` of more values than there are
/// in the range; anything else that is no call goes on, on some stack.
pub proof fn law_what_never_goes_on(instr: BasicBlockInstr, w: World, env: Surroundings)
    requires
        !(instr is FunctionCall),
    ensures
        never_goes_on(instr) <==> instr is Quit || instr is Trap || instr
            == BasicBlockInstr::ResolvedPick(0) || (instr matches BasicBlockInstr::ResolvedDropRange {
            start,
            amt,
        } && amt > start),
        never_goes_on(instr) ==> !(run_instr(instr, w, env) is Done),
{
}

/// Nothing follows a call of a function that never ends, and anything else follows a call.
pub proof fn law_what_follows_a_call(
    name: String,
    instr: BasicBlockInstr,
    sigs: Map<Seq<char>, ResolvedSig>,
)
    ensures
        nothing_follows(BasicBlockInstr::FunctionCall(name), sigs) <==> sigs.contains_key(name@)
            && sigs[name@].delta is None,
        !(instr is FunctionCall) ==> (nothing_follows(instr, sigs) <==> never_goes_on(instr)),
{
}

/// A call at the end of a function is left the rest just where something comes to it, and neither
/// function has a signature; or both have one, the values that are there are those that the callee
/// takes, and it leaves as many as the caller.
pub proof fn law_which_calls_are_left_the_rest(
    before: Seq<BasicBlockInstr>,
    callee: String,
    params: nat,
    own: Option<ResolvedSig>,
    sigs: Map<Seq<char>, ResolvedSig>,
    d: isize,
)
    requires
        forall|i: int| 0 <= i < before.len() ==> !nothing_follows(#[trigger] before[i], sigs),
        own is Some ==> body_delta(before, before.len() as int, sig_deltas(sigs)) == Some(
            Delta::Num(d),
        ),
    ensures
        ({
            let block = BlockModel {
                code: before.push(BasicBlockInstr::FunctionCall(callee)),
                terminator: TerminatorModel::Jump(Next::Terminate),
            };
            &&& own is None ==> (leaves_rest(block, params, own, sigs) <==> !sigs.contains_key(
                callee@,
            ))
            &&& own is Some && !sigs.contains_key(callee@) ==> !leaves_rest(
                block,
                params,
                own,
                sigs,
            )
            &&& own is Some && sigs.contains_key(callee@) ==> (leaves_rest(
                block,
                params,
                own,
                sigs,
            ) <==> params + d == sigs[callee@].reach && returned(own->0) == returned(
                sigs[callee@],
            ))
        }),
{
    let code = before.push(BasicBlockInstr::FunctionCall(callee));
    let n = before.len() as int;
    assert(code.len() == n + 1);
    assert(code[n] == BasicBlockInstr::FunctionCall(callee));
    assert forall|i: int| 0 <= i < n implies !nothing_follows(#[trigger] code[i], sigs) by {
        assert(code[i] == before[i]);
    }
    if own is Some {
        lemma_same_delta(before, code, n, sigs);
    }
}

proof fn lemma_same_delta(
    before: Seq<BasicBlockInstr>,
    code: Seq<BasicBlockInstr>,
    n: int,
    sigs: Map<Seq<char>, ResolvedSig>,
)
    requires
        0 <= n <= before.len() <= code.len(),
        forall|i: int| 0 <= i < n ==> before[i] == code[i],
    ensures
        body_delta(before, n, sig_deltas(sigs)) == body_delta(code, n, sig_deltas(sigs)),
    decreases n,
{
    if n > 0 {
        lemma_same_delta(before, code, n - 1, sigs);
        assert(before[n - 1] == code[n - 1]);
    }
}

/// A call that is not at the end of a function is never left the rest.
pub proof fn law_other_calls_come_back(
    block: BlockModel,
    params: nat,
    own: Option<ResolvedSig>,
    sigs: Map<Seq<char>, ResolvedSig>,
)
    ensures
        leaves_rest(block, params, own, sigs) ==> block.terminator == TerminatorModel::Jump(
            Next::Terminate,
        ) && block.code.len() > 0 && block.code.last() is FunctionCall,
{
}

/// The places where a terminator can send control, and the goals of an ending, in their order.
pub proof fn law_where_control_goes(
    a: Next,
    b: Next,
    targets: Seq<Next>,
    goal: Goal,
    other: Goal,
    goals: Vec<Goal>,
    reg: Reg,
    args: Vec<Reg>,
)
    ensures
        nexts(TerminatorModel::Jump(a)) == seq![a],
        nexts((TerminatorModel::If { on_true: a, on_false: b })) == seq![a, b],
        nexts((TerminatorModel::Skip { targets })) == targets,
        ending_goals((Ending::Goto { goal, args })) == seq![goal],
        ending_goals((Ending::Branch { cond: reg, on_true: goal, on_false: other, args })) == seq![
            goal,
            other,
        ],
        ending_goals((Ending::Switch { index: reg, goals, args })) == goals@,
{
}

/// A function with a delta, all of whose blocks lead to its end, comes to no block in two ways on
/// which the stack has grown differently.
pub proof fn law_what_ends_has_no_conflict(f: FunctionModel, deltas: Map<Seq<char>, Delta>)
    requires
        goes_forward(f),
        func_delta(f, deltas) is Some,
        forall|x: usize| #[trigger]
            f.blocks.contains_key(x) ==> (path_delta(f, x as int, deltas) matches Some(
                Delta::Num(_),
            )),
    ensures
        !conflicting(f, deltas),
{
    if conflicting(f, deltas) {
        let (a, b) = choose|a: Seq<usize>, b: Seq<usize>| #[trigger]
            is_trail(f, deltas, a) && #[trigger] is_trail(f, deltas, b) && a.last() == b.last()
                && trail_height(f, deltas, a) != trail_height(f, deltas, b);
        if f.length > 0 {
            law_conflicts_never_end(f, deltas, a, b);
            assert(f.blocks.contains_key(a.last()));
        } else {
            if a.len() > 1 {
                assert(crate::jit::compile::steps_on(f, deltas, a, 0));
                assert(f.blocks.contains_key(a[0]));
            }
            if b.len() > 1 {
                assert(crate::jit::compile::steps_on(f, deltas, b, 0));
                assert(f.blocks.contains_key(b[0]));
            }
        }
    }
}

/// A program is compiled if all its functions that have a signature lead to their end from every
/// block.
pub proof fn law_what_ends_is_compiled(
    r: Result<NameMap<CompiledFunction>, CompilerError>,
    names: Seq<Seq<char>>,
    funcs: Map<Seq<char>, Code>,
    sigs: Map<Seq<char>, ResolvedSig>,
)
    requires
        compiled_right(r, names, funcs, sigs),
        forall|name: Seq<char>| #[trigger]
            sigs.contains_key(name) ==> {
                let f = program_graphs(funcs)[name];
                &&& goes_forward(f)
                &&& func_delta(f, sig_deltas(sigs)) is Some
                &&& forall|x: usize| #[trigger]
                    f.blocks.contains_key(x) ==> (path_delta(f, x as int, sig_deltas(sigs)) matches
                        Some(Delta::Num(_)))
            },
    ensures
        r is Ok,
{
    if any_conflicting(funcs, sigs) {
        let name = choose|name: Seq<char>| #[trigger]
            sigs.contains_key(name) && conflicting(program_graphs(funcs)[name], sig_deltas(sigs));
        assert(sigs.contains_key(name));
        law_what_ends_has_no_conflict(program_graphs(funcs)[name], sig_deltas(sigs));
    }
}

/// The deltas that signatures give: of each function that has one, the change that it says, or that
/// there is no end.
pub proof fn law_deltas_of_signatures(sigs: Map<Seq<char>, ResolvedSig>, name: Seq<char>)
    ensures
        sig_deltas(sigs).contains_key(name) <==> sigs.contains_key(name),
        sigs.contains_key(name) ==> (sigs[name].delta matches Some(d) ==> sig_deltas(sigs)[name]
            == Delta::Num(d)),
        sigs.contains_key(name) && sigs[name].delta is None ==> sig_deltas(sigs)[name]
            == Delta::Never,
{
}

/// A function outside the program takes and gives back as many values as is said, in the way of the
/// machine.
pub proof fn law_imports_count(import: Import, name: Seq<char>, argc: nat, retc: nat)
    requires
        imports(import, name, argc, retc),
    ensures
        import.name@ == name,
        import.signature.params@.len() == argc,
        import.signature.returns@.len() == retc,
        forall|k: int| 0 <= k < argc ==> #[trigger] import.signature.params@[k] == AbiParam::Value,
        forall|k: int| 0 <= k < retc ==> #[trigger] import.signature.returns@[k] == AbiParam::Value,
        import.signature.call_conv == CallConv::MachineDefault,
{
}

} // verus!
