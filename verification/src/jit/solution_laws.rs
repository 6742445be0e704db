//! What is found out about functions that call each other is as small as it can be, and is there
//! wherever it can be.
use vstd::prelude::*;

#[allow(unused_imports)]
use crate::jit::abi::{plain_values, AbiParam, CallConv, Signature};
#[allow(unused_imports)]
use crate::jit::analysis::{
    is_mate, mates, program_graphs, returned, signatures, solved, solved_at, ResolvedSig,
};
#[allow(unused_imports)]
use crate::jit::compiler::{compiled_right, declares, CompiledFunction, CompilerError};
#[allow(unused_imports)]
use crate::jit::correct::under;
#[allow(unused_imports)]
use crate::jit::delta::{func_delta, Delta};
#[allow(unused_imports)]
use crate::jit::graph::{call_edges, calls, goes_on, is_call, is_path, leads_to};
#[allow(unused_imports)]
use crate::jit::monotone::{delta_below, reach_below};
#[allow(unused_imports)]
use crate::jit::reach::{func_reach, Known, Reach};
#[allow(unused_imports)]
use crate::jit::scc::{delta_solution, deltas_below, reach_solution, reaches_below};
use crate::names::NameMap;
#[allow(unused_imports)]
use crate::types::{BasicBlockInstr, Code, Instr};

verus! {

/// Reaches are in the order of the numbers, with the unbounded one on top.
pub proof fn law_order_of_reaches(a: usize, b: usize, r: Reach)
    ensures
        reach_below(Reach::Num(a), Reach::Num(b)) <==> a <= b,
        reach_below(r, Reach::Unbounded),
        reach_below(Reach::Unbounded, r) <==> r is Unbounded,
{
}

/// A delta is below another if it is the same, or says that there is no end.
pub proof fn law_order_of_deltas(a: isize, b: isize, d: Delta)
    ensures
        delta_below(Delta::Num(a), Delta::Num(b)) <==> a == b,
        delta_below(Delta::Never, d),
        delta_below(d, Delta::Never) <==> d is Never,
{
}

/// Edges lead from a node to itself, to where they end, and on from there.
pub proof fn law_edges_lead_on(edges: Set<(usize, usize)>, a: usize, b: usize, c: usize)
    ensures
        leads_to(edges, a, a),
        leads_to(edges, a, b) && edges.contains((b, c)) ==> leads_to(edges, a, c),
        edges.contains((b, c)) ==> leads_to(edges, b, c),
{
    assert(is_path(edges, seq![a]));
    assert(seq![a].first() == a && seq![a].last() == a);
    if edges.contains((b, c)) {
        let one = seq![b, c];
        assert(goes_on(edges, one, 0));
        assert(is_path(edges, one));
        assert(one.first() == b && one.last() == c);
        if leads_to(edges, a, b) {
            let path = choose|path: Seq<usize>| #[trigger]
                is_path(edges, path) && path.first() == a && path.last() == b;
            let more = path.push(c);
            assert forall|i: int| 0 <= i < more.len() - 1 implies #[trigger] goes_on(
                edges,
                more,
                i,
            ) by {
                if i < path.len() - 1 {
                    assert(goes_on(edges, path, i));
                }
            }
            assert(is_path(edges, more));
            assert(more.first() == a && more.last() == c);
        }
    }
}

/// An edge leads from a function to each that calls it, wherever in its body the call stands.
pub proof fn law_edges_are_calls(
    names: Seq<Seq<char>>,
    funcs: Map<Seq<char>, Code>,
    callee: usize,
    caller: usize,
)
    requires
        callee < names.len(),
        caller < names.len(),
    ensures
        call_edges(names, funcs).contains((callee, caller)) <==> exists|k: int|
            0 <= k < funcs[names[caller as int]]@.len()
                && (#[trigger] funcs[names[caller as int]]@[k] matches Instr::BBInstr(
                BasicBlockInstr::FunctionCall(name),
            ) && name@ == names[callee as int]),
{
    let code = funcs[names[caller as int]]@;
    let name = names[callee as int];
    if calls(code, name) {
        let k = choose|k: int| 0 <= k < code.len() && is_call(#[trigger] code[k], name);
        assert(code[k] matches Instr::BBInstr(BasicBlockInstr::FunctionCall(x)) && x@ == name);
    }
    if exists|k: int|
        0 <= k < code.len() && (#[trigger] code[k] matches Instr::BBInstr(
            BasicBlockInstr::FunctionCall(x),
        ) && x@ == name) {
        let k = choose|k: int|
            0 <= k < code.len() && (#[trigger] code[k] matches Instr::BBInstr(
                BasicBlockInstr::FunctionCall(x),
            ) && x@ == name);
        assert(is_call(code[k], name));
    }
}

/// Whatever deltas the functions that call each other could have, given those of the others, they
/// have deltas then, and say no more than these.
pub proof fn law_deltas_are_found(
    names: Seq<Seq<char>>,
    funcs: Map<Seq<char>, Code>,
    deltas: Map<Seq<char>, Delta>,
    reaches: Map<Seq<char>, Reach>,
    i: usize,
    other: Map<Seq<char>, Delta>,
    name: Seq<char>,
)
    requires
        solved(names, funcs, deltas, reaches),
        i < names.len(),
        other.dom() == mates(names, funcs, i),
        forall|x: Seq<char>| #[trigger]
            other.contains_key(x) ==> func_delta(
                program_graphs(funcs)[x],
                other.union_prefer_right(deltas.remove_keys(mates(names, funcs, i))),
            ) == Some(other[x]),
        other.contains_key(name),
    ensures
        deltas.contains_key(names[i as int]),
        deltas.contains_key(name),
        deltas[name] == other[name] || deltas[name] is Never,
{
    let scc = mates(names, funcs, i);
    let cfgs = program_graphs(funcs);
    assert(solved_at(names, funcs, deltas, reaches, i));
    assert(delta_solution(other, cfgs, deltas.remove_keys(scc)));
    assert(deltas_below(deltas.restrict(scc), other));
    assert(scc.contains(name));
    assert(deltas.restrict(scc).dom().contains(name));
    assert(deltas.restrict(scc).contains_key(name));
}

/// Whatever reaches the functions that call each other could have, given those of the others, they
/// reach no further.
pub proof fn law_reaches_are_least(
    names: Seq<Seq<char>>,
    funcs: Map<Seq<char>, Code>,
    deltas: Map<Seq<char>, Delta>,
    reaches: Map<Seq<char>, Reach>,
    i: usize,
    other: Map<Seq<char>, Reach>,
    name: Seq<char>,
    n: usize,
)
    requires
        solved(names, funcs, deltas, reaches),
        i < names.len(),
        deltas.contains_key(names[i as int]),
        other.dom() == mates(names, funcs, i),
        forall|x: Seq<char>| #[trigger]
            other.contains_key(x) ==> func_reach(
                program_graphs(funcs)[x],
                (Known {
                    deltas,
                    reaches: other.union_prefer_right(
                        reaches.remove_keys(mates(names, funcs, i)),
                    ),
                }),
            ) == other[x],
        other.contains_key(name),
        other[name] == Reach::Num(n),
    ensures
        reaches.contains_key(name),
        reaches[name] matches Reach::Num(m) && m <= n,
{
    let scc = mates(names, funcs, i);
    let cfgs = program_graphs(funcs);
    assert(solved_at(names, funcs, deltas, reaches, i));
    assert(reach_solution(other, cfgs, deltas, reaches.remove_keys(scc)));
    assert(reaches_below(reaches.restrict(scc), other));
    assert(scc.contains(name));
    assert(reaches.restrict(scc).dom().contains(name));
    assert(reaches.restrict(scc).contains_key(name));
}

/// Functions call each other if each can lead to the other, directly or not; each is among its own.
pub proof fn law_mates_lead_to_each_other(
    names: Seq<Seq<char>>,
    funcs: Map<Seq<char>, Code>,
    i: usize,
    j: usize,
)
    requires
        i < names.len(),
        j < names.len(),
        forall|a: int, b: int|
            0 <= a < names.len() && 0 <= b < names.len() && names[a] == names[b] ==> a == b,
    ensures
        mates(names, funcs, i).contains(names[j as int]) <==> leads_to(
            call_edges(names, funcs),
            i,
            j,
        ) && leads_to(call_edges(names, funcs), j, i),
        mates(names, funcs, i).contains(names[i as int]),
{
    let edges = call_edges(names, funcs);
    law_edges_lead_on(edges, i, i, i);
    assert(is_mate(names, funcs, i, i, names[i as int]));
    if leads_to(edges, i, j) && leads_to(edges, j, i) {
        assert(is_mate(names, funcs, i, j, names[j as int]));
    }
    if mates(names, funcs, i).contains(names[j as int]) {
        let k = choose|k: usize| is_mate(names, funcs, i, k, names[j as int]);
        assert(k == j);
    }
}

/// A function is declared with a parameter for each value that its signature takes, and a result for
/// each that it leaves; without a signature, with the pointer to the stack and nothing else.
pub proof fn law_declarations_count(
    functions: NameMap<CompiledFunction>,
    names: Seq<Seq<char>>,
    funcs: Map<Seq<char>, Code>,
    sigs: Map<Seq<char>, ResolvedSig>,
    name: Seq<char>,
)
    requires
        compiled_right(Ok(functions), names, funcs, sigs),
        functions@.contains_key(name),
        sigs.contains_key(name) ==> 0 <= returned(sigs[name]),
    ensures
        ({
            let declared = functions@[name].declared;
            &&& declared.call_conv == CallConv::Tail
            &&& sigs.contains_key(name) ==> {
                &&& declared.params@.len() == sigs[name].reach
                &&& declared.returns@.len() == returned(sigs[name])
                &&& sigs[name].delta matches Some(d) ==> declared.returns@.len()
                    - declared.params@.len() == d
                &&& sigs[name].delta is None ==> declared.returns@.len() == 0
                &&& forall|k: int|
                    0 <= k < declared.params@.len() ==> #[trigger] declared.params@[k]
                        == AbiParam::Value
                &&& forall|k: int|
                    0 <= k < declared.returns@.len() ==> #[trigger] declared.returns@[k]
                        == AbiParam::Value
            }
            &&& !sigs.contains_key(name) ==> declared.params@ == seq![AbiParam::StackPointer]
                && declared.returns@ == seq![AbiParam::StackPointer]
        }),
{
    assert(declares(functions@[name].declared, under(sigs, name)));
}

} // verus!
