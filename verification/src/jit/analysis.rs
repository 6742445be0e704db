//! Signatures: how many values each function takes from the stack, and how many it leaves there.
use vstd::prelude::*;

use crate::jit::cfg::raw_instrs_to_analyzed_function;
#[allow(unused_imports)]
use crate::jit::cfg::{
    analyzed, ending, goes_forward, guarded, lemma_block_is_straight, lemma_next_break,
    lemma_resolved_is_straight, next_break, resolved, resolved_at, Function, FunctionModel,
};
#[allow(unused_imports)]
use crate::jit::cfg_laws::law_graph_goes_forward;
#[allow(unused_imports)]
use crate::jit::delta::{func_delta, instr_delta, Delta};
use crate::jit::graph::{component, toposort, ComponentGraph};
#[allow(unused_imports)]
use crate::jit::graph::{
    acyclic, call_edges, calls, component_edges, component_nodes, condenses, is_call, is_member,
    is_topological, leads_to, lemma_edges_lead_on, lemma_one_component,
};
#[allow(unused_imports)]
use crate::jit::monotone::{law_func_delta_monotone, law_func_reach_monotone};
#[allow(unused_imports)]
use crate::jit::reach::{instr_reach, Known, Reach};
use crate::jit::scc::solve_scc;
#[allow(unused_imports)]
use crate::jit::scc::{
    delta_solution, graphs, least_deltas, least_reaches, lemma_dom, reach_solution, reach_under,
    texts,
};
use crate::names::NameMap;
#[allow(unused_imports)]
use crate::types::{BasicBlockInstr, Code, Instr};

verus! {

/// A resolved function signature.
#[derive(Debug, Clone, Copy, PartialEq, Eq, Structural)]
pub struct ResolvedSig {
    /// By how much the function changes the height of the stack; `None` if its end is never
    /// reached.
    pub delta: Option<isize>,
    /// How many values of the stack the function looks at.
    pub reach: usize,
}

/// How many values a function with this signature leaves in place of those that it takes.
pub open spec fn returned(sig: ResolvedSig) -> int {
    match sig.delta {
        Some(d) => sig.reach + d,
        None => 0,
    }
}

/// The signature with a given delta and reach. Where there is no limit to the reach there is none.
pub open spec fn signature(delta: Delta, reach: Reach) -> Option<ResolvedSig> {
    match reach {
        Reach::Num(reach) => Some(
            ResolvedSig {
                delta: match delta {
                    Delta::Num(d) => Some(d),
                    Delta::Never => None,
                },
                reach,
            },
        ),
        Reach::Unbounded => None,
    }
}

impl ResolvedSig {
    /// The number of arguments.
    pub fn argc(&self) -> (r: usize)
        ensures
            r == self.reach,
    {
        self.reach
    }

    /// The number of results.
    pub fn retc(&self) -> (r: usize)
        requires
            0 <= returned(*self) <= usize::MAX,
        ensures
            r == returned(*self),
    {
        match self.delta {
            Some(d) => if d >= 0 {
                self.reach + d as usize
            } else {
                self.reach - 1 - (-(d + 1)) as usize
            },
            None => 0,
        }
    }
}

impl TryFrom<(&Delta, &Reach)> for ResolvedSig {
    type Error = ();

    fn try_from(parts: (&Delta, &Reach)) -> Result<ResolvedSig, ()> {
        match parts {
            (Delta::Num(d), Reach::Num(r)) => Ok(ResolvedSig { delta: Some(*d), reach: *r }),
            (Delta::Never, Reach::Num(r)) => Ok(ResolvedSig { delta: None, reach: *r }),
            (_, Reach::Unbounded) => Err(()),
        }
    }
}

impl vstd::std_specs::convert::TryFromSpecImpl<(&Delta, &Reach)> for ResolvedSig {
    open spec fn obeys_try_from_spec() -> bool {
        true
    }

    open spec fn try_from_spec(parts: (&Delta, &Reach)) -> Result<ResolvedSig, ()> {
        match signature(*parts.0, *parts.1) {
            Some(sig) => Ok(sig),
            None => Err(()),
        }
    }
}

/// What is known of a program.
pub struct AnalysisResult {
    /// The control flow graphs of all functions.
    pub code: NameMap<Function>,
    /// The signatures of the functions that have one: whatever way they take to their end, it
    /// changes the height of the stack by the same amount.
    pub resolved_sigs: NameMap<ResolvedSig>,
}

/// The control flow graphs of all functions of a program.
pub open spec fn program_graphs(funcs: Map<Seq<char>, Code>) -> Map<Seq<char>, FunctionModel> {
    Map::new(
        |name: Seq<char>| funcs.contains_key(name),
        |name: Seq<char>| analyzed(funcs[name]@, funcs.dom()),
    )
}

/// The functions that function number `i` calls and that call it, directly or indirectly, and that
/// function itself.
pub open spec fn mates(names: Seq<Seq<char>>, funcs: Map<Seq<char>, Code>, i: usize) -> Set<
    Seq<char>,
> {
    Set::new(|name: Seq<char>| exists|j: usize| is_mate(names, funcs, i, j, name))
}

/// Whether `name` is that of function number `j`, and functions `i` and `j` call each other.
pub open spec fn is_mate(
    names: Seq<Seq<char>>,
    funcs: Map<Seq<char>, Code>,
    i: usize,
    j: usize,
    name: Seq<char>,
) -> bool {
    j < names.len() && names[j as int] == name && leads_to(call_edges(names, funcs), i, j)
        && leads_to(call_edges(names, funcs), j, i)
}

/// Whether function number `i`, together with all its mates, has the deltas and reaches that its
/// code has given those of the other functions; or none at all, if there are no such deltas.
pub open spec fn solved_at(
    names: Seq<Seq<char>>,
    funcs: Map<Seq<char>, Code>,
    deltas: Map<Seq<char>, Delta>,
    reaches: Map<Seq<char>, Reach>,
    i: usize,
) -> bool {
    let scc = mates(names, funcs, i);
    let cfgs = program_graphs(funcs);
    if deltas.contains_key(names[i as int]) {
        &&& least_deltas(deltas.restrict(scc), scc, cfgs, deltas.remove_keys(scc))
        &&& least_reaches(reaches.restrict(scc), scc, cfgs, deltas, reaches.remove_keys(scc))
    } else {
        &&& forall|name: Seq<char>| scc.contains(name) ==> !#[trigger] deltas.contains_key(name)
        &&& forall|m: Map<Seq<char>, Delta>|
            m.dom() == scc ==> !#[trigger] delta_solution(m, cfgs, deltas.remove_keys(scc))
    }
}

/// Whether `deltas` and `reaches` are those of the functions of a program.
pub open spec fn solved(
    names: Seq<Seq<char>>,
    funcs: Map<Seq<char>, Code>,
    deltas: Map<Seq<char>, Delta>,
    reaches: Map<Seq<char>, Reach>,
) -> bool {
    &&& deltas.dom() == reaches.dom()
    &&& deltas.dom().subset_of(funcs.dom())
    &&& forall|i: usize| i < names.len() ==> #[trigger] solved_at(names, funcs, deltas, reaches, i)
}

/// The signatures that deltas and reaches make.
pub open spec fn signatures(
    deltas: Map<Seq<char>, Delta>,
    reaches: Map<Seq<char>, Reach>,
) -> Map<Seq<char>, ResolvedSig> {
    Map::new(
        |name: Seq<char>| deltas.contains_key(name) && reaches[name] is Num,
        |name: Seq<char>| signature(deltas[name], reaches[name])->0,
    )
}

/// What stands in code after resolution either stood there before or is no call.
proof fn lemma_resolved_calls(code: Seq<Instr>, i: int, j: int)
    requires
        0 <= i,
        0 <= j < resolved(code, i).len(),
    ensures
        (resolved(code, i)[j] matches Instr::BBInstr(BasicBlockInstr::FunctionCall(_)))
            ==> exists|k: int| i <= k < code.len() && #[trigger] code[k] == resolved(code, i)[j],
    decreases code.len() - i,
{
    let (instr, n) = resolved_at(code, i);
    if j > 0 {
        assert(resolved(code, i)[j] == resolved(code, i + n)[j - 1]);
        lemma_resolved_calls(code, i + n, j - 1);
    } else {
        assert(resolved(code, i)[0] == instr);
    }
}

/// The graph of a body has no calls but those that the body has, and none of undefined functions.
pub proof fn law_graph_calls_defined(code: Seq<Instr>, defined: Set<Seq<char>>, x: usize, i: int)
    requires
        code.len() <= usize::MAX,
        analyzed(code, defined).blocks.contains_key(x),
        0 <= i < analyzed(code, defined).blocks[x].code.len(),
    ensures
        analyzed(code, defined).blocks[x].code[i] matches BasicBlockInstr::FunctionCall(name)
            ==> defined.contains(name@) && calls(code, name@),
{
    let b = x as int;
    let e = next_break(code, b + 1);
    lemma_next_break(code, b + 1);
    let (taken, terminator) = ending(code.subrange(b, e), b, code.len() as int);
    let body = code.subrange(b, e - taken);
    let kept = resolved(body, 0);
    let block = analyzed(code, defined).blocks[x];
    assert(block.code =~= kept.map_values(|instr: Instr| guarded(instr, defined)));
    if let BasicBlockInstr::FunctionCall(name) = block.code[i] {
        assert(block.code[i] == guarded(kept[i], defined));
        assert forall|j: int| b <= j < e - taken implies code[j] is BBInstr by {
            assert(code.subrange(b, e).last() == code[e - 1]);
            if j < e - 1 {
                lemma_block_is_straight(code, b, j);
            }
        }
        lemma_resolved_is_straight(body, 0);
        assert(kept[i] is BBInstr);
        lemma_resolved_calls(body, 0, i);
        let k = choose|k: int| 0 <= k < body.len() && #[trigger] body[k] == kept[i];
        assert(is_call(code[b + k], name@));
    }
}

/// Whether two maps say the same of the functions that a body calls and that are not in `scc`.
pub open spec fn agree_on<T>(
    code: Seq<Instr>,
    defined: Set<Seq<char>>,
    scc: Set<Seq<char>>,
    a: Map<Seq<char>, T>,
    b: Map<Seq<char>, T>,
) -> bool {
    forall|name: Seq<char>| #[trigger]
        defined.contains(name) && calls(code, name) && !scc.contains(name) ==> a.get(name) == b.get(
            name,
        )
}

/// Functions that are not called do not matter for a delta.
proof fn lemma_delta_frame(
    code: Seq<Instr>,
    defined: Set<Seq<char>>,
    m: Map<Seq<char>, Delta>,
    a: Map<Seq<char>, Delta>,
    b: Map<Seq<char>, Delta>,
)
    requires
        code.len() <= usize::MAX,
        agree_on(code, defined, m.dom(), a, b),
    ensures
        func_delta(analyzed(code, defined), m.union_prefer_right(a.remove_keys(m.dom())))
            == func_delta(analyzed(code, defined), m.union_prefer_right(b.remove_keys(m.dom()))),
{
    let f = analyzed(code, defined);
    let k1 = m.union_prefer_right(a.remove_keys(m.dom()));
    let k2 = m.union_prefer_right(b.remove_keys(m.dom()));
    assert forall|x: usize, i: int|
        #![trigger f.blocks[x].code[i]]
        f.blocks.contains_key(x) && 0 <= i < f.blocks[x].code.len() implies instr_delta(
        f.blocks[x].code[i],
        k1,
    ) == instr_delta(f.blocks[x].code[i], k2) by {
        law_graph_calls_defined(code, defined, x, i);
        if let BasicBlockInstr::FunctionCall(name) = f.blocks[x].code[i] {
            assert(defined.contains(name@));
            if !m.contains_key(name@) {
                assert(a.get(name@) == b.get(name@));
            }
        }
    }
    law_func_delta_monotone(f, k1, k2);
    law_func_delta_monotone(f, k2, k1);
}

/// Functions that are not called do not matter for a reach.
proof fn lemma_reach_frame(
    code: Seq<Instr>,
    defined: Set<Seq<char>>,
    m: Map<Seq<char>, Reach>,
    d1: Map<Seq<char>, Delta>,
    d2: Map<Seq<char>, Delta>,
    a: Map<Seq<char>, Reach>,
    b: Map<Seq<char>, Reach>,
)
    requires
        code.len() <= usize::MAX,
        agree_on(code, defined, m.dom(), a, b),
        agree_on(code, defined, Set::empty(), d1, d2),
    ensures
        reach_under(m, analyzed(code, defined), d1, a.remove_keys(m.dom())) == reach_under(
            m,
            analyzed(code, defined),
            d2,
            b.remove_keys(m.dom()),
        ),
{
    let f = analyzed(code, defined);
    let k1 = Known { deltas: d1, reaches: m.union_prefer_right(a.remove_keys(m.dom())) };
    let k2 = Known { deltas: d2, reaches: m.union_prefer_right(b.remove_keys(m.dom())) };
    assert forall|x: usize, i: int|
        #![trigger f.blocks[x].code[i]]
        f.blocks.contains_key(x) && 0 <= i < f.blocks[x].code.len() implies instr_delta(
        f.blocks[x].code[i],
        d1,
    ) == instr_delta(f.blocks[x].code[i], d2) && instr_reach(f.blocks[x].code[i], k1.reaches)
        == instr_reach(f.blocks[x].code[i], k2.reaches) by {
        law_graph_calls_defined(code, defined, x, i);
        if let BasicBlockInstr::FunctionCall(name) = f.blocks[x].code[i] {
            assert(defined.contains(name@));
            assert(d1.get(name@) == d2.get(name@));
            if !m.contains_key(name@) {
                assert(a.get(name@) == b.get(name@));
            }
        }
    }
    law_func_reach_monotone(f, k1, k2);
    law_func_reach_monotone(f, k2, k1);
}

/// Whether two answers are alike as far as function number `i`, its mates, and the functions that
/// they call are concerned.
spec fn alike<T>(
    names: Seq<Seq<char>>,
    funcs: Map<Seq<char>, Code>,
    a: Map<Seq<char>, T>,
    b: Map<Seq<char>, T>,
    i: usize,
) -> bool {
    let scc = mates(names, funcs, i);
    &&& forall|name: Seq<char>| #[trigger] scc.contains(name) ==> a.get(name) == b.get(name)
    &&& forall|name: Seq<char>| #[trigger]
        scc.contains(name) ==> agree_on(funcs[name]@, funcs.dom(), Set::empty(), a, b)
}

/// Which deltas solve a component depends on the functions that it calls, and on no others.
pub proof fn lemma_delta_solutions_frame(
    funcs: Map<Seq<char>, Code>,
    scc: Set<Seq<char>>,
    d1: Map<Seq<char>, Delta>,
    d2: Map<Seq<char>, Delta>,
    m: Map<Seq<char>, Delta>,
)
    requires
        scc.subset_of(funcs.dom()),
        forall|name: Seq<char>| #[trigger]
            scc.contains(name) ==> agree_on(funcs[name]@, funcs.dom(), scc, d1, d2),
        m.dom() == scc,
    ensures
        delta_solution(m, program_graphs(funcs), d1.remove_keys(scc)) == delta_solution(
            m,
            program_graphs(funcs),
            d2.remove_keys(scc),
        ),
{
    let cfgs = program_graphs(funcs);
    assert forall|f: Seq<char>| #[trigger] m.contains_key(f) implies func_delta(
        cfgs[f],
        m.union_prefer_right(d1.remove_keys(scc)),
    ) == func_delta(cfgs[f], m.union_prefer_right(d2.remove_keys(scc))) by {
        assert(scc.contains(f));
        assert(funcs.dom().contains(f));
        assert(funcs[f]@.len() == funcs[f].len());
        lemma_delta_frame(funcs[f]@, funcs.dom(), m, d1, d2);
    }
}

/// Which reaches solve a component depends on the functions that it calls, and on no others.
pub proof fn lemma_reach_solutions_frame(
    funcs: Map<Seq<char>, Code>,
    scc: Set<Seq<char>>,
    d1: Map<Seq<char>, Delta>,
    d2: Map<Seq<char>, Delta>,
    r1: Map<Seq<char>, Reach>,
    r2: Map<Seq<char>, Reach>,
    m: Map<Seq<char>, Reach>,
)
    requires
        scc.subset_of(funcs.dom()),
        forall|name: Seq<char>| #[trigger]
            scc.contains(name) ==> agree_on(funcs[name]@, funcs.dom(), Set::empty(), d1, d2)
                && agree_on(funcs[name]@, funcs.dom(), scc, r1, r2),
        m.dom() == scc,
    ensures
        reach_solution(m, program_graphs(funcs), d1, r1.remove_keys(scc)) == reach_solution(
            m,
            program_graphs(funcs),
            d2,
            r2.remove_keys(scc),
        ),
{
    let cfgs = program_graphs(funcs);
    assert forall|f: Seq<char>| #[trigger] m.contains_key(f) implies reach_under(
        m,
        cfgs[f],
        d1,
        r1.remove_keys(scc),
    ) == reach_under(m, cfgs[f], d2, r2.remove_keys(scc)) by {
        assert(scc.contains(f));
        assert(funcs.dom().contains(f));
        assert(funcs[f]@.len() == funcs[f].len());
        lemma_reach_frame(funcs[f]@, funcs.dom(), m, d1, d2, r1, r2);
    }
}

/// Maps that say the same of some names are the same there.
proof fn lemma_restricted<T>(a: Map<Seq<char>, T>, b: Map<Seq<char>, T>, scc: Set<Seq<char>>)
    requires
        forall|name: Seq<char>| #[trigger] scc.contains(name) ==> a.get(name) == b.get(name),
    ensures
        a.restrict(scc) == b.restrict(scc),
{
    assert forall|x: Seq<char>| #[trigger] a.restrict(scc).contains_key(x) == b.restrict(
        scc,
    ).contains_key(x) by {
        if scc.contains(x) {
            assert(a.get(x) == b.get(x));
        }
    }
    assert forall|x: Seq<char>| #[trigger] a.restrict(scc).contains_key(x) implies a.restrict(scc)[x]
        == b.restrict(scc)[x] by {
        assert(a.get(x) == b.get(x));
    }
    assert(a.restrict(scc) =~= b.restrict(scc));
}

/// Whether a function is solved depends on its mates and on the functions that they call.
proof fn lemma_solved_frame(
    names: Seq<Seq<char>>,
    funcs: Map<Seq<char>, Code>,
    d1: Map<Seq<char>, Delta>,
    r1: Map<Seq<char>, Reach>,
    d2: Map<Seq<char>, Delta>,
    r2: Map<Seq<char>, Reach>,
    i: usize,
)
    requires
        i < names.len(),
        mates(names, funcs, i).contains(names[i as int]),
        mates(names, funcs, i).subset_of(funcs.dom()),
        solved_at(names, funcs, d1, r1, i),
        alike(names, funcs, d1, d2, i),
        alike(names, funcs, r1, r2, i),
    ensures
        solved_at(names, funcs, d2, r2, i),
{
    let scc = mates(names, funcs, i);
    let cfgs = program_graphs(funcs);
    let name = names[i as int];
    assert(d1.get(name) == d2.get(name));
    assert forall|x: Seq<char>| #[trigger] scc.contains(x) implies agree_on(
        funcs[x]@,
        funcs.dom(),
        scc,
        d1,
        d2,
    ) && agree_on(funcs[x]@, funcs.dom(), scc, r1, r2) by {
        assert(agree_on(funcs[x]@, funcs.dom(), Set::empty(), d1, d2));
        assert(agree_on(funcs[x]@, funcs.dom(), Set::empty(), r1, r2));
    }
    assert forall|m: Map<Seq<char>, Delta>|
        m.dom() == scc implies #[trigger] delta_solution(m, cfgs, d2.remove_keys(scc))
        == delta_solution(m, cfgs, d1.remove_keys(scc)) by {
        lemma_delta_solutions_frame(funcs, scc, d1, d2, m);
    }
    if d1.contains_key(name) {
        lemma_restricted(d1, d2, scc);
        lemma_restricted(r1, r2, scc);
        assert forall|m: Map<Seq<char>, Reach>|
            m.dom() == scc implies #[trigger] reach_solution(m, cfgs, d2, r2.remove_keys(scc))
            == reach_solution(m, cfgs, d1, r1.remove_keys(scc)) by {
            lemma_reach_solutions_frame(funcs, scc, d1, d2, r1, r2, m);
        }
        assert(d1.restrict(scc).dom() == scc);
        assert(delta_solution(d2.restrict(scc), cfgs, d2.remove_keys(scc)));
        assert(reach_solution(r2.restrict(scc), cfgs, d2, r2.remove_keys(scc)));
    } else {
        assert forall|x: Seq<char>| scc.contains(x) implies !#[trigger] d2.contains_key(x) by {
            assert(d1.get(x) == d2.get(x));
            assert(!d1.contains_key(x));
        }
    }
}

/// A row of all the numbers below its length, each once, has every one of them.
proof fn lemma_row_is_complete(order: Seq<usize>, c: usize)
    requires
        order.no_duplicates(),
        forall|i: int| 0 <= i < order.len() ==> (#[trigger] order[i]) < order.len(),
        c < order.len(),
    ensures
        order.contains(c),
{
    let ints = order.map_values(|x: usize| x as int);
    assert(ints.no_duplicates()) by {
        assert forall|i: int, j: int|
            0 <= i < ints.len() && 0 <= j < ints.len() && i != j implies ints[i] != ints[j] by {
            assert(order[i] != order[j]);
        }
    }
    ints.unique_seq_to_set();
    let range = vstd::set_lib::set_int_range(0, order.len() as int);
    vstd::set_lib::lemma_int_range(0, order.len() as int);
    assert(ints.to_set().subset_of(range)) by {
        assert forall|x: int| ints.to_set().contains(x) implies range.contains(x) by {
            let i = choose|i: int| 0 <= i < ints.len() && ints[i] == x;
            assert(order[i] < order.len());
        }
    }
    vstd::set_lib::lemma_subset_equality(ints.to_set(), range);
    assert(range.contains(c as int));
    let i = choose|i: int| 0 <= i < ints.len() && ints[i] == c as int;
    assert(order[i] == c);
}

/// The control flow graphs of all functions of a program.
fn find_graphs(funcs: &NameMap<Code>) -> (r: NameMap<Function>)
    requires
        funcs.wf(),
    ensures
        r.wf(),
        r.names() == funcs.names(),
        graphs(r@) == program_graphs(funcs@),
        forall|name: Seq<char>| #[trigger] r@.contains_key(name) ==> goes_forward(r@[name]@),
{
    let ghost names = funcs.names();
    let mut result: NameMap<Function> = NameMap::new();
    let mut i: usize = 0;
    let n = funcs.len();
    while i < n
        invariant
            funcs.wf(),
            names == funcs.names(),
            n == names.len(),
            i <= n,
            result.wf(),
            result.names() == names.take(i as int),
            forall|j: int|
                0 <= j < i ==> (#[trigger] result@[names[j]])@ == analyzed(
                    funcs@[names[j]]@,
                    funcs@.dom(),
                ),
        decreases n - i,
    {
        let f = raw_instrs_to_analyzed_function(funcs, funcs.value_at(i).as_slice());
        proof {
            funcs.lemma_names();
            result.lemma_names();
        }
        let ghost before = result@;
        result.insert(funcs.name_at(i).clone(), f);
        assert(result.names() =~= names.take(i + 1));
        assert forall|j: int| 0 <= j < i + 1 implies (#[trigger] result@[names[j]])@ == analyzed(
            funcs@[names[j]]@,
            funcs@.dom(),
        ) by {
            if j < i {
                assert(result@[names[j]] == before[names[j]]);
            }
        }
        i = i + 1;
    }
    proof {
        assert(names.take(i as int) =~= names);
        lemma_dom(*funcs);
        lemma_dom(result);
        assert forall|name: Seq<char>| #[trigger] result@.contains_key(name) implies result@[name]@
            == analyzed(funcs@[name]@, funcs@.dom()) && goes_forward(result@[name]@) by {
            assert(names.contains(name));
            let j = names.index_of(name);
            assert(names[j] == name);
            assert(funcs@[name]@.len() == funcs@[name].len());
            law_graph_goes_forward(funcs@[name]@, funcs@.dom());
        }
        assert(graphs(result@) =~= program_graphs(funcs@));
    }
    result
}

/// The names of some functions, given by their positions.
fn names_of<T>(funcs: &NameMap<T>, members: &Vec<usize>) -> (r: Vec<String>)
    requires
        funcs.wf(),
        forall|k: int| 0 <= k < members@.len() ==> (#[trigger] members@[k]) < funcs.names().len(),
    ensures
        texts(r@) == members@.map_values(|v: usize| funcs.names()[v as int]),
{
    let mut result: Vec<String> = Vec::new();
    let mut k: usize = 0;
    while k < members.len()
        invariant
            funcs.wf(),
            forall|k: int| 0 <= k < members@.len() ==> (#[trigger] members@[k]) < funcs.names().len(),
            k <= members@.len(),
            result@.len() == k,
            forall|j: int|
                0 <= j < k ==> (#[trigger] result@[j])@ == funcs.names()[members@[j] as int],
        decreases members@.len() - k,
    {
        result.push(funcs.name_at(members[k]).clone());
        k = k + 1;
    }
    assert(texts(result@) =~= members@.map_values(|v: usize| funcs.names()[v as int]));
    result
}

/// Adds the entries of one map to another that has none of its names.
fn merge<T: Copy>(all: &mut NameMap<T>, new: &NameMap<T>)
    requires
        old(all).wf(),
        new.wf(),
    ensures
        final(all).wf(),
        final(all)@ == old(all)@.union_prefer_right(new@),
{
    let ghost before = all@;
    let mut i: usize = 0;
    let n = new.len();
    while i < n
        invariant
            all.wf(),
            new.wf(),
            n == new.names().len(),
            i <= n,
            all@ == before.union_prefer_right(new@.restrict(new.names().take(i as int).to_set())),
        decreases n - i,
    {
        let ghost name = new.names()[i as int];
        let ghost had = new.names().take(i as int);
        all.insert(new.name_at(i).clone(), *new.value_at(i));
        i = i + 1;
        proof {
            let has = new.names().take(i as int);
            assert(has =~= had.push(name));
            assert forall|x: Seq<char>| has.contains(x) <==> had.contains(x) || x == name by {
                if had.contains(x) {
                    let k = had.index_of(x);
                    assert(has[k] == x);
                }
                assert(has[i - 1] == name);
                if has.contains(x) && x != name {
                    let k = has.index_of(x);
                    assert(had[k] == x);
                }
            }
            assert(all@ =~= before.union_prefer_right(new@.restrict(has.to_set())));
        }
    }
    proof {
        assert(new.names().take(i as int) =~= new.names());
        lemma_dom(*new);
        assert(new@.restrict(new.names().to_set()) =~= new@);
    }
}

/// The signatures that deltas and reaches make.
fn find_signatures(deltas: &NameMap<Delta>, reaches: &NameMap<Reach>) -> (r: NameMap<ResolvedSig>)
    requires
        deltas.wf(),
        reaches.wf(),
        deltas@.dom() == reaches@.dom(),
    ensures
        r.wf(),
        r@ == signatures(deltas@, reaches@),
{
    let ghost names = deltas.names();
    let mut result: NameMap<ResolvedSig> = NameMap::new();
    let mut i: usize = 0;
    let n = deltas.len();
    while i < n
        invariant
            deltas.wf(),
            reaches.wf(),
            deltas@.dom() == reaches@.dom(),
            names == deltas.names(),
            n == names.len(),
            i <= n,
            result.wf(),
            forall|name: Seq<char>| #[trigger]
                result@.contains_key(name) <==> names.take(i as int).contains(name)
                    && reaches@[name] is Num,
            forall|name: Seq<char>| #[trigger]
                result@.contains_key(name) ==> Some(result@[name]) == signature(
                    deltas@[name],
                    reaches@[name],
                ),
        decreases n - i,
    {
        let name = deltas.name_at(i);
        let ghost had = names.take(i as int);
        let ghost before = result@;
        let ghost text = name@;
        assert(deltas@.dom().contains(text));
        let sig = match reaches.get(name.as_str()) {
            Some(reach) => ResolvedSig::try_from((deltas.value_at(i), reach)),
            None => Err(()),
        };
        if let Ok(sig) = sig {
            result.insert(name.clone(), sig);
        }
        i = i + 1;
        proof {
            let has = names.take(i as int);
            assert forall|x: Seq<char>| has.contains(x) <==> had.contains(x) || x == text by {
                if had.contains(x) {
                    let k = had.index_of(x);
                    assert(has[k] == x);
                }
                assert(has[i - 1] == text);
                if has.contains(x) && x != text {
                    let k = has.index_of(x);
                    assert(had[k] == x);
                }
            }
            assert forall|x: Seq<char>| #[trigger] result@.contains_key(x) <==> has.contains(x)
                && reaches@[x] is Num by {
                assert(before.contains_key(x) <==> had.contains(x) && reaches@[x] is Num);
            }
        }
    }
    proof {
        assert(names.take(i as int) =~= names);
        lemma_dom(*deltas);
        assert(result@ =~= signatures(deltas@, reaches@));
    }
    result
}

/// Whether a component before number `t` in the order has function number `v`.
spec fn done(components: Seq<Seq<usize>>, order: Seq<usize>, t: int, v: usize) -> bool {
    exists|s: int| 0 <= s < t && (#[trigger] components[order[s] as int]).contains(v)
}

/// The mates of a function are those in the same component.
proof fn lemma_mates(
    names: Seq<Seq<char>>,
    funcs: Map<Seq<char>, Code>,
    components: Seq<Seq<usize>>,
    links: Set<(usize, usize)>,
    c: int,
    v: usize,
)
    requires
        condenses(components, links, names.len(), call_edges(names, funcs)),
        names.no_duplicates(),
        names.len() <= usize::MAX,
        forall|i: int| 0 <= i < names.len() ==> funcs.contains_key(#[trigger] names[i]),
        0 <= c < components.len(),
        components[c].contains(v),
    ensures
        mates(names, funcs, v) == components[c].map_values(|v: usize| names[v as int]).to_set(),
        mates(names, funcs, v).contains(names[v as int]),
        mates(names, funcs, v).subset_of(funcs.dom()),
        forall|w: usize|
            w < names.len() ==> (mates(names, funcs, v).contains(#[trigger] names[w as int])
                <==> components[c].contains(w)),
{
    reveal(condenses);
    let edges = call_edges(names, funcs);
    let scc = mates(names, funcs, v);
    let members = components[c].map_values(|v: usize| names[v as int]);
    assert(v < names.len());
    assert forall|w: usize| w < names.len() implies (scc.contains(#[trigger] names[w as int])
        <==> components[c].contains(w)) by {
        assert(is_member(components, w));
        let d = choose|d: int| 0 <= d < components.len() && (#[trigger] components[d].contains(w));
        assert(components[c].contains(v));
        if scc.contains(names[w as int]) {
            let j = choose|j: usize| is_mate(names, funcs, v, j, names[w as int]);
            assert(j == w);
            assert(leads_to(edges, v, w) && leads_to(edges, w, v));
            assert(c == d);
        }
        if components[c].contains(w) {
            assert(leads_to(edges, v, w) && leads_to(edges, w, v));
            assert(is_mate(names, funcs, v, w, names[w as int]));
        }
    }
    assert forall|name: Seq<char>| #[trigger] scc.contains(name) implies members.to_set().contains(
        name,
    ) && funcs.contains_key(name) by {
        let j = choose|j: usize| is_mate(names, funcs, v, j, name);
        assert(scc.contains(names[j as int]));
        let k = components[c].index_of(j);
        assert(members[k] == name);
    }
    assert forall|name: Seq<char>| #[trigger] members.to_set().contains(name) implies scc.contains(
        name,
    ) by {
        let k = choose|k: int| 0 <= k < members.len() && members[k] == name;
        let w = components[c][k];
        assert(components[c].contains(w));
        assert(names[w as int] == name);
    }
    assert(scc =~= members.to_set());
}

/// What is found out for a later component changes nothing for an earlier one.
proof fn lemma_earlier_stays(
    names: Seq<Seq<char>>,
    funcs: Map<Seq<char>, Code>,
    components: Seq<Seq<usize>>,
    links: Set<(usize, usize)>,
    order: Seq<usize>,
    t: int,
    v: usize,
    d1: Map<Seq<char>, Delta>,
    r1: Map<Seq<char>, Reach>,
    d2: Map<Seq<char>, Delta>,
    r2: Map<Seq<char>, Reach>,
)
    requires
        condenses(components, links, names.len(), call_edges(names, funcs)),
        is_topological(order, components.len(), links),
        names.no_duplicates(),
        names.len() <= usize::MAX,
        forall|i: int| 0 <= i < names.len() ==> funcs.contains_key(#[trigger] names[i]),
        forall|name: Seq<char>| #[trigger] funcs.contains_key(name) ==> names.contains(name),
        0 <= t < order.len(),
        v < names.len(),
        done(components, order, t, v),
        solved_at(names, funcs, d1, r1, v),
        forall|w: usize|
            w < names.len() && !components[order[t] as int].contains(w) ==> d1.get(
                #[trigger] names[w as int],
            ) == d2.get(names[w as int]) && r1.get(names[w as int]) == r2.get(names[w as int]),
    ensures
        solved_at(names, funcs, d2, r2, v),
{
    let edges = call_edges(names, funcs);
    let s = choose|s: int| 0 <= s < t && (#[trigger] components[order[s] as int]).contains(v);
    let c = order[s];
    let now = order[t];
    lemma_mates(names, funcs, components, links, c as int, v);
    let scc = mates(names, funcs, v);
    assert forall|name: Seq<char>| #[trigger] scc.contains(name) implies d1.get(name) == d2.get(name)
        && r1.get(name) == r2.get(name) && agree_on(
        funcs[name]@,
        funcs.dom(),
        Set::empty(),
        d1,
        d2,
    ) && agree_on(funcs[name]@, funcs.dom(), Set::empty(), r1, r2) by {
        assert(funcs.dom().contains(name));
        assert(funcs.contains_key(name));
        let u = names.index_of(name) as usize;
        assert(names[u as int] == name);
        assert(components[c as int].contains(u));
        if components[now as int].contains(u) {
            lemma_one_component(
                components,
                links,
                names.len(),
                edges,
                c as int,
                now as int,
                u,
            );
        }
        assert forall|callee: Seq<char>| #[trigger] funcs.dom().contains(callee) && calls(
            funcs[name]@,
            callee,
        ) implies d1.get(callee) == d2.get(callee) && r1.get(callee) == r2.get(callee) by {
            assert(funcs.contains_key(callee));
            let w = names.index_of(callee) as usize;
            assert(names[w as int] == callee);
            assert(edges.contains((w, u)));
            if components[now as int].contains(w) {
                lemma_edges_lead_on(
                    components,
                    links,
                    names.len(),
                    edges,
                    order,
                    s,
                    t,
                    u,
                    w,
                );
            }
        }
    }
    lemma_solved_frame(names, funcs, d1, r1, d2, r2, v);
}

/// What a program and the components of its functions must be for the analysis to go through.
spec fn set_up(
    names: Seq<Seq<char>>,
    funcs: Map<Seq<char>, Code>,
    components: Seq<Seq<usize>>,
    links: Set<(usize, usize)>,
    order: Seq<usize>,
) -> bool {
    &&& names.no_duplicates()
    &&& names.len() <= usize::MAX
    &&& forall|i: int| 0 <= i < names.len() ==> funcs.contains_key(#[trigger] names[i])
    &&& forall|name: Seq<char>| #[trigger] funcs.contains_key(name) ==> names.contains(name)
    &&& condenses(components, links, names.len(), call_edges(names, funcs))
    &&& is_topological(order, components.len(), links)
}

/// Whether the components before number `t` in the order are solved, and no others.
spec fn partway(
    names: Seq<Seq<char>>,
    funcs: Map<Seq<char>, Code>,
    components: Seq<Seq<usize>>,
    order: Seq<usize>,
    t: int,
    deltas: Map<Seq<char>, Delta>,
    reaches: Map<Seq<char>, Reach>,
) -> bool {
    &&& deltas.dom() == reaches.dom()
    &&& deltas.dom().subset_of(funcs.dom())
    &&& forall|v: usize|
        v < names.len() && deltas.contains_key(#[trigger] names[v as int]) ==> done(
            components,
            order,
            t,
            v,
        )
    &&& forall|v: usize|
        v < names.len() && done(components, order, t, v) ==> #[trigger] solved_at(
            names,
            funcs,
            deltas,
            reaches,
            v,
        )
}

/// The names of the functions in component number `t` of the order.
spec fn members_at(
    names: Seq<Seq<char>>,
    components: Seq<Seq<usize>>,
    order: Seq<usize>,
    t: int,
) -> Seq<Seq<char>> {
    components[order[t] as int].map_values(|v: usize| names[v as int])
}

/// One more component is solved, or shown to have no solution.
proof fn lemma_one_more(
    names: Seq<Seq<char>>,
    funcs: Map<Seq<char>, Code>,
    components: Seq<Seq<usize>>,
    links: Set<(usize, usize)>,
    order: Seq<usize>,
    t: int,
    d1: Map<Seq<char>, Delta>,
    r1: Map<Seq<char>, Reach>,
    d2: Map<Seq<char>, Delta>,
    r2: Map<Seq<char>, Reach>,
)
    requires
        set_up(names, funcs, components, links, order),
        partway(names, funcs, components, order, t, d1, r1),
        0 <= t < order.len(),
        d2.dom() == r2.dom(),
        d2.dom().subset_of(funcs.dom()),
        forall|name: Seq<char>|
            !members_at(names, components, order, t).to_set().contains(name) ==> d1.get(name)
                == #[trigger] d2.get(name) && r1.get(name) == r2.get(name),
        forall|v: usize|
            v < names.len() && components[order[t] as int].contains(v) ==> #[trigger] solved_at(
                names,
                funcs,
                d2,
                r2,
                v,
            ),
    ensures
        partway(names, funcs, components, order, t + 1, d2, r2),
{
    let now = order[t];
    let all = members_at(names, components, order, t);
    assert forall|w: usize|
        w < names.len() && !components[now as int].contains(w) implies d1.get(
        #[trigger] names[w as int],
    ) == d2.get(names[w as int]) && r1.get(names[w as int]) == r2.get(names[w as int]) by {
        if all.to_set().contains(names[w as int]) {
            let k = choose|k: int| 0 <= k < all.len() && all[k] == names[w as int];
            let u = components[now as int][k];
            assert(components[now as int].contains(u));
            lemma_one_component(
                components,
                links,
                names.len(),
                call_edges(names, funcs),
                now as int,
                now as int,
                u,
            );
            assert(u == w);
        }
    }
    assert forall|v: usize|
        v < names.len() && done(components, order, t + 1, v) implies #[trigger] solved_at(
        names,
        funcs,
        d2,
        r2,
        v,
    ) by {
        if !components[now as int].contains(v) {
            let s = choose|s: int|
                0 <= s < t + 1 && (#[trigger] components[order[s] as int]).contains(v);
            assert(done(components, order, t, v));
            lemma_earlier_stays(
                names,
                funcs,
                components,
                links,
                order,
                t,
                v,
                d1,
                r1,
                d2,
                r2,
            );
        }
    }
    assert forall|v: usize|
        v < names.len() && d2.contains_key(#[trigger] names[v as int]) implies done(
        components,
        order,
        t + 1,
        v,
    ) by {
        if components[now as int].contains(v) {
            assert(components[order[t] as int].contains(v));
        } else {
            assert(d1.get(names[v as int]) == d2.get(names[v as int]));
            let s = choose|s: int| 0 <= s < t && (#[trigger] components[order[s] as int]).contains(v);
            assert(components[order[s] as int].contains(v));
        }
    }
}

/// The component is solved.
proof fn lemma_component_solved(
    names: Seq<Seq<char>>,
    funcs: Map<Seq<char>, Code>,
    components: Seq<Seq<usize>>,
    links: Set<(usize, usize)>,
    order: Seq<usize>,
    t: int,
    d: Map<Seq<char>, Delta>,
    r: Map<Seq<char>, Reach>,
    nd: Map<Seq<char>, Delta>,
    nr: Map<Seq<char>, Reach>,
)
    requires
        set_up(names, funcs, components, links, order),
        partway(names, funcs, components, order, t, d, r),
        0 <= t < order.len(),
        least_deltas(
            nd,
            members_at(names, components, order, t).to_set(),
            program_graphs(funcs),
            d,
        ),
        least_reaches(
            nr,
            members_at(names, components, order, t).to_set(),
            program_graphs(funcs),
            nd.union_prefer_right(d),
            r,
        ),
    ensures
        partway(
            names,
            funcs,
            components,
            order,
            t + 1,
            d.union_prefer_right(nd),
            r.union_prefer_right(nr),
        ),
{
    let now = order[t];
    let all = members_at(names, components, order, t);
    let set = all.to_set();
    let d2 = d.union_prefer_right(nd);
    let r2 = r.union_prefer_right(nr);
    lemma_ready(names, components, order, links, funcs, t, all, d);
    assert forall|x: Seq<char>| #[trigger] set.contains(x) implies !d.contains_key(x)
        && !r.contains_key(x) && funcs.contains_key(x) by {
        let k = choose|k: int| 0 <= k < all.len() && all[k] == x;
        assert(!d.contains_key(all[k]));
        assert(!d.dom().contains(x));
        let u = components[now as int][k];
        assert(components[now as int].contains(u));
        lemma_one_component(
            components,
            links,
            names.len(),
            call_edges(names, funcs),
            now as int,
            now as int,
            u,
        );
        assert(x == names[u as int]);
    }
    assert(d2.restrict(set) =~= nd);
    assert(r2.restrict(set) =~= nr);
    assert(d2.remove_keys(set) =~= d) by {
        assert forall|x: Seq<char>| #[trigger] d.contains_key(x) implies !set.contains(x) by {}
    }
    assert(r2.remove_keys(set) =~= r) by {
        assert forall|x: Seq<char>| #[trigger] r.contains_key(x) implies !set.contains(x) by {}
    }
    assert(nd.union_prefer_right(d) =~= d2) by {
        assert forall|x: Seq<char>| #[trigger] d.contains_key(x) implies !nd.contains_key(x) by {
            if nd.dom().contains(x) {
                assert(set.contains(x));
            }
        }
    }
    assert forall|v: usize| v < names.len() && components[now as int].contains(
        v,
    ) implies #[trigger] solved_at(names, funcs, d2, r2, v) by {
        lemma_mates(names, funcs, components, links, now as int, v);
        assert(mates(names, funcs, v) == set);
        assert(nd.dom().contains(names[v as int]));
        assert(d2.contains_key(names[v as int]));
    }
    assert(d2.dom() =~= r2.dom());
    assert(d2.dom().subset_of(funcs.dom())) by {
        assert forall|x: Seq<char>| #[trigger] d2.dom().contains(x) implies funcs.dom().contains(
            x,
        ) by {
            if nd.dom().contains(x) {
                assert(set.contains(x));
            } else {
                assert(d.dom().contains(x));
            }
        }
    }
    assert forall|name: Seq<char>| !set.contains(name) implies d.get(name) == #[trigger] d2.get(name)
        && r.get(name) == r2.get(name) by {
        assert(!nd.dom().contains(name));
        assert(!nr.dom().contains(name));
    }
    lemma_one_more(names, funcs, components, links, order, t, d, r, d2, r2);
}

/// The component has no solution.
proof fn lemma_component_unsolved(
    names: Seq<Seq<char>>,
    funcs: Map<Seq<char>, Code>,
    components: Seq<Seq<usize>>,
    links: Set<(usize, usize)>,
    order: Seq<usize>,
    t: int,
    d: Map<Seq<char>, Delta>,
    r: Map<Seq<char>, Reach>,
)
    requires
        set_up(names, funcs, components, links, order),
        partway(names, funcs, components, order, t, d, r),
        0 <= t < order.len(),
        forall|m: Map<Seq<char>, Delta>|
            m.dom() == members_at(names, components, order, t).to_set()
                ==> !#[trigger] delta_solution(m, program_graphs(funcs), d),
    ensures
        partway(names, funcs, components, order, t + 1, d, r),
{
    let now = order[t];
    let all = members_at(names, components, order, t);
    let set = all.to_set();
    lemma_ready(names, components, order, links, funcs, t, all, d);
    assert forall|x: Seq<char>| set.contains(x) implies !#[trigger] d.contains_key(x) by {
        let k = choose|k: int| 0 <= k < all.len() && all[k] == x;
        assert(!d.contains_key(all[k]));
    }
    assert(d.remove_keys(set) =~= d) by {
        assert forall|x: Seq<char>| #[trigger] d.contains_key(x) implies !set.contains(x) by {}
    }
    assert forall|v: usize| v < names.len() && components[now as int].contains(
        v,
    ) implies #[trigger] solved_at(names, funcs, d, r, v) by {
        lemma_mates(names, funcs, components, links, now as int, v);
        assert(mates(names, funcs, v) == set);
        assert(set.contains(names[v as int]));
    }
    lemma_one_more(names, funcs, components, links, order, t, d, r, d, r);
}

/// Given the components of a program, recovers the control flow of all its functions, and the
/// signatures of as many of them as it can.
pub fn analyze(sccs_graph: &ComponentGraph, funcs: &NameMap<Code>) -> (r: AnalysisResult)
    requires
        funcs.wf(),
        condenses(
            component_nodes(*sccs_graph),
            component_edges(*sccs_graph),
            funcs.names().len(),
            call_edges(funcs.names(), funcs@),
        ),
    ensures
        r.code.wf(),
        r.code.names() == funcs.names(),
        graphs(r.code@) == program_graphs(funcs@),
        r.resolved_sigs.wf(),
        exists|deltas: Map<Seq<char>, Delta>, reaches: Map<Seq<char>, Reach>| #[trigger]
            solved(funcs.names(), funcs@, deltas, reaches) && r.resolved_sigs@ == signatures(
                deltas,
                reaches,
            ),
{
    let ghost names = funcs.names();
    let ghost components = component_nodes(*sccs_graph);
    let ghost links = component_edges(*sccs_graph);
    proof {
        funcs.lemma_names();
        assert(acyclic(links)) by {
            reveal(condenses);
        }
    }
    let all_functions_cfg = find_graphs(funcs);
    let order = toposort(sccs_graph).unwrap();
    let mut deltas: NameMap<Delta> = NameMap::new();
    let mut reaches: NameMap<Reach> = NameMap::new();
    assert(deltas@.dom() =~= reaches@.dom());
    let mut t: usize = 0;
    while t < order.len()
        invariant
            funcs.wf(),
            names == funcs.names(),
            components == component_nodes(*sccs_graph),
            links == component_edges(*sccs_graph),
            set_up(names, funcs@, components, links, order@),
            all_functions_cfg.wf(),
            all_functions_cfg.names() == names,
            graphs(all_functions_cfg@) == program_graphs(funcs@),
            forall|name: Seq<char>| #[trigger]
                all_functions_cfg@.contains_key(name) ==> goes_forward(all_functions_cfg@[name]@),
            t <= order@.len(),
            deltas.wf(),
            reaches.wf(),
            partway(names, funcs@, components, order@, t as int, deltas@, reaches@),
        decreases order@.len() - t,
    {
        let members = component(sccs_graph, order[t]);
        proof {
            assert forall|k: int| 0 <= k < members@.len() implies (#[trigger] members@[k])
                < names.len() by {
                let c = order@[t as int] as int;
                assert(components[c].contains(members@[k]));
                lemma_one_component(
                    components,
                    links,
                    names.len(),
                    call_edges(names, funcs@),
                    c,
                    c,
                    members@[k],
                );
            }
        }
        let scc = names_of(funcs, members);
        let ghost all = texts(scc@);
        proof {
            lemma_ready(names, components, order@, links, funcs@, t as int, all, deltas@);
            all_functions_cfg.lemma_names();
            assert forall|i: int| 0 <= i < all.len() implies all_functions_cfg@.contains_key(
                #[trigger] all[i],
            ) && !deltas@.contains_key(all[i]) && !reaches@.contains_key(all[i]) by {
                let v = members@[i];
                assert(all[i] == all_functions_cfg.names()[v as int]);
                assert(!deltas@.dom().contains(all[i]));
            }
        }
        assert(scc.len() == all.len());
        match solve_scc(&scc, &all_functions_cfg, &deltas, &reaches) {
            Some((new_deltas, new_reaches)) => {
                proof {
                    lemma_component_solved(
                        names,
                        funcs@,
                        components,
                        links,
                        order@,
                        t as int,
                        deltas@,
                        reaches@,
                        new_deltas@,
                        new_reaches@,
                    );
                }
                merge(&mut deltas, &new_deltas);
                merge(&mut reaches, &new_reaches);
            },
            None => {
                proof {
                    lemma_component_unsolved(
                        names,
                        funcs@,
                        components,
                        links,
                        order@,
                        t as int,
                        deltas@,
                        reaches@,
                    );
                }
            },
        }
        t = t + 1;
    }
    proof {
        reveal(condenses);
        assert forall|v: usize| v < names.len() implies #[trigger] solved_at(
            names,
            funcs@,
            deltas@,
            reaches@,
            v,
        ) by {
            assert(is_member(components, v));
            let c = choose|c: int|
                0 <= c < components.len() && (#[trigger] components[c].contains(v));
            assert(order@.len() == order.len());
            lemma_row_is_complete(order@, c as usize);
            let s = order@.index_of(c as usize);
            assert(components[order@[s] as int].contains(v));
            assert(done(components, order@, t as int, v));
        }
        assert(solved(names, funcs@, deltas@, reaches@));
    }
    let resolved_sigs = find_signatures(&deltas, &reaches);
    AnalysisResult { code: all_functions_cfg, resolved_sigs }
}

/// The functions of the next component are different, and none of them is solved yet.
proof fn lemma_ready(
    names: Seq<Seq<char>>,
    components: Seq<Seq<usize>>,
    order: Seq<usize>,
    links: Set<(usize, usize)>,
    funcs: Map<Seq<char>, Code>,
    t: int,
    all: Seq<Seq<char>>,
    deltas: Map<Seq<char>, Delta>,
)
    requires
        condenses(components, links, names.len(), call_edges(names, funcs)),
        is_topological(order, components.len(), links),
        names.no_duplicates(),
        0 <= t < order.len(),
        all == components[order[t] as int].map_values(|v: usize| names[v as int]),
        forall|v: usize|
            v < names.len() && deltas.contains_key(#[trigger] names[v as int]) ==> done(
                components,
                order,
                t,
                v,
            ),
    ensures
        all.no_duplicates(),
        forall|i: int| 0 <= i < all.len() ==> !deltas.contains_key(#[trigger] all[i]),
{
    reveal(condenses);
    let edges = call_edges(names, funcs);
    let now = order[t] as int;
    assert forall|i: int, j: int|
        0 <= i < all.len() && 0 <= j < all.len() && i != j implies all[i] != all[j] by {
        let v = components[now][i];
        let w = components[now][j];
        assert(components[now].no_duplicates());
        assert(v != w);
        assert(components[now].contains(v) && components[now].contains(w));
    }
    assert forall|i: int| 0 <= i < all.len() implies !deltas.contains_key(#[trigger] all[i]) by {
        let v = components[now][i];
        assert(components[now].contains(v));
        assert(all[i] == names[v as int]);
        if deltas.contains_key(names[v as int]) {
            let s = choose|s: int| 0 <= s < t && (#[trigger] components[order[s] as int]).contains(v);
            assert(order[s] != order[t]);
            lemma_one_component(
                components,
                links,
                names.len(),
                edges,
                order[s] as int,
                order[t] as int,
                v,
            );
        }
    }
}

} // verus!
