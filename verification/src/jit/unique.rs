//! Why the deltas and reaches of a program are determined by its code.
use vstd::prelude::*;

#[allow(unused_imports)]
use crate::jit::analysis::{
    agree_on, is_mate, lemma_delta_solutions_frame, lemma_reach_solutions_frame, mates,
    program_graphs, solved, solved_at,
};
#[allow(unused_imports)]
use crate::jit::delta::Delta;
#[allow(unused_imports)]
use crate::jit::graph::{call_edges, calls, goes_on, is_path, leads_to};
#[allow(unused_imports)]
use crate::jit::reach::Reach;
#[allow(unused_imports)]
use crate::jit::scc::{delta_solution, deltas_below, reach_solution, reaches_below};
#[allow(unused_imports)]
use crate::types::Code;

verus! {

/// Two ways, one after the other, are a way.
proof fn lemma_leads_on(edges: Set<(usize, usize)>, a: usize, b: usize, c: usize)
    requires
        leads_to(edges, a, b),
        leads_to(edges, b, c),
    ensures
        leads_to(edges, a, c),
{
    let p = choose|path: Seq<usize>| #[trigger]
        is_path(edges, path) && path.first() == a && path.last() == b;
    let q = choose|path: Seq<usize>| #[trigger]
        is_path(edges, path) && path.first() == b && path.last() == c;
    let both = p + q.skip(1);
    assert forall|i: int| 0 <= i < both.len() - 1 implies #[trigger] goes_on(edges, both, i) by {
        if i < p.len() - 1 {
            assert(goes_on(edges, p, i));
        } else {
            let k = i - (p.len() - 1);
            assert(goes_on(edges, q, k));
            assert(both[i] == q[k]);
            assert(both[i + 1] == q[k + 1]);
        }
    }
    assert(is_path(edges, both));
    assert(both.first() == a);
    assert(both.last() == c) by {
        if q.len() == 1 {
            assert(both =~= p);
        }
    }
}

proof fn lemma_leads_here(edges: Set<(usize, usize)>, a: usize)
    ensures
        leads_to(edges, a, a),
{
    assert(is_path(edges, seq![a]));
    assert(seq![a].first() == a && seq![a].last() == a);
}

proof fn lemma_edge_leads(edges: Set<(usize, usize)>, a: usize, b: usize)
    requires
        edges.contains((a, b)),
    ensures
        leads_to(edges, a, b),
{
    assert(is_path(edges, seq![a, b]));
    assert(seq![a, b].first() == a && seq![a, b].last() == b);
}

/// The functions that function number `i` leads to by its calls, by their numbers.
spec fn below_it(names: Seq<Seq<char>>, funcs: Map<Seq<char>, Code>, i: usize) -> Set<int> {
    vstd::set_lib::set_int_range(0, names.len() as int).filter(
        |j: int| leads_to(call_edges(names, funcs), j as usize, i),
    )
}

/// A function that is called and does not lead back leads to fewer functions.
proof fn lemma_fewer_below(names: Seq<Seq<char>>, funcs: Map<Seq<char>, Code>, w: usize, i: usize)
    requires
        names.len() <= usize::MAX,
        w < names.len(),
        i < names.len(),
        leads_to(call_edges(names, funcs), w, i),
        !leads_to(call_edges(names, funcs), i, w),
    ensures
        below_it(names, funcs, w).len() < below_it(names, funcs, i).len(),
{
    let edges = call_edges(names, funcs);
    let range = vstd::set_lib::set_int_range(0, names.len() as int);
    vstd::set_lib::lemma_int_range(0, names.len() as int);
    let a = below_it(names, funcs, w);
    let b = below_it(names, funcs, i);
    lemma_leads_here(edges, i);
    assert(b.contains(i as int));
    assert forall|j: int| a.contains(j) implies b.remove(i as int).contains(j) by {
        lemma_leads_on(edges, j as usize, w, i);
    }
    vstd::set_lib::lemma_len_subset(a, b.remove(i as int));
}

/// Whether two answers are the same for function number `i`.
spec fn same_at(
    names: Seq<Seq<char>>,
    d1: Map<Seq<char>, Delta>,
    r1: Map<Seq<char>, Reach>,
    d2: Map<Seq<char>, Delta>,
    r2: Map<Seq<char>, Reach>,
    i: usize,
) -> bool {
    &&& d1.get(names[i as int]) == d2.get(names[i as int])
    &&& r1.get(names[i as int]) == r2.get(names[i as int])
}

/// Two least solutions of a component are the same.
proof fn lemma_least_deltas_unique(
    scc: Set<Seq<char>>,
    m1: Map<Seq<char>, Delta>,
    m2: Map<Seq<char>, Delta>,
)
    requires
        m1.dom() == scc,
        m2.dom() == scc,
        deltas_below(m1, m2),
        deltas_below(m2, m1),
    ensures
        m1 == m2,
{
    assert forall|x: Seq<char>| #[trigger] m1.contains_key(x) implies m1[x] == m2[x] by {
        assert(m2.dom().contains(x));
        assert(m2.contains_key(x));
    }
    assert(m1 =~= m2);
}

proof fn lemma_least_reaches_unique(
    scc: Set<Seq<char>>,
    m1: Map<Seq<char>, Reach>,
    m2: Map<Seq<char>, Reach>,
)
    requires
        m1.dom() == scc,
        m2.dom() == scc,
        reaches_below(m1, m2),
        reaches_below(m2, m1),
    ensures
        m1 == m2,
{
    assert forall|x: Seq<char>| #[trigger] m1.contains_key(x) implies m1[x] == m2[x] by {
        assert(m2.dom().contains(x));
        assert(m2.contains_key(x));
    }
    assert(m1 =~= m2);
}

/// What the functions of a component call, outside of it, settles the component.
proof fn lemma_component_same(
    names: Seq<Seq<char>>,
    funcs: Map<Seq<char>, Code>,
    d1: Map<Seq<char>, Delta>,
    r1: Map<Seq<char>, Reach>,
    d2: Map<Seq<char>, Delta>,
    r2: Map<Seq<char>, Reach>,
    i: usize,
)
    requires
        solved_at(names, funcs, d1, r1, i),
        solved_at(names, funcs, d2, r2, i),
        d1.dom() == r1.dom(),
        d2.dom() == r2.dom(),
        mates(names, funcs, i).contains(names[i as int]),
        mates(names, funcs, i).subset_of(funcs.dom()),
        forall|x: Seq<char>| #[trigger]
            mates(names, funcs, i).contains(x) ==> agree_on(
                funcs[x]@,
                funcs.dom(),
                mates(names, funcs, i),
                d1,
                d2,
            ) && agree_on(funcs[x]@, funcs.dom(), mates(names, funcs, i), r1, r2),
    ensures
        same_at(names, d1, r1, d2, r2, i),
{
    let scc = mates(names, funcs, i);
    let cfgs = program_graphs(funcs);
    let name = names[i as int];
    let (m1, m2) = (d1.restrict(scc), d2.restrict(scc));
    if d1.contains_key(name) {
        lemma_delta_solutions_frame(funcs, scc, d1, d2, m1);
        assert(delta_solution(m1, cfgs, d2.remove_keys(scc)));
    }
    if d2.contains_key(name) {
        lemma_delta_solutions_frame(funcs, scc, d1, d2, m2);
        assert(delta_solution(m2, cfgs, d1.remove_keys(scc)));
    }
    assert(d1.contains_key(name) == d2.contains_key(name));
    assert(d1.dom().contains(name) == r1.dom().contains(name));
    assert(d2.dom().contains(name) == r2.dom().contains(name));
    if d1.contains_key(name) {
        lemma_least_deltas_unique(scc, m1, m2);
        assert forall|x: Seq<char>| #[trigger] scc.contains(x) implies agree_on(
            funcs[x]@,
            funcs.dom(),
            Set::empty(),
            d1,
            d2,
        ) by {
            assert(agree_on(funcs[x]@, funcs.dom(), scc, d1, d2));
            assert forall|y: Seq<char>| #[trigger] funcs.dom().contains(y) && calls(
                funcs[x]@,
                y,
            ) implies d1.get(y) == d2.get(y) by {
                if scc.contains(y) {
                    assert(m1.dom().contains(y));
                    assert(m2.dom().contains(y));
                    assert(m1[y] == m2[y]);
                }
            }
        }
        let (s1, s2) = (r1.restrict(scc), r2.restrict(scc));
        lemma_reach_solutions_frame(funcs, scc, d1, d2, r1, r2, s1);
        lemma_reach_solutions_frame(funcs, scc, d1, d2, r1, r2, s2);
        assert(reach_solution(s2, cfgs, d1, r1.remove_keys(scc)));
        assert(reach_solution(s1, cfgs, d2, r2.remove_keys(scc)));
        lemma_least_reaches_unique(scc, s1, s2);
        assert(m1[name] == m2[name]);
        assert(s1.dom().contains(name));
        assert(s1[name] == s2[name]);
    }
}

proof fn lemma_same_at(
    names: Seq<Seq<char>>,
    funcs: Map<Seq<char>, Code>,
    d1: Map<Seq<char>, Delta>,
    r1: Map<Seq<char>, Reach>,
    d2: Map<Seq<char>, Delta>,
    r2: Map<Seq<char>, Reach>,
    i: usize,
)
    requires
        names.len() <= usize::MAX,
        forall|k: int| 0 <= k < names.len() ==> funcs.contains_key(#[trigger] names[k]),
        forall|x: Seq<char>| #[trigger] funcs.contains_key(x) ==> names.contains(x),
        solved(names, funcs, d1, r1),
        solved(names, funcs, d2, r2),
        i < names.len(),
    ensures
        same_at(names, d1, r1, d2, r2, i),
    decreases below_it(names, funcs, i).len(),
{
    let scc = mates(names, funcs, i);
    let edges = call_edges(names, funcs);
    assert(solved_at(names, funcs, d1, r1, i));
    assert(solved_at(names, funcs, d2, r2, i));
    lemma_leads_here(edges, i);
    assert(is_mate(names, funcs, i, i, names[i as int]));
    assert(scc.subset_of(funcs.dom())) by {
        assert forall|x: Seq<char>| #[trigger] scc.contains(x) implies funcs.dom().contains(x) by {
            let j = choose|j: usize| is_mate(names, funcs, i, j, x);
            assert(funcs.contains_key(names[j as int]));
        }
    }
    assert forall|x: Seq<char>| #[trigger] scc.contains(x) implies agree_on(
        funcs[x]@,
        funcs.dom(),
        scc,
        d1,
        d2,
    ) && agree_on(funcs[x]@, funcs.dom(), scc, r1, r2) by {
        let u = choose|j: usize| is_mate(names, funcs, i, j, x);
        assert forall|y: Seq<char>| #[trigger] funcs.dom().contains(y) && calls(funcs[x]@, y)
            && !scc.contains(y) implies d1.get(y) == d2.get(y) && r1.get(y) == r2.get(y) by {
            assert(funcs.contains_key(y));
            let w = names.index_of(y) as usize;
            assert(names[w as int] == y);
            assert(edges.contains((w, u)));
            lemma_edge_leads(edges, w, u);
            lemma_leads_on(edges, w, u, i);
            if leads_to(edges, i, w) {
                assert(is_mate(names, funcs, i, w, y));
            }
            lemma_fewer_below(names, funcs, w, i);
            lemma_same_at(names, funcs, d1, r1, d2, r2, w);
        }
    }
    lemma_component_same(names, funcs, d1, r1, d2, r2, i);
}

/// A program has one answer only: no two sets of deltas and reaches are both those of its
/// functions.
pub proof fn law_solution_is_unique(
    names: Seq<Seq<char>>,
    funcs: Map<Seq<char>, Code>,
    d1: Map<Seq<char>, Delta>,
    r1: Map<Seq<char>, Reach>,
    d2: Map<Seq<char>, Delta>,
    r2: Map<Seq<char>, Reach>,
)
    requires
        names.len() <= usize::MAX,
        forall|k: int| 0 <= k < names.len() ==> funcs.contains_key(#[trigger] names[k]),
        forall|x: Seq<char>| #[trigger] funcs.contains_key(x) ==> names.contains(x),
        solved(names, funcs, d1, r1),
        solved(names, funcs, d2, r2),
    ensures
        d1 == d2,
        r1 == r2,
{
    assert forall|x: Seq<char>| #[trigger] funcs.contains_key(x) implies d1.get(x) == d2.get(x)
        && r1.get(x) == r2.get(x) by {
        let i = names.index_of(x) as usize;
        assert(names[i as int] == x);
        lemma_same_at(names, funcs, d1, r1, d2, r2, i);
    }
    assert forall|x: Seq<char>|
        (#[trigger] d1.contains_key(x) || r1.contains_key(x) || d2.contains_key(x)
            || r2.contains_key(x)) implies funcs.contains_key(x) by {
        assert(d1.dom().contains(x) == r1.dom().contains(x));
        assert(d2.dom().contains(x) == r2.dom().contains(x));
        if d1.dom().contains(x) {
            assert(funcs.dom().contains(x));
        } else {
            assert(d2.dom().contains(x));
            assert(funcs.dom().contains(x));
        }
    }
    assert forall|x: Seq<char>| #[trigger] d1.contains_key(x) == d2.contains_key(x) by {
        if funcs.contains_key(x) {
            assert(d1.get(x) == d2.get(x));
        }
    }
    assert forall|x: Seq<char>| #[trigger] d1.contains_key(x) implies d1[x] == d2[x] by {
        assert(d1.get(x) == d2.get(x));
    }
    assert(d1 =~= d2);
    assert forall|x: Seq<char>| #[trigger] r1.contains_key(x) == r2.contains_key(x) by {
        assert(d1.dom().contains(x) == r1.dom().contains(x));
        assert(d2.dom().contains(x) == r2.dom().contains(x));
    }
    assert forall|x: Seq<char>| #[trigger] r1.contains_key(x) implies r1[x] == r2[x] by {
        assert(d1.dom().contains(x) == r1.dom().contains(x));
        assert(d1.contains_key(x));
        assert(r1.get(x) == r2.get(x));
    }
    assert(r1 =~= r2);
}

/// Functions that call each other, directly or indirectly, all have deltas, or none of them has.
pub proof fn law_all_or_nothing(
    names: Seq<Seq<char>>,
    funcs: Map<Seq<char>, Code>,
    deltas: Map<Seq<char>, Delta>,
    reaches: Map<Seq<char>, Reach>,
    i: usize,
    j: usize,
)
    requires
        solved(names, funcs, deltas, reaches),
        i < names.len(),
        j < names.len(),
        is_mate(names, funcs, i, j, names[j as int]),
    ensures
        deltas.contains_key(names[i as int]) <==> deltas.contains_key(names[j as int]),
{
    let scc = mates(names, funcs, i);
    assert(scc.contains(names[j as int]));
    assert(solved_at(names, funcs, deltas, reaches, i));
    if deltas.contains_key(names[i as int]) {
        assert(deltas.restrict(scc).dom().contains(names[j as int]));
    }
}

} // verus!
