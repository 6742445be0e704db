//! Deltas and reaches of functions that call each other.
use vstd::prelude::*;

use crate::jit::calls::find_func_calls_with_deltas;
#[allow(unused_imports)]
use crate::jit::calls::{func_calls, Call};
#[allow(unused_imports)]
use crate::jit::cfg::{goes_forward, Function, FunctionModel};
use crate::jit::cycles::{find_negative_cycle, Edge};
#[allow(unused_imports)]
use crate::jit::cycles::{is_walk, nodes_below, reaches_negative_cycle, weight};
use crate::jit::delta::find_func_delta;
#[allow(unused_imports)]
use crate::jit::delta::{func_delta, instr_delta, Delta, GuessMap};
#[allow(unused_imports)]
use crate::jit::monotone::{
    covers_call, delta_below, found_below, law_func_delta_monotone, law_func_reach_monotone,
    law_reach_covers_calls, reach_below,
};
use crate::jit::reach::{combine_branching_reaches, find_func_reach};
#[allow(unused_imports)]
use crate::jit::reach::{func_reach, instr_reach, wider, Known, Reach};
use crate::names::NameMap;
#[allow(unused_imports)]
use crate::types::BasicBlockInstr;

verus! {

/// The characters of several strings.
pub open spec fn texts(v: Seq<String>) -> Seq<Seq<char>> {
    v.map_values(|s: String| s@)
}

/// Control flow graphs as mathematical values.
pub open spec fn graphs(cfgs: Map<Seq<char>, Function>) -> Map<Seq<char>, FunctionModel> {
    cfgs.map_values(|f: Function| f@)
}

/// Whether `m` gives each of its functions the delta that the function has if `m` is right, on top
/// of what is settled already.
pub open spec fn delta_solution(
    m: Map<Seq<char>, Delta>,
    cfgs: Map<Seq<char>, FunctionModel>,
    resolved: Map<Seq<char>, Delta>,
) -> bool {
    forall|name: Seq<char>| #[trigger]
        m.contains_key(name) ==> func_delta(cfgs[name], m.union_prefer_right(resolved)) == Some(
            m[name],
        )
}

/// Whether `b` says all that `a` says.
pub open spec fn deltas_below(a: Map<Seq<char>, Delta>, b: Map<Seq<char>, Delta>) -> bool {
    forall|name: Seq<char>| #[trigger] a.contains_key(name) ==> delta_below(a[name], b[name])
}

/// Whether `m` solves the deltas of the functions in `scc`, and says no more than every other
/// solution does.
pub open spec fn least_deltas(
    m: Map<Seq<char>, Delta>,
    scc: Set<Seq<char>>,
    cfgs: Map<Seq<char>, FunctionModel>,
    resolved: Map<Seq<char>, Delta>,
) -> bool {
    &&& m.dom() == scc
    &&& delta_solution(m, cfgs, resolved)
    &&& forall|m2: Map<Seq<char>, Delta>| #[trigger]
        delta_solution(m2, cfgs, resolved) && m2.dom() == scc ==> deltas_below(m, m2)
}

/// The reach of a function if `m` is right, on top of what is settled already.
pub open spec fn reach_under(
    m: Map<Seq<char>, Reach>,
    f: FunctionModel,
    deltas: Map<Seq<char>, Delta>,
    resolved: Map<Seq<char>, Reach>,
) -> Reach {
    func_reach(f, Known { deltas, reaches: m.union_prefer_right(resolved) })
}

/// Whether `m` gives each of its functions the reach that the function has if `m` is right.
pub open spec fn reach_solution(
    m: Map<Seq<char>, Reach>,
    cfgs: Map<Seq<char>, FunctionModel>,
    deltas: Map<Seq<char>, Delta>,
    resolved: Map<Seq<char>, Reach>,
) -> bool {
    forall|name: Seq<char>| #[trigger]
        m.contains_key(name) ==> reach_under(m, cfgs[name], deltas, resolved) == m[name]
}

/// Whether `m` gives each of its functions at least the reach that the function has if `m` is
/// right.
spec fn reach_bound(
    m: Map<Seq<char>, Reach>,
    cfgs: Map<Seq<char>, FunctionModel>,
    deltas: Map<Seq<char>, Delta>,
    resolved: Map<Seq<char>, Reach>,
) -> bool {
    forall|name: Seq<char>| #[trigger]
        m.contains_key(name) ==> reach_below(
            reach_under(m, cfgs[name], deltas, resolved),
            m[name],
        )
}

/// Whether `a` gives no function a larger reach than `b`.
pub open spec fn reaches_below(a: Map<Seq<char>, Reach>, b: Map<Seq<char>, Reach>) -> bool {
    forall|name: Seq<char>| #[trigger] a.contains_key(name) ==> reach_below(a[name], b[name])
}

/// Whether `m` solves the reaches of the functions in `scc`, and makes none of them larger than it
/// has to be.
pub open spec fn least_reaches(
    m: Map<Seq<char>, Reach>,
    scc: Set<Seq<char>>,
    cfgs: Map<Seq<char>, FunctionModel>,
    deltas: Map<Seq<char>, Delta>,
    resolved: Map<Seq<char>, Reach>,
) -> bool {
    &&& m.dom() == scc
    &&& reach_solution(m, cfgs, deltas, resolved)
    &&& forall|m2: Map<Seq<char>, Reach>| #[trigger]
        reach_solution(m2, cfgs, deltas, resolved) && m2.dom() == scc ==> reaches_below(m, m2)
}

/// Whether functions that call each other are solved on top of what is settled already, by the least
/// deltas and the least reaches, or not at all if there is no solution.
pub open spec fn component_solved(
    r: Option<(Map<Seq<char>, Delta>, Map<Seq<char>, Reach>)>,
    scc: Set<Seq<char>>,
    cfgs: Map<Seq<char>, FunctionModel>,
    settled_deltas: Map<Seq<char>, Delta>,
    settled_reaches: Map<Seq<char>, Reach>,
) -> bool {
    match r {
        Some((deltas, reaches)) => {
            &&& least_deltas(deltas, scc, cfgs, settled_deltas)
            &&& least_reaches(
                reaches,
                scc,
                cfgs,
                deltas.union_prefer_right(settled_deltas),
                settled_reaches,
            )
        },
        None => forall|m: Map<Seq<char>, Delta>|
            m.dom() == scc ==> !#[trigger] delta_solution(m, cfgs, settled_deltas),
    }
}

/// Functions that call each other are solved all together or not at all. They are solved if and only
/// if there is a solution; if the delta of one of them is not to be found, whatever the others' are,
/// none is solved. If they are, exactly they get a delta and a reach, and with these as guesses each
/// of them has just the delta and the reach that it got.
pub proof fn law_component_all_or_nothing(
    r: Option<(Map<Seq<char>, Delta>, Map<Seq<char>, Reach>)>,
    scc: Set<Seq<char>>,
    cfgs: Map<Seq<char>, FunctionModel>,
    settled_deltas: Map<Seq<char>, Delta>,
    settled_reaches: Map<Seq<char>, Reach>,
)
    requires
        component_solved(r, scc, cfgs, settled_deltas, settled_reaches),
    ensures
        r is Some <==> exists|m: Map<Seq<char>, Delta>|
            m.dom() == scc && #[trigger] delta_solution(m, cfgs, settled_deltas),
        (exists|name: Seq<char>| #[trigger]
            scc.contains(name) && forall|m: Map<Seq<char>, Delta>|
                m.dom() == scc ==> (#[trigger] func_delta(
                    cfgs[name],
                    m.union_prefer_right(settled_deltas),
                )) is None) ==> r is None,
        r matches Some((deltas, reaches)) ==> {
            &&& deltas.dom() == scc
            &&& reaches.dom() == scc
            &&& forall|name: Seq<char>| #[trigger]
                scc.contains(name) ==> {
                    let all = deltas.union_prefer_right(settled_deltas);
                    &&& func_delta(cfgs[name], all) == Some(deltas[name])
                    &&& func_reach(
                        cfgs[name],
                        (Known {
                            deltas: all,
                            reaches: reaches.union_prefer_right(settled_reaches),
                        }),
                    ) == reaches[name]
                }
        },
{
    if let Some((deltas, reaches)) = r {
        assert(delta_solution(deltas, cfgs, settled_deltas));
        assert forall|name: Seq<char>| #[trigger] scc.contains(name) implies {
            let all = deltas.union_prefer_right(settled_deltas);
            &&& func_delta(cfgs[name], all) == Some(deltas[name])
            &&& func_reach(
                cfgs[name],
                (Known { deltas: all, reaches: reaches.union_prefer_right(settled_reaches) }),
            ) == reaches[name]
        } by {
            assert(deltas.contains_key(name));
            assert(reaches.contains_key(name));
        }
    }
}

/// Whether functions with these names can be solved: they are there, they are different, and none
/// of them is settled yet.
pub open spec fn ready<T>(
    names: Seq<Seq<char>>,
    cfgs: NameMap<Function>,
    resolved: Map<Seq<char>, T>,
) -> bool {
    &&& cfgs.wf()
    &&& names.no_duplicates()
    &&& names.len() <= usize::MAX
    &&& forall|i: int|
        0 <= i < names.len() ==> cfgs@.contains_key(#[trigger] names[i]) && !resolved.contains_key(
            names[i],
        )
    &&& forall|name: Seq<char>| #[trigger]
        cfgs@.contains_key(name) ==> goes_forward(cfgs@[name]@)
}

/// Better guesses make better guesses.
proof fn lemma_guesses_monotone(
    f: FunctionModel,
    g1: Map<Seq<char>, Delta>,
    g2: Map<Seq<char>, Delta>,
    resolved: Map<Seq<char>, Delta>,
)
    requires
        g1.dom() == g2.dom(),
        deltas_below(g1, g2),
    ensures
        found_below(
            func_delta(f, g1.union_prefer_right(resolved)),
            func_delta(f, g2.union_prefer_right(resolved)),
        ),
{
    let k1 = g1.union_prefer_right(resolved);
    let k2 = g2.union_prefer_right(resolved);
    assert forall|x: usize, i: int|
        #![trigger f.blocks[x].code[i]]
        f.blocks.contains_key(x) && 0 <= i < f.blocks[x].code.len() implies found_below(
        instr_delta(f.blocks[x].code[i], k1),
        instr_delta(f.blocks[x].code[i], k2),
    ) by {
        if let BasicBlockInstr::FunctionCall(name) = f.blocks[x].code[i] {
            assert(g1.contains_key(name@) <==> g2.contains_key(name@));
        }
    }
    law_func_delta_monotone(f, k1, k2);
}

/// How many of the guesses leave everything open.
spec fn open_guesses(m: Map<Seq<char>, Delta>, names: Seq<Seq<char>>) -> nat
    decreases names.len(),
{
    if names.len() == 0 {
        0
    } else {
        open_guesses(m, names.drop_last()) + (if m[names.last()] is Never {
            1nat
        } else {
            0nat
        })
    }
}

proof fn lemma_open_guesses(
    a: Map<Seq<char>, Delta>,
    b: Map<Seq<char>, Delta>,
    names: Seq<Seq<char>>,
)
    requires
        forall|i: int| 0 <= i < names.len() ==> delta_below(a[#[trigger] names[i]], b[names[i]]),
    ensures
        open_guesses(b, names) <= open_guesses(a, names),
        (exists|i: int| 0 <= i < names.len() && a[#[trigger] names[i]] != b[names[i]])
            ==> open_guesses(b, names) < open_guesses(a, names),
    decreases names.len(),
{
    if names.len() > 0 {
        let shorter = names.drop_last();
        assert forall|i: int| 0 <= i < shorter.len() implies delta_below(
            a[#[trigger] shorter[i]],
            b[shorter[i]],
        ) by {
            assert(shorter[i] == names[i]);
        }
        lemma_open_guesses(a, b, shorter);
        assert(names.last() == names[names.len() - 1]);
        if exists|i: int| 0 <= i < names.len() && a[#[trigger] names[i]] != b[names[i]] {
            let i = choose|i: int| 0 <= i < names.len() && a[#[trigger] names[i]] != b[names[i]];
            if i < shorter.len() {
                assert(shorter[i] == names[i]);
            }
        }
    }
}

/// A map that binds each of several names to one value.
fn constant_map<T: Copy>(names: &Vec<String>, value: T) -> (r: NameMap<T>)
    requires
        texts(names@).no_duplicates(),
    ensures
        r.wf(),
        r.names() == texts(names@),
        forall|name: Seq<char>| #[trigger] r@.contains_key(name) ==> r@[name] == value,
{
    let mut result: NameMap<T> = NameMap::new();
    let mut i: usize = 0;
    while i < names.len()
        invariant
            texts(names@).no_duplicates(),
            i <= names@.len(),
            result.wf(),
            result.names() == texts(names@).take(i as int),
            forall|name: Seq<char>| #[trigger] result@.contains_key(name) ==> result@[name] == value,
        decreases names@.len() - i,
    {
        proof {
            result.lemma_names();
            assert(texts(names@)[i as int] == names@[i as int]@);
        }
        result.insert(names[i].clone(), value);
        i = i + 1;
        assert(result.names() =~= texts(names@).take(i as int));
    }
    assert(texts(names@).take(i as int) =~= texts(names@));
    result
}

/// The keys of a map are the names that it has.
pub proof fn lemma_dom<T>(m: NameMap<T>)
    requires
        m.wf(),
    ensures
        m@.dom() == m.names().to_set(),
{
    m.lemma_names();
    assert(m@.dom() =~= m.names().to_set());
}

/// The deltas of the functions if the guesses are right; `None` if one of them has none.
fn improve_deltas(
    names: &Vec<String>,
    cfgs: &NameMap<Function>,
    guess_map: &GuessMap<Delta>,
) -> (r: Option<NameMap<Delta>>)
    requires
        guess_map.wf(),
        ready(texts(names@), *cfgs, guess_map.already_resolved@),
    ensures
        r matches Some(m) ==> m.wf() && m.names() == texts(names@) && forall|i: int|
            0 <= i < names@.len() ==> func_delta(
                cfgs@[#[trigger] texts(names@)[i]]@,
                guess_map@,
            ) == Some(m@[texts(names@)[i]]),
        r is None ==> exists|i: int|
            0 <= i < names@.len() && func_delta(
                cfgs@[#[trigger] texts(names@)[i]]@,
                guess_map@,
            ) is None,
{
    let ghost all = texts(names@);
    let mut result: NameMap<Delta> = NameMap::new();
    let mut i: usize = 0;
    while i < names.len()
        invariant
            all == texts(names@),
            guess_map.wf(),
            ready(all, *cfgs, guess_map.already_resolved@),
            i <= names@.len(),
            result.wf(),
            result.names() == all.take(i as int),
            forall|j: int|
                0 <= j < i ==> func_delta(cfgs@[#[trigger] all[j]]@, guess_map@) == Some(
                    result@[all[j]],
                ),
        decreases names@.len() - i,
    {
        assert(all[i as int] == names@[i as int]@);
        assert(cfgs@.contains_key(all[i as int]));
        let f = cfgs.get(names[i].as_str()).unwrap();
        match find_func_delta(f, guess_map) {
            Some(d) => {
                proof {
                    result.lemma_names();
                }
                let ghost before = result@;
                result.insert(names[i].clone(), d);
                assert(result.names() =~= all.take(i + 1));
                assert forall|j: int| 0 <= j < i + 1 implies func_delta(
                    cfgs@[#[trigger] all[j]]@,
                    guess_map@,
                ) == Some(result@[all[j]]) by {
                    if j < i {
                        assert(result@[all[j]] == before[all[j]]);
                    }
                }
            },
            None => {
                return None;
            },
        }
        i = i + 1;
    }
    assert(all.take(i as int) =~= all);
    Some(result)
}

/// Whether two maps with the same names have the same deltas.
fn same_deltas(a: &NameMap<Delta>, b: &NameMap<Delta>) -> (r: bool)
    requires
        a.wf(),
        b.wf(),
        a.names() == b.names(),
    ensures
        r ==> a@ == b@,
        !r ==> exists|i: int| 0 <= i < a.names().len() && a@[#[trigger] a.names()[i]] != b@[a.names()[i]],
{
    let mut i: usize = 0;
    let n = a.len();
    while i < n
        invariant
            a.wf(),
            b.wf(),
            a.names() == b.names(),
            n == a.names().len(),
            i <= n,
            forall|j: int| 0 <= j < i ==> a@[#[trigger] a.names()[j]] == b@[a.names()[j]],
        decreases n - i,
    {
        if *a.value_at(i) != *b.value_at(i) {
            return false;
        }
        i = i + 1;
    }
    proof {
        lemma_dom(*a);
        lemma_dom(*b);
        assert forall|name: Seq<char>| #[trigger] a@.contains_key(name) implies a@[name]
            == b@[name] by {
            assert(a.names().contains(name));
            let j = a.names().index_of(name);
            assert(a.names()[j] == name);
        }
        assert(a@ =~= b@);
    }
    true
}

/// The deltas of functions that call each other. Each is first guessed never to end; then the
/// guesses are improved until they no longer change.
pub fn solve_deltas(
    scc_func_names: &Vec<String>,
    all_functions_cfg: &NameMap<Function>,
    already_resolved: &NameMap<Delta>,
) -> (r: Option<NameMap<Delta>>)
    requires
        already_resolved.wf(),
        ready(texts(scc_func_names@), *all_functions_cfg, already_resolved@),
    ensures
        r matches Some(m) ==> m.wf() && m.names() == texts(scc_func_names@) && least_deltas(
            m@,
            texts(scc_func_names@).to_set(),
            graphs(all_functions_cfg@),
            already_resolved@,
        ),
        r is None ==> forall|m: Map<Seq<char>, Delta>|
            m.dom() == texts(scc_func_names@).to_set() ==> !#[trigger] delta_solution(
                m,
                graphs(all_functions_cfg@),
                already_resolved@,
            ),
{
    let ghost names = texts(scc_func_names@);
    let ghost cfgs = graphs(all_functions_cfg@);
    let ghost resolved = already_resolved@;
    let mut guess_map = GuessMap {
        guesses: constant_map(scc_func_names, Delta::Never),
        already_resolved,
    };
    proof {
        lemma_dom(guess_map.guesses);
    }
    loop
        invariant
            names == texts(scc_func_names@),
            cfgs == graphs(all_functions_cfg@),
            resolved == already_resolved@,
            already_resolved.wf(),
            ready(names, *all_functions_cfg, resolved),
            guess_map.wf(),
            *guess_map.already_resolved == *already_resolved,
            guess_map.guesses.names() == names,
            guess_map.guesses@.dom() == names.to_set(),
            forall|m: Map<Seq<char>, Delta>| #[trigger]
                delta_solution(m, cfgs, resolved) && m.dom() == names.to_set() ==> deltas_below(
                    guess_map.guesses@,
                    m,
                ),
            forall|name: Seq<char>| #[trigger]
                guess_map.guesses@.contains_key(name) ==> found_below(
                    Some(guess_map.guesses@[name]),
                    func_delta(cfgs[name], guess_map@),
                ),
        decreases open_guesses(guess_map.guesses@, names),
    {
        let ghost old_guesses = guess_map.guesses@;
        let ghost known = guess_map@;
        let improved = match improve_deltas(scc_func_names, all_functions_cfg, &guess_map) {
            Some(m) => m,
            None => {
                proof {
                    let i = choose|i: int|
                        0 <= i < names.len() && func_delta(
                            all_functions_cfg@[#[trigger] names[i]]@,
                            known,
                        ) is None;
                    assert(names.to_set().contains(names[i]));
                    assert forall|m: Map<Seq<char>, Delta>|
                        m.dom() == names.to_set() implies !#[trigger] delta_solution(
                        m,
                        cfgs,
                        resolved,
                    ) by {
                        if delta_solution(m, cfgs, resolved) {
                            lemma_guesses_monotone(cfgs[names[i]], old_guesses, m, resolved);
                            assert(m.contains_key(names[i]));
                        }
                    }
                }
                return None;
            },
        };
        proof {
            lemma_dom(improved);
            assert forall|name: Seq<char>| #[trigger]
                old_guesses.contains_key(name) implies improved@.contains_key(name) && func_delta(
                cfgs[name],
                known,
            ) == Some(improved@[name]) && delta_below(old_guesses[name], improved@[name]) by {
                assert(names.contains(name));
                let j = names.index_of(name);
                assert(names[j] == name);
            }
            assert(deltas_below(old_guesses, improved@));
            assert forall|m: Map<Seq<char>, Delta>| #[trigger]
                delta_solution(m, cfgs, resolved) && m.dom() == names.to_set() implies deltas_below(
                improved@,
                m,
            ) by {
                assert forall|name: Seq<char>| #[trigger]
                    improved@.contains_key(name) implies delta_below(improved@[name], m[name]) by {
                    assert(old_guesses.contains_key(name));
                    lemma_guesses_monotone(cfgs[name], old_guesses, m, resolved);
                    assert(m.contains_key(name));
                }
            }
            let next = improved@.union_prefer_right(resolved);
            assert forall|name: Seq<char>| #[trigger]
                improved@.contains_key(name) implies found_below(
                Some(improved@[name]),
                func_delta(cfgs[name], next),
            ) by {
                assert(old_guesses.contains_key(name));
                lemma_guesses_monotone(cfgs[name], old_guesses, improved@, resolved);
            }
            assert forall|i: int| 0 <= i < names.len() implies delta_below(
                old_guesses[#[trigger] names[i]],
                improved@[names[i]],
            ) by {
                assert(names.to_set().contains(names[i]));
                assert(old_guesses.contains_key(names[i]));
            }
            lemma_open_guesses(old_guesses, improved@, names);
        }
        if same_deltas(&guess_map.guesses, &improved) {
            proof {
                assert forall|name: Seq<char>| #[trigger]
                    improved@.contains_key(name) implies func_delta(
                    cfgs[name],
                    improved@.union_prefer_right(resolved),
                ) == Some(improved@[name]) by {
                    assert(old_guesses.contains_key(name));
                }
            }
            return Some(improved);
        }
        guess_map.guesses = improved;
    }
}

/// Larger reaches make larger reaches.
proof fn lemma_reaches_monotone(
    f: FunctionModel,
    m1: Map<Seq<char>, Reach>,
    m2: Map<Seq<char>, Reach>,
    deltas: Map<Seq<char>, Delta>,
    resolved: Map<Seq<char>, Reach>,
)
    requires
        m1.dom() == m2.dom(),
        reaches_below(m1, m2),
    ensures
        reach_below(reach_under(m1, f, deltas, resolved), reach_under(m2, f, deltas, resolved)),
{
    let k1 = Known { deltas, reaches: m1.union_prefer_right(resolved) };
    let k2 = Known { deltas, reaches: m2.union_prefer_right(resolved) };
    assert forall|x: usize, i: int|
        #![trigger f.blocks[x].code[i]]
        f.blocks.contains_key(x) && 0 <= i < f.blocks[x].code.len() implies instr_delta(
        f.blocks[x].code[i],
        k1.deltas,
    ) == instr_delta(f.blocks[x].code[i], k2.deltas) && reach_below(
        instr_reach(f.blocks[x].code[i], k1.reaches),
        instr_reach(f.blocks[x].code[i], k2.reaches),
    ) by {
        if let BasicBlockInstr::FunctionCall(name) = f.blocks[x].code[i] {
            assert(m1.contains_key(name@) <==> m2.contains_key(name@));
        }
    }
    law_func_reach_monotone(f, k1, k2);
}

/// The functions that are being solved, and what they are solved against.
struct Task {
    names: Seq<Seq<char>>,
    cfgs: Map<Seq<char>, FunctionModel>,
    deltas: Map<Seq<char>, Delta>,
    resolved: Map<Seq<char>, Reach>,
}

/// Whether `m` bounds the reaches of exactly the functions in question.
spec fn bounds(t: Task, m: Map<Seq<char>, Reach>) -> bool {
    m.dom() == t.names.to_set() && reach_bound(m, t.cfgs, t.deltas, t.resolved)
}

/// Whether the caller looks as far as the callee does, less the weight of what lies between.
spec fn respects(names: Seq<Seq<char>>, m: Map<Seq<char>, Reach>, from: int, to: int, w: int) -> bool {
    m[names[from]] matches Reach::Num(a) ==> m[names[to]] matches Reach::Num(b) && a >= b - w
}

/// Whether an edge leads from a caller to a callee.
spec fn edge_sound(t: Task, edge: Edge) -> bool {
    &&& edge.0 < t.names.len()
    &&& edge.1 < t.names.len()
    &&& forall|m: Map<Seq<char>, Reach>| #[trigger]
        bounds(t, m) ==> respects(t.names, m, edge.0 as int, edge.1 as int, edge.2 as int)
}

/// A walk along such edges leads from a function to one that it calls, directly or indirectly.
proof fn lemma_walk_respects(
    t: Task,
    edges: Seq<Edge>,
    path: Seq<int>,
    from: int,
    to: int,
    m: Map<Seq<char>, Reach>,
)
    requires
        forall|i: int| 0 <= i < edges.len() ==> edge_sound(t, #[trigger] edges[i]),
        is_walk(edges, path, from, to),
        bounds(t, m),
    ensures
        respects(t.names, m, from, to, weight(edges, path)),
    decreases path.len(),
{
    if path.len() > 0 {
        let e = edges[path.last()];
        assert(edge_sound(t, e));
        lemma_walk_respects(t, edges, path.drop_last(), from, e.0 as int, m);
    }
}

/// There is no limit to the reach of a function that can call itself with ever less on the stack.
proof fn lemma_negative_cycle(t: Task, edges: Seq<Edge>, i: int, m: Map<Seq<char>, Reach>)
    requires
        forall|i: int| 0 <= i < edges.len() ==> edge_sound(t, #[trigger] edges[i]),
        reaches_negative_cycle(edges, i),
        bounds(t, m),
    ensures
        m[t.names[i]] is Unbounded,
{
    let (v, there, round) = choose|v: int, there: Seq<int>, round: Seq<int>|
        #![trigger is_walk(edges, there, i, v), is_walk(edges, round, v, v)]
        is_walk(edges, there, i, v) && is_walk(edges, round, v, v) && weight(edges, round) < 0;
    lemma_walk_respects(t, edges, there, i, v, m);
    lemma_walk_respects(t, edges, round, v, v, m);
}

/// The calls of function number `i`, as edges of a graph.
spec fn edges_from(i: int, calls: Seq<Call>) -> Seq<Edge> {
    calls.map_values(|call: Call| (i as usize, call.0, call.1))
}

/// The calls that the first `n` functions make among all of them, as edges of a graph: function by
/// function, in the order in which they are found. There are none for a function one of whose deltas
/// does not fit.
spec fn edges_of(t: Task, n: int) -> Seq<Edge>
    decreases n,
{
    if n <= 0 {
        Seq::empty()
    } else {
        edges_of(t, n - 1) + match func_calls(t.cfgs[t.names[n - 1]], t.deltas, t.names) {
            Some(calls) => edges_from(n - 1, calls),
            None => Seq::empty(),
        }
    }
}

/// The calls that functions make among each other, as edges of a graph.
fn call_edges(
    names: &Vec<String>,
    cfgs: &NameMap<Function>,
    deltas: &GuessMap<Delta>,
    reaches: &NameMap<Reach>,
) -> (r: Vec<Edge>)
    requires
        deltas.wf(),
        deltas.guesses.names() == texts(names@),
        ready(texts(names@), *cfgs, reaches@),
    ensures
        forall|i: int|
            0 <= i < r@.len() ==> edge_sound(
                (Task {
                    names: texts(names@),
                    cfgs: graphs(cfgs@),
                    deltas: deltas@,
                    resolved: reaches@,
                }),
                #[trigger] r@[i],
            ),
        r@ == edges_of(
            (Task {
                names: texts(names@),
                cfgs: graphs(cfgs@),
                deltas: deltas@,
                resolved: reaches@,
            }),
            names@.len() as int,
        ),
{
    let ghost t = Task {
        names: texts(names@),
        cfgs: graphs(cfgs@),
        deltas: deltas@,
        resolved: reaches@,
    };
    let mut edges: Vec<Edge> = Vec::new();
    let mut i: usize = 0;
    while i < names.len()
        invariant
            deltas.wf(),
            deltas.guesses.names() == t.names,
            t == (Task {
                names: texts(names@),
                cfgs: graphs(cfgs@),
                deltas: deltas@,
                resolved: reaches@,
            }),
            ready(t.names, *cfgs, reaches@),
            i <= names@.len(),
            forall|j: int| 0 <= j < edges@.len() ==> edge_sound(t, #[trigger] edges@[j]),
            edges@ == edges_of(t, i as int),
        decreases names@.len() - i,
    {
        assert(t.names[i as int] == names@[i as int]@);
        assert(cfgs@.contains_key(t.names[i as int]));
        let f = cfgs.get(names[i].as_str()).unwrap();
        if let Some(calls) = find_func_calls_with_deltas(f, deltas, &deltas.guesses) {
            let mut j: usize = 0;
            assert(edges_from(i as int, calls@.take(0)) =~= Seq::empty());
            while j < calls.len()
                invariant
                    t == (Task {
                        names: texts(names@),
                        cfgs: graphs(cfgs@),
                        deltas: deltas@,
                        resolved: reaches@,
                    }),
                    ready(t.names, *cfgs, reaches@),
                    i < names@.len(),
                    f@ == t.cfgs[t.names[i as int]],
                    goes_forward(f@),
                    func_calls(f@, t.deltas, t.names) == Some(calls@),
                    j <= calls@.len(),
                    forall|k: int| 0 <= k < edges@.len() ==> edge_sound(t, #[trigger] edges@[k]),
                    edges@ == edges_of(t, i as int) + edges_from(i as int, calls@.take(j as int)),
                decreases calls@.len() - j,
            {
                let (callee, at) = calls[j];
                proof {
                    lemma_edge_sound(t, f@, i as int, calls@, j as int);
                }
                edges.push((i, callee, at));
                j = j + 1;
                assert(edges_from(i as int, calls@.take(j as int)) =~= edges_from(
                    i as int,
                    calls@.take(j - 1),
                ).push((i, callee, at)));
            }
            assert(calls@.take(j as int) =~= calls@);
        }
        i = i + 1;
    }
    edges
}

proof fn lemma_edge_sound(t: Task, f: FunctionModel, i: int, calls: Seq<Call>, j: int)
    requires
        0 <= i < t.names.len() <= usize::MAX,
        t.names.no_duplicates(),
        forall|k: int| 0 <= k < t.names.len() ==> !t.resolved.contains_key(#[trigger] t.names[k]),
        f == t.cfgs[t.names[i]],
        goes_forward(f),
        func_calls(f, t.deltas, t.names) == Some(calls),
        0 <= j < calls.len(),
    ensures
        edge_sound(t, (i as usize, calls[j].0, calls[j].1)),
{
    let edge: Edge = (i as usize, calls[j].0, calls[j].1);
    let any = Known { deltas: t.deltas, reaches: t.resolved };
    law_reach_covers_calls(f, any, t.names);
    assert(covers_call(func_reach(f, any), calls[j], any, t.names));
    assert forall|m: Map<Seq<char>, Reach>| #[trigger] bounds(t, m) implies respects(
        t.names,
        m,
        edge.0 as int,
        edge.1 as int,
        edge.2 as int,
    ) by {
        let known = Known { deltas: t.deltas, reaches: m.union_prefer_right(t.resolved) };
        law_reach_covers_calls(f, known, t.names);
        assert(covers_call(func_reach(f, known), calls[j], known, t.names));
        assert(t.names.to_set().contains(t.names[i]));
        assert(m.contains_key(t.names[i]));
        let callee = t.names[calls[j].0 as int];
        assert(t.names.to_set().contains(callee));
        assert(m.contains_key(callee));
        assert(known.reaches[callee] == m[callee]);
    }
}

/// How much larger reaches could still grow.
spec fn slack(r: Reach) -> nat {
    match r {
        Reach::Num(n) => (usize::MAX - n + 1) as nat,
        Reach::Unbounded => 0,
    }
}

spec fn total_slack(m: Map<Seq<char>, Reach>, names: Seq<Seq<char>>) -> nat
    decreases names.len(),
{
    if names.len() == 0 {
        0
    } else {
        total_slack(m, names.drop_last()) + slack(m[names.last()])
    }
}

proof fn lemma_total_slack(
    a: Map<Seq<char>, Reach>,
    b: Map<Seq<char>, Reach>,
    names: Seq<Seq<char>>,
)
    requires
        forall|i: int| 0 <= i < names.len() ==> reach_below(a[#[trigger] names[i]], b[names[i]]),
    ensures
        total_slack(b, names) <= total_slack(a, names),
        (exists|i: int| 0 <= i < names.len() && a[#[trigger] names[i]] != b[names[i]])
            ==> total_slack(b, names) < total_slack(a, names),
    decreases names.len(),
{
    if names.len() > 0 {
        let shorter = names.drop_last();
        assert forall|i: int| 0 <= i < shorter.len() implies reach_below(
            a[#[trigger] shorter[i]],
            b[shorter[i]],
        ) by {
            assert(shorter[i] == names[i]);
        }
        lemma_total_slack(a, b, shorter);
        assert(names.last() == names[names.len() - 1]);
        if exists|i: int| 0 <= i < names.len() && a[#[trigger] names[i]] != b[names[i]] {
            let i = choose|i: int| 0 <= i < names.len() && a[#[trigger] names[i]] != b[names[i]];
            if i < shorter.len() {
                assert(shorter[i] == names[i]);
            }
        }
    }
}

/// The first guesses: no limit where there is none, else nothing.
fn first_reaches(names: &Vec<String>, edges: &Vec<Edge>) -> (r: NameMap<Reach>)
    requires
        texts(names@).no_duplicates(),
        nodes_below(edges@, names@.len() as int),
    ensures
        r.wf(),
        r.names() == texts(names@),
        forall|i: int|
            0 <= i < names@.len() ==> r@[#[trigger] texts(names@)[i]] == if reaches_negative_cycle(
                edges@,
                i,
            ) {
                Reach::Unbounded
            } else {
                Reach::Num(0)
            },
{
    let ghost all = texts(names@);
    let mut result: NameMap<Reach> = NameMap::new();
    let mut i: usize = 0;
    while i < names.len()
        invariant
            all == texts(names@),
            all.no_duplicates(),
            nodes_below(edges@, names@.len() as int),
            i <= names@.len(),
            result.wf(),
            result.names() == all.take(i as int),
            forall|j: int|
                0 <= j < i ==> result@[#[trigger] all[j]] == if reaches_negative_cycle(edges@, j) {
                    Reach::Unbounded
                } else {
                    Reach::Num(0)
                },
        decreases names@.len() - i,
    {
        let r = if find_negative_cycle(names.len(), edges, i) {
            Reach::Unbounded
        } else {
            Reach::Num(0)
        };
        proof {
            result.lemma_names();
            assert(all[i as int] == names@[i as int]@);
        }
        let ghost before = result@;
        result.insert(names[i].clone(), r);
        assert(result.names() =~= all.take(i + 1));
        assert forall|j: int| 0 <= j < i + 1 implies result@[#[trigger] all[j]] == if reaches_negative_cycle(
            edges@,
            j,
        ) {
            Reach::Unbounded
        } else {
            Reach::Num(0)
        } by {
            if j < i {
                assert(result@[all[j]] == before[all[j]]);
            }
        }
        i = i + 1;
    }
    assert(all.take(i as int) =~= all);
    result
}

/// The guesses, and whatever the reaches come to beyond them if the guesses are right.
fn improve_reaches(
    names: &Vec<String>,
    cfgs: &NameMap<Function>,
    deltas: &GuessMap<Delta>,
    guess_map: &GuessMap<Reach>,
) -> (r: NameMap<Reach>)
    requires
        deltas.wf(),
        guess_map.wf(),
        guess_map.guesses.names() == texts(names@),
        ready(texts(names@), *cfgs, guess_map.already_resolved@),
    ensures
        r.wf(),
        r.names() == texts(names@),
        forall|i: int|
            0 <= i < names@.len() ==> r@[#[trigger] texts(names@)[i]] == wider(
                guess_map.guesses@[texts(names@)[i]],
                reach_under(
                    guess_map.guesses@,
                    cfgs@[texts(names@)[i]]@,
                    deltas@,
                    guess_map.already_resolved@,
                ),
            ),
{
    let ghost all = texts(names@);
    let mut result: NameMap<Reach> = NameMap::new();
    let mut i: usize = 0;
    while i < names.len()
        invariant
            all == texts(names@),
            deltas.wf(),
            guess_map.wf(),
            guess_map.guesses.names() == all,
            ready(all, *cfgs, guess_map.already_resolved@),
            i <= names@.len(),
            result.wf(),
            result.names() == all.take(i as int),
            forall|j: int|
                0 <= j < i ==> result@[#[trigger] all[j]] == wider(
                    guess_map.guesses@[all[j]],
                    reach_under(
                        guess_map.guesses@,
                        cfgs@[all[j]]@,
                        deltas@,
                        guess_map.already_resolved@,
                    ),
                ),
        decreases names@.len() - i,
    {
        assert(all[i as int] == names@[i as int]@);
        assert(cfgs@.contains_key(all[i as int]));
        let f = cfgs.get(names[i].as_str()).unwrap();
        let r = combine_branching_reaches(
            *guess_map.guesses.value_at(i),
            find_func_reach(f, deltas, guess_map),
        );
        proof {
            result.lemma_names();
        }
        let ghost before = result@;
        result.insert(names[i].clone(), r);
        assert(result.names() =~= all.take(i + 1));
        assert forall|j: int| 0 <= j < i + 1 implies result@[#[trigger] all[j]] == wider(
            guess_map.guesses@[all[j]],
            reach_under(
                guess_map.guesses@,
                cfgs@[all[j]]@,
                deltas@,
                guess_map.already_resolved@,
            ),
        ) by {
            if j < i {
                assert(result@[all[j]] == before[all[j]]);
            }
        }
        i = i + 1;
    }
    assert(all.take(i as int) =~= all);
    result
}

/// Whether two maps with the same names have the same reaches.
fn same_reaches(a: &NameMap<Reach>, b: &NameMap<Reach>) -> (r: bool)
    requires
        a.wf(),
        b.wf(),
        a.names() == b.names(),
    ensures
        r ==> a@ == b@,
        !r ==> exists|i: int| 0 <= i < a.names().len() && a@[#[trigger] a.names()[i]] != b@[a.names()[i]],
{
    let mut i: usize = 0;
    let n = a.len();
    while i < n
        invariant
            a.wf(),
            b.wf(),
            a.names() == b.names(),
            n == a.names().len(),
            i <= n,
            forall|j: int| 0 <= j < i ==> a@[#[trigger] a.names()[j]] == b@[a.names()[j]],
        decreases n - i,
    {
        if *a.value_at(i) != *b.value_at(i) {
            return false;
        }
        i = i + 1;
    }
    proof {
        lemma_dom(*a);
        lemma_dom(*b);
        assert forall|name: Seq<char>| #[trigger] a@.contains_key(name) implies a@[name]
            == b@[name] by {
            assert(a.names().contains(name));
            let j = a.names().index_of(name);
            assert(a.names()[j] == name);
        }
        assert(a@ =~= b@);
    }
    true
}

/// Bounds that cannot be improved are a solution.
proof fn lemma_bound_is_solution(t: Task, m: Map<Seq<char>, Reach>)
    requires
        bounds(t, m),
        forall|m2: Map<Seq<char>, Reach>| #[trigger] bounds(t, m2) ==> reaches_below(m, m2),
    ensures
        least_reaches(m, t.names.to_set(), t.cfgs, t.deltas, t.resolved),
{
    let next = Map::new(
        |name: Seq<char>| m.contains_key(name),
        |name: Seq<char>| reach_under(m, t.cfgs[name], t.deltas, t.resolved),
    );
    assert(next.dom() =~= m.dom());
    assert(reaches_below(next, m));
    assert forall|name: Seq<char>| #[trigger] next.contains_key(name) implies reach_below(
        reach_under(next, t.cfgs[name], t.deltas, t.resolved),
        next[name],
    ) by {
        lemma_reaches_monotone(t.cfgs[name], next, m, t.deltas, t.resolved);
    }
    assert(bounds(t, next));
    assert forall|name: Seq<char>| #[trigger] m.contains_key(name) implies reach_under(
        m,
        t.cfgs[name],
        t.deltas,
        t.resolved,
    ) == m[name] by {
        assert(next.contains_key(name));
        assert(reach_below(m[name], next[name]));
    }
    assert forall|m2: Map<Seq<char>, Reach>| #[trigger]
        reach_solution(m2, t.cfgs, t.deltas, t.resolved) && m2.dom()
            == t.names.to_set() implies reaches_below(m, m2) by {
        assert(bounds(t, m2));
    }
}

/// The reaches of functions that call each other. Where there is no limit, that is found out
/// beforehand; the other reaches are first guessed to be nothing, and then the guesses are improved
/// until they no longer change.
pub fn solve_reaches(
    scc_func_names: &Vec<String>,
    all_functions_cfg: &NameMap<Function>,
    deltas: &GuessMap<Delta>,
    already_resolved: &NameMap<Reach>,
) -> (r: NameMap<Reach>)
    requires
        deltas.wf(),
        deltas.guesses.names() == texts(scc_func_names@),
        already_resolved.wf(),
        ready(texts(scc_func_names@), *all_functions_cfg, already_resolved@),
    ensures
        r.wf(),
        r.names() == texts(scc_func_names@),
        least_reaches(
            r@,
            texts(scc_func_names@).to_set(),
            graphs(all_functions_cfg@),
            deltas@,
            already_resolved@,
        ),
{
    let ghost t = Task {
        names: texts(scc_func_names@),
        cfgs: graphs(all_functions_cfg@),
        deltas: deltas@,
        resolved: already_resolved@,
    };
    let edges = call_edges(scc_func_names, all_functions_cfg, deltas, already_resolved);
    proof {
        assert forall|i: int| #![trigger edges@[i]] 0 <= i < edges@.len() implies edges@[i].0
            < t.names.len() && edges@[i].1 < t.names.len() by {
            assert(edge_sound(t, edges@[i]));
        }
    }
    let mut guess_map = GuessMap {
        guesses: first_reaches(scc_func_names, &edges),
        already_resolved,
    };
    proof {
        lemma_dom(guess_map.guesses);
        assert forall|m: Map<Seq<char>, Reach>| #[trigger] bounds(t, m) implies reaches_below(
            guess_map.guesses@,
            m,
        ) by {
            assert forall|name: Seq<char>| #[trigger]
                guess_map.guesses@.contains_key(name) implies reach_below(
                guess_map.guesses@[name],
                m[name],
            ) by {
                assert(t.names.contains(name));
                let i = t.names.index_of(name);
                assert(t.names[i] == name);
                if reaches_negative_cycle(edges@, i) {
                    lemma_negative_cycle(t, edges@, i, m);
                }
            }
        }
    }
    loop
        invariant
            t == (Task {
                names: texts(scc_func_names@),
                cfgs: graphs(all_functions_cfg@),
                deltas: deltas@,
                resolved: already_resolved@,
            }),
            deltas.wf(),
            already_resolved.wf(),
            ready(t.names, *all_functions_cfg, t.resolved),
            guess_map.wf(),
            *guess_map.already_resolved == *already_resolved,
            guess_map.guesses.names() == t.names,
            guess_map.guesses@.dom() == t.names.to_set(),
            forall|m: Map<Seq<char>, Reach>| #[trigger]
                bounds(t, m) ==> reaches_below(guess_map.guesses@, m),
        decreases total_slack(guess_map.guesses@, t.names),
    {
        let ghost old_guesses = guess_map.guesses@;
        let improved = improve_reaches(scc_func_names, all_functions_cfg, deltas, &guess_map);
        proof {
            lemma_dom(improved);
            assert forall|name: Seq<char>| #[trigger]
                old_guesses.contains_key(name) implies improved@.contains_key(name)
                && improved@[name] == wider(
                old_guesses[name],
                reach_under(old_guesses, t.cfgs[name], t.deltas, t.resolved),
            ) by {
                assert(t.names.contains(name));
                let j = t.names.index_of(name);
                assert(t.names[j] == name);
                assert(all_functions_cfg@.contains_key(name));
            }
            assert forall|m: Map<Seq<char>, Reach>| #[trigger] bounds(t, m) implies reaches_below(
                improved@,
                m,
            ) by {
                assert forall|name: Seq<char>| #[trigger]
                    improved@.contains_key(name) implies reach_below(improved@[name], m[name]) by {
                    assert(old_guesses.contains_key(name));
                    lemma_reaches_monotone(t.cfgs[name], old_guesses, m, t.deltas, t.resolved);
                    assert(m.contains_key(name));
                }
            }
            assert forall|i: int| 0 <= i < t.names.len() implies reach_below(
                old_guesses[#[trigger] t.names[i]],
                improved@[t.names[i]],
            ) by {
                assert(t.names.to_set().contains(t.names[i]));
                assert(old_guesses.contains_key(t.names[i]));
            }
            lemma_total_slack(old_guesses, improved@, t.names);
        }
        if same_reaches(&guess_map.guesses, &improved) {
            proof {
                assert forall|name: Seq<char>| #[trigger]
                    improved@.contains_key(name) implies reach_below(
                    reach_under(improved@, t.cfgs[name], t.deltas, t.resolved),
                    improved@[name],
                ) by {
                    assert(old_guesses.contains_key(name));
                }
                assert(bounds(t, improved@));
                lemma_bound_is_solution(t, improved@);
            }
            return improved;
        }
        guess_map.guesses = improved;
    }
}

/// The deltas and the reaches of functions that call each other: of all of them, or of none.
pub fn solve_scc(
    scc_func_names: &Vec<String>,
    all_functions_cfg: &NameMap<Function>,
    already_resolved_deltas: &NameMap<Delta>,
    already_resolved_reaches: &NameMap<Reach>,
) -> (r: Option<(NameMap<Delta>, NameMap<Reach>)>)
    requires
        already_resolved_deltas.wf(),
        already_resolved_reaches.wf(),
        ready(texts(scc_func_names@), *all_functions_cfg, already_resolved_deltas@),
        ready(texts(scc_func_names@), *all_functions_cfg, already_resolved_reaches@),
    ensures
        r matches Some((deltas, reaches)) ==> {
            &&& deltas.wf()
            &&& deltas.names() == texts(scc_func_names@)
            &&& reaches.wf()
            &&& reaches.names() == texts(scc_func_names@)
        },
        component_solved(
            match r {
                Some((deltas, reaches)) => Some((deltas@, reaches@)),
                None => None,
            },
            texts(scc_func_names@).to_set(),
            graphs(all_functions_cfg@),
            already_resolved_deltas@,
            already_resolved_reaches@,
        ),
{
    match solve_deltas(scc_func_names, all_functions_cfg, already_resolved_deltas) {
        Some(guesses) => {
            let deltas = GuessMap { guesses, already_resolved: already_resolved_deltas };
            let reaches = solve_reaches(
                scc_func_names,
                all_functions_cfg,
                &deltas,
                already_resolved_reaches,
            );
            Some((deltas.guesses, reaches))
        },
        None => None,
    }
}

} // verus!
