//! The graph of which function calls which, and its strongly connected components.
use petgraph::graph::NodeIndex;
use petgraph::{Directed, Graph};
use vstd::prelude::*;

use crate::names::NameMap;
use crate::types::{BasicBlockInstr, Code, Instr};

verus! {

/// `petgraph::Graph`.
#[verifier::external_type_specification]
#[verifier::external_body]
#[verifier::reject_recursive_types(N)]
#[verifier::reject_recursive_types(E)]
#[verifier::reject_recursive_types(Ty)]
#[verifier::reject_recursive_types(Ix)]
pub struct ExGraph<N, E, Ty, Ix>(Graph<N, E, Ty, Ix>);

/// `petgraph::Directed`, which says that the edges of a graph have a direction.
#[verifier::external_type_specification]
#[verifier::external_body]
pub struct ExDirected(Directed);

/// A graph whose nodes carry numbers.
pub type NumberGraph = Graph<usize, (), Directed, usize>;

/// A graph whose nodes carry the numbers of the nodes of another graph.
pub type ComponentGraph = Graph<Vec<usize>, (), Directed, usize>;

/// The numbers that the nodes of a graph carry, in the order in which the nodes were added.
pub uninterp spec fn graph_nodes(g: NumberGraph) -> Seq<usize>;

/// The edges of a graph, each by the positions of its two nodes.
pub uninterp spec fn graph_edges(g: NumberGraph) -> Set<(usize, usize)>;

/// What the nodes of a graph of components carry, in the order in which the nodes were added.
pub uninterp spec fn component_nodes(g: ComponentGraph) -> Seq<Seq<usize>>;

/// The edges of a graph of components, each by the positions of its two nodes.
pub uninterp spec fn component_edges(g: ComponentGraph) -> Set<(usize, usize)>;

/// `Graph::with_capacity`: a graph without nodes and edges.
#[verifier::external_body]
fn graph_new() -> (g: NumberGraph)
    ensures
        graph_nodes(g) =~= Seq::empty(),
        graph_edges(g) =~= Set::empty(),
{
    Graph::with_capacity(0, 0)
}

/// `Graph::add_node`: one more node, behind those that are there.
#[verifier::external_body]
fn add_node(g: &mut NumberGraph, weight: usize)
    ensures
        graph_nodes(*final(g)) == graph_nodes(*old(g)).push(weight),
        graph_edges(*final(g)) == graph_edges(*old(g)),
{
    g.add_node(weight);
}

/// `Graph::add_edge`: one more edge between two nodes that are there.
#[verifier::external_body]
fn add_edge(g: &mut NumberGraph, from: usize, to: usize)
    requires
        from < graph_nodes(*old(g)).len(),
        to < graph_nodes(*old(g)).len(),
    ensures
        graph_nodes(*final(g)) == graph_nodes(*old(g)),
        graph_edges(*final(g)) == graph_edges(*old(g)).insert((from, to)),
{
    g.add_edge(NodeIndex::new(from), NodeIndex::new(to), ());
}

/// Whether edges lead along all the nodes of `path`, from the first to the last.
pub open spec fn is_path(edges: Set<(usize, usize)>, path: Seq<usize>) -> bool {
    &&& path.len() > 0
    &&& forall|i: int| 0 <= i < path.len() - 1 ==> #[trigger] goes_on(edges, path, i)
}

/// Whether an edge leads from node number `i` of `path` to the next.
pub open spec fn goes_on(edges: Set<(usize, usize)>, path: Seq<usize>, i: int) -> bool {
    edges.contains((path[i], path[i + 1]))
}

/// Whether edges lead from `a` to `b`. From a node to itself the way without edges will do.
pub open spec fn leads_to(edges: Set<(usize, usize)>, a: usize, b: usize) -> bool {
    exists|path: Seq<usize>| #[trigger]
        is_path(edges, path) && path.first() == a && path.last() == b
}

/// Whether no edges lead from a node back to itself.
pub open spec fn acyclic(edges: Set<(usize, usize)>) -> bool {
    forall|path: Seq<usize>| #[trigger]
        is_path(edges, path) && path.len() > 1 ==> path.first() != path.last()
}

/// Whether a node is in one of several components.
pub open spec fn is_member(components: Seq<Seq<usize>>, v: usize) -> bool {
    exists|c: int| 0 <= c < components.len() && (#[trigger] components[c].contains(v))
}

/// Whether `components` are the strongly connected components of a graph of `n` nodes, and `links`
/// says which of them have edges between them.
#[verifier::opaque]
pub open spec fn condenses(
    components: Seq<Seq<usize>>,
    links: Set<(usize, usize)>,
    n: nat,
    edges: Set<(usize, usize)>,
) -> bool {
    &&& forall|c: int|
        0 <= c < components.len() ==> (#[trigger] components[c]).no_duplicates()
            && components[c].len() > 0
    &&& forall|c: int, v: usize|
        0 <= c < components.len() && (#[trigger] components[c].contains(v)) ==> v < n
    &&& forall|v: usize| v < n ==> #[trigger] is_member(components, v)
    &&& forall|c: int, d: int, v: usize, w: usize|
        #![trigger components[c].contains(v), components[d].contains(w)]
        0 <= c < components.len() && 0 <= d < components.len() && components[c].contains(v)
            && components[d].contains(w) ==> (c == d <==> leads_to(edges, v, w) && leads_to(
            edges,
            w,
            v,
        ))
    &&& forall|c: usize, d: usize, v: usize, w: usize|
        #![trigger components[c as int].contains(v), components[d as int].contains(w)]
        c < components.len() && d < components.len() && c != d && components[c as int].contains(v)
            && components[d as int].contains(w) && edges.contains((v, w)) ==> links.contains((c, d))
    &&& forall|c: usize, d: usize| #[trigger]
        links.contains((c, d)) ==> c != d && c < components.len() && d < components.len()
            && linked(components[c as int], components[d as int], edges)
    &&& acyclic(links)
}

/// Whether an edge leads from one of several nodes to one of several others.
pub open spec fn linked(from: Seq<usize>, to: Seq<usize>, edges: Set<(usize, usize)>) -> bool {
    exists|v: usize, w: usize| #[trigger]
        edges.contains((v, w)) && from.contains(v) && to.contains(w)
}

/// A node is in one component only.
pub proof fn lemma_one_component(
    components: Seq<Seq<usize>>,
    links: Set<(usize, usize)>,
    n: nat,
    edges: Set<(usize, usize)>,
    c: int,
    d: int,
    v: usize,
)
    requires
        condenses(components, links, n, edges),
        0 <= c < components.len(),
        0 <= d < components.len(),
        components[c].contains(v),
        components[d].contains(v),
    ensures
        c == d,
        v < n,
{
    reveal(condenses);
    assert(is_path(edges, seq![v]));
    assert(seq![v].first() == v && seq![v].last() == v);
    assert(leads_to(edges, v, v));
}

/// No edge leads from a later component to an earlier one.
pub proof fn lemma_edges_lead_on(
    components: Seq<Seq<usize>>,
    links: Set<(usize, usize)>,
    n: nat,
    edges: Set<(usize, usize)>,
    order: Seq<usize>,
    s: int,
    t: int,
    v: usize,
    w: usize,
)
    requires
        condenses(components, links, n, edges),
        is_topological(order, components.len(), links),
        0 <= s < t < order.len(),
        components[order[s] as int].contains(v),
        components[order[t] as int].contains(w),
    ensures
        !edges.contains((w, v)),
{
    reveal(condenses);
    let c = order[s];
    let d = order[t];
    assert(c != d);
    assert(components[d as int].contains(w) && components[c as int].contains(v));
    if edges.contains((w, v)) {
        assert(links.contains((d, c)));
        assert(links.contains((order[t], order[s])));
    }
}

/// `petgraph::algo::condensation` with `make_acyclic`: the nodes of the new graph carry the
/// strongly connected components of the old one, every edge between nodes of two components makes
/// one between the components, and the new graph has no cycle. It is stated for graphs in which
/// each node carries its own position.
#[verifier::external_body]
fn condensation(g: NumberGraph) -> (r: ComponentGraph)
    requires
        forall|i: int| 0 <= i < graph_nodes(g).len() ==> #[trigger] graph_nodes(g)[i] == i,
    ensures
        condenses(component_nodes(r), component_edges(r), graph_nodes(g).len(), graph_edges(g)),
{
    petgraph::algo::condensation(g, true)
}

/// Whether `order` puts all of `n` nodes in a row in which all edges lead forward.
pub open spec fn is_topological(order: Seq<usize>, n: nat, edges: Set<(usize, usize)>) -> bool {
    &&& order.len() == n
    &&& order.no_duplicates()
    &&& forall|i: int| 0 <= i < order.len() ==> (#[trigger] order[i]) < n
    &&& forall|i: int, j: int|
        #![trigger order[i], order[j]]
        0 <= i < order.len() && 0 <= j < order.len() && edges.contains((order[i], order[j])) ==> i
            < j
}

/// `petgraph::algo::toposort`: the nodes, each before those that edges lead to from it; none if the
/// graph has a cycle.
#[verifier::external_body]
pub(crate) fn toposort(g: &ComponentGraph) -> (r: Option<Vec<usize>>)
    ensures
        r is Some <==> acyclic(component_edges(*g)),
        r matches Some(order) ==> is_topological(
            order@,
            component_nodes(*g).len(),
            component_edges(*g),
        ),
{
    let order = petgraph::algo::toposort(g, None).ok()?;
    Some(order.into_iter().map(|node| node.index()).collect())
}

/// `<Graph as Index<NodeIndex>>::index`: what a node carries.
#[verifier::external_body]
pub(crate) fn component(g: &ComponentGraph, i: usize) -> (r: &Vec<usize>)
    requires
        i < component_nodes(*g).len(),
    ensures
        r@ == component_nodes(*g)[i as int],
{
    &g[NodeIndex::new(i)]
}

/// Whether code has a call of a function.
pub open spec fn calls(code: Seq<Instr>, name: Seq<char>) -> bool {
    exists|k: int| 0 <= k < code.len() && is_call(#[trigger] code[k], name)
}

/// Whether an instruction is a call of a function.
pub open spec fn is_call(instr: Instr, name: Seq<char>) -> bool {
    instr matches Instr::BBInstr(BasicBlockInstr::FunctionCall(callee)) && callee@ == name
}

/// The names of the functions that code calls, each once.
pub fn get_callees(line: &[Instr]) -> (r: NameMap<()>)
    ensures
        r.wf(),
        forall|name: Seq<char>| #[trigger] r@.contains_key(name) <==> calls(line@, name),
{
    let mut result: NameMap<()> = NameMap::new();
    let mut i: usize = 0;
    while i < line.len()
        invariant
            i <= line@.len(),
            result.wf(),
            forall|name: Seq<char>| #[trigger]
                result@.contains_key(name) <==> calls(line@.take(i as int), name),
        decreases line@.len() - i,
    {
        let ghost before = result@;
        if let Instr::BBInstr(BasicBlockInstr::FunctionCall(name)) = &line[i] {
            result.insert(name.clone(), ());
        }
        assert forall|name: Seq<char>| #[trigger] result@.contains_key(name) <==> calls(
            line@.take(i + 1),
            name,
        ) by {
            let now = line@.take(i + 1);
            let then_ = line@.take(i as int);
            assert(before.contains_key(name) <==> calls(then_, name));
            if calls(then_, name) {
                let k = choose|k: int| 0 <= k < then_.len() && is_call(#[trigger] then_[k], name);
                assert(now[k] == then_[k]);
            }
            if calls(now, name) {
                let k = choose|k: int| 0 <= k < now.len() && is_call(#[trigger] now[k], name);
                if k < i {
                    assert(then_[k] == now[k]);
                }
            }
            assert(now[i as int] == line@[i as int]);
        }
        i = i + 1;
    }
    assert(line@.take(i as int) =~= line@);
    result
}

/// The calls between functions, each function by its position among `names`: an edge leads from the
/// function that is called to the one that calls it.
pub open spec fn call_edges(names: Seq<Seq<char>>, funcs: Map<Seq<char>, Code>) -> Set<
    (usize, usize),
> {
    Set::new(
        |e: (usize, usize)|
            e.0 < names.len() && e.1 < names.len() && calls(
                funcs[names[e.1 as int]]@,
                names[e.0 as int],
            ),
    )
}

/// The strongly connected components of functions that call each other, those that are called
/// before those that call them.
pub fn call_components(funcs: &NameMap<Code>) -> (r: ComponentGraph)
    requires
        funcs.wf(),
    ensures
        condenses(
            component_nodes(r),
            component_edges(r),
            funcs.names().len(),
            call_edges(funcs.names(), funcs@),
        ),
{
    let ghost names = funcs.names();
    let n = funcs.len();
    let mut graph = graph_new();
    let mut i: usize = 0;
    while i < n
        invariant
            i <= n,
            graph_nodes(graph).len() == i,
            forall|j: int| 0 <= j < i ==> #[trigger] graph_nodes(graph)[j] == j,
            graph_edges(graph) =~= Set::empty(),
        decreases n - i,
    {
        add_node(&mut graph, i);
        i = i + 1;
    }
    let mut caller: usize = 0;
    while caller < n
        invariant
            funcs.wf(),
            names == funcs.names(),
            n == names.len(),
            caller <= n,
            graph_nodes(graph).len() == n,
            forall|j: int| 0 <= j < n ==> #[trigger] graph_nodes(graph)[j] == j,
            forall|a: usize, b: usize| #[trigger]
                graph_edges(graph).contains((a, b)) <==> b < caller && call_edges(
                    names,
                    funcs@,
                ).contains((a, b)),
        decreases n - caller,
    {
        let callees = get_callees(funcs.value_at(caller).as_slice());
        let ghost code = funcs@[names[caller as int]]@;
        let ghost before = graph_edges(graph);
        let m = callees.len();
        let mut k: usize = 0;
        while k < m
            invariant
                funcs.wf(),
                callees.wf(),
                names == funcs.names(),
                n == names.len(),
                m == callees.names().len(),
                caller < n,
                k <= m,
                code == funcs@[names[caller as int]]@,
                forall|name: Seq<char>| #[trigger] callees@.contains_key(name) <==> calls(code, name),
                graph_nodes(graph).len() == n,
                forall|j: int| 0 <= j < n ==> #[trigger] graph_nodes(graph)[j] == j,
                forall|a: usize, b: usize| #[trigger]
                    graph_edges(graph).contains((a, b)) <==> before.contains((a, b)) || (b == caller
                        && a < n && exists|l: int|
                        0 <= l < k && #[trigger] callees.names()[l] == names[a as int]),
            decreases m - k,
        {
            let name = callees.name_at(k);
            let ghost old_edges = graph_edges(graph);
            proof {
                funcs.lemma_names();
            }
            match funcs.position(name.as_str()) {
                Some(callee) => {
                    add_edge(&mut graph, callee, caller);
                },
                None => {},
            }
            assert forall|a: usize, b: usize| #[trigger]
                graph_edges(graph).contains((a, b)) <==> before.contains((a, b)) || (b == caller && a
                    < n && exists|l: int|
                0 <= l < k + 1 && #[trigger] callees.names()[l] == names[a as int]) by {
                assert(old_edges.contains((a, b)) <==> before.contains((a, b)) || (b == caller && a
                    < n && exists|l: int|
                    0 <= l < k && #[trigger] callees.names()[l] == names[a as int]));
                if b == caller && a < n && names[a as int] == callees.names()[k as int] {
                    assert(funcs@.contains_key(names[a as int]));
                    assert(graph_edges(graph).contains((a, b)));
                }
                if graph_edges(graph).contains((a, b)) && !old_edges.contains((a, b)) {
                    assert(callees.names()[k as int] == names[a as int]);
                }
            }
            k = k + 1;
        }
        proof {
            callees.lemma_names();
            assert forall|a: usize, b: usize| #[trigger]
                graph_edges(graph).contains((a, b)) <==> b < caller + 1 && call_edges(
                names,
                funcs@,
            ).contains((a, b)) by {
                assert(before.contains((a, b)) <==> b < caller && call_edges(
                    names,
                    funcs@,
                ).contains((a, b)));
                if b == caller && a < n {
                    if calls(code, names[a as int]) {
                        assert(callees@.contains_key(names[a as int]));
                        let l = callees.names().index_of(names[a as int]);
                        assert(callees.names()[l] == names[a as int]);
                    }
                    if exists|l: int| 0 <= l < m && #[trigger] callees.names()[l] == names[a as int] {
                        let l = choose|l: int|
                            0 <= l < m && #[trigger] callees.names()[l] == names[a as int];
                        assert(callees@.contains_key(callees.names()[l]));
                    }
                }
            }
        }
        caller = caller + 1;
    }
    assert(graph_edges(graph) =~= call_edges(names, funcs@)) by {
        assert forall|e: (usize, usize)| #[trigger] graph_edges(graph).contains(e) <==> call_edges(
            names,
            funcs@,
        ).contains(e) by {
            let (a, b) = e;
            assert(graph_edges(graph).contains((a, b)) <==> b < n && call_edges(
                names,
                funcs@,
            ).contains((a, b)));
        }
    }
    condensation(graph)
}

} // verus!
