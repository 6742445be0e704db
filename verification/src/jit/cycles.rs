//! Negative cycles in a graph whose edges have weights.
use vstd::prelude::*;

verus! {

/// An edge: where it starts, where it ends, and its weight.
pub type Edge = (usize, usize, isize);

/// Whether the edges with the numbers in `path`, in that order, lead from one node to another.
pub open spec fn is_walk(edges: Seq<Edge>, path: Seq<int>, from: int, to: int) -> bool
    decreases path.len(),
{
    if path.len() == 0 {
        from == to
    } else {
        &&& 0 <= path.last() < edges.len()
        &&& edges[path.last()].1 == to
        &&& is_walk(edges, path.drop_last(), from, edges[path.last()].0 as int)
    }
}

/// The weight of all the edges with the numbers in `path` together.
pub open spec fn weight(edges: Seq<Edge>, path: Seq<int>) -> int
    decreases path.len(),
{
    if path.len() == 0 {
        0
    } else {
        weight(edges, path.drop_last()) + edges[path.last()].2
    }
}

/// Whether a walk leads from `source` to a node from which a walk of negative weight leads back.
pub open spec fn reaches_negative_cycle(edges: Seq<Edge>, source: int) -> bool {
    exists|v: int, there: Seq<int>, round: Seq<int>|
        #![trigger is_walk(edges, there, source, v), is_walk(edges, round, v, v)]
        is_walk(edges, there, source, v) && is_walk(edges, round, v, v) && weight(edges, round) < 0
}

/// Whether all edges run between the first `n` nodes.
pub open spec fn nodes_below(edges: Seq<Edge>, n: int) -> bool {
    forall|i: int| #![trigger edges[i]] 0 <= i < edges.len() ==> edges[i].0 < n && edges[i].1 < n
}

/// Two walks, one after the other, are a walk.
pub proof fn lemma_join(edges: Seq<Edge>, a: Seq<int>, b: Seq<int>, x: int, y: int, z: int)
    requires
        is_walk(edges, a, x, y),
        is_walk(edges, b, y, z),
    ensures
        is_walk(edges, a + b, x, z),
        weight(edges, a + b) == weight(edges, a) + weight(edges, b),
    decreases b.len(),
{
    if b.len() == 0 {
        assert(a + b =~= a);
    } else {
        let end = edges[b.last()].0 as int;
        lemma_join(edges, a, b.drop_last(), x, y, end);
        assert((a + b).drop_last() =~= a + b.drop_last());
        assert((a + b).last() == b.last());
    }
}

/// One edge is a walk.
pub proof fn lemma_edge(edges: Seq<Edge>, i: int)
    requires
        0 <= i < edges.len(),
    ensures
        is_walk(edges, seq![i], edges[i].0 as int, edges[i].1 as int),
        weight(edges, seq![i]) == edges[i].2,
{
    let path = seq![i];
    assert(path.drop_last() =~= Seq::<int>::empty());
    assert(path.last() == i);
    assert(is_walk(edges, path.drop_last(), edges[i].0 as int, edges[i].0 as int));
    assert(weight(edges, path.drop_last()) == 0);
}

/// The node at which a walk is after `i` edges.
spec fn node_at(edges: Seq<Edge>, path: Seq<int>, from: int, i: int) -> int {
    if i <= 0 {
        from
    } else {
        edges[path[i - 1]].1 as int
    }
}

/// A walk falls apart into two at any point.
proof fn lemma_split(edges: Seq<Edge>, path: Seq<int>, from: int, to: int, i: int)
    requires
        is_walk(edges, path, from, to),
        0 <= i <= path.len(),
    ensures
        is_walk(edges, path.take(i), from, node_at(edges, path, from, i)),
        is_walk(edges, path.skip(i), node_at(edges, path, from, i), to),
        weight(edges, path) == weight(edges, path.take(i)) + weight(edges, path.skip(i)),
    decreases path.len(),
{
    if i == path.len() {
        assert(path.take(i) =~= path);
        assert(path.skip(i) =~= Seq::<int>::empty());
        assert(weight(edges, path.skip(i)) == 0);
    } else {
        let shorter = path.drop_last();
        lemma_split(edges, shorter, from, edges[path.last()].0 as int, i);
        assert(shorter.take(i) =~= path.take(i));
        assert(path.skip(i).drop_last() =~= shorter.skip(i));
        assert(path.skip(i).last() == path.last());
        assert(node_at(edges, shorter, from, i) == node_at(edges, path, from, i));
    }
}

/// The nodes of a walk are among the first `n`.
proof fn lemma_nodes(edges: Seq<Edge>, path: Seq<int>, from: int, to: int, n: int, i: int)
    requires
        is_walk(edges, path, from, to),
        nodes_below(edges, n),
        0 <= from < n,
        0 <= i <= path.len(),
    ensures
        0 <= node_at(edges, path, from, i) < n,
    decreases path.len(),
{
    if i > 0 {
        if i == path.len() {
            assert(path[i - 1] == path.last());
            let e = edges[path.last()];
        } else {
            lemma_nodes(edges, path.drop_last(), from, edges[path.last()].0 as int, n, i);
            assert(path.drop_last()[i - 1] == path[i - 1]);
        }
    }
}

/// A sequence of more than `n` of the numbers below `n` holds one of them twice.
proof fn lemma_pigeonhole(s: Seq<int>, n: int) -> (r: (int, int))
    requires
        s.len() > n >= 0,
        forall|i: int| 0 <= i < s.len() ==> 0 <= #[trigger] s[i] < n,
    ensures
        0 <= r.0 < r.1 < s.len(),
        s[r.0] == s[r.1],
{
    if s.no_duplicates() {
        s.unique_seq_to_set();
        let range = vstd::set_lib::set_int_range(0, n);
        vstd::set_lib::lemma_int_range(0, n);
        assert(s.to_set().subset_of(range));
        vstd::set_lib::lemma_len_subset(s.to_set(), range);
        assert(false);
    }
    let (i, j) = choose|i: int, j: int|
        0 <= i < s.len() && 0 <= j < s.len() && i != j && #[trigger] s[i] == #[trigger] s[j];
    if i < j {
        (i, j)
    } else {
        (j, i)
    }
}

/// Where no negative cycle can be reached, a walk that passes a node twice has a detour that it can
/// do without.
proof fn lemma_shorten(edges: Seq<Edge>, path: Seq<int>, from: int, to: int, n: int) -> (r: Seq<int>)
    requires
        is_walk(edges, path, from, to),
        nodes_below(edges, n),
        0 <= from < n,
        !reaches_negative_cycle(edges, from),
    ensures
        is_walk(edges, r, from, to),
        r.len() < n,
        weight(edges, r) <= weight(edges, path),
    decreases path.len(),
{
    if path.len() < n {
        path
    } else {
        let nodes = Seq::new(path.len() + 1, |i: int| node_at(edges, path, from, i));
        assert forall|i: int| 0 <= i < nodes.len() implies 0 <= #[trigger] nodes[i] < n by {
            lemma_nodes(edges, path, from, to, n, i);
        }
        let (i, j) = lemma_pigeonhole(nodes, n);
        let v = nodes[i];
        lemma_split(edges, path, from, to, j);
        let front = path.take(j);
        lemma_split(edges, front, from, v, i);
        assert(node_at(edges, front, from, i) == v);
        let there = front.take(i);
        let round = front.skip(i);
        assert(is_walk(edges, there, from, v) && is_walk(edges, round, v, v));
        assert(weight(edges, round) >= 0);
        lemma_join(edges, there, path.skip(j), from, v, to);
        lemma_shorten(edges, there + path.skip(j), from, to, n)
    }
}

/// Each distance is the weight of some walk, and is within `k` times the largest weight.
spec fn attained(edges: Seq<Edge>, source: int, dist: Seq<Option<i128>>, k: int) -> bool {
    forall|v: int|
        #![trigger dist[v]]
        0 <= v < dist.len() ==> (dist[v] matches Some(d) ==> -k * 0x8000_0000_0000_0000 <= d <= k
            * 0x8000_0000_0000_0000 && exists|path: Seq<int>| #[trigger]
            is_walk(edges, path, source, v) && weight(edges, path) == d)
}

/// No walk of at most `k` edges has less weight than the distance.
spec fn minimal(edges: Seq<Edge>, source: int, dist: Seq<Option<i128>>, k: int) -> bool {
    forall|path: Seq<int>, v: int| #[trigger]
        is_walk(edges, path, source, v) && path.len() <= k && 0 <= v < dist.len() ==> dist[v] is Some
            && dist[v]->0 <= weight(edges, path)
}

/// Whether an edge offers a shorter way.
spec fn improves(edge: Edge, dist: Seq<Option<i128>>) -> bool {
    match dist[edge.0 as int] {
        Some(d) => match dist[edge.1 as int] {
            Some(old) => d + edge.2 < old,
            None => true,
        },
        None => false,
    }
}

/// Where no edge offers a shorter way, no walk does.
proof fn lemma_settled(edges: Seq<Edge>, dist: Seq<Option<i128>>, path: Seq<int>, from: int, to: int)
    requires
        nodes_below(edges, dist.len() as int),
        0 <= from < dist.len(),
        dist[from] is Some,
        forall|i: int| 0 <= i < edges.len() ==> !improves(#[trigger] edges[i], dist),
        is_walk(edges, path, from, to),
    ensures
        0 <= to < dist.len(),
        dist[to] is Some,
        dist[to]->0 <= dist[from]->0 + weight(edges, path),
    decreases path.len(),
{
    if path.len() > 0 {
        let e = edges[path.last()];
        lemma_settled(edges, dist, path.drop_last(), from, e.0 as int);
        assert(!improves(e, dist));
    }
}

/// Whether the edge offers a shorter way.
fn edge_improves(edge: Edge, dist: &Vec<Option<i128>>, k: Ghost<int>) -> (r: bool)
    requires
        edge.0 < dist@.len(),
        edge.1 < dist@.len(),
        0 <= k@ <= usize::MAX,
        dist@[edge.0 as int] matches Some(d) ==> -k@ * 0x8000_0000_0000_0000 <= d <= k@
            * 0x8000_0000_0000_0000,
    ensures
        r == improves(edge, dist@),
{
    match dist[edge.0] {
        Some(d) => match dist[edge.1] {
            Some(old) => d + (edge.2 as i128) < old,
            None => true,
        },
        None => false,
    }
}

/// One round: all edges are tried on the distances that the round started with.
fn relax(n: usize, edges: &Vec<Edge>, source: Ghost<int>, dist: &Vec<Option<i128>>, k: Ghost<int>) -> (r:
    Vec<Option<i128>>)
    requires
        nodes_below(edges@, n as int),
        dist@.len() == n,
        0 <= source@ < n,
        0 <= k@ < usize::MAX,
        attained(edges@, source@, dist@, k@),
        minimal(edges@, source@, dist@, k@),
    ensures
        r@.len() == n,
        attained(edges@, source@, r@, k@ + 1),
        minimal(edges@, source@, r@, k@ + 1),
{
    let mut new: Vec<Option<i128>> = Vec::new();
    let mut v: usize = 0;
    while v < n
        invariant
            v <= n,
            dist@.len() == n,
            new@ == dist@.take(v as int),
        decreases n - v,
    {
        new.push(dist[v]);
        v = v + 1;
        assert(new@ =~= dist@.take(v as int));
    }
    assert(new@ =~= dist@);
    let mut i: usize = 0;
    while i < edges.len()
        invariant
            nodes_below(edges@, n as int),
            dist@.len() == n,
            new@.len() == n,
            0 <= k@ < usize::MAX,
            0 <= i <= edges@.len(),
            attained(edges@, source@, dist@, k@),
            attained(edges@, source@, new@, k@ + 1),
            forall|u: int|
                #![trigger dist@[u]]
                0 <= u < n && dist@[u] is Some ==> new@[u] is Some && new@[u]->0 <= dist@[u]->0,
            forall|j: int|
                #![trigger edges@[j]]
                0 <= j < i && dist@[edges@[j].0 as int] is Some ==> new@[edges@[j].1 as int] is Some
                    && new@[edges@[j].1 as int]->0 <= dist@[edges@[j].0 as int]->0 + edges@[j].2,
        decreases edges@.len() - i,
    {
        let edge = edges[i];
        let ghost before = new@;
        if let Some(d) = dist[edge.0] {
            let through: i128 = d + (edge.2 as i128);
            let better = match new[edge.1] {
                Some(old) => through < old,
                None => true,
            };
            if better {
                new.set(edge.1, Some(through));
            }
            proof {
                let path = choose|path: Seq<int>| #[trigger]
                    is_walk(edges@, path, source@, edge.0 as int) && weight(edges@, path) == d;
                lemma_edge(edges@, i as int);
                lemma_join(
                    edges@,
                    path,
                    seq![i as int],
                    source@,
                    edge.0 as int,
                    edge.1 as int,
                );
                assert forall|v: int| #![trigger new@[v]] 0 <= v < new@.len() implies (
                new@[v] matches Some(d) ==> -(k@ + 1) * 0x8000_0000_0000_0000 <= d <= (k@ + 1)
                    * 0x8000_0000_0000_0000 && exists|path: Seq<int>| #[trigger]
                    is_walk(edges@, path, source@, v) && weight(edges@, path) == d) by {
                    if v != edge.1 || !better {
                        assert(new@[v] == before[v]);
                    }
                }
            }
        }
        i = i + 1;
    }
    proof {
        assert forall|path: Seq<int>, v: int| #[trigger]
            is_walk(edges@, path, source@, v) && path.len() <= k@ + 1 && 0 <= v
                < new@.len() implies new@[v] is Some && new@[v]->0 <= weight(edges@, path) by {
            if path.len() <= k@ {
                assert(dist@[v] is Some && dist@[v]->0 <= weight(edges@, path));
            } else {
                let e = edges@[path.last()];
                assert(is_walk(edges@, path.drop_last(), source@, e.0 as int));
                assert(dist@[e.0 as int] is Some);
            }
        }
    }
    new
}

/// Whether a cycle of negative weight can be reached from `source` in a graph of `n` nodes.
pub fn find_negative_cycle(n: usize, edges: &Vec<Edge>, source: usize) -> (r: bool)
    requires
        nodes_below(edges@, n as int),
        source < n,
    ensures
        r == reaches_negative_cycle(edges@, source as int),
{
    let mut dist: Vec<Option<i128>> = Vec::new();
    let mut v: usize = 0;
    while v < n
        invariant
            v <= n,
            dist@.len() == v,
            forall|u: int| 0 <= u < v ==> #[trigger] dist@[u] is None,
        decreases n - v,
    {
        dist.push(None);
        v = v + 1;
    }
    dist.set(source, Some(0));
    proof {
        let empty = Seq::<int>::empty();
        assert(is_walk(edges@, empty, source as int, source as int));
        assert(weight(edges@, empty) == 0);
    }
    assert(attained(edges@, source as int, dist@, 0));
    assert(minimal(edges@, source as int, dist@, 0));
    let mut round: usize = 0;
    while round < n - 1
        invariant
            nodes_below(edges@, n as int),
            source < n,
            round <= n - 1,
            dist@.len() == n,
            attained(edges@, source as int, dist@, round as int),
            minimal(edges@, source as int, dist@, round as int),
        decreases n - round,
    {
        dist = relax(n, edges, Ghost(source as int), &dist, Ghost(round as int));
        round = round + 1;
    }
    let mut i: usize = 0;
    while i < edges.len()
        invariant
            nodes_below(edges@, n as int),
            source < n,
            i <= edges@.len(),
            dist@.len() == n,
            attained(edges@, source as int, dist@, n - 1),
            minimal(edges@, source as int, dist@, n - 1),
            forall|j: int| 0 <= j < i ==> !improves(#[trigger] edges@[j], dist@),
        decreases edges@.len() - i,
    {
        let edge = edges[i];
        if edge_improves(edge, &dist, Ghost(n - 1)) {
            proof {
                let d = dist@[edge.0 as int]->0;
                let path = choose|path: Seq<int>| #[trigger]
                    is_walk(edges@, path, source as int, edge.0 as int) && weight(edges@, path)
                        == d;
                lemma_edge(edges@, i as int);
                lemma_join(
                    edges@,
                    path,
                    seq![i as int],
                    source as int,
                    edge.0 as int,
                    edge.1 as int,
                );
                if !reaches_negative_cycle(edges@, source as int) {
                    let short = lemma_shorten(
                        edges@,
                        path + seq![i as int],
                        source as int,
                        edge.1 as int,
                        n as int,
                    );
                    assert(is_walk(edges@, short, source as int, edge.1 as int));
                    assert(false);
                }
            }
            return true;
        }
        i = i + 1;
    }
    proof {
        if reaches_negative_cycle(edges@, source as int) {
            let (v, there, round) = choose|v: int, there: Seq<int>, round: Seq<int>|
                #![trigger is_walk(edges@, there, source as int, v), is_walk(edges@, round, v, v)]
                is_walk(edges@, there, source as int, v) && is_walk(edges@, round, v, v) && weight(
                    edges@,
                    round,
                ) < 0;
            assert(is_walk(edges@, Seq::<int>::empty(), source as int, source as int));
            lemma_settled(edges@, dist@, there, source as int, v);
            lemma_settled(edges@, dist@, round, v, v);
            assert(false);
        }
    }
    false
}

} // verus!
