//! The way of least weight between two nodes of a graph, found by visiting
//! the nodes in the order of their distance from the source.
use crate::adjacency_list::{GraphEdge, WeightedAdjacencyList};
use crate::paths::{
    closed_under, lemma_closed_holds_walks, lemma_mark_seen, lemma_unseen_count_bound,
    reached_from, trace_back, unseen_count,
};
use vstd::prelude::*;

verus! {

/// The weights of the edges of a row, added up.
pub open spec fn row_weight(row: Seq<GraphEdge>) -> nat
    decreases row.len(),
{
    if row.len() == 0 {
        0
    } else {
        row_weight(row.drop_last()) + row.last().weight as nat
    }
}

/// The weights of the edges that leave the first `upto` nodes, added up.
pub open spec fn weight_upto(graph: &WeightedAdjacencyList, upto: int) -> nat
    decreases upto,
{
    if upto <= 0 {
        0
    } else {
        weight_upto(graph, upto - 1) + row_weight(graph.list@[upto - 1]@)
    }
}

/// The weights of all edges of the graph, added up.
pub open spec fn total_weight(graph: &WeightedAdjacencyList) -> nat {
    weight_upto(graph, graph.list@.len() as int)
}

/// The weights of all edges together stay below `usize::MAX`, so that no way
/// through the graph is longer than a `usize` can hold.
pub open spec fn weights_fit(graph: &WeightedAdjacencyList) -> bool {
    total_weight(graph) < usize::MAX
}

/// `nodes` is a way through the graph, and `edges` names for each of its
/// steps the edge that it takes, by its place among the edges of the node
/// that it leaves.
pub open spec fn is_route(graph: &WeightedAdjacencyList, nodes: Seq<usize>, edges: Seq<int>) -> bool {
    &&& nodes.len() == edges.len() + 1
    &&& forall|i: int|
        0 <= i < edges.len() ==> {
            &&& (#[trigger] nodes[i]) < graph.list@.len()
            &&& 0 <= edges[i] < graph.list@[nodes[i] as int]@.len()
            &&& graph.list@[nodes[i] as int]@[edges[i]].to == nodes[i + 1]
        }
}

/// The weights of the edges that the first `steps` steps of a route take,
/// added up.
pub open spec fn route_weight(
    graph: &WeightedAdjacencyList,
    nodes: Seq<usize>,
    edges: Seq<int>,
    steps: int,
) -> nat
    decreases steps,
{
    if steps <= 0 {
        0
    } else {
        route_weight(graph, nodes, edges, steps - 1) + graph.list@[nodes[steps - 1] as int]@[edges[steps
            - 1]].weight as nat
    }
}

/// The weights of the edges that leave the marked ones of the first `upto`
/// nodes, added up.
spec fn seen_weight(graph: &WeightedAdjacencyList, seen: Seq<bool>, upto: int) -> nat
    decreases upto,
{
    if upto <= 0 {
        0
    } else {
        seen_weight(graph, seen, upto - 1) + if seen[upto - 1] {
            row_weight(graph.list@[upto - 1]@)
        } else {
            0
        }
    }
}

/// No edge weighs more than all edges of its row together.
proof fn lemma_edge_in_row(row: Seq<GraphEdge>, k: int)
    requires
        0 <= k < row.len(),
    ensures
        row[k].weight <= row_weight(row),
    decreases row.len(),
{
    if k < row.len() - 1 {
        lemma_edge_in_row(row.drop_last(), k);
    }
}

/// The edges that leave marked nodes weigh no more than all edges.
proof fn lemma_seen_weight_bound(graph: &WeightedAdjacencyList, seen: Seq<bool>, upto: int)
    ensures
        seen_weight(graph, seen, upto) <= weight_upto(graph, upto),
    decreases upto,
{
    if upto > 0 {
        lemma_seen_weight_bound(graph, seen, upto - 1);
    }
}

/// Marking a node adds the weight of its edges.
proof fn lemma_seen_weight_marked(
    graph: &WeightedAdjacencyList,
    seen: Seq<bool>,
    curr: int,
    upto: int,
)
    requires
        0 <= curr < seen.len(),
        !seen[curr],
        upto <= seen.len(),
    ensures
        seen_weight(graph, seen.update(curr, true), upto) == seen_weight(graph, seen, upto) + if curr
            < upto {
            row_weight(graph.list@[curr]@)
        } else {
            0
        },
    decreases upto,
{
    if upto > 0 {
        lemma_seen_weight_marked(graph, seen, curr, upto - 1);
    }
}

/// Some node that was not visited yet has a distance.
fn has_unvisited(seen: &Vec<bool>, dists: &Vec<usize>) -> (any: bool)
    requires
        seen@.len() == dists@.len(),
    ensures
        any == exists|i: int| 0 <= i < seen@.len() && !seen@[i] && #[trigger] dists@[i] < usize::MAX,
{
    let mut i: usize = 0;
    while i < seen.len()
        invariant
            seen@.len() == dists@.len(),
            i <= seen@.len(),
            forall|k: int| 0 <= k < i ==> seen@[k] || #[trigger] dists@[k] == usize::MAX,
        decreases seen@.len() - i,
    {
        if !seen[i] && dists[i] < usize::MAX {
            return true;
        }
        i += 1;
    }
    false
}

/// The first of the nodes not visited yet whose distance is the lowest;
/// nothing where none of them has a distance.
fn get_lowest_unvisited(seen: &Vec<bool>, dists: &Vec<usize>) -> (lowest: Option<usize>)
    requires
        seen@.len() == dists@.len(),
    ensures
        match lowest {
            Some(at) => {
                &&& at < seen@.len()
                &&& !seen@[at as int]
                &&& dists@[at as int] < usize::MAX
                &&& forall|k: int|
                    0 <= k < seen@.len() && !seen@[k] ==> dists@[at as int] <= #[trigger] dists@[k]
                &&& forall|k: int|
                    0 <= k < at && !seen@[k] ==> dists@[at as int] < #[trigger] dists@[k]
            },
            None => forall|k: int|
                0 <= k < seen@.len() ==> seen@[k] || #[trigger] dists@[k] == usize::MAX,
        },
{
    let mut lowest_distance = usize::MAX;
    let mut lowest_index: Option<usize> = None;

    let mut i: usize = 0;
    while i < seen.len()
        invariant
            seen@.len() == dists@.len(),
            i <= seen@.len(),
            forall|k: int| 0 <= k < i && !seen@[k] ==> lowest_distance <= #[trigger] dists@[k],
            match lowest_index {
                Some(at) => {
                    &&& at < i
                    &&& !seen@[at as int]
                    &&& dists@[at as int] == lowest_distance
                    &&& lowest_distance < usize::MAX
                    &&& forall|k: int|
                        0 <= k < at && !seen@[k] ==> lowest_distance < #[trigger] dists@[k]
                },
                None => lowest_distance == usize::MAX,
            },
        decreases seen@.len() - i,
    {
        if !seen[i] {
            if lowest_distance > dists[i] {
                lowest_distance = dists[i];
                lowest_index = Some(i);
            }
        }
        i += 1;
    }
    lowest_index
}

/// The search reached `b` from `a`, along an edge.
spec fn step_taken(
    graph: &WeightedAdjacencyList,
    prev: Seq<Option<usize>>,
    a: int,
    b: int,
) -> bool {
    &&& graph.has_edge(a, b)
    &&& 0 <= b < prev.len()
    &&& prev[b] == Some(a as usize)
    &&& 0 <= a <= usize::MAX
}

/// What the search keeps between two steps.
spec fn search_state(
    graph: &WeightedAdjacencyList,
    source: usize,
    prev: Seq<Option<usize>>,
    seen: Seq<bool>,
    dists: Seq<usize>,
    order: Seq<nat>,
) -> bool {
    let n = graph.list@.len();
    let visited = n - unseen_count(seen);
    &&& graph.wf()
    &&& weights_fit(graph)
    &&& source < n
    &&& prev.len() == n
    &&& seen.len() == n
    &&& dists.len() == n
    &&& order.len() == n
    &&& dists[source as int] == 0
    &&& prev[source as int] is None
    &&& forall|v: int|
        0 <= v < n ==> ((#[trigger] prev[v]) matches Some(u) ==> {
            &&& u < n
            &&& seen[u as int]
            &&& graph.has_edge(u as int, v)
            &&& dists[v] < usize::MAX
            &&& (prev[u as int] is Some || u == source)
            &&& (seen[v] ==> order[u as int] < order[v])
        })
    &&& forall|v: int|
        0 <= v < n && (#[trigger] dists[v]) < usize::MAX ==> v == source || prev[v] is Some
    &&& forall|v: int|
        0 <= v < n && (#[trigger] dists[v]) < usize::MAX ==> dists[v] <= seen_weight(
            graph,
            seen,
            n as int,
        )
    &&& forall|v: int| 0 <= v < n && seen[v] ==> (#[trigger] order[v]) < visited
    &&& forall|v: int| 0 <= v < n && #[trigger] seen[v] ==> dists[v] < usize::MAX
}

/// From every visited node but `busy`, every edge leads to a node that was
/// visited or has a distance.
spec fn explored(
    graph: &WeightedAdjacencyList,
    seen: Seq<bool>,
    dists: Seq<usize>,
    busy: Option<usize>,
) -> bool {
    forall|u: int, k: int|
        0 <= u < seen.len() && seen[u] && busy != Some(u as usize) && 0 <= k
            < graph.list@[u]@.len() ==> {
            let to = (#[trigger] graph.list@[u]@[k]).to as int;
            seen[to] || dists[to] < usize::MAX
        }
}

/// The distances are those of ways: the distance of a node that was reached
/// from another is the distance of that one and the weight of the edge
/// `via` which it was reached; along no edge from a visited node but `busy`
/// the distance grows by more than the weight of the edge; and no visited
/// node is farther than one not visited.
spec fn measured(
    graph: &WeightedAdjacencyList,
    prev: Seq<Option<usize>>,
    seen: Seq<bool>,
    dists: Seq<usize>,
    via: Seq<int>,
    busy: Option<usize>,
) -> bool {
    let n = graph.list@.len();
    &&& via.len() == n
    &&& forall|v: int|
        0 <= v < n ==> ((#[trigger] prev[v]) matches Some(u) ==> {
            &&& 0 <= via[v] < graph.list@[u as int]@.len()
            &&& graph.list@[u as int]@[via[v]].to == v
            &&& dists[v] == dists[u as int] + graph.list@[u as int]@[via[v]].weight
        })
    &&& forall|u: int, k: int|
        0 <= u < n && seen[u] && busy != Some(u as usize) && 0 <= k < graph.list@[u]@.len() ==> {
            let edge = #[trigger] graph.list@[u]@[k];
            dists[edge.to as int] <= dists[u] + edge.weight
        }
    &&& forall|w: int, v: int|
        0 <= w < n && 0 <= v < n && #[trigger] seen[w] && !#[trigger] seen[v] ==> dists[w] <= dists[v]
}

/// Visiting a node that has a distance keeps the state of the search.
proof fn lemma_visited(
    graph: &WeightedAdjacencyList,
    source: usize,
    prev: Seq<Option<usize>>,
    seen: Seq<bool>,
    dists: Seq<usize>,
    order: Seq<nat>,
    curr: int,
)
    requires
        search_state(graph, source, prev, seen, dists, order),
        0 <= curr < seen.len(),
        !seen[curr],
        dists[curr] < usize::MAX,
    ensures
        unseen_count(seen.update(curr, true)) + 1 == unseen_count(seen),
        dists[curr] + row_weight(graph.list@[curr]@) <= seen_weight(
            graph,
            seen.update(curr, true),
            graph.list@.len() as int,
        ),
        seen_weight(graph, seen.update(curr, true), graph.list@.len() as int) < usize::MAX,
        search_state(
            graph,
            source,
            prev,
            seen.update(curr, true),
            dists,
            order.update(curr, (graph.list@.len() - unseen_count(seen)) as nat),
        ),
{
    let n = graph.list@.len() as int;
    let visited = n - unseen_count(seen);
    lemma_mark_seen(seen, curr);
    lemma_unseen_count_bound(seen);
    lemma_seen_weight_marked(graph, seen, curr, n);
    let seen2 = seen.update(curr, true);
    lemma_seen_weight_bound(graph, seen2, n);
    let order2 = order.update(curr, visited as nat);
    assert forall|v: int| 0 <= v < n implies ((#[trigger] prev[v]) matches Some(u) ==> {
        &&& u < n
        &&& seen2[u as int]
        &&& graph.has_edge(u as int, v)
        &&& dists[v] < usize::MAX
        &&& (prev[u as int] is Some || u == source)
        &&& (seen2[v] ==> order2[u as int] < order2[v])
    }) by {
        if prev[v] is Some {
            let u = prev[v]->0;
            assert(seen[u as int]);
            assert(order[u as int] < visited);
        }
    }
    assert forall|v: int| 0 <= v < n && seen2[v] implies (#[trigger] order2[v]) < visited + 1 by {
        if v != curr {
            assert(order[v] < visited);
        }
    }
    assert forall|v: int| 0 <= v < n && (#[trigger] dists[v]) < usize::MAX implies dists[v]
        <= seen_weight(graph, seen2, n) by {
        assert(dists[v] <= seen_weight(graph, seen, n));
    }
}

/// A shorter way to a node not visited yet keeps the state of the search.
proof fn lemma_relaxed(
    graph: &WeightedAdjacencyList,
    source: usize,
    prev: Seq<Option<usize>>,
    seen: Seq<bool>,
    dists: Seq<usize>,
    order: Seq<nat>,
    curr: usize,
    k: int,
    new_dist: usize,
)
    requires
        search_state(graph, source, prev, seen, dists, order),
        curr < seen.len(),
        seen[curr as int],
        dists[curr as int] < usize::MAX,
        0 <= k < graph.list@[curr as int]@.len(),
        !seen[graph.list@[curr as int]@[k].to as int],
        new_dist < dists[graph.list@[curr as int]@[k].to as int],
        new_dist <= seen_weight(graph, seen, graph.list@.len() as int),
    ensures
        search_state(
            graph,
            source,
            prev.update(graph.list@[curr as int]@[k].to as int, Some(curr)),
            seen,
            dists.update(graph.list@[curr as int]@[k].to as int, new_dist),
            order,
        ),
{
    let n = graph.list@.len() as int;
    let to = graph.list@[curr as int]@[k].to as int;
    let prev2 = prev.update(to, Some(curr));
    let dists2 = dists.update(to, new_dist);
    assert(graph.has_edge(curr as int, to));
    assert(curr == source || prev[curr as int] is Some);
    assert forall|v: int| 0 <= v < n implies ((#[trigger] prev2[v]) matches Some(u) ==> {
        &&& u < n
        &&& seen[u as int]
        &&& graph.has_edge(u as int, v)
        &&& dists2[v] < usize::MAX
        &&& (prev2[u as int] is Some || u == source)
        &&& (seen[v] ==> order[u as int] < order[v])
    }) by {
        if v != to && prev[v] is Some {
            let u = prev[v]->0;
            assert(seen[u as int]);
        }
    }
    assert forall|v: int| 0 <= v < n && (#[trigger] dists2[v]) < usize::MAX implies v == source
        || prev2[v] is Some by {
        if v != to {
            assert(dists[v] < usize::MAX);
        }
    }
    assert forall|v: int| 0 <= v < n && (#[trigger] dists2[v]) < usize::MAX implies dists2[v]
        <= seen_weight(graph, seen, n) by {
        if v != to {
            assert(dists[v] < usize::MAX);
        }
    }
}

/// Visiting a node leaves the edges of the other visited nodes explored.
proof fn lemma_visited_explored(
    graph: &WeightedAdjacencyList,
    seen: Seq<bool>,
    dists: Seq<usize>,
    curr: usize,
)
    requires
        graph.wf(),
        seen.len() == graph.list@.len(),
        explored(graph, seen, dists, None),
        curr < seen.len(),
    ensures
        explored(graph, seen.update(curr as int, true), dists, Some(curr)),
{
    let seen2 = seen.update(curr as int, true);
    assert forall|u: int, k: int|
        0 <= u < seen2.len() && seen2[u] && Some(curr) != Some(u as usize) && 0 <= k
            < graph.list@[u]@.len() implies ({
        let to = (#[trigger] graph.list@[u]@[k]).to as int;
        seen2[to] || dists[to] < usize::MAX
    }) by {
        assert(u != curr);
        assert(seen[u]);
        assert(None::<usize> != Some(u as usize));
        let to = graph.list@[u]@[k].to as int;
        assert(to < seen.len());
        assert(seen[to] || dists[to] < usize::MAX);
    }
}

/// A shorter way to a node leaves the edges of the visited nodes explored.
proof fn lemma_relaxed_explored(
    graph: &WeightedAdjacencyList,
    seen: Seq<bool>,
    dists: Seq<usize>,
    busy: Option<usize>,
    to: int,
    new_dist: usize,
)
    requires
        graph.wf(),
        seen.len() == graph.list@.len(),
        dists.len() == graph.list@.len(),
        explored(graph, seen, dists, busy),
        0 <= to < dists.len(),
        new_dist < usize::MAX,
    ensures
        explored(graph, seen, dists.update(to, new_dist), busy),
{
    let dists2 = dists.update(to, new_dist);
    assert forall|u: int, k: int|
        0 <= u < seen.len() && seen[u] && busy != Some(u as usize) && 0 <= k
            < graph.list@[u]@.len() implies ({
        let next = (#[trigger] graph.list@[u]@[k]).to as int;
        seen[next] || dists2[next] < usize::MAX
    }) by {
        let next = graph.list@[u]@[k].to as int;
        assert(next < dists.len());
        assert(seen[next] || dists[next] < usize::MAX);
    }
}

/// Visiting the nearest of the nodes not visited leaves the distances those
/// of ways, and no visited node is farther than it.
proof fn lemma_visited_measured(
    graph: &WeightedAdjacencyList,
    prev: Seq<Option<usize>>,
    seen: Seq<bool>,
    dists: Seq<usize>,
    via: Seq<int>,
    curr: usize,
)
    requires
        graph.wf(),
        seen.len() == graph.list@.len(),
        dists.len() == graph.list@.len(),
        prev.len() == graph.list@.len(),
        measured(graph, prev, seen, dists, via, None),
        curr < seen.len(),
        !seen[curr as int],
        forall|v: int| 0 <= v < seen.len() && !seen[v] ==> dists[curr as int] <= #[trigger] dists[v],
    ensures
        measured(graph, prev, seen.update(curr as int, true), dists, via, Some(curr)),
        forall|w: int|
            0 <= w < seen.len() && #[trigger] seen.update(curr as int, true)[w] ==> dists[w]
                <= dists[curr as int],
{
    let n = graph.list@.len() as int;
    let seen2 = seen.update(curr as int, true);
    assert forall|u: int, k: int|
        0 <= u < n && seen2[u] && Some(curr) != Some(u as usize) && 0 <= k
            < graph.list@[u]@.len() implies ({
        let edge = #[trigger] graph.list@[u]@[k];
        dists[edge.to as int] <= dists[u] + edge.weight
    }) by {
        assert(u != curr);
        assert(seen[u]);
        assert(None::<usize> != Some(u as usize));
    }
    assert forall|w: int, v: int|
        0 <= w < n && 0 <= v < n && #[trigger] seen2[w] && !#[trigger] seen2[v] implies dists[w]
        <= dists[v] by {
        assert(!seen[v]);
        if w != curr {
            assert(seen[w]);
        }
    }
    assert forall|w: int| 0 <= w < seen.len() && #[trigger] seen2[w] implies dists[w]
        <= dists[curr as int] by {
        if w != curr {
            assert(seen[w]);
            assert(!seen[curr as int]);
        }
    }
}

/// A shorter way to a node not visited yet leaves the distances those of
/// ways.
proof fn lemma_relaxed_measured(
    graph: &WeightedAdjacencyList,
    prev: Seq<Option<usize>>,
    seen: Seq<bool>,
    dists: Seq<usize>,
    via: Seq<int>,
    curr: usize,
    k: int,
    new_dist: usize,
)
    requires
        graph.wf(),
        seen.len() == graph.list@.len(),
        dists.len() == graph.list@.len(),
        prev.len() == graph.list@.len(),
        measured(graph, prev, seen, dists, via, Some(curr)),
        forall|v: int| 0 <= v < prev.len() ==> ((#[trigger] prev[v]) matches Some(u) ==> u
            < seen.len() && seen[u as int]),
        curr < seen.len(),
        seen[curr as int],
        0 <= k < graph.list@[curr as int]@.len(),
        !seen[graph.list@[curr as int]@[k].to as int],
        new_dist == dists[curr as int] + graph.list@[curr as int]@[k].weight,
        new_dist < dists[graph.list@[curr as int]@[k].to as int],
        forall|w: int| 0 <= w < seen.len() && #[trigger] seen[w] ==> dists[w] <= dists[curr as int],
    ensures
        measured(
            graph,
            prev.update(graph.list@[curr as int]@[k].to as int, Some(curr)),
            seen,
            dists.update(graph.list@[curr as int]@[k].to as int, new_dist),
            via.update(graph.list@[curr as int]@[k].to as int, k),
            Some(curr),
        ),
{
    let n = graph.list@.len() as int;
    let to = graph.list@[curr as int]@[k].to as int;
    let prev2 = prev.update(to, Some(curr));
    let dists2 = dists.update(to, new_dist);
    let via2 = via.update(to, k);
    assert forall|v: int| 0 <= v < n implies ((#[trigger] prev2[v]) matches Some(u) ==> {
        &&& 0 <= via2[v] < graph.list@[u as int]@.len()
        &&& graph.list@[u as int]@[via2[v]].to == v
        &&& dists2[v] == dists2[u as int] + graph.list@[u as int]@[via2[v]].weight
    }) by {
        if v != to && prev[v] is Some {
            let u = prev[v]->0;
            assert(seen[u as int]);
        }
    }
    assert forall|u: int, j: int|
        0 <= u < n && seen[u] && Some(curr) != Some(u as usize) && 0 <= j
            < graph.list@[u]@.len() implies ({
        let edge = #[trigger] graph.list@[u]@[j];
        dists2[edge.to as int] <= dists2[u] + edge.weight
    }) by {
        let edge = graph.list@[u]@[j];
        assert(edge.to < n);
        assert(dists[edge.to as int] <= dists[u] + edge.weight);
    }
    assert forall|w: int, v: int|
        0 <= w < n && 0 <= v < n && #[trigger] seen[w] && !#[trigger] seen[v] implies dists2[w]
        <= dists2[v] by {
        assert(dists[w] <= dists[v]);
        assert(dists[w] <= dists[curr as int]);
    }
}

/// The state in which the search starts.
proof fn lemma_search_starts(
    graph: &WeightedAdjacencyList,
    source: usize,
    prev: Seq<Option<usize>>,
    seen: Seq<bool>,
    dists: Seq<usize>,
    order: Seq<nat>,
)
    requires
        graph.wf(),
        weights_fit(graph),
        source < graph.list@.len(),
        prev.len() == graph.list@.len(),
        seen.len() == graph.list@.len(),
        dists.len() == graph.list@.len(),
        order.len() == graph.list@.len(),
        forall|v: int| 0 <= v < prev.len() ==> (#[trigger] prev[v]) is None,
        forall|v: int| 0 <= v < seen.len() ==> !(#[trigger] seen[v]),
        forall|v: int| 0 <= v < dists.len() && v != source ==> (#[trigger] dists[v]) == usize::MAX,
        dists[source as int] == 0,
    ensures
        search_state(graph, source, prev, seen, dists, order),
{
}

/// Once no node with a distance is left to visit, every node that was
/// reached from another was reached after it.
proof fn lemma_search_ends(
    graph: &WeightedAdjacencyList,
    source: usize,
    prev: Seq<Option<usize>>,
    seen: Seq<bool>,
    dists: Seq<usize>,
    order: Seq<nat>,
)
    requires
        search_state(graph, source, prev, seen, dists, order),
        forall|v: int| 0 <= v < seen.len() ==> seen[v] || #[trigger] dists[v] == usize::MAX,
    ensures
        reached_from(prev, |a: int, b: int| step_taken(graph, prev, a, b), order, source as int),
        prev[source as int] is None,
{
    let edge = |a: int, b: int| step_taken(graph, prev, a, b);
    assert forall|v: int| 0 <= v < prev.len() implies ((#[trigger] prev[v]) matches Some(u) ==> {
        &&& u < prev.len()
        &&& edge(u as int, v)
        &&& order[u as int] < order[v]
        &&& (prev[u as int] is Some || u == source)
    }) by {
        if prev[v] is Some {
            assert(dists[v] < usize::MAX);
        }
    }
}

/// The edges that the search took to the nodes of `path`, one for each step.
spec fn edges_taken(via: Seq<int>, path: Seq<usize>) -> Seq<int> {
    Seq::new((path.len() - 1) as nat, |i: int| via[path[i + 1] as int])
}

/// Along the steps that the search took, the weights add up to the distance
/// of the node that they come to.
proof fn lemma_traced_weight(
    graph: &WeightedAdjacencyList,
    prev: Seq<Option<usize>>,
    seen: Seq<bool>,
    dists: Seq<usize>,
    via: Seq<int>,
    path: Seq<usize>,
    upto: int,
)
    requires
        prev.len() == graph.list@.len(),
        measured(graph, prev, seen, dists, via, None),
        path.len() > 0,
        path[0] < dists.len(),
        dists[path[0] as int] == 0,
        forall|i: int|
            0 <= i < path.len() - 1 ==> step_taken(
                graph,
                prev,
                #[trigger] path[i] as int,
                path[i + 1] as int,
            ),
        0 <= upto < path.len(),
    ensures
        route_weight(graph, path, edges_taken(via, path), upto) == dists[path[upto] as int],
        forall|i: int|
            0 <= i < upto ==> {
                &&& (#[trigger] path[i]) < graph.list@.len()
                &&& 0 <= edges_taken(via, path)[i] < graph.list@[path[i] as int]@.len()
                &&& graph.list@[path[i] as int]@[edges_taken(via, path)[i]].to == path[i + 1]
            },
    decreases upto,
{
    if upto > 0 {
        lemma_traced_weight(graph, prev, seen, dists, via, path, upto - 1);
        assert(step_taken(graph, prev, path[upto - 1] as int, path[upto] as int));
        assert(prev[path[upto] as int] == Some(path[upto - 1]));
    }
}

/// Once the search has ended, every route from the source comes to visited
/// nodes only, and weighs as much as the distance of the node that it comes
/// to at least.
proof fn lemma_no_lighter_route(
    graph: &WeightedAdjacencyList,
    prev: Seq<Option<usize>>,
    seen: Seq<bool>,
    dists: Seq<usize>,
    via: Seq<int>,
    nodes: Seq<usize>,
    edges: Seq<int>,
    upto: int,
)
    requires
        graph.wf(),
        seen.len() == graph.list@.len(),
        dists.len() == graph.list@.len(),
        measured(graph, prev, seen, dists, via, None),
        explored(graph, seen, dists, None),
        forall|v: int| 0 <= v < seen.len() ==> seen[v] || #[trigger] dists[v] == usize::MAX,
        is_route(graph, nodes, edges),
        nodes[0] < seen.len(),
        seen[nodes[0] as int],
        dists[nodes[0] as int] == 0,
        0 <= upto < nodes.len(),
    ensures
        nodes[upto] < seen.len(),
        seen[nodes[upto] as int],
        dists[nodes[upto] as int] <= route_weight(graph, nodes, edges, upto),
    decreases upto,
{
    if upto > 0 {
        lemma_no_lighter_route(graph, prev, seen, dists, via, nodes, edges, upto - 1);
        let u = nodes[upto - 1] as int;
        let k = edges[upto - 1];
        assert(nodes[upto - 1] < graph.list@.len());
        let edge = graph.list@[u]@[k];
        assert(edge.to == nodes[upto]);
        assert(None::<usize> != Some(u as usize));
        assert(edge.to < seen.len());
        assert(seen[edge.to as int] || dists[edge.to as int] < usize::MAX);
        assert(dists[edge.to as int] <= dists[u] + edge.weight);
    }
}

/// The way of least weight from `source` to `destination`, found by visiting
/// the nodes in the order of their distance from `source`, where
/// `destination` is a node of the graph other than `source` and some way
/// leads there; nothing else.
pub fn dijkstra_list(source: usize, destination: usize, graph: WeightedAdjacencyList) -> (path:
    Vec<usize>)
    requires
        destination < graph.list@.len() ==> graph.wf() && weights_fit(&graph) && source
            < graph.list@.len(),
    ensures
        destination < graph.list@.len() && destination != source && graph.reachable(
            source as int,
            destination as int,
        ) ==> graph.is_path(path@, source as int, destination as int),
        destination >= graph.list@.len() || destination == source || !graph.reachable(
            source as int,
            destination as int,
        ) ==> path@.len() == 0,
        path@.len() > 0 ==> exists|taken: Seq<int>|
            {
                &&& #[trigger] is_route(&graph, path@, taken)
                &&& forall|nodes: Seq<usize>, edges: Seq<int>|
                    #[trigger] is_route(&graph, nodes, edges) && nodes[0] == source && nodes.last()
                        == destination ==> route_weight(&graph, path@, taken, taken.len() as int)
                        <= route_weight(&graph, nodes, edges, edges.len() as int)
            },
{
    if destination >= graph.list.len() {
        return vec![];
    }
    let n = graph.list.len();
    let mut seen = vec![false; n];
    let mut prev: Vec<Option<usize>> = vec![None; n];
    let mut dists = vec![usize::MAX; n];

    dists[source] = 0;
    let ghost mut order: Seq<nat> = Seq::new(n as nat, |i: int| 0nat);
    let ghost mut via: Seq<int> = Seq::new(n as nat, |i: int| 0int);
    proof {
        lemma_search_starts(&graph, source, prev@, seen@, dists@, order);
    }

    while has_unvisited(&seen, &dists)
        invariant
            n == graph.list@.len(),
            destination < n,
            search_state(&graph, source, prev@, seen@, dists@, order),
            explored(&graph, seen@, dists@, None),
            measured(&graph, prev@, seen@, dists@, via, None),
        decreases unseen_count(seen@),
    {
        let curr = get_lowest_unvisited(&seen, &dists).unwrap();
        let ghost visited = n - unseen_count(seen@);
        proof {
            lemma_visited(&graph, source, prev@, seen@, dists@, order, curr as int);
            lemma_visited_explored(&graph, seen@, dists@, curr);
            lemma_visited_measured(&graph, prev@, seen@, dists@, via, curr);
            order = order.update(curr as int, visited as nat);
        }
        seen[curr] = true;

        let mut k: usize = 0;
        while k < graph.list[curr].len()
            invariant
                n == graph.list@.len(),
                curr < n,
                k <= graph.list@[curr as int]@.len(),
                seen@[curr as int],
                dists@[curr as int] + row_weight(graph.list@[curr as int]@) <= seen_weight(
                    &graph,
                    seen@,
                    n as int,
                ),
                seen_weight(&graph, seen@, n as int) < usize::MAX,
                search_state(&graph, source, prev@, seen@, dists@, order),
                explored(&graph, seen@, dists@, Some(curr)),
                measured(&graph, prev@, seen@, dists@, via, Some(curr)),
                forall|w: int|
                    0 <= w < n && #[trigger] seen@[w] ==> dists@[w] <= dists@[curr as int],
                forall|j: int|
                    0 <= j < k ==> seen@[(#[trigger] graph.list@[curr as int]@[j]).to as int]
                        || dists@[graph.list@[curr as int]@[j].to as int] < usize::MAX,
                forall|j: int|
                    0 <= j < k ==> dists@[(#[trigger] graph.list@[curr as int]@[j]).to as int]
                        <= dists@[curr as int] + graph.list@[curr as int]@[j].weight,
            decreases graph.list@[curr as int]@.len() - k,
        {
            let to = graph.list[curr][k].to;
            let weight = graph.list[curr][k].weight;
            proof {
                lemma_edge_in_row(graph.list@[curr as int]@, k as int);
            }
            if !seen[to] {
                let new_dist = dists[curr] + weight;
                if new_dist < dists[to] {
                    proof {
                        lemma_relaxed(
                            &graph,
                            source,
                            prev@,
                            seen@,
                            dists@,
                            order,
                            curr,
                            k as int,
                            new_dist,
                        );
                        lemma_relaxed_explored(
                            &graph,
                            seen@,
                            dists@,
                            Some(curr),
                            to as int,
                            new_dist,
                        );
                        lemma_relaxed_measured(
                            &graph,
                            prev@,
                            seen@,
                            dists@,
                            via,
                            curr,
                            k as int,
                            new_dist,
                        );
                        via = via.update(to as int, k as int);
                    }
                    let ghost before = dists@;
                    dists[to] = new_dist;
                    prev[to] = Some(curr);
                    proof {
                        assert forall|j: int| 0 <= j < k implies seen@[(
                        #[trigger] graph.list@[curr as int]@[j]).to as int]
                            || dists@[graph.list@[curr as int]@[j].to as int] < usize::MAX by {
                            let next = graph.list@[curr as int]@[j].to as int;
                            assert(seen@[next] || before[next] < usize::MAX);
                        }
                        assert forall|j: int| 0 <= j < k implies dists@[(
                        #[trigger] graph.list@[curr as int]@[j]).to as int] <= dists@[curr as int]
                            + graph.list@[curr as int]@[j].weight by {
                            let next = graph.list@[curr as int]@[j].to as int;
                            assert(before[next] <= before[curr as int]
                                + graph.list@[curr as int]@[j].weight);
                        }
                        assert forall|w: int| 0 <= w < n && #[trigger] seen@[w] implies dists@[w]
                            <= dists@[curr as int] by {
                            assert(before[w] <= before[curr as int]);
                        }
                    }
                }
            }
            k += 1;
        }
        proof {
            assert forall|u: int, j: int|
                0 <= u < seen@.len() && seen@[u] && 0 <= j < graph.list@[u]@.len() implies ({
                let to = (#[trigger] graph.list@[u]@[j]).to as int;
                seen@[to] || dists@[to] < usize::MAX
            }) by {
                assert(seen@.len() == seen.len());
                if u != curr {
                    assert(Some(curr) != Some(u as usize));
                }
            }
            assert forall|u: int, j: int|
                0 <= u < n && seen@[u] && None::<usize> != Some(u as usize) && 0 <= j
                    < graph.list@[u]@.len() implies ({
                let edge = #[trigger] graph.list@[u]@[j];
                dists@[edge.to as int] <= dists@[u] + edge.weight
            }) by {
                assert(seen@.len() == seen.len());
                if u != curr {
                    assert(Some(curr) != Some(u as usize));
                }
            }
        }
    }

    proof {
        lemma_search_ends(&graph, source, prev@, seen@, dists@, order);
        let edge = |a: int, b: int| graph.has_edge(a, b);
        assert(closed_under(edge, seen@)) by {
            assert forall|u: int, w: int|
                0 <= u < seen@.len() && seen@[u] && #[trigger] edge(u, w) implies 0 <= w
                < seen@.len() && seen@[w] by {
                assert(graph.has_edge(u, w));
                let k = choose|k: int|
                    0 <= k < graph.list@[u]@.len() && (#[trigger] graph.list@[u]@[k]).to == w;
                assert(None::<usize> != Some(u as usize));
                assert(graph.list@[u]@[k].to < n);
                assert(seen@[w] || dists@[w] < usize::MAX);
            }
        }
        assert(seen@[source as int]);
        if !seen@[destination as int] {
            assert forall|way: Seq<usize>|
                !graph.is_path(way, source as int, destination as int) by {
                if graph.is_path(way, source as int, destination as int) {
                    lemma_closed_holds_walks(edge, seen@, way, way.len() - 1);
                }
            }
        } else {
            assert(dists@[destination as int] < usize::MAX);
        }
    }
    let path = trace_back(
        &prev,
        source,
        destination,
        Ghost(|a: int, b: int| step_taken(&graph, prev@, a, b)),
        Ghost(order),
    );
    proof {
        if prev@[destination as int] is Some {
            assert(graph.is_path(path@, source as int, destination as int));
            let taken = edges_taken(via, path@);
            lemma_traced_weight(&graph, prev@, seen@, dists@, via, path@, path@.len() - 1);
            assert(is_route(&graph, path@, taken));
            assert forall|nodes: Seq<usize>, edges: Seq<int>|
                #[trigger] is_route(&graph, nodes, edges) && nodes[0] == source && nodes.last()
                    == destination implies route_weight(&graph, path@, taken, taken.len() as int)
                <= route_weight(&graph, nodes, edges, edges.len() as int) by {
                lemma_no_lighter_route(
                    &graph,
                    prev@,
                    seen@,
                    dists@,
                    via,
                    nodes,
                    edges,
                    nodes.len() - 1,
                );
            }
        }
    }
    path
}

} // verus!
