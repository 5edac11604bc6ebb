use crate::paths::{
    closed_under, is_walk, lemma_closed_holds_walks, lemma_mark_seen, reached_from, trace_back,
    unseen_count,
};
use crate::queue::Queue;
use vstd::prelude::*;

verus! {

/// A graph: the row of a node holds, in the column of another, the weight
/// of the edge that leads there, if there is one.
#[derive(Clone, Debug)]
pub struct WeightedAdjacencyMatrix {
    pub matrix: Vec<Vec<Option<usize>>>,
}

impl WeightedAdjacencyMatrix {
    /// No row is longer than the matrix has rows: every column is a node.
    pub open spec fn wf(&self) -> bool {
        forall|from: int|
            0 <= from < self.matrix@.len() ==> (#[trigger] self.matrix@[from])@.len()
                <= self.matrix@.len()
    }

    /// An edge leads from `from` to `to`.
    pub open spec fn has_edge(&self, from: int, to: int) -> bool {
        &&& 0 <= from < self.matrix@.len()
        &&& 0 <= to < self.matrix@[from]@.len()
        &&& self.matrix@[from]@[to] is Some
    }

    /// `path` leads from `from` to `to` along edges of the graph.
    pub open spec fn is_path(&self, path: Seq<usize>, from: int, to: int) -> bool {
        is_walk(|a: int, b: int| self.has_edge(a, b), path, from, to)
    }

    /// Some way leads from `from` to `to` along edges of the graph.
    pub open spec fn reachable(&self, from: int, to: int) -> bool {
        exists|path: Seq<usize>| self.is_path(path, from, to)
    }
}

/// What the search keeps between two steps: the nodes that wait are marked,
/// and every node that was reached from another lies one step deeper than
/// that one.
spec fn search_state(
    graph: &WeightedAdjacencyMatrix,
    source: usize,
    prev: Seq<Option<usize>>,
    seen: Seq<bool>,
    waiting: Seq<usize>,
    depth: Seq<nat>,
) -> bool {
    let n = graph.matrix@.len();
    &&& graph.wf()
    &&& source < n
    &&& prev.len() == n
    &&& seen.len() == n
    &&& seen[source as int]
    &&& prev[source as int] is None
    &&& depth[source as int] == 0
    &&& reached_from(prev, |a: int, b: int| step_taken(graph, prev, a, b), depth, source as int)
    &&& forall|v: int|
        0 <= v < n ==> ((#[trigger] prev[v]) matches Some(u) ==> seen[v] && seen[u as int]
            && depth[v] == depth[u as int] + 1)
    &&& forall|v: int| 0 <= v < n && #[trigger] seen[v] ==> v == source || prev[v] is Some
    &&& forall|i: int|
        0 <= i < waiting.len() ==> {
            &&& (#[trigger] waiting[i]) < n
            &&& seen[waiting[i] as int]
        }
}

/// The search reached `b` from `a`, along an edge.
spec fn step_taken(
    graph: &WeightedAdjacencyMatrix,
    prev: Seq<Option<usize>>,
    a: int,
    b: int,
) -> bool {
    &&& graph.has_edge(a, b)
    &&& 0 <= b < prev.len()
    &&& prev[b] == Some(a as usize)
    &&& 0 <= a <= usize::MAX
}

/// From every marked node that neither waits nor is `busy`, every edge leads
/// to a marked node, which lies at most one step deeper.
spec fn explored(
    graph: &WeightedAdjacencyMatrix,
    seen: Seq<bool>,
    waiting: Seq<usize>,
    busy: Option<usize>,
    depth: Seq<nat>,
) -> bool {
    forall|u: int, w: int|
        0 <= u < seen.len() && seen[u] && !waiting.contains(u as usize) && busy != Some(u as usize) && #[trigger] graph.has_edge(u, w) ==> seen[w] && depth[w] <= depth[u] + 1
}

/// The nodes that wait stand in the order of their depth, none of them
/// above `level` and none more than one step below it, and no marked node
/// lies deeper than that.
spec fn levelled(depth: Seq<nat>, seen: Seq<bool>, waiting: Seq<usize>, level: nat) -> bool {
    &&& forall|j: int| 0 <= j < waiting.len() ==> level <= depth[(#[trigger] waiting[j]) as int] <= level + 1
    &&& forall|i: int, j: int|
        0 <= i <= j < waiting.len() ==> depth[(#[trigger] waiting[i]) as int] <= depth[(
        #[trigger] waiting[j]) as int]
    &&& forall|v: int| 0 <= v < seen.len() && #[trigger] seen[v] ==> depth[v] <= level + 1
}

/// Every way from the source comes, within as many steps as a node is deep,
/// to that node, unless it has come to a node that waits or is busy, all of
/// which lie at `bound` steps or deeper.
proof fn lemma_no_shorter_way(
    graph: &WeightedAdjacencyMatrix,
    seen: Seq<bool>,
    waiting: Seq<usize>,
    busy: Option<usize>,
    depth: Seq<nat>,
    bound: int,
    way: Seq<usize>,
    upto: int,
)
    requires
        graph.wf(),
        seen.len() == graph.matrix@.len(),
        explored(graph, seen, waiting, busy, depth),
        forall|q: usize| #[trigger] waiting.contains(q) && q < seen.len() ==> bound <= depth[q as int],
        busy matches Some(q) ==> q < seen.len() && bound <= depth[q as int],
        way.len() > 0,
        way[0] < seen.len(),
        seen[way[0] as int],
        depth[way[0] as int] == 0,
        forall|i: int|
            0 <= i < way.len() - 1 ==> graph.has_edge(#[trigger] way[i] as int, way[i + 1] as int),
        0 <= upto < way.len(),
    ensures
        bound <= upto || (way[upto] < seen.len() && seen[way[upto] as int] && depth[way[upto] as int]
            <= upto),
    decreases upto,
{
    if upto > 0 {
        lemma_no_shorter_way(graph, seen, waiting, busy, depth, bound, way, upto - 1);
        if bound > upto {
            let u = way[upto - 1];
            assert(graph.has_edge(u as int, way[upto] as int));
            assert(graph.matrix@[u as int]@.len() <= seen.len());
            if waiting.contains(u) {
                assert(bound <= depth[u as int]);
            } else if busy == Some(u) {
            } else {
                assert(seen[way[upto] as int] && depth[way[upto] as int] <= depth[u as int] + 1);
            }
        }
    }
}

/// Along the steps that the search took a node lies as deep as its place on
/// the way.
proof fn lemma_depth_along(
    graph: &WeightedAdjacencyMatrix,
    prev: Seq<Option<usize>>,
    depth: Seq<nat>,
    way: Seq<usize>,
    upto: int,
)
    requires
        way.len() > 0,
        way[0] < depth.len(),
        depth[way[0] as int] == 0,
        prev.len() == depth.len(),
        forall|v: int|
            0 <= v < prev.len() ==> ((#[trigger] prev[v]) matches Some(u) ==> u < prev.len()
                && depth[v] == depth[u as int] + 1),
        forall|i: int|
            0 <= i < way.len() - 1 ==> step_taken(
                graph,
                prev,
                #[trigger] way[i] as int,
                way[i + 1] as int,
            ),
        0 <= upto < way.len(),
    ensures
        way[upto] < depth.len(),
        depth[way[upto] as int] == upto,
    decreases upto,
{
    if upto > 0 {
        lemma_depth_along(graph, prev, depth, way, upto - 1);
        assert(step_taken(graph, prev, way[upto - 1] as int, way[upto] as int));
    }
}

/// A way of the fewest edges from `source` to `needle`, found breadth first,
/// where `needle` is a node of the graph other than `source` and some way
/// leads there; nothing else.
pub fn bfs(graph: WeightedAdjacencyMatrix, source: usize, needle: usize) -> (path: Vec<usize>)
    requires
        needle < graph.matrix@.len() ==> graph.wf() && source < graph.matrix@.len(),
    ensures
        needle < graph.matrix@.len() && needle != source && graph.reachable(
            source as int,
            needle as int,
        ) ==> graph.is_path(path@, source as int, needle as int),
        needle >= graph.matrix@.len() || needle == source || !graph.reachable(
            source as int,
            needle as int,
        ) ==> path@.len() == 0,
        forall|way: Seq<usize>|
            path@.len() > 0 && #[trigger] graph.is_path(way, source as int, needle as int)
                ==> path@.len() <= way.len(),
{
    if needle >= graph.matrix.len() {
        return vec![];
    }
    let n = graph.matrix.len();
    let mut prev: Vec<Option<usize>> = vec![None; n];
    let mut seen = vec![false; n];
    seen[source] = true;
    let mut queue = Queue::new();
    queue.enqueue(source);
    let ghost mut depth: Seq<nat> = Seq::new(n as nat, |i: int| 0nat);
    let ghost mut level: nat = 0;
    let ghost mut stopped: bool = false;
    proof {
        assert(queue@[0] == source);
        assert forall|u: usize| #[trigger] queue@.contains(u) implies u == source by {
            let at = queue@.index_of(u);
        }
        assert(queue@.contains(source));
    }

    while queue.lenght() > 0
        invariant_except_break
            explored(&graph, seen@, queue@, None, depth),
            !stopped,
        invariant
            queue.inv(),
            n == graph.matrix@.len(),
            needle < n,
            depth.len() == n,
            search_state(&graph, source, prev@, seen@, queue@, depth),
            levelled(depth, seen@, queue@, level),
        ensures
            stopped ==> seen@[needle as int] && depth[needle as int] == level && explored(
                &graph,
                seen@,
                queue@,
                Some(needle),
                depth,
            ),
            !stopped ==> queue@.len() == 0 && explored(&graph, seen@, queue@, None, depth),
        decreases 2 * unseen_count(seen@) + queue@.len(),
    {
        let ghost start = 2 * unseen_count(seen@) + queue@.len();
        let ghost waiting = queue@;
        let curr = queue.deque().unwrap();
        proof {
            assert(curr == waiting[0]);
            assert forall|i: int| 0 <= i < queue@.len() implies (#[trigger] queue@[i])
                == waiting[i + 1] by {}
            assert forall|u: usize| #[trigger] waiting.contains(u) <==> queue@.contains(u) || u
                == curr by {
                if queue@.contains(u) {
                    let at = queue@.index_of(u);
                    assert(waiting[at + 1] == u);
                }
                if waiting.contains(u) && u != curr {
                    let at = waiting.index_of(u);
                    assert(queue@[at - 1] == u);
                }
            }
            assert(explored(&graph, seen@, queue@, Some(curr), depth)) by {
                assert forall|u: int, w: int|
                    0 <= u < seen@.len() && seen@[u] && !queue@.contains(u as usize) && Some(curr)
                        != Some(u as usize) && #[trigger] graph.has_edge(u, w) implies seen@[w]
                    && depth[w] <= depth[u] + 1 by {
                    assert(seen@.len() == seen.len());
                    assert(!waiting.contains(u as usize));
                }
            }
            let deeper = depth[curr as int];
            assert(level <= deeper <= level + 1);
            assert forall|j: int| 0 <= j < queue@.len() implies deeper <= depth[(
            #[trigger] queue@[j]) as int] <= deeper + 1 by {
                assert(queue@[j] == waiting[j + 1]);
                assert(depth[waiting[0] as int] <= depth[waiting[j + 1] as int]);
            }
            assert forall|i: int, j: int| 0 <= i <= j < queue@.len() implies depth[(
            #[trigger] queue@[i]) as int] <= depth[(#[trigger] queue@[j]) as int] by {
                assert(queue@[i] == waiting[i + 1]);
                assert(queue@[j] == waiting[j + 1]);
            }
            level = deeper;
        }

        if curr == needle {
            proof {
                stopped = true;
            }
            break ;
        }
        let mut i: usize = 0;
        while i < graph.matrix[curr].len()
            invariant
                queue.inv(),
                n == graph.matrix@.len(),
                depth.len() == n,
                curr < n,
                !stopped,
                i <= graph.matrix@[curr as int]@.len(),
                seen@[curr as int],
                depth[curr as int] == level,
                search_state(&graph, source, prev@, seen@, queue@, depth),
                levelled(depth, seen@, queue@, level),
                explored(&graph, seen@, queue@, Some(curr), depth),
                forall|w: int| 0 <= w < i && graph.has_edge(curr as int, w) ==> #[trigger] seen@[w],
                2 * unseen_count(seen@) + queue@.len() < start,
            decreases graph.matrix@[curr as int]@.len() - i,
        {
            if graph.matrix[curr][i].is_some() {
                if !seen[i] {
                    let ghost before = queue@;
                    let ghost marks = seen@;
                    let ghost depths = depth;
                    let ghost reached = prev@;
                    proof {
                        lemma_mark_seen(seen@, i as int);
                    }
                    seen[i] = true;
                    prev[i] = Some(curr);
                    queue.enqueue(i);
                    proof {
                        depth = depth.update(i as int, level + 1);
                        assert(graph.has_edge(curr as int, i as int));
                        assert(queue@[before.len() as int] == i);
                        assert forall|k: int| 0 <= k < queue@.len() implies {
                            &&& (#[trigger] queue@[k]) < n
                            &&& seen@[queue@[k] as int]
                            &&& level <= depth[queue@[k] as int] <= level + 1
                        } by {
                            if k < before.len() {
                                assert(queue@[k] == before[k]);
                                assert(marks[before[k] as int]);
                            }
                        }
                        assert forall|a: int, b: int| 0 <= a <= b < queue@.len() implies depth[(
                        #[trigger] queue@[a]) as int] <= depth[(#[trigger] queue@[b]) as int] by {
                            if b < before.len() {
                                assert(queue@[a] == before[a]);
                                assert(queue@[b] == before[b]);
                                assert(marks[before[a] as int] && marks[before[b] as int]);
                            } else if a < before.len() {
                                assert(queue@[a] == before[a]);
                                assert(marks[before[a] as int]);
                            }
                        }
                        assert forall|u: usize| before.contains(u) implies #[trigger] queue@.contains(
                            u,
                        ) by {
                            let at = before.index_of(u);
                            assert(queue@[at] == u);
                        }
                        assert forall|u: int, w: int|
                            0 <= u < seen@.len() && seen@[u] && !queue@.contains(u as usize)
                                && Some(curr) != Some(u as usize) && #[trigger] graph.has_edge(u, w) implies seen@[w] && depth[w] <= depth[u] + 1 by {
                            assert(seen@.len() == seen.len());
                            assert(u != i);
                            assert(marks[u]);
                            assert(!before.contains(u as usize));
                            assert(marks[w]);
                        }
                        assert forall|v: int| 0 <= v < n implies ((#[trigger] prev@[v]) matches Some(u) ==> {
                            &&& u < n
                            &&& step_taken(&graph, prev@, u as int, v)
                            &&& depth[u as int] < depth[v]
                            &&& (prev@[u as int] is Some || u == source)
                            &&& seen@[v]
                            &&& seen@[u as int]
                            &&& depth[v] == depth[u as int] + 1
                        }) by {
                            if v != i && prev@[v] is Some {
                                let u = prev@[v]->0;
                                assert(reached[v] == Some(u));
                                assert(step_taken(&graph, reached, u as int, v));
                                assert(marks[u as int]);
                            }
                        }
                    }
                }
            }
            i += 1;
        }
        proof {
            assert forall|u: int, w: int|
                0 <= u < seen@.len() && seen@[u] && !queue@.contains(u as usize) && #[trigger] graph.has_edge(u, w) implies seen@[w] && depth[w] <= depth[u] + 1 by {
                assert(seen@.len() == seen.len());
                if u != curr {
                    assert(Some(curr) != Some(u as usize));
                } else {
                    assert(graph.matrix@[u]@.len() <= n);
                }
            }
        }
    }

    proof {
        let edge = |a: int, b: int| graph.has_edge(a, b);
        if !seen@[needle as int] {
            assert(closed_under(edge, seen@)) by {
                assert forall|u: int, w: int|
                    0 <= u < seen@.len() && seen@[u] && #[trigger] edge(u, w) implies 0 <= w
                    < seen@.len() && seen@[w] by {
                    assert(!queue@.contains(u as usize));
                    assert(graph.has_edge(u, w));
                    assert(graph.matrix@[u]@.len() <= n);
                }
            }
            assert forall|way: Seq<usize>| !graph.is_path(way, source as int, needle as int) by {
                if graph.is_path(way, source as int, needle as int) {
                    lemma_closed_holds_walks(edge, seen@, way, way.len() - 1);
                }
            }
        }
    }
    let path = trace_back(
        &prev,
        source,
        needle,
        Ghost(|a: int, b: int| step_taken(&graph, prev@, a, b)),
        Ghost(depth),
    );
    proof {
        if prev@[needle as int] is Some {
            assert(graph.is_path(path@, source as int, needle as int));
            lemma_depth_along(&graph, prev@, depth, path@, path@.len() - 1);
            assert forall|way: Seq<usize>| #[trigger]
                graph.is_path(way, source as int, needle as int) implies path@.len()
                <= way.len() by {
                let busy = if stopped { Some(needle) } else { None::<usize> };
                let bound = if stopped { level as int } else { way.len() as int };
                assert forall|q: usize| #[trigger] queue@.contains(q) && q < seen@.len() implies bound
                    <= depth[q as int] by {
                    let at = queue@.index_of(q);
                    assert(queue@[at] == q);
                }
                lemma_no_shorter_way(
                    &graph,
                    seen@,
                    queue@,
                    busy,
                    depth,
                    bound,
                    way,
                    way.len() - 1,
                );
            }
        }
    }
    path
}

} // verus!
