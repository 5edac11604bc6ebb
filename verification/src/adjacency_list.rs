use crate::paths::{is_walk, lemma_mark_seen, lemma_marks_stay, unseen_count};
use vstd::prelude::*;

verus! {

/// An edge to the node `to`.
#[derive(Clone, Debug)]
pub struct GraphEdge {
    pub to: usize,
    pub weight: usize,
}

/// A graph: for each node the edges that leave it.
#[derive(Clone, Debug)]
pub struct WeightedAdjacencyList {
    pub list: Vec<Vec<GraphEdge>>,
}

impl WeightedAdjacencyList {
    /// Every edge leads to a node of the graph.
    pub open spec fn wf(&self) -> bool {
        forall|from: int, k: int|
            0 <= from < self.list@.len() && 0 <= k < self.list@[from]@.len() ==> (
            #[trigger] self.list@[from]@[k]).to < self.list@.len()
    }

    /// An edge leads from `from` to `to`.
    pub open spec fn has_edge(&self, from: int, to: int) -> bool {
        &&& 0 <= from < self.list@.len()
        &&& exists|k: int| 0 <= k < self.list@[from]@.len() && (#[trigger] self.list@[from]@[k]).to == to
    }

    /// `path` leads from `from` to `to` along edges of the graph.
    pub open spec fn is_path(&self, path: Seq<usize>, from: int, to: int) -> bool {
        is_walk(|a: int, b: int| self.has_edge(a, b), path, from, to)
    }

    /// Some way leads from `from` to `to` along edges of the graph.
    pub open spec fn reachable(&self, from: int, to: int) -> bool {
        exists|path: Seq<usize>| self.is_path(path, from, to)
    }
}

/// What the search from `curr` comes to, depth first, through the nodes not
/// marked in `seen`: whether it finds `needle`, the way from `curr` to it,
/// and the marks that it leaves. (The comparison of the counts always holds;
/// it shows that the search ends.)
pub open spec fn search_from(
    graph: &WeightedAdjacencyList,
    curr: int,
    needle: int,
    seen: Seq<bool>,
) -> (bool, Seq<usize>, Seq<bool>)
    decreases unseen_count(seen), 0int,
{
    if !(0 <= curr < seen.len()) || seen[curr] {
        (false, Seq::empty(), seen)
    } else {
        let marked = seen.update(curr, true);
        if curr == needle {
            (true, seq![curr as usize], marked)
        } else if unseen_count(marked) < unseen_count(seen) {
            let (found, way, after) = search_edges(graph, curr, 0, needle, marked);
            (
                found,
                if found {
                    seq![curr as usize] + way
                } else {
                    Seq::empty()
                },
                after,
            )
        } else {
            (false, Seq::empty(), marked)
        }
    }
}

/// What the search comes to along the edges of `curr`, taken in their order
/// from the edge at place `k` on, each only where the one before found
/// nothing.
pub open spec fn search_edges(
    graph: &WeightedAdjacencyList,
    curr: int,
    k: int,
    needle: int,
    seen: Seq<bool>,
) -> (bool, Seq<usize>, Seq<bool>)
    decreases unseen_count(seen), graph.list@[curr]@.len() - k + 1,
{
    if !(0 <= curr < graph.list@.len()) || k < 0 || k >= graph.list@[curr]@.len() {
        (false, Seq::empty(), seen)
    } else {
        let (found, way, after) = search_from(graph, graph.list@[curr]@[k].to as int, needle, seen);
        if found {
            (true, way, after)
        } else if unseen_count(after) <= unseen_count(seen) {
            search_edges(graph, curr, k + 1, needle, after)
        } else {
            (false, Seq::empty(), after)
        }
    }
}

/// No node that was seen is `needle`, and from a node that was seen and is
/// not on `stack` every edge leads to a node that was seen.
spec fn explored(
    graph: &WeightedAdjacencyList,
    seen: Seq<bool>,
    stack: Seq<usize>,
    needle: usize,
) -> bool {
    &&& forall|u: int| 0 <= u < seen.len() && #[trigger] seen[u] ==> u != needle
    &&& forall|u: int, k: int|
        0 <= u < seen.len() && seen[u] && !stack.contains(u as usize) && 0 <= k
            < graph.list@[u]@.len() ==> seen[(#[trigger] graph.list@[u]@[k]).to as int]
}

/// Where the search has explored all it can reach from a node, without a
/// node left on its stack, every way from that node stays among the nodes
/// that were seen.
proof fn lemma_explored_holds_ways(
    graph: &WeightedAdjacencyList,
    seen: Seq<bool>,
    needle: usize,
    path: Seq<usize>,
    upto: int,
)
    requires
        graph.wf(),
        seen.len() == graph.list@.len(),
        explored(graph, seen, Seq::empty(), needle),
        path.len() > 0,
        0 <= path[0] < seen.len(),
        seen[path[0] as int],
        forall|i: int|
            0 <= i < path.len() - 1 ==> graph.has_edge(#[trigger] path[i] as int, path[i + 1] as int),
        0 <= upto < path.len(),
    ensures
        path[upto] < seen.len(),
        seen[path[upto] as int],
    decreases upto,
{
    if upto > 0 {
        lemma_explored_holds_ways(graph, seen, needle, path, upto - 1);
        let from = path[upto - 1] as int;
        assert(graph.has_edge(from, path[upto] as int));
        let k = choose|k: int|
            0 <= k < graph.list@[from]@.len() && (#[trigger] graph.list@[from]@[k]).to == path[upto];
        assert(!Seq::<usize>::empty().contains(from as usize));
        assert(seen[graph.list@[from]@[k].to as int]);
    }
}

/// The marks are explored, and the stack holds marked nodes only, each once.
spec fn tidy(
    graph: &WeightedAdjacencyList,
    seen: Seq<bool>,
    stack: Seq<usize>,
    needle: usize,
) -> bool {
    &&& explored(graph, seen, stack, needle)
    &&& stack.no_duplicates()
    &&& forall|i: int| 0 <= i < stack.len() ==> (#[trigger] stack[i]) < seen.len() && seen[stack[i] as int]
}

/// The nodes on a stack onto which `top` was pushed are those that were on
/// it, and `top`.
proof fn lemma_stack_grown(stack: Seq<usize>, top: usize)
    ensures
        forall|u: usize| #[trigger] stack.push(top).contains(u) <==> stack.contains(u) || u == top,
{
    let grown = stack.push(top);
    assert forall|u: usize| #[trigger] grown.contains(u) <==> stack.contains(u) || u == top by {
        if stack.contains(u) {
            let at = stack.index_of(u);
            assert(grown[at] == u);
        }
        assert(grown[grown.len() - 1] == top);
    }
}

/// Putting a node that was not marked on the stack leaves the nodes of the
/// stack all different.
proof fn lemma_stack_stays_distinct(seen: Seq<bool>, stack: Seq<usize>, curr: usize)
    requires
        stack.no_duplicates(),
        forall|i: int| 0 <= i < stack.len() ==> (#[trigger] stack[i]) < seen.len() && seen[stack[i] as int],
        curr < seen.len(),
        !seen[curr as int],
    ensures
        stack.push(curr).no_duplicates(),
{
    let grown = stack.push(curr);
    assert forall|i: int, j: int|
        0 <= i < grown.len() && 0 <= j < grown.len() && i != j implies grown[i] != grown[j] by {
        if i < stack.len() {
            assert(seen[stack[i] as int]);
        }
        if j < stack.len() {
            assert(seen[stack[j] as int]);
        }
    }
}

/// Goes on from `curr`, depth first, through the nodes not seen yet. Where
/// that comes to `needle`, the way from `curr` to it stands behind what
/// `path` held; else `path` is as it was.
fn walk(
    graph: &WeightedAdjacencyList,
    curr: usize,
    needle: usize,
    seen: &mut Vec<bool>,
    path: &mut Vec<usize>,
) -> (found: bool)
    requires
        graph.wf(),
        curr < graph.list@.len(),
        old(seen)@.len() == graph.list@.len(),
    ensures
        tidy(graph, old(seen)@, old(path)@, needle) ==> {
            &&& !found ==> final(seen)@[curr as int] && tidy(
                graph,
                final(seen)@,
                final(path)@,
                needle,
            )
            &&& found ==> final(path)@.no_duplicates()
        },
        found == search_from(graph, curr as int, needle as int, old(seen)@).0,
        final(seen)@ == search_from(graph, curr as int, needle as int, old(seen)@).2,
        found ==> final(path)@ == old(path)@ + search_from(
            graph,
            curr as int,
            needle as int,
            old(seen)@,
        ).1,
        final(seen)@.len() == old(seen)@.len(),
        forall|i: int| 0 <= i < old(seen)@.len() && old(seen)@[i] ==> #[trigger] final(seen)@[i],
        !found ==> final(path)@ == old(path)@,
        found ==> final(path)@.len() > old(path)@.len() && final(path)@.subrange(
            0,
            old(path)@.len() as int,
        ) == old(path)@ && graph.is_path(
            final(path)@.skip(old(path)@.len() as int),
            curr as int,
            needle as int,
        ),
    decreases unseen_count(old(seen)@),
{
    if seen[curr] {
        return false;
    }
    let ghost neat = tidy(graph, old(seen)@, old(path)@, needle);
    proof {
        lemma_mark_seen(seen@, curr as int);
        if neat {
            lemma_stack_stays_distinct(old(seen)@, old(path)@, curr);
        }
    }
    seen[curr] = true;
    let ghost marked = seen@;

    path.push(curr);
    let ghost grown = path@;
    if curr == needle {
        proof {
            assert(path@.subrange(0, old(path)@.len() as int) =~= old(path)@);
            assert(path@.skip(old(path)@.len() as int) =~= seq![curr]);
            assert(path@ =~= old(path)@ + seq![curr]);
        }
        return true;
    }
    proof {
        if neat {
            lemma_stack_grown(old(path)@, curr);
            assert forall|i: int| 0 <= i < grown.len() implies (#[trigger] grown[i]) < marked.len()
                && marked[grown[i] as int] by {
                if i < old(path)@.len() {
                    assert(old(seen)@[old(path)@[i] as int]);
                }
            }
            assert forall|u: int, k: int|
                0 <= u < marked.len() && marked[u] && !grown.contains(u as usize) && 0 <= k
                    < graph.list@[u]@.len() implies marked[(#[trigger] graph.list@[u]@[k]).to as int] by {
                assert(seen@.len() == seen.len());
                assert(u != curr);
                assert(old(seen)@[u]);
                assert(!old(path)@.contains(u as usize));
                assert(old(seen)@[graph.list@[u]@[k].to as int]);
            }
        }
    }
    let mut k: usize = 0;
    while k < graph.list[curr].len()
        invariant
            k <= graph.list@[curr as int]@.len(),
            curr != needle,
            neat == tidy(graph, old(seen)@, old(path)@, needle),
            neat ==> tidy(graph, seen@, grown, needle),
            !old(seen)@[curr as int],
            search_edges(graph, curr as int, k as int, needle as int, seen@) == search_edges(
                graph,
                curr as int,
                0,
                needle as int,
                marked,
            ),
            neat ==> forall|j: int|
                0 <= j < k ==> seen@[(#[trigger] graph.list@[curr as int]@[j]).to as int],
            graph.wf(),
            curr < graph.list@.len(),
            seen@.len() == graph.list@.len(),
            old(seen)@.len() == graph.list@.len(),
            forall|i: int| 0 <= i < marked.len() && marked[i] ==> #[trigger] seen@[i],
            forall|i: int| 0 <= i < marked.len() && old(seen)@[i] ==> #[trigger] seen@[i],
            unseen_count(marked) < unseen_count(old(seen)@),
            marked.len() == seen@.len(),
            marked == old(seen)@.update(curr as int, true),
            path@ == grown,
            grown == old(path)@.push(curr),
        decreases graph.list@[curr as int]@.len() - k,
    {
        let to = graph.list[curr][k].to;
        let ghost before = seen@;
        proof {
            lemma_marks_stay(marked, seen@);
        }
        if walk(graph, to, needle, seen, path) {
            proof {
                let below = search_from(graph, to as int, needle as int, before);
                let along = search_edges(graph, curr as int, k as int, needle as int, before);
                assert(along == (true, below.1, below.2));
                let whole = search_from(graph, curr as int, needle as int, old(seen)@);
                assert(whole == (true, seq![curr] + below.1, below.2));
                assert(path@ =~= old(path)@ + (seq![curr] + below.1));
                let start = old(path)@.len() as int;
                let tail = path@.skip(grown.len() as int);
                let whole = path@.skip(start);
                assert(path@.subrange(0, start) =~= old(path)@) by {
                    assert(path@.subrange(0, grown.len() as int) == grown);
                    assert forall|i: int| 0 <= i < start implies path@[i] == old(path)@[i] by {
                        assert(path@.subrange(0, grown.len() as int)[i] == grown[i]);
                    }
                }
                assert(whole[0] == curr) by {
                    assert(path@.subrange(0, grown.len() as int)[start] == grown[start]);
                }
                assert(whole =~= seq![curr] + tail);
                assert(tail[0] == to);
                assert(graph.has_edge(curr as int, to as int));
                assert forall|i: int| 0 <= i < whole.len() - 1 implies graph.has_edge(
                    #[trigger] whole[i] as int,
                    whole[i + 1] as int,
                ) by {
                    if i > 0 {
                        assert(whole[i] == tail[i - 1]);
                        assert(whole[i + 1] == tail[i]);
                        assert(graph.has_edge(tail[i - 1] as int, tail[i] as int));
                    }
                }
            }
            return true;
        }
        proof {
            lemma_marks_stay(before, seen@);
        }
        k += 1;
    }
    path.pop();
    proof {
        let along = search_edges(graph, curr as int, k as int, needle as int, seen@);
        assert(along == (false, Seq::<usize>::empty(), seen@));
        let whole = search_from(graph, curr as int, needle as int, old(seen)@);
        assert(whole == (false, Seq::<usize>::empty(), seen@));
        assert(path@ =~= old(path)@);
        if neat {
            lemma_stack_grown(old(path)@, curr);
            assert forall|u: int, j: int|
                0 <= u < seen@.len() && seen@[u] && !path@.contains(u as usize) && 0 <= j
                    < graph.list@[u]@.len() implies seen@[(#[trigger] graph.list@[u]@[j]).to as int] by {
                assert(seen@.len() == seen.len());
                if u != curr {
                    assert(u as usize != curr);
                    assert(!grown.contains(u as usize));
                }
            }
            assert forall|i: int| 0 <= i < path@.len() implies (#[trigger] path@[i]) < seen@.len()
                && seen@[path@[i] as int] by {
                assert(grown[i] == path@[i]);
            }
        }
    }

    false
}

/// A way from `source` to `needle` along edges of the graph, found depth
/// first; nothing where no way leads there.
pub fn dfs(graph: WeightedAdjacencyList, source: usize, needle: usize) -> (path: Vec<usize>)
    requires
        graph.wf(),
        source < graph.list@.len(),
    ensures
        path@ == search_from(
            &graph,
            source as int,
            needle as int,
            Seq::new(graph.list@.len(), |i: int| false),
        ).1,
        graph.reachable(source as int, needle as int) ==> graph.is_path(
            path@,
            source as int,
            needle as int,
        ) && path@.no_duplicates(),
        !graph.reachable(source as int, needle as int) ==> path@.len() == 0,
{
    let mut seen = vec![false; graph.list.len()];
    let mut path = vec![];

    assert(tidy(&graph, seen@, path@, needle));
    assert(seen@ =~= Seq::new(graph.list@.len(), |i: int| false));
    let ghost unmarked = seen@;
    let found = walk(&graph, source, needle, &mut seen, &mut path);
    proof {
        if found {
            assert(path@.skip(0) =~= path@);
            assert(path@ =~= Seq::<usize>::empty() + search_from(
                &graph,
                source as int,
                needle as int,
                unmarked,
            ).1);
        } else {
            assert(path@ =~= Seq::empty());
            assert forall|way: Seq<usize>| !graph.is_path(way, source as int, needle as int) by {
                if graph.is_path(way, source as int, needle as int) {
                    lemma_explored_holds_ways(&graph, seen@, needle, way, way.len() - 1);
                }
            }
        }
    }

    path
}

} // verus!
