//! What the searches on graphs share: walks along edges, the count of the
//! nodes not seen yet, by which the searches end, and the way back from a
//! node along the node that each was reached from.
use vstd::prelude::*;

verus! {

/// `path` leads from `from` to `to`, each step along an edge.
pub open spec fn is_walk(edge: spec_fn(int, int) -> bool, path: Seq<usize>, from: int, to: int) -> bool {
    &&& path.len() > 0
    &&& path[0] == from
    &&& path.last() == to
    &&& forall|i: int| 0 <= i < path.len() - 1 ==> edge(#[trigger] path[i] as int, path[i + 1] as int)
}

/// From a marked node every edge leads to a marked node.
pub open spec fn closed_under(edge: spec_fn(int, int) -> bool, seen: Seq<bool>) -> bool {
    forall|u: int, w: int|
        0 <= u < seen.len() && seen[u] && #[trigger] edge(u, w) ==> 0 <= w < seen.len() && seen[w]
}

/// Where every edge from a marked node leads to a marked node, a walk from a
/// marked node comes to marked nodes only.
pub proof fn lemma_closed_holds_walks(
    edge: spec_fn(int, int) -> bool,
    seen: Seq<bool>,
    path: Seq<usize>,
    upto: int,
)
    requires
        closed_under(edge, seen),
        path.len() > 0,
        path[0] < seen.len(),
        seen[path[0] as int],
        forall|i: int| 0 <= i < path.len() - 1 ==> edge(#[trigger] path[i] as int, path[i + 1] as int),
        0 <= upto < path.len(),
    ensures
        path[upto] < seen.len(),
        seen[path[upto] as int],
    decreases upto,
{
    if upto > 0 {
        lemma_closed_holds_walks(edge, seen, path, upto - 1);
        assert(edge(path[upto - 1] as int, path[upto] as int));
    }
}

/// The number of nodes that are not marked in `seen`.
pub open spec fn unseen_count(seen: Seq<bool>) -> nat
    decreases seen.len(),
{
    if seen.len() == 0 {
        0
    } else {
        unseen_count(seen.drop_last()) + if seen.last() {
            0nat
        } else {
            1nat
        }
    }
}

/// Marking a node that was not marked lowers the count by one.
pub proof fn lemma_mark_seen(seen: Seq<bool>, at: int)
    requires
        0 <= at < seen.len(),
        !seen[at],
    ensures
        unseen_count(seen.update(at, true)) + 1 == unseen_count(seen),
    decreases seen.len(),
{
    if at == seen.len() - 1 {
        assert(seen.update(at, true).drop_last() =~= seen.drop_last());
    } else {
        lemma_mark_seen(seen.drop_last(), at);
        assert(seen.update(at, true).drop_last() =~= seen.drop_last().update(at, true));
    }
}

/// Where every mark stays, the count does not rise.
pub proof fn lemma_marks_stay(before: Seq<bool>, after: Seq<bool>)
    requires
        before.len() == after.len(),
        forall|i: int| 0 <= i < before.len() && before[i] ==> after[i],
    ensures
        unseen_count(after) <= unseen_count(before),
    decreases before.len(),
{
    if before.len() > 0 {
        lemma_marks_stay(before.drop_last(), after.drop_last());
    }
}

/// No more nodes are unmarked than there are nodes.
pub proof fn lemma_unseen_count_bound(seen: Seq<bool>)
    ensures
        unseen_count(seen) <= seen.len(),
    decreases seen.len(),
{
    if seen.len() > 0 {
        lemma_unseen_count_bound(seen.drop_last());
    }
}

/// The values of `v` from the last to the first.
pub fn reversed(v: Vec<usize>) -> (out: Vec<usize>)
    ensures
        out@ == v@.reverse(),
{
    let mut out = Vec::new();
    let mut i = v.len();
    while i > 0
        invariant
            i <= v@.len(),
            out@.len() == v@.len() - i,
            forall|k: int| 0 <= k < out@.len() ==> out@[k] == v@[v@.len() - 1 - k],
        decreases i,
    {
        i -= 1;
        out.push(v[i]);
    }
    assert(out@ =~= v@.reverse());
    out
}

/// Every node that was reached from another names a node of the graph from
/// which an edge leads to it, which was reached before it, and which is the
/// source or was reached from another itself.
pub open spec fn reached_from(
    prev: Seq<Option<usize>>,
    edge: spec_fn(int, int) -> bool,
    rank: Seq<nat>,
    source: int,
) -> bool {
    &&& rank.len() == prev.len()
    &&& forall|v: int|
        0 <= v < prev.len() ==> ((#[trigger] prev[v]) matches Some(u) ==> {
            &&& u < prev.len()
            &&& edge(u as int, v)
            &&& rank[u as int] < rank[v]
            &&& (prev[u as int] is Some || u == source)
        })
}

/// The way from `source` to `needle` along the nodes that each was reached
/// from; nothing where `needle` was not reached from another node.
pub(crate) fn trace_back(
    prev: &Vec<Option<usize>>,
    source: usize,
    needle: usize,
    Ghost(edge): Ghost<spec_fn(int, int) -> bool>,
    Ghost(rank): Ghost<Seq<nat>>,
) -> (path: Vec<usize>)
    requires
        needle < prev@.len(),
        reached_from(prev@, edge, rank, source as int),
    ensures
        prev@[needle as int] is None ==> path@.len() == 0,
        prev@[needle as int] is Some ==> is_walk(edge, path@, source as int, needle as int),
{
    if prev[needle].is_none() {
        return Vec::new();
    }
    let mut curr = needle;
    let mut out: Vec<usize> = Vec::new();

    while prev[curr].is_some()
        invariant
            curr < prev@.len(),
            reached_from(prev@, edge, rank, source as int),
            prev@[curr as int] is Some || curr == source,
            out@.len() == 0 ==> curr == needle,
            out@.len() > 0 ==> out@[0] == needle && edge(curr as int, out@.last() as int),
            forall|i: int|
                0 <= i < out@.len() - 1 ==> edge(out@[i + 1] as int, #[trigger] out@[i] as int),
        decreases rank[curr as int],
    {
        out.push(curr);
        curr = prev[curr].unwrap();
    }
    out.push(source);
    let ghost back = out@;
    let path = reversed(out);
    proof {
        assert forall|i: int| 0 <= i < path@.len() - 1 implies edge(
            #[trigger] path@[i] as int,
            path@[i + 1] as int,
        ) by {
            let k = back.len() - 2 - i;
            assert(path@[i] == back[k + 1]);
            assert(path@[i + 1] == back[k]);
            if k < back.len() - 2 {
                assert(edge(back[k + 1] as int, back[k] as int));
            }
        }
    }
    path
}

} // verus!
