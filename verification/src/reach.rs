//! Reachability and bounded call trees: what a symbol triggers, following calls,
//! and who can trigger it, following callers.

use crate::graph::{CodeGraph, GraphModel, NodeKind};
use crate::ids::NodeId;
use crate::graph::lemma_neighbors;
use crate::seqs::{lemma_filter_has, lemma_push_has, tally};
use std::collections::HashSet;
use vstd::prelude::*;

verus! {

/// Which way to walk the calls.
#[derive(Debug, Clone, Copy, PartialEq, Eq, Structural)]
pub enum Direction {
    /// Follow calls outward: callees, then their callees.
    Callees,
    /// Follow calls inward: callers, then their callers.
    Callers,
}

/// The nodes one hop away, the latest recorded call first.
pub open spec fn neighbors(g: GraphModel, dir: Direction, id: NodeId) -> Seq<NodeId> {
    match dir {
        Direction::Callees => g.neighbors_out(id),
        Direction::Callers => g.neighbors_in(id),
    }
}

pub(crate) fn neighbors_of(graph: &CodeGraph, id: NodeId, dir: Direction) -> (r: Vec<NodeId>)
    requires
        graph.wf(),
    ensures
        r@ == neighbors(graph@, dir, id),
{
    match dir {
        Direction::Callees => graph.neighbors_out(id),
        Direction::Callers => graph.neighbors_in(id),
    }
}

/// A node and its distance in hops.
#[derive(Debug, Clone, Copy, PartialEq, Eq, Structural)]
pub struct Reached {
    pub id: NodeId,
    pub depth: u32,
}

// -- breadth-first spreading ------------------------------------------------

/// `seen` followed by those of `found` that are new, each once, in order.
pub open spec fn joined(seen: Seq<NodeId>, found: Seq<NodeId>) -> Seq<NodeId>
    decreases found.len(),
{
    if found.len() == 0 {
        seen
    } else {
        let front = joined(seen, found.drop_last());
        if front.contains(found.last()) {
            front
        } else {
            front.push(found.last())
        }
    }
}

/// `seen` followed by the new neighbors of the nodes of `layer`, in order. Nodes
/// that meet `stop` are not left.
pub open spec fn grown(
    g: GraphModel,
    dir: Direction,
    stop: Set<NodeId>,
    seen: Seq<NodeId>,
    layer: Seq<NodeId>,
) -> Seq<NodeId>
    decreases layer.len(),
{
    if layer.len() == 0 {
        seen
    } else {
        let front = grown(g, dir, stop, seen, layer.drop_last());
        if stop.contains(layer.last()) {
            front
        } else {
            joined(front, neighbors(g, dir, layer.last()))
        }
    }
}

/// The nodes within `k` hops of the roots in breadth-first order: the roots, then
/// layer after layer, each node once. Nodes in `stop` are reached but not left.
pub open spec fn spread(
    g: GraphModel,
    dir: Direction,
    stop: Set<NodeId>,
    roots: Seq<NodeId>,
    k: nat,
) -> Seq<NodeId>
    decreases k,
{
    if k == 0 {
        joined(Seq::empty(), roots)
    } else {
        let within = spread(g, dir, stop, roots, (k - 1) as nat);
        let inner: nat = if k == 1 {
            0
        } else {
            spread(g, dir, stop, roots, (k - 2) as nat).len()
        };
        grown(g, dir, stop, within, within.skip(inner as int))
    }
}

/// How many nodes are fewer than `k` hops away.
pub open spec fn inner_len(
    g: GraphModel,
    dir: Direction,
    stop: Set<NodeId>,
    roots: Seq<NodeId>,
    k: nat,
) -> nat {
    if k == 0 {
        0
    } else {
        spread(g, dir, stop, roots, (k - 1) as nat).len()
    }
}

/// The nodes first reached after exactly `k` hops, in order.
pub open spec fn layer(
    g: GraphModel,
    dir: Direction,
    stop: Set<NodeId>,
    roots: Seq<NodeId>,
    k: nat,
) -> Seq<NodeId> {
    spread(g, dir, stop, roots, k).skip(inner_len(g, dir, stop, roots, k) as int)
}

/// The layer of the `i`-th node within `k` hops.
pub open spec fn layer_of(
    g: GraphModel,
    dir: Direction,
    stop: Set<NodeId>,
    roots: Seq<NodeId>,
    k: nat,
    i: int,
) -> nat
    decreases k,
{
    if k == 0 || i >= inner_len(g, dir, stop, roots, k) {
        k
    } else {
        layer_of(g, dir, stop, roots, (k - 1) as nat, i)
    }
}

/// The nodes within `k` hops with their distances.
pub open spec fn spread_depths(
    g: GraphModel,
    dir: Direction,
    stop: Set<NodeId>,
    roots: Seq<NodeId>,
    k: nat,
) -> Seq<Reached> {
    let ids = spread(g, dir, stop, roots, k);
    Seq::new(
        ids.len(),
        |i: int| Reached { id: ids[i], depth: layer_of(g, dir, stop, roots, k, i) as u32 },
    )
}

/// `a` is where `b` starts.
pub open spec fn is_front(a: Seq<NodeId>, b: Seq<NodeId>) -> bool {
    a.len() <= b.len() && b.take(a.len() as int) == a
}

pub proof fn lemma_joined(seen: Seq<NodeId>, found: Seq<NodeId>)
    ensures
        is_front(seen, joined(seen, found)),
        seen.no_duplicates() ==> joined(seen, found).no_duplicates(),
        forall|x: NodeId| #[trigger]
            joined(seen, found).contains(x) <==> seen.contains(x) || found.contains(x),
    decreases found.len(),
{
    if found.len() == 0 {
        assert(seen.take(seen.len() as int) =~= seen);
    } else {
        let last = found.last();
        lemma_joined(seen, found.drop_last());
        let front = joined(seen, found.drop_last());
        let all = joined(seen, found);
        assert(all.take(seen.len() as int) =~= front.take(seen.len() as int));
        lemma_push_has(front, last);
        lemma_push_has(found.drop_last(), last);
        assert(found.drop_last().push(last) =~= found);
        if seen.no_duplicates() && !front.contains(last) {
            assert forall|i: int, j: int| 0 <= i < all.len() && 0 <= j < all.len() && i != j
                implies all[i] != all[j] by {
                if i == front.len() {
                    assert(front.contains(front[j]));
                } else if j == front.len() {
                    assert(front.contains(front[i]));
                }
            }
        }
    }
}

pub proof fn lemma_joined_len(seen: Seq<NodeId>, found: Seq<NodeId>)
    ensures
        joined(seen, found).len() <= seen.len() + found.len(),
    decreases found.len(),
{
    if found.len() > 0 {
        lemma_joined_len(seen, found.drop_last());
    }
}

/// `x` is one hop away from a node of `layer` that may be left.
pub open spec fn next_to(
    g: GraphModel,
    dir: Direction,
    stop: Set<NodeId>,
    nodes: Seq<NodeId>,
    x: NodeId,
) -> bool {
    exists|i: int|
        0 <= i < nodes.len() && !stop.contains(#[trigger] nodes[i]) && neighbors(
            g,
            dir,
            nodes[i],
        ).contains(x)
}

pub proof fn lemma_grown(
    g: GraphModel,
    dir: Direction,
    stop: Set<NodeId>,
    seen: Seq<NodeId>,
    nodes: Seq<NodeId>,
)
    ensures
        is_front(seen, grown(g, dir, stop, seen, nodes)),
        seen.no_duplicates() ==> grown(g, dir, stop, seen, nodes).no_duplicates(),
        forall|x: NodeId| #[trigger]
            grown(g, dir, stop, seen, nodes).contains(x) <==> seen.contains(x) || next_to(
                g,
                dir,
                stop,
                nodes,
                x,
            ),
    decreases nodes.len(),
{
    if nodes.len() == 0 {
        assert(seen.take(seen.len() as int) =~= seen);
    } else {
        let last = nodes.last();
        let rest = nodes.drop_last();
        lemma_grown(g, dir, stop, seen, rest);
        let front = grown(g, dir, stop, seen, rest);
        let all = grown(g, dir, stop, seen, nodes);
        lemma_joined(front, neighbors(g, dir, last));
        assert(all.take(seen.len() as int) =~= all.take(front.len() as int).take(
            seen.len() as int,
        )) by {
            if stop.contains(last) {
                assert(front.take(front.len() as int) =~= front);
            }
        }
        assert(front.take(front.len() as int) =~= front);
        assert forall|x: NodeId| next_to(g, dir, stop, nodes, x) <==> next_to(
            g,
            dir,
            stop,
            rest,
            x,
        ) || (!stop.contains(last) && neighbors(g, dir, last).contains(x)) by {
            if next_to(g, dir, stop, rest, x) {
                let i = choose|i: int|
                    0 <= i < rest.len() && !stop.contains(#[trigger] rest[i]) && neighbors(
                        g,
                        dir,
                        rest[i],
                    ).contains(x);
                assert(nodes[i] == rest[i]);
            }
            if !stop.contains(last) && neighbors(g, dir, last).contains(x) {
                assert(nodes[nodes.len() - 1] == last);
            }
            if next_to(g, dir, stop, nodes, x) {
                let i = choose|i: int|
                    0 <= i < nodes.len() && !stop.contains(#[trigger] nodes[i]) && neighbors(
                        g,
                        dir,
                        nodes[i],
                    ).contains(x);
                if i < rest.len() {
                    assert(rest[i] == nodes[i]);
                }
            }
        }
        assert forall|x: NodeId| #[trigger] all.contains(x) <==> seen.contains(x) || next_to(
            g,
            dir,
            stop,
            nodes,
            x,
        ) by {
            assert(front.contains(x) <==> seen.contains(x) || next_to(g, dir, stop, rest, x));
        }
    }
}

/// The spreading goes layer by layer: each step keeps what was reached, in order
/// and without repeats.
pub proof fn lemma_spread(
    g: GraphModel,
    dir: Direction,
    stop: Set<NodeId>,
    roots: Seq<NodeId>,
    k: nat,
)
    ensures
        spread(g, dir, stop, roots, k).no_duplicates(),
        inner_len(g, dir, stop, roots, k) <= spread(g, dir, stop, roots, k).len(),
        k > 0 ==> is_front(
            spread(g, dir, stop, roots, (k - 1) as nat),
            spread(g, dir, stop, roots, k),
        ),
        spread(g, dir, stop, roots, k + 1) == grown(
            g,
            dir,
            stop,
            spread(g, dir, stop, roots, k),
            layer(g, dir, stop, roots, k),
        ),
    decreases k,
{
    if k == 0 {
        lemma_joined(Seq::empty(), roots);
    } else {
        lemma_spread(g, dir, stop, roots, (k - 1) as nat);
        lemma_grown(
            g,
            dir,
            stop,
            spread(g, dir, stop, roots, (k - 1) as nat),
            layer(g, dir, stop, roots, (k - 1) as nat),
        );
    }
}

/// What is within `j` hops is within `k` hops, at the same place.
pub proof fn lemma_spread_monotone(
    g: GraphModel,
    dir: Direction,
    stop: Set<NodeId>,
    roots: Seq<NodeId>,
    j: nat,
    k: nat,
)
    requires
        j <= k,
    ensures
        is_front(spread(g, dir, stop, roots, j), spread(g, dir, stop, roots, k)),
    decreases k - j,
{
    let a = spread(g, dir, stop, roots, j);
    if j < k {
        lemma_spread_monotone(g, dir, stop, roots, j, (k - 1) as nat);
        lemma_spread(g, dir, stop, roots, k);
        let b = spread(g, dir, stop, roots, (k - 1) as nat);
        let c = spread(g, dir, stop, roots, k);
        assert(c.take(a.len() as int) =~= c.take(b.len() as int).take(a.len() as int));
    } else {
        assert(a.take(a.len() as int) =~= a);
    }
}

/// Once a layer is empty, nothing more is reached.
pub proof fn lemma_spread_settled(
    g: GraphModel,
    dir: Direction,
    stop: Set<NodeId>,
    roots: Seq<NodeId>,
    j: nat,
    k: nat,
)
    requires
        j <= k,
        layer(g, dir, stop, roots, j).len() == 0,
    ensures
        spread(g, dir, stop, roots, k) == spread(g, dir, stop, roots, j),
        layer(g, dir, stop, roots, k).len() == 0,
    decreases k - j,
{
    if j < k {
        lemma_spread_settled(g, dir, stop, roots, j, (k - 1) as nat);
        lemma_spread(g, dir, stop, roots, (k - 1) as nat);
        assert(spread(g, dir, stop, roots, k) == spread(g, dir, stop, roots, (k - 1) as nat));
    }
}

/// The distances do not change when the search goes on.
pub proof fn lemma_layer_of_settled(
    g: GraphModel,
    dir: Direction,
    stop: Set<NodeId>,
    roots: Seq<NodeId>,
    j: nat,
    k: nat,
    i: int,
)
    requires
        j <= k,
        0 <= i < spread(g, dir, stop, roots, j).len(),
    ensures
        layer_of(g, dir, stop, roots, k, i) == layer_of(g, dir, stop, roots, j, i),
        layer_of(g, dir, stop, roots, j, i) <= j,
    decreases k,
{
    if j < k {
        lemma_spread_monotone(g, dir, stop, roots, j, (k - 1) as nat);
        lemma_layer_of_settled(g, dir, stop, roots, j, (k - 1) as nat, i);
    } else if k > 0 && i < inner_len(g, dir, stop, roots, k) {
        lemma_layer_of_settled(g, dir, stop, roots, (k - 1) as nat, (k - 1) as nat, i);
    }
}

/// The ids of a list of reached nodes.
pub open spec fn reached_ids(r: Seq<Reached>) -> Seq<NodeId> {
    r.map_values(|x: Reached| x.id)
}

/// The nodes of `roots` that exist.
pub open spec fn known(g: GraphModel, roots: Seq<NodeId>) -> Seq<NodeId> {
    roots.filter(|r: NodeId| g.has(r))
}

/// Append the nodes of `found` that are new.
pub(crate) fn append_new(out: &mut Vec<Reached>, seen: &mut HashSet<u32>, found: &Vec<NodeId>, depth: u32)
    requires
        forall|x: NodeId| old(seen)@.contains(x.0) <==> reached_ids(old(out)@).contains(x),
    ensures
        forall|x: NodeId| final(seen)@.contains(x.0) <==> reached_ids(final(out)@).contains(x),
        reached_ids(final(out)@) == joined(reached_ids(old(out)@), found@),
        final(out)@.len() >= old(out)@.len(),
        forall|i: int| 0 <= i < old(out)@.len() ==> final(out)@[i] == old(out)@[i],
        forall|i: int|
            old(out)@.len() <= i < final(out)@.len() ==> (#[trigger] final(out)@[i]).depth == depth,
{
    broadcast use vstd::std_specs::hash::group_hash_axioms;

    let ghost start = out@;
    let mut i: usize = 0;
    assert(found@.take(0) =~= Seq::empty());
    while i < found.len()
        invariant
            i <= found@.len(),
            forall|x: NodeId| seen@.contains(x.0) <==> reached_ids(out@).contains(x),
            reached_ids(out@) == joined(reached_ids(start), found@.take(i as int)),
            out@.len() >= start.len(),
            forall|j: int| 0 <= j < start.len() ==> out@[j] == start[j],
            forall|j: int|
                start.len() <= j < out@.len() ==> (#[trigger] out@[j]).depth == depth,
        decreases found@.len() - i,
    {
        let v = found[i];
        let ghost before = out@;
        let ghost had = seen@;
        proof {
            assert(found@.take(i + 1).drop_last() =~= found@.take(i as int));
            assert(found@.take(i + 1).last() == v);
        }
        if seen.insert(v.0) {
            out.push(Reached { id: v, depth });
            proof {
                assert(reached_ids(out@) =~= reached_ids(before).push(v));
                lemma_push_has(reached_ids(before), v);
                assert forall|x: NodeId| seen@.contains(x.0) <==> reached_ids(out@).contains(x) by {
                    assert(seen@.contains(x.0) <==> had.contains(x.0) || x.0 == v.0);
                }
            }
        } else {
            assert(seen@ =~= had);
        }
        i += 1;
    }
    assert(found@.take(found@.len() as int) =~= found@);
}

/// Those of `roots` that are nodes of the graph.
fn known_roots(graph: &CodeGraph, roots: &Vec<NodeId>) -> (r: Vec<NodeId>)
    ensures
        r@ == known(graph@, roots@),
{
    let mut out: Vec<NodeId> = Vec::new();
    let mut i: usize = 0;
    proof {
        reveal(Seq::filter);
        assert(roots@.take(0) =~= Seq::empty());
    }
    while i < roots.len()
        invariant
            i <= roots@.len(),
            out@ == known(graph@, roots@.take(i as int)),
        decreases roots@.len() - i,
    {
        proof {
            reveal(Seq::filter);
            assert(roots@.take(i + 1).drop_last() =~= roots@.take(i as int));
            assert(roots@.take(i + 1).last() == roots@[i as int]);
        }
        if graph.try_node(roots[i]).is_some() {
            out.push(roots[i]);
        }
        i += 1;
    }
    assert(roots@.take(roots@.len() as int) =~= roots@);
    out
}

/// Every node within `max_depth` hops of the roots that exist, in breadth-first
/// order (the roots first, at depth zero). Each node appears once, at its
/// shortest distance.
pub fn reachable(graph: &CodeGraph, roots: &Vec<NodeId>, dir: Direction, max_depth: u32) -> (r: Vec<
    Reached,
>)
    requires
        graph.wf(),
    ensures
        r@ == spread_depths(graph@, dir, Set::empty(), known(graph@, roots@), max_depth as nat),
{
    let start = known_roots(graph, roots);
    flood(graph, &start, dir, max_depth)
}

/// Append the new neighbors of the nodes from `lo` on.
pub(crate) fn grow_layer(
    graph: &CodeGraph,
    out: &mut Vec<Reached>,
    seen: &mut HashSet<u32>,
    lo: usize,
    dir: Direction,
    stop: &HashSet<u32>,
    depth: u32,
)
    requires
        graph.wf(),
        lo <= old(out)@.len(),
        depth < u32::MAX,
        forall|x: NodeId| old(seen)@.contains(x.0) <==> reached_ids(old(out)@).contains(x),
    ensures
        forall|x: NodeId| final(seen)@.contains(x.0) <==> reached_ids(final(out)@).contains(x),
        reached_ids(final(out)@) == grown(
            graph@,
            dir,
            id_set(stop@),
            reached_ids(old(out)@),
            reached_ids(old(out)@).skip(lo as int),
        ),
        final(out)@.len() >= old(out)@.len(),
        forall|i: int| 0 <= i < old(out)@.len() ==> final(out)@[i] == old(out)@[i],
        forall|i: int|
            old(out)@.len() <= i < final(out)@.len() ==> (#[trigger] final(out)@[i]).depth == depth
                + 1,
{
    broadcast use vstd::std_specs::hash::group_hash_axioms;

    let ghost g = graph@;
    let ghost before = out@;
    let ghost edge = reached_ids(before).skip(lo as int);
    let hi: usize = out.len();
    let mut i: usize = lo;
    assert(edge.take(0) =~= Seq::empty());
    while i < hi
        invariant
            graph.wf(),
            g == graph@,
            depth < u32::MAX,
            lo <= i <= hi == before.len() <= out@.len(),
            edge == reached_ids(before).skip(lo as int),
            forall|x: NodeId| seen@.contains(x.0) <==> reached_ids(out@).contains(x),
            reached_ids(out@) == grown(
                g,
                dir,
                id_set(stop@),
                reached_ids(before),
                edge.take(i - lo),
            ),
            forall|j: int| 0 <= j < hi ==> out@[j] == before[j],
            forall|j: int| hi <= j < out@.len() ==> (#[trigger] out@[j]).depth == depth + 1,
        decreases hi - i,
    {
        let v = out[i].id;
        proof {
            assert(edge.take(i + 1 - lo).drop_last() =~= edge.take(i - lo));
            assert(edge.take(i + 1 - lo).last() == edge[i - lo]);
            assert(edge[i - lo] == before[i as int].id);
        }
        if !stop.contains(&v.0) {
            let near = neighbors_of(graph, v, dir);
            append_new(out, seen, &near, depth + 1);
        }
        i += 1;
    }
    assert(edge.take(hi - lo) =~= edge);
}

/// The nodes whose numbers are in `s`.
pub open spec fn id_set(s: Set<u32>) -> Set<NodeId> {
    Set::new(|x: NodeId| s.contains(x.0))
}

/// Every node within `max_depth` hops of `roots`, in breadth-first order.
fn flood(graph: &CodeGraph, roots: &Vec<NodeId>, dir: Direction, max_depth: u32) -> (r: Vec<Reached>)
    requires
        graph.wf(),
    ensures
        r@ == spread_depths(graph@, dir, Set::empty(), roots@, max_depth as nat),
{
    broadcast use vstd::std_specs::hash::group_hash_axioms;

    let ghost g = graph@;
    let ghost stop = Set::<NodeId>::empty();
    let nowhere: HashSet<u32> = HashSet::new();
    assert(id_set(nowhere@) =~= stop);
    let mut seen: HashSet<u32> = HashSet::new();
    let mut out: Vec<Reached> = Vec::new();
    assert(reached_ids(out@) =~= Seq::empty());
    append_new(&mut out, &mut seen, roots, 0);
    let mut depth: u32 = 0;
    let mut lo: usize = 0;
    while lo < out.len() && depth < max_depth
        invariant
            graph.wf(),
            g == graph@,
            stop == Set::<NodeId>::empty(),
            id_set(nowhere@) == stop,
            depth <= max_depth,
            lo == inner_len(g, dir, stop, roots@, depth as nat),
            lo <= out@.len(),
            forall|x: NodeId| seen@.contains(x.0) <==> reached_ids(out@).contains(x),
            out@ == spread_depths(g, dir, stop, roots@, depth as nat),
            reached_ids(out@) == spread(g, dir, stop, roots@, depth as nat),
        decreases max_depth - depth,
    {
        let hi: usize = out.len();
        let ghost before = out@;
        proof {
            lemma_spread(g, dir, stop, roots@, depth as nat);
        }
        grow_layer(graph, &mut out, &mut seen, lo, dir, &nowhere, depth);
        proof {
            lemma_grown_depths(g, dir, stop, roots@, depth as nat, before, out@);
        }
        lo = hi;
        depth += 1;
    }
    proof {
        let k = depth as nat;
        if lo >= out@.len() {
            lemma_depths_settled(g, dir, stop, roots@, k, max_depth as nat);
        }
    }
    out
}

/// One more layer, with its distance.
pub proof fn lemma_grown_depths(
    g: GraphModel,
    dir: Direction,
    stop: Set<NodeId>,
    roots: Seq<NodeId>,
    k: nat,
    before: Seq<Reached>,
    after: Seq<Reached>,
)
    requires
        k < u32::MAX,
        before == spread_depths(g, dir, stop, roots, k),
        reached_ids(after) == spread(g, dir, stop, roots, k + 1),
        before.len() <= after.len(),
        forall|i: int| 0 <= i < before.len() ==> after[i] == before[i],
        forall|i: int|
            before.len() <= i < after.len() ==> (#[trigger] after[i]).depth == k + 1,
    ensures
        after == spread_depths(g, dir, stop, roots, k + 1),
{
    let want = spread_depths(g, dir, stop, roots, k + 1);
    assert forall|i: int| 0 <= i < after.len() implies after[i] == want[i] by {
        assert(reached_ids(after)[i] == after[i].id);
        if i < before.len() {
            lemma_layer_of_settled(g, dir, stop, roots, k, k + 1, i);
            assert(after[i] == before[i]);
        } else {
            assert(inner_len(g, dir, stop, roots, k + 1) == before.len());
        }
    }
    assert(after =~= want);
}

/// Once a layer is empty, the list with its distances stays as it is.
pub proof fn lemma_depths_settled(
    g: GraphModel,
    dir: Direction,
    stop: Set<NodeId>,
    roots: Seq<NodeId>,
    j: nat,
    k: nat,
)
    requires
        j <= k,
        layer(g, dir, stop, roots, j).len() == 0,
    ensures
        spread_depths(g, dir, stop, roots, k) == spread_depths(g, dir, stop, roots, j),
{
    lemma_spread_settled(g, dir, stop, roots, j, k);
    let a = spread_depths(g, dir, stop, roots, j);
    let b = spread_depths(g, dir, stop, roots, k);
    assert forall|i: int| 0 <= i < a.len() implies a[i] == b[i] by {
        lemma_layer_of_settled(g, dir, stop, roots, j, k, i);
    }
    assert(a =~= b);
}

// -- walks --------------------------------------------------------------------

/// `p` goes from node to node along calls.
pub open spec fn is_walk(g: GraphModel, dir: Direction, p: Seq<NodeId>) -> bool {
    &&& p.len() > 0
    &&& forall|i: int|
        0 <= i < p.len() - 1 ==> neighbors(g, dir, #[trigger] p[i]).contains(p[i + 1])
}

/// `p` is a walk of at most `k` hops from one of `roots` to `v`.
pub open spec fn leads(
    g: GraphModel,
    dir: Direction,
    roots: Seq<NodeId>,
    k: nat,
    v: NodeId,
    p: Seq<NodeId>,
) -> bool {
    &&& is_walk(g, dir, p)
    &&& roots.contains(p[0])
    &&& p.last() == v
    &&& p.len() <= k + 1
}

/// What is reached and may be left has its neighbors one hop further.
pub proof fn lemma_spread_closed(
    g: GraphModel,
    dir: Direction,
    stop: Set<NodeId>,
    roots: Seq<NodeId>,
    k: nat,
    u: NodeId,
    v: NodeId,
)
    requires
        spread(g, dir, stop, roots, k).contains(u),
        !stop.contains(u),
        neighbors(g, dir, u).contains(v),
    ensures
        spread(g, dir, stop, roots, k + 1).contains(v),
    decreases k,
{
    let all = spread(g, dir, stop, roots, k);
    let edge = layer(g, dir, stop, roots, k);
    lemma_spread(g, dir, stop, roots, k);
    lemma_grown(g, dir, stop, all, edge);
    let i = all.index_of(u);
    let inner = inner_len(g, dir, stop, roots, k);
    if i >= inner {
        assert(edge[i - inner] == u);
        assert(next_to(g, dir, stop, edge, v));
    } else {
        let before = spread(g, dir, stop, roots, (k - 1) as nat);
        assert(all.take(before.len() as int)[i] == before[i]);
        assert(before.contains(u));
        lemma_spread_closed(g, dir, stop, roots, (k - 1) as nat, u, v);
        assert(all.contains(v));
    }
}

/// A node is reached within `k` hops exactly when a walk of at most `k` hops leads
/// to it from a root.
pub proof fn law_reached_by_walks(
    g: GraphModel,
    dir: Direction,
    roots: Seq<NodeId>,
    k: nat,
    v: NodeId,
)
    ensures
        spread(g, dir, Set::empty(), roots, k).contains(v) <==> exists|p: Seq<NodeId>|
            leads(g, dir, roots, k, v, p),
    decreases k,
{
    let stop = Set::<NodeId>::empty();
    if spread(g, dir, stop, roots, k).contains(v) {
        lemma_reached_has_walk(g, dir, stop, roots, k, v);
    }
    if exists|p: Seq<NodeId>| leads(g, dir, roots, k, v, p) {
        let p = choose|p: Seq<NodeId>| leads(g, dir, roots, k, v, p);
        lemma_walk_reaches(g, dir, stop, roots, k, p);
    }
}

/// What is reached has a walk that leaves no stopping node.
pub proof fn lemma_reached_has_walk(
    g: GraphModel,
    dir: Direction,
    stop: Set<NodeId>,
    roots: Seq<NodeId>,
    k: nat,
    v: NodeId,
)
    requires
        spread(g, dir, stop, roots, k).contains(v),
    ensures
        exists|p: Seq<NodeId>| leads(g, dir, roots, k, v, p),
    decreases k,
{
    if k == 0 {
        lemma_joined(Seq::empty(), roots);
        let p = seq![v];
        assert(leads(g, dir, roots, k, v, p));
    } else {
        let j = (k - 1) as nat;
        lemma_spread(g, dir, stop, roots, j);
        let before = spread(g, dir, stop, roots, j);
        let edge = layer(g, dir, stop, roots, j);
        lemma_grown(g, dir, stop, before, edge);
        if before.contains(v) {
            lemma_reached_has_walk(g, dir, stop, roots, j, v);
            let p = choose|p: Seq<NodeId>| leads(g, dir, roots, j, v, p);
            assert(leads(g, dir, roots, k, v, p));
        } else {
            let i = choose|i: int|
                0 <= i < edge.len() && !stop.contains(#[trigger] edge[i]) && neighbors(
                    g,
                    dir,
                    edge[i],
                ).contains(v);
            let u = edge[i];
            assert(before[i + inner_len(g, dir, stop, roots, j)] == u);
            assert(before.contains(u));
            lemma_reached_has_walk(g, dir, stop, roots, j, u);
            let q = choose|q: Seq<NodeId>| leads(g, dir, roots, j, u, q);
            let p = q.push(v);
            assert forall|i: int| 0 <= i < p.len() - 1 implies neighbors(
                g,
                dir,
                #[trigger] p[i],
            ).contains(p[i + 1]) by {
                if i < q.len() - 1 {
                    assert(p[i] == q[i]);
                }
            }
            assert(leads(g, dir, roots, k, v, p));
        }
    }
}

/// Where a walk leads without leaving a stopping node is reached.
pub proof fn lemma_walk_reaches(
    g: GraphModel,
    dir: Direction,
    stop: Set<NodeId>,
    roots: Seq<NodeId>,
    k: nat,
    p: Seq<NodeId>,
)
    requires
        is_walk(g, dir, p),
        roots.contains(p[0]),
        p.len() <= k + 1,
        forall|i: int| 0 <= i < p.len() - 1 ==> !stop.contains(#[trigger] p[i]),
    ensures
        spread(g, dir, stop, roots, k).contains(p.last()),
    decreases p.len(),
{
    if p.len() == 1 {
        lemma_joined(Seq::empty(), roots);
        lemma_spread_monotone(g, dir, stop, roots, 0, k);
        let a = spread(g, dir, stop, roots, 0);
        let b = spread(g, dir, stop, roots, k);
        assert(joined(Seq::empty(), roots).contains(p[0]));
        let i = a.index_of(p[0]);
        assert(b.take(a.len() as int)[i] == b[i]);
    } else {
        let q = p.drop_last();
        assert forall|i: int| 0 <= i < q.len() - 1 implies neighbors(
            g,
            dir,
            #[trigger] q[i],
        ).contains(q[i + 1]) by {
            assert(q[i] == p[i]);
        }
        assert forall|i: int| 0 <= i < q.len() - 1 implies !stop.contains(#[trigger] q[i]) by {
            assert(q[i] == p[i]);
        }
        lemma_walk_reaches(g, dir, stop, roots, (k - 1) as nat, q);
        let u = q.last();
        assert(u == p[p.len() - 2]);
        lemma_spread_closed(g, dir, stop, roots, (k - 1) as nat, u, p.last());
    }
}

/// The depth at which a node is listed is the length of the shortest walk to it:
/// a walk of so many hops exists, and none of fewer.
pub proof fn law_depth_is_shortest(
    g: GraphModel,
    dir: Direction,
    roots: Seq<NodeId>,
    max_depth: u32,
    i: int,
)
    requires
        0 <= i < spread_depths(g, dir, Set::empty(), roots, max_depth as nat).len(),
    ensures
        ({
            let r = spread_depths(g, dir, Set::empty(), roots, max_depth as nat)[i];
            &&& r.depth <= max_depth
            &&& exists|p: Seq<NodeId>| leads(g, dir, roots, r.depth as nat, r.id, p)
            &&& forall|p: Seq<NodeId>, k: nat|
                k < r.depth ==> !leads(g, dir, roots, k, r.id, p)
        }),
{
    let stop = Set::<NodeId>::empty();
    let k = max_depth as nat;
    let all = spread(g, dir, stop, roots, k);
    let d = layer_of(g, dir, stop, roots, k, i);
    lemma_layer_of(g, dir, stop, roots, k, i);
    lemma_spread_monotone(g, dir, stop, roots, d, k);
    let within = spread(g, dir, stop, roots, d);
    assert(all.take(within.len() as int)[i] == all[i]);
    assert(within[i] == all[i]);
    assert(within.contains(all[i]));
    lemma_reached_has_walk(g, dir, stop, roots, d, all[i]);
    let r = spread_depths(g, dir, stop, roots, k)[i];
    assert(r.id == all[i] && r.depth == d);
    assert forall|p: Seq<NodeId>, j: nat| j < d implies !leads(g, dir, roots, j, all[i], p) by {
        if leads(g, dir, roots, j, all[i], p) {
            lemma_walk_reaches(g, dir, stop, roots, (d - 1) as nat, p);
            let before = spread(g, dir, stop, roots, (d - 1) as nat);
            let m = before.index_of(all[i]);
            lemma_spread(g, dir, stop, roots, d);
            assert(within.take(before.len() as int)[m] == within[m]);
            assert(within[m] == within[i]);
            assert(m < inner_len(g, dir, stop, roots, d));
        }
    }
}

/// Where `layer_of` places a node: past what is nearer, within what is reached.
pub proof fn lemma_layer_of(
    g: GraphModel,
    dir: Direction,
    stop: Set<NodeId>,
    roots: Seq<NodeId>,
    k: nat,
    i: int,
)
    requires
        0 <= i < spread(g, dir, stop, roots, k).len(),
    ensures
        ({
            let d = layer_of(g, dir, stop, roots, k, i);
            &&& d <= k
            &&& inner_len(g, dir, stop, roots, d) <= i < spread(g, dir, stop, roots, d).len()
        }),
    decreases k,
{
    if k > 0 && i < inner_len(g, dir, stop, roots, k) {
        lemma_layer_of(g, dir, stop, roots, (k - 1) as nat, i);
    }
}

/// Every node is listed once.
pub proof fn law_each_node_listed_once(
    g: GraphModel,
    dir: Direction,
    roots: Seq<NodeId>,
    max_depth: u32,
)
    ensures
        reached_ids(
            spread_depths(g, dir, Set::empty(), roots, max_depth as nat),
        ).no_duplicates(),
{
    lemma_spread(g, dir, Set::empty(), roots, max_depth as nat);
}

/// What is reached from nodes of the graph are nodes of the graph.
pub proof fn lemma_spread_has(
    g: GraphModel,
    dir: Direction,
    stop: Set<NodeId>,
    roots: Seq<NodeId>,
    k: nat,
)
    requires
        g.wf(),
        forall|i: int| 0 <= i < roots.len() ==> g.has(#[trigger] roots[i]),
    ensures
        forall|i: int|
            0 <= i < spread(g, dir, stop, roots, k).len() ==> g.has(
                #[trigger] spread(g, dir, stop, roots, k)[i],
            ),
    decreases k,
{
    let all = spread(g, dir, stop, roots, k);
    if k == 0 {
        lemma_joined(Seq::empty(), roots);
        assert forall|i: int| 0 <= i < all.len() implies g.has(#[trigger] all[i]) by {
            assert(all.contains(all[i]));
            let m = roots.index_of(all[i]);
            assert(g.has(roots[m]));
        }
    } else {
        let j = (k - 1) as nat;
        lemma_spread_has(g, dir, stop, roots, j);
        lemma_spread(g, dir, stop, roots, j);
        lemma_neighbors(g);
        let before = spread(g, dir, stop, roots, j);
        let edge = layer(g, dir, stop, roots, j);
        lemma_grown(g, dir, stop, before, edge);
        assert(all == grown(g, dir, stop, before, edge));
        assert forall|i: int| 0 <= i < all.len() implies g.has(#[trigger] all[i]) by {
            assert(all.contains(all[i]));
            assert(before.contains(all[i]) || next_to(g, dir, stop, edge, all[i]));
            if before.contains(all[i]) {
                let m = before.index_of(all[i]);
                assert(g.has(before[m]));
            } else {
                let m = choose|m: int|
                    0 <= m < edge.len() && !stop.contains(#[trigger] edge[m]) && neighbors(
                        g,
                        dir,
                        edge[m],
                    ).contains(all[i]);
                match dir {
                    Direction::Callees => assert(g.calls(edge[m], all[i])),
                    Direction::Callers => assert(g.calls(all[i], edge[m])),
                }
            }
        }
    }
}

/// How many definitions other than `root` are reached from it.
pub open spec fn reach_total(g: GraphModel, root: NodeId, dir: Direction) -> nat {
    let ids = spread(g, dir, Set::empty(), known(g, seq![root]), u32::MAX as nat);
    tally(ids.len() as int, other_defs(g, ids, root))
}

/// Whether the `i`-th of `ids` is a definition other than `root`.
pub open spec fn other_defs(g: GraphModel, ids: Seq<NodeId>, root: NodeId) -> spec_fn(int) -> bool {
    |i: int| ids[i] != root && g.node(ids[i]).kind != NodeKind::External
}

/// How many definitions other than `root` itself are reached from it: for an entry
/// point, how much of the code it drives; for a leaf, none.
pub fn reach_count(graph: &CodeGraph, root: NodeId, dir: Direction) -> (r: usize)
    requires
        graph.wf(),
    ensures
        r == reach_total(graph@, root, dir),
{
    let mut roots: Vec<NodeId> = Vec::new();
    roots.push(root);
    assert(roots@ =~= seq![root]);
    let all = reachable(graph, &roots, dir, u32::MAX);
    let ghost g = graph@;
    let ghost ids = spread(g, dir, Set::empty(), known(g, seq![root]), u32::MAX as nat);
    let ghost counted = other_defs(g, ids, root);
    proof {
        graph.lemma_wf();
        lemma_filter_has(seq![root], |r: NodeId| g.has(r));
        let start = known(g, seq![root]);
        assert forall|i: int| 0 <= i < start.len() implies g.has(#[trigger] start[i]) by {
            assert(start.contains(start[i]));
        }
        lemma_spread_has(g, dir, Set::empty(), start, u32::MAX as nat);
    }
    let mut total: usize = 0;
    let mut i: usize = 0;
    while i < all.len()
        invariant
            i <= all@.len() == ids.len(),
            g == graph@,
            counted == other_defs(g, ids, root),
            forall|j: int| 0 <= j < all@.len() ==> (#[trigger] all@[j]).id == ids[j],
            forall|j: int| 0 <= j < ids.len() ==> g.has(#[trigger] ids[j]),
            total == tally(i as int, counted),
            total <= i,
        decreases all@.len() - i,
    {
        let id = all[i].id;
        assert(id == ids[i as int]);
        if id != root && graph.node(id).kind != NodeKind::External {
            total += 1;
        }
        i += 1;
    }
    total
}

/// The ids without repeats, each at its first place.
pub fn distinct(ids: &Vec<NodeId>) -> (r: Vec<NodeId>)
    ensures
        r@ == joined(Seq::empty(), ids@),
{
    broadcast use vstd::std_specs::hash::group_hash_axioms;

    let mut seen: HashSet<u32> = HashSet::new();
    let mut out: Vec<NodeId> = Vec::new();
    let mut i: usize = 0;
    assert(ids@.take(0) =~= Seq::empty());
    while i < ids.len()
        invariant
            i <= ids@.len(),
            forall|x: NodeId| seen@.contains(x.0) <==> out@.contains(x),
            out@ == joined(Seq::empty(), ids@.take(i as int)),
        decreases ids@.len() - i,
    {
        let v = ids[i];
        let ghost before = out@;
        let ghost had = seen@;
        proof {
            assert(ids@.take(i + 1).drop_last() =~= ids@.take(i as int));
            assert(ids@.take(i + 1).last() == v);
            lemma_push_has(before, v);
        }
        if seen.insert(v.0) {
            out.push(v);
            assert forall|x: NodeId| seen@.contains(x.0) <==> out@.contains(x) by {
                assert(seen@.contains(x.0) <==> had.contains(x.0) || x.0 == v.0);
            }
        } else {
            assert(seen@ =~= had);
        }
        i += 1;
    }
    assert(ids@.take(ids@.len() as int) =~= ids@);
    out
}

} // verus!
