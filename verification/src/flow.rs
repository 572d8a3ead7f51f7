//! Flow tracing: the shortest call paths from an entry point to a target.
//!
//! Every call costs one hop. The search goes layer by layer and stops at the
//! first layer that holds a target; the paths of that length are then listed
//! backwards from the target.

use crate::graph::{CodeGraph, GraphModel};
use crate::ids::NodeId;
use crate::reach::{
    append_new, grow_layer, id_set, inner_len, is_walk, joined, layer, lemma_grown,
    lemma_grown_depths, lemma_joined, lemma_layer_of, lemma_layer_of_settled, lemma_spread,
    lemma_spread_closed,
    lemma_spread_monotone, lemma_spread_settled, lemma_walk_reaches, neighbors, next_to,
    reached_ids, spread, spread_depths, Direction, Reached,
};
use crate::seqs::{lemma_push_has, views_of};
use crate::trace::{flow_known, law_found_flow_can_be_shown};
use std::collections::{HashMap, HashSet};
use vstd::prelude::*;

verus! {

/// The shortest paths from `source` to `target`.
#[derive(Debug)]
pub struct FlowPaths {
    pub source: NodeId,
    pub target: NodeId,
    /// Equally short paths, each from `source` to `target` inclusive.
    pub paths: Vec<Vec<NodeId>>,
    /// Distance in hops from `source`, by node number, of every node that the search
    /// from there touched.
    pub depth: HashMap<u32, u32>,
}

impl FlowPaths {
    /// Number of hops of the traced paths.
    pub fn hops(&self) -> (r: usize)
        ensures
            r == if self.paths@.len() > 0 && self.paths@[0]@.len() > 0 {
                self.paths@[0]@.len() - 1
            } else {
                0
            },
    {
        if self.paths.len() > 0 {
            let n: usize = self.paths[0].len();
            if n > 0 {
                n - 1
            } else {
                0
            }
        } else {
            0
        }
    }
}

// -- what is traced -----------------------------------------------------------

/// The layer of nodes `k` hops from the sources, when targets are not left.
pub open spec fn flow_layer(
    g: GraphModel,
    sources: Seq<NodeId>,
    targets: Seq<NodeId>,
    k: nat,
) -> Seq<NodeId> {
    layer(g, Direction::Callees, targets.to_set(), sources, k)
}

/// The position of the first target in `nodes`, at or after `i`.
pub open spec fn target_from(nodes: Seq<NodeId>, targets: Seq<NodeId>, i: int) -> Option<int>
    decreases nodes.len() - i,
{
    if i < 0 || i >= nodes.len() {
        None
    } else if targets.contains(nodes[i]) {
        Some(i)
    } else {
        target_from(nodes, targets, i + 1)
    }
}

/// The number of hops to the nearest target: the first layer from `k` to `max`
/// that holds one.
pub open spec fn nearest_from(
    g: GraphModel,
    sources: Seq<NodeId>,
    targets: Seq<NodeId>,
    k: nat,
    max: nat,
) -> Option<nat>
    decreases max + 1 - k,
{
    if k > max {
        None
    } else if target_from(flow_layer(g, sources, targets, k), targets, 0) is Some {
        Some(k)
    } else {
        nearest_from(g, sources, targets, k + 1, max)
    }
}

/// The number of hops to the nearest target, at most `max`.
pub open spec fn nearest(
    g: GraphModel,
    sources: Seq<NodeId>,
    targets: Seq<NodeId>,
    max: nat,
) -> Option<nat> {
    nearest_from(g, sources, targets, 0, max)
}

/// The first target in the layer `d`.
pub open spec fn target_at(
    g: GraphModel,
    sources: Seq<NodeId>,
    targets: Seq<NodeId>,
    d: nat,
) -> NodeId {
    let nodes = flow_layer(g, sources, targets, d);
    nodes[target_from(nodes, targets, 0)->0]
}

/// `v` put at the end of each path.
pub open spec fn extended(paths: Seq<Seq<NodeId>>, v: NodeId) -> Seq<Seq<NodeId>> {
    paths.map_values(|p: Seq<NodeId>| p.push(v))
}

/// The paths of `k` hops from the sources to `v`, layer by layer.
pub open spec fn routes(
    g: GraphModel,
    sources: Seq<NodeId>,
    targets: Seq<NodeId>,
    v: NodeId,
    k: nat,
) -> Seq<Seq<NodeId>>
    decreases k, 1nat, 0nat,
{
    if k == 0 {
        seq![seq![v]]
    } else {
        let before = flow_layer(g, sources, targets, (k - 1) as nat);
        routes_via(g, sources, targets, before, v, k)
    }
}

/// The paths of `k` hops to `v` whose last call comes from one of `callers`, in
/// the order of the callers.
pub open spec fn routes_via(
    g: GraphModel,
    sources: Seq<NodeId>,
    targets: Seq<NodeId>,
    callers: Seq<NodeId>,
    v: NodeId,
    k: nat,
) -> Seq<Seq<NodeId>>
    decreases k, 0nat, callers.len(),
{
    if k == 0 || callers.len() == 0 {
        Seq::empty()
    } else {
        let front = routes_via(g, sources, targets, callers.drop_last(), v, k);
        let u = callers.last();
        if g.neighbors_out(u).contains(v) {
            front + extended(routes(g, sources, targets, u, (k - 1) as nat), v)
        } else {
            front
        }
    }
}

/// The first `n` items, or all where there are fewer.
pub open spec fn upto<T>(s: Seq<T>, n: int) -> Seq<T> {
    if s.len() <= n {
        s
    } else {
        s.take(n)
    }
}

/// At least one path is listed.
pub open spec fn path_limit(max_paths: usize) -> int {
    if max_paths == 0 {
        1
    } else {
        max_paths as int
    }
}

/// Distances by node number.
pub open spec fn depth_map(r: Seq<Reached>) -> Map<u32, u32>
    decreases r.len(),
{
    if r.len() == 0 {
        Map::empty()
    } else {
        depth_map(r.drop_last()).insert(r.last().id.0, r.last().depth)
    }
}

/// What the search has touched when it finds a target after `d` hops: the layers
/// up to there, and one more where the limit allows.
pub open spec fn touched(
    g: GraphModel,
    sources: Seq<NodeId>,
    targets: Seq<NodeId>,
    d: nat,
    max: nat,
) -> Seq<Reached> {
    let k = if d < max {
        d + 1
    } else {
        d
    };
    spread_depths(g, Direction::Callees, targets.to_set(), sources, k)
}

/// Where the flow starts: the source from which the first path to the nearest target
/// comes.
pub open spec fn source_at(
    g: GraphModel,
    sources: Seq<NodeId>,
    targets: Seq<NodeId>,
    d: nat,
) -> NodeId {
    routes(g, sources, targets, target_at(g, sources, targets, d), d)[0][0]
}

/// `f` answers the question for the shortest paths: it names the source and the target
/// that are the fewest hops apart, the paths from the one to the other, and the
/// distances from that source.
pub open spec fn answers(
    f: FlowPaths,
    g: GraphModel,
    sources: Seq<NodeId>,
    targets: Seq<NodeId>,
    max_paths: usize,
    max: nat,
    d: nat,
) -> bool {
    let source = source_at(g, sources, targets, d);
    let target = target_at(g, sources, targets, d);
    &&& f.source == source
    &&& f.target == target
    &&& views_of(f.paths@) == upto(
        routes(g, seq![source], targets, target, d),
        path_limit(max_paths),
    )
    &&& f.depth@ == depth_map(touched(g, seq![source], targets, d, max))
}

// -- laws -----------------------------------------------------------------------

pub proof fn lemma_target_from(nodes: Seq<NodeId>, targets: Seq<NodeId>, i: int)
    requires
        0 <= i,
    ensures
        match target_from(nodes, targets, i) {
            Some(k) => i <= k < nodes.len() && targets.contains(nodes[k]),
            None => forall|k: int| i <= k < nodes.len() ==> !targets.contains(#[trigger] nodes[k]),
        },
    decreases nodes.len() - i,
{
    if i < nodes.len() && !targets.contains(nodes[i]) {
        lemma_target_from(nodes, targets, i + 1);
    }
}

pub proof fn lemma_nearest_from(
    g: GraphModel,
    sources: Seq<NodeId>,
    targets: Seq<NodeId>,
    k: nat,
    max: nat,
)
    ensures
        match nearest_from(g, sources, targets, k, max) {
            Some(d) => {
                &&& k <= d <= max
                &&& target_from(flow_layer(g, sources, targets, d), targets, 0) is Some
                &&& forall|j: nat|
                    k <= j < d ==> target_from(
                        #[trigger] flow_layer(g, sources, targets, j),
                        targets,
                        0,
                    ) is None
            },
            None => forall|j: nat|
                k <= j <= max ==> target_from(
                    #[trigger] flow_layer(g, sources, targets, j),
                    targets,
                    0,
                ) is None,
        },
    decreases max + 1 - k,
{
    if k <= max && target_from(flow_layer(g, sources, targets, k), targets, 0) is None {
        lemma_nearest_from(g, sources, targets, k + 1, max);
    }
}

/// No walk from a source to a target is shorter than the distance found; where
/// none is found, no walk within the limit leads to a target.
pub proof fn law_no_shorter_path(
    g: GraphModel,
    sources: Seq<NodeId>,
    targets: Seq<NodeId>,
    max: nat,
    p: Seq<NodeId>,
)
    requires
        is_walk(g, Direction::Callees, p),
        sources.contains(p[0]),
        targets.contains(p.last()),
        p.len() <= max + 1,
    ensures
        nearest(g, sources, targets, max) is Some,
        nearest(g, sources, targets, max)->0 < p.len(),
{
    let dir = Direction::Callees;
    let stop = targets.to_set();
    lemma_target_from(p, targets, 0);
    let m = target_from(p, targets, 0)->0;
    assert(target_from(p, targets, 0) is Some) by {
        assert(targets.contains(p[p.len() - 1]));
    }
    lemma_first_target(p, targets, 0);
    let q = p.take(m + 1);
    assert forall|i: int| 0 <= i < q.len() - 1 implies neighbors(g, dir, #[trigger] q[i]).contains(
        q[i + 1],
    ) by {
        assert(q[i] == p[i]);
    }
    assert forall|i: int| 0 <= i < q.len() - 1 implies !stop.contains(#[trigger] q[i]) by {
        assert(q[i] == p[i]);
    }
    lemma_walk_reaches(g, dir, stop, sources, m as nat, q);
    let all = spread(g, dir, stop, sources, m as nat);
    let i = all.index_of(p[m]);
    lemma_layer_of(g, dir, stop, sources, m as nat, i);
    let j = crate::reach::layer_of(g, dir, stop, sources, m as nat, i);
    lemma_spread_monotone(g, dir, stop, sources, j, m as nat);
    let within = spread(g, dir, stop, sources, j);
    assert(all.take(within.len() as int)[i] == within[i]);
    let nodes = flow_layer(g, sources, targets, j);
    let at = i - inner_len(g, dir, stop, sources, j);
    assert(nodes[at] == p[m]);
    lemma_target_from(nodes, targets, 0);
    lemma_nearest_from(g, sources, targets, 0, max);
}

proof fn lemma_first_target(nodes: Seq<NodeId>, targets: Seq<NodeId>, i: int)
    requires
        0 <= i,
        target_from(nodes, targets, i) is Some,
    ensures
        forall|k: int|
            i <= k < target_from(nodes, targets, i)->0 ==> !targets.contains(#[trigger] nodes[k]),
    decreases nodes.len() - i,
{
    if i < nodes.len() && !targets.contains(nodes[i]) {
        lemma_first_target(nodes, targets, i + 1);
    }
}

/// `p` is a walk of `k` hops from a source to `v`.
pub open spec fn is_route(
    g: GraphModel,
    sources: Seq<NodeId>,
    v: NodeId,
    k: nat,
    p: Seq<NodeId>,
) -> bool {
    &&& is_walk(g, Direction::Callees, p)
    &&& sources.contains(p[0])
    &&& p.last() == v
    &&& p.len() == k + 1
}

/// Every listed path is a walk of the stated length from a source to the target.
pub proof fn law_routes_are_walks(
    g: GraphModel,
    sources: Seq<NodeId>,
    targets: Seq<NodeId>,
    v: NodeId,
    k: nat,
)
    requires
        flow_layer(g, sources, targets, k).contains(v),
    ensures
        forall|i: int|
            0 <= i < routes(g, sources, targets, v, k).len() ==> is_route(
                g,
                sources,
                v,
                k,
                #[trigger] routes(g, sources, targets, v, k)[i],
            ),
    decreases k, 1nat, 0nat,
{
    if k == 0 {
        lemma_joined(Seq::empty(), sources);
        let nodes = flow_layer(g, sources, targets, 0);
        assert(nodes =~= joined(Seq::empty(), sources));
        assert(joined(Seq::empty(), sources).contains(v));
        assert(seq![v][0] == v);
        assert(is_route(g, sources, v, 0, seq![v]));
        assert(routes(g, sources, targets, v, 0) == seq![seq![v]]);
    } else {
        let before = flow_layer(g, sources, targets, (k - 1) as nat);
        assert forall|i: int| 0 <= i < before.len() implies before.contains(#[trigger] before[i]) by {}
        lemma_routes_via(g, sources, targets, before, v, k);
        assert(routes(g, sources, targets, v, k) == routes_via(g, sources, targets, before, v, k));
    }
}

proof fn lemma_routes_via(
    g: GraphModel,
    sources: Seq<NodeId>,
    targets: Seq<NodeId>,
    callers: Seq<NodeId>,
    v: NodeId,
    k: nat,
)
    requires
        k > 0,
        forall|i: int|
            0 <= i < callers.len() ==> flow_layer(g, sources, targets, (k - 1) as nat).contains(
                #[trigger] callers[i],
            ),
    ensures
        forall|i: int|
            0 <= i < routes_via(g, sources, targets, callers, v, k).len() ==> is_route(
                g,
                sources,
                v,
                k,
                #[trigger] routes_via(g, sources, targets, callers, v, k)[i],
            ) && callers.contains(routes_via(g, sources, targets, callers, v, k)[i][k - 1]),
    decreases k, 0nat, callers.len(),
{
    if callers.len() > 0 {
        let rest = callers.drop_last();
        let u = callers.last();
        assert forall|i: int| 0 <= i < rest.len() implies flow_layer(
            g,
            sources,
            targets,
            (k - 1) as nat,
        ).contains(#[trigger] rest[i]) by {
            assert(rest[i] == callers[i]);
        }
        lemma_routes_via(g, sources, targets, rest, v, k);
        assert(callers[callers.len() - 1] == u);
        law_routes_are_walks(g, sources, targets, u, (k - 1) as nat);
        let front = routes_via(g, sources, targets, rest, v, k);
        let short = routes(g, sources, targets, u, (k - 1) as nat);
        let all = routes_via(g, sources, targets, callers, v, k);
        assert(rest.push(u) =~= callers);
        lemma_push_has(rest, u);
        assert forall|i: int| 0 <= i < all.len() implies is_route(
            g,
            sources,
            v,
            k,
            #[trigger] all[i],
        ) && callers.contains(all[i][k - 1]) by {
            if i < front.len() {
                assert(all[i] == front[i]);
            } else {
                let q = short[i - front.len()];
                let p = all[i];
                assert(p == q.push(v));
                assert(is_route(g, sources, u, (k - 1) as nat, q));
                assert forall|j: int| 0 <= j < p.len() - 1 implies neighbors(
                    g,
                    Direction::Callees,
                    #[trigger] p[j],
                ).contains(p[j + 1]) by {
                    if j < q.len() - 1 {
                        assert(p[j] == q[j]);
                    }
                }
            }
        }
    }
}

/// The paths listed are distinct.
pub proof fn law_routes_are_distinct(
    g: GraphModel,
    sources: Seq<NodeId>,
    targets: Seq<NodeId>,
    v: NodeId,
    k: nat,
)
    requires
        flow_layer(g, sources, targets, k).contains(v),
    ensures
        routes(g, sources, targets, v, k).no_duplicates(),
    decreases k, 1nat, 0nat,
{
    if k > 0 {
        let j = (k - 1) as nat;
        let before = flow_layer(g, sources, targets, j);
        lemma_spread(g, Direction::Callees, targets.to_set(), sources, j);
        lemma_routes_via_distinct(g, sources, targets, before, v, k);
    }
}

proof fn lemma_routes_via_distinct(
    g: GraphModel,
    sources: Seq<NodeId>,
    targets: Seq<NodeId>,
    callers: Seq<NodeId>,
    v: NodeId,
    k: nat,
)
    requires
        k > 0,
        callers.no_duplicates(),
        forall|i: int|
            0 <= i < callers.len() ==> flow_layer(g, sources, targets, (k - 1) as nat).contains(
                #[trigger] callers[i],
            ),
    ensures
        routes_via(g, sources, targets, callers, v, k).no_duplicates(),
    decreases k, 0nat, callers.len(),
{
    if callers.len() > 0 {
        let rest = callers.drop_last();
        let u = callers.last();
        assert forall|i: int| 0 <= i < rest.len() implies flow_layer(
            g,
            sources,
            targets,
            (k - 1) as nat,
        ).contains(#[trigger] rest[i]) by {
            assert(rest[i] == callers[i]);
        }
        assert(callers[callers.len() - 1] == u);
        lemma_routes_via_distinct(g, sources, targets, rest, v, k);
        lemma_routes_via(g, sources, targets, rest, v, k);
        law_routes_are_distinct(g, sources, targets, u, (k - 1) as nat);
        law_routes_are_walks(g, sources, targets, u, (k - 1) as nat);
        let front = routes_via(g, sources, targets, rest, v, k);
        let short = routes(g, sources, targets, u, (k - 1) as nat);
        let all = routes_via(g, sources, targets, callers, v, k);
        assert forall|i: int, j: int| 0 <= i < j < all.len() implies all[i] != all[j] by {
            if j < front.len() {
                assert(all[i] == front[i] && all[j] == front[j]);
            } else if i < front.len() {
                let q = short[j - front.len()];
                assert(is_route(g, sources, u, (k - 1) as nat, q));
                assert(all[j] == q.push(v));
                assert(all[j][k - 1] == u);
                assert(rest.contains(front[i][k - 1]));
                if all[i] == all[j] {
                    let m = rest.index_of(u);
                    assert(callers[m] == u);
                }
            } else {
                let a = short[i - front.len()];
                let b = short[j - front.len()];
                assert(all[i] == a.push(v) && all[j] == b.push(v));
                if all[i] == all[j] {
                    assert(a =~= a.push(v).drop_last());
                    assert(b =~= b.push(v).drop_last());
                }
            }
        }
    }
}

/// No path is missing: every walk from a source to a target with as many hops as the
/// nearest one takes is listed.
pub proof fn law_routes_are_complete(
    g: GraphModel,
    sources: Seq<NodeId>,
    targets: Seq<NodeId>,
    max: nat,
    v: NodeId,
    p: Seq<NodeId>,
)
    requires
        nearest(g, sources, targets, max) is Some,
        targets.contains(v),
        is_route(g, sources, v, nearest(g, sources, targets, max)->0, p),
    ensures
        routes(g, sources, targets, v, nearest(g, sources, targets, max)->0).contains(p),
{
    let d = nearest(g, sources, targets, max)->0;
    lemma_nearest_from(g, sources, targets, 0, max);
    assert forall|i: int| 0 <= i < p.len() - 1 implies !targets.contains(#[trigger] p[i]) by {
        if targets.contains(p[i]) {
            lemma_walk_part(g, p, i + 1);
            let q = p.take(i + 1);
            assert(q.last() == p[i] && q[0] == p[0]);
            law_no_shorter_path(g, sources, targets, max, q);
        }
    }
    lemma_on_layers(g, sources, targets, max, d, p, d as int);
    lemma_route_listed(g, sources, targets, p, d);
}

proof fn lemma_route_listed(
    g: GraphModel,
    sources: Seq<NodeId>,
    targets: Seq<NodeId>,
    p: Seq<NodeId>,
    k: nat,
)
    requires
        is_route(g, sources, p.last(), k, p),
        flow_layer(g, sources, targets, k).contains(p.last()),
        forall|i: int| 0 <= i < p.len() - 1 ==> !targets.contains(#[trigger] p[i]),
    ensures
        routes(g, sources, targets, p.last(), k).contains(p),
    decreases k,
{
    let dir = Direction::Callees;
    let stop = targets.to_set();
    let v = p.last();
    if k == 0 {
        assert(p =~= seq![v]);
        assert(routes(g, sources, targets, v, 0)[0] == p);
    } else {
        let j = (k - 1) as nat;
        let q = p.drop_last();
        let u = q.last();
        assert(u == p[k - 1]);
        assert forall|i: int| 0 <= i < q.len() - 1 implies neighbors(
            g,
            dir,
            #[trigger] q[i],
        ).contains(q[i + 1]) by {
            assert(q[i] == p[i]);
        }
        assert forall|i: int| 0 <= i < q.len() - 1 implies !targets.contains(#[trigger] q[i]) by {
            assert(q[i] == p[i]);
        }
        assert forall|i: int| 0 <= i < q.len() - 1 implies !stop.contains(#[trigger] q[i]) by {
            assert(q[i] == p[i]);
        }
        lemma_walk_reaches(g, dir, stop, sources, j, q);
        let within = spread(g, dir, stop, sources, j);
        let at = within.index_of(u);
        lemma_spread(g, dir, stop, sources, j);
        lemma_spread(g, dir, stop, sources, k);
        let inner = inner_len(g, dir, stop, sources, j);
        if at < inner {
            let i = (j - 1) as nat;
            let nearer = spread(g, dir, stop, sources, i);
            assert(within.take(nearer.len() as int)[at] == nearer[at]);
            assert(nearer.contains(u));
            assert(neighbors(g, dir, p[k - 1]).contains(p[k as int]));
            lemma_spread_closed(g, dir, stop, sources, i, u, v);
            let all = spread(g, dir, stop, sources, k);
            let m = within.index_of(v);
            assert(all.take(within.len() as int)[m] == within[m]);
            let edge = flow_layer(g, sources, targets, k);
            let n = edge.index_of(v);
            assert(all[n + within.len()] == v);
            assert(false);
        }
        let before = flow_layer(g, sources, targets, j);
        assert(before[at - inner] == u);
        lemma_route_listed(g, sources, targets, q, j);
        assert(neighbors(g, dir, p[k - 1]).contains(p[k as int]));
        lemma_listed_via(g, sources, targets, before, v, k, u, q);
        assert(q.push(v) =~= p);
    }
}

proof fn lemma_listed_via(
    g: GraphModel,
    sources: Seq<NodeId>,
    targets: Seq<NodeId>,
    callers: Seq<NodeId>,
    v: NodeId,
    k: nat,
    u: NodeId,
    q: Seq<NodeId>,
)
    requires
        k > 0,
        callers.contains(u),
        g.neighbors_out(u).contains(v),
        routes(g, sources, targets, u, (k - 1) as nat).contains(q),
    ensures
        routes_via(g, sources, targets, callers, v, k).contains(q.push(v)),
    decreases callers.len(),
{
    let rest = callers.drop_last();
    let all = routes_via(g, sources, targets, callers, v, k);
    let front = routes_via(g, sources, targets, rest, v, k);
    if callers.last() == u {
        let short = routes(g, sources, targets, u, (k - 1) as nat);
        let i = short.index_of(q);
        assert(extended(short, v)[i] == q.push(v));
        assert(all[front.len() + i] == q.push(v));
    } else {
        let i = callers.index_of(u);
        assert(rest[i] == u);
        lemma_listed_via(g, sources, targets, rest, v, k, u, q);
        let m = front.index_of(q.push(v));
        assert(all[m] == q.push(v));
    }
}

/// A node of a layer has a path to it.
pub proof fn lemma_routes_exist(
    g: GraphModel,
    sources: Seq<NodeId>,
    targets: Seq<NodeId>,
    v: NodeId,
    k: nat,
)
    requires
        flow_layer(g, sources, targets, k).contains(v),
    ensures
        routes(g, sources, targets, v, k).len() > 0,
    decreases k,
{
    let dir = Direction::Callees;
    let stop = targets.to_set();
    if k > 0 {
        let j = (k - 1) as nat;
        lemma_spread(g, dir, stop, sources, j);
        lemma_spread(g, dir, stop, sources, k);
        let within = spread(g, dir, stop, sources, j);
        let before = flow_layer(g, sources, targets, j);
        lemma_grown(g, dir, stop, within, before);
        let all = spread(g, dir, stop, sources, k);
        let edge = flow_layer(g, sources, targets, k);
        let at = edge.index_of(v);
        assert(all[at + within.len()] == v);
        assert(all.contains(v));
        if within.contains(v) {
            let m = within.index_of(v);
            assert(all.take(within.len() as int)[m] == within[m]);
            assert(false);
        }
        assert(all == crate::reach::grown(g, dir, stop, within, before));
        assert(next_to(g, dir, stop, before, v));
        let i = choose|i: int|
            0 <= i < before.len() && !stop.contains(#[trigger] before[i]) && neighbors(
                g,
                dir,
                before[i],
            ).contains(v);
        let u = before[i];
        lemma_routes_exist(g, sources, targets, u, j);
        let q = routes(g, sources, targets, u, j)[0];
        assert(routes(g, sources, targets, u, j).contains(q));
        lemma_listed_via(g, sources, targets, before, v, k, u, q);
    }
}

proof fn lemma_walk_part(g: GraphModel, p: Seq<NodeId>, k: int)
    requires
        is_walk(g, Direction::Callees, p),
        0 < k <= p.len(),
    ensures
        is_walk(g, Direction::Callees, p.take(k)),
{
    let q = p.take(k);
    assert forall|i: int| 0 <= i < q.len() - 1 implies neighbors(
        g,
        Direction::Callees,
        #[trigger] q[i],
    ).contains(q[i + 1]) by {
        assert(q[i] == p[i]);
    }
}

/// On a path to the nearest target with the fewest hops, the `i`-th node stands in the
/// `i`-th layer.
proof fn lemma_on_layers(
    g: GraphModel,
    sources: Seq<NodeId>,
    targets: Seq<NodeId>,
    max: nat,
    d: nat,
    p: Seq<NodeId>,
    i: int,
)
    requires
        nearest(g, sources, targets, max) == Some(d),
        is_walk(g, Direction::Callees, p),
        sources.contains(p[0]),
        targets.contains(p.last()),
        p.len() == d + 1,
        0 <= i <= d,
    ensures
        flow_layer(g, sources, targets, i as nat).contains(p[i]),
{
    let dir = Direction::Callees;
    let stop = targets.to_set();
    lemma_nearest_from(g, sources, targets, 0, max);
    let q = p.take(i + 1);
    lemma_walk_part(g, p, i + 1);
    assert forall|j: int| 0 <= j < q.len() - 1 implies !stop.contains(#[trigger] q[j]) by {
        if targets.contains(p[j]) {
            lemma_walk_part(g, p, j + 1);
            let short = p.take(j + 1);
            assert(short.last() == p[j] && short[0] == p[0]);
            law_no_shorter_path(g, sources, targets, max, short);
        }
    }
    lemma_walk_reaches(g, dir, stop, sources, i as nat, q);
    let all = spread(g, dir, stop, sources, i as nat);
    let at = all.index_of(p[i]);
    lemma_layer_of(g, dir, stop, sources, i as nat, at);
    let j = crate::reach::layer_of(g, dir, stop, sources, i as nat, at);
    lemma_spread_monotone(g, dir, stop, sources, j, i as nat);
    let within = spread(g, dir, stop, sources, j);
    assert(all.take(within.len() as int)[at] == within[at]);
    let nodes = flow_layer(g, sources, targets, j);
    assert(nodes[at - inner_len(g, dir, stop, sources, j)] == p[i]);
    assert(nodes.contains(p[i]));
    if j < i {
        lemma_routes_exist(g, sources, targets, p[i], j);
        law_routes_are_walks(g, sources, targets, p[i], j);
        let front = routes(g, sources, targets, p[i], j)[0];
        let rest = p.skip(i + 1);
        let short = front + rest;
        assert(is_route(g, sources, p[i], j, front));
        assert forall|m: int| 0 <= m < short.len() - 1 implies neighbors(
            g,
            dir,
            #[trigger] short[m],
        ).contains(short[m + 1]) by {
            if m < j {
                assert(short[m] == front[m] && short[m + 1] == front[m + 1]);
            } else {
                let n = m - j + i;
                assert(short[m] == p[n]);
                assert(short[m + 1] == p[n + 1]);
            }
        }
        assert(short[0] == front[0]);
        assert(short.last() == p.last()) by {
            if rest.len() == 0 {
                assert(short =~= front);
            }
        }
        law_no_shorter_path(g, sources, targets, max, short);
        assert(false);
    }
}

/// The source named stands among the sources, and alone it is as far from the targets
/// as all of them.
pub proof fn lemma_own_source(
    g: GraphModel,
    sources: Seq<NodeId>,
    targets: Seq<NodeId>,
    max: nat,
    d: nat,
)
    requires
        nearest(g, sources, targets, max) == Some(d),
    ensures
        ({
            let s = source_at(g, sources, targets, d);
            let t = target_at(g, sources, targets, d);
            &&& d <= max
            &&& sources.contains(s)
            &&& targets.contains(t)
            &&& routes(g, sources, targets, t, d).len() > 0
            &&& is_route(g, sources, t, d, routes(g, sources, targets, t, d)[0])
            &&& nearest(g, seq![s], targets, max) == Some(d)
            &&& flow_layer(g, seq![s], targets, d).contains(t)
            &&& routes(g, seq![s], targets, t, d).len() > 0
        }),
{
    let s = source_at(g, sources, targets, d);
    let t = target_at(g, sources, targets, d);
    let own = seq![s];
    lemma_nearest_from(g, sources, targets, 0, max);
    let nodes = flow_layer(g, sources, targets, d);
    lemma_target_from(nodes, targets, 0);
    assert(nodes.contains(t));
    lemma_routes_exist(g, sources, targets, t, d);
    law_routes_are_walks(g, sources, targets, t, d);
    let p = routes(g, sources, targets, t, d)[0];
    assert(is_route(g, sources, t, d, p));
    assert(own[0] == s);
    assert(own.contains(s));
    law_no_shorter_path(g, own, targets, max, p);
    let e = nearest(g, own, targets, max)->0;
    lemma_nearest_from(g, own, targets, 0, max);
    let u = target_at(g, own, targets, e);
    let edge = flow_layer(g, own, targets, e);
    lemma_target_from(edge, targets, 0);
    assert(edge.contains(u));
    lemma_routes_exist(g, own, targets, u, e);
    law_routes_are_walks(g, own, targets, u, e);
    let q = routes(g, own, targets, u, e)[0];
    assert(is_route(g, own, u, e, q));
    assert(q[0] == s);
    law_no_shorter_path(g, sources, targets, max, q);
    lemma_on_layers(g, own, targets, max, d, p, d as int);
    lemma_routes_exist(g, own, targets, t, d);
}

proof fn lemma_depth_map(r: Seq<Reached>, i: int)
    requires
        reached_ids(r).no_duplicates(),
        0 <= i < r.len(),
    ensures
        depth_map(r).contains_key(r[i].id.0),
        depth_map(r)[r[i].id.0] == r[i].depth,
    decreases r.len(),
{
    let rest = r.drop_last();
    let ids = reached_ids(r);
    if i < rest.len() {
        assert(reached_ids(rest) =~= ids.drop_last());
        assert(rest[i] == r[i]);
        lemma_depth_map(rest, i);
        assert(ids[i] == r[i].id && ids[ids.len() - 1] == r.last().id);
    }
}

/// A node of a layer within reach has the number of that layer as its distance.
proof fn lemma_touched_depth(
    g: GraphModel,
    sources: Seq<NodeId>,
    targets: Seq<NodeId>,
    d: nat,
    max: nat,
    k: nat,
    x: NodeId,
)
    requires
        k <= d <= max <= u32::MAX,
        flow_layer(g, sources, targets, k).contains(x),
    ensures
        depth_map(touched(g, sources, targets, d, max)).contains_key(x.0),
        depth_map(touched(g, sources, targets, d, max))[x.0] == k,
{
    let dir = Direction::Callees;
    let stop = targets.to_set();
    let m = if d < max {
        d + 1
    } else {
        d
    };
    let r = touched(g, sources, targets, d, max);
    let all = spread(g, dir, stop, sources, m);
    let within = spread(g, dir, stop, sources, k);
    let i = flow_layer(g, sources, targets, k).index_of(x) + inner_len(g, dir, stop, sources, k);
    lemma_spread(g, dir, stop, sources, k);
    lemma_spread(g, dir, stop, sources, m);
    lemma_spread_monotone(g, dir, stop, sources, k, m);
    assert(within[i] == x);
    assert(all.take(within.len() as int)[i] == all[i]);
    assert(reached_ids(r) =~= all);
    lemma_layer_of_settled(g, dir, stop, sources, k, m, i);
    assert(r[i].id == x);
    lemma_depth_map(r, i);
}

/// The flow that is found runs from its source, one of the sources asked for, to its
/// target, one of the targets asked for. At least one path is listed, each a walk from
/// the one to the other, and each node on it has its place there as its distance; the
/// source has distance zero.
pub proof fn law_flow_runs_from_source_to_target(
    f: FlowPaths,
    g: GraphModel,
    sources: Seq<NodeId>,
    targets: Seq<NodeId>,
    max_paths: usize,
    max: nat,
    d: nat,
)
    requires
        max <= u32::MAX,
        nearest(g, sources, targets, max) == Some(d),
        answers(f, g, sources, targets, max_paths, max, d),
    ensures
        sources.contains(f.source),
        targets.contains(f.target),
        f.paths@.len() > 0,
        forall|i: int|
            0 <= i < f.paths@.len() ==> {
                let p = #[trigger] f.paths@[i]@;
                &&& is_walk(g, Direction::Callees, p)
                &&& p.len() == d + 1
                &&& p[0] == f.source
                &&& p.last() == f.target
            },
        f.depth@.contains_key(f.source.0),
        f.depth@[f.source.0] == 0,
        forall|i: int, j: int|
            #![trigger f.paths@[i]@[j]]
            0 <= i < f.paths@.len() && 0 <= j <= d ==> f.depth@.contains_key(f.paths@[i]@[j].0)
                && f.depth@[f.paths@[i]@[j].0] == j,
{
    let s = f.source;
    let t = f.target;
    let own = seq![s];
    lemma_own_source(g, sources, targets, max, d);
    let all = routes(g, own, targets, t, d);
    let shown = upto(all, path_limit(max_paths));
    assert(views_of(f.paths@) == shown);
    assert(views_of(f.paths@).len() == f.paths@.len());
    law_routes_are_walks(g, own, targets, t, d);
    assert forall|i: int| 0 <= i < f.paths@.len() implies is_route(
        g,
        own,
        t,
        d,
        #[trigger] f.paths@[i]@,
    ) by {
        assert(views_of(f.paths@)[i] == f.paths@[i]@);
        assert(shown[i] == all[i]);
    }
    assert forall|i: int, j: int|
        #![trigger f.paths@[i]@[j]]
        0 <= i < f.paths@.len() && 0 <= j <= d implies f.depth@.contains_key(
        f.paths@[i]@[j].0,
    ) && f.depth@[f.paths@[i]@[j].0] == j by {
        let p = f.paths@[i]@;
        assert(is_route(g, own, t, d, p));
        lemma_on_layers(g, own, targets, max, d, p, j);
        lemma_touched_depth(g, own, targets, d, max, j as nat, p[j]);
    }
    assert(is_route(g, own, t, d, f.paths@[0]@));
    assert(f.paths@[0]@[0] == s);
}

/// The paths of a flow are distinct and no more than asked for; where there are fewer,
/// no walk of that length from its source to its target is missing.
pub proof fn law_flow_lists_the_paths(
    f: FlowPaths,
    g: GraphModel,
    sources: Seq<NodeId>,
    targets: Seq<NodeId>,
    max_paths: usize,
    max: nat,
    d: nat,
)
    requires
        nearest(g, sources, targets, max) == Some(d),
        answers(f, g, sources, targets, max_paths, max, d),
    ensures
        views_of(f.paths@).no_duplicates(),
        f.paths@.len() <= path_limit(max_paths),
        f.paths@.len() < path_limit(max_paths) ==> forall|p: Seq<NodeId>|
            is_route(g, seq![f.source], f.target, d, p) ==> #[trigger] views_of(
                f.paths@,
            ).contains(p),
{
    let own = seq![f.source];
    lemma_own_source(g, sources, targets, max, d);
    law_routes_are_distinct(g, own, targets, f.target, d);
    let all = routes(g, own, targets, f.target, d);
    assert(views_of(f.paths@).len() == f.paths@.len());
    if f.paths@.len() < path_limit(max_paths) {
        assert(views_of(f.paths@) == all);
        assert forall|p: Seq<NodeId>| is_route(g, own, f.target, d, p) implies #[trigger] views_of(
            f.paths@,
        ).contains(p) by {
            law_routes_are_complete(g, own, targets, max, f.target, p);
        }
    }
}

// -- the search -------------------------------------------------------------------

proof fn lemma_upto_add<T>(a: Seq<T>, b: Seq<T>, n: int)
    requires
        0 <= n,
    ensures
        a.len() >= n ==> upto(a + b, n) == upto(a, n),
        a.len() < n ==> upto(a + b, n) == a + upto(b, n - a.len()),
{
    if a.len() >= n {
        assert(upto(a + b, n) =~= upto(a, n)) by {
            if a.len() == n && b.len() == 0 {
                assert(a + b =~= a);
            }
        }
    } else {
        assert(upto(a + b, n) =~= a + upto(b, n - a.len()));
    }
}

/// The first target from position `lo` on.
fn find_target(out: &Vec<Reached>, lo: usize, targets: &HashSet<u32>, Ghost(wanted): Ghost<
    Seq<NodeId>,
>) -> (r: Option<usize>)
    requires
        lo <= out@.len(),
        forall|x: NodeId| targets@.contains(x.0) <==> wanted.contains(x),
    ensures
        match r {
            Some(i) => lo <= i < out@.len() && target_from(
                reached_ids(out@).skip(lo as int),
                wanted,
                0,
            ) == Some(i - lo),
            None => target_from(reached_ids(out@).skip(lo as int), wanted, 0) is None,
        },
{
    broadcast use vstd::std_specs::hash::group_hash_axioms;

    let ghost nodes = reached_ids(out@).skip(lo as int);
    let mut i: usize = lo;
    while i < out.len()
        invariant
            lo <= i <= out@.len(),
            nodes == reached_ids(out@).skip(lo as int),
            forall|x: NodeId| targets@.contains(x.0) <==> wanted.contains(x),
            target_from(nodes, wanted, 0) == target_from(nodes, wanted, i - lo),
        decreases out@.len() - i,
    {
        assert(nodes[i - lo] == out@[i as int].id);
        if targets.contains(&out[i].id.0) {
            return Some(i);
        }
        i += 1;
    }
    None
}

fn id_numbers(ids: &Vec<NodeId>) -> (r: HashSet<u32>)
    ensures
        forall|x: NodeId| r@.contains(x.0) <==> ids@.contains(x),
        id_set(r@) == ids@.to_set(),
{
    broadcast use vstd::std_specs::hash::group_hash_axioms;

    let mut r: HashSet<u32> = HashSet::new();
    let mut i: usize = 0;
    while i < ids.len()
        invariant
            i <= ids@.len(),
            forall|x: NodeId| r@.contains(x.0) <==> ids@.take(i as int).contains(x),
        decreases ids@.len() - i,
    {
        let ghost had = r@;
        r.insert(ids[i].0);
        proof {
            assert(ids@.take(i + 1) =~= ids@.take(i as int).push(ids@[i as int]));
            lemma_push_has(ids@.take(i as int), ids@[i as int]);
            assert forall|x: NodeId| r@.contains(x.0) <==> ids@.take(i + 1).contains(x) by {
                assert(r@.contains(x.0) <==> had.contains(x.0) || x.0 == ids@[i as int].0);
            }
        }
        i += 1;
    }
    assert(ids@.take(ids@.len() as int) =~= ids@);
    assert(id_set(r@) =~= ids@.to_set());
    r
}

fn depths_by_number(out: &Vec<Reached>) -> (r: HashMap<u32, u32>)
    ensures
        r@ == depth_map(out@),
{
    broadcast use vstd::std_specs::hash::group_hash_axioms;

    let mut r: HashMap<u32, u32> = HashMap::new();
    let mut i: usize = 0;
    assert(out@.take(0) =~= Seq::empty());
    while i < out.len()
        invariant
            i <= out@.len(),
            r@ == depth_map(out@.take(i as int)),
        decreases out@.len() - i,
    {
        r.insert(out[i].id.0, out[i].depth);
        proof {
            assert(out@.take(i + 1).drop_last() =~= out@.take(i as int));
            assert(out@.take(i + 1).last() == out@[i as int]);
        }
        i += 1;
    }
    assert(out@.take(out@.len() as int) =~= out@);
    r
}

fn has_id(ids: &Vec<NodeId>, x: NodeId) -> (r: bool)
    ensures
        r == ids@.contains(x),
{
    let mut i: usize = 0;
    while i < ids.len()
        invariant
            i <= ids@.len(),
            forall|j: int| 0 <= j < i ==> ids@[j] != x,
        decreases ids@.len() - i,
    {
        if ids[i] == x {
            return true;
        }
        i += 1;
    }
    false
}

/// The layers up to `k` stand in `ids`, with `bounds[j]` where layer `j` starts.
pub open spec fn layered(
    g: GraphModel,
    sources: Seq<NodeId>,
    targets: Seq<NodeId>,
    ids: Seq<NodeId>,
    bounds: Seq<usize>,
    k: nat,
) -> bool {
    &&& bounds.len() == k + 1
    &&& forall|j: int|
        0 <= j < k ==> {
            &&& (#[trigger] bounds[j]) <= bounds[j + 1] <= ids.len()
            &&& ids.subrange(bounds[j] as int, bounds[j + 1] as int) == flow_layer(
                g,
                sources,
                targets,
                j as nat,
            )
        }
}

/// Walk back from `node`, `k` hops away, to the sources; at most `max` paths.
fn enumerate(
    graph: &CodeGraph,
    Ghost(sources): Ghost<Seq<NodeId>>,
    Ghost(targets): Ghost<Seq<NodeId>>,
    out: &Vec<Reached>,
    bounds: &Vec<usize>,
    node: NodeId,
    k: usize,
    max: usize,
) -> (r: Vec<Vec<NodeId>>)
    requires
        graph.wf(),
        max > 0,
        k < bounds@.len(),
        layered(
            graph@,
            sources,
            targets,
            reached_ids(out@),
            bounds@,
            (bounds@.len() - 1) as nat,
        ),
    ensures
        views_of(r@) == upto(routes(graph@, sources, targets, node, k as nat), max as int),
    decreases k,
{
    let ghost g = graph@;
    let mut acc: Vec<Vec<NodeId>> = Vec::new();
    if k == 0 {
        let mut p: Vec<NodeId> = Vec::new();
        p.push(node);
        acc.push(p);
        assert(p@ =~= seq![node]);
        assert(views_of(acc@) =~= seq![seq![node]]);
        return acc;
    }
    let lo: usize = bounds[k - 1];
    let hi: usize = bounds[k];
    let ghost before = flow_layer(g, sources, targets, (k - 1) as nat);
    let ghost ids = reached_ids(out@);
    assert(ids.subrange(lo as int, hi as int) == before);
    let mut i: usize = lo;
    assert(before.take(0) =~= Seq::empty());
    assert(views_of(acc@) =~= Seq::empty());
    while i < hi
        invariant
            graph.wf(),
            g == graph@,
            0 < k < bounds@.len(),
            max > 0,
            layered(g, sources, targets, ids, bounds@, (bounds@.len() - 1) as nat),
            ids == reached_ids(out@),
            lo <= i <= hi <= out@.len(),
            before == ids.subrange(lo as int, hi as int),
            views_of(acc@) == upto(
                routes_via(g, sources, targets, before.take(i - lo), node, k as nat),
                max as int,
            ),
        decreases hi - i,
    {
        let u = out[i].id;
        let ghost via = routes_via(g, sources, targets, before.take(i - lo), node, k as nat);
        let ghost short = routes(g, sources, targets, u, (k - 1) as nat);
        proof {
            assert(before[i - lo] == u);
            assert(before.take(i + 1 - lo).drop_last() =~= before.take(i - lo));
            assert(before.take(i + 1 - lo).last() == u);
            lemma_upto_add(via, extended(short, node), max as int);
        }
        let near = graph.neighbors_out(u);
        if acc.len() < max && has_id(&near, node) {
            let room: usize = max - acc.len();
            let sub = enumerate(
                graph,
                Ghost(sources),
                Ghost(targets),
                out,
                bounds,
                u,
                k - 1,
                room,
            );
            let ghost start = views_of(acc@);
            assert(start == via);
            let mut m: usize = 0;
            assert(start + extended(upto(short, room as int), node).take(0) =~= start);
            while m < sub.len()
                invariant
                    m <= sub@.len(),
                    views_of(sub@) == upto(short, room as int),
                    views_of(acc@) == start + extended(upto(short, room as int), node).take(
                        m as int,
                    ),
                decreases sub@.len() - m,
            {
                let mut p = sub[m].clone();
                proof {
                    assert(p@ =~= views_of(sub@)[m as int]);
                }
                p.push(node);
                let ghost had = acc@;
                acc.push(p);
                proof {
                    let ext = extended(upto(short, room as int), node);
                    assert(ext[m as int] =~= p@);
                    assert(ext.take(m + 1) =~= ext.take(m as int).push(p@));
                    crate::seqs::lemma_views_push(had, p);
                    assert(start + ext.take(m + 1) =~= (start + ext.take(m as int)).push(p@));
                }
                m += 1;
            }
            proof {
                let ext = extended(upto(short, room as int), node);
                assert(ext.take(sub@.len() as int) =~= ext);
                assert(ext =~= upto(extended(short, node), room as int));
            }
        } else {
            proof {
                if acc@.len() >= max {
                    assert(via.len() >= max);
                }
            }
        }
        i += 1;
    }
    assert(before.take(hi - lo) =~= before);
    acc
}

/// How far a search has come when it meets a target.
struct Search {
    /// What is reached, layer after layer.
    out: Vec<Reached>,
    seen: HashSet<u32>,
    /// Where each layer starts.
    bounds: Vec<usize>,
    /// Where the last layer starts.
    lo: usize,
    depth: u32,
    target: NodeId,
}

impl Search {
    spec fn met(
        self,
        g: GraphModel,
        sources: Seq<NodeId>,
        targets: Seq<NodeId>,
        max: nat,
        d: nat,
    ) -> bool {
        let dir = Direction::Callees;
        let stop = targets.to_set();
        &&& self.depth == d
        &&& d <= max
        &&& self.target == target_at(g, sources, targets, d)
        &&& self.lo == inner_len(g, dir, stop, sources, d)
        &&& self.lo <= self.out@.len()
        &&& layered(g, sources, targets, reached_ids(self.out@), self.bounds@, d)
        &&& forall|x: NodeId|
            self.seen@.contains(x.0) <==> reached_ids(self.out@).contains(x)
        &&& self.out@ == spread_depths(g, dir, stop, sources, d)
        &&& reached_ids(self.out@) == spread(g, dir, stop, sources, d)
    }
}

/// Search from `sources` until a layer holds one of `targets`.
fn search(
    graph: &CodeGraph,
    sources: &Vec<NodeId>,
    targets: &Vec<NodeId>,
    wanted: &HashSet<u32>,
    max_depth: u32,
) -> (r: Option<Search>)
    requires
        graph.wf(),
        id_set(wanted@) == targets@.to_set(),
        forall|x: NodeId| wanted@.contains(x.0) <==> targets@.contains(x),
    ensures
        match nearest(graph@, sources@, targets@, max_depth as nat) {
            None => r is None,
            Some(d) => r matches Some(s) && s.met(
                graph@,
                sources@,
                targets@,
                max_depth as nat,
                d,
            ),
        },
{
    broadcast use vstd::std_specs::hash::group_hash_axioms;

    let ghost g = graph@;
    let ghost dir = Direction::Callees;
    let ghost stop = targets@.to_set();
    let mut seen: HashSet<u32> = HashSet::new();
    let mut out: Vec<Reached> = Vec::new();
    assert(reached_ids(out@) =~= Seq::empty());
    append_new(&mut out, &mut seen, sources, 0);
    let mut depth: u32 = 0;
    let mut lo: usize = 0;
    let mut bounds: Vec<usize> = Vec::new();
    bounds.push(0);
    proof {
        assert(out@ =~= spread_depths(g, dir, stop, sources@, 0));
    }
    loop
        invariant
            graph.wf(),
            g == graph@,
            dir == Direction::Callees,
            stop == targets@.to_set(),
            id_set(wanted@) == stop,
            forall|x: NodeId| wanted@.contains(x.0) <==> targets@.contains(x),
            depth <= max_depth,
            lo == inner_len(g, dir, stop, sources@, depth as nat),
            lo <= out@.len(),
            bounds@[depth as int] == lo,
            layered(g, sources@, targets@, reached_ids(out@), bounds@, depth as nat),
            forall|x: NodeId| seen@.contains(x.0) <==> reached_ids(out@).contains(x),
            out@ == spread_depths(g, dir, stop, sources@, depth as nat),
            reached_ids(out@) == spread(g, dir, stop, sources@, depth as nat),
            nearest(g, sources@, targets@, max_depth as nat) == nearest_from(
                g,
                sources@,
                targets@,
                depth as nat,
                max_depth as nat,
            ),
        decreases max_depth - depth,
    {
        let ghost nodes = flow_layer(g, sources@, targets@, depth as nat);
        assert(nodes == reached_ids(out@).skip(lo as int));
        match find_target(&out, lo, wanted, Ghost(targets@)) {
            Some(t) => {
                let target = out[t].id;
                assert(nodes[t - lo] == target);
                return Some(Search { out, seen, bounds, lo, depth, target });
            },
            None => {},
        }
        if lo >= out.len() || depth >= max_depth {
            proof {
                lemma_nearest_from(g, sources@, targets@, depth as nat, max_depth as nat);
                if lo >= out@.len() {
                    let near = nearest(g, sources@, targets@, max_depth as nat);
                    if near is Some {
                        let d = near->0;
                        lemma_spread_settled(g, dir, stop, sources@, depth as nat, d);
                        lemma_target_from(flow_layer(g, sources@, targets@, d), targets@, 0);
                    }
                }
            }
            return None;
        }
        let hi: usize = out.len();
        let ghost before = out@;
        let ghost marks = bounds@;
        proof {
            lemma_spread(g, dir, stop, sources@, depth as nat);
        }
        grow_layer(graph, &mut out, &mut seen, lo, Direction::Callees, wanted, depth);
        bounds.push(hi);
        proof {
            lemma_grown_depths(g, dir, stop, sources@, depth as nat, before, out@);
            let a = reached_ids(before);
            let b = reached_ids(out@);
            assert forall|j: int| 0 <= j < depth + 1 implies {
                &&& (#[trigger] bounds@[j]) <= bounds@[j + 1] <= b.len()
                &&& b.subrange(bounds@[j] as int, bounds@[j + 1] as int) == flow_layer(
                    g,
                    sources@,
                    targets@,
                    j as nat,
                )
            } by {
                if j < depth {
                    assert(marks[j] == bounds@[j] && marks[j + 1] == bounds@[j + 1]);
                    assert(b.subrange(marks[j] as int, marks[j + 1] as int) =~= a.subrange(
                        marks[j] as int,
                        marks[j + 1] as int,
                    ));
                } else {
                    assert(b.subrange(lo as int, hi as int) =~= a.skip(lo as int));
                }
            }
        }
        lo = hi;
        depth += 1;
    }
}

/// The shortest call paths from the source that is the fewest hops from a target, of
/// several the first that a path is found from, to that target: at most `max_paths` of
/// them and at least one. `None` where no path of at most `max_depth` hops leads from
/// any of `sources` to any of `targets`.
pub fn shortest_paths(
    graph: &CodeGraph,
    sources: &Vec<NodeId>,
    targets: &Vec<NodeId>,
    max_paths: usize,
    max_depth: u32,
) -> (r: Option<FlowPaths>)
    requires
        graph.wf(),
    ensures
        match nearest(graph@, sources@, targets@, max_depth as nat) {
            None => r is None,
            Some(d) => r matches Some(f) && answers(
                f,
                graph@,
                sources@,
                targets@,
                max_paths,
                max_depth as nat,
                d,
            ),
        },
        (forall|i: int| 0 <= i < sources@.len() ==> graph@.has(#[trigger] sources@[i])) ==> (
        r matches Some(f) ==> flow_known(f, graph@)),
{
    let ghost g = graph@;
    let ghost dir = Direction::Callees;
    let ghost stop = targets@.to_set();
    let ghost max = max_depth as nat;
    let wanted = id_numbers(targets);
    let first = match search(graph, sources, targets, &wanted, max_depth) {
        Some(f) => f,
        None => {
            return None;
        },
    };
    let ghost d = first.depth as nat;
    let ghost all = routes(g, sources@, targets@, first.target, d);
    let target = first.target;
    proof {
        lemma_own_source(g, sources@, targets@, max, d);
        assert(upto(all, 1).len() == 1);
    }
    let one = enumerate(
        graph,
        Ghost(sources@),
        Ghost(targets@),
        &first.out,
        &first.bounds,
        target,
        first.bounds.len() - 1,
        1,
    );
    proof {
        assert(views_of(one@)[0] == one@[0]@);
        assert(one@[0]@ == all[0]);
    }
    let source = one[0][0];
    let mut own: Vec<NodeId> = Vec::new();
    own.push(source);
    assert(own@ =~= seq![source]);
    let mut found: Search = first;
    if sources.len() > 1 {
        match search(graph, &own, targets, &wanted, max_depth) {
            Some(f) => {
                found = f;
            },
            None => {
                assert(false);
            },
        }
    } else {
        assert(sources@ =~= own@) by {
            assert(sources@[sources@.index_of(source)] == source);
        }
    }
    let limit: usize = if max_paths == 0 {
        1
    } else {
        max_paths
    };
    let paths = enumerate(
        graph,
        Ghost(own@),
        Ghost(targets@),
        &found.out,
        &found.bounds,
        target,
        found.bounds.len() - 1,
        limit,
    );
    if found.depth < max_depth {
        let ghost before = found.out@;
        proof {
            lemma_spread(g, dir, stop, own@, d);
        }
        grow_layer(
            graph,
            &mut found.out,
            &mut found.seen,
            found.lo,
            Direction::Callees,
            &wanted,
            found.depth,
        );
        proof {
            lemma_grown_depths(g, dir, stop, own@, d, before, found.out@);
        }
    }
    let r = FlowPaths { source, target, paths, depth: depths_by_number(&found.out) };
    proof {
        assert(answers(r, g, sources@, targets@, max_paths, max, d));
        graph.lemma_wf();
        if forall|i: int| 0 <= i < sources@.len() ==> g.has(#[trigger] sources@[i]) {
            law_found_flow_can_be_shown(r, g, sources@, targets@, max_paths, max, d);
        }
    }
    Some(r)
}

/// A single shortest path from `from` to `to` inclusive; `None` where `to` is not
/// reached within `max_depth` hops. From a node to itself it is that node.
pub fn shortest_path(graph: &CodeGraph, from: NodeId, to: NodeId, max_depth: u32) -> (r: Option<
    Vec<NodeId>,
>)
    requires
        graph.wf(),
    ensures
        match nearest(graph@, seq![from], seq![to], max_depth as nat) {
            None => r is None,
            Some(d) => r matches Some(p) && p@ == routes(
                graph@,
                seq![from],
                seq![to],
                target_at(graph@, seq![from], seq![to], d),
                d,
            )[0],
        },
        from == to ==> r is Some && r->0@ == seq![from],
{
    let mut sources: Vec<NodeId> = Vec::new();
    sources.push(from);
    let mut targets: Vec<NodeId> = Vec::new();
    targets.push(to);
    proof {
        assert(sources@ =~= seq![from]);
        assert(targets@ =~= seq![to]);
        if from == to {
            lemma_same_node(graph@, from, max_depth as nat);
        }
    }
    match shortest_paths(graph, &sources, &targets, 1, max_depth) {
        None => None,
        Some(f) => {
            proof {
                let d = nearest(graph@, seq![from], seq![to], max_depth as nat)->0;
                lemma_own_source(graph@, seq![from], seq![to], max_depth as nat, d);
                assert(f.source == from);
                let all = routes(graph@, seq![from], seq![to], f.target, d);
                assert(views_of(f.paths@) == upto(all, 1));
                assert(upto(all, 1).len() == 1);
                assert(views_of(f.paths@)[0] == f.paths@[0]@);
            }
            let p = f.paths[0].clone();
            assert(p@ =~= f.paths@[0]@);
            Some(p)
        },
    }
}

proof fn lemma_same_node(g: GraphModel, v: NodeId, max: nat)
    ensures
        nearest(g, seq![v], seq![v], max) == Some(0nat),
        target_at(g, seq![v], seq![v], 0) == v,
{
    let one = seq![v];
    lemma_joined(Seq::empty(), one);
    let nodes = flow_layer(g, one, one, 0);
    assert(one.drop_last() =~= Seq::<NodeId>::empty());
    reveal_with_fuel(joined, 3);
    assert(joined(Seq::empty(), one) =~= one);
    assert(nodes =~= one);
    assert(one.contains(nodes[0])) by {
        assert(one[0] == v);
    }
}

} // verus!
