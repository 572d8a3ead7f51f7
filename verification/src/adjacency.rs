//! The call graph as flat neighbor lists, for layout.

use crate::graph::{edge_of, CodeGraph, EdgeExport};
use crate::seqs::sum;
use vstd::prelude::*;

verus! {

/// The neighbor lists of all nodes in one list. Those of node `v` stand from
/// `offsets[v]` up to `offsets[v + 1]`.
#[derive(Debug)]
pub struct Adjacency {
    pub offsets: Vec<u32>,
    pub neighbors: Vec<u32>,
}

/// The call joins two different nodes below `n`.
pub open spec fn joins(e: EdgeExport, n: int) -> bool {
    e.from != e.to && e.from.0 < n && e.to.0 < n
}

/// What a call adds to the neighbors of `v`: its other end.
pub open spec fn other_end(e: EdgeExport, n: int, v: int) -> Seq<u32> {
    if joins(e, n) && e.from.0 == v {
        seq![e.to.0]
    } else if joins(e, n) && e.to.0 == v {
        seq![e.from.0]
    } else {
        Seq::empty()
    }
}

/// The neighbors of `v`, callers and callees alike, in the order of the calls.
pub open spec fn around(es: Seq<EdgeExport>, n: int, v: int) -> Seq<u32>
    decreases es.len(),
{
    if es.len() == 0 {
        Seq::empty()
    } else {
        around(es.drop_last(), n, v) + other_end(es.last(), n, v)
    }
}

/// How many neighbors each node has.
pub open spec fn degrees(es: Seq<EdgeExport>, n: int) -> spec_fn(int) -> int {
    |v: int| around(es, n, v).len() as int
}

/// Where the neighbors of `v` start.
pub open spec fn start(es: Seq<EdgeExport>, n: int, v: int) -> int {
    sum(v, degrees(es, n))
}

/// Lists start one after the other.
proof fn lemma_starts(es: Seq<EdgeExport>, n: int, u: int, v: int)
    requires
        0 <= u < v,
    ensures
        0 <= start(es, n, u),
        start(es, n, u) + around(es, n, u).len() <= start(es, n, v),
    decreases v,
{
    if u < v - 1 {
        lemma_starts(es, n, u, v - 1);
    } else {
        lemma_start_positive(es, n, u);
    }
}

proof fn lemma_start_positive(es: Seq<EdgeExport>, n: int, v: int)
    ensures
        0 <= start(es, n, v),
    decreases v,
{
    if v > 0 {
        lemma_start_positive(es, n, v - 1);
    }
}

/// A longer list of calls has all the neighbors of a shorter one.
proof fn lemma_around_grows(es: Seq<EdgeExport>, n: int, v: int, i: int)
    requires
        0 <= i <= es.len(),
    ensures
        around(es.take(i), n, v).len() <= around(es, n, v).len(),
        i < es.len() ==> around(es.take(i + 1), n, v) == around(es.take(i), n, v) + other_end(
            es[i],
            n,
            v,
        ),
    decreases es.len(),
{
    if i < es.len() {
        assert(es.take(i + 1).drop_last() =~= es.take(i));
        if i == es.len() - 1 {
            assert(es.take(i + 1) =~= es);
        } else {
            assert(es.drop_last().take(i) =~= es.take(i));
            lemma_around_grows(es.drop_last(), n, v, i);
        }
    } else {
        assert(es.take(i) =~= es);
    }
}

/// A call ends at two nodes, so all lists together hold at most two entries a call.
proof fn lemma_total(es: Seq<EdgeExport>, n: int)
    requires
        0 <= n,
    ensures
        start(es, n, n) <= 2 * es.len(),
    decreases es.len(),
{
    if es.len() == 0 {
        lemma_no_calls(es, n, n);
    } else {
        lemma_total(es.drop_last(), n);
        lemma_one_more(es, n, n);
    }
}

proof fn lemma_no_calls(es: Seq<EdgeExport>, n: int, v: int)
    requires
        es.len() == 0,
    ensures
        start(es, n, v) == 0,
    decreases v,
{
    if v > 0 {
        lemma_no_calls(es, n, v - 1);
    }
}

/// One more call adds at most an entry at each of its ends.
proof fn lemma_one_more(es: Seq<EdgeExport>, n: int, v: int)
    requires
        es.len() > 0,
        0 <= v,
    ensures
        start(es, n, v) <= start(es.drop_last(), n, v) + (if es.last().from.0 < v {
            1int
        } else {
            0
        }) + (if es.last().to.0 < v {
            1int
        } else {
            0
        }),
    decreases v,
{
    if v > 0 {
        lemma_one_more(es, n, v - 1);
    }
}

/// The lists hold, for each node below `n`, its neighbors in the first calls.
spec fn filled_upto(
    neighbors: Seq<u32>,
    es: Seq<EdgeExport>,
    n: int,
    i: int,
) -> bool {
    forall|v: int, k: int|
        0 <= v < n && 0 <= k < around(es.take(i), n, v).len() ==> neighbors[start(es, n, v) + k]
            == #[trigger] around(es.take(i), n, v)[k]
}

/// Build the neighbor lists of the first `n` nodes. Each call counts at both of its
/// ends; calls of a node to itself do not count. The list of all neighbors has at
/// least one place.
pub fn build_adjacency(graph: &CodeGraph, n: usize) -> (r: Adjacency)
    requires
        graph.wf(),
        2 * graph@.edges.len() <= u32::MAX,
        n < u32::MAX,
    ensures
        r.offsets@.len() == n + 1,
        forall|v: int| 0 <= v <= n ==> #[trigger] r.offsets@[v] == start(graph@.edges, n as int, v),
        r.neighbors@.len() == if r.offsets@[n as int] > 0 {
            r.offsets@[n as int] as nat
        } else {
            1
        },
        forall|v: int, k: int|
            0 <= v < n && 0 <= k < around(graph@.edges, n as int, v).len() ==> r.neighbors@[start(
                graph@.edges,
                n as int,
                v,
            ) + k] == #[trigger] around(graph@.edges, n as int, v)[k],
{
    let ghost es = graph@.edges;
    let ghost m = n as int;
    let edges = graph.edges();
    let degree = count_degrees(graph, &edges, n);
    let mut offsets: Vec<u32> = Vec::new();
    offsets.push(0);
    let mut v: usize = 0;
    proof {
        lemma_total(es, m);
    }
    while v < n
        invariant
            v <= n,
            m == n,
            degree@.len() == n,
            start(es, m, m) <= u32::MAX,
            forall|u: int| 0 <= u < n ==> #[trigger] degree@[u] == around(es, m, u).len(),
            offsets@.len() == v + 1,
            forall|u: int| 0 <= u <= v ==> #[trigger] offsets@[u] == start(es, m, u),
        decreases n - v,
    {
        proof {
            lemma_starts(es, m, v as int, m);
            assert(degree@[v as int] == around(es, m, v as int).len());
            assert(offsets@[v as int] == start(es, m, v as int));
        }
        let next: u32 = offsets[v] + degree[v];
        offsets.push(next);
        v += 1;
    }
    let total: usize = offsets[n] as usize;
    let size: usize = if total > 0 {
        total
    } else {
        1
    };
    let mut neighbors: Vec<u32> = Vec::new();
    while neighbors.len() < size
        invariant
            neighbors@.len() <= size,
        decreases size - neighbors@.len(),
    {
        neighbors.push(0);
    }
    let mut cursor: Vec<u32> = Vec::new();
    let mut u: usize = 0;
    while u < n
        invariant
            u <= n,
            m == n,
            offsets@.len() == n + 1,
            forall|w: int| 0 <= w <= n ==> #[trigger] offsets@[w] == start(es, m, w),
            cursor@.len() == u,
            forall|w: int| 0 <= w < u ==> #[trigger] cursor@[w] == start(es, m, w),
        decreases n - u,
    {
        assert(offsets@[u as int] == start(es, m, u as int));
        cursor.push(offsets[u]);
        u += 1;
    }
    let mut i: usize = 0;
    proof {
        assert(es.take(0) =~= Seq::empty());
    }
    while i < edges.len()
        invariant
            m == n,
            es == graph@.edges,
            edges@ == es.map_values(|e: EdgeExport| (e.from, e.to, edge_of(e))),
            i <= edges@.len(),
            start(es, m, m) <= neighbors@.len() == size,
            size <= u32::MAX,
            cursor@.len() == n,
            forall|w: int|
                0 <= w < n ==> #[trigger] cursor@[w] == start(es, m, w) + around(
                    es.take(i as int),
                    m,
                    w,
                ).len(),
            filled_upto(neighbors@, es, m, i as int),
        decreases edges@.len() - i,
    {
        let a: usize = edges[i].0.index();
        let b: usize = edges[i].1.index();
        let ghost e = es[i as int];
        assert(e.from.0 == a && e.to.0 == b);
        if a != b && a < n && b < n {
            proof {
                lemma_around_grows(es, m, a as int, i as int);
                lemma_around_grows(es, m, b as int, i as int);
                lemma_around_grows(es, m, a as int, i + 1);
                lemma_around_grows(es, m, b as int, i + 1);
                lemma_starts(es, m, a as int, m);
                lemma_starts(es, m, b as int, m);
                assert(cursor@[a as int] == start(es, m, a as int) + around(
                    es.take(i as int),
                    m,
                    a as int,
                ).len());
                assert(cursor@[b as int] == start(es, m, b as int) + around(
                    es.take(i as int),
                    m,
                    b as int,
                ).len());
            }
            let ghost was = neighbors@;
            let ghost old_cursor = cursor@;
            let at_a: u32 = cursor[a];
            let at_b: u32 = cursor[b];
            neighbors.set(at_a as usize, b as u32);
            neighbors.set(at_b as usize, a as u32);
            cursor.set(a, at_a + 1);
            cursor.set(b, at_b + 1);
            proof {
                lemma_step(was, neighbors@, es, m, i as int);
                assert forall|w: int| 0 <= w < n implies #[trigger] cursor@[w] == start(es, m, w)
                    + around(es.take(i + 1), m, w).len() by {
                    lemma_around_grows(es, m, w, i as int);
                    assert(old_cursor[w] == start(es, m, w) + around(
                        es.take(i as int),
                        m,
                        w,
                    ).len());
                }
            }
        } else {
            proof {
                assert forall|w: int| 0 <= w < n implies around(es.take(i + 1), m, w) == around(
                    es.take(i as int),
                    m,
                    w,
                ) by {
                    lemma_around_grows(es, m, w, i as int);
                    assert(around(es.take(i as int), m, w) + Seq::empty() =~= around(
                        es.take(i as int),
                        m,
                        w,
                    ));
                }
                assert forall|w: int, k: int|
                    0 <= w < n && 0 <= k < around(es.take(i + 1), m, w).len()
                    implies neighbors@[start(es, m, w) + k] == #[trigger] around(
                    es.take(i + 1),
                    m,
                    w,
                )[k] by {
                    assert(around(es.take(i as int), m, w)[k] == around(es.take(i + 1), m, w)[k]);
                }
                assert forall|w: int| 0 <= w < n implies #[trigger] cursor@[w] == start(es, m, w)
                    + around(es.take(i + 1), m, w).len() by {}
            }
        }
        i += 1;
    }
    assert(es.take(es.len() as int) =~= es);
    Adjacency { offsets, neighbors }
}

/// Writing the ends of one more call where the lists have got to keeps them filled.
proof fn lemma_step(was: Seq<u32>, now: Seq<u32>, es: Seq<EdgeExport>, n: int, i: int)
    requires
        0 <= i < es.len(),
        joins(es[i], n),
        start(es, n, n) <= was.len(),
        filled_upto(was, es, n, i),
        now == was.update(
            start(es, n, es[i].from.0 as int) + around(
                es.take(i),
                n,
                es[i].from.0 as int,
            ).len(),
            es[i].to.0,
        ).update(
            start(es, n, es[i].to.0 as int) + around(es.take(i), n, es[i].to.0 as int).len(),
            es[i].from.0,
        ),
    ensures
        filled_upto(now, es, n, i + 1),
{
    let a = es[i].from.0 as int;
    let b = es[i].to.0 as int;
    assert forall|v: int, k: int|
        0 <= v < n && 0 <= k < around(es.take(i + 1), n, v).len() implies now[start(es, n, v) + k]
        == #[trigger] around(es.take(i + 1), n, v)[k] by {
        lemma_around_grows(es, n, v, i);
        lemma_around_grows(es, n, v, i + 1);
        lemma_around_grows(es, n, a, i);
        lemma_around_grows(es, n, a, i + 1);
        lemma_around_grows(es, n, b, i);
        lemma_around_grows(es, n, b, i + 1);
        lemma_starts(es, n, v, n);
        lemma_starts(es, n, a, n);
        lemma_starts(es, n, b, n);
        if v < a {
            lemma_starts(es, n, v, a);
        }
        if a < v {
            lemma_starts(es, n, a, v);
        }
        if v < b {
            lemma_starts(es, n, v, b);
        }
        if b < v {
            lemma_starts(es, n, b, v);
        }
        if a < b {
            lemma_starts(es, n, a, b);
        } else {
            lemma_starts(es, n, b, a);
        }
        if k < around(es.take(i), n, v).len() {
            assert(around(es.take(i), n, v)[k] == around(es.take(i + 1), n, v)[k]);
        }
    }
}

/// How many neighbors each of the first `n` nodes has.
fn count_degrees(
    graph: &CodeGraph,
    edges: &Vec<(crate::ids::NodeId, crate::ids::NodeId, crate::graph::Edge)>,
    n: usize,
) -> (r: Vec<u32>)
    requires
        edges@ == graph@.edges.map_values(|e: EdgeExport| (e.from, e.to, edge_of(e))),
        2 * graph@.edges.len() <= u32::MAX,
    ensures
        r@.len() == n,
        forall|v: int| 0 <= v < n ==> #[trigger] r@[v] == around(graph@.edges, n as int, v).len(),
{
    let ghost es = graph@.edges;
    let ghost m = n as int;
    let mut degree: Vec<u32> = Vec::new();
    while degree.len() < n
        invariant
            degree@.len() <= n,
            forall|v: int| 0 <= v < degree@.len() ==> #[trigger] degree@[v] == 0,
        decreases n - degree@.len(),
    {
        degree.push(0);
    }
    let mut i: usize = 0;
    assert(es.take(0) =~= Seq::empty());
    while i < edges.len()
        invariant
            m == n,
            es == graph@.edges,
            2 * es.len() <= u32::MAX,
            edges@ == es.map_values(|e: EdgeExport| (e.from, e.to, edge_of(e))),
            i <= edges@.len(),
            degree@.len() == n,
            forall|v: int|
                0 <= v < n ==> #[trigger] degree@[v] == around(es.take(i as int), m, v).len()
                    && degree@[v] <= i,
        decreases edges@.len() - i,
    {
        let a: usize = edges[i].0.index();
        let b: usize = edges[i].1.index();
        let ghost before = degree@;
        assert(es[i as int].from.0 == a && es[i as int].to.0 == b);
        if a != b && a < n && b < n {
            assert(degree@[a as int] <= i);
            assert(degree@[b as int] <= i);
            let da: u32 = degree[a];
            degree.set(a, da + 1);
            let db: u32 = degree[b];
            degree.set(b, db + 1);
        }
        proof {
            assert forall|v: int| 0 <= v < n implies #[trigger] degree@[v] == around(
                es.take(i + 1),
                m,
                v,
            ).len() && degree@[v] <= i + 1 by {
                lemma_around_grows(es, m, v, i as int);
                assert(before[v] == around(es.take(i as int), m, v).len());
            }
        }
        i += 1;
    }
    assert(es.take(es.len() as int) =~= es);
    degree
}

/// Neighborhood is symmetric: each of two nodes lists the other as often.
pub proof fn law_neighbors_are_mutual(es: Seq<EdgeExport>, n: int, u: u32, v: u32)
    requires
        u < n,
        v < n,
    ensures
        around(es, n, u as int).to_multiset().count(v) == around(
            es,
            n,
            v as int,
        ).to_multiset().count(u),
    decreases es.len(),
{
    broadcast use vstd::seq_lib::group_to_multiset_ensures;

    if es.len() > 0 {
        law_neighbors_are_mutual(es.drop_last(), n, u, v);
        let a = around(es.drop_last(), n, u as int);
        let b = around(es.drop_last(), n, v as int);
        let x = other_end(es.last(), n, u as int);
        let y = other_end(es.last(), n, v as int);
        vstd::seq_lib::lemma_multiset_commutative(a, x);
        vstd::seq_lib::lemma_multiset_commutative(b, y);
        lemma_single(x, v);
        lemma_single(y, u);
    }
}

proof fn lemma_single(s: Seq<u32>, x: u32)
    requires
        s.len() <= 1,
    ensures
        s.to_multiset().count(x) == if s.len() == 1 && s[0] == x {
            1nat
        } else {
            0nat
        },
{
    broadcast use vstd::seq_lib::group_to_multiset_ensures;

    if s.len() == 1 {
        assert(s =~= Seq::empty().push(s[0]));
        assert(Seq::<u32>::empty().to_multiset() =~= vstd::multiset::Multiset::empty());
    } else {
        assert(s =~= Seq::empty());
    }
}

} // verus!
