//! Quantitative metrics of the definitions of a graph, and of the graph as a whole.

use crate::arena::{
    arena_edges, arena_nodes, components, divides, endpoints, is_trail, linked_at, listed, number_lists, reaches,
    strong_components,
};
use crate::config::Config;
use crate::graph::{edge_export, CodeGraph, Edge, EdgeExport, GraphModel, Node, NodeKind, NodeModel};
use crate::ids::NodeId;
use crate::metric::{Metric, MetricKind, Quotient, WHOLE};
use crate::reach::{distinct, joined};
use crate::seqs::{gather, tally};
use vstd::prelude::*;

verus! {

/// How pure a function looks, in hundredths: less where it allocates, is unsafe or
/// waits.
pub open spec fn purity(n: NodeModel) -> int {
    100 - (if n.stats.allocations > 0 {
        35int
    } else {
        0int
    }) - (if n.stats.unsafe_blocks > 0 || n.flags.is_unsafe {
        30int
    } else {
        0int
    }) - (if n.flags.is_async || n.stats.awaits > 0 {
        20int
    } else {
        0int
    })
}

/// How pure a function looks, in hundredths. A structural hint, no proof.
pub fn purity_score(node: &Node) -> (r: u32)
    ensures
        r == purity(node@),
        15 <= r <= 100,
{
    let mut score: u32 = 100;
    if node.stats.allocations > 0 {
        score = score - 35;
    }
    if node.stats.unsafe_blocks > 0 || node.flags.is_unsafe {
        score = score - 30;
    }
    if node.flags.is_async || node.stats.awaits > 0 {
        score = score - 20;
    }
    score
}

/// The number of distinct callers of a node.
pub open spec fn caller_count(g: GraphModel, id: NodeId) -> nat {
    joined(Seq::empty(), g.neighbors_in(id)).len()
}

/// The number of distinct callees of a node.
pub open spec fn callee_count(g: GraphModel, id: NodeId) -> nat {
    joined(Seq::empty(), g.neighbors_out(id)).len()
}

pub fn count_callers(graph: &CodeGraph, id: NodeId) -> (r: usize)
    requires
        graph.wf(),
    ensures
        r == caller_count(graph@, id),
{
    distinct(&graph.neighbors_in(id)).len()
}

pub fn count_callees(graph: &CodeGraph, id: NodeId) -> (r: usize)
    requires
        graph.wf(),
    ensures
        r == callee_count(graph@, id),
{
    distinct(&graph.neighbors_out(id)).len()
}

// -- cycles ---------------------------------------------------------------------------

/// The calls of a graph as pairs of node numbers.
pub open spec fn call_links(g: GraphModel) -> Seq<(int, int)> {
    g.edges.map_values(|e: EdgeExport| (e.from.0 as int, e.to.0 as int))
}

/// The node stands on a cycle: some walk along calls, of at least one call, leads
/// from it back to it.
pub open spec fn on_cycle(g: GraphModel) -> spec_fn(int) -> bool {
    |v: int|
        exists|p: Seq<int>|
            p.len() > 1 && p[0] == v && p.last() == v && is_trail(call_links(g), p)
}

/// The components of a graph, in the order in which they are listed.
pub open spec fn graph_components(g: GraphModel) -> Seq<Seq<int>> {
    components(g.nodes.len() as int, call_links(g))
}

/// The strongly connected components of a graph.
pub(crate) fn list_components(graph: &CodeGraph) -> (r: Vec<Vec<u32>>)
    requires
        graph.wf(),
    ensures
        number_lists(r@) == graph_components(graph@),
        divides(graph_components(graph@), graph@.nodes.len() as int, call_links(graph@)),
{
    let raw = graph.raw();
    proof {
        graph.lemma_raw(*raw);
        let es = arena_edges(*raw);
        let ns = arena_nodes(*raw);
        assert(ns.map_values(|n: Node| n@).len() == ns.len());
        assert(es.map_values(
            |t: (int, int, Edge)| edge_export(NodeId(t.0 as u32), NodeId(t.1 as u32), t.2),
        ) == graph@.edges);
        assert forall|i: int| 0 <= i < es.len() implies endpoints(es)[i] == call_links(graph@)[i] by {
            assert(graph@.edges[i] == edge_export(
                NodeId(es[i].0 as u32),
                NodeId(es[i].1 as u32),
                es[i].2,
            ));
        }
        assert(endpoints(es) =~= call_links(graph@));
    }
    strong_components(raw)
}

/// Two trails that meet make one.
proof fn lemma_join_trails(links: Seq<(int, int)>, a: Seq<int>, b: Seq<int>) -> (p: Seq<int>)
    requires
        a.len() > 0,
        b.len() > 0,
        a.last() == b[0],
        is_trail(links, a),
        is_trail(links, b),
    ensures
        is_trail(links, p),
        p.len() == a.len() + b.len() - 1,
        p[0] == a[0],
        p.last() == b.last(),
{
    let p = a.drop_last() + b;
    let n = a.len() - 1;
    assert forall|k: int| 0 <= k < p.len() - 1 implies #[trigger] linked_at(
        links,
        p,
        k,
    ) by {
        if k < n {
            assert(linked_at(links, a, k));
            assert(p[k] == a[k]);
            assert(p[k + 1] == a[k + 1]);
        } else {
            assert(linked_at(links, b, k - n));
            assert(p[k] == b[k - n]);
            assert(p[k + 1] == b[k - n + 1]);
        }
    }
    p
}

/// Two nodes that reach each other stand on a cycle.
proof fn lemma_round_trip(g: GraphModel, u: int, v: int)
    requires
        u != v,
        reaches(call_links(g), u, v),
        reaches(call_links(g), v, u),
    ensures
        on_cycle(g)(v),
{
    let links = call_links(g);
    let a = choose|p: Seq<int>| p.len() > 0 && p[0] == v && p.last() == u && is_trail(links, p);
    let b = choose|p: Seq<int>| p.len() > 0 && p[0] == u && p.last() == v && is_trail(links, p);
    let p = lemma_join_trails(links, a, b);
    if a.len() == 1 {
        assert(a[0] == a.last());
    }
    if b.len() == 1 {
        assert(b[0] == b.last());
    }
    assert(p.len() > 1 && p[0] == v && p.last() == v && is_trail(links, p));
}

/// A node on a cycle calls itself or another node that reaches it.
proof fn lemma_first_step(g: GraphModel, v: int) -> (w: int)
    requires
        on_cycle(g)(v),
    ensures
        call_links(g).contains((v, w)),
        reaches(call_links(g), v, w),
        reaches(call_links(g), w, v),
{
    let links = call_links(g);
    let p = choose|p: Seq<int>|
        p.len() > 1 && p[0] == v && p.last() == v && is_trail(links, p);
    let w = p[1];
    assert(linked_at(links, p, 0));
    let forth = seq![v, w];
    assert(forth.len() > 0 && forth[0] == v && forth.last() == w && is_trail(links, forth));
    let back = p.skip(1);
    assert forall|k: int| 0 <= k < back.len() - 1 implies #[trigger] linked_at(
        links,
        back,
        k,
    ) by {
        assert(linked_at(links, p, k + 1));
        assert(back[k] == p[k + 1]);
        assert(back[k + 1] == p[k + 2]);
    }
    assert(back.len() > 0 && back[0] == w && back.last() == v && is_trail(links, back));
    w
}

/// A node stands on a cycle exactly when it calls itself or shares its component
/// with another node.
pub proof fn lemma_on_cycle(g: GraphModel, comps: Seq<Seq<int>>, c: int, v: int)
    requires
        divides(comps, g.nodes.len() as int, call_links(g)),
        0 <= c < comps.len(),
        comps[c].contains(v),
        g.wf(),
    ensures
        on_cycle(g)(v) <==> comps[c].len() > 1 || call_links(g).contains((v, v)),
{
    let links = call_links(g);
    if links.contains((v, v)) {
        let p = seq![v, v];
        assert(p.len() > 1 && p[0] == v && p.last() == v && is_trail(links, p));
    }
    if comps[c].len() > 1 {
        let i = comps[c].index_of(v);
        let j: int = if i == 0 {
            1
        } else {
            0
        };
        let u = comps[c][j];
        assert(comps[c].contains(u));
        lemma_round_trip(g, u, v);
    }
    if on_cycle(g)(v) {
        let w = lemma_first_step(g, v);
        if w != v {
            let e = links.index_of((v, w));
            assert(g.has(g.edges[e].to));
            assert(listed(comps, w));
            let d = choose|d: int| 0 <= d < comps.len() && #[trigger] comps[d].contains(w);
            assert(c == d);
            assert(comps[c].index_of(v) != comps[c].index_of(w));
        }
    }
}

/// How many nodes stand on a cycle.
pub open spec fn cyclic_total(g: GraphModel) -> nat {
    tally(g.nodes.len() as int, on_cycle(g))
}

/// How many nodes stand on a cycle: those in a component with others, and those that
/// call themselves.
pub fn count_cyclic(graph: &CodeGraph) -> (r: usize)
    requires
        graph.wf(),
    ensures
        r == cyclic_total(graph@),
{
    let ghost g = graph@;
    let ghost f = on_cycle(g);
    let comps = list_components(graph);
    let ghost cs = graph_components(g);
    let n: usize = graph.node_count();
    proof {
        graph.lemma_wf();
    }
    let mut marked: Vec<bool> = Vec::new();
    while marked.len() < n
        invariant
            marked@.len() <= n,
            forall|v: int| 0 <= v < marked@.len() ==> !marked@[v],
        decreases n - marked@.len(),
    {
        marked.push(false);
    }
    let mut c: usize = 0;
    while c < comps.len()
        invariant
            g == graph@,
            g.wf(),
            number_lists(comps@) == cs,
            divides(cs, g.nodes.len() as int, call_links(g)),
            c <= comps@.len(),
            marked@.len() == n == g.nodes.len(),
            forall|v: int| 0 <= v < n && #[trigger] marked@[v] ==> exists|d: int|
                0 <= d < c && cs[d].len() > 1 && #[trigger] cs[d].contains(v),
            forall|d: int, v: int|
                0 <= d < c && cs[d].len() > 1 && #[trigger] cs[d].contains(v) ==> marked@[v],
        decreases comps@.len() - c,
    {
        let comp = &comps[c];
        assert(cs[c as int] =~= comp@.map_values(|x: u32| x as int));
        if comp.len() > 1 {
            let ghost before = marked@;
            let mut i: usize = 0;
            while i < comp.len()
                invariant
                    i <= comp@.len(),
                    c < comps@.len() == cs.len(),
                    cs[c as int] == comp@.map_values(|x: u32| x as int),
                    divides(cs, g.nodes.len() as int, call_links(g)),
                    marked@.len() == before.len() == n == g.nodes.len(),
                    forall|v: int|
                        0 <= v < n ==> (#[trigger] marked@[v] <==> before[v] || exists|j: int|
                            0 <= j < i && #[trigger] cs[c as int][j] == v),
                decreases comp@.len() - i,
            {
                let v: usize = comp[i] as usize;
                assert(cs[c as int][i as int] == v);
                let ghost mid = marked@;
                marked.set(v, true);
                proof {
                    assert forall|x: int| 0 <= x < n implies (#[trigger] marked@[x] <==> before[x]
                        || exists|j: int| 0 <= j < i + 1 && #[trigger] cs[c as int][j] == x) by {
                        if x == v {
                            assert(cs[c as int][i as int] == x);
                        } else {
                            assert(marked@[x] == mid[x]);
                            if exists|j: int| 0 <= j < i + 1 && #[trigger] cs[c as int][j] == x {
                                let j = choose|j: int|
                                    0 <= j < i + 1 && #[trigger] cs[c as int][j] == x;
                                assert(j < i);
                            }
                        }
                    }
                }
                i += 1;
            }
            proof {
                assert forall|v: int| 0 <= v < n && #[trigger] marked@[v] implies exists|d: int|
                    0 <= d < c + 1 && cs[d].len() > 1 && #[trigger] cs[d].contains(v) by {
                    if !before[v] {
                        let j = choose|j: int|
                            0 <= j < comp@.len() && #[trigger] cs[c as int][j] == v;
                        assert(cs[c as int].contains(v));
                    } else {
                        let d = choose|d: int|
                            0 <= d < c && cs[d].len() > 1 && #[trigger] cs[d].contains(v);
                        assert(cs[d].contains(v));
                    }
                }
                assert forall|d: int, v: int|
                    0 <= d < c + 1 && cs[d].len() > 1 && #[trigger] cs[d].contains(v)
                    implies marked@[v] by {
                    let j = cs[d].index_of(v);
                    assert(0 <= cs[d][j] < n);
                    if d == c {
                        assert(cs[c as int][j] == v);
                    } else {
                        assert(before[v]);
                    }
                }
            }
        } else {
            proof {
                assert forall|v: int| 0 <= v < n && #[trigger] marked@[v] implies exists|d: int|
                    0 <= d < c + 1 && cs[d].len() > 1 && #[trigger] cs[d].contains(v) by {
                    let d = choose|d: int|
                        0 <= d < c && cs[d].len() > 1 && #[trigger] cs[d].contains(v);
                    assert(cs[d].contains(v));
                }
            }
        }
        c += 1;
    }
    let ghost grouped = marked@;
    let es = graph.edges();
    let mut e: usize = 0;
    while e < es.len()
        invariant
            graph.wf(),
            g == graph@,
            g.wf(),
            es@ == g.edges.map_values(
                |e: EdgeExport| (e.from, e.to, crate::graph::edge_of(e)),
            ),
            e <= es@.len(),
            marked@.len() == grouped.len() == n == g.nodes.len(),
            forall|v: int|
                0 <= v < n ==> (#[trigger] marked@[v] <==> grouped[v] || exists|j: int|
                    0 <= j < e && #[trigger] call_links(g)[j] == (v, v)),
        decreases es@.len() - e,
    {
        let from = es[e].0;
        let to = es[e].1;
        assert(call_links(g)[e as int] == (from.0 as int, to.0 as int));
        assert(g.has(g.edges[e as int].from));
        let ghost mid = marked@;
        if from == to {
            marked.set(from.index(), true);
        }
        proof {
            assert forall|x: int| 0 <= x < n implies (#[trigger] marked@[x] <==> grouped[x]
                || exists|j: int| 0 <= j < e + 1 && #[trigger] call_links(g)[j] == (x, x)) by {
                if from == to && x == from.0 {
                    assert(call_links(g)[e as int] == (x, x));
                } else {
                    assert(marked@[x] == mid[x]);
                    if exists|j: int| 0 <= j < e + 1 && #[trigger] call_links(g)[j] == (x, x) {
                        let j = choose|j: int|
                            0 <= j < e + 1 && #[trigger] call_links(g)[j] == (x, x);
                        assert(j < e);
                    }
                }
            }
        }
        e += 1;
    }
    proof {
        assert forall|v: int| 0 <= v < n implies #[trigger] marked@[v] == f(v) by {
            assert(listed(cs, v));
            let d = choose|d: int| 0 <= d < cs.len() && #[trigger] cs[d].contains(v);
            lemma_on_cycle(g, cs, d, v);
            if call_links(g).contains((v, v)) {
                let j = call_links(g).index_of((v, v));
                assert(call_links(g)[j] == (v, v));
            }
            if grouped[v] {
                let x = choose|x: int|
                    0 <= x < comps@.len() && cs[x].len() > 1 && #[trigger] cs[x].contains(v);
                assert(x == d) by {
                    assert(cs[x].contains(v) && cs[d].contains(v));
                    assert(reaches(call_links(g), v, v)) by {
                        let p = seq![v];
                        assert(p[0] == v && p.last() == v && is_trail(call_links(g), p));
                    }
                }
            }
        }
    }
    let mut total: usize = 0;
    let mut v: usize = 0;
    while v < n
        invariant
            v <= n == marked@.len(),
            forall|x: int| 0 <= x < n ==> #[trigger] marked@[x] == f(x),
            total == tally(v as int, f),
            total <= v,
        decreases n - v,
    {
        if marked[v] {
            total += 1;
        }
        v += 1;
    }
    total
}

// -- metrics --------------------------------------------------------------------------

pub open spec fn whole(n: int) -> Quotient {
    Quotient { num: n as i128, den: 1 }
}

/// The metrics of one node; none for placeholders.
pub open spec fn node_metrics(g: GraphModel, config: Config) -> spec_fn(int) -> Seq<Metric> {
    |i: int|
        {
            let n = g.nodes[i];
            let id = NodeId(i as u32);
            let m = |kind: MetricKind, value: Quotient| Metric { kind, value, node: Some(id) };
            if n.kind == NodeKind::External {
                Seq::empty()
            } else {
                seq![
                    m(MetricKind::CyclomaticComplexity, whole(n.complexity())),
                    m(MetricKind::FanIn, whole(caller_count(g, id) as int)),
                    m(MetricKind::FanOut, whole(callee_count(g, id) as int)),
                    m(
                        MetricKind::HeapAllocations,
                        Quotient {
                            num: (n.stats.allocations * config.metrics.heap_sensitivity.0) as i128,
                            den: WHOLE as u64,
                        },
                    ),
                    m(
                        MetricKind::PurityScore,
                        Quotient { num: purity(n) as i128, den: 100 },
                    ),
                ]
            }
        }
}

/// The fraction of nodes that stand on a cycle; zero for the empty graph.
pub open spec fn cyclicity(g: GraphModel) -> Quotient {
    if g.nodes.len() == 0 {
        Quotient { num: 0, den: 1 }
    } else {
        Quotient { num: cyclic_total(g) as i128, den: g.nodes.len() as u64 }
    }
}

/// All metrics of a graph.
pub open spec fn metrics_of(g: GraphModel, config: Config) -> Seq<Metric> {
    gather(g.nodes.len() as int, node_metrics(g, config)).push(
        Metric { kind: MetricKind::Cyclicity, value: cyclicity(g), node: None },
    )
}

/// Compute all metrics of a graph.
pub fn compute(graph: &CodeGraph, config: &Config) -> (r: Vec<Metric>)
    requires
        graph.wf(),
    ensures
        r@ == metrics_of(graph@, *config),
{
    let ghost g = graph@;
    let ghost f = node_metrics(g, *config);
    let mut out: Vec<Metric> = Vec::new();
    let n: usize = graph.node_count();
    let mut i: usize = 0;
    proof {
        graph.lemma_wf();
    }
    while i < n
        invariant
            graph.wf(),
            g == graph@,
            g.wf(),
            i <= n == g.nodes.len() <= u32::MAX,
            f == node_metrics(g, *config),
            out@ == gather(i as int, f),
        decreases n - i,
    {
        let node = graph.nodes_at(i);
        let ghost before = out@;
        if node.kind != NodeKind::External {
            let id = NodeId(i as u32);
            assert(g.nodes[i as int].valid());
            out.push(
                Metric::node(
                    MetricKind::CyclomaticComplexity,
                    id,
                    Quotient { num: node.cyclomatic_complexity() as i128, den: 1 },
                ),
            );
            out.push(
                Metric::node(
                    MetricKind::FanIn,
                    id,
                    Quotient { num: count_callers(graph, id) as i128, den: 1 },
                ),
            );
            out.push(
                Metric::node(
                    MetricKind::FanOut,
                    id,
                    Quotient { num: count_callees(graph, id) as i128, den: 1 },
                ),
            );
            let allocations: i128 = node.stats.allocations as i128;
            let factor: i128 = config.metrics.heap_sensitivity.0 as i128;
            proof {
                lemma_product(node.stats.allocations, config.metrics.heap_sensitivity.0);
            }
            out.push(
                Metric::node(
                    MetricKind::HeapAllocations,
                    id,
                    Quotient { num: allocations * factor, den: 1_000_000 },
                ),
            );
            out.push(
                Metric::node(
                    MetricKind::PurityScore,
                    id,
                    Quotient { num: purity_score(node) as i128, den: 100 },
                ),
            );
            assert(out@ =~= before + f(i as int));
        } else {
            assert(before + f(i as int) =~= before);
        }
        i += 1;
    }
    let value = if n == 0 {
        Quotient { num: 0, den: 1 }
    } else {
        Quotient { num: count_cyclic(graph) as i128, den: n as u64 }
    };
    out.push(Metric::project(MetricKind::Cyclicity, value));
    out
}

/// A count times a setting fits.
pub proof fn lemma_product(a: u32, b: i64)
    ensures
        i128::MIN <= a * b <= i128::MAX,
        (b >= 0 ==> a * b >= 0),
        (a * b) <= 0x7fff_ffff_ffff_ffff_ffff_ffff,
{
    assert(i128::MIN <= a * b <= i128::MAX && (b >= 0 ==> a * b >= 0) && (a * b)
        <= 0x7fff_ffff_ffff_ffff_ffff_ffff) by (nonlinear_arith)
        requires
            0 <= a <= u32::MAX,
            i64::MIN <= b <= i64::MAX,
    ;
}

} // verus!
