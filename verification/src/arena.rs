//! The storage of nodes and edges: a directed graph of the `petgraph` crate.
//!
//! Nodes and edges are numbered from zero in the order in which they were
//! inserted; nothing is ever removed.

use crate::graph::{Edge, Node};
use petgraph::graph::DiGraph;
use vstd::prelude::*;

verus! {

/// The graph type of `petgraph`, opaque.
#[verifier::external_type_specification]
#[verifier::external_body]
#[verifier::reject_recursive_types(N)]
#[verifier::reject_recursive_types(E)]
#[verifier::reject_recursive_types(Ty)]
#[verifier::reject_recursive_types(Ix)]
pub struct ExGraph<N, E, Ty, Ix>(petgraph::graph::Graph<N, E, Ty, Ix>);

/// The marker of directed graphs of `petgraph`.
#[verifier::external_type_specification]
#[verifier::external_body]
pub struct ExDirected(petgraph::Directed);

/// The node weights of a graph, by index.
pub uninterp spec fn arena_nodes(g: DiGraph<Node, Edge>) -> Seq<Node>;

/// The edges of a graph, by index: source, target and weight.
pub uninterp spec fn arena_edges(g: DiGraph<Node, Edge>) -> Seq<(int, int, Edge)>;

/// `Graph::new`: a graph without nodes and edges.
#[verifier::external_body]
pub(crate) fn new_arena() -> (g: DiGraph<Node, Edge>)
    ensures
        arena_nodes(g) == Seq::<Node>::empty(),
        arena_edges(g) == Seq::<(int, int, Edge)>::empty(),
{
    DiGraph::new()
}

/// `Graph::node_count`: the number of nodes. A graph holds fewer than 2^32 of
/// them, since `Graph::add_node` takes no more.
#[verifier::external_body]
pub(crate) fn node_total(g: &DiGraph<Node, Edge>) -> (n: usize)
    ensures
        n == arena_nodes(*g).len(),
{
    g.node_count()
}

/// `Graph::edge_count`: the number of edges.
#[verifier::external_body]
pub(crate) fn edge_total(g: &DiGraph<Node, Edge>) -> (n: usize)
    ensures
        n == arena_edges(*g).len(),
{
    g.edge_count()
}

/// `Graph::add_node`: appends the weight and answers with its index. It panics
/// where the index would be the greatest of its type, which the precondition
/// leaves out.
#[verifier::external_body]
pub(crate) fn insert_node(g: &mut DiGraph<Node, Edge>, n: Node) -> (i: usize)
    requires
        arena_nodes(*old(g)).len() < u32::MAX,
    ensures
        i == arena_nodes(*old(g)).len(),
        arena_nodes(*final(g)) == arena_nodes(*old(g)).push(n),
        arena_edges(*final(g)) == arena_edges(*old(g)),
{
    g.add_node(n).index()
}

/// `Graph`'s `Index` by node: the weight at that index.
#[verifier::external_body]
pub(crate) fn node_at(g: &DiGraph<Node, Edge>, i: usize) -> (n: &Node)
    requires
        i < arena_nodes(*g).len(),
    ensures
        *n == arena_nodes(*g)[i as int],
{
    &g[petgraph::graph::NodeIndex::new(i)]
}

/// `Graph`'s `IndexMut` by node: what is written through the reference is the
/// weight at that index; nothing else changes.
#[verifier::external_body]
pub(crate) fn node_at_mut(g: &mut DiGraph<Node, Edge>, i: usize) -> (n: &mut Node)
    requires
        i < arena_nodes(*old(g)).len(),
    ensures
        *n == arena_nodes(*old(g))[i as int],
        arena_nodes(*final(g)) == arena_nodes(*old(g)).update(i as int, *final(n)),
        arena_edges(*final(g)) == arena_edges(*old(g)),
{
    &mut g[petgraph::graph::NodeIndex::new(i)]
}

/// `Graph::add_edge`: appends an edge between two nodes and answers with its
/// index. It panics where an endpoint is no node or the index would be the
/// greatest of its type, which the preconditions leave out.
#[verifier::external_body]
pub(crate) fn insert_edge(g: &mut DiGraph<Node, Edge>, from: usize, to: usize, e: Edge) -> (i: usize)
    requires
        from < arena_nodes(*old(g)).len(),
        to < arena_nodes(*old(g)).len(),
        arena_edges(*old(g)).len() < u32::MAX,
    ensures
        i == arena_edges(*old(g)).len(),
        arena_nodes(*final(g)) == arena_nodes(*old(g)),
        arena_edges(*final(g)) == arena_edges(*old(g)).push((from as int, to as int, e)),
{
    g.add_edge(petgraph::graph::NodeIndex::new(from), petgraph::graph::NodeIndex::new(to), e).index()
}

/// `Graph::raw_edges`: source, target and weight of the edge at that index.
#[verifier::external_body]
pub(crate) fn edge_at(g: &DiGraph<Node, Edge>, i: usize) -> (r: (usize, usize, Edge))
    requires
        i < arena_edges(*g).len(),
    ensures
        (r.0 as int, r.1 as int, r.2) == arena_edges(*g)[i as int],
{
    let e = &g.raw_edges()[i];
    (e.source().index(), e.target().index(), e.weight)
}

/// `Graph`'s `IndexMut` by edge: what is written through the reference is the
/// weight at that index; the endpoints and everything else stay.
#[verifier::external_body]
pub(crate) fn edge_at_mut(g: &mut DiGraph<Node, Edge>, i: usize) -> (e: &mut Edge)
    requires
        i < arena_edges(*old(g)).len(),
    ensures
        *e == arena_edges(*old(g))[i as int].2,
        arena_nodes(*final(g)) == arena_nodes(*old(g)),
        arena_edges(*final(g)) == arena_edges(*old(g)).update(
            i as int,
            (arena_edges(*old(g))[i as int].0, arena_edges(*old(g))[i as int].1, *final(e)),
        ),
{
    &mut g[petgraph::graph::EdgeIndex::new(i)]
}

/// The indices below `n` of the edges that meet `pick`, the greatest first.
pub open spec fn picked(
    edges: Seq<(int, int, Edge)>,
    n: int,
    pick: spec_fn((int, int, Edge)) -> bool,
) -> Seq<int>
    decreases n,
{
    if n <= 0 {
        Seq::empty()
    } else if pick(edges[n - 1]) {
        seq![n - 1] + picked(edges, n - 1, pick)
    } else {
        picked(edges, n - 1, pick)
    }
}

/// `Graph::edges_directed` with `Outgoing`: the indices of the edges whose source
/// is the node, the latest inserted first; none where there is no such node.
#[verifier::external_body]
pub(crate) fn edges_from(g: &DiGraph<Node, Edge>, i: u32) -> (r: Vec<usize>)
    ensures
        r@.map_values(|x: usize| x as int) == picked(
            arena_edges(*g),
            arena_edges(*g).len() as int,
            |e: (int, int, Edge)| e.0 == i,
        ),
{
    let a = petgraph::graph::NodeIndex::new(i as usize);
    g.edges_directed(a, petgraph::Direction::Outgoing)
        .map(|e| petgraph::visit::EdgeRef::id(&e).index())
        .collect()
}

/// `Graph::edges_directed` with `Incoming`: the indices of the edges whose target
/// is the node, the latest inserted first; none where there is no such node.
#[verifier::external_body]
pub(crate) fn edges_into(g: &DiGraph<Node, Edge>, i: u32) -> (r: Vec<usize>)
    ensures
        r@.map_values(|x: usize| x as int) == picked(
            arena_edges(*g),
            arena_edges(*g).len() as int,
            |e: (int, int, Edge)| e.1 == i,
        ),
{
    let a = petgraph::graph::NodeIndex::new(i as usize);
    g.edges_directed(a, petgraph::Direction::Incoming)
        .map(|e| petgraph::visit::EdgeRef::id(&e).index())
        .collect()
}

// -- components -----------------------------------------------------------------------

/// The endpoints of the edges.
pub open spec fn endpoints(edges: Seq<(int, int, Edge)>) -> Seq<(int, int)> {
    edges.map_values(|e: (int, int, Edge)| (e.0, e.1))
}

/// A link leads from place `i` of `p` to the next.
pub open spec fn linked_at(links: Seq<(int, int)>, p: Seq<int>, i: int) -> bool {
    links.contains((p[i], p[i + 1]))
}

/// `p` goes along the links.
pub open spec fn is_trail(links: Seq<(int, int)>, p: Seq<int>) -> bool {
    forall|i: int| 0 <= i < p.len() - 1 ==> #[trigger] linked_at(links, p, i)
}

/// Node `b` can be reached from node `a`; a node reaches itself.
pub open spec fn reaches(links: Seq<(int, int)>, a: int, b: int) -> bool {
    exists|p: Seq<int>| p.len() > 0 && p[0] == a && p.last() == b && is_trail(links, p)
}

/// Some component lists node `v`.
pub open spec fn listed(comps: Seq<Seq<int>>, v: int) -> bool {
    exists|c: int| 0 <= c < comps.len() && #[trigger] comps[c].contains(v)
}

/// The nodes below `n` are divided among `comps`, each in one of them and once; two
/// nodes are in the same one exactly when they reach each other.
pub open spec fn divides(comps: Seq<Seq<int>>, n: int, links: Seq<(int, int)>) -> bool {
    &&& forall|c: int, i: int|
        0 <= c < comps.len() && 0 <= i < comps[c].len() ==> 0 <= #[trigger] comps[c][i] < n
    &&& forall|c: int| 0 <= c < comps.len() ==> (#[trigger] comps[c]).no_duplicates()
    &&& forall|v: int| 0 <= v < n ==> #[trigger] listed(comps, v)
    &&& forall|c: int, d: int, u: int, v: int|
        0 <= c < comps.len() && 0 <= d < comps.len() && #[trigger] comps[c].contains(u)
            && #[trigger] comps[d].contains(v) ==> (c == d <==> reaches(links, u, v) && reaches(
            links,
            v,
            u,
        ))
}

/// The strongly connected components in the order in which Tarjan's algorithm lists
/// them.
pub uninterp spec fn components(n: int, links: Seq<(int, int)>) -> Seq<Seq<int>>;

/// The numbers of the components' nodes.
pub open spec fn number_lists(r: Seq<Vec<u32>>) -> Seq<Seq<int>> {
    r.map_values(|c: Vec<u32>| c@.map_values(|x: u32| x as int))
}

/// `petgraph::algo::tarjan_scc`: the strongly connected components of the graph. The
/// list is a function of the number of nodes and of the edges' endpoints; it divides
/// the nodes into classes of nodes that reach each other.
#[verifier::external_body]
pub(crate) fn strong_components(g: &DiGraph<Node, Edge>) -> (r: Vec<Vec<u32>>)
    ensures
        number_lists(r@) == components(
            arena_nodes(*g).len() as int,
            endpoints(arena_edges(*g)),
        ),
        divides(
            number_lists(r@),
            arena_nodes(*g).len() as int,
            endpoints(arena_edges(*g)),
        ),
{
    petgraph::algo::tarjan_scc(g)
        .into_iter()
        .map(|c| c.into_iter().map(|i| i.index() as u32).collect())
        .collect()
}

} // verus!
