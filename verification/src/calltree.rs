//! Bounded call trees: what a symbol triggers, or who triggers it, shaped for
//! display.
//!
//! The tree is filled level by level. A symbol is expanded where it is met first,
//! at its shallowest depth; every later occurrence is a leaf marked `repeat`, so
//! the tree stays small on cyclic graphs.

use crate::flow::upto;
use crate::graph::{edge_of, lemma_neighbors, CodeGraph, Edge, EdgeExport, GraphModel, NodeKind};
use crate::ids::NodeId;
use crate::nav::{law_call_tree_can_be_shown, tree_known};
use crate::order::{
    arrange, arranged, key_lt, key_views, lemma_arrange_has, lemma_key_push, lemma_order_exists,
    placed_before, ranks_lt, stable_order, text_key, KeyModel, SortKey,
};
use crate::reach::{distinct, joined, lemma_joined, neighbors, Direction};
use crate::seqs::{lemma_filter_has, lemma_push_has};
use crate::text::{lemma_text_lt_total, text_lt};
use std::collections::HashSet;
use vstd::prelude::*;

verus! {

/// What a call tree shows.
#[derive(Debug, Clone, Copy, PartialEq, Eq, Structural)]
pub struct CallTreeOptions {
    pub direction: Direction,
    /// Levels below the root to expand.
    pub max_depth: u32,
    /// Children shown per node; the rest are counted.
    pub max_children: usize,
    /// Show unresolved targets as leaves.
    pub include_external: bool,
}

impl Default for CallTreeOptions {
    fn default() -> (r: Self)
        ensures
            r == (CallTreeOptions {
                direction: Direction::Callees,
                max_depth: 3,
                max_children: 12,
                include_external: false,
            }),
    {
        CallTreeOptions {
            direction: Direction::Callees,
            max_depth: 3,
            max_children: 12,
            include_external: false,
        }
    }
}

/// One node of a bounded call tree.
#[derive(Debug)]
pub struct CallTreeNode {
    pub id: NodeId,
    pub depth: u32,
    pub children: Vec<CallTreeNode>,
    /// Children left out by `max_children`.
    pub truncated: usize,
    /// The symbol stands elsewhere in the tree, at this depth or above; here it is
    /// a leaf.
    pub repeat: bool,
}

/// The mathematical content of a [`CallTreeNode`].
#[verifier::ext_equal]
pub struct TreeModel {
    pub id: NodeId,
    pub depth: nat,
    pub children: Seq<TreeModel>,
    pub truncated: nat,
    pub repeat: bool,
}

/// The content of a tree.
pub open spec fn tree_model(n: CallTreeNode) -> TreeModel
    decreases n,
{
    TreeModel {
        id: n.id,
        depth: n.depth as nat,
        children: Seq::new(
            n.children@.len(),
            |i: int|
                if 0 <= i < n.children@.len() {
                    tree_model(n.children@[i])
                } else {
                    arbitrary()
                },
        ),
        truncated: n.truncated as nat,
        repeat: n.repeat,
    }
}

/// The number of nodes of a tree.
pub open spec fn tree_size(t: TreeModel) -> int
    decreases t, 1nat, 0nat,
{
    1 + children_size(t, t.children.len())
}

/// The number of nodes under the first `n` children.
pub open spec fn children_size(t: TreeModel, n: nat) -> int
    decreases t, 0nat, n,
{
    if n == 0 || n > t.children.len() {
        0
    } else {
        children_size(t, (n - 1) as nat) + tree_size(t.children[n - 1])
    }
}

proof fn lemma_tree_size(t: TreeModel)
    ensures
        tree_size(t) >= 1,
    decreases t, 1nat, 0nat,
{
    lemma_children_size(t, t.children.len());
}

proof fn lemma_children_size(t: TreeModel, n: nat)
    ensures
        children_size(t, n) >= 0,
        forall|m: nat| m <= n <= t.children.len() ==> children_size(t, m) <= children_size(t, n),
    decreases t, 0nat, n,
{
    if n > 0 && n <= t.children.len() {
        lemma_children_size(t, (n - 1) as nat);
        lemma_tree_size(t.children[n - 1]);
    }
}

impl CallTreeNode {
    /// The number of nodes in this tree, itself included.
    pub fn size(&self) -> (r: usize)
        requires
            tree_size(tree_model(*self)) <= usize::MAX,
        ensures
            r == tree_size(tree_model(*self)),
        decreases self,
    {
        let ghost t = tree_model(*self);
        let mut total: usize = 0;
        let mut i: usize = 0;
        while i < self.children.len()
            invariant
                i <= self.children@.len(),
                t == tree_model(*self),
                tree_size(t) <= usize::MAX,
                total == children_size(t, i as nat),
            decreases self.children@.len() - i,
        {
            proof {
                lemma_children_size(t, t.children.len());
                lemma_tree_size(t.children[i as int]);
                lemma_children_size(t, i as nat);
                assert(children_size(t, (i + 1) as nat) == children_size(t, i as nat) + tree_size(
                    t.children[i as int],
                ));
            }
            total += self.children[i].size();
            i += 1;
        }
        total + 1
    }
}

// -- children -------------------------------------------------------------------

/// The neighbors with the line that orders them: the line of the call for callees,
/// none for callers.
pub open spec fn kid_calls(g: GraphModel, dir: Direction, id: NodeId) -> Seq<(NodeId, u32)> {
    match dir {
        Direction::Callees => g.edges_out(id).map_values(
            |e: EdgeExport| (e.to, e.call_site.start_line),
        ),
        Direction::Callers => g.edges_in(id).map_values(|e: EdgeExport| (e.from, 0u32)),
    }
}

/// The neighbors that may be shown.
pub open spec fn shown_calls(g: GraphModel, opts: CallTreeOptions, id: NodeId) -> Seq<(NodeId, u32)> {
    kid_calls(g, opts.direction, id).filter(
        |k: (NodeId, u32)| opts.include_external || g.node(k.0).kind != NodeKind::External,
    )
}

/// Definitions before unresolved targets, then by line, then by name.
pub open spec fn kid_key(g: GraphModel, k: (NodeId, u32)) -> KeyModel {
    text_key(
        seq![
            if g.node(k.0).kind == NodeKind::External {
                1u64
            } else {
                0u64
            },
            k.1 as u64,
        ],
        g.node(k.0).qualified_name,
    )
}

pub open spec fn kid_keys(g: GraphModel, calls: Seq<(NodeId, u32)>) -> Seq<KeyModel> {
    calls.map_values(|k: (NodeId, u32)| kid_key(g, k))
}

/// The children of a symbol, each once, where it is first called.
pub open spec fn kids(g: GraphModel, opts: CallTreeOptions, id: NodeId) -> Seq<NodeId> {
    let calls = shown_calls(g, opts, id);
    joined(
        Seq::empty(),
        arrange(calls, kid_keys(g, calls)).map_values(|k: (NodeId, u32)| k.0),
    )
}

/// The children that are shown.
pub open spec fn shown_kids(g: GraphModel, opts: CallTreeOptions, id: NodeId) -> Seq<NodeId> {
    upto(kids(g, opts, id), opts.max_children as int)
}

// -- levels ---------------------------------------------------------------------

/// The occurrences at depth `k`, from left to right.
pub open spec fn level(g: GraphModel, root: NodeId, opts: CallTreeOptions, k: nat) -> Seq<NodeId>
    decreases k, 0nat, 0nat,
{
    if k == 0 {
        seq![root]
    } else {
        let up = (k - 1) as nat;
        offspring(g, root, opts, up, level(g, root, opts, up).len())
    }
}

/// The symbols that occur above depth `k`.
pub open spec fn met(g: GraphModel, root: NodeId, opts: CallTreeOptions, k: nat) -> Seq<NodeId>
    decreases k, 0nat, 0nat,
{
    if k == 0 {
        Seq::empty()
    } else {
        let up = (k - 1) as nat;
        joined(met(g, root, opts, up), level(g, root, opts, up))
    }
}

/// The `i`-th occurrence at depth `k` is the first of its symbol.
pub open spec fn fresh(g: GraphModel, root: NodeId, opts: CallTreeOptions, k: nat, i: int) -> bool
    decreases k, 1nat, 0nat,
{
    let here = level(g, root, opts, k);
    !joined(met(g, root, opts, k), here.take(i)).contains(here[i])
}

/// The children shown under the `i`-th occurrence at depth `k`.
pub open spec fn branch(
    g: GraphModel,
    root: NodeId,
    opts: CallTreeOptions,
    k: nat,
    i: int,
) -> Seq<NodeId>
    decreases k, 2nat, 0nat,
{
    if fresh(g, root, opts, k, i) && k < opts.max_depth {
        shown_kids(g, opts, level(g, root, opts, k)[i])
    } else {
        Seq::empty()
    }
}

/// The children shown under the first `n` occurrences at depth `k`.
pub open spec fn offspring(
    g: GraphModel,
    root: NodeId,
    opts: CallTreeOptions,
    k: nat,
    n: nat,
) -> Seq<NodeId>
    decreases k, 3nat, n,
{
    if n == 0 {
        Seq::empty()
    } else {
        offspring(g, root, opts, k, (n - 1) as nat) + branch(g, root, opts, k, n - 1)
    }
}

/// The tree under the `i`-th occurrence at depth `k`.
pub open spec fn tree_at(
    g: GraphModel,
    root: NodeId,
    opts: CallTreeOptions,
    k: nat,
    i: int,
) -> TreeModel
    decreases opts.max_depth - k,
{
    let id = level(g, root, opts, k)[i];
    let first = offspring(g, root, opts, k, i as nat).len();
    let new = fresh(g, root, opts, k, i);
    TreeModel {
        id,
        depth: k,
        children: if k < opts.max_depth {
            Seq::new(
                branch(g, root, opts, k, i).len(),
                |j: int| tree_at(g, root, opts, k + 1, first + j),
            )
        } else {
            Seq::empty()
        },
        truncated: if new && k < opts.max_depth {
            (kids(g, opts, id).len() - shown_kids(g, opts, id).len()) as nat
        } else {
            0
        },
        repeat: !new,
    }
}

// -- laws -------------------------------------------------------------------------

proof fn lemma_met(g: GraphModel, root: NodeId, opts: CallTreeOptions, j: nat, k: nat, x: NodeId)
    requires
        j < k,
        level(g, root, opts, j).contains(x),
    ensures
        met(g, root, opts, k).contains(x),
    decreases k,
{
    let up = (k - 1) as nat;
    lemma_joined(met(g, root, opts, up), level(g, root, opts, up));
    if j < up {
        lemma_met(g, root, opts, j, up, x);
    }
}

/// A symbol is expanded once, where it is met first: of two occurrences of a
/// symbol, the one further down, or further right at the same depth, is a repeat.
pub proof fn law_expanded_once_at_shallowest_depth(
    g: GraphModel,
    root: NodeId,
    opts: CallTreeOptions,
    j: nat,
    a: int,
    k: nat,
    b: int,
)
    requires
        j < k || (j == k && a < b),
        0 <= a < level(g, root, opts, j).len(),
        0 <= b < level(g, root, opts, k).len(),
        level(g, root, opts, j)[a] == level(g, root, opts, k)[b],
    ensures
        tree_at(g, root, opts, k, b).repeat,
        tree_at(g, root, opts, k, b).children.len() == 0,
{
    let here = level(g, root, opts, k);
    lemma_joined(met(g, root, opts, k), here.take(b));
    if j < k {
        assert(level(g, root, opts, j).contains(here[b]));
        lemma_met(g, root, opts, j, k, here[b]);
    } else {
        assert(here.take(b)[a] == here[b]);
        assert(here.take(b).contains(here[b]));
    }
    assert(joined(met(g, root, opts, k), here.take(b)).contains(here[b]));
}

/// The root is expanded, and no node stands deeper than the limit.
pub proof fn law_tree_respects_depth_limit(
    g: GraphModel,
    root: NodeId,
    opts: CallTreeOptions,
    k: nat,
)
    ensures
        !tree_at(g, root, opts, 0, 0).repeat,
        k > opts.max_depth ==> level(g, root, opts, k).len() == 0,
    decreases k,
{
    lemma_joined(Seq::empty(), Seq::empty());
    assert(level(g, root, opts, 0).take(0) =~= Seq::empty());
    if k > opts.max_depth {
        let up = (k - 1) as nat;
        lemma_no_offspring(g, root, opts, up, level(g, root, opts, up).len());
    }
}

proof fn lemma_no_offspring(
    g: GraphModel,
    root: NodeId,
    opts: CallTreeOptions,
    k: nat,
    n: nat,
)
    requires
        k >= opts.max_depth,
    ensures
        offspring(g, root, opts, k, n).len() == 0,
    decreases n,
{
    if n > 0 {
        lemma_no_offspring(g, root, opts, k, (n - 1) as nat);
        assert(branch(g, root, opts, k, n - 1).len() == 0);
    }
}

pub proof fn lemma_offspring_monotone(
    g: GraphModel,
    root: NodeId,
    opts: CallTreeOptions,
    k: nat,
    m: nat,
    n: nat,
)
    requires
        m <= n,
    ensures
        offspring(g, root, opts, k, m).len() <= offspring(g, root, opts, k, n).len(),
    decreases n,
{
    if m < n {
        lemma_offspring_monotone(g, root, opts, k, m, (n - 1) as nat);
    }
}

// -- what stands under a symbol -------------------------------------------------------

/// The distinct symbols that may stand under a symbol: its neighbors, without unresolved
/// targets unless they are asked for.
pub open spec fn kid_set(g: GraphModel, opts: CallTreeOptions, id: NodeId) -> Set<NodeId> {
    neighbors(g, opts.direction, id).to_set().filter(
        |x: NodeId| opts.include_external || g.node(x).kind != NodeKind::External,
    )
}

/// Whether the node is an unresolved target.
pub open spec fn unresolved(g: GraphModel, id: NodeId) -> bool {
    g.node(id).kind == NodeKind::External
}

/// The first call from `id` to `a` stands no later than the first to `b`: for each call
/// to `b`, there is one to `a` on the same line or above.
pub open spec fn called_no_later(g: GraphModel, id: NodeId, a: NodeId, b: NodeId) -> bool {
    let es = g.edges_out(id);
    forall|j: int|
        0 <= j < es.len() && (#[trigger] es[j]).to == b ==> exists|i: int|
            0 <= i < es.len() && (#[trigger] es[i]).to == a && es[i].call_site.start_line
                <= es[j].call_site.start_line
}

/// Under `id`, `a` may stand before `b`: definitions come before unresolved targets; of
/// the same sort, callees come by their first call, callers by name.
pub open spec fn stands_before(
    g: GraphModel,
    opts: CallTreeOptions,
    id: NodeId,
    a: NodeId,
    b: NodeId,
) -> bool {
    &&& unresolved(g, a) ==> unresolved(g, b)
    &&& unresolved(g, a) == unresolved(g, b) ==> match opts.direction {
        Direction::Callees => called_no_later(g, id, a, b),
        Direction::Callers => !text_lt(g.node(b).qualified_name, g.node(a).qualified_name),
    }
}

/// The ids of the children of a node.
pub open spec fn child_ids(t: TreeModel) -> Seq<NodeId> {
    t.children.map_values(|c: TreeModel| c.id)
}

/// What stands directly under a node is what the options ask for. Under a node that is
/// expanded stand distinct neighbors in order, as many as there are up to the limit, and
/// `truncated` counts the rest; a repeat and a node at the depth limit are leaves.
pub open spec fn well_branched(t: TreeModel, g: GraphModel, opts: CallTreeOptions) -> bool {
    let ids = child_ids(t);
    let all = kid_set(g, opts, t.id);
    &&& forall|i: int| 0 <= i < t.children.len() ==> (#[trigger] t.children[i]).depth == t.depth + 1
    &&& if !t.repeat && t.depth < opts.max_depth {
        &&& all.finite()
        &&& ids.no_duplicates()
        &&& forall|i: int| 0 <= i < ids.len() ==> all.contains(#[trigger] ids[i])
        &&& ids.len() == if all.len() <= opts.max_children {
            all.len()
        } else {
            opts.max_children as nat
        }
        &&& t.truncated == all.len() - ids.len()
        &&& forall|i: int, j: int|
            0 <= i < j < ids.len() ==> stands_before(
                g,
                opts,
                t.id,
                #[trigger] ids[i],
                #[trigger] ids[j],
            )
    } else {
        ids.len() == 0 && t.truncated == 0
    }
}

/// The same of every node of a tree.
pub open spec fn all_well_branched(t: TreeModel, g: GraphModel, opts: CallTreeOptions) -> bool
    decreases t,
{
    &&& well_branched(t, g, opts)
    &&& forall|i: int|
        0 <= i < t.children.len() ==> all_well_branched(#[trigger] t.children[i], g, opts)
}

proof fn lemma_joined_first(found: Seq<NodeId>, i: int, j: int) -> (p: int)
    requires
        0 <= i < j < joined(Seq::empty(), found).len(),
    ensures
        0 <= p < found.len(),
        found[p] == joined(Seq::empty(), found)[i],
        forall|q: int|
            0 <= q < found.len() && #[trigger] found[q] == joined(Seq::empty(), found)[j] ==> p < q,
    decreases found.len(),
{
    let none = Seq::<NodeId>::empty();
    let rest = found.drop_last();
    let n = found.len() - 1;
    let front = joined(none, rest);
    let all = joined(none, found);
    lemma_joined(none, rest);
    if j < front.len() {
        let p = lemma_joined_first(rest, i, j);
        assert(rest[p] == found[p]);
        assert forall|q: int| 0 <= q < found.len() && #[trigger] found[q] == all[j] implies p
            < q by {
            if q < n {
                assert(rest[q] == found[q]);
            }
        }
        p
    } else {
        assert(front.contains(all[i])) by {
            assert(front[i] == all[i]);
        }
        let p = rest.index_of(all[i]);
        assert(found[p] == rest[p]);
        assert forall|q: int| 0 <= q < found.len() && #[trigger] found[q] == all[j] implies p
            < q by {
            if q < n {
                assert(rest[q] == found[q]);
                assert(rest.contains(all[j]));
                assert(front.contains(found.last()));
            }
        }
        p
    }
}

proof fn lemma_kid_order(g: GraphModel, a: (NodeId, u32), b: (NodeId, u32))
    requires
        key_lt(kid_key(g, a), kid_key(g, b)) || kid_key(g, a) == kid_key(g, b),
    ensures
        unresolved(g, a.0) ==> unresolved(g, b.0),
        unresolved(g, a.0) == unresolved(g, b.0) ==> a.1 <= b.1,
        unresolved(g, a.0) == unresolved(g, b.0) && a.1 == b.1 ==> !text_lt(
            g.node(b.0).qualified_name,
            g.node(a.0).qualified_name,
        ),
{
    let x = kid_key(g, a).ranks;
    let y = kid_key(g, b).ranks;
    assert(x.skip(1)[0] == x[1] && y.skip(1)[0] == y[1]);
    reveal_with_fuel(ranks_lt, 3);
    lemma_text_lt_total(g.node(a.0).qualified_name, g.node(b.0).qualified_name);
}

proof fn lemma_kid_calls(g: GraphModel, dir: Direction, id: NodeId)
    ensures
        kid_calls(g, dir, id).map_values(|k: (NodeId, u32)| k.0) == neighbors(g, dir, id),
{
    assert(kid_calls(g, dir, id).map_values(|k: (NodeId, u32)| k.0) =~= neighbors(g, dir, id));
}

/// The children of a symbol are the symbols that may stand under it, each once.
proof fn lemma_kids(g: GraphModel, opts: CallTreeOptions, id: NodeId)
    ensures
        kids(g, opts, id).no_duplicates(),
        kids(g, opts, id).to_set() == kid_set(g, opts, id),
        kid_set(g, opts, id).finite(),
        kid_set(g, opts, id).len() == kids(g, opts, id).len(),
{
    let keep = |k: (NodeId, u32)| opts.include_external || g.node(k.0).kind != NodeKind::External;
    let all = kid_calls(g, opts.direction, id);
    let near = neighbors(g, opts.direction, id);
    let calls = shown_calls(g, opts, id);
    let keys = kid_keys(g, calls);
    let sorted = arrange(calls, keys);
    let names = sorted.map_values(|k: (NodeId, u32)| k.0);
    lemma_kid_calls(g, opts.direction, id);
    lemma_filter_has(all, keep);
    lemma_arrange_has(calls, keys);
    lemma_joined(Seq::empty(), names);
    let set = kid_set(g, opts, id);
    assert forall|x: NodeId| kids(g, opts, id).to_set().contains(x) <==> set.contains(x) by {
        if names.contains(x) {
            let p = names.index_of(x);
            assert(sorted.contains(sorted[p]));
            assert(calls.contains(sorted[p]));
            assert(all.contains(sorted[p]));
            let m = all.index_of(sorted[p]);
            assert(near[m] == all.map_values(|k: (NodeId, u32)| k.0)[m]);
            assert(near.contains(x));
        }
        if set.contains(x) {
            let m = near.index_of(x);
            assert(near[m] == all.map_values(|k: (NodeId, u32)| k.0)[m]);
            assert(all.contains(all[m]));
            assert(keep(all[m]));
            assert(calls.contains(all[m]));
            assert(sorted.contains(all[m]));
            let p = sorted.index_of(all[m]);
            assert(names[p] == x);
            assert(names.contains(x));
        }
        assert(kids(g, opts, id).contains(x) <==> names.contains(x));
    }
    assert(kids(g, opts, id).to_set() =~= set);
    kids(g, opts, id).unique_seq_to_set();
}

proof fn lemma_kids_in_order(g: GraphModel, opts: CallTreeOptions, id: NodeId, i: int, j: int)
    requires
        0 <= i < j < kids(g, opts, id).len(),
    ensures
        stands_before(g, opts, id, kids(g, opts, id)[i], kids(g, opts, id)[j]),
{
    let keep = |k: (NodeId, u32)| opts.include_external || g.node(k.0).kind != NodeKind::External;
    let all = kid_calls(g, opts.direction, id);
    let calls = shown_calls(g, opts, id);
    let keys = kid_keys(g, calls);
    let order = stable_order(keys);
    let sorted = arrange(calls, keys);
    let names = sorted.map_values(|k: (NodeId, u32)| k.0);
    let a = kids(g, opts, id)[i];
    let b = kids(g, opts, id)[j];
    lemma_filter_has(all, keep);
    lemma_order_exists(keys);
    lemma_arrange_has(calls, keys);
    lemma_joined(Seq::empty(), names);
    let p = lemma_joined_first(names, i, j);
    assert(sorted[p].0 == a);
    assert forall|m: int| 0 <= m < calls.len() && (#[trigger] calls[m]).0 == b implies {
        &&& unresolved(g, a) ==> unresolved(g, b)
        &&& unresolved(g, a) == unresolved(g, b) ==> sorted[p].1 <= calls[m].1
        &&& unresolved(g, a) == unresolved(g, b) && sorted[p].1 == calls[m].1 ==> !text_lt(
            g.node(b).qualified_name,
            g.node(a).qualified_name,
        )
    } by {
        assert(order.contains(m));
        let q = order.index_of(m);
        assert(sorted[q] == calls[m]);
        assert(names[q] == b);
        assert(p < q);
        assert(placed_before(keys, order[p], order[q]));
        assert(keys[order[p]] == kid_key(g, sorted[p]));
        assert(keys[order[q]] == kid_key(g, sorted[q]));
        lemma_kid_order(g, sorted[p], sorted[q]);
    }
    assert(kids(g, opts, id).contains(b));
    assert(names.contains(b));
    let q = names.index_of(b);
    assert(sorted.contains(sorted[q]));
    assert(calls.contains(sorted[q]));
    let m = calls.index_of(sorted[q]);
    assert(calls[m].0 == b);
    assert(sorted.contains(sorted[p]));
    assert(calls.contains(sorted[p]));
    assert(all.contains(sorted[p]));
    let n = all.index_of(sorted[p]);
    assert(all.contains(calls[m])) by {
        assert(calls.contains(calls[m]));
    }
    match opts.direction {
        Direction::Callees => {
            if unresolved(g, a) == unresolved(g, b) {
                let es = g.edges_out(id);
                assert(es[n].to == a && es[n].call_site.start_line == sorted[p].1);
                assert forall|x: int| 0 <= x < es.len() && (#[trigger] es[x]).to == b implies exists|
                    y: int,
                |
                    0 <= y < es.len() && (#[trigger] es[y]).to == a && es[y].call_site.start_line
                        <= es[x].call_site.start_line by {
                    assert(all[x] == (b, es[x].call_site.start_line));
                    assert(all.contains(all[x]));
                    assert(keep(calls[m]));
                    assert(keep(all[x]));
                    assert(calls.contains(all[x]));
                    let z = calls.index_of(all[x]);
                    assert(calls[z].0 == b);
                }
            }
        },
        Direction::Callers => {
            assert(all[n].1 == 0);
            let z = all.index_of(calls[m]);
            assert(all[z].1 == 0);
        },
    }
}

proof fn lemma_offspring_at(
    g: GraphModel,
    root: NodeId,
    opts: CallTreeOptions,
    k: nat,
    n: nat,
    i: int,
    j: int,
)
    requires
        0 <= i < n,
        0 <= j < branch(g, root, opts, k, i).len(),
    ensures
        offspring(g, root, opts, k, i as nat).len() + j < offspring(g, root, opts, k, n).len(),
        offspring(g, root, opts, k, n)[offspring(g, root, opts, k, i as nat).len() + j] == branch(
            g,
            root,
            opts,
            k,
            i,
        )[j],
    decreases n,
{
    if i < n - 1 {
        lemma_offspring_at(g, root, opts, k, (n - 1) as nat, i, j);
    }
}

proof fn lemma_well_branched(g: GraphModel, root: NodeId, opts: CallTreeOptions, k: nat, i: int)
    requires
        0 <= i < level(g, root, opts, k).len(),
    ensures
        all_well_branched(tree_at(g, root, opts, k, i), g, opts),
    decreases opts.max_depth - k,
{
    let t = tree_at(g, root, opts, k, i);
    let here = level(g, root, opts, k);
    let all = kids(g, opts, here[i]);
    let own = branch(g, root, opts, k, i);
    let first = offspring(g, root, opts, k, i as nat).len();
    let ids = child_ids(t);
    lemma_kids(g, opts, here[i]);
    if k < opts.max_depth {
        assert forall|j: int| 0 <= j < t.children.len() implies all_well_branched(
            #[trigger] t.children[j],
            g,
            opts,
        ) && t.children[j].depth == t.depth + 1 && ids[j] == own[j] by {
            lemma_offspring_at(g, root, opts, k, here.len(), i, j);
            assert(t.children[j] == tree_at(g, root, opts, k + 1, first + j));
            lemma_well_branched(g, root, opts, k + 1, first + j);
        }
        assert(ids =~= own);
        if !t.repeat {
            assert forall|j: int| 0 <= j < ids.len() implies kid_set(g, opts, t.id).contains(
                #[trigger] ids[j],
            ) by {
                assert(all[j] == ids[j]);
                assert(all.to_set().contains(all[j]));
            }
            assert forall|a: int, b: int| 0 <= a < b < ids.len() implies stands_before(
                g,
                opts,
                t.id,
                #[trigger] ids[a],
                #[trigger] ids[b],
            ) by {
                assert(all[a] == ids[a] && all[b] == ids[b]);
                lemma_kids_in_order(g, opts, here[i], a, b);
            }
            assert forall|a: int, b: int| 0 <= a < ids.len() && 0 <= b < ids.len() && a != b
                implies ids[a] != ids[b] by {
                assert(all[a] == ids[a] && all[b] == ids[b]);
            }
        }
    } else {
        assert(ids =~= Seq::empty());
    }
}

/// Every node of a call tree is branched as the options ask: under an expanded node stand
/// distinct neighbors, as many as there are up to the limit, definitions before
/// unresolved targets, callees by their first call and callers by name; `truncated`
/// counts those left out. Repeats and nodes at the depth limit are leaves.
pub proof fn law_children_are_the_neighbors(g: GraphModel, root: NodeId, opts: CallTreeOptions)
    ensures
        all_well_branched(tree_at(g, root, opts, 0, 0), g, opts),
{
    lemma_well_branched(g, root, opts, 0, 0);
}

// -- building -----------------------------------------------------------------------

pub proof fn lemma_kid_calls_has(g: GraphModel, dir: Direction, id: NodeId)
    requires
        g.wf(),
    ensures
        forall|i: int|
            0 <= i < kid_calls(g, dir, id).len() ==> g.has(
                (#[trigger] kid_calls(g, dir, id)[i]).0,
            ),
{
    lemma_neighbors(g);
    let calls = kid_calls(g, dir, id);
    assert forall|i: int| 0 <= i < calls.len() implies g.has((#[trigger] calls[i]).0) by {
        match dir {
            Direction::Callees => {
                assert(g.neighbors_out(id)[i] == calls[i].0);
                assert(g.neighbors_out(id).contains(calls[i].0));
                assert(g.calls(id, calls[i].0));
            },
            Direction::Callers => {
                assert(g.neighbors_in(id)[i] == calls[i].0);
                assert(g.neighbors_in(id).contains(calls[i].0));
                assert(g.calls(calls[i].0, id));
            },
        }
    }
}

/// The neighbors that may be shown, with their lines.
fn list_calls(graph: &CodeGraph, opts: &CallTreeOptions, id: NodeId) -> (r: Vec<(NodeId, u32)>)
    requires
        graph.wf(),
    ensures
        r@ == shown_calls(graph@, *opts, id),
        forall|i: int| 0 <= i < r@.len() ==> graph@.has((#[trigger] r@[i]).0),
{
    let ghost g = graph@;
    let ghost all = kid_calls(g, opts.direction, id);
    let ghost keep = |k: (NodeId, u32)|
        opts.include_external || g.node(k.0).kind != NodeKind::External;
    proof {
        graph.lemma_wf();
        lemma_kid_calls_has(g, opts.direction, id);
        reveal(Seq::filter);
        assert(all.take(0) =~= Seq::empty());
    }
    let es: Vec<(NodeId, Edge)> = match opts.direction {
        Direction::Callees => graph.edges_out(id),
        Direction::Callers => graph.edges_in(id),
    };
    let mut out: Vec<(NodeId, u32)> = Vec::new();
    let mut i: usize = 0;
    while i < es.len()
        invariant
            g == graph@,
            i <= es@.len() == all.len(),
            keep == (|k: (NodeId, u32)|
                opts.include_external || g.node(k.0).kind != NodeKind::External),
            all == kid_calls(g, opts.direction, id),
            match opts.direction {
                Direction::Callees => es@ == g.edges_out(id).map_values(
                    |e: EdgeExport| (e.to, edge_of(e)),
                ),
                Direction::Callers => es@ == g.edges_in(id).map_values(
                    |e: EdgeExport| (e.from, edge_of(e)),
                ),
            },
            forall|j: int| 0 <= j < all.len() ==> g.has((#[trigger] all[j]).0),
            out@ == all.take(i as int).filter(keep),
            forall|j: int| 0 <= j < out@.len() ==> g.has((#[trigger] out@[j]).0),
        decreases es@.len() - i,
    {
        let line: u32 = match opts.direction {
            Direction::Callees => es[i].1.call_site.start_line,
            Direction::Callers => 0,
        };
        let k = (es[i].0, line);
        proof {
            assert(k == all[i as int]);
            reveal(Seq::filter);
            assert(all.take(i + 1).drop_last() =~= all.take(i as int));
            assert(all.take(i + 1).last() == k);
        }
        if opts.include_external || graph.node(k.0).kind != NodeKind::External {
            out.push(k);
        }
        i += 1;
    }
    assert(all.take(all.len() as int) =~= all);
    out
}

/// The children of a symbol, each once, where it is first called.
fn list_kids(graph: &CodeGraph, opts: &CallTreeOptions, id: NodeId) -> (r: Vec<NodeId>)
    requires
        graph.wf(),
    ensures
        r@ == kids(graph@, *opts, id),
{
    let ghost g = graph@;
    let calls = list_calls(graph, opts, id);
    let mut keys: Vec<SortKey> = Vec::new();
    let ghost want = kid_keys(g, calls@);
    let mut i: usize = 0;
    while i < calls.len()
        invariant
            g == graph@,
            i <= calls@.len(),
            want == kid_keys(g, calls@),
            forall|j: int| 0 <= j < calls@.len() ==> g.has((#[trigger] calls@[j]).0),
            key_views(keys@) == want.take(i as int),
        decreases calls@.len() - i,
    {
        let n = graph.node(calls[i].0);
        let mut ranks: Vec<u64> = Vec::new();
        ranks.push(if n.kind == NodeKind::External { 1 } else { 0 });
        ranks.push(calls[i].1 as u64);
        let key = SortKey { ranks, text: n.qualified_name.clone(), minor: 0 };
        proof {
            assert(key@.ranks =~= kid_key(g, calls@[i as int]).ranks);
            assert(key@ == want[i as int]);
            lemma_key_push(keys@, key, want, i as int);
        }
        keys.push(key);
        i += 1;
    }
    assert(want.take(calls@.len() as int) =~= want);
    let sorted = arranged(&calls, &keys);
    let mut ids: Vec<NodeId> = Vec::new();
    let ghost names = sorted@.map_values(|k: (NodeId, u32)| k.0);
    let mut m: usize = 0;
    while m < sorted.len()
        invariant
            m <= sorted@.len(),
            names == sorted@.map_values(|k: (NodeId, u32)| k.0),
            ids@ == names.take(m as int),
        decreases sorted@.len() - m,
    {
        ids.push(sorted[m].0);
        assert(names.take(m + 1) =~= names.take(m as int).push(names[m as int]));
        m += 1;
    }
    assert(names.take(sorted@.len() as int) =~= names);
    distinct(&ids)
}

/// An occurrence of a symbol in the tree that is being filled.
struct Entry {
    id: NodeId,
    repeat: bool,
    start: usize,
    count: usize,
    truncated: usize,
}

spec fn entry_ok(
    e: Entry,
    g: GraphModel,
    root: NodeId,
    opts: CallTreeOptions,
    k: nat,
    i: int,
) -> bool {
    let id = level(g, root, opts, k)[i];
    let new = fresh(g, root, opts, k, i);
    &&& e.id == id
    &&& e.repeat == !new
    &&& e.start == offspring(g, root, opts, k, i as nat).len()
    &&& e.count == branch(g, root, opts, k, i).len()
    &&& e.truncated == if new && k < opts.max_depth {
        kids(g, opts, id).len() - shown_kids(g, opts, id).len()
    } else {
        0
    }
}

spec fn row_ok(
    row: Seq<Entry>,
    g: GraphModel,
    root: NodeId,
    opts: CallTreeOptions,
    k: nat,
) -> bool {
    &&& row.len() == level(g, root, opts, k).len()
    &&& forall|i: int| 0 <= i < row.len() ==> entry_ok(#[trigger] row[i], g, root, opts, k, i)
}

/// Fill one level; answers with its entries and the occurrences of the next.
fn fill_level(
    graph: &CodeGraph,
    root: NodeId,
    opts: &CallTreeOptions,
    ids: &Vec<NodeId>,
    seen: &mut HashSet<u32>,
    depth: u32,
) -> (r: (Vec<Entry>, Vec<NodeId>))
    requires
        graph.wf(),
        ids@ == level(graph@, root, *opts, depth as nat),
        forall|x: NodeId|
            old(seen)@.contains(x.0) <==> met(graph@, root, *opts, depth as nat).contains(x),
    ensures
        row_ok(r.0@, graph@, root, *opts, depth as nat),
        r.1@ == level(graph@, root, *opts, (depth + 1) as nat),
        forall|x: NodeId|
            final(seen)@.contains(x.0) <==> met(graph@, root, *opts, (depth + 1) as nat).contains(x),
{
    broadcast use vstd::std_specs::hash::group_hash_axioms;

    let ghost g = graph@;
    let ghost k = depth as nat;
    let ghost above = met(g, root, *opts, k);
    let mut row: Vec<Entry> = Vec::new();
    let mut next: Vec<NodeId> = Vec::new();
    let mut i: usize = 0;
    proof {
        assert(ids@.take(0) =~= Seq::empty());
    }
    while i < ids.len()
        invariant
            graph.wf(),
            g == graph@,
            k == depth as nat,
            ids@ == level(g, root, *opts, k),
            above == met(g, root, *opts, k),
            i <= ids@.len(),
            row@.len() == i,
            forall|j: int|
                0 <= j < row@.len() ==> entry_ok(#[trigger] row@[j], g, root, *opts, k, j),
            next@ == offspring(g, root, *opts, k, i as nat),
            forall|x: NodeId|
                seen@.contains(x.0) <==> joined(above, ids@.take(i as int)).contains(x),
        decreases ids@.len() - i,
    {
        let id = ids[i];
        let start: usize = next.len();
        let ghost had = seen@;
        let is_new = seen.insert(id.0);
        proof {
            assert(is_new == fresh(g, root, *opts, k, i as int));
            assert(ids@.take(i + 1) =~= ids@.take(i as int).push(id));
            assert(ids@.take(i + 1).drop_last() =~= ids@.take(i as int));
            lemma_joined(above, ids@.take(i as int));
            lemma_joined(above, ids@.take(i + 1));
            lemma_push_has(ids@.take(i as int), id);
            assert forall|x: NodeId| seen@.contains(x.0) <==> joined(
                above,
                ids@.take(i + 1),
            ).contains(x) by {
                assert(seen@.contains(x.0) <==> had.contains(x.0) || x.0 == id.0);
                assert(joined(above, ids@.take(i as int)).contains(x) <==> above.contains(x)
                    || ids@.take(i as int).contains(x));
            }
        }
        let mut count: usize = 0;
        let mut truncated: usize = 0;
        if is_new && depth < opts.max_depth {
            let all = list_kids(graph, opts, id);
            let shown: usize = if all.len() <= opts.max_children {
                all.len()
            } else {
                opts.max_children
            };
            let ghost before = next@;
            assert(before + all@.take(0) =~= before);
            while count < shown
                invariant
                    count <= shown <= all@.len(),
                    next@ == before + all@.take(count as int),
                decreases shown - count,
            {
                next.push(all[count]);
                assert(before + all@.take(count + 1) =~= (before + all@.take(count as int)).push(
                    all@[count as int],
                ));
                count += 1;
            }
            truncated = all.len() - shown;
            proof {
                assert(all@.take(shown as int) =~= shown_kids(g, *opts, id));
                assert(branch(g, root, *opts, k, i as int) == shown_kids(g, *opts, id));
            }
        } else {
            assert(branch(g, root, *opts, k, i as int) =~= Seq::empty());
            assert(next@ + Seq::<NodeId>::empty() =~= next@);
        }
        row.push(Entry { id, repeat: !is_new, start, count, truncated });
        proof {
            assert(offspring(g, root, *opts, k, (i + 1) as nat) == offspring(
                g,
                root,
                *opts,
                k,
                i as nat,
            ) + branch(g, root, *opts, k, i as int));
        }
        i += 1;
    }
    proof {
        assert(ids@.take(ids@.len() as int) =~= ids@);
    }
    (row, next)
}

/// The tree under an occurrence, from the filled levels.
fn assemble(
    rows: &Vec<Vec<Entry>>,
    Ghost(g): Ghost<GraphModel>,
    root: NodeId,
    opts: &CallTreeOptions,
    depth: u32,
    i: usize,
) -> (r: CallTreeNode)
    requires
        forall|k: int|
            0 <= k < rows@.len() ==> row_ok((#[trigger] rows@[k])@, g, root, *opts, k as nat),
        rows@.len() > 0,
        forall|k: nat|
            k >= rows@.len() ==> (#[trigger] level(g, root, *opts, k)).len() == 0,
        depth <= opts.max_depth,
        i < level(g, root, *opts, depth as nat).len(),
    ensures
        tree_model(r) == tree_at(g, root, *opts, depth as nat, i as int),
    decreases opts.max_depth - depth,
{
    let ghost k = depth as nat;
    assert(level(g, root, *opts, k).len() > 0);
    let e = &rows[depth as usize][i];
    assert(entry_ok(*e, g, root, *opts, k, i as int));
    let mut children: Vec<CallTreeNode> = Vec::new();
    let mut j: usize = 0;
    let ghost want = tree_at(g, root, *opts, k, i as int);
    if depth < opts.max_depth {
        proof {
            lemma_offspring_monotone(
                g,
                root,
                *opts,
                k,
                (i + 1) as nat,
                level(g, root, *opts, k).len(),
            );
            assert(offspring(g, root, *opts, k, (i + 1) as nat).len() == e.start + e.count);
            let below = level(g, root, *opts, k + 1);
            assert(below == offspring(g, root, *opts, k, level(g, root, *opts, k).len()));
            if k + 1 < rows@.len() {
                assert(row_ok(rows@[(k + 1) as int]@, g, root, *opts, k + 1));
                assert(rows@[(k + 1) as int].len() == below.len());
            }
        }
        while j < e.count
            invariant
                j <= e.count == want.children.len(),
                k == depth as nat,
                depth < opts.max_depth,
                want == tree_at(g, root, *opts, k, i as int),
                e.start == offspring(g, root, *opts, k, i as nat).len(),
                e.start + e.count <= level(g, root, *opts, k + 1).len() <= usize::MAX,
                rows@.len() > 0,
                forall|k: int|
                    0 <= k < rows@.len() ==> row_ok(
                        (#[trigger] rows@[k])@,
                        g,
                        root,
                        *opts,
                        k as nat,
                    ),
                forall|k: nat|
                    k >= rows@.len() ==> (#[trigger] level(g, root, *opts, k)).len() == 0,
                children@.len() == j,
                forall|m: int|
                    0 <= m < j ==> tree_model(#[trigger] children@[m]) == want.children[m],
            decreases e.count - j,
        {
            let c = assemble(rows, Ghost(g), root, opts, depth + 1, e.start + j);
            assert(tree_model(c) == want.children[j as int]);
            children.push(c);
            j += 1;
        }
    }
    let r = CallTreeNode {
        id: e.id,
        depth,
        children,
        truncated: e.truncated,
        repeat: e.repeat,
    };
    proof {
        assert(tree_model(r).children =~= want.children);
    }
    r
}

/// The bounded call tree of `root`. Callees are ordered by their first call site,
/// callers by qualified name; definitions come before unresolved targets.
pub fn call_tree(graph: &CodeGraph, root: NodeId, opts: &CallTreeOptions) -> (r: CallTreeNode)
    requires
        graph.wf(),
    ensures
        tree_model(r) == tree_at(graph@, root, *opts, 0, 0),
        graph@.has(root) ==> tree_known(tree_model(r), graph@),
{
    broadcast use vstd::std_specs::hash::group_hash_axioms;

    let ghost g = graph@;
    let mut seen: HashSet<u32> = HashSet::new();
    let mut ids: Vec<NodeId> = Vec::new();
    ids.push(root);
    assert(ids@ =~= seq![root]);
    let mut rows: Vec<Vec<Entry>> = Vec::new();
    let mut depth: u32 = 0;
    loop
        invariant
            graph.wf(),
            g == graph@,
            depth <= opts.max_depth,
            rows@.len() == depth,
            ids@ == level(g, root, *opts, depth as nat),
            forall|x: NodeId|
                seen@.contains(x.0) <==> met(g, root, *opts, depth as nat).contains(x),
            forall|k: int|
                0 <= k < rows@.len() ==> row_ok((#[trigger] rows@[k])@, g, root, *opts, k as nat),
        decreases opts.max_depth - depth,
    {
        let (row, next) = fill_level(graph, root, opts, &ids, &mut seen, depth);
        rows.push(row);
        if depth >= opts.max_depth || next.len() == 0 {
            proof {
                assert forall|k: nat| k >= rows@.len() implies (#[trigger] level(
                    g,
                    root,
                    *opts,
                    k,
                )).len() == 0 by {
                    if depth >= opts.max_depth {
                        law_tree_respects_depth_limit(g, root, *opts, k);
                    } else {
                        lemma_levels_end(g, root, *opts, (depth + 1) as nat, k);
                    }
                }
            }
            let r = assemble(&rows, Ghost(g), root, opts, 0, 0);
            proof {
                graph.lemma_wf();
                if g.has(root) {
                    law_call_tree_can_be_shown(g, root, *opts);
                }
            }
            return r;
        }
        ids = next;
        depth += 1;
    }
}

proof fn lemma_levels_end(g: GraphModel, root: NodeId, opts: CallTreeOptions, j: nat, k: nat)
    requires
        j <= k,
        level(g, root, opts, j).len() == 0,
    ensures
        level(g, root, opts, k).len() == 0,
    decreases k,
{
    if j < k {
        lemma_levels_end(g, root, opts, j, (k - 1) as nat);
        assert(offspring(g, root, opts, (k - 1) as nat, 0).len() == 0);
    }
}

} // verus!
