//! What holds of the rows of an outline: which there are, how they are numbered, and
//! what filtering leaves of them.

use crate::graph::{GraphModel, NodeKind};
use crate::ids::NodeId;
use crate::order::lemma_arrange_has;
use crate::outline::{
    body_models, definitions, direct, in_source_order, inside, is_def, kept, kept_all, leaf_model,
    law_ids_number_the_listing, law_prune_keeps_the_matches, leaf_models, leafy,
    lemma_arrange_weight, lemma_leaf_listings, lemma_listings_add, lemma_scopes, listing, listings,
    outline_models,
    row_matches, row_models, row_of, scope_at, scope_model, scope_models, scope_path, scopes,
    source_key, Outline, OutlineKind, RowModel,
};
use crate::seqs::{
    first_where, keyed_weight, lemma_filter_has, lemma_first_from, lemma_partition,
    lemma_positions, tally, weight,
};
use vstd::prelude::*;

verus! {

// -- which rows there are -------------------------------------------------------------

/// A function row is a leaf, names a definition of the graph and has its qualified name
/// as path; a scope row names no node.
pub open spec fn sound(t: RowModel, g: GraphModel) -> bool {
    match t.kind {
        OutlineKind::Function => {
            &&& leafy(t)
            &&& t.node matches Some(id) && g.has(id) && g.node(id).kind != NodeKind::External
                && t.path == g.node(id).qualified_name
        },
        OutlineKind::Scope => t.node is None,
    }
}

spec fn all_sound(rows: Seq<RowModel>, g: GraphModel) -> bool {
    forall|k: int| 0 <= k < rows.len() ==> sound(#[trigger] rows[k], g)
}

spec fn are_defs(g: GraphModel, items: Seq<int>) -> bool {
    forall|i: int| #[trigger]
        items.contains(i) ==> 0 <= i < g.nodes.len() && g.nodes[i].kind != NodeKind::External
}

proof fn lemma_body_sound(
    g: GraphModel,
    items: Seq<int>,
    d: nat,
    path: Option<Seq<char>>,
    id: int,
)
    requires
        g.wf(),
        are_defs(g, items),
    ensures
        all_sound(listings(body_models(g, items, d, path, id)), g),
    decreases u32::MAX - d, 0nat, items.len() + 1,
{
    let ls = scopes(g, d, items);
    let inner = scope_models(g, items, ls, d, path, id);
    lemma_scopes_sound(g, items, ls, d, path, id);
    let found = direct(g, d, items);
    let own = in_source_order(g, found);
    lemma_filter_has(items, |i: int| scope_at(g, d)(i) is None);
    lemma_arrange_has(found, found.map_values(|i: int| source_key(g, i)));
    let first = id + listings(inner).len();
    let leaves = leaf_models(g, own, d as int, first);
    lemma_leaf_listings(g, own, d as int, first);
    lemma_listings_add(inner, leaves);
    let all = listings(inner + leaves);
    assert forall|k: int| 0 <= k < all.len() implies sound(#[trigger] all[k], g) by {
        if k < listings(inner).len() {
            assert(all[k] == listings(inner)[k]);
        } else {
            let j = k - listings(inner).len();
            assert(all[k] == leaves[j]);
            assert(leaves[j] == leaf_model(g, own[j], d as int, first + j));
            assert(own.contains(own[j]));
            assert(found.contains(own[j]));
            assert(items.contains(own[j]));
        }
    }
}

proof fn lemma_scopes_sound(
    g: GraphModel,
    items: Seq<int>,
    ls: Seq<Seq<char>>,
    d: nat,
    path: Option<Seq<char>>,
    id: int,
)
    requires
        g.wf(),
        are_defs(g, items),
    ensures
        all_sound(listings(scope_models(g, items, ls, d, path, id)), g),
    decreases u32::MAX - d, 0nat, 0nat, ls.len(),
{
    if ls.len() > 0 && d < u32::MAX {
        lemma_scopes_sound(g, items, ls.drop_last(), d, path, id);
        let front = scope_models(g, items, ls.drop_last(), d, path, id);
        let l = ls.last();
        let part = inside(g, d, items, l);
        let p = scope_path(path, l);
        let next = id + listings(front).len();
        lemma_filter_has(items, |i: int| scope_at(g, d)(i) == Some(l));
        assert(are_defs(g, part)) by {
            assert forall|i: int| #[trigger] part.contains(i) implies 0 <= i < g.nodes.len()
                && g.nodes[i].kind != NodeKind::External by {
                assert(items.contains(i));
            }
        }
        lemma_body_sound(g, part, d + 1, Some(p), next + 1);
        let t = scope_model(g, part, d + 1, l, p, next);
        let all = listings(front.push(t));
        assert(front.push(t).drop_last() =~= front);
        assert forall|k: int| 0 <= k < all.len() implies sound(#[trigger] all[k], g) by {
            if k < listings(front).len() {
                assert(all[k] == listings(front)[k]);
            } else {
                let j = k - listings(front).len();
                assert(all[k] == listing(t)[j]);
                if j > 0 {
                    assert(listing(t)[j] == listings(t.children)[j - 1]);
                }
            }
        }
    }
}

/// One for a row of the node, nothing otherwise.
spec fn row_hit(v: NodeId) -> spec_fn(RowModel) -> int {
    |t: RowModel|
        if t.node == Some(v) {
            1int
        } else {
            0int
        }
}

/// One for the number of the node, nothing otherwise.
spec fn item_hit(v: NodeId) -> spec_fn(int) -> int {
    |i: int|
        if NodeId(i as u32) == v {
            1int
        } else {
            0int
        }
}

proof fn lemma_weight_add<T>(a: Seq<T>, b: Seq<T>, w: spec_fn(T) -> int)
    ensures
        weight(a + b, w) == weight(a, w) + weight(b, w),
    decreases b.len(),
{
    if b.len() == 0 {
        assert(a + b =~= a);
    } else {
        lemma_weight_add(a, b.drop_last(), w);
        assert((a + b).drop_last() =~= a + b.drop_last());
        assert((a + b).last() == b.last());
    }
}

proof fn lemma_leaf_hits(g: GraphModel, items: Seq<int>, depth: int, id: int, v: NodeId)
    ensures
        weight(leaf_models(g, items, depth, id), row_hit(v)) == weight(items, item_hit(v)),
    decreases items.len(),
{
    if items.len() > 0 {
        let all = leaf_models(g, items, depth, id);
        lemma_leaf_hits(g, items.drop_last(), depth, id, v);
        assert(all.drop_last() =~= leaf_models(g, items.drop_last(), depth, id));
    }
}

proof fn lemma_body_hits(
    g: GraphModel,
    items: Seq<int>,
    d: nat,
    path: Option<Seq<char>>,
    id: int,
    v: NodeId,
)
    ensures
        weight(listings(body_models(g, items, d, path, id)), row_hit(v)) == weight(
            items,
            item_hit(v),
        ),
    decreases u32::MAX - d, 1nat, 0nat,
{
    let ls = scopes(g, d, items);
    lemma_scopes(g, d, items);
    lemma_scopes_hits(g, items, ls, d, path, id, v);
    let inner = scope_models(g, items, ls, d, path, id);
    let first = id + listings(inner).len();
    let found = direct(g, d, items);
    let own = in_source_order(g, found);
    lemma_arrange_weight(found, found.map_values(|i: int| source_key(g, i)), item_hit(v));
    let leaves = leaf_models(g, own, d as int, first);
    lemma_leaf_hits(g, own, d as int, first, v);
    lemma_leaf_listings(g, own, d as int, first);
    lemma_listings_add(inner, leaves);
    lemma_weight_add(listings(inner), leaves, row_hit(v));
    lemma_partition(items, scope_at(g, d), ls, item_hit(v));
}

proof fn lemma_scopes_hits(
    g: GraphModel,
    items: Seq<int>,
    ls: Seq<Seq<char>>,
    d: nat,
    path: Option<Seq<char>>,
    id: int,
    v: NodeId,
)
    requires
        ls.len() > 0 ==> d < u32::MAX,
    ensures
        weight(listings(scope_models(g, items, ls, d, path, id)), row_hit(v)) == keyed_weight(
            items,
            scope_at(g, d),
            ls,
            item_hit(v),
        ),
    decreases u32::MAX - d, 0nat, ls.len(),
{
    if ls.len() > 0 {
        lemma_scopes_hits(g, items, ls.drop_last(), d, path, id, v);
        let front = scope_models(g, items, ls.drop_last(), d, path, id);
        let l = ls.last();
        let part = inside(g, d, items, l);
        let p = scope_path(path, l);
        let next = id + listings(front).len();
        lemma_body_hits(g, part, d + 1, Some(p), next + 1, v);
        let t = scope_model(g, part, d + 1, l, p, next);
        assert(front.push(t).drop_last() =~= front);
        assert(t.children == body_models(g, part, d + 1, Some(p), next + 1));
        lemma_weight_add(listings(front), listing(t), row_hit(v));
        lemma_weight_add(seq![t], listings(t.children), row_hit(v));
        assert(seq![t].drop_last() =~= Seq::<RowModel>::empty());
        assert(weight(seq![t], row_hit(v)) == 0) by {
            assert(weight(Seq::<RowModel>::empty(), row_hit(v)) == 0);
        }
    }
}

/// Rows of a node, counted: where there is one, it is the only one; where there are
/// none, the count is zero.
proof fn lemma_hits(rows: Seq<RowModel>, v: NodeId)
    ensures
        weight(rows, row_hit(v)) >= 0,
        weight(rows, row_hit(v)) > 0 <==> exists|k: int|
            0 <= k < rows.len() && (#[trigger] rows[k]).node == Some(v),
        weight(rows, row_hit(v)) <= 1 ==> forall|j: int, k: int|
            0 <= j < rows.len() && 0 <= k < rows.len() && (#[trigger] rows[j]).node == Some(v) && (
            #[trigger] rows[k]).node == Some(v) ==> j == k,
    decreases rows.len(),
{
    if rows.len() > 0 {
        let rest = rows.drop_last();
        let n = rows.len() - 1;
        lemma_hits(rest, v);
        if exists|k: int| 0 <= k < rows.len() && (#[trigger] rows[k]).node == Some(v) {
            let k = choose|k: int| 0 <= k < rows.len() && (#[trigger] rows[k]).node == Some(v);
            if k < n {
                assert(rest[k].node == Some(v));
            }
        }
        if weight(rows, row_hit(v)) > 0 {
            if rows[n].node != Some(v) {
                let k = choose|k: int| 0 <= k < rest.len() && (#[trigger] rest[k]).node == Some(v);
                assert(rows[k].node == Some(v));
            }
        }
        if weight(rows, row_hit(v)) <= 1 {
            assert forall|j: int, k: int|
                0 <= j < rows.len() && 0 <= k < rows.len() && (#[trigger] rows[j]).node == Some(v)
                    && (#[trigger] rows[k]).node == Some(v) implies j == k by {
                if j < n {
                    assert(rest[j].node == Some(v));
                }
                if k < n {
                    assert(rest[k].node == Some(v));
                }
            }
        }
    }
}

proof fn lemma_number_hits(items: Seq<int>, v: NodeId)
    requires
        forall|i: int, j: int| 0 <= i < j < items.len() ==> items[i] < items[j],
        forall|i: int| 0 <= i < items.len() ==> 0 <= #[trigger] items[i] <= u32::MAX,
    ensures
        weight(items, item_hit(v)) == if items.contains(v.0 as int) {
            1int
        } else {
            0int
        },
    decreases items.len(),
{
    if items.len() > 0 {
        let rest = items.drop_last();
        let n = items.len() - 1;
        lemma_number_hits(rest, v);
        let x = v.0 as int;
        if items[n] == x {
            if rest.contains(x) {
                let i = rest.index_of(x);
                assert(items[i] < items[n]);
            }
            assert(items.contains(x));
        } else {
            if items.contains(x) {
                let i = items.index_of(x);
                assert(rest[i] == x);
            }
            if rest.contains(x) {
                let i = rest.index_of(x);
                assert(items[i] == x);
            }
        }
    }
}

/// Every definition of the graph has exactly one row in the outline, a leaf with its
/// qualified name as path, and no other row names a node. So a search for a node's row
/// succeeds exactly on definitions.
pub proof fn law_each_definition_has_one_row(g: GraphModel)
    requires
        g.wf(),
    ensures
        forall|k: int|
            0 <= k < listings(outline_models(g)).len() ==> sound(
                #[trigger] listings(outline_models(g))[k],
                g,
            ),
        forall|v: NodeId|
            #![trigger g.has(v)]
            g.has(v) && g.node(v).kind != NodeKind::External <==> exists|k: int|
                0 <= k < listings(outline_models(g)).len() && (#[trigger] listings(
                    outline_models(g),
                )[k]).node == Some(v),
        forall|j: int, k: int|
            0 <= j < listings(outline_models(g)).len() && 0 <= k < listings(
                outline_models(g),
            ).len() && (#[trigger] listings(outline_models(g))[j]).node is Some && listings(
                outline_models(g),
            )[j].node == (#[trigger] listings(outline_models(g))[k]).node ==> j == k,
{
    let rows = listings(outline_models(g));
    let defs = definitions(g);
    lemma_positions(g.nodes.len() as int, is_def(g));
    assert(are_defs(g, defs)) by {
        assert forall|i: int| #[trigger] defs.contains(i) implies 0 <= i < g.nodes.len()
            && g.nodes[i].kind != NodeKind::External by {
            let k = defs.index_of(i);
            assert(is_def(g)(defs[k]));
        }
    }
    lemma_body_sound(g, defs, 0, None, 0);
    assert forall|v: NodeId| weight(rows, row_hit(v)) == (if #[trigger] defs.contains(v.0 as int) {
        1int
    } else {
        0int
    }) by {
        lemma_body_hits(g, defs, 0, None, 0, v);
        lemma_number_hits(defs, v);
    }
    assert forall|v: NodeId|
        #![trigger g.has(v)]
        g.has(v) && g.node(v).kind != NodeKind::External <==> exists|k: int|
            0 <= k < rows.len() && (#[trigger] rows[k]).node == Some(v) by {
        lemma_hits(rows, v);
        if g.has(v) && g.node(v).kind != NodeKind::External {
            assert(is_def(g)(v.0 as int));
        }
        assert(defs.contains(v.0 as int) <==> g.has(v) && g.node(v).kind != NodeKind::External);
    }
    assert forall|j: int, k: int|
        0 <= j < rows.len() && 0 <= k < rows.len() && (#[trigger] rows[j]).node is Some
            && rows[j].node == (#[trigger] rows[k]).node implies j == k by {
        let v = rows[j].node->0;
        lemma_hits(rows, v);
        assert(weight(rows, row_hit(v)) == if defs.contains(v.0 as int) {
            1int
        } else {
            0int
        });
        assert(rows[j].node == Some(v) && rows[k].node == Some(v));
    }
}

/// The row of a node is found exactly where the node is a definition of the graph, and it
/// has the node's qualified name as path.
pub proof fn law_find_succeeds_on_definitions(g: GraphModel, v: NodeId)
    requires
        g.wf(),
    ensures
        match row_of(listings(outline_models(g)), v) {
            Some(t) => {
                &&& g.has(v)
                &&& g.node(v).kind != NodeKind::External
                &&& t.kind == OutlineKind::Function
                &&& t.node == Some(v)
                &&& t.path == g.node(v).qualified_name
            },
            None => !(g.has(v) && g.node(v).kind != NodeKind::External),
        },
{
    let rows = listings(outline_models(g));
    let f = |k: int| rows[k].node == Some(v);
    law_each_definition_has_one_row(g);
    lemma_first_from(rows.len() as int, f, 0);
    match first_where(rows.len() as int, f) {
        Some(k) => {
            assert(f(k));
            assert(sound(rows[k], g));
        },
        None => {
            if g.has(v) && g.node(v).kind != NodeKind::External {
                let k = choose|k: int| 0 <= k < rows.len() && (#[trigger] rows[k]).node == Some(v);
                assert(f(k));
            }
        },
    }
}

// -- numbers and counts ---------------------------------------------------------------

/// The ids grow from top to bottom.
pub open spec fn ids_ascend(rows: Seq<RowModel>) -> bool {
    forall|i: int, j: int|
        0 <= i < j < rows.len() ==> (#[trigger] rows[i]).id < (#[trigger] rows[j]).id
}

/// Every id of `rows` is one of `of`.
spec fn ids_among(rows: Seq<RowModel>, of: Seq<RowModel>) -> bool {
    forall|i: int| 0 <= i < rows.len() ==> has_row_id(of, #[trigger] rows[i].id)
}

spec fn has_row_id(rows: Seq<RowModel>, id: int) -> bool {
    exists|j: int| 0 <= j < rows.len() && (#[trigger] rows[j]).id == id
}

proof fn lemma_ids_joined(a: Seq<RowModel>, b: Seq<RowModel>, x: Seq<RowModel>, y: Seq<RowModel>)
    requires
        ids_ascend(a + b),
        ids_ascend(x),
        ids_ascend(y),
        ids_among(x, a),
        ids_among(y, b),
    ensures
        ids_ascend(x + y),
        ids_among(x + y, a + b),
{
    let s = a + b;
    let t = x + y;
    assert forall|i: int| 0 <= i < t.len() implies has_row_id(s, #[trigger] t[i].id) by {
        if i < x.len() {
            assert(has_row_id(a, x[i].id));
            let j = choose|j: int| 0 <= j < a.len() && (#[trigger] a[j]).id == x[i].id;
            assert(s[j].id == t[i].id);
        } else {
            assert(has_row_id(b, y[i - x.len()].id));
            let j = choose|j: int| 0 <= j < b.len() && (#[trigger] b[j]).id == y[i - x.len()].id;
            assert(s[a.len() + j].id == t[i].id);
        }
    }
    assert forall|i: int, j: int| 0 <= i < j < t.len() implies (#[trigger] t[i]).id < (
    #[trigger] t[j]).id by {
        if j < x.len() {
            assert(t[i] == x[i] && t[j] == x[j]);
        } else if i >= x.len() {
            assert(t[i] == y[i - x.len()] && t[j] == y[j - x.len()]);
        } else {
            assert(has_row_id(a, x[i].id));
            assert(has_row_id(b, y[j - x.len()].id));
            let m = choose|m: int| 0 <= m < a.len() && (#[trigger] a[m]).id == x[i].id;
            let n = choose|n: int| 0 <= n < b.len() && (#[trigger] b[n]).id == y[j - x.len()].id;
            assert(s[m].id < s[a.len() + n].id);
        }
    }
}

proof fn lemma_ids_parts(a: Seq<RowModel>, b: Seq<RowModel>)
    requires
        ids_ascend(a + b),
    ensures
        ids_ascend(a),
        ids_ascend(b),
{
    assert forall|i: int, j: int| 0 <= i < j < a.len() implies (#[trigger] a[i]).id < (
    #[trigger] a[j]).id by {
        assert((a + b)[i].id < (a + b)[j].id);
    }
    assert forall|i: int, j: int| 0 <= i < j < b.len() implies (#[trigger] b[i]).id < (
    #[trigger] b[j]).id by {
        assert((a + b)[a.len() + i].id < (a + b)[a.len() + j].id);
    }
}

proof fn lemma_ids_same(a: Seq<RowModel>)
    ensures
        ids_among(a, a),
{
    assert forall|i: int| 0 <= i < a.len() implies has_row_id(a, #[trigger] a[i].id) by {
        assert(a[i].id == a[i].id);
    }
}

proof fn lemma_kept_ids(t: RowModel, q: Seq<char>)
    requires
        ids_ascend(listing(t)),
    ensures
        kept(t, q) matches Some(k) ==> ids_ascend(listing(k)) && ids_among(listing(k), listing(t)),
    decreases t,
{
    if t.kind == OutlineKind::Function {
        lemma_ids_same(listing(t));
    } else {
        let under = listings(t.children);
        lemma_ids_parts(seq![t], under);
        lemma_kept_all_ids(t.children, q);
        if let Some(k) = kept(t, q) {
            assert(has_row_id(seq![t], k.id)) by {
                assert(seq![t][0].id == k.id);
            }
            lemma_ids_joined(seq![t], under, seq![k], listings(k.children));
        }
    }
}

proof fn lemma_kept_all_ids(ts: Seq<RowModel>, q: Seq<char>)
    requires
        ids_ascend(listings(ts)),
    ensures
        ids_ascend(listings(kept_all(ts, q))),
        ids_among(listings(kept_all(ts, q)), listings(ts)),
    decreases ts,
{
    if ts.len() > 0 {
        let a = listings(ts.drop_last());
        let b = listing(ts.last());
        let front = kept_all(ts.drop_last(), q);
        lemma_ids_parts(a, b);
        lemma_kept_all_ids(ts.drop_last(), q);
        lemma_kept_ids(ts.last(), q);
        match kept(ts.last(), q) {
            Some(k) => {
                assert(front.push(k).drop_last() =~= front);
                lemma_ids_joined(a, b, listings(front), listing(k));
            },
            None => {
                lemma_ids_joined(a, b, listings(front), Seq::empty());
                assert(listings(front) + Seq::<RowModel>::empty() =~= listings(front));
            },
        }
    }
}

/// Filtering keeps the ids in order: where they grow from top to bottom, they still do
/// in what is left.
pub proof fn law_pruned_ids_ascend(ts: Seq<RowModel>, q: Seq<char>)
    requires
        ids_ascend(listings(ts)),
    ensures
        ids_ascend(listings(kept_all(ts, q))),
{
    lemma_kept_all_ids(ts, q);
}

/// The ids of an outline grow from top to bottom, and so do those of what filtering
/// leaves of it.
pub proof fn law_outline_ids_ascend(g: GraphModel, q: Seq<char>)
    ensures
        ids_ascend(listings(outline_models(g))),
        ids_ascend(listings(kept_all(outline_models(g), q))),
{
    law_ids_number_the_listing(g);
    law_pruned_ids_ascend(outline_models(g), q);
}

proof fn lemma_kinds(rows: Seq<RowModel>, n: int)
    requires
        0 <= n <= rows.len(),
    ensures
        tally(n, |i: int| rows[i].kind == OutlineKind::Function) + tally(
            n,
            |i: int| rows[i].kind == OutlineKind::Scope,
        ) == n,
    decreases n,
{
    if n > 0 {
        lemma_kinds(rows, n - 1);
    }
}

/// An outline whose totals are right has as many rows as functions and scopes.
pub proof fn law_rows_are_functions_and_scopes(o: Outline)
    requires
        o.totals_ok(),
    ensures
        listings(row_models(o.roots@)).len() == o.functions + o.scopes,
{
    let rows = listings(row_models(o.roots@));
    lemma_kinds(rows, rows.len() as int);
}

/// Of an outline, filtering keeps exactly the functions whose path matches, in their
/// order.
pub proof fn law_pruned_outline_keeps_the_matches(g: GraphModel, q: Seq<char>)
    requires
        g.wf(),
    ensures
        listings(kept_all(outline_models(g), q)).filter(
            |t: RowModel| t.kind == OutlineKind::Function,
        ) == listings(outline_models(g)).filter(|t: RowModel| row_matches(t, q)),
{
    law_each_definition_has_one_row(g);
    let rows = listings(outline_models(g));
    assert forall|i: int| 0 <= i < rows.len() implies leafy(#[trigger] rows[i]) by {
        assert(sound(rows[i], g));
    }
    law_prune_keeps_the_matches(outline_models(g), q);
}

} // verus!
