//! The outline: the code as the hierarchy that a reader has in mind. Crates hold
//! modules, modules hold types, types hold functions.
//!
//! Every definition's module path is a path of scopes. Scopes are listed in
//! alphabetical order, then the functions in source order. Unresolved targets are
//! left out.

use crate::entries::{classify_entry, entry_kind, EntryKind};
use crate::graph::{CodeGraph, GraphModel, NodeKind};
use crate::ids::NodeId;
use crate::nav::{law_outline_can_be_shown, law_pruned_outline_can_be_shown, rows_known};
use crate::order::{arrange, arranged, key_views, lemma_key_push, lemma_order_exists, stable_order, text_key, KeyModel, SortKey};
use crate::seqs::{
    first_from, first_where, group_of, ints, keyed_weight, lemma_filter_has, lemma_partition, lemma_uniques,
    lemma_weight_len, positions, ungrouped, uniques, weight,
};
use crate::text::{contains, has_text, lowercase, split, split_text, to_lower, trim_text, trimmed, views};
use vstd::hash_map::StringHashMap;
use vstd::prelude::*;

verus! {

#[derive(Debug, Clone, Copy, PartialEq, Eq, Structural)]
pub enum OutlineKind {
    /// A crate, module or type.
    Scope,
    /// A function or method.
    Function,
}

/// One row of the outline.
#[derive(Debug)]
pub struct OutlineNode {
    /// Place in the listing from top to bottom.
    pub id: u64,
    /// Last path segment.
    pub label: String,
    /// The scope's module path, or the function's qualified name.
    pub path: String,
    pub kind: OutlineKind,
    /// The graph node, for functions.
    pub node: Option<NodeId>,
    pub depth: u32,
    /// Functions in this subtree; one for a function.
    pub functions: u32,
    /// Entry points in this subtree.
    pub entries: u32,
    /// The function's own entry kind, if any.
    pub entry: Option<EntryKind>,
    /// Cyclomatic complexity of the function; zero for scopes.
    pub cyclomatic: u32,
    pub children: Vec<OutlineNode>,
}

/// The mathematical content of an [`OutlineNode`].
#[verifier::ext_equal]
pub struct RowModel {
    pub id: int,
    pub label: Seq<char>,
    pub path: Seq<char>,
    pub kind: OutlineKind,
    pub node: Option<NodeId>,
    pub depth: int,
    pub functions: int,
    pub entries: int,
    pub entry: Option<EntryKind>,
    pub cyclomatic: int,
    pub children: Seq<RowModel>,
}

/// The content of a row and of what stands under it.
pub open spec fn row_model(n: OutlineNode) -> RowModel
    decreases n,
{
    RowModel {
        id: n.id as int,
        label: n.label@,
        path: n.path@,
        kind: n.kind,
        node: n.node,
        depth: n.depth as int,
        functions: n.functions as int,
        entries: n.entries as int,
        entry: n.entry,
        cyclomatic: n.cyclomatic as int,
        children: Seq::new(
            n.children@.len(),
            |i: int|
                if 0 <= i < n.children@.len() {
                    row_model(n.children@[i])
                } else {
                    arbitrary()
                },
        ),
    }
}

pub open spec fn row_models(ns: Seq<OutlineNode>) -> Seq<RowModel> {
    ns.map_values(|n: OutlineNode| row_model(n))
}

proof fn lemma_row_children(n: OutlineNode)
    ensures
        row_model(n).children == row_models(n.children@),
{
    assert(row_model(n).children =~= row_models(n.children@));
}

/// A row followed by what stands under it, from top to bottom.
pub open spec fn listing(t: RowModel) -> Seq<RowModel>
    decreases t,
{
    seq![t] + listings(t.children)
}

/// The listings of several rows, one after another.
pub open spec fn listings(ts: Seq<RowModel>) -> Seq<RowModel>
    decreases ts,
{
    if ts.len() == 0 {
        Seq::empty()
    } else {
        listings(ts.drop_last()) + listing(ts.last())
    }
}

// -- the hierarchy ----------------------------------------------------------------

/// The scopes of a module path.
pub open spec fn segments(module: Seq<char>) -> Seq<Seq<char>> {
    split(module, "::"@).filter(|s: Seq<char>| s.len() > 0)
}

/// The scope in which node `i` stands below the first `d`; `None` where it stands
/// there itself.
pub open spec fn scope_at(g: GraphModel, d: nat) -> spec_fn(int) -> Option<Seq<char>> {
    |i: int|
        {
            let s = segments(g.nodes[i].module);
            if d < s.len() && d < u32::MAX {
                Some(s[d as int])
            } else {
                None
            }
        }
}

/// Those of `items` that stand in the scope `l`.
pub open spec fn inside(g: GraphModel, d: nat, items: Seq<int>, l: Seq<char>) -> Seq<int> {
    group_of(items, scope_at(g, d), l)
}

/// Those of `items` that stand in no further scope.
pub open spec fn direct(g: GraphModel, d: nat, items: Seq<int>) -> Seq<int> {
    ungrouped(items, scope_at(g, d))
}

/// The names of the scopes of `items`.
pub open spec fn scope_names(g: GraphModel, d: nat, items: Seq<int>) -> Seq<Seq<char>> {
    uniques(
        items.filter(|i: int| scope_at(g, d)(i) is Some).map_values(|i: int| scope_at(g, d)(i)->0),
    )
}

pub open spec fn name_keys(names: Seq<Seq<char>>) -> Seq<KeyModel> {
    names.map_values(|l: Seq<char>| text_key(Seq::empty(), l))
}

/// The names of the scopes of `items`, in alphabetical order.
pub open spec fn scopes(g: GraphModel, d: nat, items: Seq<int>) -> Seq<Seq<char>> {
    let names = scope_names(g, d, items);
    arrange(names, name_keys(names))
}

/// Source order: file, line, name, id.
pub open spec fn source_key(g: GraphModel, i: int) -> KeyModel {
    let n = g.nodes[i];
    KeyModel {
        ranks: seq![n.span.file as u64, n.span.start_line as u64],
        text: n.name,
        minor: i as u64,
    }
}

pub open spec fn in_source_order(g: GraphModel, items: Seq<int>) -> Seq<int> {
    arrange(items, items.map_values(|i: int| source_key(g, i)))
}

/// One for an entry point, nothing otherwise.
pub open spec fn entry_weight(g: GraphModel) -> spec_fn(int) -> int {
    |i: int|
        if entry_kind(g, NodeId(i as u32)) is Some {
            1int
        } else {
            0int
        }
}

/// The row of a function.
pub open spec fn leaf_model(g: GraphModel, i: int, depth: int, id: int) -> RowModel {
    let n = g.nodes[i];
    RowModel {
        id,
        label: n.name,
        path: n.qualified_name,
        kind: OutlineKind::Function,
        node: Some(NodeId(i as u32)),
        depth,
        functions: 1,
        entries: entry_weight(g)(i),
        entry: entry_kind(g, NodeId(i as u32)),
        cyclomatic: n.complexity(),
        children: Seq::empty(),
    }
}

/// The rows of functions, one after another.
pub open spec fn leaf_models(g: GraphModel, items: Seq<int>, depth: int, id: int) -> Seq<RowModel> {
    Seq::new(items.len(), |k: int| leaf_model(g, items[k], depth, id + k))
}

/// The path of the scope `l` under `path`.
pub open spec fn scope_path(path: Option<Seq<char>>, l: Seq<char>) -> Seq<char> {
    match path {
        Some(p) => p + "::"@ + l,
        None => l,
    }
}

/// The row of a scope that holds `items`; `d` counts the scopes down to it.
pub open spec fn scope_model(
    g: GraphModel,
    items: Seq<int>,
    d: nat,
    label: Seq<char>,
    path: Seq<char>,
    id: int,
) -> RowModel
    decreases u32::MAX - d, 1nat, 0nat,
{
    RowModel {
        id,
        label,
        path,
        kind: OutlineKind::Scope,
        node: None,
        depth: d - 1,
        functions: items.len() as int,
        entries: weight(items, entry_weight(g)),
        entry: None,
        cyclomatic: 0,
        children: body_models(g, items, d, Some(path), id + 1),
    }
}

/// What stands in a scope: its scopes, then its functions.
pub open spec fn body_models(
    g: GraphModel,
    items: Seq<int>,
    d: nat,
    path: Option<Seq<char>>,
    id: int,
) -> Seq<RowModel>
    decreases u32::MAX - d, 0nat, items.len() + 1,
{
    let inner = scope_models(g, items, scopes(g, d, items), d, path, id);
    inner + leaf_models(
        g,
        in_source_order(g, direct(g, d, items)),
        d as int,
        id + listings(inner).len(),
    )
}

/// The rows of the scopes `ls` of `items`.
pub open spec fn scope_models(
    g: GraphModel,
    items: Seq<int>,
    ls: Seq<Seq<char>>,
    d: nat,
    path: Option<Seq<char>>,
    id: int,
) -> Seq<RowModel>
    decreases u32::MAX - d, 0nat, 0nat, ls.len(),
{
    if ls.len() == 0 || d >= u32::MAX {
        Seq::empty()
    } else {
        let front = scope_models(g, items, ls.drop_last(), d, path, id);
        let l = ls.last();
        front.push(
            scope_model(
                g,
                inside(g, d, items, l),
                d + 1,
                l,
                scope_path(path, l),
                id + listings(front).len(),
            ),
        )
    }
}

/// The definitions of a graph.
pub open spec fn is_def(g: GraphModel) -> spec_fn(int) -> bool {
    |i: int| g.nodes[i].kind != NodeKind::External
}

pub open spec fn definitions(g: GraphModel) -> Seq<int> {
    positions(g.nodes.len() as int, is_def(g))
}

/// The top rows of the outline of a graph.
pub open spec fn outline_models(g: GraphModel) -> Seq<RowModel> {
    body_models(g, definitions(g), 0, None, 0)
}

// -- laws -------------------------------------------------------------------------

pub proof fn lemma_listings_add(a: Seq<RowModel>, b: Seq<RowModel>)
    ensures
        listings(a + b) == listings(a) + listings(b),
    decreases b.len(),
{
    if b.len() == 0 {
        assert(a + b =~= a);
        assert(listings(a) + listings(b) =~= listings(a));
    } else {
        lemma_listings_add(a, b.drop_last());
        assert((a + b).drop_last() =~= a + b.drop_last());
        assert((a + b).last() == b.last());
        assert(listings(a) + listings(b) =~= listings(a) + listings(b.drop_last()) + listing(
            b.last(),
        ));
    }
}

/// The listing counts up from `id`.
pub open spec fn counts_up(rows: Seq<RowModel>, id: int) -> bool {
    forall|k: int| 0 <= k < rows.len() ==> (#[trigger] rows[k]).id == id + k
}

pub proof fn lemma_leaf_listings(g: GraphModel, items: Seq<int>, depth: int, id: int)
    ensures
        listings(leaf_models(g, items, depth, id)) == leaf_models(g, items, depth, id),
    decreases items.len(),
{
    let all = leaf_models(g, items, depth, id);
    if items.len() > 0 {
        lemma_leaf_listings(g, items.drop_last(), depth, id);
        let front = leaf_models(g, items.drop_last(), depth, id);
        assert(all.drop_last() =~= front);
        let last = all.last();
        assert(listings(last.children) =~= Seq::empty());
        assert(listing(last) =~= seq![last]);
        assert(all =~= front + seq![last]);
    } else {
        assert(all =~= Seq::empty());
    }
}

proof fn lemma_scope_counts_up(
    g: GraphModel,
    items: Seq<int>,
    d: nat,
    label: Seq<char>,
    path: Seq<char>,
    id: int,
)
    ensures
        counts_up(listing(scope_model(g, items, d, label, path, id)), id),
    decreases u32::MAX - d, 1nat, 0nat,
{
    let t = scope_model(g, items, d, label, path, id);
    lemma_body_counts_up(g, items, d, Some(path), id + 1);
    let body = body_models(g, items, d, Some(path), id + 1);
    assert(t.children == body);
    assert forall|k: int| 0 <= k < listing(t).len() implies (#[trigger] listing(t)[k]).id == id
        + k by {
        if k > 0 {
            assert(listing(t)[k] == listings(body)[k - 1]);
        }
    }
}

proof fn lemma_body_counts_up(
    g: GraphModel,
    items: Seq<int>,
    d: nat,
    path: Option<Seq<char>>,
    id: int,
)
    ensures
        counts_up(listings(body_models(g, items, d, path, id)), id),
    decreases u32::MAX - d, 0nat, items.len() + 1,
{
    let ls = scopes(g, d, items);
    let inner = scope_models(g, items, ls, d, path, id);
    lemma_scopes_count_up(g, items, ls, d, path, id);
    let own = in_source_order(g, direct(g, d, items));
    let first = id + listings(inner).len();
    let leaves = leaf_models(g, own, d as int, first);
    lemma_leaf_listings(g, own, d as int, first);
    lemma_listings_add(inner, leaves);
    let all = listings(inner + leaves);
    assert forall|k: int| 0 <= k < all.len() implies (#[trigger] all[k]).id == id + k by {
        if k < listings(inner).len() {
            assert(all[k] == listings(inner)[k]);
        } else {
            assert(all[k] == leaves[k - listings(inner).len()]);
        }
    }
}

proof fn lemma_scopes_count_up(
    g: GraphModel,
    items: Seq<int>,
    ls: Seq<Seq<char>>,
    d: nat,
    path: Option<Seq<char>>,
    id: int,
)
    ensures
        counts_up(listings(scope_models(g, items, ls, d, path, id)), id),
    decreases u32::MAX - d, 0nat, 0nat, ls.len(),
{
    if ls.len() > 0 && d < u32::MAX {
        lemma_scopes_count_up(g, items, ls.drop_last(), d, path, id);
        let front = scope_models(g, items, ls.drop_last(), d, path, id);
        let l = ls.last();
        let next = id + listings(front).len();
        lemma_scope_counts_up(g, inside(g, d, items, l), d + 1, l, scope_path(path, l), next);
        let t = scope_model(g, inside(g, d, items, l), d + 1, l, scope_path(path, l), next);
        let all = front.push(t);
        assert(all.drop_last() =~= front);
        assert forall|k: int| 0 <= k < listings(all).len() implies (#[trigger] listings(all)[k]).id
            == id + k by {
            if k < listings(front).len() {
                assert(listings(all)[k] == listings(front)[k]);
            } else {
                assert(listings(all)[k] == listing(t)[k - listings(front).len()]);
            }
        }
    }
}

/// The ids of the outline number its rows from top to bottom.
pub proof fn law_ids_number_the_listing(g: GraphModel)
    ensures
        forall|k: int|
            0 <= k < listings(outline_models(g)).len() ==> (#[trigger] listings(
                outline_models(g),
            )[k]).id == k,
{
    lemma_body_counts_up(g, definitions(g), 0, None, 0);
}

/// The names of the scopes: each once, and each scope that an item stands in.
pub proof fn lemma_scopes(g: GraphModel, d: nat, items: Seq<int>)
    ensures
        scopes(g, d, items).no_duplicates(),
        forall|i: int|
            0 <= i < items.len() && scope_at(g, d)(#[trigger] items[i]) is Some ==> scopes(
                g,
                d,
                items,
            ).contains(scope_at(g, d)(items[i])->0),
        forall|k: int|
            0 <= k < scopes(g, d, items).len() ==> inside(
                g,
                d,
                items,
                #[trigger] scopes(g, d, items)[k],
            ).len() > 0,
        scopes(g, d, items).len() > 0 ==> d < u32::MAX,
{
    let keep = |i: int| scope_at(g, d)(i) is Some;
    let deeper = items.filter(keep);
    let listed = deeper.map_values(|i: int| scope_at(g, d)(i)->0);
    let names = scope_names(g, d, items);
    let keys = name_keys(names);
    let all = scopes(g, d, items);
    lemma_filter_has(items, keep);
    lemma_uniques(listed);
    lemma_order_exists(keys);
    let order = stable_order(keys);
    assert forall|i: int, j: int| 0 <= i < all.len() && 0 <= j < all.len() && i != j implies all[i]
        != all[j] by {
        assert(all[i] == names[order[i]] && all[j] == names[order[j]]);
        if order[i] == order[j] {
            if i < j {
                assert(crate::order::placed_before(keys, order[i], order[j]));
            } else {
                assert(crate::order::placed_before(keys, order[j], order[i]));
            }
            crate::order::lemma_key_lt_total(keys[order[i]], keys[order[j]]);
        }
    }
    assert forall|i: int| 0 <= i < items.len() && scope_at(g, d)(#[trigger] items[i]) is Some
        implies all.contains(scope_at(g, d)(items[i])->0) by {
        let l = scope_at(g, d)(items[i])->0;
        assert(items.contains(items[i]));
        assert(keep(items[i]));
        assert(deeper.contains(items[i]));
        let m = deeper.index_of(items[i]);
        assert(listed[m] == l);
        assert(listed.contains(l));
        assert(names.contains(l));
        let j = names.index_of(l);
        assert(order.contains(j));
        let k = order.index_of(j);
        assert(all[k] == l);
    }
    assert forall|k: int| 0 <= k < all.len() implies inside(g, d, items, #[trigger] all[k]).len()
        > 0 && d < u32::MAX by {
        let l = all[k];
        assert(l == names[order[k]]);
        assert(names.contains(l));
        assert(listed.contains(l));
        let m = listed.index_of(l);
        assert(deeper.contains(deeper[m]));
        assert(keep(deeper[m]));
        let kind = |x: int| scope_at(g, d)(x) == Some(l);
        lemma_filter_has(items, kind);
        assert(kind(deeper[m]));
        assert(items.filter(kind).contains(deeper[m]));
    }
    if all.len() > 0 {
        assert(inside(g, d, items, all[0]).len() > 0);
    }
}

spec fn one() -> spec_fn(int) -> int {
    |x: int| 1int
}

/// How many rows there can be at most.
proof fn lemma_body_size(
    g: GraphModel,
    items: Seq<int>,
    d: nat,
    path: Option<Seq<char>>,
    id: int,
)
    requires
        d <= u32::MAX,
    ensures
        listings(body_models(g, items, d, path, id)).len() <= items.len() * (u32::MAX - d + 1),
    decreases u32::MAX - d, 1nat, 0nat,
{
    let ls = scopes(g, d, items);
    lemma_scopes(g, d, items);
    lemma_scopes_size(g, items, ls, d, path, id);
    let inner = scope_models(g, items, ls, d, path, id);
    let first = id + listings(inner).len();
    let kept = direct(g, d, items);
    let own = in_source_order(g, kept);
    lemma_order_exists(kept.map_values(|i: int| source_key(g, i)));
    assert(own.len() == kept.len());
    let leaves = leaf_models(g, own, d as int, first);
    lemma_leaf_listings(g, own, d as int, first);
    lemma_listings_add(inner, leaves);
    lemma_partition(items, scope_at(g, d), ls, one());
    lemma_weight_len(items);
    lemma_weight_len(kept);
    assert(one() =~= |x: int| 1int);
    let a = keyed_weight(items, scope_at(g, d), ls, one());
    let b = kept.len();
    let f = u32::MAX - d + 1;
    assert(items.len() == a + b);
    assert(a * f + b <= (a + b) * f) by (nonlinear_arith)
        requires
            b >= 0,
            f >= 1,
    ;
}

proof fn lemma_scopes_size(
    g: GraphModel,
    items: Seq<int>,
    ls: Seq<Seq<char>>,
    d: nat,
    path: Option<Seq<char>>,
    id: int,
)
    requires
        d <= u32::MAX,
        forall|k: int|
            0 <= k < ls.len() ==> inside(g, d, items, #[trigger] ls[k]).len() > 0,
    ensures
        listings(scope_models(g, items, ls, d, path, id)).len() <= keyed_weight(
            items,
            scope_at(g, d),
            ls,
            one(),
        ) * (u32::MAX - d + 1),
        keyed_weight(items, scope_at(g, d), ls, one()) >= 0,
    decreases u32::MAX - d, 0nat, ls.len(),
{
    let f = u32::MAX - d + 1;
    if ls.len() > 0 {
        let rest = ls.drop_last();
        assert forall|k: int| 0 <= k < rest.len() implies inside(
            g,
            d,
            items,
            #[trigger] rest[k],
        ).len() > 0 by {
            assert(rest[k] == ls[k]);
        }
        lemma_scopes_size(g, items, rest, d, path, id);
        let l = ls.last();
        let part = inside(g, d, items, l);
        assert(ls[ls.len() - 1] == l);
        lemma_weight_len(part);
        assert(one() =~= |x: int| 1int);
        let before = keyed_weight(items, scope_at(g, d), rest, one());
        let n = part.len() as int;
        assert((before + n) * f == before * f + n * f) by (nonlinear_arith);
        assert(before * f >= 0) by (nonlinear_arith)
            requires
                before >= 0,
                f >= 1,
        ;
        assert(n * f >= 0) by (nonlinear_arith)
            requires
                n >= 0,
                f >= 1,
        ;
        if d < u32::MAX {
            let front = scope_models(g, items, rest, d, path, id);
            let next = id + listings(front).len();
            let p = scope_path(path, l);
            lemma_body_size(g, part, d + 1, Some(p), next + 1);
            let t = scope_model(g, part, d + 1, l, p, next);
            assert(front.push(t).drop_last() =~= front);
            assert(n * (f - 1) + 1 <= n * f) by (nonlinear_arith)
                requires
                    n >= 1,
            ;
            assert(scope_models(g, items, ls, d, path, id) == front.push(t));
            assert(t.children == body_models(g, part, d + 1, Some(p), next + 1));
            assert(listing(t).len() == 1 + listings(t.children).len());
            assert(u32::MAX - (d + 1) + 1 == f - 1);
            assert(listing(t).len() <= n * f);
            assert(listings(front.push(t)).len() == listings(front).len() + listing(t).len());
        } else {
            assert(scope_models(g, items, ls, d, path, id) =~= Seq::empty());
        }
        assert(keyed_weight(items, scope_at(g, d), ls, one()) == before + n);
    } else {
        assert(0 * f == 0);
    }
}

/// The counts of every scope are the sums of the counts of what stands in it.
pub open spec fn tallied(t: RowModel) -> bool
    decreases t,
{
    &&& t.kind == OutlineKind::Scope ==> t.functions == total_functions(t.children) && t.entries
        == total_entries(t.children)
    &&& all_tallied(t.children)
}

pub open spec fn all_tallied(ts: Seq<RowModel>) -> bool
    decreases ts,
{
    ts.len() > 0 ==> all_tallied(ts.drop_last()) && tallied(ts.last())
}

pub open spec fn total_functions(ts: Seq<RowModel>) -> int {
    weight(ts, |t: RowModel| t.functions)
}

pub open spec fn total_entries(ts: Seq<RowModel>) -> int {
    weight(ts, |t: RowModel| t.entries)
}

proof fn lemma_all_tallied_add(a: Seq<RowModel>, b: Seq<RowModel>)
    ensures
        all_tallied(a + b) == (all_tallied(a) && all_tallied(b)),
        total_functions(a + b) == total_functions(a) + total_functions(b),
        total_entries(a + b) == total_entries(a) + total_entries(b),
    decreases b.len(),
{
    if b.len() == 0 {
        assert(a + b =~= a);
    } else {
        lemma_all_tallied_add(a, b.drop_last());
        assert((a + b).drop_last() =~= a + b.drop_last());
        assert((a + b).last() == b.last());
    }
}

proof fn lemma_leaves_tallied(g: GraphModel, items: Seq<int>, depth: int, id: int)
    ensures
        all_tallied(leaf_models(g, items, depth, id)),
        total_functions(leaf_models(g, items, depth, id)) == items.len(),
        total_entries(leaf_models(g, items, depth, id)) == weight(items, entry_weight(g)),
    decreases items.len(),
{
    let all = leaf_models(g, items, depth, id);
    if items.len() > 0 {
        lemma_leaves_tallied(g, items.drop_last(), depth, id);
        assert(all.drop_last() =~= leaf_models(g, items.drop_last(), depth, id));
        assert(all_tallied(all.last().children));
        assert(tallied(all.last()));
    }
}

proof fn lemma_body_tallied(
    g: GraphModel,
    items: Seq<int>,
    d: nat,
    path: Option<Seq<char>>,
    id: int,
)
    ensures
        all_tallied(body_models(g, items, d, path, id)),
        total_functions(body_models(g, items, d, path, id)) == items.len(),
        total_entries(body_models(g, items, d, path, id)) == weight(items, entry_weight(g)),
    decreases u32::MAX - d, 1nat, 0nat,
{
    let ls = scopes(g, d, items);
    lemma_scopes(g, d, items);
    lemma_scopes_tallied(g, items, ls, d, path, id);
    let inner = scope_models(g, items, ls, d, path, id);
    let first = id + listings(inner).len();
    let kept = direct(g, d, items);
    let own = in_source_order(g, kept);
    let keys = kept.map_values(|i: int| source_key(g, i));
    lemma_order_exists(keys);
    lemma_arrange_weight(kept, keys, entry_weight(g));
    lemma_leaves_tallied(g, own, d as int, first);
    let leaves = leaf_models(g, own, d as int, first);
    lemma_all_tallied_add(inner, leaves);
    lemma_partition(items, scope_at(g, d), ls, one());
    lemma_partition(items, scope_at(g, d), ls, entry_weight(g));
    lemma_weight_len(items);
    lemma_weight_len(kept);
    assert(one() =~= |x: int| 1int);
}

proof fn lemma_scopes_tallied(
    g: GraphModel,
    items: Seq<int>,
    ls: Seq<Seq<char>>,
    d: nat,
    path: Option<Seq<char>>,
    id: int,
)
    requires
        ls.len() > 0 ==> d < u32::MAX,
    ensures
        all_tallied(scope_models(g, items, ls, d, path, id)),
        total_functions(scope_models(g, items, ls, d, path, id)) == keyed_weight(
            items,
            scope_at(g, d),
            ls,
            one(),
        ),
        total_entries(scope_models(g, items, ls, d, path, id)) == keyed_weight(
            items,
            scope_at(g, d),
            ls,
            entry_weight(g),
        ),
    decreases u32::MAX - d, 0nat, ls.len(),
{
    if ls.len() > 0 {
        lemma_scopes_tallied(g, items, ls.drop_last(), d, path, id);
        let front = scope_models(g, items, ls.drop_last(), d, path, id);
        let l = ls.last();
        let part = inside(g, d, items, l);
        let next = id + listings(front).len();
        let p = scope_path(path, l);
        lemma_body_tallied(g, part, d + 1, Some(p), next + 1);
        let t = scope_model(g, part, d + 1, l, p, next);
        assert(front.push(t).drop_last() =~= front);
        assert(tallied(t));
        lemma_weight_len(part);
        assert(one() =~= |x: int| 1int);
    }
}

/// Ordering a list changes no sum over it.
pub proof fn lemma_arrange_weight(s: Seq<int>, keys: Seq<KeyModel>, w: spec_fn(int) -> int)
    requires
        s.len() == keys.len(),
    ensures
        weight(arrange(s, keys), w) == weight(s, w),
        arrange(s, keys).len() == s.len(),
{
    lemma_order_exists(keys);
    let order = stable_order(keys);
    let all = arrange(s, keys);
    assert(order.no_duplicates()) by {
        assert forall|i: int, j: int| 0 <= i < order.len() && 0 <= j < order.len() && i != j
            implies order[i] != order[j] by {
            if order[i] == order[j] {
                if i < j {
                    assert(crate::order::placed_before(keys, order[i], order[j]));
                } else {
                    assert(crate::order::placed_before(keys, order[j], order[i]));
                }
                crate::order::lemma_key_lt_total(keys[order[i]], keys[order[j]]);
            }
        }
    }
    let spots = Seq::new(s.len(), |i: int| i);
    let at = |i: int| w(s[i]);
    assert forall|x: int| order.contains(x) <==> spots.contains(x) by {
        if order.contains(x) {
            let i = order.index_of(x);
            assert(0 <= order[i] < keys.len());
            assert(spots[x] == x);
        }
    }
    lemma_same_weight(order, spots, at);
    lemma_mapped_weight(order, s, w);
    lemma_mapped_weight(spots, s, w);
    assert(order.map_values(|i: int| s[i]) =~= all);
    assert(spots.map_values(|i: int| s[i]) =~= s);
}

proof fn lemma_mapped_weight(p: Seq<int>, s: Seq<int>, w: spec_fn(int) -> int)
    ensures
        weight(p.map_values(|i: int| s[i]), w) == weight(p, |i: int| w(s[i])),
    decreases p.len(),
{
    if p.len() > 0 {
        lemma_mapped_weight(p.drop_last(), s, w);
        assert(p.map_values(|i: int| s[i]).drop_last() =~= p.drop_last().map_values(
            |i: int| s[i],
        ));
    }
}

/// Two lists with the same items, each once, weigh the same.
proof fn lemma_same_weight(a: Seq<int>, b: Seq<int>, w: spec_fn(int) -> int)
    requires
        a.no_duplicates(),
        b.no_duplicates(),
        forall|x: int| a.contains(x) <==> b.contains(x),
    ensures
        weight(a, w) == weight(b, w),
    decreases a.len(),
{
    if a.len() == 0 {
        if b.len() > 0 {
            assert(b.contains(b[0]));
            assert(a.contains(b[0]));
        }
    } else {
        let x = a.last();
        assert(a.contains(x));
        let k = b.index_of(x);
        let rest = a.drop_last();
        let c = b.remove(k);
        assert forall|y: int| rest.contains(y) <==> c.contains(y) by {
            if rest.contains(y) {
                let i = rest.index_of(y);
                assert(a[i] == y);
                assert(a.contains(y));
                assert(b.contains(y));
                let j = b.index_of(y);
                assert(y != x) by {
                    if y == x {
                        assert(a[i] == a[a.len() - 1]);
                    }
                }
                if j < k {
                    assert(c[j] == y);
                } else {
                    assert(c[j - 1] == y);
                }
            }
            if c.contains(y) {
                let j = c.index_of(y);
                let m = if j < k {
                    j
                } else {
                    j + 1
                };
                assert(b[m] == y);
                assert(b.contains(y));
                assert(a.contains(y));
                let i = a.index_of(y);
                assert(y != x) by {
                    if y == x {
                        assert(b[m] == b[k]);
                    }
                }
                assert(rest[i] == y);
            }
        }
        assert forall|i: int, j: int| 0 <= i < c.len() && 0 <= j < c.len() && i != j implies c[i]
            != c[j] by {
            let m = if i < k {
                i
            } else {
                i + 1
            };
            let n = if j < k {
                j
            } else {
                j + 1
            };
            assert(c[i] == b[m] && c[j] == b[n]);
        }
        lemma_same_weight(rest, c, w);
        lemma_removed_weight(b, k, w);
    }
}

proof fn lemma_removed_weight(b: Seq<int>, k: int, w: spec_fn(int) -> int)
    requires
        0 <= k < b.len(),
    ensures
        weight(b, w) == weight(b.remove(k), w) + w(b[k]),
    decreases b.len(),
{
    if k < b.len() - 1 {
        lemma_removed_weight(b.drop_last(), k, w);
        assert(b.remove(k).drop_last() =~= b.drop_last().remove(k));
        assert(b.remove(k).last() == b.last());
    } else {
        assert(b.remove(k) =~= b.drop_last());
    }
}

/// The outline counts every definition once: each scope's counts are the sums over
/// its rows, and the top rows hold all definitions and all entry points.
pub proof fn law_counts_add_up(g: GraphModel)
    ensures
        all_tallied(outline_models(g)),
        total_functions(outline_models(g)) == definitions(g).len(),
        total_entries(outline_models(g)) == weight(definitions(g), entry_weight(g)),
{
    lemma_body_tallied(g, definitions(g), 0, None, 0);
}

// -- building -----------------------------------------------------------------------

/// The scopes of a module path.
pub fn module_segments(module: &str) -> (r: Vec<String>)
    ensures
        views(r@) == segments(module@),
{
    proof {
        reveal_strlit("::");
    }
    let all = split_text(module, "::");
    let ghost keep = |s: Seq<char>| s.len() > 0;
    let ghost seen = views(all@);
    let mut out: Vec<String> = Vec::new();
    let mut i: usize = 0;
    proof {
        reveal(Seq::filter);
        assert(seen.take(0) =~= Seq::empty());
        assert(views(out@) =~= Seq::empty());
    }
    while i < all.len()
        invariant
            i <= all@.len(),
            seen == views(all@),
            keep == (|s: Seq<char>| s.len() > 0),
            views(out@) == seen.take(i as int).filter(keep),
        decreases all@.len() - i,
    {
        let p = &all[i];
        proof {
            reveal(Seq::filter);
            assert(seen.take(i + 1).drop_last() =~= seen.take(i as int));
            assert(seen.take(i + 1).last() == p@);
        }
        if !p.as_str().is_empty() {
            let ghost had = out@;
            let c = p.clone();
            out.push(c);
            assert(views(out@) =~= views(had).push(c@));
        }
        i += 1;
    }
    assert(seen.take(seen.len() as int) =~= seen);
    out
}

/// `segs` holds the scopes of every node.
spec fn segs_ok(segs: Seq<Vec<String>>, g: GraphModel) -> bool {
    &&& segs.len() == g.nodes.len()
    &&& forall|i: int|
        0 <= i < segs.len() ==> views((#[trigger] segs[i])@) == segments(g.nodes[i].module)
}

spec fn items_ok(items: Seq<usize>, g: GraphModel) -> bool {
    &&& items.len() <= u32::MAX
    &&& forall|i: int| 0 <= i < items.len() ==> #[trigger] items[i] < g.nodes.len()
}

fn scope_of<'a>(segs: &'a Vec<Vec<String>>, Ghost(g): Ghost<GraphModel>, d: u32, i: usize) -> (r:
    Option<&'a str>)
    requires
        segs_ok(segs@, g),
        i < g.nodes.len(),
    ensures
        match r {
            Some(l) => scope_at(g, d as nat)(i as int) == Some(l@),
            None => scope_at(g, d as nat)(i as int) is None,
        },
{
    let s = &segs[i];
    assert(views(s@) == segments(g.nodes[i as int].module));
    if (d as usize) < s.len() && d < u32::MAX {
        assert(views(s@)[d as int] == s@[d as int]@);
        Some(s[d as usize].as_str())
    } else {
        None
    }
}

/// The names of the scopes of `items`, in alphabetical order.
fn scope_labels(segs: &Vec<Vec<String>>, Ghost(g): Ghost<GraphModel>, d: u32, items: &Vec<usize>) -> (r:
    Vec<String>)
    requires
        segs_ok(segs@, g),
        items_ok(items@, g),
    ensures
        views(r@) == scopes(g, d as nat, ints(items@)),
{
    let ghost all = ints(items@);
    let ghost at = scope_at(g, d as nat);
    let ghost keep = |i: int| scope_at(g, d as nat)(i) is Some;
    let ghost label = |i: int| scope_at(g, d as nat)(i)->0;
    let mut names: Vec<String> = Vec::new();
    let mut seen: StringHashMap<bool> = StringHashMap::new();
    let mut i: usize = 0;
    proof {
        reveal(Seq::filter);
        assert(all.take(0) =~= Seq::empty());
        assert(all.take(0).filter(keep).map_values(label) =~= Seq::empty());
        assert(views(names@) =~= Seq::empty());
    }
    while i < items.len()
        invariant
            segs_ok(segs@, g),
            items_ok(items@, g),
            i <= items@.len(),
            all == ints(items@),
            at == scope_at(g, d as nat),
            keep == (|i: int| scope_at(g, d as nat)(i) is Some),
            label == (|i: int| scope_at(g, d as nat)(i)->0),
            views(names@) == uniques(all.take(i as int).filter(keep).map_values(label)),
            forall|x: Seq<char>| seen@.contains_key(x) <==> views(names@).contains(x),
        decreases items@.len() - i,
    {
        let ghost listed = all.take(i as int).filter(keep).map_values(label);
        proof {
            reveal(Seq::filter);
            assert(all.take(i + 1).drop_last() =~= all.take(i as int));
            assert(all.take(i + 1).last() == items@[i as int]);
        }
        match scope_of(segs, Ghost(g), d, items[i]) {
            Some(l) => {
                proof {
                    let next = all.take(i + 1).filter(keep).map_values(label);
                    assert(next =~= listed.push(l@));
                    assert(next.drop_last() =~= listed);
                }
                if !seen.contains_key(l) {
                    let ghost had = names@;
                    let name = l.to_owned();
                    names.push(name);
                    seen.insert(l.to_owned(), true);
                    proof {
                        assert(views(names@) =~= views(had).push(l@));
                        crate::seqs::lemma_push_has(views(had), l@);
                    }
                }
            },
            None => {},
        }
        i += 1;
    }
    proof {
        assert(all.take(all.len() as int) =~= all);
    }
    let ghost distinct = scope_names(g, d as nat, all);
    assert(views(names@) == distinct);
    let ghost want = name_keys(distinct);
    let mut keys: Vec<SortKey> = Vec::new();
    let mut j: usize = 0;
    while j < names.len()
        invariant
            j <= names@.len() == want.len(),
            views(names@) == distinct,
            want == name_keys(distinct),
            key_views(keys@) == want.take(j as int),
        decreases names@.len() - j,
    {
        let key = SortKey { ranks: Vec::new(), text: names[j].clone(), minor: 0 };
        proof {
            assert(views(names@)[j as int] == names@[j as int]@);
            assert(key@.ranks =~= Seq::<u64>::empty());
            lemma_key_push(keys@, key, want, j as int);
        }
        keys.push(key);
        j += 1;
    }
    assert(want.take(names@.len() as int) =~= want);
    let order = crate::order::sort_order(&keys);
    let ghost sorted = scopes(g, d as nat, all);
    let mut out: Vec<String> = Vec::new();
    let mut k: usize = 0;
    assert(views(out@) =~= sorted.take(0));
    while k < order.len()
        invariant
            k <= order@.len() == sorted.len(),
            order@.map_values(|x: usize| x as int) == stable_order(want),
            forall|j: int| 0 <= j < order@.len() ==> #[trigger] order@[j] < names@.len(),
            views(names@) == distinct,
            sorted == arrange(distinct, want),
            views(out@) == sorted.take(k as int),
        decreases order@.len() - k,
    {
        let l = names[order[k]].clone();
        let ghost had = out@;
        out.push(l);
        proof {
            assert(order@.map_values(|x: usize| x as int)[k as int] == order@[k as int]);
            assert(views(names@)[order@[k as int] as int] == l@);
            assert(sorted[k as int] == l@);
            assert(views(out@) =~= views(had).push(l@));
            assert(sorted.take(k + 1) =~= sorted.take(k as int).push(l@));
        }
        k += 1;
    }
    assert(sorted.take(order@.len() as int) =~= sorted);
    out
}

/// Those of `items` that stand in the scope `label`.
fn members(
    segs: &Vec<Vec<String>>,
    Ghost(g): Ghost<GraphModel>,
    d: u32,
    items: &Vec<usize>,
    label: &str,
) -> (r: Vec<usize>)
    requires
        segs_ok(segs@, g),
        items_ok(items@, g),
    ensures
        ints(r@) == inside(g, d as nat, ints(items@), label@),
        items_ok(r@, g),
{
    let ghost all = ints(items@);
    let ghost at = scope_at(g, d as nat);
    let ghost keep = |x: int| at(x) == Some(label@);
    let mut out: Vec<usize> = Vec::new();
    let mut i: usize = 0;
    proof {
        reveal(Seq::filter);
        assert(all.take(0) =~= Seq::empty());
        assert(ints(out@) =~= Seq::empty());
    }
    while i < items.len()
        invariant
            segs_ok(segs@, g),
            items_ok(items@, g),
            i <= items@.len(),
            all == ints(items@),
            at == scope_at(g, d as nat),
            keep == (|x: int| at(x) == Some(label@)),
            ints(out@) == all.take(i as int).filter(keep),
            out@.len() <= i,
            items_ok(out@, g),
        decreases items@.len() - i,
    {
        proof {
            reveal(Seq::filter);
            assert(all.take(i + 1).drop_last() =~= all.take(i as int));
            assert(all.take(i + 1).last() == items@[i as int]);
        }
        let hit = match scope_of(segs, Ghost(g), d, items[i]) {
            Some(l) => crate::text::same(l, label),
            None => false,
        };
        if hit {
            proof {
                crate::seqs::lemma_ints_push(out@, items@[i as int]);
            }
            out.push(items[i]);
        }
        i += 1;
    }
    assert(all.take(all.len() as int) =~= all);
    out
}

/// Those of `items` that stand in no further scope, in source order.
fn direct_items(
    graph: &CodeGraph,
    segs: &Vec<Vec<String>>,
    d: u32,
    items: &Vec<usize>,
) -> (r: Vec<usize>)
    requires
        segs_ok(segs@, graph@),
        items_ok(items@, graph@),
    ensures
        ints(r@) == in_source_order(graph@, direct(graph@, d as nat, ints(items@))),
        items_ok(r@, graph@),
{
    let ghost g = graph@;
    let ghost all = ints(items@);
    let ghost at = scope_at(g, d as nat);
    let ghost keep = |x: int| at(x) is None;
    let mut own: Vec<usize> = Vec::new();
    let mut keys: Vec<SortKey> = Vec::new();
    let mut i: usize = 0;
    proof {
        reveal(Seq::filter);
        assert(all.take(0) =~= Seq::empty());
        assert(ints(own@) =~= Seq::empty());
    }
    while i < items.len()
        invariant
            g == graph@,
            segs_ok(segs@, g),
            items_ok(items@, g),
            i <= items@.len(),
            all == ints(items@),
            at == scope_at(g, d as nat),
            keep == (|x: int| at(x) is None),
            ints(own@) == all.take(i as int).filter(keep),
            key_views(keys@) =~= ints(own@).map_values(|i: int| source_key(g, i)),
            own@.len() <= i,
            items_ok(own@, g),
        decreases items@.len() - i,
    {
        proof {
            reveal(Seq::filter);
            assert(all.take(i + 1).drop_last() =~= all.take(i as int));
            assert(all.take(i + 1).last() == items@[i as int]);
        }
        if scope_of(segs, Ghost(g), d, items[i]).is_none() {
            let n = graph.nodes_at(items[i]);
            let mut ranks: Vec<u64> = Vec::new();
            ranks.push(n.span.file as u64);
            ranks.push(n.span.start_line as u64);
            let key = SortKey { ranks, text: n.name.clone(), minor: items[i] as u64 };
            proof {
                crate::seqs::lemma_ints_push(own@, items@[i as int]);
                assert(key@.ranks =~= source_key(g, items@[i as int] as int).ranks);
                assert(key_views(keys@.push(key)) =~= key_views(keys@).push(key@));
            }
            own.push(items[i]);
            keys.push(key);
        }
        i += 1;
    }
    assert(all.take(all.len() as int) =~= all);
    let r = arranged(&own, &keys);
    proof {
        let want = key_views(keys@);
        lemma_order_exists(want);
        let order = stable_order(want);
        assert(ints(r@) =~= arrange(ints(own@), want));
        assert forall|i: int| 0 <= i < r@.len() implies #[trigger] r@[i] < g.nodes.len() by {
            assert(r@[i] == own@[order[i]]);
        }
    }
    r
}

fn count_entries(graph: &CodeGraph, items: &Vec<usize>) -> (r: u32)
    requires
        graph.wf(),
        items_ok(items@, graph@),
    ensures
        r == weight(ints(items@), entry_weight(graph@)),
{
    let ghost g = graph@;
    let ghost all = ints(items@);
    let mut n: u32 = 0;
    let mut i: usize = 0;
    proof {
        graph.lemma_wf();
        assert(all.take(0) =~= Seq::empty());
    }
    while i < items.len()
        invariant
            graph.wf(),
            g == graph@,
            g.nodes.len() <= u32::MAX,
            items_ok(items@, g),
            all == ints(items@),
            i <= items@.len(),
            n <= i,
            n == weight(all.take(i as int), entry_weight(g)),
        decreases items@.len() - i,
    {
        proof {
            assert(all.take(i + 1).drop_last() =~= all.take(i as int));
            assert(all.take(i + 1).last() == items@[i as int]);
        }
        if classify_entry(graph, NodeId(items[i] as u32)).is_some() {
            n += 1;
        }
        i += 1;
    }
    assert(all.take(all.len() as int) =~= all);
    n
}

fn leaf(graph: &CodeGraph, i: usize, depth: u32, id: u64) -> (r: OutlineNode)
    requires
        graph.wf(),
        i < graph@.nodes.len(),
    ensures
        row_model(r) == leaf_model(graph@, i as int, depth as int, id as int),
{
    proof {
        graph.lemma_wf();
        assert(graph@.nodes[i as int].valid());
    }
    let n = graph.nodes_at(i);
    let nid = NodeId(i as u32);
    let entry = classify_entry(graph, nid);
    let r = OutlineNode {
        id,
        label: n.name.clone(),
        path: n.qualified_name.clone(),
        kind: OutlineKind::Function,
        node: Some(nid),
        depth,
        functions: 1,
        entries: if entry.is_some() {
            1
        } else {
            0
        },
        entry,
        cyclomatic: n.cyclomatic_complexity(),
        children: Vec::new(),
    };
    assert(row_model(r).children =~= Seq::empty());
    r
}

pub open spec fn opt_text(path: Option<&str>) -> Option<Seq<char>> {
    match path {
        Some(p) => Some(p@),
        None => None,
    }
}

proof fn lemma_scopes_prefix(
    g: GraphModel,
    items: Seq<int>,
    ls: Seq<Seq<char>>,
    d: nat,
    path: Option<Seq<char>>,
    id: int,
    k: int,
)
    requires
        0 <= k <= ls.len(),
    ensures
        listings(scope_models(g, items, ls.take(k), d, path, id)).len() <= listings(
            scope_models(g, items, ls, d, path, id),
        ).len(),
    decreases ls.len(),
{
    if k < ls.len() {
        lemma_scopes_prefix(g, items, ls.drop_last(), d, path, id, k);
        assert(ls.drop_last().take(k) =~= ls.take(k));
        if d < u32::MAX {
            let all = scope_models(g, items, ls, d, path, id);
            assert(all.drop_last() =~= scope_models(g, items, ls.drop_last(), d, path, id));
        }
    } else {
        assert(ls.take(k) =~= ls);
    }
}

/// The rows of what stands in a scope, and the id that follows them.
fn body(
    graph: &CodeGraph,
    segs: &Vec<Vec<String>>,
    items: &Vec<usize>,
    d: u32,
    path: Option<&str>,
    id: u64,
) -> (r: (Vec<OutlineNode>, u64))
    requires
        graph.wf(),
        segs_ok(segs@, graph@),
        items_ok(items@, graph@),
        id + listings(
            body_models(graph@, ints(items@), d as nat, opt_text(path), id as int),
        ).len() <= u64::MAX,
    ensures
        row_models(r.0@) == body_models(graph@, ints(items@), d as nat, opt_text(path), id as int),
        r.1 == id + listings(row_models(r.0@)).len(),
    decreases u32::MAX - d,
{
    let ghost g = graph@;
    let ghost all = ints(items@);
    let ghost dn = d as nat;
    let ghost pt = opt_text(path);
    let labels = scope_labels(segs, Ghost(g), d, items);
    let ghost ls = scopes(g, dn, all);
    let own = direct_items(graph, segs, d, items);
    let ghost inner = scope_models(g, all, ls, dn, pt, id as int);
    let ghost leaves = leaf_models(g, ints(own@), d as int, id + listings(inner).len());
    proof {
        lemma_scopes(g, dn, all);
        lemma_listings_add(inner, leaves);
        lemma_leaf_listings(g, ints(own@), d as int, id + listings(inner).len());
        assert(body_models(g, all, dn, pt, id as int) == inner + leaves);
        assert(ls.take(0) =~= Seq::empty());
    }
    let mut rows: Vec<OutlineNode> = Vec::new();
    let mut next: u64 = id;
    let mut k: usize = 0;
    assert(row_models(rows@) =~= Seq::empty());
    while k < labels.len()
        invariant
            graph.wf(),
            g == graph@,
            segs_ok(segs@, g),
            items_ok(items@, g),
            all == ints(items@),
            dn == d as nat,
            pt == opt_text(path),
            ls == scopes(g, dn, all),
            views(labels@) == ls,
            ls.len() > 0 ==> d < u32::MAX,
            k <= labels@.len(),
            inner == scope_models(g, all, ls, dn, pt, id as int),
            id + listings(inner).len() <= u64::MAX,
            row_models(rows@) == scope_models(g, all, ls.take(k as int), dn, pt, id as int),
            next == id + listings(row_models(rows@)).len(),
        decreases labels@.len() - k,
    {
        let label = &labels[k];
        let ghost front = row_models(rows@);
        proof {
            assert(views(labels@)[k as int] == label@);
            lemma_scopes_prefix(g, all, ls, dn, pt, id as int, k + 1);
            assert(ls.take(k + 1).drop_last() =~= ls.take(k as int));
            assert(ls.take(k + 1).last() == label@);
        }
        let part = members(segs, Ghost(g), d, items, label.as_str());
        let full = match path {
            Some(p) => {
                let mut t = p.to_owned();
                t.append("::");
                t.append(label.as_str());
                t
            },
            None => label.clone(),
        };
        assert(full@ =~= scope_path(pt, label@));
        let ghost t = scope_model(g, ints(part@), dn + 1, label@, full@, next as int);
        proof {
            assert(scope_models(g, all, ls.take(k + 1), dn, pt, id as int) == front.push(t));
            assert(front.push(t).drop_last() =~= front);
            assert(listing(t).len() == 1 + listings(t.children).len());
        }
        let (children, after) = body(
            graph,
            segs,
            &part,
            d + 1,
            Some(full.as_str()),
            next + 1,
        );
        let row = OutlineNode {
            id: next,
            label: label.clone(),
            path: full,
            kind: OutlineKind::Scope,
            node: None,
            depth: d,
            functions: part.len() as u32,
            entries: count_entries(graph, &part),
            entry: None,
            cyclomatic: 0,
            children,
        };
        proof {
            lemma_row_children(row);
            assert(row_model(row) == t);
            assert(row_models(rows@.push(row)) =~= row_models(rows@).push(t));
        }
        rows.push(row);
        next = after;
        k += 1;
    }
    proof {
        assert(ls.take(ls.len() as int) =~= ls);
    }
    let ghost base = rows@;
    let mut m: usize = 0;
    assert(row_models(rows@) + leaves.take(0) =~= row_models(rows@));
    while m < own.len()
        invariant
            graph.wf(),
            g == graph@,
            items_ok(own@, g),
            m <= own@.len() == leaves.len(),
            leaves == leaf_models(g, ints(own@), d as int, id + listings(inner).len()),
            next == id + listings(inner).len() + m,
            id + listings(inner).len() + leaves.len() <= u64::MAX,
            row_models(rows@) == row_models(base) + leaves.take(m as int),
        decreases own@.len() - m,
    {
        let row = leaf(graph, own[m], d, next);
        proof {
            assert(leaves[m as int] == row_model(row));
            assert(row_models(rows@.push(row)) =~= row_models(rows@).push(row_model(row)));
            assert(row_models(base) + leaves.take(m + 1) =~= (row_models(base) + leaves.take(
                m as int,
            )).push(row_model(row)));
        }
        rows.push(row);
        next += 1;
        m += 1;
    }
    assert(leaves.take(leaves.len() as int) =~= leaves);
    (rows, next)
}

/// The outline of a graph and its totals.
#[derive(Debug)]
pub struct Outline {
    pub roots: Vec<OutlineNode>,
    pub functions: usize,
    pub scopes: usize,
}

impl Default for Outline {
    fn default() -> (r: Self)
        ensures
            r.roots@.len() == 0,
            r.functions == 0,
            r.scopes == 0,
    {
        Outline { roots: Vec::new(), functions: 0, scopes: 0 }
    }
}

/// How many of the first `n` rows are functions.
pub open spec fn function_rows(rows: Seq<RowModel>) -> nat {
    crate::seqs::tally(rows.len() as int, |i: int| rows[i].kind == OutlineKind::Function)
}

/// How many of the first `n` rows are scopes.
pub open spec fn scope_rows(rows: Seq<RowModel>) -> nat {
    crate::seqs::tally(rows.len() as int, |i: int| rows[i].kind == OutlineKind::Scope)
}

impl Outline {
    /// The totals count the rows of the listing.
    pub open spec fn totals_ok(self) -> bool {
        let rows = listings(row_models(self.roots@));
        &&& self.functions == function_rows(rows)
        &&& self.scopes == scope_rows(rows)
    }

    /// `r` is what the query leaves.
    pub open spec fn pruned(self, query: Seq<char>, r: Outline) -> bool {
        let q = lowercase(trimmed(query));
        if q.len() == 0 {
            &&& row_models(r.roots@) == row_models(self.roots@)
            &&& r.functions == self.functions
            &&& r.scopes == self.scopes
        } else {
            &&& row_models(r.roots@) == kept_all(row_models(self.roots@), q)
            &&& r.totals_ok()
        }
    }
}

/// The first row of a graph node.
pub open spec fn row_of(rows: Seq<RowModel>, node: NodeId) -> Option<RowModel> {
    match first_where(rows.len() as int, |k: int| rows[k].node == Some(node)) {
        Some(k) => Some(rows[k]),
        None => None,
    }
}

pub open spec fn ref_models(s: Seq<&OutlineNode>) -> Seq<RowModel> {
    s.map_values(|n: &OutlineNode| row_model(*n))
}

/// A row and what stands under it, from top to bottom.
fn rows_under(n: &OutlineNode) -> (r: Vec<&OutlineNode>)
    ensures
        ref_models(r@) == listing(row_model(*n)),
    decreases n,
{
    let mut out: Vec<&OutlineNode> = Vec::new();
    out.push(n);
    proof {
        lemma_row_children(*n);
        assert(ref_models(out@) =~= seq![row_model(*n)]);
        assert(row_models(n.children@).take(0) =~= Seq::empty());
        assert(seq![row_model(*n)] + Seq::<RowModel>::empty() =~= seq![row_model(*n)]);
    }
    let mut i: usize = 0;
    while i < n.children.len()
        invariant
            i <= n.children@.len(),
            ref_models(out@) == seq![row_model(*n)] + listings(
                row_models(n.children@).take(i as int),
            ),
        decreases n.children@.len() - i,
    {
        let mut under = rows_under(&n.children[i]);
        let ghost had = out@;
        let ghost more = under@;
        out.append(&mut under);
        proof {
            let kids = row_models(n.children@);
            assert(kids.take(i + 1).drop_last() =~= kids.take(i as int));
            assert(kids.take(i + 1).last() == row_model(n.children@[i as int]));
            assert(ref_models(out@) =~= ref_models(had) + ref_models(more));
            assert(ref_models(out@) =~= seq![row_model(*n)] + listings(kids.take(i + 1)));
        }
        i += 1;
    }
    proof {
        let kids = row_models(n.children@);
        assert(kids.take(kids.len() as int) =~= kids);
    }
    out
}

/// The rows from top to bottom.
fn all_rows(roots: &Vec<OutlineNode>) -> (r: Vec<&OutlineNode>)
    ensures
        ref_models(r@) == listings(row_models(roots@)),
{
    let mut out: Vec<&OutlineNode> = Vec::new();
    let ghost tops = row_models(roots@);
    let mut i: usize = 0;
    assert(ref_models(out@) =~= Seq::empty());
    assert(tops.take(0) =~= Seq::empty());
    while i < roots.len()
        invariant
            i <= roots@.len(),
            tops == row_models(roots@),
            ref_models(out@) == listings(tops.take(i as int)),
        decreases roots@.len() - i,
    {
        let mut under = rows_under(&roots[i]);
        let ghost had = out@;
        let ghost more = under@;
        out.append(&mut under);
        proof {
            assert(tops.take(i + 1).drop_last() =~= tops.take(i as int));
            assert(tops.take(i + 1).last() == row_model(roots@[i as int]));
            assert(ref_models(out@) =~= ref_models(had) + ref_models(more));
        }
        i += 1;
    }
    assert(tops.take(tops.len() as int) =~= tops);
    out
}

/// The numbers of function rows and of scope rows.
fn count(roots: &Vec<OutlineNode>) -> (r: (usize, usize))
    ensures
        r.0 == function_rows(listings(row_models(roots@))),
        r.1 == scope_rows(listings(row_models(roots@))),
{
    let rows = all_rows(roots);
    let ghost all = listings(row_models(roots@));
    let ghost is_fn = |i: int| all[i].kind == OutlineKind::Function;
    let ghost is_scope = |i: int| all[i].kind == OutlineKind::Scope;
    let mut f: usize = 0;
    let mut s: usize = 0;
    let mut i: usize = 0;
    while i < rows.len()
        invariant
            i <= rows@.len() == all.len(),
            ref_models(rows@) == all,
            is_fn == (|i: int| all[i].kind == OutlineKind::Function),
            is_scope == (|i: int| all[i].kind == OutlineKind::Scope),
            f == crate::seqs::tally(i as int, is_fn),
            s == crate::seqs::tally(i as int, is_scope),
            f + s <= i,
        decreases rows@.len() - i,
    {
        assert(ref_models(rows@)[i as int] == row_model(*rows@[i as int]));
        match rows[i].kind {
            OutlineKind::Function => {
                f += 1;
            },
            OutlineKind::Scope => {
                s += 1;
            },
        }
        i += 1;
    }
    (f, s)
}

/// The outline of the graph.
pub fn outline(graph: &CodeGraph) -> (r: Outline)
    requires
        graph.wf(),
    ensures
        row_models(r.roots@) == outline_models(graph@),
        r.totals_ok(),
        all_tallied(row_models(r.roots@)),
        forall|q: Seq<char>| #[trigger] all_fit(row_models(r.roots@), q),
        rows_known(row_models(r.roots@), r.roots@.len(), graph@),
{
    let ghost g = graph@;
    proof {
        graph.lemma_wf();
    }
    let mut segs: Vec<Vec<String>> = Vec::new();
    let mut items: Vec<usize> = Vec::new();
    let n: usize = graph.node_count();
    let mut i: usize = 0;
    assert(ints(items@) =~= positions(0, is_def(g)));
    while i < n
        invariant
            g == graph@,
            i <= n == g.nodes.len() <= u32::MAX,
            segs@.len() == i,
            forall|j: int|
                0 <= j < i ==> views((#[trigger] segs@[j])@) == segments(g.nodes[j].module),
            ints(items@) == positions(i as int, is_def(g)),
            items@.len() <= i,
            items_ok(items@, g),
        decreases n - i,
    {
        let node = graph.nodes_at(i);
        segs.push(module_segments(node.module.as_str()));
        if node.kind != NodeKind::External {
            proof {
                crate::seqs::lemma_ints_push(items@, i);
            }
            items.push(i);
        }
        i += 1;
    }
    proof {
        lemma_body_size(g, ints(items@), 0, None, 0);
        let k = items@.len() as int;
        assert(k * 0x1_0000_0000 <= u64::MAX) by (nonlinear_arith)
            requires
                0 <= k <= u32::MAX,
        ;
    }
    let (roots, _) = body(graph, &segs, &items, 0, None, 0);
    let (functions, scopes) = count(&roots);
    proof {
        law_counts_add_up(g);
        law_outline_can_be_shown(g);
        assert(row_models(roots@).len() == roots@.len());
        assert forall|q: Seq<char>| #[trigger] all_fit(row_models(roots@), q) by {
            lemma_all_tallied_fit(roots@, q);
        }
    }
    Outline { roots, functions, scopes }
}

// -- filtering ----------------------------------------------------------------------

impl Clone for OutlineNode {
    fn clone(&self) -> (r: Self)
        ensures
            row_model(r) == row_model(*self),
        decreases self,
    {
        let mut children: Vec<OutlineNode> = Vec::new();
        let mut i: usize = 0;
        while i < self.children.len()
            invariant
                i <= self.children@.len(),
                children@.len() == i,
                forall|j: int|
                    0 <= j < i ==> row_model(#[trigger] children@[j]) == row_model(
                        self.children@[j],
                    ),
            decreases self.children@.len() - i,
        {
            children.push(self.children[i].clone());
            i += 1;
        }
        let r = OutlineNode {
            id: self.id,
            label: self.label.clone(),
            path: self.path.clone(),
            kind: self.kind,
            node: self.node,
            depth: self.depth,
            functions: self.functions,
            entries: self.entries,
            entry: self.entry,
            cyclomatic: self.cyclomatic,
            children,
        };
        proof {
            assert(row_model(r).children =~= row_model(*self).children);
        }
        r
    }
}

impl OutlineNode {
    pub fn is_scope(&self) -> (r: bool)
        ensures
            r == (self.kind == OutlineKind::Scope),
    {
        self.kind == OutlineKind::Scope
    }
}

/// What is left of a row: a function whose path contains `q`, whatever the case, or
/// a scope in which something is left, with its counts taken anew.
pub open spec fn kept(t: RowModel, q: Seq<char>) -> Option<RowModel>
    decreases t,
{
    match t.kind {
        OutlineKind::Function => if contains(lowercase(t.path), q) {
            Some(t)
        } else {
            None
        },
        OutlineKind::Scope => {
            let children = kept_all(t.children, q);
            if children.len() == 0 {
                None
            } else {
                Some(
                    RowModel {
                        functions: total_functions(children),
                        entries: total_entries(children),
                        children,
                        ..t
                    },
                )
            }
        },
    }
}

/// What is left of several rows.
pub open spec fn kept_all(ts: Seq<RowModel>, q: Seq<char>) -> Seq<RowModel>
    decreases ts,
{
    if ts.len() == 0 {
        Seq::empty()
    } else {
        let front = kept_all(ts.drop_last(), q);
        match kept(ts.last(), q) {
            Some(t) => front.push(t),
            None => front,
        }
    }
}

/// The counts of what is left of a row, and of each scope under it, fit in their type.
pub open spec fn fits(t: RowModel, q: Seq<char>) -> bool
    decreases t,
{
    t.kind == OutlineKind::Scope ==> {
        &&& all_fit(t.children, q)
        &&& total_functions(kept_all(t.children, q)) <= u32::MAX
        &&& total_entries(kept_all(t.children, q)) <= u32::MAX
    }
}

pub open spec fn all_fit(ts: Seq<RowModel>, q: Seq<char>) -> bool
    decreases ts,
{
    ts.len() > 0 ==> all_fit(ts.drop_last(), q) && fits(ts.last(), q)
}

proof fn lemma_all_fit(ts: Seq<RowModel>, q: Seq<char>, j: int)
    requires
        0 <= j < ts.len(),
        all_fit(ts, q),
    ensures
        fits(ts[j], q),
    decreases ts.len(),
{
    if j < ts.len() - 1 {
        assert(ts.drop_last()[j] == ts[j]);
        lemma_all_fit(ts.drop_last(), q, j);
    }
}

proof fn lemma_kept_counts(n: OutlineNode, q: Seq<char>)
    ensures
        kept(row_model(n), q) matches Some(k) ==> k.functions >= 0 && k.entries >= 0,
    decreases n,
{
    lemma_row_children(n);
    lemma_kept_all_counts(n.children@, n.children@.len() as int, q);
}

proof fn lemma_kept_all_counts(ns: Seq<OutlineNode>, k: int, q: Seq<char>)
    requires
        0 <= k <= ns.len(),
    ensures
        0 <= total_functions(kept_all(row_models(ns).take(k), q)) <= total_functions(
            kept_all(row_models(ns), q),
        ),
        0 <= total_entries(kept_all(row_models(ns).take(k), q)) <= total_entries(
            kept_all(row_models(ns), q),
        ),
    decreases ns,
{
    let ts = row_models(ns);
    if ns.len() > 0 {
        let rest = ns.drop_last();
        assert(row_models(rest) =~= ts.drop_last());
        assert(ts.last() == row_model(ns.last()));
        lemma_kept_counts(ns.last(), q);
        let front = kept_all(ts.drop_last(), q);
        if let Some(t) = kept(ts.last(), q) {
            assert(front.push(t).drop_last() =~= front);
        }
        if k < ns.len() {
            lemma_kept_all_counts(rest, k, q);
            assert(ts.drop_last().take(k) =~= ts.take(k));
        } else {
            lemma_kept_all_counts(rest, rest.len() as int, q);
            assert(ts.drop_last().take(rest.len() as int) =~= ts.drop_last());
            assert(ts.take(k) =~= ts);
        }
    } else {
        assert(ts.take(k) =~= ts);
    }
}

proof fn lemma_tallied_fits(n: OutlineNode, q: Seq<char>)
    requires
        tallied(row_model(n)),
    ensures
        fits(row_model(n), q),
        kept(row_model(n), q) matches Some(k) ==> k.functions <= n.functions && k.entries
            <= n.entries,
    decreases n,
{
    lemma_row_children(n);
    lemma_all_tallied_fit(n.children@, q);
}

/// Where the counts of rows add up, the counts of what any query leaves of them fit in
/// their type.
pub proof fn lemma_all_tallied_fit(ns: Seq<OutlineNode>, q: Seq<char>)
    requires
        all_tallied(row_models(ns)),
    ensures
        all_fit(row_models(ns), q),
        total_functions(kept_all(row_models(ns), q)) <= total_functions(row_models(ns)),
        total_entries(kept_all(row_models(ns), q)) <= total_entries(row_models(ns)),
    decreases ns,
{
    if ns.len() > 0 {
        let ts = row_models(ns);
        let rest = ns.drop_last();
        assert(row_models(rest) =~= ts.drop_last());
        assert(ts.last() == row_model(ns.last()));
        lemma_all_tallied_fit(rest, q);
        lemma_tallied_fits(ns.last(), q);
        let front = kept_all(ts.drop_last(), q);
        if let Some(t) = kept(ts.last(), q) {
            assert(front.push(t).drop_last() =~= front);
        }
    }
}

/// What is left of a row; `None` where a count of it does not fit in its type.
fn keep(n: &OutlineNode, q: &str) -> (r: Option<Option<OutlineNode>>)
    ensures
        match r {
            Some(left) => fits(row_model(*n), q@) && match left {
                Some(k) => kept(row_model(*n), q@) == Some(row_model(k)),
                None => kept(row_model(*n), q@) is None,
            },
            None => !fits(row_model(*n), q@),
        },
    decreases n,
{
    match n.kind {
        OutlineKind::Function => {
            if has_text(to_lower(n.path.as_str()).as_str(), q) {
                Some(Some(n.clone()))
            } else {
                Some(None)
            }
        },
        OutlineKind::Scope => {
            let mut children: Vec<OutlineNode> = Vec::new();
            let mut functions: u32 = 0;
            let mut entries: u32 = 0;
            let ghost kids = row_models(n.children@);
            let mut i: usize = 0;
            proof {
                lemma_row_children(*n);
                assert(kids.take(0) =~= Seq::empty());
                assert(row_models(children@) =~= Seq::empty());
            }
            while i < n.children.len()
                invariant
                    i <= n.children@.len(),
                    n.kind == OutlineKind::Scope,
                    kids == row_models(n.children@),
                    row_model(*n).children == kids,
                    all_fit(kids.take(i as int), q@),
                    row_models(children@) == kept_all(kids.take(i as int), q@),
                    functions == total_functions(row_models(children@)),
                    entries == total_entries(row_models(children@)),
                decreases n.children@.len() - i,
            {
                proof {
                    assert(kids.take(i + 1).drop_last() =~= kids.take(i as int));
                    assert(kids.take(i + 1).last() == kids[i as int]);
                    lemma_kept_all_counts(n.children@, i + 1, q@);
                }
                let ghost had = row_models(children@);
                match keep(&n.children[i], q) {
                    Some(Some(k)) => {
                        proof {
                            assert(row_models(children@.push(k)) =~= had.push(row_model(k)));
                            assert(had.push(row_model(k)).drop_last() =~= had);
                        }
                        match (functions.checked_add(k.functions), entries.checked_add(k.entries)) {
                            (Some(f), Some(e)) => {
                                functions = f;
                                entries = e;
                            },
                            _ => {
                                return None;
                            },
                        }
                        children.push(k);
                    },
                    Some(None) => {},
                    None => {
                        proof {
                            if all_fit(kids, q@) {
                                lemma_all_fit(kids, q@, i as int);
                            }
                        }
                        return None;
                    },
                }
                i += 1;
            }
            assert(kids.take(kids.len() as int) =~= kids);
            if children.len() == 0 {
                return Some(None);
            }
            let r = OutlineNode {
                id: n.id,
                label: n.label.clone(),
                path: n.path.clone(),
                kind: n.kind,
                node: n.node,
                depth: n.depth,
                functions,
                entries,
                entry: n.entry,
                cyclomatic: n.cyclomatic,
                children,
            };
            proof {
                lemma_row_children(r);
            }
            Some(Some(r))
        },
    }
}

proof fn lemma_kept_tallied(t: RowModel, q: Seq<char>)
    requires
        tallied(t),
    ensures
        kept(t, q) matches Some(k) ==> tallied(k),
    decreases t,
{
    if t.kind == OutlineKind::Scope {
        lemma_kept_all_tallied(t.children, q);
    }
}

proof fn lemma_kept_all_tallied(ts: Seq<RowModel>, q: Seq<char>)
    requires
        all_tallied(ts),
    ensures
        all_tallied(kept_all(ts, q)),
    decreases ts,
{
    if ts.len() > 0 {
        let front = kept_all(ts.drop_last(), q);
        lemma_kept_all_tallied(ts.drop_last(), q);
        lemma_kept_tallied(ts.last(), q);
        if let Some(k) = kept(ts.last(), q) {
            assert(front.push(k).drop_last() =~= front);
        }
    }
}

impl Outline {
    /// The rows from top to bottom; this is also the order of the ids.
    pub fn flatten(&self) -> (r: Vec<&OutlineNode>)
        ensures
            ref_models(r@) == listings(row_models(self.roots@)),
    {
        all_rows(&self.roots)
    }

    /// The row of a graph node, if the outline holds it.
    pub fn find(&self, node: NodeId) -> (r: Option<&OutlineNode>)
        ensures
            (match r {
                Some(n) => Some(row_model(*n)),
                None => None,
            }) == row_of(listings(row_models(self.roots@)), node),
    {
        let rows = all_rows(&self.roots);
        let ghost all = listings(row_models(self.roots@));
        let ghost f = |k: int| all[k].node == Some(node);
        let mut i: usize = 0;
        while i < rows.len()
            invariant
                i <= rows@.len() == all.len(),
                all == listings(row_models(self.roots@)),
                ref_models(rows@) == all,
                f == (|k: int| all[k].node == Some(node)),
                first_where(all.len() as int, f) == first_from(all.len() as int, f, i as int),
            decreases rows@.len() - i,
        {
            assert(ref_models(rows@)[i as int] == row_model(*rows@[i as int]));
            let hit = match rows[i].node {
                Some(x) => x == node,
                None => false,
            };
            if hit {
                let n = rows[i];
                assert(all[i as int] == row_model(*n) && f(i as int));
                return Some(n);
            }
            i += 1;
        }
        None
    }

    /// Only the functions whose path contains the query, whatever the case, and
    /// the scopes above them; an empty query keeps everything.
    pub fn prune(&self, query: &str) -> (r: Outline)
        requires
            lowercase(trimmed(query@)).len() > 0 ==> all_fit(
                row_models(self.roots@),
                lowercase(trimmed(query@)),
            ),
        ensures
            self.pruned(query@, r),
            self.totals_ok() ==> r.totals_ok(),
            all_tallied(row_models(self.roots@)) ==> all_tallied(row_models(r.roots@)),
            forall|g: GraphModel| #[trigger]
                rows_known(row_models(self.roots@), self.roots@.len(), g) ==> rows_known(
                    row_models(r.roots@),
                    r.roots@.len(),
                    g,
                ),
    {
        match self.try_prune(query) {
            Some(r) => r,
            None => {
                assert(false);
                Outline { roots: Vec::new(), functions: 0, scopes: 0 }
            },
        }
    }

    /// The same for rows of any origin; `None` where a count of what is left does not fit
    /// in its type.
    pub fn try_prune(&self, query: &str) -> (r: Option<Outline>)
        ensures
            r is Some <==> (lowercase(trimmed(query@)).len() > 0 ==> all_fit(
                row_models(self.roots@),
                lowercase(trimmed(query@)),
            )),
            r matches Some(o) ==> self.pruned(query@, o),
            r matches Some(o) ==> self.totals_ok() ==> o.totals_ok(),
            r matches Some(o) ==> all_tallied(row_models(self.roots@)) ==> all_tallied(
                row_models(o.roots@),
            ),
            r matches Some(o) ==> forall|g: GraphModel| #[trigger]
                rows_known(row_models(self.roots@), self.roots@.len(), g) ==> rows_known(
                    row_models(o.roots@),
                    o.roots@.len(),
                    g,
                ),
    {
        let q = to_lower(trim_text(query).as_str());
        let mut roots: Vec<OutlineNode> = Vec::new();
        let ghost tops = row_models(self.roots@);
        let mut i: usize = 0;
        if q.as_str().is_empty() {
            while i < self.roots.len()
                invariant
                    i <= self.roots@.len(),
                    tops == row_models(self.roots@),
                    row_models(roots@) =~= tops.take(i as int),
                decreases self.roots@.len() - i,
            {
                let c = self.roots[i].clone();
                assert(row_models(roots@.push(c)) =~= row_models(roots@).push(row_model(c)));
                roots.push(c);
                i += 1;
            }
            assert(tops.take(tops.len() as int) =~= tops);
            assert(row_models(roots@).len() == roots@.len());
            return Some(Outline { roots, functions: self.functions, scopes: self.scopes });
        }
        proof {
            assert(tops.take(0) =~= Seq::empty());
            assert(row_models(roots@) =~= Seq::empty());
        }
        while i < self.roots.len()
            invariant
                i <= self.roots@.len(),
                q@ == lowercase(trimmed(query@)),
                q@.len() > 0,
                tops == row_models(self.roots@),
                all_fit(tops.take(i as int), q@),
                row_models(roots@) == kept_all(tops.take(i as int), q@),
            decreases self.roots@.len() - i,
        {
            proof {
                assert(tops.take(i + 1).drop_last() =~= tops.take(i as int));
                assert(tops.take(i + 1).last() == tops[i as int]);
            }
            match keep(&self.roots[i], q.as_str()) {
                Some(Some(k)) => {
                    assert(row_models(roots@.push(k)) =~= row_models(roots@).push(row_model(k)));
                    roots.push(k);
                },
                Some(None) => {},
                None => {
                    proof {
                        if all_fit(tops, q@) {
                            lemma_all_fit(tops, q@, i as int);
                        }
                    }
                    return None;
                },
            }
            i += 1;
        }
        assert(tops.take(tops.len() as int) =~= tops);
        let (functions, scopes) = count(&roots);
        proof {
            if all_tallied(tops) {
                lemma_kept_all_tallied(tops, q@);
            }
            assert(row_models(roots@).len() == roots@.len() && tops.len() == self.roots@.len());
            assert forall|g: GraphModel| #[trigger]
                rows_known(tops, self.roots@.len(), g) implies rows_known(
                row_models(roots@),
                roots@.len(),
                g,
            ) by {
                law_pruned_outline_can_be_shown(tops, q@, g);
            }
        }
        Some(Outline { roots, functions, scopes })
    }
}

/// A function row whose path contains `q`, whatever the case.
pub open spec fn row_matches(t: RowModel, q: Seq<char>) -> bool {
    t.kind == OutlineKind::Function && contains(lowercase(t.path), q)
}

/// Nothing stands under a function.
pub open spec fn leafy(t: RowModel) -> bool {
    t.kind == OutlineKind::Function ==> t.children.len() == 0
}

/// Filtering keeps exactly the functions that match, in their order.
pub proof fn law_prune_keeps_the_matches(ts: Seq<RowModel>, q: Seq<char>)
    requires
        forall|i: int| 0 <= i < listings(ts).len() ==> leafy(#[trigger] listings(ts)[i]),
    ensures
        listings(kept_all(ts, q)).filter(|t: RowModel| t.kind == OutlineKind::Function)
            == listings(ts).filter(|t: RowModel| row_matches(t, q)),
    decreases ts,
{
    let f = |t: RowModel| t.kind == OutlineKind::Function;
    let m = |t: RowModel| row_matches(t, q);
    if ts.len() == 0 {
        reveal(Seq::filter);
        assert(listings(kept_all(ts, q)) =~= Seq::<RowModel>::empty());
        assert(listings(ts) =~= Seq::<RowModel>::empty());
    } else {
        let rest = ts.drop_last();
        let t = ts.last();
        let a = listings(rest);
        let b = listing(t);
        assert(listings(ts) == a + b);
        assert forall|i: int| 0 <= i < a.len() implies leafy(#[trigger] a[i]) by {
            assert(a[i] == listings(ts)[i]);
        }
        assert forall|i: int| 0 <= i < b.len() implies leafy(#[trigger] b[i]) by {
            assert(b[i] == listings(ts)[a.len() + i]);
        }
        law_prune_keeps_the_matches(rest, q);
        lemma_prune_row(t, q);
        Seq::filter_distributes_over_add(a, b, m);
        let front = kept_all(rest, q);
        match kept(t, q) {
            Some(k) => {
                assert(front.push(k).drop_last() =~= front);
                assert(listings(front.push(k)) == listings(front) + listing(k));
                Seq::filter_distributes_over_add(listings(front), listing(k), f);
            },
            None => {
                assert(a.filter(m) + Seq::<RowModel>::empty() =~= a.filter(m));
            },
        }
    }
}

proof fn lemma_prune_row(t: RowModel, q: Seq<char>)
    requires
        forall|i: int| 0 <= i < listing(t).len() ==> leafy(#[trigger] listing(t)[i]),
    ensures
        match kept(t, q) {
            Some(k) => listing(k).filter(|t: RowModel| t.kind == OutlineKind::Function)
                == listing(t).filter(|t: RowModel| row_matches(t, q)),
            None => listing(t).filter(|t: RowModel| row_matches(t, q)) == Seq::<RowModel>::empty(),
        },
    decreases t,
{
    let f = |t: RowModel| t.kind == OutlineKind::Function;
    let m = |t: RowModel| row_matches(t, q);
    let under = listings(t.children);
    assert(listing(t)[0] == t);
    assert(leafy(t));
    assert forall|i: int| 0 <= i < under.len() implies leafy(#[trigger] under[i]) by {
        assert(under[i] == listing(t)[i + 1]);
    }
    Seq::filter_distributes_over_add(seq![t], under, m);
    Seq::filter_distributes_over_add(seq![t], under, f);
    lemma_filter_single(t, m);
    lemma_filter_single(t, f);
    if t.kind == OutlineKind::Function {
        reveal(Seq::filter);
        assert(under =~= Seq::<RowModel>::empty());
        assert(seq![t] + Seq::<RowModel>::empty() =~= seq![t]);
        assert(Seq::<RowModel>::empty() + Seq::<RowModel>::empty() =~= Seq::<RowModel>::empty());
    } else {
        law_prune_keeps_the_matches(t.children, q);
        let children = kept_all(t.children, q);
        assert(listing(t).filter(m) =~= under.filter(m));
        if children.len() > 0 {
            let k = kept(t, q)->0;
            Seq::filter_distributes_over_add(seq![k], listings(children), f);
            lemma_filter_single(k, f);
            assert(listing(k).filter(f) =~= listings(children).filter(f));
        } else {
            reveal(Seq::filter);
            assert(listings(children) =~= Seq::<RowModel>::empty());
        }
    }
}

proof fn lemma_filter_single(t: RowModel, keep: spec_fn(RowModel) -> bool)
    ensures
        seq![t].filter(keep) == if keep(t) {
            seq![t]
        } else {
            Seq::empty()
        },
{
    reveal(Seq::filter);
    let none = Seq::<RowModel>::empty();
    assert(seq![t].drop_last() =~= none);
    assert(none.filter(keep) =~= none);
    assert(seq![t].last() == t);
    assert(none.push(t) =~= seq![t]);
}

} // verus!
