//! Where each row of an outline stands: which scopes there are, what each holds, and in
//! which order the rows under one scope come.

use crate::entries::entry_kind;
use crate::graph::{GraphModel, NodeKind};
use crate::ids::NodeId;
use crate::order::{lemma_arrange_has, lemma_key_lt_total, lemma_order_exists, placed_before, stable_order};
use crate::outline::{
    body_models, definitions, direct, in_source_order, inside, is_def, leaf_model, leaf_models,
    lemma_scopes, name_keys, outline_models, scope_at, scope_model, scope_models, scope_names,
    scope_path, scopes, source_key, OutlineKind, RowModel,
};
use crate::seqs::{lemma_filter_has, lemma_positions, positions, tally, weight};
use crate::text::{join, split, text_lt};
use vstd::prelude::*;

verus! {

/// The scopes that a module path leads through, without empty ones.
pub open spec fn rooms(module: Seq<char>) -> Seq<Seq<char>> {
    split(module, "::"@).filter(|s: Seq<char>| s.len() > 0)
}

/// Node `i` is a definition in the scope that `names` lead to, or in one below it.
pub open spec fn lodged(g: GraphModel, names: Seq<Seq<char>>) -> spec_fn(int) -> bool {
    |i: int|
        {
            let all = rooms(g.nodes[i].module);
            g.nodes[i].kind != NodeKind::External && names.len() <= all.len() && all.take(
                names.len() as int,
            ) == names
        }
}

/// Node `i` is such a definition, and an entry point.
pub open spec fn lodged_entry(g: GraphModel, names: Seq<Seq<char>>) -> spec_fn(int) -> bool {
    |i: int| lodged(g, names)(i) && entry_kind(g, NodeId(i as u32)) is Some
}

/// The row of a function, in the scope that `names` lead to.
pub open spec fn right_leaf(t: RowModel, g: GraphModel, names: Seq<Seq<char>>) -> bool {
    &&& t.children.len() == 0
    &&& t.node matches Some(id) && {
        let n = g.nodes[id.0 as int];
        &&& id.0 < g.nodes.len()
        &&& n.kind != NodeKind::External
        &&& rooms(n.module) == names
        &&& t.label == n.name
        &&& t.path == n.qualified_name
        &&& t.depth == names.len()
        &&& t.functions == 1
        &&& t.entry == entry_kind(g, id)
        &&& t.entries == if entry_kind(g, id) is Some {
            1int
        } else {
            0int
        }
        &&& t.cyclomatic == n.stats.decision_points + 1
    }
}

/// Of two rows under one scope the first comes rightly before the second: scopes stand
/// before functions and in alphabetical order, functions as they stand in the source.
pub open spec fn rightly_before(a: RowModel, b: RowModel, g: GraphModel) -> bool {
    match (a.kind, b.kind) {
        (OutlineKind::Scope, OutlineKind::Function) => true,
        (OutlineKind::Function, OutlineKind::Scope) => false,
        (OutlineKind::Scope, OutlineKind::Scope) => text_lt(a.label, b.label),
        (OutlineKind::Function, OutlineKind::Function) => match (a.node, b.node) {
            (Some(u), Some(v)) => {
                let (m, n) = (g.nodes[u.0 as int], g.nodes[v.0 as int]);
                &&& m.span.file <= n.span.file
                &&& m.span.file == n.span.file ==> m.span.start_line <= n.span.start_line
                &&& m.span.file == n.span.file && m.span.start_line == n.span.start_line ==> text_lt(
                    m.name,
                    n.name,
                ) || m.name == n.name && u.0 < v.0
            },
            _ => false,
        },
    }
}

pub open spec fn rightly_ordered(ts: Seq<RowModel>, g: GraphModel) -> bool {
    forall|i: int, j: int|
        0 <= i < j < ts.len() ==> rightly_before(#[trigger] ts[i], #[trigger] ts[j], g)
}

/// The row and all below it stand where they belong, in the scope that `names` lead to:
/// a scope is called by the scopes that lead to it, counts the definitions in it and
/// holds rows that stand where they belong, in order.
pub open spec fn right_row(t: RowModel, g: GraphModel, names: Seq<Seq<char>>) -> bool
    decreases t,
{
    match t.kind {
        OutlineKind::Function => right_leaf(t, g, names),
        OutlineKind::Scope => {
            let inner = names.push(t.label);
            &&& t.node is None
            &&& t.entry is None
            &&& t.cyclomatic == 0
            &&& t.depth == names.len()
            &&& t.path == join(inner, "::"@)
            &&& t.functions > 0
            &&& t.functions == tally(g.nodes.len() as int, lodged(g, inner))
            &&& t.entries == tally(g.nodes.len() as int, lodged_entry(g, inner))
            &&& rightly_ordered(t.children, g)
            &&& forall|k: int|
                0 <= k < t.children.len() ==> right_row(#[trigger] t.children[k], g, inner)
        },
    }
}

pub open spec fn right_rows(ts: Seq<RowModel>, g: GraphModel, names: Seq<Seq<char>>) -> bool {
    &&& rightly_ordered(ts, g)
    &&& forall|k: int| 0 <= k < ts.len() ==> right_row(#[trigger] ts[k], g, names)
}

proof fn lemma_positions_filter(
    n: int,
    f: spec_fn(int) -> bool,
    keep: spec_fn(int) -> bool,
    both: spec_fn(int) -> bool,
)
    requires
        0 <= n,
        forall|i: int| 0 <= i < n ==> (#[trigger] both(i) <==> f(i) && keep(i)),
    ensures
        positions(n, f).filter(keep) == positions(n, both),
    decreases n,
{
    reveal(Seq::filter);
    if n > 0 {
        lemma_positions_filter(n - 1, f, keep, both);
        assert(both(n - 1) <==> f(n - 1) && keep(n - 1));
        let all = positions(n, f);
        if f(n - 1) {
            assert(all.drop_last() =~= positions(n - 1, f));
            assert(all.last() == n - 1);
        }
    } else {
        assert(positions(n, f).filter(keep) =~= positions(n, both));
    }
}

proof fn lemma_positions_weight(
    n: int,
    f: spec_fn(int) -> bool,
    w: spec_fn(int) -> int,
    both: spec_fn(int) -> bool,
)
    requires
        0 <= n,
        forall|i: int| 0 <= i < n ==> #[trigger] w(i) == 0 || w(i) == 1,
        forall|i: int| 0 <= i < n ==> (#[trigger] both(i) <==> f(i) && w(i) == 1),
    ensures
        weight(positions(n, f), w) == tally(n, both),
    decreases n,
{
    if n > 0 {
        lemma_positions_weight(n - 1, f, w, both);
        assert(both(n - 1) <==> f(n - 1) && w(n - 1) == 1);
        let all = positions(n, f);
        if f(n - 1) {
            assert(all.drop_last() =~= positions(n - 1, f));
            assert(all.last() == n - 1);
        }
    }
}

/// Those of `items`, the definitions in the scope `names`, that stand in its scope `l`.
proof fn lemma_inside(g: GraphModel, names: Seq<Seq<char>>, l: Seq<char>)
    requires
        names.len() < u32::MAX,
    ensures
        inside(g, names.len(), positions(g.nodes.len() as int, lodged(g, names)), l) == positions(
            g.nodes.len() as int,
            lodged(g, names.push(l)),
        ),
{
    let d = names.len();
    let key = scope_at(g, d);
    let keep = |i: int| key(i) == Some(l);
    let both = lodged(g, names.push(l));
    assert forall|i: int| 0 <= i < g.nodes.len() implies (#[trigger] both(i) <==> lodged(g, names)(i)
        && keep(i)) by {
        let all = rooms(g.nodes[i].module);
        if d < all.len() {
            assert(all.take(d + 1int) =~= all.take(d as int).push(all[d as int]));
            if all.take(d + 1int) == names.push(l) {
                assert(names.push(l).drop_last() =~= names);
                assert(all.take(d + 1int).drop_last() =~= all.take(d as int));
                assert(names.push(l).last() == l);
            }
        }
    }
    lemma_positions_filter(g.nodes.len() as int, lodged(g, names), keep, both);
}

/// No module path leads through more scopes than can be counted.
pub open spec fn countable(g: GraphModel) -> bool {
    forall|i: int|
        0 <= i < g.nodes.len() ==> rooms((#[trigger] g.nodes[i]).module).len() < u32::MAX
}

proof fn lemma_scopes_ascend(g: GraphModel, d: nat, items: Seq<int>)
    ensures
        forall|i: int, j: int|
            0 <= i < j < scopes(g, d, items).len() ==> text_lt(
                #[trigger] scopes(g, d, items)[i],
                #[trigger] scopes(g, d, items)[j],
            ),
{
    let names = scope_names(g, d, items);
    let keys = name_keys(names);
    let all = scopes(g, d, items);
    lemma_scopes(g, d, items);
    lemma_order_exists(keys);
    let order = stable_order(keys);
    assert forall|i: int, j: int| 0 <= i < j < all.len() implies text_lt(
        #[trigger] all[i],
        #[trigger] all[j],
    ) by {
        assert(all[i] == names[order[i]] && all[j] == names[order[j]]);
        assert(placed_before(keys, order[i], order[j]));
        assert(all[i] != all[j]);
        let none: Seq<u64> = Seq::empty();
        assert(keys[order[i]].text == all[i] && keys[order[j]].text == all[j]);
        assert(keys[order[i]].ranks =~= none && keys[order[j]].ranks =~= none);
        assert(!crate::order::ranks_lt(none, none));
    }
}

proof fn lemma_source_order(g: GraphModel, items: Seq<int>, i: int, j: int)
    requires
        0 <= i < j < in_source_order(g, items).len(),
        forall|x: int| #[trigger] items.contains(x) ==> 0 <= x < g.nodes.len() && x < u32::MAX,
    ensures
        ({
            let (u, v) = (in_source_order(g, items)[i], in_source_order(g, items)[j]);
            let (m, n) = (g.nodes[u], g.nodes[v]);
            &&& m.span.file <= n.span.file
            &&& m.span.file == n.span.file ==> m.span.start_line <= n.span.start_line
            &&& m.span.file == n.span.file && m.span.start_line == n.span.start_line ==> text_lt(
                m.name,
                n.name,
            ) || m.name == n.name && u <= v
        }),
{
    let keys = items.map_values(|i: int| source_key(g, i));
    lemma_order_exists(keys);
    let order = stable_order(keys);
    let all = in_source_order(g, items);
    assert(placed_before(keys, order[i], order[j]));
    let (u, v) = (all[i], all[j]);
    assert(u == items[order[i]] && v == items[order[j]]);
    assert(items.contains(u) && items.contains(v));
    let (a, b) = (keys[order[i]], keys[order[j]]);
    assert(a == source_key(g, u) && b == source_key(g, v));
    reveal_with_fuel(crate::order::ranks_lt, 3);
    assert(a.ranks.skip(1)[0] == a.ranks[1]);
    assert(b.ranks.skip(1)[0] == b.ranks[1]);
    assert(a.minor == u && b.minor == v);
}

proof fn lemma_source_distinct(g: GraphModel, items: Seq<int>)
    requires
        items.no_duplicates(),
    ensures
        in_source_order(g, items).no_duplicates(),
{
    let keys = items.map_values(|i: int| source_key(g, i));
    lemma_order_exists(keys);
    let order = stable_order(keys);
    let all = in_source_order(g, items);
    assert forall|i: int, j: int| 0 <= i < all.len() && 0 <= j < all.len() && i != j implies all[i]
        != all[j] by {
        assert(all[i] == items[order[i]] && all[j] == items[order[j]]);
        if order[i] == order[j] {
            if i < j {
                assert(placed_before(keys, order[i], order[j]));
            } else {
                assert(placed_before(keys, order[j], order[i]));
            }
            lemma_key_lt_total(keys[order[i]], keys[order[j]]);
        }
    }
}

proof fn lemma_leaves(g: GraphModel, names: Seq<Seq<char>>, id: int)
    requires
        g.wf(),
        countable(g),
        names.len() < u32::MAX,
    ensures
        ({
            let items = positions(g.nodes.len() as int, lodged(g, names));
            let own = in_source_order(g, direct(g, names.len(), items));
            right_rows(leaf_models(g, own, names.len() as int, id), g, names)
        }),
{
    let n = g.nodes.len() as int;
    let d = names.len();
    let items = positions(n, lodged(g, names));
    let found = direct(g, d, items);
    let own = in_source_order(g, found);
    let ts = leaf_models(g, own, d as int, id);
    let keep = |i: int| scope_at(g, d)(i) is None;
    lemma_positions(n, lodged(g, names));
    lemma_filter_has(items, keep);
    lemma_arrange_has(found, found.map_values(|i: int| source_key(g, i)));
    let here = |i: int| lodged(g, names)(i) && keep(i);
    lemma_positions_filter(n, lodged(g, names), keep, here);
    lemma_positions(n, here);
    assert(found == positions(n, here));
    assert(found.no_duplicates());
    lemma_source_distinct(g, found);
    assert forall|x: int| #[trigger] found.contains(x) implies 0 <= x < n && x < u32::MAX && lodged(
        g,
        names,
    )(x) && keep(x) by {
        let k = found.index_of(x);
        assert(found[k] == x);
    }
    assert forall|k: int| 0 <= k < ts.len() implies right_row(#[trigger] ts[k], g, names) by {
        let x = own[k];
        assert(own.contains(x));
        assert(found.contains(x));
        assert(ts[k] == leaf_model(g, x, d as int, id + k));
        let all = rooms(g.nodes[x].module);
        assert(all.len() <= d);
        assert(all.take(d as int) =~= all);
        assert(right_leaf(ts[k], g, names));
    }
    assert forall|i: int, j: int| 0 <= i < j < ts.len() implies rightly_before(
        #[trigger] ts[i],
        #[trigger] ts[j],
        g,
    ) by {
        lemma_source_order(g, found, i, j);
        assert(own.contains(own[i]) && own.contains(own[j]));
        assert(found.contains(own[i]) && found.contains(own[j]));
        assert(own[i] != own[j]);
    }
}

proof fn lemma_body_right(g: GraphModel, names: Seq<Seq<char>>, path: Option<Seq<char>>, id: int)
    requires
        g.wf(),
        countable(g),
        names.len() < u32::MAX,
        path == if names.len() == 0 {
            None
        } else {
            Some(join(names, "::"@))
        },
    ensures
        right_rows(
            body_models(
                g,
                positions(g.nodes.len() as int, lodged(g, names)),
                names.len(),
                path,
                id,
            ),
            g,
            names,
        ),
    decreases u32::MAX - names.len(), 1nat, 0nat,
{
    let items = positions(g.nodes.len() as int, lodged(g, names));
    let d = names.len();
    let ls = scopes(g, d, items);
    lemma_scopes(g, d, items);
    lemma_scopes_ascend(g, d, items);
    assert forall|k: int| 0 <= k < ls.len() implies inside(g, d, items, #[trigger] ls[k]).len()
        > 0 by {}
    lemma_scopes_right(g, names, ls, path, id);
    let inner = scope_models(g, items, ls, d, path, id);
    let first = id + crate::outline::listings(inner).len();
    lemma_leaves(g, names, first);
    let leaves = leaf_models(g, in_source_order(g, direct(g, d, items)), d as int, first);
    let ts = body_models(g, items, d, path, id);
    assert(ts == inner + leaves);
    assert forall|k: int| 0 <= k < ts.len() implies right_row(#[trigger] ts[k], g, names) by {
        if k < inner.len() {
            assert(ts[k] == inner[k]);
        } else {
            assert(ts[k] == leaves[k - inner.len()]);
        }
    }
    assert forall|i: int, j: int| 0 <= i < j < ts.len() implies rightly_before(
        #[trigger] ts[i],
        #[trigger] ts[j],
        g,
    ) by {
        if j < inner.len() {
            assert(ts[i] == inner[i] && ts[j] == inner[j]);
        } else if i >= inner.len() {
            assert(ts[i] == leaves[i - inner.len()] && ts[j] == leaves[j - inner.len()]);
        } else {
            assert(ts[i] == inner[i] && ts[j] == leaves[j - inner.len()]);
        }
    }
}

proof fn lemma_scopes_right(
    g: GraphModel,
    names: Seq<Seq<char>>,
    ls: Seq<Seq<char>>,
    path: Option<Seq<char>>,
    id: int,
)
    requires
        g.wf(),
        countable(g),
        names.len() < u32::MAX,
        path == if names.len() == 0 {
            None
        } else {
            Some(join(names, "::"@))
        },
        forall|i: int, j: int|
            0 <= i < j < ls.len() ==> text_lt(#[trigger] ls[i], #[trigger] ls[j]),
        forall|k: int|
            0 <= k < ls.len() ==> inside(
                g,
                names.len(),
                positions(g.nodes.len() as int, lodged(g, names)),
                #[trigger] ls[k],
            ).len() > 0,
    ensures
        ({
            let items = positions(g.nodes.len() as int, lodged(g, names));
            let ts = scope_models(g, items, ls, names.len(), path, id);
            &&& ts.len() == ls.len()
            &&& forall|k: int|
                0 <= k < ts.len() ==> (#[trigger] ts[k]).kind == OutlineKind::Scope && ts[k].label
                    == ls[k]
            &&& right_rows(ts, g, names)
        }),
    decreases u32::MAX - names.len(), 0nat, ls.len(),
{
    let n = g.nodes.len() as int;
    let items = positions(n, lodged(g, names));
    let d = names.len();
    let ts = scope_models(g, items, ls, d, path, id);
    if ls.len() > 0 {
        let less = ls.drop_last();
        let l = ls.last();
        assert forall|i: int, j: int| 0 <= i < j < less.len() implies text_lt(
            #[trigger] less[i],
            #[trigger] less[j],
        ) by {
            assert(less[i] == ls[i] && less[j] == ls[j]);
        }
        assert forall|k: int| 0 <= k < less.len() implies inside(g, d, items, #[trigger] less[k]).len()
            > 0 by {
            assert(less[k] == ls[k]);
        }
        lemma_scopes_right(g, names, less, path, id);
        let front = scope_models(g, items, less, d, path, id);
        let inner = names.push(l);
        let p = scope_path(path, l);
        let next = id + crate::outline::listings(front).len();
        let part = inside(g, d, items, l);
        let t = scope_model(g, part, d + 1, l, p, next);
        assert(ts == front.push(t));
        lemma_inside(g, names, l);
        assert(p == join(inner, "::"@)) by {
            assert(inner.drop_last() =~= names);
            assert(inner.last() == l);
            if names.len() == 0 {
                assert(inner =~= seq![l]);
            }
        }
        lemma_positions(n, lodged(g, inner));
        assert(ls[ls.len() - 1] == l);
        let k = part[0];
        assert(lodged(g, inner)(k));
        assert(inner.len() <= rooms(g.nodes[k].module).len());
        assert(inner.len() < u32::MAX);
        lemma_body_right(g, inner, Some(p), next + 1);
        lemma_positions_weight(
            n,
            lodged(g, inner),
            crate::outline::entry_weight(g),
            lodged_entry(g, inner),
        );
        assert(t.children == body_models(g, part, d + 1, Some(p), next + 1));
        assert(right_row(t, g, names));
        assert forall|i: int, j: int| 0 <= i < j < ts.len() implies rightly_before(
            #[trigger] ts[i],
            #[trigger] ts[j],
            g,
        ) by {
            assert(ts[i] == front[i]);
            assert(front[i].label == less[i]);
            if j < front.len() {
                assert(ts[j] == front[j]);
            } else {
                assert(text_lt(ls[i], ls[ls.len() - 1]));
            }
        }
        assert forall|k: int| 0 <= k < ts.len() implies right_row(#[trigger] ts[k], g, names) by {
            if k < front.len() {
                assert(ts[k] == front[k]);
            }
        }
    }
}

/// Every row of an outline stands where it belongs. A function stands in the scopes that
/// its module path leads through, under its name, with its qualified name, its entry kind
/// and its complexity. A scope is called by the names that lead to it, and counts the
/// definitions and the entry points in it and below it. The rows of one scope come scopes
/// first, by name, and then functions, by file, line and name.
pub proof fn law_rows_stand_where_they_belong(g: GraphModel)
    requires
        g.wf(),
        countable(g),
    ensures
        right_rows(outline_models(g), g, Seq::empty()),
{
    let n = g.nodes.len() as int;
    let none: Seq<Seq<char>> = Seq::empty();
    let always = |i: int| true;
    assert forall|i: int| 0 <= i < n implies (#[trigger] lodged(g, none)(i) <==> is_def(g)(i)
        && always(i)) by {
        assert(rooms(g.nodes[i].module).take(0) =~= none);
    }
    lemma_same_positions(n, is_def(g), lodged(g, none));
    assert(definitions(g) == positions(n, lodged(g, none)));
    lemma_body_right(g, none, None, 0);
}

proof fn lemma_same_positions(n: int, f: spec_fn(int) -> bool, h: spec_fn(int) -> bool)
    requires
        0 <= n,
        forall|i: int| 0 <= i < n ==> (#[trigger] h(i) <==> f(i)),
    ensures
        positions(n, f) == positions(n, h),
    decreases n,
{
    if n > 0 {
        lemma_same_positions(n - 1, f, h);
        assert(h(n - 1) <==> f(n - 1));
    }
}

} // verus!
