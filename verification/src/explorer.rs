//! What the explorer shows: the outline as a foldable list, the entry points by
//! weight, and call trees with names.

use crate::calltree::{tree_model, CallTreeNode, TreeModel};
use crate::card::{colon_line, edge_kind_str, edge_kind_text, line_text, CallRef, CallRefModel};
use crate::entries::{entries_of, entry_points, EntryKind, EntryPoint};
use crate::graph::{CodeGraph, GraphModel, NodeKind, NodeModel};
use crate::ids::NodeId;
use crate::nav::{lemma_tree_known_at, said_if, tree_known, tree_models, trees_known};
use crate::order::{
    arrange, descending, key_views, lemma_key_push, sort_order, stable_order, text_key, KeyModel,
    SortKey,
};
use crate::outline::{
    all_tallied, outline, outline_models, row_model, row_models, Outline, OutlineKind, OutlineNode,
    RowModel,
};
use crate::path::{base_start, file_name, name_of};
use crate::reach::{reach_count, reach_total, Direction};
use crate::seqs::{lemma_push_take, lemma_views_push, positions, views_of};
use crate::text::{chars_of, concat2, decimal, decimal_text, string_of};
use std::collections::HashSet;
use vstd::prelude::*;

verus! {

/// The file name and the line of a definition, or `external`.
pub open spec fn short_place(g: GraphModel, n: NodeModel) -> Seq<char> {
    if n.kind != NodeKind::External && n.span.file < g.files.len() {
        line_text(
            match file_name(g.files[n.span.file as int]) {
                Some(base) => base,
                None => ""@,
            },
            n.span.start_line,
        )
    } else {
        "external"@
    }
}

/// The file name and the line of a definition, or `external`.
pub fn short_location(graph: &CodeGraph, id: NodeId) -> (r: String)
    requires
        graph@.has(id),
    ensures
        r@ == short_place(graph@, graph@.node(id)),
{
    let n = graph.node(id);
    if n.kind != NodeKind::External {
        if let Some(p) = graph.file_path(n.span.file()) {
            return match name_of(p) {
                Some(base) => colon_line(base.as_str(), n.span.start_line),
                None => colon_line("", n.span.start_line),
            };
        }
    }
    "external".to_owned()
}

// -- rows -----------------------------------------------------------------------------

/// One row of the outline, laid flat.
#[derive(Debug)]
pub struct Row {
    pub id: u64,
    pub depth: u32,
    pub label: String,
    pub is_scope: bool,
    /// The graph node, for functions.
    pub node: Option<NodeId>,
    pub functions: u32,
    pub entries: u32,
    pub entry: Option<EntryKind>,
    pub cyclomatic: u32,
    /// The place of the row that this one stands under.
    pub parent: Option<usize>,
}

/// The mathematical content of a [`Row`].
#[verifier::ext_equal]
pub struct FlatModel {
    pub id: int,
    pub depth: int,
    pub label: Seq<char>,
    pub is_scope: bool,
    pub node: Option<NodeId>,
    pub functions: int,
    pub entries: int,
    pub entry: Option<EntryKind>,
    pub cyclomatic: int,
    pub parent: Option<int>,
}

impl View for Row {
    type V = FlatModel;

    open spec fn view(&self) -> FlatModel {
        FlatModel {
            id: self.id as int,
            depth: self.depth as int,
            label: self.label@,
            is_scope: self.is_scope,
            node: self.node,
            functions: self.functions as int,
            entries: self.entries as int,
            entry: self.entry,
            cyclomatic: self.cyclomatic as int,
            parent: match self.parent {
                Some(p) => Some(p as int),
                None => None,
            },
        }
    }
}

impl Clone for Row {
    fn clone(&self) -> (r: Self)
        ensures
            r@ == self@,
    {
        Row {
            id: self.id,
            depth: self.depth,
            label: self.label.clone(),
            is_scope: self.is_scope,
            node: self.node,
            functions: self.functions,
            entries: self.entries,
            entry: self.entry,
            cyclomatic: self.cyclomatic,
            parent: self.parent,
        }
    }
}

/// A row of the outline without what stands under it.
pub open spec fn flat_of(t: RowModel, parent: Option<int>) -> FlatModel {
    FlatModel {
        id: t.id,
        depth: t.depth,
        label: t.label,
        is_scope: t.kind == OutlineKind::Scope,
        node: t.node,
        functions: t.functions,
        entries: t.entries,
        entry: t.entry,
        cyclomatic: t.cyclomatic,
        parent,
    }
}

/// A row at place `at` and what stands under it, from top to bottom.
pub open spec fn flat_tree(t: RowModel, parent: Option<int>, at: int) -> Seq<FlatModel>
    decreases t, 0nat,
{
    seq![flat_of(t, parent)] + flat_trees(t.children, t.children.len(), Some(at), at + 1)
}

/// The first `k` rows, the first of them at place `at`, with what stands under them.
pub open spec fn flat_trees(
    ts: Seq<RowModel>,
    k: nat,
    parent: Option<int>,
    at: int,
) -> Seq<FlatModel>
    decreases ts, k,
{
    if k == 0 || k > ts.len() {
        Seq::empty()
    } else {
        let front = flat_trees(ts, (k - 1) as nat, parent, at);
        front + flat_tree(ts[k - 1], parent, at + front.len())
    }
}

pub open spec fn place_view(p: Option<usize>) -> Option<int> {
    match p {
        Some(p) => Some(p as int),
        None => None,
    }
}

fn flatten_all(nodes: &Vec<OutlineNode>, parent: Option<usize>, rows: &mut Vec<Row>)
    ensures
        views_of(final(rows)@) == views_of(old(rows)@) + flat_trees(
            row_models(nodes@),
            nodes@.len(),
            place_view(parent),
            old(rows)@.len() as int,
        ),
    decreases nodes,
{
    let ghost ts = row_models(nodes@);
    let ghost before = views_of(rows@);
    let ghost at = rows@.len() as int;
    let mut i: usize = 0;
    assert(before + Seq::empty() =~= before);
    while i < nodes.len()
        invariant
            ts == row_models(nodes@),
            before.len() == at,
            i <= nodes@.len(),
            views_of(rows@) == before + flat_trees(ts, i as nat, place_view(parent), at),
        decreases nodes@.len() - i,
    {
        assert(ts[i as int] == row_model(nodes@[i as int]));
        let ghost front = flat_trees(ts, i as nat, place_view(parent), at);
        assert(rows@.len() == views_of(rows@).len());
        flatten_into(&nodes[i], parent, rows);
        assert(views_of(rows@) =~= before + flat_trees(
            ts,
            (i + 1) as nat,
            place_view(parent),
            at,
        ));
        i += 1;
    }
}

fn flatten_into(n: &OutlineNode, parent: Option<usize>, rows: &mut Vec<Row>)
    ensures
        views_of(final(rows)@) == views_of(old(rows)@) + flat_tree(
            row_model(*n),
            place_view(parent),
            old(rows)@.len() as int,
        ),
    decreases n,
{
    let ghost t = row_model(*n);
    let ghost before = views_of(rows@);
    let at: usize = rows.len();
    let row = Row {
        id: n.id,
        depth: n.depth,
        label: n.label.clone(),
        is_scope: n.is_scope(),
        node: n.node,
        functions: n.functions,
        entries: n.entries,
        entry: n.entry,
        cyclomatic: n.cyclomatic,
        parent,
    };
    proof {
        assert(t.children =~= row_models(n.children@));
        assert(row@ =~= flat_of(t, place_view(parent)));
        lemma_views_push(rows@, row);
    }
    rows.push(row);
    flatten_all(&n.children, Some(at), rows);
    assert(views_of(rows@) =~= before + flat_tree(t, place_view(parent), at as int));
}

/// The rows of an outline, laid flat from top to bottom.
pub fn flatten(outline: &Outline) -> (r: Vec<Row>)
    ensures
        views_of(r@) == flat_trees(
            row_models(outline.roots@),
            outline.roots@.len(),
            None,
            0,
        ),
        rooted(views_of(r@)),
        forall|i: int|
            0 <= i < r@.len() ==> ((#[trigger] r@[i]).parent matches Some(p) ==> p < r@.len()),
{
    let mut rows: Vec<Row> = Vec::new();
    assert(views_of(rows@) =~= Seq::empty());
    flatten_all(&outline.roots, None, &mut rows);
    assert(views_of(rows@) =~= flat_trees(
        row_models(outline.roots@),
        outline.roots@.len(),
        None,
        0,
    ));
    proof {
        assert(row_models(outline.roots@).len() == outline.roots@.len());
        law_rows_follow_their_parents(row_models(outline.roots@));
        assert forall|i: int| 0 <= i < rows@.len() implies ((
        #[trigger] rows@[i]).parent matches Some(p) ==> p < rows@.len()) by {
            assert(views_of(rows@)[i] == rows@[i]@);
        }
    }
    rows
}

/// Every row stands under an earlier one, or under none.
pub open spec fn rooted(rows: Seq<FlatModel>) -> bool {
    forall|i: int|
        0 <= i < rows.len() ==> ((#[trigger] rows[i]).parent matches Some(p) ==> 0 <= p < i)
}

/// In a listing from place `at` on, every row stands under an earlier one or under the
/// given one.
spec fn hangs(rows: Seq<FlatModel>, parent: Option<int>, at: int) -> bool {
    forall|i: int|
        0 <= i < rows.len() ==> ((#[trigger] rows[i]).parent == parent || (
        rows[i].parent matches Some(p) && at <= p < at + i))
}

proof fn lemma_tree_hangs(t: RowModel, parent: Option<int>, at: int)
    ensures
        hangs(flat_tree(t, parent, at), parent, at),
    decreases t, 0nat,
{
    lemma_trees_hang(t.children, t.children.len(), Some(at), at + 1);
    let below = flat_trees(t.children, t.children.len(), Some(at), at + 1);
    let all = flat_tree(t, parent, at);
    assert forall|i: int| 0 <= i < all.len() implies ((#[trigger] all[i]).parent == parent || (
    all[i].parent matches Some(p) && at <= p < at + i)) by {
        if i > 0 {
            assert(all[i] == below[i - 1]);
        }
    }
}

proof fn lemma_trees_hang(ts: Seq<RowModel>, k: nat, parent: Option<int>, at: int)
    ensures
        hangs(flat_trees(ts, k, parent, at), parent, at),
    decreases ts, k,
{
    if k > 0 && k <= ts.len() {
        lemma_trees_hang(ts, (k - 1) as nat, parent, at);
        let front = flat_trees(ts, (k - 1) as nat, parent, at);
        lemma_tree_hangs(ts[k - 1], parent, at + front.len());
        let back = flat_tree(ts[k - 1], parent, at + front.len());
        let all = front + back;
        assert forall|i: int| 0 <= i < all.len() implies ((#[trigger] all[i]).parent == parent || (
        all[i].parent matches Some(p) && at <= p < at + i)) by {
            if i < front.len() {
                assert(all[i] == front[i]);
            } else {
                assert(all[i] == back[i - front.len()]);
            }
        }
    }
}

/// In the flat list every row stands below the row that it belongs to.
pub proof fn law_rows_follow_their_parents(ts: Seq<RowModel>)
    ensures
        rooted(flat_trees(ts, ts.len(), None, 0)),
{
    lemma_trees_hang(ts, ts.len(), None, 0);
}

/// The row is shown: every row that it stands under is unfolded.
pub open spec fn visible(rows: Seq<FlatModel>, open: Set<u64>, i: int) -> bool
    decreases i,
{
    match rows[i].parent {
        None => true,
        Some(p) => 0 <= p < i && visible(rows, open, p) && open.contains(rows[p].id as u64),
    }
}

/// The places of the rows that are shown.
pub fn visible_rows(rows: &Vec<Row>, open: &HashSet<u64>) -> (r: Vec<usize>)
    requires
        forall|i: int|
            0 <= i < rows@.len() ==> ((#[trigger] rows@[i]).parent matches Some(p) ==> p
                < rows@.len()),
    ensures
        r@.map_values(|i: usize| i as int) == positions(
            rows@.len() as int,
            |i: int| visible(views_of(rows@), open@, i),
        ),
{
    broadcast use vstd::std_specs::hash::group_hash_axioms;

    let ghost all = views_of(rows@);
    let ghost f = |i: int| visible(all, open@, i);
    let mut shown: Vec<bool> = Vec::new();
    let mut out: Vec<usize> = Vec::new();
    let mut i: usize = 0;
    assert(out@.map_values(|i: usize| i as int) =~= Seq::empty());
    while i < rows.len()
        invariant
            all == views_of(rows@),
            f == (|i: int| visible(all, open@, i)),
            forall|i: int|
                0 <= i < rows@.len() ==> ((#[trigger] rows@[i]).parent matches Some(p) ==> p
                    < rows@.len()),
            i <= rows@.len(),
            shown@.len() == i,
            forall|j: int| 0 <= j < i ==> #[trigger] shown@[j] == visible(all, open@, j),
            out@.map_values(|i: usize| i as int) == positions(i as int, f),
        decreases rows@.len() - i,
    {
        assert(all[i as int] == rows@[i as int]@);
        let v = match rows[i].parent {
            None => true,
            Some(p) => p < i && shown[p] && open.contains(&rows[p].id),
        };
        proof {
            if let Some(p) = rows@[i as int].parent {
                assert(all[p as int].id == rows@[p as int].id);
            }
            assert(v == visible(all, open@, i as int));
        }
        shown.push(v);
        let ghost before = out@;
        if v {
            out.push(i);
            assert(out@.map_values(|i: usize| i as int) =~= before.map_values(
                |i: usize| i as int,
            ).push(i as int));
        }
        i += 1;
    }
    out
}

/// A row under a shown and unfolded row is shown; one under a folded row is not.
pub proof fn law_folding_hides_what_is_below(rows: Seq<FlatModel>, open: Set<u64>, i: int, p: int)
    requires
        0 <= p < i < rows.len(),
        rows[i].parent == Some(p),
    ensures
        open.contains(rows[p].id as u64) ==> visible(rows, open, i) == visible(rows, open, p),
        !open.contains(rows[p].id as u64) ==> !visible(rows, open, i),
{
}

/// The row is a scope, and outermost where that is asked for.
pub open spec fn opens(r: FlatModel, outermost: bool) -> bool {
    r.is_scope && (outermost ==> r.depth == 0)
}

/// The scopes to unfold: all, or the outermost only.
pub fn scopes_to_open(rows: &Vec<Row>, outermost: bool) -> (r: HashSet<u64>)
    ensures
        forall|x: u64| #[trigger]
            r@.contains(x) <==> exists|i: int|
                0 <= i < rows@.len() && (#[trigger] rows@[i]).id == x && opens(
                    rows@[i]@,
                    outermost,
                ),
{
    broadcast use vstd::std_specs::hash::group_hash_axioms;

    let mut out: HashSet<u64> = HashSet::new();
    let mut i: usize = 0;
    while i < rows.len()
        invariant
            i <= rows@.len(),
            forall|x: u64| #[trigger]
                out@.contains(x) <==> exists|j: int|
                    0 <= j < i && (#[trigger] rows@[j]).id == x && opens(rows@[j]@, outermost),
        decreases rows@.len() - i,
    {
        let ghost before = out@;
        let row = &rows[i];
        let take = row.is_scope && (!outermost || row.depth == 0);
        if take {
            out.insert(row.id);
        }
        proof {
            assert forall|x: u64| #[trigger] out@.contains(x) <==> exists|j: int|
                0 <= j < i + 1 && (#[trigger] rows@[j]).id == x && opens(
                    rows@[j]@,
                    outermost,
                ) by {
                if out@.contains(x) {
                    if before.contains(x) {
                        let j = choose|j: int|
                            0 <= j < i && (#[trigger] rows@[j]).id == x && opens(
                                rows@[j]@,
                                outermost,
                            );
                        assert(rows@[j].id == x);
                    } else {
                        assert(rows@[i as int].id == x);
                    }
                }
                if exists|j: int|
                    0 <= j < i + 1 && (#[trigger] rows@[j]).id == x && opens(
                        rows@[j]@,
                        outermost,
                    ) {
                    let j = choose|j: int|
                        0 <= j < i + 1 && (#[trigger] rows@[j]).id == x && opens(
                            rows@[j]@,
                            outermost,
                        );
                    if j < i {
                        assert(before.contains(x));
                    }
                }
            }
        }
        i += 1;
    }
    out
}

/// Fold a scope that is unfolded, and the other way round.
pub fn toggle(open: &mut HashSet<u64>, id: u64)
    ensures
        old(open)@.contains(id) ==> final(open)@ == old(open)@.remove(id),
        !old(open)@.contains(id) ==> final(open)@ == old(open)@.insert(id),
{
    broadcast use vstd::std_specs::hash::group_hash_axioms;

    if open.contains(&id) {
        open.remove(&id);
    } else {
        open.insert(id);
    }
}

// -- entry points ---------------------------------------------------------------------

/// One entry point of the list to start from.
#[derive(Debug)]
pub struct EntryItem {
    pub node: NodeId,
    pub name: String,
    pub kind: EntryKind,
    pub location: String,
    /// How many functions a program entry or export reaches.
    pub reach: Option<usize>,
}

/// The mathematical content of an [`EntryItem`].
#[verifier::ext_equal]
pub struct EntryItemModel {
    pub node: NodeId,
    pub name: Seq<char>,
    pub kind: EntryKind,
    pub location: Seq<char>,
    pub reach: Option<usize>,
}

impl View for EntryItem {
    type V = EntryItemModel;

    open spec fn view(&self) -> EntryItemModel {
        EntryItemModel {
            node: self.node,
            name: self.name@,
            kind: self.kind,
            location: self.location@,
            reach: self.reach,
        }
    }
}

impl Clone for EntryItem {
    fn clone(&self) -> (r: Self)
        ensures
            r == *self,
    {
        EntryItem {
            node: self.node,
            name: self.name.clone(),
            kind: self.kind,
            location: self.location.clone(),
            reach: self.reach,
        }
    }
}

/// An entry point as it is listed.
pub open spec fn item_of(g: GraphModel, e: EntryPoint) -> EntryItemModel {
    EntryItemModel {
        node: e.id,
        name: g.node(e.id).qualified_name,
        kind: e.kind,
        location: short_place(g, g.node(e.id)),
        reach: if e.kind == EntryKind::Main || e.kind == EntryKind::Exported {
            Some(reach_total(g, e.id, Direction::Callees) as usize)
        } else {
            None
        },
    }
}

/// By kind, then by how much is reached, most first, then by name.
pub open spec fn item_key(m: EntryItemModel) -> KeyModel {
    text_key(
        seq![
            m.kind.spec_rank(),
            if m.reach is Some {
                0
            } else {
                1
            },
            match m.reach {
                Some(n) => descending(n as int),
                None => 0,
            },
        ],
        m.name,
    )
}

/// The entry points of a graph as they are listed.
pub open spec fn items_of(g: GraphModel) -> Seq<EntryItemModel> {
    let items = entries_of(g).map_values(|e: EntryPoint| item_of(g, e));
    arrange(items, items.map_values(|m: EntryItemModel| item_key(m)))
}

fn entry_item(graph: &CodeGraph, e: EntryPoint) -> (r: EntryItem)
    requires
        graph.wf(),
        graph@.has(e.id),
    ensures
        r@ == item_of(graph@, e),
{
    let reach = match e.kind {
        EntryKind::Main => Some(reach_count(graph, e.id, Direction::Callees)),
        EntryKind::Exported => Some(reach_count(graph, e.id, Direction::Callees)),
        _ => None,
    };
    EntryItem {
        node: e.id,
        name: graph.node(e.id).qualified_name.clone(),
        kind: e.kind,
        location: short_location(graph, e.id),
        reach,
    }
}

fn item_sort_key(m: &EntryItem) -> (r: SortKey)
    ensures
        r@ == item_key(m@),
{
    let mut ranks: Vec<u64> = Vec::new();
    ranks.push(m.kind.rank());
    match m.reach {
        Some(n) => {
            ranks.push(0);
            ranks.push(u64::MAX - n as u64);
        },
        None => {
            ranks.push(1);
            ranks.push(0);
        },
    }
    let r = SortKey { ranks, text: m.name.clone(), minor: 0 };
    assert(r@.ranks =~= item_key(m@).ranks);
    r
}

/// The entry points to start from: by kind, and within a kind those first that reach
/// the most code.
pub fn start_list(graph: &CodeGraph) -> (r: Vec<EntryItem>)
    requires
        graph.wf(),
    ensures
        views_of(r@) == items_of(graph@),
{
    let ghost g = graph@;
    let entries = entry_points(graph);
    let ghost items_want = entries_of(g).map_values(|e: EntryPoint| item_of(g, e));
    let ghost keys_want = items_want.map_values(|m: EntryItemModel| item_key(m));
    let mut items: Vec<EntryItem> = Vec::new();
    let mut keys: Vec<SortKey> = Vec::new();
    let mut i: usize = 0;
    proof {
        graph.lemma_wf();
        assert(views_of(items@) =~= items_want.take(0));
        assert(key_views(keys@) =~= keys_want.take(0));
    }
    while i < entries.len()
        invariant
            graph.wf(),
            g == graph@,
            g.wf(),
            entries@ == entries_of(g),
            forall|j: int| 0 <= j < entries@.len() ==> g.has((#[trigger] entries@[j]).id),
            items_want == entries_of(g).map_values(|e: EntryPoint| item_of(g, e)),
            keys_want == items_want.map_values(|m: EntryItemModel| item_key(m)),
            i <= entries@.len(),
            views_of(items@) == items_want.take(i as int),
            key_views(keys@) == keys_want.take(i as int),
        decreases entries@.len() - i,
    {
        let item = entry_item(graph, entries[i]);
        proof {
            assert(item@ == items_want[i as int]);
        }
        let key = item_sort_key(&item);
        proof {
            assert(key@ == keys_want[i as int]);
            lemma_key_push(keys@, key, keys_want, i as int);
            lemma_push_take(items@, item, items_want, i as int);
        }
        keys.push(key);
        items.push(item);
        i += 1;
    }
    assert(items_want.take(items_want.len() as int) =~= items_want);
    assert(keys_want.take(keys_want.len() as int) =~= keys_want);
    let order = sort_order(&keys);
    let ghost want = items_of(g);
    let mut out: Vec<EntryItem> = Vec::new();
    let mut j: usize = 0;
    assert(views_of(out@) =~= want.take(0));
    while j < order.len()
        invariant
            j <= order@.len() == want.len(),
            views_of(items@) == items_want,
            items_want.len() == items@.len() == order@.len(),
            want == arrange(items_want, keys_want),
            order@.map_values(|x: usize| x as int) == stable_order(keys_want),
            forall|x: int| 0 <= x < order@.len() ==> #[trigger] order@[x] < items@.len(),
            views_of(out@) == want.take(j as int),
        decreases order@.len() - j,
    {
        let item = items[order[j]].clone();
        proof {
            let p = order@.map_values(|x: usize| x as int);
            assert(p[j as int] == order@[j as int]);
            assert(want[j as int] == items_want[p[j as int]]);
            assert(views_of(items@)[p[j as int]] == item@);
            lemma_push_take(out@, item, want, j as int);
        }
        out.push(item);
        j += 1;
    }
    assert(want.take(want.len() as int) =~= want);
    out
}

/// The place of the last item that reaches the most, of the first `n`.
pub open spec fn most_reaching(items: Seq<EntryItemModel>, n: int) -> Option<int>
    decreases n,
{
    if n <= 0 {
        None
    } else {
        let best = most_reaching(items, n - 1);
        match items[n - 1].reach {
            None => best,
            Some(r) => match best {
                Some(b) => if items[b].reach matches Some(m) && m > r {
                    best
                } else {
                    Some(n - 1)
                },
                None => Some(n - 1),
            },
        }
    }
}

/// Where to start: at the item that reaches the most code; where no reach is known, at
/// the first.
pub open spec fn start_of(items: Seq<EntryItemModel>) -> Option<NodeId> {
    match most_reaching(items, items.len() as int) {
        Some(i) => Some(items[i].node),
        None => if items.len() > 0 {
            Some(items[0].node)
        } else {
            None
        },
    }
}

proof fn lemma_most_reaching(items: Seq<EntryItemModel>, n: int)
    requires
        0 <= n <= items.len(),
    ensures
        match most_reaching(items, n) {
            Some(i) => 0 <= i < n && items[i].reach is Some && forall|j: int|
                0 <= j < n ==> ((#[trigger] items[j]).reach matches Some(m) ==> m
                    <= items[i].reach->0),
            None => forall|j: int| 0 <= j < n ==> (#[trigger] items[j]).reach is None,
        },
    decreases n,
{
    if n > 0 {
        lemma_most_reaching(items, n - 1);
    }
}

/// The node to start at.
pub fn starting_point(items: &Vec<EntryItem>) -> (r: Option<NodeId>)
    ensures
        r == start_of(views_of(items@)),
{
    let ghost all = views_of(items@);
    let mut best: Option<usize> = None;
    let mut most: usize = 0;
    let mut i: usize = 0;
    while i < items.len()
        invariant
            all == views_of(items@),
            i <= items@.len(),
            match best {
                Some(b) => b < i && most_reaching(all, i as int) == Some(b as int)
                    && items@[b as int].reach == Some(most),
                None => most_reaching(all, i as int) is None,
            },
        decreases items@.len() - i,
    {
        assert(all[i as int] == items@[i as int]@);
        if let Some(n) = items[i].reach {
            let better = match best {
                Some(b) => {
                    assert(all[b as int] == items@[b as int]@);
                    most <= n
                },
                None => true,
            };
            if better {
                best = Some(i);
                most = n;
            }
        }
        i += 1;
    }
    match best {
        Some(b) => Some(items[b].node),
        None => if items.len() > 0 {
            Some(items[0].node)
        } else {
            None
        },
    }
}

/// Where the reach of some item is known, none reaches more than the one to start at.
pub proof fn law_start_reaches_the_most(items: Seq<EntryItemModel>, j: int)
    requires
        0 <= j < items.len(),
        items[j].reach is Some,
    ensures
        exists|i: int|
            0 <= i < items.len() && start_of(items) == Some((#[trigger] items[i]).node)
                && items[i].reach is Some && items[j].reach->0 <= items[i].reach->0,
{
    let n = items.len() as int;
    lemma_most_reaching(items, n);
    let i = most_reaching(items, n)->0;
    assert(items[i].node == items[i].node);
}

// -- words for entry points -----------------------------------------------------------

/// The style and the word of an entry point's badge.
pub open spec fn badge_texts(kind: EntryKind) -> (Seq<char>, Seq<char>) {
    match kind {
        EntryKind::Main => ("badge main"@, "main"@),
        EntryKind::Exported => ("badge export"@, "export"@),
        EntryKind::PublicRoot => ("badge pub"@, "pub"@),
        EntryKind::Root => ("badge root"@, "root"@),
        EntryKind::Test => ("badge test"@, "test"@),
    }
}

/// The style and the word of an entry point's badge.
pub fn entry_badge(kind: EntryKind) -> (r: (&'static str, &'static str))
    ensures
        (r.0@, r.1@) == badge_texts(kind),
{
    match kind {
        EntryKind::Main => ("badge main", "main"),
        EntryKind::Exported => ("badge export", "export"),
        EntryKind::PublicRoot => ("badge pub", "pub"),
        EntryKind::Root => ("badge root", "root"),
        EntryKind::Test => ("badge test", "test"),
    }
}

pub open spec fn title_text(kind: EntryKind) -> Seq<char> {
    match kind {
        EntryKind::Main => "program entry: where execution starts"@,
        EntryKind::Exported => "exported across a foreign ABI and called by nobody here: a bootloader, hardware trap vector, WASM host or FFI caller enters through it"@,
        EntryKind::PublicRoot => "public item nobody calls internally: an API surface or handler"@,
        EntryKind::Root => "private item with no callers: dynamic dispatch or dead code"@,
        EntryKind::Test => "test with no callers"@,
    }
}

/// What a kind of entry point is.
pub fn entry_title(kind: EntryKind) -> (r: &'static str)
    ensures
        r@ == title_text(kind),
{
    match kind {
        EntryKind::Main => "program entry: where execution starts",
        EntryKind::Exported => "exported across a foreign ABI and called by nobody here: a bootloader, hardware trap vector, WASM host or FFI caller enters through it",
        EntryKind::PublicRoot => "public item nobody calls internally: an API surface or handler",
        EntryKind::Root => "private item with no callers: dynamic dispatch or dead code",
        EntryKind::Test => "test with no callers",
    }
}

pub open spec fn group_text(kind: EntryKind) -> Seq<char> {
    match kind {
        EntryKind::Main => "main"@,
        EntryKind::Exported => "exported entries"@,
        EntryKind::PublicRoot => "public roots"@,
        EntryKind::Root => "private roots"@,
        EntryKind::Test => "tests"@,
    }
}

/// The heading of a kind of entry points.
pub fn entry_group_title(kind: EntryKind) -> (r: &'static str)
    ensures
        r@ == group_text(kind),
{
    match kind {
        EntryKind::Main => "main",
        EntryKind::Exported => "exported entries",
        EntryKind::PublicRoot => "public roots",
        EntryKind::Root => "private roots",
        EntryKind::Test => "tests",
    }
}

/// The call behind a caller or callee, in short.
pub open spec fn tag_text(c: CallRefModel) -> Seq<char> {
    edge_kind_text(c.kind) + said_if(c.count > 1, " ×"@ + decimal(c.count as nat)) + said_if(
        c.call_site.start_line > 0,
        " · L"@ + decimal(c.call_site.start_line as nat),
    )
}

/// The call behind a caller or callee, in short.
pub fn call_tag(c: &CallRef) -> (r: String)
    ensures
        r@ == tag_text(c@),
{
    let mut s = edge_kind_str(c.kind).to_owned();
    let ghost s0 = s@;
    if c.count > 1 {
        s.append(concat2(" ×", decimal_text(c.count as u64).as_str()).as_str());
    } else {
        assert(s0 + Seq::empty() =~= s0);
    }
    let ghost s1 = s@;
    if c.call_site.start_line > 0 {
        s.append(concat2(" · L", decimal_text(c.call_site.start_line as u64).as_str()).as_str());
    } else {
        assert(s1 + Seq::empty() =~= s1);
    }
    s
}

// -- short paths ----------------------------------------------------------------------

pub open spec fn is_ascii_digit(c: char) -> bool {
    '0' <= c <= '9'
}

/// Where the digits at the end of the first `n` characters start.
pub open spec fn digits_start(s: Seq<char>, n: int) -> int
    decreases n,
{
    if n > 0 && is_ascii_digit(s[n - 1]) {
        digits_start(s, n - 1)
    } else {
        n
    }
}

/// How long a location is without the colon and the line at its end.
pub open spec fn path_len(s: Seq<char>) -> int {
    let d = digits_start(s, s.len() as int);
    if 0 < d < s.len() && s[d - 1] == ':' {
        d - 1
    } else {
        s.len() as int
    }
}

/// The last two parts of the first `n` characters.
pub open spec fn last_two(s: Seq<char>, n: int) -> Seq<char> {
    let b = base_start(s, n);
    if b <= 0 {
        s.subrange(0, n)
    } else {
        s.subrange(base_start(s, b - 1), b - 1) + "/"@ + s.subrange(b, n)
    }
}

/// A location with its path cut down to the last two parts.
pub open spec fn compact(s: Seq<char>) -> Seq<char> {
    last_two(s, path_len(s)) + s.skip(path_len(s))
}

fn find_base(cs: &Vec<char>, n: usize) -> (r: usize)
    requires
        n <= cs@.len(),
    ensures
        r == base_start(cs@, n as int),
        r <= n,
{
    let mut i: usize = n;
    while i > 0 && cs[i - 1] != '/' && cs[i - 1] != '\\'
        invariant
            i <= n <= cs@.len(),
            base_start(cs@, n as int) == base_start(cs@, i as int),
        decreases i,
    {
        i -= 1;
    }
    i
}

/// A location with its path cut down to the last two parts, which keep the directory
/// that tells files of the same name apart.
pub fn compact_location(location: &str) -> (r: String)
    ensures
        r@ == compact(location@),
{
    let cs = chars_of(location);
    let len: usize = cs.len();
    let mut d: usize = len;
    while d > 0 && '0' <= cs[d - 1] && cs[d - 1] <= '9'
        invariant
            d <= len == cs@.len(),
            digits_start(cs@, len as int) == digits_start(cs@, d as int),
        decreases d,
    {
        d -= 1;
    }
    let n: usize = if 0 < d && d < len && cs[d - 1] == ':' {
        d - 1
    } else {
        len
    };
    let b: usize = find_base(&cs, n);
    let mut out = if b == 0 {
        string_of(&cs, 0, n)
    } else {
        let a: usize = find_base(&cs, b - 1);
        let mut s = string_of(&cs, a, b - 1);
        s.append("/");
        s.append(string_of(&cs, b, n).as_str());
        s
    };
    out.append(string_of(&cs, n, len).as_str());
    assert(cs@.subrange(n as int, len as int) =~= cs@.skip(n as int));
    out
}

// -- call trees with names ------------------------------------------------------------

/// A call tree that needs no graph to be shown.
#[derive(Debug)]
pub struct TreeItem {
    pub node: NodeId,
    pub name: String,
    pub location: String,
    pub external: bool,
    pub repeat: bool,
    pub truncated: usize,
    pub children: Vec<TreeItem>,
}

/// The item shows the tree.
pub open spec fn item_shows(item: TreeItem, t: TreeModel, g: GraphModel) -> bool
    decreases item,
{
    &&& item.node == t.id
    &&& item.name@ == g.node(t.id).name
    &&& item.location@ == short_place(g, g.node(t.id))
    &&& item.external == (g.node(t.id).kind == NodeKind::External)
    &&& item.repeat == t.repeat
    &&& item.truncated == t.truncated
    &&& item.children@.len() == t.children.len()
    &&& forall|i: int|
        0 <= i < item.children@.len() ==> item_shows(#[trigger] item.children@[i], t.children[i], g)
}

/// A call tree with the names and places of its symbols.
pub fn tree_item(graph: &CodeGraph, n: &CallTreeNode) -> (r: TreeItem)
    requires
        tree_known(tree_model(*n), graph@),
    ensures
        item_shows(r, tree_model(*n), graph@),
    decreases n,
{
    let ghost t = tree_model(*n);
    let ghost g = graph@;
    proof {
        assert(t.children =~= tree_models(n.children@));
    }
    let mut children: Vec<TreeItem> = Vec::new();
    let mut i: usize = 0;
    while i < n.children.len()
        invariant
            t == tree_model(*n),
            t.children == tree_models(n.children@),
            g == graph@,
            trees_known(t.children, t.children.len(), g),
            i <= n.children@.len(),
            children@.len() == i,
            forall|j: int|
                0 <= j < i ==> item_shows(#[trigger] children@[j], t.children[j], g),
        decreases n.children@.len() - i,
    {
        proof {
            lemma_tree_known_at(t.children, t.children.len(), g, i as int);
            assert(t.children[i as int] == tree_model(n.children@[i as int]));
        }
        let child = tree_item(graph, &n.children[i]);
        children.push(child);
        i += 1;
    }
    let node = graph.node(n.id);
    TreeItem {
        node: n.id,
        name: node.name.clone(),
        location: short_location(graph, n.id),
        external: node.kind == NodeKind::External,
        repeat: n.repeat,
        truncated: n.truncated,
        children,
    }
}

// -- all of it ------------------------------------------------------------------------

/// Everything that the explorer shows of a graph.
pub struct ExplorerData {
    pub outline: Outline,
    pub rows: Vec<Row>,
    pub entries: Vec<EntryItem>,
}

impl ExplorerData {
    /// The rows are those of the outline, and the outline's counts add up.
    pub open spec fn wf(self) -> bool {
        &&& all_tallied(row_models(self.outline.roots@))
        &&& views_of(self.rows@) == flat_trees(
            row_models(self.outline.roots@),
            self.outline.roots@.len(),
            None,
            0,
        )
    }
}

/// What the explorer shows of a graph.
pub fn build_explorer(graph: &CodeGraph) -> (r: ExplorerData)
    requires
        graph.wf(),
    ensures
        row_models(r.outline.roots@) == outline_models(graph@),
        r.outline.totals_ok(),
        views_of(r.rows@) == flat_trees(
            outline_models(graph@),
            outline_models(graph@).len(),
            None,
            0,
        ),
        views_of(r.entries@) == items_of(graph@),
        r.wf(),
{
    let outline = outline(graph);
    let rows = flatten(&outline);
    let entries = start_list(graph);
    assert(row_models(outline.roots@).len() == outline.roots@.len());
    ExplorerData { outline, rows, entries }
}

} // verus!
