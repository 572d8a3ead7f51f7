//! What the panes beside the graph say: entry points by kind, the card of the
//! selection, the flow that leads to it, and the lists of a report.

use crate::card::{
    kind_str, kind_text, place_text, CallRef, CallRefModel, CardMetrics, NodeCard,
};
use crate::diagnostic::{Diagnostic, DiagnosticModel};
use crate::entries::EntryKind;
use crate::explorer::{
    badge_texts, call_tag, compact, compact_location, entry_badge, flat_trees, flatten,
    law_rows_follow_their_parents, tag_text, visible, visible_rows, EntryItem, EntryItemModel, ExplorerData, FlatModel, Row,
    TreeItem,
};
use crate::graph::{CodeGraph, GraphModel};
use crate::ids::NodeId;
use crate::lenses::{count_text, counted};
use crate::nav::least;
use crate::outline::{kept_all, lemma_all_tallied_fit, row_models};
use crate::report::Summary;
use crate::seqs::{
    gather, lemma_positions, lemma_push_take, lemma_views_push, positions, views_of,
};
use crate::session::{Nav, NavModel};
use crate::suggestion::{Suggestion, Target};
use crate::text::{
    concat2, decimal, decimal_text, join, join_text, lowercase, trim_text, trimmed, views,
};
use std::collections::HashSet;
use vstd::prelude::*;

verus! {

/// How many entry points of a kind are listed.
pub const ENTRIES_PER_KIND: usize = 12;

/// How many callers or callees are listed.
pub const CALLS_SHOWN: usize = 30;

/// How many findings are listed.
pub const FINDINGS_SHOWN: usize = 14;

/// What is said of items that are left out.
pub open spec fn more_text(left: int) -> Option<Seq<char>> {
    if left > 0 {
        Some(counted("… "@, left, " more"@))
    } else {
        None
    }
}

pub open spec fn text_view(t: Option<String>) -> Option<Seq<char>> {
    match t {
        Some(s) => Some(s@),
        None => None,
    }
}

/// What is said of items that are left out.
pub fn more_note(left: usize) -> (r: Option<String>)
    ensures
        text_view(r) == more_text(left as int),
{
    if left > 0 {
        Some(count_text("… ", left as u128, " more"))
    } else {
        None
    }
}

fn left_out(total: usize, shown: usize) -> (r: usize)
    ensures
        r == if total > shown {
            (total - shown) as usize
        } else {
            0
        },
{
    if total > shown {
        total - shown
    } else {
        0
    }
}

// -- entry points by kind -------------------------------------------------------------

/// The entry points of one kind.
#[derive(Debug)]
pub struct EntryGroup {
    pub kind: EntryKind,
    pub total: usize,
    /// The places of those that are listed.
    pub shown: Vec<usize>,
    /// What is said of the others.
    pub more: Option<String>,
}

/// The mathematical content of an [`EntryGroup`].
#[verifier::ext_equal]
pub struct GroupModel {
    pub kind: EntryKind,
    pub total: int,
    pub shown: Seq<int>,
    pub more: Option<Seq<char>>,
}

impl View for EntryGroup {
    type V = GroupModel;

    open spec fn view(&self) -> GroupModel {
        GroupModel {
            kind: self.kind,
            total: self.total as int,
            shown: self.shown@.map_values(|i: usize| i as int),
            more: text_view(self.more),
        }
    }
}

/// The kinds of entry points in the order of the list.
pub open spec fn kind_at(k: int) -> EntryKind {
    if k == 0 {
        EntryKind::Main
    } else if k == 1 {
        EntryKind::Exported
    } else if k == 2 {
        EntryKind::PublicRoot
    } else if k == 3 {
        EntryKind::Root
    } else {
        EntryKind::Test
    }
}

fn nth_kind(k: usize) -> (r: EntryKind)
    ensures
        r == kind_at(k as int),
{
    match k {
        0 => EntryKind::Main,
        1 => EntryKind::Exported,
        2 => EntryKind::PublicRoot,
        3 => EntryKind::Root,
        _ => EntryKind::Test,
    }
}

/// The places of the entry points of a kind.
pub open spec fn places_of(items: Seq<EntryItemModel>, kind: EntryKind) -> Seq<int> {
    positions(items.len() as int, |i: int| items[i].kind == kind)
}

/// The group of a kind.
pub open spec fn group_of(items: Seq<EntryItemModel>, kind: EntryKind) -> GroupModel {
    let all = places_of(items, kind);
    GroupModel {
        kind,
        total: all.len() as int,
        shown: all.take(least(all.len() as int, ENTRIES_PER_KIND as int)),
        more: more_text(all.len() - ENTRIES_PER_KIND),
    }
}

/// The group of the `k`-th kind, where it has members.
pub open spec fn group_at(items: Seq<EntryItemModel>) -> spec_fn(int) -> Seq<GroupModel> {
    |k: int|
        if places_of(items, kind_at(k)).len() > 0 {
            seq![group_of(items, kind_at(k))]
        } else {
            Seq::empty()
        }
}

fn make_group(items: &Vec<EntryItem>, kind: EntryKind) -> (r: EntryGroup)
    ensures
        r@ == group_of(views_of(items@), kind),
{
    let ghost all = views_of(items@);
    let ghost f = |i: int| all[i].kind == kind;
    let ghost cap = ENTRIES_PER_KIND as int;
    let mut total: usize = 0;
    let mut shown: Vec<usize> = Vec::new();
    let mut i: usize = 0;
    assert(shown@.map_values(|i: usize| i as int) =~= positions(0, f).take(0));
    while i < items.len()
        invariant
            all == views_of(items@),
            f == (|i: int| all[i].kind == kind),
            cap == ENTRIES_PER_KIND,
            i <= items@.len(),
            total == positions(i as int, f).len() <= i,
            shown@.map_values(|i: usize| i as int) == positions(i as int, f).take(
                least(total as int, cap),
            ),
        decreases items@.len() - i,
    {
        let ghost before = positions(i as int, f);
        let ghost listed = shown@;
        assert(all[i as int] == items@[i as int]@);
        if items[i].kind == kind {
            assert(positions(i + 1, f) == before.push(i as int));
            if total < ENTRIES_PER_KIND {
                shown.push(i);
                assert(shown@.map_values(|i: usize| i as int) =~= listed.map_values(
                    |i: usize| i as int,
                ).push(i as int));
                assert(before.take(total as int) =~= before);
                assert(positions(i + 1, f).take(total + 1) =~= before.push(i as int));
            } else {
                assert(positions(i + 1, f).take(cap) =~= before.take(cap));
            }
            total += 1;
        }
        i += 1;
    }
    let more = more_note(left_out(total, ENTRIES_PER_KIND));
    let r = EntryGroup { kind, total, shown, more };
    assert(r@ =~= group_of(all, kind));
    r
}

/// The entry points by kind; kinds without members are left out.
pub fn entry_groups(items: &Vec<EntryItem>) -> (r: Vec<EntryGroup>)
    ensures
        views_of(r@) == gather(5, group_at(views_of(items@))),
{
    let ghost all = views_of(items@);
    let ghost f = group_at(all);
    let mut out: Vec<EntryGroup> = Vec::new();
    let mut k: usize = 0;
    assert(views_of(out@) =~= gather(0, f));
    while k < 5
        invariant
            all == views_of(items@),
            f == group_at(all),
            k <= 5,
            views_of(out@) == gather(k as int, f),
        decreases 5 - k,
    {
        let ghost before = views_of(out@);
        let g = make_group(items, nth_kind(k));
        if g.total > 0 {
            proof {
                lemma_views_push(out@, g);
                assert(before + seq![g@] =~= before.push(g@));
            }
            out.push(g);
        } else {
            assert(before + Seq::<GroupModel>::empty() =~= before);
        }
        k += 1;
    }
    out
}

/// What is said of how much an entry point reaches.
pub open spec fn reach_text(reach: Option<usize>) -> Option<Seq<char>> {
    match reach {
        Some(n) => Some(counted("reaches "@, n as int, " fn"@)),
        None => None,
    }
}

/// What is said of how much an entry point reaches.
pub fn reach_note(reach: Option<usize>) -> (r: Option<String>)
    ensures
        text_view(r) == reach_text(reach),
{
    match reach {
        Some(n) => Some(count_text("reaches ", n as u128, " fn")),
        None => None,
    }
}

/// Every entry point belongs to the group of its kind and is counted there once: the
/// totals of the groups are the number of entry points.
pub proof fn law_groups_cover_the_entries(items: Seq<EntryItemModel>)
    ensures
        places_of(items, kind_at(0)).len() + places_of(items, kind_at(1)).len() + places_of(
            items,
            kind_at(2),
        ).len() + places_of(items, kind_at(3)).len() + places_of(items, kind_at(4)).len()
            == items.len(),
        forall|i: int|
            0 <= i < items.len() ==> places_of(items, (#[trigger] items[i]).kind).contains(i),
{
    lemma_split_by_kind(items, items.len() as int);
    assert forall|i: int| 0 <= i < items.len() implies places_of(
        items,
        (#[trigger] items[i]).kind,
    ).contains(i) by {
        let kind = items[i].kind;
        let f = |j: int| items[j].kind == kind;
        lemma_positions(items.len() as int, f);
        assert(f(i));
    }
}

proof fn lemma_split_by_kind(items: Seq<EntryItemModel>, n: int)
    requires
        0 <= n <= items.len(),
    ensures
        positions(n, |i: int| items[i].kind == kind_at(0)).len() + positions(
            n,
            |i: int| items[i].kind == kind_at(1),
        ).len() + positions(n, |i: int| items[i].kind == kind_at(2)).len() + positions(
            n,
            |i: int| items[i].kind == kind_at(3),
        ).len() + positions(n, |i: int| items[i].kind == kind_at(4)).len() == n,
    decreases n,
{
    if n > 0 {
        lemma_split_by_kind(items, n - 1);
    }
}

// -- rows of the outline --------------------------------------------------------------

/// How far a row is set in.
pub open spec fn indent_of(depth: u32) -> Seq<char> {
    counted("padding-left:"@, 6 + 14 * depth, "px"@)
}

/// How far a row is set in.
pub fn indent_text(depth: u32) -> (r: String)
    ensures
        r@ == indent_of(depth),
{
    count_text("padding-left:", 6 + 14 * (depth as u128), "px")
}

/// The mark of a scope: unfolded or folded.
pub fn twisty(open: bool) -> (r: &'static str)
    ensures
        r@ == if open {
            "▾"@
        } else {
            "▸"@
        },
{
    if open {
        "▾"
    } else {
        "▸"
    }
}

/// The style of a function's row.
pub fn row_style(selected: Option<NodeId>, node: NodeId) -> (r: &'static str)
    ensures
        r@ == if selected == Some(node) {
            "row fn selected"@
        } else {
            "row fn"@
        },
{
    match selected {
        Some(id) => if id.0 == node.0 {
            "row fn selected"
        } else {
            "row fn"
        },
        None => "row fn",
    }
}

/// How many functions and scopes the outline has.
pub open spec fn totals_of(functions: int, scopes: int) -> Seq<char> {
    counted(""@, functions, counted(" fn · "@, scopes, " scopes"@))
}

/// How many functions and scopes the outline has.
pub fn totals_text(data: &ExplorerData) -> (r: String)
    ensures
        r@ == totals_of(data.outline.functions as int, data.outline.scopes as int),
{
    count_text(
        "",
        data.outline.functions as u128,
        count_text(" fn · ", data.outline.scopes as u128, " scopes").as_str(),
    )
}

/// The rows that are shown: those that match the filter with the scopes above them, or
/// without a filter those that no fold hides.
pub open spec fn shown_of(data: ExplorerData, filter: Option<Seq<char>>, open: Set<u64>) -> Seq<
    FlatModel,
> {
    match filter {
        Some(q) => {
            let roots = row_models(data.outline.roots@);
            let kept = if lowercase(trimmed(q)).len() == 0 {
                roots
            } else {
                kept_all(roots, lowercase(trimmed(q)))
            };
            flat_trees(kept, kept.len(), None, 0)
        },
        None => {
            let rows = views_of(data.rows@);
            positions(rows.len() as int, |i: int| visible(rows, open, i)).map_values(
                |i: int| rows[i],
            )
        },
    }
}

/// The rows that are shown.
pub fn shown_rows(data: &ExplorerData, filter: Option<&str>, open: &HashSet<u64>) -> (r: Vec<Row>)
    requires
        data.wf(),
    ensures
        views_of(r@) == shown_of(
            *data,
            match filter {
                Some(q) => Some(q@),
                None => None,
            },
            open@,
        ),
{
    if let Some(q) = filter {
        proof {
            lemma_all_tallied_fit(data.outline.roots@, lowercase(trimmed(q@)));
        }
        let pruned = data.outline.prune(q);
        assert(row_models(pruned.roots@).len() == pruned.roots@.len());
        return flatten(&pruned);
    }
    let ghost rows = views_of(data.rows@);
    let ghost f = |i: int| visible(rows, open@, i);
    let ghost ts = row_models(data.outline.roots@);
    proof {
        assert(ts.len() == data.outline.roots@.len());
        law_rows_follow_their_parents(ts);
        assert forall|i: int| 0 <= i < data.rows@.len() implies ((
        #[trigger] data.rows@[i]).parent matches Some(p) ==> p < data.rows@.len()) by {
            assert(rows[i] == data.rows@[i]@);
        }
    }
    let places = visible_rows(&data.rows, open);
    let ghost at = positions(rows.len() as int, f);
    let ghost want = at.map_values(|i: int| rows[i]);
    proof {
        lemma_positions(rows.len() as int, f);
        assert(places@.map_values(|i: usize| i as int) == at);
    }
    let mut out: Vec<Row> = Vec::new();
    let mut k: usize = 0;
    assert(views_of(out@) =~= want.take(0));
    while k < places.len()
        invariant
            rows == views_of(data.rows@),
            at == places@.map_values(|i: usize| i as int),
            forall|i: int| 0 <= i < at.len() ==> 0 <= #[trigger] at[i] < rows.len(),
            want == at.map_values(|i: int| rows[i]),
            k <= places@.len() == want.len(),
            views_of(out@) == want.take(k as int),
        decreases places@.len() - k,
    {
        assert(at[k as int] == places@[k as int]);
        let row = data.rows[places[k]].clone();
        proof {
            assert(rows[at[k as int]] == data.rows@[places@[k as int] as int]@);
            lemma_push_take(out@, row, want, k as int);
        }
        out.push(row);
        k += 1;
    }
    assert(want.take(want.len() as int) =~= want);
    out
}

// -- callers and callees --------------------------------------------------------------

/// A caller or callee as it is listed.
#[derive(Debug)]
pub struct CallLine {
    pub node: NodeId,
    pub name: String,
    pub tag: String,
    pub style: &'static str,
}

/// The mathematical content of a [`CallLine`].
#[verifier::ext_equal]
pub struct CallLineModel {
    pub node: NodeId,
    pub name: Seq<char>,
    pub tag: Seq<char>,
    pub style: Seq<char>,
}

impl View for CallLine {
    type V = CallLineModel;

    open spec fn view(&self) -> CallLineModel {
        CallLineModel { node: self.node, name: self.name@, tag: self.tag@, style: self.style@ }
    }
}

/// The style of a call: to an unresolved target, to one that is shown elsewhere, or
/// neither.
pub open spec fn call_style_of(external: bool, repeat: bool) -> Seq<char> {
    if external {
        "call ext"@
    } else if repeat {
        "call repeat"@
    } else {
        "call"@
    }
}

/// The style of a call.
pub fn call_style(external: bool, repeat: bool) -> (r: &'static str)
    ensures
        r@ == call_style_of(external, repeat),
{
    if external {
        "call ext"
    } else if repeat {
        "call repeat"
    } else {
        "call"
    }
}

pub open spec fn call_line_of(c: CallRefModel) -> CallLineModel {
    CallLineModel {
        node: c.id,
        name: c.qualified_name,
        tag: tag_text(c),
        style: call_style_of(c.external, false),
    }
}

/// The first callers or callees, and what is said of the others.
#[derive(Debug)]
pub struct CallList {
    pub lines: Vec<CallLine>,
    pub more: Option<String>,
}

impl CallList {
    /// The list shows these calls.
    pub open spec fn shows(self, calls: Seq<CallRefModel>) -> bool {
        &&& views_of(self.lines@) == calls.take(
            least(calls.len() as int, CALLS_SHOWN as int),
        ).map_values(|c: CallRefModel| call_line_of(c))
        &&& text_view(self.more) == more_text(calls.len() - CALLS_SHOWN)
    }
}

/// The first callers or callees, and what is said of the others.
pub fn call_list(calls: &Vec<CallRef>) -> (r: CallList)
    ensures
        r.shows(views_of(calls@)),
{
    let ghost all = views_of(calls@);
    let n: usize = if calls.len() < CALLS_SHOWN {
        calls.len()
    } else {
        CALLS_SHOWN
    };
    let ghost want = all.take(n as int).map_values(|c: CallRefModel| call_line_of(c));
    let mut lines: Vec<CallLine> = Vec::new();
    let mut i: usize = 0;
    assert(views_of(lines@) =~= want.take(0));
    while i < n
        invariant
            all == views_of(calls@),
            n <= calls@.len(),
            want == all.take(n as int).map_values(|c: CallRefModel| call_line_of(c)),
            i <= n == want.len(),
            views_of(lines@) == want.take(i as int),
        decreases n - i,
    {
        let c = &calls[i];
        let line = CallLine {
            node: c.id,
            name: c.qualified_name.clone(),
            tag: call_tag(c),
            style: call_style(c.external, false),
        };
        proof {
            assert(all[i as int] == c@);
            assert(line@ =~= call_line_of(c@));
            lemma_push_take(lines@, line, want, i as int);
        }
        lines.push(line);
        i += 1;
    }
    assert(want.take(want.len() as int) =~= want);
    let more = more_note(left_out(calls.len(), CALLS_SHOWN));
    CallList { lines, more }
}

// -- the card of the selection --------------------------------------------------------

/// What was measured of a definition, each with its label.
pub open spec fn measures_of(m: CardMetrics, fan_in: usize, fan_out: usize) -> Seq<
    (Seq<char>, Seq<char>),
> {
    seq![
        number_stat("complexity"@, m.cyclomatic as nat),
        ("fan-in / out"@, counted(""@, fan_in as int, counted(" / "@, fan_out as int, ""@))),
        number_stat("LOC"@, m.lines_of_code as nat),
        number_stat("params"@, m.parameters as nat),
        number_stat("nesting"@, m.max_nesting as nat),
        number_stat("allocs"@, m.allocations as nat),
    ]
}

/// What was measured of the definition of a card, each with its label.
pub fn measures(card: &NodeCard) -> (r: Vec<Stat>)
    ensures
        views_of(r@) == measures_of(card.metrics, card.fan_in, card.fan_out),
{
    let m = &card.metrics;
    let fans = count_text(
        "",
        card.fan_in as u128,
        count_text(" / ", card.fan_out as u128, "").as_str(),
    );
    let mut out: Vec<Stat> = Vec::new();
    out.push(number("complexity", m.cyclomatic as usize));
    out.push(Stat { label: "fan-in / out", value: fans });
    out.push(number("LOC", m.lines_of_code as usize));
    out.push(number("params", m.parameters as usize));
    out.push(number("nesting", m.max_nesting as usize));
    out.push(number("allocs", m.allocations as usize));
    assert(views_of(out@) =~= measures_of(card.metrics, card.fan_in, card.fan_out));
    out
}

/// The card of the selection as it is shown.
#[derive(Debug)]
pub struct Detail {
    pub qualified_name: String,
    /// Kind and shortened place.
    pub meta: String,
    pub location: String,
    /// The style and the word of the badge of an entry point.
    pub badge: Option<(&'static str, &'static str)>,
    /// The flags in one line, where there are any.
    pub flags: Option<String>,
    /// The measurements.
    pub stats: Vec<Stat>,
    pub inputs_title: String,
    pub inputs: CallList,
    pub outputs_title: String,
    pub outputs: CallList,
}

impl Detail {
    /// What is shown is this card.
    pub open spec fn shows(self, card: NodeCard) -> bool {
        &&& self.qualified_name@ == card.qualified_name@
        &&& self.location@ == place_text(card.file@, card.line)
        &&& self.meta@ == kind_text(card.kind) + " · "@ + compact(place_text(card.file@, card.line))
        &&& (match self.badge {
            Some(b) => Some((b.0@, b.1@)),
            None => None,
        }) == (match card.entry {
            Some(k) => Some(badge_texts(k)),
            None => None,
        })
        &&& text_view(self.flags) == if card.flags@.len() > 0 {
            Some(join(views(card.flags@), " · "@))
        } else {
            None
        }
        &&& views_of(self.stats@) == measures_of(card.metrics, card.fan_in, card.fan_out)
        &&& self.inputs_title@ == counted(
            "Inputs — "@,
            card.inputs@.len() as int,
            " caller(s)"@,
        )
        &&& self.inputs.shows(views_of(card.inputs@))
        &&& self.outputs_title@ == counted(
            "Outputs — "@,
            card.outputs@.len() as int,
            " callee(s)"@,
        )
        &&& self.outputs.shows(views_of(card.outputs@))
    }
}

/// The card of the selection as it is shown.
pub fn detail(card: &NodeCard) -> (r: Detail)
    ensures
        r.shows(*card),
{
    let location = card.location();
    let mut meta = concat2(kind_str(card.kind), " · ");
    meta.append(compact_location(location.as_str()).as_str());
    let badge = match card.entry {
        Some(k) => Some(entry_badge(k)),
        None => None,
    };
    let flags = if card.flags.len() > 0 {
        Some(join_text(&card.flags, " · "))
    } else {
        None
    };
    Detail {
        qualified_name: card.qualified_name.clone(),
        meta,
        location,
        badge,
        flags,
        stats: measures(card),
        inputs_title: count_text("Inputs — ", card.inputs.len() as u128, " caller(s)"),
        inputs: call_list(&card.inputs),
        outputs_title: count_text("Outputs — ", card.outputs.len() as u128, " callee(s)"),
        outputs: call_list(&card.outputs),
    }
}

// -- the flow to the selection --------------------------------------------------------

/// What is said of the flow that leads to the selection.
#[derive(Debug)]
pub enum FlowNote {
    /// A hint.
    Hint(String),
    /// There is no such flow.
    Warning(String),
    /// The number of hops, and the symbols on the way.
    Chain { hops: String, names: Vec<String> },
}

/// The mathematical content of a [`FlowNote`].
pub enum FlowNoteModel {
    Hint(Seq<char>),
    Warning(Seq<char>),
    Chain { hops: Seq<char>, names: Seq<Seq<char>> },
}

impl View for FlowNote {
    type V = FlowNoteModel;

    open spec fn view(&self) -> FlowNoteModel {
        match self {
            FlowNote::Hint(t) => FlowNoteModel::Hint(t@),
            FlowNote::Warning(t) => FlowNoteModel::Warning(t@),
            FlowNote::Chain { hops, names } => FlowNoteModel::Chain {
                hops: hops@,
                names: views(names@),
            },
        }
    }
}

/// The names of nodes; empty where the graph has no such node.
pub open spec fn names_of(g: GraphModel, ids: Seq<NodeId>) -> Seq<Seq<char>> {
    ids.map_values(
        |id: NodeId|
            if g.has(id) {
                g.node(id).name
            } else {
                Seq::empty()
            },
    )
}

/// What is said of the flow: without a source, how to set one; at the source, that a
/// target is wanted; else the path, or that there is none.
pub open spec fn flow_note_of(g: GraphModel, nav: NavModel) -> FlowNoteModel {
    match nav.anchor {
        None => FlowNoteModel::Hint(
            "Set a source, then click any node (canvas, outline or a callee) to see the shortest call path between them."@,
        ),
        Some(a) => if nav.selected == Some(a) {
            FlowNoteModel::Hint("source: "@ + nav.anchor_name + " — now pick a target."@)
        } else if nav.chain.len() == 0 {
            FlowNoteModel::Warning(
                "no call path from "@ + nav.anchor_name
                    + " to this node (in fast mode cross-crate method calls may be missing — try semantic)."@,
            )
        } else {
            FlowNoteModel::Chain {
                hops: counted(""@, nav.chain.len() - 1, " hop(s)"@),
                names: names_of(g, nav.chain),
            }
        },
    }
}

fn list_names(graph: &CodeGraph, ids: &Vec<NodeId>) -> (r: Vec<String>)
    requires
        graph.wf(),
    ensures
        views(r@) == names_of(graph@, ids@),
{
    let ghost want = names_of(graph@, ids@);
    let mut out: Vec<String> = Vec::new();
    let mut i: usize = 0;
    assert(views(out@) =~= want.take(0));
    while i < ids.len()
        invariant
            graph.wf(),
            i <= ids@.len() == want.len(),
            want == names_of(graph@, ids@),
            views(out@) == want.take(i as int),
        decreases ids@.len() - i,
    {
        let name = match graph.try_node(ids[i]) {
            Some(n) => n.name.clone(),
            None => String::new(),
        };
        proof {
            assert(name@ =~= want[i as int]);
            assert(want.take(i + 1) =~= want.take(i as int).push(name@));
            assert(views(out@.push(name)) =~= views(out@).push(name@));
        }
        out.push(name);
        i += 1;
    }
    assert(want.take(want.len() as int) =~= want);
    out
}

/// What is said of the flow that leads to the selection.
pub fn flow_note(graph: &CodeGraph, nav: &Nav) -> (r: FlowNote)
    requires
        graph.wf(),
    ensures
        r@ == flow_note_of(graph@, nav@),
{
    let a = match nav.anchor {
        None => {
            return FlowNote::Hint(
                "Set a source, then click any node (canvas, outline or a callee) to see the shortest call path between them.".to_owned(),
            );
        },
        Some(a) => a,
    };
    let at_source = match nav.selected {
        Some(s) => s.0 == a.0,
        None => false,
    };
    if at_source {
        let mut t = concat2("source: ", nav.anchor_name.as_str());
        t.append(" — now pick a target.");
        return FlowNote::Hint(t);
    }
    if nav.chain.len() == 0 {
        let mut t = concat2("no call path from ", nav.anchor_name.as_str());
        t.append(
            " to this node (in fast mode cross-crate method calls may be missing — try semantic).",
        );
        return FlowNote::Warning(t);
    }
    FlowNote::Chain {
        hops: count_text("", (nav.chain.len() - 1) as u128, " hop(s)"),
        names: list_names(graph, &nav.chain),
    }
}

/// What is said under the card where the selection calls nothing.
pub fn leaf_note(tree: &TreeItem) -> (r: Option<&'static str>)
    ensures
        r is Some <==> tree.children@.len() == 0 && tree.truncated == 0,
        r matches Some(t) ==> t@ == "Leaf: calls nothing in the analyzed code."@,
{
    if tree.children.len() == 0 && tree.truncated == 0 {
        Some("Leaf: calls nothing in the analyzed code.")
    } else {
        None
    }
}

// -- the lists of a report ------------------------------------------------------------

/// A label and its value.
#[derive(Debug)]
pub struct Stat {
    pub label: &'static str,
    pub value: String,
}

/// A label and a number.
pub open spec fn number_stat(label: Seq<char>, n: nat) -> (Seq<char>, Seq<char>) {
    (label, decimal(n))
}

impl View for Stat {
    type V = (Seq<char>, Seq<char>);

    open spec fn view(&self) -> (Seq<char>, Seq<char>) {
        (self.label@, self.value@)
    }
}

fn number(label: &'static str, n: usize) -> (r: Stat)
    ensures
        r@ == number_stat(label@, n as nat),
{
    Stat { label, value: decimal_text(n as u64) }
}

/// The overview of a report; the vertical only where it is known.
pub open spec fn overview_of(s: Summary, vertical: Seq<char>) -> Seq<(Seq<char>, Seq<char>)> {
    (if vertical.len() > 0 {
        seq![("Vertical"@, vertical)]
    } else {
        Seq::empty()
    }) + seq![
        number_stat("Files"@, s.files as nat),
        number_stat("Functions"@, s.nodes as nat),
        number_stat("Calls"@, s.edges as nat),
        number_stat("External"@, s.external_nodes as nat),
        number_stat("Diagnostics"@, s.diagnostics as nat),
        number_stat("Suggestions"@, s.suggestions as nat),
    ]
}

/// The overview of a report.
pub fn overview(s: &Summary, vertical: &str) -> (r: Vec<Stat>)
    ensures
        views_of(r@) == overview_of(*s, vertical@),
{
    let mut out: Vec<Stat> = Vec::new();
    if !vertical.is_empty() {
        out.push(Stat { label: "Vertical", value: vertical.to_owned() });
    }
    out.push(number("Files", s.files));
    out.push(number("Functions", s.nodes));
    out.push(number("Calls", s.edges));
    out.push(number("External", s.external_nodes));
    out.push(number("Diagnostics", s.diagnostics));
    out.push(number("Suggestions", s.suggestions));
    assert(views_of(out@) =~= overview_of(*s, vertical@));
    out
}

/// The targets of a suggestion in one line.
pub open spec fn targets_of(targets: Seq<Target>) -> Seq<char> {
    join(targets.map_values(|t: Target| t.text()), " · "@)
}

/// The targets of a suggestion in one line.
pub fn targets_text(s: &Suggestion) -> (r: String)
    ensures
        r@ == targets_of(s.targets@),
{
    let ghost want = s.targets@.map_values(|t: Target| t.text());
    let mut parts: Vec<String> = Vec::new();
    let mut i: usize = 0;
    assert(views(parts@) =~= want.take(0));
    while i < s.targets.len()
        invariant
            i <= s.targets@.len() == want.len(),
            want == s.targets@.map_values(|t: Target| t.text()),
            views(parts@) == want.take(i as int),
        decreases s.targets@.len() - i,
    {
        let p = s.targets[i].as_str().to_owned();
        proof {
            assert(want[i as int] == p@);
            assert(want.take(i + 1) =~= want.take(i as int).push(p@));
            assert(views(parts@.push(p)) =~= views(parts@).push(p@));
        }
        parts.push(p);
        i += 1;
    }
    assert(want.take(want.len() as int) =~= want);
    join_text(&parts, " · ")
}

/// A finding as it is listed.
#[derive(Debug)]
pub struct FindingLine {
    pub style: String,
    pub severity: &'static str,
    pub message: String,
}

/// The mathematical content of a [`FindingLine`].
#[verifier::ext_equal]
pub struct FindingLineModel {
    pub style: Seq<char>,
    pub severity: Seq<char>,
    pub message: Seq<char>,
}

impl View for FindingLine {
    type V = FindingLineModel;

    open spec fn view(&self) -> FindingLineModel {
        FindingLineModel {
            style: self.style@,
            severity: self.severity@,
            message: self.message@,
        }
    }
}

pub open spec fn finding_line_of(d: DiagnosticModel) -> FindingLineModel {
    FindingLineModel {
        style: "diag sev-"@ + d.severity.text(),
        severity: d.severity.text(),
        message: d.message,
    }
}

/// The title of the list of findings.
pub fn findings_title(ds: &Vec<Diagnostic>) -> (r: String)
    ensures
        r@ == counted("Diagnostics ("@, ds@.len() as int, ")"@),
{
    count_text("Diagnostics (", ds.len() as u128, ")")
}

/// The first findings of a report.
pub fn finding_lines(ds: &Vec<Diagnostic>) -> (r: Vec<FindingLine>)
    ensures
        views_of(r@) == views_of(ds@).take(
            least(ds@.len() as int, FINDINGS_SHOWN as int),
        ).map_values(|d: DiagnosticModel| finding_line_of(d)),
{
    let ghost all = views_of(ds@);
    let n: usize = if ds.len() < FINDINGS_SHOWN {
        ds.len()
    } else {
        FINDINGS_SHOWN
    };
    let ghost want = all.take(n as int).map_values(|d: DiagnosticModel| finding_line_of(d));
    let mut out: Vec<FindingLine> = Vec::new();
    let mut i: usize = 0;
    assert(views_of(out@) =~= want.take(0));
    while i < n
        invariant
            all == views_of(ds@),
            n <= ds@.len(),
            want == all.take(n as int).map_values(|d: DiagnosticModel| finding_line_of(d)),
            i <= n == want.len(),
            views_of(out@) == want.take(i as int),
        decreases n - i,
    {
        let d = &ds[i];
        let line = FindingLine {
            style: concat2("diag sev-", d.severity.as_str()),
            severity: d.severity.as_str(),
            message: d.message.clone(),
        };
        proof {
            assert(all[i as int] == d@);
            assert(line@ =~= finding_line_of(d@));
            lemma_push_take(out@, line, want, i as int);
        }
        out.push(line);
        i += 1;
    }
    assert(want.take(want.len() as int) =~= want);
    out
}

// -- starting an analysis -------------------------------------------------------------

/// What is wrong with a request to analyze a path: a host needs one, the page alone
/// does without.
pub open spec fn request_fault(hosted: bool, path: Seq<char>) -> Option<Seq<char>> {
    if hosted && trimmed(path).len() == 0 {
        Some("Please enter a repository path."@)
    } else {
        None
    }
}

/// What is wrong with a request to analyze a path.
pub fn request_problem(hosted: bool, path: &str) -> (r: Option<&'static str>)
    ensures
        (match r {
            Some(t) => Some(t@),
            None => None,
        }) == request_fault(hosted, path@),
{
    if hosted && trim_text(path).as_str().is_empty() {
        Some("Please enter a repository path.")
    } else {
        None
    }
}

/// Where the page alone finds its graph.
pub open spec fn fixture_of(path: Seq<char>) -> Seq<char> {
    if trimmed(path).len() == 0 {
        "fixture.json"@
    } else {
        path
    }
}

/// Where the page alone finds its graph.
pub fn fixture_url(path: &str) -> (r: String)
    ensures
        r@ == fixture_of(path@),
{
    if trim_text(path).as_str().is_empty() {
        "fixture.json".to_owned()
    } else {
        path.to_owned()
    }
}

} // verus!
