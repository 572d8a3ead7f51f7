//! Text views for navigation: a node's card, the outline, the entry points and call
//! trees.

use crate::calltree::{
    branch, kid_calls, kid_keys, kids, lemma_kid_calls_has, lemma_offspring_monotone, level,
    offspring, shown_calls, tree_at, tree_model, CallTreeNode, CallTreeOptions, TreeModel,
};
use crate::card::{
    colon_line, edge_kind_str, edge_kind_text, kind_str, kind_text, line_text, place_text, CallRef,
    CallRefModel, CardMetrics, NodeCard,
};
use crate::entries::{EntryKind, EntryPoint};
use crate::graph::{CodeGraph, GraphModel, NodeKind, NodeModel};
use crate::ids::NodeId;
use crate::metrics::{callee_count, caller_count, count_callees, count_callers};
use crate::order::{arrange, lemma_arrange_has};
use crate::outline::{
    body_models, definitions, direct, in_source_order, inside, is_def, kept, kept_all, leaf_model,
    leaf_models, listings, outline_models, row_model, row_models, scope_at, scope_model, scope_models,
    scope_path, scopes, source_key, Outline, OutlineKind, OutlineNode, RowModel,
};
use crate::path::{base_name, base_text};
use crate::reach::{lemma_joined, Direction};
use crate::seqs::{gather, lemma_filter_has, lemma_positions, tally, views_of};
use crate::text::{concat2, decimal, decimal_text, join, join_text, views};
use vstd::prelude::*;

verus! {

/// `file:line` of a definition, or `<external>`.
pub open spec fn location_of(g: GraphModel, n: NodeModel) -> Seq<char> {
    if n.kind != NodeKind::External && n.span.file < g.files.len() {
        line_text(g.files[n.span.file as int], n.span.start_line)
    } else {
        "<external>"@
    }
}

/// `file:line` of a definition, or `<external>`.
pub fn location(graph: &CodeGraph, id: NodeId) -> (r: String)
    requires
        graph@.has(id),
    ensures
        r@ == location_of(graph@, graph@.node(id)),
{
    let n = graph.node(id);
    if n.kind != NodeKind::External {
        if let Some(p) = graph.file_path(n.span.file()) {
            return colon_line(p, n.span.start_line);
        }
    }
    "<external>".to_owned()
}

/// A text, where the condition holds.
pub open spec fn said_if(condition: bool, text: Seq<char>) -> Seq<char> {
    if condition {
        text
    } else {
        Seq::empty()
    }
}

/// Add the numeral of a count.
fn add_count(out: &mut String, n: usize)
    ensures
        final(out)@ == old(out)@ + decimal(n as nat),
{
    out.append(decimal_text(n as u64).as_str());
}

// -- cards ----------------------------------------------------------------------------

/// The call behind a caller or callee: its kind, how often it occurs, where it stands.
pub open spec fn call_tag_text(c: CallRefModel) -> Seq<char> {
    "["@ + edge_kind_text(c.kind) + said_if(c.count > 1, " x"@ + decimal(c.count as nat)) + said_if(
        c.site_file.len() > 0,
        " @ "@ + line_text(base_name(c.site_file), c.call_site.start_line),
    ) + "]"@
}

fn call_tag(c: &CallRef) -> (r: String)
    ensures
        r@ == call_tag_text(c@),
{
    let mut s = concat2("[", edge_kind_str(c.kind));
    let ghost s0 = s@;
    if c.count > 1 {
        let n = concat2(" x", decimal_text(c.count as u64).as_str());
        s.append(n.as_str());
    } else {
        assert(s0 + Seq::empty() =~= s0);
    }
    let ghost s1 = s@;
    if !c.site_file.as_str().is_empty() {
        let base = base_text(c.site_file.as_str());
        let at = concat2(" @ ", colon_line(base.as_str(), c.call_site.start_line).as_str());
        s.append(at.as_str());
    } else {
        assert(s1 + Seq::empty() =~= s1);
    }
    s.append("]");
    s
}

/// The line of measurements.
pub open spec fn metrics_text(m: CardMetrics) -> Seq<char> {
    "  metrics: cc "@ + decimal(m.cyclomatic as nat) + "  params "@ + decimal(m.parameters as nat)
        + "  loc "@ + decimal(m.lines_of_code as nat) + "  nesting "@ + decimal(m.max_nesting as nat)
        + "  allocs "@ + decimal(m.allocations as nat) + "\n"@
}

fn metrics_line(m: &CardMetrics) -> (r: String)
    ensures
        r@ == metrics_text(*m),
{
    let mut s = concat2("  metrics: cc ", decimal_text(m.cyclomatic as u64).as_str());
    s.append("  params ");
    s.append(decimal_text(m.parameters as u64).as_str());
    s.append("  loc ");
    s.append(decimal_text(m.lines_of_code as u64).as_str());
    s.append("  nesting ");
    s.append(decimal_text(m.max_nesting as u64).as_str());
    s.append("  allocs ");
    s.append(decimal_text(m.allocations as u64).as_str());
    s.append("\n");
    s
}

/// The lines on the node itself.
pub open spec fn card_head(card: NodeCard) -> Seq<char> {
    card.qualified_name@ + "\n  kind:    "@ + kind_text(card.kind) + "\n  where:   "@ + place_text(
        card.file@,
        card.line,
    ) + "\n"@ + (match card.entry {
        Some(e) => "  entry:   "@ + e.text() + "\n"@,
        None => Seq::empty(),
    }) + metrics_text(card.metrics) + said_if(
        card.flags@.len() > 0,
        "  flags:   "@ + join(views(card.flags@), " "@) + "\n"@,
    )
}

fn card_head_text(card: &NodeCard) -> (r: String)
    ensures
        r@ == card_head(*card),
{
    let mut s = card.qualified_name.clone();
    s.append("\n  kind:    ");
    s.append(kind_str(card.kind));
    s.append("\n  where:   ");
    s.append(card.location().as_str());
    s.append("\n");
    let ghost s0 = s@;
    match card.entry {
        Some(e) => {
            let mut line = concat2("  entry:   ", e.as_str());
            line.append("\n");
            s.append(line.as_str());
        },
        None => {
            assert(s0 + Seq::empty() =~= s0);
        },
    }
    s.append(metrics_line(&card.metrics).as_str());
    let ghost s1 = s@;
    if card.flags.len() > 0 {
        let mut line = concat2("  flags:   ", join_text(&card.flags, " ").as_str());
        line.append("\n");
        s.append(line.as_str());
    } else {
        assert(s1 + Seq::empty() =~= s1);
    }
    s
}

/// The smaller of two numbers.
pub open spec fn least(a: int, b: int) -> int {
    if a < b {
        a
    } else {
        b
    }
}

/// The line of a caller or callee.
pub open spec fn ref_line(refs: Seq<CallRefModel>, arrow: Seq<char>) -> spec_fn(int) -> Seq<char> {
    |i: int|
        arrow + refs[i].qualified_name + said_if(
            arrow == "    -> "@ && refs[i].external,
            "  (external)"@,
        ) + "   "@ + call_tag_text(refs[i]) + "\n"@
}

/// The lines of the first callers or callees, and how many more there are.
pub open spec fn ref_lines(refs: Seq<CallRefModel>, arrow: Seq<char>, limit: int) -> Seq<char> {
    gather(least(refs.len() as int, limit), ref_line(refs, arrow)) + said_if(
        refs.len() > limit,
        "    ... "@ + decimal((refs.len() - limit) as nat) + " more\n"@,
    )
}

fn list_refs(refs: &Vec<CallRef>, callees: bool, limit: usize) -> (r: String)
    ensures
        r@ == ref_lines(
            views_of(refs@),
            if callees {
                "    -> "@
            } else {
                "    <- "@
            },
            limit as int,
        ),
{
    let arrow = if callees {
        "    -> "
    } else {
        "    <- "
    };
    proof {
        reveal_strlit("    -> ");
        reveal_strlit("    <- ");
        assert("    -> "@[4] == '-' && "    <- "@[4] == '<');
    }
    let ghost all = views_of(refs@);
    let ghost f = ref_line(all, arrow@);
    let n: usize = if refs.len() < limit {
        refs.len()
    } else {
        limit
    };
    let mut s = String::new();
    assert(s@ =~= Seq::empty());
    let mut i: usize = 0;
    while i < n
        invariant
            i <= n <= refs@.len(),
            all == views_of(refs@),
            f == ref_line(all, arrow@),
            callees <==> arrow@ == "    -> "@,
            s@ == gather(i as int, f),
        decreases n - i,
    {
        let c = &refs[i];
        let ghost before = s@;
        assert(all[i as int] == c@);
        let mut line = concat2(arrow, c.qualified_name.as_str());
        let ghost mid = line@;
        if callees && c.external {
            line.append("  (external)");
        } else {
            assert(mid + Seq::empty() =~= mid);
        }
        line.append("   ");
        line.append(call_tag(c).as_str());
        line.append("\n");
        s.append(line.as_str());
        assert(s@ =~= before + f(i as int));
        i += 1;
    }
    let ghost body = s@;
    if refs.len() > limit {
        let mut more = concat2("    ... ", decimal_text((refs.len() - limit) as u64).as_str());
        more.append(" more\n");
        s.append(more.as_str());
    } else {
        assert(body + Seq::empty() =~= body);
    }
    s
}

/// The text view of a card, with at most `limit` callers and as many callees.
pub open spec fn card_text(card: NodeCard, limit: int) -> Seq<char> {
    card_head(card) + "\n  inputs — "@ + decimal(card.inputs@.len()) + " caller(s):\n"@ + ref_lines(
        views_of(card.inputs@),
        "    <- "@,
        limit,
    ) + "\n  outputs — "@ + decimal(card.outputs@.len()) + " callee(s):\n"@ + ref_lines(
        views_of(card.outputs@),
        "    -> "@,
        limit,
    )
}

/// The text view of a card, with at most `limit` callers and as many callees.
pub fn format_card(card: &NodeCard, limit: usize) -> (r: String)
    ensures
        r@ == card_text(*card, limit as int),
{
    let mut s = card_head_text(card);
    s.append("\n  inputs — ");
    add_count(&mut s, card.inputs.len());
    s.append(" caller(s):\n");
    s.append(list_refs(&card.inputs, false, limit).as_str());
    s.append("\n  outputs — ");
    add_count(&mut s, card.outputs.len());
    s.append(" callee(s):\n");
    s.append(list_refs(&card.outputs, true, limit).as_str());
    s
}

// -- outline --------------------------------------------------------------------------

/// How much of the outline to show.
#[derive(Debug, Clone, Copy, PartialEq, Eq, Structural)]
pub struct OutlineStyle {
    /// Scopes from this depth on are shown as one line; the outermost have depth zero.
    pub max_depth: Option<u32>,
    /// Show scopes only, never functions.
    pub scopes_only: bool,
}

impl Default for OutlineStyle {
    fn default() -> (r: Self)
        ensures
            r == (OutlineStyle { max_depth: None, scopes_only: false }),
    {
        OutlineStyle { max_depth: None, scopes_only: false }
    }
}

impl OutlineStyle {
    /// The row is shown.
    pub open spec fn shows(self, t: RowModel) -> bool {
        !self.scopes_only || t.kind == OutlineKind::Scope
    }

    /// What stands under a row of this depth is not shown.
    pub open spec fn collapses(self, depth: int) -> bool {
        self.max_depth matches Some(d) && depth >= d
    }
}

pub open spec fn marker_text(entry: Option<EntryKind>) -> Seq<char> {
    match entry {
        Some(EntryKind::Main) => "  ★ main"@,
        Some(EntryKind::Exported) => "  ⇥ export"@,
        Some(EntryKind::PublicRoot) => "  ◇ pub root"@,
        Some(EntryKind::Root) => "  ○ root"@,
        Some(EntryKind::Test) => "  ⚑ test"@,
        None => ""@,
    }
}

/// What marks an entry point.
pub fn entry_marker(entry: Option<EntryKind>) -> (r: &'static str)
    ensures
        r@ == marker_text(entry),
{
    match entry {
        Some(EntryKind::Main) => "  ★ main",
        Some(EntryKind::Exported) => "  ⇥ export",
        Some(EntryKind::PublicRoot) => "  ◇ pub root",
        Some(EntryKind::Root) => "  ○ root",
        Some(EntryKind::Test) => "  ⚑ test",
        None => "",
    }
}

/// What joins a row to the row above it.
pub open spec fn connector(last: bool) -> Seq<char> {
    if last {
        "└── "@
    } else {
        "├── "@
    }
}

fn connector_str(last: bool) -> (r: &'static str)
    ensures
        r@ == connector(last),
{
    if last {
        "└── "
    } else {
        "├── "
    }
}

/// What goes before the rows under a row.
pub open spec fn deeper(prefix: Seq<char>, last: bool) -> Seq<char> {
    prefix + if last {
        "    "@
    } else {
        "│   "@
    }
}

fn deeper_text(prefix: &str, last: bool) -> (r: String)
    ensures
        r@ == deeper(prefix@, last),
{
    concat2(
        prefix,
        if last {
            "    "
        } else {
            "│   "
        },
    )
}

/// The line of a scope.
pub open spec fn scope_line(t: RowModel, collapsed: bool) -> Seq<char> {
    t.label + "/  ("@ + decimal(t.functions as nat) + " fn"@ + said_if(
        t.entries > 0,
        ", "@ + decimal(t.entries as nat) + if t.entries == 1 {
            " entry"@
        } else {
            " entries"@
        },
    ) + ")"@ + said_if(collapsed, "  …"@) + "\n"@
}

fn scope_text(node: &OutlineNode, collapsed: bool) -> (r: String)
    ensures
        r@ == scope_line(row_model(*node), collapsed),
{
    let mut s = concat2(node.label.as_str(), "/  (");
    s.append(decimal_text(node.functions as u64).as_str());
    s.append(" fn");
    let ghost s0 = s@;
    if node.entries > 0 {
        let mut e = concat2(", ", decimal_text(node.entries as u64).as_str());
        e.append(
            if node.entries == 1 {
                " entry"
            } else {
                " entries"
            },
        );
        s.append(e.as_str());
    } else {
        assert(s0 + Seq::empty() =~= s0);
    }
    s.append(")");
    let ghost s1 = s@;
    if collapsed {
        s.append("  …");
    } else {
        assert(s1 + Seq::empty() =~= s1);
    }
    s.append("\n");
    s
}

/// The line of a function.
pub open spec fn function_line(t: RowModel, g: GraphModel, id: NodeId) -> Seq<char> {
    t.label + "  cc "@ + decimal(t.cyclomatic as nat) + " · in "@ + decimal(
        caller_count(g, id),
    ) + " · out "@ + decimal(callee_count(g, id)) + marker_text(t.entry) + "   "@
        + location_of(g, g.node(id)) + "\n"@
}

fn function_text(node: &OutlineNode, graph: &CodeGraph, id: NodeId) -> (r: String)
    requires
        graph.wf(),
        graph@.has(id),
    ensures
        r@ == function_line(row_model(*node), graph@, id),
{
    let mut s = concat2(node.label.as_str(), "  cc ");
    s.append(decimal_text(node.cyclomatic as u64).as_str());
    s.append(" · in ");
    add_count(&mut s, count_callers(graph, id));
    s.append(" · out ");
    add_count(&mut s, count_callees(graph, id));
    s.append(entry_marker(node.entry));
    s.append("   ");
    s.append(location(graph, id).as_str());
    s.append("\n");
    s
}

/// No row after the `i`-th is shown.
pub open spec fn last_shown(ts: Seq<RowModel>, i: int, style: OutlineStyle) -> bool {
    forall|j: int| i < j < ts.len() ==> !style.shows(#[trigger] ts[j])
}

/// A row and what is shown under it.
pub open spec fn row_text(
    t: RowModel,
    g: GraphModel,
    prefix: Seq<char>,
    last: bool,
    style: OutlineStyle,
) -> Seq<char>
    decreases t, 0nat,
{
    if t.kind == OutlineKind::Scope {
        let collapsed = style.collapses(t.depth);
        prefix + connector(last) + scope_line(t, collapsed) + if collapsed {
            Seq::empty()
        } else {
            rows_text(t.children, t.children.len(), g, deeper(prefix, last), style)
        }
    } else {
        match t.node {
            Some(id) => prefix + connector(last) + function_line(t, g, id),
            None => Seq::empty(),
        }
    }
}

/// The first `k` rows, those that are shown, with what is shown under them.
pub open spec fn rows_text(
    ts: Seq<RowModel>,
    k: nat,
    g: GraphModel,
    prefix: Seq<char>,
    style: OutlineStyle,
) -> Seq<char>
    decreases ts, k,
{
    if k == 0 || k > ts.len() {
        Seq::empty()
    } else {
        rows_text(ts, (k - 1) as nat, g, prefix, style) + if style.shows(ts[k - 1]) {
            row_text(ts[k - 1], g, prefix, last_shown(ts, k - 1, style), style)
        } else {
            Seq::empty()
        }
    }
}

/// The functions of a row and of all rows under it are nodes of the graph.
pub open spec fn row_known(t: RowModel, g: GraphModel) -> bool
    decreases t, 0nat,
{
    (t.node matches Some(id) ==> g.has(id)) && rows_known(t.children, t.children.len(), g)
}

/// The functions of the first `k` rows and of all rows under them are nodes of the
/// graph.
pub open spec fn rows_known(ts: Seq<RowModel>, k: nat, g: GraphModel) -> bool
    decreases ts, k,
{
    k > 0 && k <= ts.len() ==> rows_known(ts, (k - 1) as nat, g) && row_known(ts[k - 1], g)
}

proof fn lemma_known_at(ts: Seq<RowModel>, k: nat, g: GraphModel, i: int)
    requires
        rows_known(ts, k, g),
        0 <= i < k <= ts.len(),
    ensures
        row_known(ts[i], g),
    decreases k,
{
    if i < k - 1 {
        lemma_known_at(ts, (k - 1) as nat, g, i);
    }
}

fn is_last_shown(rows: &Vec<OutlineNode>, i: usize, style: &OutlineStyle) -> (r: bool)
    requires
        i < rows@.len(),
    ensures
        r == last_shown(row_models(rows@), i as int, *style),
{
    let ghost ts = row_models(rows@);
    let n: usize = rows.len();
    let mut j: usize = i + 1;
    while j < n
        invariant
            i < j <= n == rows@.len(),
            ts == row_models(rows@),
            forall|x: int| i < x < j ==> !style.shows(#[trigger] ts[x]),
        decreases rows@.len() - j,
    {
        assert(ts[j as int].kind == rows@[j as int].kind);
        if !style.scopes_only || rows[j].is_scope() {
            assert(style.shows(ts[j as int]));
            return false;
        }
        j += 1;
    }
    true
}

fn write_rows(
    rows: &Vec<OutlineNode>,
    graph: &CodeGraph,
    prefix: &str,
    style: &OutlineStyle,
) -> (r: String)
    requires
        graph.wf(),
        rows_known(row_models(rows@), rows@.len(), graph@),
    ensures
        r@ == rows_text(row_models(rows@), rows@.len(), graph@, prefix@, *style),
    decreases rows,
{
    let ghost ts = row_models(rows@);
    let ghost g = graph@;
    let mut s = String::new();
    assert(s@ =~= Seq::empty());
    let mut i: usize = 0;
    while i < rows.len()
        invariant
            graph.wf(),
            g == graph@,
            ts == row_models(rows@),
            rows_known(ts, rows@.len(), g),
            i <= rows@.len(),
            s@ == rows_text(ts, i as nat, g, prefix@, *style),
        decreases rows@.len() - i,
    {
        let node = &rows[i];
        let ghost before = s@;
        assert(ts[i as int] == row_model(*node));
        if !style.scopes_only || node.is_scope() {
            let last = is_last_shown(rows, i, style);
            proof {
                lemma_known_at(ts, rows@.len(), g, i as int);
            }
            s.append(write_outline_node(node, graph, prefix, last, style).as_str());
        } else {
            assert(before + Seq::empty() =~= before);
        }
        assert(s@ == rows_text(ts, (i + 1) as nat, g, prefix@, *style));
        i += 1;
    }
    s
}

fn write_outline_node(
    node: &OutlineNode,
    graph: &CodeGraph,
    prefix: &str,
    last: bool,
    style: &OutlineStyle,
) -> (r: String)
    requires
        graph.wf(),
        row_known(row_model(*node), graph@),
    ensures
        r@ == row_text(row_model(*node), graph@, prefix@, last, *style),
    decreases node,
{
    let ghost t = row_model(*node);
    proof {
        assert(t.children =~= row_models(node.children@));
    }
    if node.is_scope() {
        let collapsed = match style.max_depth {
            Some(d) => node.depth >= d,
            None => false,
        };
        let mut s = concat2(prefix, connector_str(last));
        s.append(scope_text(node, collapsed).as_str());
        if collapsed {
            assert(s@ + Seq::empty() =~= s@);
        } else {
            let inner = deeper_text(prefix, last);
            s.append(write_rows(&node.children, graph, inner.as_str(), style).as_str());
        }
        s
    } else {
        match node.node {
            Some(id) => {
                let mut s = concat2(prefix, connector_str(last));
                s.append(function_text(node, graph, id).as_str());
                s
            },
            None => {
                let s = String::new();
                assert(s@ =~= Seq::empty());
                s
            },
        }
    }
}

/// The outline as a tree drawn with lines.
pub open spec fn outline_text(outline: Outline, g: GraphModel, style: OutlineStyle) -> Seq<char> {
    "outline: "@ + decimal(outline.functions as nat) + " function(s) in "@ + decimal(
        outline.scopes as nat,
    ) + " scope(s)\n"@ + rows_text(
        row_models(outline.roots@),
        outline.roots@.len(),
        g,
        ""@,
        style,
    )
}

/// The outline as a tree drawn with lines.
pub fn format_outline(outline: &Outline, graph: &CodeGraph, style: &OutlineStyle) -> (r: String)
    requires
        graph.wf(),
        rows_known(row_models(outline.roots@), outline.roots@.len(), graph@),
    ensures
        r@ == outline_text(*outline, graph@, *style),
{
    let mut s = "outline: ".to_owned();
    add_count(&mut s, outline.functions);
    s.append(" function(s) in ");
    add_count(&mut s, outline.scopes);
    s.append(" scope(s)\n");
    s.append(write_rows(&outline.roots, graph, "", style).as_str());
    s
}

// -- entry points ---------------------------------------------------------------------

pub open spec fn entry_title_text(kind: EntryKind) -> Seq<char> {
    match kind {
        EntryKind::Main => "main — where the program starts"@,
        EntryKind::Exported => "exported — called from outside this code: bootloader, hardware, WASM host, FFI"@,
        EntryKind::PublicRoot => "public roots — API surface nobody calls internally"@,
        EntryKind::Root => "private roots — uncalled: dynamic dispatch or dead code"@,
        EntryKind::Test => "tests — roots for the test harness"@,
    }
}

/// The heading of a kind of entry points.
pub fn entry_title(kind: EntryKind) -> (r: &'static str)
    ensures
        r@ == entry_title_text(kind),
{
    match kind {
        EntryKind::Main => "main — where the program starts",
        EntryKind::Exported => "exported — called from outside this code: bootloader, hardware, WASM host, FFI",
        EntryKind::PublicRoot => "public roots — API surface nobody calls internally",
        EntryKind::Root => "private roots — uncalled: dynamic dispatch or dead code",
        EntryKind::Test => "tests — roots for the test harness",
    }
}

/// How many of the entry points are of a kind.
pub open spec fn kind_count(es: Seq<EntryPoint>, kind: EntryKind) -> nat {
    tally(es.len() as int, |i: int| es[i].kind == kind)
}

fn count_kind(entries: &Vec<EntryPoint>, kind: EntryKind) -> (r: usize)
    ensures
        r == kind_count(entries@, kind),
{
    let ghost f = |i: int| entries@[i].kind == kind;
    let mut n: usize = 0;
    let mut i: usize = 0;
    while i < entries.len()
        invariant
            i <= entries@.len(),
            f == (|i: int| entries@[i].kind == kind),
            n == tally(i as int, f),
            n <= i,
        decreases entries@.len() - i,
    {
        if entries[i].kind == kind {
            n += 1;
        }
        i += 1;
    }
    n
}

/// How many functions the `i`-th entry point reaches, where that is given.
pub open spec fn reach_at(reach: Seq<Option<usize>>, i: int) -> Option<usize> {
    if i < reach.len() {
        reach[i]
    } else {
        None
    }
}

/// An entry point, under a heading where it is the first of its kind in a row.
pub open spec fn entry_lines(
    g: GraphModel,
    es: Seq<EntryPoint>,
    reach: Seq<Option<usize>>,
) -> spec_fn(int) -> Seq<char> {
    |i: int|
        said_if(
            i == 0 || es[i - 1].kind != es[i].kind,
            said_if(i > 0, "\n"@) + entry_title_text(es[i].kind) + " ("@ + decimal(
                kind_count(es, es[i].kind),
            ) + ")\n"@,
        ) + "  "@ + g.node(es[i].id).qualified_name + "   ["@ + location_of(g, g.node(es[i].id))
            + "]"@ + (match reach_at(reach, i) {
            Some(n) => "   reaches "@ + decimal(n as nat) + " fn"@,
            None => Seq::empty(),
        }) + "\n"@
}

/// The entry points, grouped by kind.
pub open spec fn entries_text(
    g: GraphModel,
    es: Seq<EntryPoint>,
    reach: Seq<Option<usize>>,
) -> Seq<char> {
    if es.len() == 0 {
        "no entry points found\n"@
    } else {
        gather(es.len() as int, entry_lines(g, es, reach))
    }
}

fn heading(entries: &Vec<EntryPoint>, i: usize) -> (r: String)
    requires
        i < entries@.len(),
    ensures
        r@ == said_if(i > 0, "\n"@) + entry_title_text(entries@[i as int].kind) + " ("@ + decimal(
            kind_count(entries@, entries@[i as int].kind),
        ) + ")\n"@,
{
    let kind = entries[i].kind;
    let mut s = String::new();
    assert(s@ =~= Seq::empty());
    if i > 0 {
        s.append("\n");
        assert(s@ =~= "\n"@);
    }
    s.append(entry_title(kind));
    s.append(" (");
    add_count(&mut s, count_kind(entries, kind));
    s.append(")\n");
    s
}

/// The entry points, grouped by kind; `reach[i]`, where given, is the number of
/// functions that `entries[i]` reaches.
pub fn format_entries(
    graph: &CodeGraph,
    entries: &Vec<EntryPoint>,
    reach: &Vec<Option<usize>>,
) -> (r: String)
    requires
        forall|i: int| 0 <= i < entries@.len() ==> graph@.has((#[trigger] entries@[i]).id),
    ensures
        r@ == entries_text(graph@, entries@, reach@),
{
    if entries.len() == 0 {
        return "no entry points found\n".to_owned();
    }
    let ghost g = graph@;
    let ghost f = entry_lines(g, entries@, reach@);
    let mut s = String::new();
    assert(s@ =~= Seq::empty());
    let mut i: usize = 0;
    while i < entries.len()
        invariant
            g == graph@,
            f == entry_lines(g, entries@, reach@),
            i <= entries@.len(),
            forall|i: int| 0 <= i < entries@.len() ==> g.has((#[trigger] entries@[i]).id),
            s@ == gather(i as int, f),
        decreases entries@.len() - i,
    {
        let ghost before = s@;
        let e = entries[i];
        let mut line = if i == 0 || entries[i - 1].kind != e.kind {
            heading(entries, i)
        } else {
            String::new()
        };
        assert(i > 0 && entries@[i - 1].kind == e.kind ==> line@ =~= Seq::empty());
        line.append("  ");
        line.append(graph.node(e.id).qualified_name.as_str());
        line.append("   [");
        line.append(location(graph, e.id).as_str());
        line.append("]");
        let ghost mid = line@;
        let n: Option<usize> = if i < reach.len() {
            reach[i]
        } else {
            None
        };
        match n {
            Some(n) => {
                let mut t = concat2("   reaches ", decimal_text(n as u64).as_str());
                t.append(" fn");
                line.append(t.as_str());
            },
            None => {
                assert(mid + Seq::empty() =~= mid);
            },
        }
        line.append("\n");
        s.append(line.as_str());
        assert(s@ =~= before + f(i as int));
        i += 1;
    }
    s
}

/// One row of a list of entry points.
#[derive(Debug)]
pub struct EntryRow {
    pub qualified_name: String,
    pub name: String,
    pub kind: &'static str,
    pub location: String,
    pub reach: Option<usize>,
}

impl EntryRow {
    /// The row of the `i`-th entry point.
    pub open spec fn shows(
        self,
        g: GraphModel,
        es: Seq<EntryPoint>,
        reach: Seq<Option<usize>>,
        i: int,
    ) -> bool {
        let n = g.node(es[i].id);
        &&& self.qualified_name@ == n.qualified_name
        &&& self.name@ == n.name
        &&& self.kind@ == es[i].kind.text()
        &&& self.location@ == location_of(g, n)
        &&& self.reach == reach_at(reach, i)
    }
}

/// The rows of a list of entry points.
pub fn entry_rows(
    graph: &CodeGraph,
    entries: &Vec<EntryPoint>,
    reach: &Vec<Option<usize>>,
) -> (r: Vec<EntryRow>)
    requires
        forall|i: int| 0 <= i < entries@.len() ==> graph@.has((#[trigger] entries@[i]).id),
    ensures
        r@.len() == entries@.len(),
        forall|i: int|
            0 <= i < r@.len() ==> (#[trigger] r@[i]).shows(graph@, entries@, reach@, i),
{
    let mut out: Vec<EntryRow> = Vec::new();
    let mut i: usize = 0;
    while i < entries.len()
        invariant
            i <= entries@.len(),
            forall|i: int| 0 <= i < entries@.len() ==> graph@.has((#[trigger] entries@[i]).id),
            out@.len() == i,
            forall|j: int|
                0 <= j < i ==> (#[trigger] out@[j]).shows(graph@, entries@, reach@, j),
        decreases entries@.len() - i,
    {
        let e = entries[i];
        let n = graph.node(e.id);
        let row = EntryRow {
            qualified_name: n.qualified_name.clone(),
            name: n.name.clone(),
            kind: e.kind.as_str(),
            location: location(graph, e.id),
            reach: if i < reach.len() {
                reach[i]
            } else {
                None
            },
        };
        out.push(row);
        i += 1;
    }
    out
}

// -- call trees -----------------------------------------------------------------------

/// All symbols of a tree are nodes of the graph.
pub open spec fn tree_known(t: TreeModel, g: GraphModel) -> bool
    decreases t, 0nat,
{
    g.has(t.id) && trees_known(t.children, t.children.len(), g)
}

/// All symbols of the first `k` trees are nodes of the graph.
pub open spec fn trees_known(ts: Seq<TreeModel>, k: nat, g: GraphModel) -> bool
    decreases ts, k,
{
    k > 0 && k <= ts.len() ==> trees_known(ts, (k - 1) as nat, g) && tree_known(ts[k - 1], g)
}

pub proof fn lemma_tree_known_at(ts: Seq<TreeModel>, k: nat, g: GraphModel, i: int)
    requires
        trees_known(ts, k, g),
        0 <= i < k <= ts.len(),
    ensures
        tree_known(ts[i], g),
    decreases k,
{
    if i < k - 1 {
        lemma_tree_known_at(ts, (k - 1) as nat, g, i);
    }
}

pub open spec fn tree_models(ts: Seq<CallTreeNode>) -> Seq<TreeModel> {
    ts.map_values(|t: CallTreeNode| tree_model(t))
}

pub open spec fn arrow_text(dir: Direction) -> Seq<char> {
    match dir {
        Direction::Callees => "→ "@,
        Direction::Callers => "← "@,
    }
}

/// The line of a symbol.
pub open spec fn call_line(t: TreeModel, g: GraphModel, dir: Direction) -> Seq<char> {
    let n = g.node(t.id);
    arrow_text(dir) + n.qualified_name + said_if(n.kind == NodeKind::External, "  (external)"@)
        + said_if(t.repeat, "  ↺"@) + "   ["@ + location_of(g, n) + "]\n"@
}

/// How many children are left out.
pub open spec fn more_line(prefix: Seq<char>, truncated: nat) -> Seq<char> {
    said_if(truncated > 0, prefix + "└── … "@ + decimal(truncated) + " more\n"@)
}

/// A symbol and what stands under it.
pub open spec fn call_text(
    t: TreeModel,
    g: GraphModel,
    prefix: Seq<char>,
    last: bool,
    dir: Direction,
) -> Seq<char>
    decreases t, 0nat,
{
    prefix + connector(last) + call_line(t, g, dir) + branches_text(
        t.children,
        t.children.len(),
        t.truncated,
        g,
        deeper(prefix, last),
        dir,
    ) + more_line(deeper(prefix, last), t.truncated)
}

/// The first `k` children with what stands under them. The last of all children is
/// the last row unless some are left out.
pub open spec fn branches_text(
    ts: Seq<TreeModel>,
    k: nat,
    truncated: nat,
    g: GraphModel,
    prefix: Seq<char>,
    dir: Direction,
) -> Seq<char>
    decreases ts, k,
{
    if k == 0 || k > ts.len() {
        Seq::empty()
    } else {
        branches_text(ts, (k - 1) as nat, truncated, g, prefix, dir) + call_text(
            ts[k - 1],
            g,
            prefix,
            k == ts.len() && truncated == 0,
            dir,
        )
    }
}

/// A bounded call tree.
pub open spec fn tree_text(t: TreeModel, g: GraphModel, dir: Direction) -> Seq<char> {
    let n = g.node(t.id);
    (match dir {
        Direction::Callees => "calls from "@,
        Direction::Callers => "callers of "@,
    }) + n.qualified_name + "   ["@ + location_of(g, n) + "]\n"@ + branches_text(
        t.children,
        t.children.len(),
        t.truncated,
        g,
        ""@,
        dir,
    ) + more_line(""@, t.truncated)
}

fn call_line_text(node: &CallTreeNode, graph: &CodeGraph, dir: Direction) -> (r: String)
    requires
        graph@.has(node.id),
    ensures
        r@ == call_line(tree_model(*node), graph@, dir),
{
    let n = graph.node(node.id);
    let mut s = concat2(
        match dir {
            Direction::Callees => "→ ",
            Direction::Callers => "← ",
        },
        n.qualified_name.as_str(),
    );
    let ghost s0 = s@;
    if n.kind == NodeKind::External {
        s.append("  (external)");
    } else {
        assert(s0 + Seq::empty() =~= s0);
    }
    let ghost s1 = s@;
    if node.repeat {
        s.append("  ↺");
    } else {
        assert(s1 + Seq::empty() =~= s1);
    }
    s.append("   [");
    s.append(location(graph, node.id).as_str());
    s.append("]\n");
    s
}

fn more_text(prefix: &str, truncated: usize) -> (r: String)
    ensures
        r@ == more_line(prefix@, truncated as nat),
{
    if truncated > 0 {
        let mut s = concat2(prefix, "└── … ");
        add_count(&mut s, truncated);
        s.append(" more\n");
        s
    } else {
        let s = String::new();
        assert(s@ =~= Seq::empty());
        s
    }
}

fn write_branches(
    nodes: &Vec<CallTreeNode>,
    truncated: usize,
    graph: &CodeGraph,
    prefix: &str,
    dir: Direction,
) -> (r: String)
    requires
        trees_known(tree_models(nodes@), nodes@.len(), graph@),
    ensures
        r@ == branches_text(
            tree_models(nodes@),
            nodes@.len(),
            truncated as nat,
            graph@,
            prefix@,
            dir,
        ),
    decreases nodes,
{
    let ghost ts = tree_models(nodes@);
    let ghost g = graph@;
    let mut s = String::new();
    assert(s@ =~= Seq::empty());
    let n: usize = nodes.len();
    let mut i: usize = 0;
    while i < n
        invariant
            g == graph@,
            ts == tree_models(nodes@),
            trees_known(ts, nodes@.len(), g),
            i <= n == nodes@.len(),
            s@ == branches_text(ts, i as nat, truncated as nat, g, prefix@, dir),
        decreases n - i,
    {
        assert(ts[i as int] == tree_model(nodes@[i as int]));
        proof {
            lemma_tree_known_at(ts, nodes@.len(), g, i as int);
        }
        let last = i + 1 == n && truncated == 0;
        s.append(write_call_node(&nodes[i], graph, prefix, last, dir).as_str());
        assert(s@ == branches_text(ts, (i + 1) as nat, truncated as nat, g, prefix@, dir));
        i += 1;
    }
    s
}

fn write_call_node(
    node: &CallTreeNode,
    graph: &CodeGraph,
    prefix: &str,
    last: bool,
    dir: Direction,
) -> (r: String)
    requires
        tree_known(tree_model(*node), graph@),
    ensures
        r@ == call_text(tree_model(*node), graph@, prefix@, last, dir),
    decreases node,
{
    let ghost t = tree_model(*node);
    proof {
        assert(t.children =~= tree_models(node.children@));
    }
    let mut s = concat2(prefix, connector_str(last));
    s.append(call_line_text(node, graph, dir).as_str());
    let inner = deeper_text(prefix, last);
    s.append(
        write_branches(&node.children, node.truncated, graph, inner.as_str(), dir).as_str(),
    );
    s.append(more_text(inner.as_str(), node.truncated).as_str());
    s
}

/// A bounded call tree, drawn with lines.
pub fn format_call_tree(graph: &CodeGraph, tree: &CallTreeNode, dir: Direction) -> (r: String)
    requires
        tree_known(tree_model(*tree), graph@),
    ensures
        r@ == tree_text(tree_model(*tree), graph@, dir),
{
    let ghost t = tree_model(*tree);
    proof {
        assert(t.children =~= tree_models(tree.children@));
    }
    let root = graph.node(tree.id);
    let mut s = concat2(
        match dir {
            Direction::Callees => "calls from ",
            Direction::Callers => "callers of ",
        },
        root.qualified_name.as_str(),
    );
    s.append("   [");
    s.append(location(graph, tree.id).as_str());
    s.append("]\n");
    s.append(write_branches(&tree.children, tree.truncated, graph, "", dir).as_str());
    s.append(more_text("", tree.truncated).as_str());
    s
}

// -- laws -----------------------------------------------------------------------------

proof fn lemma_rows_known(ts: Seq<RowModel>, k: nat, g: GraphModel)
    requires
        k <= ts.len(),
        forall|i: int| 0 <= i < k ==> row_known(#[trigger] ts[i], g),
    ensures
        rows_known(ts, k, g),
    decreases k,
{
    if k > 0 {
        lemma_rows_known(ts, (k - 1) as nat, g);
        assert(row_known(ts[k - 1], g));
    }
}

/// The numbers of the list are nodes.
spec fn are_nodes(g: GraphModel, items: Seq<int>) -> bool {
    forall|k: int| 0 <= k < items.len() ==> 0 <= #[trigger] items[k] < g.nodes.len()
}

proof fn lemma_scope_known(
    g: GraphModel,
    items: Seq<int>,
    d: nat,
    label: Seq<char>,
    path: Seq<char>,
    id: int,
)
    requires
        g.wf(),
        are_nodes(g, items),
    ensures
        row_known(scope_model(g, items, d, label, path, id), g),
    decreases u32::MAX - d, 1nat, 0nat,
{
    lemma_body_known(g, items, d, Some(path), id + 1);
    assert(scope_model(g, items, d, label, path, id).children == body_models(
        g,
        items,
        d,
        Some(path),
        id + 1,
    ));
}

proof fn lemma_body_known(
    g: GraphModel,
    items: Seq<int>,
    d: nat,
    path: Option<Seq<char>>,
    id: int,
)
    requires
        g.wf(),
        are_nodes(g, items),
    ensures
        rows_known(
            body_models(g, items, d, path, id),
            body_models(g, items, d, path, id).len(),
            g,
        ),
    decreases u32::MAX - d, 0nat, items.len() + 1,
{
    let ls = scopes(g, d, items);
    let inner = scope_models(g, items, ls, d, path, id);
    lemma_scopes_known(g, items, ls, d, path, id);
    let found = direct(g, d, items);
    let keys = found.map_values(|i: int| source_key(g, i));
    let own = in_source_order(g, found);
    lemma_filter_has(items, |i: int| scope_at(g, d)(i) is None);
    lemma_arrange_has(found, keys);
    let leaves = leaf_models(g, own, d as int, id + listings(inner).len());
    let all = inner + leaves;
    assert forall|i: int| 0 <= i < all.len() implies row_known(#[trigger] all[i], g) by {
        if i < inner.len() {
            lemma_known_at(inner, inner.len(), g, i);
        } else {
            let k = i - inner.len();
            assert(own.contains(own[k]));
            assert(found.contains(own[k]));
            assert(items.contains(own[k]));
            let j = items.index_of(own[k]);
            assert(0 <= items[j] < g.nodes.len());
            assert(all[i] == leaf_model(
                g,
                own[k],
                d as int,
                id + listings(inner).len() + k,
            ));
            assert(rows_known(all[i].children, 0, g));
        }
    }
    lemma_rows_known(all, all.len(), g);
}

proof fn lemma_scopes_known(
    g: GraphModel,
    items: Seq<int>,
    ls: Seq<Seq<char>>,
    d: nat,
    path: Option<Seq<char>>,
    id: int,
)
    requires
        g.wf(),
        are_nodes(g, items),
    ensures
        rows_known(
            scope_models(g, items, ls, d, path, id),
            scope_models(g, items, ls, d, path, id).len(),
            g,
        ),
    decreases u32::MAX - d, 0nat, 0nat, ls.len(),
{
    if ls.len() > 0 && d < u32::MAX {
        lemma_scopes_known(g, items, ls.drop_last(), d, path, id);
        let front = scope_models(g, items, ls.drop_last(), d, path, id);
        let l = ls.last();
        let next = id + listings(front).len();
        let held = inside(g, d, items, l);
        lemma_filter_has(items, |i: int| scope_at(g, d)(i) == Some(l));
        assert forall|k: int| 0 <= k < held.len() implies 0 <= #[trigger] held[k]
            < g.nodes.len() by {
            assert(held.contains(held[k]));
            let j = items.index_of(held[k]);
            assert(0 <= items[j] < g.nodes.len());
        }
        lemma_scope_known(g, held, d + 1, l, scope_path(path, l), next);
        let t = scope_model(g, held, d + 1, l, scope_path(path, l), next);
        let all = front.push(t);
        assert forall|i: int| 0 <= i < all.len() implies row_known(#[trigger] all[i], g) by {
            if i < front.len() {
                lemma_known_at(front, front.len(), g, i);
            }
        }
        lemma_rows_known(all, all.len(), g);
    }
}

/// Every function of the outline of a graph is a node of the graph, so the outline can
/// be shown.
pub proof fn law_outline_can_be_shown(g: GraphModel)
    requires
        g.wf(),
    ensures
        rows_known(outline_models(g), outline_models(g).len(), g),
{
    lemma_positions(g.nodes.len() as int, is_def(g));
    lemma_body_known(g, definitions(g), 0, None, 0);
}

proof fn lemma_kept_known(t: RowModel, q: Seq<char>, g: GraphModel)
    requires
        row_known(t, g),
    ensures
        kept(t, q) matches Some(k) ==> row_known(k, g),
    decreases t,
{
    if t.kind == OutlineKind::Scope {
        assert forall|i: int| 0 <= i < t.children.len() implies row_known(
            #[trigger] t.children[i],
            g,
        ) by {
            lemma_known_at(t.children, t.children.len(), g, i);
        }
        lemma_kept_all_known(t.children, q, g);
        let left = kept_all(t.children, q);
        lemma_rows_known(left, left.len(), g);
    }
}

proof fn lemma_kept_all_known(ts: Seq<RowModel>, q: Seq<char>, g: GraphModel)
    requires
        forall|i: int| 0 <= i < ts.len() ==> row_known(#[trigger] ts[i], g),
    ensures
        forall|i: int|
            0 <= i < kept_all(ts, q).len() ==> row_known(#[trigger] kept_all(ts, q)[i], g),
    decreases ts,
{
    if ts.len() > 0 {
        let front = ts.drop_last();
        assert forall|i: int| 0 <= i < front.len() implies row_known(#[trigger] front[i], g) by {
            assert(front[i] == ts[i]);
        }
        lemma_kept_all_known(front, q, g);
        assert(row_known(ts[ts.len() - 1], g));
        lemma_kept_known(ts.last(), q, g);
        let before = kept_all(front, q);
        let all = kept_all(ts, q);
        assert forall|i: int| 0 <= i < all.len() implies row_known(#[trigger] all[i], g) by {
            if i < before.len() {
                assert(all[i] == before[i]);
            }
        }
    }
}

/// What is left of an outline that can be shown can be shown.
pub proof fn law_pruned_outline_can_be_shown(ts: Seq<RowModel>, q: Seq<char>, g: GraphModel)
    requires
        rows_known(ts, ts.len(), g),
    ensures
        rows_known(kept_all(ts, q), kept_all(ts, q).len(), g),
{
    assert forall|i: int| 0 <= i < ts.len() implies row_known(#[trigger] ts[i], g) by {
        lemma_known_at(ts, ts.len(), g, i);
    }
    lemma_kept_all_known(ts, q, g);
    lemma_rows_known(kept_all(ts, q), kept_all(ts, q).len(), g);
}

/// Every occurrence in a call tree is a node of the graph.
proof fn lemma_level_known(g: GraphModel, root: NodeId, opts: CallTreeOptions, k: nat)
    requires
        g.wf(),
        g.has(root),
    ensures
        forall|i: int|
            0 <= i < level(g, root, opts, k).len() ==> g.has(#[trigger] level(g, root, opts, k)[i]),
    decreases k,
{
    if k > 0 {
        let up = (k - 1) as nat;
        let n = level(g, root, opts, up).len();
        lemma_offspring_known(g, root, opts, up, n);
        assert(level(g, root, opts, k) == offspring(g, root, opts, up, n));
    }
}

proof fn lemma_offspring_known(
    g: GraphModel,
    root: NodeId,
    opts: CallTreeOptions,
    k: nat,
    n: nat,
)
    requires
        g.wf(),
    ensures
        forall|i: int|
            0 <= i < offspring(g, root, opts, k, n).len() ==> g.has(
                #[trigger] offspring(g, root, opts, k, n)[i],
            ),
    decreases n,
{
    if n > 0 {
        lemma_offspring_known(g, root, opts, k, (n - 1) as nat);
        let front = offspring(g, root, opts, k, (n - 1) as nat);
        let id = level(g, root, opts, k)[n - 1];
        let calls = shown_calls(g, opts, id);
        let all = kid_calls(g, opts.direction, id);
        let keep = |c: (NodeId, u32)|
            opts.include_external || g.node(c.0).kind != NodeKind::External;
        lemma_kid_calls_has(g, opts.direction, id);
        lemma_filter_has(all, keep);
        lemma_arrange_has(calls, kid_keys(g, calls));
        let sorted = arrange(calls, kid_keys(g, calls));
        let ids = sorted.map_values(|c: (NodeId, u32)| c.0);
        lemma_joined(Seq::empty(), ids);
        let b = branch(g, root, opts, k, n - 1);
        assert forall|i: int| 0 <= i < b.len() implies g.has(#[trigger] b[i]) by {
            assert(kids(g, opts, id).contains(b[i])) by {
                assert(kids(g, opts, id)[i] == b[i]);
            }
            assert(ids.contains(b[i]));
            let j = ids.index_of(b[i]);
            assert(sorted.contains(sorted[j]));
            assert(all.contains(sorted[j]));
            let x = all.index_of(sorted[j]);
            assert(g.has(all[x].0));
        }
        assert forall|i: int| 0 <= i < (front + b).len() implies g.has(
            #[trigger] (front + b)[i],
        ) by {
            if i >= front.len() {
                assert((front + b)[i] == b[i - front.len()]);
            }
        }
    }
}

proof fn lemma_trees_known(ts: Seq<TreeModel>, k: nat, g: GraphModel)
    requires
        k <= ts.len(),
        forall|i: int| 0 <= i < k ==> tree_known(#[trigger] ts[i], g),
    ensures
        trees_known(ts, k, g),
    decreases k,
{
    if k > 0 {
        lemma_trees_known(ts, (k - 1) as nat, g);
        assert(tree_known(ts[k - 1], g));
    }
}

proof fn lemma_tree_at_known(
    g: GraphModel,
    root: NodeId,
    opts: CallTreeOptions,
    k: nat,
    i: int,
)
    requires
        g.wf(),
        g.has(root),
        k <= opts.max_depth,
        0 <= i < level(g, root, opts, k).len(),
    ensures
        tree_known(tree_at(g, root, opts, k, i), g),
    decreases opts.max_depth - k,
{
    let t = tree_at(g, root, opts, k, i);
    lemma_level_known(g, root, opts, k);
    assert(g.has(t.id));
    assert forall|j: int| 0 <= j < t.children.len() implies tree_known(
        #[trigger] t.children[j],
        g,
    ) by {
        let first = offspring(g, root, opts, k, i as nat).len();
        let n = level(g, root, opts, k).len();
        lemma_offspring_monotone(g, root, opts, k, (i + 1) as nat, n);
        assert(offspring(g, root, opts, k, (i + 1) as nat).len() == first + branch(
            g,
            root,
            opts,
            k,
            i,
        ).len());
        assert(level(g, root, opts, k + 1) == offspring(g, root, opts, k, n));
        lemma_tree_at_known(g, root, opts, k + 1, first + j);
        assert(t.children[j] == tree_at(g, root, opts, k + 1, first + j));
    }
    lemma_trees_known(t.children, t.children.len(), g);
}

/// Every symbol of the call tree of a node is a node of the graph, so the tree can be
/// shown.
pub proof fn law_call_tree_can_be_shown(g: GraphModel, root: NodeId, opts: CallTreeOptions)
    requires
        g.wf(),
        g.has(root),
    ensures
        tree_known(tree_at(g, root, opts, 0, 0), g),
{
    lemma_tree_at_known(g, root, opts, 0, 0);
}

} // verus!
