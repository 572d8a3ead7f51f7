//! Exports: Graphviz DOT, GraphML and a summary for people.

use crate::card::{edge_kind_str, edge_kind_text, kind_str, kind_text};
use crate::diagnostic::{Diagnostic, DiagnosticModel};
use crate::graph::{all_ids, edge_of, CodeGraph, EdgeExport, GraphModel, NodeKind};
use crate::ids::{node_label, NodeId};
use crate::lenses::defined;
use crate::metrics::{caller_count, count_callers};
use crate::order::{
    arrange, arranged, descending, key_views, lemma_arrange_has, rank_key, KeyModel, SortKey,
};
use crate::nav::least;
use crate::report::{external_count, high_count, AnalysisReport, ReportModel};
use crate::seqs::{gather, lemma_filter_has, lemma_gather_has, lemma_tally_bound, views_of};
use crate::suggestion::{Suggestion, SuggestionModel};
use crate::text::{chars_of, concat2, decimal, decimal_text};
use vstd::prelude::*;

verus! {

// -- escapes --------------------------------------------------------------------------

/// How a character stands in a quoted DOT string.
pub open spec fn dot_char(c: char) -> Seq<char> {
    if c == '\\' {
        "\\\\"@
    } else if c == '"' {
        "\\\""@
    } else if c == '\n' {
        " "@
    } else {
        seq![c]
    }
}

/// A text as it stands in a quoted DOT string.
pub open spec fn dot_escaped(s: Seq<char>) -> Seq<char> {
    gather(s.len() as int, |i: int| dot_char(s[i]))
}

/// A text as it stands in a quoted DOT string.
pub fn dot_escape(s: &str) -> (r: String)
    ensures
        r@ == dot_escaped(s@),
{
    let cs = chars_of(s);
    let ghost f = |i: int| dot_char(s@[i]);
    let mut out = String::new();
    assert(out@ =~= Seq::empty());
    let mut i: usize = 0;
    while i < cs.len()
        invariant
            i <= cs@.len(),
            cs@ == s@,
            f == (|i: int| dot_char(s@[i])),
            out@ == gather(i as int, f),
        decreases cs@.len() - i,
    {
        let ghost before = out@;
        let c = cs[i];
        if c == '\\' {
            out.append("\\\\");
        } else if c == '"' {
            out.append("\\\"");
        } else if c == '\n' {
            out.append(" ");
        } else {
            out.push(c);
        }
        assert(out@ =~= before + f(i as int));
        i += 1;
    }
    out
}

/// How a character stands in XML.
pub open spec fn xml_char(c: char) -> Seq<char> {
    if c == '&' {
        "&amp;"@
    } else if c == '<' {
        "&lt;"@
    } else if c == '>' {
        "&gt;"@
    } else if c == '"' {
        "&quot;"@
    } else if c == '\'' {
        "&apos;"@
    } else {
        seq![c]
    }
}

/// A text as it stands in XML.
pub open spec fn xml_escaped(s: Seq<char>) -> Seq<char> {
    gather(s.len() as int, |i: int| xml_char(s[i]))
}

/// A text as it stands in XML.
pub fn xml_escape(s: &str) -> (r: String)
    ensures
        r@ == xml_escaped(s@),
{
    let cs = chars_of(s);
    let ghost f = |i: int| xml_char(s@[i]);
    let mut out = String::new();
    assert(out@ =~= Seq::empty());
    let mut i: usize = 0;
    while i < cs.len()
        invariant
            i <= cs@.len(),
            cs@ == s@,
            f == (|i: int| xml_char(s@[i])),
            out@ == gather(i as int, f),
        decreases cs@.len() - i,
    {
        let ghost before = out@;
        let c = cs[i];
        if c == '&' {
            out.append("&amp;");
        } else if c == '<' {
            out.append("&lt;");
        } else if c == '>' {
            out.append("&gt;");
        } else if c == '"' {
            out.append("&quot;");
        } else if c == '\'' {
            out.append("&apos;");
        } else {
            out.push(c);
        }
        assert(out@ =~= before + f(i as int));
        i += 1;
    }
    out
}

/// An escaped text holds no character that ends or opens markup, so it can stand
/// between tags and between quotes.
pub proof fn law_xml_escape_leaves_no_markup(s: Seq<char>)
    ensures
        !xml_escaped(s).contains('<'),
        !xml_escaped(s).contains('>'),
        !xml_escaped(s).contains('"'),
        !xml_escaped(s).contains('\''),
{
    reveal_strlit("&amp;");
    reveal_strlit("&lt;");
    reveal_strlit("&gt;");
    reveal_strlit("&quot;");
    reveal_strlit("&apos;");
    let f = |i: int| xml_char(s[i]);
    let n = s.len() as int;
    lemma_gather_has(n, f, '<');
    lemma_gather_has(n, f, '>');
    lemma_gather_has(n, f, '"');
    lemma_gather_has(n, f, '\'');
    assert forall|i: int| 0 <= i < n implies !(#[trigger] f(i)).contains('<') && !f(i).contains('>')
        && !f(i).contains('"') && !f(i).contains('\'') by {
        lemma_xml_char(s[i]);
    }
}

proof fn lemma_xml_char(c: char)
    ensures
        !xml_char(c).contains('<'),
        !xml_char(c).contains('>'),
        !xml_char(c).contains('"'),
        !xml_char(c).contains('\''),
{
    reveal_strlit("&amp;");
    reveal_strlit("&lt;");
    reveal_strlit("&gt;");
    reveal_strlit("&quot;");
    reveal_strlit("&apos;");
}

/// An escaped text holds no line feed, and every quote in it is escaped, so it stays
/// within its quotes.
pub proof fn law_dot_escape_stays_quoted(s: Seq<char>)
    ensures
        !dot_escaped(s).contains('\n'),
        forall|i: int|
            0 <= i < dot_escaped(s).len() && #[trigger] dot_escaped(s)[i] == '"' ==> i > 0
                && dot_escaped(s)[i - 1] == '\\',
    decreases s.len(),
{
    reveal_strlit("\\\\");
    reveal_strlit("\\\"");
    reveal_strlit(" ");
    let f = |i: int| dot_char(s[i]);
    if s.len() > 0 {
        let rest = s.drop_last();
        let g = |i: int| dot_char(rest[i]);
        law_dot_escape_stays_quoted(rest);
        lemma_gather_same(rest.len() as int, f, g);
        let front = dot_escaped(rest);
        let all = dot_escaped(s);
        let last = dot_char(s.last());
        assert(all == front + last);
        if all.contains('\n') {
            let k = all.index_of('\n');
            if k < front.len() {
                assert(front.contains(front[k]));
            } else {
                assert(last[k - front.len()] == '\n');
            }
        }
        assert forall|i: int| 0 <= i < all.len() && #[trigger] all[i] == '"' implies i > 0 && all[i
            - 1] == '\\' by {
            if i < front.len() {
                assert(front[i] == '"');
                assert(front[i - 1] == '\\');
            } else {
                assert(last[i - front.len()] == '"');
            }
        }
    }
}

proof fn lemma_gather_same(n: int, f: spec_fn(int) -> Seq<char>, g: spec_fn(int) -> Seq<char>)
    requires
        forall|i: int| 0 <= i < n ==> #[trigger] f(i) == g(i),
    ensures
        gather(n, f) == gather(n, g),
    decreases n,
{
    if n > 0 {
        lemma_gather_same(n - 1, f, g);
        assert(f(n - 1) == g(n - 1));
    }
}

// -- DOT ------------------------------------------------------------------------------

/// The line of a node: placeholders are dashed, complex definitions red.
pub open spec fn dot_node(g: GraphModel) -> spec_fn(int) -> Seq<char> {
    |i: int|
        {
            let n = g.nodes[i];
            "  "@ + node_label(n.id) + " [label=\""@ + dot_escaped(n.name) + "\", tooltip=\""@
                + dot_escaped(n.qualified_name) + "\""@ + (if n.kind == NodeKind::External {
                ", style=dashed, color=gray"@
            } else if n.complexity() > 10 {
                ", color=red"@
            } else {
                ""@
            }) + "];\n"@
        }
}

/// The line of a call.
pub open spec fn dot_edge(g: GraphModel) -> spec_fn(int) -> Seq<char> {
    |i: int|
        {
            let e = g.edges[i];
            "  "@ + node_label(e.from) + " -> "@ + node_label(e.to) + " [label=\""@
                + edge_kind_text(e.kind) + "\"];\n"@
        }
}

/// The graph as Graphviz DOT.
pub open spec fn dot_text(g: GraphModel) -> Seq<char> {
    "digraph livewalk {\n  rankdir=LR;\n  node [shape=box, fontname=\"monospace\"];\n"@ + gather(
        g.nodes.len() as int,
        dot_node(g),
    ) + gather(g.edges.len() as int, dot_edge(g)) + "}\n"@
}

fn dot_nodes(graph: &CodeGraph) -> (r: String)
    requires
        graph.wf(),
    ensures
        r@ == gather(graph@.nodes.len() as int, dot_node(graph@)),
{
    let ghost g = graph@;
    let ghost f = dot_node(g);
    let n: usize = graph.node_count();
    let mut out = String::new();
    let mut i: usize = 0;
    proof {
        graph.lemma_wf();
        assert(out@ =~= Seq::empty());
    }
    while i < n
        invariant
            g == graph@,
            g.wf(),
            f == dot_node(g),
            i <= n == g.nodes.len(),
            out@ == gather(i as int, f),
        decreases n - i,
    {
        let node = graph.nodes_at(i);
        assert(g.nodes[i as int].valid());
        let mut line = concat2("  ", node.id.label().as_str());
        line.append(" [label=\"");
        line.append(dot_escape(node.name.as_str()).as_str());
        line.append("\", tooltip=\"");
        line.append(dot_escape(node.qualified_name.as_str()).as_str());
        line.append("\"");
        line.append(
            if node.kind == NodeKind::External {
                ", style=dashed, color=gray"
            } else if node.cyclomatic_complexity() > 10 {
                ", color=red"
            } else {
                ""
            },
        );
        line.append("];\n");
        out.append(line.as_str());
        i += 1;
    }
    out
}

fn dot_edges(graph: &CodeGraph) -> (r: String)
    requires
        graph.wf(),
    ensures
        r@ == gather(graph@.edges.len() as int, dot_edge(graph@)),
{
    let ghost g = graph@;
    let ghost f = dot_edge(g);
    let edges = graph.edges();
    let mut out = String::new();
    let mut i: usize = 0;
    assert(out@ =~= Seq::empty());
    while i < edges.len()
        invariant
            g == graph@,
            f == dot_edge(g),
            edges@ == g.edges.map_values(|e: EdgeExport| (e.from, e.to, edge_of(e))),
            i <= edges@.len(),
            out@ == gather(i as int, f),
        decreases edges@.len() - i,
    {
        let mut line = concat2("  ", edges[i].0.label().as_str());
        line.append(" -> ");
        line.append(edges[i].1.label().as_str());
        line.append(" [label=\"");
        line.append(edge_kind_str(edges[i].2.kind));
        line.append("\"];\n");
        out.append(line.as_str());
        i += 1;
    }
    out
}

/// The graph as Graphviz DOT.
pub fn export_dot(graph: &CodeGraph) -> (r: String)
    requires
        graph.wf(),
    ensures
        r@ == dot_text(graph@),
{
    let mut out = concat2(
        "digraph livewalk {\n  rankdir=LR;\n  node [shape=box, fontname=\"monospace\"];\n",
        dot_nodes(graph).as_str(),
    );
    out.append(dot_edges(graph).as_str());
    out.append("}\n");
    out
}

// -- GraphML --------------------------------------------------------------------------

/// The declarations before the graph.
pub open spec fn graphml_head() -> Seq<char> {
    "<?xml version=\"1.0\" encoding=\"UTF-8\"?>\n<graphml xmlns=\"http://graphml.graphdrawing.org/xmlns\">\n  <key id=\"name\" for=\"node\" attr.name=\"name\" attr.type=\"string\"/>\n  <key id=\"qname\" for=\"node\" attr.name=\"qualified_name\" attr.type=\"string\"/>\n  <key id=\"kind\" for=\"node\" attr.name=\"kind\" attr.type=\"string\"/>\n  <key id=\"cc\" for=\"node\" attr.name=\"cyclomatic\" attr.type=\"int\"/>\n  <key id=\"ekind\" for=\"edge\" attr.name=\"kind\" attr.type=\"string\"/>\n  <graph id=\"G\" edgedefault=\"directed\">\n"@
}

/// The element of a node.
pub open spec fn graphml_node(g: GraphModel) -> spec_fn(int) -> Seq<char> {
    |i: int|
        {
            let n = g.nodes[i];
            "    <node id=\""@ + node_label(n.id) + "\">\n      <data key=\"name\">"@ + xml_escaped(
                n.name,
            ) + "</data>\n      <data key=\"qname\">"@ + xml_escaped(n.qualified_name)
                + "</data>\n      <data key=\"kind\">"@ + kind_text(n.kind)
                + "</data>\n      <data key=\"cc\">"@ + decimal(n.complexity() as nat)
                + "</data>\n    </node>\n"@
        }
}

/// The element of a call.
pub open spec fn graphml_edge(g: GraphModel) -> spec_fn(int) -> Seq<char> {
    |i: int|
        {
            let e = g.edges[i];
            "    <edge id=\"e"@ + decimal(i as nat) + "\" source=\""@ + node_label(e.from)
                + "\" target=\""@ + node_label(e.to) + "\"><data key=\"ekind\">"@ + edge_kind_text(
                e.kind,
            ) + "</data></edge>\n"@
        }
}

/// The graph as GraphML.
pub open spec fn graphml_text(g: GraphModel) -> Seq<char> {
    graphml_head() + gather(g.nodes.len() as int, graphml_node(g)) + gather(
        g.edges.len() as int,
        graphml_edge(g),
    ) + "  </graph>\n</graphml>\n"@
}

fn graphml_nodes(graph: &CodeGraph) -> (r: String)
    requires
        graph.wf(),
    ensures
        r@ == gather(graph@.nodes.len() as int, graphml_node(graph@)),
{
    let ghost g = graph@;
    let ghost f = graphml_node(g);
    let n: usize = graph.node_count();
    let mut out = String::new();
    let mut i: usize = 0;
    proof {
        graph.lemma_wf();
        assert(out@ =~= Seq::empty());
    }
    while i < n
        invariant
            g == graph@,
            g.wf(),
            f == graphml_node(g),
            i <= n == g.nodes.len(),
            out@ == gather(i as int, f),
        decreases n - i,
    {
        let node = graph.nodes_at(i);
        assert(g.nodes[i as int].valid());
        let mut line = concat2("    <node id=\"", node.id.label().as_str());
        line.append("\">\n      <data key=\"name\">");
        line.append(xml_escape(node.name.as_str()).as_str());
        line.append("</data>\n      <data key=\"qname\">");
        line.append(xml_escape(node.qualified_name.as_str()).as_str());
        line.append("</data>\n      <data key=\"kind\">");
        line.append(kind_str(node.kind));
        line.append("</data>\n      <data key=\"cc\">");
        line.append(decimal_text(node.cyclomatic_complexity() as u64).as_str());
        line.append("</data>\n    </node>\n");
        out.append(line.as_str());
        i += 1;
    }
    out
}

fn graphml_edges(graph: &CodeGraph) -> (r: String)
    requires
        graph.wf(),
    ensures
        r@ == gather(graph@.edges.len() as int, graphml_edge(graph@)),
{
    let ghost g = graph@;
    let ghost f = graphml_edge(g);
    let edges = graph.edges();
    let mut out = String::new();
    let mut i: usize = 0;
    assert(out@ =~= Seq::empty());
    while i < edges.len()
        invariant
            g == graph@,
            f == graphml_edge(g),
            edges@ == g.edges.map_values(|e: EdgeExport| (e.from, e.to, edge_of(e))),
            i <= edges@.len(),
            out@ == gather(i as int, f),
        decreases edges@.len() - i,
    {
        let mut line = concat2("    <edge id=\"e", decimal_text(i as u64).as_str());
        line.append("\" source=\"");
        line.append(edges[i].0.label().as_str());
        line.append("\" target=\"");
        line.append(edges[i].1.label().as_str());
        line.append("\"><data key=\"ekind\">");
        line.append(edge_kind_str(edges[i].2.kind));
        line.append("</data></edge>\n");
        out.append(line.as_str());
        i += 1;
    }
    out
}

/// The graph as GraphML.
pub fn export_graphml(graph: &CodeGraph) -> (r: String)
    requires
        graph.wf(),
    ensures
        r@ == graphml_text(graph@),
{
    let mut out = concat2(
        "<?xml version=\"1.0\" encoding=\"UTF-8\"?>\n<graphml xmlns=\"http://graphml.graphdrawing.org/xmlns\">\n  <key id=\"name\" for=\"node\" attr.name=\"name\" attr.type=\"string\"/>\n  <key id=\"qname\" for=\"node\" attr.name=\"qualified_name\" attr.type=\"string\"/>\n  <key id=\"kind\" for=\"node\" attr.name=\"kind\" attr.type=\"string\"/>\n  <key id=\"cc\" for=\"node\" attr.name=\"cyclomatic\" attr.type=\"int\"/>\n  <key id=\"ekind\" for=\"edge\" attr.name=\"kind\" attr.type=\"string\"/>\n  <graph id=\"G\" edgedefault=\"directed\">\n",
        graphml_nodes(graph).as_str(),
    );
    out.append(graphml_edges(graph).as_str());
    out.append("  </graph>\n</graphml>\n");
    out
}

// -- summary --------------------------------------------------------------------------

/// A text with blanks before it up to a width.
pub open spec fn padded(s: Seq<char>, width: nat) -> Seq<char>
    decreases width - s.len(),
{
    if s.len() >= width {
        s
    } else {
        padded(seq![' '] + s, width)
    }
}

fn pad(s: String, width: usize) -> (r: String)
    ensures
        r@ == padded(s@, width as nat),
{
    let n: usize = chars_of(s.as_str()).len();
    let ghost want = padded(s@, width as nat);
    let mut out = s;
    let mut i: usize = n;
    while i < width
        invariant
            out@.len() == i,
            n <= i,
            i <= width || i == n,
            want == padded(out@, width as nat),
        decreases width - i,
    {
        let ghost before = out@;
        proof {
            reveal_strlit(" ");
        }
        out = concat2(" ", out.as_str());
        assert(out@ =~= seq![' '] + before);
        i += 1;
    }
    out
}

/// The definitions of a graph for which a number is given, the greatest number first;
/// of two with the same number the earlier one first.
pub open spec fn ranking(
    g: GraphModel,
    keep: spec_fn(NodeId) -> bool,
    rank: spec_fn(NodeId) -> int,
) -> Seq<NodeId> {
    let items = all_ids(g).filter(keep);
    arrange(items, rank_keys(items, rank))
}

pub open spec fn rank_keys<T>(items: Seq<T>, rank: spec_fn(T) -> int) -> Seq<KeyModel> {
    items.map_values(|x: T| rank_key(seq![descending(rank(x))]))
}

/// The node is a definition.
pub open spec fn internal(g: GraphModel) -> spec_fn(NodeId) -> bool {
    |id: NodeId| defined(g.node(id))
}

pub open spec fn complexity_rank(g: GraphModel) -> spec_fn(NodeId) -> int {
    |id: NodeId| g.node(id).complexity()
}

/// The node is a definition that something calls.
pub open spec fn called(g: GraphModel) -> spec_fn(NodeId) -> bool {
    |id: NodeId| defined(g.node(id)) && caller_count(g, id) > 0
}

pub open spec fn caller_rank(g: GraphModel) -> spec_fn(NodeId) -> int {
    |id: NodeId| caller_count(g, id) as int
}

/// A line of a ranking.
pub open spec fn ranked_line(g: GraphModel, ids: Seq<NodeId>, rank: spec_fn(NodeId) -> int) -> spec_fn(
    int,
) -> Seq<char> {
    |i: int|
        "  "@ + padded(decimal(rank(ids[i]) as nat), 4) + "  "@ + g.node(ids[i]).qualified_name
            + "\n"@
}

/// The first lines of a ranking under a heading; nothing where the ranking is empty.
pub open spec fn ranked_lines(
    g: GraphModel,
    ids: Seq<NodeId>,
    rank: spec_fn(NodeId) -> int,
    top: int,
    heading: Seq<char>,
) -> Seq<char> {
    if ids.len() == 0 {
        Seq::empty()
    } else {
        "\nTop "@ + decimal(top as nat) + heading + gather(
            least(ids.len() as int, top),
            ranked_line(g, ids, rank),
        )
    }
}

fn push_rank(keys: &mut Vec<SortKey>, rank: u64)
    ensures
        key_views(final(keys)@) == key_views(old(keys)@).push(
            rank_key(seq![descending(rank as int)]),
        ),
{
    let mut ranks: Vec<u64> = Vec::new();
    ranks.push(u64::MAX - rank);
    let key = SortKey { ranks, text: String::new(), minor: 0 };
    let ghost before = keys@;
    proof {
        assert(key@.ranks =~= seq![descending(rank as int)]);
        assert(key@.text =~= Seq::empty());
    }
    keys.push(key);
    assert(key_views(keys@) =~= key_views(before).push(key@));
}

/// The definitions by complexity.
fn by_complexity(graph: &CodeGraph) -> (r: Vec<NodeId>)
    requires
        graph.wf(),
    ensures
        r@ == ranking(graph@, internal(graph@), complexity_rank(graph@)),
        forall|i: int| 0 <= i < r@.len() ==> graph@.has(#[trigger] r@[i]),
{
    let ghost g = graph@;
    let ghost keep = internal(g);
    let ghost rank = complexity_rank(g);
    let all = graph.node_ids();
    let mut items: Vec<NodeId> = Vec::new();
    let mut keys: Vec<SortKey> = Vec::new();
    let mut i: usize = 0;
    proof {
        graph.lemma_wf();
        reveal(Seq::filter);
        assert(all@.take(0).filter(keep) =~= Seq::empty());
        assert(key_views(keys@) =~= rank_keys(items@, rank));
    }
    while i < all.len()
        invariant
            g == graph@,
            g.wf(),
            all@ == all_ids(g),
            keep == internal(g),
            rank == complexity_rank(g),
            i <= all@.len(),
            items@ == all@.take(i as int).filter(keep),
            key_views(keys@) == rank_keys(items@, rank),
        decreases all@.len() - i,
    {
        let id = all[i];
        assert(id.0 == i);
        assert(g.nodes[i as int].valid());
        proof {
            reveal(Seq::filter);
            assert(all@.take(i + 1).drop_last() =~= all@.take(i as int));
        }
        let node = graph.node(id);
        if node.kind != NodeKind::External {
            let ghost before = items@;
            push_rank(&mut keys, node.cyclomatic_complexity() as u64);
            items.push(id);
            assert(rank_keys(items@, rank) =~= rank_keys(before, rank).push(
                rank_key(seq![descending(rank(id))]),
            ));
        }
        i += 1;
    }
    assert(all@.take(all@.len() as int) =~= all@);
    let r = arranged(&items, &keys);
    proof {
        lemma_ranking_known(g, keep, rank);
    }
    r
}

/// The called definitions by number of incoming calls.
fn by_callers(graph: &CodeGraph) -> (r: Vec<NodeId>)
    requires
        graph.wf(),
    ensures
        r@ == ranking(graph@, called(graph@), caller_rank(graph@)),
        forall|i: int| 0 <= i < r@.len() ==> graph@.has(#[trigger] r@[i]),
{
    let ghost g = graph@;
    let ghost keep = called(g);
    let ghost rank = caller_rank(g);
    let all = graph.node_ids();
    let mut items: Vec<NodeId> = Vec::new();
    let mut keys: Vec<SortKey> = Vec::new();
    let mut i: usize = 0;
    proof {
        graph.lemma_wf();
        reveal(Seq::filter);
        assert(all@.take(0).filter(keep) =~= Seq::empty());
        assert(key_views(keys@) =~= rank_keys(items@, rank));
    }
    while i < all.len()
        invariant
            graph.wf(),
            g == graph@,
            all@ == all_ids(g),
            g.nodes.len() <= u32::MAX,
            keep == called(g),
            rank == caller_rank(g),
            i <= all@.len(),
            items@ == all@.take(i as int).filter(keep),
            key_views(keys@) == rank_keys(items@, rank),
        decreases all@.len() - i,
    {
        let id = all[i];
        assert(id.0 == i);
        proof {
            reveal(Seq::filter);
            assert(all@.take(i + 1).drop_last() =~= all@.take(i as int));
        }
        let degree: usize = count_callers(graph, id);
        if graph.node(id).kind != NodeKind::External && degree > 0 {
            let ghost before = items@;
            push_rank(&mut keys, degree as u64);
            items.push(id);
            assert(rank_keys(items@, rank) =~= rank_keys(before, rank).push(
                rank_key(seq![descending(rank(id))]),
            ));
        }
        i += 1;
    }
    assert(all@.take(all@.len() as int) =~= all@);
    let r = arranged(&items, &keys);
    proof {
        lemma_ranking_known(g, keep, rank);
    }
    r
}

/// A ranking lists nodes of the graph.
proof fn lemma_ranking_known(
    g: GraphModel,
    keep: spec_fn(NodeId) -> bool,
    rank: spec_fn(NodeId) -> int,
)
    requires
        g.wf(),
    ensures
        forall|i: int|
            0 <= i < ranking(g, keep, rank).len() ==> g.has(#[trigger] ranking(g, keep, rank)[i]),
{
    let items = all_ids(g).filter(keep);
    let r = ranking(g, keep, rank);
    lemma_filter_has(all_ids(g), keep);
    lemma_arrange_has(items, rank_keys(items, rank));
    assert forall|i: int| 0 <= i < r.len() implies g.has(#[trigger] r[i]) by {
        assert(r.contains(r[i]));
        assert(items.contains(r[i]));
        assert(all_ids(g).contains(r[i]));
        let k = all_ids(g).index_of(r[i]);
        assert(all_ids(g)[k].0 == k);
    }
}

/// The first lines of the ranking by complexity.
fn complexity_lines(graph: &CodeGraph, top: usize) -> (r: String)
    requires
        graph.wf(),
    ensures
        r@ == ranked_lines(
            graph@,
            ranking(graph@, internal(graph@), complexity_rank(graph@)),
            complexity_rank(graph@),
            top as int,
            " by cyclomatic complexity:\n"@,
        ),
{
    let ghost g = graph@;
    let ids = by_complexity(graph);
    let ghost f = ranked_line(g, ids@, complexity_rank(g));
    let mut out = String::new();
    assert(out@ =~= Seq::empty());
    if ids.len() == 0 {
        return out;
    }
    out = concat2("\nTop ", decimal_text(top as u64).as_str());
    out.append(" by cyclomatic complexity:\n");
    let ghost head = out@;
    let n: usize = if ids.len() < top {
        ids.len()
    } else {
        top
    };
    let mut i: usize = 0;
    proof {
        graph.lemma_wf();
        assert(head + gather(0, f) =~= head);
    }
    while i < n
        invariant
            g == graph@,
            g.wf(),
            f == ranked_line(g, ids@, complexity_rank(g)),
            forall|i: int| 0 <= i < ids@.len() ==> g.has(#[trigger] ids@[i]),
            i <= n <= ids@.len(),
            out@ == head + gather(i as int, f),
        decreases n - i,
    {
        let node = graph.node(ids[i]);
        assert(g.nodes[ids@[i as int].0 as int].valid());
        let count = pad(decimal_text(node.cyclomatic_complexity() as u64), 4);
        let mut line = concat2("  ", count.as_str());
        line.append("  ");
        line.append(node.qualified_name.as_str());
        line.append("\n");
        out.append(line.as_str());
        proof {
            assert(line@ == f(i as int));
            assert(out@ =~= head + gather(i + 1, f));
        }
        i += 1;
    }
    out
}

/// The first lines of the ranking by incoming calls.
fn caller_lines(graph: &CodeGraph, top: usize) -> (r: String)
    requires
        graph.wf(),
    ensures
        r@ == ranked_lines(
            graph@,
            ranking(graph@, called(graph@), caller_rank(graph@)),
            caller_rank(graph@),
            top as int,
            " by fan-in (callers):\n"@,
        ),
{
    let ghost g = graph@;
    let ids = by_callers(graph);
    let ghost f = ranked_line(g, ids@, caller_rank(g));
    let mut out = String::new();
    assert(out@ =~= Seq::empty());
    if ids.len() == 0 {
        return out;
    }
    out = concat2("\nTop ", decimal_text(top as u64).as_str());
    out.append(" by fan-in (callers):\n");
    let ghost head = out@;
    let n: usize = if ids.len() < top {
        ids.len()
    } else {
        top
    };
    let mut i: usize = 0;
    assert(head + gather(0, f) =~= head);
    while i < n
        invariant
            graph.wf(),
            g == graph@,
            f == ranked_line(g, ids@, caller_rank(g)),
            forall|i: int| 0 <= i < ids@.len() ==> g.has(#[trigger] ids@[i]),
            i <= n <= ids@.len(),
            out@ == head + gather(i as int, f),
        decreases n - i,
    {
        let id = ids[i];
        let count = pad(decimal_text(count_callers(graph, id) as u64), 4);
        let mut line = concat2("  ", count.as_str());
        line.append("  ");
        line.append(graph.node(id).qualified_name.as_str());
        line.append("\n");
        out.append(line.as_str());
        proof {
            assert(line@ == f(i as int));
            assert(out@ =~= head + gather(i + 1, f));
        }
        i += 1;
    }
    out
}

/// The counts of a report.
pub open spec fn counts_text(r: ReportModel) -> Seq<char> {
    "Live Code Walk - analysis summary\n=================================\nvertical:     "@
        + r.vertical.text() + "\nfiles:        "@ + decimal(r.graph.files.len())
        + "\nfunctions:    "@ + decimal((r.graph.nodes.len() - external_count(r.graph)) as nat)
        + " ("@ + decimal(external_count(r.graph)) + " external/unresolved)\ncall edges:   "@
        + decimal(r.graph.edges.len()) + "\ndiagnostics:  "@ + decimal(r.diagnostics.len()) + " ("@
        + decimal(high_count(r.diagnostics)) + " high severity)\nsuggestions:  "@ + decimal(
        r.suggestions.len(),
    ) + "\n"@
}

fn counts(report: &AnalysisReport) -> (r: String)
    ensures
        r@ == counts_text(report@),
{
    let s = report.summary();
    proof {
        let g = report@.graph;
        lemma_tally_bound(
            g.nodes.len() as int,
            |i: int| g.nodes[i].kind == NodeKind::External,
        );
    }
    let mut out = concat2(
        "Live Code Walk - analysis summary\n=================================\nvertical:     ",
        report.vertical.as_str(),
    );
    out.append("\nfiles:        ");
    out.append(decimal_text(s.files as u64).as_str());
    out.append("\nfunctions:    ");
    out.append(decimal_text((s.nodes - s.external_nodes) as u64).as_str());
    out.append(" (");
    out.append(decimal_text(s.external_nodes as u64).as_str());
    out.append(" external/unresolved)\ncall edges:   ");
    out.append(decimal_text(s.edges as u64).as_str());
    out.append("\ndiagnostics:  ");
    out.append(decimal_text(s.diagnostics as u64).as_str());
    out.append(" (");
    out.append(decimal_text(s.high_severity as u64).as_str());
    out.append(" high severity)\nsuggestions:  ");
    out.append(decimal_text(s.suggestions as u64).as_str());
    out.append("\n");
    out
}

pub open spec fn severity_rank() -> spec_fn(DiagnosticModel) -> int {
    |d: DiagnosticModel| d.severity.spec_rank()
}

/// The findings, the most severe first.
pub open spec fn worst_first(ds: Seq<DiagnosticModel>) -> Seq<DiagnosticModel> {
    arrange(ds, rank_keys(ds, severity_rank()))
}

pub open spec fn finding_line(ds: Seq<DiagnosticModel>) -> spec_fn(int) -> Seq<char> {
    |i: int|
        "  ["@ + ds[i].severity.text() + "] "@ + ds[i].message + " ("@ + ds[i].code + ")\n"@
}

/// The first findings under a heading; nothing where there are none.
pub open spec fn finding_lines(ds: Seq<DiagnosticModel>, top: int) -> Seq<char> {
    if ds.len() == 0 {
        Seq::empty()
    } else {
        "\nDiagnostics:\n"@ + gather(least(ds.len() as int, top), finding_line(worst_first(ds)))
    }
}

fn list_findings(ds: &Vec<Diagnostic>, top: usize) -> (r: String)
    ensures
        r@ == finding_lines(views_of(ds@), top as int),
{
    let ghost all = views_of(ds@);
    let ghost rank = severity_rank();
    let mut out = String::new();
    assert(out@ =~= Seq::empty());
    if ds.len() == 0 {
        return out;
    }
    let mut keys: Vec<SortKey> = Vec::new();
    let mut places: Vec<usize> = Vec::new();
    let mut k: usize = 0;
    assert(key_views(keys@) =~= rank_keys(all.take(0), rank));
    while k < ds.len()
        invariant
            k <= ds@.len(),
            all == views_of(ds@),
            rank == severity_rank(),
            places@.len() == k,
            forall|j: int| 0 <= j < k ==> #[trigger] places@[j] == j,
            key_views(keys@) == rank_keys(all.take(k as int), rank),
        decreases ds@.len() - k,
    {
        push_rank(&mut keys, ds[k].severity.rank());
        places.push(k);
        proof {
            assert(all.take(k + 1) =~= all.take(k as int).push(all[k as int]));
            assert(rank_keys(all.take(k + 1), rank) =~= rank_keys(all.take(k as int), rank).push(
                rank_key(seq![descending(rank(all[k as int]))]),
            ));
        }
        k += 1;
    }
    assert(all.take(all.len() as int) =~= all);
    let order = arranged(&places, &keys);
    let ghost sorted = worst_first(all);
    let ghost f = finding_line(sorted);
    proof {
        lemma_places(all, places@, order@, rank_keys(all, rank));
    }
    out.append("\nDiagnostics:\n");
    assert(out@ =~= "\nDiagnostics:\n"@);
    let ghost head = out@;
    let n: usize = if ds.len() < top {
        ds.len()
    } else {
        top
    };
    let mut i: usize = 0;
    assert(head + gather(0, f) =~= head);
    while i < n
        invariant
            all == views_of(ds@),
            f == finding_line(sorted),
            i <= n <= ds@.len() == order@.len(),
            sorted.len() == order@.len(),
            forall|j: int|
                0 <= j < order@.len() ==> #[trigger] order@[j] < all.len() && sorted[j]
                    == all[order@[j] as int],
            out@ == head + gather(i as int, f),
        decreases n - i,
    {
        let d = &ds[order[i]];
        assert(sorted[i as int] == d@);
        let mut line = concat2("  [", d.severity.as_str());
        line.append("] ");
        line.append(d.message.as_str());
        line.append(" (");
        line.append(d.code.as_str());
        line.append(")\n");
        out.append(line.as_str());
        proof {
            assert(line@ == f(i as int));
            assert(out@ =~= head + gather(i + 1, f));
        }
        i += 1;
    }
    out
}

/// Arranging the places of a list arranges the list.
proof fn lemma_places<T>(all: Seq<T>, places: Seq<usize>, order: Seq<usize>, keys: Seq<KeyModel>)
    requires
        all.len() == places.len() == keys.len(),
        forall|j: int| 0 <= j < places.len() ==> #[trigger] places[j] == j,
        order == arrange(places, keys),
    ensures
        order.len() == all.len() == arrange(all, keys).len(),
        forall|j: int|
            0 <= j < order.len() ==> #[trigger] order[j] < all.len() && arrange(all, keys)[j]
                == all[order[j] as int],
{
    crate::order::lemma_order_exists(keys);
    let p = crate::order::stable_order(keys);
    assert forall|j: int| 0 <= j < order.len() implies #[trigger] order[j] < all.len() && arrange(
        all,
        keys,
    )[j] == all[order[j] as int] by {
        assert(0 <= p[j] < keys.len());
        assert(order[j] == places[p[j]]);
    }
}

pub open spec fn priority_rank() -> spec_fn(SuggestionModel) -> int {
    |s: SuggestionModel| s.priority as int
}

/// The suggestions, those of the highest priority first.
pub open spec fn urgent_first(ss: Seq<SuggestionModel>) -> Seq<SuggestionModel> {
    arrange(ss, rank_keys(ss, priority_rank()))
}

pub open spec fn suggestion_line(ss: Seq<SuggestionModel>) -> spec_fn(int) -> Seq<char> {
    |i: int|
        "  ("@ + padded(decimal(ss[i].priority as nat), 3) + ") "@ + ss[i].title + "\n        "@
            + ss[i].rationale + "\n"@
}

/// The first suggestions under a heading; nothing where there are none.
pub open spec fn suggestion_lines(ss: Seq<SuggestionModel>, top: int) -> Seq<char> {
    if ss.len() == 0 {
        Seq::empty()
    } else {
        "\nSuggestions:\n"@ + gather(
            least(ss.len() as int, top),
            suggestion_line(urgent_first(ss)),
        )
    }
}

fn list_suggestions(ss: &Vec<Suggestion>, top: usize) -> (r: String)
    ensures
        r@ == suggestion_lines(views_of(ss@), top as int),
{
    let ghost all = views_of(ss@);
    let ghost rank = priority_rank();
    let mut out = String::new();
    assert(out@ =~= Seq::empty());
    if ss.len() == 0 {
        return out;
    }
    let mut keys: Vec<SortKey> = Vec::new();
    let mut places: Vec<usize> = Vec::new();
    let mut k: usize = 0;
    assert(key_views(keys@) =~= rank_keys(all.take(0), rank));
    while k < ss.len()
        invariant
            k <= ss@.len(),
            all == views_of(ss@),
            rank == priority_rank(),
            places@.len() == k,
            forall|j: int| 0 <= j < k ==> #[trigger] places@[j] == j,
            key_views(keys@) == rank_keys(all.take(k as int), rank),
        decreases ss@.len() - k,
    {
        push_rank(&mut keys, ss[k].priority as u64);
        places.push(k);
        proof {
            assert(all.take(k + 1) =~= all.take(k as int).push(all[k as int]));
            assert(rank_keys(all.take(k + 1), rank) =~= rank_keys(all.take(k as int), rank).push(
                rank_key(seq![descending(rank(all[k as int]))]),
            ));
        }
        k += 1;
    }
    assert(all.take(all.len() as int) =~= all);
    let order = arranged(&places, &keys);
    let ghost sorted = urgent_first(all);
    let ghost f = suggestion_line(sorted);
    proof {
        lemma_places(all, places@, order@, rank_keys(all, rank));
    }
    out.append("\nSuggestions:\n");
    assert(out@ =~= "\nSuggestions:\n"@);
    let ghost head = out@;
    let n: usize = if ss.len() < top {
        ss.len()
    } else {
        top
    };
    let mut i: usize = 0;
    assert(head + gather(0, f) =~= head);
    while i < n
        invariant
            all == views_of(ss@),
            f == suggestion_line(sorted),
            i <= n <= ss@.len() == order@.len(),
            sorted.len() == order@.len(),
            forall|j: int|
                0 <= j < order@.len() ==> #[trigger] order@[j] < all.len() && sorted[j]
                    == all[order@[j] as int],
            out@ == head + gather(i as int, f),
        decreases n - i,
    {
        let s = &ss[order[i]];
        assert(sorted[i as int] == s@);
        let mut line = concat2("  (", pad(decimal_text(s.priority as u64), 3).as_str());
        line.append(") ");
        line.append(s.title.as_str());
        line.append("\n        ");
        line.append(s.rationale.as_str());
        line.append("\n");
        out.append(line.as_str());
        proof {
            assert(line@ == f(i as int));
            assert(out@ =~= head + gather(i + 1, f));
        }
        i += 1;
    }
    out
}

/// A report for people: its counts, and at most `top` of the most complex functions,
/// the most called ones, the worst findings and the most urgent suggestions.
pub open spec fn summary_text(r: ReportModel, top: int) -> Seq<char> {
    let g = r.graph;
    counts_text(r) + ranked_lines(
        g,
        ranking(g, internal(g), complexity_rank(g)),
        complexity_rank(g),
        top,
        " by cyclomatic complexity:\n"@,
    ) + ranked_lines(
        g,
        ranking(g, called(g), caller_rank(g)),
        caller_rank(g),
        top,
        " by fan-in (callers):\n"@,
    ) + finding_lines(r.diagnostics, top) + suggestion_lines(r.suggestions, top)
}

/// A report for people.
pub fn format_summary(report: &AnalysisReport, top: usize) -> (r: String)
    requires
        report.graph.wf(),
    ensures
        r@ == summary_text(report@, top as int),
{
    let mut out = counts(report);
    out.append(complexity_lines(&report.graph, top).as_str());
    out.append(caller_lines(&report.graph, top).as_str());
    out.append(list_findings(&report.diagnostics, top).as_str());
    out.append(list_suggestions(&report.suggestions, top).as_str());
    out
}

/// A ranking goes from the greatest number to the least, where the numbers fit.
pub proof fn law_ranking_descends(
    g: GraphModel,
    keep: spec_fn(NodeId) -> bool,
    rank: spec_fn(NodeId) -> int,
    i: int,
    j: int,
)
    requires
        forall|id: NodeId| 0 <= #[trigger] rank(id) <= u64::MAX,
        0 <= i < j < ranking(g, keep, rank).len(),
    ensures
        rank(ranking(g, keep, rank)[i]) >= rank(ranking(g, keep, rank)[j]),
{
    let items = all_ids(g).filter(keep);
    let keys = rank_keys(items, rank);
    crate::order::lemma_order_exists(keys);
    let p = crate::order::stable_order(keys);
    assert(crate::order::placed_before(keys, p[i], p[j]));
    let a = keys[p[i]].ranks;
    let b = keys[p[j]].ranks;
    reveal_with_fuel(crate::order::ranks_lt, 2);
    assert(a.skip(1) =~= Seq::empty() && b.skip(1) =~= Seq::empty());
    assert(keys[p[i]].text =~= keys[p[j]].text);
    crate::text::lemma_text_lt_total(keys[p[i]].text, keys[p[j]].text);
}

} // verus!
