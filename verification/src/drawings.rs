//! What the drawings of a graph hold: each node and each call on a line of its own, in
//! the order of the graph, and nothing else.

use crate::cards::called_kind;
use crate::export::{
    dot_edge, dot_escaped, dot_node, dot_text, graphml_edge, graphml_head, graphml_node, graphml_text,
    xml_escaped,
};
use crate::graph::{GraphModel, NodeKind};
use crate::seqs::{flat, gather};
use crate::text::decimal;
use vstd::prelude::*;

verus! {

proof fn lemma_gathered<T>(n: int, f: spec_fn(int) -> Seq<T>, lists: Seq<Seq<T>>)
    requires
        lists.len() == n,
        forall|i: int| 0 <= i < n ==> #[trigger] lists[i] == f(i),
    ensures
        gather(n, f) == flat(lists),
    decreases n,
{
    if n > 0 {
        let front = lists.drop_last();
        assert forall|i: int| 0 <= i < n - 1 implies #[trigger] front[i] == f(i) by {
            assert(front[i] == lists[i]);
        }
        lemma_gathered(n - 1, f, front);
        assert(lists[n - 1] == f(n - 1));
    }
}

/// In a quoted DOT string a backslash and a quote have a backslash before them, and a line
/// break is a blank; everything else stands for itself.
pub open spec fn quoted(s: Seq<char>) -> Seq<char> {
    flat(
        Seq::new(
            s.len(),
            |i: int|
                match s[i] {
                    '\\' => seq!['\\', '\\'],
                    '"' => seq!['\\', '"'],
                    '\n' => seq![' '],
                    c => seq![c],
                },
        ),
    )
}

/// In XML the characters of markup stand by their names; everything else stands for itself.
pub open spec fn marked(s: Seq<char>) -> Seq<char> {
    flat(
        Seq::new(
            s.len(),
            |i: int|
                match s[i] {
                    '&' => "&amp;"@,
                    '<' => "&lt;"@,
                    '>' => "&gt;"@,
                    '"' => "&quot;"@,
                    '\'' => "&apos;"@,
                    c => seq![c],
                },
        ),
    )
}

/// Escaped texts hold each character as it is to stand there.
pub proof fn law_texts_are_escaped(s: Seq<char>)
    ensures
        dot_escaped(s) == quoted(s),
        xml_escaped(s) == marked(s),
{
    reveal_strlit("\\\\");
    reveal_strlit("\\\"");
    reveal_strlit(" ");
    let f = |i: int| crate::export::dot_char(s[i]);
    let h = |i: int| crate::export::xml_char(s[i]);
    let a = Seq::new(
        s.len(),
        |i: int|
            match s[i] {
                '\\' => seq!['\\', '\\'],
                '"' => seq!['\\', '"'],
                '\n' => seq![' '],
                c => seq![c],
            },
    );
    let b = Seq::new(
        s.len(),
        |i: int|
            match s[i] {
                '&' => "&amp;"@,
                '<' => "&lt;"@,
                '>' => "&gt;"@,
                '"' => "&quot;"@,
                '\'' => "&apos;"@,
                c => seq![c],
            },
    );
    assert forall|i: int| 0 <= i < s.len() implies #[trigger] a[i] == f(i) by {
        assert(a[i] =~= f(i));
    }
    assert forall|i: int| 0 <= i < s.len() implies #[trigger] b[i] == h(i) by {}
    lemma_gathered(s.len() as int, f, a);
    lemma_gathered(s.len() as int, h, b);
}

/// The line of node `i`: unresolved targets are dashed, and what has more than ten paths
/// through it is red.
pub open spec fn drawn_node(g: GraphModel, i: int) -> Seq<char> {
    let n = g.nodes[i];
    "  "@ + (seq!['n'] + decimal(i as nat)) + " [label=\""@ + quoted(n.name) + "\", tooltip=\""@ + quoted(
        n.qualified_name,
    ) + "\""@ + (if n.kind == NodeKind::External {
        ", style=dashed, color=gray"@
    } else if n.stats.decision_points >= 10 {
        ", color=red"@
    } else {
        ""@
    }) + "];\n"@
}

/// The line of call `k`.
pub open spec fn drawn_edge(g: GraphModel, k: int) -> Seq<char> {
    let e = g.edges[k];
    "  "@ + (seq!['n'] + decimal(e.from.0 as nat)) + " -> "@ + (seq!['n'] + decimal(e.to.0 as nat))
        + " [label=\""@ + called_kind(e.kind) + "\"];\n"@
}

/// A DOT drawing is its head, the nodes in order, the calls in order, and its end.
pub proof fn law_dot_shows_the_graph(g: GraphModel)
    requires
        g.wf(),
    ensures
        dot_text(g)
            == "digraph livewalk {\n  rankdir=LR;\n  node [shape=box, fontname=\"monospace\"];\n"@ + flat(
            Seq::new(g.nodes.len(), |i: int| drawn_node(g, i)),
        ) + flat(Seq::new(g.edges.len(), |k: int| drawn_edge(g, k))) + "}\n"@,
{
    let ns = Seq::new(g.nodes.len(), |i: int| drawn_node(g, i));
    let es = Seq::new(g.edges.len(), |k: int| drawn_edge(g, k));
    assert forall|i: int| 0 <= i < ns.len() implies #[trigger] ns[i] == dot_node(g)(i) by {
        law_texts_are_escaped(g.nodes[i].name);
        law_texts_are_escaped(g.nodes[i].qualified_name);
        assert(g.nodes[i].id.0 == i);
    }
    assert forall|k: int| 0 <= k < es.len() implies #[trigger] es[k] == dot_edge(g)(k) by {}
    lemma_gathered(g.nodes.len() as int, dot_node(g), ns);
    lemma_gathered(g.edges.len() as int, dot_edge(g), es);
}

/// The element of node `i`.
pub open spec fn listed_node(g: GraphModel, i: int) -> Seq<char> {
    let n = g.nodes[i];
    "    <node id=\""@ + (seq!['n'] + decimal(i as nat)) + "\">\n      <data key=\"name\">"@ + marked(n.name)
        + "</data>\n      <data key=\"qname\">"@ + marked(n.qualified_name)
        + "</data>\n      <data key=\"kind\">"@ + (match n.kind {
        NodeKind::Function => "function"@,
        NodeKind::Method => "method"@,
        NodeKind::Closure => "closure"@,
        NodeKind::External => "external"@,
    }) + "</data>\n      <data key=\"cc\">"@ + decimal((n.stats.decision_points + 1) as nat)
        + "</data>\n    </node>\n"@
}

/// The element of call `k`.
pub open spec fn listed_edge(g: GraphModel, k: int) -> Seq<char> {
    let e = g.edges[k];
    "    <edge id=\"e"@ + decimal(k as nat) + "\" source=\""@ + (seq!['n'] + decimal(e.from.0 as nat))
        + "\" target=\""@ + (seq!['n'] + decimal(e.to.0 as nat)) + "\"><data key=\"ekind\">"@ + called_kind(
        e.kind,
    ) + "</data></edge>\n"@
}

/// A GraphML file is its head, the nodes in order, the calls in order, and its end.
pub proof fn law_graphml_lists_the_graph(g: GraphModel)
    requires
        g.wf(),
    ensures
        graphml_text(g) == graphml_head() + flat(
            Seq::new(g.nodes.len(), |i: int| listed_node(g, i)),
        ) + flat(Seq::new(g.edges.len(), |k: int| listed_edge(g, k))) + "  </graph>\n</graphml>\n"@,
{
    let ns = Seq::new(g.nodes.len(), |i: int| listed_node(g, i));
    let es = Seq::new(g.edges.len(), |k: int| listed_edge(g, k));
    assert forall|i: int| 0 <= i < ns.len() implies #[trigger] ns[i] == graphml_node(g)(i) by {
        law_texts_are_escaped(g.nodes[i].name);
        law_texts_are_escaped(g.nodes[i].qualified_name);
        assert(g.nodes[i].id.0 == i);
    }
    assert forall|k: int| 0 <= k < es.len() implies #[trigger] es[k] == graphml_edge(g)(k) by {}
    lemma_gathered(g.nodes.len() as int, graphml_node(g), ns);
    lemma_gathered(g.edges.len() as int, graphml_edge(g), es);
}

} // verus!
