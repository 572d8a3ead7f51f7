//! The call graph: interning, merging, snapshots.

use livewalk::graph::{CodeGraph, Edge, EdgeKind, Node, NodeFlags, NodeKind, NodeStats, SourceSpan};
use livewalk::ids::{FileId, NodeId};
use livewalk::path::{normal_text, parent_of};
use livewalk::report::AnalysisReport;
use livewalk::vertical::Vertical;
use std::path::Path;

fn function(qualified: &str, span: SourceSpan) -> Node {
    Node {
        id: NodeId(0),
        name: qualified.rsplit("::").next().unwrap().to_string(),
        qualified_name: qualified.to_string(),
        module: "crate".to_string(),
        kind: NodeKind::Function,
        span,
        flags: NodeFlags::default(),
        stats: NodeStats::default(),
    }
}

#[test]
fn interning_links_calls_to_defs() {
    let mut g = CodeGraph::new();
    let file = g.intern_file("src/lib.rs");

    // A call site references `foo` before its definition is seen: it creates an
    // external placeholder...
    let caller = g.add_node(function("crate::main", SourceSpan::new(file, 1, 0, 3, 1)));
    let foo_placeholder = g.intern_node("crate::foo", || Node::external("crate::foo"));
    g.add_edge(
        caller,
        foo_placeholder,
        Edge::new(EdgeKind::DirectCall, SourceSpan::new(file, 2, 4, 2, 9)),
    );

    // ...and when the definition is added, the placeholder is upgraded in place (same
    // id), so the edge stays valid.
    let foo_def = g.add_node(function("crate::foo", SourceSpan::new(file, 5, 0, 7, 1)));

    assert_eq!(foo_placeholder, foo_def);
    assert_eq!(g.node(foo_def).kind, NodeKind::Function);
    assert_eq!(g.node_count(), 2);
    assert_eq!(g.in_degree(foo_def), 1);
    assert_eq!(g.out_degree(caller), 1);
}

#[test]
fn duplicate_edges_merge_and_count() {
    let mut g = CodeGraph::new();
    let f = g.intern_file("a.rs");
    let a = g.add_node(Node::external("a"));
    let b = g.add_node(Node::external("b"));
    g.add_edge(a, b, Edge::new(EdgeKind::DirectCall, SourceSpan::new(f, 1, 0, 1, 1)));
    g.add_edge(a, b, Edge::new(EdgeKind::DirectCall, SourceSpan::new(f, 2, 0, 2, 1)));
    assert_eq!(g.edge_count(), 1);
    let (_, _, e) = g.edges()[0];
    assert_eq!(e.count, 2);
    // The first call site is kept.
    assert_eq!(e.call_site.start_line, 1);
    // Another kind of call is another edge.
    g.add_edge(a, b, Edge::new(EdgeKind::MacroCall, SourceSpan::new(f, 3, 0, 3, 1)));
    assert_eq!(g.edge_count(), 2);
}

#[test]
fn snapshots_rebuild_the_graph() {
    let mut g = CodeGraph::new();
    let file = g.intern_file("src/lib.rs");
    let mut def = function("crate::main", SourceSpan::new(file, 1, 0, 3, 1));
    def.flags.is_pub = true;
    def.stats.decision_points = 2;
    let main = g.add_node(def);
    let dep = g.intern_node("std::println", || Node::external("std::println"));
    g.add_edge(main, dep, Edge::new(EdgeKind::MacroCall, SourceSpan::new(file, 2, 4, 2, 9)));

    let g2 = CodeGraph::from_snapshot(g.snapshot());

    assert_eq!(g2.node_count(), g.node_count());
    assert_eq!(g2.edge_count(), g.edge_count());
    assert_eq!(g2.file_path(file), Some("src/lib.rs"));
    let main2 = g2.node_by_qualified("crate::main").unwrap();
    assert_eq!(main2, main);
    assert_eq!(g2.node(main2).cyclomatic_complexity(), 3);
    assert!(g2.node(main2).flags.is_pub);
    assert_eq!(g2.out_degree(main2), 1);
    assert_eq!(
        g2.node(g2.node_by_qualified("std::println").unwrap()).kind,
        NodeKind::External
    );
    assert_eq!(g2.edges()[0].2.kind, EdgeKind::MacroCall);
    // Interning goes on as before.
    let mut g2 = g2;
    assert_eq!(g2.intern_file("src/lib.rs"), file);
    assert_eq!(g2.intern_node("crate::main", || Node::external("other")), main);
    g2.add_edge(main, dep, Edge::new(EdgeKind::MacroCall, SourceSpan::new(file, 9, 4, 9, 9)));
    assert_eq!(g2.edge_count(), 1);
    assert_eq!(g2.edges()[0].2.count, 2);
}

#[test]
fn definitions_are_never_replaced() {
    let mut g = CodeGraph::new();
    let file = g.intern_file("src/lib.rs");
    let first = g.add_node(function("crate::f", SourceSpan::new(file, 1, 0, 2, 1)));
    let again = g.add_node(function("crate::f", SourceSpan::new(file, 8, 0, 9, 1)));
    assert_eq!(first, again);
    assert_eq!(g.node(first).span.start_line, 1);
    let external = g.add_node(Node::external("crate::f"));
    assert_eq!(external, first);
    assert_eq!(g.node(first).kind, NodeKind::Function);
}

#[test]
fn nameless_nodes_are_not_interned() {
    let mut g = CodeGraph::new();
    let a = g.add_node(function("", SourceSpan::default()));
    let b = g.add_node(function("", SourceSpan::default()));
    assert_ne!(a, b);
    assert_eq!(g.node_count(), 2);
    assert_eq!(g.node_by_qualified(""), None);
}

#[test]
fn files_have_one_place_each() {
    let mut g = CodeGraph::new();
    let a = g.intern_file("a.rs");
    let b = g.intern_file("b.rs");
    assert_eq!(g.intern_file("a.rs"), a);
    assert_ne!(a, b);
    assert_eq!(g.file_count(), 2);
    assert_eq!(g.file_path(b), Some("b.rs"));
    assert_eq!(g.file_path(FileId(7)), None);
}

#[test]
fn neighbors_come_latest_first() {
    let mut g = CodeGraph::new();
    let a = g.add_node(Node::external("a"));
    let b = g.add_node(Node::external("b"));
    let c = g.add_node(Node::external("c"));
    let call = || Edge::new(EdgeKind::DirectCall, SourceSpan::default());
    g.add_edge(a, b, call());
    g.add_edge(a, c, call());
    g.add_edge(b, c, call());
    assert_eq!(g.neighbors_out(a), vec![c, b]);
    assert_eq!(g.neighbors_in(c), vec![b, a]);
    assert_eq!(g.in_degree(a), 0);
    assert_eq!(g.node_ids(), vec![a, b, c]);
    assert!(g.try_node(NodeId(3)).is_none());
}

#[test]
fn reports_count_what_they_hold() {
    let mut g = CodeGraph::new();
    let f = g.intern_file("a.rs");
    let a = g.add_node(function("m::a", SourceSpan::new(f, 1, 0, 1, 1)));
    let b = g.add_node(Node::external("b"));
    g.add_edge(a, b, Edge::new(EdgeKind::Unresolved, SourceSpan::default()));
    let report = AnalysisReport::new(g);
    let s = report.summary();
    assert_eq!((s.files, s.nodes, s.edges, s.external_nodes), (1, 2, 1, 1));
    assert_eq!((s.diagnostics, s.high_severity, s.suggestions), (0, 0, 0));
    assert_eq!(report.vertical, Vertical::Unknown);
    let back = AnalysisReport::from_snapshot(report.snapshot());
    assert_eq!(back.summary(), s);
    assert_eq!(report.export().summary, s);
}

#[test]
fn node_labels_are_stable() {
    assert_eq!(NodeId(0).label(), "n0");
    assert_eq!(NodeId(1042).label(), "n1042");
}

#[test]
fn a_file_has_one_number_however_its_path_is_written() {
    let mut g = CodeGraph::new();
    let a = g.intern_file("src//a.rs");
    assert_eq!(g.intern_file("src/a.rs"), a);
    assert_eq!(g.intern_file("src/./a.rs/"), a);
    assert_ne!(g.intern_file("./src/a.rs"), a);
    assert_ne!(g.intern_file("/src/a.rs"), a);
    assert_eq!(g.file_count(), 3);
    // The first way of writing it is kept.
    assert_eq!(g.file_path(a), Some("src//a.rs"));
}

#[test]
fn normal_forms_agree_with_the_components_of_a_path() {
    let paths = [
        "", ".", "/", "//", "./", "/.", "a", "a/", "a/.", "a//b", "a/./b", "./a", "././a", "/a//b/",
        "/./a", "../a", "a/..", "a/../b", "..", "./..", "a/b/.", "a/b//.//", ".a", "a./b",
    ];
    for p in paths {
        for q in paths {
            assert_eq!(
                normal_text(p) == normal_text(q),
                Path::new(p) == Path::new(q),
                "{p:?} {q:?}"
            );
        }
        assert_eq!(Path::new(&normal_text(p)), Path::new(p));
        let parent = Path::new(p).parent().map(|d| d.to_str().unwrap().to_string());
        assert_eq!(parent_of(p), parent, "{p:?}");
    }
}
