//! Text, DOT, GraphML and diagrams.

use livewalk::calltree::{call_tree, CallTreeOptions};
use livewalk::card::node_card;
use livewalk::diagnostic::{Diagnostic, Severity};
use livewalk::entries::{entry_points, EntryKind};
use livewalk::export::{dot_escape, export_dot, export_graphml, format_summary, xml_escape};
use livewalk::flow::shortest_paths;
use livewalk::graph::{CodeGraph, Edge, EdgeKind, Node, NodeFlags, NodeKind, NodeStats, SourceSpan};
use livewalk::ids::NodeId;
use livewalk::nav::{
    entry_marker, entry_rows, format_call_tree, format_card, format_entries, format_outline,
    OutlineStyle,
};
use livewalk::outline::outline;
use livewalk::reach::Direction;
use livewalk::report::AnalysisReport;
use livewalk::suggestion::Suggestion;
use livewalk::trace::{format_text, hop, snippet, split_lines, to_flow_graph};

fn def(g: &mut CodeGraph, qn: &str, line: u32, is_pub: bool) -> NodeId {
    let f = g.intern_file("src/lib.rs");
    g.add_node(Node {
        id: NodeId(0),
        name: qn.rsplit("::").next().unwrap().to_string(),
        qualified_name: qn.to_string(),
        module: qn.rsplit_once("::").map(|(m, _)| m.to_string()).unwrap(),
        kind: NodeKind::Function,
        span: SourceSpan::new(f, line, 0, line + 2, 1),
        flags: NodeFlags {
            is_pub,
            ..Default::default()
        },
        stats: NodeStats::default(),
    })
}

fn graph() -> CodeGraph {
    let mut g = CodeGraph::new();
    let main = def(&mut g, "app::main", 1, false);
    let run = def(&mut g, "app::core::run", 10, true);
    let step = def(&mut g, "app::core::step", 20, false);
    let f = g.intern_file("src/lib.rs");
    let edge = |l| Edge::new(EdgeKind::DirectCall, SourceSpan::new(f, l, 0, l, 5));
    g.add_edge(main, run, edge(2));
    g.add_edge(run, step, edge(11));
    g.add_edge(run, step, edge(12));
    g
}

#[test]
fn card_text_shows_edges_with_kind_and_site() {
    let g = graph();
    let step = g.node_by_qualified("app::core::step").unwrap();
    let text = format_card(&node_card(&g, step).unwrap(), 20);
    assert!(text.starts_with("app::core::step\n"));
    assert!(text.contains("where:   src/lib.rs:20"));
    assert!(text.contains("<- app::core::run   [direct x2 @ lib.rs:11]"));
    assert!(text.contains("outputs — 0 callee(s)"));
}

#[test]
fn outline_tree_has_scopes_functions_and_markers() {
    let g = graph();
    let text = format_outline(&outline(&g), &g, &OutlineStyle::default());
    assert!(text.starts_with("outline: 3 function(s) in 2 scope(s)"));
    assert!(text.contains("└── app/  (3 fn, 1 entry)"));
    assert!(text.contains("    ├── core/  (2 fn)"));
    assert!(text.contains("    │   ├── run  cc 1 · in 1 · out 1   src/lib.rs:10"));
    assert!(text.contains("    └── main  cc 1 · in 0 · out 1  ★ main   src/lib.rs:1"));

    let collapsed = format_outline(
        &outline(&g),
        &g,
        &OutlineStyle {
            max_depth: Some(1),
            scopes_only: false,
        },
    );
    assert!(collapsed.contains("core/  (2 fn)  …"));
    assert!(!collapsed.contains("run  cc"));
}

#[test]
fn scopes_only_leaves_functions_out() {
    let mut g = graph();
    let f = g.intern_file("top.rs");
    g.add_node(Node {
        id: NodeId(0),
        name: "top".to_string(),
        qualified_name: "top".to_string(),
        module: String::new(),
        kind: NodeKind::Function,
        span: SourceSpan::new(f, 1, 0, 2, 1),
        flags: NodeFlags::default(),
        stats: NodeStats::default(),
    });
    let text = format_outline(
        &outline(&g),
        &g,
        &OutlineStyle {
            max_depth: None,
            scopes_only: true,
        },
    );
    assert!(text.contains("core/  (2 fn)"));
    assert!(!text.contains(" cc "));
}

#[test]
fn entries_and_call_tree_render() {
    let g = graph();
    let entries = entry_points(&g);
    let text = format_entries(&g, &entries, &vec![Some(2)]);
    assert!(text.contains("main — where the program starts (1)"));
    assert!(text.contains("  app::main   [src/lib.rs:1]   reaches 2 fn"));
    let rows = entry_rows(&g, &entries, &vec![Some(2)]);
    assert_eq!(rows[0].reach, Some(2));
    assert_eq!(rows[0].qualified_name, "app::main");
    assert_eq!(rows[0].kind, "main");

    let main = g.node_by_qualified("app::main").unwrap();
    let tree = call_tree(&g, main, &CallTreeOptions::default());
    let text = format_call_tree(&g, &tree, Direction::Callees);
    assert!(text.starts_with("calls from app::main"));
    assert!(text.contains("└── → app::core::run"));
    assert!(text.contains("    └── → app::core::step"));
    assert_eq!(g.node(tree.children[0].children[0].id).name, "step");
    assert_eq!(entry_marker(None), "");
    assert_eq!(entry_marker(Some(EntryKind::Main)), "  ★ main");
}

#[test]
fn dot_text_is_exact() {
    let mut g = graph();
    let step = g.node_by_qualified("app::core::step").unwrap();
    let read = g.add_node(Node::external("std::fs::read"));
    g.add_edge(
        step,
        read,
        Edge::new(EdgeKind::Unresolved, SourceSpan::default()),
    );
    g.node_mut(step).stats.decision_points = 10;
    assert_eq!(
        export_dot(&g),
        "digraph livewalk {\n  rankdir=LR;\n  node [shape=box, fontname=\"monospace\"];\n\
         \x20 n0 [label=\"main\", tooltip=\"app::main\"];\n\
         \x20 n1 [label=\"run\", tooltip=\"app::core::run\"];\n\
         \x20 n2 [label=\"step\", tooltip=\"app::core::step\", color=red];\n\
         \x20 n3 [label=\"read\", tooltip=\"std::fs::read\", style=dashed, color=gray];\n\
         \x20 n0 -> n1 [label=\"direct\"];\n\
         \x20 n1 -> n2 [label=\"direct\"];\n\
         \x20 n2 -> n3 [label=\"unresolved\"];\n}\n"
    );
}

#[test]
fn graphml_lists_nodes_and_numbered_edges() {
    let xml = export_graphml(&graph());
    assert!(xml.starts_with("<?xml version=\"1.0\" encoding=\"UTF-8\"?>\n<graphml"));
    assert!(xml.contains(
        "    <node id=\"n0\">\n      <data key=\"name\">main</data>\n      <data key=\"qname\">app::main</data>\n"
    ));
    assert!(xml.contains("<edge id=\"e1\" source=\"n1\" target=\"n2\"><data key=\"ekind\">direct"));
    assert!(xml.ends_with("  </graph>\n</graphml>\n"));
}

#[test]
fn markup_is_escaped() {
    assert_eq!(xml_escape("a<b> & 'c' \"d\""), "a&lt;b&gt; &amp; &apos;c&apos; &quot;d&quot;");
    assert_eq!(dot_escape("say \"hi\" \\ there"), "say \\\"hi\\\" \\\\ there");
}

#[test]
fn the_summary_ranks_and_pads() {
    let mut report = AnalysisReport::new(graph());
    report.diagnostics.push(Diagnostic::new("complexity", "deep_nesting", Severity::Low, "low"));
    report.diagnostics.push(Diagnostic::new("hazards", "unsafe_usage", Severity::High, "bad"));
    report
        .suggestions
        .push(Suggestion::new("Split it", "It does two things").with_priority(7));
    let text = format_summary(&report, 1);
    assert!(text.contains("\nfiles:        1\nfunctions:    3 (0 external/unresolved)\ncall edges:   2\n"));
    assert!(text.contains("\ndiagnostics:  2 (1 high severity)\nsuggestions:  1\n"));
    assert!(text.contains("\nTop 1 by fan-in (callers):\n"));
    // Only the worst finding is listed.
    assert!(text.contains("\nDiagnostics:\n  [high] bad (unsafe_usage)\n"));
    assert!(!text.contains("low (deep_nesting)"));
    assert!(text.contains("  (  7) Split it\n        It does two things\n"));
}

#[test]
fn flows_are_written_out_and_drawn() {
    let g = graph();
    let main = g.node_by_qualified("app::main").unwrap();
    let step = g.node_by_qualified("app::core::step").unwrap();
    let fp = shortest_paths(&g, &vec![main], &vec![step], 4, 8).unwrap();
    let text = format_text(&g, &fp);
    assert!(text.contains("app::main"));
    assert!(text.contains("app::core::step"));
    let diagram = to_flow_graph(&g, &fp);
    let labels: Vec<(&str, usize, bool)> = diagram
        .nodes
        .iter()
        .map(|n| (n.label.as_str(), n.column, n.emphasize))
        .collect();
    assert_eq!(
        labels,
        vec![("main", 0, true), ("run", 1, false), ("step", 2, true)]
    );
    assert_eq!(diagram.edges, vec![(0, 1), (1, 2)]);
    let h = hop(&g, step);
    assert_eq!((h.name.as_str(), h.line, h.end_line), ("step", 20, 22));
    assert_eq!(h.file, "src/lib.rs");
}

#[test]
fn snippets_are_lines_of_a_text() {
    assert_eq!(split_lines("a\r\nb\n\nc"), vec!["a", "b", "", "c"]);
    assert_eq!(split_lines("a\n"), vec!["a"]);
    assert!(split_lines("").is_empty());
    assert_eq!(snippet("a\nb\nc\nd", 2, 3).as_deref(), Some("b\nc"));
    assert_eq!(snippet("a\nb", 0, 0).as_deref(), Some("a"));
    assert_eq!(snippet("a\nb", 9, 12).as_deref(), Some("b"));
    assert_eq!(snippet("", 1, 2), None);
}
