//! The panes beside the graph, and the pointer over it.

use livewalk::calltree::call_tree;
use livewalk::card::node_card;
use livewalk::commands::focus;
use livewalk::diagnostic::{Diagnostic, Severity};
use livewalk::entries::EntryKind;
use livewalk::explorer::{build_explorer, start_list, tree_item};
use livewalk::graph::{CodeGraph, Edge, EdgeKind, Node, NodeFlags, NodeKind, NodeStats, SourceSpan};
use livewalk::ids::NodeId;
use livewalk::panes::{
    call_list, call_style, detail, entry_groups, finding_lines, findings_title, fixture_url,
    flow_note, indent_text, leaf_note, more_note, overview, reach_note, request_problem,
    row_style, shown_rows, targets_text, totals_text, twisty, FlowNote,
};
use livewalk::pointer::{map_event, MapEvent, Pointer, Spot};
use livewalk::report::AnalysisReport;
use livewalk::session::{tree_options, Nav};
use livewalk::suggestion::{Suggestion, Target};
use std::collections::HashSet;

fn def(g: &mut CodeGraph, qn: &str, line: u32) -> NodeId {
    let f = g.intern_file("crates/app/src/lib.rs");
    g.add_node(Node {
        id: NodeId(0),
        name: qn.rsplit("::").next().unwrap().to_string(),
        qualified_name: qn.to_string(),
        module: qn.rsplit_once("::").map(|(m, _)| m.to_string()).unwrap(),
        kind: NodeKind::Function,
        span: SourceSpan::new(f, line, 0, line + 2, 1),
        flags: NodeFlags {
            is_pub: true,
            is_async: true,
            ..Default::default()
        },
        stats: NodeStats {
            decision_points: 6,
            parameters: 2,
            lines_of_code: 30,
            max_nesting: 4,
            allocations: 5,
            ..Default::default()
        },
    })
}

fn call(g: &mut CodeGraph, from: NodeId, to: NodeId, line: u32) {
    let f = g.intern_file("crates/app/src/lib.rs");
    g.add_edge(
        from,
        to,
        Edge::new(EdgeKind::DirectCall, SourceSpan::new(f, line, 0, line, 5)),
    );
}

/// `main` calls `run`, which calls `step`; nobody calls `spare`.
fn graph() -> CodeGraph {
    let mut g = CodeGraph::new();
    let main = def(&mut g, "app::main", 1);
    let run = def(&mut g, "app::core::run", 10);
    let step = def(&mut g, "app::core::step", 20);
    def(&mut g, "app::spare", 30);
    call(&mut g, main, run, 2);
    call(&mut g, run, step, 11);
    g
}

fn id(g: &CodeGraph, qn: &str) -> NodeId {
    g.node_by_qualified(qn).unwrap()
}

#[test]
fn entries_are_grouped_and_capped() {
    let mut g = graph();
    for i in 0..20 {
        def(&mut g, &format!("app::extra{i:02}"), 40 + i);
    }
    let items = start_list(&g);
    let groups = entry_groups(&items);
    let kinds: Vec<(EntryKind, usize, usize)> = groups
        .iter()
        .map(|x| (x.kind, x.total, x.shown.len()))
        .collect();
    assert_eq!(
        kinds,
        vec![(EntryKind::Main, 1, 1), (EntryKind::PublicRoot, 21, 12)]
    );
    assert_eq!(groups[0].more, None);
    assert_eq!(groups[1].more.as_deref(), Some("… 9 more"));
    assert_eq!(items[groups[1].shown[0]].name, "app::extra00");
    assert_eq!(groups.iter().map(|x| x.total).sum::<usize>(), items.len());
    assert_eq!(reach_note(items[0].reach).as_deref(), Some("reaches 2 fn"));
    assert_eq!(reach_note(None), None);
    assert!(entry_groups(&vec![]).is_empty());
}

#[test]
fn the_filter_replaces_the_folds() {
    let g = graph();
    let data = build_explorer(&g);
    let labels = |filter: Option<&str>| -> Vec<String> {
        shown_rows(&data, filter, &HashSet::new())
            .iter()
            .map(|r| r.label.clone())
            .collect()
    };
    assert_eq!(labels(None), vec!["app"]);
    assert_eq!(labels(Some("STEP")), vec!["app", "core", "step"]);
    assert_eq!(labels(Some("  ")).len(), data.rows.len());
    assert!(labels(Some("zzz")).is_empty());
    assert_eq!(totals_text(&data), "4 fn · 2 scopes");
    assert_eq!(indent_text(0), "padding-left:6px");
    assert_eq!(indent_text(3), "padding-left:48px");
    assert_eq!((twisty(true), twisty(false)), ("▾", "▸"));
    assert_eq!(row_style(Some(NodeId(2)), NodeId(2)), "row fn selected");
    assert_eq!(row_style(None, NodeId(2)), "row fn");
}

#[test]
fn details_show_the_card() {
    let g = graph();
    let d = detail(&node_card(&g, id(&g, "app::core::run")).unwrap());
    assert_eq!(d.qualified_name, "app::core::run");
    assert_eq!(d.location, "crates/app/src/lib.rs:10");
    assert_eq!(d.meta, "function · src/lib.rs:10");
    assert_eq!(d.flags.as_deref(), Some("pub · async"));
    assert_eq!(d.badge, None);
    let stats: Vec<(&str, &str)> = d.stats.iter().map(|s| (s.label, s.value.as_str())).collect();
    assert_eq!(
        stats,
        vec![
            ("complexity", "7"),
            ("fan-in / out", "1 / 1"),
            ("LOC", "30"),
            ("params", "2"),
            ("nesting", "4"),
            ("allocs", "5"),
        ]
    );
    assert_eq!(d.inputs_title, "Inputs — 1 caller(s)");
    assert_eq!(d.inputs.lines[0].name, "app::main");
    assert_eq!(d.inputs.lines[0].tag, "direct · L2");
    assert_eq!(d.outputs_title, "Outputs — 1 callee(s)");
    assert_eq!(d.outputs.lines[0].node, id(&g, "app::core::step"));
    let main = detail(&node_card(&g, id(&g, "app::main")).unwrap());
    assert_eq!(main.badge, Some(("badge main", "main")));
}

#[test]
fn long_lists_of_calls_are_cut() {
    let mut g = graph();
    let main = id(&g, "app::main");
    for i in 0..40 {
        let c = def(&mut g, &format!("app::callee{i:02}"), 100 + i);
        call(&mut g, main, c, 100 + i);
    }
    let read = g.add_node(Node::external("std::fs::read"));
    g.add_edge(
        main,
        read,
        Edge::new(EdgeKind::Unresolved, SourceSpan::default()),
    );
    let card = node_card(&g, main).unwrap();
    let list = call_list(&card.outputs);
    assert_eq!(list.lines.len(), 30);
    assert_eq!(list.more.as_deref(), Some("… 12 more"));
    assert!(list.lines.iter().all(|l| l.style == "call"));
    assert_eq!(call_style(true, false), "call ext");
    assert_eq!(call_style(false, true), "call repeat");
    assert_eq!(more_note(0), None);
}

#[test]
fn flows_are_explained() {
    let g = graph();
    let text = |nav: &Nav| match flow_note(&g, nav) {
        FlowNote::Hint(t) => format!("hint {t}"),
        FlowNote::Warning(t) => format!("warning {t}"),
        FlowNote::Chain { hops, names } => format!("{hops}: {}", names.join(", ")),
    };
    let mut nav = Nav::new();
    assert!(text(&nav).starts_with("hint Set a source"));
    nav.select(&g, id(&g, "app::main"), true);
    nav.trace(&g);
    assert_eq!(text(&nav), "hint source: main — now pick a target.");
    nav.click(&g, Some(id(&g, "app::core::step")));
    assert_eq!(text(&nav), "2 hop(s): main, run, step");
    nav.click(&g, Some(id(&g, "app::spare")));
    assert!(text(&nav).starts_with("warning no call path from main to this node"));
    // A click beside all nodes drops the selection, and no node changes nothing.
    nav.click(&g, Some(NodeId(99)));
    assert_eq!(nav.selected, Some(id(&g, "app::spare")));
    nav.click(&g, None);
    assert_eq!(nav.selected, None);
}

#[test]
fn leaves_are_named() {
    let g = graph();
    let tree = |qn: &str| tree_item(&g, &call_tree(&g, id(&g, qn), &tree_options()));
    assert_eq!(
        leaf_note(&tree("app::spare")),
        Some("Leaf: calls nothing in the analyzed code.")
    );
    assert_eq!(leaf_note(&tree("app::main")), None);
}

#[test]
fn reports_are_listed() {
    let mut report = AnalysisReport::new(graph());
    for i in 0..16 {
        report.diagnostics.push(Diagnostic::new(
            "complexity",
            "long_function",
            Severity::Low,
            &format!("finding {i}"),
        ));
    }
    let rows = overview(&report.summary(), "backend");
    let rows: Vec<(&str, &str)> = rows.iter().map(|s| (s.label, s.value.as_str())).collect();
    assert_eq!(
        rows,
        vec![
            ("Vertical", "backend"),
            ("Files", "1"),
            ("Functions", "4"),
            ("Calls", "2"),
            ("External", "0"),
            ("Diagnostics", "16"),
            ("Suggestions", "0"),
        ]
    );
    assert_eq!(overview(&report.summary(), "").len(), 6);
    assert_eq!(findings_title(&report.diagnostics), "Diagnostics (16)");
    let lines = finding_lines(&report.diagnostics);
    assert_eq!(lines.len(), 14);
    assert_eq!(lines[0].style, "diag sev-low");
    assert_eq!(lines[13].message, "finding 13");
    let s = Suggestion::new("t", "r").with_targets(vec![Target::Latency, Target::Robustness]);
    assert_eq!(targets_text(&s), "latency · robustness");
}

#[test]
fn requests_need_a_path_where_a_host_runs() {
    assert_eq!(
        request_problem(true, "  "),
        Some("Please enter a repository path.")
    );
    assert_eq!(request_problem(true, "repo"), None);
    assert_eq!(request_problem(false, ""), None);
    assert_eq!(fixture_url(" "), "fixture.json");
    assert_eq!(fixture_url("other.json"), "other.json");
}

#[test]
fn pictures_point_out_a_symbol_and_a_path() {
    let g = graph();
    let f = focus(&g, "step", Some("main")).unwrap();
    assert_eq!(f.target, id(&g, "app::core::step"));
    assert_eq!(f.path.len(), 3);
    assert_eq!(f.breadcrumb.as_deref(), Some("flow: main -> run -> step"));
    let f = focus(&g, "step", None).unwrap();
    assert!(f.path.is_empty());
    assert_eq!(f.breadcrumb, None);
    assert!(focus(&g, "step", Some("spare")).unwrap().path.is_empty());
    assert!(focus(&g, "zzz", Some("main")).is_none());
}

#[test]
fn small_steps_are_no_drag() {
    let at = |x: i32, y: i32| Spot { x, y };
    let mut p = Pointer::new();
    assert_eq!(p.move_to(at(5, 5)), None);
    assert!(!p.release());

    p.press(at(10, 10));
    assert_eq!(p.move_to(at(11, 9)), Some((1, -1)));
    assert_eq!(p.move_to(at(13, 9)), Some((2, 0)));
    assert!(p.release());
    assert!(!p.release());

    p.press(at(10, 10));
    assert_eq!(p.move_to(at(8, 11)), Some((-2, 1)));
    assert!(!p.release());

    p.press(at(i32::MIN, 0));
    assert_eq!(p.move_to(at(i32::MAX, 0)), Some((4_294_967_295, 0)));
    assert!(!p.release());
}

#[test]
fn the_map_follows_a_held_button() {
    assert_eq!(map_event(false, MapEvent::Move), (false, false));
    assert_eq!(map_event(false, MapEvent::Down), (true, true));
    assert_eq!(map_event(true, MapEvent::Move), (true, true));
    assert_eq!(map_event(true, MapEvent::Up), (false, false));
}
