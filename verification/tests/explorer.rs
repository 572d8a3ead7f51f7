//! Walking around in a graph.

use livewalk::adjacency::build_adjacency;
use livewalk::calltree::call_tree;
use livewalk::card::node_card;
use livewalk::engine::Progress;
use livewalk::entries::EntryKind;
use livewalk::explorer::{
    build_explorer, call_tag, compact_location, entry_badge, scopes_to_open, start_list,
    starting_point, toggle, tree_item, visible_rows,
};
use livewalk::graph::{CodeGraph, Edge, EdgeKind, Node, NodeFlags, NodeKind, NodeStats, SourceSpan};
use livewalk::ids::NodeId;
use livewalk::session::{progress_note, tree_options, Nav, HISTORY_MAX};
use std::collections::HashSet;

fn def(g: &mut CodeGraph, qn: &str, line: u32) -> NodeId {
    let f = g.intern_file("crates/app/src/lib.rs");
    g.add_node(Node {
        id: NodeId(0),
        name: qn.rsplit("::").next().unwrap().to_string(),
        qualified_name: qn.to_string(),
        module: qn.rsplit_once("::").map(|(m, _)| m.to_string()).unwrap(),
        kind: NodeKind::Function,
        span: SourceSpan::new(f, line, 0, line + 2, 1),
        flags: NodeFlags::default(),
        stats: NodeStats::default(),
    })
}

/// `main` calls `run`, which calls `step` twice; nobody calls `spare`.
fn graph() -> CodeGraph {
    let mut g = CodeGraph::new();
    let main = def(&mut g, "app::main", 1);
    let run = def(&mut g, "app::core::run", 10);
    let step = def(&mut g, "app::core::step", 20);
    def(&mut g, "app::spare", 30);
    let f = g.intern_file("crates/app/src/lib.rs");
    let edge = |l| Edge::new(EdgeKind::DirectCall, SourceSpan::new(f, l, 0, l, 5));
    g.add_edge(main, run, edge(2));
    g.add_edge(run, step, edge(11));
    g.add_edge(run, step, edge(12));
    g
}

#[test]
fn folded_scopes_hide_what_is_below_them() {
    let g = graph();
    let data = build_explorer(&g);
    let labels = |open: &HashSet<u64>| -> Vec<String> {
        visible_rows(&data.rows, open)
            .iter()
            .map(|&i| data.rows[i].label.clone())
            .collect()
    };
    assert_eq!(labels(&HashSet::new()), vec!["app"]);
    let mut open = scopes_to_open(&data.rows, true);
    assert_eq!(labels(&open), vec!["app", "core", "main", "spare"]);
    let all = scopes_to_open(&data.rows, false);
    assert_eq!(
        labels(&all),
        vec!["app", "core", "run", "step", "main", "spare"]
    );
    // Folding the outermost scope hides an open one inside it.
    let root = data.rows[0].id;
    let mut folded = all.clone();
    toggle(&mut folded, root);
    assert_eq!(labels(&folded), vec!["app"]);
    toggle(&mut folded, root);
    assert_eq!(folded, all);
    toggle(&mut open, root);
    assert!(open.is_empty());
}

#[test]
fn rows_know_their_parents() {
    let g = graph();
    let rows = build_explorer(&g).rows;
    assert_eq!(rows[0].parent, None);
    for (i, row) in rows.iter().enumerate() {
        if let Some(p) = row.parent {
            assert!(p < i);
            assert!(rows[p].is_scope);
            assert_eq!(rows[p].depth + 1, row.depth);
        }
    }
    assert_eq!(rows.len(), 6);
    assert_eq!(rows[0].functions, 4);
}

#[test]
fn the_start_reaches_the_most() {
    let g = graph();
    let items = start_list(&g);
    assert_eq!(items[0].kind, EntryKind::Main);
    assert_eq!(items[0].reach, Some(2));
    assert_eq!(starting_point(&items), g.node_by_qualified("app::main"));
    assert_eq!(starting_point(&vec![]), None);
    assert_eq!(entry_badge(EntryKind::Main), ("badge main", "main"));
}

#[test]
fn calls_are_tagged() {
    let g = graph();
    let step = g.node_by_qualified("app::core::step").unwrap();
    let card = node_card(&g, step).unwrap();
    assert_eq!(call_tag(&card.inputs[0]), "direct ×2 · L11");
}

#[test]
fn locations_keep_one_directory() {
    assert_eq!(compact_location("crates/app/src/lib.rs:12"), "src/lib.rs:12");
    assert_eq!(compact_location("lib.rs:12"), "lib.rs:12");
    assert_eq!(compact_location("a\\b\\c.rs"), "b/c.rs");
    assert_eq!(compact_location(""), "");
}

#[test]
fn trees_are_shown_with_names_and_places() {
    let g = graph();
    let main = g.node_by_qualified("app::main").unwrap();
    let item = tree_item(&g, &call_tree(&g, main, &tree_options()));
    assert_eq!(item.name, "main");
    assert_eq!(item.children[0].name, "run");
    assert_eq!(item.children[0].location, "lib.rs:10");
    assert!(!item.children[0].external);
    assert_eq!(item.children[0].children.len(), 1);
}

#[test]
fn going_back_undoes_a_selection() {
    let g = graph();
    let main = g.node_by_qualified("app::main").unwrap();
    let run = g.node_by_qualified("app::core::run").unwrap();
    let mut nav = Nav::new();
    assert!(nav.select(&g, main, true));
    assert!(nav.select(&g, run, true));
    assert_eq!(nav.history, vec![main]);
    assert!(nav.back(&g));
    assert_eq!(nav.selected, Some(main));
    assert!(nav.history.is_empty());
    assert!(!nav.back(&g));
    assert!(!nav.select(&g, NodeId(99), true));
    assert_eq!(nav.selected, Some(main));
}

#[test]
fn the_history_is_bounded() {
    let g = graph();
    let main = g.node_by_qualified("app::main").unwrap();
    let run = g.node_by_qualified("app::core::run").unwrap();
    let mut nav = Nav::new();
    for i in 0..200 {
        nav.select(&g, if i % 2 == 0 { main } else { run }, true);
    }
    assert_eq!(nav.history.len(), HISTORY_MAX);
    nav.reset();
    assert!(nav.history.is_empty());
    assert_eq!(nav.selected, None);
}

#[test]
fn flows_follow_the_selection() {
    let g = graph();
    let main = g.node_by_qualified("app::main").unwrap();
    let run = g.node_by_qualified("app::core::run").unwrap();
    let step = g.node_by_qualified("app::core::step").unwrap();
    let mut nav = Nav::new();
    nav.select(&g, main, true);
    nav.trace(&g);
    assert_eq!(nav.anchor_name, "main");
    nav.select(&g, step, true);
    assert_eq!(nav.chain, vec![main, run, step]);
    nav.clear_flow();
    assert!(nav.chain.is_empty());
    assert_eq!(nav.anchor, None);
    nav.clear();
    assert_eq!(nav.selected, None);
}

#[test]
fn progress_is_put_into_words() {
    let note = |p| {
        let (phase, text) = progress_note(p);
        format!("{phase}: {text}")
    };
    assert_eq!(note(Progress::Discovering), "discover: scanning repository");
    assert_eq!(
        note(Progress::Parsed { nodes: 12, edges: 7 }),
        "parse: parsed 12 nodes / 7 edges"
    );
    assert_eq!(
        note(Progress::Done {
            nodes: 12,
            diagnostics: 3,
            suggestions: 0
        }),
        "graph: graph ready (12 nodes)"
    );
}

#[test]
fn adjacency_is_symmetric() {
    let g = graph();
    let adj = build_adjacency(&g, g.node_count());
    assert_eq!(adj.offsets, vec![0, 1, 3, 4, 4]);
    let of = |i: usize| &adj.neighbors[adj.offsets[i] as usize..adj.offsets[i + 1] as usize];
    assert_eq!(of(0), &[1]);
    let mut middle = of(1).to_vec();
    middle.sort_unstable();
    assert_eq!(middle, vec![0, 2]);
    assert_eq!(of(2), &[1]);
}
