//! Navigation queries over a small application.

use livewalk::calltree::{call_tree, CallTreeOptions};
use livewalk::card::node_card;
use livewalk::commands::{
    config_search_dir, entry_reach, listed_entries, pick_symbol, rank_entries, top_entries,
    trace_flow, FlowFailure,
};
use livewalk::entries::{classify_entry, entry_points, mains, primary_entry, EntryKind};
use livewalk::flow::{shortest_path, shortest_paths};
use livewalk::graph::{CodeGraph, Edge, EdgeKind, Node, NodeFlags, NodeKind, NodeStats, SourceSpan};
use livewalk::ids::{FileId, NodeId};
use livewalk::outline::{outline, Outline, OutlineKind, OutlineNode};
use livewalk::reach::{reach_count, reachable, Direction};
use livewalk::resolve::{best_match, resolve};
use livewalk::text::white;

fn def(g: &mut CodeGraph, qn: &str, file: &str, line: u32, flags: NodeFlags) -> NodeId {
    let f = g.intern_file(file);
    let name = qn.rsplit("::").next().unwrap_or(qn).to_string();
    let module = qn
        .rsplit_once("::")
        .map(|(m, _)| m.to_string())
        .unwrap_or_default();
    g.add_node(Node {
        id: NodeId(0),
        name,
        qualified_name: qn.to_string(),
        module,
        kind: if flags.is_method {
            NodeKind::Method
        } else {
            NodeKind::Function
        },
        span: SourceSpan::new(f, line, 0, line + 3, 1),
        flags,
        stats: NodeStats {
            lines_of_code: 4,
            decision_points: 2,
            parameters: 1,
            ..Default::default()
        },
    })
}

fn plain(g: &mut CodeGraph, qn: &str, file: &str, line: u32) -> NodeId {
    def(g, qn, file, line, NodeFlags::default())
}

fn call(g: &mut CodeGraph, from: NodeId, to: NodeId, kind: EdgeKind, line: u32) {
    let file = g.node(from).span.file();
    g.add_edge(
        from,
        to,
        Edge::new(kind, SourceSpan::new(file, line, 4, line, 20)),
    );
}

/// A small application:
///
/// ```text
/// app::main --> app::run --> app::io::load --> std::fs::read (external)
///     |              |
///     |              +-----> app::core::parse --> app::core::Lexer::next
///     +-------> app::io::save            ^
///                                        |
///        app::core::tests::test_parse ---+   app::orphan (uncalled)
/// ```
fn app_graph() -> CodeGraph {
    let mut g = CodeGraph::new();
    let pub_flag = NodeFlags {
        is_pub: true,
        ..Default::default()
    };
    let main = plain(&mut g, "app::main", "src/main.rs", 10);
    let run = def(&mut g, "app::run", "src/main.rs", 20, pub_flag);
    let load = def(&mut g, "app::io::load", "src/io.rs", 5, pub_flag);
    let save = def(&mut g, "app::io::save", "src/io.rs", 30, pub_flag);
    let parse = def(&mut g, "app::core::parse", "src/core.rs", 8, pub_flag);
    let next = def(
        &mut g,
        "app::core::Lexer::next",
        "src/core.rs",
        40,
        NodeFlags {
            is_method: true,
            ..Default::default()
        },
    );
    let test = def(
        &mut g,
        "app::core::tests::test_parse",
        "src/core.rs",
        80,
        NodeFlags {
            is_test: true,
            ..Default::default()
        },
    );
    let _orphan = plain(&mut g, "app::orphan", "src/main.rs", 60);
    let read = g.add_node(Node::external("std::fs::read"));

    call(&mut g, main, run, EdgeKind::DirectCall, 11);
    call(&mut g, main, save, EdgeKind::DirectCall, 12);
    call(&mut g, run, load, EdgeKind::DirectCall, 21);
    call(&mut g, run, parse, EdgeKind::DirectCall, 22);
    call(&mut g, run, parse, EdgeKind::DirectCall, 23); // merged: count 2
    call(&mut g, load, read, EdgeKind::Unresolved, 6);
    call(&mut g, parse, next, EdgeKind::MethodCall, 9);
    call(&mut g, test, parse, EdgeKind::DirectCall, 81);
    assert_eq!(g.file_count(), 3);
    assert_eq!(g.node(main).span.file(), FileId(0));
    g
}

fn id(g: &CodeGraph, qn: &str) -> NodeId {
    g.node_by_qualified(qn)
        .unwrap_or_else(|| panic!("missing {qn}"))
}

fn labels(nodes: &[OutlineNode]) -> Vec<&str> {
    nodes.iter().map(|n| n.label.as_str()).collect()
}

// -- cards ----------------------------------------------------------------------------

#[test]
fn card_lists_inputs_and_outputs_with_edge_data() {
    let g = app_graph();
    let card = node_card(&g, id(&g, "app::core::parse")).unwrap();
    assert_eq!(card.location(), "src/core.rs:8");
    assert_eq!(card.location_short(), "core.rs:8");
    assert_eq!(card.flags, vec!["pub"]);
    assert_eq!(card.metrics.cyclomatic, 3);
    assert_eq!(card.entry, None);
    assert_eq!((card.fan_in, card.fan_out), (2, 1));

    let inputs: Vec<(&str, u32, u32)> = card
        .inputs
        .iter()
        .map(|c| (c.qualified_name.as_str(), c.count, c.call_site.start_line))
        .collect();
    // The two identical run -> parse call sites merged into count 2.
    assert_eq!(
        inputs,
        vec![("app::core::tests::test_parse", 1, 81), ("app::run", 2, 22)]
    );
    assert_eq!(card.inputs[1].site_file, "src/main.rs");

    let out = &card.outputs[0];
    assert_eq!(out.qualified_name, "app::core::Lexer::next");
    assert_eq!(out.kind, EdgeKind::MethodCall);
    assert!(!out.external);
}

#[test]
fn externals_are_tagged_and_sorted_last() {
    let g = app_graph();
    let card = node_card(&g, id(&g, "app::io::load")).unwrap();
    assert_eq!(card.outputs.len(), 1);
    assert!(card.outputs[0].external);
    assert_eq!(card.outputs[0].kind, EdgeKind::Unresolved);
    let main = node_card(&g, id(&g, "app::main")).unwrap();
    assert_eq!(main.entry, Some(EntryKind::Main));
    assert!(node_card(&g, NodeId(999)).is_none());
}

#[test]
fn a_card_of_an_external_has_no_file() {
    let g = app_graph();
    let card = node_card(&g, id(&g, "std::fs::read")).unwrap();
    assert_eq!(card.location(), "<external>");
    assert_eq!(card.location_short(), "");
    assert_eq!(card.name, "read");
}

// -- entry points ---------------------------------------------------------------------

#[test]
fn classifies_main_roots_public_api_and_tests() {
    let g = app_graph();
    let entries = entry_points(&g);
    let kinds: Vec<(String, EntryKind)> = entries
        .iter()
        .map(|e| (g.node(e.id).qualified_name.clone(), e.kind))
        .collect();
    assert_eq!(
        kinds,
        vec![
            ("app::main".into(), EntryKind::Main),
            ("app::orphan".into(), EntryKind::Root),
            ("app::core::tests::test_parse".into(), EntryKind::Test),
        ]
    );
    // Called items are not entries, even when public.
    assert_eq!(classify_entry(&g, id(&g, "app::run")), None);
    assert_eq!(mains(&g), vec![id(&g, "app::main")]);
}

#[test]
fn public_uncalled_items_are_public_roots() {
    let mut g = CodeGraph::new();
    let api = def(
        &mut g,
        "lib::api::handle",
        "src/api.rs",
        1,
        NodeFlags {
            is_pub: true,
            ..Default::default()
        },
    );
    assert_eq!(classify_entry(&g, api), Some(EntryKind::PublicRoot));
}

#[test]
fn foreign_abi_exports_are_entry_points_not_dead_code() {
    // A bare-metal kernel: `_start` (the ELF entry), `kmain` and a trap handler the
    // hardware vectors into, none of them called in the graph.
    let mut g = CodeGraph::new();
    let exported = NodeFlags {
        is_pub: true,
        is_exported: true,
        ..Default::default()
    };
    let start = def(&mut g, "kernel::_start", "kernel/src/main.rs", 1, exported);
    let kmain = def(&mut g, "kernel::kmain", "kernel/src/main.rs", 20, exported);
    let trap = def(&mut g, "kernel::trap_handler", "kernel/src/trap.rs", 9, exported);
    // A plain public helper is only an API surface, not an entry.
    let helper = def(
        &mut g,
        "kernel::helper",
        "kernel/src/main.rs",
        60,
        NodeFlags {
            is_pub: true,
            ..Default::default()
        },
    );

    assert_eq!(classify_entry(&g, start), Some(EntryKind::Main));
    assert_eq!(classify_entry(&g, kmain), Some(EntryKind::Exported));
    assert_eq!(classify_entry(&g, trap), Some(EntryKind::Exported));
    assert_eq!(classify_entry(&g, helper), Some(EntryKind::PublicRoot));

    // `_start` leads, then the exports, then the plain public root.
    let order: Vec<&str> = entry_points(&g)
        .iter()
        .map(|e| g.node(e.id).name.as_str())
        .collect();
    assert_eq!(order, vec!["_start", "kmain", "trap_handler", "helper"]);
}

#[test]
fn an_export_with_callers_is_not_an_entry() {
    // Exported and called from inside: the caller already explains it.
    let mut g = CodeGraph::new();
    let caller = plain(&mut g, "krate::caller", "src/lib.rs", 1);
    let callback = def(
        &mut g,
        "krate::callback",
        "src/lib.rs",
        20,
        NodeFlags {
            is_exported: true,
            ..Default::default()
        },
    );
    call(&mut g, caller, callback, EdgeKind::DirectCall, 2);
    assert_eq!(classify_entry(&g, callback), None);
}

#[test]
fn primary_entry_is_the_one_that_drives_the_most_code() {
    // A small host tool with a `main`, and a kernel whose only way in is an export
    // that the bootloader jumps to.
    let mut g = CodeGraph::new();
    let tool_main = plain(&mut g, "tool::main", "tools/src/main.rs", 1);
    let helper = plain(&mut g, "tool::helper", "tools/src/main.rs", 20);
    call(&mut g, tool_main, helper, EdgeKind::DirectCall, 2);

    let kmain = def(
        &mut g,
        "kernel::kmain",
        "kernel/src/main.rs",
        1,
        NodeFlags {
            is_pub: true,
            is_exported: true,
            ..Default::default()
        },
    );
    for i in 0..5 {
        let sub = plain(
            &mut g,
            &format!("kernel::step{i}"),
            "kernel/src/boot.rs",
            10 + i,
        );
        call(&mut g, kmain, sub, EdgeKind::DirectCall, 2 + i);
    }

    // `tool::main` sorts first by kind, but drives 1 function against 5.
    assert_eq!(entry_points(&g)[0].id, tool_main);
    assert_eq!(primary_entry(&g), Some(kmain));
    assert_eq!(primary_entry(&CodeGraph::new()), None);
}

#[test]
fn go_init_counts_as_main() {
    let mut g = CodeGraph::new();
    let init = plain(&mut g, "pkg::init", "cmd/x.go", 1);
    assert_eq!(classify_entry(&g, init), Some(EntryKind::Main));
    let mut r = CodeGraph::new();
    let init_rs = plain(&mut r, "krate::init", "src/lib.rs", 1);
    assert_eq!(classify_entry(&r, init_rs), Some(EntryKind::Root));
}

// -- flows ----------------------------------------------------------------------------

#[test]
fn finds_the_shortest_route_and_records_depths() {
    let g = app_graph();
    let main = id(&g, "app::main");
    let next = id(&g, "app::core::Lexer::next");
    let fp = shortest_paths(&g, &vec![main], &vec![next], 4, 16).expect("reachable");
    assert_eq!(fp.hops(), 3);
    assert_eq!(fp.paths.len(), 1);
    assert_eq!(
        fp.paths[0],
        vec![main, id(&g, "app::run"), id(&g, "app::core::parse"), next]
    );
    assert_eq!(fp.depth[&main.0], 0);
    assert_eq!(fp.depth[&next.0], 3);
}

#[test]
fn enumerates_alternate_equal_length_paths() {
    // a -> b -> d and a -> c -> d are both 2 hops.
    let mut g = CodeGraph::new();
    let a = plain(&mut g, "m::a", "src/lib.rs", 1);
    let b = plain(&mut g, "m::b", "src/lib.rs", 5);
    let c = plain(&mut g, "m::c", "src/lib.rs", 9);
    let d = plain(&mut g, "m::d", "src/lib.rs", 13);
    call(&mut g, a, b, EdgeKind::DirectCall, 2);
    call(&mut g, a, c, EdgeKind::DirectCall, 3);
    call(&mut g, b, d, EdgeKind::DirectCall, 6);
    call(&mut g, c, d, EdgeKind::DirectCall, 10);
    let fp = shortest_paths(&g, &vec![a], &vec![d], 8, 8).unwrap();
    assert_eq!(fp.paths.len(), 2);
    assert!(fp.paths.iter().all(|p| p.len() == 3));
    // Capping keeps only the first.
    assert_eq!(
        shortest_paths(&g, &vec![a], &vec![d], 1, 8)
            .unwrap()
            .paths
            .len(),
        1
    );
}

#[test]
fn parallel_calls_make_one_path() {
    let mut g = CodeGraph::new();
    let a = plain(&mut g, "m::a", "src/lib.rs", 1);
    let b = plain(&mut g, "m::b", "src/lib.rs", 5);
    call(&mut g, a, b, EdgeKind::DirectCall, 2);
    call(&mut g, a, b, EdgeKind::MethodCall, 3);
    let fp = shortest_paths(&g, &vec![a], &vec![b], 8, 8).unwrap();
    assert_eq!(fp.paths, vec![vec![a, b]]);
}

#[test]
fn a_flow_starts_at_the_source_it_names() {
    // Only the second source leads to the target.
    let mut g = CodeGraph::new();
    let a = plain(&mut g, "m::a", "src/lib.rs", 1);
    let b = plain(&mut g, "m::b", "src/lib.rs", 5);
    let t = plain(&mut g, "m::t", "src/lib.rs", 9);
    call(&mut g, b, t, EdgeKind::DirectCall, 6);
    let fp = shortest_paths(&g, &vec![a, b], &vec![t], 8, 8).unwrap();
    assert_eq!(fp.source, b);
    assert_eq!(fp.target, t);
    assert_eq!(fp.paths, vec![vec![b, t]]);
    assert_eq!(fp.depth[&b.0], 0);
    assert_eq!(fp.depth[&t.0], 1);
    assert!(!fp.depth.contains_key(&a.0));
}

#[test]
fn every_path_of_a_flow_starts_at_its_source() {
    // Both sources are two hops away; `a` by two routes, `b` by one.
    let mut g = CodeGraph::new();
    let a = plain(&mut g, "m::a", "src/lib.rs", 1);
    let b = plain(&mut g, "m::b", "src/lib.rs", 5);
    let x = plain(&mut g, "m::x", "src/lib.rs", 9);
    let y = plain(&mut g, "m::y", "src/lib.rs", 13);
    let t = plain(&mut g, "m::t", "src/lib.rs", 17);
    call(&mut g, a, x, EdgeKind::DirectCall, 2);
    call(&mut g, a, y, EdgeKind::DirectCall, 3);
    call(&mut g, b, y, EdgeKind::DirectCall, 6);
    call(&mut g, x, t, EdgeKind::DirectCall, 10);
    call(&mut g, y, t, EdgeKind::DirectCall, 14);
    let fp = shortest_paths(&g, &vec![a, b], &vec![t], 8, 8).unwrap();
    assert_eq!(fp.source, a);
    assert_eq!(fp.paths.len(), 2);
    for p in &fp.paths {
        assert_eq!((p[0], p[2]), (a, t));
        for (i, id) in p.iter().enumerate() {
            assert_eq!(fp.depth[&id.0] as usize, i);
        }
    }
    assert_ne!(fp.paths[0], fp.paths[1]);
    // Asked the other way round, the flow starts at the other source.
    let back = shortest_paths(&g, &vec![b, a], &vec![t], 8, 8).unwrap();
    assert_eq!(back.source, b);
    assert_eq!(back.paths, vec![vec![b, y, t]]);
}

#[test]
fn respects_direction_and_depth_limit() {
    let g = app_graph();
    let main = id(&g, "app::main");
    let next = id(&g, "app::core::Lexer::next");
    // Calls only flow forward: nothing leads back to main.
    assert!(shortest_path(&g, next, main, 16).is_none());
    // Too shallow a search misses a 3-hop path.
    assert!(shortest_path(&g, main, next, 2).is_none());
    assert_eq!(shortest_path(&g, main, main, 16), Some(vec![main]));
}

#[test]
fn empty_inputs_yield_none() {
    let g = app_graph();
    assert!(shortest_paths(&g, &vec![], &vec![NodeId(0)], 1, 8).is_none());
    assert!(shortest_paths(&g, &vec![NodeId(0)], &vec![], 1, 8).is_none());
}

// -- outline --------------------------------------------------------------------------

#[test]
fn builds_crate_module_type_function_hierarchy() {
    let g = app_graph();
    let o = outline(&g);
    assert_eq!(o.roots.len(), 1);
    let app = &o.roots[0];
    assert_eq!(app.label, "app");
    assert_eq!(app.functions, 8);
    assert_eq!(app.entries, 3);
    // Scopes first (alphabetical), then functions in source order.
    assert_eq!(
        labels(&app.children),
        vec!["core", "io", "main", "run", "orphan"]
    );
    let core = &app.children[0];
    assert_eq!(labels(&core.children), vec!["Lexer", "tests", "parse"]);
    assert_eq!(core.children[0].path, "app::core::Lexer");
    assert_eq!(core.children[0].children[0].path, "app::core::Lexer::next");
    assert_eq!(o.functions, 8);
    assert_eq!(o.scopes, 5); // app, core, io, Lexer, tests
    // Externals are excluded.
    assert!(o.flatten().iter().all(|n| n.path != "std::fs::read"));
}

#[test]
fn ids_are_pre_order_and_lookup_works() {
    let g = app_graph();
    let o = outline(&g);
    let flat = o.flatten();
    for (i, n) in flat.iter().enumerate() {
        assert_eq!(n.id as usize, i);
    }
    let main = o.find(id(&g, "app::main")).unwrap();
    assert_eq!(main.entry, Some(EntryKind::Main));
    assert_eq!(main.depth, 1);
    assert_eq!(main.cyclomatic, 3);
}

#[test]
fn prune_keeps_matches_and_their_ancestors() {
    let g = app_graph();
    let o = outline(&g);
    let p = o.prune("PARSE");
    assert_eq!(p.functions, 2); // parse + test_parse
    let app = &p.roots[0];
    assert_eq!(labels(&app.children), vec!["core"]);
    assert_eq!(app.functions, 2);
    assert_eq!(labels(&app.children[0].children), vec!["tests", "parse"]);
    assert_eq!(o.prune("  ").functions, 8);
    assert!(o.prune("zzz").roots.is_empty());
}

#[test]
fn pruned_rows_keep_their_ids_in_order() {
    let g = app_graph();
    let o = outline(&g);
    assert_eq!(o.flatten().len(), o.functions + o.scopes);
    for query in ["parse", "io", "app", "n", "zzz"] {
        let p = o.prune(query);
        let rows = p.flatten();
        assert_eq!(rows.len(), p.functions + p.scopes);
        assert!(rows.windows(2).all(|w| w[0].id < w[1].id));
    }
}

#[test]
fn only_definitions_have_a_row() {
    let g = app_graph();
    let o = outline(&g);
    let mut found = 0;
    for n in g.nodes() {
        match o.find(n.id) {
            Some(row) => {
                found += 1;
                assert_ne!(n.kind, NodeKind::External);
                assert_eq!(row.path, n.qualified_name);
                assert!(row.children.is_empty());
            }
            None => assert_eq!(n.kind, NodeKind::External),
        }
    }
    assert_eq!(found, o.functions);
    assert!(o.find(NodeId(999)).is_none());
}

fn row(path: &str, kind: OutlineKind, functions: u32, children: Vec<OutlineNode>) -> OutlineNode {
    OutlineNode {
        id: 0,
        label: path.to_string(),
        path: path.to_string(),
        kind,
        node: None,
        depth: 0,
        functions,
        entries: 0,
        entry: None,
        cyclomatic: 0,
        children,
    }
}

#[test]
fn rows_of_any_origin_can_be_pruned() {
    // The counts of this scope are not the sums of those below.
    let loose = Outline {
        roots: vec![row(
            "m",
            OutlineKind::Scope,
            0,
            vec![row("m::a", OutlineKind::Function, 7, vec![])],
        )],
        functions: 1,
        scopes: 1,
    };
    let p = loose.prune("A");
    assert_eq!(p.roots[0].functions, 7);
    assert_eq!((p.functions, p.scopes), (1, 1));
    // Two counts whose sum is too large for its type.
    let huge = Outline {
        roots: vec![row(
            "m",
            OutlineKind::Scope,
            0,
            vec![
                row("m::a", OutlineKind::Function, u32::MAX, vec![]),
                row("m::b", OutlineKind::Function, 1, vec![]),
            ],
        )],
        functions: 2,
        scopes: 1,
    };
    assert!(huge.try_prune("m::").is_none());
    assert_eq!(huge.try_prune("b").unwrap().roots[0].functions, 1);
    assert_eq!(huge.try_prune(" ").unwrap().functions, 2);
}

// -- reach and call trees -------------------------------------------------------------

#[test]
fn reachable_walks_forward_and_backward_with_depths() {
    let g = app_graph();
    let main = id(&g, "app::main");
    let down = reachable(&g, &vec![main], Direction::Callees, u32::MAX);
    let names: Vec<(String, u32)> = down
        .iter()
        .map(|r| (g.node(r.id).qualified_name.clone(), r.depth))
        .collect();
    assert_eq!(names[0], ("app::main".into(), 0));
    assert!(names.contains(&("app::core::Lexer::next".into(), 3)));
    assert!(names.contains(&("std::fs::read".into(), 3)));
    // Externals don't count toward how much code `main` drives.
    assert_eq!(reach_count(&g, main, Direction::Callees), 5);

    let up = reachable(
        &g,
        &vec![id(&g, "app::core::parse")],
        Direction::Callers,
        8,
    );
    let callers: Vec<String> = up
        .iter()
        .map(|r| g.node(r.id).qualified_name.clone())
        .collect();
    assert!(callers.contains(&"app::run".to_string()));
    assert!(callers.contains(&"app::main".to_string()));
    assert!(callers.contains(&"app::core::tests::test_parse".to_string()));
    // A depth limit stops the walk.
    assert_eq!(reachable(&g, &vec![main], Direction::Callees, 1).len(), 3);
}

#[test]
fn call_tree_orders_by_call_site_and_expands_once() {
    let g = app_graph();
    let main = id(&g, "app::main");
    let tree = call_tree(&g, main, &CallTreeOptions::default());
    // main calls run (line 11) before save (line 12).
    let kids: Vec<&str> = tree
        .children
        .iter()
        .map(|c| g.node(c.id).name.as_str())
        .collect();
    assert_eq!(kids, vec!["run", "save"]);
    // run -> load -> (std::fs::read excluded), run -> parse -> next.
    let run = &tree.children[0];
    assert_eq!(run.children.len(), 2);
    assert!(run.children[0].children.is_empty()); // load's only callee is external
    assert_eq!(tree.size(), 6);
    assert!(!tree.children.iter().any(|c| c.repeat));
}

#[test]
fn call_tree_marks_cycles_and_truncates() {
    let mut g = CodeGraph::new();
    let a = plain(&mut g, "m::a", "src/lib.rs", 1);
    let b = plain(&mut g, "m::b", "src/lib.rs", 5);
    call(&mut g, a, b, EdgeKind::DirectCall, 2);
    call(&mut g, b, a, EdgeKind::DirectCall, 6); // a <-> b
    for i in 0..5 {
        let leaf = plain(&mut g, &format!("m::leaf{i}"), "src/lib.rs", 20 + i);
        call(&mut g, b, leaf, EdgeKind::DirectCall, 7 + i);
    }
    let opts = CallTreeOptions {
        max_children: 2,
        ..Default::default()
    };
    let tree = call_tree(&g, a, &opts);
    let b_node = &tree.children[0];
    assert_eq!(b_node.id, b);
    // b's children: `a` (line 6, a repeat/cycle) then leaf0; 4 truncated.
    assert_eq!(b_node.children.len(), 2);
    assert!(b_node.children[0].repeat);
    assert_eq!(b_node.children[0].id, a);
    assert_eq!(b_node.truncated, 4);
}

#[test]
fn a_symbol_is_expanded_where_it_stands_highest() {
    // a -> b -> c -> d and a -> c: `c` is expanded under `a`, not under `b`.
    let mut g = CodeGraph::new();
    let a = plain(&mut g, "m::a", "src/lib.rs", 1);
    let b = plain(&mut g, "m::b", "src/lib.rs", 5);
    let c = plain(&mut g, "m::c", "src/lib.rs", 9);
    let d = plain(&mut g, "m::d", "src/lib.rs", 13);
    call(&mut g, a, b, EdgeKind::DirectCall, 2);
    call(&mut g, a, c, EdgeKind::DirectCall, 3);
    call(&mut g, b, c, EdgeKind::DirectCall, 6);
    call(&mut g, c, d, EdgeKind::DirectCall, 10);
    let tree = call_tree(&g, a, &CallTreeOptions::default());
    let under_b = &tree.children[0].children[0];
    assert_eq!(under_b.id, c);
    assert!(under_b.repeat);
    assert!(under_b.children.is_empty());
    let under_a = &tree.children[1];
    assert_eq!(under_a.id, c);
    assert!(!under_a.repeat);
    assert_eq!(under_a.children[0].id, d);
}

#[test]
fn children_are_the_distinct_neighbors_up_to_the_limit() {
    let mut g = CodeGraph::new();
    let root = plain(&mut g, "m::root", "src/lib.rs", 1);
    let a = plain(&mut g, "m::a", "src/lib.rs", 5);
    let b = plain(&mut g, "m::b", "src/lib.rs", 9);
    let c = plain(&mut g, "m::c", "src/lib.rs", 13);
    let out = g.intern_node("out", || Node::external("out"));
    call(&mut g, root, out, EdgeKind::Unresolved, 2);
    call(&mut g, root, b, EdgeKind::DirectCall, 3);
    call(&mut g, root, c, EdgeKind::DirectCall, 4);
    call(&mut g, root, b, EdgeKind::MethodCall, 6);
    call(&mut g, root, a, EdgeKind::DirectCall, 7);
    let tree = |max_children: usize, include_external: bool| {
        let t = call_tree(
            &g,
            root,
            &CallTreeOptions {
                max_children,
                include_external,
                ..Default::default()
            },
        );
        let ids: Vec<NodeId> = t.children.iter().map(|k| k.id).collect();
        (ids, t.truncated)
    };
    assert_eq!(tree(12, false), (vec![b, c, a], 0));
    assert_eq!(tree(12, true), (vec![b, c, a, out], 0));
    assert_eq!(tree(2, true), (vec![b, c], 2));
    assert_eq!(tree(0, false), (vec![], 3));
}

#[test]
fn callers_tree_walks_upstream() {
    let g = app_graph();
    let parse = id(&g, "app::core::parse");
    let opts = CallTreeOptions {
        direction: Direction::Callers,
        ..Default::default()
    };
    let tree = call_tree(&g, parse, &opts);
    let callers: Vec<&str> = tree
        .children
        .iter()
        .map(|c| g.node(c.id).qualified_name.as_str())
        .collect();
    assert_eq!(callers, vec!["app::core::tests::test_parse", "app::run"]);
    assert_eq!(tree.children[1].children[0].id, id(&g, "app::main"));
}

// -- symbols --------------------------------------------------------------------------

#[test]
fn exact_short_name_beats_substring() {
    let g = app_graph();
    let hits = resolve(&g, "parse");
    assert_eq!(hits[0], id(&g, "app::core::parse"));
    // `test_parse` also contains "parse" but only as a substring.
    assert!(hits.contains(&id(&g, "app::core::tests::test_parse")));
}

#[test]
fn qualified_suffix_and_case_insensitivity() {
    let g = app_graph();
    assert_eq!(best_match(&g, "IO::LOAD"), Some(id(&g, "app::io::load")));
    assert_eq!(
        best_match(&g, "app::io::load"),
        Some(id(&g, "app::io::load"))
    );
    assert_eq!(
        best_match(&g, "Lexer::next"),
        Some(id(&g, "app::core::Lexer::next"))
    );
}

#[test]
fn externals_and_empty_patterns_never_match() {
    let g = app_graph();
    assert!(resolve(&g, "std::fs::read").is_empty());
    assert!(resolve(&g, "   ").is_empty());
    assert!(resolve(&g, "no_such_symbol").is_empty());
}

// -- commands -------------------------------------------------------------------------

#[test]
fn a_request_for_a_flow_says_what_is_missing() {
    let g = app_graph();
    let flow = trace_flow(&g, "main", "Lexer::next", 0, 24).unwrap();
    assert_eq!(flow.hops(), 3);
    assert_eq!(flow.paths.len(), 1);
    let failure = |from: &str, to: &str, depth: u32| match trace_flow(&g, from, to, 6, depth) {
        Ok(_) => None,
        Err(e) => Some(e),
    };
    assert_eq!(failure("nowhere", "parse", 24), Some(FlowFailure::NoEntry));
    assert_eq!(failure("main", "nowhere", 24), Some(FlowFailure::NoTarget));
    assert_eq!(failure("orphan", "save", 24), Some(FlowFailure::NoPath));
    assert_eq!(failure("app::main", "next", 2), Some(FlowFailure::NoPath));
}

#[test]
fn a_pattern_names_its_best_symbol_and_how_many_match() {
    let g = app_graph();
    assert_eq!(
        pick_symbol(&g, "parse"),
        Some((id(&g, "app::core::parse"), 2))
    );
    assert_eq!(pick_symbol(&g, "zzz"), None);
}

#[test]
fn entry_lists_are_filtered_and_capped_by_kind() {
    let mut g = CodeGraph::new();
    for i in 0..4 {
        plain(&mut g, &format!("m::root{i}"), "src/lib.rs", 1 + i);
    }
    plain(&mut g, "m::main", "src/lib.rs", 40);
    let all = entry_points(&g);
    let capped = listed_entries(&all, None, 2);
    let names: Vec<&str> = capped.iter().map(|e| g.node(e.id).name.as_str()).collect();
    assert_eq!(names, vec!["main", "root0", "root1"]);
    assert_eq!(listed_entries(&all, Some(EntryKind::Root), 40).len(), 4);
    assert_eq!(listed_entries(&all, Some(EntryKind::Test), 40).len(), 0);
    assert_eq!(listed_entries(&all, None, 0).len(), 0);
    let reach = entry_reach(&g, &capped, false);
    assert_eq!(reach, vec![Some(0), None, None]);
    assert_eq!(
        entry_reach(&g, &capped, true),
        vec![Some(0), Some(0), Some(0)]
    );
}

#[test]
fn entries_are_ranked_by_how_much_code_they_drive() {
    let mut g = CodeGraph::new();
    let small = plain(&mut g, "a::main", "src/a.rs", 1);
    let big = plain(&mut g, "b::main", "src/b.rs", 1);
    let root = plain(&mut g, "c::root", "src/c.rs", 1);
    for i in 0..3 {
        let leaf = plain(&mut g, &format!("b::leaf{i}"), "src/b.rs", 10 + i);
        call(&mut g, big, leaf, EdgeKind::DirectCall, 2 + i);
    }
    let entries = entry_points(&g);
    let reach = entry_reach(&g, &entries, false);
    let (entries, reach) = rank_entries(&entries, &reach);
    let ids: Vec<NodeId> = entries.iter().map(|e| e.id).collect();
    assert_eq!(ids, vec![big, small, root]);
    assert_eq!(reach, vec![Some(3), Some(0), None]);
}

#[test]
fn the_search_for_a_configuration_starts_in_a_directory() {
    assert_eq!(config_search_dir("repo/src", true), "repo/src");
    assert_eq!(config_search_dir("repo/src/main.rs", false), "repo/src");
    assert_eq!(config_search_dir("/", false), ".");
}

// -- counting and white space ---------------------------------------------------------

#[test]
fn a_card_counts_callers_and_callees_once() {
    let mut g = CodeGraph::new();
    let a = plain(&mut g, "m::a", "src/lib.rs", 1);
    let b = plain(&mut g, "m::b", "src/lib.rs", 5);
    call(&mut g, a, b, EdgeKind::DirectCall, 2);
    call(&mut g, a, b, EdgeKind::MethodCall, 3);
    let card = node_card(&g, a).unwrap();
    assert_eq!((card.fan_in, card.fan_out), (0, 1));
    assert_eq!(card.outputs.len(), 2);
    assert_eq!(node_card(&g, b).unwrap().fan_in, 1);
}

#[test]
fn white_space_is_what_unicode_calls_so() {
    for n in 0..=0x10ffffu32 {
        if let Some(c) = char::from_u32(n) {
            assert_eq!(white(c), c.is_whitespace());
        }
    }
}

#[test]
fn the_most_reaching_entries_are_kept() {
    let mut g = CodeGraph::new();
    let small = plain(&mut g, "a::main", "src/a.rs", 1);
    let big = plain(&mut g, "b::main", "src/b.rs", 1);
    for i in 0..3 {
        let leaf = plain(&mut g, &format!("b::leaf{i}"), "src/b.rs", 10 + i);
        call(&mut g, big, leaf, EdgeKind::DirectCall, 2 + i);
    }
    let root = plain(&mut g, "c::root", "src/c.rs", 1);
    let entries = entry_points(&g);
    let reach = entry_reach(&g, &entries, false);
    let top = |limit: usize| {
        let (entries, reach) = top_entries(&entries, &reach, limit);
        let ids: Vec<NodeId> = entries.iter().map(|e| e.id).collect();
        (ids, reach)
    };
    assert_eq!(top(1), (vec![big, root], vec![Some(3), None]));
    assert_eq!(top(2), (vec![big, small, root], vec![Some(3), Some(0), None]));
    assert_eq!(top(usize::MAX), top(2));
    assert_eq!(top(0), (vec![], vec![]));
}
