//! The graph of what a semantic backend reports.

use livewalk::graph::{EdgeKind, NodeKind, SourceSpan};
use livewalk::ids::FileId;
use livewalk::semantic::{
    clean_name, container_of, loc_of, qualify, semantic_graph, workspace_root, BackendFile,
    FileReport, Lines, ResolvedCall, StructureItem,
};

fn file(number: u32, path: &str) -> BackendFile {
    BackendFile {
        number,
        path: Some(path.to_string()),
    }
}

fn lines(start_line: u32, end_line: u32) -> Lines {
    Lines {
        start_line,
        start_col: 0,
        end_line,
        end_col: 1,
    }
}

fn item(label: &str, parent: Option<usize>, at: u32, calls: Vec<ResolvedCall>) -> StructureItem {
    StructureItem {
        label: label.to_string(),
        parent,
        callable: true,
        method: parent.is_some(),
        name_start: at,
        name_end: at + 3,
        lines: lines(at, at + 4),
        calls,
    }
}

fn target(file: BackendFile, at: u32, name: &str, container: Option<&str>, local: bool) -> ResolvedCall {
    ResolvedCall {
        file,
        name_start: at,
        name_end: at + 3,
        name: name.to_string(),
        container: container.map(str::to_string),
        home: Some(if local { "app" } else { "std" }.to_string()),
        local,
        method: container.is_some(),
        lines: Some(lines(at, at + 4)),
        sites: 2,
        site: Some(lines(7, 7)),
    }
}

fn report(file: BackendFile, items: Vec<StructureItem>) -> FileReport {
    FileReport {
        file,
        wanted: true,
        local: true,
        home: Some("app".to_string()),
        items,
    }
}

#[test]
fn labels_are_reduced_to_names() {
    assert_eq!(container_of("impl Foo"), "Foo");
    assert_eq!(container_of("impl Trait for Foo"), "Trait");
    assert_eq!(container_of(" Stack<T>"), "Stack");
    assert_eq!(clean_name("push(&mut self)"), "push");
    assert_eq!(clean_name("push<T>"), "push");
    let app = Some("app".to_string());
    assert_eq!(qualify(&app, &Some("Foo".to_string()), "new"), "app::Foo::new");
    assert_eq!(qualify(&app, &None, "main"), "app::main");
    assert_eq!(qualify(&app, &Some(String::new()), ""), "app");
    assert_eq!(qualify(&None, &None, ""), "");
}

#[test]
fn spans_count_their_lines() {
    assert_eq!(loc_of(&SourceSpan::new(FileId(0), 3, 0, 7, 1)), 5);
    assert_eq!(loc_of(&SourceSpan::new(FileId(0), 7, 0, 3, 1)), 1);
    assert_eq!(loc_of(&SourceSpan::new(FileId(0), 0, 0, u32::MAX, 1)), u32::MAX);
}

#[test]
fn the_workspace_root_is_the_topmost_manifest() {
    assert_eq!(workspace_root(&vec![false, true, false, true, false]), Some(3));
    assert_eq!(workspace_root(&vec![false, false]), None);
    assert_eq!(workspace_root(&vec![]), None);
}

#[test]
fn resolved_calls_become_edges() {
    let reports = vec![report(
        file(1, "/ws/src/lib.rs"),
        vec![
            item("main()", None, 10, vec![
                target(file(1, "/ws/src/lib.rs"), 40, "new", Some("Foo"), true),
                target(file(9, "/std/fs.rs"), 5, "read", None, false),
            ]),
            StructureItem {
                callable: false,
                ..item("impl Foo", None, 30, vec![])
            },
            item("new() -> Self", Some(1), 40, vec![]),
        ],
    )];
    let g = semantic_graph(&reports);
    let main = g.node_by_qualified("app::main").unwrap();
    let new = g.node_by_qualified("app::Foo::new").unwrap();
    let read = g.node_by_qualified("std::read").unwrap();
    assert_eq!(g.node_count(), 3);
    // The target and the entry that defines it are the same node.
    assert_eq!(g.node(new).kind, NodeKind::Method);
    assert_eq!(g.node(new).module, "app::Foo");
    assert_eq!(g.node(new).stats.lines_of_code, 5);
    assert_eq!(g.node(read).kind, NodeKind::External);
    assert_eq!(g.out_degree(main), 2);
    let to_new = g.edges_out(main).into_iter().find(|(id, _)| *id == new).unwrap().1;
    assert_eq!(to_new.kind, EdgeKind::MethodCall);
    assert_eq!(to_new.count, 2);
    assert_eq!(to_new.call_site.start_line, 7);
}

#[test]
fn same_paths_are_told_apart() {
    let reports = vec![report(
        file(1, "/ws/src/lib.rs"),
        vec![item("run", None, 10, vec![]), item("run", None, 20, vec![])],
    )];
    let g = semantic_graph(&reports);
    assert!(g.node_by_qualified("app::run").is_some());
    assert!(g.node_by_qualified("app::run#1").is_some());
}

#[test]
fn files_outside_the_request_are_passed_over() {
    let other = |wanted: bool, local: bool, path: &str| FileReport {
        wanted,
        local,
        ..report(file(1, path), vec![item("run", None, 10, vec![])])
    };
    for r in [
        other(false, true, "/ws/src/lib.rs"),
        other(true, false, "/ws/src/lib.rs"),
        other(true, true, "/ws/src/lib.txt"),
    ] {
        let g = semantic_graph(&vec![r]);
        assert_eq!((g.node_count(), g.file_count()), (0, 0));
    }
}

#[test]
fn definitions_are_never_merged() {
    // The same path in one file, in another file, and as the target of a call.
    let reports = vec![
        report(
            file(1, "/ws/src/lib.rs"),
            vec![
                item("run", None, 10, vec![target(file(3, "/ws/src/c.rs"), 5, "run", None, true)]),
                item("run", None, 20, vec![]),
            ],
        ),
        report(file(2, "/ws/src/b.rs"), vec![item("run", None, 10, vec![])]),
    ];
    let g = semantic_graph(&reports);
    let mut names: Vec<String> = g.nodes().into_iter().map(|n| n.qualified_name.clone()).collect();
    names.sort();
    assert_eq!(names, vec!["app::run", "app::run#1", "app::run#2", "app::run#3"]);
}
