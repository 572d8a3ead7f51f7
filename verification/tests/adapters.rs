//! From source text to call graphs, language by language.

use livewalk::adapter::{
    GoTreeSitterAdapter, LanguageAdapter, PythonTreeSitterAdapter, RustAnalyzerAdapter,
    RustTreeSitterAdapter, TypeScriptTreeSitterAdapter,
};
use livewalk::entries::{classify_entry, EntryKind};
use livewalk::graph::{CodeGraph, Edge, EdgeKind, NodeKind};
use livewalk::ids::NodeId;
use livewalk::source::SourceFile;

fn rust(src: &str) -> CodeGraph {
    let files = vec![SourceFile::new("src/lib.rs", src)];
    RustTreeSitterAdapter::new().parse(&files).unwrap()
}

fn go(src: &str) -> CodeGraph {
    let files = vec![SourceFile::new("sample/main.go", src)];
    GoTreeSitterAdapter::new().parse(&files).unwrap()
}

fn python(src: &str) -> CodeGraph {
    let files = vec![SourceFile::new("pkg/mod.py", src)];
    PythonTreeSitterAdapter::new().parse(&files).unwrap()
}

fn typescript(src: &str) -> CodeGraph {
    let files = vec![SourceFile::new("src/app.ts", src)];
    TypeScriptTreeSitterAdapter::new().parse(&files).unwrap()
}

fn edge(g: &CodeGraph, from: NodeId, to: NodeId) -> Option<Edge> {
    g.edges()
        .into_iter()
        .find(|(f, t, _)| *f == from && *t == to)
        .map(|(_, _, e)| e)
}

fn all_unresolved(g: &CodeGraph, from: NodeId) -> bool {
    g.edges()
        .into_iter()
        .filter(|(f, _, _)| *f == from)
        .all(|(_, to, e)| {
            g.node(to).kind == NodeKind::External && e.kind == EdgeKind::Unresolved
        })
}

// -- Rust -----------------------------------------------------------------------------

#[test]
fn lib_extracts_functions_and_direct_calls() {
    let g = rust(
        r#"
            fn helper(x: i32) -> i32 { x + 1 }
            fn main() {
                let a = helper(1);
                let b = helper(a);
            }
            "#,
    );
    let main = g.node_by_qualified("crate::main").expect("main present");
    let helper = g.node_by_qualified("crate::helper").expect("helper present");
    assert_eq!(g.node(helper).kind, NodeKind::Function);
    // main -> helper, merged into one edge with count 2.
    assert_eq!(g.out_degree(main), 1);
    let e = edge(&g, main, helper).unwrap();
    assert_eq!(e.kind, EdgeKind::DirectCall);
    assert_eq!(e.count, 2);
}

#[test]
fn lib_methods_get_type_qualified_names() {
    let g = rust(
        r#"
            struct Counter { n: u32 }
            impl Counter {
                fn incr(&mut self) { self.n += 1; }
                fn run(&mut self) {
                    self.incr();
                    self.incr();
                }
            }
            "#,
    );
    let run = g.node_by_qualified("crate::Counter::run").expect("run present");
    let incr = g.node_by_qualified("crate::Counter::incr").expect("incr present");
    assert!(g.node(incr).flags.is_method);
    assert_eq!(edge(&g, run, incr).unwrap().kind, EdgeKind::MethodCall);
}

#[test]
fn lib_cyclomatic_complexity_counts_branches() {
    let g = rust(
        r#"
            fn classify(x: i32) -> i32 {
                if x > 0 {
                    if x > 10 { 2 } else { 1 }
                } else if x < 0 && x > -5 {
                    -1
                } else {
                    0
                }
            }
            "#,
    );
    let f = g.node_by_qualified("crate::classify").unwrap();
    // if + (else-if is another if) + inner if + `&&` = 4 decision points => CC 5.
    assert_eq!(g.node(f).cyclomatic_complexity(), 5);
}

#[test]
fn calls_of_a_fragment_are_made_by_its_definitions() {
    let text = "mod m { fn a() { b(); fn inner() { c(); } } } fn d() { x.e(); }";
    let f = SourceFile::new("src/a.rs", text);
    let frag = RustTreeSitterAdapter::new().extract_fragment(&f).unwrap();
    assert_eq!(frag.path, "src/a.rs");
    let callers: Vec<&str> = frag.calls.iter().map(|c| c.caller.as_str()).collect();
    assert_eq!(callers, vec!["crate::a::m::a", "crate::a::m::a::inner", "crate::a::d"]);
    for c in &frag.calls {
        assert!(frag.defs.iter().any(|d| d.qualified_name == c.caller));
        assert_eq!(c.call_site.file, 0);
    }
    assert!(frag.defs.iter().all(|d| d.span.file == 0));
}

#[test]
fn incremental_extract_resolve_matches_parse_and_links_cross_file() {
    let a = SourceFile::new("src/a.rs", "fn a() { b(); b(); }");
    let b = SourceFile::new("src/b.rs", "fn b() {}");
    let adapter = RustTreeSitterAdapter::new();

    // Whole-batch parse and per-file extract with a global resolve: identical.
    let g1 = adapter.parse(&vec![a.clone(), b.clone()]).unwrap();
    let fa = adapter.extract_fragment(&a).unwrap();
    let fb = adapter.extract_fragment(&b).unwrap();
    let g2 = adapter.resolve_fragments(&vec![fa, fb]).unwrap();
    assert_eq!(g1.node_count(), g2.node_count());
    assert_eq!(g1.edge_count(), g2.edge_count());

    // The call in a.rs resolves to the definition in b.rs, and the two identical call
    // sites merge into one edge with count 2.
    let a_id = g2.node_by_qualified("crate::a::a").unwrap();
    let b_id = g2.node_by_qualified("crate::b::b").unwrap();
    assert_eq!(g2.node(b_id).kind, NodeKind::Function);
    let e = edge(&g2, a_id, b_id).expect("cross-file edge a -> b");
    assert_eq!(e.kind, EdgeKind::DirectCall);
    assert_eq!(e.count, 2);
}

#[test]
fn type_qualified_calls_bind_only_to_matching_types() {
    let g = rust(
        r#"
            struct A;
            struct B;
            impl A { fn new() -> Self { A } }
            impl B { fn new() -> Self { B } }
            fn f() {
                let _a = A::new();
                let _b = B::new();
                let _v: Vec<u8> = Vec::new();
            }
            "#,
    );
    let f = g.node_by_qualified("crate::f").unwrap();
    let a_new = g.node_by_qualified("crate::A::new").unwrap();
    let b_new = g.node_by_qualified("crate::B::new").unwrap();
    let callees: Vec<NodeId> = g.neighbors_out(f);
    assert!(callees.contains(&a_new));
    assert!(callees.contains(&b_new));
    // `Vec` is not defined here: the call must stay external instead of being glued
    // to an unrelated `new` (which would invent a flow edge).
    let ext = callees
        .iter()
        .copied()
        .find(|&c| g.node(c).kind == NodeKind::External)
        .expect("Vec::new stays external");
    assert_eq!(g.node(ext).qualified_name, "Vec::new");
    assert_eq!(callees.len(), 3);
}

#[test]
fn ambiguous_short_names_prefer_the_callers_crate() {
    // Two crates define `helper`; a call from crate `a` (a different module than
    // either definition) must bind to `a::helper`, whatever the file order.
    let files = vec![
        SourceFile::new("crates/b/src/lib.rs", "pub fn helper() {}"),
        SourceFile::new("crates/a/src/lib.rs", "pub fn helper() {}"),
        SourceFile::new("crates/a/src/x.rs", "pub fn go() { helper(); }"),
    ];
    let g = RustTreeSitterAdapter::new().parse(&files).unwrap();
    let go = g.node_by_qualified("a::x::go").unwrap();
    let a_helper = g.node_by_qualified("a::helper").unwrap();
    assert_eq!(g.neighbors_out(go), vec![a_helper]);
}

#[test]
fn lib_unresolved_calls_become_external() {
    let g = rust(
        r#"
            fn f() {
                some_unknown_fn();
                println!("hi");
            }
            "#,
    );
    let f = g.node_by_qualified("crate::f").unwrap();
    // Both targets are external; the edge kind is Unresolved.
    assert!(all_unresolved(&g, f));
    assert_eq!(g.out_degree(f), 2);
}

const RUST_FIXTURE: &str = r#"
mod math {
    pub struct Calc { acc: i64 }

    impl Calc {
        pub fn new() -> Self { Calc { acc: 0 } }

        pub fn add(&mut self, x: i64) -> &mut Self {
            self.acc += x;
            self
        }

        pub fn classify(&self) -> i32 {
            if self.acc > 0 {
                1
            } else if self.acc < 0 {
                -1
            } else {
                0
            }
        }
    }

    pub fn sum(xs: &[i64]) -> i64 {
        let mut c = Calc::new();
        for x in xs {
            c.add(*x);
        }
        c.acc
    }
}

fn main() {
    let total = math::sum(&[1, 2, 3]);
    println!("{}", total);
}
"#;

#[test]
fn rust_modules_methods_macros_and_externals() {
    let g = rust(RUST_FIXTURE);
    let names: Vec<String> = g
        .nodes()
        .iter()
        .map(|n| n.qualified_name.clone())
        .collect();
    for expected in [
        "crate::math::Calc::new",
        "crate::math::Calc::add",
        "crate::math::Calc::classify",
        "crate::math::sum",
        "crate::main",
        "println",
    ] {
        assert!(names.iter().any(|n| n == expected), "{expected} in {names:?}");
    }
    let sum = g.node_by_qualified("crate::math::sum").unwrap();
    let new = g.node_by_qualified("crate::math::Calc::new").unwrap();
    let add = g.node_by_qualified("crate::math::Calc::add").unwrap();
    let classify = g.node_by_qualified("crate::math::Calc::classify").unwrap();
    let main = g.node_by_qualified("crate::main").unwrap();
    assert_eq!(edge(&g, sum, new).unwrap().kind, EdgeKind::AssociatedCall);
    assert_eq!(edge(&g, sum, add).unwrap().kind, EdgeKind::MethodCall);
    assert_eq!(edge(&g, main, sum).unwrap().kind, EdgeKind::AssociatedCall);
    // Two `if`s; a `for` in `sum`.
    assert_eq!(g.node(classify).cyclomatic_complexity(), 3);
    assert_eq!(g.node(sum).cyclomatic_complexity(), 2);
    assert!(g.node(new).flags.is_pub);
    assert!(!g.node(main).flags.is_pub);
    // The receiver is no parameter.
    assert_eq!(g.node(add).stats.parameters, 1);
    assert_eq!(g.files().len(), 1);
    assert_eq!(g.files()[0].1, "src/lib.rs");
}

// -- Go -------------------------------------------------------------------------------

#[test]
fn go_extracts_functions_and_direct_calls() {
    let g = go(
        "package sample\n\nfunc helper(x int) int { return x + 1 }\n\nfunc run() {\n\thelper(1)\n\thelper(2)\n}\n",
    );
    let run = g.node_by_qualified("sample::run").expect("run present");
    let helper = g.node_by_qualified("sample::helper").expect("helper present");
    assert_eq!(g.node(helper).kind, NodeKind::Function);
    // run -> helper, merged into one edge with count 2.
    assert_eq!(g.out_degree(run), 1);
    let e = edge(&g, run, helper).unwrap();
    assert_eq!(e.kind, EdgeKind::DirectCall);
    assert_eq!(e.count, 2);
}

#[test]
fn methods_get_receiver_qualified_names() {
    let g = go(
        "package sample\n\ntype Counter struct { n int }\n\nfunc (c *Counter) Incr() { c.n++ }\n\nfunc (c *Counter) Run() {\n\tc.Incr()\n\tc.Incr()\n}\n",
    );
    let run = g.node_by_qualified("sample::Counter::Run").expect("Run present");
    let incr = g.node_by_qualified("sample::Counter::Incr").expect("Incr present");
    assert!(g.node(incr).flags.is_method);
    // Exported (capitalized) methods are public API.
    assert!(g.node(incr).flags.is_pub);
    assert_eq!(edge(&g, run, incr).unwrap().kind, EdgeKind::MethodCall);
}

#[test]
fn unexported_names_are_not_public() {
    let g = go("package sample\n\nfunc helper() {}\n");
    let helper = g.node_by_qualified("sample::helper").unwrap();
    assert!(!g.node(helper).flags.is_pub);
}

#[test]
fn go_cyclomatic_complexity_counts_branches() {
    let g = go(
        "package sample\n\nfunc classify(x int) int {\n\tif x > 0 {\n\t\tif x > 10 {\n\t\t\treturn 2\n\t\t}\n\t\treturn 1\n\t} else if x < 0 && x > -5 {\n\t\treturn -1\n\t}\n\treturn 0\n}\n",
    );
    let f = g.node_by_qualified("sample::classify").unwrap();
    // if + inner if + else-if + `&&` = 4 decision points => CC 5.
    assert_eq!(g.node(f).cyclomatic_complexity(), 5);
}

#[test]
fn go_unresolved_calls_become_external() {
    let g = go(
        "package sample\n\nimport \"fmt\"\n\nfunc f() {\n\tunknownFn()\n\tfmt.Println(\"hi\")\n}\n",
    );
    let f = g.node_by_qualified("sample::f").unwrap();
    assert!(all_unresolved(&g, f));
    assert_eq!(g.out_degree(f), 2);
}

const GO_FIXTURE: &str = r#"
package sample

import "fmt"

func scale(x int) int {
	return x * 2
}

type Calc struct {
	acc int
}

func (c *Calc) Add(x int) *Calc {
	c.acc += scale(x)
	return c
}

func (c Calc) Classify() int {
	if c.acc > 0 {
		return 1
	} else if c.acc < 0 {
		return -1
	}
	return 0
}

func main() {
	c := &Calc{}
	c.Add(1)
	c.Add(2)
	fmt.Println(c.Classify())
}
"#;

#[test]
fn go_receivers_and_method_calls() {
    let files = vec![SourceFile::new("sample/calc.go", GO_FIXTURE)];
    let g = GoTreeSitterAdapter::new().parse(&files).unwrap();
    let add = g.node_by_qualified("sample::Calc::Add").unwrap();
    let scale = g.node_by_qualified("sample::scale").unwrap();
    let classify = g.node_by_qualified("sample::Calc::Classify").unwrap();
    let main = g.node_by_qualified("sample::main").unwrap();
    assert_eq!(edge(&g, add, scale).unwrap().kind, EdgeKind::DirectCall);
    assert_eq!(edge(&g, main, add).unwrap().count, 2);
    assert_eq!(edge(&g, main, classify).unwrap().kind, EdgeKind::MethodCall);
    assert_eq!(g.node(classify).cyclomatic_complexity(), 3);
    assert!(!g.node(main).flags.is_method);
}

// -- Python ---------------------------------------------------------------------------

#[test]
fn python_extracts_functions_and_direct_calls() {
    let g = python(
        "def helper(x):\n    return x + 1\n\ndef main():\n    a = helper(1)\n    b = helper(a)\n",
    );
    let main = g.node_by_qualified("pkg::mod::main").expect("main present");
    let helper = g.node_by_qualified("pkg::mod::helper").expect("helper present");
    assert_eq!(g.node(helper).kind, NodeKind::Function);
    assert_eq!(g.out_degree(main), 1);
    let e = edge(&g, main, helper).unwrap();
    assert_eq!(e.kind, EdgeKind::DirectCall);
    assert_eq!(e.count, 2);
}

#[test]
fn python_methods_get_type_qualified_names() {
    let g = python(
        "class Counter:\n    def __init__(self):\n        self.n = 0\n\n    def incr(self):\n        self.n += 1\n\n    def run(self):\n        self.incr()\n        self.incr()\n",
    );
    let run = g.node_by_qualified("pkg::mod::Counter::run").expect("run present");
    let incr = g.node_by_qualified("pkg::mod::Counter::incr").expect("incr present");
    assert!(g.node(incr).flags.is_method);
    assert_eq!(edge(&g, run, incr).unwrap().kind, EdgeKind::MethodCall);
}

#[test]
fn nested_defs_are_their_own_nodes() {
    let g = python(
        "def outer():\n    def inner():\n        return helper()\n    return inner()\n\ndef helper():\n    return 1\n",
    );
    let outer = g.node_by_qualified("pkg::mod::outer").expect("outer");
    let inner = g.node_by_qualified("pkg::mod::outer::inner").expect("inner");
    let helper = g.node_by_qualified("pkg::mod::helper").expect("helper");
    // The call to `helper` lives in `inner`, not `outer`.
    assert!(edge(&g, inner, helper).is_some());
    assert!(edge(&g, outer, inner).is_some());
    assert!(edge(&g, outer, helper).is_none());
}

#[test]
fn python_cyclomatic_complexity_counts_branches() {
    let g = python(
        "def classify(x):\n    if x > 0:\n        if x > 10:\n            return 2\n        return 1\n    elif x < 0 and x > -5:\n        return -1\n    else:\n        return 0\n",
    );
    let f = g.node_by_qualified("pkg::mod::classify").unwrap();
    // if + inner if + elif + `and` = 4 decision points => CC 5.
    assert_eq!(g.node(f).cyclomatic_complexity(), 5);
}

#[test]
fn python_unresolved_calls_become_external() {
    let g = python("def f():\n    some_unknown_fn()\n    print(\"hi\")\n");
    let f = g.node_by_qualified("pkg::mod::f").unwrap();
    assert!(all_unresolved(&g, f));
    assert_eq!(g.out_degree(f), 2);
}

// -- TypeScript -----------------------------------------------------------------------

#[test]
fn typescript_extracts_functions_and_direct_calls() {
    let g = typescript(
        r#"
            function helper(x: number): number { return x + 1; }
            function main() {
                const a = helper(1);
                const b = helper(a);
            }
            "#,
    );
    let main = g.node_by_qualified("app::main").expect("main present");
    let helper = g.node_by_qualified("app::helper").expect("helper present");
    assert_eq!(g.node(helper).kind, NodeKind::Function);
    assert_eq!(g.out_degree(main), 1);
    let e = edge(&g, main, helper).unwrap();
    assert_eq!(e.kind, EdgeKind::DirectCall);
    assert_eq!(e.count, 2);
}

#[test]
fn arrow_consts_are_functions() {
    let g = typescript(
        r#"
            export const add = (a: number, b: number): number => a + b;
            function use() { return add(1, 2); }
            "#,
    );
    let add = g.node_by_qualified("app::add").expect("add present");
    let use_fn = g.node_by_qualified("app::use").expect("use present");
    assert_eq!(g.node(add).kind, NodeKind::Function);
    // `export const` is public API.
    assert!(g.node(add).flags.is_pub);
    assert_eq!(edge(&g, use_fn, add).unwrap().kind, EdgeKind::DirectCall);
}

#[test]
fn class_methods_get_type_qualified_names() {
    let g = typescript(
        r#"
            class Counter {
                n = 0;
                incr() { this.n += 1; }
                run() {
                    this.incr();
                    this.incr();
                }
            }
            "#,
    );
    let run = g.node_by_qualified("app::Counter::run").expect("run present");
    let incr = g.node_by_qualified("app::Counter::incr").expect("incr present");
    assert!(g.node(incr).flags.is_method);
    assert_eq!(edge(&g, run, incr).unwrap().kind, EdgeKind::MethodCall);
}

#[test]
fn typescript_cyclomatic_complexity_counts_branches() {
    let g = typescript(
        r#"
            function classify(x: number): number {
                if (x > 0) {
                    return x > 10 ? 2 : 1;
                } else if (x < 0 && x > -5) {
                    return -1;
                } else {
                    return 0;
                }
            }
            "#,
    );
    let f = g.node_by_qualified("app::classify").unwrap();
    // if + else-if(if) + ternary + `&&` = 4 decision points => CC 5.
    assert_eq!(g.node(f).cyclomatic_complexity(), 5);
}

#[test]
fn typescript_unresolved_calls_become_external() {
    let g = typescript(
        r#"
            function f() {
                someUnknownFn();
                console.log("hi");
            }
            "#,
    );
    let f = g.node_by_qualified("app::f").unwrap();
    assert!(all_unresolved(&g, f));
    assert_eq!(g.out_degree(f), 2);
}

// -- adapters -------------------------------------------------------------------------

#[test]
fn reports_extensions_and_name() {
    let a = RustAnalyzerAdapter::new();
    assert_eq!(a.name(), "rust-analyzer");
    assert_eq!(a.extensions(), &["rs"]);
}

#[test]
fn parse_without_feature_errors_clearly() {
    let a = RustAnalyzerAdapter::new();
    match a.parse(&vec![]) {
        Ok(_) => panic!("the semantic backend is not built in"),
        Err(err) => assert!(err.text().contains("semantic")),
    }
    assert!(!RustAnalyzerAdapter::is_semantic_enabled());
}

#[test]
fn adapters_have_stable_names_and_extensions() {
    assert_eq!(RustTreeSitterAdapter::new().name(), "treesitter-rust");
    assert_eq!(RustTreeSitterAdapter::new().extensions(), ["rs"]);
    assert_eq!(GoTreeSitterAdapter::new().extensions(), ["go"]);
    assert!(PythonTreeSitterAdapter::new().extensions().contains(&"py"));
    let ts = TypeScriptTreeSitterAdapter::new();
    assert!(ts.extensions().contains(&"ts"));
    assert!(ts.extensions().contains(&"tsx"));
    assert!(RustTreeSitterAdapter::new().supports_incremental());
}

#[test]
fn adapters_without_fragments_say_so() {
    let file = SourceFile::new("src/app.ts", "function f() {}");
    let ts = TypeScriptTreeSitterAdapter::new();
    if !ts.supports_incremental() {
        match ts.extract_fragment(&file) {
            Ok(_) => panic!("no extraction expected"),
            Err(e) => assert_eq!(
                e.text(),
                "adapter error: this adapter does not support incremental extraction"
            ),
        }
        match ts.resolve_fragments(&vec![]) {
            Ok(_) => panic!("no resolution expected"),
            Err(e) => assert_eq!(
                e.text(),
                "adapter error: this adapter does not support incremental resolution"
            ),
        }
    }
}

#[test]
fn broken_source_is_read_as_far_as_it_goes() {
    let g = rust("fn good() {} fn broken( { fn also_good() {}");
    assert!(g.node_by_qualified("crate::good").is_some());
}

#[test]
fn qualified_calls_keep_their_module() {
    // A path through another module keeps its qualifier.
    let g = rust("mod a { pub fn go() {} } mod b { pub fn go() {} } fn f() { a::go(); }");
    let f = g.node_by_qualified("crate::f").unwrap();
    let a_go = g.node_by_qualified("crate::a::go").unwrap();
    assert_eq!(g.neighbors_out(f), vec![a_go]);
}

#[test]
fn calls_reach_a_function_through_its_crate() {
    // `q` hands `go` out of its module `flow`.
    let files = vec![
        SourceFile::new("crates/q/src/lib.rs", "pub mod flow; pub use flow::go;"),
        SourceFile::new("crates/q/src/flow.rs", "pub fn go() {}"),
        SourceFile::new(
            "crates/app/src/lib.rs",
            "fn near() { q::go(); } fn far() { q::flow::go(); } fn off() { z::go(); }",
        ),
    ];
    let g = RustTreeSitterAdapter::new().parse(&files).unwrap();
    let find = |end: &str| g.nodes().into_iter().find(|n| n.qualified_name.ends_with(end)).unwrap().id;
    let go = find("flow::go");
    assert_eq!(g.neighbors_out(find("::near")), vec![go]);
    assert_eq!(g.neighbors_out(find("::far")), vec![go]);
    assert_ne!(g.neighbors_out(find("::off")), vec![go]);
}

#[test]
fn foreign_interfaces_export_functions() {
    let abi = ["ex", "tern \"C\""].concat();
    let g = rust(&format!(
        "#[no_mangle] pub fn a() {{}} \
         #[export_name = \"bb\"] fn b() {{}} \
         pub {abi} fn c() {{}} \
         #[inline] pub fn d() {{}} \
         {abi} {{ fn e(); }} \
         pub async fn h() {{}}"
    ));
    let exported = |name: &str| {
        g.node_by_qualified(&format!("crate::{name}"))
            .map(|id| g.node(id).flags.is_exported)
    };
    for name in ["a", "b", "c"] {
        assert_eq!(exported(name), Some(true), "{name}");
    }
    for name in ["d", "h"] {
        assert_eq!(exported(name), Some(false), "{name}");
    }
    assert_ne!(exported("e"), Some(true));
    let b = g.node_by_qualified("crate::b").unwrap();
    assert_eq!(classify_entry(&g, b), Some(EntryKind::Exported));
}
