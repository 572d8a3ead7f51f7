//! Whole graphs of small files that exercise definitions, calls and control flow
//! together, language by language.

use livewalk::adapter::{
    GoTreeSitterAdapter, LanguageAdapter, PythonTreeSitterAdapter, RustTreeSitterAdapter,
    TypeScriptTreeSitterAdapter,
};
use livewalk::graph::{CodeGraph, Node};
use livewalk::source::SourceFile;

/// The attributes that are set.
fn flags(n: &Node) -> String {
    let f = &n.flags;
    let mut out = String::new();
    for (set, name) in [
        (f.is_pub, "pub "),
        (f.is_async, "async "),
        (f.is_unsafe, "unsafe "),
        (f.is_test, "test "),
        (f.is_method, "method "),
        (f.is_generic, "generic "),
    ] {
        if set {
            out.push_str(name);
        }
    }
    out.trim_end().to_string()
}

/// Name, kind, span, attributes, then the measures: lines, decisions, parameters,
/// statements, nesting, returns, unsafe blocks, allocations, awaits.
fn nodes(g: &CodeGraph) -> Vec<String> {
    let e = g.export();
    let mut out = Vec::new();
    for n in e.nodes {
        let s = &n.stats;
        out.push(format!(
            "{} {:?} {}:{}-{}:{} [{}] {:?}",
            n.qualified_name,
            n.kind,
            n.span.start_line,
            n.span.start_col,
            n.span.end_line,
            n.span.end_col,
            flags(n),
            [
                s.lines_of_code,
                s.decision_points,
                s.parameters,
                s.statements,
                s.max_nesting,
                s.returns,
                s.unsafe_blocks,
                s.allocations,
                s.awaits,
            ],
        ));
    }
    out
}

/// Caller, callee, kind, place and number of the calls.
fn edges(g: &CodeGraph) -> Vec<String> {
    let e = g.export();
    let mut out = Vec::new();
    for x in e.edges {
        out.push(format!(
            "{} -> {} {:?} {}:{}-{}:{} x{}",
            g.node(x.from).qualified_name,
            g.node(x.to).qualified_name,
            x.kind,
            x.call_site.start_line,
            x.call_site.start_col,
            x.call_site.end_line,
            x.call_site.end_col,
            x.count,
        ));
    }
    out
}

const RUST: &str = r#"
mod math {
    pub struct Calc { acc: i64 }

    impl Calc {
        pub fn new() -> Self { Calc { acc: 0 } }

        pub fn add(&mut self, x: i64) -> &mut Self {
            self.acc += x;
            self
        }

        pub fn classify(&self) -> i32 {
            if self.acc > 0 {
                1
            } else if self.acc < 0 {
                -1
            } else {
                0
            }
        }
    }

    pub fn sum(xs: &[i64]) -> i64 {
        let mut c = Calc::new();
        for x in xs {
            c.add(*x);
        }
        c.acc
    }
}

fn main() {
    let total = math::sum(&[1, 2, 3]);
    println!("{}", total);
}
"#;

const GO: &str = r#"
package sample

import "fmt"

func scale(x int) int {
	return x * 2
}

type Calc struct {
	acc int
}

func (c *Calc) Add(x int) *Calc {
	c.acc += scale(x)
	return c
}

func (c Calc) Classify() int {
	if c.acc > 0 {
		return 1
	} else if c.acc < 0 {
		return -1
	}
	return 0
}

func main() {
	c := &Calc{}
	c.Add(1)
	c.Add(2)
	fmt.Println(c.Classify())
}
"#;

const PYTHON: &str = r#"
class Calc:
    def __init__(self):
        self.acc = 0

    def add(self, x):
        self.acc += x
        return self

    def classify(self):
        if self.acc > 0:
            return 1
        elif self.acc < 0:
            return -1
        else:
            return 0


def total(xs):
    c = Calc()
    for x in xs:
        c.add(x)
    return c.acc


def main():
    result = total([1, 2, 3])
    print(result)
"#;

const TYPESCRIPT: &str = r#"
export const scale = (x: number): number => x * 2;

class Calc {
    acc: number = 0;

    add(x: number): Calc {
        this.acc += x;
        return this;
    }

    classify(): number {
        if (this.acc > 0) {
            return 1;
        } else if (this.acc < 0) {
            return -1;
        } else {
            return 0;
        }
    }

    static make(): Calc {
        return new Calc();
    }
}

function sum(xs: number[]): number {
    const c = Calc.make();
    for (const x of xs) {
        c.add(scale(x));
    }
    return c.acc;
}

function main(): void {
    const total = sum([1, 2, 3]);
    console.log(total);
}
"#;

#[test]
fn golden_graph_export() {
    let files = vec![SourceFile::new("src/lib.rs", RUST)];
    let g = RustTreeSitterAdapter::new().parse(&files).unwrap();
    assert_eq!(g.export().files, vec!["src/lib.rs"]);
    assert_eq!(
        nodes(&g),
        vec![
            "crate::math::Calc::new Function 6:8-6:48 [pub] [1, 0, 0, 0, 0, 0, 0, 0, 0]",
            "crate::math::Calc::add Method 8:8-11:9 [pub method] [4, 0, 1, 1, 0, 0, 0, 0, 0]",
            "crate::math::Calc::classify Method 13:8-21:9 [pub method] [9, 2, 0, 1, 2, 0, 0, 0, 0]",
            "crate::math::sum Function 24:4-30:5 [pub] [7, 1, 1, 3, 1, 0, 0, 0, 0]",
            "crate::main Function 33:0-36:1 [] [4, 0, 0, 2, 0, 0, 0, 0, 0]",
            "println External 0:0-0:0 [] [0, 0, 0, 0, 0, 0, 0, 0, 0]",
        ]
    );
    assert_eq!(
        edges(&g),
        vec![
            "crate::math::sum -> crate::math::Calc::new AssociatedCall 25:20-25:31 x1",
            "crate::math::sum -> crate::math::Calc::add MethodCall 27:12-27:21 x1",
            "crate::main -> crate::math::sum AssociatedCall 34:16-34:37 x1",
            "crate::main -> println Unresolved 35:4-35:25 x1",
        ]
    );
}

#[test]
fn go_golden_graph_export() {
    let files = vec![SourceFile::new("sample/calc.go", GO)];
    let g = GoTreeSitterAdapter::new().parse(&files).unwrap();
    assert_eq!(g.export().files, vec!["sample/calc.go"]);
    assert_eq!(
        nodes(&g),
        vec![
            "sample::scale Function 6:0-8:1 [] [3, 0, 1, 0, 0, 1, 0, 0, 0]",
            "sample::Calc::Add Method 14:0-17:1 [pub method] [4, 0, 1, 1, 0, 1, 0, 0, 0]",
            "sample::Calc::Classify Method 19:0-26:1 [pub method] [8, 2, 0, 0, 2, 3, 0, 0, 0]",
            "sample::main Function 28:0-33:1 [] [6, 0, 0, 4, 0, 0, 0, 0, 0]",
            "Println External 0:0-0:0 [] [0, 0, 0, 0, 0, 0, 0, 0, 0]",
        ]
    );
    assert_eq!(
        edges(&g),
        vec![
            "sample::Calc::Add -> sample::scale DirectCall 15:10-15:18 x1",
            "sample::main -> sample::Calc::Add MethodCall 30:1-30:9 x2",
            "sample::main -> Println Unresolved 32:1-32:26 x1",
            "sample::main -> sample::Calc::Classify MethodCall 32:13-32:25 x1",
        ]
    );
}

#[test]
fn python_golden_graph_export() {
    let files = vec![SourceFile::new("pkg/calc.py", PYTHON)];
    let g = PythonTreeSitterAdapter::new().parse(&files).unwrap();
    assert_eq!(g.export().files, vec!["pkg/calc.py"]);
    assert_eq!(
        nodes(&g),
        vec![
            "pkg::calc::Calc::__init__ Method 3:4-4:20 [method] [2, 0, 1, 1, 0, 0, 0, 0, 0]",
            "pkg::calc::Calc::add Method 6:4-8:19 [pub method] [3, 0, 2, 1, 0, 1, 0, 0, 0]",
            "pkg::calc::Calc::classify Method 10:4-16:20 [pub method] [7, 2, 1, 0, 1, 3, 0, 0, 0]",
            "pkg::calc::total Function 19:0-23:16 [pub] [5, 1, 1, 2, 1, 1, 0, 0, 0]",
            "pkg::calc::main Function 26:0-28:17 [pub] [3, 0, 0, 2, 0, 0, 0, 0, 0]",
            "Calc External 0:0-0:0 [] [0, 0, 0, 0, 0, 0, 0, 0, 0]",
            "print External 0:0-0:0 [] [0, 0, 0, 0, 0, 0, 0, 0, 0]",
        ]
    );
    assert_eq!(
        edges(&g),
        vec![
            "pkg::calc::total -> Calc Unresolved 20:8-20:14 x1",
            "pkg::calc::total -> pkg::calc::Calc::add MethodCall 22:8-22:16 x1",
            "pkg::calc::main -> pkg::calc::total DirectCall 27:13-27:29 x1",
            "pkg::calc::main -> print Unresolved 28:4-28:17 x1",
        ]
    );
}

#[test]
fn typescript_golden_graph_export() {
    let files = vec![SourceFile::new("src/app.ts", TYPESCRIPT)];
    let g = TypeScriptTreeSitterAdapter::new().parse(&files).unwrap();
    assert_eq!(g.export().files, vec!["src/app.ts"]);
    assert_eq!(
        nodes(&g),
        vec![
            "app::scale Function 2:21-2:49 [pub] [1, 0, 1, 0, 0, 0, 0, 0, 0]",
            "app::Calc::add Method 7:4-10:5 [pub method] [4, 0, 1, 1, 0, 1, 0, 0, 0]",
            "app::Calc::classify Method 12:4-20:5 [pub method] [9, 2, 0, 0, 2, 3, 0, 0, 0]",
            "app::Calc::make Method 22:4-24:5 [pub method] [3, 0, 0, 0, 0, 1, 0, 1, 0]",
            "app::sum Function 27:0-33:1 [] [7, 1, 1, 2, 1, 1, 0, 0, 0]",
            "app::main Function 35:0-38:1 [] [4, 0, 0, 2, 0, 0, 0, 0, 0]",
            "Calc External 0:0-0:0 [] [0, 0, 0, 0, 0, 0, 0, 0, 0]",
            "log External 0:0-0:0 [] [0, 0, 0, 0, 0, 0, 0, 0, 0]",
        ]
    );
    assert_eq!(
        edges(&g),
        vec![
            "app::Calc::make -> Calc Unresolved 23:15-23:25 x1",
            "app::sum -> app::Calc::make MethodCall 28:14-28:25 x1",
            "app::sum -> app::Calc::add MethodCall 30:8-30:23 x1",
            "app::sum -> app::scale DirectCall 30:14-30:22 x1",
            "app::main -> app::sum DirectCall 36:18-36:32 x1",
            "app::main -> log Unresolved 37:4-37:22 x1",
        ]
    );
}
