//! Walking a syntax tree: the definitions of a file, the calls in their bodies, and
//! the measures of a body.

use crate::fragment::{CallModel, RawCall};
use crate::go;
use crate::graph::{Node, NodeFlags, NodeKind, NodeModel, NodeStats};
use crate::ids::{FileId, NodeId};
use crate::lang::{
    callee_view, kid_count, shape_under, span_at, span_of, Callee, CalleeModel, Lang, Shape,
    ShapeModel,
};
use crate::naming::{dotted_text, join_scope, last_dotted, scoped};
use crate::python;
use crate::rust;
use crate::seqs::{ints, views_of};
use crate::syntax::{end_of, field_kid, fits, lemma_named_kids, named_kids, PieceModel, SyntaxTree};
use crate::typescript;
use vstd::prelude::*;

verus! {

// -- what a node is, language by language ---------------------------------------------

/// The node is a definition of its own; the body around it leaves it out.
pub open spec fn is_nested(lang: Lang, t: Seq<PieceModel>, c: int) -> bool {
    match lang {
        Lang::Rust => rust::is_fn(t, c),
        Lang::Go => false,
        Lang::Python => python::is_nested(t, c),
        Lang::TypeScript => typescript::is_nested(t, c),
    }
}

fn nested_at(lang: Lang, tree: &SyntaxTree, c: usize) -> (r: bool)
    requires
        c < tree@.len(),
    ensures
        r == is_nested(lang, tree@, c as int),
{
    match lang {
        Lang::Rust => rust::is_fn_node(tree, c),
        Lang::Go => false,
        Lang::Python => python::is_nested_at(tree, c),
        Lang::TypeScript => typescript::is_nested_at(tree, c),
    }
}

/// What a call calls; `None` where the node is no call.
pub open spec fn callee(lang: Lang, t: Seq<PieceModel>, text: Seq<char>, c: int) -> Option<CalleeModel> {
    match lang {
        Lang::Rust => rust::callee(t, text, c),
        Lang::Go => go::callee(t, text, c),
        Lang::Python => python::callee(t, text, c),
        Lang::TypeScript => typescript::callee(t, text, c),
    }
}

fn callee_at(lang: Lang, tree: &SyntaxTree, text: &str, c: usize) -> (r: Option<Callee>)
    requires
        c < tree@.len(),
    ensures
        callee_view(r) == callee(lang, tree@, text@, c as int),
{
    match lang {
        Lang::Rust => rust::callee_of_call(tree, text, c),
        Lang::Go => go::callee_of_call(tree, text, c),
        Lang::Python => python::callee_of_call(tree, text, c),
        Lang::TypeScript => typescript::callee_of_call(tree, text, c),
    }
}

/// How a child of node `i` is read when definitions are looked for.
pub open spec fn shape(
    lang: Lang,
    t: Seq<PieceModel>,
    text: Seq<char>,
    i: int,
    c: int,
    scope: Seq<char>,
) -> ShapeModel {
    match lang {
        Lang::Rust => rust::shape(t, text, c, scope),
        Lang::Go => go::shape(t, text, c, scope),
        Lang::Python => python::shape(t, text, c, scope),
        Lang::TypeScript => typescript::shape(t, text, i, c, scope),
    }
}

fn shape_at(lang: Lang, tree: &SyntaxTree, text: &str, i: usize, c: usize, scope: &str) -> (r: Shape)
    requires
        i < tree@.len(),
        c < tree@.len(),
    ensures
        r@ == shape(lang, tree@, text@, i as int, c as int, scope@),
        shape_under(r@, c as int, tree@.len() as int),
{
    match lang {
        Lang::Rust => rust::shape_of(tree, text, c, scope),
        Lang::Go => go::shape_of(tree, text, c, scope),
        Lang::Python => python::shape_of(tree, text, c, scope),
        Lang::TypeScript => typescript::shape_of(tree, text, i, c, scope),
    }
}

/// What a measure counts.
pub enum Measure {
    Decisions,
    Statements,
    Returns,
    UnsafeBlocks,
    Allocations,
    Awaits,
}

/// Which nodes a measure counts.
pub open spec fn counted(lang: Lang, t: Seq<PieceModel>, text: Seq<char>, m: Measure) -> spec_fn(
    int,
) -> bool {
    |c: int|
        match (lang, m) {
            (Lang::Rust, Measure::Decisions) => rust::decides(t, c),
            (Lang::Rust, Measure::Statements) => rust::is_statement(t, c),
            (Lang::Rust, Measure::Returns) => rust::is_return(t, c),
            (Lang::Rust, Measure::UnsafeBlocks) => rust::is_unsafe_block(t, c),
            (Lang::Rust, Measure::Allocations) => rust::allocates(t, text, c),
            (Lang::Rust, Measure::Awaits) => rust::is_await(t, c),
            (Lang::Go, Measure::Decisions) => go::decides(t, c),
            (Lang::Go, Measure::Statements) => go::is_statement(t, c),
            (Lang::Go, Measure::Returns) => go::is_return(t, c),
            (Lang::Go, Measure::Allocations) => go::allocates(t, text, c),
            (Lang::Python, Measure::Decisions) => python::decides(t, c),
            (Lang::Python, Measure::Statements) => python::is_statement(t, c),
            (Lang::Python, Measure::Returns) => python::is_return(t, c),
            (Lang::Python, Measure::Allocations) => python::allocates(t, text, c),
            (Lang::Python, Measure::Awaits) => python::is_await(t, c),
            (Lang::TypeScript, Measure::Decisions) => typescript::decides(t, c),
            (Lang::TypeScript, Measure::Statements) => typescript::is_statement(t, c),
            (Lang::TypeScript, Measure::Returns) => typescript::is_return(t, c),
            (Lang::TypeScript, Measure::Allocations) => typescript::allocates(t, c),
            (Lang::TypeScript, Measure::Awaits) => typescript::is_await(t, c),
            _ => false,
        }
}

/// What stands inside the node is nested one level deeper.
pub open spec fn nests(lang: Lang, t: Seq<PieceModel>, c: int) -> bool {
    match lang {
        Lang::Rust => rust::nests(t, c),
        Lang::Go => go::nests(t, c),
        Lang::Python => python::nests(t, c),
        Lang::TypeScript => typescript::nests(t, c),
    }
}

/// The parameters of a function.
pub open spec fn is_param(lang: Lang, t: Seq<PieceModel>) -> spec_fn(int) -> bool {
    match lang {
        Lang::Rust => rust::is_param(t),
        Lang::Go => go::is_param(t),
        Lang::Python => python::is_param(t),
        Lang::TypeScript => typescript::is_param(t),
    }
}

fn param_at(lang: Lang, tree: &SyntaxTree, c: usize) -> (r: bool)
    requires
        c < tree@.len(),
    ensures
        r == is_param(lang, tree@)(c as int),
{
    match lang {
        Lang::Rust => tree.is(c, "parameter") || tree.is(c, "variadic_parameter"),
        Lang::Go => tree.is(c, "parameter_declaration") || tree.is(
            c,
            "variadic_parameter_declaration",
        ),
        Lang::Python => python::is_param_at(tree, c),
        Lang::TypeScript => tree.is(c, "required_parameter") || tree.is(c, "optional_parameter"),
    }
}

/// The number of parameters. A TypeScript arrow without parentheses has one.
pub open spec fn param_count(lang: Lang, t: Seq<PieceModel>, func: int) -> nat {
    match field_kid(t, func, "parameters"@) {
        Some(p) => kid_count(t, p, is_param(lang, t), named_kids(t, p).len() as int),
        None => if lang == Lang::TypeScript && field_kid(t, func, "parameter"@) is Some {
            1
        } else {
            0
        },
    }
}

fn count_params(lang: Lang, tree: &SyntaxTree, func: usize) -> (r: u32)
    requires
        func < tree@.len(),
        fits(tree@),
    ensures
        r == param_count(lang, tree@, func as int),
{
    let ghost t = tree@;
    match tree.child_by_field(func, "parameters") {
        Some(p) => {
            let ks = tree.named_children(p);
            let mut n: u32 = 0;
            let mut i: usize = 0;
            proof {
                lemma_kids_len(t, p as int);
            }
            while i < ks.len()
                invariant
                    i <= ks@.len() < u32::MAX,
                    n <= i,
                    p < t.len(),
                    t == tree@,
                    ints(ks@) == named_kids(t, p as int),
                    forall|a: int| 0 <= a < ks@.len() ==> p < #[trigger] ks@[a] < t.len(),
                    n == kid_count(t, p as int, is_param(lang, t), i as int),
                decreases ks@.len() - i,
            {
                assert(ints(ks@)[i as int] == ks@[i as int]);
                if param_at(lang, tree, ks[i]) {
                    n += 1;
                }
                i += 1;
            }
            n
        },
        None => {
            if lang == Lang::TypeScript && tree.child_by_field(func, "parameter").is_some() {
                1
            } else {
                0
            }
        },
    }
}

proof fn lemma_kids_len(t: Seq<PieceModel>, i: int)
    requires
        0 <= i < t.len(),
    ensures
        named_kids(t, i).len() <= t.len() - i - 1,
{
    lemma_named_kids(t, i);
    lemma_spaced(t, i, named_kids(t, i).len() as int);
}

proof fn lemma_spaced(t: Seq<PieceModel>, i: int, k: int)
    requires
        0 <= i < t.len(),
        0 <= k <= named_kids(t, i).len(),
    ensures
        k > 0 ==> k <= named_kids(t, i)[k - 1] - i,
        k <= t.len() - i - 1,
    decreases k,
{
    lemma_named_kids(t, i);
    if k > 0 {
        lemma_spaced(t, i, k - 1);
        if k > 1 {
            let a = named_kids(t, i)[k - 2];
            let b = named_kids(t, i)[k - 1];
            assert(end_of(t, a) <= b);
            assert(a < end_of(t, a));
        }
        assert(named_kids(t, i)[k - 1] < end_of(t, named_kids(t, i)[k - 1]));
    }
}

// -- measures -----------------------------------------------------------------------

/// How many nodes under node `i`, outside nested definitions, meet `f`.
pub open spec fn scan_count(
    lang: Lang,
    t: Seq<PieceModel>,
    f: spec_fn(int) -> bool,
    i: int,
) -> nat
    decreases t.len() - i, 1nat, 0int,
{
    if 0 <= i < t.len() {
        scan_count_kids(lang, t, f, i, named_kids(t, i).len() as int)
    } else {
        0
    }
}

/// The same for the first `k` named children of node `i`.
pub open spec fn scan_count_kids(
    lang: Lang,
    t: Seq<PieceModel>,
    f: spec_fn(int) -> bool,
    i: int,
    k: int,
) -> nat
    decreases t.len() - i, 0nat, k,
{
    if k <= 0 || k > named_kids(t, i).len() {
        0
    } else {
        let c = named_kids(t, i)[k - 1];
        let before = scan_count_kids(lang, t, f, i, k - 1);
        if is_nested(lang, t, c) || !(i < c < t.len()) {
            before
        } else {
            before + scan_count(lang, t, f, c) + if f(c) {
                1nat
            } else {
                0nat
            }
        }
    }
}

/// The greater of two numbers.
pub open spec fn larger(a: nat, b: nat) -> nat {
    if a >= b {
        a
    } else {
        b
    }
}

/// The deepest nesting under node `i`, which itself stands at level `d`.
pub open spec fn scan_depth(lang: Lang, t: Seq<PieceModel>, i: int, d: nat) -> nat
    decreases t.len() - i, 1nat, 0int,
{
    if 0 <= i < t.len() {
        scan_depth_kids(lang, t, i, d, named_kids(t, i).len() as int)
    } else {
        0
    }
}

/// The same for the first `k` named children of node `i`.
pub open spec fn scan_depth_kids(lang: Lang, t: Seq<PieceModel>, i: int, d: nat, k: int) -> nat
    decreases t.len() - i, 0nat, k,
{
    if k <= 0 || k > named_kids(t, i).len() {
        0
    } else {
        let c = named_kids(t, i)[k - 1];
        let before = scan_depth_kids(lang, t, i, d, k - 1);
        if is_nested(lang, t, c) || !(i < c < t.len()) {
            before
        } else {
            let e = d + if nests(lang, t, c) {
                1nat
            } else {
                0nat
            };
            larger(before, larger(e, scan_depth(lang, t, c, e)))
        }
    }
}

proof fn lemma_scan_count(lang: Lang, t: Seq<PieceModel>, f: spec_fn(int) -> bool, i: int)
    requires
        0 <= i < t.len(),
    ensures
        scan_count(lang, t, f, i) <= end_of(t, i) - i - 1,
    decreases t.len() - i, 1nat, 0int,
{
    lemma_named_kids(t, i);
    lemma_scan_count_kids(lang, t, f, i, named_kids(t, i).len() as int);
}

proof fn lemma_scan_count_kids(
    lang: Lang,
    t: Seq<PieceModel>,
    f: spec_fn(int) -> bool,
    i: int,
    k: int,
)
    requires
        0 <= i < t.len(),
        0 <= k <= named_kids(t, i).len(),
    ensures
        scan_count_kids(lang, t, f, i, k) <= if k > 0 {
            end_of(t, named_kids(t, i)[k - 1]) - i - 1
        } else {
            0
        },
        scan_count_kids(lang, t, f, i, k) <= end_of(t, i) - i - 1,
    decreases t.len() - i, 0nat, k,
{
    lemma_named_kids(t, i);
    if k > 0 {
        let c = named_kids(t, i)[k - 1];
        lemma_scan_count_kids(lang, t, f, i, k - 1);
        lemma_scan_count(lang, t, f, c);
        if k > 1 {
            assert(end_of(t, named_kids(t, i)[k - 2]) <= c);
        }
        assert(c < end_of(t, c));
        assert(end_of(t, c) <= end_of(t, i));
    }
}

proof fn lemma_count_step(
    lang: Lang,
    t: Seq<PieceModel>,
    f: spec_fn(int) -> bool,
    i: int,
    c: int,
    k: int,
)
    requires
        0 <= k < named_kids(t, i).len(),
        named_kids(t, i)[k] == c,
        0 <= i < c < t.len(),
    ensures
        is_nested(lang, t, c) ==> scan_count_kids(lang, t, f, i, k + 1) == scan_count_kids(
            lang,
            t,
            f,
            i,
            k,
        ),
        !is_nested(lang, t, c) ==> scan_count_kids(lang, t, f, i, k + 1) == scan_count_kids(
            lang,
            t,
            f,
            i,
            k,
        ) + scan_count_kids(lang, t, f, c, named_kids(t, c).len() as int) + if f(c) {
            1int
        } else {
            0int
        },
{
    assert(scan_count(lang, t, f, c) == scan_count_kids(
        lang,
        t,
        f,
        c,
        named_kids(t, c).len() as int,
    ));
}

struct Tally {
    decisions: u32,
    statements: u32,
    returns: u32,
    unsafe_blocks: u32,
    allocations: u32,
    awaits: u32,
    nesting: u32,
}

spec fn tally_at(
    a: Tally,
    b: Tally,
    lang: Lang,
    t: Seq<PieceModel>,
    text: Seq<char>,
    i: int,
    d: nat,
    k: int,
) -> bool {
    &&& a.decisions == b.decisions + scan_count_kids(
        lang,
        t,
        counted(lang, t, text, Measure::Decisions),
        i,
        k,
    )
    &&& a.statements == b.statements + scan_count_kids(
        lang,
        t,
        counted(lang, t, text, Measure::Statements),
        i,
        k,
    )
    &&& a.returns == b.returns + scan_count_kids(
        lang,
        t,
        counted(lang, t, text, Measure::Returns),
        i,
        k,
    )
    &&& a.unsafe_blocks == b.unsafe_blocks + scan_count_kids(
        lang,
        t,
        counted(lang, t, text, Measure::UnsafeBlocks),
        i,
        k,
    )
    &&& a.allocations == b.allocations + scan_count_kids(
        lang,
        t,
        counted(lang, t, text, Measure::Allocations),
        i,
        k,
    )
    &&& a.awaits == b.awaits + scan_count_kids(
        lang,
        t,
        counted(lang, t, text, Measure::Awaits),
        i,
        k,
    )
    &&& a.nesting == larger(b.nesting as nat, scan_depth_kids(lang, t, i, d, k))
}

spec fn tally_below(a: Tally, n: int) -> bool {
    &&& a.decisions <= n
    &&& a.statements <= n
    &&& a.returns <= n
    &&& a.unsafe_blocks <= n
    &&& a.allocations <= n
    &&& a.awaits <= n
}

/// Count one node.
fn tally_node(lang: Lang, tree: &SyntaxTree, text: &str, c: usize, acc: &mut Tally)
    requires
        c < tree@.len() < u32::MAX,
        tally_below(*old(acc), c as int),
    ensures
        ({
            let t = tree@;
            let a = *final(acc);
            let b = *old(acc);
            let one = |m: Measure|
                if counted(lang, t, text@, m)(c as int) {
                    1int
                } else {
                    0int
                };
            &&& a.decisions == b.decisions + one(Measure::Decisions)
            &&& a.statements == b.statements + one(Measure::Statements)
            &&& a.returns == b.returns + one(Measure::Returns)
            &&& a.unsafe_blocks == b.unsafe_blocks + one(Measure::UnsafeBlocks)
            &&& a.allocations == b.allocations + one(Measure::Allocations)
            &&& a.awaits == b.awaits + one(Measure::Awaits)
            &&& a.nesting == b.nesting
        }),
{
    let decides = match lang {
        Lang::Rust => rust::decides_at(tree, c),
        Lang::Go => go::decides_at(tree, c),
        Lang::Python => python::decides_at(tree, c),
        Lang::TypeScript => typescript::decides_at(tree, c),
    };
    if decides {
        acc.decisions = acc.decisions + 1;
    }
    let statement = match lang {
        Lang::Rust => tree.is(c, "let_declaration") || tree.is(c, "expression_statement"),
        Lang::Go => go::is_statement_at(tree, c),
        Lang::Python => tree.is(c, "expression_statement"),
        Lang::TypeScript => tree.is(c, "lexical_declaration") || tree.is(c, "variable_declaration")
            || tree.is(c, "expression_statement"),
    };
    if statement {
        acc.statements = acc.statements + 1;
    }
    let leaves = match lang {
        Lang::Rust => tree.is(c, "return_expression"),
        _ => tree.is(c, "return_statement"),
    };
    if leaves {
        acc.returns = acc.returns + 1;
    }
    if lang == Lang::Rust && tree.is(c, "unsafe_block") {
        acc.unsafe_blocks = acc.unsafe_blocks + 1;
    }
    let allocates = match lang {
        Lang::Rust => rust::allocates_at(tree, text, c),
        Lang::Go => go::allocates_at(tree, text, c),
        Lang::Python => python::allocates_at(tree, text, c),
        Lang::TypeScript => tree.is(c, "new_expression"),
    };
    if allocates {
        acc.allocations = acc.allocations + 1;
    }
    let awaits = match lang {
        Lang::Rust => tree.is(c, "await_expression"),
        Lang::Go => false,
        Lang::Python => tree.is(c, "await"),
        Lang::TypeScript => tree.is(c, "await_expression"),
    };
    if awaits {
        acc.awaits = acc.awaits + 1;
    }
}

fn nests_at(lang: Lang, tree: &SyntaxTree, c: usize) -> (r: bool)
    requires
        c < tree@.len(),
    ensures
        r == nests(lang, tree@, c as int),
{
    match lang {
        Lang::Rust => rust::nests_at(tree, c),
        Lang::Go => go::nests_at(tree, c),
        Lang::Python => python::nests_at(tree, c),
        Lang::TypeScript => typescript::nests_at(tree, c),
    }
}

/// Count what stands under a node.
fn scan_stats(lang: Lang, tree: &SyntaxTree, text: &str, i: usize, depth: u32, acc: &mut Tally)
    requires
        fits(tree@),
        i < tree@.len(),
        depth <= i,
        tally_below(*old(acc), i as int),
    ensures
        tally_at(
            *final(acc),
            *old(acc),
            lang,
            tree@,
            text@,
            i as int,
            depth as nat,
            named_kids(tree@, i as int).len() as int,
        ),
        tally_below(*final(acc), end_of(tree@, i as int) - 1),
    decreases tree@.len() - i,
{
    let ghost t = tree@;
    let ghost start = *acc;
    let ks = tree.named_children(i);
    let ghost ns = named_kids(t, i as int);
    proof {
        lemma_named_kids(t, i as int);
    }
    let mut k: usize = 0;
    while k < ks.len()
        invariant
            fits(t),
            t == tree@,
            i < t.len(),
            depth <= i,
            ns == named_kids(t, i as int),
            ints(ks@) == ns,
            k <= ks@.len(),
            i < end_of(t, i as int) <= t.len(),
            forall|a: int|
                0 <= a < ns.len() ==> i < #[trigger] ns[a] && end_of(t, ns[a]) <= end_of(
                    t,
                    i as int,
                ) && ns[a] < end_of(t, ns[a]),
            forall|a: int, b: int|
                0 <= a < b < ns.len() ==> end_of(t, #[trigger] ns[a]) <= #[trigger] ns[b],
            forall|a: int| 0 <= a < ks@.len() ==> i < #[trigger] ks@[a] < t.len(),
            tally_at(*acc, start, lang, t, text@, i as int, depth as nat, k as int),
            k == 0 ==> tally_below(*acc, i as int),
            k > 0 ==> tally_below(*acc, end_of(t, ns[k - 1]) - 1),
        decreases ks@.len() - k,
    {
        let c: usize = ks[k];
        let ghost before = *acc;
        assert(ns[k as int] == c);
        if k > 0 {
            assert(end_of(t, ns[k - 1]) <= ns[k as int]);
        }
        assert(tally_below(*acc, c - 1));
        proof {
            let n = k as int;
            let x = c as int;
            let v = i as int;
            lemma_count_step(lang, t, counted(lang, t, text@, Measure::Decisions), v, x, n);
            lemma_count_step(lang, t, counted(lang, t, text@, Measure::Statements), v, x, n);
            lemma_count_step(lang, t, counted(lang, t, text@, Measure::Returns), v, x, n);
            lemma_count_step(lang, t, counted(lang, t, text@, Measure::UnsafeBlocks), v, x, n);
            lemma_count_step(lang, t, counted(lang, t, text@, Measure::Allocations), v, x, n);
            lemma_count_step(lang, t, counted(lang, t, text@, Measure::Awaits), v, x, n);
        }
        if !nested_at(lang, tree, c) {
            let d: u32 = if nests_at(lang, tree, c) {
                depth + 1
            } else {
                depth
            };
            tally_node(lang, tree, text, c, acc);
            if d > acc.nesting {
                acc.nesting = d;
            }
            let ghost mid = *acc;
            scan_stats(lang, tree, text, c, d, acc);
            proof {
                assert(scan_depth(lang, t, c as int, d as nat) == scan_depth_kids(
                    lang,
                    t,
                    c as int,
                    d as nat,
                    named_kids(t, c as int).len() as int,
                ));
                assert(scan_depth_kids(lang, t, i as int, depth as nat, k + 1) == larger(
                    scan_depth_kids(lang, t, i as int, depth as nat, k as int),
                    larger(d as nat, scan_depth(lang, t, c as int, d as nat)),
                ));
            }
        }
        k += 1;
    }
    proof {
        if ks@.len() > 0 {
            assert(end_of(t, ns[ks@.len() - 1]) <= end_of(t, i as int));
        }
    }
}

/// The measures of a function.
pub open spec fn stats(lang: Lang, t: Seq<PieceModel>, text: Seq<char>, func: int) -> NodeStats {
    let count = |m: Measure|
        match field_kid(t, func, "body"@) {
            Some(b) => scan_count(lang, t, counted(lang, t, text, m), b) as u32,
            None => 0u32,
        };
    let rows = t[func].end_row - t[func].start_row;
    NodeStats {
        lines_of_code: if rows >= 0 {
            (rows + 1) as u32
        } else {
            1
        },
        decision_points: count(Measure::Decisions),
        parameters: param_count(lang, t, func) as u32,
        statements: count(Measure::Statements),
        max_nesting: match field_kid(t, func, "body"@) {
            Some(b) => scan_depth(lang, t, b, 0) as u32,
            None => 0,
        },
        returns: count(Measure::Returns),
        unsafe_blocks: count(Measure::UnsafeBlocks),
        allocations: count(Measure::Allocations),
        awaits: count(Measure::Awaits),
    }
}

fn compute_stats(lang: Lang, tree: &SyntaxTree, text: &str, func: usize) -> (r: NodeStats)
    requires
        fits(tree@),
        func < tree@.len(),
    ensures
        r == stats(lang, tree@, text@, func as int),
        r.decision_points < u32::MAX,
{
    let ghost t = tree@;
    let mut acc = Tally {
        decisions: 0,
        statements: 0,
        returns: 0,
        unsafe_blocks: 0,
        allocations: 0,
        awaits: 0,
        nesting: 0,
    };
    if let Some(b) = tree.child_by_field(func, "body") {
        scan_stats(lang, tree, text, b, 0, &mut acc);
        proof {
            lemma_named_kids(t, b as int);
        }
    }
    assert(t[func as int] == tree.pieces@[func as int]@);
    let start: u32 = tree.pieces[func].start_row;
    let end: u32 = tree.pieces[func].end_row;
    NodeStats {
        lines_of_code: end.saturating_sub(start) + 1,
        decision_points: acc.decisions,
        parameters: count_params(lang, tree, func),
        statements: acc.statements,
        max_nesting: acc.nesting,
        returns: acc.returns,
        unsafe_blocks: acc.unsafe_blocks,
        allocations: acc.allocations,
        awaits: acc.awaits,
    }
}

// -- definitions ------------------------------------------------------------------

/// A definition and the name by which calls find it.
#[derive(Debug)]
pub struct DefSite {
    pub node: Node,
    pub key: String,
}

/// The mathematical content of a [`DefSite`].
#[verifier::ext_equal]
pub struct DefModel {
    pub node: NodeModel,
    pub key: Seq<char>,
}

impl View for DefSite {
    type V = DefModel;

    open spec fn view(&self) -> DefModel {
        DefModel { node: self.node@, key: self.key@ }
    }
}

/// A call and the module from which it is made.
#[derive(Debug)]
pub struct CallSite {
    pub call: RawCall,
    pub module: String,
}

/// The mathematical content of a [`CallSite`].
#[verifier::ext_equal]
pub struct SiteModel {
    pub call: CallModel,
    pub module: Seq<char>,
}

impl View for CallSite {
    type V = SiteModel;

    open spec fn view(&self) -> SiteModel {
        SiteModel { call: self.call@, module: self.module@ }
    }
}

/// The attributes of a function.
pub open spec fn flags(
    lang: Lang,
    t: Seq<PieceModel>,
    text: Seq<char>,
    func: int,
    owner: Seq<char>,
    name: Seq<char>,
    method: bool,
) -> NodeFlags {
    match lang {
        Lang::Rust => rust::flags(t, text, func, owner, name),
        Lang::Go => go::flags(t, func, name, method),
        Lang::Python => python::flags(t, text, func, name, method),
        Lang::TypeScript => typescript::flags(t, text, func, name, method),
    }
}

/// The short name that a definition shows.
pub open spec fn shown_name(lang: Lang, owner: Seq<char>, name: Seq<char>) -> Seq<char> {
    if lang == Lang::Rust {
        name
    } else {
        last_dotted(scoped(owner, name))
    }
}

/// A definition found in a tree.
pub open spec fn def_model(
    lang: Lang,
    t: Seq<PieceModel>,
    text: Seq<char>,
    func: int,
    name: Seq<char>,
    owner: Seq<char>,
    method: bool,
) -> DefModel {
    let shown = shown_name(lang, owner, name);
    DefModel {
        node: NodeModel {
            id: NodeId(0),
            name: shown,
            qualified_name: scoped(owner, name),
            module: owner,
            kind: if method {
                NodeKind::Method
            } else {
                NodeKind::Function
            },
            span: span_at(t, func, FileId(0)),
            flags: flags(lang, t, text, func, owner, shown, method),
            stats: stats(lang, t, text, func),
        },
        key: name,
    }
}

fn make_def(
    lang: Lang,
    tree: &SyntaxTree,
    text: &str,
    func: usize,
    name: &str,
    owner: &str,
    method: bool,
) -> (r: DefSite)
    requires
        fits(tree@),
        func < tree@.len(),
    ensures
        r@ == def_model(lang, tree@, text@, func as int, name@, owner@, method),
        r@.node.valid(),
{
    let qualified = join_scope(owner, name);
    let shown = if lang == Lang::Rust {
        name.to_owned()
    } else {
        dotted_text(qualified.as_str())
    };
    let flags = match lang {
        Lang::Rust => rust::flags_of(tree, text, func, owner, shown.as_str()),
        Lang::Go => go::flags_of(tree, func, shown.as_str(), method),
        Lang::Python => python::flags_of(tree, text, func, shown.as_str(), method),
        Lang::TypeScript => typescript::flags_of(tree, text, func, shown.as_str(), method),
    };
    DefSite {
        node: Node {
            id: NodeId(0),
            name: shown,
            qualified_name: qualified,
            module: owner.to_owned(),
            kind: if method {
                NodeKind::Method
            } else {
                NodeKind::Function
            },
            span: span_of(tree, func, FileId(0)),
            flags,
            stats: compute_stats(lang, tree, text, func),
        },
        key: name.to_owned(),
    }
}

/// The definitions under node `i`, in source order, when `scope` is the scope.
pub open spec fn found_defs(
    lang: Lang,
    t: Seq<PieceModel>,
    text: Seq<char>,
    i: int,
    scope: Seq<char>,
) -> Seq<DefModel>
    decreases t.len() - i, 2nat, 0int,
{
    if 0 <= i < t.len() {
        found_defs_kids(lang, t, text, i, scope, named_kids(t, i).len() as int)
    } else {
        Seq::empty()
    }
}

/// The same for the first `k` named children of node `i`.
pub open spec fn found_defs_kids(
    lang: Lang,
    t: Seq<PieceModel>,
    text: Seq<char>,
    i: int,
    scope: Seq<char>,
    k: int,
) -> Seq<DefModel>
    decreases t.len() - i, 1nat, k,
{
    if k <= 0 || k > named_kids(t, i).len() {
        Seq::empty()
    } else {
        found_defs_kids(lang, t, text, i, scope, k - 1) + found_defs_at(
            lang,
            t,
            text,
            i,
            named_kids(t, i)[k - 1],
            scope,
        )
    }
}

/// The definitions that a child `c` of node `i` holds.
pub open spec fn found_defs_at(
    lang: Lang,
    t: Seq<PieceModel>,
    text: Seq<char>,
    i: int,
    c: int,
    scope: Seq<char>,
) -> Seq<DefModel>
    decreases t.len() - i, 0nat, 0int,
{
    match shape(lang, t, text, i, c, scope) {
        ShapeModel::Skip => Seq::empty(),
        ShapeModel::Plain => if i < c < t.len() {
            found_defs(lang, t, text, c, scope)
        } else {
            Seq::empty()
        },
        ShapeModel::Enter { body, scope: inner } => match body {
            Some(b) => if i < b < t.len() {
                found_defs(lang, t, text, b, inner)
            } else {
                Seq::empty()
            },
            None => Seq::empty(),
        },
        ShapeModel::Def { func, name, owner, method, descend } => {
            let def = seq![def_model(lang, t, text, func, name, owner, method)];
            match field_kid(t, func, "body"@) {
                Some(b) => if descend && i < b < t.len() {
                    def + found_defs(lang, t, text, b, scoped(owner, name))
                } else {
                    def
                },
                None => def,
            }
        },
    }
}

/// Collect the definitions under a node.
fn collect_defs(
    lang: Lang,
    tree: &SyntaxTree,
    text: &str,
    i: usize,
    scope: &str,
    out: &mut Vec<DefSite>,
)
    requires
        fits(tree@),
        i < tree@.len(),
        forall|j: int| 0 <= j < old(out)@.len() ==> (#[trigger] old(out)@[j])@.node.valid(),
    ensures
        views_of(final(out)@) == views_of(old(out)@) + found_defs(
            lang,
            tree@,
            text@,
            i as int,
            scope@,
        ),
        forall|j: int| 0 <= j < final(out)@.len() ==> (#[trigger] final(out)@[j])@.node.valid(),
    decreases tree@.len() - i,
{
    let ghost t = tree@;
    let ghost start = views_of(out@);
    let ks = tree.named_children(i);
    let ghost ns = named_kids(t, i as int);
    let mut k: usize = 0;
    assert(start + Seq::<DefModel>::empty() =~= start);
    while k < ks.len()
        invariant
            fits(t),
            t == tree@,
            i < t.len(),
            ns == named_kids(t, i as int),
            ints(ks@) == ns,
            k <= ks@.len(),
            forall|a: int| 0 <= a < ks@.len() ==> i < #[trigger] ks@[a] < t.len(),
            views_of(out@) == start + found_defs_kids(
                lang,
                t,
                text@,
                i as int,
                scope@,
                k as int,
            ),
            forall|j: int| 0 <= j < out@.len() ==> (#[trigger] out@[j])@.node.valid(),
        decreases ks@.len() - k,
    {
        let c: usize = ks[k];
        assert(ns[k as int] == c);
        let ghost before = views_of(out@);
        let ghost found = found_defs_at(lang, t, text@, i as int, c as int, scope@);
        match shape_at(lang, tree, text, i, c, scope) {
            Shape::Skip => {
                assert(before + found =~= before);
            },
            Shape::Plain => {
                collect_defs(lang, tree, text, c, scope, out);
            },
            Shape::Enter { body, scope: inner } => {
                match body {
                    Some(b) => {
                        collect_defs(lang, tree, text, b, inner.as_str(), out);
                    },
                    None => {
                        assert(before + found =~= before);
                    },
                }
            },
            Shape::Def { func, name, owner, method, descend } => {
                let def = make_def(
                    lang,
                    tree,
                    text,
                    func,
                    name.as_str(),
                    owner.as_str(),
                    method,
                );
                let ghost one = seq![def@];
                proof {
                    crate::seqs::lemma_views_push(out@, def);
                    assert(before.push(def@) =~= before + one);
                }
                out.push(def);
                let inside = tree.child_by_field(func, "body");
                if descend {
                    if let Some(b) = inside {
                        let inner = join_scope(owner.as_str(), name.as_str());
                        collect_defs(lang, tree, text, b, inner.as_str(), out);
                        assert(before + one + found_defs(lang, t, text@, b as int, inner@)
                            =~= before + (one + found_defs(lang, t, text@, b as int, inner@)));
                    }
                }
            },
        }
        proof {
            assert(views_of(out@) =~= before + found);
            assert(start + found_defs_kids(lang, t, text@, i as int, scope@, k + 1) =~= start
                + found_defs_kids(lang, t, text@, i as int, scope@, k as int) + found);
        }
        k += 1;
    }
}

// -- calls --------------------------------------------------------------------------

/// A call found in a body.
pub open spec fn site_model(
    t: Seq<PieceModel>,
    c: int,
    callee: CalleeModel,
    caller: Seq<char>,
    module: Seq<char>,
) -> SiteModel {
    SiteModel {
        call: CallModel {
            caller,
            kind: callee.kind,
            path: callee.path,
            short: callee.short,
            call_site: span_at(t, c, FileId(0)),
        },
        module,
    }
}

/// The call that a node is, if it is one.
pub open spec fn own_call(
    lang: Lang,
    t: Seq<PieceModel>,
    text: Seq<char>,
    c: int,
    caller: Seq<char>,
    module: Seq<char>,
) -> Seq<SiteModel> {
    match callee(lang, t, text, c) {
        Some(x) => seq![site_model(t, c, x, caller, module)],
        None => Seq::empty(),
    }
}

/// The calls under node `i`, outside nested definitions, in source order.
pub open spec fn scan_calls(
    lang: Lang,
    t: Seq<PieceModel>,
    text: Seq<char>,
    i: int,
    caller: Seq<char>,
    module: Seq<char>,
) -> Seq<SiteModel>
    decreases t.len() - i, 1nat, 0int,
{
    if 0 <= i < t.len() {
        scan_calls_kids(lang, t, text, i, caller, module, named_kids(t, i).len() as int)
    } else {
        Seq::empty()
    }
}

/// The same for the first `k` named children of node `i`.
pub open spec fn scan_calls_kids(
    lang: Lang,
    t: Seq<PieceModel>,
    text: Seq<char>,
    i: int,
    caller: Seq<char>,
    module: Seq<char>,
    k: int,
) -> Seq<SiteModel>
    decreases t.len() - i, 0nat, k,
{
    if k <= 0 || k > named_kids(t, i).len() {
        Seq::empty()
    } else {
        let c = named_kids(t, i)[k - 1];
        let before = scan_calls_kids(lang, t, text, i, caller, module, k - 1);
        if is_nested(lang, t, c) || !(i < c < t.len()) {
            before
        } else {
            before + own_call(lang, t, text, c, caller, module) + scan_calls(
                lang,
                t,
                text,
                c,
                caller,
                module,
            )
        }
    }
}

fn collect_body_calls(
    lang: Lang,
    tree: &SyntaxTree,
    text: &str,
    i: usize,
    caller: &str,
    module: &str,
    out: &mut Vec<CallSite>,
)
    requires
        fits(tree@),
        i < tree@.len(),
    ensures
        views_of(final(out)@) == views_of(old(out)@) + scan_calls(
            lang,
            tree@,
            text@,
            i as int,
            caller@,
            module@,
        ),
    decreases tree@.len() - i,
{
    let ghost t = tree@;
    let ghost start = views_of(out@);
    let ks = tree.named_children(i);
    let ghost ns = named_kids(t, i as int);
    let mut k: usize = 0;
    assert(start + Seq::<SiteModel>::empty() =~= start);
    while k < ks.len()
        invariant
            fits(t),
            t == tree@,
            i < t.len(),
            ns == named_kids(t, i as int),
            ints(ks@) == ns,
            k <= ks@.len(),
            forall|a: int| 0 <= a < ks@.len() ==> i < #[trigger] ks@[a] < t.len(),
            views_of(out@) == start + scan_calls_kids(
                lang,
                t,
                text@,
                i as int,
                caller@,
                module@,
                k as int,
            ),
        decreases ks@.len() - k,
    {
        let c: usize = ks[k];
        assert(ns[k as int] == c);
        let ghost done = scan_calls_kids(lang, t, text@, i as int, caller@, module@, k as int);
        if !nested_at(lang, tree, c) {
            let ghost before = views_of(out@);
            let ghost own = own_call(lang, t, text@, c as int, caller@, module@);
            match callee_at(lang, tree, text, c) {
                Some(x) => {
                    let ghost model = x@;
                    let site = CallSite {
                        call: RawCall {
                            caller: caller.to_owned(),
                            kind: x.kind,
                            path: x.path,
                            short: x.short,
                            call_site: span_of(tree, c, FileId(0)),
                        },
                        module: module.to_owned(),
                    };
                    proof {
                        assert(site@ == site_model(t, c as int, model, caller@, module@));
                        crate::seqs::lemma_views_push(out@, site);
                        assert(before.push(site@) =~= before + own);
                    }
                    out.push(site);
                },
                None => {
                    assert(before + own =~= before);
                },
            }
            collect_body_calls(lang, tree, text, c, caller, module, out);
            proof {
                let inner = scan_calls(lang, t, text@, c as int, caller@, module@);
                assert(views_of(out@) =~= before + own + inner);
                assert(before + own + inner =~= start + (done + own + inner));
            }
        }
        k += 1;
    }
}

/// The module from which the calls of a definition are made.
pub open spec fn site_module(lang: Lang, owner: Seq<char>, name: Seq<char>) -> Seq<char> {
    if lang == Lang::TypeScript {
        typescript::module_of(scoped(owner, name))
    } else {
        owner
    }
}

/// The calls of the definitions under node `i`: of each definition its own, then
/// those of the definitions inside it.
pub open spec fn found_calls(
    lang: Lang,
    t: Seq<PieceModel>,
    text: Seq<char>,
    i: int,
    scope: Seq<char>,
) -> Seq<SiteModel>
    decreases t.len() - i, 2nat, 0int,
{
    if 0 <= i < t.len() {
        found_calls_kids(lang, t, text, i, scope, named_kids(t, i).len() as int)
    } else {
        Seq::empty()
    }
}

/// The same for the first `k` named children of node `i`.
pub open spec fn found_calls_kids(
    lang: Lang,
    t: Seq<PieceModel>,
    text: Seq<char>,
    i: int,
    scope: Seq<char>,
    k: int,
) -> Seq<SiteModel>
    decreases t.len() - i, 1nat, k,
{
    if k <= 0 || k > named_kids(t, i).len() {
        Seq::empty()
    } else {
        found_calls_kids(lang, t, text, i, scope, k - 1) + found_calls_at(
            lang,
            t,
            text,
            i,
            named_kids(t, i)[k - 1],
            scope,
        )
    }
}

/// The calls that a child `c` of node `i` holds.
pub open spec fn found_calls_at(
    lang: Lang,
    t: Seq<PieceModel>,
    text: Seq<char>,
    i: int,
    c: int,
    scope: Seq<char>,
) -> Seq<SiteModel>
    decreases t.len() - i, 0nat, 0int,
{
    match shape(lang, t, text, i, c, scope) {
        ShapeModel::Skip => Seq::empty(),
        ShapeModel::Plain => if i < c < t.len() {
            found_calls(lang, t, text, c, scope)
        } else {
            Seq::empty()
        },
        ShapeModel::Enter { body, scope: inner } => match body {
            Some(b) => if i < b < t.len() {
                found_calls(lang, t, text, b, inner)
            } else {
                Seq::empty()
            },
            None => Seq::empty(),
        },
        ShapeModel::Def { func, name, owner, method, descend } => {
            let qualified = scoped(owner, name);
            match field_kid(t, func, "body"@) {
                Some(b) => if i < b < t.len() {
                    let own = scan_calls(
                        lang,
                        t,
                        text,
                        b,
                        qualified,
                        site_module(lang, owner, name),
                    );
                    if descend {
                        own + found_calls(lang, t, text, b, qualified)
                    } else {
                        own
                    }
                } else {
                    Seq::empty()
                },
                None => Seq::empty(),
            }
        },
    }
}

/// Collect the calls of the definitions under a node.
fn collect_calls(
    lang: Lang,
    tree: &SyntaxTree,
    text: &str,
    i: usize,
    scope: &str,
    out: &mut Vec<CallSite>,
)
    requires
        fits(tree@),
        i < tree@.len(),
    ensures
        views_of(final(out)@) == views_of(old(out)@) + found_calls(
            lang,
            tree@,
            text@,
            i as int,
            scope@,
        ),
    decreases tree@.len() - i,
{
    let ghost t = tree@;
    let ghost start = views_of(out@);
    let ks = tree.named_children(i);
    let ghost ns = named_kids(t, i as int);
    let mut k: usize = 0;
    assert(start + Seq::<SiteModel>::empty() =~= start);
    while k < ks.len()
        invariant
            fits(t),
            t == tree@,
            i < t.len(),
            ns == named_kids(t, i as int),
            ints(ks@) == ns,
            k <= ks@.len(),
            forall|a: int| 0 <= a < ks@.len() ==> i < #[trigger] ks@[a] < t.len(),
            views_of(out@) == start + found_calls_kids(
                lang,
                t,
                text@,
                i as int,
                scope@,
                k as int,
            ),
        decreases ks@.len() - k,
    {
        let c: usize = ks[k];
        assert(ns[k as int] == c);
        let ghost before = views_of(out@);
        let ghost found = found_calls_at(lang, t, text@, i as int, c as int, scope@);
        match shape_at(lang, tree, text, i, c, scope) {
            Shape::Skip => {
                assert(before + found =~= before);
            },
            Shape::Plain => {
                collect_calls(lang, tree, text, c, scope, out);
            },
            Shape::Enter { body, scope: inner } => {
                match body {
                    Some(b) => {
                        collect_calls(lang, tree, text, b, inner.as_str(), out);
                    },
                    None => {
                        assert(before + found =~= before);
                    },
                }
            },
            Shape::Def { func, name, owner, method, descend } => {
                match tree.child_by_field(func, "body") {
                    Some(b) => {
                        let qualified = join_scope(owner.as_str(), name.as_str());
                        let module = if lang == Lang::TypeScript {
                            typescript::module_text(qualified.as_str())
                        } else {
                            owner.clone()
                        };
                        collect_body_calls(
                            lang,
                            tree,
                            text,
                            b,
                            qualified.as_str(),
                            module.as_str(),
                            out,
                        );
                        let ghost own = scan_calls(
                            lang,
                            t,
                            text@,
                            b as int,
                            qualified@,
                            module@,
                        );
                        if descend {
                            collect_calls(lang, tree, text, b, qualified.as_str(), out);
                            assert(before + own + found_calls(
                                lang,
                                t,
                                text@,
                                b as int,
                                qualified@,
                            ) =~= before + (own + found_calls(
                                lang,
                                t,
                                text@,
                                b as int,
                                qualified@,
                            )));
                        }
                    },
                    None => {
                        assert(before + found =~= before);
                    },
                }
            },
        }
        proof {
            assert(views_of(out@) =~= before + found);
            assert(start + found_calls_kids(lang, t, text@, i as int, scope@, k + 1) =~= start
                + found_calls_kids(lang, t, text@, i as int, scope@, k as int) + found);
        }
        k += 1;
    }
}

// -- files --------------------------------------------------------------------------

/// What a file holds: its definitions and its calls.
#[derive(Debug)]
pub struct FileUnit {
    pub path: String,
    pub defs: Vec<DefSite>,
    pub calls: Vec<CallSite>,
}

/// The mathematical content of a [`FileUnit`].
#[verifier::ext_equal]
pub struct UnitModel {
    pub path: Seq<char>,
    pub defs: Seq<DefModel>,
    pub calls: Seq<SiteModel>,
}

impl View for FileUnit {
    type V = UnitModel;

    open spec fn view(&self) -> UnitModel {
        UnitModel { path: self.path@, defs: views_of(self.defs@), calls: views_of(self.calls@) }
    }
}

/// The outermost scope of a file.
pub open spec fn file_scope(lang: Lang, t: Seq<PieceModel>, text: Seq<char>, path: Seq<char>) -> Seq<char> {
    match lang {
        Lang::Rust => crate::naming::rust_module(path),
        Lang::Go => go::file_scope(t, text, path),
        Lang::Python => crate::naming::python_module(path),
        Lang::TypeScript => crate::naming::ts_module(path),
    }
}

/// What a file holds, read from its tree.
pub open spec fn unit_of(lang: Lang, t: Seq<PieceModel>, text: Seq<char>, path: Seq<char>) -> UnitModel {
    let scope = file_scope(lang, t, text, path);
    UnitModel {
        path,
        defs: found_defs(lang, t, text, 0, scope),
        calls: found_calls(lang, t, text, 0, scope),
    }
}

/// Read the definitions and the calls of a file from its tree.
pub fn read_unit(lang: Lang, tree: &SyntaxTree, text: &str, path: &str) -> (r: FileUnit)
    requires
        fits(tree@),
    ensures
        r@ == unit_of(lang, tree@, text@, path@),
        forall|j: int| 0 <= j < r.defs@.len() ==> (#[trigger] r.defs@[j])@.node.valid(),
{
    let scope = match lang {
        Lang::Rust => rust::module_path_from(path),
        Lang::Go => go::file_scope_of(tree, text, path),
        Lang::Python => python::module_path_from(path),
        Lang::TypeScript => typescript::module_path_from(path),
    };
    let mut defs: Vec<DefSite> = Vec::new();
    assert(views_of(defs@) =~= Seq::<DefModel>::empty());
    collect_defs(lang, tree, text, 0, scope.as_str(), &mut defs);
    let mut calls: Vec<CallSite> = Vec::new();
    assert(views_of(calls@) =~= Seq::<SiteModel>::empty());
    collect_calls(lang, tree, text, 0, scope.as_str(), &mut calls);
    let r = FileUnit { path: path.to_owned(), defs, calls };
    assert(r@ =~= unit_of(lang, tree@, text@, path@));
    r
}

// -- laws ---------------------------------------------------------------------------

/// Some definition has this qualified name.
pub open spec fn defines(defs: Seq<DefModel>, name: Seq<char>) -> bool {
    exists|i: int| 0 <= i < defs.len() && (#[trigger] defs[i]).node.qualified_name == name
}

/// Every call is made by one of the definitions and stands in the unit's own file.
pub open spec fn calls_belong(calls: Seq<SiteModel>, defs: Seq<DefModel>) -> bool {
    forall|k: int|
        0 <= k < calls.len() ==> defines(defs, (#[trigger] calls[k]).call.caller)
            && calls[k].call.call_site.file == 0
}

/// Every definition stands in the unit's own file.
pub open spec fn defs_local(defs: Seq<DefModel>) -> bool {
    forall|k: int| 0 <= k < defs.len() ==> (#[trigger] defs[k]).node.span.file == 0
}

proof fn lemma_belong_add(a: Seq<SiteModel>, b: Seq<SiteModel>, x: Seq<DefModel>, y: Seq<DefModel>)
    requires
        calls_belong(a, x),
        calls_belong(b, y),
        defs_local(x),
        defs_local(y),
    ensures
        calls_belong(a + b, x + y),
        defs_local(x + y),
{
    let all = x + y;
    assert forall|k: int| 0 <= k < (a + b).len() implies defines(
        all,
        (#[trigger] (a + b)[k]).call.caller,
    ) && (a + b)[k].call.call_site.file == 0 by {
        if k < a.len() {
            assert(defines(x, a[k].call.caller));
            let i = choose|i: int|
                0 <= i < x.len() && (#[trigger] x[i]).node.qualified_name == a[k].call.caller;
            assert(all[i] == x[i]);
        } else {
            let m = k - a.len();
            assert(defines(y, b[m].call.caller));
            let i = choose|i: int|
                0 <= i < y.len() && (#[trigger] y[i]).node.qualified_name == b[m].call.caller;
            assert(all[x.len() + i] == y[i]);
        }
    }
}

/// Every call is made by `caller` and stands in the unit's own file.
spec fn made_by(calls: Seq<SiteModel>, caller: Seq<char>) -> bool {
    forall|k: int|
        0 <= k < calls.len() ==> (#[trigger] calls[k]).call.caller == caller
            && calls[k].call.call_site.file == 0
}

proof fn lemma_scanned(
    lang: Lang,
    t: Seq<PieceModel>,
    text: Seq<char>,
    i: int,
    caller: Seq<char>,
    module: Seq<char>,
    k: int,
)
    ensures
        made_by(scan_calls_kids(lang, t, text, i, caller, module, k), caller),
    decreases t.len() - i, k,
{
    if 0 < k <= named_kids(t, i).len() {
        let c = named_kids(t, i)[k - 1];
        let before = scan_calls_kids(lang, t, text, i, caller, module, k - 1);
        lemma_scanned(lang, t, text, i, caller, module, k - 1);
        if i < c < t.len() && !is_nested(lang, t, c) {
            lemma_scanned(lang, t, text, c, caller, module, named_kids(t, c).len() as int);
            let own = own_call(lang, t, text, c, caller, module);
            let under = scan_calls(lang, t, text, c, caller, module);
            assert(made_by(own, caller));
            assert(made_by(under, caller));
            assert(made_by(before + own, caller));
            assert(made_by(before + own + under, caller));
        }
    }
}

proof fn lemma_found(lang: Lang, t: Seq<PieceModel>, text: Seq<char>, i: int, scope: Seq<char>)
    ensures
        calls_belong(found_calls(lang, t, text, i, scope), found_defs(lang, t, text, i, scope)),
        defs_local(found_defs(lang, t, text, i, scope)),
    decreases t.len() - i, 2nat, 0int,
{
    if 0 <= i < t.len() {
        lemma_found_kids(lang, t, text, i, scope, named_kids(t, i).len() as int);
    }
}

proof fn lemma_found_kids(
    lang: Lang,
    t: Seq<PieceModel>,
    text: Seq<char>,
    i: int,
    scope: Seq<char>,
    k: int,
)
    ensures
        calls_belong(
            found_calls_kids(lang, t, text, i, scope, k),
            found_defs_kids(lang, t, text, i, scope, k),
        ),
        defs_local(found_defs_kids(lang, t, text, i, scope, k)),
    decreases t.len() - i, 1nat, k,
{
    if 0 < k <= named_kids(t, i).len() {
        let c = named_kids(t, i)[k - 1];
        lemma_found_kids(lang, t, text, i, scope, k - 1);
        lemma_found_at(lang, t, text, i, c, scope);
        lemma_belong_add(
            found_calls_kids(lang, t, text, i, scope, k - 1),
            found_calls_at(lang, t, text, i, c, scope),
            found_defs_kids(lang, t, text, i, scope, k - 1),
            found_defs_at(lang, t, text, i, c, scope),
        );
    }
}

proof fn lemma_found_at(
    lang: Lang,
    t: Seq<PieceModel>,
    text: Seq<char>,
    i: int,
    c: int,
    scope: Seq<char>,
)
    ensures
        calls_belong(
            found_calls_at(lang, t, text, i, c, scope),
            found_defs_at(lang, t, text, i, c, scope),
        ),
        defs_local(found_defs_at(lang, t, text, i, c, scope)),
    decreases t.len() - i, 0nat, 0int,
{
    match shape(lang, t, text, i, c, scope) {
        ShapeModel::Skip => {},
        ShapeModel::Plain => {
            if i < c < t.len() {
                lemma_found(lang, t, text, c, scope);
            }
        },
        ShapeModel::Enter { body, scope: inner } => {
            if let Some(b) = body {
                if i < b < t.len() {
                    lemma_found(lang, t, text, b, inner);
                }
            }
        },
        ShapeModel::Def { func, name, owner, method, descend } => {
            let def = seq![def_model(lang, t, text, func, name, owner, method)];
            let qualified = scoped(owner, name);
            assert(def[0].node.qualified_name == qualified);
            assert(defines(def, qualified));
            if let Some(b) = field_kid(t, func, "body"@) {
                if i < b < t.len() {
                    let module = site_module(lang, owner, name);
                    lemma_scanned(
                        lang,
                        t,
                        text,
                        b,
                        qualified,
                        module,
                        named_kids(t, b).len() as int,
                    );
                    let own = scan_calls(lang, t, text, b, qualified, module);
                    assert(calls_belong(own, def));
                    if descend {
                        lemma_found(lang, t, text, b, qualified);
                        lemma_belong_add(
                            own,
                            found_calls(lang, t, text, b, qualified),
                            def,
                            found_defs(lang, t, text, b, qualified),
                        );
                    }
                }
            }
        },
    }
}

/// What is read from a file is of one piece: every call is made by one of the file's own
/// definitions, and every span names the file by the local number zero.
pub proof fn law_calls_belong_to_definitions(
    lang: Lang,
    t: Seq<PieceModel>,
    text: Seq<char>,
    path: Seq<char>,
)
    ensures
        calls_belong(unit_of(lang, t, text, path).calls, unit_of(lang, t, text, path).defs),
        defs_local(unit_of(lang, t, text, path).defs),
{
    lemma_found(lang, t, text, 0, file_scope(lang, t, text, path));
}

} // verus!
