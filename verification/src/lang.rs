//! What the languages have in common: how a syntax node is read as a definition, a
//! scope or a call.

use crate::fragment::CallKind;
use crate::graph::SourceSpan;
use crate::ids::FileId;
use crate::syntax::{fits, named_kids, PieceModel, SyntaxTree};
use vstd::prelude::*;

verus! {

/// A language of source files.
#[derive(Debug, Clone, Copy, PartialEq, Eq, Structural)]
pub enum Lang {
    Rust,
    Go,
    Python,
    TypeScript,
}

/// How a syntax node is read when definitions are looked for.
#[derive(Debug)]
pub enum Shape {
    /// Nothing to find here.
    Skip,
    /// Look inside, in the same scope.
    Plain,
    /// A scope of its own; its content stands in the body.
    Enter { body: Option<usize>, scope: String },
    /// A definition: the node of the function, its name, the scope that owns it,
    /// whether it is a method, and whether definitions are looked for inside.
    Def { func: usize, name: String, owner: String, method: bool, descend: bool },
}

/// The mathematical content of a [`Shape`].
pub enum ShapeModel {
    Skip,
    Plain,
    Enter { body: Option<int>, scope: Seq<char> },
    Def { func: int, name: Seq<char>, owner: Seq<char>, method: bool, descend: bool },
}

pub open spec fn opt_int(x: Option<usize>) -> Option<int> {
    match x {
        Some(i) => Some(i as int),
        None => None,
    }
}

impl View for Shape {
    type V = ShapeModel;

    open spec fn view(&self) -> ShapeModel {
        match self {
            Shape::Skip => ShapeModel::Skip,
            Shape::Plain => ShapeModel::Plain,
            Shape::Enter { body, scope } => ShapeModel::Enter {
                body: opt_int(*body),
                scope: scope@,
            },
            Shape::Def { func, name, owner, method, descend } => ShapeModel::Def {
                func: *func as int,
                name: name@,
                owner: owner@,
                method: *method,
                descend: *descend,
            },
        }
    }
}

/// What stands in the shape of node `c` stands at or under it.
pub open spec fn shape_under(s: ShapeModel, c: int, len: int) -> bool {
    match s {
        ShapeModel::Enter { body, scope } => body is Some ==> c < body->0 < len,
        ShapeModel::Def { func, name, owner, method, descend } => c <= func < len,
        _ => true,
    }
}

/// What a call calls.
#[derive(Debug)]
pub struct Callee {
    pub kind: CallKind,
    /// The callee as written.
    pub path: String,
    /// The name by which it is looked up.
    pub short: String,
}

/// The mathematical content of a [`Callee`].
#[verifier::ext_equal]
pub struct CalleeModel {
    pub kind: CallKind,
    pub path: Seq<char>,
    pub short: Seq<char>,
}

impl View for Callee {
    type V = CalleeModel;

    open spec fn view(&self) -> CalleeModel {
        CalleeModel { kind: self.kind, path: self.path@, short: self.short@ }
    }
}

/// The content of a callee that may be missing.
pub open spec fn callee_view(c: Option<Callee>) -> Option<CalleeModel> {
    match c {
        Some(x) => Some(x@),
        None => None,
    }
}

/// Where a node stands in its file: lines count from one.
pub open spec fn span_at(t: Seq<PieceModel>, i: int, file: FileId) -> SourceSpan {
    SourceSpan {
        file: file.0,
        start_line: (t[i].start_row + 1) as u32,
        start_col: t[i].start_col,
        end_line: (t[i].end_row + 1) as u32,
        end_col: t[i].end_col,
    }
}

pub fn span_of(tree: &SyntaxTree, i: usize, file: FileId) -> (r: SourceSpan)
    requires
        fits(tree@),
        i < tree@.len(),
    ensures
        r == span_at(tree@, i as int, file),
{
    let p = &tree.pieces[i];
    assert(tree@[i as int] == p@);
    SourceSpan::new(file, p.start_row + 1, p.start_col, p.end_row + 1, p.end_col)
}

/// How many of the first `k` named children of node `i` meet `f`.
pub open spec fn kid_count(t: Seq<PieceModel>, i: int, f: spec_fn(int) -> bool, k: int) -> nat
    decreases k,
{
    if k <= 0 {
        0
    } else {
        kid_count(t, i, f, k - 1) + if f(named_kids(t, i)[k - 1]) {
            1nat
        } else {
            0nat
        }
    }
}

/// A child of node `i` from `j` on is of one of the kinds `a`, `b` and `c`.
pub open spec fn token_from(
    t: Seq<PieceModel>,
    i: int,
    a: Seq<char>,
    b: Seq<char>,
    c: Seq<char>,
    j: int,
) -> bool
    decreases t.len() - j,
{
    if j >= t.len() || t[j].depth <= t[i].depth {
        false
    } else {
        (t[j].depth == t[i].depth + 1 && (t[j].kind == a || t[j].kind == b || t[j].kind == c))
            || token_from(t, i, a, b, c, j + 1)
    }
}

/// A child of node `i` is of one of the kinds `a`, `b` and `c`.
pub open spec fn has_token(t: Seq<PieceModel>, i: int, a: Seq<char>, b: Seq<char>, c: Seq<char>) -> bool {
    token_from(t, i, a, b, c, i + 1)
}

pub fn token_kid(tree: &SyntaxTree, i: usize, a: &str, b: &str, c: &str) -> (r: bool)
    requires
        i < tree@.len(),
    ensures
        r == has_token(tree@, i as int, a@, b@, c@),
{
    let ghost t = tree@;
    let d: u32 = tree.pieces[i].depth;
    let total: usize = tree.pieces.len();
    assert(i < total);
    let mut j: usize = i + 1;
    assert(t[i as int].depth == d);
    while j < tree.pieces.len() && tree.pieces[j].depth > d
        invariant
            i < j <= t.len(),
            t == tree@,
            t[i as int].depth == d,
            has_token(t, i as int, a@, b@, c@) == token_from(t, i as int, a@, b@, c@, j as int),
        decreases t.len() - j,
    {
        assert(t[j as int] == tree.pieces@[j as int]@);
        if tree.pieces[j].depth - 1 == d && (tree.is(j, a) || tree.is(j, b) || tree.is(j, c)) {
            return true;
        }
        j += 1;
    }
    if j < tree.pieces.len() {
        assert(t[j as int] == tree.pieces@[j as int]@);
    }
    false
}

} // verus!
