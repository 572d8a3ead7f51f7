//! Syntax trees: the nodes of a parsed text in the order in which they are met,
//! parents before children, each with its depth.

use crate::text::same;
use vstd::prelude::*;
use vstd::utf8::*;

verus! {

/// A language that can be parsed.
#[derive(Debug, Clone, Copy, PartialEq, Eq, Structural)]
pub enum Grammar {
    Rust,
    Go,
    Python,
    TypeScript,
    Tsx,
}

/// One node of a syntax tree.
#[derive(Debug)]
pub struct Piece {
    pub kind: String,
    /// A named rule of the grammar, not a mere token.
    pub named: bool,
    /// The field of the parent that the node fills; empty where there is none.
    pub field: String,
    pub start_byte: usize,
    pub end_byte: usize,
    pub start_row: u32,
    pub start_col: u32,
    pub end_row: u32,
    pub end_col: u32,
    /// Distance from the root.
    pub depth: u32,
}

/// The mathematical content of a [`Piece`].
#[verifier::ext_equal]
pub struct PieceModel {
    pub kind: Seq<char>,
    pub named: bool,
    pub field: Seq<char>,
    pub start_byte: int,
    pub end_byte: int,
    pub start_row: u32,
    pub start_col: u32,
    pub end_row: u32,
    pub end_col: u32,
    pub depth: u32,
}

impl View for Piece {
    type V = PieceModel;

    open spec fn view(&self) -> PieceModel {
        PieceModel {
            kind: self.kind@,
            named: self.named,
            field: self.field@,
            start_byte: self.start_byte as int,
            end_byte: self.end_byte as int,
            start_row: self.start_row,
            start_col: self.start_col,
            end_row: self.end_row,
            end_col: self.end_col,
            depth: self.depth,
        }
    }
}

// -- the parser -----------------------------------------------------------------

/// The tree type of `tree_sitter`, opaque.
#[verifier::external_type_specification]
#[verifier::external_body]
pub struct ExTree(tree_sitter::Tree);

/// The nodes of a tree: the node itself, then what stands under it, child after
/// child.
pub uninterp spec fn tree_pieces(t: tree_sitter::Tree) -> Seq<PieceModel>;

/// Why a grammar cannot be used, where it cannot.
pub uninterp spec fn grammar_failure(g: Grammar) -> Option<Seq<char>>;

/// The nodes of the tree that a grammar gives for a text, where it gives one.
pub uninterp spec fn parsed(g: Grammar, text: Seq<char>) -> Option<Seq<PieceModel>>;

/// `tree_sitter::Parser::set_language` with the grammar's language: the text of the
/// error where it refuses the grammar, which depends on the grammar alone.
#[verifier::external_body]
pub(crate) fn grammar_error(g: Grammar) -> (r: Option<String>)
    ensures
        match r {
            Some(e) => grammar_failure(g) == Some(e@),
            None => grammar_failure(g) is None,
        },
{
    let language: tree_sitter::Language = match g {
        Grammar::Rust => tree_sitter_rust::LANGUAGE.into(),
        Grammar::Go => tree_sitter_go::LANGUAGE.into(),
        Grammar::Python => tree_sitter_python::LANGUAGE.into(),
        Grammar::TypeScript => tree_sitter_typescript::LANGUAGE_TYPESCRIPT.into(),
        Grammar::Tsx => tree_sitter_typescript::LANGUAGE_TSX.into(),
    };
    tree_sitter::Parser::new().set_language(&language).err().map(|e| e.to_string())
}

/// `tree_sitter::Parser::parse` of a new parser that was given the grammar's
/// language: the tree of the text, where there is one. It is a function of the
/// grammar and the text.
#[verifier::external_body]
pub(crate) fn parse_tree(g: Grammar, text: &str) -> (r: Option<tree_sitter::Tree>)
    ensures
        match r {
            Some(t) => parsed(g, text@) == Some(tree_pieces(t)),
            None => parsed(g, text@) is None,
        },
{
    let language: tree_sitter::Language = match g {
        Grammar::Rust => tree_sitter_rust::LANGUAGE.into(),
        Grammar::Go => tree_sitter_go::LANGUAGE.into(),
        Grammar::Python => tree_sitter_python::LANGUAGE.into(),
        Grammar::TypeScript => tree_sitter_typescript::LANGUAGE_TYPESCRIPT.into(),
        Grammar::Tsx => tree_sitter_typescript::LANGUAGE_TSX.into(),
    };
    let mut parser = tree_sitter::Parser::new();
    parser.set_language(&language).ok()?;
    parser.parse(text.as_bytes(), None)
}

/// `tree_sitter::Node::descendant_count` of the root: the number of nodes of the
/// tree, the root included.
#[verifier::external_body]
pub(crate) fn piece_count(t: &tree_sitter::Tree) -> (n: usize)
    ensures
        n == tree_pieces(*t).len(),
{
    t.root_node().descendant_count()
}

/// `tree_sitter::TreeCursor::goto_descendant` from the root: the node with that
/// number, its field and its depth, as plain values.
#[verifier::external_body]
pub(crate) fn piece_at(t: &tree_sitter::Tree, i: usize) -> (r: Piece)
    requires
        i < tree_pieces(*t).len(),
    ensures
        r@ == tree_pieces(*t)[i as int],
{
    let mut cursor = t.walk();
    cursor.goto_descendant(i);
    let n = cursor.node();
    Piece {
        kind: n.kind().to_string(),
        named: n.is_named(),
        field: cursor.field_name().unwrap_or_default().to_string(),
        start_byte: n.start_byte(), end_byte: n.end_byte(),
        start_row: n.start_position().row as u32, start_col: n.start_position().column as u32,
        end_row: n.end_position().row as u32, end_col: n.end_position().column as u32,
        depth: cursor.depth(),
    }
}

// -- trees ------------------------------------------------------------------------

/// The nodes of a text's syntax tree.
#[derive(Debug)]
pub struct SyntaxTree {
    pub pieces: Vec<Piece>,
}

impl View for SyntaxTree {
    type V = Seq<PieceModel>;

    open spec fn view(&self) -> Seq<PieceModel> {
        crate::seqs::views_of(self.pieces@)
    }
}

/// The tree has a root, and its nodes and lines can be counted with 32 bits.
pub open spec fn fits(t: Seq<PieceModel>) -> bool {
    &&& 0 < t.len() < u32::MAX
    &&& forall|i: int|
        0 <= i < t.len() ==> (#[trigger] t[i]).start_row < u32::MAX && t[i].end_row < u32::MAX
}

/// Where the nodes under node `i` end, looked for from `j` on.
pub open spec fn end_from(t: Seq<PieceModel>, i: int, j: int) -> int
    decreases t.len() - j,
{
    if j >= t.len() {
        t.len() as int
    } else if t[j].depth <= t[i].depth {
        j
    } else {
        end_from(t, i, j + 1)
    }
}

/// Where the nodes under node `i` end.
pub open spec fn end_of(t: Seq<PieceModel>, i: int) -> int {
    end_from(t, i, i + 1)
}

/// The children of node `i` from `j` on.
pub open spec fn kids_from(t: Seq<PieceModel>, i: int, j: int) -> Seq<int>
    decreases t.len() - j,
{
    if j >= t.len() || t[j].depth <= t[i].depth {
        Seq::empty()
    } else if t[j].depth == t[i].depth + 1 {
        seq![j] + kids_from(t, i, j + 1)
    } else {
        kids_from(t, i, j + 1)
    }
}

/// The children of node `i`.
pub open spec fn kids(t: Seq<PieceModel>, i: int) -> Seq<int> {
    kids_from(t, i, i + 1)
}

/// The named children of node `i`.
pub open spec fn named_kids(t: Seq<PieceModel>, i: int) -> Seq<int> {
    kids(t, i).filter(|c: int| t[c].named)
}

/// The first child from `j` on that fills the field.
pub open spec fn field_from(t: Seq<PieceModel>, i: int, name: Seq<char>, j: int) -> Option<int>
    decreases t.len() - j,
{
    if j >= t.len() || t[j].depth <= t[i].depth {
        None
    } else if t[j].depth == t[i].depth + 1 && t[j].field == name {
        Some(j)
    } else {
        field_from(t, i, name, j + 1)
    }
}

/// The first child of node `i` that fills the field.
pub open spec fn field_kid(t: Seq<PieceModel>, i: int, name: Seq<char>) -> Option<int> {
    field_from(t, i, name, i + 1)
}

/// The nearest node at or before `j` that is less deep than node `i`.
pub open spec fn parent_from(t: Seq<PieceModel>, i: int, j: int) -> Option<int>
    decreases j + 1,
{
    if j < 0 {
        None
    } else if t[j].depth < t[i].depth {
        Some(j)
    } else {
        parent_from(t, i, j - 1)
    }
}

/// The parent of node `i`.
pub open spec fn parent(t: Seq<PieceModel>, i: int) -> Option<int> {
    parent_from(t, i, i - 1)
}

pub open spec fn sibling_from(t: Seq<PieceModel>, i: int, j: int) -> Option<int>
    decreases j + 1,
{
    if j < 0 || t[j].depth < t[i].depth {
        None
    } else if t[j].depth == t[i].depth {
        Some(j)
    } else {
        sibling_from(t, i, j - 1)
    }
}

/// The sibling before node `i`.
pub open spec fn prev_sibling(t: Seq<PieceModel>, i: int) -> Option<int> {
    sibling_from(t, i, i - 1)
}

pub proof fn lemma_end_from(t: Seq<PieceModel>, i: int, j: int)
    requires
        0 <= i < j <= t.len(),
    ensures
        j <= end_from(t, i, j) <= t.len(),
        forall|k: int| j <= k < end_from(t, i, j) ==> (#[trigger] t[k]).depth > t[i].depth,
        end_from(t, i, j) < t.len() ==> t[end_from(t, i, j)].depth <= t[i].depth,
    decreases t.len() - j,
{
    if j < t.len() && t[j].depth > t[i].depth {
        lemma_end_from(t, i, j + 1);
    }
}

pub proof fn lemma_kids_from(t: Seq<PieceModel>, i: int, j: int)
    requires
        0 <= i < j <= t.len(),
    ensures
        ({
            let ks = kids_from(t, i, j);
            &&& forall|a: int|
                0 <= a < ks.len() ==> j <= #[trigger] ks[a] < end_from(t, i, j) && t[ks[a]].depth
                    == t[i].depth + 1
            &&& forall|a: int, b: int| 0 <= a < b < ks.len() ==> ks[a] < ks[b]
        }),
    decreases t.len() - j,
{
    lemma_end_from(t, i, j);
    if j < t.len() && t[j].depth > t[i].depth {
        lemma_kids_from(t, i, j + 1);
        let rest = kids_from(t, i, j + 1);
        let ks = kids_from(t, i, j);
        if t[j].depth == t[i].depth + 1 {
            assert forall|a: int| 0 <= a < ks.len() implies j <= #[trigger] ks[a] < end_from(t, i, j)
                && t[ks[a]].depth == t[i].depth + 1 by {
                if a > 0 {
                    assert(ks[a] == rest[a - 1]);
                }
            }
            assert forall|a: int, b: int| 0 <= a < b < ks.len() implies ks[a] < ks[b] by {
                assert(ks[b] == rest[b - 1]);
                if a > 0 {
                    assert(ks[a] == rest[a - 1]);
                }
            }
        }
    }
}

/// The named children come after their parent, one after another, each with what
/// stands under it before the next.
pub proof fn lemma_named_kids(t: Seq<PieceModel>, i: int)
    requires
        0 <= i < t.len(),
    ensures
        i < end_of(t, i) <= t.len(),
        forall|a: int|
            0 <= a < named_kids(t, i).len() ==> i < #[trigger] named_kids(t, i)[a] && end_of(
                t,
                named_kids(t, i)[a],
            ) <= end_of(t, i) && named_kids(t, i)[a] < end_of(t, named_kids(t, i)[a]),
        forall|a: int, b: int|
            0 <= a < b < named_kids(t, i).len() ==> end_of(t, #[trigger] named_kids(t, i)[a])
                <= #[trigger] named_kids(t, i)[b],
{
    let keep = |c: int| t[c].named;
    let ks = kids(t, i);
    let ns = named_kids(t, i);
    lemma_end_from(t, i, i + 1);
    lemma_kids_from(t, i, i + 1);
    lemma_filter_increasing(ks, keep);
    assert forall|a: int| 0 <= a < ns.len() implies i < #[trigger] ns[a] && end_of(t, ns[a])
        <= end_of(t, i) && ns[a] < end_of(t, ns[a]) && t[ns[a]].depth == t[i].depth + 1 by {
        assert(ns.contains(ns[a]));
        assert(ks.contains(ns[a]));
        let k = ks.index_of(ns[a]);
        assert(ks[k] == ns[a]);
        lemma_end_from(t, ns[a], ns[a] + 1);
        if end_of(t, ns[a]) > end_of(t, i) {
            assert(t[end_of(t, i)].depth > t[ns[a]].depth);
        }
    }
    assert forall|a: int, b: int| 0 <= a < b < ns.len() implies end_of(t, #[trigger] ns[a])
        <= #[trigger] ns[b] by {
        lemma_end_from(t, ns[a], ns[a] + 1);
        if end_of(t, ns[a]) > ns[b] {
            assert(t[ns[b]].depth > t[ns[a]].depth);
        }
    }
}

proof fn lemma_filter_increasing(s: Seq<int>, keep: spec_fn(int) -> bool)
    requires
        forall|a: int, b: int| 0 <= a < b < s.len() ==> s[a] < s[b],
    ensures
        forall|x: int| s.filter(keep).contains(x) ==> s.contains(x) && keep(x),
        forall|a: int, b: int|
            0 <= a < b < s.filter(keep).len() ==> s.filter(keep)[a] < s.filter(keep)[b],
    decreases s.len(),
{
    reveal(Seq::filter);
    crate::seqs::lemma_filter_has(s, keep);
    if s.len() > 0 {
        let front = s.drop_last();
        lemma_filter_increasing(front, keep);
        crate::seqs::lemma_filter_has(front, keep);
        let all = s.filter(keep);
        assert forall|a: int, b: int| 0 <= a < b < all.len() implies all[a] < all[b] by {
            if keep(s.last()) && b == all.len() - 1 {
                assert(front.filter(keep)[a] == all[a]);
                assert(front.filter(keep).contains(all[a]));
                let k = front.index_of(all[a]);
                assert(s[k] == all[a]);
            }
        }
    }
}

/// A child that fills a field stands under its parent.
pub proof fn lemma_field_kid(t: Seq<PieceModel>, i: int, name: Seq<char>, j: int)
    requires
        0 <= i < j <= t.len(),
    ensures
        match field_from(t, i, name, j) {
            Some(c) => j <= c < end_from(t, i, j) && t[c].depth == t[i].depth + 1 && t[c].field
                == name,
            None => true,
        },
    decreases t.len() - j,
{
    lemma_end_from(t, i, j);
    if j < t.len() && t[j].depth > t[i].depth && !(t[j].depth == t[i].depth + 1 && t[j].field
        == name) {
        lemma_field_kid(t, i, name, j + 1);
    }
}

impl SyntaxTree {
    /// The named children of a node.
    pub fn named_children(&self, i: usize) -> (r: Vec<usize>)
        requires
            i < self@.len(),
        ensures
            crate::seqs::ints(r@) == named_kids(self@, i as int),
            forall|a: int| 0 <= a < r@.len() ==> i < #[trigger] r@[a] < self@.len(),
    {
        let ghost t = self@;
        let ghost keep = |c: int| t[c].named;
        let mut out: Vec<usize> = Vec::new();
        let d: u32 = self.pieces[i].depth;
        let total: usize = self.pieces.len();
        assert(i < total);
        let mut j: usize = i + 1;
        proof {
            reveal(Seq::filter);
            assert(t[i as int].depth == d);
            assert(crate::seqs::ints(out@) =~= Seq::empty());
            assert(crate::seqs::ints(out@) + kids(t, i as int).filter(keep) =~= named_kids(
                t,
                i as int,
            ));
        }
        while j < self.pieces.len() && self.pieces[j].depth > d
            invariant
                i < j <= t.len(),
                t == self@,
                t[i as int].depth == d,
                keep == (|c: int| t[c].named),
                crate::seqs::ints(out@) + kids_from(t, i as int, j as int).filter(keep)
                    == named_kids(t, i as int),
                forall|a: int| 0 <= a < out@.len() ==> i < #[trigger] out@[a] < t.len(),
            decreases t.len() - j,
        {
            assert(t[j as int] == self.pieces@[j as int]@);
            let ghost rest = kids_from(t, i as int, j + 1);
            let ghost had = crate::seqs::ints(out@);
            if self.pieces[j].depth - 1 == d {
                proof {
                    assert(kids_from(t, i as int, j as int) == seq![j as int] + rest);
                    Seq::filter_distributes_over_add(seq![j as int], rest, keep);
                    lemma_single_filter(j as int, keep);
                }
                if self.pieces[j].named {
                    out.push(j);
                    proof {
                        crate::seqs::lemma_ints_push(out@.drop_last(), j);
                        assert(out@.drop_last().push(j) =~= out@);
                        assert(crate::seqs::ints(out@) =~= had.push(j as int));
                        assert(crate::seqs::ints(out@) + rest.filter(keep) =~= had + (seq![
                            j as int,
                        ] + rest.filter(keep)));
                    }
                } else {
                    proof {
                        assert(Seq::<int>::empty() + rest.filter(keep) =~= rest.filter(keep));
                    }
                }
            }
            j += 1;
        }
        proof {
            reveal(Seq::filter);
            if j < t.len() {
                assert(t[j as int] == self.pieces@[j as int]@);
            }
            assert(kids_from(t, i as int, j as int) =~= Seq::empty());
            assert(crate::seqs::ints(out@) + Seq::<int>::empty() =~= crate::seqs::ints(out@));
        }
        out
    }

    /// The first child of a node that fills the field.
    pub fn child_by_field(&self, i: usize, name: &str) -> (r: Option<usize>)
        requires
            i < self@.len(),
        ensures
            match r {
                Some(c) => field_kid(self@, i as int, name@) == Some(c as int) && i < c < end_of(
                    self@,
                    i as int,
                ) <= self@.len(),
                None => field_kid(self@, i as int, name@) is None,
            },
    {
        let ghost t = self@;
        let d: u32 = self.pieces[i].depth;
        let total: usize = self.pieces.len();
        assert(i < total);
        let mut j: usize = i + 1;
        proof {
            lemma_end_from(t, i as int, i + 1);
            lemma_field_kid(t, i as int, name@, i + 1);
        }
        assert(t[i as int].depth == d);
        while j < self.pieces.len() && self.pieces[j].depth > d
            invariant
                i < j <= t.len(),
                t == self@,
                t[i as int].depth == d,
                field_kid(t, i as int, name@) == field_from(t, i as int, name@, j as int),
                match field_kid(t, i as int, name@) {
                    Some(c) => i < c < end_of(t, i as int) <= t.len(),
                    None => true,
                },
            decreases t.len() - j,
        {
            assert(t[j as int] == self.pieces@[j as int]@);
            if self.pieces[j].depth - 1 == d && same(self.pieces[j].field.as_str(), name) {
                return Some(j);
            }
            j += 1;
        }
        if j < self.pieces.len() {
            assert(t[j as int] == self.pieces@[j as int]@);
        }
        None
    }

    /// The parent of a node.
    pub fn parent(&self, i: usize) -> (r: Option<usize>)
        requires
            i < self@.len(),
        ensures
            match r {
                Some(p) => parent(self@, i as int) == Some(p as int) && p < i,
                None => parent(self@, i as int) is None,
            },
    {
        let ghost t = self@;
        let d: u32 = self.pieces[i].depth;
        let mut j: usize = i;
        assert(t[i as int].depth == d);
        while j > 0
            invariant
                j <= i < t.len(),
                t == self@,
                t[i as int].depth == d,
                parent(t, i as int) == parent_from(t, i as int, j - 1),
            decreases j,
        {
            assert(t[j - 1] == self.pieces@[j - 1]@);
            if self.pieces[j - 1].depth < d {
                return Some(j - 1);
            }
            j -= 1;
        }
        None
    }

    /// The sibling before a node.
    pub fn prev_sibling(&self, i: usize) -> (r: Option<usize>)
        requires
            i < self@.len(),
        ensures
            match r {
                Some(p) => prev_sibling(self@, i as int) == Some(p as int) && p < i,
                None => prev_sibling(self@, i as int) is None,
            },
    {
        let ghost t = self@;
        let d: u32 = self.pieces[i].depth;
        let mut j: usize = i;
        assert(t[i as int].depth == d);
        while j > 0
            invariant
                j <= i < t.len(),
                t == self@,
                t[i as int].depth == d,
                prev_sibling(t, i as int) == sibling_from(t, i as int, j - 1),
            decreases j,
        {
            assert(t[j - 1] == self.pieces@[j - 1]@);
            let e: u32 = self.pieces[j - 1].depth;
            if e < d {
                return None;
            }
            if e == d {
                return Some(j - 1);
            }
            j -= 1;
        }
        None
    }

    /// Whether a node is of the kind.
    pub fn is(&self, i: usize, kind: &str) -> (r: bool)
        requires
            i < self@.len(),
        ensures
            r == (self@[i as int].kind == kind@),
    {
        assert(self@[i as int] == self.pieces@[i as int]@);
        same(self.pieces[i].kind.as_str(), kind)
    }
}

proof fn lemma_single_filter(x: int, keep: spec_fn(int) -> bool)
    ensures
        seq![x].filter(keep) == if keep(x) {
            seq![x]
        } else {
            Seq::empty()
        },
{
    reveal(Seq::filter);
    let none = Seq::<int>::empty();
    assert(seq![x].drop_last() =~= none);
    assert(none.filter(keep) =~= none);
    assert(seq![x].last() == x);
    assert(none.push(x) =~= seq![x]);
}

// -- text -------------------------------------------------------------------------

/// The bytes from `a` to `b` of a text are characters.
pub open spec fn sliceable(bytes: Seq<u8>, a: int, b: int) -> bool {
    &&& 0 <= a <= b <= bytes.len()
    &&& is_char_boundary(bytes, a)
    &&& is_char_boundary(bytes.skip(a), b - a)
}

/// The text between two byte positions; empty where they do not stand between
/// characters.
pub open spec fn text_between(text: Seq<char>, a: int, b: int) -> Seq<char> {
    let bytes = encode_utf8(text);
    if sliceable(bytes, a, b) {
        decode_utf8(bytes.subrange(a, b))
    } else {
        Seq::empty()
    }
}

/// The text between two byte positions.
pub fn slice_text(text: &str, a: usize, b: usize) -> (r: String)
    ensures
        r@ == text_between(text@, a as int, b as int),
{
    let n: usize = text.as_bytes().len();
    let ghost bytes = encode_utf8(text@);
    if a > b || b > n || !text.is_char_boundary(a) {
        return String::new();
    }
    let (_, rest) = text.split_at(a);
    assert(encode_utf8(rest@) =~= bytes.skip(a as int));
    if !rest.is_char_boundary(b - a) {
        return String::new();
    }
    let (piece, _) = rest.split_at(b - a);
    proof {
        assert(encode_utf8(piece@) =~= bytes.subrange(a as int, b as int));
        encode_utf8_decode_utf8(piece@);
    }
    piece.to_owned()
}

/// The text of node `i`.
pub open spec fn piece_text(t: Seq<PieceModel>, text: Seq<char>, i: int) -> Seq<char> {
    text_between(text, t[i].start_byte, t[i].end_byte)
}

/// The text of the child that fills the field; empty where there is none.
pub open spec fn field_text(t: Seq<PieceModel>, text: Seq<char>, i: int, name: Seq<char>) -> Seq<
    char,
> {
    match field_kid(t, i, name) {
        Some(c) => piece_text(t, text, c),
        None => Seq::empty(),
    }
}

impl SyntaxTree {
    /// The text of a node.
    pub fn text_of(&self, text: &str, i: usize) -> (r: String)
        requires
            i < self@.len(),
        ensures
            r@ == piece_text(self@, text@, i as int),
    {
        assert(self@[i as int] == self.pieces@[i as int]@);
        slice_text(text, self.pieces[i].start_byte, self.pieces[i].end_byte)
    }

    /// The text of the child that fills the field; empty where there is none.
    pub fn field_text(&self, text: &str, i: usize, name: &str) -> (r: String)
        requires
            i < self@.len(),
        ensures
            r@ == field_text(self@, text@, i as int, name@),
    {
        match self.child_by_field(i, name) {
            Some(c) => self.text_of(text, c),
            None => String::new(),
        }
    }
}

/// The tree of a text, read from the parser; `None` where there is none.
pub fn read_tree(g: Grammar, text: &str) -> (r: Option<SyntaxTree>)
    ensures
        match r {
            Some(t) => parsed(g, text@) == Some(t@),
            None => parsed(g, text@) is None,
        },
{
    match parse_tree(g, text) {
        None => None,
        Some(tree) => {
            let n: usize = piece_count(&tree);
            let ghost all = tree_pieces(tree);
            let mut pieces: Vec<Piece> = Vec::new();
            let mut i: usize = 0;
            assert(crate::seqs::views_of(pieces@) =~= all.take(0));
            while i < n
                invariant
                    i <= n == all.len(),
                    all == tree_pieces(tree),
                    crate::seqs::views_of(pieces@) == all.take(i as int),
                decreases n - i,
            {
                let p = piece_at(&tree, i);
                proof {
                    crate::seqs::lemma_push_take(pieces@, p, all, i as int);
                }
                pieces.push(p);
                i += 1;
            }
            assert(all.take(n as int) =~= all);
            Some(SyntaxTree { pieces })
        },
    }
}

/// Whether a tree has a root and can be counted with 32 bits.
pub fn tree_fits(t: &SyntaxTree) -> (r: bool)
    ensures
        r == fits(t@),
{
    if t.pieces.len() == 0 || t.pieces.len() >= u32::MAX as usize {
        return false;
    }
    let mut i: usize = 0;
    while i < t.pieces.len()
        invariant
            i <= t.pieces@.len(),
            0 < t.pieces@.len() < u32::MAX,
            forall|j: int|
                0 <= j < i ==> (#[trigger] t@[j]).start_row < u32::MAX && t@[j].end_row < u32::MAX,
        decreases t.pieces@.len() - i,
    {
        assert(t@[i as int] == t.pieces@[i as int]@);
        if t.pieces[i].start_row == u32::MAX || t.pieces[i].end_row == u32::MAX {
            return false;
        }
        i += 1;
    }
    true
}

} // verus!
