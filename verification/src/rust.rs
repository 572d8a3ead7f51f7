//! Reading Rust syntax.

use crate::fragment::CallKind;
use crate::graph::NodeFlags;
use crate::lang::{
    callee_view, has_token, kid_count, shape_under, token_kid, Callee, CalleeModel, Shape,
    ShapeModel,
};
use crate::naming::{
    join_scope, last_place, last_segment, push_sanitized, push_view, rust_module, rust_modules, sanitize,
    sanitized_all, scoped, segment_text, strip_or_keep,
};
use crate::path::{name_of, normal_components, stem_text};
use crate::seqs::ints;
use crate::syntax::{
    field_kid, field_text, named_kids, piece_text, prev_sibling, slice_text, text_between,
    PieceModel, SyntaxTree,
};
use crate::text::{contains, has_prefix, has_text, same, starts_with, join_text, views};
use vstd::prelude::*;

verus! {

/// The node is a function.
pub open spec fn is_fn(t: Seq<PieceModel>, c: int) -> bool {
    t[c].kind == "function_item"@ || t[c].kind == "function_signature_item"@
}

pub fn is_fn_node(tree: &SyntaxTree, c: usize) -> (r: bool)
    requires
        c < tree@.len(),
    ensures
        r == is_fn(tree@, c as int),
{
    tree.is(c, "function_item") || tree.is(c, "function_signature_item")
}

// -- definitions ------------------------------------------------------------------

/// The base name of a type: without references, generic arguments and path.
pub open spec fn base_of_type(t: Seq<PieceModel>, text: Seq<char>, i: int) -> Seq<char>
    decreases t.len() - i,
{
    let k = t[i].kind;
    if k == "type_identifier"@ {
        piece_text(t, text, i)
    } else if k == "generic_type"@ || k == "reference_type"@ {
        match field_kid(t, i, "type"@) {
            Some(x) => if i < x < t.len() {
                base_of_type(t, text, x)
            } else {
                Seq::empty()
            },
            None => Seq::empty(),
        }
    } else if k == "scoped_type_identifier"@ {
        match field_kid(t, i, "name"@) {
            Some(x) => piece_text(t, text, x),
            None => last_segment(piece_text(t, text, i)),
        }
    } else {
        last_segment(piece_text(t, text, i))
    }
}

fn type_base_name(tree: &SyntaxTree, text: &str, i: usize) -> (r: String)
    requires
        i < tree@.len(),
    ensures
        r@ == base_of_type(tree@, text@, i as int),
    decreases tree@.len() - i,
{
    if tree.is(i, "type_identifier") {
        tree.text_of(text, i)
    } else if tree.is(i, "generic_type") || tree.is(i, "reference_type") {
        match tree.child_by_field(i, "type") {
            Some(x) => type_base_name(tree, text, x),
            None => String::new(),
        }
    } else if tree.is(i, "scoped_type_identifier") {
        match tree.child_by_field(i, "name") {
            Some(x) => tree.text_of(text, x),
            None => segment_text(tree.text_of(text, i).as_str()),
        }
    } else {
        segment_text(tree.text_of(text, i).as_str())
    }
}

/// The base name of the type that an `impl` is for; empty where it has none.
pub open spec fn impl_name(t: Seq<PieceModel>, text: Seq<char>, c: int) -> Seq<char> {
    match field_kid(t, c, "type"@) {
        Some(x) => base_of_type(t, text, x),
        None => Seq::empty(),
    }
}

/// The parameters hold a `self`.
pub open spec fn takes_self(t: Seq<PieceModel>, func: int) -> bool {
    match field_kid(t, func, "parameters"@) {
        Some(p) => kid_count(
            t,
            p,
            |c: int| t[c].kind == "self_parameter"@,
            named_kids(t, p).len() as int,
        ) > 0,
        None => false,
    }
}

fn has_self_param(tree: &SyntaxTree, func: usize) -> (r: bool)
    requires
        func < tree@.len(),
    ensures
        r == takes_self(tree@, func as int),
{
    let ghost t = tree@;
    let ghost is_self = |c: int| t[c].kind == "self_parameter"@;
    match tree.child_by_field(func, "parameters") {
        Some(p) => {
            let ks = tree.named_children(p);
            let mut found = false;
            let mut i: usize = 0;
            while i < ks.len()
                invariant
                    i <= ks@.len(),
                    p < t.len(),
                    t == tree@,
                    is_self == (|c: int| t[c].kind == "self_parameter"@),
                    ints(ks@) == named_kids(t, p as int),
                    forall|a: int| 0 <= a < ks@.len() ==> p < #[trigger] ks@[a] < t.len(),
                    found == (kid_count(t, p as int, is_self, i as int) > 0),
                decreases ks@.len() - i,
            {
                assert(ints(ks@)[i as int] == ks@[i as int]);
                if tree.is(ks[i], "self_parameter") {
                    found = true;
                }
                i += 1;
            }
            found
        },
        None => false,
    }
}

/// A parameter other than `self`.
pub open spec fn is_param(t: Seq<PieceModel>) -> spec_fn(int) -> bool {
    |c: int| t[c].kind == "parameter"@ || t[c].kind == "variadic_parameter"@
}

/// How a node is read when definitions are looked for in `scope`.
pub open spec fn shape(t: Seq<PieceModel>, text: Seq<char>, c: int, scope: Seq<char>) -> ShapeModel {
    if t[c].kind == "mod_item"@ || t[c].kind == "trait_item"@ {
        ShapeModel::Enter {
            body: field_kid(t, c, "body"@),
            scope: scoped(scope, field_text(t, text, c, "name"@)),
        }
    } else if t[c].kind == "impl_item"@ {
        ShapeModel::Enter {
            body: field_kid(t, c, "body"@),
            scope: scoped(scope, impl_name(t, text, c)),
        }
    } else if is_fn(t, c) {
        let name = field_text(t, text, c, "name"@);
        if name.len() == 0 {
            ShapeModel::Skip
        } else {
            ShapeModel::Def { func: c, name, owner: scope, method: takes_self(t, c), descend: true }
        }
    } else {
        ShapeModel::Plain
    }
}

pub fn shape_of(tree: &SyntaxTree, text: &str, c: usize, scope: &str) -> (r: Shape)
    requires
        c < tree@.len(),
    ensures
        r@ == shape(tree@, text@, c as int, scope@),
        shape_under(r@, c as int, tree@.len() as int),
{
    if tree.is(c, "mod_item") || tree.is(c, "trait_item") {
        let name = tree.field_text(text, c, "name");
        Shape::Enter {
            body: tree.child_by_field(c, "body"),
            scope: join_scope(scope, name.as_str()),
        }
    } else if tree.is(c, "impl_item") {
        let ty = match tree.child_by_field(c, "type") {
            Some(x) => type_base_name(tree, text, x),
            None => String::new(),
        };
        Shape::Enter {
            body: tree.child_by_field(c, "body"),
            scope: join_scope(scope, ty.as_str()),
        }
    } else if is_fn_node(tree, c) {
        let name = tree.field_text(text, c, "name");
        if name.as_str().is_empty() {
            Shape::Skip
        } else {
            Shape::Def {
                func: c,
                name,
                owner: scope.to_owned(),
                method: has_self_param(tree, c),
                descend: true,
            }
        }
    } else {
        Shape::Plain
    }
}

/// The text before the name of a function.
pub open spec fn header(t: Seq<PieceModel>, text: Seq<char>, func: int) -> Seq<char> {
    match field_kid(t, func, "name"@) {
        Some(n) => text_between(text, t[func].start_byte, t[n].start_byte),
        None => Seq::empty(),
    }
}

/// An attribute above node `i`, looked for from sibling to sibling, holds the word.
pub open spec fn marked_above(t: Seq<PieceModel>, text: Seq<char>, i: int, word: Seq<char>) -> bool
    decreases i,
{
    match prev_sibling(t, i) {
        Some(s) => if 0 <= s < i {
            if t[s].kind == "attribute_item"@ || t[s].kind == "inner_attribute_item"@ {
                contains(piece_text(t, text, s), word) || marked_above(t, text, s, word)
            } else if t[s].kind == "line_comment"@ || t[s].kind == "block_comment"@ {
                marked_above(t, text, s, word)
            } else {
                false
            }
        } else {
            false
        },
        None => false,
    }
}

/// The function is a test: by its module, its name or an attribute above it.
pub open spec fn is_test(
    t: Seq<PieceModel>,
    text: Seq<char>,
    func: int,
    module: Seq<char>,
    name: Seq<char>,
) -> bool {
    contains(module, "tests"@) || starts_with(name, "test_"@) || marked_above(
        t,
        text,
        func,
        "test"@,
    )
}

fn has_mark(tree: &SyntaxTree, text: &str, func: usize, word: &str) -> (r: bool)
    requires
        func < tree@.len(),
    ensures
        r == marked_above(tree@, text@, func as int, word@),
{
    let ghost t = tree@;
    let mut i: usize = func;
    loop
        invariant
            i <= func < t.len(),
            t == tree@,
            marked_above(t, text@, func as int, word@) == marked_above(
                t,
                text@,
                i as int,
                word@,
            ),
        decreases i,
    {
        match tree.prev_sibling(i) {
            Some(s) => {
                if tree.is(s, "attribute_item") || tree.is(s, "inner_attribute_item") {
                    if has_text(tree.text_of(text, s).as_str(), word) {
                        return true;
                    }
                } else if !tree.is(s, "line_comment") && !tree.is(s, "block_comment") {
                    return false;
                }
                i = s;
            },
            None => {
                return false;
            },
        }
    }
}

fn is_test_fn(tree: &SyntaxTree, text: &str, func: usize, module: &str, name: &str) -> (r: bool)
    requires
        func < tree@.len(),
    ensures
        r == is_test(tree@, text@, func as int, module@, name@),
{
    has_text(module, "tests") || has_prefix(name, "test_") || has_mark(tree, text, func, "test")
}

/// Among the modifiers before the name stands one that fixes a foreign ABI.
pub open spec fn fixes_abi(t: Seq<PieceModel>, c: int) -> bool {
    t[c].kind == "function_modifiers"@ && has_token(
        t,
        c,
        "extern_modifier"@,
        "extern_modifier"@,
        "extern_modifier"@,
    )
}

pub open spec fn has_foreign_abi(t: Seq<PieceModel>, func: int) -> bool {
    kid_count(t, func, |c: int| fixes_abi(t, c), named_kids(t, func).len() as int) > 0
}

fn foreign_abi(tree: &SyntaxTree, func: usize) -> (r: bool)
    requires
        func < tree@.len(),
    ensures
        r == has_foreign_abi(tree@, func as int),
{
    let ghost t = tree@;
    let ghost f = |c: int| fixes_abi(t, c);
    let ks = tree.named_children(func);
    let mut found = false;
    let mut i: usize = 0;
    while i < ks.len()
        invariant
            i <= ks@.len(),
            func < t.len(),
            t == tree@,
            f == (|c: int| fixes_abi(t, c)),
            ints(ks@) == named_kids(t, func as int),
            forall|a: int| 0 <= a < ks@.len() ==> func < #[trigger] ks@[a] < t.len(),
            found == (kid_count(t, func as int, f, i as int) > 0),
        decreases ks@.len() - i,
    {
        assert(ints(ks@)[i as int] == ks@[i as int]);
        let k = ks[i];
        if tree.is(k, "function_modifiers") && token_kid(
            tree,
            k,
            "extern_modifier",
            "extern_modifier",
            "extern_modifier",
        ) {
            found = true;
        }
        i += 1;
    }
    found
}

/// The function is there to be called from outside the source: it has a body, and a
/// foreign ABI or an attribute that fixes its symbol.
pub open spec fn is_exported(t: Seq<PieceModel>, text: Seq<char>, func: int) -> bool {
    t[func].kind == "function_item"@ && (has_foreign_abi(t, func) || marked_above(
        t,
        text,
        func,
        "no_mangle"@,
    ) || marked_above(t, text, func, "export_name"@))
}

fn exported(tree: &SyntaxTree, text: &str, func: usize) -> (r: bool)
    requires
        func < tree@.len(),
    ensures
        r == is_exported(tree@, text@, func as int),
{
    tree.is(func, "function_item") && (foreign_abi(tree, func) || has_mark(
        tree,
        text,
        func,
        "no_mangle",
    ) || has_mark(tree, text, func, "export_name"))
}

/// The attributes of a function.
pub open spec fn flags(
    t: Seq<PieceModel>,
    text: Seq<char>,
    func: int,
    module: Seq<char>,
    name: Seq<char>,
) -> NodeFlags {
    let head = header(t, text, func);
    NodeFlags {
        is_pub: contains(head, "pub"@),
        is_async: contains(head, "async"@),
        is_unsafe: contains(head, "unsafe"@),
        is_test: is_test(t, text, func, module, name),
        is_method: takes_self(t, func),
        is_generic: field_kid(t, func, "type_parameters"@) is Some,
        is_exported: is_exported(t, text, func),
    }
}

pub fn flags_of(tree: &SyntaxTree, text: &str, func: usize, module: &str, name: &str) -> (r: NodeFlags)
    requires
        func < tree@.len(),
    ensures
        r == flags(tree@, text@, func as int, module@, name@),
{
    let head = match tree.child_by_field(func, "name") {
        Some(n) => {
            assert(tree@[func as int] == tree.pieces@[func as int]@);
            assert(tree@[n as int] == tree.pieces@[n as int]@);
            slice_text(text, tree.pieces[func].start_byte, tree.pieces[n].start_byte)
        },
        None => String::new(),
    };
    NodeFlags {
        is_pub: has_text(head.as_str(), "pub"),
        is_async: has_text(head.as_str(), "async"),
        is_unsafe: has_text(head.as_str(), "unsafe"),
        is_test: is_test_fn(tree, text, func, module, name),
        is_method: has_self_param(tree, func),
        is_generic: tree.child_by_field(func, "type_parameters").is_some(),
        is_exported: exported(tree, text, func),
    }
}

// -- bodies -------------------------------------------------------------------------

/// A logical operator stands in the expression.
pub open spec fn is_logical(t: Seq<PieceModel>, c: int) -> bool {
    has_token(t, c, "&&"@, "||"@, "||"@)
}

/// A point where the control flow decides.
pub open spec fn decides(t: Seq<PieceModel>, c: int) -> bool {
    let k = t[c].kind;
    ||| k == "if_expression"@
    ||| k == "match_arm"@
    ||| k == "while_expression"@
    ||| k == "for_expression"@
    ||| k == "loop_expression"@
    ||| k == "try_expression"@
    ||| k == "binary_expression"@ && is_logical(t, c)
}

pub fn decides_at(tree: &SyntaxTree, c: usize) -> (r: bool)
    requires
        c < tree@.len(),
    ensures
        r == decides(tree@, c as int),
{
    tree.is(c, "if_expression") || tree.is(c, "match_arm") || tree.is(c, "while_expression")
        || tree.is(c, "for_expression") || tree.is(c, "loop_expression") || tree.is(
        c,
        "try_expression",
    ) || (tree.is(c, "binary_expression") && token_kid(tree, c, "&&", "||", "||"))
}

/// What stands inside is nested one level deeper.
pub open spec fn nests(t: Seq<PieceModel>, c: int) -> bool {
    let k = t[c].kind;
    ||| k == "if_expression"@
    ||| k == "match_expression"@
    ||| k == "while_expression"@
    ||| k == "for_expression"@
    ||| k == "loop_expression"@
    ||| k == "unsafe_block"@
}

pub fn nests_at(tree: &SyntaxTree, c: usize) -> (r: bool)
    requires
        c < tree@.len(),
    ensures
        r == nests(tree@, c as int),
{
    tree.is(c, "if_expression") || tree.is(c, "match_expression") || tree.is(c, "while_expression")
        || tree.is(c, "for_expression") || tree.is(c, "loop_expression") || tree.is(c, "unsafe_block")
}

/// The node is a call.
pub open spec fn is_call(t: Seq<PieceModel>, c: int) -> bool {
    t[c].kind == "call_expression"@ || t[c].kind == "macro_invocation"@
}

/// What the expression that stands before the arguments names.
pub open spec fn callee_expr(t: Seq<PieceModel>, text: Seq<char>, f: int) -> Option<CalleeModel>
    decreases t.len() - f,
{
    let k = t[f].kind;
    let whole = piece_text(t, text, f);
    if k == "identifier"@ {
        Some(CalleeModel { kind: CallKind::Direct, path: whole, short: whole })
    } else if k == "scoped_identifier"@ {
        let short = match field_kid(t, f, "name"@) {
            Some(n) => piece_text(t, text, n),
            None => last_segment(whole),
        };
        Some(CalleeModel { kind: CallKind::Associated, path: whole, short })
    } else if k == "field_expression"@ {
        match field_kid(t, f, "field"@) {
            Some(n) => {
                let name = piece_text(t, text, n);
                Some(CalleeModel { kind: CallKind::Method, path: name, short: name })
            },
            None => None,
        }
    } else if k == "generic_function"@ {
        match field_kid(t, f, "function"@) {
            Some(n) => if f < n < t.len() {
                callee_expr(t, text, n)
            } else {
                None
            },
            None => None,
        }
    } else {
        Some(CalleeModel { kind: CallKind::Direct, path: whole, short: last_segment(whole) })
    }
}

fn resolve_callee_expr(tree: &SyntaxTree, text: &str, f: usize) -> (r: Option<Callee>)
    requires
        f < tree@.len(),
    ensures
        callee_view(r) == callee_expr(tree@, text@, f as int),
    decreases tree@.len() - f,
{
    let whole = tree.text_of(text, f);
    if tree.is(f, "identifier") {
        let short = whole.clone();
        Some(Callee { kind: CallKind::Direct, path: whole, short })
    } else if tree.is(f, "scoped_identifier") {
        let short = match tree.child_by_field(f, "name") {
            Some(n) => tree.text_of(text, n),
            None => segment_text(whole.as_str()),
        };
        Some(Callee { kind: CallKind::Associated, path: whole, short })
    } else if tree.is(f, "field_expression") {
        match tree.child_by_field(f, "field") {
            Some(n) => {
                let name = tree.text_of(text, n);
                let short = name.clone();
                Some(Callee { kind: CallKind::Method, path: name, short })
            },
            None => None,
        }
    } else if tree.is(f, "generic_function") {
        match tree.child_by_field(f, "function") {
            Some(n) => resolve_callee_expr(tree, text, n),
            None => None,
        }
    } else {
        let short = segment_text(whole.as_str());
        Some(Callee { kind: CallKind::Direct, path: whole, short })
    }
}

/// What a call calls.
pub open spec fn callee(t: Seq<PieceModel>, text: Seq<char>, c: int) -> Option<CalleeModel> {
    if !is_call(t, c) {
        None
    } else if t[c].kind == "macro_invocation"@ {
        match field_kid(t, c, "macro"@) {
            Some(m) => {
                let path = piece_text(t, text, m);
                Some(CalleeModel { kind: CallKind::Macro, path, short: last_segment(path) })
            },
            None => None,
        }
    } else {
        match field_kid(t, c, "function"@) {
            Some(f) => callee_expr(t, text, f),
            None => None,
        }
    }
}

pub fn callee_of_call(tree: &SyntaxTree, text: &str, c: usize) -> (r: Option<Callee>)
    requires
        c < tree@.len(),
    ensures
        callee_view(r) == callee(tree@, text@, c as int),
{
    if tree.is(c, "macro_invocation") {
        match tree.child_by_field(c, "macro") {
            Some(m) => {
                let path = tree.text_of(text, m);
                let short = segment_text(path.as_str());
                Some(Callee { kind: CallKind::Macro, path, short })
            },
            None => None,
        }
    } else if tree.is(c, "call_expression") {
        match tree.child_by_field(c, "function") {
            Some(f) => resolve_callee_expr(tree, text, f),
            None => None,
        }
    } else {
        None
    }
}

/// A call that allocates on the heap, judged by its name.
pub open spec fn is_alloc_name(c: CalleeModel) -> bool {
    if c.kind == CallKind::Macro {
        c.short == "vec"@ || c.short == "format"@
    } else {
        ||| c.short == "clone"@
        ||| c.short == "to_owned"@
        ||| c.short == "to_vec"@
        ||| c.short == "to_string"@
        ||| c.path == "Box::new"@
        ||| c.path == "Rc::new"@
        ||| c.path == "Arc::new"@
        ||| c.path == "Vec::new"@
        ||| c.path == "Vec::with_capacity"@
        ||| c.path == "Vec::from"@
        ||| c.path == "String::new"@
        ||| c.path == "String::from"@
        ||| c.path == "HashMap::new"@
        ||| c.path == "BTreeMap::new"@
        ||| c.path == "HashSet::new"@
    }
}

fn alloc_name(c: &Callee) -> (r: bool)
    ensures
        r == is_alloc_name(c@),
{
    let short = c.short.as_str();
    let path = c.path.as_str();
    if c.kind == CallKind::Macro {
        same(short, "vec") || same(short, "format")
    } else {
        same(short, "clone") || same(short, "to_owned") || same(short, "to_vec") || same(
            short,
            "to_string",
        ) || same(path, "Box::new") || same(path, "Rc::new") || same(path, "Arc::new") || same(
            path,
            "Vec::new",
        ) || same(path, "Vec::with_capacity") || same(path, "Vec::from") || same(
            path,
            "String::new",
        ) || same(path, "String::from") || same(path, "HashMap::new") || same(
            path,
            "BTreeMap::new",
        ) || same(path, "HashSet::new")
    }
}

/// The node allocates on the heap.
pub open spec fn allocates(t: Seq<PieceModel>, text: Seq<char>, c: int) -> bool {
    match callee(t, text, c) {
        Some(x) => is_alloc_name(x),
        None => false,
    }
}

pub fn allocates_at(tree: &SyntaxTree, text: &str, c: usize) -> (r: bool)
    requires
        c < tree@.len(),
    ensures
        r == allocates(tree@, text@, c as int),
{
    match callee_of_call(tree, text, c) {
        Some(x) => alloc_name(&x),
        None => false,
    }
}

pub open spec fn is_statement(t: Seq<PieceModel>, c: int) -> bool {
    t[c].kind == "let_declaration"@ || t[c].kind == "expression_statement"@
}

pub open spec fn is_return(t: Seq<PieceModel>, c: int) -> bool {
    t[c].kind == "return_expression"@
}

pub open spec fn is_unsafe_block(t: Seq<PieceModel>, c: int) -> bool {
    t[c].kind == "unsafe_block"@
}

pub open spec fn is_await(t: Seq<PieceModel>, c: int) -> bool {
    t[c].kind == "await_expression"@
}

// -- files --------------------------------------------------------------------------

/// The module of a Rust file.
pub fn module_path_from(path: &str) -> (r: String)
    ensures
        r@ == rust_module(path@),
{
    let comps = normal_components(path);
    let ghost cv = views(comps@);
    let n: usize = comps.len();
    let mut p: usize = n;
    while p > 0 && !same(comps[p - 1].as_str(), "src")
        invariant
            p <= n == comps@.len() == cv.len(),
            cv == views(comps@),
            last_place(cv, "src"@, n as int) == last_place(cv, "src"@, p as int),
        decreases p,
    {
        assert(cv[p - 1] == comps@[p - 1]@);
        p -= 1;
    }
    if p > 0 {
        assert(cv[p - 1] == comps@[p - 1]@);
        let mut mods: Vec<String> = Vec::new();
        let home = if p > 1 {
            assert(cv[p - 2] == comps@[p - 2]@);
            sanitize(comps[p - 2].as_str())
        } else {
            "crate".to_owned()
        };
        let ghost hv = home@;
        mods.push(home);
        assert(views(mods@) =~= seq![hv]);
        let ghost after = cv.skip(p as int);
        if p < n {
            push_sanitized(&mut mods, &comps, p, n - 1);
            let stem = strip_or_keep(comps[n - 1].as_str(), ".rs");
            proof {
                assert(after.last() == comps@[n - 1]@);
                assert(after.drop_last() =~= cv.subrange(p as int, n - 1));
            }
            let ghost dirs = sanitized_all(after.drop_last());
            if !same(stem.as_str(), "lib") && !same(stem.as_str(), "main") && !same(
                stem.as_str(),
                "mod",
            ) {
                push_view(&mut mods, sanitize(stem.as_str()));
                assert(views(mods@) =~= seq![hv] + rust_modules(after));
            } else {
                assert(views(mods@) =~= seq![hv] + rust_modules(after));
            }
        } else {
            assert(views(mods@) =~= seq![hv] + rust_modules(after));
        }
        join_text(&mods, "::")
    } else {
        match name_of(path) {
            Some(name) => sanitize(stem_text(name.as_str()).as_str()),
            None => "crate".to_owned(),
        }
    }
}

} // verus!
