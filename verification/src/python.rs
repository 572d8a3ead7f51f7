//! Reading Python syntax.

use crate::fragment::CallKind;
use crate::graph::NodeFlags;
use crate::lang::{callee_view, shape_under, Callee, CalleeModel, Shape, ShapeModel};
use crate::naming::{
    contains_word, dotted_text, has_word, join_scope, last_dotted, push_sanitized, push_view,
    python_module, sanitize, sanitized_all, scoped, strip_or_keep, strip_suffix,
};
use crate::path::normal_components;
use crate::syntax::{
    field_kid, field_text, parent, piece_text, slice_text, text_between, PieceModel, SyntaxTree,
};
use crate::text::{has_prefix, same, starts_with, join_text, views};
use vstd::prelude::*;

verus! {

// -- definitions ------------------------------------------------------------------

/// The nearest definition around node `i` is a class.
pub open spec fn in_class(t: Seq<PieceModel>, i: int) -> bool
    decreases i,
{
    match parent(t, i) {
        Some(p) => if 0 <= p < i {
            if t[p].kind == "class_definition"@ {
                true
            } else if t[p].kind == "function_definition"@ || t[p].kind == "module"@ {
                false
            } else {
                in_class(t, p)
            }
        } else {
            false
        },
        None => false,
    }
}

fn is_method_def(tree: &SyntaxTree, func: usize) -> (r: bool)
    requires
        func < tree@.len(),
    ensures
        r == in_class(tree@, func as int),
{
    let ghost t = tree@;
    let mut i: usize = func;
    loop
        invariant
            i <= func < t.len(),
            t == tree@,
            in_class(t, func as int) == in_class(t, i as int),
        decreases i,
    {
        match tree.parent(i) {
            Some(p) => {
                if tree.is(p, "class_definition") {
                    return true;
                }
                if tree.is(p, "function_definition") || tree.is(p, "module") {
                    return false;
                }
                i = p;
            },
            None => {
                return false;
            },
        }
    }
}

/// A definition that is a node of its own.
pub open spec fn is_nested(t: Seq<PieceModel>, c: int) -> bool {
    t[c].kind == "function_definition"@ || t[c].kind == "class_definition"@ || t[c].kind
        == "decorated_definition"@
}

pub fn is_nested_at(tree: &SyntaxTree, c: usize) -> (r: bool)
    requires
        c < tree@.len(),
    ensures
        r == is_nested(tree@, c as int),
{
    tree.is(c, "function_definition") || tree.is(c, "class_definition") || tree.is(
        c,
        "decorated_definition",
    )
}

/// A parameter.
pub open spec fn is_param(t: Seq<PieceModel>) -> spec_fn(int) -> bool {
    |c: int|
        {
            let k = t[c].kind;
            ||| k == "identifier"@
            ||| k == "typed_parameter"@
            ||| k == "default_parameter"@
            ||| k == "typed_default_parameter"@
            ||| k == "list_splat_pattern"@
            ||| k == "dictionary_splat_pattern"@
            ||| k == "tuple_pattern"@
        }
}

pub fn is_param_at(tree: &SyntaxTree, c: usize) -> (r: bool)
    requires
        c < tree@.len(),
    ensures
        r == is_param(tree@)(c as int),
{
    tree.is(c, "identifier") || tree.is(c, "typed_parameter") || tree.is(c, "default_parameter")
        || tree.is(c, "typed_default_parameter") || tree.is(c, "list_splat_pattern") || tree.is(
        c,
        "dictionary_splat_pattern",
    ) || tree.is(c, "tuple_pattern")
}

/// How a node is read when definitions are looked for in `scope`.
pub open spec fn shape(t: Seq<PieceModel>, text: Seq<char>, c: int, scope: Seq<char>) -> ShapeModel {
    let name = field_text(t, text, c, "name"@);
    if t[c].kind == "class_definition"@ {
        ShapeModel::Enter { body: field_kid(t, c, "body"@), scope: scoped(scope, name) }
    } else if t[c].kind == "function_definition"@ {
        if name.len() == 0 {
            ShapeModel::Skip
        } else {
            ShapeModel::Def { func: c, name, owner: scope, method: in_class(t, c), descend: true }
        }
    } else {
        ShapeModel::Plain
    }
}

pub fn shape_of(tree: &SyntaxTree, text: &str, c: usize, scope: &str) -> (r: Shape)
    requires
        c < tree@.len(),
    ensures
        r@ == shape(tree@, text@, c as int, scope@),
        shape_under(r@, c as int, tree@.len() as int),
{
    if tree.is(c, "class_definition") {
        let name = tree.field_text(text, c, "name");
        Shape::Enter {
            body: tree.child_by_field(c, "body"),
            scope: join_scope(scope, name.as_str()),
        }
    } else if tree.is(c, "function_definition") {
        let name = tree.field_text(text, c, "name");
        if name.as_str().is_empty() {
            Shape::Skip
        } else {
            Shape::Def {
                func: c,
                name,
                owner: scope.to_owned(),
                method: is_method_def(tree, c),
                descend: true,
            }
        }
    } else {
        Shape::Plain
    }
}

/// The text before the name of a function.
pub open spec fn header(t: Seq<PieceModel>, text: Seq<char>, func: int) -> Seq<char> {
    match field_kid(t, func, "name"@) {
        Some(n) => text_between(
            text,
            t[func].start_byte,
            if t[n].start_byte > t[func].start_byte {
                t[n].start_byte
            } else {
                t[func].start_byte
            },
        ),
        None => Seq::empty(),
    }
}

/// The attributes of a function. A leading underscore marks a name as not public.
pub open spec fn flags(
    t: Seq<PieceModel>,
    text: Seq<char>,
    func: int,
    name: Seq<char>,
    method: bool,
) -> NodeFlags {
    NodeFlags {
        is_pub: !starts_with(name, "_"@),
        is_async: has_word(header(t, text, func), "async"@),
        is_unsafe: false,
        is_test: starts_with(name, "test"@),
        is_method: method,
        is_generic: field_kid(t, func, "type_parameters"@) is Some,
        is_exported: false,
    }
}

pub fn flags_of(tree: &SyntaxTree, text: &str, func: usize, name: &str, method: bool) -> (r: NodeFlags)
    requires
        func < tree@.len(),
    ensures
        r == flags(tree@, text@, func as int, name@, method),
{
    let head = match tree.child_by_field(func, "name") {
        Some(n) => {
            assert(tree@[func as int] == tree.pieces@[func as int]@);
            assert(tree@[n as int] == tree.pieces@[n as int]@);
            let from: usize = tree.pieces[func].start_byte;
            let to: usize = tree.pieces[n].start_byte;
            slice_text(text, from, if to > from { to } else { from })
        },
        None => String::new(),
    };
    NodeFlags {
        is_pub: !has_prefix(name, "_"),
        is_async: contains_word(head.as_str(), "async"),
        is_unsafe: false,
        is_test: has_prefix(name, "test"),
        is_method: method,
        is_generic: tree.child_by_field(func, "type_parameters").is_some(),
        is_exported: false,
    }
}

// -- bodies -------------------------------------------------------------------------

/// A point where the control flow decides.
pub open spec fn decides(t: Seq<PieceModel>, c: int) -> bool {
    let k = t[c].kind;
    ||| k == "if_statement"@
    ||| k == "elif_clause"@
    ||| k == "for_statement"@
    ||| k == "while_statement"@
    ||| k == "except_clause"@
    ||| k == "case_clause"@
    ||| k == "boolean_operator"@
    ||| k == "conditional_expression"@
}

pub fn decides_at(tree: &SyntaxTree, c: usize) -> (r: bool)
    requires
        c < tree@.len(),
    ensures
        r == decides(tree@, c as int),
{
    tree.is(c, "if_statement") || tree.is(c, "elif_clause") || tree.is(c, "for_statement")
        || tree.is(c, "while_statement") || tree.is(c, "except_clause") || tree.is(c, "case_clause")
        || tree.is(c, "boolean_operator") || tree.is(c, "conditional_expression")
}

/// What stands inside is nested one level deeper.
pub open spec fn nests(t: Seq<PieceModel>, c: int) -> bool {
    let k = t[c].kind;
    ||| k == "if_statement"@
    ||| k == "for_statement"@
    ||| k == "while_statement"@
    ||| k == "with_statement"@
    ||| k == "try_statement"@
    ||| k == "match_statement"@
}

pub fn nests_at(tree: &SyntaxTree, c: usize) -> (r: bool)
    requires
        c < tree@.len(),
    ensures
        r == nests(tree@, c as int),
{
    tree.is(c, "if_statement") || tree.is(c, "for_statement") || tree.is(c, "while_statement")
        || tree.is(c, "with_statement") || tree.is(c, "try_statement") || tree.is(
        c,
        "match_statement",
    )
}

pub open spec fn is_statement(t: Seq<PieceModel>, c: int) -> bool {
    t[c].kind == "expression_statement"@
}

pub open spec fn is_return(t: Seq<PieceModel>, c: int) -> bool {
    t[c].kind == "return_statement"@
}

pub open spec fn is_await(t: Seq<PieceModel>, c: int) -> bool {
    t[c].kind == "await"@
}

/// What a call calls.
pub open spec fn callee(t: Seq<PieceModel>, text: Seq<char>, c: int) -> Option<CalleeModel> {
    if t[c].kind != "call"@ {
        None
    } else {
        match field_kid(t, c, "function"@) {
            None => None,
            Some(f) => {
                let whole = piece_text(t, text, f);
                if t[f].kind == "identifier"@ {
                    Some(CalleeModel { kind: CallKind::Direct, path: whole, short: whole })
                } else if t[f].kind == "attribute"@ {
                    let short = match field_kid(t, f, "attribute"@) {
                        Some(n) => piece_text(t, text, n),
                        None => last_dotted(whole),
                    };
                    Some(CalleeModel { kind: CallKind::Method, path: short, short })
                } else {
                    let short = last_dotted(whole);
                    Some(CalleeModel { kind: CallKind::Direct, path: short, short })
                }
            },
        }
    }
}

pub fn callee_of_call(tree: &SyntaxTree, text: &str, c: usize) -> (r: Option<Callee>)
    requires
        c < tree@.len(),
    ensures
        callee_view(r) == callee(tree@, text@, c as int),
{
    if !tree.is(c, "call") {
        return None;
    }
    match tree.child_by_field(c, "function") {
        None => None,
        Some(f) => {
            let whole = tree.text_of(text, f);
            if tree.is(f, "identifier") {
                let short = whole.clone();
                Some(Callee { kind: CallKind::Direct, path: whole, short })
            } else if tree.is(f, "attribute") {
                let short = match tree.child_by_field(f, "attribute") {
                    Some(n) => tree.text_of(text, n),
                    None => dotted_text(whole.as_str()),
                };
                let path = short.clone();
                Some(Callee { kind: CallKind::Method, path, short })
            } else {
                let short = dotted_text(whole.as_str());
                let path = short.clone();
                Some(Callee { kind: CallKind::Direct, path, short })
            }
        },
    }
}

/// A comprehension.
pub open spec fn is_comprehension(t: Seq<PieceModel>, c: int) -> bool {
    let k = t[c].kind;
    ||| k == "list_comprehension"@
    ||| k == "dictionary_comprehension"@
    ||| k == "set_comprehension"@
    ||| k == "generator_expression"@
}

/// The node allocates on the heap: a comprehension, or a call of a container
/// builtin.
pub open spec fn allocates(t: Seq<PieceModel>, text: Seq<char>, c: int) -> bool {
    ||| is_comprehension(t, c)
    ||| match callee(t, text, c) {
        Some(x) => {
            ||| x.short == "list"@
            ||| x.short == "dict"@
            ||| x.short == "set"@
            ||| x.short == "tuple"@
            ||| x.short == "bytearray"@
        },
        None => false,
    }
}

pub fn allocates_at(tree: &SyntaxTree, text: &str, c: usize) -> (r: bool)
    requires
        c < tree@.len(),
    ensures
        r == allocates(tree@, text@, c as int),
{
    if tree.is(c, "list_comprehension") || tree.is(c, "dictionary_comprehension") || tree.is(
        c,
        "set_comprehension",
    ) || tree.is(c, "generator_expression") {
        return true;
    }
    match callee_of_call(tree, text, c) {
        Some(x) => {
            let s = x.short.as_str();
            same(s, "list") || same(s, "dict") || same(s, "set") || same(s, "tuple") || same(
                s,
                "bytearray",
            )
        },
        None => false,
    }
}

// -- files --------------------------------------------------------------------------

/// The module of a Python file.
pub fn module_path_from(path: &str) -> (r: String)
    ensures
        r@ == python_module(path@),
{
    let comps = normal_components(path);
    let ghost cv = views(comps@);
    let n: usize = comps.len();
    if n == 0 {
        return "module".to_owned();
    }
    assert(cv.last() == comps@[n - 1]@);
    let stem = match strip_suffix(comps[n - 1].as_str(), ".pyi") {
        Some(s) => s,
        None => strip_or_keep(comps[n - 1].as_str(), ".py"),
    };
    let mut mods: Vec<String> = Vec::new();
    assert(views(mods@) =~= Seq::empty());
    push_sanitized(&mut mods, &comps, 0, n - 1);
    assert(cv.subrange(0, n - 1) =~= cv.drop_last());
    let ghost dirs = sanitized_all(cv.drop_last());
    assert(views(mods@) =~= dirs);
    if !same(stem.as_str(), "__init__") {
        push_view(&mut mods, sanitize(stem.as_str()));
        assert(views(mods@) =~= sanitized_all(cv.drop_last().push(stem@)));
    }
    if mods.len() == 0 {
        "module".to_owned()
    } else {
        join_text(&mods, "::")
    }
}

} // verus!
