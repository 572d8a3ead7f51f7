//! Reading TypeScript syntax.

use crate::fragment::CallKind;
use crate::graph::NodeFlags;
use crate::lang::{callee_view, has_token, shape_under, token_kid, Callee, CalleeModel, Shape, ShapeModel};
use crate::naming::{
    below_src, contains_word, dotted_text, has_word, join_scope, last_dotted, push_sanitized,
    push_view, sanitize, sanitized_all, scoped, strip_or_keep, strip_suffix, ts_module, ts_stem,
};
use crate::path::{extension, extension_of, normal_components};
use crate::syntax::{
    field_kid, field_text, parent, piece_text, slice_text, text_between, PieceModel, SyntaxTree,
};
use crate::text::{before_last, cut_before_last, has_prefix, same, starts_with, join_text, views};
use vstd::prelude::*;

verus! {

/// The file may hold markup.
pub open spec fn is_tsx(path: Seq<char>) -> bool {
    extension(path) == Some("tsx"@) || extension(path) == Some("jsx"@)
}

pub fn is_tsx_path(path: &str) -> (r: bool)
    ensures
        r == is_tsx(path@),
{
    match extension_of(path) {
        Some(e) => same(e.as_str(), "tsx") || same(e.as_str(), "jsx"),
        None => false,
    }
}

/// What precedes the last `::` of a qualified name; empty where there is none.
pub open spec fn module_of(qualified: Seq<char>) -> Seq<char> {
    match before_last(qualified, "::"@) {
        Some(m) => m,
        None => Seq::empty(),
    }
}

pub fn module_text(qualified: &str) -> (r: String)
    ensures
        r@ == module_of(qualified@),
{
    match cut_before_last(qualified, "::") {
        Some(m) => m,
        None => String::new(),
    }
}

// -- definitions ------------------------------------------------------------------

/// A function as a value.
pub open spec fn is_function_value(t: Seq<PieceModel>, v: int) -> bool {
    t[v].kind == "arrow_function"@ || t[v].kind == "function_expression"@
}

/// The kind of a declaration of variables.
pub open spec fn declares(kind: Seq<char>) -> bool {
    kind == "lexical_declaration"@ || kind == "variable_declaration"@
}

/// A definition that is a node of its own.
pub open spec fn is_nested(t: Seq<PieceModel>, c: int) -> bool {
    let k = t[c].kind;
    if k == "function_declaration"@ || k == "generator_function_declaration"@ || k
        == "method_definition"@ {
        true
    } else if is_function_value(t, c) {
        match parent(t, c) {
            Some(p) => t[p].kind == "variable_declarator"@ || t[p].kind
                == "public_field_definition"@,
            None => false,
        }
    } else {
        false
    }
}

pub fn is_nested_at(tree: &SyntaxTree, c: usize) -> (r: bool)
    requires
        c < tree@.len(),
    ensures
        r == is_nested(tree@, c as int),
{
    if tree.is(c, "function_declaration") || tree.is(c, "generator_function_declaration")
        || tree.is(c, "method_definition") {
        return true;
    }
    if tree.is(c, "arrow_function") || tree.is(c, "function_expression") {
        return match tree.parent(c) {
            Some(p) => tree.is(p, "variable_declarator") || tree.is(p, "public_field_definition"),
            None => false,
        };
    }
    false
}

/// A definition that a function value gives its name to: nothing where the value is
/// no function or the name is empty.
pub open spec fn value_shape(
    t: Seq<PieceModel>,
    text: Seq<char>,
    c: int,
    scope: Seq<char>,
    method: bool,
) -> ShapeModel {
    let name = field_text(t, text, c, "name"@);
    match field_kid(t, c, "value"@) {
        Some(v) => if is_function_value(t, v) && name.len() > 0 {
            ShapeModel::Def { func: v, name, owner: scope, method, descend: true }
        } else {
            ShapeModel::Skip
        },
        None => ShapeModel::Skip,
    }
}

/// How a child of node `i` is read when definitions are looked for in `scope`.
pub open spec fn shape(t: Seq<PieceModel>, text: Seq<char>, i: int, c: int, scope: Seq<char>) -> ShapeModel {
    let k = t[c].kind;
    let name = field_text(t, text, c, "name"@);
    if declares(t[i].kind) {
        if k == "variable_declarator"@ {
            value_shape(t, text, c, scope, false)
        } else {
            ShapeModel::Skip
        }
    } else if k == "class_declaration"@ || k == "abstract_class_declaration"@ {
        ShapeModel::Enter { body: field_kid(t, c, "body"@), scope: scoped(scope, name) }
    } else if k == "function_declaration"@ || k == "generator_function_declaration"@ || k
        == "function_expression"@ {
        if name.len() == 0 {
            ShapeModel::Skip
        } else {
            ShapeModel::Def { func: c, name, owner: scope, method: false, descend: true }
        }
    } else if k == "method_definition"@ {
        if name.len() == 0 {
            ShapeModel::Skip
        } else {
            ShapeModel::Def { func: c, name, owner: scope, method: true, descend: true }
        }
    } else if k == "public_field_definition"@ {
        value_shape(t, text, c, scope, true)
    } else {
        ShapeModel::Plain
    }
}

fn value_shape_of(tree: &SyntaxTree, text: &str, c: usize, scope: &str, method: bool) -> (r: Shape)
    requires
        c < tree@.len(),
    ensures
        r@ == value_shape(tree@, text@, c as int, scope@, method),
        shape_under(r@, c as int, tree@.len() as int),
{
    match tree.child_by_field(c, "value") {
        Some(v) => {
            if tree.is(v, "arrow_function") || tree.is(v, "function_expression") {
                let name = tree.field_text(text, c, "name");
                if !name.as_str().is_empty() {
                    return Shape::Def {
                        func: v,
                        name,
                        owner: scope.to_owned(),
                        method,
                        descend: true,
                    };
                }
            }
            Shape::Skip
        },
        None => Shape::Skip,
    }
}

pub fn shape_of(tree: &SyntaxTree, text: &str, i: usize, c: usize, scope: &str) -> (r: Shape)
    requires
        i < tree@.len(),
        c < tree@.len(),
    ensures
        r@ == shape(tree@, text@, i as int, c as int, scope@),
        shape_under(r@, c as int, tree@.len() as int),
{
    if tree.is(i, "lexical_declaration") || tree.is(i, "variable_declaration") {
        if tree.is(c, "variable_declarator") {
            value_shape_of(tree, text, c, scope, false)
        } else {
            Shape::Skip
        }
    } else if tree.is(c, "class_declaration") || tree.is(c, "abstract_class_declaration") {
        let name = tree.field_text(text, c, "name");
        Shape::Enter {
            body: tree.child_by_field(c, "body"),
            scope: join_scope(scope, name.as_str()),
        }
    } else if tree.is(c, "function_declaration") || tree.is(c, "generator_function_declaration")
        || tree.is(c, "function_expression") {
        let name = tree.field_text(text, c, "name");
        if name.as_str().is_empty() {
            Shape::Skip
        } else {
            Shape::Def { func: c, name, owner: scope.to_owned(), method: false, descend: true }
        }
    } else if tree.is(c, "method_definition") {
        let name = tree.field_text(text, c, "name");
        if name.as_str().is_empty() {
            Shape::Skip
        } else {
            Shape::Def { func: c, name, owner: scope.to_owned(), method: true, descend: true }
        }
    } else if tree.is(c, "public_field_definition") {
        value_shape_of(tree, text, c, scope, true)
    } else {
        Shape::Plain
    }
}

/// Where the modifiers of a function end.
pub open spec fn header_end(t: Seq<PieceModel>, func: int) -> int {
    match field_kid(t, func, "parameters"@) {
        Some(n) => t[n].start_byte,
        None => match field_kid(t, func, "parameter"@) {
            Some(n) => t[n].start_byte,
            None => match field_kid(t, func, "name"@) {
                Some(n) => t[n].start_byte,
                None => match field_kid(t, func, "body"@) {
                    Some(n) => t[n].start_byte,
                    None => t[func].end_byte,
                },
            },
        },
    }
}

/// The text that carries the modifiers of a function.
pub open spec fn header(t: Seq<PieceModel>, text: Seq<char>, func: int) -> Seq<char> {
    let end = header_end(t, func);
    text_between(
        text,
        t[func].start_byte,
        if end > t[func].start_byte {
            end
        } else {
            t[func].start_byte
        },
    )
}

fn header_of(tree: &SyntaxTree, text: &str, func: usize) -> (r: String)
    requires
        func < tree@.len(),
    ensures
        r@ == header(tree@, text@, func as int),
{
    let ghost t = tree@;
    let named = match tree.child_by_field(func, "parameters") {
        Some(n) => Some(n),
        None => match tree.child_by_field(func, "parameter") {
            Some(n) => Some(n),
            None => match tree.child_by_field(func, "name") {
                Some(n) => Some(n),
                None => tree.child_by_field(func, "body"),
            },
        },
    };
    assert(t[func as int] == tree.pieces@[func as int]@);
    let end: usize = match named {
        Some(n) => {
            assert(t[n as int] == tree.pieces@[n as int]@);
            tree.pieces[n].start_byte
        },
        None => tree.pieces[func].end_byte,
    };
    let from: usize = tree.pieces[func].start_byte;
    slice_text(text, from, if end > from { end } else { from })
}

/// One of the next `n` ancestors of node `i` exports it.
pub open spec fn exported(t: Seq<PieceModel>, i: int, n: nat) -> bool
    decreases n,
{
    if n == 0 {
        false
    } else {
        match parent(t, i) {
            Some(p) => t[p].kind == "export_statement"@ || exported(t, p, (n - 1) as nat),
            None => false,
        }
    }
}

fn is_exported(tree: &SyntaxTree, func: usize) -> (r: bool)
    requires
        func < tree@.len(),
    ensures
        r == exported(tree@, func as int, 4),
{
    let ghost t = tree@;
    let mut i: usize = func;
    let mut left: usize = 4;
    while left > 0
        invariant
            i < t.len(),
            left <= 4,
            t == tree@,
            exported(t, func as int, 4) == exported(t, i as int, left as nat),
        decreases left,
    {
        match tree.parent(i) {
            Some(p) => {
                if tree.is(p, "export_statement") {
                    return true;
                }
                i = p;
            },
            None => {
                return false;
            },
        }
        left -= 1;
    }
    false
}

/// The attributes of a function. A member is public unless it is marked otherwise;
/// any other function is public where it is exported.
pub open spec fn flags(
    t: Seq<PieceModel>,
    text: Seq<char>,
    func: int,
    name: Seq<char>,
    method: bool,
) -> NodeFlags {
    let head = header(t, text, func);
    NodeFlags {
        is_pub: if method {
            !has_word(head, "private"@) && !has_word(head, "protected"@)
        } else {
            exported(t, func, 4)
        },
        is_async: has_word(head, "async"@),
        is_unsafe: false,
        is_test: starts_with(name, "test"@) || starts_with(name, "Test"@),
        is_method: method,
        is_generic: field_kid(t, func, "type_parameters"@) is Some,
        is_exported: false,
    }
}

pub fn flags_of(tree: &SyntaxTree, text: &str, func: usize, name: &str, method: bool) -> (r: NodeFlags)
    requires
        func < tree@.len(),
    ensures
        r == flags(tree@, text@, func as int, name@, method),
{
    let head = header_of(tree, text, func);
    NodeFlags {
        is_pub: if method {
            !contains_word(head.as_str(), "private") && !contains_word(head.as_str(), "protected")
        } else {
            is_exported(tree, func)
        },
        is_async: contains_word(head.as_str(), "async"),
        is_unsafe: false,
        is_test: has_prefix(name, "test") || has_prefix(name, "Test"),
        is_method: method,
        is_generic: tree.child_by_field(func, "type_parameters").is_some(),
        is_exported: false,
    }
}

/// A parameter in a parameter list.
pub open spec fn is_param(t: Seq<PieceModel>) -> spec_fn(int) -> bool {
    |c: int| t[c].kind == "required_parameter"@ || t[c].kind == "optional_parameter"@
}

// -- bodies -------------------------------------------------------------------------

/// A loop.
pub open spec fn is_loop(k: Seq<char>) -> bool {
    k == "for_statement"@ || k == "for_in_statement"@ || k == "while_statement"@ || k
        == "do_statement"@
}

/// A point where the control flow decides.
pub open spec fn decides(t: Seq<PieceModel>, c: int) -> bool {
    let k = t[c].kind;
    ||| k == "if_statement"@
    ||| is_loop(k)
    ||| k == "switch_case"@
    ||| k == "catch_clause"@
    ||| k == "ternary_expression"@
    ||| k == "binary_expression"@ && has_token(t, c, "&&"@, "||"@, "??"@)
}

pub fn decides_at(tree: &SyntaxTree, c: usize) -> (r: bool)
    requires
        c < tree@.len(),
    ensures
        r == decides(tree@, c as int),
{
    tree.is(c, "if_statement") || tree.is(c, "for_statement") || tree.is(c, "for_in_statement")
        || tree.is(c, "while_statement") || tree.is(c, "do_statement") || tree.is(c, "switch_case")
        || tree.is(c, "catch_clause") || tree.is(c, "ternary_expression") || (tree.is(
        c,
        "binary_expression",
    ) && token_kid(tree, c, "&&", "||", "??"))
}

/// What stands inside is nested one level deeper.
pub open spec fn nests(t: Seq<PieceModel>, c: int) -> bool {
    let k = t[c].kind;
    ||| k == "if_statement"@
    ||| is_loop(k)
    ||| k == "switch_statement"@
    ||| k == "catch_clause"@
}

pub fn nests_at(tree: &SyntaxTree, c: usize) -> (r: bool)
    requires
        c < tree@.len(),
    ensures
        r == nests(tree@, c as int),
{
    tree.is(c, "if_statement") || tree.is(c, "for_statement") || tree.is(c, "for_in_statement")
        || tree.is(c, "while_statement") || tree.is(c, "do_statement") || tree.is(
        c,
        "switch_statement",
    ) || tree.is(c, "catch_clause")
}

pub open spec fn is_statement(t: Seq<PieceModel>, c: int) -> bool {
    declares(t[c].kind) || t[c].kind == "expression_statement"@
}

pub open spec fn is_return(t: Seq<PieceModel>, c: int) -> bool {
    t[c].kind == "return_statement"@
}

pub open spec fn is_await(t: Seq<PieceModel>, c: int) -> bool {
    t[c].kind == "await_expression"@
}

/// The node allocates on the heap.
pub open spec fn allocates(t: Seq<PieceModel>, c: int) -> bool {
    t[c].kind == "new_expression"@
}

/// The name of the member that an expression reads, or its last segment.
pub open spec fn member_name(t: Seq<PieceModel>, text: Seq<char>, f: int) -> Seq<char> {
    match field_kid(t, f, "property"@) {
        Some(p) => piece_text(t, text, p),
        None => last_dotted(piece_text(t, text, f)),
    }
}

fn member_short(tree: &SyntaxTree, text: &str, f: usize) -> (r: String)
    requires
        f < tree@.len(),
    ensures
        r@ == member_name(tree@, text@, f as int),
{
    match tree.child_by_field(f, "property") {
        Some(p) => tree.text_of(text, p),
        None => dotted_text(tree.text_of(text, f).as_str()),
    }
}

/// What a call calls.
pub open spec fn callee(t: Seq<PieceModel>, text: Seq<char>, c: int) -> Option<CalleeModel> {
    if t[c].kind == "new_expression"@ {
        match field_kid(t, c, "constructor"@) {
            None => None,
            Some(f) => {
                let short = member_name(t, text, f);
                Some(CalleeModel { kind: CallKind::Associated, path: short, short })
            },
        }
    } else if t[c].kind == "call_expression"@ {
        match field_kid(t, c, "function"@) {
            None => None,
            Some(f) => if t[f].kind == "identifier"@ {
                let short = piece_text(t, text, f);
                Some(CalleeModel { kind: CallKind::Direct, path: short, short })
            } else if t[f].kind == "member_expression"@ {
                let short = member_name(t, text, f);
                Some(CalleeModel { kind: CallKind::Method, path: short, short })
            } else {
                let short = last_dotted(piece_text(t, text, f));
                Some(CalleeModel { kind: CallKind::Direct, path: short, short })
            },
        }
    } else {
        None
    }
}

pub fn callee_of_call(tree: &SyntaxTree, text: &str, c: usize) -> (r: Option<Callee>)
    requires
        c < tree@.len(),
    ensures
        callee_view(r) == callee(tree@, text@, c as int),
{
    if tree.is(c, "new_expression") {
        match tree.child_by_field(c, "constructor") {
            None => None,
            Some(f) => {
                let short = member_short(tree, text, f);
                let path = short.clone();
                Some(Callee { kind: CallKind::Associated, path, short })
            },
        }
    } else if tree.is(c, "call_expression") {
        match tree.child_by_field(c, "function") {
            None => None,
            Some(f) => {
                let (kind, short) = if tree.is(f, "identifier") {
                    (CallKind::Direct, tree.text_of(text, f))
                } else if tree.is(f, "member_expression") {
                    (CallKind::Method, member_short(tree, text, f))
                } else {
                    (CallKind::Direct, dotted_text(tree.text_of(text, f).as_str()))
                };
                let path = short.clone();
                Some(Callee { kind, path, short })
            },
        }
    } else {
        None
    }
}

// -- files --------------------------------------------------------------------------

fn ts_stem_of(name: &str) -> (r: String)
    ensures
        r@ == ts_stem(name@),
{
    if let Some(s) = strip_suffix(name, ".d.ts") {
        return s;
    }
    if let Some(s) = strip_suffix(name, ".tsx") {
        return s;
    }
    if let Some(s) = strip_suffix(name, ".ts") {
        return s;
    }
    if let Some(s) = strip_suffix(name, ".mts") {
        return s;
    }
    if let Some(s) = strip_suffix(name, ".cts") {
        return s;
    }
    if let Some(s) = strip_suffix(name, ".jsx") {
        return s;
    }
    strip_or_keep(name, ".js")
}

/// The module of a TypeScript file.
pub fn module_path_from(path: &str) -> (r: String)
    ensures
        r@ == ts_module(path@),
{
    let comps = normal_components(path);
    let ghost cv = views(comps@);
    let n: usize = comps.len();
    let mut from: usize = 0;
    if n > 0 {
        assert(cv[0] == comps@[0]@);
        if same(comps[0].as_str(), "src") {
            from = 1;
        }
    }
    let ghost below = below_src(cv);
    assert(below =~= cv.skip(from as int));
    if from == n {
        return "module".to_owned();
    }
    assert(below.last() == comps@[n - 1]@);
    let stem = ts_stem_of(comps[n - 1].as_str());
    let mut mods: Vec<String> = Vec::new();
    assert(views(mods@) =~= Seq::empty());
    push_sanitized(&mut mods, &comps, from, n - 1);
    assert(cv.subrange(from as int, n - 1) =~= below.drop_last());
    assert(views(mods@) =~= sanitized_all(below.drop_last()));
    if !same(stem.as_str(), "index") {
        push_view(&mut mods, sanitize(stem.as_str()));
    }
    if mods.len() == 0 {
        "module".to_owned()
    } else {
        join_text(&mods, "::")
    }
}

} // verus!
