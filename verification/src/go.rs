//! Reading Go syntax.

use crate::fragment::CallKind;
use crate::graph::NodeFlags;
use crate::lang::{callee_view, has_token, shape_under, token_kid, Callee, CalleeModel, Shape, ShapeModel};
use crate::naming::{
    dotted_text, go_module, has_upper_start, join_scope, last_dotted, sanitize, scoped, starts_upper,
};
use crate::path::{name_of, stem_text};
use crate::seqs::ints;
use crate::syntax::{field_kid, field_text, named_kids, piece_text, PieceModel, SyntaxTree};
use crate::text::{has_prefix, same, starts_with};
use vstd::prelude::*;

verus! {

// -- definitions ------------------------------------------------------------------

/// The first of the named children of node `i` from the `k`-th on that is of the kind.
pub open spec fn kid_of_kind(t: Seq<PieceModel>, i: int, kind: Seq<char>, k: int) -> Option<int>
    decreases named_kids(t, i).len() - k,
{
    if k < 0 || k >= named_kids(t, i).len() {
        None
    } else if t[named_kids(t, i)[k]].kind == kind {
        Some(named_kids(t, i)[k])
    } else {
        kid_of_kind(t, i, kind, k + 1)
    }
}

fn find_kid(tree: &SyntaxTree, i: usize, kind: &str) -> (r: Option<usize>)
    requires
        i < tree@.len(),
    ensures
        match r {
            Some(c) => kid_of_kind(tree@, i as int, kind@, 0) == Some(c as int) && i < c
                < tree@.len(),
            None => kid_of_kind(tree@, i as int, kind@, 0) is None,
        },
{
    let ghost t = tree@;
    let ks = tree.named_children(i);
    let mut k: usize = 0;
    while k < ks.len()
        invariant
            k <= ks@.len(),
            i < t.len(),
            t == tree@,
            ints(ks@) == named_kids(t, i as int),
            forall|a: int| 0 <= a < ks@.len() ==> i < #[trigger] ks@[a] < t.len(),
            kid_of_kind(t, i as int, kind@, 0) == kid_of_kind(t, i as int, kind@, k as int),
        decreases ks@.len() - k,
    {
        assert(ints(ks@)[k as int] == ks@[k as int]);
        if tree.is(ks[k], kind) {
            return Some(ks[k]);
        }
        k += 1;
    }
    None
}

/// The package that the file declares: in the first package clause that names one.
pub open spec fn package_from(t: Seq<PieceModel>, text: Seq<char>, i: int, k: int) -> Option<Seq<char>>
    decreases named_kids(t, i).len() - k,
{
    if k < 0 || k >= named_kids(t, i).len() {
        None
    } else {
        let c = named_kids(t, i)[k];
        match kid_of_kind(t, c, "package_identifier"@, 0) {
            Some(n) => if t[c].kind == "package_clause"@ {
                Some(piece_text(t, text, n))
            } else {
                package_from(t, text, i, k + 1)
            },
            None => package_from(t, text, i, k + 1),
        }
    }
}

/// The scope of a file: its package, or its stem where it declares none.
pub open spec fn file_scope(t: Seq<PieceModel>, text: Seq<char>, path: Seq<char>) -> Seq<char> {
    match package_from(t, text, 0, 0) {
        Some(p) => p,
        None => go_module(path),
    }
}

pub fn file_scope_of(tree: &SyntaxTree, text: &str, path: &str) -> (r: String)
    requires
        tree@.len() > 0,
    ensures
        r@ == file_scope(tree@, text@, path@),
{
    let ghost t = tree@;
    let ks = tree.named_children(0);
    let mut k: usize = 0;
    while k < ks.len()
        invariant
            k <= ks@.len(),
            t.len() > 0,
            t == tree@,
            ints(ks@) == named_kids(t, 0),
            forall|a: int| 0 <= a < ks@.len() ==> 0 < #[trigger] ks@[a] < t.len(),
            package_from(t, text@, 0, 0) == package_from(t, text@, 0, k as int),
        decreases ks@.len() - k,
    {
        assert(ints(ks@)[k as int] == ks@[k as int]);
        if tree.is(ks[k], "package_clause") {
            if let Some(n) = find_kid(tree, ks[k], "package_identifier") {
                return tree.text_of(text, n);
            }
        }
        k += 1;
    }
    module_path_from(path)
}

/// The base name of a type: without pointers, generic arguments and package.
pub open spec fn base_of_type(t: Seq<PieceModel>, text: Seq<char>, i: int) -> Seq<char>
    decreases t.len() - i,
{
    let k = t[i].kind;
    if k == "type_identifier"@ {
        piece_text(t, text, i)
    } else if k == "pointer_type"@ || k == "generic_type"@ {
        if named_kids(t, i).len() > 0 && i < named_kids(t, i)[0] < t.len() {
            base_of_type(t, text, named_kids(t, i)[0])
        } else {
            Seq::empty()
        }
    } else if k == "qualified_type"@ {
        match field_kid(t, i, "name"@) {
            Some(n) => piece_text(t, text, n),
            None => last_dotted(piece_text(t, text, i)),
        }
    } else {
        last_dotted(piece_text(t, text, i))
    }
}

fn type_base_name(tree: &SyntaxTree, text: &str, i: usize) -> (r: String)
    requires
        i < tree@.len(),
    ensures
        r@ == base_of_type(tree@, text@, i as int),
    decreases tree@.len() - i,
{
    if tree.is(i, "type_identifier") {
        tree.text_of(text, i)
    } else if tree.is(i, "pointer_type") || tree.is(i, "generic_type") {
        let ks = tree.named_children(i);
        if ks.len() > 0 {
            assert(ints(ks@)[0] == ks@[0]);
            type_base_name(tree, text, ks[0])
        } else {
            String::new()
        }
    } else if tree.is(i, "qualified_type") {
        match tree.child_by_field(i, "name") {
            Some(n) => tree.text_of(text, n),
            None => dotted_text(tree.text_of(text, i).as_str()),
        }
    } else {
        dotted_text(tree.text_of(text, i).as_str())
    }
}

/// The type of the first parameter of a receiver list, from the `k`-th child on.
pub open spec fn receiver_from(t: Seq<PieceModel>, text: Seq<char>, r: int, k: int) -> Seq<char>
    decreases named_kids(t, r).len() - k,
{
    if k < 0 || k >= named_kids(t, r).len() {
        Seq::empty()
    } else {
        let p = named_kids(t, r)[k];
        match field_kid(t, p, "type"@) {
            Some(ty) => if t[p].kind == "parameter_declaration"@ {
                base_of_type(t, text, ty)
            } else {
                receiver_from(t, text, r, k + 1)
            },
            None => receiver_from(t, text, r, k + 1),
        }
    }
}

/// The base name of the type that a method belongs to; empty where none is given.
pub open spec fn receiver(t: Seq<PieceModel>, text: Seq<char>, c: int) -> Seq<char> {
    match field_kid(t, c, "receiver"@) {
        Some(r) => receiver_from(t, text, r, 0),
        None => Seq::empty(),
    }
}

fn receiver_type(tree: &SyntaxTree, text: &str, c: usize) -> (r: String)
    requires
        c < tree@.len(),
    ensures
        r@ == receiver(tree@, text@, c as int),
{
    let ghost t = tree@;
    match tree.child_by_field(c, "receiver") {
        Some(recv) => {
            let ks = tree.named_children(recv);
            let mut k: usize = 0;
            while k < ks.len()
                invariant
                    k <= ks@.len(),
                    recv < t.len(),
                    t == tree@,
                    ints(ks@) == named_kids(t, recv as int),
                    forall|a: int| 0 <= a < ks@.len() ==> recv < #[trigger] ks@[a] < t.len(),
                    receiver_from(t, text@, recv as int, 0) == receiver_from(
                        t,
                        text@,
                        recv as int,
                        k as int,
                    ),
                    receiver(t, text@, c as int) == receiver_from(t, text@, recv as int, 0),
                decreases ks@.len() - k,
            {
                assert(ints(ks@)[k as int] == ks@[k as int]);
                if tree.is(ks[k], "parameter_declaration") {
                    if let Some(ty) = tree.child_by_field(ks[k], "type") {
                        return type_base_name(tree, text, ty);
                    }
                }
                k += 1;
            }
            String::new()
        },
        None => String::new(),
    }
}

/// A parameter.
pub open spec fn is_param(t: Seq<PieceModel>) -> spec_fn(int) -> bool {
    |c: int|
        t[c].kind == "parameter_declaration"@ || t[c].kind == "variadic_parameter_declaration"@
}

/// How a node is read when definitions are looked for in `scope`.
pub open spec fn shape(t: Seq<PieceModel>, text: Seq<char>, c: int, scope: Seq<char>) -> ShapeModel {
    let name = field_text(t, text, c, "name"@);
    if t[c].kind == "function_declaration"@ {
        if name.len() == 0 {
            ShapeModel::Skip
        } else {
            ShapeModel::Def { func: c, name, owner: scope, method: false, descend: false }
        }
    } else if t[c].kind == "method_declaration"@ {
        if name.len() == 0 {
            ShapeModel::Skip
        } else {
            ShapeModel::Def {
                func: c,
                name,
                owner: scoped(scope, receiver(t, text, c)),
                method: true,
                descend: false,
            }
        }
    } else {
        ShapeModel::Plain
    }
}

pub fn shape_of(tree: &SyntaxTree, text: &str, c: usize, scope: &str) -> (r: Shape)
    requires
        c < tree@.len(),
    ensures
        r@ == shape(tree@, text@, c as int, scope@),
        shape_under(r@, c as int, tree@.len() as int),
{
    if tree.is(c, "function_declaration") {
        let name = tree.field_text(text, c, "name");
        if name.as_str().is_empty() {
            Shape::Skip
        } else {
            Shape::Def { func: c, name, owner: scope.to_owned(), method: false, descend: false }
        }
    } else if tree.is(c, "method_declaration") {
        let name = tree.field_text(text, c, "name");
        if name.as_str().is_empty() {
            Shape::Skip
        } else {
            let owner = join_scope(scope, receiver_type(tree, text, c).as_str());
            Shape::Def { func: c, name, owner, method: true, descend: false }
        }
    } else {
        Shape::Plain
    }
}

/// The attributes of a function. A leading upper case letter exports a name.
pub open spec fn flags(t: Seq<PieceModel>, func: int, name: Seq<char>, method: bool) -> NodeFlags {
    NodeFlags {
        is_pub: starts_upper(name),
        is_async: false,
        is_unsafe: false,
        is_test: starts_with(name, "Test"@) || starts_with(name, "Benchmark"@),
        is_method: method,
        is_generic: field_kid(t, func, "type_parameters"@) is Some,
        is_exported: false,
    }
}

pub fn flags_of(tree: &SyntaxTree, func: usize, name: &str, method: bool) -> (r: NodeFlags)
    requires
        func < tree@.len(),
    ensures
        r == flags(tree@, func as int, name@, method),
{
    NodeFlags {
        is_pub: has_upper_start(name),
        is_async: false,
        is_unsafe: false,
        is_test: has_prefix(name, "Test") || has_prefix(name, "Benchmark"),
        is_method: method,
        is_generic: tree.child_by_field(func, "type_parameters").is_some(),
        is_exported: false,
    }
}

// -- bodies -------------------------------------------------------------------------

/// A point where the control flow decides.
pub open spec fn decides(t: Seq<PieceModel>, c: int) -> bool {
    let k = t[c].kind;
    ||| k == "if_statement"@
    ||| k == "for_statement"@
    ||| k == "expression_case"@
    ||| k == "type_case"@
    ||| k == "communication_case"@
    ||| k == "binary_expression"@ && has_token(t, c, "&&"@, "||"@, "||"@)
}

pub fn decides_at(tree: &SyntaxTree, c: usize) -> (r: bool)
    requires
        c < tree@.len(),
    ensures
        r == decides(tree@, c as int),
{
    tree.is(c, "if_statement") || tree.is(c, "for_statement") || tree.is(c, "expression_case")
        || tree.is(c, "type_case") || tree.is(c, "communication_case") || (tree.is(
        c,
        "binary_expression",
    ) && token_kid(tree, c, "&&", "||", "||"))
}

/// What stands inside is nested one level deeper.
pub open spec fn nests(t: Seq<PieceModel>, c: int) -> bool {
    let k = t[c].kind;
    ||| k == "if_statement"@
    ||| k == "for_statement"@
    ||| k == "expression_switch_statement"@
    ||| k == "type_switch_statement"@
    ||| k == "select_statement"@
}

pub fn nests_at(tree: &SyntaxTree, c: usize) -> (r: bool)
    requires
        c < tree@.len(),
    ensures
        r == nests(tree@, c as int),
{
    tree.is(c, "if_statement") || tree.is(c, "for_statement") || tree.is(
        c,
        "expression_switch_statement",
    ) || tree.is(c, "type_switch_statement") || tree.is(c, "select_statement")
}

pub open spec fn is_statement(t: Seq<PieceModel>, c: int) -> bool {
    let k = t[c].kind;
    ||| k == "short_var_declaration"@
    ||| k == "assignment_statement"@
    ||| k == "expression_statement"@
    ||| k == "inc_statement"@
    ||| k == "dec_statement"@
    ||| k == "var_declaration"@
    ||| k == "const_declaration"@
    ||| k == "defer_statement"@
    ||| k == "go_statement"@
    ||| k == "send_statement"@
}

pub fn is_statement_at(tree: &SyntaxTree, c: usize) -> (r: bool)
    requires
        c < tree@.len(),
    ensures
        r == is_statement(tree@, c as int),
{
    tree.is(c, "short_var_declaration") || tree.is(c, "assignment_statement") || tree.is(
        c,
        "expression_statement",
    ) || tree.is(c, "inc_statement") || tree.is(c, "dec_statement") || tree.is(c, "var_declaration")
        || tree.is(c, "const_declaration") || tree.is(c, "defer_statement") || tree.is(
        c,
        "go_statement",
    ) || tree.is(c, "send_statement")
}

pub open spec fn is_return(t: Seq<PieceModel>, c: int) -> bool {
    t[c].kind == "return_statement"@
}

/// What a call calls. A method of a value and a function of a package look alike
/// and are both known by their last name.
pub open spec fn callee(t: Seq<PieceModel>, text: Seq<char>, c: int) -> Option<CalleeModel> {
    if t[c].kind != "call_expression"@ {
        None
    } else {
        match field_kid(t, c, "function"@) {
            None => None,
            Some(f) => {
                let whole = piece_text(t, text, f);
                if t[f].kind == "identifier"@ {
                    Some(CalleeModel { kind: CallKind::Direct, path: whole, short: whole })
                } else if t[f].kind == "selector_expression"@ {
                    let short = match field_kid(t, f, "field"@) {
                        Some(n) => piece_text(t, text, n),
                        None => last_dotted(whole),
                    };
                    Some(CalleeModel { kind: CallKind::Method, path: short, short })
                } else {
                    let short = last_dotted(whole);
                    Some(CalleeModel { kind: CallKind::Direct, path: short, short })
                }
            },
        }
    }
}

pub fn callee_of_call(tree: &SyntaxTree, text: &str, c: usize) -> (r: Option<Callee>)
    requires
        c < tree@.len(),
    ensures
        callee_view(r) == callee(tree@, text@, c as int),
{
    if !tree.is(c, "call_expression") {
        return None;
    }
    match tree.child_by_field(c, "function") {
        None => None,
        Some(f) => {
            let whole = tree.text_of(text, f);
            if tree.is(f, "identifier") {
                let short = whole.clone();
                Some(Callee { kind: CallKind::Direct, path: whole, short })
            } else if tree.is(f, "selector_expression") {
                let short = match tree.child_by_field(f, "field") {
                    Some(n) => tree.text_of(text, n),
                    None => dotted_text(whole.as_str()),
                };
                let path = short.clone();
                Some(Callee { kind: CallKind::Method, path, short })
            } else {
                let short = dotted_text(whole.as_str());
                let path = short.clone();
                Some(Callee { kind: CallKind::Direct, path, short })
            }
        },
    }
}

/// The node allocates on the heap: a call of a builtin that does.
pub open spec fn allocates(t: Seq<PieceModel>, text: Seq<char>, c: int) -> bool {
    match callee(t, text, c) {
        Some(x) => x.short == "make"@ || x.short == "new"@ || x.short == "append"@,
        None => false,
    }
}

pub fn allocates_at(tree: &SyntaxTree, text: &str, c: usize) -> (r: bool)
    requires
        c < tree@.len(),
    ensures
        r == allocates(tree@, text@, c as int),
{
    match callee_of_call(tree, text, c) {
        Some(x) => {
            let s = x.short.as_str();
            same(s, "make") || same(s, "new") || same(s, "append")
        },
        None => false,
    }
}

// -- files --------------------------------------------------------------------------

/// The module of a Go file that names no package.
pub fn module_path_from(path: &str) -> (r: String)
    ensures
        r@ == go_module(path@),
{
    match name_of(path) {
        Some(name) => sanitize(stem_text(name.as_str()).as_str()),
        None => "main".to_owned(),
    }
}

} // verus!
