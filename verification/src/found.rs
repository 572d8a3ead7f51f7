//! Which functions of a tree are found, and which calls are laid to them. Where a node
//! stands is told from the depths of the nodes alone, and what it is from its kind.

use crate::bodies::{
    body_at, call_at, kin, lemma_body, lemma_kids_are_kin, lemma_scan_calls_parts,
    lemma_some_kid, part_calls, part_of,
};
use crate::fragment::CallModel;
use crate::graph::{NodeKind, SourceSpan};
use crate::lang::{Lang, ShapeModel};
use crate::naming::scoped;
use crate::seqs::{flat, gather, lemma_gather_has};
use crate::syntax::{end_of, field_kid, field_text, lemma_end_from, lemma_named_kids, named_kids, PieceModel};
use crate::walk::{
    callee, def_model, file_scope, found_calls, found_calls_at, found_calls_kids, found_defs,
    found_defs_at, found_defs_kids, shape, site_module, stats, unit_of, DefModel, SiteModel,
};
use vstd::prelude::*;

verus! {

// -- what is looked at ----------------------------------------------------------------

/// The kinds of nodes that are a scope of their own and no function: modules, traits and
/// implementations in Rust, classes in Python and TypeScript.
pub open spec fn scope_kind(lang: Lang, k: Seq<char>) -> bool {
    match lang {
        Lang::Rust => k == "mod_item"@ || k == "trait_item"@ || k == "impl_item"@,
        Lang::Go => false,
        Lang::Python => k == "class_definition"@,
        Lang::TypeScript => k == "class_declaration"@ || k == "abstract_class_declaration"@,
    }
}

/// The kinds of nodes that are functions with a name of their own.
pub open spec fn function_kind(lang: Lang, k: Seq<char>) -> bool {
    match lang {
        Lang::Rust => k == "function_item"@ || k == "function_signature_item"@,
        Lang::Go => k == "function_declaration"@ || k == "method_declaration"@,
        Lang::Python => k == "function_definition"@,
        Lang::TypeScript => {
            ||| k == "function_declaration"@
            ||| k == "generator_function_declaration"@
            ||| k == "function_expression"@
            ||| k == "method_definition"@
        },
    }
}

/// Node `q` declares variables, in TypeScript.
pub open spec fn declaring(lang: Lang, t: Seq<PieceModel>, q: int) -> bool {
    lang == Lang::TypeScript && (t[q].kind == "lexical_declaration"@ || t[q].kind
        == "variable_declaration"@)
}

/// Node `c`, a child of `q`, gives its name to a function that stands in it as a value:
/// a variable where `q` declares some, a field elsewhere.
pub open spec fn names_value(lang: Lang, t: Seq<PieceModel>, q: int, c: int) -> bool {
    lang == Lang::TypeScript && if declaring(lang, t, q) {
        t[c].kind == "variable_declarator"@
    } else {
        t[c].kind == "public_field_definition"@
    }
}

/// Node `v` is the value of node `c`.
pub open spec fn value_at(t: Seq<PieceModel>, c: int, v: int) -> bool {
    &&& kin(t, c, v)
    &&& t[v].field == "value"@
    &&& forall|x: int| #[trigger] kin(t, c, x) && x < v ==> t[x].field != "value"@
}

/// The function at node `func` is defined by node `c`, a child of `q`: it is that node, or
/// the value that the node gives its name to. The name is not empty.
pub open spec fn defined_at(
    lang: Lang,
    t: Seq<PieceModel>,
    text: Seq<char>,
    q: int,
    c: int,
    func: int,
) -> bool {
    field_text(t, text, c, "name"@).len() > 0 && {
        ||| func == c && function_kind(lang, t[c].kind) && !declaring(lang, t, q)
        ||| names_value(lang, t, q, c) && value_at(t, c, func) && (t[func].kind
            == "arrow_function"@ || t[func].kind == "function_expression"@)
    }
}

/// The children of node `v` are looked at because node `c`, a child of `q`, is: it is an
/// ordinary node and `v` is that node, or `v` is the body of the scope or the function that
/// it is. Go functions are not looked into.
pub open spec fn leads(
    lang: Lang,
    t: Seq<PieceModel>,
    text: Seq<char>,
    q: int,
    c: int,
    v: int,
) -> bool {
    ||| v == c && !declaring(lang, t, q) && !scope_kind(lang, t[c].kind) && !function_kind(
        lang,
        t[c].kind,
    ) && !names_value(lang, t, q, c)
    ||| !declaring(lang, t, q) && scope_kind(lang, t[c].kind) && body_at(t, c, v)
    ||| lang != Lang::Go && exists|func: int| #[trigger]
        defined_at(lang, t, text, q, c, func) && body_at(t, func, v)
}

/// The children of node `v` are looked at when those of node `i` are.
pub open spec fn looked_at(
    lang: Lang,
    t: Seq<PieceModel>,
    text: Seq<char>,
    i: int,
    v: int,
) -> bool
    decreases v,
{
    v == i || exists|q: int, c: int|
        #![trigger kin(t, q, c), leads(lang, t, text, q, c, v)]
        i <= q < v && kin(t, q, c) && t[c].named && leads(lang, t, text, q, c, v) && looked_at(
            lang,
            t,
            text,
            i,
            q,
        )
}

/// A function is found when the children of node `i` are looked at.
pub open spec fn met(lang: Lang, t: Seq<PieceModel>, text: Seq<char>, i: int, func: int) -> bool {
    exists|q: int, c: int|
        #![trigger kin(t, q, c), defined_at(lang, t, text, q, c, func)]
        looked_at(lang, t, text, i, q) && kin(t, q, c) && t[c].named && defined_at(
            lang,
            t,
            text,
            q,
            c,
            func,
        )
}

// -- names ----------------------------------------------------------------------------

/// The name within the scope.
pub open spec fn under(scope: Seq<char>, name: Seq<char>) -> Seq<char> {
    if scope.len() == 0 {
        name
    } else if name.len() == 0 {
        scope
    } else {
        scope + "::"@ + name
    }
}

/// In what scope the children of node `v` stand, that are looked at because node `c` is,
/// which itself stands in the scope `s`. An ordinary node makes no scope; a function makes
/// one of its name, and so does a scope; a Rust implementation makes that of its type.
pub open spec fn scope_in(
    lang: Lang,
    t: Seq<PieceModel>,
    text: Seq<char>,
    c: int,
    s: Seq<char>,
    v: int,
) -> Seq<char> {
    if v == c {
        s
    } else if lang == Lang::Rust && t[c].kind == "impl_item"@ {
        under(s, crate::rust::impl_name(t, text, c))
    } else {
        under(s, field_text(t, text, c, "name"@))
    }
}

/// The children of node `v`, looked at when those of node `i` are, stand in the scope `s`,
/// where those of `i` stand in `scope`.
pub open spec fn lies(
    lang: Lang,
    t: Seq<PieceModel>,
    text: Seq<char>,
    i: int,
    scope: Seq<char>,
    v: int,
    s: Seq<char>,
) -> bool
    decreases v,
{
    (v == i && s == scope) || exists|q: int, c: int, outer: Seq<char>|
        #![trigger kin(t, q, c), leads(lang, t, text, q, c, v), scope_in(lang, t, text, c, outer, v)]
        i <= q < v && kin(t, q, c) && t[c].named && leads(lang, t, text, q, c, v) && lies(
            lang,
            t,
            text,
            i,
            scope,
            q,
            outer,
        ) && s == scope_in(lang, t, text, c, outer, v)
}

/// The function takes a `self`.
pub open spec fn with_self(t: Seq<PieceModel>, func: int) -> bool {
    exists|p: int, x: int|
        #![trigger kin(t, func, p), kin(t, p, x)]
        kin(t, func, p) && t[p].field == "parameters"@ && (forall|y: int| #[trigger]
            kin(t, func, y) && y < p ==> t[y].field != "parameters"@) && kin(t, p, x) && t[x].named
            && t[x].kind == "self_parameter"@
}

/// The function at node `func`, defined by node `c`, is a method: in Rust it takes a
/// `self`, in Go it is declared as one, in TypeScript it is a method or a field.
pub open spec fn is_method(lang: Lang, t: Seq<PieceModel>, c: int, func: int) -> bool {
    match lang {
        Lang::Rust => with_self(t, func),
        Lang::Go => t[c].kind == "method_declaration"@,
        Lang::Python => crate::python::in_class(t, func),
        Lang::TypeScript => t[c].kind == "method_definition"@ || t[c].kind
            == "public_field_definition"@,
    }
}

/// The definition of the function at node `func` has its name and stands in its scope. A
/// Go method stands in the scope of its receiver.
pub open spec fn named_as(
    lang: Lang,
    t: Seq<PieceModel>,
    text: Seq<char>,
    i: int,
    scope: Seq<char>,
    func: int,
    d: DefModel,
) -> bool {
    exists|q: int, c: int, s: Seq<char>|
        #![trigger defined_at(lang, t, text, q, c, func), lies(lang, t, text, i, scope, q, s)]
        {
            &&& lies(lang, t, text, i, scope, q, s)
            &&& kin(t, q, c)
            &&& t[c].named
            &&& defined_at(lang, t, text, q, c, func)
            &&& d.key == field_text(t, text, c, "name"@)
            &&& d.node.module == if lang == Lang::Go && t[c].kind == "method_declaration"@ {
                under(s, crate::go::receiver(t, text, c))
            } else {
                s
            }
            &&& d.node.kind == if is_method(lang, t, c, func) {
                NodeKind::Method
            } else {
                NodeKind::Function
            }
        }
}

// -- what is found --------------------------------------------------------------------

/// A definition as it is entered for the function at node `func`: its name, and where it
/// stands. Its qualified name is its own after that of the scope.
pub open spec fn entered_as(
    lang: Lang,
    t: Seq<PieceModel>,
    text: Seq<char>,
    func: int,
    d: DefModel,
) -> bool {
    &&& d.key.len() > 0
    &&& d.node.qualified_name == if d.node.module.len() == 0 {
        d.key
    } else {
        d.node.module + "::"@ + d.key
    }
    &&& d.node.kind == NodeKind::Function || d.node.kind == NodeKind::Method
    &&& d.node.span == (SourceSpan {
        file: 0,
        start_line: (t[func].start_row + 1) as u32,
        start_col: t[func].start_col,
        end_line: (t[func].end_row + 1) as u32,
        end_col: t[func].end_col,
    })
    &&& d.node.stats == stats(lang, t, text, func)
}

/// The calls of a definition are those that are part of the body of its function, in the
/// order in which they stand there. They are made from the module that the definition
/// stands in.
pub open spec fn calls_of(
    lang: Lang,
    t: Seq<PieceModel>,
    text: Seq<char>,
    func: int,
    d: DefModel,
    calls: Seq<SiteModel>,
) -> bool {
    &&& forall|b: int| #[trigger]
        body_at(t, func, b) ==> exists|module: Seq<char>|
            calls == gather(
                t.len() as int,
                #[trigger] part_calls(lang, t, text, b, d.node.qualified_name, module),
            ) && (lang != Lang::TypeScript ==> module == d.node.module) && (lang
                == Lang::TypeScript ==> module == crate::typescript::module_of(
                d.node.qualified_name,
            ))
    &&& (forall|b: int| !#[trigger] body_at(t, func, b)) ==> calls.len() == 0
}

/// What is found when the children of node `i` are looked at: the functions, in the order
/// in which they stand, and the calls of each.
spec fn told(
    lang: Lang,
    t: Seq<PieceModel>,
    text: Seq<char>,
    defs: Seq<DefModel>,
    calls: Seq<SiteModel>,
    funcs: Seq<int>,
    lists: Seq<Seq<SiteModel>>,
) -> bool {
    &&& funcs.len() == defs.len()
    &&& lists.len() == defs.len()
    &&& forall|j: int| 0 <= j < defs.len() ==> entered_as(lang, t, text, #[trigger] funcs[j], defs[j])
    &&& forall|j: int|
        0 <= j < defs.len() ==> calls_of(lang, t, text, #[trigger] funcs[j], defs[j], lists[j])
    &&& calls == flat(lists)
    &&& forall|a: int, b: int| 0 <= a < b < funcs.len() ==> funcs[a] < funcs[b]
}

proof fn lemma_flat_add<T>(a: Seq<Seq<T>>, b: Seq<Seq<T>>)
    ensures
        flat(a + b) == flat(a) + flat(b),
    decreases b.len(),
{
    if b.len() > 0 {
        lemma_flat_add(a, b.drop_last());
        assert((a + b).drop_last() =~= a + b.drop_last());
        assert(flat(a + b) =~= flat(a) + flat(b));
    } else {
        assert(a + b =~= a);
        assert(flat(a) + flat(b) =~= flat(a));
    }
}

proof fn lemma_told_add(
    lang: Lang,
    t: Seq<PieceModel>,
    text: Seq<char>,
    d1: Seq<DefModel>,
    c1: Seq<SiteModel>,
    f1: Seq<int>,
    l1: Seq<Seq<SiteModel>>,
    d2: Seq<DefModel>,
    c2: Seq<SiteModel>,
    f2: Seq<int>,
    l2: Seq<Seq<SiteModel>>,
    m: int,
)
    requires
        told(lang, t, text, d1, c1, f1, l1),
        told(lang, t, text, d2, c2, f2, l2),
        forall|a: int| 0 <= a < f1.len() ==> #[trigger] f1[a] < m,
        forall|a: int| 0 <= a < f2.len() ==> m <= #[trigger] f2[a],
    ensures
        told(lang, t, text, d1 + d2, c1 + c2, f1 + f2, l1 + l2),
        forall|x: int| #[trigger] (f1 + f2).contains(x) <==> f1.contains(x) || f2.contains(x),
{
    lemma_flat_add(l1, l2);
    let f = f1 + f2;
    let d = d1 + d2;
    let l = l1 + l2;
    assert forall|j: int| 0 <= j < d.len() implies entered_as(lang, t, text, #[trigger] f[j], d[j])
        && calls_of(lang, t, text, f[j], d[j], l[j]) by {
        if j < d1.len() {
            assert(f[j] == f1[j]);
        } else {
            assert(f[j] == f2[j - d1.len()]);
        }
    }
    assert forall|x: int| #[trigger] f.contains(x) <==> f1.contains(x) || f2.contains(x) by {
        if f1.contains(x) {
            assert(f[f1.index_of(x)] == x);
        }
        if f2.contains(x) {
            assert(f[f1.len() + f2.index_of(x)] == x);
        }
        if f.contains(x) {
            let k = f.index_of(x);
            if k < f1.len() {
                assert(f1[k] == x);
            } else {
                assert(f2[k - f1.len()] == x);
            }
        }
    }
}

proof fn lemma_kin_end(t: Seq<PieceModel>, p: int, c: int)
    requires
        kin(t, p, c),
    ensures
        p < c < end_of(t, c) <= end_of(t, p) <= t.len(),
{
    lemma_end_from(t, p, p + 1);
    lemma_end_from(t, c, c + 1);
    if c >= end_of(t, p) {
        assert(t[end_of(t, p)].depth > t[p].depth);
    }
    if end_of(t, c) > end_of(t, p) {
        assert(t[end_of(t, p)].depth > t[c].depth);
    }
}

proof fn lemma_kinds_differ()
    ensures
        forall|lang: Lang, k: Seq<char>|
            #![trigger scope_kind(lang, k)]
            #![trigger function_kind(lang, k)]
            !(scope_kind(lang, k) && function_kind(lang, k)),
        !scope_kind(Lang::TypeScript, "public_field_definition"@),
        !function_kind(Lang::TypeScript, "public_field_definition"@),
        "mod_item"@ != "impl_item"@,
        "trait_item"@ != "impl_item"@,
        "function_item"@ != "impl_item"@,
        "function_signature_item"@ != "impl_item"@,
        "function_declaration"@ != "method_declaration"@,
        "function_declaration"@ != "method_definition"@,
        "function_declaration"@ != "public_field_definition"@,
        "generator_function_declaration"@ != "method_definition"@,
        "generator_function_declaration"@ != "public_field_definition"@,
        "function_expression"@ != "method_definition"@,
        "function_expression"@ != "public_field_definition"@,
        "variable_declarator"@ != "method_definition"@,
        "variable_declarator"@ != "public_field_definition"@,
{
    reveal_strlit("method_declaration");
    reveal_strlit("variable_declarator");
    assert("method_declaration"@.len() == 18);
    assert("variable_declarator"@.len() == 19);
    reveal_strlit("mod_item");
    reveal_strlit("trait_item");
    reveal_strlit("impl_item");
    reveal_strlit("function_item");
    reveal_strlit("function_signature_item");
    reveal_strlit("class_declaration");
    reveal_strlit("abstract_class_declaration");
    reveal_strlit("class_definition");
    reveal_strlit("function_definition");
    reveal_strlit("function_declaration");
    reveal_strlit("generator_function_declaration");
    reveal_strlit("function_expression");
    reveal_strlit("method_definition");
    reveal_strlit("public_field_definition");
    assert("class_declaration"@[0] == 'c');
    assert("method_definition"@[0] == 'm');
    assert("mod_item"@.len() == 8);
    assert("trait_item"@.len() == 10);
    assert("impl_item"@.len() == 9);
    assert("function_item"@.len() == 13);
    assert("function_signature_item"@.len() == 23);
    assert("class_declaration"@.len() == 17);
    assert("abstract_class_declaration"@.len() == 26);
    assert("class_definition"@.len() == 16);
    assert("function_definition"@.len() == 19);
    assert("function_declaration"@.len() == 20);
    assert("generator_function_declaration"@.len() == 30);
    assert("function_expression"@.len() == 19);
    assert("method_definition"@.len() == 17);
    assert("public_field_definition"@.len() == 23);
}

/// How a child of node `i` is read, told from its kind.
#[verifier::spinoff_prover]
#[verifier::rlimit(60)]
proof fn lemma_shape(
    lang: Lang,
    t: Seq<PieceModel>,
    text: Seq<char>,
    i: int,
    c: int,
    scope: Seq<char>,
)
    requires
        kin(t, i, c),
    ensures
        match shape(lang, t, text, i, c, scope) {
            ShapeModel::Skip => {
                &&& forall|f: int| !#[trigger] defined_at(lang, t, text, i, c, f)
                &&& forall|v: int| !#[trigger] leads(lang, t, text, i, c, v)
            },
            ShapeModel::Plain => {
                &&& forall|f: int| !#[trigger] defined_at(lang, t, text, i, c, f)
                &&& forall|v: int| #[trigger] leads(lang, t, text, i, c, v) <==> v == c
            },
            ShapeModel::Enter { body, scope: inner } => {
                &&& forall|f: int| !#[trigger] defined_at(lang, t, text, i, c, f)
                &&& body == field_kid(t, c, "body"@)
                &&& forall|v: int| #[trigger] leads(lang, t, text, i, c, v) <==> body == Some(v)
            },
            ShapeModel::Def { func, name, owner, method, descend } => {
                &&& c <= func < end_of(t, c)
                &&& end_of(t, func) <= end_of(t, c)
                &&& forall|f: int| #[trigger] defined_at(lang, t, text, i, c, f) <==> f == func
                &&& name.len() > 0
                &&& descend == (lang != Lang::Go)
                &&& forall|v: int| #[trigger]
                    leads(lang, t, text, i, c, v) <==> descend && field_kid(t, func, "body"@)
                        == Some(v)
            },
        },
{
    lemma_body(t, c, "body"@);
    lemma_body(t, c, "value"@);
    lemma_kin_end(t, i, c);
    if let Some(v) = field_kid(t, c, "value"@) {
        lemma_body(t, v, "body"@);
        lemma_kin_end(t, c, v);
    }
    lemma_kinds_differ();
    let s = shape(lang, t, text, i, c, scope);
    match s {
        ShapeModel::Def { func, name, owner, method, descend } => {
            assert(defined_at(lang, t, text, i, c, func));
            assert forall|f: int| #[trigger] defined_at(lang, t, text, i, c, f) implies f == func by {}
            assert forall|v: int| #[trigger] leads(lang, t, text, i, c, v) <==> descend
                && field_kid(t, func, "body"@) == Some(v) by {
                if descend && field_kid(t, func, "body"@) == Some(v) {
                    assert(body_at(t, func, v));
                }
            }
        },
        _ => {
            assert forall|f: int| !#[trigger] defined_at(lang, t, text, i, c, f) by {}
        },
    }
}


proof fn lemma_with_self(t: Seq<PieceModel>, func: int)
    requires
        0 <= func < t.len(),
    ensures
        crate::rust::takes_self(t, func) == with_self(t, func),
{
    lemma_body(t, func, "parameters"@);
    match field_kid(t, func, "parameters"@) {
        Some(p) => {
            let f = |c: int| t[c].kind == "self_parameter"@;
            lemma_some_kid(t, p, f);
            if crate::rust::takes_self(t, func) {
                let x = choose|x: int| #[trigger] kin(t, p, x) && t[x].named && f(x);
                assert(kin(t, func, p) && kin(t, p, x));
            }
            if with_self(t, func) {
                let (a, x) = choose|a: int, x: int|
                    #![trigger kin(t, func, a), kin(t, a, x)]
                    kin(t, func, a) && t[a].field == "parameters"@ && (forall|y: int| #[trigger]
                        kin(t, func, y) && y < a ==> t[y].field != "parameters"@) && kin(t, a, x)
                        && t[x].named && t[x].kind == "self_parameter"@;
                assert(a == p);
                assert(kin(t, p, x) && f(x));
            }
        },
        None => {},
    }
}

/// What names the reading of a child of node `i` gives.
#[verifier::spinoff_prover]
#[verifier::rlimit(60)]
proof fn lemma_shape_names(
    lang: Lang,
    t: Seq<PieceModel>,
    text: Seq<char>,
    i: int,
    c: int,
    scope: Seq<char>,
)
    requires
        kin(t, i, c),
    ensures
        match shape(lang, t, text, i, c, scope) {
            ShapeModel::Enter { body, scope: inner } => forall|b: int|
                b != c ==> inner == #[trigger] scope_in(lang, t, text, c, scope, b),
            ShapeModel::Def { func, name, owner, method, descend } => {
                &&& name == field_text(t, text, c, "name"@)
                &&& owner == if lang == Lang::Go && t[c].kind == "method_declaration"@ {
                    under(scope, crate::go::receiver(t, text, c))
                } else {
                    scope
                }
                &&& method == is_method(lang, t, c, func)
                &&& forall|b: int|
                    b != c && lang != Lang::Go ==> under(owner, name) == #[trigger] scope_in(
                        lang,
                        t,
                        text,
                        c,
                        scope,
                        b,
                    )
            },
            _ => true,
        },
{
    lemma_kinds_differ();
    lemma_with_self(t, c);
}

// -- step by step ---------------------------------------------------------------------

/// A function is found at node `c`, a child of `i`, or further in.
spec fn met_at(
    lang: Lang,
    t: Seq<PieceModel>,
    text: Seq<char>,
    i: int,
    c: int,
    func: int,
) -> bool {
    defined_at(lang, t, text, i, c, func) || exists|v: int| #[trigger]
        leads(lang, t, text, i, c, v) && met(lang, t, text, v, func)
}

proof fn lemma_leads_down(
    lang: Lang,
    t: Seq<PieceModel>,
    text: Seq<char>,
    i: int,
    c: int,
    v: int,
)
    requires
        kin(t, i, c),
        leads(lang, t, text, i, c, v),
    ensures
        c <= v < t.len(),
{
    if lang != Lang::Go && exists|func: int| #[trigger]
        defined_at(lang, t, text, i, c, func) && body_at(t, func, v) {
        let func = choose|func: int| #[trigger]
            defined_at(lang, t, text, i, c, func) && body_at(t, func, v);
        assert(kin(t, func, v));
    }
}

proof fn lemma_looked_top(
    lang: Lang,
    t: Seq<PieceModel>,
    text: Seq<char>,
    i: int,
    v: int,
) -> (r: (int, int))
    requires
        looked_at(lang, t, text, i, v),
        v != i,
    ensures
        kin(t, i, r.0),
        t[r.0].named,
        leads(lang, t, text, i, r.0, r.1),
        looked_at(lang, t, text, r.1, v),
    decreases v,
{
    let (q, c) = choose|q: int, c: int|
        #![trigger kin(t, q, c), leads(lang, t, text, q, c, v)]
        i <= q < v && kin(t, q, c) && t[c].named && leads(lang, t, text, q, c, v) && looked_at(
            lang,
            t,
            text,
            i,
            q,
        );
    if q == i {
        (c, v)
    } else {
        let r = lemma_looked_top(lang, t, text, i, q);
        assert(kin(t, q, c) && leads(lang, t, text, q, c, v));
        r
    }
}

proof fn lemma_looked_up(
    lang: Lang,
    t: Seq<PieceModel>,
    text: Seq<char>,
    i: int,
    c: int,
    w: int,
    v: int,
)
    requires
        kin(t, i, c),
        t[c].named,
        leads(lang, t, text, i, c, w),
        looked_at(lang, t, text, w, v),
    ensures
        looked_at(lang, t, text, i, v),
    decreases v,
{
    lemma_leads_down(lang, t, text, i, c, w);
    if v == w {
        assert(looked_at(lang, t, text, i, i));
        assert(kin(t, i, c) && leads(lang, t, text, i, c, v));
    } else {
        let (q, d) = choose|q: int, d: int|
            #![trigger kin(t, q, d), leads(lang, t, text, q, d, v)]
            w <= q < v && kin(t, q, d) && t[d].named && leads(lang, t, text, q, d, v) && looked_at(
                lang,
                t,
                text,
                w,
                q,
            );
        lemma_looked_up(lang, t, text, i, c, w, q);
        assert(kin(t, q, d) && leads(lang, t, text, q, d, v));
    }
}

proof fn lemma_met_step(lang: Lang, t: Seq<PieceModel>, text: Seq<char>, i: int, func: int)
    ensures
        met(lang, t, text, i, func) <==> exists|c: int| #[trigger]
            kin(t, i, c) && t[c].named && met_at(lang, t, text, i, c, func),
{
    if met(lang, t, text, i, func) {
        let (q, c) = choose|q: int, c: int|
            #![trigger kin(t, q, c), defined_at(lang, t, text, q, c, func)]
            looked_at(lang, t, text, i, q) && kin(t, q, c) && t[c].named && defined_at(
                lang,
                t,
                text,
                q,
                c,
                func,
            );
        if q == i {
            assert(kin(t, i, c) && met_at(lang, t, text, i, c, func));
        } else {
            let (d, w) = lemma_looked_top(lang, t, text, i, q);
            assert(met(lang, t, text, w, func)) by {
                assert(kin(t, q, c) && defined_at(lang, t, text, q, c, func));
            }
            assert(kin(t, i, d) && met_at(lang, t, text, i, d, func));
        }
    }
    if exists|c: int| #[trigger]
        kin(t, i, c) && t[c].named && met_at(lang, t, text, i, c, func) {
        let c = choose|c: int| #[trigger]
            kin(t, i, c) && t[c].named && met_at(lang, t, text, i, c, func);
        if defined_at(lang, t, text, i, c, func) {
            assert(looked_at(lang, t, text, i, i));
            assert(kin(t, i, c) && defined_at(lang, t, text, i, c, func));
        } else {
            let v = choose|v: int| #[trigger]
                leads(lang, t, text, i, c, v) && met(lang, t, text, v, func);
            let (q, d) = choose|q: int, d: int|
                #![trigger kin(t, q, d), defined_at(lang, t, text, q, d, func)]
                looked_at(lang, t, text, v, q) && kin(t, q, d) && t[d].named && defined_at(
                    lang,
                    t,
                    text,
                    q,
                    d,
                    func,
                );
            lemma_looked_up(lang, t, text, i, c, v, q);
            assert(kin(t, q, d) && defined_at(lang, t, text, q, d, func));
        }
    }
}

proof fn lemma_lies_up(
    lang: Lang,
    t: Seq<PieceModel>,
    text: Seq<char>,
    i: int,
    scope: Seq<char>,
    c: int,
    w: int,
    v: int,
    s: Seq<char>,
)
    requires
        kin(t, i, c),
        t[c].named,
        leads(lang, t, text, i, c, w),
        lies(lang, t, text, w, scope_in(lang, t, text, c, scope, w), v, s),
    ensures
        lies(lang, t, text, i, scope, v, s),
    decreases v,
{
    lemma_leads_down(lang, t, text, i, c, w);
    let first = scope_in(lang, t, text, c, scope, w);
    if v == w && s == first {
        assert(lies(lang, t, text, i, scope, i, scope));
        assert(kin(t, i, c) && leads(lang, t, text, i, c, v));
        assert(s == scope_in(lang, t, text, c, scope, v));
    } else {
        let (q, d, outer) = choose|q: int, d: int, outer: Seq<char>|
            #![trigger kin(t, q, d), leads(lang, t, text, q, d, v), scope_in(lang, t, text, d, outer, v)]
            w <= q < v && kin(t, q, d) && t[d].named && leads(lang, t, text, q, d, v) && lies(
                lang,
                t,
                text,
                w,
                first,
                q,
                outer,
            ) && s == scope_in(lang, t, text, d, outer, v);
        lemma_lies_up(lang, t, text, i, scope, c, w, q, outer);
        assert(kin(t, q, d) && leads(lang, t, text, q, d, v));
        assert(s == scope_in(lang, t, text, d, outer, v));
    }
}

proof fn lemma_named_up(
    lang: Lang,
    t: Seq<PieceModel>,
    text: Seq<char>,
    i: int,
    scope: Seq<char>,
    c: int,
    w: int,
    funcs: Seq<int>,
    defs: Seq<DefModel>,
)
    requires
        kin(t, i, c),
        t[c].named,
        leads(lang, t, text, i, c, w),
        funcs.len() == defs.len(),
        all_named(lang, t, text, w, scope_in(lang, t, text, c, scope, w), funcs, defs),
    ensures
        all_named(lang, t, text, i, scope, funcs, defs),
{
    let inner = scope_in(lang, t, text, c, scope, w);
    assert forall|j: int| 0 <= j < funcs.len() implies named_as(
        lang,
        t,
        text,
        i,
        scope,
        #[trigger] funcs[j],
        defs[j],
    ) by {
        let func = funcs[j];
        let d = defs[j];
        assert(named_as(lang, t, text, w, inner, funcs[j], d));
        let (q, e, s) = choose|q: int, e: int, s: Seq<char>|
            #![trigger defined_at(lang, t, text, q, e, func), lies(lang, t, text, w, inner, q, s)]
            {
                &&& lies(lang, t, text, w, inner, q, s)
                &&& kin(t, q, e)
                &&& t[e].named
                &&& defined_at(lang, t, text, q, e, func)
                &&& d.key == field_text(t, text, e, "name"@)
                &&& d.node.module == if lang == Lang::Go && t[e].kind == "method_declaration"@ {
                    under(s, crate::go::receiver(t, text, e))
                } else {
                    s
                }
                &&& d.node.kind == if is_method(lang, t, e, func) {
                    NodeKind::Method
                } else {
                    NodeKind::Function
                }
            };
        lemma_lies_up(lang, t, text, i, scope, c, w, q, s);
        assert(defined_at(lang, t, text, q, e, func) && lies(lang, t, text, i, scope, q, s));
    }
}

/// Every function has its name and stands in its scope.
spec fn all_named(
    lang: Lang,
    t: Seq<PieceModel>,
    text: Seq<char>,
    i: int,
    scope: Seq<char>,
    funcs: Seq<int>,
    defs: Seq<DefModel>,
) -> bool {
    forall|j: int|
        0 <= j < funcs.len() ==> named_as(
            lang,
            t,
            text,
            i,
            scope,
            #[trigger] funcs[j],
            defs[j],
        )
}

proof fn lemma_named_add(
    lang: Lang,
    t: Seq<PieceModel>,
    text: Seq<char>,
    i: int,
    scope: Seq<char>,
    f1: Seq<int>,
    d1: Seq<DefModel>,
    f2: Seq<int>,
    d2: Seq<DefModel>,
)
    requires
        f1.len() == d1.len(),
        f2.len() == d2.len(),
        all_named(lang, t, text, i, scope, f1, d1),
        all_named(lang, t, text, i, scope, f2, d2),
    ensures
        all_named(lang, t, text, i, scope, f1 + f2, d1 + d2),
{
    let f = f1 + f2;
    let d = d1 + d2;
    assert forall|j: int| 0 <= j < f.len() implies named_as(
        lang,
        t,
        text,
        i,
        scope,
        #[trigger] f[j],
        d[j],
    ) by {
        if j < f1.len() {
            assert(f[j] == f1[j] && d[j] == d1[j]);
        } else {
            assert(f[j] == f2[j - f1.len()] && d[j] == d2[j - f1.len()]);
        }
    }
}

proof fn lemma_found(
    lang: Lang,
    t: Seq<PieceModel>,
    text: Seq<char>,
    i: int,
    scope: Seq<char>,
) -> (r: (Seq<int>, Seq<Seq<SiteModel>>))
    requires
        0 <= i < t.len(),
    ensures
        told(
            lang,
            t,
            text,
            found_defs(lang, t, text, i, scope),
            found_calls(lang, t, text, i, scope),
            r.0,
            r.1,
        ),
        forall|a: int| 0 <= a < r.0.len() ==> i < #[trigger] r.0[a] < end_of(t, i),
        forall|x: int| #[trigger] r.0.contains(x) <==> met(lang, t, text, i, x),
        all_named(lang, t, text, i, scope, r.0, found_defs(lang, t, text, i, scope)),
    decreases t.len() - i, 2nat, 0int,
{
    let ns = named_kids(t, i);
    let n = ns.len() as int;
    lemma_named_kids(t, i);
    let r = lemma_found_kids(lang, t, text, i, scope, n);
    assert forall|x: int| #[trigger] r.0.contains(x) <==> met(lang, t, text, i, x) by {
        lemma_met_step(lang, t, text, i, x);
        if r.0.contains(x) {
            let a = choose|a: int| 0 <= a < n && met_at(lang, t, text, i, #[trigger] ns[a], x);
            assert(ns.contains(ns[a]));
            lemma_kids_are_kin(t, i, ns[a]);
            assert(kin(t, i, ns[a]) && met_at(lang, t, text, i, ns[a], x));
        }
        if met(lang, t, text, i, x) {
            let c = choose|c: int| #[trigger]
                kin(t, i, c) && t[c].named && met_at(lang, t, text, i, c, x);
            lemma_kids_are_kin(t, i, c);
            let a = ns.index_of(c);
            assert(ns[a] == c);
        }
    }
    if n > 0 {
        assert(end_of(t, ns[n - 1]) <= end_of(t, i));
    }
    r
}

proof fn lemma_found_kids(
    lang: Lang,
    t: Seq<PieceModel>,
    text: Seq<char>,
    i: int,
    scope: Seq<char>,
    k: int,
) -> (r: (Seq<int>, Seq<Seq<SiteModel>>))
    requires
        0 <= i < t.len(),
        0 <= k <= named_kids(t, i).len(),
    ensures
        told(
            lang,
            t,
            text,
            found_defs_kids(lang, t, text, i, scope, k),
            found_calls_kids(lang, t, text, i, scope, k),
            r.0,
            r.1,
        ),
        forall|a: int|
            0 <= a < r.0.len() ==> i < #[trigger] r.0[a] && k > 0 && r.0[a] < end_of(
                t,
                named_kids(t, i)[k - 1],
            ),
        forall|x: int| #[trigger]
            r.0.contains(x) <==> exists|a: int|
                0 <= a < k && met_at(lang, t, text, i, #[trigger] named_kids(t, i)[a], x),
        all_named(lang, t, text, i, scope, r.0, found_defs_kids(lang, t, text, i, scope, k)),
    decreases t.len() - i, 1nat, k,
{
    let ns = named_kids(t, i);
    lemma_named_kids(t, i);
    if k == 0 {
        let none = Seq::<Seq<SiteModel>>::empty();
        assert(flat(none) =~= Seq::<SiteModel>::empty());
        (Seq::empty(), none)
    } else {
        let c = ns[k - 1];
        assert(ns.contains(c));
        lemma_kids_are_kin(t, i, c);
        let a = lemma_found_kids(lang, t, text, i, scope, k - 1);
        let b = lemma_found_at(lang, t, text, i, c, scope);
        if k > 1 {
            assert(end_of(t, ns[k - 2]) <= c);
        }
        lemma_told_add(
            lang,
            t,
            text,
            found_defs_kids(lang, t, text, i, scope, k - 1),
            found_calls_kids(lang, t, text, i, scope, k - 1),
            a.0,
            a.1,
            found_defs_at(lang, t, text, i, c, scope),
            found_calls_at(lang, t, text, i, c, scope),
            b.0,
            b.1,
            c,
        );
        lemma_named_add(
            lang,
            t,
            text,
            i,
            scope,
            a.0,
            found_defs_kids(lang, t, text, i, scope, k - 1),
            b.0,
            found_defs_at(lang, t, text, i, c, scope),
        );
        let r = (a.0 + b.0, a.1 + b.1);
        assert forall|x: int| #[trigger] r.0.contains(x) <==> exists|m: int|
            0 <= m < k && met_at(lang, t, text, i, #[trigger] ns[m], x) by {
            if a.0.contains(x) {
                let m = choose|m: int| 0 <= m < k - 1 && met_at(lang, t, text, i, #[trigger] ns[m], x);
                assert(met_at(lang, t, text, i, ns[m], x));
            }
            if b.0.contains(x) {
                assert(met_at(lang, t, text, i, ns[k - 1], x));
            }
            if exists|m: int| 0 <= m < k && met_at(lang, t, text, i, #[trigger] ns[m], x) {
                let m = choose|m: int| 0 <= m < k && met_at(lang, t, text, i, #[trigger] ns[m], x);
                if m < k - 1 {
                    assert(a.0.contains(x));
                } else {
                    assert(b.0.contains(x));
                }
            }
        }
        assert forall|m: int| 0 <= m < r.0.len() implies i < #[trigger] r.0[m] && r.0[m] < end_of(
            t,
            c,
        ) by {
            if m < a.0.len() {
                assert(r.0[m] == a.0[m]);
                assert(c < end_of(t, c));
            } else {
                assert(r.0[m] == b.0[m - a.0.len()]);
            }
        }
        r
    }
}

proof fn lemma_found_at(
    lang: Lang,
    t: Seq<PieceModel>,
    text: Seq<char>,
    i: int,
    c: int,
    scope: Seq<char>,
) -> (r: (Seq<int>, Seq<Seq<SiteModel>>))
    requires
        kin(t, i, c),
        t[c].named,
    ensures
        told(
            lang,
            t,
            text,
            found_defs_at(lang, t, text, i, c, scope),
            found_calls_at(lang, t, text, i, c, scope),
            r.0,
            r.1,
        ),
        forall|a: int| 0 <= a < r.0.len() ==> c <= #[trigger] r.0[a] < end_of(t, c),
        forall|x: int| #[trigger] r.0.contains(x) <==> met_at(lang, t, text, i, c, x),
        all_named(lang, t, text, i, scope, r.0, found_defs_at(lang, t, text, i, c, scope)),
    decreases t.len() - i, 0nat, 0int,
{
    let nothing = (Seq::<int>::empty(), Seq::<Seq<SiteModel>>::empty());
    lemma_shape(lang, t, text, i, c, scope);
    lemma_shape_names(lang, t, text, i, c, scope);
    lemma_kin_end(t, i, c);
    assert(flat(nothing.1) =~= Seq::<SiteModel>::empty());
    match shape(lang, t, text, i, c, scope) {
        ShapeModel::Skip => nothing,
        ShapeModel::Plain => {
            let r = lemma_found(lang, t, text, c, scope);
            assert(leads(lang, t, text, i, c, c));
            lemma_named_up(
                lang,
                t,
                text,
                i,
                scope,
                c,
                c,
                r.0,
                found_defs(lang, t, text, c, scope),
            );
            assert forall|x: int| #[trigger] r.0.contains(x) <==> met_at(lang, t, text, i, c, x) by {
                assert(leads(lang, t, text, i, c, c));
            }
            r
        },
        ShapeModel::Enter { body, scope: inner } => {
            lemma_body(t, c, "body"@);
            match body {
                Some(b) => {
                    lemma_kin_end(t, c, b);
                    let r = lemma_found(lang, t, text, b, inner);
                    assert(leads(lang, t, text, i, c, b));
                    assert(inner == scope_in(lang, t, text, c, scope, b));
                    lemma_named_up(
                        lang,
                        t,
                        text,
                        i,
                        scope,
                        c,
                        b,
                        r.0,
                        found_defs(lang, t, text, b, inner),
                    );
                    assert forall|x: int| #[trigger] r.0.contains(x) <==> met_at(
                        lang,
                        t,
                        text,
                        i,
                        c,
                        x,
                    ) by {
                        assert(leads(lang, t, text, i, c, b));
                    }
                    r
                },
                None => nothing,
            }
        },
        ShapeModel::Def { func, name, owner, method, descend } => {
            let d = def_model(lang, t, text, func, name, owner, method);
            let module = site_module(lang, owner, name);
            let qualified = scoped(owner, name);
            lemma_body(t, func, "body"@);
            assert(entered_as(lang, t, text, func, d));
            assert(named_as(lang, t, text, i, scope, func, d)) by {
                assert(lies(lang, t, text, i, scope, i, scope));
                assert(defined_at(lang, t, text, i, c, func));
            }
            assert(all_named(lang, t, text, i, scope, seq![func], seq![d]));
            match field_kid(t, func, "body"@) {
                Some(b) => {
                    lemma_kin_end(t, func, b);
                    lemma_scan_calls_parts(lang, t, text, b, qualified, module);
                    let f = part_calls(lang, t, text, b, qualified, module);
                    let own = gather(t.len() as int, f);
                    let one = (seq![func], seq![own]);
                    assert(calls_of(lang, t, text, func, d, own)) by {
                        assert forall|x: int| #[trigger] body_at(t, func, x) implies x == b by {
                            assert(kin(t, func, x));
                        }
                        assert(body_at(t, func, b));
                    }
                    assert(one.1.drop_last() =~= Seq::<Seq<SiteModel>>::empty());
                    assert(flat(one.1) =~= own);
                    assert(told(lang, t, text, seq![d], own, one.0, one.1));
                    assert(one.0[0] == func);
                    if descend {
                        let r = lemma_found(lang, t, text, b, qualified);
                        assert(leads(lang, t, text, i, c, b));
                        assert(qualified == scope_in(lang, t, text, c, scope, b));
                        lemma_named_up(
                            lang,
                            t,
                            text,
                            i,
                            scope,
                            c,
                            b,
                            r.0,
                            found_defs(lang, t, text, b, qualified),
                        );
                        lemma_named_add(
                            lang,
                            t,
                            text,
                            i,
                            scope,
                            one.0,
                            seq![d],
                            r.0,
                            found_defs(lang, t, text, b, qualified),
                        );
                        lemma_told_add(
                            lang,
                            t,
                            text,
                            seq![d],
                            own,
                            one.0,
                            one.1,
                            found_defs(lang, t, text, b, qualified),
                            found_calls(lang, t, text, b, qualified),
                            r.0,
                            r.1,
                            b,
                        );
                        let all = (one.0 + r.0, one.1 + r.1);
                        assert forall|x: int| #[trigger] all.0.contains(x) <==> met_at(
                            lang,
                            t,
                            text,
                            i,
                            c,
                            x,
                        ) by {
                            assert(leads(lang, t, text, i, c, b));
                            assert(defined_at(lang, t, text, i, c, func));
                            assert(one.0.contains(x) <==> x == func);
                        }
                        assert forall|a: int| 0 <= a < all.0.len() implies c <= #[trigger] all.0[a]
                            < end_of(t, c) by {
                            if a > 0 {
                                assert(all.0[a] == r.0[a - 1]);
                            }
                        }
                        all
                    } else {
                        assert forall|x: int| #[trigger] one.0.contains(x) <==> met_at(
                            lang,
                            t,
                            text,
                            i,
                            c,
                            x,
                        ) by {
                            assert(one.0.contains(x) <==> x == func);
                        }
                        one
                    }
                },
                None => {
                    let own = Seq::<SiteModel>::empty();
                    let one = (seq![func], seq![own]);
                    assert forall|b: int| !#[trigger] body_at(t, func, b) by {
                        if body_at(t, func, b) {
                            assert(kin(t, func, b));
                        }
                    }
                    assert(calls_of(lang, t, text, func, d, own));
                    assert(one.1.drop_last() =~= Seq::<Seq<SiteModel>>::empty());
                    assert(flat(one.1) =~= own);
                    assert(one.0[0] == func);
                    assert forall|x: int| #[trigger] one.0.contains(x) <==> met_at(
                        lang,
                        t,
                        text,
                        i,
                        c,
                        x,
                    ) by {
                        assert(one.0.contains(x) <==> x == func);
                    }
                    one
                },
            }
        },
    }
}

// -- laws -----------------------------------------------------------------------------

/// A file is read whole: its definitions are its functions, each once and in the order in
/// which they stand, and its calls are those of their bodies, function after function. What
/// is part of no body gives no call, and what is part of one gives exactly one, made by the
/// innermost function around it.
pub proof fn law_functions_and_their_calls_are_read(
    lang: Lang,
    t: Seq<PieceModel>,
    text: Seq<char>,
    path: Seq<char>,
) -> (r: (Seq<int>, Seq<Seq<SiteModel>>))
    requires
        t.len() > 0,
    ensures
        ({
            let unit = unit_of(lang, t, text, path);
            let funcs = r.0;
            let lists = r.1;
            &&& funcs.len() == unit.defs.len()
            &&& lists.len() == unit.defs.len()
            &&& forall|x: int| #[trigger] funcs.contains(x) <==> met(lang, t, text, 0, x)
            &&& forall|a: int, b: int| 0 <= a < b < funcs.len() ==> funcs[a] < funcs[b]
            &&& forall|j: int|
                0 <= j < funcs.len() ==> entered_as(lang, t, text, #[trigger] funcs[j], unit.defs[j])
            &&& forall|j: int|
                0 <= j < funcs.len() ==> named_as(
                    lang,
                    t,
                    text,
                    0,
                    file_scope(lang, t, text, path),
                    #[trigger] funcs[j],
                    unit.defs[j],
                )
            &&& forall|j: int|
                0 <= j < funcs.len() ==> calls_of(
                    lang,
                    t,
                    text,
                    #[trigger] funcs[j],
                    unit.defs[j],
                    lists[j],
                )
            &&& unit.calls == flat(lists)
        }),
{
    lemma_found(lang, t, text, 0, file_scope(lang, t, text, path))
}

proof fn lemma_flat_has<T>(lists: Seq<Seq<T>>, j: int, x: T)
    requires
        0 <= j < lists.len(),
        lists[j].contains(x),
    ensures
        flat(lists).contains(x),
    decreases lists.len(),
{
    let front = flat(lists.drop_last());
    let back = lists.last();
    if j == lists.len() - 1 {
        assert((front + back)[front.len() + back.index_of(x)] == x);
    } else {
        lemma_flat_has(lists.drop_last(), j, x);
        assert((front + back)[front.index_of(x)] == x);
    }
}

/// No call is lost: where a call is part of the body of a function of the file, however
/// deep it stands in it, the file has that call, made by that function.
pub proof fn law_calls_of_a_body_are_recorded(
    lang: Lang,
    t: Seq<PieceModel>,
    text: Seq<char>,
    path: Seq<char>,
    func: int,
    b: int,
    c: int,
)
    requires
        t.len() > 0,
        met(lang, t, text, 0, func),
        body_at(t, func, b),
        part_of(lang, t, b, c),
        callee(lang, t, text, c) is Some,
    ensures
        exists|d: DefModel, s: SiteModel|
            #![trigger unit_of(lang, t, text, path).defs.contains(d), unit_of(lang, t, text, path).calls.contains(s)]
            {
                &&& unit_of(lang, t, text, path).defs.contains(d)
                &&& entered_as(lang, t, text, func, d)
                &&& unit_of(lang, t, text, path).calls.contains(s)
                &&& s.call == (CallModel {
                    caller: d.node.qualified_name,
                    kind: callee(lang, t, text, c)->0.kind,
                    path: callee(lang, t, text, c)->0.path,
                    short: callee(lang, t, text, c)->0.short,
                    call_site: SourceSpan {
                        file: 0,
                        start_line: (t[c].start_row + 1) as u32,
                        start_col: t[c].start_col,
                        end_line: (t[c].end_row + 1) as u32,
                        end_col: t[c].end_col,
                    },
                })
            },
{
    let unit = unit_of(lang, t, text, path);
    let (funcs, lists) = law_functions_and_their_calls_are_read(lang, t, text, path);
    assert(funcs.contains(func));
    let j = funcs.index_of(func);
    assert(funcs[j] == func);
    let d = unit.defs[j];
    assert(calls_of(lang, t, text, funcs[j], d, lists[j]));
    assert(entered_as(lang, t, text, funcs[j], d));
    let module = choose|module: Seq<char>|
        lists[j] == gather(
            t.len() as int,
            #[trigger] part_calls(lang, t, text, b, d.node.qualified_name, module),
        ) && (lang != Lang::TypeScript ==> module == d.node.module) && (lang == Lang::TypeScript
            ==> module == crate::typescript::module_of(d.node.qualified_name));
    let f = part_calls(lang, t, text, b, d.node.qualified_name, module);
    let s = call_at(lang, t, text, c, d.node.qualified_name, module)[0];
    assert(kin(t, func, b));
    assert(0 <= c < t.len());
    assert(f(c)[0] == s);
    assert(f(c).contains(s));
    lemma_gather_has(t.len() as int, f, s);
    lemma_flat_has(lists, j, s);
    assert(unit.defs.contains(d));
    assert(unit.calls.contains(s));
}

} // verus!
