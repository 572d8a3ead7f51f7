//! What a call calls and what marks a function, told from the kinds of the nodes.

use crate::bodies::{kin, lemma_body, lemma_some_kid, lemma_word};
use crate::fragment::CallKind;
use crate::graph::NodeFlags;
use crate::lang::{CalleeModel, Lang};
use crate::naming::{has_word, is_sep, last_dotted, last_segment, seg_end, seg_start, starts_upper};
use crate::syntax::{field_kid, piece_text, PieceModel};
use crate::text::{contains, starts_with};
use crate::walk::{callee, flags};
use vstd::prelude::*;

verus! {

/// Node `f` is the first child of node `c` in the field.
pub open spec fn fills(t: Seq<PieceModel>, c: int, name: Seq<char>, f: int) -> bool {
    &&& kin(t, c, f)
    &&& t[f].field == name
    &&& forall|x: int| #[trigger] kin(t, c, x) && x < f ==> t[x].field != name
}

/// Node `c` has no child in the field.
pub open spec fn lacks(t: Seq<PieceModel>, c: int, name: Seq<char>) -> bool {
    forall|x: int| #[trigger] kin(t, c, x) ==> t[x].field != name
}

proof fn lemma_fills(t: Seq<PieceModel>, c: int, name: Seq<char>)
    requires
        0 <= c < t.len(),
    ensures
        forall|f: int| #[trigger] fills(t, c, name, f) <==> field_kid(t, c, name) == Some(f),
        lacks(t, c, name) <==> field_kid(t, c, name) is None,
{
    lemma_body(t, c, name);
    assert forall|f: int| #[trigger] fills(t, c, name, f) <==> field_kid(t, c, name) == Some(f) by {
        if fills(t, c, name, f) {
            assert(kin(t, c, f));
        }
    }
}

/// A call by a single name.
pub open spec fn by_name(kind: CallKind, name: Seq<char>) -> Option<CalleeModel> {
    Some(CalleeModel { kind, path: name, short: name })
}

/// The kinds of nodes that call something.
pub open spec fn call_kind(lang: Lang, k: Seq<char>) -> bool {
    match lang {
        Lang::Rust => k == "call_expression"@ || k == "macro_invocation"@,
        Lang::Go => k == "call_expression"@,
        Lang::Python => k == "call"@,
        Lang::TypeScript => k == "call_expression"@ || k == "new_expression"@,
    }
}

/// The field in which a call says what it calls.
pub open spec fn call_field(lang: Lang, k: Seq<char>) -> Seq<char> {
    if lang == Lang::Rust && k == "macro_invocation"@ {
        "macro"@
    } else if lang == Lang::TypeScript && k == "new_expression"@ {
        "constructor"@
    } else {
        "function"@
    }
}

/// The kind of node that names a member of something, and the field of the member.
pub open spec fn member_kind(lang: Lang) -> (Seq<char>, Seq<char>) {
    match lang {
        Lang::Rust => ("field_expression"@, "field"@),
        Lang::Go => ("selector_expression"@, "field"@),
        Lang::Python => ("attribute"@, "attribute"@),
        Lang::TypeScript => ("member_expression"@, "property"@),
    }
}

proof fn lemma_call_kinds_differ()
    ensures
        "call_expression"@ != "macro_invocation"@,
        "call_expression"@ != "new_expression"@,
        "identifier"@ != "scoped_identifier"@,
        "identifier"@ != "field_expression"@,
        "identifier"@ != "selector_expression"@,
        "identifier"@ != "attribute"@,
        "identifier"@ != "member_expression"@,
        "identifier"@ != "generic_function"@,
        "scoped_identifier"@ != "field_expression"@,
        "scoped_identifier"@ != "generic_function"@,
        "field_expression"@ != "generic_function"@,
{
    reveal_strlit("call_expression");
    reveal_strlit("macro_invocation");
    reveal_strlit("new_expression");
    reveal_strlit("identifier");
    reveal_strlit("scoped_identifier");
    reveal_strlit("field_expression");
    reveal_strlit("selector_expression");
    reveal_strlit("attribute");
    reveal_strlit("member_expression");
    reveal_strlit("generic_function");
    assert("call_expression"@.len() == 15);
    assert("macro_invocation"@.len() == 16);
    assert("new_expression"@.len() == 14);
    assert("identifier"@.len() == 10);
    assert("scoped_identifier"@.len() == 17);
    assert("field_expression"@.len() == 16);
    assert("selector_expression"@.len() == 19);
    assert("attribute"@.len() == 9);
    assert("member_expression"@.len() == 17);
    assert("generic_function"@.len() == 16);
    assert("field_expression"@[0] == 'f');
    assert("generic_function"@[0] == 'g');
}

/// Only calls call: other nodes, and calls that do not say what they call, have no callee.
pub proof fn law_only_calls_have_a_callee(
    lang: Lang,
    t: Seq<PieceModel>,
    text: Seq<char>,
    c: int,
)
    requires
        0 <= c < t.len(),
        !call_kind(lang, t[c].kind) || lacks(t, c, call_field(lang, t[c].kind)),
    ensures
        callee(lang, t, text, c) is None,
{
    lemma_call_kinds_differ();
    lemma_fills(t, c, "macro"@);
    lemma_fills(t, c, "function"@);
    lemma_fills(t, c, "constructor"@);
}

/// A call of a plain name is a direct call of that name, in every language.
pub proof fn law_plain_names_are_called_directly(
    lang: Lang,
    t: Seq<PieceModel>,
    text: Seq<char>,
    c: int,
    f: int,
)
    requires
        call_kind(lang, t[c].kind),
        call_field(lang, t[c].kind) == "function"@,
        fills(t, c, "function"@, f),
        t[f].kind == "identifier"@,
    ensures
        callee(lang, t, text, c) == by_name(CallKind::Direct, piece_text(t, text, f)),
{
    lemma_call_kinds_differ();
    lemma_call_fields_differ();
    assert(kin(t, c, f));
    lemma_fills(t, c, "function"@);
}

proof fn lemma_call_fields_differ()
    ensures
        "macro"@ != "function"@,
        "constructor"@ != "function"@,
{
    reveal_strlit("macro");
    reveal_strlit("function");
    reveal_strlit("constructor");
    assert("macro"@.len() == 5);
    assert("function"@.len() == 8);
    assert("constructor"@.len() == 11);
}

/// A call of a member is a call of a method of the member's name, in every language,
/// whatever the member belongs to.
pub proof fn law_members_are_called_as_methods(
    lang: Lang,
    t: Seq<PieceModel>,
    text: Seq<char>,
    c: int,
    f: int,
    m: int,
)
    requires
        call_kind(lang, t[c].kind),
        call_field(lang, t[c].kind) == "function"@,
        fills(t, c, "function"@, f),
        t[f].kind == member_kind(lang).0,
        fills(t, f, member_kind(lang).1, m),
    ensures
        callee(lang, t, text, c) == by_name(CallKind::Method, piece_text(t, text, m)),
{
    lemma_call_kinds_differ();
    lemma_call_fields_differ();
    assert(kin(t, c, f));
    assert(kin(t, f, m));
    lemma_fills(t, c, "function"@);
    lemma_fills(t, f, member_kind(lang).1);
}

/// In Rust a call by a path is a call of an associated function: the path as it is
/// written, looked up by its last name.
pub proof fn law_rust_paths_are_called_as_associated(
    t: Seq<PieceModel>,
    text: Seq<char>,
    c: int,
    f: int,
    n: int,
)
    requires
        t[c].kind == "call_expression"@,
        fills(t, c, "function"@, f),
        t[f].kind == "scoped_identifier"@,
        fills(t, f, "name"@, n),
    ensures
        callee(Lang::Rust, t, text, c) == Some(
            CalleeModel {
                kind: CallKind::Associated,
                path: piece_text(t, text, f),
                short: piece_text(t, text, n),
            },
        ),
{
    lemma_call_kinds_differ();
    assert(kin(t, c, f));
    assert(kin(t, f, n));
    lemma_fills(t, c, "function"@);
    lemma_fills(t, f, "name"@);
}

/// In Rust a call with generic arguments calls what the same call without them does.
pub proof fn law_rust_generic_arguments_do_not_matter(
    t: Seq<PieceModel>,
    text: Seq<char>,
    c: int,
    f: int,
    d: int,
    h: int,
)
    requires
        t[c].kind == "call_expression"@,
        fills(t, c, "function"@, f),
        t[f].kind == "generic_function"@,
        fills(t, f, "function"@, h),
        t[d].kind == "call_expression"@,
        fills(t, d, "function"@, h),
    ensures
        callee(Lang::Rust, t, text, c) == callee(Lang::Rust, t, text, d),
{
    lemma_call_kinds_differ();
    assert(kin(t, c, f));
    assert(kin(t, f, h));
    assert(kin(t, d, h));
    lemma_fills(t, c, "function"@);
    lemma_fills(t, f, "function"@);
    lemma_fills(t, d, "function"@);
}

/// In Rust a call with generic arguments by a plain name, a path or a member is known by
/// that name.
pub proof fn law_rust_generic_calls_keep_their_name(
    t: Seq<PieceModel>,
    text: Seq<char>,
    c: int,
    f: int,
    h: int,
    n: int,
)
    requires
        t[c].kind == "call_expression"@,
        fills(t, c, "function"@, f),
        t[f].kind == "generic_function"@,
        fills(t, f, "function"@, h),
        t[h].kind == "scoped_identifier"@ && fills(t, h, "name"@, n) || t[h].kind
            == "field_expression"@ && fills(t, h, "field"@, n) || t[h].kind == "identifier"@ && n
            == h,
    ensures
        callee(Lang::Rust, t, text, c) is Some,
        callee(Lang::Rust, t, text, c)->0.short == piece_text(t, text, n),
        callee(Lang::Rust, t, text, c)->0.kind == if t[h].kind == "scoped_identifier"@ {
            CallKind::Associated
        } else if t[h].kind == "field_expression"@ {
            CallKind::Method
        } else {
            CallKind::Direct
        },
{
    lemma_call_kinds_differ();
    assert(kin(t, c, f));
    assert(kin(t, f, h));
    lemma_fills(t, c, "function"@);
    lemma_fills(t, f, "function"@);
    lemma_fills(t, h, "name"@);
    lemma_fills(t, h, "field"@);
    reveal_with_fuel(crate::rust::callee_expr, 3);
}

/// In Rust a macro is called by its path, and looked up by the last segment of it.
pub proof fn law_rust_macros_are_called(t: Seq<PieceModel>, text: Seq<char>, c: int, m: int)
    requires
        t[c].kind == "macro_invocation"@,
        fills(t, c, "macro"@, m),
    ensures
        callee(Lang::Rust, t, text, c) == Some(
            CalleeModel {
                kind: CallKind::Macro,
                path: piece_text(t, text, m),
                short: last_segment(piece_text(t, text, m)),
            },
        ),
{
    lemma_call_kinds_differ();
    assert(kin(t, c, m));
    lemma_fills(t, c, "macro"@);
}

/// In TypeScript an object is made by calling its class.
pub proof fn law_typescript_classes_are_called(
    t: Seq<PieceModel>,
    text: Seq<char>,
    c: int,
    f: int,
)
    requires
        t[c].kind == "new_expression"@,
        fills(t, c, "constructor"@, f),
    ensures
        lacks(t, f, "property"@) ==> callee(Lang::TypeScript, t, text, c) == by_name(
            CallKind::Associated,
            last_dotted(piece_text(t, text, f)),
        ),
        forall|m: int| #[trigger]
            fills(t, f, "property"@, m) ==> callee(Lang::TypeScript, t, text, c) == by_name(
                CallKind::Associated,
                piece_text(t, text, m),
            ),
{
    lemma_call_kinds_differ();
    assert(kin(t, c, f));
    lemma_fills(t, c, "constructor"@);
    lemma_fills(t, f, "property"@);
}

/// The last segment of a text with dots or colons in it: what precedes it ends with one of
/// them or is empty, what follows it is nothing but these, and it has none itself.
pub proof fn law_last_segment_is_last(s: Seq<char>) -> (r: (int, int))
    ensures
        (forall|i: int| 0 <= i < s.len() ==> (#[trigger] s[i] == '.' || s[i] == ':')) ==> last_dotted(
            s,
        ) == s,
        (exists|i: int| 0 <= i < s.len() && #[trigger] s[i] != '.' && s[i] != ':') ==> {
            &&& 0 <= r.0 < r.1 <= s.len()
            &&& last_dotted(s) == s.subrange(r.0, r.1)
            &&& r.0 > 0 ==> s[r.0 - 1] == '.' || s[r.0 - 1] == ':'
            &&& forall|i: int| r.0 <= i < r.1 ==> #[trigger] s[i] != '.' && s[i] != ':'
            &&& forall|i: int| r.1 <= i < s.len() ==> #[trigger] s[i] == '.' || s[i] == ':'
        },
{
    let e = seg_end(s, s.len() as int);
    lemma_seg_end(s, s.len() as int);
    if e > 0 {
        lemma_seg_start(s, e);
    }
    (seg_start(s, e), e)
}

proof fn lemma_seg_end(s: Seq<char>, n: int)
    requires
        0 <= n <= s.len(),
    ensures
        0 <= seg_end(s, n) <= n,
        forall|i: int| seg_end(s, n) <= i < n ==> #[trigger] s[i] == '.' || s[i] == ':',
        seg_end(s, n) > 0 ==> s[seg_end(s, n) - 1] != '.' && s[seg_end(s, n) - 1] != ':',
    decreases n,
{
    if n > 0 && is_sep(s[n - 1]) {
        lemma_seg_end(s, n - 1);
    }
}

proof fn lemma_seg_start(s: Seq<char>, n: int)
    requires
        0 < n <= s.len(),
        s[n - 1] != '.' && s[n - 1] != ':',
    ensures
        0 <= seg_start(s, n) < n,
        forall|i: int| seg_start(s, n) <= i < n ==> #[trigger] s[i] != '.' && s[i] != ':',
        seg_start(s, n) > 0 ==> s[seg_start(s, n) - 1] == '.' || s[seg_start(s, n) - 1] == ':',
    decreases n,
{
    reveal_with_fuel(seg_start, 2);
    if n > 1 && !is_sep(s[n - 2]) {
        lemma_seg_start(s, n - 1);
    }
}

// -- marks ----------------------------------------------------------------------------

/// An attribute above node `i` holds the word: attributes and comments lead up to it from
/// sibling to sibling.
pub open spec fn attributed(t: Seq<PieceModel>, text: Seq<char>, i: int, word: Seq<char>) -> bool
    decreases i,
{
    exists|s: int| #[trigger]
        right_before(t, s, i) && {
            ||| attribute(t[s].kind) && contains(piece_text(t, text, s), word)
            ||| (attribute(t[s].kind) || t[s].kind == "line_comment"@ || t[s].kind
                == "block_comment"@) && attributed(t, text, s, word)
        }
}

pub open spec fn attribute(k: Seq<char>) -> bool {
    k == "attribute_item"@ || k == "inner_attribute_item"@
}

/// Node `s` is the sibling right before node `i`.
pub open spec fn right_before(t: Seq<PieceModel>, s: int, i: int) -> bool {
    &&& 0 <= s < i < t.len()
    &&& t[s].depth == t[i].depth
    &&& forall|k: int| s < k < i ==> (#[trigger] t[k]).depth > t[i].depth
}

proof fn lemma_right_before(t: Seq<PieceModel>, i: int, j: int)
    requires
        -1 <= j < i < t.len(),
        forall|k: int| j < k < i ==> (#[trigger] t[k]).depth > t[i].depth,
    ensures
        match crate::syntax::sibling_from(t, i, j) {
            Some(s) => right_before(t, s, i) && forall|x: int| #[trigger]
                right_before(t, x, i) ==> x == s,
            None => forall|x: int| !#[trigger] right_before(t, x, i),
        },
    decreases j + 1,
{
    if j >= 0 && t[j].depth > t[i].depth {
        lemma_right_before(t, i, j - 1);
    } else if j >= 0 {
        assert forall|x: int| #[trigger] right_before(t, x, i) implies x == j by {
            if x < j {
                assert(t[j].depth > t[i].depth);
            }
        }
    }
}

proof fn lemma_comments_differ()
    ensures
        !attribute("line_comment"@),
        !attribute("block_comment"@),
{
    reveal_strlit("line_comment");
    reveal_strlit("block_comment");
    reveal_strlit("attribute_item");
    reveal_strlit("inner_attribute_item");
    assert("line_comment"@.len() == 12);
    assert("block_comment"@.len() == 13);
    assert("attribute_item"@.len() == 14);
    assert("inner_attribute_item"@.len() == 20);
}

proof fn lemma_attributed(t: Seq<PieceModel>, text: Seq<char>, i: int, word: Seq<char>)
    requires
        0 <= i < t.len(),
    ensures
        crate::rust::marked_above(t, text, i, word) == attributed(t, text, i, word),
    decreases i,
{
    lemma_right_before(t, i, i - 1);
    lemma_comments_differ();
    if let Some(s) = crate::syntax::prev_sibling(t, i) {
        lemma_attributed(t, text, s, word);
    }
}

/// The function has a foreign ABI: one of its modifiers says so.
pub open spec fn foreign(t: Seq<PieceModel>, func: int) -> bool {
    exists|m: int, x: int|
        #![trigger kin(t, func, m), kin(t, m, x)]
        kin(t, func, m) && t[m].named && t[m].kind == "function_modifiers"@ && kin(t, m, x)
            && t[x].kind == "extern_modifier"@
}

proof fn lemma_foreign(t: Seq<PieceModel>, func: int)
    requires
        0 <= func < t.len(),
    ensures
        crate::rust::has_foreign_abi(t, func) == foreign(t, func),
{
    let f = |c: int| crate::rust::fixes_abi(t, c);
    lemma_some_kid(t, func, f);
    if foreign(t, func) {
        let (m, x) = choose|m: int, x: int|
            #![trigger kin(t, func, m), kin(t, m, x)]
            kin(t, func, m) && t[m].named && t[m].kind == "function_modifiers"@ && kin(t, m, x)
                && t[x].kind == "extern_modifier"@;
        lemma_word(t, m, "extern_modifier"@, "extern_modifier"@, "extern_modifier"@);
        assert(kin(t, m, x));
        assert(kin(t, func, m) && f(m));
    }
    if crate::rust::has_foreign_abi(t, func) {
        let m = choose|m: int| #[trigger] kin(t, func, m) && t[m].named && f(m);
        lemma_word(t, m, "extern_modifier"@, "extern_modifier"@, "extern_modifier"@);
        let x = choose|x: int| #[trigger]
            kin(t, m, x) && (t[x].kind == "extern_modifier"@ || t[x].kind == "extern_modifier"@
                || t[x].kind == "extern_modifier"@);
        assert(kin(t, func, m) && kin(t, m, x));
    }
}

/// What marks a Rust function: the words before its name, a test by its module, its name
/// or an attribute, a method by its `self`, generic by its type parameters,
/// exported by its ABI or by an attribute that fixes its symbol.
pub proof fn law_rust_functions_are_marked(
    t: Seq<PieceModel>,
    text: Seq<char>,
    func: int,
    owner: Seq<char>,
    name: Seq<char>,
    method: bool,
)
    requires
        0 <= func < t.len(),
    ensures
        ({
            let f = flags(Lang::Rust, t, text, func, owner, name, method);
            let head = crate::rust::header(t, text, func);
            &&& f.is_pub == contains(head, "pub"@)
            &&& f.is_async == contains(head, "async"@)
            &&& f.is_unsafe == contains(head, "unsafe"@)
            &&& f.is_test == (contains(owner, "tests"@) || starts_with(name, "test_"@)
                || attributed(t, text, func, "test"@))
            &&& f.is_generic == !lacks(t, func, "type_parameters"@)
            &&& f.is_exported == (t[func].kind == "function_item"@ && (foreign(t, func)
                || attributed(t, text, func, "no_mangle"@) || attributed(
                t,
                text,
                func,
                "export_name"@,
            )))
        }),
{
    lemma_attributed(t, text, func, "test"@);
    lemma_attributed(t, text, func, "no_mangle"@);
    lemma_attributed(t, text, func, "export_name"@);
    lemma_foreign(t, func);
    lemma_fills(t, func, "type_parameters"@);
}

/// What marks a function of the other languages. In Go an upper case letter at the start of
/// the name makes it public; in Python an underscore there makes it private; in TypeScript
/// a member is public unless marked otherwise, and a function where it is exported.
pub proof fn law_other_functions_are_marked(
    t: Seq<PieceModel>,
    text: Seq<char>,
    func: int,
    owner: Seq<char>,
    name: Seq<char>,
    method: bool,
)
    requires
        0 <= func < t.len(),
    ensures
        flags(Lang::Go, t, text, func, owner, name, method) == (NodeFlags {
            is_pub: starts_upper(name),
            is_async: false,
            is_unsafe: false,
            is_test: starts_with(name, "Test"@) || starts_with(name, "Benchmark"@),
            is_method: method,
            is_generic: !lacks(t, func, "type_parameters"@),
            is_exported: false,
        }),
        flags(Lang::Python, t, text, func, owner, name, method) == (NodeFlags {
            is_pub: !(name.len() > 0 && name[0] == '_'),
            is_async: has_word(crate::python::header(t, text, func), "async"@),
            is_unsafe: false,
            is_test: starts_with(name, "test"@),
            is_method: method,
            is_generic: !lacks(t, func, "type_parameters"@),
            is_exported: false,
        }),
        flags(Lang::TypeScript, t, text, func, owner, name, method) == (NodeFlags {
            is_pub: if method {
                !has_word(crate::typescript::header(t, text, func), "private"@) && !has_word(
                    crate::typescript::header(t, text, func),
                    "protected"@,
                )
            } else {
                crate::typescript::exported(t, func, 4)
            },
            is_async: has_word(crate::typescript::header(t, text, func), "async"@),
            is_unsafe: false,
            is_test: starts_with(name, "test"@) || starts_with(name, "Test"@),
            is_method: method,
            is_generic: !lacks(t, func, "type_parameters"@),
            is_exported: false,
        }),
{
    lemma_fills(t, func, "type_parameters"@);
    reveal_strlit("_");
    assert("_"@.len() == 1);
    if starts_with(name, "_"@) {
        assert(name[0] == name.take(1)[0]);
    }
    if name.len() > 0 && name[0] == '_' {
        assert(name.take(1) =~= "_"@);
    }
}

} // verus!
