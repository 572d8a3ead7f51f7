//! What a body holds, node by node. Where a node stands is told from the depths of the
//! nodes alone, and what it is from its kind.

use crate::fragment::{CallKind, CallModel};
use crate::graph::SourceSpan;
use crate::lang::{has_token, kid_count, token_from, Lang};
use crate::seqs::{gather, lemma_filter_has, lemma_tally_bound, lemma_tally_zero, tally};
use crate::syntax::{
    end_from, end_of, field_from, field_kid, fits, kids_from, lemma_end_from, lemma_named_kids, named_kids, PieceModel,
};
use crate::walk::{
    callee, counted, is_nested, is_param, nests, own_call, scan_calls, scan_calls_kids, scan_count, scan_count_kids,
    scan_depth, scan_depth_kids, stats, Measure, SiteModel,
};
use vstd::prelude::*;

verus! {

// -- places ---------------------------------------------------------------------------

/// Node `c` is a child of node `p`: one level deeper, and nothing between them is as high
/// as `p`.
pub open spec fn kin(t: Seq<PieceModel>, p: int, c: int) -> bool {
    &&& 0 <= p < c < t.len()
    &&& t[c].depth == t[p].depth + 1
    &&& forall|k: int| p < k <= c ==> (#[trigger] t[k]).depth > t[p].depth
}

/// The kinds of nodes that are no part of the body around them: the functions of Rust;
/// the functions and classes of Python, with their decorators; in TypeScript the declared
/// functions, the methods, and the function values that a variable or a field is made of.
/// A Go function has no such parts.
pub open spec fn apart(lang: Lang, t: Seq<PieceModel>, c: int) -> bool {
    let k = t[c].kind;
    match lang {
        Lang::Rust => k == "function_item"@ || k == "function_signature_item"@,
        Lang::Go => false,
        Lang::Python => k == "function_definition"@ || k == "class_definition"@ || k
            == "decorated_definition"@,
        Lang::TypeScript => {
            ||| k == "function_declaration"@
            ||| k == "generator_function_declaration"@
            ||| k == "method_definition"@
            ||| (k == "arrow_function"@ || k == "function_expression"@) && exists|p: int| #[trigger]
                above(t, p, c) && (t[p].kind == "variable_declarator"@ || t[p].kind
                    == "public_field_definition"@)
        },
    }
}

/// Node `p` is the nearest before node `c` that is higher.
pub open spec fn above(t: Seq<PieceModel>, p: int, c: int) -> bool {
    &&& 0 <= p < c < t.len()
    &&& t[p].depth < t[c].depth
    &&& forall|k: int| p < k < c ==> (#[trigger] t[k]).depth >= t[c].depth
}

/// Node `c` is part of the body at node `b`: named nodes lead from `b` down to it, none of
/// which, `c` included, stands apart.
pub open spec fn part_of(lang: Lang, t: Seq<PieceModel>, b: int, c: int) -> bool
    decreases c,
{
    exists|p: int|
        b <= p && #[trigger] kin(t, p, c) && t[c].named && !apart(lang, t, c) && (p == b
            || part_of(lang, t, b, p))
}

proof fn lemma_apart(lang: Lang, t: Seq<PieceModel>, c: int)
    requires
        0 <= c < t.len(),
    ensures
        is_nested(lang, t, c) == apart(lang, t, c),
{
    lemma_above(t, c, c - 1);
}

proof fn lemma_above(t: Seq<PieceModel>, c: int, j: int)
    requires
        -1 <= j < c < t.len(),
        forall|k: int| j < k < c ==> (#[trigger] t[k]).depth >= t[c].depth,
    ensures
        match crate::syntax::parent_from(t, c, j) {
            Some(p) => above(t, p, c) && forall|q: int| #[trigger] above(t, q, c) ==> q == p,
            None => forall|q: int| !#[trigger] above(t, q, c),
        },
    decreases j + 1,
{
    if j >= 0 {
        if t[j].depth < t[c].depth {
            assert(above(t, j, c));
            assert forall|q: int| #[trigger] above(t, q, c) implies q == j by {
                if q < j {
                    assert(t[j].depth >= t[c].depth);
                }
            }
        } else {
            lemma_above(t, c, j - 1);
        }
    } else {
        assert forall|q: int| !#[trigger] above(t, q, c) by {
            if above(t, q, c) {
                assert(t[q].depth >= t[c].depth);
            }
        }
    }
}

proof fn lemma_kids_from_has(t: Seq<PieceModel>, i: int, j: int, c: int)
    requires
        0 <= i < j <= t.len(),
    ensures
        kids_from(t, i, j).contains(c) <==> j <= c < end_from(t, i, j) && t[c].depth == t[i].depth
            + 1,
    decreases t.len() - j,
{
    lemma_end_from(t, i, j);
    if j < t.len() && t[j].depth > t[i].depth {
        lemma_kids_from_has(t, i, j + 1, c);
        lemma_end_from(t, i, j + 1);
        let rest = kids_from(t, i, j + 1);
        let ks = kids_from(t, i, j);
        if t[j].depth == t[i].depth + 1 {
            assert(ks[0] == j);
            if rest.contains(c) {
                assert(ks[rest.index_of(c) + 1] == c);
            }
            if ks.contains(c) && c != j {
                let k = ks.index_of(c);
                assert(rest[k - 1] == c);
            }
        }
    }
}

proof fn lemma_kin_range(t: Seq<PieceModel>, i: int, c: int)
    requires
        0 <= i < t.len(),
    ensures
        kin(t, i, c) <==> i < c < end_of(t, i) && t[c].depth == t[i].depth + 1,
{
    lemma_end_from(t, i, i + 1);
    if kin(t, i, c) && c >= end_of(t, i) {
        assert(t[end_of(t, i)].depth > t[i].depth);
    }
}

/// The named children that are walked are the named nodes right below.
pub proof fn lemma_kids_are_kin(t: Seq<PieceModel>, i: int, c: int)
    requires
        0 <= i < t.len(),
    ensures
        named_kids(t, i).contains(c) <==> kin(t, i, c) && t[c].named,
{
    lemma_kids_from_has(t, i, i + 1, c);
    lemma_kin_range(t, i, c);
    lemma_filter_has(crate::syntax::kids(t, i), |c: int| t[c].named);
}

proof fn lemma_part_range(lang: Lang, t: Seq<PieceModel>, b: int, c: int)
    requires
        0 <= b < t.len(),
        part_of(lang, t, b, c),
    ensures
        b < c < end_of(t, b),
        t[c].depth > t[b].depth,
    decreases c,
{
    let p = choose|p: int|
        b <= p && #[trigger] kin(t, p, c) && t[c].named && !apart(lang, t, c) && (p == b || part_of(
            lang,
            t,
            b,
            p,
        ));
    lemma_end_from(t, b, b + 1);
    if p != b {
        lemma_part_range(lang, t, b, p);
    }
    if c >= end_of(t, b) {
        let e = end_of(t, b);
        assert(t[e].depth > t[p].depth);
    }
}

/// A part of a body stands in one of its topmost parts, or is one.
proof fn lemma_part_top(lang: Lang, t: Seq<PieceModel>, b: int, c: int) -> (top: int)
    requires
        0 <= b < t.len(),
        part_of(lang, t, b, c),
    ensures
        kin(t, b, top),
        t[top].named,
        !apart(lang, t, top),
        c == top || part_of(lang, t, top, c),
        top <= c < end_of(t, top),
    decreases c,
{
    let p = choose|p: int|
        b <= p && #[trigger] kin(t, p, c) && t[c].named && !apart(lang, t, c) && (p == b || part_of(
            lang,
            t,
            b,
            p,
        ));
    if p == b {
        lemma_end_from(t, c, c + 1);
        c
    } else {
        let top = lemma_part_top(lang, t, b, p);
        if p != top {
            lemma_part_range(lang, t, top, p);
        }
        assert(part_of(lang, t, top, c)) by {
            assert(kin(t, p, c));
        }
        lemma_part_range(lang, t, top, c);
        top
    }
}

proof fn lemma_top_part(lang: Lang, t: Seq<PieceModel>, b: int, top: int, c: int)
    requires
        0 <= b < t.len(),
        kin(t, b, top),
        t[top].named,
        !apart(lang, t, top),
        c == top || part_of(lang, t, top, c),
    ensures
        part_of(lang, t, b, c),
    decreases c,
{
    if c == top {
        assert(kin(t, b, c));
    } else {
        let p = choose|p: int|
            top <= p && #[trigger] kin(t, p, c) && t[c].named && !apart(lang, t, c) && (p == top
                || part_of(lang, t, top, p));
        lemma_top_part(lang, t, b, top, p);
        assert(kin(t, p, c));
    }
}

/// What part of a body stands from the `k`-th named child on to its end.
proof fn lemma_part_at(lang: Lang, t: Seq<PieceModel>, b: int, a: int, x: int)
    requires
        0 <= b < t.len(),
        0 <= a < named_kids(t, b).len(),
        named_kids(t, b)[a] <= x < end_of(t, named_kids(t, b)[a]),
    ensures
        part_of(lang, t, b, x) <==> !apart(lang, t, named_kids(t, b)[a]) && (x == named_kids(
            t,
            b,
        )[a] || part_of(lang, t, named_kids(t, b)[a], x)),
{
    lemma_named_kids(t, b);
    let ns = named_kids(t, b);
    let c = ns[a];
    assert(ns.contains(c));
    lemma_kids_are_kin(t, b, c);
    if part_of(lang, t, b, x) {
        let top = lemma_part_top(lang, t, b, x);
        lemma_kids_are_kin(t, b, top);
        let m = ns.index_of(top);
        assert(ns[m] == top);
        if m < a {
            assert(end_of(t, ns[m]) <= ns[a]);
        }
        if a < m {
            assert(end_of(t, ns[a]) <= ns[m]);
        }
    }
    if !apart(lang, t, c) && (x == c || part_of(lang, t, c, x)) {
        lemma_top_part(lang, t, b, c, x);
    }
}

/// No part of a body stands between its named children.
proof fn lemma_part_between(lang: Lang, t: Seq<PieceModel>, b: int, a: int, x: int)
    requires
        0 <= b < t.len(),
        0 <= a <= named_kids(t, b).len(),
        a > 0 ==> end_of(t, named_kids(t, b)[a - 1]) <= x,
        a < named_kids(t, b).len() ==> x < named_kids(t, b)[a],
    ensures
        !part_of(lang, t, b, x),
{
    lemma_named_kids(t, b);
    let ns = named_kids(t, b);
    if part_of(lang, t, b, x) {
        let top = lemma_part_top(lang, t, b, x);
        lemma_kids_are_kin(t, b, top);
        let m = ns.index_of(top);
        assert(ns[m] == top);
        if m < a {
            if m < a - 1 {
                assert(end_of(t, ns[m]) <= ns[a - 1]);
                assert(ns[a - 1] < end_of(t, ns[a - 1]));
            }
        } else if m > a {
            assert(end_of(t, ns[a]) <= ns[m]);
            assert(ns[a] < end_of(t, ns[a]));
        }
    }
}

// -- counts ---------------------------------------------------------------------------

/// How many nodes are part of the body at node `b` and meet `f`.
pub open spec fn part_count(
    lang: Lang,
    t: Seq<PieceModel>,
    b: int,
    f: spec_fn(int) -> bool,
) -> nat {
    tally(t.len() as int, part_that(lang, t, b, f))
}

pub open spec fn part_that(
    lang: Lang,
    t: Seq<PieceModel>,
    b: int,
    f: spec_fn(int) -> bool,
) -> spec_fn(int) -> bool {
    |c: int| part_of(lang, t, b, c) && f(c)
}

proof fn lemma_tally_none(lo: int, hi: int, f: spec_fn(int) -> bool)
    requires
        0 <= lo <= hi,
        forall|x: int| lo <= x < hi ==> !#[trigger] f(x),
    ensures
        tally(hi, f) == tally(lo, f),
    decreases hi - lo,
{
    if lo < hi {
        lemma_tally_none(lo, hi - 1, f);
    }
}

proof fn lemma_tally_same(lo: int, hi: int, f: spec_fn(int) -> bool, g: spec_fn(int) -> bool)
    requires
        0 <= lo <= hi,
        forall|x: int| lo <= x < hi ==> #[trigger] f(x) == g(x),
    ensures
        tally(hi, f) - tally(lo, f) == tally(hi, g) - tally(lo, g),
    decreases hi - lo,
{
    if lo < hi {
        lemma_tally_same(lo, hi - 1, f, g);
        assert(f(hi - 1) == g(hi - 1));
    }
}

/// What is counted under a node is counted at the parts of it.
proof fn lemma_scan_count_parts(
    lang: Lang,
    t: Seq<PieceModel>,
    f: spec_fn(int) -> bool,
    b: int,
)
    requires
        0 <= b < t.len(),
    ensures
        scan_count(lang, t, f, b) == part_count(lang, t, b, f),
    decreases t.len() - b, 1nat, 0int,
{
    let n = named_kids(t, b).len() as int;
    let g = part_that(lang, t, b, f);
    lemma_named_kids(t, b);
    lemma_scan_count_kids_parts(lang, t, f, b, n);
    let e = kids_end(t, b, n);
    assert forall|x: int| e <= x < t.len() implies !#[trigger] g(x) by {
        lemma_part_between(lang, t, b, n, x);
    }
    lemma_tally_none(e, t.len() as int, g);
}

/// Where the first `k` named children end.
spec fn kids_end(t: Seq<PieceModel>, b: int, k: int) -> int {
    if k > 0 {
        end_of(t, named_kids(t, b)[k - 1])
    } else {
        b
    }
}

proof fn lemma_scan_count_kids_parts(
    lang: Lang,
    t: Seq<PieceModel>,
    f: spec_fn(int) -> bool,
    b: int,
    k: int,
)
    requires
        0 <= b < t.len(),
        0 <= k <= named_kids(t, b).len(),
    ensures
        scan_count_kids(lang, t, f, b, k) == tally(kids_end(t, b, k), part_that(lang, t, b, f)),
        b <= kids_end(t, b, k) <= t.len(),
    decreases t.len() - b, 0nat, k,
{
    lemma_named_kids(t, b);
    let g = part_that(lang, t, b, f);
    let ns = named_kids(t, b);
    if k == 0 {
        assert forall|x: int| 0 <= x < b implies !#[trigger] g(x) by {
            if part_of(lang, t, b, x) {
                lemma_part_range(lang, t, b, x);
            }
        }
        lemma_tally_none(0, b, g);
    } else {
        let c = ns[k - 1];
        let lo = kids_end(t, b, k - 1);
        lemma_scan_count_kids_parts(lang, t, f, b, k - 1);
        lemma_apart(lang, t, c);
        if k > 1 {
            assert(end_of(t, ns[k - 2]) <= c);
        }
        assert(lo <= c < end_of(t, c) <= t.len());
        assert forall|x: int| lo <= x < c implies !#[trigger] g(x) by {
            if k == 1 && x == b {
                if part_of(lang, t, b, x) {
                    lemma_part_range(lang, t, b, x);
                }
            } else {
                lemma_part_between(lang, t, b, k - 1, x);
            }
        }
        lemma_tally_none(lo, c, g);
        lemma_part_at(lang, t, b, k - 1, c);
        if apart(lang, t, c) {
            assert forall|x: int| c <= x < end_of(t, c) implies !#[trigger] g(x) by {
                lemma_part_at(lang, t, b, k - 1, x);
            }
            lemma_tally_none(c, end_of(t, c), g);
        } else {
            let h = part_that(lang, t, c, f);
            lemma_scan_count_parts(lang, t, f, c);
            assert forall|x: int| c + 1 <= x < end_of(t, c) implies #[trigger] g(x) == h(x) by {
                lemma_part_at(lang, t, b, k - 1, x);
            }
            lemma_tally_same(c + 1, end_of(t, c), g, h);
            assert forall|x: int| 0 <= x < c + 1 implies !#[trigger] h(x) by {
                if part_of(lang, t, c, x) {
                    lemma_part_range(lang, t, c, x);
                }
            }
            lemma_tally_none(0, c + 1, h);
            assert forall|x: int| end_of(t, c) <= x < t.len() implies !#[trigger] h(x) by {
                if part_of(lang, t, c, x) {
                    lemma_part_range(lang, t, c, x);
                }
            }
            lemma_tally_none(end_of(t, c), t.len() as int, h);
            assert(tally(c + 1, g) == tally(c, g) + if g(c) {
                1int
            } else {
                0int
            });
            assert(g(c) == f(c));
        }
    }
}


// -- calls ----------------------------------------------------------------------------

/// What `f` gives for the numbers from `lo` on, below `hi`, one after another.
spec fn stretch<T>(lo: int, hi: int, f: spec_fn(int) -> Seq<T>) -> Seq<T>
    decreases hi - lo,
{
    if lo >= hi {
        Seq::empty()
    } else {
        stretch(lo, hi - 1, f) + f(hi - 1)
    }
}

proof fn lemma_stretch<T>(lo: int, hi: int, f: spec_fn(int) -> Seq<T>)
    requires
        0 <= lo <= hi,
    ensures
        gather(hi, f) == gather(lo, f) + stretch(lo, hi, f),
    decreases hi - lo,
{
    if lo < hi {
        lemma_stretch(lo, hi - 1, f);
        assert(gather(hi, f) =~= gather(lo, f) + stretch(lo, hi, f));
    } else {
        assert(gather(lo, f) + Seq::<T>::empty() =~= gather(lo, f));
    }
}

proof fn lemma_stretch_none<T>(lo: int, hi: int, f: spec_fn(int) -> Seq<T>)
    requires
        forall|x: int| lo <= x < hi ==> (#[trigger] f(x)).len() == 0,
    ensures
        stretch(lo, hi, f) == Seq::<T>::empty(),
    decreases hi - lo,
{
    if lo < hi {
        lemma_stretch_none(lo, hi - 1, f);
        assert(f(hi - 1).len() == 0);
        assert(stretch(lo, hi, f) =~= Seq::<T>::empty());
    }
}

proof fn lemma_stretch_same<T>(lo: int, hi: int, f: spec_fn(int) -> Seq<T>, g: spec_fn(int) -> Seq<T>)
    requires
        forall|x: int| lo <= x < hi ==> #[trigger] f(x) == g(x),
    ensures
        stretch(lo, hi, f) == stretch(lo, hi, g),
    decreases hi - lo,
{
    if lo < hi {
        lemma_stretch_same(lo, hi - 1, f, g);
        assert(f(hi - 1) == g(hi - 1));
    }
}

/// The call that node `c` is, made by `caller` from `module`; nothing where it is none.
pub open spec fn call_at(
    lang: Lang,
    t: Seq<PieceModel>,
    text: Seq<char>,
    c: int,
    caller: Seq<char>,
    module: Seq<char>,
) -> Seq<SiteModel> {
    match callee(lang, t, text, c) {
        Some(x) => seq![
            SiteModel {
                call: CallModel {
                    caller,
                    kind: x.kind,
                    path: x.path,
                    short: x.short,
                    call_site: SourceSpan {
                        file: 0,
                        start_line: (t[c].start_row + 1) as u32,
                        start_col: t[c].start_col,
                        end_line: (t[c].end_row + 1) as u32,
                        end_col: t[c].end_col,
                    },
                },
                module,
            },
        ],
        None => Seq::empty(),
    }
}

/// For each node of the tree, the call that it is where it is part of the body at `b`.
pub open spec fn part_calls(
    lang: Lang,
    t: Seq<PieceModel>,
    text: Seq<char>,
    b: int,
    caller: Seq<char>,
    module: Seq<char>,
) -> spec_fn(int) -> Seq<SiteModel> {
    |c: int|
        if part_of(lang, t, b, c) {
            call_at(lang, t, text, c, caller, module)
        } else {
            Seq::empty()
        }
}

pub proof fn lemma_scan_calls_parts(
    lang: Lang,
    t: Seq<PieceModel>,
    text: Seq<char>,
    b: int,
    caller: Seq<char>,
    module: Seq<char>,
)
    requires
        0 <= b < t.len(),
    ensures
        scan_calls(lang, t, text, b, caller, module) == gather(
            t.len() as int,
            part_calls(lang, t, text, b, caller, module),
        ),
    decreases t.len() - b, 1nat, 0int,
{
    let n = named_kids(t, b).len() as int;
    let g = part_calls(lang, t, text, b, caller, module);
    lemma_named_kids(t, b);
    lemma_scan_calls_kids_parts(lang, t, text, b, caller, module, n);
    let e = kids_end(t, b, n);
    assert forall|x: int| e <= x < t.len() implies (#[trigger] g(x)).len() == 0 by {
        lemma_part_between(lang, t, b, n, x);
    }
    lemma_stretch_none(e, t.len() as int, g);
    lemma_stretch(e, t.len() as int, g);
    assert(gather(e, g) + Seq::<SiteModel>::empty() =~= gather(e, g));
}

proof fn lemma_scan_calls_kids_parts(
    lang: Lang,
    t: Seq<PieceModel>,
    text: Seq<char>,
    b: int,
    caller: Seq<char>,
    module: Seq<char>,
    k: int,
)
    requires
        0 <= b < t.len(),
        0 <= k <= named_kids(t, b).len(),
    ensures
        scan_calls_kids(lang, t, text, b, caller, module, k) == gather(
            kids_end(t, b, k),
            part_calls(lang, t, text, b, caller, module),
        ),
        b <= kids_end(t, b, k) <= t.len(),
    decreases t.len() - b, 0nat, k,
{
    lemma_named_kids(t, b);
    let g = part_calls(lang, t, text, b, caller, module);
    let ns = named_kids(t, b);
    let none = Seq::<SiteModel>::empty();
    if k == 0 {
        assert forall|x: int| 0 <= x < b implies (#[trigger] g(x)).len() == 0 by {
            if part_of(lang, t, b, x) {
                lemma_part_range(lang, t, b, x);
            }
        }
        lemma_stretch_none(0, b, g);
        lemma_stretch(0, b, g);
        assert(gather(b, g) =~= none);
    } else {
        let c = ns[k - 1];
        let lo = kids_end(t, b, k - 1);
        let e = end_of(t, c);
        lemma_scan_calls_kids_parts(lang, t, text, b, caller, module, k - 1);
        lemma_apart(lang, t, c);
        if k > 1 {
            assert(end_of(t, ns[k - 2]) <= c);
        }
        assert(lo <= c < e <= t.len());
        assert forall|x: int| lo <= x < c implies (#[trigger] g(x)).len() == 0 by {
            if k == 1 && x == b {
                if part_of(lang, t, b, x) {
                    lemma_part_range(lang, t, b, x);
                }
            } else {
                lemma_part_between(lang, t, b, k - 1, x);
            }
        }
        lemma_stretch_none(lo, c, g);
        lemma_stretch(lo, c, g);
        assert(gather(lo, g) + none =~= gather(lo, g));
        lemma_part_at(lang, t, b, k - 1, c);
        if apart(lang, t, c) {
            assert forall|x: int| c <= x < e implies (#[trigger] g(x)).len() == 0 by {
                lemma_part_at(lang, t, b, k - 1, x);
            }
            lemma_stretch_none(c, e, g);
            lemma_stretch(c, e, g);
            assert(gather(c, g) + none =~= gather(c, g));
        } else {
            let h = part_calls(lang, t, text, c, caller, module);
            lemma_scan_calls_parts(lang, t, text, c, caller, module);
            assert forall|x: int| c + 1 <= x < e implies #[trigger] g(x) == h(x) by {
                lemma_part_at(lang, t, b, k - 1, x);
            }
            lemma_stretch_same(c + 1, e, g, h);
            lemma_stretch(c + 1, e, g);
            assert forall|x: int| 0 <= x < c + 1 implies (#[trigger] h(x)).len() == 0 by {
                if part_of(lang, t, c, x) {
                    lemma_part_range(lang, t, c, x);
                }
            }
            lemma_stretch_none(0, c + 1, h);
            lemma_stretch(0, c + 1, h);
            lemma_stretch(c + 1, e, h);
            assert forall|x: int| e <= x < t.len() implies (#[trigger] h(x)).len() == 0 by {
                if part_of(lang, t, c, x) {
                    lemma_part_range(lang, t, c, x);
                }
            }
            lemma_stretch_none(e, t.len() as int, h);
            lemma_stretch(e, t.len() as int, h);
            let own = own_call(lang, t, text, c, caller, module);
            assert(g(c) =~= own);
            assert(gather(c + 1, g) == gather(c, g) + g(c));
            let inner = scan_calls(lang, t, text, c, caller, module);
            assert(inner =~= stretch(c + 1, e, h));
            assert(gather(e, g) =~= gather(lo, g) + own + inner);
        }
    }
}

// -- levels ---------------------------------------------------------------------------

/// Node `c` is node `a` or stands under it.
pub open spec fn around(t: Seq<PieceModel>, a: int, c: int) -> bool {
    a <= c && forall|k: int| a < k <= c ==> (#[trigger] t[k]).depth > t[a].depth
}

/// The nodes around node `c`, itself included, that are part of the body at `b` and meet
/// `f`.
pub open spec fn part_around(
    lang: Lang,
    t: Seq<PieceModel>,
    b: int,
    f: spec_fn(int) -> bool,
    c: int,
) -> spec_fn(int) -> bool {
    |a: int| part_of(lang, t, b, a) && around(t, a, c) && f(a)
}

/// How many they are.
pub open spec fn level(
    lang: Lang,
    t: Seq<PieceModel>,
    b: int,
    f: spec_fn(int) -> bool,
    c: int,
) -> nat {
    tally(t.len() as int, part_around(lang, t, b, f, c))
}

spec fn deepens(lang: Lang, t: Seq<PieceModel>) -> spec_fn(int) -> bool {
    |c: int| nests(lang, t, c)
}

/// The level of a part is one more than in the topmost part that it stands in, where that
/// one deepens.
proof fn lemma_level(
    lang: Lang,
    t: Seq<PieceModel>,
    b: int,
    f: spec_fn(int) -> bool,
    a: int,
    x: int,
)
    requires
        0 <= b < t.len(),
        0 <= a < named_kids(t, b).len(),
        named_kids(t, b)[a] <= x < end_of(t, named_kids(t, b)[a]),
        !apart(lang, t, named_kids(t, b)[a]),
    ensures
        level(lang, t, b, f, x) == level(lang, t, named_kids(t, b)[a], f, x) + if f(
            named_kids(t, b)[a],
        ) {
            1int
        } else {
            0int
        },
{
    lemma_named_kids(t, b);
    let ns = named_kids(t, b);
    let c = ns[a];
    let n = t.len() as int;
    let g = part_around(lang, t, b, f, x);
    let h = part_around(lang, t, c, f, x);
    lemma_end_from(t, c, c + 1);
    lemma_part_at(lang, t, b, a, c);
    assert forall|y: int| 0 <= y < c implies !#[trigger] g(y) by {
        if g(y) {
            let top = lemma_part_top(lang, t, b, y);
            lemma_kids_are_kin(t, b, top);
            let m = ns.index_of(top);
            assert(ns[m] == top);
            if m > a {
                assert(end_of(t, ns[a]) <= ns[m]);
            }
            assert(m < a) by {
                if m == a {
                    assert(top <= y);
                }
            }
            assert(end_of(t, ns[m]) <= ns[a]);
            let e = end_of(t, top);
            lemma_end_from(t, top, top + 1);
            assert(t[e].depth > t[y].depth);
            if y != top {
                lemma_part_range(lang, t, top, y);
            }
            assert(t[e].depth <= t[top].depth);
        }
    }
    lemma_tally_none(0, c, g);
    assert(around(t, c, x));
    assert(g(c) == f(c));
    assert(tally(c + 1, g) == tally(c, g) + if g(c) {
        1int
    } else {
        0int
    });
    assert forall|y: int| 0 <= y < c + 1 implies !#[trigger] h(y) by {
        if part_of(lang, t, c, y) {
            lemma_part_range(lang, t, c, y);
        }
    }
    lemma_tally_none(0, c + 1, h);
    assert forall|y: int| c + 1 <= y < n implies #[trigger] g(y) == h(y) by {
        if y < end_of(t, c) {
            lemma_part_at(lang, t, b, a, y);
        } else {
            assert(!around(t, y, x));
        }
    }
    lemma_tally_same(c + 1, n, g, h);
}

/// Some part of the body stands at the level, counted from `d` on.
spec fn stands_at(lang: Lang, t: Seq<PieceModel>, b: int, d: nat, n: nat) -> bool {
    exists|x: int| #[trigger] part_of(lang, t, b, x) && n == d + level(
        lang,
        t,
        b,
        deepens(lang, t),
        x,
    )
}

proof fn lemma_scan_depth_parts(lang: Lang, t: Seq<PieceModel>, b: int, d: nat)
    requires
        0 <= b < t.len(),
    ensures
        forall|x: int| #[trigger]
            part_of(lang, t, b, x) ==> d + level(lang, t, b, deepens(lang, t), x) <= scan_depth(
                lang,
                t,
                b,
                d,
            ),
        scan_depth(lang, t, b, d) == 0 || stands_at(lang, t, b, d, scan_depth(lang, t, b, d)),
    decreases t.len() - b, 1nat, 0int,
{
    let n = named_kids(t, b).len() as int;
    lemma_named_kids(t, b);
    lemma_scan_depth_kids_parts(lang, t, b, d, n);
    let f = deepens(lang, t);
    assert forall|x: int| #[trigger] part_of(lang, t, b, x) implies d + level(lang, t, b, f, x)
        <= scan_depth(lang, t, b, d) by {
        if x >= kids_end(t, b, n) && x > b {
            lemma_part_between(lang, t, b, n, x);
        }
        lemma_part_range(lang, t, b, x);
    }
}

proof fn lemma_scan_depth_kids_parts(lang: Lang, t: Seq<PieceModel>, b: int, d: nat, k: int)
    requires
        0 <= b < t.len(),
        0 <= k <= named_kids(t, b).len(),
    ensures
        b <= kids_end(t, b, k) <= t.len(),
        forall|x: int| #[trigger]
            part_of(lang, t, b, x) && x < kids_end(t, b, k) ==> d + level(
                lang,
                t,
                b,
                deepens(lang, t),
                x,
            ) <= scan_depth_kids(lang, t, b, d, k),
        scan_depth_kids(lang, t, b, d, k) == 0 || stands_at(
            lang,
            t,
            b,
            d,
            scan_depth_kids(lang, t, b, d, k),
        ),
    decreases t.len() - b, 0nat, k,
{
    lemma_named_kids(t, b);
    let f = deepens(lang, t);
    let ns = named_kids(t, b);
    if k == 0 {
        assert forall|x: int| #[trigger] part_of(lang, t, b, x) && x < b implies d + level(
            lang,
            t,
            b,
            f,
            x,
        ) <= scan_depth_kids(lang, t, b, d, k) by {
            lemma_part_range(lang, t, b, x);
        }
    } else {
        let c = ns[k - 1];
        let lo = kids_end(t, b, k - 1);
        let e = end_of(t, c);
        lemma_scan_depth_kids_parts(lang, t, b, d, k - 1);
        lemma_apart(lang, t, c);
        if k > 1 {
            assert(end_of(t, ns[k - 2]) <= c);
        }
        let all = scan_depth_kids(lang, t, b, d, k);
        let before = scan_depth_kids(lang, t, b, d, k - 1);
        if apart(lang, t, c) {
            assert forall|x: int| #[trigger] part_of(lang, t, b, x) && x < e implies d + level(
                lang,
                t,
                b,
                f,
                x,
            ) <= all by {
                if x >= c {
                    lemma_part_at(lang, t, b, k - 1, x);
                } else if x >= lo {
                    lemma_part_range(lang, t, b, x);
                    lemma_part_between(lang, t, b, k - 1, x);
                }
            }
        } else {
            let d2 = d + if nests(lang, t, c) {
                1nat
            } else {
                0nat
            };
            lemma_scan_depth_parts(lang, t, c, d2);
            lemma_part_at(lang, t, b, k - 1, c);
            lemma_level(lang, t, b, f, k - 1, c);
            assert(level(lang, t, c, f, c) == 0) by {
                let h = part_around(lang, t, c, f, c);
                assert forall|y: int| 0 <= y < t.len() implies !#[trigger] h(y) by {
                    if part_of(lang, t, c, y) {
                        lemma_part_range(lang, t, c, y);
                    }
                }
                lemma_tally_none(0, t.len() as int, h);
            }
            assert(d2 == d + level(lang, t, b, f, c));
            let inner = scan_depth(lang, t, c, d2);
            assert forall|x: int| #[trigger] part_of(lang, t, b, x) && x < e implies d + level(
                lang,
                t,
                b,
                f,
                x,
            ) <= all by {
                if x >= c {
                    lemma_part_at(lang, t, b, k - 1, x);
                    lemma_level(lang, t, b, f, k - 1, x);
                    if x != c {
                        assert(part_of(lang, t, c, x));
                    }
                } else if x >= lo {
                    lemma_part_range(lang, t, b, x);
                    lemma_part_between(lang, t, b, k - 1, x);
                }
            }
            if all == d2 {
                assert(part_of(lang, t, b, c));
                assert(stands_at(lang, t, b, d, all));
            } else if all == inner && inner != 0 {
                let x = choose|x: int| #[trigger]
                    part_of(lang, t, c, x) && inner == d2 + level(lang, t, c, f, x);
                lemma_part_range(lang, t, c, x);
                lemma_part_at(lang, t, b, k - 1, x);
                lemma_level(lang, t, b, f, k - 1, x);
                assert(part_of(lang, t, b, x));
                assert(stands_at(lang, t, b, d, all));
            }
        }
    }
}


// -- what is counted ------------------------------------------------------------------

/// Node `b` is the body of node `func`: its first child in that field.
pub open spec fn body_at(t: Seq<PieceModel>, func: int, b: int) -> bool {
    &&& kin(t, func, b)
    &&& t[b].field == "body"@
    &&& forall|x: int| #[trigger] kin(t, func, x) && x < b ==> t[x].field != "body"@
}

/// A child of node `c` is one of two or three words.
pub open spec fn holds_word(
    t: Seq<PieceModel>,
    c: int,
    one: Seq<char>,
    two: Seq<char>,
    three: Seq<char>,
) -> bool {
    exists|j: int| #[trigger]
        kin(t, c, j) && (t[j].kind == one || t[j].kind == two || t[j].kind == three)
}

/// The nodes at which the control flow decides, by their kinds.
pub open spec fn decision(lang: Lang, t: Seq<PieceModel>) -> spec_fn(int) -> bool {
    |c: int|
        {
            let k = t[c].kind;
            match lang {
                Lang::Rust => {
                    ||| k == "if_expression"@
                    ||| k == "match_arm"@
                    ||| k == "while_expression"@
                    ||| k == "for_expression"@
                    ||| k == "loop_expression"@
                    ||| k == "try_expression"@
                    ||| k == "binary_expression"@ && holds_word(t, c, "&&"@, "||"@, "||"@)
                },
                Lang::Go => {
                    ||| k == "if_statement"@
                    ||| k == "for_statement"@
                    ||| k == "expression_case"@
                    ||| k == "type_case"@
                    ||| k == "communication_case"@
                    ||| k == "binary_expression"@ && holds_word(t, c, "&&"@, "||"@, "||"@)
                },
                Lang::Python => {
                    ||| k == "if_statement"@
                    ||| k == "elif_clause"@
                    ||| k == "for_statement"@
                    ||| k == "while_statement"@
                    ||| k == "except_clause"@
                    ||| k == "case_clause"@
                    ||| k == "boolean_operator"@
                    ||| k == "conditional_expression"@
                },
                Lang::TypeScript => {
                    ||| k == "if_statement"@
                    ||| k == "for_statement"@
                    ||| k == "for_in_statement"@
                    ||| k == "while_statement"@
                    ||| k == "do_statement"@
                    ||| k == "switch_case"@
                    ||| k == "catch_clause"@
                    ||| k == "ternary_expression"@
                    ||| k == "binary_expression"@ && holds_word(t, c, "&&"@, "||"@, "??"@)
                },
            }
        }
}

/// The statements that are counted, by their kinds.
pub open spec fn statement(lang: Lang, t: Seq<PieceModel>) -> spec_fn(int) -> bool {
    |c: int|
        {
            let k = t[c].kind;
            match lang {
                Lang::Rust => k == "let_declaration"@ || k == "expression_statement"@,
                Lang::Go => {
                    ||| k == "short_var_declaration"@
                    ||| k == "assignment_statement"@
                    ||| k == "expression_statement"@
                    ||| k == "inc_statement"@
                    ||| k == "dec_statement"@
                    ||| k == "var_declaration"@
                    ||| k == "const_declaration"@
                    ||| k == "defer_statement"@
                    ||| k == "go_statement"@
                    ||| k == "send_statement"@
                },
                Lang::Python => k == "expression_statement"@,
                Lang::TypeScript => k == "lexical_declaration"@ || k == "variable_declaration"@ || k
                    == "expression_statement"@,
            }
        }
}

/// The returns.
pub open spec fn leaving(lang: Lang, t: Seq<PieceModel>) -> spec_fn(int) -> bool {
    |c: int|
        t[c].kind == if lang == Lang::Rust {
            "return_expression"@
        } else {
            "return_statement"@
        }
}

/// The blocks that are marked unsafe; only Rust has them.
pub open spec fn unchecked(lang: Lang, t: Seq<PieceModel>) -> spec_fn(int) -> bool {
    |c: int| lang == Lang::Rust && t[c].kind == "unsafe_block"@
}

/// The points at which a function waits; a Go function has none.
pub open spec fn waiting(lang: Lang, t: Seq<PieceModel>) -> spec_fn(int) -> bool {
    |c: int|
        match lang {
            Lang::Rust => t[c].kind == "await_expression"@,
            Lang::Go => false,
            Lang::Python => t[c].kind == "await"@,
            Lang::TypeScript => t[c].kind == "await_expression"@,
        }
}

/// The nodes that allocate, by their kinds and by what they call.
pub open spec fn allocating(lang: Lang, t: Seq<PieceModel>, text: Seq<char>) -> spec_fn(int) -> bool {
    |c: int|
        {
            let k = t[c].kind;
            let x = callee(lang, t, text, c);
            let short = x->0.short;
            let path = x->0.path;
            match lang {
                Lang::Rust => x is Some && if x->0.kind == CallKind::Macro {
                    short == "vec"@ || short == "format"@
                } else {
                    ||| short == "clone"@
                    ||| short == "to_owned"@
                    ||| short == "to_vec"@
                    ||| short == "to_string"@
                    ||| path == "Box::new"@
                    ||| path == "Rc::new"@
                    ||| path == "Arc::new"@
                    ||| path == "Vec::new"@
                    ||| path == "Vec::with_capacity"@
                    ||| path == "Vec::from"@
                    ||| path == "String::new"@
                    ||| path == "String::from"@
                    ||| path == "HashMap::new"@
                    ||| path == "BTreeMap::new"@
                    ||| path == "HashSet::new"@
                },
                Lang::Go => x is Some && (short == "make"@ || short == "new"@ || short
                    == "append"@),
                Lang::Python => {
                    ||| k == "list_comprehension"@
                    ||| k == "dictionary_comprehension"@
                    ||| k == "set_comprehension"@
                    ||| k == "generator_expression"@
                    ||| x is Some && (short == "list"@ || short == "dict"@ || short == "set"@
                        || short == "tuple"@ || short == "bytearray"@)
                },
                Lang::TypeScript => k == "new_expression"@,
            }
        }
}

/// The nodes inside which everything is nested one level deeper, by their kinds.
pub open spec fn nesting(lang: Lang, t: Seq<PieceModel>) -> spec_fn(int) -> bool {
    |c: int|
        {
            let k = t[c].kind;
            match lang {
                Lang::Rust => {
                    ||| k == "if_expression"@
                    ||| k == "match_expression"@
                    ||| k == "while_expression"@
                    ||| k == "for_expression"@
                    ||| k == "loop_expression"@
                    ||| k == "unsafe_block"@
                },
                Lang::Go => {
                    ||| k == "if_statement"@
                    ||| k == "for_statement"@
                    ||| k == "expression_switch_statement"@
                    ||| k == "type_switch_statement"@
                    ||| k == "select_statement"@
                },
                Lang::Python => {
                    ||| k == "if_statement"@
                    ||| k == "for_statement"@
                    ||| k == "while_statement"@
                    ||| k == "with_statement"@
                    ||| k == "try_statement"@
                    ||| k == "match_statement"@
                },
                Lang::TypeScript => {
                    ||| k == "if_statement"@
                    ||| k == "for_statement"@
                    ||| k == "for_in_statement"@
                    ||| k == "while_statement"@
                    ||| k == "do_statement"@
                    ||| k == "switch_statement"@
                    ||| k == "catch_clause"@
                },
            }
        }
}

/// The parameters in a list of them, by their kinds. A `self` is none.
pub open spec fn parameter(lang: Lang, t: Seq<PieceModel>, p: int) -> spec_fn(int) -> bool {
    |c: int|
        {
            let k = t[c].kind;
            kin(t, p, c) && t[c].named && match lang {
                Lang::Rust => k == "parameter"@ || k == "variadic_parameter"@,
                Lang::Go => k == "parameter_declaration"@ || k
                    == "variadic_parameter_declaration"@,
                Lang::Python => {
                    ||| k == "identifier"@
                    ||| k == "typed_parameter"@
                    ||| k == "default_parameter"@
                    ||| k == "typed_default_parameter"@
                    ||| k == "list_splat_pattern"@
                    ||| k == "dictionary_splat_pattern"@
                    ||| k == "tuple_pattern"@
                },
                Lang::TypeScript => k == "required_parameter"@ || k == "optional_parameter"@,
            }
        }
}

proof fn lemma_word_from(
    t: Seq<PieceModel>,
    i: int,
    a: Seq<char>,
    b: Seq<char>,
    c: Seq<char>,
    j: int,
)
    requires
        0 <= i < j <= t.len(),
    ensures
        token_from(t, i, a, b, c, j) <==> exists|x: int|
            j <= x < end_from(t, i, j) && (#[trigger] t[x]).depth == t[i].depth + 1 && (t[x].kind
                == a || t[x].kind == b || t[x].kind == c),
    decreases t.len() - j,
{
    lemma_end_from(t, i, j);
    if j < t.len() && t[j].depth > t[i].depth {
        lemma_word_from(t, i, a, b, c, j + 1);
        lemma_end_from(t, i, j + 1);
        assert(end_from(t, i, j) == end_from(t, i, j + 1));
        if token_from(t, i, a, b, c, j) {
            if t[j].depth == t[i].depth + 1 && (t[j].kind == a || t[j].kind == b || t[j].kind
                == c) {
                assert(j <= j < end_from(t, i, j));
            } else {
                let x = choose|x: int|
                    j + 1 <= x < end_from(t, i, j + 1) && (#[trigger] t[x]).depth == t[i].depth + 1
                        && (t[x].kind == a || t[x].kind == b || t[x].kind == c);
                assert(j <= x < end_from(t, i, j));
            }
        }
    }
}

pub proof fn lemma_word(t: Seq<PieceModel>, i: int, a: Seq<char>, b: Seq<char>, c: Seq<char>)
    requires
        0 <= i < t.len(),
    ensures
        has_token(t, i, a, b, c) == holds_word(t, i, a, b, c),
{
    lemma_word_from(t, i, a, b, c, i + 1);
    if has_token(t, i, a, b, c) {
        let x = choose|x: int|
            i + 1 <= x < end_of(t, i) && (#[trigger] t[x]).depth == t[i].depth + 1 && (t[x].kind
                == a || t[x].kind == b || t[x].kind == c);
        lemma_kin_range(t, i, x);
        assert(kin(t, i, x));
    }
    if holds_word(t, i, a, b, c) {
        let x = choose|x: int| #[trigger]
            kin(t, i, x) && (t[x].kind == a || t[x].kind == b || t[x].kind == c);
        lemma_kin_range(t, i, x);
        assert(t[x].depth == t[i].depth + 1);
    }
}

proof fn lemma_counted(lang: Lang, t: Seq<PieceModel>, text: Seq<char>, c: int)
    requires
        0 <= c < t.len(),
    ensures
        counted(lang, t, text, Measure::Decisions)(c) == decision(lang, t)(c),
        counted(lang, t, text, Measure::Statements)(c) == statement(lang, t)(c),
        counted(lang, t, text, Measure::Returns)(c) == leaving(lang, t)(c),
        counted(lang, t, text, Measure::UnsafeBlocks)(c) == unchecked(lang, t)(c),
        counted(lang, t, text, Measure::Allocations)(c) == allocating(lang, t, text)(c),
        counted(lang, t, text, Measure::Awaits)(c) == waiting(lang, t)(c),
        nests(lang, t, c) == nesting(lang, t)(c),
{
    lemma_word(t, c, "&&"@, "||"@, "||"@);
    lemma_word(t, c, "&&"@, "||"@, "??"@);
}

proof fn lemma_part_count_same(
    lang: Lang,
    t: Seq<PieceModel>,
    b: int,
    f: spec_fn(int) -> bool,
    g: spec_fn(int) -> bool,
)
    requires
        forall|c: int| 0 <= c < t.len() ==> #[trigger] f(c) == g(c),
    ensures
        part_count(lang, t, b, f) == part_count(lang, t, b, g),
{
    let x = part_that(lang, t, b, f);
    let y = part_that(lang, t, b, g);
    assert forall|c: int| 0 <= c < t.len() implies #[trigger] x(c) == y(c) by {
        assert(f(c) == g(c));
    }
    lemma_tally_same(0, t.len() as int, x, y);
}

pub proof fn lemma_body(t: Seq<PieceModel>, func: int, name: Seq<char>)
    requires
        0 <= func < t.len(),
    ensures
        match field_kid(t, func, name) {
            Some(b) => kin(t, func, b) && t[b].field == name && forall|x: int| #[trigger]
                kin(t, func, x) && x < b ==> t[x].field != name,
            None => forall|x: int| #[trigger] kin(t, func, x) ==> t[x].field != name,
        },
{
    lemma_end_from(t, func, func + 1);
    lemma_field_first(t, func, name, func + 1);
    assert forall|x: int| kin(t, func, x) <==> func < x < end_of(t, func) && #[trigger] t[x].depth
        == t[func].depth + 1 by {
        lemma_kin_range(t, func, x);
    }
    if let Some(b) = field_kid(t, func, name) {
        lemma_kin_range(t, func, b);
    }
}

proof fn lemma_field_first(t: Seq<PieceModel>, i: int, name: Seq<char>, j: int)
    requires
        0 <= i < j <= t.len(),
    ensures
        match field_from(t, i, name, j) {
            Some(c) => j <= c < end_from(t, i, j) && t[c].depth == t[i].depth + 1 && t[c].field
                == name && forall|x: int|
                j <= x < c && (#[trigger] t[x]).depth == t[i].depth + 1 ==> t[x].field != name,
            None => forall|x: int|
                j <= x < end_from(t, i, j) && (#[trigger] t[x]).depth == t[i].depth + 1
                    ==> t[x].field != name,
        },
    decreases t.len() - j,
{
    lemma_end_from(t, i, j);
    if j < t.len() && t[j].depth > t[i].depth && !(t[j].depth == t[i].depth + 1 && t[j].field
        == name) {
        lemma_field_first(t, i, name, j + 1);
    }
}

proof fn lemma_body_is(t: Seq<PieceModel>, func: int, b: int)
    requires
        0 <= func < t.len(),
        body_at(t, func, b),
    ensures
        field_kid(t, func, "body"@) == Some(b),
{
    lemma_body(t, func, "body"@);
}

/// What is measured of a function is counted at the parts of its body: the decision
/// points, statements, returns, unsafe blocks, allocations and waits are as many as the
/// body has parts of those kinds, wherever in it they stand.
pub proof fn law_measures_count_the_parts_of_a_body(
    lang: Lang,
    t: Seq<PieceModel>,
    text: Seq<char>,
    func: int,
    b: int,
)
    requires
        fits(t),
        body_at(t, func, b),
    ensures
        stats(lang, t, text, func).decision_points == part_count(lang, t, b, decision(lang, t)),
        stats(lang, t, text, func).statements == part_count(lang, t, b, statement(lang, t)),
        stats(lang, t, text, func).returns == part_count(lang, t, b, leaving(lang, t)),
        stats(lang, t, text, func).unsafe_blocks == part_count(lang, t, b, unchecked(lang, t)),
        stats(lang, t, text, func).allocations == part_count(
            lang,
            t,
            b,
            allocating(lang, t, text),
        ),
        stats(lang, t, text, func).awaits == part_count(lang, t, b, waiting(lang, t)),
{
    lemma_body_is(t, func, b);
    assert forall|c: int| 0 <= c < t.len() implies #[trigger] counted(
        lang,
        t,
        text,
        Measure::Decisions,
    )(c) == decision(lang, t)(c) by {
        lemma_counted(lang, t, text, c);
    }
    assert forall|c: int| 0 <= c < t.len() implies #[trigger] counted(
        lang,
        t,
        text,
        Measure::Statements,
    )(c) == statement(lang, t)(c) by {
        lemma_counted(lang, t, text, c);
    }
    assert forall|c: int| 0 <= c < t.len() implies #[trigger] counted(
        lang,
        t,
        text,
        Measure::Returns,
    )(c) == leaving(lang, t)(c) by {
        lemma_counted(lang, t, text, c);
    }
    assert forall|c: int| 0 <= c < t.len() implies #[trigger] counted(
        lang,
        t,
        text,
        Measure::UnsafeBlocks,
    )(c) == unchecked(lang, t)(c) by {
        lemma_counted(lang, t, text, c);
    }
    assert forall|c: int| 0 <= c < t.len() implies #[trigger] counted(
        lang,
        t,
        text,
        Measure::Allocations,
    )(c) == allocating(lang, t, text)(c) by {
        lemma_counted(lang, t, text, c);
    }
    assert forall|c: int| 0 <= c < t.len() implies #[trigger] counted(
        lang,
        t,
        text,
        Measure::Awaits,
    )(c) == waiting(lang, t)(c) by {
        lemma_counted(lang, t, text, c);
    }
    lemma_measure(lang, t, counted(lang, t, text, Measure::Decisions), decision(lang, t), b);
    lemma_measure(lang, t, counted(lang, t, text, Measure::Statements), statement(lang, t), b);
    lemma_measure(lang, t, counted(lang, t, text, Measure::Returns), leaving(lang, t), b);
    lemma_measure(lang, t, counted(lang, t, text, Measure::UnsafeBlocks), unchecked(lang, t), b);
    lemma_measure(
        lang,
        t,
        counted(lang, t, text, Measure::Allocations),
        allocating(lang, t, text),
        b,
    );
    lemma_measure(lang, t, counted(lang, t, text, Measure::Awaits), waiting(lang, t), b);
}

proof fn lemma_measure(
    lang: Lang,
    t: Seq<PieceModel>,
    f: spec_fn(int) -> bool,
    g: spec_fn(int) -> bool,
    b: int,
)
    requires
        fits(t),
        0 <= b < t.len(),
        forall|c: int| 0 <= c < t.len() ==> #[trigger] f(c) == g(c),
    ensures
        scan_count(lang, t, f, b) == part_count(lang, t, b, g),
        scan_count(lang, t, f, b) <= u32::MAX,
{
    lemma_scan_count_parts(lang, t, f, b);
    lemma_part_count_same(lang, t, b, f, g);
    lemma_tally_bound(t.len() as int, part_that(lang, t, b, f));
}

/// A function without a body has nothing in it to measure.
pub proof fn law_no_body_measures_nothing(
    lang: Lang,
    t: Seq<PieceModel>,
    text: Seq<char>,
    func: int,
)
    requires
        0 <= func < t.len(),
        forall|b: int| !#[trigger] body_at(t, func, b),
    ensures
        stats(lang, t, text, func).decision_points == 0,
        stats(lang, t, text, func).statements == 0,
        stats(lang, t, text, func).max_nesting == 0,
        stats(lang, t, text, func).returns == 0,
        stats(lang, t, text, func).unsafe_blocks == 0,
        stats(lang, t, text, func).allocations == 0,
        stats(lang, t, text, func).awaits == 0,
{
    lemma_body(t, func, "body"@);
    if let Some(b) = field_kid(t, func, "body"@) {
        assert(body_at(t, func, b));
    }
}

/// The nesting of a function is the number of nesting nodes around its deepest part: no
/// part of the body has more of them around it, and some part has as many.
pub proof fn law_nesting_is_that_of_the_deepest_part(
    lang: Lang,
    t: Seq<PieceModel>,
    text: Seq<char>,
    func: int,
    b: int,
)
    requires
        fits(t),
        body_at(t, func, b),
    ensures
        forall|c: int| #[trigger]
            part_of(lang, t, b, c) ==> level(lang, t, b, nesting(lang, t), c) <= stats(
                lang,
                t,
                text,
                func,
            ).max_nesting,
        stats(lang, t, text, func).max_nesting > 0 ==> exists|c: int| #[trigger]
            part_of(lang, t, b, c) && level(lang, t, b, nesting(lang, t), c) == stats(
                lang,
                t,
                text,
                func,
            ).max_nesting,
{
    lemma_body_is(t, func, b);
    lemma_scan_depth_parts(lang, t, b, 0);
    let f = deepens(lang, t);
    let g = nesting(lang, t);
    let n = t.len() as int;
    let top = scan_depth(lang, t, b, 0);
    assert forall|c: int| level(lang, t, b, f, c) == #[trigger] level(lang, t, b, g, c) && level(
        lang,
        t,
        b,
        g,
        c,
    ) <= n by {
        let x = part_around(lang, t, b, f, c);
        let y = part_around(lang, t, b, g, c);
        assert forall|a: int| 0 <= a < n implies #[trigger] x(a) == y(a) by {
            lemma_counted(lang, t, text, a);
        }
        lemma_tally_same(0, n, x, y);
        lemma_tally_bound(n, y);
    }
    if top > 0 {
        let c = choose|c: int| #[trigger]
            part_of(lang, t, b, c) && top == 0 + level(lang, t, b, f, c);
        assert(level(lang, t, b, g, c) == top);
    }
    assert(top <= n);
    assert forall|c: int| #[trigger] part_of(lang, t, b, c) implies level(lang, t, b, g, c)
        <= top by {
        assert(level(lang, t, b, f, c) == level(lang, t, b, g, c));
    }
}

proof fn lemma_kid_count(t: Seq<PieceModel>, i: int, f: spec_fn(int) -> bool, k: int)
    requires
        0 <= i < t.len(),
        0 <= k <= named_kids(t, i).len(),
    ensures
        kid_count(t, i, f, k) == tally(
            if k > 0 {
                named_kids(t, i)[k - 1] + 1
            } else {
                0
            },
            |c: int| kin(t, i, c) && t[c].named && f(c),
        ),
    decreases k,
{
    let g = |c: int| kin(t, i, c) && t[c].named && f(c);
    let ns = named_kids(t, i);
    lemma_named_kids(t, i);
    if k > 0 {
        lemma_kid_count(t, i, f, k - 1);
        let c = ns[k - 1];
        assert(ns.contains(c));
        lemma_kids_are_kin(t, i, c);
        let lo = if k > 1 {
            ns[k - 2] + 1
        } else {
            0
        };
        if k > 1 {
            assert(end_of(t, ns[k - 2]) <= c);
        }
        assert forall|x: int| lo <= x < c implies !#[trigger] g(x) by {
            if g(x) {
                lemma_no_kid_between(t, i, k - 1, x);
            }
        }
        lemma_tally_none(lo, c, g);
        assert(tally(c + 1, g) == tally(c, g) + if g(c) {
            1nat
        } else {
            0nat
        });
    }
}

/// Some named child is counted exactly when there is one.
pub proof fn lemma_some_kid(t: Seq<PieceModel>, i: int, f: spec_fn(int) -> bool)
    requires
        0 <= i < t.len(),
    ensures
        kid_count(t, i, f, named_kids(t, i).len() as int) > 0 <==> exists|x: int| #[trigger]
            kin(t, i, x) && t[x].named && f(x),
{
    let g = |c: int| kin(t, i, c) && t[c].named && f(c);
    let ns = named_kids(t, i);
    let n = ns.len() as int;
    lemma_kid_count(t, i, f, n);
    lemma_named_kids(t, i);
    let e = if n > 0 {
        ns[n - 1] + 1
    } else {
        0
    };
    lemma_tally_zero(e, g);
    if kid_count(t, i, f, n) > 0 {
        let x = choose|x: int| 0 <= x < e && #[trigger] g(x);
        assert(kin(t, i, x));
    }
    if exists|x: int| #[trigger] kin(t, i, x) && t[x].named && f(x) {
        let x = choose|x: int| #[trigger] kin(t, i, x) && t[x].named && f(x);
        lemma_kids_are_kin(t, i, x);
        let k = ns.index_of(x);
        assert(ns[k] == x);
        if k < n - 1 {
            assert(end_of(t, ns[k]) <= ns[n - 1]);
            assert(ns[k] < end_of(t, ns[k]));
        }
        assert(g(x));
    }
}

proof fn lemma_no_kid_between(t: Seq<PieceModel>, i: int, a: int, x: int)
    requires
        0 <= i < t.len(),
        0 <= a <= named_kids(t, i).len(),
        a > 0 ==> named_kids(t, i)[a - 1] < x,
        a < named_kids(t, i).len() ==> x < named_kids(t, i)[a],
    ensures
        !(kin(t, i, x) && t[x].named),
{
    lemma_named_kids(t, i);
    lemma_kids_are_kin(t, i, x);
    let ns = named_kids(t, i);
    if ns.contains(x) {
        let m = ns.index_of(x);
        assert(ns[m] == x);
        if m < a - 1 {
            assert(end_of(t, ns[m]) <= ns[a - 1]);
            assert(ns[m] < end_of(t, ns[m]));
        } else if m > a {
            assert(end_of(t, ns[a]) <= ns[m]);
            assert(ns[a] < end_of(t, ns[a]));
        }
    }
}

/// The parameters of a function are those that stand in its list of parameters, and its
/// length is the number of lines from its first to its last.
pub proof fn law_parameters_and_lines(
    lang: Lang,
    t: Seq<PieceModel>,
    text: Seq<char>,
    func: int,
    p: int,
)
    requires
        fits(t),
        kin(t, func, p),
        t[p].field == "parameters"@,
        forall|x: int| #[trigger] kin(t, func, x) && x < p ==> t[x].field != "parameters"@,
    ensures
        stats(lang, t, text, func).parameters == tally(t.len() as int, parameter(lang, t, p)),
        t[func].start_row <= t[func].end_row ==> stats(lang, t, text, func).lines_of_code
            == t[func].end_row - t[func].start_row + 1,
{
    lemma_body(t, func, "parameters"@);
    assert(field_kid(t, func, "parameters"@) == Some(p));
    let n = t.len() as int;
    let k = named_kids(t, p).len() as int;
    let f = is_param(lang, t);
    let g = |c: int| kin(t, p, c) && t[c].named && f(c);
    let h = parameter(lang, t, p);
    lemma_kid_count(t, p, f, k);
    lemma_named_kids(t, p);
    let e = if k > 0 {
        named_kids(t, p)[k - 1] + 1
    } else {
        0
    };
    if k > 0 {
        assert(end_of(t, named_kids(t, p)[k - 1]) <= n);
    }
    assert forall|x: int| e <= x < n implies !#[trigger] g(x) by {
        if g(x) {
            lemma_no_kid_between(t, p, k, x);
        }
    }
    lemma_tally_none(e, n, g);
    assert forall|x: int| 0 <= x < n implies #[trigger] g(x) == h(x) by {}
    lemma_tally_same(0, n, g, h);
    lemma_tally_bound(n, h);
}

} // verus!
