//! What linking comes to: which definition a call is laid to, told from what the files
//! hold and from the finished graph.

use crate::fragment::{CallKind, CallModel};
use crate::graph::{
    external_node, law_building_keeps_entries_distinct, lemma_with_edge_wf, lemma_with_node_wf,
    Edge, EdgeExport, EdgeKind, GraphModel, NodeKind, NodeModel,
};
use crate::ids::{FileId, NodeId};
use crate::lang::Lang;
use crate::link::{
    all_calls, all_defs, call_total, candidate, calling_module, closest, def_total, definition_for,
    in_file, linkable, linked, placeholder_name, qualifiers, target_of, with_call, with_calls,
    with_def, with_defs, with_target, Closeness, LinkModel,
};
use crate::seqs::{first_where, lemma_first_from, lemma_push_has};
use crate::text::{before_first, contains, ends_with, split};
use crate::walk::{DefModel, SiteModel, UnitModel};
use vstd::prelude::*;

verus! {

// -- definitions ----------------------------------------------------------------------

/// One of the definitions is looked up by the key and has the qualified name.
pub open spec fn entered(ds: Seq<DefModel>, key: Seq<char>, name: Seq<char>) -> bool {
    exists|j: int|
        0 <= j < ds.len() && (#[trigger] ds[j]).key == key && ds[j].node.qualified_name == name
}

/// The definitions of all files, one after another.
pub open spec fn every_def(units: Seq<UnitModel>) -> Seq<DefModel>
    decreases units.len(),
{
    if units.len() == 0 {
        Seq::empty()
    } else {
        every_def(units.drop_last()) + units.last().defs
    }
}

/// The calls of all files, one after another.
pub open spec fn every_call(units: Seq<UnitModel>) -> Seq<SiteModel>
    decreases units.len(),
{
    if units.len() == 0 {
        Seq::empty()
    } else {
        every_call(units.drop_last()) + units.last().calls
    }
}

/// Every definition has a name and is no placeholder.
pub open spec fn defs_named(ds: Seq<DefModel>) -> bool {
    forall|j: int|
        0 <= j < ds.len() ==> (#[trigger] ds[j]).node.qualified_name.len() > 0 && ds[j].node.kind
            != NodeKind::External && ds[j].node.valid()
}

/// The definitions `ds` and nothing else have been entered.
spec fn holds_defs(s: LinkModel, ds: Seq<DefModel>) -> bool {
    &&& s.graph.wf()
    &&& s.graph.distinct()
    &&& s.graph.edges.len() == 0
    &&& s.graph.nodes.len() <= ds.len()
    &&& forall|key: Seq<char>, id: NodeId| #[trigger]
        s.names.contains((key, id)) <==> s.graph.has(id) && entered(
            ds,
            key,
            s.graph.node(id).qualified_name,
        )
    &&& forall|i: int|
        0 <= i < s.graph.nodes.len() ==> (#[trigger] s.graph.nodes[i]).kind != NodeKind::External
            && s.graph.nodes[i].qualified_name.len() > 0
    &&& forall|q: Seq<char>| #[trigger]
        s.graph.names.contains_key(q) <==> exists|j: int|
            0 <= j < ds.len() && (#[trigger] ds[j]).node.qualified_name == q
}

proof fn lemma_enter(s: LinkModel, file: FileId, d: DefModel, ds: Seq<DefModel>)
    requires
        holds_defs(s, ds),
        ds.len() < u32::MAX,
        d.node.qualified_name.len() > 0,
        d.node.kind != NodeKind::External,
        d.node.valid(),
    ensures
        holds_defs(with_def(s, file, d), ds.push(d)),
        with_def(s, file, d).graph.files == s.graph.files,
        with_def(s, file, d).graph.file_ids == s.graph.file_ids,
{
    let n = NodeModel { span: in_file(d.node.span, file), ..d.node };
    let r = with_def(s, file, d);
    let all = ds.push(d);
    let id = s.graph.node_id_for(n);
    let q = n.qualified_name;
    lemma_with_node_wf(s.graph, n);
    law_building_keeps_entries_distinct(
        s.graph,
        q,
        n,
        id,
        id,
        Edge { kind: EdgeKind::DirectCall, call_site: n.span, count: 1 },
    );
    assert(r.graph.has(id) && r.graph.node(id).qualified_name == q);
    lemma_push_has(s.names, (d.key, id));
    assert forall|k: Seq<char>, x: Seq<char>| #[trigger] entered(all, k, x) <==> entered(ds, k, x)
        || (k == d.key && x == q) by {
        if entered(ds, k, x) {
            let j = choose|j: int|
                0 <= j < ds.len() && (#[trigger] ds[j]).key == k && ds[j].node.qualified_name == x;
            assert(all[j] == ds[j]);
        }
        if k == d.key && x == q {
            assert(all[ds.len() as int] == d);
        }
        if entered(all, k, x) {
            let j = choose|j: int|
                0 <= j < all.len() && (#[trigger] all[j]).key == k && all[j].node.qualified_name == x;
            if j < ds.len() {
                assert(ds[j] == all[j]);
            }
        }
    }
    assert forall|k: Seq<char>, x: NodeId| #[trigger] r.names.contains((k, x)) <==> r.graph.has(x)
        && entered(all, k, r.graph.node(x).qualified_name) by {
        assert(s.names.contains((k, x)) <==> s.graph.has(x) && entered(
            ds,
            k,
            s.graph.node(x).qualified_name,
        ));
        if r.graph.has(x) && r.graph.node(x).qualified_name == q {
            assert(x.0 == id.0);
        }
        if r.graph.has(x) && !s.graph.has(x) {
            assert(x.0 == id.0);
            if entered(ds, k, q) {
                let j = choose|j: int|
                    0 <= j < ds.len() && (#[trigger] ds[j]).key == k && ds[j].node.qualified_name
                        == q;
                assert(s.graph.names.contains_key(q));
            }
        }
    }
    assert forall|x: Seq<char>| #[trigger] r.graph.names.contains_key(x) <==> exists|j: int|
        0 <= j < all.len() && (#[trigger] all[j]).node.qualified_name == x by {
        if r.graph.names.contains_key(x) {
            if x == q {
                assert(all[ds.len() as int].node.qualified_name == x);
            } else {
                assert(s.graph.names.contains_key(x));
                let j = choose|j: int|
                    0 <= j < ds.len() && (#[trigger] ds[j]).node.qualified_name == x;
                assert(all[j].node.qualified_name == x);
            }
        }
        if exists|j: int| 0 <= j < all.len() && (#[trigger] all[j]).node.qualified_name == x {
            let j = choose|j: int| 0 <= j < all.len() && (#[trigger] all[j]).node.qualified_name == x;
            if j < ds.len() {
                assert(ds[j].node.qualified_name == x);
                assert(s.graph.names.contains_key(x));
            }
        }
    }
}

proof fn lemma_enter_all(s: LinkModel, file: FileId, defs: Seq<DefModel>, ds: Seq<DefModel>)
    requires
        holds_defs(s, ds),
        ds.len() + defs.len() < u32::MAX,
        defs_named(defs),
    ensures
        holds_defs(with_defs(s, file, defs), ds + defs),
        with_defs(s, file, defs).graph.files == s.graph.files,
        with_defs(s, file, defs).graph.file_ids == s.graph.file_ids,
    decreases defs.len(),
{
    if defs.len() > 0 {
        let front = defs.drop_last();
        assert forall|j: int| 0 <= j < front.len() implies (
        #[trigger] front[j]).node.qualified_name.len() > 0 && front[j].node.kind
            != NodeKind::External && front[j].node.valid() by {
            assert(front[j] == defs[j]);
        }
        lemma_enter_all(s, file, front, ds);
        assert(defs[defs.len() - 1] == defs.last());
        lemma_enter(with_defs(s, file, front), file, defs.last(), ds + front);
        assert((ds + front).push(defs.last()) =~= ds + defs);
    } else {
        assert(ds + defs =~= ds);
    }
}

proof fn lemma_all_defs(units: Seq<UnitModel>)
    requires
        units.len() < u32::MAX,
        every_def(units).len() < u32::MAX,
        defs_named(every_def(units)),
    ensures
        holds_defs(all_defs(units), every_def(units)),
        all_defs(units).graph.files.len() <= units.len(),
    decreases units.len(),
{
    if units.len() > 0 {
        let front = units.drop_last();
        let u = units.last();
        let before = every_def(front);
        let all = every_def(units);
        assert forall|j: int| 0 <= j < before.len() implies (
        #[trigger] before[j]).node.qualified_name.len() > 0 && before[j].node.kind
            != NodeKind::External && before[j].node.valid() by {
            assert(before[j] == all[j]);
        }
        assert forall|j: int| 0 <= j < u.defs.len() implies (
        #[trigger] u.defs[j]).node.qualified_name.len() > 0 && u.defs[j].node.kind
            != NodeKind::External && u.defs[j].node.valid() by {
            assert(u.defs[j] == all[before.len() + j]);
        }
        lemma_all_defs(front);
        let s = all_defs(front);
        let base = LinkModel { graph: s.graph.with_file(u.path), names: s.names };
        law_building_keeps_entries_distinct(
            s.graph,
            u.path,
            external_node(u.path),
            NodeId(0),
            NodeId(0),
            Edge { kind: EdgeKind::DirectCall, call_site: crate::graph::SourceSpan::blank(), count: 1 },
        );
        assert(base.graph.wf());
        assert(holds_defs(base, before));
        lemma_enter_all(base, s.graph.file_id(u.path), u.defs, before);
    }
}


// -- calls ----------------------------------------------------------------------------

/// No definition may be what the call means.
spec fn lost(lang: Lang, d: LinkModel, call: CallModel) -> bool {
    closest(lang, d, call, Seq::empty(), Closeness::Name) is None
}

/// The node is the one that the call is laid to: the definition that it means, or a
/// placeholder under its name.
spec fn aimed(
    lang: Lang,
    d: LinkModel,
    g: GraphModel,
    call: CallModel,
    module: Seq<char>,
    to: NodeId,
) -> bool {
    g.has(to) && match definition_for(lang, d, call, module) {
        Some(id) => to == id,
        None => g.node(to).qualified_name == placeholder_name(lang, call),
    }
}

/// The edge is the one that the call gives.
spec fn given_by(lang: Lang, d: LinkModel, g: GraphModel, site: SiteModel, e: EdgeExport) -> bool {
    &&& g.names.contains_key(site.call.caller)
    &&& e.from == g.names[site.call.caller]
    &&& aimed(lang, d, g, site.call, calling_module(lang, g, site), e.to)
    &&& e.kind == if g.node(e.to).kind == NodeKind::External {
        EdgeKind::Unresolved
    } else {
        crate::link::edge_kind(site.call.kind)
    }
}

/// Some edge is the one that the call gives.
spec fn has_edge_for(lang: Lang, d: LinkModel, g: GraphModel, site: SiteModel) -> bool {
    exists|i: int| 0 <= i < g.edges.len() && given_by(lang, d, g, site, #[trigger] g.edges[i])
}

/// Some call gives the edge.
spec fn has_call_for(
    lang: Lang,
    d: LinkModel,
    g: GraphModel,
    cs: Seq<SiteModel>,
    e: EdgeExport,
) -> bool {
    exists|k: int| 0 <= k < cs.len() && given_by(lang, d, g, #[trigger] cs[k], e)
}

/// The call counts of the edges taken together.
pub open spec fn total_count(es: Seq<EdgeExport>) -> int
    decreases es.len(),
{
    if es.len() == 0 {
        0
    } else {
        total_count(es.drop_last()) + es.last().count
    }
}

/// The calls are made by definitions.
spec fn known_callers(d: LinkModel, cs: Seq<SiteModel>) -> bool {
    forall|k: int|
        0 <= k < cs.len() ==> d.graph.names.contains_key((#[trigger] cs[k]).call.caller)
}

/// In Rust, calls by one path look for one name, and no path is empty.
pub open spec fn paths_tell(lang: Lang, cs: Seq<SiteModel>) -> bool {
    lang == Lang::Rust ==> {
        &&& forall|k: int| 0 <= k < cs.len() ==> (#[trigger] cs[k]).call.path.len() > 0
        &&& forall|k: int, m: int|
            0 <= k < cs.len() && 0 <= m < cs.len() && (#[trigger] cs[k]).call.path == (
            #[trigger] cs[m]).call.path ==> cs[k].call.short == cs[m].call.short
    }
}

/// The calls `cs` have been linked.
spec fn holds_calls(lang: Lang, d: LinkModel, s: LinkModel, cs: Seq<SiteModel>) -> bool {
    &&& s.names == d.names
    &&& s.graph.wf()
    &&& s.graph.distinct()
    &&& s.graph.file_ids == d.graph.file_ids
    &&& d.graph.nodes.len() <= s.graph.nodes.len() <= d.graph.nodes.len() + cs.len()
    &&& s.graph.edges.len() <= cs.len()
    &&& forall|i: int|
        0 <= i < d.graph.nodes.len() ==> #[trigger] s.graph.nodes[i] == d.graph.nodes[i]
    &&& forall|i: int|
        d.graph.nodes.len() <= i < s.graph.nodes.len() ==> (#[trigger] s.graph.nodes[i]).kind
            == NodeKind::External && stood_for(lang, d, cs, s.graph.nodes[i].qualified_name)
    &&& forall|k: int|
        0 <= k < cs.len() && d.graph.names.contains_key((#[trigger] cs[k]).call.caller)
            ==> has_edge_for(lang, d, s.graph, cs[k])
    &&& forall|i: int|
        0 <= i < s.graph.edges.len() ==> has_call_for(
            lang,
            d,
            s.graph,
            cs,
            #[trigger] s.graph.edges[i],
        )
    &&& known_callers(d, cs) ==> total_count(s.graph.edges) == cs.len()
}

/// The name is that of a placeholder for one of the calls.
spec fn stood_for(lang: Lang, d: LinkModel, cs: Seq<SiteModel>, q: Seq<char>) -> bool {
    exists|k: int|
        0 <= k < cs.len() && lost(lang, d, (#[trigger] cs[k]).call) && q == placeholder_name(
            lang,
            cs[k].call,
        )
}

proof fn lemma_first_same(a: int, b: int, f: spec_fn(int) -> bool, g: spec_fn(int) -> bool)
    requires
        0 <= a <= b,
        forall|i: int| 0 <= i < a ==> #[trigger] f(i) == g(i),
        forall|i: int| a <= i < b ==> !#[trigger] g(i),
    ensures
        first_where(a, f) == first_where(b, g),
{
    lemma_first_from(a, f, 0);
    lemma_first_from(b, g, 0);
    if first_where(a, f) is Some {
        let k = first_where(a, f)->0;
        assert(f(k) == g(k));
    }
    if first_where(b, g) is Some {
        let k = first_where(b, g)->0;
        if k < a {
            assert(f(k) == g(k));
        }
    }
}

/// Placeholders are never what a call is looked up as.
proof fn lemma_closest_same(
    lang: Lang,
    d: LinkModel,
    s: LinkModel,
    ds: Seq<DefModel>,
    cs: Seq<SiteModel>,
    call: CallModel,
    module: Seq<char>,
    c: Closeness,
)
    requires
        holds_defs(d, ds),
        holds_calls(lang, d, s, cs),
    ensures
        closest(lang, s, call, module, c) == closest(lang, d, call, module, c),
{
    let f = candidate(lang, d, call, module, c);
    let g = candidate(lang, s, call, module, c);
    let a = d.graph.nodes.len() as int;
    let b = s.graph.nodes.len() as int;
    assert forall|i: int| 0 <= i < a implies #[trigger] f(i) == g(i) by {
        assert(s.graph.nodes[i] == d.graph.nodes[i]);
    }
    assert forall|i: int| a <= i < b implies !#[trigger] g(i) by {
        assert(!d.names.contains((call.short, NodeId(i as u32))));
    }
    lemma_first_same(a, b, f, g);
}

/// Where no definition may be meant, none is meant more closely.
proof fn lemma_lost(lang: Lang, d: LinkModel, call: CallModel, module: Seq<char>, c: Closeness)
    requires
        lost(lang, d, call),
    ensures
        closest(lang, d, call, module, c) is None,
{
    let n = d.graph.nodes.len() as int;
    let f = candidate(lang, d, call, Seq::empty(), Closeness::Name);
    let g = candidate(lang, d, call, module, c);
    lemma_first_from(n, f, 0);
    lemma_first_from(n, g, 0);
    if first_where(n, g) is Some {
        let k = first_where(n, g)->0;
        assert(g(k));
        assert(f(k));
    }
}

/// Whether a definition has the name does not depend on the module.
proof fn lemma_name_alone(lang: Lang, d: LinkModel, call: CallModel, module: Seq<char>)
    ensures
        closest(lang, d, call, module, Closeness::Name) == closest(
            lang,
            d,
            call,
            Seq::empty(),
            Closeness::Name,
        ),
{
    let n = d.graph.nodes.len() as int;
    let f = candidate(lang, d, call, module, Closeness::Name);
    let g = candidate(lang, d, call, Seq::empty(), Closeness::Name);
    assert forall|i: int| 0 <= i < n implies #[trigger] f(i) == g(i) by {}
    lemma_first_same(n, n, f, g);
}

/// A call is laid to the same node whatever placeholders there are by then.
proof fn lemma_definition_same(
    lang: Lang,
    d: LinkModel,
    s: LinkModel,
    ds: Seq<DefModel>,
    cs: Seq<SiteModel>,
    site: SiteModel,
    module: Seq<char>,
)
    requires
        holds_defs(d, ds),
        holds_calls(lang, d, s, cs),
        paths_tell(lang, cs.push(site)),
    ensures
        match definition_for(lang, s, site.call, module) {
            Some(id) => aimed(lang, d, s.graph, site.call, module, id),
            None => definition_for(lang, d, site.call, module) is None && lost(lang, d, site.call),
        },
{
    let call = site.call;
    lemma_closest_same(lang, d, s, ds, cs, call, module, Closeness::Module);
    lemma_closest_same(lang, d, s, ds, cs, call, module, Closeness::Path);
    lemma_closest_same(lang, d, s, ds, cs, call, module, Closeness::Home);
    lemma_closest_same(lang, d, s, ds, cs, call, module, Closeness::Name);
    lemma_first_from(
        d.graph.nodes.len() as int,
        candidate(lang, d, call, module, Closeness::Name),
        0,
    );
    lemma_first_from(
        d.graph.nodes.len() as int,
        candidate(lang, d, call, Seq::empty(), Closeness::Name),
        0,
    );
    lemma_first_from(
        d.graph.nodes.len() as int,
        candidate(lang, d, call, module, Closeness::Module),
        0,
    );
    lemma_first_from(
        d.graph.nodes.len() as int,
        candidate(lang, d, call, module, Closeness::Path),
        0,
    );
    lemma_first_from(
        d.graph.nodes.len() as int,
        candidate(lang, d, call, module, Closeness::Home),
        0,
    );
    lemma_name_alone(lang, d, call, module);
    let exact = lang == Lang::Rust && contains(call.path, "::"@);
    if exact && s.graph.names.contains_key(call.path) {
        let id = s.graph.names[call.path];
        if d.graph.names.contains_key(call.path) {
            let at = d.graph.names[call.path];
            assert(d.graph.has(at) && d.graph.node(at).qualified_name == call.path);
            assert(s.graph.nodes[at.0 as int] == d.graph.nodes[at.0 as int]);
            assert(s.graph.names[s.graph.nodes[at.0 as int].qualified_name].0 == at.0);
            assert(id == at);
        } else {
            assert(s.graph.has(id) && s.graph.node(id).qualified_name == call.path);
            if id.0 < d.graph.nodes.len() {
                assert(s.graph.nodes[id.0 as int] == d.graph.nodes[id.0 as int]);
                assert(d.graph.names.contains_key(d.graph.nodes[id.0 as int].qualified_name));
            }
            assert(stood_for(lang, d, cs, s.graph.nodes[id.0 as int].qualified_name));
            let k = choose|k: int|
                0 <= k < cs.len() && lost(lang, d, (#[trigger] cs[k]).call) && call.path
                    == placeholder_name(lang, cs[k].call);
            let all = cs.push(site);
            assert(all[k] == cs[k] && all[cs.len() as int] == site);
            assert(cs[k].call.path == call.path && cs[k].call.short == call.short);
            assert(lost(lang, d, call)) by {
                let n = d.graph.nodes.len() as int;
                let f = candidate(lang, d, cs[k].call, Seq::empty(), Closeness::Name);
                let g = candidate(lang, d, call, Seq::empty(), Closeness::Name);
                assert forall|i: int| 0 <= i < n implies #[trigger] f(i) == g(i) by {}
                lemma_first_same(n, n, f, g);
            }
            lemma_lost(lang, d, call, module, Closeness::Module);
            lemma_lost(lang, d, call, module, Closeness::Path);
            lemma_lost(lang, d, call, module, Closeness::Home);
            lemma_lost(lang, d, call, module, Closeness::Name);
        }
    } else {
        if exact && d.graph.names.contains_key(call.path) {
            let at = d.graph.names[call.path];
            assert(s.graph.nodes[at.0 as int] == d.graph.nodes[at.0 as int]);
            assert(s.graph.names.contains_key(s.graph.nodes[at.0 as int].qualified_name));
        }
    }
}

/// What an edge is given by stays true while placeholders are added.
proof fn lemma_given_later(
    lang: Lang,
    d: LinkModel,
    g: GraphModel,
    h: GraphModel,
    site: SiteModel,
    e: EdgeExport,
    f: EdgeExport,
)
    requires
        g.wf(),
        h.wf(),
        h.distinct(),
        g.nodes.len() <= h.nodes.len(),
        forall|i: int| 0 <= i < g.nodes.len() ==> #[trigger] h.nodes[i] == g.nodes[i],
        given_by(lang, d, g, site, e),
        f.from == e.from,
        f.to == e.to,
        f.kind == e.kind,
    ensures
        given_by(lang, d, h, site, f),
{
    let q = site.call.caller;
    let id = g.names[q];
    assert(g.has(id) && g.node(id).qualified_name == q);
    assert(h.nodes[id.0 as int] == g.nodes[id.0 as int]);
    assert(h.names.contains_key(h.nodes[id.0 as int].qualified_name));
    assert(h.names[q].0 == id.0);
    assert(h.nodes[e.to.0 as int] == g.nodes[e.to.0 as int]);
}

proof fn lemma_total_push(es: Seq<EdgeExport>, e: EdgeExport)
    ensures
        total_count(es.push(e)) == total_count(es) + e.count,
{
    assert(es.push(e).drop_last() =~= es);
}

proof fn lemma_total_update(es: Seq<EdgeExport>, i: int, e: EdgeExport)
    requires
        0 <= i < es.len(),
    ensures
        total_count(es.update(i, e)) == total_count(es) - es[i].count + e.count,
        es[i].count <= total_count(es),
        0 <= total_count(es),
    decreases es.len(),
{
    let front = es.drop_last();
    lemma_total_nonneg(front);
    lemma_total_nonneg(es);
    if i < es.len() - 1 {
        lemma_total_update(front, i, e);
        assert(es.update(i, e).drop_last() =~= front.update(i, e));
    } else {
        assert(es.update(i, e).drop_last() =~= front);
    }
}

proof fn lemma_total_nonneg(es: Seq<EdgeExport>)
    ensures
        0 <= total_count(es),
    decreases es.len(),
{
    if es.len() > 0 {
        lemma_total_nonneg(es.drop_last());
    }
}

#[verifier::spinoff_prover]
#[verifier::rlimit(60)]
proof fn lemma_link(
    lang: Lang,
    d: LinkModel,
    s: LinkModel,
    ds: Seq<DefModel>,
    cs: Seq<SiteModel>,
    file: FileId,
    site: SiteModel,
)
    requires
        holds_defs(d, ds),
        holds_calls(lang, d, s, cs),
        d.graph.nodes.len() + cs.len() < u32::MAX,
        paths_tell(lang, cs.push(site)),
    ensures
        holds_calls(lang, d, with_call(lang, s, file, site), cs.push(site)),
{
    let all = cs.push(site);
    let g = s.graph;
    let r = with_call(lang, s, file, site);
    assert(all[cs.len() as int] == site);
    if known_callers(d, all) {
        assert forall|k: int| 0 <= k < cs.len() implies d.graph.names.contains_key(
            (#[trigger] cs[k]).call.caller,
        ) by {
            assert(all[k] == cs[k]);
        }
    }
    assert forall|q: Seq<char>| #[trigger] stood_for(lang, d, cs, q) implies stood_for(
        lang,
        d,
        all,
        q,
    ) by {
        let k = choose|k: int|
            0 <= k < cs.len() && lost(lang, d, (#[trigger] cs[k]).call) && q == placeholder_name(
                lang,
                cs[k].call,
            );
        assert(all[k] == cs[k]);
    }
    if !g.names.contains_key(site.call.caller) {
        assert(!d.graph.names.contains_key(site.call.caller)) by {
            if d.graph.names.contains_key(site.call.caller) {
                let at = d.graph.names[site.call.caller];
                assert(g.nodes[at.0 as int] == d.graph.nodes[at.0 as int]);
                assert(g.names.contains_key(g.nodes[at.0 as int].qualified_name));
            }
        }
        assert forall|k: int|
            0 <= k < all.len() && d.graph.names.contains_key(
                (#[trigger] all[k]).call.caller,
            ) implies has_edge_for(lang, d, r.graph, all[k]) by {
            assert(all[k] == cs[k]);
        }
        assert forall|i: int| 0 <= i < r.graph.edges.len() implies has_call_for(
            lang,
            d,
            r.graph,
            all,
            #[trigger] r.graph.edges[i],
        ) by {
            let k = choose|k: int|
                0 <= k < cs.len() && given_by(lang, d, g, #[trigger] cs[k], g.edges[i]);
            assert(all[k] == cs[k]);
        }
        assert(known_callers(d, all) ==> d.graph.names.contains_key(all[cs.len() as int].call.caller));
    } else {
        let caller = g.names[site.call.caller];
        let module = calling_module(lang, g, site);
        let target = target_of(lang, s, site.call, module);
        let h = with_target(lang, s, site.call, module);
        let ph = external_node(placeholder_name(lang, site.call));
        lemma_definition_same(lang, d, s, ds, cs, site, module);
        lemma_with_node_wf(g, ph);
        law_building_keeps_entries_distinct(
            g,
            ph.qualified_name,
            ph,
            caller,
            caller,
            Edge { kind: EdgeKind::DirectCall, call_site: ph.span, count: 1 },
        );
        assert(h.wf() && h.distinct());
        assert(g.nodes.len() <= h.nodes.len() <= g.nodes.len() + 1);
        assert(h.edges == g.edges && h.file_ids == g.file_ids && h.links == g.links);
        assert forall|i: int| 0 <= i < g.nodes.len() implies #[trigger] h.nodes[i]
            == g.nodes[i] by {}
        assert(h.has(caller) && h.has(target));
        assert(aimed(lang, d, h, site.call, module, target));
        let kind = if h.node(target).kind == NodeKind::External {
            EdgeKind::Unresolved
        } else {
            crate::link::edge_kind(site.call.kind)
        };
        let e = Edge { kind, call_site: in_file(site.call.call_site, file), count: 1 };
        lemma_with_edge_wf(h, caller, target, e);
        law_building_keeps_entries_distinct(h, ph.qualified_name, ph, caller, target, e);
        let x = r.graph;
        assert(x == h.with_edge(caller, target, e));
        assert(x.nodes == h.nodes && x.names == h.names);
        assert forall|i: int| 0 <= i < g.edges.len() implies x.edges[i].from == (
        #[trigger] g.edges[i]).from && x.edges[i].to == g.edges[i].to && x.edges[i].kind
            == g.edges[i].kind by {}
        assert forall|i: int| 0 <= i < d.graph.nodes.len() implies #[trigger] x.nodes[i]
            == d.graph.nodes[i] by {
            assert(g.nodes[i] == d.graph.nodes[i]);
        }
        assert forall|i: int| d.graph.nodes.len() <= i < x.nodes.len() implies (
        #[trigger] x.nodes[i]).kind == NodeKind::External && stood_for(
            lang,
            d,
            all,
            x.nodes[i].qualified_name,
        ) by {
            if i < g.nodes.len() {
                assert(x.nodes[i] == g.nodes[i]);
                assert(stood_for(lang, d, cs, g.nodes[i].qualified_name));
            } else {
                assert(x.nodes[i].qualified_name == placeholder_name(
                    lang,
                    all[cs.len() as int].call,
                ));
            }
        }
        let key = (caller, target, kind);
        let own = if h.links.contains_key(key) {
            h.links[key]
        } else {
            h.edges.len() as int
        };
        assert(x.edges[own].from == caller && x.edges[own].to == target && x.edges[own].kind
            == kind);
        assert(h.names.contains_key(site.call.caller) && h.names[site.call.caller] == caller) by {
            assert(g.has(caller) && g.node(caller).qualified_name == site.call.caller);
            assert(h.nodes[caller.0 as int] == g.nodes[caller.0 as int]);
            assert(h.names.contains_key(h.nodes[caller.0 as int].qualified_name));
        }
        assert(calling_module(lang, x, site) == module);
        assert(given_by(lang, d, x, site, x.edges[own]));
        assert forall|k: int|
            0 <= k < all.len() && d.graph.names.contains_key(
                (#[trigger] all[k]).call.caller,
            ) implies has_edge_for(lang, d, x, all[k]) by {
            if k < cs.len() {
                assert(all[k] == cs[k]);
                assert(has_edge_for(lang, d, g, cs[k]));
                let i = choose|i: int|
                    0 <= i < g.edges.len() && given_by(lang, d, g, cs[k], #[trigger] g.edges[i]);
                lemma_given_later(lang, d, g, x, cs[k], g.edges[i], x.edges[i]);
                assert(given_by(lang, d, x, all[k], x.edges[i]));
            } else {
                assert(given_by(lang, d, x, all[k], x.edges[own]));
            }
        }
        assert forall|i: int| 0 <= i < x.edges.len() implies has_call_for(
            lang,
            d,
            x,
            all,
            #[trigger] x.edges[i],
        ) by {
            if i < g.edges.len() {
                assert(has_call_for(lang, d, g, cs, g.edges[i]));
                let k = choose|k: int|
                    0 <= k < cs.len() && given_by(lang, d, g, #[trigger] cs[k], g.edges[i]);
                lemma_given_later(lang, d, g, x, cs[k], g.edges[i], x.edges[i]);
                assert(given_by(lang, d, x, all[k], x.edges[i]));
            } else {
                assert(i == own);
                assert(given_by(lang, d, x, all[cs.len() as int], x.edges[i]));
            }
        }
        if known_callers(d, all) {
            if h.links.contains_key(key) {
                lemma_total_update(h.edges, own, x.edges[own]);
            } else {
                lemma_total_push(h.edges, x.edges[own]);
            }
        }
    }
}

proof fn lemma_link_all(
    lang: Lang,
    d: LinkModel,
    s: LinkModel,
    ds: Seq<DefModel>,
    cs: Seq<SiteModel>,
    file: FileId,
    calls: Seq<SiteModel>,
)
    requires
        holds_defs(d, ds),
        holds_calls(lang, d, s, cs),
        d.graph.nodes.len() + cs.len() + calls.len() < u32::MAX,
        paths_tell(lang, cs + calls),
    ensures
        holds_calls(lang, d, with_calls(lang, s, file, calls), cs + calls),
    decreases calls.len(),
{
    if calls.len() > 0 {
        let front = calls.drop_last();
        let all = cs + calls;
        let some = cs + front;
        assert(some.push(calls.last()) =~= all);
        assert(paths_tell(lang, some)) by {
            assert forall|k: int| 0 <= k < some.len() implies #[trigger] some[k] == all[k] by {}
        }
        lemma_link_all(lang, d, s, ds, cs, file, front);
        lemma_link(lang, d, with_calls(lang, s, file, front), ds, some, file, calls.last());
    } else {
        assert(cs + calls =~= cs);
    }
}

proof fn lemma_all_calls(lang: Lang, d: LinkModel, ds: Seq<DefModel>, units: Seq<UnitModel>)
    requires
        holds_defs(d, ds),
        d.graph.nodes.len() + every_call(units).len() < u32::MAX,
        paths_tell(lang, every_call(units)),
    ensures
        holds_calls(lang, d, all_calls(lang, d, units), every_call(units)),
    decreases units.len(),
{
    if units.len() > 0 {
        let front = units.drop_last();
        let some = every_call(front);
        let all = every_call(units);
        let u = units.last();
        assert(paths_tell(lang, some)) by {
            assert forall|k: int| 0 <= k < some.len() implies #[trigger] some[k] == all[k] by {}
        }
        lemma_all_calls(lang, d, ds, front);
        let r = all_calls(lang, d, front);
        lemma_link_all(lang, d, r, ds, some, r.graph.file_id(u.path), u.calls);
    }
}


// -- what a call means ----------------------------------------------------------------

/// Segment `i` of a path names the type, module or crate to look in: it is the last before
/// the name itself that is not empty and no list of generic arguments.
pub open spec fn looks_in(path: Seq<char>, i: int) -> bool {
    let parts = split(path, "::"@);
    &&& 0 <= i < parts.len() - 1
    &&& parts[i].len() > 0
    &&& parts[i][0] != '<'
    &&& forall|j: int|
        i < j < parts.len() - 1 ==> (#[trigger] parts[j]).len() == 0 || parts[j][0] == '<'
}

/// The module lies where the path says to look, if it says so.
pub open spec fn goes_through(path: Seq<char>, module: Seq<char>) -> bool {
    forall|i: int| #[trigger]
        looks_in(path, i) ==> {
            let word = split(path, "::"@)[i];
            ||| word == "self"@
            ||| word == "Self"@
            ||| word == "super"@
            ||| word == "crate"@
            ||| split(module, "::"@).contains(word)
        }
}

/// A definition has the name that the call looks for; in Rust it also lies where the path
/// says to look.
pub open spec fn may_mean(lang: Lang, ds: Seq<DefModel>, call: CallModel, n: NodeModel) -> bool {
    entered(ds, call.short, n.qualified_name) && (lang == Lang::Rust ==> goes_through(
        call.path,
        n.module,
    ))
}

/// The nodes that the call may mean.
pub open spec fn meant(lang: Lang, ds: Seq<DefModel>, g: GraphModel, call: CallModel) -> spec_fn(
    int,
) -> bool {
    |i: int| may_mean(lang, ds, call, g.nodes[i])
}

/// Those of them in the module.
pub open spec fn meant_here(
    lang: Lang,
    ds: Seq<DefModel>,
    g: GraphModel,
    call: CallModel,
    module: Seq<char>,
) -> spec_fn(int) -> bool {
    |i: int| may_mean(lang, ds, call, g.nodes[i]) && g.nodes[i].module == module
}

/// Those of them whose qualified name ends with the path as it is written.
pub open spec fn meant_as_written(
    lang: Lang,
    ds: Seq<DefModel>,
    g: GraphModel,
    call: CallModel,
) -> spec_fn(int) -> bool {
    |i: int|
        may_mean(lang, ds, call, g.nodes[i]) && ends_with(g.nodes[i].qualified_name, call.path)
}

/// Those of them in the crate of the module.
pub open spec fn meant_near(
    lang: Lang,
    ds: Seq<DefModel>,
    g: GraphModel,
    call: CallModel,
    module: Seq<char>,
) -> spec_fn(int) -> bool {
    |i: int|
        may_mean(lang, ds, call, g.nodes[i]) && before_first(g.nodes[i].qualified_name, "::"@)
            == before_first(module, "::"@)
}

pub open spec fn some_node(g: GraphModel, f: spec_fn(int) -> bool) -> bool {
    exists|i: int| 0 <= i < g.nodes.len() && #[trigger] f(i)
}

/// The node is the first of its like.
pub open spec fn first_node(g: GraphModel, f: spec_fn(int) -> bool, to: int) -> bool {
    0 <= to < g.nodes.len() && f(to) && forall|i: int| 0 <= i < to ==> !#[trigger] f(i)
}

/// A call from `module` is rightly laid to the node. In Rust a path that is a qualified
/// name means what has it. Otherwise a call means a definition of its own module, if that
/// has one of the name; in Rust, failing that, one whose qualified name ends with the path,
/// failing that one of the same crate; failing that any of the name. A name that no
/// definition has gets a placeholder.
pub open spec fn laid_right(
    lang: Lang,
    ds: Seq<DefModel>,
    g: GraphModel,
    call: CallModel,
    module: Seq<char>,
    to: int,
) -> bool {
    let written = lang == Lang::Rust && contains(call.path, "::"@);
    if written && exists|j: int|
        0 <= j < ds.len() && (#[trigger] ds[j]).node.qualified_name == call.path {
        g.nodes[to].qualified_name == call.path
    } else if some_node(g, meant_here(lang, ds, g, call, module)) {
        first_node(g, meant_here(lang, ds, g, call, module), to)
    } else if written && some_node(g, meant_as_written(lang, ds, g, call)) {
        first_node(g, meant_as_written(lang, ds, g, call), to)
    } else if lang == Lang::Rust && some_node(g, meant_near(lang, ds, g, call, module)) {
        first_node(g, meant_near(lang, ds, g, call, module), to)
    } else if some_node(g, meant(lang, ds, g, call)) {
        first_node(g, meant(lang, ds, g, call), to)
    } else {
        g.nodes[to].qualified_name == if lang == Lang::Rust && call.path.len() > 0 {
            call.path
        } else {
            call.short
        }
    }
}

/// The edge is the one that the call is to give: from its caller to the node that it
/// means, of the kind of the call, or unresolved where that node is a placeholder.
pub open spec fn rightly_given(
    lang: Lang,
    ds: Seq<DefModel>,
    g: GraphModel,
    site: SiteModel,
    e: EdgeExport,
) -> bool {
    let to = g.nodes[e.to.0 as int];
    &&& e.from.0 < g.nodes.len()
    &&& e.to.0 < g.nodes.len()
    &&& g.nodes[e.from.0 as int].qualified_name == site.call.caller
    &&& laid_right(
        lang,
        ds,
        g,
        site.call,
        if lang == Lang::Rust {
            g.nodes[e.from.0 as int].module
        } else {
            site.module
        },
        e.to.0 as int,
    )
    &&& e.kind == if to.kind == NodeKind::External {
        EdgeKind::Unresolved
    } else {
        match site.call.kind {
            CallKind::Direct => EdgeKind::DirectCall,
            CallKind::Method => EdgeKind::MethodCall,
            CallKind::Associated => EdgeKind::AssociatedCall,
            CallKind::Macro => EdgeKind::MacroCall,
        }
    }
}

proof fn lemma_filter_last(s: Seq<Seq<char>>, keep: spec_fn(Seq<char>) -> bool)
    ensures
        s.filter(keep).len() == 0 <==> forall|i: int| 0 <= i < s.len() ==> !keep(#[trigger] s[i]),
        s.filter(keep).len() > 0 ==> exists|i: int|
            0 <= i < s.len() && keep(#[trigger] s[i]) && s[i] == s.filter(keep).last()
                && forall|j: int| i < j < s.len() ==> !keep(#[trigger] s[j]),
    decreases s.len(),
{
    reveal(Seq::filter);
    if s.len() > 0 {
        let front = s.drop_last();
        let n = s.len() - 1;
        lemma_filter_last(front, keep);
        assert forall|i: int| 0 <= i < n implies #[trigger] front[i] == s[i] by {}
        assert(s[n] == s.last());
        if !keep(s.last()) {
            if front.filter(keep).len() > 0 {
                let i = choose|i: int|
                    0 <= i < front.len() && keep(#[trigger] front[i]) && front[i] == front.filter(
                        keep,
                    ).last() && forall|j: int| i < j < front.len() ==> !keep(#[trigger] front[j]);
                assert(s[i] == front[i]);
                assert forall|j: int| i < j < s.len() implies !keep(#[trigger] s[j]) by {
                    if j < n {
                        assert(front[j] == s[j]);
                    }
                }
            } else {
                assert forall|i: int| 0 <= i < s.len() implies !keep(#[trigger] s[i]) by {
                    if i < n {
                        assert(front[i] == s[i]);
                    }
                }
            }
        }
    }
}

proof fn lemma_qualifier(path: Seq<char>, n: NodeModel)
    ensures
        crate::link::qualifier_fits(path, n) == goes_through(path, n.module),
{
    let parts = split(path, "::"@);
    let some = parts.drop_last();
    let keep = |s: Seq<char>| s.len() > 0 && s[0] != '<';
    lemma_filter_last(some, keep);
    assert forall|i: int| 0 <= i < parts.len() - 1 implies #[trigger] some[i] == parts[i] by {}
    let q = qualifiers(path);
    assert(q == some.filter(keep));
    if q.len() > 0 {
        let i = choose|i: int|
            0 <= i < some.len() && keep(#[trigger] some[i]) && some[i] == q.last() && forall|j: int|
                i < j < some.len() ==> !keep(#[trigger] some[j]);
        assert(looks_in(path, i)) by {
            assert forall|j: int| i < j < parts.len() - 1 implies (#[trigger] parts[j]).len() == 0
                || parts[j][0] == '<' by {
                assert(!keep(some[j]));
            }
        }
        assert forall|m: int| #[trigger] looks_in(path, m) implies m == i by {
            assert(keep(some[m]));
            if m < i {
                assert(keep(some[i]));
                assert(parts[i].len() == 0 || parts[i][0] == '<');
            }
        }
    } else {
        assert forall|m: int| !#[trigger] looks_in(path, m) by {
            if looks_in(path, m) {
                assert(keep(some[m]));
            }
        }
    }
}

/// A definition looked up closely among those entered is the first such node of the
/// finished graph.
proof fn lemma_closest_is_first(
    lang: Lang,
    d: LinkModel,
    s: LinkModel,
    ds: Seq<DefModel>,
    cs: Seq<SiteModel>,
    call: CallModel,
    module: Seq<char>,
    c: Closeness,
    f: spec_fn(int) -> bool,
)
    requires
        holds_defs(d, ds),
        holds_calls(lang, d, s, cs),
        defs_named(ds),
        f == (match c {
            Closeness::Module => meant_here(lang, ds, s.graph, call, module),
            Closeness::Path => meant_as_written(lang, ds, s.graph, call),
            Closeness::Home => meant_near(lang, ds, s.graph, call, module),
            Closeness::Name => meant(lang, ds, s.graph, call),
        }),
    ensures
        match closest(lang, d, call, module, c) {
            Some(id) => some_node(s.graph, f) && first_node(s.graph, f, id.0 as int),
            None => !some_node(s.graph, f),
        },
{
    let g = candidate(lang, d, call, module, c);
    let a = d.graph.nodes.len() as int;
    let b = s.graph.nodes.len() as int;
    assert forall|i: int| 0 <= i < a implies #[trigger] g(i) == f(i) by {
        assert(s.graph.nodes[i] == d.graph.nodes[i]);
        lemma_qualifier(call.path, d.graph.nodes[i]);
        assert(d.names.contains((call.short, NodeId(i as u32))) <==> entered(
            ds,
            call.short,
            d.graph.node(NodeId(i as u32)).qualified_name,
        ));
    }
    assert forall|i: int| a <= i < b implies !#[trigger] f(i) by {
        let q = s.graph.nodes[i].qualified_name;
        if entered(ds, call.short, q) {
            let j = choose|j: int|
                0 <= j < ds.len() && (#[trigger] ds[j]).key == call.short
                    && ds[j].node.qualified_name == q;
            assert(ds[j].node.qualified_name.len() > 0);
            assert(d.graph.names.contains_key(q));
            let at = d.graph.names[q];
            assert(s.graph.nodes[at.0 as int] == d.graph.nodes[at.0 as int]);
            assert(s.graph.names[s.graph.nodes[at.0 as int].qualified_name].0 == at.0);
            assert(s.graph.names[s.graph.nodes[i].qualified_name].0 == i);
        }
    }
    lemma_first_same(a, b, g, f);
    lemma_first_from(b, f, 0);
    if let Some(i) = first_where(b, f) {
        assert(f(i));
    }
}

proof fn lemma_laid_right(
    lang: Lang,
    d: LinkModel,
    s: LinkModel,
    ds: Seq<DefModel>,
    cs: Seq<SiteModel>,
    site: SiteModel,
    e: EdgeExport,
)
    requires
        holds_defs(d, ds),
        holds_calls(lang, d, s, cs),
        defs_named(ds),
        given_by(lang, d, s.graph, site, e),
    ensures
        rightly_given(lang, ds, s.graph, site, e),
{
    let g = s.graph;
    let call = site.call;
    let module = calling_module(lang, g, site);
    assert(g.has(e.from) && g.node(e.from).qualified_name == call.caller);
    lemma_closest_is_first(
        lang,
        d,
        s,
        ds,
        cs,
        call,
        module,
        Closeness::Module,
        meant_here(lang, ds, g, call, module),
    );
    lemma_closest_is_first(
        lang,
        d,
        s,
        ds,
        cs,
        call,
        module,
        Closeness::Path,
        meant_as_written(lang, ds, g, call),
    );
    lemma_closest_is_first(
        lang,
        d,
        s,
        ds,
        cs,
        call,
        module,
        Closeness::Home,
        meant_near(lang, ds, g, call, module),
    );
    lemma_closest_is_first(
        lang,
        d,
        s,
        ds,
        cs,
        call,
        module,
        Closeness::Name,
        meant(lang, ds, g, call),
    );
    if d.graph.names.contains_key(call.path) {
        let at = d.graph.names[call.path];
        assert(d.graph.node(at).qualified_name == call.path);
        assert(g.nodes[at.0 as int] == d.graph.nodes[at.0 as int]);
    }
}

proof fn lemma_totals(units: Seq<UnitModel>)
    ensures
        every_def(units).len() == def_total(units),
        every_call(units).len() == call_total(units),
    decreases units.len(),
{
    if units.len() > 0 {
        lemma_totals(units.drop_last());
    }
}

// -- laws -----------------------------------------------------------------------------

/// Every call that a definition makes gives an edge to what it means, and every edge is
/// given by such a call.
pub proof fn law_calls_are_laid_to_what_they_mean(lang: Lang, units: Seq<UnitModel>)
    requires
        linkable(units),
        defs_named(every_def(units)),
        paths_tell(lang, every_call(units)),
    ensures
        forall|k: int|
            0 <= k < every_call(units).len() && (exists|j: int|
                0 <= j < every_def(units).len() && (
                #[trigger] every_def(units)[j]).node.qualified_name == every_call(
                    units,
                )[k].call.caller) ==> exists|i: int|
                0 <= i < linked(lang, units).edges.len() && rightly_given(
                    lang,
                    every_def(units),
                    linked(lang, units),
                    #[trigger] every_call(units)[k],
                    #[trigger] linked(lang, units).edges[i],
                ),
        forall|i: int|
            0 <= i < linked(lang, units).edges.len() ==> exists|k: int|
                0 <= k < every_call(units).len() && rightly_given(
                    lang,
                    every_def(units),
                    linked(lang, units),
                    #[trigger] every_call(units)[k],
                    #[trigger] linked(lang, units).edges[i],
                ),
{
    let ds = every_def(units);
    let cs = every_call(units);
    let d = all_defs(units);
    let s = all_calls(lang, d, units);
    let g = linked(lang, units);
    lemma_totals(units);
    lemma_all_defs(units);
    lemma_all_calls(lang, d, ds, units);
    assert forall|k: int|
        0 <= k < cs.len() && (exists|j: int|
            0 <= j < ds.len() && (#[trigger] ds[j]).node.qualified_name
                == cs[k].call.caller) implies exists|i: int|
        0 <= i < g.edges.len() && rightly_given(
            lang,
            ds,
            g,
            #[trigger] cs[k],
            #[trigger] g.edges[i],
        ) by {
        assert(d.graph.names.contains_key(cs[k].call.caller));
        assert(has_edge_for(lang, d, g, cs[k]));
        let i = choose|i: int|
            0 <= i < g.edges.len() && given_by(lang, d, g, cs[k], #[trigger] g.edges[i]);
        lemma_laid_right(lang, d, s, ds, cs, cs[k], g.edges[i]);
    }
    assert forall|i: int| 0 <= i < g.edges.len() implies exists|k: int|
        0 <= k < cs.len() && rightly_given(
            lang,
            ds,
            g,
            #[trigger] cs[k],
            #[trigger] g.edges[i],
        ) by {
        assert(has_call_for(lang, d, g, cs, g.edges[i]));
        let k = choose|k: int| 0 <= k < cs.len() && given_by(lang, d, g, #[trigger] cs[k], g.edges[i]);
        lemma_laid_right(lang, d, s, ds, cs, cs[k], g.edges[i]);
    }
}

/// A call stays in its module: each edge is given by a call for which this holds. Where a
/// definition `n` of the calling module has the name that the call looks for, the edge leads
/// to a definition of that module, the first there is. So in every language; in Rust the
/// path of the call must not itself be a qualified name, and has to lead through where `n`
/// lies.
pub proof fn law_calls_stay_in_their_module(lang: Lang, units: Seq<UnitModel>, i: int) -> (k: int)
    requires
        linkable(units),
        defs_named(every_def(units)),
        paths_tell(lang, every_call(units)),
        0 <= i < linked(lang, units).edges.len(),
    ensures
        ({
            let g = linked(lang, units);
            let ds = every_def(units);
            let e = g.edges[i];
            let site = every_call(units)[k];
            let module = if lang == Lang::Rust {
                g.nodes[e.from.0 as int].module
            } else {
                site.module
            };
            &&& 0 <= k < every_call(units).len()
            &&& site.call.caller == g.nodes[e.from.0 as int].qualified_name
            &&& forall|n: int, j: int|
                0 <= n < g.nodes.len() && 0 <= j < ds.len() && (#[trigger] g.nodes[n]).module
                    == module && (#[trigger] ds[j]).key == site.call.short
                    && ds[j].node.qualified_name == g.nodes[n].qualified_name && (lang == Lang::Rust
                    ==> goes_through(site.call.path, module) && forall|m: int|
                    0 <= m < ds.len() ==> (#[trigger] ds[m]).node.qualified_name
                        != site.call.path) ==> g.nodes[e.to.0 as int].module == module && e.to.0
                    <= n
        }),
{
    let ds = every_def(units);
    let cs = every_call(units);
    let g = linked(lang, units);
    let e = g.edges[i];
    law_calls_are_laid_to_what_they_mean(lang, units);
    let k = choose|k: int| 0 <= k < cs.len() && rightly_given(lang, ds, g, #[trigger] cs[k], e);
    let site = cs[k];
    let module = if lang == Lang::Rust {
        g.nodes[e.from.0 as int].module
    } else {
        site.module
    };
    let f = meant_here(lang, ds, g, site.call, module);
    assert forall|n: int, j: int|
        0 <= n < g.nodes.len() && 0 <= j < ds.len() && (#[trigger] g.nodes[n]).module == module && (
        #[trigger] ds[j]).key == site.call.short && ds[j].node.qualified_name
            == g.nodes[n].qualified_name && (lang == Lang::Rust ==> goes_through(
            site.call.path,
            module,
        ) && forall|m: int|
            0 <= m < ds.len() ==> (#[trigger] ds[m]).node.qualified_name
                != site.call.path) implies g.nodes[e.to.0 as int].module == module && e.to.0 <= n by {
        assert(entered(ds, site.call.short, g.nodes[n].qualified_name));
        assert(f(n));
        assert(some_node(g, f));
    }
    k
}

/// Every call is counted once: the counts of the edges add up to the number of calls,
/// where all of them are made by definitions.
pub proof fn law_every_call_is_counted_once(lang: Lang, units: Seq<UnitModel>)
    requires
        linkable(units),
        defs_named(every_def(units)),
        paths_tell(lang, every_call(units)),
        forall|k: int|
            0 <= k < every_call(units).len() ==> exists|j: int|
                0 <= j < every_def(units).len() && (
                #[trigger] every_def(units)[j]).node.qualified_name == (#[trigger] every_call(
                    units,
                )[k]).call.caller,
    ensures
        total_count(linked(lang, units).edges) == every_call(units).len(),
{
    let ds = every_def(units);
    let cs = every_call(units);
    let d = all_defs(units);
    lemma_totals(units);
    lemma_all_defs(units);
    lemma_all_calls(lang, d, ds, units);
    assert forall|k: int| 0 <= k < cs.len() implies d.graph.names.contains_key(
        (#[trigger] cs[k]).call.caller,
    ) by {
        let j = choose|j: int|
            0 <= j < ds.len() && (#[trigger] ds[j]).node.qualified_name == cs[k].call.caller;
        assert(ds[j].node.qualified_name == cs[k].call.caller);
    }
}

/// The definitions of the files are the definitions of the graph: each qualified name is
/// that of one node, and a node that no definition has given its name is a placeholder.
pub proof fn law_definitions_become_nodes(lang: Lang, units: Seq<UnitModel>, q: Seq<char>)
    requires
        linkable(units),
        defs_named(every_def(units)),
        paths_tell(lang, every_call(units)),
        q.len() > 0,
    ensures
        (exists|j: int|
            0 <= j < every_def(units).len() && (
            #[trigger] every_def(units)[j]).node.qualified_name == q) <==> exists|i: int|
            0 <= i < linked(lang, units).nodes.len() && (
            #[trigger] linked(lang, units).nodes[i]).qualified_name == q && linked(
                lang,
                units,
            ).nodes[i].kind != NodeKind::External,
        forall|a: int, b: int|
            0 <= a < linked(lang, units).nodes.len() && 0 <= b < linked(lang, units).nodes.len() && (
            #[trigger] linked(lang, units).nodes[a]).qualified_name == q && (
            #[trigger] linked(lang, units).nodes[b]).qualified_name == q ==> a == b,
{
    let ds = every_def(units);
    let cs = every_call(units);
    let d = all_defs(units);
    let s = all_calls(lang, d, units);
    let g = linked(lang, units);
    lemma_totals(units);
    lemma_all_defs(units);
    lemma_all_calls(lang, d, ds, units);
    if exists|j: int| 0 <= j < ds.len() && (#[trigger] ds[j]).node.qualified_name == q {
        assert(d.graph.names.contains_key(q));
        let at = d.graph.names[q];
        assert(g.nodes[at.0 as int] == d.graph.nodes[at.0 as int]);
        assert(g.nodes[at.0 as int].qualified_name == q);
    }
    if exists|i: int|
        0 <= i < g.nodes.len() && (#[trigger] g.nodes[i]).qualified_name == q && g.nodes[i].kind
            != NodeKind::External {
        let i = choose|i: int|
            0 <= i < g.nodes.len() && (#[trigger] g.nodes[i]).qualified_name == q && g.nodes[i].kind
                != NodeKind::External;
        assert(g.nodes[i] == d.graph.nodes[i]);
        assert(d.graph.names.contains_key(d.graph.nodes[i].qualified_name));
    }
    assert forall|a: int, b: int|
        0 <= a < g.nodes.len() && 0 <= b < g.nodes.len() && (
        #[trigger] g.nodes[a]).qualified_name == q && (
        #[trigger] g.nodes[b]).qualified_name == q implies a == b by {
        assert(g.names[g.nodes[a].qualified_name].0 == a);
        assert(g.names[g.nodes[b].qualified_name].0 == b);
    }
}

} // verus!
