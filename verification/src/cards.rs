//! What the detail record of a node tells: the node as it stands in the graph, and each
//! of its calls once.

use crate::card::{
    calls_in, calls_out, edge_kind_text, flag_texts, law_kind_places_are_alphabetical, ref_key,
    refs_of, sorted_calls, CallRefModel, NodeCard,
};
use crate::entries::entry_kind;
use crate::findings::{callees, callers, law_callers_and_callees_are_counted_once};
use crate::graph::{edge_of, Edge, EdgeExport, EdgeKind, GraphModel, NodeKind};
use crate::ids::NodeId;
use crate::order::{lemma_order_exists, placed_before, stable_order};
use crate::seqs::{tally, views_of};
use crate::text::{text_lt, views};
use vstd::prelude::*;

verus! {

/// The path of file number `f`, or nothing where there is no such file.
pub open spec fn path_at(g: GraphModel, f: int) -> Seq<char> {
    if 0 <= f < g.files.len() {
        g.files[f]
    } else {
        Seq::empty()
    }
}

/// `r` tells of the call `e`, with node `v` at its other end.
pub open spec fn tells(r: CallRefModel, g: GraphModel, e: EdgeExport, v: NodeId) -> bool {
    let n = g.nodes[v.0 as int];
    &&& r.id == v
    &&& r.name == n.name
    &&& r.qualified_name == n.qualified_name
    &&& r.external == (n.kind == NodeKind::External)
    &&& r.kind == e.kind
    &&& r.count == e.count
    &&& r.call_site == e.call_site
    &&& r.site_file == path_at(g, e.call_site.file as int)
}

/// The calls that come in at node `id`, or those that go out of it.
pub open spec fn at_node(g: GraphModel, id: NodeId, into: bool) -> spec_fn(int) -> bool {
    |k: int|
        if into {
            g.edges[k].to == id
        } else {
            g.edges[k].from == id
        }
}

/// The other end of call number `k`.
pub open spec fn far_end(g: GraphModel, into: bool, k: int) -> NodeId {
    if into {
        g.edges[k].from
    } else {
        g.edges[k].to
    }
}

/// What the kind of a call is called.
pub open spec fn called_kind(k: EdgeKind) -> Seq<char> {
    match k {
        EdgeKind::DirectCall => "direct"@,
        EdgeKind::MethodCall => "method"@,
        EdgeKind::AssociatedCall => "assoc"@,
        EdgeKind::MacroCall => "macro"@,
        EdgeKind::TraitDispatch => "trait"@,
        EdgeKind::Unresolved => "unresolved"@,
    }
}

/// `a` may be listed before `b`: definitions come before unresolved targets, and each
/// by qualified name, and by the name of the call's kind.
pub open spec fn before(a: CallRefModel, b: CallRefModel) -> bool {
    &&& a.external ==> b.external
    &&& a.external == b.external ==> {
        ||| text_lt(a.qualified_name, b.qualified_name)
        ||| a.qualified_name == b.qualified_name && !text_lt(called_kind(b.kind), called_kind(a.kind))
    }
}

/// `r` tells of some call at the node.
pub open spec fn tells_some(r: CallRefModel, g: GraphModel, id: NodeId, into: bool) -> bool {
    exists|k: int|
        0 <= k < g.edges.len() && #[trigger] at_node(g, id, into)(k) && tells(
            r,
            g,
            g.edges[k],
            far_end(g, into, k),
        )
}

/// Something in the list tells of call number `k`.
pub open spec fn some_tells(rs: Seq<CallRefModel>, g: GraphModel, into: bool, k: int) -> bool {
    exists|i: int|
        0 <= i < rs.len() && tells(#[trigger] rs[i], g, g.edges[k], far_end(g, into, k))
}

/// The list tells of each call at the node, of nothing else, and as often as there are
/// calls, in order.
pub open spec fn told(rs: Seq<CallRefModel>, g: GraphModel, id: NodeId, into: bool) -> bool {
    &&& rs.len() == tally(g.edges.len() as int, at_node(g, id, into))
    &&& forall|i: int| 0 <= i < rs.len() ==> tells_some(#[trigger] rs[i], g, id, into)
    &&& forall|k: int|
        0 <= k < g.edges.len() && #[trigger] at_node(g, id, into)(k) ==> some_tells(rs, g, into, k)
    &&& forall|i: int, j: int| 0 <= i < j < rs.len() ==> before(#[trigger] rs[i], #[trigger] rs[j])
}

proof fn lemma_filter_tally<T>(s: Seq<T>, keep: spec_fn(T) -> bool, f: spec_fn(int) -> bool)
    requires
        forall|k: int| 0 <= k < s.len() ==> (#[trigger] f(k) <==> keep(s[k])),
    ensures
        s.filter(keep).len() == tally(s.len() as int, f),
    decreases s.len(),
{
    reveal(Seq::filter);
    if s.len() > 0 {
        let front = s.drop_last();
        assert forall|k: int| 0 <= k < front.len() implies (#[trigger] f(k) <==> keep(front[k])) by {
            assert(front[k] == s[k]);
        }
        lemma_filter_tally(front, keep, f);
        assert(f(s.len() - 1) <==> keep(s.last()));
    }
}

proof fn lemma_filter_front<T>(x: T, s: Seq<T>, keep: spec_fn(T) -> bool)
    ensures
        (seq![x] + s).filter(keep).len() == s.filter(keep).len() + if keep(x) {
            1int
        } else {
            0int
        },
    decreases s.len(),
{
    reveal(Seq::filter);
    let all = seq![x] + s;
    if s.len() == 0 {
        assert(all.drop_last() =~= Seq::<T>::empty());
        assert(all.drop_last().filter(keep).len() == 0);
    } else {
        assert(all.drop_last() =~= seq![x] + s.drop_last());
        assert(all.last() == s.last());
        lemma_filter_front(x, s.drop_last(), keep);
    }
}

proof fn lemma_filter_reverse<T>(s: Seq<T>, keep: spec_fn(T) -> bool)
    ensures
        s.reverse().filter(keep).len() == s.filter(keep).len(),
    decreases s.len(),
{
    reveal(Seq::filter);
    if s.len() == 0 {
        assert(s.reverse() =~= s);
    } else {
        let front = s.drop_last();
        assert(s.reverse() =~= seq![s.last()] + front.reverse());
        lemma_filter_front(s.last(), front.reverse(), keep);
        lemma_filter_reverse(front, keep);
    }
}

proof fn lemma_refs_ordered(g: GraphModel, cs: Seq<(NodeId, Edge)>, i: int, j: int)
    requires
        0 <= i < j < refs_of(g, cs).len(),
    ensures
        before(refs_of(g, cs)[i], refs_of(g, cs)[j]),
{
    let keys = cs.map_values(|c: (NodeId, Edge)| ref_key(g, c));
    lemma_order_exists(keys);
    let order = stable_order(keys);
    let ordered = sorted_calls(g, cs);
    let rs = refs_of(g, cs);
    assert(placed_before(keys, order[i], order[j]));
    assert(ordered[i] == cs[order[i]] && ordered[j] == cs[order[j]]);
    let (a, b) = (keys[order[i]], keys[order[j]]);
    assert(a == ref_key(g, ordered[i]) && b == ref_key(g, ordered[j]));
    reveal_with_fuel(crate::order::ranks_lt, 2);
    assert(a.ranks.skip(1) =~= Seq::<u64>::empty());
    assert(b.ranks.skip(1) =~= Seq::<u64>::empty());
    if rs[i].external == rs[j].external {
        assert(a.ranks =~= b.ranks);
    }
    law_kind_places_are_alphabetical(rs[j].kind, rs[i].kind);
    assert(edge_kind_text(rs[i].kind) == called_kind(rs[i].kind));
    assert(edge_kind_text(rs[j].kind) == called_kind(rs[j].kind));
}

/// The edges at the node.
spec fn kept_edges(id: NodeId, into: bool) -> spec_fn(EdgeExport) -> bool {
    |e: EdgeExport|
        if into {
            e.to == id
        } else {
            e.from == id
        }
}

spec fn other_end(e: EdgeExport, into: bool) -> NodeId {
    if into {
        e.from
    } else {
        e.to
    }
}

/// The calls at the node, as the graph lists them.
spec fn calls_at(g: GraphModel, id: NodeId, into: bool) -> Seq<(NodeId, Edge)> {
    if into {
        calls_in(g, id)
    } else {
        calls_out(g, id)
    }
}

proof fn lemma_calls_at(g: GraphModel, id: NodeId, into: bool)
    ensures
        ({
            let es = g.edges.reverse().filter(kept_edges(id, into));
            let cs = calls_at(g, id, into);
            &&& cs.len() == es.len()
            &&& es.len() == tally(g.edges.len() as int, at_node(g, id, into))
            &&& forall|m: int|
                0 <= m < cs.len() ==> #[trigger] cs[m] == (other_end(es[m], into), edge_of(es[m]))
        }),
{
    let keep = kept_edges(id, into);
    let es = g.edges.reverse().filter(keep);
    lemma_filter_reverse(g.edges, keep);
    lemma_filter_tally(g.edges, keep, at_node(g, id, into));
    if into {
        let k = |e: EdgeExport| e.to == id;
        assert(k =~= keep);
        assert(g.edges_in(id) == es);
    } else {
        let k = |e: EdgeExport| e.from == id;
        assert(k =~= keep);
        assert(g.edges_out(id) == es);
    }
}

proof fn lemma_told(g: GraphModel, id: NodeId, into: bool)
    requires
        g.wf(),
    ensures
        told(refs_of(g, calls_at(g, id, into)), g, id, into),
{
    let keep = kept_edges(id, into);
    let back = g.edges.reverse();
    let es = back.filter(keep);
    let at = at_node(g, id, into);
    let cs = calls_at(g, id, into);
    lemma_calls_at(g, id, into);
    crate::seqs::lemma_filter_has(back, keep);
    let keys = cs.map_values(|c: (NodeId, Edge)| ref_key(g, c));
    lemma_order_exists(keys);
    let order = stable_order(keys);
    let ordered = sorted_calls(g, cs);
    let rs = refs_of(g, cs);
    assert(rs.len() == cs.len());
    assert forall|i: int| 0 <= i < rs.len() implies tells_some(#[trigger] rs[i], g, id, into) by {
        let m = order[i];
        assert(ordered[i] == cs[m]);
        let e = es[m];
        assert(es.contains(e));
        assert(back.contains(e) && keep(e));
        let j = back.index_of(e);
        assert(back[j] == e);
        let k = g.edges.len() - 1 - j;
        assert(g.edges[k] == e);
        assert(at(k));
        assert(tells(rs[i], g, g.edges[k], far_end(g, into, k)));
    }
    assert forall|k: int| 0 <= k < g.edges.len() && #[trigger] at(k) implies some_tells(
        rs,
        g,
        into,
        k,
    ) by {
        let e = g.edges[k];
        assert(back[g.edges.len() - 1 - k] == e);
        assert(back.contains(e));
        assert(keep(e));
        assert(es.contains(e));
        let m = es.index_of(e);
        assert(es[m] == e);
        assert(order.contains(m));
        let i = order.index_of(m);
        assert(order[i] == m);
        assert(ordered[i] == cs[m]);
        assert(tells(rs[i], g, g.edges[k], far_end(g, into, k)));
    }
    assert forall|i: int, j: int| 0 <= i < j < rs.len() implies before(
        #[trigger] rs[i],
        #[trigger] rs[j],
    ) by {
        lemma_refs_ordered(g, cs, i, j);
    }
}

/// The tag is among the tags exactly where the attribute is set.
pub open spec fn tagged(tags: Seq<Seq<char>>, tag: Seq<char>, set: bool) -> bool {
    tags.contains(tag) <==> set
}

proof fn lemma_tags(f: crate::graph::NodeFlags)
    ensures
        tagged(flag_texts(f), "pub"@, f.is_pub),
        tagged(flag_texts(f), "async"@, f.is_async),
        tagged(flag_texts(f), "unsafe"@, f.is_unsafe),
        tagged(flag_texts(f), "test"@, f.is_test),
        tagged(flag_texts(f), "generic"@, f.is_generic),
{
    reveal_strlit("pub");
    reveal_strlit("async");
    reveal_strlit("unsafe");
    reveal_strlit("test");
    reveal_strlit("generic");
    let (a, b, c, d, e) = ("pub"@, "async"@, "unsafe"@, "test"@, "generic"@);
    assert(a.len() == 3 && b.len() == 5 && c.len() == 6 && d.len() == 4 && e.len() == 7);
    let one = crate::card::tag_if(f.is_pub, a);
    let two = crate::card::tag_if(f.is_async, b);
    let three = crate::card::tag_if(f.is_unsafe, c);
    let four = crate::card::tag_if(f.is_test, d);
    let five = crate::card::tag_if(f.is_generic, e);
    let tags = flag_texts(f);
    assert(tags == one + two + three + four + five);
    let (p, q) = (one.len() as int, two.len() as int);
    let (r, s) = (three.len() as int, four.len() as int);
    if f.is_pub {
        assert(tags[0] == a);
    }
    if f.is_async {
        assert(tags[p] == b);
    }
    if f.is_unsafe {
        assert(tags[p + q] == c);
    }
    if f.is_test {
        assert(tags[p + q + r] == d);
    }
    if f.is_generic {
        assert(tags[p + q + r + s] == e);
    }
}

/// A card tells of its node what the graph holds of it, and of each call into the node and
/// out of it once: who is at its other end, how it is called, how often and where. The
/// calls come by the name of the other end, unresolved targets last.
pub proof fn law_cards_tell_what_the_graph_holds(c: NodeCard, g: GraphModel, id: NodeId)
    requires
        g.wf(),
        g.has(id),
        c.describes(g, id),
        g.nodes[id.0 as int].stats.decision_points < u32::MAX,
    ensures
        told(views_of(c.inputs@), g, id, true),
        told(views_of(c.outputs@), g, id, false),
        c.fan_in == callers(g, id.0 as int),
        c.fan_out == callees(g, id.0 as int),
        c.entry == entry_kind(g, id),
        ({
            let n = g.nodes[id.0 as int];
            &&& c.id == id
            &&& c.name@ == n.name
            &&& c.qualified_name@ == n.qualified_name
            &&& c.module@ == n.module
            &&& c.kind == n.kind
            &&& c.line == n.span.start_line
            &&& c.end_line == n.span.end_line
            &&& c.file@ == if n.kind == NodeKind::External {
                Seq::empty()
            } else {
                path_at(g, n.span.file as int)
            }
            &&& c.metrics.cyclomatic == n.stats.decision_points + 1
            &&& c.metrics.decision_points == n.stats.decision_points
            &&& c.metrics.parameters == n.stats.parameters
            &&& c.metrics.lines_of_code == n.stats.lines_of_code
            &&& c.metrics.max_nesting == n.stats.max_nesting
            &&& c.metrics.allocations == n.stats.allocations
            &&& c.metrics.unsafe_blocks == n.stats.unsafe_blocks
            &&& c.metrics.awaits == n.stats.awaits
            &&& tagged(views(c.flags@), "pub"@, n.flags.is_pub)
            &&& tagged(views(c.flags@), "async"@, n.flags.is_async)
            &&& tagged(views(c.flags@), "unsafe"@, n.flags.is_unsafe)
            &&& tagged(views(c.flags@), "test"@, n.flags.is_test)
            &&& tagged(views(c.flags@), "generic"@, n.flags.is_generic)
        }),
{
    lemma_told(g, id, true);
    lemma_told(g, id, false);
    law_callers_and_callees_are_counted_once(g, id);
    lemma_tags(g.nodes[id.0 as int].flags);
}

} // verus!
