//! Symbol lookup: from a pattern that someone typed to nodes, best match first.

use crate::graph::{CodeGraph, GraphModel, NodeKind, NodeModel};
use crate::ids::NodeId;
use crate::order::{arrange, arranged, key_views, text_key, KeyModel, SortKey};
use crate::seqs::{lemma_positions, positions};
use crate::text::{
    byte_len, bytes_in, concat2, contains, ends_with, has_suffix, has_text, lowercase, same, text_lt,
    to_lower, trim_text, trimmed,
};
use vstd::prelude::*;

verus! {

/// What is looked for: the pattern without white space around it, in lower case.
pub open spec fn wanted(pattern: Seq<char>) -> Seq<char> {
    lowercase(trimmed(pattern))
}

/// Node `i` is a definition whose qualified name contains `p`, whatever the case.
pub open spec fn matching(g: GraphModel, p: Seq<char>) -> spec_fn(int) -> bool {
    |i: int|
        g.nodes[i].kind != NodeKind::External && contains(
            lowercase(g.nodes[i].qualified_name),
            p,
        )
}

/// How well a node matches, the best first: the whole qualified name, the whole
/// short name, the end of the path, anything else.
pub open spec fn match_rank(g: GraphModel, p: Seq<char>, i: int) -> u64 {
    let qn = lowercase(g.nodes[i].qualified_name);
    if qn == p {
        0
    } else if lowercase(g.nodes[i].name) == p {
        1
    } else if ends_with(qn, "::"@ + p) {
        2
    } else {
        3
    }
}

/// By rank, then the shorter name, then the name itself.
pub open spec fn match_key(g: GraphModel, p: Seq<char>, i: int) -> KeyModel {
    let q = g.nodes[i].qualified_name;
    text_key(seq![match_rank(g, p, i), byte_len(q) as u64], q)
}

/// The nodes that match `p`, best first.
pub open spec fn matches_of(g: GraphModel, p: Seq<char>) -> Seq<NodeId> {
    let hits = positions(g.nodes.len() as int, matching(g, p));
    arrange(
        hits.map_values(|i: int| NodeId(i as u32)),
        hits.map_values(|i: int| match_key(g, p, i)),
    )
}

/// The definitions whose qualified name contains the pattern, whatever the case,
/// best match first. An empty pattern matches nothing.
pub fn resolve(graph: &CodeGraph, pattern: &str) -> (r: Vec<NodeId>)
    requires
        graph.wf(),
    ensures
        r@ == if wanted(pattern@).len() == 0 {
            Seq::empty()
        } else {
            matches_of(graph@, wanted(pattern@))
        },
{
    let p = to_lower(trim_text(pattern).as_str());
    if p.as_str().is_empty() {
        let none: Vec<NodeId> = Vec::new();
        return none;
    }
    best_first(graph, p.as_str())
}

/// The nodes that match a pattern already in lower case, best first.
pub fn best_first(graph: &CodeGraph, p: &str) -> (r: Vec<NodeId>)
    requires
        graph.wf(),
    ensures
        r@ == matches_of(graph@, p@),
{
    let ghost g = graph@;
    let ghost hit = matching(g, p@);
    let suffix = concat2("::", p);
    let mut ids: Vec<NodeId> = Vec::new();
    let mut keys: Vec<SortKey> = Vec::new();
    let n: usize = graph.node_count();
    let mut i: usize = 0;
    proof {
        graph.lemma_wf();
        assert(positions(0, hit) =~= Seq::empty());
    }
    while i < n
        invariant
            graph.wf(),
            g == graph@,
            g.wf(),
            i <= n == g.nodes.len() <= u32::MAX,
            hit == matching(g, p@),
            suffix@ == "::"@ + p@,
            ids@ =~= positions(i as int, hit).map_values(|i: int| NodeId(i as u32)),
            key_views(keys@) =~= positions(i as int, hit).map_values(
                |i: int| match_key(g, p@, i),
            ),
        decreases n - i,
    {
        let node = graph.nodes_at(i);
        if node.kind != NodeKind::External {
            let qn = to_lower(node.qualified_name.as_str());
            if has_text(qn.as_str(), p) {
                let rank: u64 = if same(qn.as_str(), p) {
                    0
                } else if same(to_lower(node.name.as_str()).as_str(), p) {
                    1
                } else if has_suffix(qn.as_str(), suffix.as_str()) {
                    2
                } else {
                    3
                };
                let mut ranks: Vec<u64> = Vec::new();
                ranks.push(rank);
                ranks.push(bytes_in(node.qualified_name.as_str()) as u64);
                ids.push(NodeId(i as u32));
                let key = SortKey { ranks, text: node.qualified_name.clone(), minor: 0 };
                assert(key@.ranks =~= match_key(g, p@, i as int).ranks);
                assert(key@ == match_key(g, p@, i as int));
                let ghost had = keys@;
                keys.push(key);
                assert(key_views(keys@) =~= key_views(had).push(key@));
            }
        }
        i += 1;
    }
    arranged(&ids, &keys)
}

/// The best match for the pattern, if there is any.
pub fn best_match(graph: &CodeGraph, pattern: &str) -> (r: Option<NodeId>)
    requires
        graph.wf(),
    ensures
        ({
            let all = matches_of(graph@, wanted(pattern@));
            if wanted(pattern@).len() == 0 || all.len() == 0 {
                r is None
            } else {
                r == Some(all[0])
            }
        }),
{
    let all = resolve(graph, pattern);
    if all.len() > 0 {
        Some(all[0])
    } else {
        None
    }
}

/// A lookup only ever answers with definitions whose qualified name contains the
/// pattern; each such definition is in the answer.
pub proof fn law_matches_are_definitions(g: GraphModel, p: Seq<char>, id: NodeId)
    requires
        g.wf(),
    ensures
        matches_of(g, p).contains(id) <==> g.has(id) && g.node(id).kind != NodeKind::External
            && contains(lowercase(g.node(id).qualified_name), p),
{
    let hits = positions(g.nodes.len() as int, matching(g, p));
    let ids = hits.map_values(|i: int| NodeId(i as u32));
    let keys = hits.map_values(|i: int| match_key(g, p, i));
    lemma_positions(g.nodes.len() as int, matching(g, p));
    crate::order::lemma_order_exists(keys);
    let order = crate::order::stable_order(keys);
    let all = matches_of(g, p);
    if all.contains(id) {
        let i = all.index_of(id);
        assert(all[i] == ids[order[i]]);
    }
    if g.has(id) && g.node(id).kind != NodeKind::External && contains(
        lowercase(g.node(id).qualified_name),
        p,
    ) {
        assert(matching(g, p)(id.0 as int));
        assert(hits.contains(id.0 as int));
        let i = hits.index_of(id.0 as int);
        assert(order.contains(i));
        let j = order.index_of(i);
        assert(all[j] == id);
    }
}

/// In the answer, a better kind of match stands before a worse one.
pub proof fn law_better_matches_come_first(g: GraphModel, p: Seq<char>, i: int, j: int)
    requires
        g.wf(),
        0 <= i < j < matches_of(g, p).len(),
    ensures
        match_rank(g, p, matches_of(g, p)[i].0 as int) <= match_rank(
            g,
            p,
            matches_of(g, p)[j].0 as int,
        ),
{
    let hits = positions(g.nodes.len() as int, matching(g, p));
    let keys = hits.map_values(|i: int| match_key(g, p, i));
    lemma_positions(g.nodes.len() as int, matching(g, p));
    crate::order::lemma_order_exists(keys);
    let order = crate::order::stable_order(keys);
    assert(crate::order::placed_before(keys, order[i], order[j]));
    assert(matches_of(g, p)[i] == NodeId(hits[order[i]] as u32));
    assert(matches_of(g, p)[j] == NodeId(hits[order[j]] as u32));
    let a = keys[order[i]];
    let b = keys[order[j]];
    assert(a.ranks[0] <= b.ranks[0]);
}

/// The end of `s` is `end`.
pub open spec fn closes(s: Seq<char>, end: Seq<char>) -> bool {
    exists|front: Seq<char>| s == #[trigger] (front + end)
}

/// Of two definitions the first fits the pattern no worse than the second: the one
/// that is called just so stands before all others, the one whose short name it is
/// before those that only hold it, and the one that ends in it before those that hold
/// it elsewhere; of two that fit alike, the one with the shorter name comes first, and
/// of two names of one length, the one that is less.
pub open spec fn fits_no_worse(a: NodeModel, b: NodeModel, p: Seq<char>) -> bool {
    let (qa, qb) = (lowercase(a.qualified_name), lowercase(b.qualified_name));
    let (na, nb) = (lowercase(a.name) == p, lowercase(b.name) == p);
    let (ea, eb) = (closes(qa, "::"@ + p), closes(qb, "::"@ + p));
    &&& qb == p ==> qa == p
    &&& nb ==> qa == p || na
    &&& eb ==> qa == p || na || ea
    &&& (qa == p <==> qb == p) && (qa == p || ((na <==> nb) && (na || (ea <==> eb)))) ==> {
        let (m, n) = (byte_len(a.qualified_name), byte_len(b.qualified_name));
        m < n || m == n && (a.qualified_name == b.qualified_name || text_lt(
            a.qualified_name,
            b.qualified_name,
        ))
    }
}

pub proof fn lemma_closes(s: Seq<char>, end: Seq<char>)
    ensures
        ends_with(s, end) <==> closes(s, end),
{
    if ends_with(s, end) {
        let n = s.len() - end.len();
        assert(s =~= s.take(n) + end) by {
            assert forall|i: int| n <= i < s.len() implies s[i] == end[i - n] by {
                assert(s.subrange(n, s.len() as int)[i - n] == s[i]);
            }
        }
    }
    if closes(s, end) {
        let front = choose|front: Seq<char>| s == #[trigger] (front + end);
        assert(s.subrange(front.len() as int, s.len() as int) =~= end);
    }
}

/// In the answer each definition stands before those that fit the pattern worse, and
/// none stands there twice.
pub proof fn law_answers_are_ordered_by_fit(g: GraphModel, p: Seq<char>, i: int, j: int)
    requires
        g.wf(),
        0 <= i < j < matches_of(g, p).len(),
        byte_len(g.node(matches_of(g, p)[i]).qualified_name) <= u64::MAX,
        byte_len(g.node(matches_of(g, p)[j]).qualified_name) <= u64::MAX,
    ensures
        matches_of(g, p)[i] != matches_of(g, p)[j],
        fits_no_worse(g.node(matches_of(g, p)[i]), g.node(matches_of(g, p)[j]), p),
{
    let hits = positions(g.nodes.len() as int, matching(g, p));
    let keys = hits.map_values(|i: int| match_key(g, p, i));
    lemma_positions(g.nodes.len() as int, matching(g, p));
    crate::order::lemma_order_exists(keys);
    let order = crate::order::stable_order(keys);
    assert(crate::order::placed_before(keys, order[i], order[j]));
    let (u, v) = (hits[order[i]], hits[order[j]]);
    assert(matches_of(g, p)[i] == NodeId(u as u32));
    assert(matches_of(g, p)[j] == NodeId(v as u32));
    let (a, b) = (keys[order[i]], keys[order[j]]);
    assert(order[i] != order[j]) by {
        crate::order::lemma_key_lt_total(a, a);
    }
    assert(u != v) by {
        if order[i] < order[j] {
            assert(hits[order[i]] < hits[order[j]]);
        } else {
            assert(hits[order[j]] < hits[order[i]]);
        }
    }
    let (m, n) = (g.nodes[u], g.nodes[v]);
    lemma_closes(lowercase(m.qualified_name), "::"@ + p);
    lemma_closes(lowercase(n.qualified_name), "::"@ + p);
    reveal_with_fuel(crate::order::ranks_lt, 3);
    assert(a.ranks.skip(1)[0] == a.ranks[1]);
    assert(b.ranks.skip(1)[0] == b.ranks[1]);
    assert(a.ranks[0] == match_rank(g, p, u) && b.ranks[0] == match_rank(g, p, v));
    assert(a.ranks[1] == byte_len(m.qualified_name) && b.ranks[1] == byte_len(n.qualified_name));
    assert(a.text == m.qualified_name && b.text == n.qualified_name);
}

} // verus!
