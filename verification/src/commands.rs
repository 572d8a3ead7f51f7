//! What the commands decide before and after a query: which entry points are listed,
//! which symbols a request means, what is missing.

use crate::entries::{EntryKind, EntryPoint};
use crate::flow::{
    answers, lemma_own_source, nearest, routes,
    shortest_paths, source_at, target_at, upto, FlowPaths,
};
use crate::graph::{CodeGraph, GraphModel};
use crate::ids::NodeId;
use crate::order::{
    arrange, arranged, descending, key_views, lemma_arrange_has, lemma_key_push,
    lemma_order_exists, placed_before, rank_key, ranks_lt, stable_order, KeyModel, SortKey,
};
use crate::path::{parent_dir, parent_of};
use crate::reach::{reach_count, reach_total, Direction};
use crate::resolve::{law_matches_are_definitions, matches_of, resolve, wanted};
use crate::seqs::{lemma_positions, positions, tally, views_of};
use crate::text::{concat2, join, join_text, views};
use crate::trace::flow_known;
use vstd::prelude::*;

verus! {

// -- entry points ---------------------------------------------------------------------

/// The entry point is of the kind that is asked for.
pub open spec fn asked_for(kind: Option<EntryKind>, e: EntryPoint) -> bool {
    kind matches Some(k) ==> e.kind == k
}

/// How many of the first `n` entry points are of a kind.
pub open spec fn of_kind(es: Seq<EntryPoint>, kind: EntryKind, n: int) -> nat {
    tally(n, |i: int| es[i].kind == kind)
}

/// The `i`-th entry point is listed: its kind is asked for, and fewer than `limit` of
/// the same kind come before it.
pub open spec fn is_listed(
    es: Seq<EntryPoint>,
    kind: Option<EntryKind>,
    limit: int,
    i: int,
) -> bool {
    asked_for(kind, es[i]) && of_kind(es, es[i].kind, i) < limit
}

/// The first `n` entry points, those that are listed.
pub open spec fn listed_upto(
    es: Seq<EntryPoint>,
    kind: Option<EntryKind>,
    limit: int,
    n: int,
) -> Seq<EntryPoint>
    decreases n,
{
    if n <= 0 {
        Seq::empty()
    } else if is_listed(es, kind, limit, n - 1) {
        listed_upto(es, kind, limit, n - 1).push(es[n - 1])
    } else {
        listed_upto(es, kind, limit, n - 1)
    }
}

/// The place of a kind among the counters.
pub open spec fn slot(kind: EntryKind) -> int {
    kind.spec_rank() as int
}

/// Of the entry points those of the kind that is asked for, at most `limit` of each
/// kind.
pub fn listed_entries(entries: &Vec<EntryPoint>, kind: Option<EntryKind>, limit: usize) -> (r: Vec<
    EntryPoint,
>)
    ensures
        r@ == listed_upto(entries@, kind, limit as int, entries@.len() as int),
        forall|i: int| 0 <= i < r@.len() ==> entries@.contains(#[trigger] r@[i]),
{
    let mut out: Vec<EntryPoint> = Vec::new();
    let mut seen: Vec<usize> = Vec::new();
    seen.push(0);
    seen.push(0);
    seen.push(0);
    seen.push(0);
    seen.push(0);
    let mut i: usize = 0;
    while i < entries.len()
        invariant
            i <= entries@.len(),
            seen@.len() == 5,
            forall|k: EntryKind| #[trigger]
                of_kind(entries@, k, i as int) == seen@[slot(k)] && seen@[slot(k)] <= i,
            out@ == listed_upto(entries@, kind, limit as int, i as int),
            forall|j: int| 0 <= j < out@.len() ==> entries@.contains(#[trigger] out@[j]),
        decreases entries@.len() - i,
    {
        let e = entries[i];
        let at: usize = e.kind.rank() as usize;
        let wanted = match kind {
            Some(k) => e.kind == k,
            None => true,
        };
        assert(of_kind(entries@, e.kind, i as int) == seen@[slot(e.kind)]);
        if wanted && seen[at] < limit {
            out.push(e);
        }
        let ghost before = seen@;
        let n: usize = seen[at];
        seen.set(at, n + 1);
        proof {
            assert forall|k: EntryKind| #[trigger]
                of_kind(entries@, k, i + 1) == seen@[slot(k)] && seen@[slot(k)] <= i + 1 by {
                assert(of_kind(entries@, k, i as int) == before[slot(k)]);
                let f = |j: int| entries@[j].kind == k;
                assert(tally(i + 1, f) == tally(i as int, f) + if f(i as int) {
                    1nat
                } else {
                    0nat
                });
            }
        }
        i += 1;
    }
    out
}

/// How many functions each entry point reaches. This is counted for program entries
/// always, and for all others where it is asked for.
pub fn entry_reach(graph: &CodeGraph, entries: &Vec<EntryPoint>, all: bool) -> (r: Vec<
    Option<usize>,
>)
    requires
        graph.wf(),
    ensures
        r@.len() == entries@.len(),
        forall|i: int|
            0 <= i < r@.len() ==> match #[trigger] r@[i] {
                Some(n) => (all || entries@[i].kind == EntryKind::Main) && n == reach_total(
                    graph@,
                    entries@[i].id,
                    Direction::Callees,
                ),
                None => !all && entries@[i].kind != EntryKind::Main,
            },
{
    let mut out: Vec<Option<usize>> = Vec::new();
    let mut i: usize = 0;
    while i < entries.len()
        invariant
            graph.wf(),
            i <= entries@.len(),
            out@.len() == i,
            forall|j: int|
                0 <= j < i ==> match #[trigger] out@[j] {
                    Some(n) => (all || entries@[j].kind == EntryKind::Main) && n == reach_total(
                        graph@,
                        entries@[j].id,
                        Direction::Callees,
                    ),
                    None => !all && entries@[j].kind != EntryKind::Main,
                },
        decreases entries@.len() - i,
    {
        let e = entries[i];
        if all || e.kind == EntryKind::Main {
            out.push(Some(reach_count(graph, e.id, Direction::Callees)));
        } else {
            out.push(None);
        }
        i += 1;
    }
    out
}

/// At most `limit` entry points of a kind are listed.
pub proof fn law_listing_is_capped(
    es: Seq<EntryPoint>,
    asked: Option<EntryKind>,
    limit: int,
    kind: EntryKind,
    n: int,
)
    requires
        0 <= n <= es.len(),
        0 <= limit,
    ensures
        ({
            let out = listed_upto(es, asked, limit, n);
            of_kind(out, kind, out.len() as int) <= limit
        }),
{
    lemma_listing(es, asked, limit, kind, n);
}

proof fn lemma_listing(
    es: Seq<EntryPoint>,
    asked: Option<EntryKind>,
    limit: int,
    kind: EntryKind,
    n: int,
)
    requires
        0 <= n <= es.len(),
        0 <= limit,
    ensures
        ({
            let out = listed_upto(es, asked, limit, n);
            let count = of_kind(out, kind, out.len() as int);
            count <= limit && count <= of_kind(es, kind, n)
        }),
    decreases n,
{
    if n > 0 {
        lemma_listing(es, asked, limit, kind, n - 1);
        let front = listed_upto(es, asked, limit, n - 1);
        let out = listed_upto(es, asked, limit, n);
        let f = |i: int| es[i].kind == kind;
        assert(of_kind(es, kind, n) == of_kind(es, kind, n - 1) + if f(n - 1) {
            1nat
        } else {
            0nat
        });
        if is_listed(es, asked, limit, n - 1) {
            lemma_same_kinds(front, out, kind, front.len() as int);
            let h = |i: int| out[i].kind == kind;
            assert(tally(out.len() as int, h) == tally(out.len() - 1, h) + if h(out.len() - 1) {
                1nat
            } else {
                0nat
            });
        }
    }
}

proof fn lemma_same_kinds(a: Seq<EntryPoint>, b: Seq<EntryPoint>, kind: EntryKind, n: int)
    requires
        0 <= n <= a.len(),
        n <= b.len(),
        forall|i: int| 0 <= i < n ==> a[i] == b[i],
    ensures
        of_kind(a, kind, n) == of_kind(b, kind, n),
    decreases n,
{
    if n > 0 {
        lemma_same_kinds(a, b, kind, n - 1);
        let f = |i: int| a[i].kind == kind;
        let h = |i: int| b[i].kind == kind;
        assert(f(n - 1) == h(n - 1));
    }
}

/// An entry point and how many functions it reaches, where that is known.
pub type Ranked = (EntryPoint, Option<usize>);

/// By kind, and within a kind by how much is reached, most first.
pub open spec fn ranked_key(e: Ranked) -> KeyModel {
    rank_key(
        seq![
            e.0.kind.spec_rank(),
            if e.1 is Some {
                0
            } else {
                1
            },
            match e.1 {
                Some(n) => descending(n as int),
                None => 0,
            },
        ],
    )
}

/// The entry points in their ranking; those that rank alike stay in order.
pub open spec fn ranking(es: Seq<Ranked>) -> Seq<Ranked> {
    arrange(es, es.map_values(|e: Ranked| ranked_key(e)))
}

/// Entry points and their reach, side by side.
pub open spec fn with_reach(es: Seq<EntryPoint>, reach: Seq<Option<usize>>) -> Seq<Ranked> {
    Seq::new(es.len(), |i: int| (es[i], reach[i]))
}

fn ranked_sort_key(e: Ranked) -> (r: SortKey)
    ensures
        r@ == ranked_key(e),
{
    let mut ranks: Vec<u64> = Vec::new();
    ranks.push(e.0.kind.rank());
    match e.1 {
        Some(n) => {
            ranks.push(0);
            ranks.push(u64::MAX - n as u64);
        },
        None => {
            ranks.push(1);
            ranks.push(0);
        },
    }
    let r = SortKey { ranks, text: String::new(), minor: 0 };
    proof {
        assert(r@.ranks =~= ranked_key(e).ranks);
        assert(r@.text =~= Seq::<char>::empty());
    }
    r
}

/// Rank entry points by how much code each drives, kind by kind.
pub fn rank_entries(entries: &Vec<EntryPoint>, reach: &Vec<Option<usize>>) -> (r: (
    Vec<EntryPoint>,
    Vec<Option<usize>>,
))
    requires
        entries@.len() == reach@.len(),
    ensures
        r.0@ == ranking(with_reach(entries@, reach@)).map_values(|e: Ranked| e.0),
        r.1@ == ranking(with_reach(entries@, reach@)).map_values(|e: Ranked| e.1),
        r.0@.len() == r.1@.len() == entries@.len(),
        forall|i: int| 0 <= i < r.0@.len() ==> entries@.contains(#[trigger] r.0@[i]),
{
    let ghost all = with_reach(entries@, reach@);
    let ghost want = all.map_values(|e: Ranked| ranked_key(e));
    let mut items: Vec<Ranked> = Vec::new();
    let mut keys: Vec<SortKey> = Vec::new();
    let mut i: usize = 0;
    assert(items@ =~= all.take(0));
    assert(key_views(keys@) =~= want.take(0));
    while i < entries.len()
        invariant
            i <= entries@.len() == reach@.len(),
            all == with_reach(entries@, reach@),
            want == all.map_values(|e: Ranked| ranked_key(e)),
            items@ == all.take(i as int),
            key_views(keys@) == want.take(i as int),
        decreases entries@.len() - i,
    {
        let e: Ranked = (entries[i], reach[i]);
        let key = ranked_sort_key(e);
        proof {
            assert(all.take(i + 1) =~= all.take(i as int).push(e));
            lemma_key_push(keys@, key, want, i as int);
        }
        items.push(e);
        keys.push(key);
        i += 1;
    }
    assert(all.take(all.len() as int) =~= all);
    assert(want.take(want.len() as int) =~= want);
    let sorted = arranged(&items, &keys);
    let mut first: Vec<EntryPoint> = Vec::new();
    let mut second: Vec<Option<usize>> = Vec::new();
    let mut k: usize = 0;
    while k < sorted.len()
        invariant
            k <= sorted@.len(),
            first@ =~= sorted@.take(k as int).map_values(|e: Ranked| e.0),
            second@ =~= sorted@.take(k as int).map_values(|e: Ranked| e.1),
        decreases sorted@.len() - k,
    {
        first.push(sorted[k].0);
        second.push(sorted[k].1);
        k += 1;
    }
    proof {
        assert(sorted@.take(sorted@.len() as int) =~= sorted@);
        lemma_arrange_has(all, want);
        assert forall|j: int| 0 <= j < first@.len() implies entries@.contains(
            #[trigger] first@[j],
        ) by {
            assert(sorted@.contains(sorted@[j]));
            let x = all.index_of(sorted@[j]);
            assert(entries@[x] == first@[j]);
        }
    }
    (first, second)
}

/// In the ranking no entry point comes before one of the same kind that reaches more.
pub proof fn law_ranking_puts_the_most_reaching_first(es: Seq<Ranked>, i: int, j: int)
    requires
        0 <= i < j < ranking(es).len(),
    ensures
        ranking(es)[i].0.kind == ranking(es)[j].0.kind ==> match (ranking(es)[i].1, ranking(es)[j].1) {
            (Some(a), Some(b)) => a >= b,
            (Some(_), None) => true,
            (None, Some(_)) => false,
            (None, None) => true,
        },
        ranking(es)[i].0.kind.spec_rank() <= ranking(es)[j].0.kind.spec_rank(),
{
    let keys = es.map_values(|e: Ranked| ranked_key(e));
    lemma_order_exists(keys);
    let p = stable_order(keys);
    let a = ranked_key(es[p[i]]);
    let b = ranked_key(es[p[j]]);
    assert(keys[p[i]] == a && keys[p[j]] == b);
    assert(placed_before(keys, p[i], p[j]));
    reveal_with_fuel(ranks_lt, 4);
    assert(a.ranks.skip(1)[0] == a.ranks[1] && b.ranks.skip(1)[0] == b.ranks[1]);
    assert(a.ranks.skip(1).skip(1)[0] == a.ranks[2] && b.ranks.skip(1).skip(1)[0] == b.ranks[2]);
}

/// The places in a ranking that are shown: at most `limit` of each kind, the first ones.
pub open spec fn top_places(es: Seq<Ranked>, limit: int) -> Seq<int> {
    let names = es.map_values(|e: Ranked| e.0);
    positions(es.len() as int, |i: int| is_listed(names, None, limit, i))
}

/// Rank entry points by how much code each drives, kind by kind, and keep at most `limit`
/// of each kind.
pub fn top_entries(entries: &Vec<EntryPoint>, reach: &Vec<Option<usize>>, limit: usize) -> (r: (
    Vec<EntryPoint>,
    Vec<Option<usize>>,
))
    requires
        entries@.len() == reach@.len(),
    ensures
        ({
            let all = ranking(with_reach(entries@, reach@));
            let at = top_places(all, limit as int);
            &&& r.0@ == at.map_values(|i: int| all[i].0)
            &&& r.1@ == at.map_values(|i: int| all[i].1)
        }),
        r.0@.len() == r.1@.len(),
        forall|i: int| 0 <= i < r.0@.len() ==> entries@.contains(#[trigger] r.0@[i]),
{
    let (names, counts) = rank_entries(entries, reach);
    let ghost all = ranking(with_reach(entries@, reach@));
    let ghost f = |i: int| is_listed(names@, None, limit as int, i);
    let mut first: Vec<EntryPoint> = Vec::new();
    let mut second: Vec<Option<usize>> = Vec::new();
    let mut seen: Vec<usize> = Vec::new();
    seen.push(0);
    seen.push(0);
    seen.push(0);
    seen.push(0);
    seen.push(0);
    let mut i: usize = 0;
    proof {
        assert(first@ =~= positions(0, f).map_values(|k: int| all[k].0));
        assert(second@ =~= positions(0, f).map_values(|k: int| all[k].1));
    }
    while i < names.len()
        invariant
            i <= names@.len() == counts@.len() == all.len(),
            names@ == all.map_values(|e: Ranked| e.0),
            counts@ == all.map_values(|e: Ranked| e.1),
            f == (|i: int| is_listed(names@, None, limit as int, i)),
            forall|j: int| 0 <= j < names@.len() ==> entries@.contains(#[trigger] names@[j]),
            seen@.len() == 5,
            forall|k: EntryKind| #[trigger]
                of_kind(names@, k, i as int) == seen@[slot(k)] && seen@[slot(k)] <= i,
            first@ == positions(i as int, f).map_values(|k: int| all[k].0),
            second@ == positions(i as int, f).map_values(|k: int| all[k].1),
            forall|j: int| 0 <= j < first@.len() ==> entries@.contains(#[trigger] first@[j]),
        decreases names@.len() - i,
    {
        let e = names[i];
        let at: usize = e.kind.rank() as usize;
        assert(of_kind(names@, e.kind, i as int) == seen@[slot(e.kind)]);
        assert(f(i as int) == (seen@[at as int] < limit));
        let ghost had = positions(i as int, f);
        if seen[at] < limit {
            first.push(e);
            second.push(counts[i]);
            proof {
                assert(first@ =~= had.push(i as int).map_values(|k: int| all[k].0));
                assert(second@ =~= had.push(i as int).map_values(|k: int| all[k].1));
            }
        }
        let ghost before = seen@;
        let n: usize = seen[at];
        seen.set(at, n + 1);
        proof {
            assert forall|k: EntryKind| #[trigger]
                of_kind(names@, k, i + 1) == seen@[slot(k)] && seen@[slot(k)] <= i + 1 by {
                assert(of_kind(names@, k, i as int) == before[slot(k)]);
                let h = |j: int| names@[j].kind == k;
                assert(tally(i + 1, h) == tally(i as int, h) + if h(i as int) {
                    1nat
                } else {
                    0nat
                });
            }
        }
        i += 1;
    }
    (first, second)
}

proof fn lemma_of_kind_grows(es: Seq<EntryPoint>, kind: EntryKind, i: int, j: int)
    requires
        0 <= i <= j,
    ensures
        of_kind(es, kind, i) <= of_kind(es, kind, j),
    decreases j,
{
    if i < j {
        lemma_of_kind_grows(es, kind, i, j - 1);
        let f = |k: int| es[k].kind == kind;
        assert(tally(j, f) >= tally(j - 1, f));
    }
}

/// What is cut drives no more code than what is shown: an entry point that is left out
/// comes after every one of its kind that is kept, and reaches no more than they do.
pub proof fn law_cut_keeps_the_most_reaching(es: Seq<Ranked>, limit: int, shown: int, left: int)
    requires
        0 <= shown < ranking(es).len(),
        0 <= left < ranking(es).len(),
        top_places(ranking(es), limit).contains(shown),
        !top_places(ranking(es), limit).contains(left),
        ranking(es)[shown].0.kind == ranking(es)[left].0.kind,
    ensures
        match (ranking(es)[shown].1, ranking(es)[left].1) {
            (Some(a), Some(b)) => a >= b,
            (Some(_), None) => true,
            (None, Some(_)) => false,
            (None, None) => true,
        },
{
    let all = ranking(es);
    let names = all.map_values(|e: Ranked| e.0);
    let f = |i: int| is_listed(names, None, limit, i);
    let kind = all[shown].0.kind;
    lemma_positions(all.len() as int, f);
    let at = top_places(all, limit);
    assert(f(at[at.index_of(shown)]));
    assert(f(shown) && !f(left));
    if left <= shown {
        lemma_of_kind_grows(names, kind, left, shown);
    }
    law_ranking_puts_the_most_reaching_first(es, shown, left);
}

// -- symbols and flows ----------------------------------------------------------------

/// The definitions that a pattern means, best first.
pub open spec fn meant(g: GraphModel, pattern: Seq<char>) -> Seq<NodeId> {
    if wanted(pattern).len() == 0 {
        Seq::empty()
    } else {
        matches_of(g, wanted(pattern))
    }
}

/// The symbol that a pattern means best, and how many it means.
pub fn pick_symbol(graph: &CodeGraph, pattern: &str) -> (r: Option<(NodeId, usize)>)
    requires
        graph.wf(),
    ensures
        match r {
            Some((id, n)) => n == meant(graph@, pattern@).len() && n > 0 && id == meant(
                graph@,
                pattern@,
            )[0],
            None => meant(graph@, pattern@).len() == 0,
        },
{
    let hits = resolve(graph, pattern);
    if hits.len() == 0 {
        None
    } else {
        Some((hits[0], hits.len()))
    }
}

/// Why no flow can be shown.
#[derive(Debug, Clone, Copy, PartialEq, Eq, Structural)]
pub enum FlowFailure {
    /// The first pattern means no symbol.
    NoEntry,
    /// The second pattern means no symbol.
    NoTarget,
    /// No call path leads from one to the other.
    NoPath,
}

/// Trace the shortest call paths from what one pattern means to what another means.
pub fn trace_flow(
    graph: &CodeGraph,
    from: &str,
    to: &str,
    max_paths: usize,
    max_depth: u32,
) -> (r: Result<FlowPaths, FlowFailure>)
    requires
        graph.wf(),
    ensures
        ({
            let g = graph@;
            let a = meant(g, from@);
            let b = meant(g, to@);
            let limit: usize = if max_paths > 1 {
                max_paths
            } else {
                1
            };
            if a.len() == 0 {
                r == Err::<FlowPaths, FlowFailure>(FlowFailure::NoEntry)
            } else if b.len() == 0 {
                r == Err::<FlowPaths, FlowFailure>(FlowFailure::NoTarget)
            } else {
                match nearest(g, a, b, max_depth as nat) {
                    None => r == Err::<FlowPaths, FlowFailure>(FlowFailure::NoPath),
                    Some(d) => r matches Ok(f) && answers(f, g, a, b, limit, max_depth as nat, d)
                        && flow_known(f, g),
                }
            }
        }),
{
    let sources = resolve(graph, from);
    let targets = resolve(graph, to);
    if sources.len() == 0 {
        return Err(FlowFailure::NoEntry);
    }
    if targets.len() == 0 {
        return Err(FlowFailure::NoTarget);
    }
    let limit: usize = if max_paths > 1 {
        max_paths
    } else {
        1
    };
    match shortest_paths(graph, &sources, &targets, limit, max_depth) {
        Some(f) => {
            proof {
                graph.lemma_wf();
                lemma_meant_known(graph@, from@);
            }
            Ok(f)
        },
        None => Err(FlowFailure::NoPath),
    }
}

/// What a pattern means is part of the graph.
proof fn lemma_meant_known(g: GraphModel, pattern: Seq<char>)
    requires
        g.wf(),
    ensures
        forall|i: int| 0 <= i < meant(g, pattern).len() ==> g.has(#[trigger] meant(g, pattern)[i]),
{
    let ids = meant(g, pattern);
    assert forall|i: int| 0 <= i < ids.len() implies g.has(#[trigger] ids[i]) by {
        assert(ids.contains(ids[i]));
        law_matches_are_definitions(g, wanted(pattern), ids[i]);
    }
}

// -- what a picture points out --------------------------------------------------------

/// How far a path is followed for a picture.
pub const FOCUS_MAX_DEPTH: u32 = 64;

/// What a picture of the graph points out.
#[derive(Debug)]
pub struct Focus {
    pub target: NodeId,
    /// The path that leads there; empty where none is asked for or found.
    pub path: Vec<NodeId>,
    /// The path in words, where it has a step.
    pub breadcrumb: Option<String>,
}

/// The shortest path from what one pattern means to what another means; empty where
/// none is asked for or found.
pub open spec fn focus_path(g: GraphModel, select: Seq<char>, from: Option<Seq<char>>) -> Seq<
    NodeId,
> {
    match from {
        None => Seq::empty(),
        Some(f) => {
            let a = meant(g, f);
            let b = meant(g, select);
            match nearest(g, a, b, FOCUS_MAX_DEPTH as nat) {
                None => Seq::empty(),
                Some(d) => routes(
                    g,
                    seq![source_at(g, a, b, d)],
                    b,
                    target_at(g, a, b, d),
                    d,
                )[0],
            }
        },
    }
}

/// The names along a path.
pub open spec fn path_names(g: GraphModel, path: Seq<NodeId>) -> Seq<Seq<char>> {
    path.map_values(|id: NodeId| g.node(id).name)
}

/// A path in words, where it has a step.
pub open spec fn breadcrumb_text(g: GraphModel, path: Seq<NodeId>) -> Option<Seq<char>> {
    if path.len() > 1 {
        Some("flow: "@ + join(path_names(g, path), " -> "@))
    } else {
        None
    }
}

fn breadcrumb(graph: &CodeGraph, path: &Vec<NodeId>) -> (r: Option<String>)
    requires
        graph.wf(),
        forall|i: int| 0 <= i < path@.len() ==> graph@.has(#[trigger] path@[i]),
    ensures
        (match r {
            Some(t) => Some(t@),
            None => None,
        }) == breadcrumb_text(graph@, path@),
{
    if path.len() <= 1 {
        return None;
    }
    let ghost want = path_names(graph@, path@);
    let mut names: Vec<String> = Vec::new();
    let mut i: usize = 0;
    assert(views(names@) =~= want.take(0));
    while i < path.len()
        invariant
            i <= path@.len(),
            graph.wf(),
            forall|j: int| 0 <= j < path@.len() ==> graph@.has(#[trigger] path@[j]),
            want == path_names(graph@, path@),
            views(names@) == want.take(i as int),
        decreases path@.len() - i,
    {
        let name = graph.node(path[i]).name.clone();
        proof {
            assert(want[i as int] == name@);
            assert(want.take(i + 1) =~= want.take(i as int).push(name@));
            assert(views(names@.push(name)) =~= views(names@).push(name@));
        }
        names.push(name);
        i += 1;
    }
    assert(want.take(want.len() as int) =~= want);
    Some(concat2("flow: ", join_text(&names, " -> ").as_str()))
}

/// What a picture of the graph points out: the symbol that a pattern means best and,
/// where asked for, a path to it. Nothing where the pattern means no symbol.
pub fn focus(graph: &CodeGraph, select: &str, from: Option<&str>) -> (r: Option<Focus>)
    requires
        graph.wf(),
    ensures
        ({
            let start = match from {
                Some(f) => Some(f@),
                None => None,
            };
            let path = focus_path(graph@, select@, start);
            match r {
                Some(f) => {
                    &&& meant(graph@, select@).len() > 0
                    &&& f.target == meant(graph@, select@)[0]
                    &&& f.path@ == path
                    &&& (match f.breadcrumb {
                        Some(t) => Some(t@),
                        None => None,
                    }) == breadcrumb_text(graph@, path)
                },
                None => meant(graph@, select@).len() == 0,
            }
        }),
{
    let hits = resolve(graph, select);
    if hits.len() == 0 {
        return None;
    }
    let mut path: Vec<NodeId> = Vec::new();
    if let Some(f) = from {
        let sources = resolve(graph, f);
        if let Some(found) = shortest_paths(graph, &sources, &hits, 1, FOCUS_MAX_DEPTH) {
            proof {
                let g = graph@;
                let a = sources@;
                let b = hits@;
                let d = nearest(g, a, b, FOCUS_MAX_DEPTH as nat)->0;
                graph.lemma_wf();
                lemma_meant_known(g, f@);
                lemma_own_source(g, a, b, FOCUS_MAX_DEPTH as nat, d);
                let all = routes(g, seq![found.source], b, found.target, d);
                assert(views_of(found.paths@) == upto(all, 1));
                assert(upto(all, 1).len() == 1);
                assert(views_of(found.paths@)[0] == found.paths@[0]@);
            }
            path = found.paths[0].clone();
            assert(path@ =~= found.paths@[0]@);
        }
    }
    let text = breadcrumb(graph, &path);
    Some(Focus { target: hits[0], path, breadcrumb: text })
}

// -- where to look for the configuration ----------------------------------------------

/// The directory from which the configuration is searched: the path itself where it is
/// a directory, else the one that holds it.
pub open spec fn search_dir(path: Seq<char>, is_dir: bool) -> Seq<char> {
    if is_dir {
        path
    } else {
        match parent_dir(path) {
            Some(d) => d,
            None => "."@,
        }
    }
}

/// The directory from which the configuration is searched.
pub fn config_search_dir(path: &str, is_dir: bool) -> (r: String)
    ensures
        r@ == search_dir(path@, is_dir),
{
    if is_dir {
        return path.to_owned();
    }
    match parent_of(path) {
        Some(d) => d,
        None => ".".to_owned(),
    }
}

} // verus!
