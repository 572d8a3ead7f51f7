//! Entry points: where a reader should start walking a codebase.
//!
//! No call in the graph points at a program's first function, so where it begins
//! is inferred from the conventional names of program entries, from linkage (a
//! symbol exported across a foreign interface has callers outside the source) and
//! from the shape of the graph (a definition that nobody calls is a root).

use crate::graph::{CodeGraph, GraphModel, NodeKind};
use crate::ids::NodeId;
use crate::order::{arrange, arranged, key_views, text_key, KeyModel, SortKey};
use crate::path::{extension, extension_of};
use crate::reach::{reach_count, reach_total, Direction};
use crate::seqs::{lemma_positions, positions};
use crate::text::same;
use vstd::prelude::*;

verus! {

/// Why a node counts as an entry point, from the likeliest place where the
/// program starts to the least likely.
#[derive(Debug, Clone, Copy, PartialEq, Eq, Structural, PartialOrd, Ord, Hash)]
pub enum EntryKind {
    /// The process entry: `main`, `_start`, and `init` in Go.
    Main,
    /// Exported across a foreign interface and called by nobody in the code.
    Exported,
    /// A public item without callers.
    PublicRoot,
    /// A private definition without callers.
    Root,
    /// A test without callers.
    Test,
}

impl EntryKind {
    /// The place of the kind in the order.
    pub open spec fn spec_rank(self) -> u64 {
        match self {
            EntryKind::Main => 0,
            EntryKind::Exported => 1,
            EntryKind::PublicRoot => 2,
            EntryKind::Root => 3,
            EntryKind::Test => 4,
        }
    }

    pub open spec fn text(self) -> Seq<char> {
        match self {
            EntryKind::Main => "main"@,
            EntryKind::Exported => "exported"@,
            EntryKind::PublicRoot => "public"@,
            EntryKind::Root => "root"@,
            EntryKind::Test => "test"@,
        }
    }

    /// The place of the kind in the order.
    pub fn rank(self) -> (r: u64)
        ensures
            r == self.spec_rank(),
    {
        match self {
            EntryKind::Main => 0,
            EntryKind::Exported => 1,
            EntryKind::PublicRoot => 2,
            EntryKind::Root => 3,
            EntryKind::Test => 4,
        }
    }

    pub fn as_str(self) -> (r: &'static str)
        ensures
            r@ == self.text(),
    {
        match self {
            EntryKind::Main => "main",
            EntryKind::Exported => "exported",
            EntryKind::PublicRoot => "public",
            EntryKind::Root => "root",
            EntryKind::Test => "test",
        }
    }
}

/// A node that is an entry point.
#[derive(Debug, Clone, Copy, PartialEq, Eq, Structural)]
pub struct EntryPoint {
    pub id: NodeId,
    pub kind: EntryKind,
}

/// The analyzed sources are Go: the first file is a Go file.
pub open spec fn go_sources(g: GraphModel) -> bool {
    g.files.len() > 0 && extension(g.files[0]) == Some("go"@)
}

/// The name is that of a program entry.
pub open spec fn main_name(g: GraphModel, name: Seq<char>) -> bool {
    name == "main"@ || name == "_start"@ || (name == "init"@ && go_sources(g))
}

/// What kind of entry point a node is, if any.
pub open spec fn entry_kind(g: GraphModel, id: NodeId) -> Option<EntryKind> {
    let n = g.node(id);
    if !g.has(id) || n.kind == NodeKind::External {
        None
    } else if main_name(g, n.name) {
        Some(EntryKind::Main)
    } else if g.neighbors_in(id).len() > 0 {
        None
    } else if n.flags.is_test {
        Some(EntryKind::Test)
    } else if n.flags.is_exported {
        Some(EntryKind::Exported)
    } else if n.flags.is_pub {
        Some(EntryKind::PublicRoot)
    } else {
        Some(EntryKind::Root)
    }
}

fn is_go(graph: &CodeGraph) -> (r: bool)
    ensures
        r == go_sources(graph@),
{
    match graph.file_path(crate::ids::FileId(0)) {
        Some(p) => match extension_of(p) {
            Some(e) => same(e.as_str(), "go"),
            None => false,
        },
        None => false,
    }
}

fn is_main_name(graph: &CodeGraph, name: &str) -> (r: bool)
    ensures
        r == main_name(graph@, name@),
{
    same(name, "main") || same(name, "_start") || (same(name, "init") && is_go(graph))
}

/// Classify a node; `None` where it is no entry point: unresolved, no node at all,
/// or called from within the analyzed code.
pub fn classify_entry(graph: &CodeGraph, id: NodeId) -> (r: Option<EntryKind>)
    requires
        graph.wf(),
    ensures
        r == entry_kind(graph@, id),
{
    match graph.try_node(id) {
        None => None,
        Some(n) => {
            if n.kind == NodeKind::External {
                None
            } else if is_main_name(graph, n.name.as_str()) {
                Some(EntryKind::Main)
            } else if graph.in_degree(id) > 0 {
                None
            } else if n.flags.is_test {
                Some(EntryKind::Test)
            } else if n.flags.is_exported {
                Some(EntryKind::Exported)
            } else if n.flags.is_pub {
                Some(EntryKind::PublicRoot)
            } else {
                Some(EntryKind::Root)
            }
        },
    }
}

/// Node `i` is an entry point.
pub open spec fn is_entry(g: GraphModel) -> spec_fn(int) -> bool {
    |i: int| entry_kind(g, NodeId(i as u32)) is Some
}

pub open spec fn entry_at(g: GraphModel, i: int) -> EntryPoint {
    EntryPoint { id: NodeId(i as u32), kind: entry_kind(g, NodeId(i as u32))->0 }
}

/// By kind, then by qualified name.
pub open spec fn entry_key(g: GraphModel, i: int) -> KeyModel {
    text_key(seq![entry_at(g, i).kind.spec_rank()], g.nodes[i].qualified_name)
}

/// All entry points, in order.
pub open spec fn entries_of(g: GraphModel) -> Seq<EntryPoint> {
    let at = positions(g.nodes.len() as int, is_entry(g));
    arrange(
        at.map_values(|i: int| entry_at(g, i)),
        at.map_values(|i: int| entry_key(g, i)),
    )
}

/// Every entry point: program entries, exports, public roots, private roots,
/// tests; by qualified name within a kind.
pub fn entry_points(graph: &CodeGraph) -> (r: Vec<EntryPoint>)
    requires
        graph.wf(),
    ensures
        r@ == entries_of(graph@),
        forall|i: int| 0 <= i < r@.len() ==> graph@.has((#[trigger] r@[i]).id),
{
    let ghost g = graph@;
    let ghost hit = is_entry(g);
    let mut found: Vec<EntryPoint> = Vec::new();
    let mut keys: Vec<SortKey> = Vec::new();
    let n: usize = graph.node_count();
    let mut i: usize = 0;
    proof {
        graph.lemma_wf();
        assert(positions(0, hit) =~= Seq::empty());
    }
    while i < n
        invariant
            graph.wf(),
            g == graph@,
            g.wf(),
            i <= n == g.nodes.len() <= u32::MAX,
            hit == is_entry(g),
            found@ =~= positions(i as int, hit).map_values(|i: int| entry_at(g, i)),
            key_views(keys@) =~= positions(i as int, hit).map_values(|i: int| entry_key(g, i)),
        decreases n - i,
    {
        let id = NodeId(i as u32);
        if let Some(kind) = classify_entry(graph, id) {
            let mut ranks: Vec<u64> = Vec::new();
            ranks.push(kind.rank());
            let text = graph.node(id).qualified_name.clone();
            found.push(EntryPoint { id, kind });
            let key = SortKey { ranks, text, minor: 0 };
            assert(key@.ranks =~= entry_key(g, i as int).ranks);
            assert(key@ == entry_key(g, i as int));
            let ghost had = keys@;
            keys.push(key);
            assert(key_views(keys@) =~= key_views(had).push(key@));
        }
        i += 1;
    }
    let out = arranged(&found, &keys);
    proof {
        law_entries_are_ordered_and_complete(g);
        assert forall|j: int| 0 <= j < out@.len() implies g.has((#[trigger] out@[j]).id) by {
            assert(entry_kind(g, entries_of(g)[j].id) is Some);
        }
    }
    out
}

/// A program entry or an export: where execution can really begin.
pub open spec fn starts_execution(g: GraphModel, id: NodeId) -> bool {
    entry_kind(g, id) == Some(EntryKind::Main) || entry_kind(g, id) == Some(EntryKind::Exported)
}

/// `a` is a better place to start than `b`: it drives more code, or as much under
/// a lower id.
pub open spec fn starts_better(g: GraphModel, a: NodeId, b: NodeId) -> bool {
    let x = reach_total(g, a, Direction::Callees);
    let y = reach_total(g, b, Direction::Callees);
    x > y || (x == y && a.0 <= b.0)
}

/// The best place to start reading: of the program entries and exports the one
/// that drives the most code; among equals, the one with the lowest id.
pub fn primary_entry(graph: &CodeGraph) -> (r: Option<NodeId>)
    requires
        graph.wf(),
    ensures
        match r {
            Some(id) => starts_execution(graph@, id) && forall|other: NodeId| #[trigger]
                starts_execution(graph@, other) ==> starts_better(graph@, id, other),
            None => forall|other: NodeId| !starts_execution(graph@, other),
        },
{
    let ghost g = graph@;
    let n: usize = graph.node_count();
    let mut best: Option<(NodeId, usize)> = None;
    let mut i: usize = 0;
    proof {
        graph.lemma_wf();
    }
    while i < n
        invariant
            graph.wf(),
            g == graph@,
            i <= n == g.nodes.len() <= u32::MAX,
            match best {
                Some((id, reach)) => starts_execution(g, id) && id.0 < i && reach == reach_total(
                    g,
                    id,
                    Direction::Callees,
                ) && forall|other: NodeId| #[trigger]
                    starts_execution(g, other) && other.0 < i ==> starts_better(g, id, other),
                None => forall|other: NodeId|
                    other.0 < i ==> !(#[trigger] starts_execution(g, other)),
            },
        decreases n - i,
    {
        let id = NodeId(i as u32);
        let begins = match classify_entry(graph, id) {
            Some(EntryKind::Main) => true,
            Some(EntryKind::Exported) => true,
            _ => false,
        };
        if begins {
            let reach: usize = reach_count(graph, id, Direction::Callees);
            let better = match best {
                Some((_, most)) => reach > most,
                None => true,
            };
            if better {
                best = Some((id, reach));
            }
        }
        proof {
            assert forall|other: NodeId| #[trigger] starts_execution(g, other) && other.0 == i
                implies other == id by {}
        }
        i += 1;
    }
    proof {
        assert forall|other: NodeId| #[trigger] starts_execution(g, other) implies other.0 < n by {}
    }
    match best {
        Some((id, _)) => Some(id),
        None => None,
    }
}

/// The program entries among the entry points, in order.
pub open spec fn mains_of(g: GraphModel) -> Seq<NodeId> {
    entries_of(g).filter(|e: EntryPoint| e.kind == EntryKind::Main).map_values(
        |e: EntryPoint| e.id,
    )
}

/// The program entries, the usual place to start a walk.
pub fn mains(graph: &CodeGraph) -> (r: Vec<NodeId>)
    requires
        graph.wf(),
    ensures
        r@ == mains_of(graph@),
{
    let all = entry_points(graph);
    let ghost keep = |e: EntryPoint| e.kind == EntryKind::Main;
    let mut out: Vec<NodeId> = Vec::new();
    let mut i: usize = 0;
    proof {
        reveal(Seq::filter);
        assert(all@.take(0) =~= Seq::empty());
    }
    while i < all.len()
        invariant
            i <= all@.len(),
            keep == (|e: EntryPoint| e.kind == EntryKind::Main),
            out@ =~= all@.take(i as int).filter(keep).map_values(|e: EntryPoint| e.id),
        decreases all@.len() - i,
    {
        proof {
            reveal(Seq::filter);
            assert(all@.take(i + 1).drop_last() =~= all@.take(i as int));
            assert(all@.take(i + 1).last() == all@[i as int]);
        }
        if all[i].kind == EntryKind::Main {
            out.push(all[i].id);
        }
        i += 1;
    }
    assert(all@.take(all@.len() as int) =~= all@);
    out
}

/// The entry points are listed by kind, the likeliest starting place first, and
/// every one is listed.
pub proof fn law_entries_are_ordered_and_complete(g: GraphModel)
    requires
        g.wf(),
    ensures
        forall|i: int, j: int|
            0 <= i < j < entries_of(g).len() ==> entries_of(g)[i].kind.spec_rank()
                <= entries_of(g)[j].kind.spec_rank(),
        forall|i: int|
            0 <= i < entries_of(g).len() ==> entry_kind(g, (#[trigger] entries_of(g)[i]).id)
                == Some(entries_of(g)[i].kind),
        forall|id: NodeId|
            (#[trigger] entry_kind(g, id)) is Some ==> entries_of(g).contains(
                EntryPoint { id, kind: entry_kind(g, id)->0 },
            ),
{
    let at = positions(g.nodes.len() as int, is_entry(g));
    let found = at.map_values(|i: int| entry_at(g, i));
    let keys = at.map_values(|i: int| entry_key(g, i));
    lemma_positions(g.nodes.len() as int, is_entry(g));
    crate::order::lemma_order_exists(keys);
    let order = crate::order::stable_order(keys);
    let all = entries_of(g);
    assert forall|i: int, j: int| 0 <= i < j < all.len() implies all[i].kind.spec_rank()
        <= all[j].kind.spec_rank() by {
        assert(crate::order::placed_before(keys, order[i], order[j]));
        let a = keys[order[i]];
        let b = keys[order[j]];
        assert(a.ranks[0] <= b.ranks[0]);
    }
    assert forall|i: int| 0 <= i < all.len() implies entry_kind(g, (#[trigger] all[i]).id) == Some(
        all[i].kind,
    ) by {
        assert(all[i] == found[order[i]]);
    }
    assert forall|id: NodeId| (#[trigger] entry_kind(g, id)) is Some implies all.contains(
        EntryPoint { id, kind: entry_kind(g, id)->0 },
    ) by {
        assert(is_entry(g)(id.0 as int));
        assert(at.contains(id.0 as int));
        let i = at.index_of(id.0 as int);
        assert(order.contains(i));
        let j = order.index_of(i);
        assert(all[j] == EntryPoint { id, kind: entry_kind(g, id)->0 });
    }
}

} // verus!
