//! Views of a traced flow: as indented text, hop by hop, and as a layered diagram.

use crate::card::{
    colon_line, file_of, home_of, kind_str, kind_text, line_text, path_of, place_text,
};
use crate::flow::{
    answers, is_route, law_routes_are_walks, lemma_own_source,
    nearest, path_limit, routes, source_at, target_at, upto, FlowPaths,
};
use crate::graph::{lemma_neighbors, CodeGraph, GraphModel, NodeKind, NodeModel};
use crate::ids::{FileId, NodeId};
use crate::path::{file_name, name_of};
use crate::reach::{neighbors, Direction};
use crate::seqs::{flat, gather, lemma_uniques, uniques, views_of};
use crate::text::{
    before_first, concat2, cut_before_first, decimal, decimal_text, ends_with, has_suffix, join,
    join_text, split, split_text, views,
};
use vstd::prelude::*;

verus! {

/// Every symbol of the traced paths, and both ends, are nodes of the graph.
pub open spec fn flow_known(fp: FlowPaths, g: GraphModel) -> bool {
    &&& g.has(fp.source)
    &&& g.has(fp.target)
    &&& forall|i: int, j: int|
        0 <= i < fp.paths@.len() && 0 <= j < fp.paths@[i]@.len() ==> g.has(
            #[trigger] fp.paths@[i]@[j],
        )
}

/// `file:line` of a node; `<external>` for unresolved targets.
pub fn location(graph: &CodeGraph, id: NodeId) -> (r: String)
    requires
        graph@.has(id),
    ensures
        r@ == place_text(home_of(graph@, graph@.node(id)), graph@.node(id).span.start_line),
{
    let n = graph.node(id);
    if n.kind == NodeKind::External {
        return "<external>".to_owned();
    }
    let file = file_of(graph, n.span.file());
    if file.as_str().is_empty() {
        "<external>".to_owned()
    } else {
        colon_line(file.as_str(), n.span.start_line)
    }
}

/// The file name and the line of a node; nothing where the file is unknown.
pub open spec fn short_location(g: GraphModel, n: NodeModel) -> Seq<char> {
    match file_name(path_of(g, FileId(n.span.file))) {
        Some(base) => line_text(base, n.span.start_line),
        None => Seq::empty(),
    }
}

/// The file name and the line of a node; nothing where the file is unknown.
pub fn location_short(graph: &CodeGraph, id: NodeId) -> (r: String)
    requires
        graph@.has(id),
    ensures
        r@ == short_location(graph@, graph@.node(id)),
{
    let n = graph.node(id);
    let file = file_of(graph, n.span.file());
    match name_of(file.as_str()) {
        Some(base) => colon_line(base.as_str(), n.span.start_line),
        None => {
            let s = String::new();
            assert(s@ =~= Seq::empty());
            s
        },
    }
}

// -- text -----------------------------------------------------------------------------

/// Two blanks for each hop.
pub open spec fn indent(h: nat) -> Seq<char>
    decreases h,
{
    if h == 0 {
        Seq::empty()
    } else {
        indent((h - 1) as nat) + "  "@
    }
}

fn indent_text(h: usize) -> (r: String)
    ensures
        r@ == indent(h as nat),
{
    let mut s = String::new();
    assert(s@ =~= Seq::empty());
    let mut i: usize = 0;
    while i < h
        invariant
            i <= h,
            s@ == indent(i as nat),
        decreases h - i,
    {
        s.append("  ");
        i += 1;
    }
    s
}

/// The line of a hop.
pub open spec fn hop_line(g: GraphModel, path: Seq<NodeId>) -> spec_fn(int) -> Seq<char> {
    |h: int|
        {
            let n = g.node(path[h]);
            indent(h as nat) + (if h == 0 {
                "    "@
            } else {
                "  ↳ "@
            }) + n.qualified_name + "   ["@ + place_text(home_of(g, n), n.span.start_line) + "]\n"@
        }
}

/// The lines of a path.
pub open spec fn path_lines(g: GraphModel, paths: Seq<Seq<NodeId>>) -> spec_fn(int) -> Seq<char> {
    |i: int|
        "\n  path "@ + decimal((i + 1) as nat) + ":\n"@ + gather(
            paths[i].len() as int,
            hop_line(g, paths[i]),
        )
}

/// The number of hops of the paths.
pub open spec fn hop_count(paths: Seq<Seq<NodeId>>) -> nat {
    if paths.len() > 0 && paths[0].len() > 0 {
        (paths[0].len() - 1) as nat
    } else {
        0
    }
}

/// A traced flow as indented text.
pub open spec fn flow_text(
    g: GraphModel,
    source: NodeId,
    target: NodeId,
    paths: Seq<Seq<NodeId>>,
) -> Seq<char> {
    "flow: "@ + g.node(source).qualified_name + "  →  "@ + g.node(target).qualified_name + "\n  "@
        + decimal(hop_count(paths)) + " hop(s), "@ + decimal(paths.len()) + " shortest path(s)\n"@
        + gather(paths.len() as int, path_lines(g, paths))
}

fn path_text(graph: &CodeGraph, path: &Vec<NodeId>) -> (r: String)
    requires
        forall|j: int| 0 <= j < path@.len() ==> graph@.has(#[trigger] path@[j]),
    ensures
        r@ == gather(path@.len() as int, hop_line(graph@, path@)),
{
    let ghost g = graph@;
    let ghost f = hop_line(g, path@);
    let mut s = String::new();
    assert(s@ =~= Seq::empty());
    let mut h: usize = 0;
    while h < path.len()
        invariant
            g == graph@,
            f == hop_line(g, path@),
            forall|j: int| 0 <= j < path@.len() ==> g.has(#[trigger] path@[j]),
            h <= path@.len(),
            s@ == gather(h as int, f),
        decreases path@.len() - h,
    {
        let id = path[h];
        let mut line = indent_text(h);
        line.append(
            if h == 0 {
                "    "
            } else {
                "  ↳ "
            },
        );
        line.append(graph.node(id).qualified_name.as_str());
        line.append("   [");
        line.append(location(graph, id).as_str());
        line.append("]\n");
        s.append(line.as_str());
        h += 1;
    }
    s
}

/// A traced flow as indented text.
pub fn format_text(graph: &CodeGraph, fp: &FlowPaths) -> (r: String)
    requires
        flow_known(*fp, graph@),
    ensures
        r@ == flow_text(graph@, fp.source, fp.target, views_of(fp.paths@)),
{
    let ghost g = graph@;
    let ghost paths = views_of(fp.paths@);
    let ghost f = path_lines(g, paths);
    let mut s = concat2("flow: ", graph.node(fp.source).qualified_name.as_str());
    s.append("  →  ");
    s.append(graph.node(fp.target).qualified_name.as_str());
    s.append("\n  ");
    s.append(decimal_text(fp.hops() as u64).as_str());
    s.append(" hop(s), ");
    s.append(decimal_text(fp.paths.len() as u64).as_str());
    s.append(" shortest path(s)\n");
    let ghost head = s@;
    let mut i: usize = 0;
    let n: usize = fp.paths.len();
    assert(head + gather(0, f) =~= head);
    while i < n
        invariant
            g == graph@,
            paths == views_of(fp.paths@),
            f == path_lines(g, paths),
            flow_known(*fp, g),
            i <= n == fp.paths@.len(),
            s@ == head + gather(i as int, f),
        decreases n - i,
    {
        let ghost before = s@;
        let mut t = concat2("\n  path ", decimal_text(i as u64 + 1).as_str());
        t.append(":\n");
        assert(paths[i as int] == fp.paths@[i as int]@);
        t.append(path_text(graph, &fp.paths[i]).as_str());
        s.append(t.as_str());
        proof {
            assert(t@ == f(i as int));
            assert(s@ =~= head + gather(i + 1, f));
        }
        i += 1;
    }
    s
}

// -- hops and snippets ----------------------------------------------------------------

/// One hop of a flow.
#[derive(Debug)]
pub struct FlowHop {
    pub qualified_name: String,
    pub name: String,
    pub kind: &'static str,
    pub file: String,
    pub line: u32,
    pub end_line: u32,
}

/// The record of a node as a hop.
pub fn hop(graph: &CodeGraph, id: NodeId) -> (r: FlowHop)
    requires
        graph@.has(id),
    ensures
        r.qualified_name@ == graph@.node(id).qualified_name,
        r.name@ == graph@.node(id).name,
        r.kind@ == kind_text(graph@.node(id).kind),
        r.file@ == path_of(graph@, FileId(graph@.node(id).span.file)),
        r.line == graph@.node(id).span.start_line,
        r.end_line == graph@.node(id).span.end_line,
{
    let n = graph.node(id);
    FlowHop {
        qualified_name: n.qualified_name.clone(),
        name: n.name.clone(),
        kind: kind_str(n.kind),
        file: file_of(graph, n.span.file()),
        line: n.span.start_line,
        end_line: n.span.end_line,
    }
}

/// A line without the carriage return that ends it.
pub open spec fn without_return(line: Seq<char>) -> Seq<char> {
    if ends_with(line, "\r"@) {
        line.drop_last()
    } else {
        line
    }
}

/// The lines of a text. A line ends with a line feed, which a carriage return may
/// precede; the last line may lack its end.
pub open spec fn lines(text: Seq<char>) -> Seq<Seq<char>> {
    let pieces = split(text, "\n"@);
    let ended = pieces.drop_last().map_values(|l: Seq<char>| without_return(l));
    if pieces.last().len() == 0 {
        ended
    } else {
        ended.push(pieces.last())
    }
}

fn strip_return(line: &str) -> (r: String)
    ensures
        r@ == without_return(line@),
{
    proof {
        reveal_strlit("\r");
    }
    if has_suffix(line, "\r") {
        let cs = crate::text::chars_of(line);
        let r = crate::text::string_of(&cs, 0, cs.len() - 1);
        assert(r@ =~= line@.drop_last());
        r
    } else {
        line.to_owned()
    }
}

/// The lines of a text.
pub fn split_lines(text: &str) -> (r: Vec<String>)
    ensures
        views(r@) == lines(text@),
{
    proof {
        reveal_strlit("\n");
    }
    let pieces = split_text(text, "\n");
    let ghost all = views(pieces@);
    let ghost ended = all.drop_last().map_values(|l: Seq<char>| without_return(l));
    let n: usize = pieces.len();
    let mut out: Vec<String> = Vec::new();
    assert(views(out@) =~= ended.take(0));
    let mut i: usize = 0;
    while i < n - 1
        invariant
            0 < n == pieces@.len(),
            all == views(pieces@),
            ended == all.drop_last().map_values(|l: Seq<char>| without_return(l)),
            i <= n - 1,
            views(out@) == ended.take(i as int),
        decreases n - 1 - i,
    {
        let l = strip_return(pieces[i].as_str());
        proof {
            assert(ended[i as int] == l@);
            assert(ended.take(i + 1) =~= ended.take(i as int).push(l@));
            assert(views(out@.push(l)) =~= views(out@).push(l@));
        }
        out.push(l);
        i += 1;
    }
    assert(ended.take(ended.len() as int) =~= ended);
    assert(all.last() == pieces@[n - 1]@);
    if !pieces[n - 1].as_str().is_empty() {
        let l = pieces[n - 1].clone();
        assert(views(out@.push(l)) =~= views(out@).push(l@));
        out.push(l);
    }
    out
}

/// The lines from `start` to `end`, both counted from one and included. A start
/// before the first line or after the last is moved to it, and so is an end before the
/// start or after the last line. Nothing where the text has no lines.
pub open spec fn snippet_of(text: Seq<char>, start: u32, end: u32) -> Option<Seq<char>> {
    let all = lines(text);
    let wanted = if start > 1 {
        start as int
    } else {
        1
    };
    let first = if wanted > all.len() {
        all.len() as int
    } else {
        wanted
    };
    let stop = if end > first {
        end as int
    } else {
        first
    };
    let last = if stop > all.len() {
        all.len() as int
    } else {
        stop
    };
    if all.len() == 0 {
        None
    } else {
        Some(join(all.subrange(first - 1, last), "\n"@))
    }
}

/// The lines from `start` to `end` of a text.
pub fn snippet(text: &str, start: u32, end: u32) -> (r: Option<String>)
    ensures
        (match r {
            Some(s) => Some(s@),
            None => None,
        }) == snippet_of(text@, start, end),
{
    let all = split_lines(text);
    let n: usize = all.len();
    if n == 0 {
        return None;
    }
    let wanted: usize = if start > 1 {
        start as usize
    } else {
        1
    };
    let first: usize = if wanted > n {
        n
    } else {
        wanted
    };
    let stop: usize = if end as usize > first {
        end as usize
    } else {
        first
    };
    let last: usize = if stop > n {
        n
    } else {
        stop
    };
    let ghost want = views(all@).subrange(first - 1, last as int);
    let mut part: Vec<String> = Vec::new();
    assert(views(part@) =~= want.take(0));
    let mut i: usize = first - 1;
    while i < last
        invariant
            1 <= first <= n == all@.len(),
            first - 1 <= i <= last <= n,
            want == views(all@).subrange(first - 1, last as int),
            views(part@) == want.take(i - (first - 1)),
        decreases last - i,
    {
        let l = all[i].clone();
        proof {
            let k = i - (first - 1);
            assert(want[k] == l@);
            assert(want.take(k + 1) =~= want.take(k).push(l@));
            assert(views(part@.push(l)) =~= views(part@).push(l@));
        }
        part.push(l);
        i += 1;
    }
    assert(want.take(want.len() as int) =~= want);
    Some(join_text(&part, "\n"))
}

// -- diagrams -------------------------------------------------------------------------

/// A symbol of a diagram.
#[derive(Debug)]
pub struct FlowNode {
    pub label: String,
    pub detail: String,
    pub crate_name: String,
    /// How many hops the symbol is away from the source.
    pub column: usize,
    /// The qualified name.
    pub pick: String,
    /// The symbol is the source or the target.
    pub emphasize: bool,
}

impl FlowNode {
    /// The symbol shows node `id`.
    pub open spec fn shows(self, g: GraphModel, fp: FlowPaths, id: NodeId) -> bool {
        let n = g.node(id);
        &&& self.label@ == n.name
        &&& self.detail@ == short_location(g, n)
        &&& self.crate_name@ == before_first(n.module, "::"@)
        &&& self.column == if fp.depth@.contains_key(id.0) {
            fp.depth@[id.0] as int
        } else {
            0
        }
        &&& self.pick@ == n.qualified_name
        &&& self.emphasize == (id == fp.source || id == fp.target)
    }
}

/// A layered diagram of a flow.
#[derive(Debug)]
pub struct FlowGraph {
    pub title: String,
    pub nodes: Vec<FlowNode>,
    pub edges: Vec<(usize, usize)>,
}

/// The symbols of a flow, each at its first place.
pub open spec fn flow_ids(paths: Seq<Seq<NodeId>>) -> Seq<NodeId> {
    uniques(flat(paths))
}

/// The steps of a path.
pub open spec fn steps_of(path: Seq<NodeId>) -> Seq<(NodeId, NodeId)> {
    if path.len() == 0 {
        Seq::empty()
    } else {
        Seq::new((path.len() - 1) as nat, |h: int| (path[h], path[h + 1]))
    }
}

/// The steps of all paths.
pub open spec fn flow_steps(paths: Seq<Seq<NodeId>>) -> Seq<(NodeId, NodeId)> {
    flat(paths.map_values(|p: Seq<NodeId>| steps_of(p)))
}

/// The places of a step's ends among the symbols.
pub open spec fn step_places(ids: Seq<NodeId>, s: (NodeId, NodeId)) -> (usize, usize) {
    (ids.index_of(s.0) as usize, ids.index_of(s.1) as usize)
}

/// The steps of a flow by place, each once.
pub open spec fn flow_edges(paths: Seq<Seq<NodeId>>) -> Seq<(usize, usize)> {
    let ids = flow_ids(paths);
    uniques(flow_steps(paths).map_values(|s: (NodeId, NodeId)| step_places(ids, s)))
}

fn all_ids(paths: &Vec<Vec<NodeId>>) -> (r: Vec<NodeId>)
    ensures
        r@ == flat(views_of(paths@)),
{
    let ghost ps = views_of(paths@);
    let mut out: Vec<NodeId> = Vec::new();
    let mut i: usize = 0;
    assert(ps.take(0) =~= Seq::empty());
    while i < paths.len()
        invariant
            i <= paths@.len(),
            ps == views_of(paths@),
            out@ == flat(ps.take(i as int)),
        decreases paths@.len() - i,
    {
        let p = &paths[i];
        let ghost before = out@;
        let mut h: usize = 0;
        assert(p@.take(0) =~= Seq::empty());
        assert(before + Seq::empty() =~= before);
        while h < p.len()
            invariant
                h <= p@.len(),
                out@ == before + p@.take(h as int),
            decreases p@.len() - h,
        {
            out.push(p[h]);
            assert(out@ =~= before + p@.take(h + 1));
            h += 1;
        }
        proof {
            assert(p@.take(p@.len() as int) =~= p@);
            assert(ps.take(i + 1).drop_last() =~= ps.take(i as int));
            assert(ps.take(i + 1).last() == p@);
        }
        i += 1;
    }
    assert(ps.take(ps.len() as int) =~= ps);
    out
}

/// The place of an item; the length where it does not occur.
fn place_of(ids: &Vec<NodeId>, id: NodeId) -> (r: usize)
    ensures
        r <= ids@.len(),
        r < ids@.len() ==> ids@[r as int] == id,
        r == ids@.len() ==> !ids@.contains(id),
{
    let mut i: usize = 0;
    while i < ids.len()
        invariant
            i <= ids@.len(),
            forall|j: int| 0 <= j < i ==> #[trigger] ids@[j] != id,
        decreases ids@.len() - i,
    {
        if ids[i] == id {
            return i;
        }
        i += 1;
    }
    i
}

fn unique_ids(all: &Vec<NodeId>) -> (r: Vec<NodeId>)
    ensures
        r@ == uniques(all@),
{
    let mut out: Vec<NodeId> = Vec::new();
    let mut i: usize = 0;
    assert(all@.take(0) =~= Seq::empty());
    while i < all.len()
        invariant
            i <= all@.len(),
            out@ == uniques(all@.take(i as int)),
        decreases all@.len() - i,
    {
        assert(all@.take(i + 1).drop_last() =~= all@.take(i as int));
        let at: usize = place_of(&out, all[i]);
        if at == out.len() {
            out.push(all[i]);
        } else {
            assert(out@.contains(all@[i as int]));
        }
        i += 1;
    }
    assert(all@.take(all@.len() as int) =~= all@);
    out
}

fn unique_pairs(all: &Vec<(usize, usize)>) -> (r: Vec<(usize, usize)>)
    ensures
        r@ == uniques(all@),
{
    let mut out: Vec<(usize, usize)> = Vec::new();
    let mut i: usize = 0;
    assert(all@.take(0) =~= Seq::empty());
    while i < all.len()
        invariant
            i <= all@.len(),
            out@ == uniques(all@.take(i as int)),
        decreases all@.len() - i,
    {
        assert(all@.take(i + 1).drop_last() =~= all@.take(i as int));
        let mut known = false;
        let mut j: usize = 0;
        while j < out.len() && !known
            invariant
                j <= out@.len(),
                i < all@.len(),
                known ==> out@.contains(all@[i as int]),
                !known ==> forall|k: int| 0 <= k < j ==> #[trigger] out@[k] != all@[i as int],
            decreases out@.len() - j,
        {
            if out[j].0 == all[i].0 && out[j].1 == all[i].1 {
                assert(out@[j as int] == all@[i as int]);
                known = true;
            }
            j += 1;
        }
        if !known {
            out.push(all[i]);
        }
        i += 1;
    }
    assert(all@.take(all@.len() as int) =~= all@);
    out
}

/// The steps of all paths, by place.
fn step_pairs(paths: &Vec<Vec<NodeId>>, ids: &Vec<NodeId>) -> (r: Vec<(usize, usize)>)
    requires
        ids@ == flow_ids(views_of(paths@)),
    ensures
        r@ == flow_steps(views_of(paths@)).map_values(
            |s: (NodeId, NodeId)| step_places(ids@, s),
        ),
{
    let ghost ps = views_of(paths@);
    let ghost steps = ps.map_values(|p: Seq<NodeId>| steps_of(p));
    let ghost f = |s: (NodeId, NodeId)| step_places(ids@, s);
    let mut out: Vec<(usize, usize)> = Vec::new();
    let mut i: usize = 0;
    proof {
        lemma_uniques(flat(ps));
        assert(steps.take(0) =~= Seq::empty());
        assert(flat(steps.take(0)).map_values(f) =~= Seq::empty());
    }
    while i < paths.len()
        invariant
            i <= paths@.len(),
            ps == views_of(paths@),
            steps == ps.map_values(|p: Seq<NodeId>| steps_of(p)),
            f == (|s: (NodeId, NodeId)| step_places(ids@, s)),
            ids@ == uniques(flat(ps)),
            ids@.no_duplicates(),
            forall|x: NodeId| #[trigger] ids@.contains(x) <==> flat(ps).contains(x),
            out@ == flat(steps.take(i as int)).map_values(f),
        decreases paths@.len() - i,
    {
        let p = &paths[i];
        let ghost before = out@;
        let ghost own = steps_of(p@);
        let mut h: usize = 1;
        assert(before + own.take(0).map_values(f) =~= before);
        while h < p.len()
            invariant
                1 <= h,
                p@ == ps[i as int],
                0 <= i < ps.len(),
                h <= p@.len() || (p@.len() == 0 && h == 1),
                own == steps_of(p@),
                f == (|s: (NodeId, NodeId)| step_places(ids@, s)),
                ids@.no_duplicates(),
                forall|x: NodeId| #[trigger] ids@.contains(x) <==> flat(ps).contains(x),
                out@ == before + own.take(h - 1).map_values(f),
            decreases p@.len() - h,
        {
            proof {
                lemma_flat_has(ps, i as int, h - 1);
                lemma_flat_has(ps, i as int, h as int);
                assert(ids@.contains(p@[h - 1]));
                assert(ids@.contains(p@[h as int]));
            }
            let a: usize = place_of(ids, p[h - 1]);
            let b: usize = place_of(ids, p[h]);
            out.push((a, b));
            proof {
                assert(own[h - 1] == (p@[h - 1], p@[h as int]));
                assert(step_places(ids@, own[h - 1]) == (a, b));
                assert(own.take(h as int) =~= own.take(h - 1).push(own[h - 1]));
                assert(out@ =~= before + own.take(h as int).map_values(f));
            }
            h += 1;
        }
        proof {
            assert(h - 1 == own.len());
            assert(own.take(own.len() as int) =~= own);
            assert(steps.take(i + 1).drop_last() =~= steps.take(i as int));
            assert(steps.take(i + 1).last() == own);
            let front = flat(steps.take(i as int));
            assert((front + own).map_values(f) =~= front.map_values(f) + own.map_values(f));
        }
        i += 1;
    }
    assert(steps.take(steps.len() as int) =~= steps);
    out
}

/// What stands in one of the lists stands in all of them put together.
proof fn lemma_flat_has<T>(lists: Seq<Seq<T>>, i: int, j: int)
    requires
        0 <= i < lists.len(),
        0 <= j < lists[i].len(),
    ensures
        flat(lists).contains(lists[i][j]),
    decreases lists.len(),
{
    let front = flat(lists.drop_last());
    let all = front + lists.last();
    if i < lists.len() - 1 {
        lemma_flat_has(lists.drop_last(), i, j);
        assert(all[front.index_of(lists[i][j])] == lists[i][j]);
    } else {
        assert(all[front.len() + j] == lists[i][j]);
    }
}

fn diagram_node(graph: &CodeGraph, fp: &FlowPaths, id: NodeId) -> (r: FlowNode)
    requires
        graph@.has(id),
    ensures
        r.shows(graph@, *fp, id),
{
    broadcast use vstd::std_specs::hash::group_hash_axioms;

    proof {
        reveal_strlit("::");
    }
    let n = graph.node(id);
    let column: usize = match fp.depth.get(&id.0) {
        Some(d) => *d as usize,
        None => 0,
    };
    FlowNode {
        label: n.name.clone(),
        detail: location_short(graph, id),
        crate_name: cut_before_first(n.module.as_str(), "::"),
        column,
        pick: n.qualified_name.clone(),
        emphasize: id == fp.source || id == fp.target,
    }
}

/// The layered diagram of a traced flow: each symbol once, in the order in which the
/// paths meet them, and each step once.
pub fn to_flow_graph(graph: &CodeGraph, fp: &FlowPaths) -> (r: FlowGraph)
    requires
        flow_known(*fp, graph@),
    ensures
        r.title@ == "flow: "@ + graph@.node(fp.source).name + "  ->  "@ + graph@.node(
            fp.target,
        ).name,
        r.nodes@.len() == flow_ids(views_of(fp.paths@)).len(),
        forall|i: int|
            0 <= i < r.nodes@.len() ==> (#[trigger] r.nodes@[i]).shows(
                graph@,
                *fp,
                flow_ids(views_of(fp.paths@))[i],
            ),
        r.edges@ == flow_edges(views_of(fp.paths@)),
{
    let ghost ps = views_of(fp.paths@);
    let all = all_ids(&fp.paths);
    let ids = unique_ids(&all);
    let ghost g = graph@;
    proof {
        lemma_uniques(flat(ps));
        assert forall|i: int| 0 <= i < ids@.len() implies g.has(#[trigger] ids@[i]) by {
            assert(ids@.contains(ids@[i]));
            assert(flat(ps).contains(ids@[i]));
            assert(ps.take(ps.len() as int) =~= ps);
            lemma_flat_known(*fp, g, ps.len() as int, ids@[i]);
        }
    }
    let mut nodes: Vec<FlowNode> = Vec::new();
    let mut i: usize = 0;
    while i < ids.len()
        invariant
            g == graph@,
            forall|i: int| 0 <= i < ids@.len() ==> g.has(#[trigger] ids@[i]),
            i <= ids@.len(),
            nodes@.len() == i,
            forall|j: int| 0 <= j < i ==> (#[trigger] nodes@[j]).shows(g, *fp, ids@[j]),
        decreases ids@.len() - i,
    {
        nodes.push(diagram_node(graph, fp, ids[i]));
        i += 1;
    }
    let pairs = step_pairs(&fp.paths, &ids);
    let edges = unique_pairs(&pairs);
    let mut title = concat2("flow: ", graph.node(fp.source).name.as_str());
    title.append("  ->  ");
    title.append(graph.node(fp.target).name.as_str());
    FlowGraph { title, nodes, edges }
}

proof fn lemma_flat_known(fp: FlowPaths, g: GraphModel, k: int, x: NodeId)
    requires
        flow_known(fp, g),
        0 <= k <= fp.paths@.len(),
        flat(views_of(fp.paths@).take(k)).contains(x),
    ensures
        g.has(x),
    decreases k,
{
    let ps = views_of(fp.paths@);
    if k > 0 {
        assert(ps.take(k).drop_last() =~= ps.take(k - 1));
        let front = flat(ps.take(k - 1));
        let all = front + ps[k - 1];
        let i = all.index_of(x);
        if i < front.len() {
            assert(front[i] == x);
            lemma_flat_known(fp, g, k - 1, x);
        } else {
            let j = i - front.len();
            assert(fp.paths@[k - 1]@[j] == x);
        }
    }
}

/// What a search for shortest paths finds can be shown: both ends and every symbol on
/// the way are nodes of the graph, where the sources are.
pub proof fn law_found_flow_can_be_shown(
    f: FlowPaths,
    g: GraphModel,
    sources: Seq<NodeId>,
    targets: Seq<NodeId>,
    max_paths: usize,
    max: nat,
    d: nat,
)
    requires
        g.wf(),
        forall|i: int| 0 <= i < sources.len() ==> g.has(#[trigger] sources[i]),
        nearest(g, sources, targets, max) == Some(d),
        answers(f, g, sources, targets, max_paths, max, d),
    ensures
        flow_known(f, g),
{
    let t = target_at(g, sources, targets, d);
    let own = seq![source_at(g, sources, targets, d)];
    lemma_own_source(g, sources, targets, max, d);
    assert(g.has(own[0])) by {
        assert(g.has(sources[sources.index_of(own[0])]));
    }
    let all = routes(g, own, targets, t, d);
    let shown = upto(all, path_limit(max_paths));
    law_routes_are_walks(g, own, targets, t, d);
    assert(views_of(f.paths@) == shown);
    assert(is_route(g, own, t, d, all[0]));
    lemma_route_known(g, own, t, d, all[0], d as int);
    assert forall|i: int, j: int|
        0 <= i < f.paths@.len() && 0 <= j < f.paths@[i]@.len() implies g.has(
        #[trigger] f.paths@[i]@[j],
    ) by {
        assert(f.paths@[i]@ == views_of(f.paths@)[i]);
        assert(i < shown.len());
        assert(shown[i] == all[i]);
        assert(is_route(g, own, t, d, all[i]));
        lemma_route_known(g, own, t, d, all[i], j);
    }
}

proof fn lemma_route_known(
    g: GraphModel,
    sources: Seq<NodeId>,
    t: NodeId,
    d: nat,
    p: Seq<NodeId>,
    j: int,
)
    requires
        g.wf(),
        forall|i: int| 0 <= i < sources.len() ==> g.has(#[trigger] sources[i]),
        is_route(g, sources, t, d, p),
        0 <= j < p.len(),
    ensures
        g.has(p[j]),
{
    lemma_neighbors(g);
    if j == 0 {
        let i = sources.index_of(p[0]);
        assert(g.has(sources[i]));
    } else {
        let a = p[j - 1];
        assert(neighbors(g, Direction::Callees, a).contains(p[j - 1 + 1]));
        assert(g.neighbors_out(a).contains(p[j]));
        assert(g.calls(a, p[j]));
    }
}


// -- laws -----------------------------------------------------------------------------

/// Where a node is said to stand: the path of its file and its first line; nothing is said
/// of a target that is not in the code.
pub open spec fn standing(g: GraphModel, id: NodeId) -> Seq<char> {
    let n = g.nodes[id.0 as int];
    if n.kind == NodeKind::External || n.span.file >= g.files.len() || g.files[n.span.file as int].len()
        == 0 {
        "<external>"@
    } else {
        g.files[n.span.file as int] + ":"@ + decimal(n.span.start_line as nat)
    }
}

/// The line of the hop number `h`, which leads to node `id`: two blanks for each hop
/// before it, an arrow on all but the first, the name of the node and where it stands.
pub open spec fn line_of_hop(g: GraphModel, id: NodeId, h: nat) -> Seq<char> {
    Seq::new(2 * h, |i: int| ' ') + (if h == 0 {
        "    "@
    } else {
        "  ↳ "@
    }) + g.nodes[id.0 as int].qualified_name + "   ["@ + standing(g, id) + "]\n"@
}

/// The lines of a path, each told from the node of that hop alone.
pub open spec fn lines_of_path(g: GraphModel, path: Seq<NodeId>) -> Seq<Seq<char>> {
    Seq::new(path.len(), |h: int| line_of_hop(g, path[h], h as nat))
}

/// The paths of a flow, one after another, each under its number.
pub open spec fn blocks_of_flow(g: GraphModel, paths: Seq<Seq<NodeId>>) -> Seq<Seq<char>> {
    Seq::new(
        paths.len(),
        |i: int|
            "\n  path "@ + decimal((i + 1) as nat) + ":\n"@ + flat(lines_of_path(g, paths[i])),
    )
}

proof fn lemma_gather_flat<T>(n: int, f: spec_fn(int) -> Seq<T>, lists: Seq<Seq<T>>)
    requires
        n == lists.len(),
        forall|i: int| 0 <= i < n ==> #[trigger] f(i) == lists[i],
    ensures
        gather(n, f) == flat(lists),
    decreases n,
{
    if n > 0 {
        assert(f(n - 1) == lists[n - 1]);
        assert forall|i: int| 0 <= i < n - 1 implies #[trigger] f(i) == lists.drop_last()[i] by {
            assert(f(i) == lists[i]);
        }
        lemma_gather_flat(n - 1, f, lists.drop_last());
    }
}

proof fn lemma_indent(h: nat)
    ensures
        indent(h) == Seq::new(2 * h, |i: int| ' '),
    decreases h,
{
    if h > 0 {
        lemma_indent((h - 1) as nat);
        reveal_strlit("  ");
    }
    assert(indent(h) =~= Seq::new(2 * h, |i: int| ' '));
}

/// The text of a flow names both ends, counts the hops and the paths, and then lists the
/// paths hop by hop, each hop with the name of its own node and where that node stands.
pub proof fn law_hops_are_shown_where_they_stand(
    g: GraphModel,
    source: NodeId,
    target: NodeId,
    paths: Seq<Seq<NodeId>>,
)
    ensures
        flow_text(g, source, target, paths) == "flow: "@ + g.nodes[source.0 as int].qualified_name
            + "  →  "@ + g.nodes[target.0 as int].qualified_name + "\n  "@ + decimal(
            if paths.len() > 0 && paths[0].len() > 0 {
                (paths[0].len() - 1) as nat
            } else {
                0
            },
        ) + " hop(s), "@ + decimal(paths.len()) + " shortest path(s)\n"@ + flat(
            blocks_of_flow(g, paths),
        ),
{
    let f = path_lines(g, paths);
    let blocks = blocks_of_flow(g, paths);
    assert forall|i: int| 0 <= i < paths.len() implies #[trigger] f(i) == blocks[i] by {
        let p = paths[i];
        let e = hop_line(g, p);
        let ls = lines_of_path(g, p);
        assert forall|h: int| 0 <= h < p.len() implies #[trigger] e(h) == ls[h] by {
            lemma_indent(h as nat);
        }
        lemma_gather_flat(p.len() as int, e, ls);
    }
    lemma_gather_flat(paths.len() as int, f, blocks);
}

/// A diagram of a flow has each symbol of its paths once and no other, and a line between
/// two of them exactly where a path steps from the one to the other.
pub proof fn law_diagram_shows_symbols_and_steps(paths: Seq<Seq<NodeId>>, x: NodeId, y: NodeId)
    requires
        flat(paths).len() <= usize::MAX,
    ensures
        flow_ids(paths).no_duplicates(),
        flow_ids(paths).contains(x) <==> exists|i: int, h: int|
            0 <= i < paths.len() && 0 <= h < paths[i].len() && #[trigger] paths[i][h] == x,
        flow_edges(paths).no_duplicates(),
        (exists|k: int|
            0 <= k < flow_edges(paths).len() && (#[trigger] flow_edges(paths)[k]).0
                < flow_ids(paths).len() && flow_ids(paths)[flow_edges(paths)[k].0 as int] == x
                && flow_edges(paths)[k].1 < flow_ids(paths).len()
                && flow_ids(paths)[flow_edges(paths)[k].1 as int] == y) <==> exists|i: int, h: int|
            0 <= i < paths.len() && 0 <= h < paths[i].len() - 1 && #[trigger] paths[i][h] == x
                && paths[i][h + 1] == y,
{
    let all = flat(paths);
    let ids = flow_ids(paths);
    let steps = flow_steps(paths);
    let lists = paths.map_values(|p: Seq<NodeId>| steps_of(p));
    let f = |s: (NodeId, NodeId)| step_places(ids, s);
    let places = steps.map_values(f);
    let edges = flow_edges(paths);
    lemma_uniques(all);
    lemma_uniques(places);
    if all.contains(x) {
        let (i, h) = lemma_flat_at(paths, all.index_of(x));
        assert(paths[i][h] == x);
    }
    if exists|i: int, h: int|
        0 <= i < paths.len() && 0 <= h < paths[i].len() && #[trigger] paths[i][h] == x {
        let (i, h) = choose|i: int, h: int|
            0 <= i < paths.len() && 0 <= h < paths[i].len() && #[trigger] paths[i][h] == x;
        lemma_flat_has(paths, i, h);
    }
    assert forall|s: int| 0 <= s < steps.len() implies ({
        &&& all.contains((#[trigger] steps[s]).0)
        &&& all.contains(steps[s].1)
        &&& exists|i: int, h: int|
            0 <= i < paths.len() && 0 <= h < paths[i].len() - 1 && #[trigger] paths[i][h]
                == steps[s].0 && paths[i][h + 1] == steps[s].1
    }) by {
        let (i, h) = lemma_flat_at(lists, s);
        assert(lists[i] == steps_of(paths[i]));
        assert(steps[s] == (paths[i][h], paths[i][h + 1]));
        lemma_flat_has(paths, i, h);
        lemma_flat_has(paths, i, h + 1);
    }
    if exists|k: int|
        0 <= k < edges.len() && (#[trigger] edges[k]).0 < ids.len() && ids[edges[k].0 as int] == x
            && edges[k].1 < ids.len() && ids[edges[k].1 as int] == y {
        let k = choose|k: int|
            0 <= k < edges.len() && (#[trigger] edges[k]).0 < ids.len() && ids[edges[k].0 as int]
                == x && edges[k].1 < ids.len() && ids[edges[k].1 as int] == y;
        assert(edges.contains(edges[k]));
        assert(places.contains(edges[k]));
        let s = places.index_of(edges[k]);
        assert(places[s] == step_places(ids, steps[s]));
        assert(ids.contains(steps[s].0));
        assert(ids.contains(steps[s].1));
        assert(ids.index_of(steps[s].0) < ids.len());
        assert(steps[s].0 == x && steps[s].1 == y);
    }
    if exists|i: int, h: int|
        0 <= i < paths.len() && 0 <= h < paths[i].len() - 1 && #[trigger] paths[i][h] == x
            && paths[i][h + 1] == y {
        let (i, h) = choose|i: int, h: int|
            0 <= i < paths.len() && 0 <= h < paths[i].len() - 1 && #[trigger] paths[i][h] == x
                && paths[i][h + 1] == y;
        assert(lists[i] == steps_of(paths[i]));
        assert(lists[i][h] == (x, y));
        lemma_flat_has(lists, i, h);
        let s = steps.index_of((x, y));
        assert(steps[s] == (x, y));
        assert(places[s] == step_places(ids, (x, y)));
        assert(places.contains(places[s]));
        assert(edges.contains(places[s]));
        let k = edges.index_of(places[s]);
        assert(edges[k] == step_places(ids, (x, y)));
        assert(ids.contains(x) && ids.contains(y));
        assert(ids[ids.index_of(x)] == x && ids[ids.index_of(y)] == y);
    }
}

proof fn lemma_flat_at<T>(lists: Seq<Seq<T>>, k: int) -> (r: (int, int))
    requires
        0 <= k < flat(lists).len(),
    ensures
        0 <= r.0 < lists.len(),
        0 <= r.1 < lists[r.0].len(),
        flat(lists)[k] == lists[r.0][r.1],
    decreases lists.len(),
{
    let front = flat(lists.drop_last());
    if k < front.len() {
        lemma_flat_at(lists.drop_last(), k)
    } else {
        (lists.len() - 1, k - front.len())
    }
}

} // verus!
