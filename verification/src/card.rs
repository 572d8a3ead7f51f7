//! The node card: what a reader wants to see of one function. Where it lives, how
//! large it is, what comes in (its callers) and what goes out (its callees), each
//! with the kind of call, how often it occurs and where it stands.

use crate::entries::{classify_entry, entry_kind, EntryKind};
use crate::graph::{
    edge_of, lemma_neighbors, CodeGraph, Edge, EdgeExport, EdgeKind, GraphModel, Node, NodeFlags,
    NodeKind, NodeModel, SourceSpan,
};
use crate::ids::{FileId, NodeId};
use crate::metrics::{callee_count, caller_count, count_callees, count_callers};
use crate::order::{arrange, arranged, key_views, lemma_key_push, KeyModel, SortKey};
use crate::path::{base_name, base_text};
use crate::seqs::{lemma_push_take, views_of};
use crate::text::{decimal, decimal_text, text_lt, views};
use vstd::prelude::*;

verus! {

/// One caller or callee with the call that connects it.
#[derive(Debug)]
pub struct CallRef {
    pub id: NodeId,
    pub name: String,
    pub qualified_name: String,
    pub kind: EdgeKind,
    /// How many identical call sites the edge stands for.
    pub count: u32,
    /// The first recorded call site, in the caller's file.
    pub call_site: SourceSpan,
    /// Path of the file of the call site; empty where it is unknown.
    pub site_file: String,
    /// The neighbor is an unresolved target.
    pub external: bool,
}

/// The mathematical content of a [`CallRef`].
#[verifier::ext_equal]
pub struct CallRefModel {
    pub id: NodeId,
    pub name: Seq<char>,
    pub qualified_name: Seq<char>,
    pub kind: EdgeKind,
    pub count: u32,
    pub call_site: SourceSpan,
    pub site_file: Seq<char>,
    pub external: bool,
}

impl View for CallRef {
    type V = CallRefModel;

    open spec fn view(&self) -> CallRefModel {
        CallRefModel {
            id: self.id,
            name: self.name@,
            qualified_name: self.qualified_name@,
            kind: self.kind,
            count: self.count,
            call_site: self.call_site,
            site_file: self.site_file@,
            external: self.external,
        }
    }
}

/// Measurements of one function.
#[derive(Debug, Clone, Copy, PartialEq, Eq, Structural)]
pub struct CardMetrics {
    pub cyclomatic: u32,
    pub parameters: u32,
    pub lines_of_code: u32,
    pub max_nesting: u32,
    pub decision_points: u32,
    pub allocations: u32,
    pub unsafe_blocks: u32,
    pub awaits: u32,
}

/// The detail record of one node.
#[derive(Debug)]
pub struct NodeCard {
    pub id: NodeId,
    pub name: String,
    pub qualified_name: String,
    pub module: String,
    pub kind: NodeKind,
    /// Source file; empty for unresolved targets.
    pub file: String,
    pub line: u32,
    pub end_line: u32,
    pub flags: Vec<String>,
    pub metrics: CardMetrics,
    /// Set where the node is an entry point.
    pub entry: Option<EntryKind>,
    /// The number of distinct callers.
    pub fan_in: usize,
    /// The number of distinct callees.
    pub fan_out: usize,
    /// Callers, by qualified name.
    pub inputs: Vec<CallRef>,
    /// Callees, by qualified name.
    pub outputs: Vec<CallRef>,
}

/// The path of a file; empty where the graph does not know it.
pub open spec fn path_of(g: GraphModel, file: FileId) -> Seq<char> {
    if file.0 < g.files.len() {
        g.files[file.0 as int]
    } else {
        Seq::empty()
    }
}

/// The path of the file of a definition; empty for unresolved targets.
pub open spec fn home_of(g: GraphModel, n: NodeModel) -> Seq<char> {
    if n.kind == NodeKind::External {
        Seq::empty()
    } else {
        path_of(g, FileId(n.span.file))
    }
}

/// The neighbor `other`, reached by `e`.
pub open spec fn call_ref_model(g: GraphModel, other: NodeId, e: Edge) -> CallRefModel {
    CallRefModel {
        id: other,
        name: g.node(other).name,
        qualified_name: g.node(other).qualified_name,
        kind: e.kind,
        count: e.count,
        call_site: e.call_site,
        site_file: path_of(g, FileId(e.call_site.file)),
        external: g.node(other).kind == NodeKind::External,
    }
}

pub open spec fn kind_text(kind: NodeKind) -> Seq<char> {
    match kind {
        NodeKind::Function => "function"@,
        NodeKind::Method => "method"@,
        NodeKind::Closure => "closure"@,
        NodeKind::External => "external"@,
    }
}

/// Stable, readable name of a node kind.
pub fn kind_str(kind: NodeKind) -> (r: &'static str)
    ensures
        r@ == kind_text(kind),
{
    match kind {
        NodeKind::Function => "function",
        NodeKind::Method => "method",
        NodeKind::Closure => "closure",
        NodeKind::External => "external",
    }
}

pub open spec fn edge_kind_text(kind: EdgeKind) -> Seq<char> {
    match kind {
        EdgeKind::DirectCall => "direct"@,
        EdgeKind::MethodCall => "method"@,
        EdgeKind::AssociatedCall => "assoc"@,
        EdgeKind::MacroCall => "macro"@,
        EdgeKind::TraitDispatch => "trait"@,
        EdgeKind::Unresolved => "unresolved"@,
    }
}

/// Stable, readable name of an edge kind.
pub fn edge_kind_str(kind: EdgeKind) -> (r: &'static str)
    ensures
        r@ == edge_kind_text(kind),
{
    match kind {
        EdgeKind::DirectCall => "direct",
        EdgeKind::MethodCall => "method",
        EdgeKind::AssociatedCall => "assoc",
        EdgeKind::MacroCall => "macro",
        EdgeKind::TraitDispatch => "trait",
        EdgeKind::Unresolved => "unresolved",
    }
}

/// The place of the kind's name in alphabetical order.
pub open spec fn kind_place(kind: EdgeKind) -> u64 {
    match kind {
        EdgeKind::AssociatedCall => 0,
        EdgeKind::DirectCall => 1,
        EdgeKind::MacroCall => 2,
        EdgeKind::MethodCall => 3,
        EdgeKind::TraitDispatch => 4,
        EdgeKind::Unresolved => 5,
    }
}

/// The places are those of the names in alphabetical order.
pub proof fn law_kind_places_are_alphabetical(a: EdgeKind, b: EdgeKind)
    ensures
        kind_place(a) < kind_place(b) <==> text_lt(edge_kind_text(a), edge_kind_text(b)),
{
    reveal_strlit("direct");
    reveal_strlit("method");
    reveal_strlit("assoc");
    reveal_strlit("macro");
    reveal_strlit("trait");
    reveal_strlit("unresolved");
    let x = edge_kind_text(a);
    let y = edge_kind_text(b);
    crate::text::lemma_text_lt_total(x, y);
    crate::text::lemma_text_lt_total(y, x);
    if x[0] == y[0] {
        assert(x.skip(1)[0] == x[1]);
        assert(y.skip(1)[0] == y[1]);
        reveal_with_fuel(text_lt, 3);
    }
}

fn place_of(kind: EdgeKind) -> (r: u64)
    ensures
        r == kind_place(kind),
{
    match kind {
        EdgeKind::AssociatedCall => 0,
        EdgeKind::DirectCall => 1,
        EdgeKind::MacroCall => 2,
        EdgeKind::MethodCall => 3,
        EdgeKind::TraitDispatch => 4,
        EdgeKind::Unresolved => 5,
    }
}

/// The tag where the attribute is set, nothing otherwise.
pub open spec fn tag_if(set: bool, tag: Seq<char>) -> Seq<Seq<char>> {
    if set {
        seq![tag]
    } else {
        Seq::empty()
    }
}

/// The attributes as short tags.
pub open spec fn flag_texts(f: NodeFlags) -> Seq<Seq<char>> {
    tag_if(f.is_pub, "pub"@) + tag_if(f.is_async, "async"@) + tag_if(f.is_unsafe, "unsafe"@)
        + tag_if(f.is_test, "test"@) + tag_if(f.is_generic, "generic"@)
}

/// The node's attributes as short tags.
pub fn flags_of(n: &Node) -> (r: Vec<&'static str>)
    ensures
        views_of(r@) == flag_texts(n.flags),
{
    let mut v: Vec<&'static str> = Vec::new();
    if n.flags.is_pub {
        v.push("pub");
    }
    assert(views_of(v@) =~= tag_if(n.flags.is_pub, "pub"@));
    let ghost a = v@;
    if n.flags.is_async {
        v.push("async");
    }
    assert(views_of(v@) =~= views_of(a) + tag_if(n.flags.is_async, "async"@));
    let ghost a = v@;
    if n.flags.is_unsafe {
        v.push("unsafe");
    }
    assert(views_of(v@) =~= views_of(a) + tag_if(n.flags.is_unsafe, "unsafe"@));
    let ghost a = v@;
    if n.flags.is_test {
        v.push("test");
    }
    assert(views_of(v@) =~= views_of(a) + tag_if(n.flags.is_test, "test"@));
    let ghost a = v@;
    if n.flags.is_generic {
        v.push("generic");
    }
    assert(views_of(v@) =~= views_of(a) + tag_if(n.flags.is_generic, "generic"@));
    v
}

/// Definitions before unresolved targets, then by qualified name, then by the name
/// of the call's kind.
pub open spec fn ref_key(g: GraphModel, c: (NodeId, Edge)) -> KeyModel {
    let n = g.node(c.0);
    KeyModel {
        ranks: seq![
            if n.kind == NodeKind::External {
                1u64
            } else {
                0u64
            },
        ],
        text: n.qualified_name,
        minor: kind_place(c.1.kind),
    }
}

/// The calls in the order in which a card lists them.
pub open spec fn sorted_calls(g: GraphModel, calls: Seq<(NodeId, Edge)>) -> Seq<(NodeId, Edge)> {
    arrange(calls, calls.map_values(|c: (NodeId, Edge)| ref_key(g, c)))
}

/// The neighbors at the other end of the calls, as a card lists them.
pub open spec fn refs_of(g: GraphModel, calls: Seq<(NodeId, Edge)>) -> Seq<CallRefModel> {
    sorted_calls(g, calls).map_values(|c: (NodeId, Edge)| call_ref_model(g, c.0, c.1))
}

pub open spec fn calls_in(g: GraphModel, id: NodeId) -> Seq<(NodeId, Edge)> {
    g.edges_in(id).map_values(|e: EdgeExport| (e.from, edge_of(e)))
}

pub open spec fn calls_out(g: GraphModel, id: NodeId) -> Seq<(NodeId, Edge)> {
    g.edges_out(id).map_values(|e: EdgeExport| (e.to, edge_of(e)))
}

pub open spec fn card_metrics(n: NodeModel) -> CardMetrics {
    CardMetrics {
        cyclomatic: n.complexity() as u32,
        parameters: n.stats.parameters,
        lines_of_code: n.stats.lines_of_code,
        max_nesting: n.stats.max_nesting,
        decision_points: n.stats.decision_points,
        allocations: n.stats.allocations,
        unsafe_blocks: n.stats.unsafe_blocks,
        awaits: n.stats.awaits,
    }
}

impl NodeCard {
    /// The card describes the node `id` of the graph.
    pub open spec fn describes(self, g: GraphModel, id: NodeId) -> bool {
        let n = g.node(id);
        &&& self.id == id
        &&& self.name@ == n.name
        &&& self.qualified_name@ == n.qualified_name
        &&& self.module@ == n.module
        &&& self.kind == n.kind
        &&& self.file@ == home_of(g, n)
        &&& self.line == n.span.start_line
        &&& self.end_line == n.span.end_line
        &&& views(self.flags@) == flag_texts(n.flags)
        &&& self.metrics == card_metrics(n)
        &&& self.entry == entry_kind(g, id)
        &&& self.fan_in == caller_count(g, id)
        &&& self.fan_out == callee_count(g, id)
        &&& views_of(self.inputs@) == refs_of(g, calls_in(g, id))
        &&& views_of(self.outputs@) == refs_of(g, calls_out(g, id))
    }

    /// `file:line`, or `<external>`.
    pub fn location(&self) -> (r: String)
        ensures
            r@ == place_text(self.file@, self.line),
    {
        if self.file.as_str().is_empty() {
            "<external>".to_owned()
        } else {
            colon_line(self.file.as_str(), self.line)
        }
    }

    /// The base name of the file and the line; nothing for unresolved targets.
    pub fn location_short(&self) -> (r: String)
        ensures
            r@ == short_place_text(self.file@, self.line),
    {
        if self.file.as_str().is_empty() {
            String::new()
        } else {
            colon_line(base_text(self.file.as_str()).as_str(), self.line)
        }
    }
}

/// `name:line`.
pub open spec fn line_text(name: Seq<char>, line: u32) -> Seq<char> {
    name + ":"@ + decimal(line as nat)
}

/// `file:line`, or `<external>` where there is no file.
pub open spec fn place_text(file: Seq<char>, line: u32) -> Seq<char> {
    if file.len() == 0 {
        "<external>"@
    } else {
        line_text(file, line)
    }
}

/// `base name:line`, or nothing where there is no file.
pub open spec fn short_place_text(file: Seq<char>, line: u32) -> Seq<char> {
    if file.len() == 0 {
        Seq::empty()
    } else {
        line_text(base_name(file), line)
    }
}

/// `name:line`.
pub fn colon_line(name: &str, line: u32) -> (r: String)
    ensures
        r@ == line_text(name@, line),
{
    let mut out = name.to_owned();
    out.append(":");
    out.append(decimal_text(line as u64).as_str());
    out
}

/// The path of a file; empty where the graph does not know it.
pub fn file_of(graph: &CodeGraph, file: FileId) -> (r: String)
    ensures
        r@ == path_of(graph@, file),
{
    match graph.file_path(file) {
        Some(p) => p.to_owned(),
        None => String::new(),
    }
}

fn call_ref(graph: &CodeGraph, other: NodeId, e: Edge) -> (r: CallRef)
    requires
        graph@.has(other),
    ensures
        r@ == call_ref_model(graph@, other, e),
{
    let o = graph.node(other);
    CallRef {
        id: other,
        name: o.name.clone(),
        qualified_name: o.qualified_name.clone(),
        kind: e.kind,
        count: e.count,
        call_site: e.call_site,
        site_file: file_of(graph, FileId(e.call_site.file)),
        external: o.kind == NodeKind::External,
    }
}

fn call_refs(graph: &CodeGraph, calls: &Vec<(NodeId, Edge)>) -> (r: Vec<CallRef>)
    requires
        forall|i: int| 0 <= i < calls@.len() ==> graph@.has((#[trigger] calls@[i]).0),
    ensures
        views_of(r@) == refs_of(graph@, calls@),
{
    let ghost g = graph@;
    let mut keys: Vec<SortKey> = Vec::new();
    let ghost want = calls@.map_values(|c: (NodeId, Edge)| ref_key(g, c));
    let mut i: usize = 0;
    while i < calls.len()
        invariant
            g == graph@,
            i <= calls@.len(),
            want == calls@.map_values(|c: (NodeId, Edge)| ref_key(g, c)),
            forall|j: int| 0 <= j < calls@.len() ==> g.has((#[trigger] calls@[j]).0),
            key_views(keys@) == want.take(i as int),
        decreases calls@.len() - i,
    {
        let n = graph.node(calls[i].0);
        let mut ranks: Vec<u64> = Vec::new();
        ranks.push(if n.kind == NodeKind::External { 1 } else { 0 });
        let key = SortKey {
            ranks,
            text: n.qualified_name.clone(),
            minor: place_of(calls[i].1.kind),
        };
        proof {
            assert(key@.ranks =~= ref_key(g, calls@[i as int]).ranks);
            lemma_key_push(keys@, key, want, i as int);
        }
        keys.push(key);
        i += 1;
    }
    assert(want.take(calls@.len() as int) =~= want);
    let sorted = arranged(calls, &keys);
    proof {
        crate::order::lemma_order_exists(want);
        assert forall|j: int| 0 <= j < sorted@.len() implies g.has((#[trigger] sorted@[j]).0) by {
            let order = crate::order::stable_order(want);
            assert(sorted@[j] == calls@[order[j]]);
        }
    }
    let ghost refs = refs_of(g, calls@);
    let mut out: Vec<CallRef> = Vec::new();
    let mut j: usize = 0;
    assert(refs.take(0) =~= Seq::empty());
    assert(views_of(out@) =~= Seq::empty());
    while j < sorted.len()
        invariant
            g == graph@,
            j <= sorted@.len() == refs.len(),
            refs == sorted@.map_values(|c: (NodeId, Edge)| call_ref_model(g, c.0, c.1)),
            forall|m: int| 0 <= m < sorted@.len() ==> g.has((#[trigger] sorted@[m]).0),
            views_of(out@) == refs.take(j as int),
        decreases sorted@.len() - j,
    {
        let c = call_ref(graph, sorted[j].0, sorted[j].1);
        proof {
            lemma_push_take(out@, c, refs, j as int);
        }
        out.push(c);
        j += 1;
    }
    assert(refs.take(sorted@.len() as int) =~= refs);
    out
}

/// The card of a node; `None` where there is no such node.
pub fn node_card(graph: &CodeGraph, id: NodeId) -> (r: Option<NodeCard>)
    requires
        graph.wf(),
    ensures
        match r {
            Some(c) => graph@.has(id) && c.describes(graph@, id),
            None => !graph@.has(id),
        },
{
    let ghost g = graph@;
    let n = match graph.try_node(id) {
        Some(n) => n,
        None => {
            return None;
        },
    };
    let file = if n.kind == NodeKind::External {
        String::new()
    } else {
        file_of(graph, FileId(n.span.file))
    };
    let into = graph.edges_in(id);
    let out = graph.edges_out(id);
    proof {
        graph.lemma_wf();
        lemma_neighbors(g);
        assert forall|i: int| 0 <= i < into@.len() implies g.has((#[trigger] into@[i]).0) by {
            assert(g.neighbors_in(id)[i] == into@[i].0);
            assert(g.neighbors_in(id).contains(into@[i].0));
            assert(g.calls(into@[i].0, id));
        }
        assert forall|i: int| 0 <= i < out@.len() implies g.has((#[trigger] out@[i]).0) by {
            assert(g.neighbors_out(id)[i] == out@[i].0);
            assert(g.neighbors_out(id).contains(out@[i].0));
            assert(g.calls(id, out@[i].0));
        }
        assert(into@ =~= calls_in(g, id));
        assert(out@ =~= calls_out(g, id));
    }
    let inputs = call_refs(graph, &into);
    let outputs = call_refs(graph, &out);
    let tags = flags_of(n);
    let mut flags: Vec<String> = Vec::new();
    let ghost texts = flag_texts(n.flags);
    let mut i: usize = 0;
    assert(views(flags@) =~= texts.take(0));
    while i < tags.len()
        invariant
            i <= tags@.len() == texts.len(),
            views_of(tags@) == texts,
            views(flags@) == texts.take(i as int),
        decreases tags@.len() - i,
    {
        let t = tags[i].to_owned();
        let ghost had = flags@;
        flags.push(t);
        proof {
            assert(views_of(tags@)[i as int] == t@);
            assert(views(flags@) =~= views(had).push(t@));
            assert(texts.take(i + 1) =~= texts.take(i as int).push(t@));
        }
        i += 1;
    }
    assert(texts.take(texts.len() as int) =~= texts);
    assert(g.nodes[id.0 as int].valid());
    Some(
        NodeCard {
            id,
            name: n.name.clone(),
            qualified_name: n.qualified_name.clone(),
            module: n.module.clone(),
            kind: n.kind,
            file,
            line: n.span.start_line,
            end_line: n.span.end_line,
            flags,
            metrics: CardMetrics {
                cyclomatic: n.cyclomatic_complexity(),
                parameters: n.stats.parameters,
                lines_of_code: n.stats.lines_of_code,
                max_nesting: n.stats.max_nesting,
                decision_points: n.stats.decision_points,
                allocations: n.stats.allocations,
                unsafe_blocks: n.stats.unsafe_blocks,
                awaits: n.stats.awaits,
            },
            entry: classify_entry(graph, id),
            fan_in: count_callers(graph, id),
            fan_out: count_callees(graph, id),
            inputs,
            outputs,
        },
    )
}

} // verus!
