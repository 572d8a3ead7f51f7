//! The call graph: callable symbols, the calls between them, and the files they
//! come from.

use crate::arena::{
    arena_edges, arena_nodes, edge_at, edge_at_mut, edge_total, edges_from, edges_into, insert_edge,
    insert_node, new_arena, node_at, node_at_mut, node_total,
};
use crate::ids::{FileId, NodeId};
use crate::path::{normal, normal_text};
use crate::text::{after_last, cut_after_last};
use petgraph::graph::DiGraph;
use std::collections::HashMap;
use vstd::hash_map::StringHashMap;
use vstd::prelude::*;

verus! {

/// What kind of symbol a node represents.
#[derive(Debug, Clone, Copy, PartialEq, Eq, Structural)]
pub enum NodeKind {
    /// A free function.
    Function,
    /// A method or associated function.
    Method,
    /// A closure tracked as a node of its own.
    Closure,
    /// A call target that could not be resolved to a definition.
    External,
}

/// The relationship a directed edge encodes.
#[derive(Debug, Clone, Copy, PartialEq, Eq, Structural)]
pub enum EdgeKind {
    /// `foo()`: a call resolved by path.
    DirectCall,
    /// `x.foo()`: a call through a receiver.
    MethodCall,
    /// `Type::foo()`: a call by type path.
    AssociatedCall,
    /// `foo!(...)`: a macro invocation.
    MacroCall,
    /// A call through a trait object or a generic bound.
    TraitDispatch,
    /// A call of an unresolved target.
    Unresolved,
}

impl EdgeKind {
    /// Small stable number of the kind, part of the key under which edges merge.
    pub open spec fn spec_tag(self) -> u8 {
        match self {
            EdgeKind::DirectCall => 0,
            EdgeKind::MethodCall => 1,
            EdgeKind::AssociatedCall => 2,
            EdgeKind::MacroCall => 3,
            EdgeKind::TraitDispatch => 4,
            EdgeKind::Unresolved => 5,
        }
    }

    /// Small stable number of the kind, part of the key under which edges merge.
    pub fn tag(self) -> (r: u8)
        ensures
            r == self.spec_tag(),
    {
        match self {
            EdgeKind::DirectCall => 0,
            EdgeKind::MethodCall => 1,
            EdgeKind::AssociatedCall => 2,
            EdgeKind::MacroCall => 3,
            EdgeKind::TraitDispatch => 4,
            EdgeKind::Unresolved => 5,
        }
    }
}

/// A source location: lines count from one, columns from zero.
#[derive(Debug, Clone, Copy, PartialEq, Eq, Structural)]
pub struct SourceSpan {
    pub file: u32,
    pub start_line: u32,
    pub start_col: u32,
    pub end_line: u32,
    pub end_col: u32,
}

impl SourceSpan {
    /// The span of nothing: all zero.
    pub open spec fn blank() -> SourceSpan {
        SourceSpan { file: 0, start_line: 0, start_col: 0, end_line: 0, end_col: 0 }
    }

    pub fn new(file: FileId, start_line: u32, start_col: u32, end_line: u32, end_col: u32) -> (r: Self)
        ensures
            r == (SourceSpan { file: file.0, start_line, start_col, end_line, end_col }),
    {
        SourceSpan { file: file.0, start_line, start_col, end_line, end_col }
    }

    pub fn file(&self) -> (r: FileId)
        ensures
            r == FileId(self.file),
    {
        FileId(self.file)
    }
}

impl Default for SourceSpan {
    fn default() -> (r: Self)
        ensures
            r == SourceSpan::blank(),
    {
        SourceSpan { file: 0, start_line: 0, start_col: 0, end_line: 0, end_col: 0 }
    }
}

/// Boolean attributes of a node.
#[derive(Debug, Clone, Copy, PartialEq, Eq, Structural)]
pub struct NodeFlags {
    pub is_pub: bool,
    pub is_async: bool,
    pub is_unsafe: bool,
    pub is_test: bool,
    pub is_method: bool,
    pub is_generic: bool,
    pub is_exported: bool,
}

impl NodeFlags {
    /// No attribute set.
    pub open spec fn blank() -> NodeFlags {
        NodeFlags {
            is_pub: false,
            is_async: false,
            is_unsafe: false,
            is_test: false,
            is_method: false,
            is_generic: false,
            is_exported: false,
        }
    }
}

impl Default for NodeFlags {
    fn default() -> (r: Self)
        ensures
            r == NodeFlags::blank(),
    {
        NodeFlags {
            is_pub: false,
            is_async: false,
            is_unsafe: false,
            is_test: false,
            is_method: false,
            is_generic: false,
            is_exported: false,
        }
    }
}

/// Structural counts captured while reading a function body.
#[derive(Debug, Clone, Copy, PartialEq, Eq, Structural)]
pub struct NodeStats {
    pub lines_of_code: u32,
    /// Number of decision points; cyclomatic complexity is one more.
    pub decision_points: u32,
    pub parameters: u32,
    pub statements: u32,
    pub max_nesting: u32,
    pub returns: u32,
    pub unsafe_blocks: u32,
    /// Heuristic count of heap allocations.
    pub allocations: u32,
    pub awaits: u32,
}

impl NodeStats {
    /// All counts zero.
    pub open spec fn blank() -> NodeStats {
        NodeStats {
            lines_of_code: 0,
            decision_points: 0,
            parameters: 0,
            statements: 0,
            max_nesting: 0,
            returns: 0,
            unsafe_blocks: 0,
            allocations: 0,
            awaits: 0,
        }
    }
}

impl Default for NodeStats {
    fn default() -> (r: Self)
        ensures
            r == NodeStats::blank(),
    {
        NodeStats {
            lines_of_code: 0,
            decision_points: 0,
            parameters: 0,
            statements: 0,
            max_nesting: 0,
            returns: 0,
            unsafe_blocks: 0,
            allocations: 0,
            awaits: 0,
        }
    }
}

/// A node of the call graph: a callable symbol.
#[derive(Debug)]
pub struct Node {
    pub id: NodeId,
    /// Short name, e.g. `parse`.
    pub name: String,
    /// Fully qualified path, e.g. `shop::cart::Cart::total`.
    pub qualified_name: String,
    /// Owning module path, e.g. `shop::cart`.
    pub module: String,
    pub kind: NodeKind,
    pub span: SourceSpan,
    pub flags: NodeFlags,
    pub stats: NodeStats,
}

/// The mathematical content of a [`Node`].
#[verifier::ext_equal]
pub struct NodeModel {
    pub id: NodeId,
    pub name: Seq<char>,
    pub qualified_name: Seq<char>,
    pub module: Seq<char>,
    pub kind: NodeKind,
    pub span: SourceSpan,
    pub flags: NodeFlags,
    pub stats: NodeStats,
}

impl View for Node {
    type V = NodeModel;

    open spec fn view(&self) -> NodeModel {
        NodeModel {
            id: self.id,
            name: self.name@,
            qualified_name: self.qualified_name@,
            module: self.module@,
            kind: self.kind,
            span: self.span,
            flags: self.flags,
            stats: self.stats,
        }
    }
}

impl NodeModel {
    /// The complexity of the node is a 32-bit number.
    pub open spec fn valid(self) -> bool {
        self.stats.decision_points < u32::MAX
    }

    /// Decision points and one.
    pub open spec fn complexity(self) -> int {
        self.stats.decision_points + 1
    }
}

/// The placeholder for a call target of which only the name is known.
pub open spec fn external_node(qualified_name: Seq<char>) -> NodeModel {
    NodeModel {
        id: NodeId(u32::MAX),
        name: after_last(qualified_name, "::"@),
        qualified_name,
        module: Seq::empty(),
        kind: NodeKind::External,
        span: SourceSpan::blank(),
        flags: NodeFlags::blank(),
        stats: NodeStats::blank(),
    }
}

impl Clone for Node {
    fn clone(&self) -> (r: Self)
        ensures
            r == *self,
    {
        Node {
            id: self.id,
            name: self.name.clone(),
            qualified_name: self.qualified_name.clone(),
            module: self.module.clone(),
            kind: self.kind,
            span: self.span,
            flags: self.flags,
            stats: self.stats,
        }
    }
}

impl Node {
    /// A placeholder for an unresolved call target.
    pub fn external(qualified_name: &str) -> (r: Self)
        ensures
            r@ == external_node(qualified_name@),
    {
        Node {
            id: NodeId(u32::MAX),
            name: cut_after_last(qualified_name, "::"),
            qualified_name: qualified_name.to_owned(),
            module: String::new(),
            kind: NodeKind::External,
            span: SourceSpan::default(),
            flags: NodeFlags::default(),
            stats: NodeStats::default(),
        }
    }

    /// Cyclomatic complexity derived from the captured decision points.
    pub fn cyclomatic_complexity(&self) -> (r: u32)
        requires
            self@.valid(),
        ensures
            r == self@.complexity(),
    {
        self.stats.decision_points + 1
    }
}

/// A call edge: its kind, where the call stands, and how often it occurs.
#[derive(Debug, Clone, Copy, PartialEq, Eq, Structural)]
pub struct Edge {
    pub kind: EdgeKind,
    pub call_site: SourceSpan,
    pub count: u32,
}

impl Edge {
    pub fn new(kind: EdgeKind, call_site: SourceSpan) -> (r: Self)
        ensures
            r == (Edge { kind, call_site, count: 1 }),
    {
        Edge { kind, call_site, count: 1 }
    }
}

/// An edge with its endpoints.
#[derive(Debug, Clone, Copy, PartialEq, Eq, Structural)]
pub struct EdgeExport {
    pub from: NodeId,
    pub to: NodeId,
    pub kind: EdgeKind,
    pub call_site: SourceSpan,
    pub count: u32,
}

/// Endpoints and edge as one record.
pub open spec fn edge_export(from: NodeId, to: NodeId, e: Edge) -> EdgeExport {
    EdgeExport { from, to, kind: e.kind, call_site: e.call_site, count: e.count }
}

/// The edges that share a key are merged: same endpoints, same kind.
pub type LinkKey = (NodeId, NodeId, EdgeKind);

/// The mathematical content of a [`CodeGraph`].
#[verifier::ext_equal]
pub struct GraphModel {
    /// The file table.
    pub files: Seq<Seq<char>>,
    /// Where each path stands in the file table, by its normal form.
    pub file_ids: Map<Seq<char>, FileId>,
    /// The nodes; a node's id is its position.
    pub nodes: Seq<NodeModel>,
    /// Which node a qualified name stands for.
    pub names: Map<Seq<char>, NodeId>,
    /// The edges in the order in which they were first added.
    pub edges: Seq<EdgeExport>,
    /// Into which edge a further call with the same key is merged.
    pub links: Map<LinkKey, int>,
}

impl GraphModel {
    /// The graph of nothing.
    pub open spec fn empty() -> GraphModel {
        GraphModel {
            files: Seq::empty(),
            file_ids: Map::empty(),
            nodes: Seq::empty(),
            names: Map::empty(),
            edges: Seq::empty(),
            links: Map::empty(),
        }
    }

    /// `id` is a node of the graph.
    pub open spec fn has(self, id: NodeId) -> bool {
        id.0 < self.nodes.len()
    }

    pub open spec fn node(self, id: NodeId) -> NodeModel {
        self.nodes[id.0 as int]
    }

    /// What holds of every graph.
    pub open spec fn wf(self) -> bool {
        &&& self.nodes.len() <= u32::MAX
        &&& self.edges.len() <= u32::MAX
        &&& self.files.len() <= u32::MAX
        &&& forall|i: int|
            0 <= i < self.nodes.len() ==> (#[trigger] self.nodes[i]).id.0 == i
                && self.nodes[i].valid()
        &&& forall|i: int|
            0 <= i < self.nodes.len() && (#[trigger] self.nodes[i]).qualified_name.len() > 0
                ==> self.names.contains_key(self.nodes[i].qualified_name)
        &&& forall|q: Seq<char>| #[trigger]
            self.names.contains_key(q) ==> q.len() > 0 && self.has(self.names[q]) && self.node(
                self.names[q],
            ).qualified_name == q
        &&& forall|i: int|
            0 <= i < self.edges.len() ==> self.has((#[trigger] self.edges[i]).from) && self.has(
                self.edges[i].to,
            ) && self.links.contains_key(link_key(self.edges[i]))
        &&& forall|k: LinkKey| #[trigger]
            self.links.contains_key(k) ==> 0 <= self.links[k] < self.edges.len() && link_key(
                self.edges[self.links[k]],
            ) == k
        &&& forall|i: int|
            0 <= i < self.files.len() ==> self.has_file(#[trigger] self.files[i])
        &&& forall|p: Seq<char>| #[trigger]
            self.file_ids.contains_key(p) ==> self.file_ids[p].0 < self.files.len() && normal(
                self.files[self.file_ids[p].0 as int],
            ) == p
    }

    /// The path, however it is spelled, is in the file table.
    pub open spec fn has_file(self, path: Seq<char>) -> bool {
        self.file_ids.contains_key(normal(path))
    }

    /// The id of `path`, which is entered into the file table where it is new.
    pub open spec fn file_id(self, path: Seq<char>) -> FileId {
        if self.has_file(path) {
            self.file_ids[normal(path)]
        } else {
            FileId(self.files.len() as u32)
        }
    }

    pub open spec fn with_file(self, path: Seq<char>) -> GraphModel {
        if self.has_file(path) {
            self
        } else {
            GraphModel {
                files: self.files.push(path),
                file_ids: self.file_ids.insert(normal(path), self.file_id(path)),
                ..self
            }
        }
    }

    /// A node with this qualified name is already known.
    pub open spec fn knows(self, q: Seq<char>) -> bool {
        q.len() > 0 && self.names.contains_key(q)
    }

    /// The id that adding `n` answers with: that of the node of the same name, or
    /// the next free one.
    pub open spec fn node_id_for(self, n: NodeModel) -> NodeId {
        if self.knows(n.qualified_name) {
            self.names[n.qualified_name]
        } else {
            NodeId(self.nodes.len() as u32)
        }
    }

    /// The graph after adding `n`. A definition takes the place of a placeholder
    /// of the same name; anything else of a known name changes nothing.
    pub open spec fn with_node(self, n: NodeModel) -> GraphModel {
        let id = self.node_id_for(n);
        if self.knows(n.qualified_name) {
            if self.node(id).kind == NodeKind::External && n.kind != NodeKind::External {
                GraphModel { nodes: self.nodes.update(id.0 as int, NodeModel { id, ..n }), ..self }
            } else {
                self
            }
        } else {
            self.with_fresh_node(n)
        }
    }

    /// The graph with the node at `id` replaced.
    pub open spec fn with_replaced(self, id: NodeId, n: NodeModel) -> GraphModel {
        GraphModel { nodes: self.nodes.update(id.0 as int, n), ..self }
    }

    /// The graph with `n` appended; its name, where it has one, stands for it.
    pub open spec fn with_fresh_node(self, n: NodeModel) -> GraphModel {
        let id = NodeId(self.nodes.len() as u32);
        GraphModel {
            nodes: self.nodes.push(NodeModel { id, ..n }),
            names: if n.qualified_name.len() > 0 {
                self.names.insert(n.qualified_name, id)
            } else {
                self.names
            },
            ..self
        }
    }

    /// The graph after adding a call edge. A call with a known key adds to the
    /// count of the edge it merges into, which saturates.
    pub open spec fn with_edge(self, from: NodeId, to: NodeId, e: Edge) -> GraphModel {
        let key = (from, to, e.kind);
        if self.links.contains_key(key) {
            let i = self.links[key];
            let old_edge = self.edges[i];
            GraphModel {
                edges: self.edges.update(
                    i,
                    EdgeExport { count: saturating_sum(old_edge.count, e.count), ..old_edge },
                ),
                ..self
            }
        } else {
            self.with_fresh_edge(from, to, e)
        }
    }

    /// The graph with the edge appended; later calls with its key merge into it.
    pub open spec fn with_fresh_edge(self, from: NodeId, to: NodeId, e: Edge) -> GraphModel {
        GraphModel {
            edges: self.edges.push(edge_export(from, to, e)),
            links: self.links.insert((from, to, e.kind), self.edges.len() as int),
            ..self
        }
    }

    /// The edges that leave `id`, the latest first.
    pub open spec fn edges_out(self, id: NodeId) -> Seq<EdgeExport> {
        self.edges.reverse().filter(|e: EdgeExport| e.from == id)
    }

    /// The edges that arrive at `id`, the latest first.
    pub open spec fn edges_in(self, id: NodeId) -> Seq<EdgeExport> {
        self.edges.reverse().filter(|e: EdgeExport| e.to == id)
    }

    /// The targets of the edges that leave `id`, the latest first.
    pub open spec fn neighbors_out(self, id: NodeId) -> Seq<NodeId> {
        self.edges_out(id).map_values(|e: EdgeExport| e.to)
    }

    /// The sources of the edges that arrive at `id`, the latest first.
    pub open spec fn neighbors_in(self, id: NodeId) -> Seq<NodeId> {
        self.edges_in(id).map_values(|e: EdgeExport| e.from)
    }

    /// There is a call from `a` to `b`.
    pub open spec fn calls(self, a: NodeId, b: NodeId) -> bool {
        exists|i: int|
            0 <= i < self.edges.len() && (#[trigger] self.edges[i]).from == a && self.edges[i].to == b
    }
}

/// The key of an edge.
pub open spec fn link_key(e: EdgeExport) -> LinkKey {
    (e.from, e.to, e.kind)
}

/// The sum, or the greatest 32-bit number where the sum is greater.
pub open spec fn saturating_sum(a: u32, b: u32) -> u32 {
    if a + b > u32::MAX {
        u32::MAX
    } else {
        (a + b) as u32
    }
}

/// The call graph and its table of files.
pub struct CodeGraph {
    graph: DiGraph<Node, Edge>,
    files: Vec<String>,
    file_index: StringHashMap<FileId>,
    qualified_index: StringHashMap<NodeId>,
    edge_index: HashMap<u128, usize>,
}

/// The number under which an edge key is stored.
spec fn packed(key: LinkKey) -> u128 {
    ((key.0.0 * 0x1_0000_0000 + key.1.0) * 8 + key.2.spec_tag()) as u128
}

fn pack(from: NodeId, to: NodeId, kind: EdgeKind) -> (r: u128)
    ensures
        r == packed((from, to, kind)),
{
    (from.0 as u128 * 0x1_0000_0000u128 + to.0 as u128) * 8u128 + kind.tag() as u128
}

proof fn lemma_packed_injective(a: LinkKey, b: LinkKey)
    requires
        packed(a) == packed(b),
    ensures
        a == b,
{
    let x = a.0.0 * 0x1_0000_0000 + a.1.0;
    let y = b.0.0 * 0x1_0000_0000 + b.1.0;
    assert(x * 8 + a.2.spec_tag() == y * 8 + b.2.spec_tag());
    assert(x == y);
    assert(a.0.0 == b.0.0);
}

spec fn export_at(t: (int, int, Edge)) -> EdgeExport {
    edge_export(NodeId(t.0 as u32), NodeId(t.1 as u32), t.2)
}

impl View for CodeGraph {
    type V = GraphModel;

    closed spec fn view(&self) -> GraphModel {
        GraphModel {
            files: self.files@.map_values(|p: String| p@),
            file_ids: self.file_index@,
            nodes: arena_nodes(self.graph).map_values(|n: Node| n@),
            names: self.qualified_index@,
            edges: arena_edges(self.graph).map_values(|t: (int, int, Edge)| export_at(t)),
            links: Map::new(
                |k: LinkKey| self.edge_index@.contains_key(packed(k)),
                |k: LinkKey| self.edge_index@[packed(k)] as int,
            ),
        }
    }
}

impl CodeGraph {
    /// The graph is well formed.
    pub closed spec fn wf(&self) -> bool {
        &&& self@.wf()
        &&& forall|i: int|
            0 <= i < arena_edges(self.graph).len() ==> {
                let t = #[trigger] arena_edges(self.graph)[i];
                &&& 0 <= t.0 < arena_nodes(self.graph).len()
                &&& 0 <= t.1 < arena_nodes(self.graph).len()
            }
    }

    /// The endpoints of the underlying graph's edges are its nodes.
    pub proof fn lemma_raw(&self, raw: DiGraph<Node, Edge>)
        requires
            self.wf(),
            arena_nodes(raw).map_values(|n: Node| n@) == self@.nodes,
            self.holds(raw),
        ensures
            forall|i: int|
                0 <= i < arena_edges(raw).len() ==> {
                    let t = #[trigger] arena_edges(raw)[i];
                    &&& 0 <= t.0 <= u32::MAX
                    &&& 0 <= t.1 <= u32::MAX
                },
    {
        assert(arena_nodes(raw).len() == self@.nodes.len());
    }

    /// `raw` is the underlying graph.
    pub closed spec fn holds(&self, raw: DiGraph<Node, Edge>) -> bool {
        raw == self.graph
    }

    /// What holds of the content of a well-formed graph.
    pub proof fn lemma_wf(&self)
        requires
            self.wf(),
        ensures
            self@.wf(),
    {
    }

    pub fn new() -> (r: Self)
        ensures
            r@ == GraphModel::empty(),
            r.wf(),
    {
        broadcast use vstd::std_specs::hash::group_hash_axioms;

        let r = CodeGraph {
            graph: new_arena(),
            files: Vec::new(),
            file_index: StringHashMap::new(),
            qualified_index: StringHashMap::new(),
            edge_index: HashMap::new(),
        };
        assert(r@ =~= GraphModel::empty());
        r
    }

    // -- files ------------------------------------------------------------

    /// Enter a path into the file table, answering with its stable id. A path that is
    /// known under another spelling keeps the first one.
    pub fn intern_file(&mut self, path: &str) -> (r: FileId)
        requires
            old(self).wf(),
            old(self)@.files.len() < u32::MAX,
        ensures
            final(self).wf(),
            r == old(self)@.file_id(path@),
            final(self)@ == old(self)@.with_file(path@),
    {
        let key = normal_text(path);
        match self.file_index.get(key.as_str()) {
            Some(id) => {
                return *id;
            },
            None => {},
        }
        let id = FileId(self.files.len() as u32);
        self.files.push(path.to_owned());
        self.file_index.insert(key, id);
        assert(self@ =~= old(self)@.with_file(path@));
        id
    }

    pub fn file_path(&self, id: FileId) -> (r: Option<&str>)
        ensures
            match r {
                Some(p) => id.0 < self@.files.len() && p@ == self@.files[id.0 as int],
                None => id.0 >= self@.files.len(),
            },
    {
        if id.index() < self.files.len() {
            Some(self.files[id.index()].as_str())
        } else {
            None
        }
    }

    pub fn file_count(&self) -> (r: usize)
        ensures
            r == self@.files.len(),
    {
        self.files.len()
    }

    /// The file table: ids with their paths, in order.
    pub fn files(&self) -> (r: Vec<(FileId, &str)>)
        requires
            self.wf(),
        ensures
            r@.len() == self@.files.len(),
            forall|i: int|
                0 <= i < r@.len() ==> (#[trigger] r@[i]).0 == FileId(i as u32) && r@[i].1@
                    == self@.files[i],
    {
        let mut out: Vec<(FileId, &str)> = Vec::new();
        let mut i: usize = 0;
        while i < self.files.len()
            invariant
                self.wf(),
                i <= self.files@.len(),
                out@.len() == i,
                forall|j: int|
                    0 <= j < i ==> (#[trigger] out@[j]).0 == FileId(j as u32) && out@[j].1@
                        == self@.files[j],
            decreases self.files@.len() - i,
        {
            assert(self@.files.len() <= u32::MAX);
            out.push((FileId(i as u32), self.files[i].as_str()));
            i += 1;
        }
        out
    }

    // -- nodes ------------------------------------------------------------

    /// Insert a node and answer with its id. Where a node of the same non-empty
    /// qualified name exists, that node is meant: a placeholder is upgraded in
    /// place to a definition, anything else is left as it is.
    pub fn add_node(&mut self, node: Node) -> (r: NodeId)
        requires
            old(self).wf(),
            node@.valid(),
            old(self)@.nodes.len() < u32::MAX,
        ensures
            final(self).wf(),
            r == old(self)@.node_id_for(node@),
            final(self)@ == old(self)@.with_node(node@),
    {
        if !node.qualified_name.as_str().is_empty() {
            let found = match self.qualified_index.get(node.qualified_name.as_str()) {
                Some(id) => Some(*id),
                None => None,
            };
            if let Some(existing) = found {
                let at: usize = existing.index();
                if node_at(&self.graph, at).kind == NodeKind::External && node.kind
                    != NodeKind::External {
                    let ghost before = *self;
                    let ghost added = node@;
                    let mut node = node;
                    node.id = existing;
                    let slot = node_at_mut(&mut self.graph, at);
                    *slot = node;
                    assert(self@ =~= before@.with_node(added));
                    proof {
                        lemma_with_node_wf(before@, added);
                    }
                }
                return existing;
            }
        }
        proof {
            lemma_with_node_wf(self@, node@);
        }
        self.push_node(node)
    }

    /// Append a node under the next free id.
    fn push_node(&mut self, node: Node) -> (r: NodeId)
        requires
            old(self).wf(),
            old(self)@.with_fresh_node(node@).wf(),
            old(self)@.nodes.len() < u32::MAX,
        ensures
            final(self).wf(),
            r.0 == old(self)@.nodes.len(),
            final(self)@ == old(self)@.with_fresh_node(node@),
    {
        let ghost before = *self;
        let ghost added = node@;
        let id = NodeId(node_total(&self.graph) as u32);
        let mut node = node;
        node.id = id;
        let named = !node.qualified_name.as_str().is_empty();
        let name = node.qualified_name.clone();
        insert_node(&mut self.graph, node);
        if named {
            self.qualified_index.insert(name, id);
        }
        assert(self@ =~= before@.with_fresh_node(added));
        id
    }

    /// The node that a qualified name stands for.
    pub fn node_by_qualified(&self, qualified_name: &str) -> (r: Option<NodeId>)
        ensures
            match r {
                Some(id) => self@.names.contains_key(qualified_name@) && id
                    == self@.names[qualified_name@],
                None => !self@.names.contains_key(qualified_name@),
            },
    {
        match self.qualified_index.get(qualified_name) {
            Some(id) => Some(*id),
            None => None,
        }
    }

    /// The node that a qualified name stands for; where there is none, the node
    /// that `make` builds is added.
    pub fn intern_node<F: FnOnce() -> Node>(&mut self, qualified_name: &str, make: F) -> (r: NodeId)
        requires
            old(self).wf(),
            old(self)@.nodes.len() < u32::MAX,
            call_requires(make, ()),
            forall|n: Node| call_ensures(make, (), n) ==> n@.valid(),
        ensures
            final(self).wf(),
            old(self)@.names.contains_key(qualified_name@) ==> r
                == old(self)@.names[qualified_name@] && final(self)@ == old(self)@,
            !old(self)@.names.contains_key(qualified_name@) ==> exists|n: Node|
                call_ensures(make, (), n) && r == old(self)@.node_id_for(n@) && final(self)@
                    == old(self)@.with_node(n@),
    {
        if let Some(id) = self.node_by_qualified(qualified_name) {
            return id;
        }
        let node = make();
        self.add_node(node)
    }

    pub fn node(&self, id: NodeId) -> (r: &Node)
        requires
            self@.has(id),
        ensures
            r@ == self@.node(id),
    {
        node_at(&self.graph, id.index())
    }

    /// Write access to a node. The graph stays well formed where the id and the
    /// qualified name are left as they are.
    pub fn node_mut(&mut self, id: NodeId) -> (r: &mut Node)
        requires
            old(self).wf(),
            old(self)@.has(id),
        ensures
            r@ == old(self)@.node(id),
            final(self)@ == old(self)@.with_replaced(id, final(r)@),
            final(r)@.id == old(self)@.node(id).id && final(r)@.qualified_name == old(self)@.node(
                id,
            ).qualified_name && final(r)@.valid() ==> final(self).wf(),
    {
        proof {
            lemma_with_replaced_wf(self@, id);
        }
        node_at_mut(&mut self.graph, id.index())
    }

    pub fn try_node(&self, id: NodeId) -> (r: Option<&Node>)
        ensures
            match r {
                Some(n) => self@.has(id) && n@ == self@.node(id),
                None => !self@.has(id),
            },
    {
        if id.index() < node_total(&self.graph) {
            Some(node_at(&self.graph, id.index()))
        } else {
            None
        }
    }

    /// The node at a position.
    pub fn nodes_at(&self, i: usize) -> (r: &Node)
        requires
            i < self@.nodes.len(),
        ensures
            r@ == self@.nodes[i as int],
    {
        node_at(&self.graph, i)
    }

    /// All nodes, by id.
    pub fn nodes(&self) -> (r: Vec<&Node>)
        ensures
            r@.map_values(|n: &Node| n@) == self@.nodes,
    {
        let mut out: Vec<&Node> = Vec::new();
        let n: usize = node_total(&self.graph);
        let mut i: usize = 0;
        while i < n
            invariant
                i <= n == self@.nodes.len(),
                out@.len() == i,
                forall|j: int| 0 <= j < i ==> (#[trigger] out@[j])@ == self@.nodes[j],
            decreases n - i,
        {
            out.push(node_at(&self.graph, i));
            i += 1;
        }
        assert(out@.map_values(|n: &Node| n@) =~= self@.nodes);
        out
    }

    /// All node ids, in order.
    pub fn node_ids(&self) -> (r: Vec<NodeId>)
        requires
            self.wf(),
        ensures
            r@ == all_ids(self@),
    {
        let mut out: Vec<NodeId> = Vec::new();
        let n: usize = node_total(&self.graph);
        let mut i: usize = 0;
        while i < n
            invariant
                self.wf(),
                i <= n == self@.nodes.len(),
                out@ == all_ids(self@).take(i as int),
            decreases n - i,
        {
            assert(n <= u32::MAX);
            out.push(NodeId(i as u32));
            assert(out@ =~= all_ids(self@).take(i + 1));
            i += 1;
        }
        assert(all_ids(self@).take(n as int) =~= all_ids(self@));
        out
    }

    pub fn node_count(&self) -> (r: usize)
        ensures
            r == self@.nodes.len(),
    {
        node_total(&self.graph)
    }

    // -- edges ------------------------------------------------------------

    /// Add a call edge. A call with the endpoints and the kind of a known edge is
    /// merged into it: the counts are added.
    pub fn add_edge(&mut self, from: NodeId, to: NodeId, edge: Edge)
        requires
            old(self).wf(),
            old(self)@.has(from),
            old(self)@.has(to),
            old(self)@.edges.len() < u32::MAX,
        ensures
            final(self).wf(),
            final(self)@ == old(self)@.with_edge(from, to, edge),
    {
        broadcast use vstd::std_specs::hash::group_hash_axioms;

        let ghost before = *self;
        let key: u128 = pack(from, to, edge.kind);
        let found: Option<usize> = match self.edge_index.get(&key) {
            Some(i) => Some(*i),
            None => None,
        };
        proof {
            lemma_with_edge_wf(before@, from, to, edge);
            assert(found is Some ==> before@.links.contains_key((from, to, edge.kind)));
        }
        match found {
            Some(i) => {
                let e = edge_at_mut(&mut self.graph, i);
                e.count = e.count.saturating_add(edge.count);
                assert(self@.edges =~= before@.with_edge(from, to, edge).edges);
                assert(self@ =~= before@.with_edge(from, to, edge));
            },
            None => {
                self.push_edge(from, to, edge);
            },
        }
    }

    /// Append an edge; later calls with its key merge into it.
    fn push_edge(&mut self, from: NodeId, to: NodeId, edge: Edge)
        requires
            old(self).wf(),
            old(self)@.with_fresh_edge(from, to, edge).wf(),
            old(self)@.has(from),
            old(self)@.has(to),
            old(self)@.edges.len() < u32::MAX,
        ensures
            final(self).wf(),
            final(self)@ == old(self)@.with_fresh_edge(from, to, edge),
    {
        broadcast use vstd::std_specs::hash::group_hash_axioms;

        let ghost before = *self;
        let key: u128 = pack(from, to, edge.kind);
        let i: usize = insert_edge(&mut self.graph, from.index(), to.index(), edge);
        self.edge_index.insert(key, i);
        proof {
            let after = before@.with_fresh_edge(from, to, edge);
            assert(self@.edges =~= after.edges);
            assert forall|k: LinkKey|
                self@.links.contains_key(k) <==> after.links.contains_key(k) by {
                if packed(k) == key {
                    lemma_packed_injective(k, (from, to, edge.kind));
                }
            }
            assert forall|k: LinkKey| self@.links.contains_key(k) implies self@.links[k]
                == after.links[k] by {
                if packed(k) == key {
                    lemma_packed_injective(k, (from, to, edge.kind));
                }
            }
            assert(self@.links =~= after.links);
            assert(self@ =~= after);
        }
    }

    pub fn edge_count(&self) -> (r: usize)
        ensures
            r == self@.edges.len(),
    {
        edge_total(&self.graph)
    }

    fn edge(&self, i: usize) -> (r: EdgeExport)
        requires
            self.wf(),
            i < self@.edges.len(),
        ensures
            r == self@.edges[i as int],
    {
        let (from, to, e) = edge_at(&self.graph, i);
        let ghost t = arena_edges(self.graph)[i as int];
        assert(t.0 == from && t.1 == to);
        EdgeExport {
            from: NodeId(from as u32),
            to: NodeId(to as u32),
            kind: e.kind,
            call_site: e.call_site,
            count: e.count,
        }
    }

    /// All edges with their endpoints, in order.
    pub fn edges(&self) -> (r: Vec<(NodeId, NodeId, Edge)>)
        requires
            self.wf(),
        ensures
            r@ == self@.edges.map_values(|e: EdgeExport| (e.from, e.to, edge_of(e))),
    {
        let mut out: Vec<(NodeId, NodeId, Edge)> = Vec::new();
        let n: usize = edge_total(&self.graph);
        let ghost want = self@.edges.map_values(|e: EdgeExport| (e.from, e.to, edge_of(e)));
        let mut i: usize = 0;
        while i < n
            invariant
                self.wf(),
                i <= n == self@.edges.len(),
                want == self@.edges.map_values(|e: EdgeExport| (e.from, e.to, edge_of(e))),
                out@ == want.take(i as int),
            decreases n - i,
        {
            let e = self.edge(i);
            out.push((e.from, e.to, Edge { kind: e.kind, call_site: e.call_site, count: e.count }));
            assert(out@ =~= want.take(i + 1));
            i += 1;
        }
        assert(want.take(n as int) =~= want);
        out
    }

    /// The calls that leave a node, the latest first: target and edge.
    pub fn edges_out(&self, id: NodeId) -> (r: Vec<(NodeId, Edge)>)
        requires
            self.wf(),
        ensures
            r@ == self@.edges_out(id).map_values(|e: EdgeExport| (e.to, edge_of(e))),
    {
        let at = edges_from(&self.graph, id.0);
        let ghost pick = |e: (int, int, Edge)| e.0 == id.0;
        let ghost all = arena_edges(self.graph);
        proof {
            self.lemma_picked(pick, |e: EdgeExport| e.from == id, all.len() as int);
            let listed = at@.map_values(|x: usize| x as int);
            assert(listed == crate::arena::picked(all, all.len() as int, pick));
            assert forall|j: int| 0 <= j < at@.len() implies #[trigger] at@[j] < self@.edges.len()
                && self@.edges[at@[j] as int] == self@.edges_out(id)[j] by {
                assert(listed[j] == at@[j]);
            }
        }
        let mut out: Vec<(NodeId, Edge)> = Vec::new();
        let ghost want = self@.edges_out(id).map_values(|e: EdgeExport| (e.to, edge_of(e)));
        let mut i: usize = 0;
        while i < at.len()
            invariant
                self.wf(),
                i <= at@.len() == want.len(),
                want == self@.edges_out(id).map_values(|e: EdgeExport| (e.to, edge_of(e))),
                forall|j: int|
                    0 <= j < at@.len() ==> #[trigger] at@[j] < self@.edges.len() && self@.edges[at@[j] as int]
                        == self@.edges_out(id)[j],
                out@ == want.take(i as int),
            decreases at@.len() - i,
        {
            let e = self.edge(at[i]);
            out.push((e.to, Edge { kind: e.kind, call_site: e.call_site, count: e.count }));
            assert(out@ =~= want.take(i + 1));
            i += 1;
        }
        assert(want.take(at@.len() as int) =~= want);
        out
    }

    /// The calls that arrive at a node, the latest first: source and edge.
    pub fn edges_in(&self, id: NodeId) -> (r: Vec<(NodeId, Edge)>)
        requires
            self.wf(),
        ensures
            r@ == self@.edges_in(id).map_values(|e: EdgeExport| (e.from, edge_of(e))),
    {
        let at = edges_into(&self.graph, id.0);
        let ghost pick = |e: (int, int, Edge)| e.1 == id.0;
        let ghost all = arena_edges(self.graph);
        proof {
            self.lemma_picked(pick, |e: EdgeExport| e.to == id, all.len() as int);
            let listed = at@.map_values(|x: usize| x as int);
            assert(listed == crate::arena::picked(all, all.len() as int, pick));
            assert forall|j: int| 0 <= j < at@.len() implies #[trigger] at@[j] < self@.edges.len()
                && self@.edges[at@[j] as int] == self@.edges_in(id)[j] by {
                assert(listed[j] == at@[j]);
            }
        }
        let mut out: Vec<(NodeId, Edge)> = Vec::new();
        let ghost want = self@.edges_in(id).map_values(|e: EdgeExport| (e.from, edge_of(e)));
        let mut i: usize = 0;
        while i < at.len()
            invariant
                self.wf(),
                i <= at@.len() == want.len(),
                want == self@.edges_in(id).map_values(|e: EdgeExport| (e.from, edge_of(e))),
                forall|j: int|
                    0 <= j < at@.len() ==> #[trigger] at@[j] < self@.edges.len() && self@.edges[at@[j] as int]
                        == self@.edges_in(id)[j],
                out@ == want.take(i as int),
            decreases at@.len() - i,
        {
            let e = self.edge(at[i]);
            out.push((e.from, Edge { kind: e.kind, call_site: e.call_site, count: e.count }));
            assert(out@ =~= want.take(i + 1));
            i += 1;
        }
        assert(want.take(at@.len() as int) =~= want);
        out
    }

    proof fn lemma_picked(
        &self,
        pick: spec_fn((int, int, Edge)) -> bool,
        keep: spec_fn(EdgeExport) -> bool,
        n: int,
    )
        requires
            self.wf(),
            0 <= n <= arena_edges(self.graph).len(),
            forall|i: int|
                0 <= i < arena_edges(self.graph).len() ==> pick(
                    #[trigger] arena_edges(self.graph)[i],
                ) == keep(self@.edges[i]),
        ensures
            ({
                let at = crate::arena::picked(arena_edges(self.graph), n, pick);
                let kept = self@.edges.take(n).reverse().filter(keep);
                &&& at.len() == kept.len()
                &&& forall|j: int|
                    0 <= j < at.len() ==> 0 <= #[trigger] at[j] < n && self@.edges[at[j]] == kept[j]
            }),
            self@.edges.take(self@.edges.len() as int) == self@.edges,
        decreases n,
    {
        assert(self@.edges.take(self@.edges.len() as int) =~= self@.edges);
        let at = crate::arena::picked(arena_edges(self.graph), n, pick);
        if n > 0 {
            self.lemma_picked(pick, keep, n - 1);
            let rest = self@.edges.take(n - 1).reverse();
            let head = seq![self@.edges[n - 1]];
            assert(self@.edges.take(n).reverse() =~= head + rest);
            Seq::filter_distributes_over_add(head, rest, keep);
            assert(arena_edges(self.graph)[n - 1] == arena_edges(self.graph)[n - 1]);
            lemma_filter_one(self@.edges[n - 1], keep);
            let tail = crate::arena::picked(arena_edges(self.graph), n - 1, pick);
            if pick(arena_edges(self.graph)[n - 1]) {
                assert(at =~= seq![n - 1] + tail);
                assert forall|j: int| 0 <= j < at.len() implies 0 <= #[trigger] at[j] < n
                    && self@.edges[at[j]] == (head + rest).filter(keep)[j] by {
                    if j > 0 {
                        assert(at[j] == tail[j - 1]);
                    }
                }
            } else {
                assert((head + rest).filter(keep) =~= rest.filter(keep));
                assert forall|j: int| 0 <= j < at.len() implies 0 <= #[trigger] at[j] < n by {
                    assert(at[j] == tail[j]);
                }
            }
        } else {
            assert(self@.edges.take(0).reverse() =~= Seq::empty());
            reveal(Seq::filter);
        }
    }

    /// The targets of the calls that leave a node, the latest first.
    pub fn neighbors_out(&self, id: NodeId) -> (r: Vec<NodeId>)
        requires
            self.wf(),
        ensures
            r@ == self@.neighbors_out(id),
    {
        let es = self.edges_out(id);
        let out = firsts(&es);
        assert(out@ =~= self@.neighbors_out(id));
        out
    }

    /// The sources of the calls that arrive at a node, the latest first.
    pub fn neighbors_in(&self, id: NodeId) -> (r: Vec<NodeId>)
        requires
            self.wf(),
        ensures
            r@ == self@.neighbors_in(id),
    {
        let es = self.edges_in(id);
        let out = firsts(&es);
        assert(out@ =~= self@.neighbors_in(id));
        out
    }

    pub fn out_degree(&self, id: NodeId) -> (r: usize)
        requires
            self.wf(),
        ensures
            r == self@.neighbors_out(id).len(),
    {
        self.neighbors_out(id).len()
    }

    pub fn in_degree(&self, id: NodeId) -> (r: usize)
        requires
            self.wf(),
        ensures
            r == self@.neighbors_in(id).len(),
    {
        self.neighbors_in(id).len()
    }

    /// The underlying graph, for algorithms over its structure.
    pub fn raw(&self) -> (r: &DiGraph<Node, Edge>)
        ensures
            arena_nodes(*r).map_values(|n: Node| n@) == self@.nodes,
            arena_edges(*r).map_values(
                |t: (int, int, Edge)| edge_export(NodeId(t.0 as u32), NodeId(t.1 as u32), t.2),
            ) == self@.edges,
            self.holds(*r),
    {
        assert(arena_edges(self.graph).map_values(
            |t: (int, int, Edge)| edge_export(NodeId(t.0 as u32), NodeId(t.1 as u32), t.2),
        ) =~= self@.edges);
        &self.graph
    }
}

impl Default for CodeGraph {
    fn default() -> (r: Self)
        ensures
            r@ == GraphModel::empty(),
            r.wf(),
    {
        CodeGraph::new()
    }
}

/// All node ids of a graph, in order.
pub open spec fn all_ids(g: GraphModel) -> Seq<NodeId> {
    Seq::new(g.nodes.len(), |i: int| NodeId(i as u32))
}

/// The edge without its endpoints.
pub open spec fn edge_of(e: EdgeExport) -> Edge {
    Edge { kind: e.kind, call_site: e.call_site, count: e.count }
}

fn firsts(es: &Vec<(NodeId, Edge)>) -> (out: Vec<NodeId>)
    ensures
        out@ == es@.map_values(|e: (NodeId, Edge)| e.0),
{
    let mut out: Vec<NodeId> = Vec::new();
    let ghost want = es@.map_values(|e: (NodeId, Edge)| e.0);
    let mut i: usize = 0;
    while i < es.len()
        invariant
            i <= es@.len(),
            want == es@.map_values(|e: (NodeId, Edge)| e.0),
            out@ == want.take(i as int),
        decreases es@.len() - i,
    {
        out.push(es[i].0);
        assert(out@ =~= want.take(i + 1));
        i += 1;
    }
    assert(want.take(es@.len() as int) =~= want);
    out
}

proof fn lemma_filter_one<T>(x: T, keep: spec_fn(T) -> bool)
    ensures
        seq![x].filter(keep) == if keep(x) {
            seq![x]
        } else {
            Seq::empty()
        },
{
    reveal(Seq::filter);
    assert(seq![x].drop_last() =~= Seq::<T>::empty());
    assert(Seq::<T>::empty().filter(keep) =~= Seq::empty());
    assert(seq![x].last() == x);
    assert(Seq::<T>::empty().push(x) =~= seq![x]);
}

proof fn lemma_with_replaced_wf(g: GraphModel, id: NodeId)
    requires
        g.wf(),
        g.has(id),
    ensures
        forall|n: NodeModel|
            n.id == g.node(id).id && n.qualified_name == g.node(id).qualified_name && n.valid()
                ==> (#[trigger] g.with_replaced(id, n)).wf(),
{
}

pub proof fn lemma_with_node_wf(g: GraphModel, n: NodeModel)
    requires
        g.wf(),
        n.valid(),
        g.nodes.len() < u32::MAX,
    ensures
        g.with_node(n).wf(),
{
}

pub proof fn lemma_with_edge_wf(g: GraphModel, from: NodeId, to: NodeId, e: Edge)
    requires
        g.wf(),
        g.has(from),
        g.has(to),
        g.edges.len() < u32::MAX,
    ensures
        g.with_edge(from, to, e).wf(),
{
}

// -- snapshots --------------------------------------------------------------

/// A flat, borrowed view of a graph.
#[derive(Debug)]
pub struct GraphExport<'a> {
    pub files: Vec<&'a str>,
    pub nodes: Vec<&'a Node>,
    pub edges: Vec<EdgeExport>,
}

/// An owned flat image of a graph from which the graph can be rebuilt.
#[derive(Debug)]
pub struct GraphSnapshot {
    pub files: Vec<String>,
    pub nodes: Vec<Node>,
    pub edges: Vec<EdgeExport>,
}

/// The mathematical content of a [`GraphSnapshot`] or a [`GraphExport`].
#[verifier::ext_equal]
pub struct SnapshotModel {
    pub files: Seq<Seq<char>>,
    pub nodes: Seq<NodeModel>,
    pub edges: Seq<EdgeExport>,
}

impl View for GraphSnapshot {
    type V = SnapshotModel;

    open spec fn view(&self) -> SnapshotModel {
        SnapshotModel {
            files: self.files@.map_values(|p: String| p@),
            nodes: self.nodes@.map_values(|n: Node| n@),
            edges: self.edges@,
        }
    }
}

impl View for GraphExport<'_> {
    type V = SnapshotModel;

    open spec fn view(&self) -> SnapshotModel {
        SnapshotModel {
            files: self.files@.map_values(|p: &str| p@),
            nodes: self.nodes@.map_values(|n: &Node| n@),
            edges: self.edges@,
        }
    }
}

impl Default for GraphSnapshot {
    fn default() -> (r: Self)
        ensures
            r@ == (SnapshotModel {
                files: Seq::empty(),
                nodes: Seq::empty(),
                edges: Seq::empty(),
            }),
    {
        let r = GraphSnapshot { files: Vec::new(), nodes: Vec::new(), edges: Vec::new() };
        assert(r@ =~= (SnapshotModel {
            files: Seq::empty(),
            nodes: Seq::empty(),
            edges: Seq::empty(),
        }));
        r
    }
}

impl Clone for GraphSnapshot {
    fn clone(&self) -> (r: Self)
        ensures
            r@ == self@,
    {
        let mut files: Vec<String> = Vec::new();
        let mut i: usize = 0;
        while i < self.files.len()
            invariant
                i <= self.files@.len(),
                files@ =~= self.files@.take(i as int),
            decreases self.files@.len() - i,
        {
            files.push(self.files[i].clone());
            i += 1;
        }
        let mut nodes: Vec<Node> = Vec::new();
        let mut j: usize = 0;
        while j < self.nodes.len()
            invariant
                j <= self.nodes@.len(),
                nodes@ =~= self.nodes@.take(j as int),
            decreases self.nodes@.len() - j,
        {
            nodes.push(self.nodes[j].clone());
            j += 1;
        }
        let mut edges: Vec<EdgeExport> = Vec::new();
        let mut k: usize = 0;
        while k < self.edges.len()
            invariant
                k <= self.edges@.len(),
                edges@ =~= self.edges@.take(k as int),
            decreases self.edges@.len() - k,
        {
            edges.push(self.edges[k]);
            k += 1;
        }
        let r = GraphSnapshot { files, nodes, edges };
        assert(r@ =~= self@);
        r
    }
}

/// The flat image of a graph.
pub open spec fn snapshot_of(g: GraphModel) -> SnapshotModel {
    SnapshotModel { files: g.files, nodes: g.nodes, edges: g.edges }
}

impl SnapshotModel {
    /// The tables fit the 32-bit ids, and the nodes are valid.
    pub open spec fn valid(self) -> bool {
        &&& self.files.len() <= u32::MAX
        &&& self.nodes.len() <= u32::MAX
        &&& self.edges.len() <= u32::MAX
        &&& forall|i: int| 0 <= i < self.nodes.len() ==> (#[trigger] self.nodes[i]).valid()
    }
}

/// The empty graph with a table of files; a path that occurs twice stands for its
/// last place.
pub open spec fn restored_files(files: Seq<Seq<char>>) -> GraphModel
    decreases files.len(),
{
    if files.len() == 0 {
        GraphModel::empty()
    } else {
        let g = restored_files(files.drop_last());
        GraphModel {
            files: g.files.push(files.last()),
            file_ids: g.file_ids.insert(normal(files.last()), FileId((files.len() - 1) as u32)),
            ..g
        }
    }
}

/// The nodes appended in order, each under its position as id.
pub open spec fn restored_nodes(g: GraphModel, nodes: Seq<NodeModel>) -> GraphModel
    decreases nodes.len(),
{
    if nodes.len() == 0 {
        g
    } else {
        restored_nodes(g, nodes.drop_last()).with_fresh_node(nodes.last())
    }
}

/// The edges appended in order, without those whose endpoints are no nodes.
pub open spec fn restored_edges(g: GraphModel, edges: Seq<EdgeExport>) -> GraphModel
    decreases edges.len(),
{
    if edges.len() == 0 {
        g
    } else {
        let h = restored_edges(g, edges.drop_last());
        let e = edges.last();
        if g.has(e.from) && g.has(e.to) {
            h.with_fresh_edge(e.from, e.to, edge_of(e))
        } else {
            h
        }
    }
}

/// The graph that a snapshot describes.
pub open spec fn restored(s: SnapshotModel) -> GraphModel {
    restored_edges(restored_nodes(restored_files(s.files), s.nodes), s.edges)
}

/// The edges whose endpoints are among the first `n` nodes.
pub open spec fn sound_edges(edges: Seq<EdgeExport>, n: nat) -> Seq<EdgeExport> {
    edges.filter(|e: EdgeExport| e.from.0 < n && e.to.0 < n)
}

proof fn lemma_restored_files(files: Seq<Seq<char>>)
    requires
        files.len() <= u32::MAX,
    ensures
        restored_files(files).wf(),
        restored_files(files).files == files,
        restored_files(files).nodes.len() == 0,
        restored_files(files).edges.len() == 0,
        restored_files(files).links == Map::<LinkKey, int>::empty(),
    decreases files.len(),
{
    if files.len() > 0 {
        lemma_restored_files(files.drop_last());
        assert(restored_files(files).files =~= files);
    } else {
        assert(files =~= Seq::empty());
    }
}

proof fn lemma_restored_nodes(g: GraphModel, nodes: Seq<NodeModel>)
    requires
        g.wf(),
        g.nodes.len() == 0,
        nodes.len() <= u32::MAX,
        forall|i: int| 0 <= i < nodes.len() ==> (#[trigger] nodes[i]).valid(),
    ensures
        ({
            let h = restored_nodes(g, nodes);
            &&& h.wf()
            &&& h.files == g.files
            &&& h.file_ids == g.file_ids
            &&& h.edges == g.edges
            &&& h.links == g.links
            &&& h.nodes.len() == nodes.len()
            &&& forall|i: int|
                0 <= i < nodes.len() ==> #[trigger] h.nodes[i] == (NodeModel {
                    id: NodeId(i as u32),
                    ..nodes[i]
                })
        }),
    decreases nodes.len(),
{
    if nodes.len() > 0 {
        let front = nodes.drop_last();
        assert forall|i: int| 0 <= i < front.len() implies (#[trigger] front[i]).valid() by {
            assert(front[i] == nodes[i]);
        }
        lemma_restored_nodes(g, front);
        assert(nodes.last() == nodes[nodes.len() - 1]);
    }
}

proof fn lemma_restored_edges(g: GraphModel, edges: Seq<EdgeExport>)
    requires
        g.wf(),
        g.edges.len() == 0,
        edges.len() <= u32::MAX,
    ensures
        ({
            let h = restored_edges(g, edges);
            &&& h.wf()
            &&& h.files == g.files
            &&& h.file_ids == g.file_ids
            &&& h.nodes == g.nodes
            &&& h.names == g.names
            &&& h.edges == sound_edges(edges, g.nodes.len())
            &&& h.edges.len() <= edges.len()
        }),
    decreases edges.len(),
{
    reveal(Seq::filter);
    if edges.len() > 0 {
        lemma_restored_edges(g, edges.drop_last());
        let h = restored_edges(g, edges.drop_last());
        let e = edges.last();
        if g.has(e.from) && g.has(e.to) {
            assert(edge_export(e.from, e.to, edge_of(e)) == e);
        }
    } else {
        assert(g.edges =~= Seq::empty());
    }
}

impl GraphModel {
    /// Every node, edge and file is the one that its name, key or path stands for.
    pub open spec fn distinct(self) -> bool {
        &&& forall|i: int|
            0 <= i < self.nodes.len() && (#[trigger] self.nodes[i]).qualified_name.len() > 0
                ==> self.names[self.nodes[i].qualified_name].0 == i
        &&& forall|i: int|
            0 <= i < self.edges.len() ==> self.links[link_key(#[trigger] self.edges[i])] == i
        &&& forall|i: int|
            0 <= i < self.files.len() ==> self.file_ids[normal(#[trigger] self.files[i])].0 == i
    }
}

/// Building a graph call by call never enters a name, an edge key or a path
/// twice.
pub proof fn law_building_keeps_entries_distinct(
    g: GraphModel,
    path: Seq<char>,
    n: NodeModel,
    from: NodeId,
    to: NodeId,
    e: Edge,
)
    requires
        g.wf(),
        g.distinct(),
    ensures
        g.files.len() < u32::MAX ==> g.with_file(path).distinct(),
        g.nodes.len() < u32::MAX ==> g.with_node(n).distinct(),
        g.with_edge(from, to, e).distinct(),
        GraphModel::empty().distinct(),
{
}

/// A graph is rebuilt from its snapshot exactly as it was: files, nodes under the
/// same ids, edges, and every lookup by name, path or edge key.
pub proof fn law_snapshot_round_trip(g: GraphModel)
    requires
        g.wf(),
        g.distinct(),
    ensures
        restored(snapshot_of(g)) == g,
{
    law_snapshot_keeps_contents(g);
    let h = restored(snapshot_of(g));
    assert forall|q: Seq<char>| h.names.contains_key(q) <==> g.names.contains_key(q) by {
        if g.names.contains_key(q) {
            assert(h.nodes[g.names[q].0 as int].qualified_name == q);
        }
        if h.names.contains_key(q) {
            assert(g.nodes[h.names[q].0 as int].qualified_name == q);
        }
    }
    assert forall|q: Seq<char>| h.names.contains_key(q) implies h.names[q] == g.names[q] by {
        let i = h.names[q].0 as int;
        assert(g.nodes[i].qualified_name == q);
    }
    assert(h.names =~= g.names);
    assert forall|k: LinkKey| h.links.contains_key(k) <==> g.links.contains_key(k) by {
        if g.links.contains_key(k) {
            assert(link_key(h.edges[g.links[k]]) == k);
        }
        if h.links.contains_key(k) {
            assert(link_key(g.edges[h.links[k]]) == k);
        }
    }
    assert forall|k: LinkKey| h.links.contains_key(k) implies h.links[k] == g.links[k] by {
        let i = h.links[k];
        assert(link_key(g.edges[i]) == k);
    }
    assert(h.links =~= g.links);
    assert forall|p: Seq<char>| h.file_ids.contains_key(p) <==> g.file_ids.contains_key(p) by {
        if g.file_ids.contains_key(p) {
            assert(normal(h.files[g.file_ids[p].0 as int]) == p);
        }
        if h.file_ids.contains_key(p) {
            assert(normal(g.files[h.file_ids[p].0 as int]) == p);
        }
    }
    assert forall|p: Seq<char>| h.file_ids.contains_key(p) implies h.file_ids[p]
        == g.file_ids[p] by {
        let i = h.file_ids[p].0 as int;
        assert(normal(g.files[i]) == p);
    }
    assert(h.file_ids =~= g.file_ids);
    assert(h =~= g);
}

/// Whatever graph a snapshot was taken of, the rebuilt one holds the same files,
/// the same nodes under the same ids and the same edges.
pub proof fn law_snapshot_keeps_contents(g: GraphModel)
    requires
        g.wf(),
    ensures
        restored(snapshot_of(g)).wf(),
        restored(snapshot_of(g)).files == g.files,
        restored(snapshot_of(g)).nodes == g.nodes,
        restored(snapshot_of(g)).edges == g.edges,
{
    lemma_restored_files(g.files);
    let a = restored_files(g.files);
    lemma_restored_nodes(a, g.nodes);
    let b = restored_nodes(a, g.nodes);
    assert forall|i: int| 0 <= i < g.nodes.len() implies b.nodes[i] == g.nodes[i] by {
        assert(g.nodes[i].id.0 == i);
    }
    assert(b.nodes =~= g.nodes);
    lemma_restored_edges(b, g.edges);
    lemma_filter_all(g.edges, |e: EdgeExport| e.from.0 < g.nodes.len() && e.to.0 < g.nodes.len());
}

proof fn lemma_filter_all<T>(s: Seq<T>, keep: spec_fn(T) -> bool)
    requires
        forall|i: int| 0 <= i < s.len() ==> keep(#[trigger] s[i]),
    ensures
        s.filter(keep) == s,
    decreases s.len(),
{
    reveal(Seq::filter);
    if s.len() > 0 {
        assert forall|i: int| 0 <= i < s.drop_last().len() implies keep(
            #[trigger] s.drop_last()[i],
        ) by {
            assert(s.drop_last()[i] == s[i]);
        }
        lemma_filter_all(s.drop_last(), keep);
        assert(keep(s[s.len() - 1]));
        assert(s =~= s.drop_last().push(s.last()));
    } else {
        assert(s =~= Seq::empty());
    }
}

impl CodeGraph {
    /// All edges with their endpoints as flat records.
    fn flat_edges(&self) -> (r: Vec<EdgeExport>)
        requires
            self.wf(),
        ensures
            r@ == self@.edges,
    {
        let mut out: Vec<EdgeExport> = Vec::new();
        let n: usize = edge_total(&self.graph);
        let mut i: usize = 0;
        while i < n
            invariant
                self.wf(),
                i <= n == self@.edges.len(),
                out@ == self@.edges.take(i as int),
            decreases n - i,
        {
            out.push(self.edge(i));
            assert(out@ =~= self@.edges.take(i + 1));
            i += 1;
        }
        assert(self@.edges.take(n as int) =~= self@.edges);
        out
    }

    /// A flat view of the graph: files, nodes, edges.
    pub fn export(&self) -> (r: GraphExport<'_>)
        requires
            self.wf(),
        ensures
            r@ == snapshot_of(self@),
    {
        let mut files: Vec<&str> = Vec::new();
        let mut i: usize = 0;
        while i < self.files.len()
            invariant
                i <= self.files@.len(),
                files@.len() == i,
                forall|j: int| 0 <= j < i ==> (#[trigger] files@[j])@ == self@.files[j],
            decreases self.files@.len() - i,
        {
            files.push(self.files[i].as_str());
            i += 1;
        }
        let r = GraphExport { files, nodes: self.nodes(), edges: self.flat_edges() };
        assert(r@ =~= snapshot_of(self@));
        r
    }

    /// An owned flat image of the graph, from which it can be rebuilt.
    pub fn snapshot(&self) -> (r: GraphSnapshot)
        requires
            self.wf(),
        ensures
            r@ == snapshot_of(self@),
    {
        let mut files: Vec<String> = Vec::new();
        let mut i: usize = 0;
        while i < self.files.len()
            invariant
                i <= self.files@.len(),
                files@.len() == i,
                forall|j: int| 0 <= j < i ==> (#[trigger] files@[j])@ == self@.files[j],
            decreases self.files@.len() - i,
        {
            files.push(self.files[i].clone());
            i += 1;
        }
        let mut nodes: Vec<Node> = Vec::new();
        let n: usize = node_total(&self.graph);
        let mut k: usize = 0;
        while k < n
            invariant
                k <= n == self@.nodes.len(),
                nodes@.len() == k,
                forall|j: int| 0 <= j < k ==> (#[trigger] nodes@[j])@ == self@.nodes[j],
            decreases n - k,
        {
            nodes.push(node_at(&self.graph, k).clone());
            k += 1;
        }
        let r = GraphSnapshot { files, nodes, edges: self.flat_edges() };
        assert(r@ =~= snapshot_of(self@));
        r
    }

    /// Rebuild a graph from a snapshot. The nodes keep their positions as ids;
    /// edges whose endpoints are no nodes are left out.
    pub fn from_snapshot(snapshot: GraphSnapshot) -> (r: Self)
        requires
            snapshot@.valid(),
        ensures
            r.wf(),
            r@ == restored(snapshot@),
    {
        let ghost s = snapshot@;
        let mut g = CodeGraph::new();
        let mut i: usize = 0;
        let file_total: usize = snapshot.files.len();
        assert(s.files.take(0) =~= Seq::empty());
        while i < file_total
            invariant
                i <= file_total == snapshot.files@.len(),
                s == snapshot@,
                s.valid(),
                g.wf(),
                g@ == restored_files(s.files.take(i as int)),
            decreases file_total - i,
        {
            let ghost front = s.files.take(i as int);
            proof {
                lemma_restored_files(front);
                lemma_restored_files(s.files.take(i + 1));
                assert(s.files.take(i + 1).drop_last() =~= front);
            }
            let key = normal_text(snapshot.files[i].as_str());
            g.files.push(snapshot.files[i].clone());
            g.file_index.insert(key, FileId(i as u32));
            proof {
                assert(g@ =~= restored_files(s.files.take(i + 1)));
            }
            i += 1;
        }
        proof {
            assert(s.files.take(file_total as int) =~= s.files);
            lemma_restored_files(s.files);
        }
        let ghost base = restored_files(s.files);
        let mut j: usize = 0;
        let node_number: usize = snapshot.nodes.len();
        assert(s.nodes.take(0) =~= Seq::empty());
        while j < node_number
            invariant
                j <= node_number == snapshot.nodes@.len(),
                s == snapshot@,
                s.valid(),
                base.wf(),
                base.nodes.len() == 0,
                g.wf(),
                g@ == restored_nodes(base, s.nodes.take(j as int)),
            decreases node_number - j,
        {
            let ghost front = s.nodes.take(j as int);
            let ghost next = s.nodes.take(j + 1);
            proof {
                assert forall|k: int| 0 <= k < front.len() implies (#[trigger] front[k]).valid() by {
                    assert(front[k] == s.nodes[k]);
                }
                assert forall|k: int| 0 <= k < next.len() implies (#[trigger] next[k]).valid() by {
                    assert(next[k] == s.nodes[k]);
                }
                lemma_restored_nodes(base, front);
                lemma_restored_nodes(base, next);
                assert(next.drop_last() =~= front);
                assert(next.last() == s.nodes[j as int]);
            }
            g.push_node(snapshot.nodes[j].clone());
            j += 1;
        }
        proof {
            assert(s.nodes.take(node_number as int) =~= s.nodes);
            lemma_restored_nodes(base, s.nodes);
        }
        let ghost filled = restored_nodes(base, s.nodes);
        let n: usize = node_total(&g.graph);
        let mut k: usize = 0;
        let edge_number: usize = snapshot.edges.len();
        assert(s.edges.take(0) =~= Seq::empty());
        while k < edge_number
            invariant
                k <= edge_number == snapshot.edges@.len(),
                n == filled.nodes.len(),
                s == snapshot@,
                s.valid(),
                filled.wf(),
                filled.edges.len() == 0,
                g.wf(),
                g@ == restored_edges(filled, s.edges.take(k as int)),
            decreases edge_number - k,
        {
            let e = snapshot.edges[k];
            let ghost front = s.edges.take(k as int);
            let ghost next = s.edges.take(k + 1);
            proof {
                lemma_restored_edges(filled, front);
                lemma_restored_edges(filled, next);
                assert(next.drop_last() =~= front);
                assert(next.last() == e);
            }
            if e.from.index() < n && e.to.index() < n {
                g.push_edge(
                    e.from,
                    e.to,
                    Edge { kind: e.kind, call_site: e.call_site, count: e.count },
                );
            }
            k += 1;
        }
        assert(s.edges.take(edge_number as int) =~= s.edges);
        g
    }
}

/// The neighbor lists say who calls whom.
pub proof fn lemma_neighbors(g: GraphModel)
    requires
        g.wf(),
    ensures
        forall|a: NodeId, b: NodeId| #[trigger]
            g.neighbors_out(a).contains(b) <==> g.calls(a, b),
        forall|a: NodeId, b: NodeId| #[trigger]
            g.neighbors_in(b).contains(a) <==> g.calls(a, b),
        forall|a: NodeId, b: NodeId| #[trigger] g.calls(a, b) ==> g.has(a) && g.has(b),
{
    let rev = g.edges.reverse();
    assert forall|e: EdgeExport| rev.contains(e) <==> g.edges.contains(e) by {
        if g.edges.contains(e) {
            let i = g.edges.index_of(e);
            assert(rev[g.edges.len() - 1 - i] == e);
        }
        if rev.contains(e) {
            let i = rev.index_of(e);
            assert(g.edges[g.edges.len() - 1 - i] == e);
        }
    }
    assert forall|a: NodeId, b: NodeId| #[trigger] g.neighbors_out(a).contains(b) <==> g.calls(a, b) by {
        crate::seqs::lemma_filter_has(rev, |e: EdgeExport| e.from == a);
        let out = g.edges_out(a);
        if g.calls(a, b) {
            let i = choose|i: int|
                0 <= i < g.edges.len() && (#[trigger] g.edges[i]).from == a && g.edges[i].to == b;
            assert(g.edges.contains(g.edges[i]));
            assert(out.contains(g.edges[i]));
            let j = out.index_of(g.edges[i]);
            assert(g.neighbors_out(a)[j] == b);
        }
        if g.neighbors_out(a).contains(b) {
            let j = g.neighbors_out(a).index_of(b);
            assert(out.contains(out[j]));
            assert(g.edges.contains(out[j]));
            let i = g.edges.index_of(out[j]);
            assert(g.edges[i].from == a && g.edges[i].to == b);
        }
    }
    assert forall|a: NodeId, b: NodeId| #[trigger] g.neighbors_in(b).contains(a) <==> g.calls(a, b) by {
        crate::seqs::lemma_filter_has(rev, |e: EdgeExport| e.to == b);
        let inn = g.edges_in(b);
        if g.calls(a, b) {
            let i = choose|i: int|
                0 <= i < g.edges.len() && (#[trigger] g.edges[i]).from == a && g.edges[i].to == b;
            assert(g.edges.contains(g.edges[i]));
            assert(inn.contains(g.edges[i]));
            let j = inn.index_of(g.edges[i]);
            assert(g.neighbors_in(b)[j] == a);
        }
        if g.neighbors_in(b).contains(a) {
            let j = g.neighbors_in(b).index_of(a);
            assert(inn.contains(inn[j]));
            assert(g.edges.contains(inn[j]));
            let i = g.edges.index_of(inn[j]);
            assert(g.edges[i].from == a && g.edges[i].to == b);
        }
    }
}

/// Nodes are interned by qualified name: adding a node of a name that is known answers
/// with the id that the name already has, whatever else the node holds.
pub proof fn law_same_name_same_id(g: GraphModel, a: NodeModel, b: NodeModel)
    requires
        g.wf(),
        g.nodes.len() < u32::MAX,
        a.qualified_name == b.qualified_name,
        a.qualified_name.len() > 0,
    ensures
        g.with_node(a).node_id_for(b) == g.node_id_for(a),
        g.with_node(a).with_node(b).nodes.len() == g.with_node(a).nodes.len(),
{
}

/// A definition takes the place of the placeholder of its name: it gets the same id, and
/// every call to or from the placeholder is now one to or from the definition. A known
/// definition is not replaced by anything.
pub proof fn law_definition_replaces_placeholder(g: GraphModel, n: NodeModel)
    requires
        g.wf(),
        g.knows(n.qualified_name),
        n.kind != NodeKind::External,
    ensures
        g.with_node(n).edges == g.edges,
        g.with_node(n).names == g.names,
        g.node(g.node_id_for(n)).kind == NodeKind::External ==> g.with_node(n).node(
            g.node_id_for(n),
        ) == (NodeModel { id: g.node_id_for(n), ..n }),
        g.node(g.node_id_for(n)).kind != NodeKind::External ==> g.with_node(n) == g,
{
}

/// Calls between the same two nodes of the same kind are one edge, which counts them
/// and keeps the place of the first.
pub proof fn law_repeated_calls_merge(g: GraphModel, from: NodeId, to: NodeId, a: Edge, b: Edge)
    requires
        g.wf(),
        a.kind == b.kind,
        !g.links.contains_key((from, to, a.kind)),
        a.count + b.count <= u32::MAX,
    ensures
        ({
            let once = g.with_edge(from, to, a);
            let twice = once.with_edge(from, to, b);
            &&& once.edges.len() == g.edges.len() + 1
            &&& twice.edges.len() == once.edges.len()
            &&& twice.edges.last().count == a.count + b.count
            &&& twice.edges.last().call_site == a.call_site
        }),
{
}

/// A path that is entered twice has one place in the file table, however it is spelled
/// the second time; the table shows the spelling under which it was first entered.
pub proof fn law_same_path_same_file(g: GraphModel, path: Seq<char>, again: Seq<char>)
    requires
        g.wf(),
        g.files.len() < u32::MAX,
        normal(path) == normal(again),
    ensures
        g.with_file(path).with_file(again) == g.with_file(path),
        g.with_file(path).file_id(again) == g.file_id(path),
        normal(g.with_file(path).files[g.file_id(path).0 as int]) == normal(path),
        !g.has_file(path) ==> g.with_file(path).files[g.file_id(path).0 as int] == path,
{
}

} // verus!
