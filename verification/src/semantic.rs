//! From what a semantic backend reports to a call graph.
//!
//! The backend names definitions by the file and the byte range of their names.
//! That identity is the same whether a definition is met as a caller or as a
//! callee, so the graph is stitched together across files without counting a
//! definition twice.

use crate::graph::{
    CodeGraph, Edge, EdgeKind, GraphModel, Node, NodeFlags, NodeKind, NodeModel, NodeStats, SourceSpan,
};
use crate::ids::{FileId, NodeId};
use crate::seqs::views_of;
use crate::text::{
    chars_of, decimal, decimal_text, digit, ends_with, has_prefix, has_suffix, starts_with, string_of,
    trim_text, trimmed,
};
use std::collections::HashMap;
use vstd::hash_map::StringHashMap;
use vstd::prelude::*;

verus! {

// -- names --------------------------------------------------------------------------

/// What precedes the first of the characters `a`, `b` and `c` from `i` on.
pub open spec fn prefix_end(s: Seq<char>, a: char, b: char, c: char, i: int) -> int
    decreases s.len() - i,
{
    if i >= s.len() {
        s.len() as int
    } else if s[i] == a || s[i] == b || s[i] == c {
        i
    } else {
        prefix_end(s, a, b, c, i + 1)
    }
}

/// What precedes the first of the characters `a`, `b` and `c`.
pub open spec fn prefix_before(s: Seq<char>, a: char, b: char, c: char) -> Seq<char> {
    s.take(prefix_end(s, a, b, c, 0))
}

fn cut_before(s: &str, a: char, b: char, c: char) -> (r: String)
    ensures
        r@ == prefix_before(s@, a, b, c),
{
    let cs = chars_of(s);
    let mut i: usize = 0;
    while i < cs.len() && cs[i] != a && cs[i] != b && cs[i] != c
        invariant
            i <= cs@.len(),
            cs@ == s@,
            prefix_end(s@, a, b, c, 0) == prefix_end(s@, a, b, c, i as int),
        decreases cs@.len() - i,
    {
        i += 1;
    }
    let r = string_of(&cs, 0, i);
    assert(r@ =~= prefix_before(s@, a, b, c));
    r
}

/// The label without a leading `impl`.
pub open spec fn without_impl(l: Seq<char>) -> Seq<char> {
    if starts_with(l, "impl "@) {
        l.skip(5)
    } else {
        l
    }
}

/// The type or module that a label names: `impl Foo` names `Foo`, and `impl Trait
/// for Foo` names `Trait`.
pub open spec fn container_name(label: Seq<char>) -> Seq<char> {
    trimmed(prefix_before(without_impl(trimmed(label)), ' ', '<', '<'))
}

pub fn container_of(label: &str) -> (r: String)
    ensures
        r@ == container_name(label@),
{
    let l = trim_text(label);
    let bare = if has_prefix(l.as_str(), "impl ") {
        proof {
            reveal_strlit("impl ");
        }
        let cs = chars_of(l.as_str());
        let r = string_of(&cs, 5, cs.len());
        assert(r@ =~= l@.skip(5));
        r
    } else {
        l
    };
    trim_text(cut_before(bare.as_str(), ' ', '<', '<').as_str())
}

/// The bare name in a label, without its signature.
pub open spec fn bare_name(label: Seq<char>) -> Seq<char> {
    trimmed(prefix_before(label, '(', '<', ' '))
}

pub fn clean_name(label: &str) -> (r: String)
    ensures
        r@ == bare_name(label@),
{
    trim_text(cut_before(label, '(', '<', ' ').as_str())
}

/// A path with a segment appended; empty segments are left out.
pub open spec fn extended_path(path: Seq<char>, seg: Seq<char>) -> Seq<char> {
    if seg.len() == 0 {
        path
    } else if path.len() == 0 {
        seg
    } else {
        path + "::"@ + seg
    }
}

/// The text, or nothing where there is none.
pub open spec fn or_empty(s: Option<Seq<char>>) -> Seq<char> {
    match s {
        Some(t) => t,
        None => Seq::empty(),
    }
}

/// Crate, container and name as one path, without the empty ones.
pub open spec fn qualified(
    home: Option<Seq<char>>,
    container: Option<Seq<char>>,
    name: Seq<char>,
) -> Seq<char> {
    extended_path(
        extended_path(extended_path(Seq::empty(), or_empty(home)), or_empty(container)),
        name,
    )
}

fn extend_path(path: String, seg: &str) -> (r: String)
    ensures
        r@ == extended_path(path@, seg@),
{
    if seg.is_empty() {
        path
    } else if path.as_str().is_empty() {
        seg.to_owned()
    } else {
        let mut out = path;
        out.append("::");
        out.append(seg);
        out
    }
}

pub open spec fn opt_view(s: Option<String>) -> Option<Seq<char>> {
    match s {
        Some(t) => Some(t@),
        None => None,
    }
}

/// Crate, container and name as one path, without the empty ones.
pub fn qualify(home: &Option<String>, container: &Option<String>, name: &str) -> (r: String)
    ensures
        r@ == qualified(opt_view(*home), opt_view(*container), name@),
{
    let mut path = String::new();
    match home {
        Some(h) => {
            path = extend_path(path, h.as_str());
        },
        None => {},
    }
    match container {
        Some(c) => {
            path = extend_path(path, c.as_str());
        },
        None => {},
    }
    extend_path(path, name)
}

/// The number of lines of a span.
pub open spec fn line_count(s: SourceSpan) -> u32 {
    let n = if s.end_line >= s.start_line {
        s.end_line - s.start_line
    } else {
        0
    };
    if n >= u32::MAX {
        u32::MAX
    } else {
        (n + 1) as u32
    }
}

pub fn loc_of(span: &SourceSpan) -> (r: u32)
    ensures
        r == line_count(*span),
{
    span.end_line.saturating_sub(span.start_line).saturating_add(1)
}

/// The last place where a manifest stands, on the way up from a file: the root of
/// the workspace.
pub open spec fn topmost(has_manifest: Seq<bool>, n: int) -> Option<int>
    decreases n,
{
    if n <= 0 || n > has_manifest.len() {
        None
    } else if has_manifest[n - 1] {
        Some(n - 1)
    } else {
        topmost(has_manifest, n - 1)
    }
}

/// Which of the directories on the way up from a file is the workspace root, given
/// which of them hold a manifest.
pub fn workspace_root(has_manifest: &Vec<bool>) -> (r: Option<usize>)
    ensures
        match r {
            Some(i) => topmost(has_manifest@, has_manifest@.len() as int) == Some(i as int),
            None => topmost(has_manifest@, has_manifest@.len() as int) is None,
        },
{
    let mut n: usize = has_manifest.len();
    while n > 0
        invariant
            n <= has_manifest@.len(),
            topmost(has_manifest@, has_manifest@.len() as int) == topmost(
                has_manifest@,
                n as int,
            ),
        decreases n,
    {
        if has_manifest[n - 1] {
            return Some(n - 1);
        }
        n -= 1;
    }
    None
}

// -- reports --------------------------------------------------------------------------

/// Lines and columns of a place in a file: lines count from one.
#[derive(Debug, Clone, Copy, PartialEq, Eq, Structural)]
pub struct Lines {
    pub start_line: u32,
    pub start_col: u32,
    pub end_line: u32,
    pub end_col: u32,
}

pub open spec fn lines_in(file: FileId, l: Option<Lines>) -> SourceSpan {
    match l {
        Some(x) => SourceSpan {
            file: file.0,
            start_line: x.start_line,
            start_col: x.start_col,
            end_line: x.end_line,
            end_col: x.end_col,
        },
        None => SourceSpan { file: file.0, start_line: 0, start_col: 0, end_line: 0, end_col: 0 },
    }
}

fn span_in(file: FileId, l: Option<Lines>) -> (r: SourceSpan)
    ensures
        r == lines_in(file, l),
{
    match l {
        Some(x) => SourceSpan::new(file, x.start_line, x.start_col, x.end_line, x.end_col),
        None => SourceSpan::new(file, 0, 0, 0, 0),
    }
}

/// A file as the backend knows it: its number, and its path where it has one.
#[derive(Debug)]
pub struct BackendFile {
    pub number: u32,
    pub path: Option<String>,
}

pub struct BackendFileModel {
    pub number: u32,
    pub path: Option<Seq<char>>,
}

impl View for BackendFile {
    type V = BackendFileModel;

    open spec fn view(&self) -> BackendFileModel {
        BackendFileModel { number: self.number, path: opt_view(self.path) }
    }
}

/// A call that the backend has resolved.
#[derive(Debug)]
pub struct ResolvedCall {
    pub file: BackendFile,
    /// The byte range of the target's name.
    pub name_start: u32,
    pub name_end: u32,
    pub name: String,
    pub container: Option<String>,
    pub home: Option<String>,
    /// The target belongs to the workspace.
    pub local: bool,
    pub method: bool,
    /// Where the target stands.
    pub lines: Option<Lines>,
    /// How many call sites there are.
    pub sites: u32,
    /// Where the first call stands, in the caller's file.
    pub site: Option<Lines>,
}

#[verifier::ext_equal]
pub struct ResolvedModel {
    pub file: BackendFileModel,
    pub name_start: u32,
    pub name_end: u32,
    pub name: Seq<char>,
    pub container: Option<Seq<char>>,
    pub home: Option<Seq<char>>,
    pub local: bool,
    pub method: bool,
    pub lines: Option<Lines>,
    pub sites: u32,
    pub site: Option<Lines>,
}

impl View for ResolvedCall {
    type V = ResolvedModel;

    open spec fn view(&self) -> ResolvedModel {
        ResolvedModel {
            file: self.file@,
            name_start: self.name_start,
            name_end: self.name_end,
            name: self.name@,
            container: opt_view(self.container),
            home: opt_view(self.home),
            local: self.local,
            method: self.method,
            lines: self.lines,
            sites: self.sites,
            site: self.site,
        }
    }
}

/// One entry of a file's structure.
#[derive(Debug)]
pub struct StructureItem {
    pub label: String,
    /// The entry in which this one stands.
    pub parent: Option<usize>,
    /// A function or a method.
    pub callable: bool,
    pub method: bool,
    /// The byte range of the name.
    pub name_start: u32,
    pub name_end: u32,
    /// Where the whole entry stands.
    pub lines: Lines,
    /// The calls that leave it.
    pub calls: Vec<ResolvedCall>,
}

#[verifier::ext_equal]
pub struct ItemModel {
    pub label: Seq<char>,
    pub parent: Option<int>,
    pub callable: bool,
    pub method: bool,
    pub name_start: u32,
    pub name_end: u32,
    pub lines: Lines,
    pub calls: Seq<ResolvedModel>,
}

impl View for StructureItem {
    type V = ItemModel;

    open spec fn view(&self) -> ItemModel {
        ItemModel {
            label: self.label@,
            parent: crate::lang::opt_int(self.parent),
            callable: self.callable,
            method: self.method,
            name_start: self.name_start,
            name_end: self.name_end,
            lines: self.lines,
            calls: views_of(self.calls@),
        }
    }
}

/// What the backend reports of one file.
#[derive(Debug)]
pub struct FileReport {
    pub file: BackendFile,
    /// The file is one of those asked for, or none were named.
    pub wanted: bool,
    /// The file belongs to a crate of the workspace.
    pub local: bool,
    /// The crate's name.
    pub home: Option<String>,
    pub items: Vec<StructureItem>,
}

#[verifier::ext_equal]
pub struct FileReportModel {
    pub file: BackendFileModel,
    pub wanted: bool,
    pub local: bool,
    pub home: Option<Seq<char>>,
    pub items: Seq<ItemModel>,
}

impl View for FileReport {
    type V = FileReportModel;

    open spec fn view(&self) -> FileReportModel {
        FileReportModel {
            file: self.file@,
            wanted: self.wanted,
            local: self.local,
            home: opt_view(self.home),
            items: views_of(self.items@),
        }
    }
}

// -- the registry ---------------------------------------------------------------------

/// The identity of a definition: its file and the byte range of its name.
pub type NavKey = (u32, u32, u32);

/// A graph while it is filled, with the backend's identities.
#[verifier::ext_equal]
pub struct RegistryModel {
    pub graph: GraphModel,
    pub files: Map<u32, FileId>,
    pub nodes: Map<NavKey, NodeId>,
    /// How often each path has been given out.
    pub used: Map<Seq<char>, u32>,
}

/// The path under which a file is entered.
pub open spec fn file_text(f: BackendFileModel) -> Seq<char> {
    match f.path {
        Some(p) => p,
        None => "<ra:FileId("@ + decimal(f.number as nat) + ")>"@,
    }
}

impl RegistryModel {
    pub open spec fn empty() -> RegistryModel {
        RegistryModel {
            graph: GraphModel::empty(),
            files: Map::empty(),
            nodes: Map::empty(),
            used: Map::empty(),
        }
    }

    pub open spec fn file_id(self, f: BackendFileModel) -> FileId {
        if self.files.contains_key(f.number) {
            self.files[f.number]
        } else {
            self.graph.file_id(file_text(f))
        }
    }

    pub open spec fn with_file(self, f: BackendFileModel) -> RegistryModel {
        if self.files.contains_key(f.number) {
            self
        } else {
            RegistryModel {
                graph: self.graph.with_file(file_text(f)),
                files: self.files.insert(f.number, self.graph.file_id(file_text(f))),
                ..self
            }
        }
    }

    /// How often a path has been given out.
    pub open spec fn uses(self, path: Seq<char>) -> u32 {
        if self.used.contains_key(path) {
            self.used[path]
        } else {
            0
        }
    }

    /// The path, marked with a number where it was given out before.
    pub open spec fn unique(self, path: Seq<char>) -> Seq<char> {
        if self.uses(path) == 0 {
            path
        } else {
            path + "#"@ + decimal(self.uses(path) as nat)
        }
    }

    pub open spec fn with_use(self, path: Seq<char>) -> RegistryModel {
        RegistryModel { used: self.used.insert(path, (self.uses(path) + 1) as u32), ..self }
    }

    /// The registry with a definition entered under its identity.
    pub open spec fn with_definition(
        self,
        key: NavKey,
        name: Seq<char>,
        home: Option<Seq<char>>,
        container: Option<Seq<char>>,
        kind: NodeKind,
        span: SourceSpan,
    ) -> RegistryModel {
        if self.nodes.contains_key(key) {
            self
        } else {
            let path = qualified(home, container, name);
            let n = definition(self.unique(path), name, home, container, kind, span);
            let r = self.with_use(path);
            RegistryModel {
                graph: r.graph.with_node(n),
                nodes: r.nodes.insert(key, r.graph.node_id_for(n)),
                ..r
            }
        }
    }
}

/// The node of a definition.
pub open spec fn definition(
    path: Seq<char>,
    name: Seq<char>,
    home: Option<Seq<char>>,
    container: Option<Seq<char>>,
    kind: NodeKind,
    span: SourceSpan,
) -> NodeModel {
    NodeModel {
        id: NodeId(u32::MAX),
        name,
        qualified_name: path,
        module: qualified(home, container, Seq::empty()),
        kind,
        span,
        flags: NodeFlags { is_method: kind == NodeKind::Method, ..NodeFlags::blank() },
        stats: NodeStats { lines_of_code: line_count(span), ..NodeStats::blank() },
    }
}

/// The container of an entry: named by the entry in which it stands.
pub open spec fn item_container(items: Seq<ItemModel>, i: int) -> Option<Seq<char>> {
    match items[i].parent {
        Some(p) => if 0 <= p < items.len() {
            Some(container_name(items[p].label))
        } else {
            None
        },
        None => None,
    }
}

/// The registry with a caller entered.
pub open spec fn with_caller(r: RegistryModel, f: FileReportModel, i: int) -> RegistryModel {
    let it = f.items[i];
    r.with_definition(
        (f.file.number, it.name_start, it.name_end),
        bare_name(it.label),
        f.home,
        item_container(f.items, i),
        if it.method {
            NodeKind::Method
        } else {
            NodeKind::Function
        },
        lines_in(r.file_id(f.file), Some(it.lines)),
    )
}

/// The registry with the target of a call entered. A target outside the workspace
/// is a placeholder.
pub open spec fn with_target(r: RegistryModel, c: ResolvedModel) -> RegistryModel {
    let key = (c.file.number, c.name_start, c.name_end);
    if r.nodes.contains_key(key) {
        r
    } else {
        r.with_file(c.file).with_definition(
            key,
            c.name,
            c.home,
            c.container,
            if !c.local {
                NodeKind::External
            } else if c.method {
                NodeKind::Method
            } else {
                NodeKind::Function
            },
            lines_in(r.file_id(c.file), c.lines),
        )
    }
}

/// The registry with a call recorded.
pub open spec fn with_call(
    r: RegistryModel,
    file: FileId,
    caller: NavKey,
    c: ResolvedModel,
) -> RegistryModel {
    let s = with_target(r, c);
    let key = (c.file.number, c.name_start, c.name_end);
    RegistryModel {
        graph: s.graph.with_edge(
            s.nodes[caller],
            s.nodes[key],
            Edge {
                kind: if c.method {
                    EdgeKind::MethodCall
                } else {
                    EdgeKind::DirectCall
                },
                call_site: lines_in(file, c.site),
                count: if c.sites == 0 {
                    1
                } else {
                    c.sites
                },
            },
        ),
        ..s
    }
}

pub open spec fn with_calls(
    r: RegistryModel,
    file: FileId,
    caller: NavKey,
    calls: Seq<ResolvedModel>,
) -> RegistryModel
    decreases calls.len(),
{
    if calls.len() == 0 {
        r
    } else {
        with_call(with_calls(r, file, caller, calls.drop_last()), file, caller, calls.last())
    }
}

/// The registry with the first `n` entries of a file recorded.
pub open spec fn with_items(r: RegistryModel, f: FileReportModel, n: nat) -> RegistryModel
    decreases n,
{
    if n == 0 {
        r
    } else {
        let s = with_items(r, f, (n - 1) as nat);
        let i = n - 1;
        let it = f.items[i];
        if it.callable {
            with_calls(
                with_caller(s, f, i),
                r.file_id(f.file),
                (f.file.number, it.name_start, it.name_end),
                it.calls,
            )
        } else {
            s
        }
    }
}

/// A file is read where it is a Rust file of the workspace that was asked for.
pub open spec fn is_read(f: FileReportModel) -> bool {
    f.wanted && f.local && f.file.path is Some && ends_with(f.file.path->0, ".rs"@)
}

/// The registry with a file recorded.
pub open spec fn with_report(r: RegistryModel, f: FileReportModel) -> RegistryModel {
    if is_read(f) {
        with_items(r.with_file(f.file), f, f.items.len())
    } else {
        r
    }
}

/// The registry with all files recorded.
pub open spec fn with_reports(files: Seq<FileReportModel>) -> RegistryModel
    decreases files.len(),
{
    if files.len() == 0 {
        RegistryModel::empty()
    } else {
        with_report(with_reports(files.drop_last()), files.last())
    }
}

/// How much a report adds at most.
pub open spec fn item_load(items: Seq<ItemModel>) -> nat
    decreases items.len(),
{
    if items.len() == 0 {
        0
    } else {
        item_load(items.drop_last()) + 1 + 3 * items.last().calls.len()
    }
}

/// How much reports add at most: a file, its entries and their calls.
pub open spec fn report_load(files: Seq<FileReportModel>) -> nat
    decreases files.len(),
{
    if files.len() == 0 {
        0
    } else {
        report_load(files.drop_last()) + 1 + item_load(files.last().items)
    }
}

/// A graph while it is filled, with the backend's identities.
pub struct Registry {
    graph: CodeGraph,
    files: HashMap<u32, FileId>,
    nodes: HashMap<u128, NodeId>,
    used: StringHashMap<u32>,
}

/// The number under which an identity is stored.
spec fn packed(key: NavKey) -> u128 {
    ((key.0 * 0x1_0000_0000 + key.1) * 0x1_0000_0000 + key.2) as u128
}

fn pack(a: u32, b: u32, c: u32) -> (r: u128)
    ensures
        r == packed((a, b, c)),
{
    (a as u128 * 0x1_0000_0000u128 + b as u128) * 0x1_0000_0000u128 + c as u128
}

proof fn lemma_packed_injective(a: NavKey, b: NavKey)
    requires
        packed(a) == packed(b),
    ensures
        a == b,
{
    let x = a.0 * 0x1_0000_0000 + a.1;
    let y = b.0 * 0x1_0000_0000 + b.1;
    assert(x * 0x1_0000_0000 + a.2 == y * 0x1_0000_0000 + b.2);
    assert(x == y);
}

impl View for Registry {
    type V = RegistryModel;

    closed spec fn view(&self) -> RegistryModel {
        RegistryModel {
            graph: self.graph@,
            files: self.files@,
            nodes: Map::new(
                |k: NavKey| self.nodes@.contains_key(packed(k)),
                |k: NavKey| self.nodes@[packed(k)],
            ),
            used: self.used@,
        }
    }
}

impl Registry {
    /// The registry is well formed, and `n` steps at most led to it.
    pub closed spec fn ok(&self, n: int) -> bool {
        &&& self.graph.wf()
        &&& self@.graph.nodes.len() <= n
        &&& self@.graph.edges.len() <= n
        &&& self@.graph.files.len() <= n
        &&& forall|k: NavKey| #[trigger]
            self@.nodes.contains_key(k) ==> self@.graph.has(self@.nodes[k])
        &&& forall|p: Seq<char>| #[trigger] self@.used.contains_key(p) ==> self@.used[p] <= n
    }

    pub fn new() -> (r: Self)
        ensures
            r@ == RegistryModel::empty(),
            r.ok(0),
    {
        broadcast use vstd::std_specs::hash::group_hash_axioms;

        let r = Registry {
            graph: CodeGraph::new(),
            files: HashMap::new(),
            nodes: HashMap::new(),
            used: StringHashMap::new(),
        };
        assert(r@ =~= RegistryModel::empty());
        r
    }

    /// Enter a file under the backend's number.
    fn intern_file(&mut self, f: &BackendFile, Ghost(n): Ghost<int>) -> (r: FileId)
        requires
            old(self).ok(n),
            n < u32::MAX,
        ensures
            final(self).ok(n + 1),
            r == old(self)@.file_id(f@),
            final(self)@ == old(self)@.with_file(f@),
            final(self)@.graph.nodes == old(self)@.graph.nodes,
            final(self)@.graph.edges == old(self)@.graph.edges,
            final(self)@.used == old(self)@.used,
    {
        broadcast use vstd::std_specs::hash::group_hash_axioms;

        let ghost before = *self;
        if let Some(id) = self.files.get(&f.number) {
            return *id;
        }
        let path = match &f.path {
            Some(p) => p.clone(),
            None => {
                let mut t = "<ra:FileId(".to_owned();
                t.append(decimal_text(f.number as u64).as_str());
                t.append(")>");
                t
            },
        };
        proof {
            self.graph.lemma_wf();
        }
        let id = self.graph.intern_file(path.as_str());
        self.files.insert(f.number, id);
        assert(self@ =~= before@.with_file(f@));
        id
    }

    /// A path that was not given out before.
    fn unique_qname(&mut self, path: &str, Ghost(n): Ghost<int>) -> (r: String)
        requires
            old(self).ok(n),
            n < u32::MAX,
        ensures
            r@ == old(self)@.unique(path@),
            final(self)@ == old(self)@.with_use(path@),
            final(self).ok(n + 1),
    {
        let ghost before = *self;
        let times: u32 = match self.used.get(path) {
            Some(k) => {
                assert(before@.used.contains_key(path@));
                *k
            },
            None => 0,
        };
        self.used.insert(path.to_owned(), times + 1);
        assert(self@ =~= before@.with_use(path@));
        if times == 0 {
            path.to_owned()
        } else {
            let mut t = path.to_owned();
            t.append("#");
            t.append(decimal_text(times as u64).as_str());
            t
        }
    }

    /// The node of a definition, entered where it is new.
    fn define(
        &mut self,
        key: NavKey,
        name: &str,
        home: &Option<String>,
        container: &Option<String>,
        kind: NodeKind,
        span: SourceSpan,
        Ghost(n): Ghost<int>,
    ) -> (r: NodeId)
        requires
            old(self).ok(n),
            n < u32::MAX,
        ensures
            final(self).ok(n + 1),
            final(self)@ == old(self)@.with_definition(
                key,
                name@,
                opt_view(*home),
                opt_view(*container),
                kind,
                span,
            ),
            final(self)@.nodes.contains_key(key),
            r == final(self)@.nodes[key],
            final(self)@.graph.files == old(self)@.graph.files,
            final(self)@.graph.edges == old(self)@.graph.edges,
    {
        broadcast use vstd::std_specs::hash::group_hash_axioms;

        let ghost before = *self;
        let at: u128 = pack(key.0, key.1, key.2);
        if let Some(id) = self.nodes.get(&at) {
            return *id;
        }
        let path = qualify(home, container, name);
        let unique = self.unique_qname(path.as_str(), Ghost(n));
        let node = Node {
            id: NodeId(u32::MAX),
            name: name.to_owned(),
            qualified_name: unique,
            module: qualify(home, container, ""),
            kind,
            span,
            flags: NodeFlags {
                is_pub: false,
                is_async: false,
                is_unsafe: false,
                is_test: false,
                is_method: kind == NodeKind::Method,
                is_generic: false,
                is_exported: false,
            },
            stats: NodeStats {
                lines_of_code: loc_of(&span),
                decision_points: 0,
                parameters: 0,
                statements: 0,
                max_nesting: 0,
                returns: 0,
                unsafe_blocks: 0,
                allocations: 0,
                awaits: 0,
            },
        };
        let ghost added = node@;
        let ghost mid = *self;
        proof {
            reveal_strlit("");
            assert(""@ =~= Seq::<char>::empty());
            self.graph.lemma_wf();
        }
        let id = self.graph.add_node(node);
        self.nodes.insert(at, id);
        proof {
            let after = before@.with_definition(
                key,
                name@,
                opt_view(*home),
                opt_view(*container),
                kind,
                span,
            );
            assert(added == definition(
                before@.unique(path@),
                name@,
                opt_view(*home),
                opt_view(*container),
                kind,
                span,
            ));
            assert forall|k: NavKey| self@.nodes.contains_key(k) <==> after.nodes.contains_key(k) by {
                if packed(k) == at {
                    lemma_packed_injective(k, key);
                }
            }
            assert forall|k: NavKey| self@.nodes.contains_key(k) implies self@.nodes[k]
                == after.nodes[k] by {
                if packed(k) == at {
                    lemma_packed_injective(k, key);
                }
            }
            assert(self@.nodes =~= after.nodes);
            assert(self@ =~= after);
        }
        id
    }

    /// The node of a function that calls others.
    fn caller_node(&mut self, f: &FileReport, i: usize, file: FileId, Ghost(n): Ghost<int>) -> (r:
        NodeId)
        requires
            old(self).ok(n),
            n < u32::MAX,
            i < f.items@.len(),
            file == old(self)@.file_id(f@.file),
        ensures
            final(self).ok(n + 1),
            final(self)@ == with_caller(old(self)@, f@, i as int),
            ({
                let it = f@.items[i as int];
                let key = (f@.file.number, it.name_start, it.name_end);
                final(self)@.nodes.contains_key(key) && r == final(self)@.nodes[key]
            }),
    {
        let it = &f.items[i];
        assert(f@.items[i as int] == it@);
        let container = match it.parent {
            Some(p) => {
                if p < f.items.len() {
                    assert(f@.items[p as int] == f.items@[p as int]@);
                    Some(container_of(f.items[p].label.as_str()))
                } else {
                    None
                }
            },
            None => None,
        };
        assert(opt_view(container) == item_container(f@.items, i as int));
        let kind = if it.method {
            NodeKind::Method
        } else {
            NodeKind::Function
        };
        let name = clean_name(it.label.as_str());
        self.define(
            (f.file.number, it.name_start, it.name_end),
            name.as_str(),
            &f.home,
            &container,
            kind,
            span_in(file, Some(it.lines)),
            Ghost(n),
        )
    }

    /// The node of the target of a call.
    fn target_node(&mut self, c: &ResolvedCall, Ghost(n): Ghost<int>) -> (r: NodeId)
        requires
            old(self).ok(n),
            n + 1 < u32::MAX,
        ensures
            final(self).ok(n + 2),
            final(self)@ == with_target(old(self)@, c@),
            final(self)@.graph.edges == old(self)@.graph.edges,
            ({
                let key = (c@.file.number, c@.name_start, c@.name_end);
                final(self)@.nodes.contains_key(key) && r == final(self)@.nodes[key]
            }),
    {
        broadcast use vstd::std_specs::hash::group_hash_axioms;

        let ghost before = *self;
        let key = (c.file.number, c.name_start, c.name_end);
        let at: u128 = pack(key.0, key.1, key.2);
        if let Some(id) = self.nodes.get(&at) {
            return *id;
        }
        assert(!before@.nodes.contains_key(key));
        let file = self.intern_file(&c.file, Ghost(n));
        let kind = if !c.local {
            NodeKind::External
        } else if c.method {
            NodeKind::Method
        } else {
            NodeKind::Function
        };
        self.define(
            key,
            c.name.as_str(),
            &c.home,
            &c.container,
            kind,
            span_in(file, c.lines),
            Ghost(n + 1),
        )
    }

    /// Record a call of a node that is already entered.
    fn record_call(
        &mut self,
        caller: NavKey,
        from: NodeId,
        file: FileId,
        c: &ResolvedCall,
        Ghost(n): Ghost<int>,
    )
        requires
            old(self).ok(n),
            n + 2 < u32::MAX,
            old(self)@.nodes.contains_key(caller),
            old(self)@.nodes[caller] == from,
        ensures
            final(self).ok(n + 3),
            final(self)@ == with_call(old(self)@, file, caller, c@),
            final(self)@.nodes.contains_key(caller),
            final(self)@.nodes[caller] == from,
    {
        let ghost before = *self;
        let to = self.target_node(c, Ghost(n));
        let kind = if c.method {
            EdgeKind::MethodCall
        } else {
            EdgeKind::DirectCall
        };
        let mut edge = Edge::new(kind, span_in(file, c.site));
        if c.sites > 0 {
            edge.count = c.sites;
        }
        let ghost mid = *self;
        proof {
            assert(mid@.nodes.contains_key(caller) && mid@.nodes[caller] == from);
            self.graph.lemma_wf();
        }
        self.graph.add_edge(from, to, edge);
        proof {
            assert(self@ =~= with_call(before@, file, caller, c@));
        }
    }

    /// Record the calls of an entry.
    fn record_calls(
        &mut self,
        caller: NavKey,
        from: NodeId,
        file: FileId,
        calls: &Vec<ResolvedCall>,
        Ghost(n): Ghost<int>,
    )
        requires
            old(self).ok(n),
            n + 3 * calls@.len() < u32::MAX,
            old(self)@.nodes.contains_key(caller),
            old(self)@.nodes[caller] == from,
        ensures
            final(self).ok(n + 3 * calls@.len()),
            final(self)@ == with_calls(old(self)@, file, caller, views_of(calls@)),
    {
        let ghost start = self@;
        let ghost cs = views_of(calls@);
        let mut i: usize = 0;
        assert(cs.take(0) =~= Seq::empty());
        while i < calls.len()
            invariant
                i <= calls@.len(),
                cs == views_of(calls@),
                self.ok(n + 3 * i),
                n + 3 * calls@.len() < u32::MAX,
                self@.nodes.contains_key(caller),
                self@.nodes[caller] == from,
                self@ == with_calls(start, file, caller, cs.take(i as int)),
            decreases calls@.len() - i,
        {
            proof {
                assert(cs[i as int] == calls@[i as int]@);
                assert(cs.take(i + 1).drop_last() =~= cs.take(i as int));
                assert(cs.take(i + 1).last() == calls@[i as int]@);
            }
            self.record_call(caller, from, file, &calls[i], Ghost(n + 3 * i));
            i += 1;
        }
        assert(cs.take(cs.len() as int) =~= cs);
    }

    /// Record a file: its functions and methods, and the calls that leave them.
    fn process_file(&mut self, f: &FileReport, Ghost(n): Ghost<int>)
        requires
            old(self).ok(n),
            n + 1 + item_load(f@.items) < u32::MAX,
        ensures
            final(self).ok(n + 1 + item_load(f@.items)),
            final(self)@ == with_items(old(self)@.with_file(f@.file), f@, f@.items.len()),
    {
        let ghost first = self@;
        proof {
            lemma_item_load(f@.items, 0);
        }
        let file = self.intern_file(&f.file, Ghost(n));
        let ghost start = self@;
        let ghost its = f@.items;
        assert(file == start.file_id(f@.file));
        let mut i: usize = 0;
        assert(its.take(0) =~= Seq::empty());
        while i < f.items.len()
            invariant
                i <= f.items@.len(),
                its == f@.items,
                n + 1 + item_load(its) < u32::MAX,
                self.ok(n + 1 + item_load(its.take(i as int))),
                self@ == with_items(start, f@, i as nat),
                file == start.file_id(f@.file),
                start.files.contains_key(f@.file.number),
            decreases f.items@.len() - i,
        {
            let it = &f.items[i];
            let ghost so_far = n + 1 + item_load(its.take(i as int));
            proof {
                assert(its[i as int] == it@);
                assert(its.take(i + 1).drop_last() =~= its.take(i as int));
                assert(its.take(i + 1).last() == it@);
                lemma_item_load(its, i + 1);
                lemma_files_kept(start, f@, i as nat);
            }
            if it.callable {
                let key = (f.file.number, it.name_start, it.name_end);
                let from = self.caller_node(f, i, file, Ghost(so_far));
                self.record_calls(key, from, file, &it.calls, Ghost(so_far + 1));
            } else {
                proof {
                    self.lemma_ok_grows(so_far, n + 1 + item_load(its.take(i + 1)));
                }
            }
            i += 1;
        }
        assert(its.take(its.len() as int) =~= its);
    }

    proof fn lemma_ok_grows(&self, m: int, n: int)
        requires
            self.ok(m),
            m <= n,
        ensures
            self.ok(n),
    {
    }
}

proof fn lemma_item_load(items: Seq<ItemModel>, k: int)
    requires
        0 <= k <= items.len(),
    ensures
        item_load(items.take(k)) <= item_load(items),
    decreases items.len(),
{
    if k < items.len() {
        lemma_item_load(items.drop_last(), k);
        assert(items.drop_last().take(k) =~= items.take(k));
    } else {
        assert(items.take(k) =~= items);
    }
}

/// The numbers of files that are entered stay as they are.
proof fn lemma_files_kept(r: RegistryModel, f: FileReportModel, n: nat)
    requires
        r.files.contains_key(f.file.number),
    ensures
        with_items(r, f, n).files.contains_key(f.file.number),
        with_items(r, f, n).files[f.file.number] == r.files[f.file.number],
    decreases n,
{
    if n > 0 {
        lemma_files_kept(r, f, (n - 1) as nat);
        let s = with_items(r, f, (n - 1) as nat);
        let it = f.items[n - 1];
        if it.callable {
            lemma_calls_keep_files(
                with_caller(s, f, n - 1),
                r.file_id(f.file),
                (f.file.number, it.name_start, it.name_end),
                it.calls,
                f.file.number,
            );
        }
    }
}

proof fn lemma_calls_keep_files(
    r: RegistryModel,
    file: FileId,
    caller: NavKey,
    calls: Seq<ResolvedModel>,
    number: u32,
)
    requires
        r.files.contains_key(number),
    ensures
        with_calls(r, file, caller, calls).files.contains_key(number),
        with_calls(r, file, caller, calls).files[number] == r.files[number],
    decreases calls.len(),
{
    if calls.len() > 0 {
        lemma_calls_keep_files(r, file, caller, calls.drop_last(), number);
    }
}

/// The call graph of what a semantic backend reports.
pub fn semantic_graph(files: &Vec<FileReport>) -> (r: CodeGraph)
    requires
        report_load(views_of(files@)) < u32::MAX,
    ensures
        r.wf(),
        r@ == with_reports(views_of(files@)).graph,
{
    let ghost fs = views_of(files@);
    let mut reg = Registry::new();
    let mut i: usize = 0;
    assert(fs.take(0) =~= Seq::empty());
    while i < files.len()
        invariant
            i <= files@.len(),
            fs == views_of(files@),
            report_load(fs) < u32::MAX,
            reg.ok(report_load(fs.take(i as int)) as int),
            reg@ == with_reports(fs.take(i as int)),
        decreases files@.len() - i,
    {
        let f = &files[i];
        let ghost so_far = report_load(fs.take(i as int)) as int;
        proof {
            assert(fs[i as int] == f@);
            assert(fs.take(i + 1).drop_last() =~= fs.take(i as int));
            assert(fs.take(i + 1).last() == f@);
            lemma_report_load(fs, i + 1);
        }
        let read = f.wanted && f.local && match &f.file.path {
            Some(p) => has_suffix(p.as_str(), ".rs"),
            None => false,
        };
        if read {
            reg.process_file(f, Ghost(so_far));
        } else {
            proof {
                reg.lemma_ok_grows(so_far, report_load(fs.take(i + 1)) as int);
            }
        }
        i += 1;
    }
    assert(fs.take(fs.len() as int) =~= fs);
    reg.graph
}

proof fn lemma_report_load(files: Seq<FileReportModel>, k: int)
    requires
        0 <= k <= files.len(),
    ensures
        report_load(files.take(k)) <= report_load(files),
    decreases files.len(),
{
    if k < files.len() {
        lemma_report_load(files.drop_last(), k);
        assert(files.drop_last().take(k) =~= files.take(k));
    } else {
        assert(files.take(k) =~= files);
    }
}

// -- laws -----------------------------------------------------------------------------

/// A path with the mark of its `n`-th reuse; the first use has none.
pub open spec fn marked(path: Seq<char>, n: nat) -> Seq<char> {
    if n == 0 {
        path
    } else {
        path + "#"@ + decimal(n)
    }
}

proof fn lemma_decimal_injective(m: nat, n: nat)
    requires
        decimal(m) == decimal(n),
    ensures
        m == n,
    decreases m,
{
    let x = decimal(m);
    let y = decimal(n);
    assert(decimal(m / 10).len() > 0 && decimal(n / 10).len() > 0);
    assert(x.last() == digit(m as int % 10) && y.last() == digit(n as int % 10));
    if m >= 10 && n >= 10 {
        assert(x.drop_last() =~= decimal(m / 10));
        assert(y.drop_last() =~= decimal(n / 10));
        lemma_decimal_injective(m / 10, n / 10);
    }
}

proof fn lemma_marked_injective(a: Seq<char>, m: nat, b: Seq<char>, n: nat)
    requires
        !a.contains('#'),
        !b.contains('#'),
        marked(a, m) == marked(b, n),
    ensures
        a == b,
        m == n,
{
    reveal_strlit("#");
    let x = marked(a, m);
    if m > 0 {
        assert(x[a.len() as int] == '#');
    }
    if n > 0 {
        assert(x[b.len() as int] == '#');
    }
    if m == 0 && n > 0 {
        assert(a.contains(a[b.len() as int]));
    } else if m > 0 && n == 0 {
        assert(b.contains(b[a.len() as int]));
    } else if m > 0 {
        if a.len() < b.len() {
            assert(x[a.len() as int] == b[a.len() as int]);
            assert(b.contains(b[a.len() as int]));
        }
        if b.len() < a.len() {
            assert(x[b.len() as int] == a[b.len() as int]);
            assert(a.contains(a[b.len() as int]));
        }
        assert(a =~= x.take(a.len() as int));
        assert(b =~= x.take(b.len() as int));
        assert(decimal(m) =~= x.skip(a.len() as int + 1));
        assert(decimal(n) =~= x.skip(b.len() as int + 1));
        lemma_decimal_injective(m, n);
    }
}

/// The name was given out for a path without a mark of its own.
spec fn given_out(r: RegistryModel, q: Seq<char>) -> bool {
    exists|b: Seq<char>, m: nat|
        !b.contains('#') && m < r.uses(b) && q == #[trigger] marked(b, m)
}

/// Different identities have different nodes, each name was given out, and no more than
/// `n` nodes and uses of a path were counted.
spec fn kept_apart(r: RegistryModel, n: nat) -> bool {
    &&& r.graph.nodes.len() <= n
    &&& forall|p: Seq<char>| #[trigger] r.uses(p) <= n
    &&& forall|k: NavKey| #[trigger]
        r.nodes.contains_key(k) ==> r.nodes[k].0 < r.graph.nodes.len()
    &&& forall|j: NavKey, k: NavKey|
        #![trigger r.nodes.contains_key(j), r.nodes.contains_key(k)]
        r.nodes.contains_key(j) && r.nodes.contains_key(k) && j != k ==> r.nodes[j] != r.nodes[k]
    &&& forall|q: Seq<char>| #[trigger] r.graph.names.contains_key(q) ==> given_out(r, q)
}

proof fn lemma_more_steps(r: RegistryModel, m: nat, n: nat)
    requires
        kept_apart(r, m),
        m <= n,
    ensures
        kept_apart(r, n),
{
    assert forall|p: Seq<char>| #[trigger] r.uses(p) <= n by {
        assert(r.uses(p) <= m);
    }
}

proof fn lemma_same_parts(r: RegistryModel, s: RegistryModel, n: nat)
    requires
        kept_apart(r, n),
        s.graph.nodes == r.graph.nodes,
        s.graph.names == r.graph.names,
        s.nodes == r.nodes,
        s.used == r.used,
    ensures
        kept_apart(s, n),
{
    assert forall|p: Seq<char>| #[trigger] s.uses(p) <= n by {
        assert(r.uses(p) <= n);
    }
    assert forall|q: Seq<char>| #[trigger] s.graph.names.contains_key(q) implies given_out(s, q) by {
        assert(given_out(r, q));
        let (b, m) = choose|b: Seq<char>, m: nat|
            !b.contains('#') && m < r.uses(b) && q == #[trigger] marked(b, m);
        assert(m < s.uses(b));
    }
}

proof fn lemma_definition_apart(
    r: RegistryModel,
    n: nat,
    key: NavKey,
    name: Seq<char>,
    home: Option<Seq<char>>,
    container: Option<Seq<char>>,
    kind: NodeKind,
    span: SourceSpan,
)
    requires
        kept_apart(r, n),
        n < u32::MAX,
        !qualified(home, container, name).contains('#'),
    ensures
        kept_apart(r.with_definition(key, name, home, container, kind, span), n + 1),
{
    let s = r.with_definition(key, name, home, container, kind, span);
    if r.nodes.contains_key(key) {
        lemma_more_steps(r, n, n + 1);
    } else {
        let path = qualified(home, container, name);
        let times = r.uses(path) as nat;
        let q = r.unique(path);
        assert(q == marked(path, times));
        assert(r.uses(path) <= n);
        if r.graph.names.contains_key(q) {
            assert(given_out(r, q));
            let (b, m) = choose|b: Seq<char>, m: nat|
                !b.contains('#') && m < r.uses(b) && q == #[trigger] marked(b, m);
            lemma_marked_injective(path, times, b, m);
            assert(false);
        }
        let id = NodeId(r.graph.nodes.len() as u32);
        assert(s.nodes == r.nodes.insert(key, id));
        assert(s.used == r.used.insert(path, (times + 1) as u32));
        assert forall|p: Seq<char>| #[trigger] s.uses(p) <= n + 1 by {
            assert(r.uses(p) <= n);
        }
        assert forall|k: NavKey| #[trigger] s.nodes.contains_key(k) implies s.nodes[k].0
            < s.graph.nodes.len() by {
            if k != key {
                assert(r.nodes.contains_key(k));
            }
        }
        assert forall|j: NavKey, k: NavKey|
            #![trigger s.nodes.contains_key(j), s.nodes.contains_key(k)]
            s.nodes.contains_key(j) && s.nodes.contains_key(k) && j != k implies s.nodes[j]
            != s.nodes[k] by {
            if j != key {
                assert(r.nodes.contains_key(j));
            }
            if k != key {
                assert(r.nodes.contains_key(k));
            }
        }
        assert forall|p: Seq<char>| #[trigger] s.graph.names.contains_key(p) implies given_out(
            s,
            p,
        ) by {
            if p == q {
                assert(times < s.uses(path));
                assert(p == marked(path, times));
            } else {
                assert(r.graph.names.contains_key(p));
                assert(given_out(r, p));
                let (b, m) = choose|b: Seq<char>, m: nat|
                    !b.contains('#') && m < r.uses(b) && p == #[trigger] marked(b, m);
                assert(m < s.uses(b));
            }
        }
    }
}

/// The path under which a call's target is entered holds no mark.
pub open spec fn plain_call(c: ResolvedModel) -> bool {
    !qualified(c.home, c.container, c.name).contains('#')
}

/// The paths under which an entry and the targets of its calls are entered hold no mark.
pub open spec fn plain_item(f: FileReportModel, i: int) -> bool {
    &&& !qualified(f.home, item_container(f.items, i), bare_name(f.items[i].label)).contains('#')
    &&& forall|j: int|
        0 <= j < f.items[i].calls.len() ==> plain_call(#[trigger] f.items[i].calls[j])
}

/// No path under which something of the file is entered holds a mark.
pub open spec fn plain_report(f: FileReportModel) -> bool {
    is_read(f) ==> forall|i: int|
        0 <= i < f.items.len() && f.items[i].callable ==> #[trigger] plain_item(f, i)
}

proof fn lemma_calls_apart(
    r: RegistryModel,
    n: nat,
    file: FileId,
    caller: NavKey,
    calls: Seq<ResolvedModel>,
)
    requires
        kept_apart(r, n),
        n + calls.len() <= u32::MAX,
        forall|j: int| 0 <= j < calls.len() ==> plain_call(#[trigger] calls[j]),
    ensures
        kept_apart(with_calls(r, file, caller, calls), n + calls.len()),
    decreases calls.len(),
{
    if calls.len() > 0 {
        let rest = calls.drop_last();
        let c = calls.last();
        assert forall|j: int| 0 <= j < rest.len() implies plain_call(#[trigger] rest[j]) by {
            assert(rest[j] == calls[j]);
        }
        assert(plain_call(calls[calls.len() - 1]));
        lemma_calls_apart(r, n, file, caller, rest);
        let a = with_calls(r, file, caller, rest);
        let m = n + rest.len();
        let key = (c.file.number, c.name_start, c.name_end);
        let b = with_target(a, c);
        if a.nodes.contains_key(key) {
            lemma_more_steps(a, m, m + 1);
        } else {
            let d = a.with_file(c.file);
            lemma_same_parts(a, d, m);
            lemma_definition_apart(
                d,
                m,
                key,
                c.name,
                c.home,
                c.container,
                if !c.local {
                    NodeKind::External
                } else if c.method {
                    NodeKind::Method
                } else {
                    NodeKind::Function
                },
                lines_in(a.file_id(c.file), c.lines),
            );
        }
        lemma_same_parts(b, with_call(a, file, caller, c), m + 1);
    }
}

proof fn lemma_items_apart(r: RegistryModel, n: nat, f: FileReportModel, k: nat)
    requires
        kept_apart(r, n),
        k <= f.items.len(),
        n + item_load(f.items.take(k as int)) <= u32::MAX,
        is_read(f),
        plain_report(f),
    ensures
        kept_apart(with_items(r, f, k), n + item_load(f.items.take(k as int))),
    decreases k,
{
    if k > 0 {
        let i = k - 1;
        let it = f.items[i];
        let m = n + item_load(f.items.take(i));
        assert(f.items.take(k as int).drop_last() =~= f.items.take(i));
        assert(f.items.take(k as int).last() == it);
        lemma_items_apart(r, n, f, i as nat);
        let s = with_items(r, f, i as nat);
        let full = n + item_load(f.items.take(k as int));
        if it.callable {
            assert(plain_item(f, i));
            let key = (f.file.number, it.name_start, it.name_end);
            lemma_definition_apart(
                s,
                m,
                key,
                bare_name(it.label),
                f.home,
                item_container(f.items, i),
                if it.method {
                    NodeKind::Method
                } else {
                    NodeKind::Function
                },
                lines_in(s.file_id(f.file), Some(it.lines)),
            );
            lemma_calls_apart(with_caller(s, f, i), m + 1, r.file_id(f.file), key, it.calls);
            lemma_more_steps(with_items(r, f, k), m + 1 + it.calls.len(), full);
        } else {
            lemma_more_steps(s, m, full);
        }
    } else {
        assert(f.items.take(0) =~= Seq::empty());
    }
}

proof fn lemma_reports_apart(files: Seq<FileReportModel>)
    requires
        report_load(files) <= u32::MAX,
        forall|i: int| 0 <= i < files.len() ==> plain_report(#[trigger] files[i]),
    ensures
        kept_apart(with_reports(files), report_load(files)),
    decreases files.len(),
{
    if files.len() > 0 {
        let rest = files.drop_last();
        let f = files.last();
        assert forall|i: int| 0 <= i < rest.len() implies plain_report(#[trigger] rest[i]) by {
            assert(rest[i] == files[i]);
        }
        assert(plain_report(files[files.len() - 1]));
        lemma_reports_apart(rest);
        let r = with_reports(rest);
        let n = report_load(rest);
        if is_read(f) {
            lemma_same_parts(r, r.with_file(f.file), n);
            assert(f.items.take(f.items.len() as int) =~= f.items);
            lemma_items_apart(r.with_file(f.file), n, f, f.items.len());
            lemma_more_steps(with_reports(files), n + item_load(f.items), report_load(files));
        } else {
            lemma_more_steps(r, n, report_load(files));
        }
    } else {
        assert forall|p: Seq<char>| #[trigger] RegistryModel::empty().uses(p) <= 0 by {}
    }
}

/// Two definitions are never merged, though they may have the same path: different
/// identities have different nodes. The names must be free of the sign that marks reused
/// paths.
pub proof fn law_definitions_are_never_merged(
    files: Seq<FileReportModel>,
    j: NavKey,
    k: NavKey,
)
    requires
        report_load(files) < u32::MAX,
        forall|i: int| 0 <= i < files.len() ==> plain_report(#[trigger] files[i]),
        with_reports(files).nodes.contains_key(j),
        with_reports(files).nodes.contains_key(k),
        j != k,
    ensures
        with_reports(files).nodes[j] != with_reports(files).nodes[k],
        with_reports(files).graph.has(with_reports(files).nodes[j]),
{
    lemma_reports_apart(files);
}

} // verus!
