//! Linking: from what the files hold to one call graph.
//!
//! The definitions of all files are entered first, so that a call finds its target
//! in whatever file it stands. Then every call is linked to a definition by its
//! name, or to a placeholder for an unresolved target.

use crate::fragment::{CallKind, CallModel, RawCall};
use crate::graph::{
    external_node, CodeGraph, Edge, EdgeKind, GraphModel, Node, NodeKind, NodeModel, SourceSpan,
};
use crate::ids::{FileId, NodeId};
use crate::lang::Lang;
use crate::seqs::{first_where, lemma_first_from, lemma_push_has, views_of};
use crate::text::{
    before_first, contains, cut_before_first, ends_with, has_suffix, has_text, same, split,
    split_text, views,
};
use crate::walk::{CallSite, DefModel, FileUnit, SiteModel, UnitModel};
use vstd::hash_map::StringHashMap;
use vstd::prelude::*;

verus! {

// -- definitions ------------------------------------------------------------------

/// The span in the file.
pub open spec fn in_file(span: SourceSpan, file: FileId) -> SourceSpan {
    SourceSpan { file: file.0, ..span }
}

/// A graph while it is filled, with the names by which its definitions are found.
#[verifier::ext_equal]
pub struct LinkModel {
    pub graph: GraphModel,
    pub names: Seq<(Seq<char>, NodeId)>,
}

pub open spec fn with_def(s: LinkModel, file: FileId, d: DefModel) -> LinkModel {
    let node = NodeModel { span: in_file(d.node.span, file), ..d.node };
    LinkModel {
        graph: s.graph.with_node(node),
        names: s.names.push((d.key, s.graph.node_id_for(node))),
    }
}

pub open spec fn with_defs(s: LinkModel, file: FileId, defs: Seq<DefModel>) -> LinkModel
    decreases defs.len(),
{
    if defs.len() == 0 {
        s
    } else {
        with_def(with_defs(s, file, defs.drop_last()), file, defs.last())
    }
}

/// The definitions of all files entered one after another.
pub open spec fn all_defs(units: Seq<UnitModel>) -> LinkModel
    decreases units.len(),
{
    if units.len() == 0 {
        LinkModel { graph: GraphModel::empty(), names: Seq::empty() }
    } else {
        let s = all_defs(units.drop_last());
        let u = units.last();
        with_defs(
            LinkModel { graph: s.graph.with_file(u.path), names: s.names },
            s.graph.file_id(u.path),
            u.defs,
        )
    }
}

// -- targets ------------------------------------------------------------------------

/// A segment that says only where to start, not what to look in.
pub open spec fn is_relative(s: Seq<char>) -> bool {
    s == "self"@ || s == "Self"@ || s == "super"@ || s == "crate"@
}

/// The segments before the last one, without generic arguments.
pub open spec fn qualifiers(path: Seq<char>) -> Seq<Seq<char>> {
    split(path, "::"@).drop_last().filter(|s: Seq<char>| s.len() > 0 && s[0] != '<')
}

/// The type or module that a path names right before its last segment, if any.
pub open spec fn qualifier(path: Seq<char>) -> Option<Seq<char>> {
    let q = qualifiers(path);
    if q.len() == 0 || is_relative(q.last()) {
        None
    } else {
        Some(q.last())
    }
}

/// A definition stands in the type, module or crate that the path names, directly or
/// further in: a path may go through where a function is exported again.
pub open spec fn qualifier_fits(path: Seq<char>, n: NodeModel) -> bool {
    match qualifier(path) {
        Some(q) => split(n.module, "::"@).contains(q),
        None => true,
    }
}

/// How closely a definition has to match a call.
pub enum Closeness {
    /// It stands in the module of the caller.
    Module,
    /// Its qualified name ends with the path as written.
    Path,
    /// It stands in the crate of the caller.
    Home,
    /// It has the name.
    Name,
}

/// Definition `i` may be what the call means, and is as close as asked.
pub open spec fn candidate(
    lang: Lang,
    s: LinkModel,
    call: CallModel,
    module: Seq<char>,
    c: Closeness,
) -> spec_fn(int) -> bool {
    |i: int|
        {
            let n = s.graph.nodes[i];
            &&& s.names.contains((call.short, NodeId(i as u32)))
            &&& lang == Lang::Rust ==> qualifier_fits(call.path, n)
            &&& match c {
                Closeness::Module => n.module == module,
                Closeness::Path => ends_with(n.qualified_name, call.path),
                Closeness::Home => before_first(n.qualified_name, "::"@) == before_first(
                    module,
                    "::"@,
                ),
                Closeness::Name => true,
            }
        }
}

/// The first definition that is as close as asked.
pub open spec fn closest(
    lang: Lang,
    s: LinkModel,
    call: CallModel,
    module: Seq<char>,
    c: Closeness,
) -> Option<NodeId> {
    match first_where(s.graph.nodes.len() as int, candidate(lang, s, call, module, c)) {
        Some(i) => Some(NodeId(i as u32)),
        None => None,
    }
}

/// The definition that a call means, if there is one. In the caller's module it is
/// preferred; in Rust, a path is taken as a qualified name if it is one, what it
/// names before the last segment has to match, and a definition whose name ends
/// with the path or that stands in the caller's crate is preferred to others.
pub open spec fn definition_for(
    lang: Lang,
    s: LinkModel,
    call: CallModel,
    module: Seq<char>,
) -> Option<NodeId> {
    let exact = lang == Lang::Rust && contains(call.path, "::"@);
    if exact && s.graph.names.contains_key(call.path) {
        Some(s.graph.names[call.path])
    } else if closest(lang, s, call, module, Closeness::Module) is Some {
        closest(lang, s, call, module, Closeness::Module)
    } else if exact && closest(lang, s, call, module, Closeness::Path) is Some {
        closest(lang, s, call, module, Closeness::Path)
    } else if lang == Lang::Rust && closest(lang, s, call, module, Closeness::Home) is Some {
        closest(lang, s, call, module, Closeness::Home)
    } else {
        closest(lang, s, call, module, Closeness::Name)
    }
}

/// The name of the placeholder for a call that means no definition.
pub open spec fn placeholder_name(lang: Lang, call: CallModel) -> Seq<char> {
    if lang == Lang::Rust && call.path.len() > 0 {
        call.path
    } else {
        call.short
    }
}

/// The graph in which the target of a call is present.
pub open spec fn with_target(lang: Lang, s: LinkModel, call: CallModel, module: Seq<char>) -> GraphModel {
    match definition_for(lang, s, call, module) {
        Some(id) => s.graph,
        None => s.graph.with_node(external_node(placeholder_name(lang, call))),
    }
}

/// The target of a call.
pub open spec fn target_of(lang: Lang, s: LinkModel, call: CallModel, module: Seq<char>) -> NodeId {
    match definition_for(lang, s, call, module) {
        Some(id) => id,
        None => s.graph.node_id_for(external_node(placeholder_name(lang, call))),
    }
}

pub open spec fn edge_kind(kind: CallKind) -> EdgeKind {
    match kind {
        CallKind::Direct => EdgeKind::DirectCall,
        CallKind::Method => EdgeKind::MethodCall,
        CallKind::Associated => EdgeKind::AssociatedCall,
        CallKind::Macro => EdgeKind::MacroCall,
    }
}

/// The module from which a call is made: for Rust, that of the caller.
pub open spec fn calling_module(lang: Lang, g: GraphModel, site: SiteModel) -> Seq<char> {
    if lang == Lang::Rust {
        g.node(g.names[site.call.caller]).module
    } else {
        site.module
    }
}

/// The graph with a call linked. Calls of unknown callers are left out; a call of a
/// placeholder is unresolved.
pub open spec fn with_call(lang: Lang, s: LinkModel, file: FileId, site: SiteModel) -> LinkModel {
    let g = s.graph;
    if !g.names.contains_key(site.call.caller) {
        s
    } else {
        let caller = g.names[site.call.caller];
        let module = calling_module(lang, g, site);
        let target = target_of(lang, s, site.call, module);
        let h = with_target(lang, s, site.call, module);
        let kind = if h.node(target).kind == NodeKind::External {
            EdgeKind::Unresolved
        } else {
            edge_kind(site.call.kind)
        };
        LinkModel {
            graph: h.with_edge(
                caller,
                target,
                Edge { kind, call_site: in_file(site.call.call_site, file), count: 1 },
            ),
            names: s.names,
        }
    }
}

pub open spec fn with_calls(lang: Lang, s: LinkModel, file: FileId, calls: Seq<SiteModel>) -> LinkModel
    decreases calls.len(),
{
    if calls.len() == 0 {
        s
    } else {
        with_call(lang, with_calls(lang, s, file, calls.drop_last()), file, calls.last())
    }
}

/// The calls of all files linked one after another.
pub open spec fn all_calls(lang: Lang, s: LinkModel, units: Seq<UnitModel>) -> LinkModel
    decreases units.len(),
{
    if units.len() == 0 {
        s
    } else {
        let r = all_calls(lang, s, units.drop_last());
        let u = units.last();
        with_calls(lang, r, r.graph.file_id(u.path), u.calls)
    }
}

/// The call graph of the files.
pub open spec fn linked(lang: Lang, units: Seq<UnitModel>) -> GraphModel {
    all_calls(lang, all_defs(units), units).graph
}

// -- sizes --------------------------------------------------------------------------

/// The number of definitions.
pub open spec fn def_total(units: Seq<UnitModel>) -> nat
    decreases units.len(),
{
    if units.len() == 0 {
        0
    } else {
        def_total(units.drop_last()) + units.last().defs.len()
    }
}

/// The number of calls.
pub open spec fn call_total(units: Seq<UnitModel>) -> nat
    decreases units.len(),
{
    if units.len() == 0 {
        0
    } else {
        call_total(units.drop_last()) + units.last().calls.len()
    }
}

/// The files, definitions and calls can be numbered with 32 bits, and every
/// definition is valid.
pub open spec fn linkable(units: Seq<UnitModel>) -> bool {
    &&& units.len() < u32::MAX
    &&& def_total(units) + call_total(units) < u32::MAX
    &&& forall|i: int, j: int|
        0 <= i < units.len() && 0 <= j < units[i].defs.len() ==> (
        #[trigger] units[i].defs[j]).node.valid()
}

proof fn lemma_totals(units: Seq<UnitModel>, k: int)
    requires
        0 <= k <= units.len(),
    ensures
        def_total(units.take(k)) <= def_total(units),
        call_total(units.take(k)) <= call_total(units),
        k < units.len() ==> def_total(units.take(k + 1)) == def_total(units.take(k))
            + units[k].defs.len(),
        k < units.len() ==> call_total(units.take(k + 1)) == call_total(units.take(k))
            + units[k].calls.len(),
    decreases units.len(),
{
    if k < units.len() {
        let front = units.drop_last();
        lemma_totals(front, k);
        assert(front.take(k) =~= units.take(k));
        assert(units.take(k + 1).drop_last() =~= units.take(k));
        assert(units.take(k + 1).last() == units[k]);
    } else {
        assert(units.take(k) =~= units);
    }
}

// -- the table ----------------------------------------------------------------------

/// The names of the definitions, for lookup.
struct Table {
    by_name: StringHashMap<Vec<NodeId>>,
}

spec fn table_ok(t: Table, names: Seq<(Seq<char>, NodeId)>) -> bool {
    forall|k: Seq<char>, id: NodeId|
        (t.by_name@.contains_key(k) && t.by_name@[k]@.contains(id)) <==> #[trigger] names.contains(
            (k, id),
        )
}

impl Table {
    fn enter(&mut self, key: &str, id: NodeId, Ghost(names): Ghost<Seq<(Seq<char>, NodeId)>>)
        requires
            table_ok(*old(self), names),
        ensures
            table_ok(*final(self), names.push((key@, id))),
    {
        let mut ids: Vec<NodeId> = Vec::new();
        let ghost before = self.by_name@;
        if let Some(known) = self.by_name.get(key) {
            let mut i: usize = 0;
            while i < known.len()
                invariant
                    i <= known@.len(),
                    ids@ =~= known@.take(i as int),
                decreases known@.len() - i,
            {
                ids.push(known[i]);
                i += 1;
            }
            assert(known@.take(known@.len() as int) =~= known@);
        }
        let ghost had = ids@;
        ids.push(id);
        let ghost listed = ids@;
        self.by_name.insert(key.to_owned(), ids);
        proof {
            lemma_push_has(had, id);
            lemma_push_has(names, (key@, id));
            assert forall|k: Seq<char>, x: NodeId|
                (self.by_name@.contains_key(k) && self.by_name@[k]@.contains(x))
                    <==> #[trigger] names.push((key@, id)).contains((k, x)) by {
                assert(names.contains((k, x)) <==> before.contains_key(k) && before[k]@.contains(
                    x,
                ));
                if k == key@ {
                    assert(self.by_name@[k]@ == listed);
                    assert(listed.contains(x) <==> had.contains(x) || x == id);
                    assert(had.contains(x) <==> before.contains_key(k) && before[k]@.contains(x));
                }
            }
        }
    }
}

// -- linking ------------------------------------------------------------------------

fn qualifier_of(path: &str) -> (r: Option<String>)
    ensures
        match r {
            Some(q) => qualifier(path@) == Some(q@),
            None => qualifier(path@) is None,
        },
{
    proof {
        reveal_strlit("::");
    }
    let segs = split_text(path, "::");
    let ghost all = views(segs@).drop_last();
    let ghost keep = |s: Seq<char>| s.len() > 0 && s[0] != '<';
    let mut last: Option<usize> = None;
    let mut i: usize = 0;
    proof {
        reveal(Seq::filter);
        assert(all.take(0) =~= Seq::empty());
    }
    while i < segs.len() - 1
        invariant
            segs@.len() > 0,
            i <= segs@.len() - 1,
            all == views(segs@).drop_last(),
            keep == (|s: Seq<char>| s.len() > 0 && s[0] != '<'),
            match last {
                Some(k) => k < i && all.take(i as int).filter(keep).len() > 0 && all.take(
                    i as int,
                ).filter(keep).last() == segs@[k as int]@,
                None => all.take(i as int).filter(keep).len() == 0,
            },
        decreases segs@.len() - i,
    {
        let s = &segs[i];
        proof {
            reveal(Seq::filter);
            assert(all.take(i + 1).drop_last() =~= all.take(i as int));
            assert(all.take(i + 1).last() == s@);
            reveal_strlit("<");
            crate::text::lemma_contains(s@, "<"@);
        }
        if !s.as_str().is_empty() {
            let first: char = crate::text::chars_of(s.as_str())[0];
            if first != '<' {
                last = Some(i);
            }
        }
        i += 1;
    }
    assert(all.take(all.len() as int) =~= all);
    match last {
        Some(k) => {
            let q = &segs[k];
            if same(q.as_str(), "self") || same(q.as_str(), "Self") || same(q.as_str(), "super")
                || same(q.as_str(), "crate") {
                None
            } else {
                Some(q.clone())
            }
        },
        None => None,
    }
}

/// Whether a module path has the segment `q`.
fn stands_in(module: &str, q: &str) -> (r: bool)
    ensures
        r == split(module@, "::"@).contains(q@),
{
    proof {
        reveal_strlit("::");
    }
    let segs = split_text(module, "::");
    let ghost all = views(segs@);
    let mut i: usize = 0;
    while i < segs.len()
        invariant
            i <= segs@.len(),
            all == views(segs@),
            all == split(module@, "::"@),
            forall|j: int| 0 <= j < i ==> all[j] != q@,
        decreases segs@.len() - i,
    {
        if same(segs[i].as_str(), q) {
            assert(all[i as int] == q@);
            return true;
        }
        i += 1;
    }
    false
}

/// Whether a definition may be what the call means, and is as close as asked.
fn meets(
    lang: Lang,
    n: &Node,
    call: &RawCall,
    qualifier: &Option<String>,
    module: &str,
    c: &Closeness,
) -> (r: bool)
    requires
        match *qualifier {
            Some(q) => crate::link::qualifier(call@.path) == Some(q@),
            None => crate::link::qualifier(call@.path) is None,
        },
    ensures
        r == ((lang == Lang::Rust ==> qualifier_fits(call@.path, n@)) && match *c {
            Closeness::Module => n@.module == module@,
            Closeness::Path => ends_with(n@.qualified_name, call@.path),
            Closeness::Home => before_first(n@.qualified_name, "::"@) == before_first(
                module@,
                "::"@,
            ),
            Closeness::Name => true,
        }),
{
    if lang == Lang::Rust {
        if let Some(q) = qualifier {
            if !stands_in(n.module.as_str(), q.as_str()) {
                return false;
            }
        }
    }
    match c {
        Closeness::Module => same(n.module.as_str(), module),
        Closeness::Path => has_suffix(n.qualified_name.as_str(), call.path.as_str()),
        Closeness::Home => same(
            cut_before_first(n.qualified_name.as_str(), "::").as_str(),
            cut_before_first(module, "::").as_str(),
        ),
        Closeness::Name => true,
    }
}

/// The first definition that is as close as asked.
fn find_closest(
    lang: Lang,
    graph: &CodeGraph,
    table: &Table,
    call: &RawCall,
    qualifier: &Option<String>,
    module: &str,
    c: Closeness,
    Ghost(names): Ghost<Seq<(Seq<char>, NodeId)>>,
) -> (r: Option<NodeId>)
    requires
        graph.wf(),
        table_ok(*table, names),
        forall|k: int| 0 <= k < names.len() ==> graph@.has((#[trigger] names[k]).1),
        match *qualifier {
            Some(q) => crate::link::qualifier(call@.path) == Some(q@),
            None => crate::link::qualifier(call@.path) is None,
        },
    ensures
        r == closest(lang, LinkModel { graph: graph@, names }, call@, module@, c),
{
    let ghost s = LinkModel { graph: graph@, names };
    let ghost f = candidate(lang, s, call@, module@, c);
    let mut best: Option<NodeId> = None;
    proof {
        graph.lemma_wf();
        lemma_first_from(graph@.nodes.len() as int, f, 0);
    }
    match table.by_name.get(call.short.as_str()) {
        None => {
            proof {
                let first = first_where(graph@.nodes.len() as int, f);
                if first is Some {
                    assert(names.contains((call@.short, NodeId(first->0 as u32))));
                }
            }
        },
        Some(ids) => {
            let mut i: usize = 0;
            while i < ids.len()
                invariant
                    graph.wf(),
                    table_ok(*table, names),
                    table.by_name@.contains_key(call@.short),
                    *ids == table.by_name@[call@.short],
                    forall|k: int| 0 <= k < names.len() ==> graph@.has((#[trigger] names[k]).1),
                    match *qualifier {
                        Some(q) => crate::link::qualifier(call@.path) == Some(q@),
                        None => crate::link::qualifier(call@.path) is None,
                    },
                    s == (LinkModel { graph: graph@, names }),
                    f == candidate(lang, s, call@, module@, c),
                    i <= ids@.len(),
                    match best {
                        Some(b) => graph@.has(b) && f(b.0 as int) && forall|j: int|
                            0 <= j < i && f((#[trigger] ids@[j]).0 as int) ==> b.0 <= ids@[j].0,
                        None => forall|j: int| 0 <= j < i ==> !f((#[trigger] ids@[j]).0 as int),
                    },
                decreases ids@.len() - i,
            {
                let id = ids[i];
                proof {
                    assert(ids@.contains(id));
                    assert(names.contains((call@.short, id)));
                    let k = names.index_of((call@.short, id));
                    assert(graph@.has(names[k].1));
                }
                let ok = meets(lang, graph.node(id), call, qualifier, module, &c);
                assert(ok == f(id.0 as int));
                if ok {
                    let better = match best {
                        Some(b) => id.0 < b.0,
                        None => true,
                    };
                    if better {
                        best = Some(id);
                    }
                }
                i += 1;
            }
            proof {
                let n = graph@.nodes.len() as int;
                let first = first_where(n, f);
                assert forall|k: int| 0 <= k < n && #[trigger] f(k) implies best is Some
                    && (best->0).0 <= k by {
                    let id = NodeId(k as u32);
                    assert(names.contains((call@.short, id)));
                    assert(ids@.contains(id));
                    let j = ids@.index_of(id);
                    assert(f(ids@[j].0 as int));
                }
                match best {
                    Some(b) => {
                        assert(f(b.0 as int));
                        assert(first is Some);
                        assert(f(first->0));
                    },
                    None => {
                        if first is Some {
                            assert(f(first->0));
                        }
                    },
                }
            }
        },
    }
    best
}

/// The definition that a call means, if there is one.
fn find_definition(
    lang: Lang,
    graph: &CodeGraph,
    table: &Table,
    call: &RawCall,
    module: &str,
    Ghost(names): Ghost<Seq<(Seq<char>, NodeId)>>,
) -> (r: Option<NodeId>)
    requires
        graph.wf(),
        table_ok(*table, names),
        forall|k: int| 0 <= k < names.len() ==> graph@.has((#[trigger] names[k]).1),
    ensures
        r == definition_for(lang, LinkModel { graph: graph@, names }, call@, module@),
{
    let exact = lang == Lang::Rust && has_text(call.path.as_str(), "::");
    if exact {
        if let Some(id) = graph.node_by_qualified(call.path.as_str()) {
            return Some(id);
        }
    }
    let q = qualifier_of(call.path.as_str());
    if let Some(id) = find_closest(
        lang,
        graph,
        table,
        call,
        &q,
        module,
        Closeness::Module,
        Ghost(names),
    ) {
        return Some(id);
    }
    if exact {
        if let Some(id) = find_closest(
            lang,
            graph,
            table,
            call,
            &q,
            module,
            Closeness::Path,
            Ghost(names),
        ) {
            return Some(id);
        }
    }
    if lang == Lang::Rust {
        if let Some(id) = find_closest(
            lang,
            graph,
            table,
            call,
            &q,
            module,
            Closeness::Home,
            Ghost(names),
        ) {
            return Some(id);
        }
    }
    find_closest(lang, graph, table, call, &q, module, Closeness::Name, Ghost(names))
}

fn edge_kind_of(kind: CallKind) -> (r: EdgeKind)
    ensures
        r == edge_kind(kind),
{
    match kind {
        CallKind::Direct => EdgeKind::DirectCall,
        CallKind::Method => EdgeKind::MethodCall,
        CallKind::Associated => EdgeKind::AssociatedCall,
        CallKind::Macro => EdgeKind::MacroCall,
    }
}

spec fn names_ok(g: GraphModel, names: Seq<(Seq<char>, NodeId)>) -> bool {
    forall|k: int| 0 <= k < names.len() ==> g.has((#[trigger] names[k]).1)
}

/// What a definition changes about the sizes.
proof fn lemma_with_node_size(g: GraphModel, n: NodeModel)
    requires
        g.wf(),
        g.nodes.len() < u32::MAX,
    ensures
        g.nodes.len() <= g.with_node(n).nodes.len() <= g.nodes.len() + 1,
        g.with_node(n).edges == g.edges,
        g.with_node(n).files == g.files,
        g.with_node(n).has(g.node_id_for(n)),
{
}

proof fn lemma_with_edge_size(g: GraphModel, a: NodeId, b: NodeId, e: Edge)
    requires
        g.wf(),
    ensures
        g.with_edge(a, b, e).nodes == g.nodes,
        g.with_edge(a, b, e).names == g.names,
        g.with_edge(a, b, e).edges.len() <= g.edges.len() + 1,
{
}

/// Link one call.
fn link_call(
    lang: Lang,
    graph: &mut CodeGraph,
    table: &Table,
    file: FileId,
    site: &CallSite,
    Ghost(names): Ghost<Seq<(Seq<char>, NodeId)>>,
)
    requires
        old(graph).wf(),
        table_ok(*table, names),
        names_ok(old(graph)@, names),
        old(graph)@.nodes.len() < u32::MAX,
        old(graph)@.edges.len() < u32::MAX,
    ensures
        final(graph).wf(),
        names_ok(final(graph)@, names),
        final(graph)@ == with_call(
            lang,
            LinkModel { graph: old(graph)@, names },
            file,
            site@,
        ).graph,
        final(graph)@.nodes.len() <= old(graph)@.nodes.len() + 1,
        final(graph)@.edges.len() <= old(graph)@.edges.len() + 1,
        final(graph)@.files == old(graph)@.files,
        final(graph)@.file_ids == old(graph)@.file_ids,
{
    let ghost g = graph@;
    let ghost s = LinkModel { graph: g, names };
    let call = &site.call;
    proof {
        graph.lemma_wf();
    }
    let caller = match graph.node_by_qualified(call.caller.as_str()) {
        Some(id) => id,
        None => {
            return;
        },
    };
    assert(g.has(caller));
    let module = if lang == Lang::Rust {
        graph.node(caller).module.clone()
    } else {
        site.module.clone()
    };
    let target = match find_definition(lang, graph, table, call, module.as_str(), Ghost(names)) {
        Some(id) => {
            proof {
                lemma_definition_has(lang, s, call@, module@);
            }
            id
        },
        None => {
            let key = if lang == Lang::Rust && !call.path.as_str().is_empty() {
                call.path.clone()
            } else {
                call.short.clone()
            };
            proof {
                lemma_with_node_size(g, external_node(key@));
            }
            graph.add_node(Node::external(key.as_str()))
        },
    };
    let ghost h = graph@;
    let kind = if graph.node(target).kind == NodeKind::External {
        EdgeKind::Unresolved
    } else {
        edge_kind_of(call.kind)
    };
    let mut call_site = call.call_site;
    call_site.file = file.0;
    proof {
        lemma_with_edge_size(h, caller, target, Edge { kind, call_site, count: 1 });
    }
    graph.add_edge(caller, target, Edge::new(kind, call_site));
}

proof fn lemma_definition_has(lang: Lang, s: LinkModel, call: CallModel, module: Seq<char>)
    requires
        s.graph.wf(),
        definition_for(lang, s, call, module) is Some,
    ensures
        s.graph.has(definition_for(lang, s, call, module)->0),
{
    let n = s.graph.nodes.len() as int;
    lemma_first_from(n, candidate(lang, s, call, module, Closeness::Module), 0);
    lemma_first_from(n, candidate(lang, s, call, module, Closeness::Path), 0);
    lemma_first_from(n, candidate(lang, s, call, module, Closeness::Home), 0);
    lemma_first_from(n, candidate(lang, s, call, module, Closeness::Name), 0);
}

/// Link the calls of one file.
fn link_file(
    lang: Lang,
    graph: &mut CodeGraph,
    table: &Table,
    file: FileId,
    calls: &Vec<CallSite>,
    Ghost(names): Ghost<Seq<(Seq<char>, NodeId)>>,
)
    requires
        old(graph).wf(),
        table_ok(*table, names),
        names_ok(old(graph)@, names),
        old(graph)@.nodes.len() + calls@.len() < u32::MAX,
        old(graph)@.edges.len() + calls@.len() < u32::MAX,
    ensures
        final(graph).wf(),
        names_ok(final(graph)@, names),
        (LinkModel { graph: final(graph)@, names }) == with_calls(
            lang,
            LinkModel { graph: old(graph)@, names },
            file,
            views_of(calls@),
        ),
        final(graph)@.nodes.len() <= old(graph)@.nodes.len() + calls@.len(),
        final(graph)@.edges.len() <= old(graph)@.edges.len() + calls@.len(),
        final(graph)@.files == old(graph)@.files,
        final(graph)@.file_ids == old(graph)@.file_ids,
{
    let ghost start = LinkModel { graph: graph@, names };
    let ghost cs = views_of(calls@);
    let mut j: usize = 0;
    assert(cs.take(0) =~= Seq::empty());
    while j < calls.len()
        invariant
            cs == views_of(calls@),
            j <= calls@.len(),
            graph.wf(),
            table_ok(*table, names),
            names_ok(graph@, names),
            (LinkModel { graph: graph@, names }) == with_calls(
                lang,
                start,
                file,
                cs.take(j as int),
            ),
            graph@.nodes.len() <= start.graph.nodes.len() + j,
            graph@.edges.len() <= start.graph.edges.len() + j,
            start.graph.nodes.len() + calls@.len() < u32::MAX,
            start.graph.edges.len() + calls@.len() < u32::MAX,
            graph@.file_ids == start.graph.file_ids,
            graph@.files == start.graph.files,
        decreases calls@.len() - j,
    {
        proof {
            assert(cs[j as int] == calls@[j as int]@);
            assert(cs.take(j + 1).drop_last() =~= cs.take(j as int));
            assert(cs.take(j + 1).last() == calls@[j as int]@);
        }
        let ghost before = LinkModel { graph: graph@, names };
        link_call(lang, graph, table, file, &calls[j], Ghost(names));
        assert((LinkModel { graph: graph@, names }) =~= with_call(
            lang,
            before,
            file,
            calls@[j as int]@,
        ));
        j += 1;
    }
    assert(cs.take(cs.len() as int) =~= cs);
}

/// Link what the files hold into one call graph.
pub fn link_units(lang: Lang, units: &Vec<FileUnit>) -> (r: CodeGraph)
    requires
        linkable(views_of(units@)),
    ensures
        r.wf(),
        r@ == linked(lang, views_of(units@)),
{
    let ghost us = views_of(units@);
    let mut graph = CodeGraph::new();
    let mut table = Table { by_name: StringHashMap::new() };
    let ghost mut names: Seq<(Seq<char>, NodeId)> = Seq::empty();
    let mut i: usize = 0;
    assert(us.take(0) =~= Seq::empty());
    while i < units.len()
        invariant
            us == views_of(units@),
            linkable(us),
            i <= units@.len(),
            graph.wf(),
            table_ok(table, names),
            names_ok(graph@, names),
            (LinkModel { graph: graph@, names }) == all_defs(us.take(i as int)),
            graph@.nodes.len() <= def_total(us.take(i as int)),
            graph@.edges.len() == 0,
            graph@.files.len() <= i,
        decreases units@.len() - i,
    {
        let u = &units[i];
        let ghost prior = graph@;
        proof {
            assert(us[i as int] == u@);
            lemma_totals(us, i as int);
            lemma_totals(us, i + 1);
            assert(us.take(i + 1).drop_last() =~= us.take(i as int));
            assert(us.take(i + 1).last() == u@);
        }
        let file = graph.intern_file(u.path.as_str());
        let ghost base = LinkModel { graph: graph@, names };
        let mut j: usize = 0;
        assert(views_of(u.defs@).take(0) =~= Seq::empty());
        while j < u.defs.len()
            invariant
                us == views_of(units@),
                linkable(us),
                i < units@.len(),
                us[i as int] == u@,
                j <= u.defs@.len(),
                graph.wf(),
                table_ok(table, names),
                names_ok(graph@, names),
                (LinkModel { graph: graph@, names }) == with_defs(
                    base,
                    file,
                    views_of(u.defs@).take(j as int),
                ),
                graph@.nodes.len() <= def_total(us.take(i as int)) + j,
                def_total(us.take(i as int)) + u.defs@.len() <= def_total(us),
                graph@.edges.len() == 0,
                graph@.files.len() <= i + 1,
            decreases u.defs@.len() - j,
        {
            let d = &u.defs[j];
            let ghost ds = views_of(u.defs@);
            let ghost before = graph@;
            proof {
                assert(ds[j as int] == d@);
                assert(us[i as int].defs[j as int].node.valid());
                assert(ds.take(j + 1).drop_last() =~= ds.take(j as int));
                assert(ds.take(j + 1).last() == d@);
            }
            let mut node = d.node.clone();
            node.span.file = file.0;
            proof {
                graph.lemma_wf();
                lemma_with_node_size(before, node@);
            }
            let id = graph.add_node(node);
            table.enter(d.key.as_str(), id, Ghost(names));
            proof {
                names = names.push((d@.key, id));
            }
            j += 1;
        }
        proof {
            assert(views_of(u.defs@).take(u.defs@.len() as int) =~= views_of(u.defs@));
        }
        i += 1;
    }
    assert(us.take(us.len() as int) =~= us);
    let ghost filled = LinkModel { graph: graph@, names };
    let mut k: usize = 0;
    proof {
        lemma_files_known(us);
    }
    while k < units.len()
        invariant
            us == views_of(units@),
            linkable(us),
            k <= units@.len(),
            filled == all_defs(us),
            filled.names == names,
            graph.wf(),
            table_ok(table, names),
            names_ok(graph@, names),
            (LinkModel { graph: graph@, names }) == all_calls(lang, filled, us.take(k as int)),
            graph@.nodes.len() <= def_total(us) + call_total(us.take(k as int)),
            graph@.edges.len() <= call_total(us.take(k as int)),
            graph@.file_ids == filled.graph.file_ids,
            graph@.files.len() <= units@.len(),
            forall|m: int|
                0 <= m < us.len() ==> filled.graph.has_file((#[trigger] us[m]).path),
        decreases units@.len() - k,
    {
        let u = &units[k];
        proof {
            assert(us[k as int] == u@);
            lemma_totals(us, k as int);
            lemma_totals(us, k + 1);
            assert(us.take(k + 1).drop_last() =~= us.take(k as int));
            assert(us.take(k + 1).last() == u@);
            assert(us.take(us.len() as int) =~= us);
        }
        let file = graph.intern_file(u.path.as_str());
        link_file(lang, &mut graph, &table, file, &u.calls, Ghost(names));
        k += 1;
    }
    assert(us.take(us.len() as int) =~= us);
    graph
}

/// Every file of the units is in the file table once the definitions are entered.
proof fn lemma_files_known(units: Seq<UnitModel>)
    ensures
        forall|m: int|
            0 <= m < units.len() ==> all_defs(units).graph.has_file(
                (#[trigger] units[m]).path,
            ),
    decreases units.len(),
{
    if units.len() > 0 {
        let front = units.drop_last();
        lemma_files_known(front);
        let s = all_defs(front);
        let u = units.last();
        let base = LinkModel { graph: s.graph.with_file(u.path), names: s.names };
        lemma_defs_keep_files(base, s.graph.file_id(u.path), u.defs);
        assert forall|m: int| 0 <= m < units.len() implies all_defs(
            units,
        ).graph.has_file((#[trigger] units[m]).path) by {
            if m < front.len() {
                assert(front[m] == units[m]);
            }
        }
    }
}

proof fn lemma_defs_keep_files(s: LinkModel, file: FileId, defs: Seq<DefModel>)
    ensures
        with_defs(s, file, defs).graph.file_ids == s.graph.file_ids,
    decreases defs.len(),
{
    if defs.len() > 0 {
        lemma_defs_keep_files(s, file, defs.drop_last());
    }
}

} // verus!
