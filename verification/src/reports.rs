//! What becomes of the calls that a semantic backend reports, and how the labels of its
//! entries name definitions.

use crate::graph::{Edge, EdgeExport, EdgeKind, GraphModel, NodeKind};
use crate::ids::{FileId, NodeId};
use crate::resolve::{closes, lemma_closes};
use crate::semantic::{
    bare_name, container_name, prefix_end, with_call, with_caller, with_calls, with_items,
    with_report, with_reports, with_target, without_impl, FileReportModel, ItemModel, NavKey,
    RegistryModel, ResolvedModel,
};
use crate::text::{is_white, occurs_at, trimmed, trimmed_end, trimmed_start};
use vstd::prelude::*;

verus! {

// -- calls ----------------------------------------------------------------------------

/// The file is read: it was asked for, belongs to the workspace and is a Rust file.
pub open spec fn read(f: FileReportModel) -> bool {
    f.wanted && f.local && (f.file.path matches Some(p) && closes(p, ".rs"@))
}

/// The identity of entry `i` of a file.
pub open spec fn entry_key(f: FileReportModel, i: int) -> NavKey {
    (f.file.number, f.items[i].name_start, f.items[i].name_end)
}

/// The identity of what a call leads to.
pub open spec fn target_key(c: ResolvedModel) -> NavKey {
    (c.file.number, c.name_start, c.name_end)
}

/// There is an edge of the kind from `a` to `b`.
pub open spec fn edge_between(g: GraphModel, a: NodeId, b: NodeId, kind: EdgeKind) -> bool {
    exists|k: int|
        0 <= k < g.edges.len() && (#[trigger] g.edges[k]).from == a && g.edges[k].to == b
            && g.edges[k].kind == kind
}

/// The call has been recorded: from its caller to its target, by its kind.
pub open spec fn recorded(r: RegistryModel, caller: NavKey, c: ResolvedModel) -> bool {
    &&& r.nodes.contains_key(caller)
    &&& r.nodes.contains_key(target_key(c))
    &&& edge_between(
        r.graph,
        r.nodes[caller],
        r.nodes[target_key(c)],
        if c.method {
            EdgeKind::MethodCall
        } else {
            EdgeKind::DirectCall
        },
    )
}

/// How many call sites a call stands for.
pub open spec fn sites(c: ResolvedModel) -> int {
    if c.sites == 0 {
        1
    } else {
        c.sites as int
    }
}

pub open spec fn call_sites(cs: Seq<ResolvedModel>) -> int
    decreases cs.len(),
{
    if cs.len() == 0 {
        0
    } else {
        call_sites(cs.drop_last()) + sites(cs.last())
    }
}

/// The call sites in the functions and methods among the entries.
pub open spec fn item_sites(items: Seq<ItemModel>) -> int
    decreases items.len(),
{
    if items.len() == 0 {
        0
    } else {
        item_sites(items.drop_last()) + if items.last().callable {
            call_sites(items.last().calls)
        } else {
            0
        }
    }
}

/// The call sites in the files that are read.
pub open spec fn all_sites(files: Seq<FileReportModel>) -> int
    decreases files.len(),
{
    if files.len() == 0 {
        0
    } else {
        all_sites(files.drop_last()) + if read(files.last()) {
            item_sites(files.last().items)
        } else {
            0
        }
    }
}

/// The call sites that the edges stand for.
pub open spec fn edge_sites(es: Seq<EdgeExport>) -> int
    decreases es.len(),
{
    if es.len() == 0 {
        0
    } else {
        edge_sites(es.drop_last()) + es.last().count
    }
}

/// What finds edges again finds the right ones.
spec fn linked_up(g: GraphModel) -> bool {
    forall|key: (NodeId, NodeId, EdgeKind)| #[trigger]
        g.links.contains_key(key) ==> 0 <= g.links[key] < g.edges.len() && (g.edges[g.links[key]].from,
            g.edges[g.links[key]].to, g.edges[g.links[key]].kind) == key
}

/// Nothing that `r` holds has been lost in `s`, and the edges of `s` stand for `n` more
/// call sites.
spec fn grown(r: RegistryModel, s: RegistryModel, n: int) -> bool {
    &&& linked_up(s.graph)
    &&& edge_sites(s.graph.edges) == edge_sites(r.graph.edges) + n
    &&& forall|key: NavKey| #[trigger]
        r.nodes.contains_key(key) ==> s.nodes.contains_key(key) && s.nodes[key] == r.nodes[key]
    &&& forall|k: int|
        0 <= k < r.graph.edges.len() ==> k < s.graph.edges.len() && (#[trigger] r.graph.edges[k]).from
            == s.graph.edges[k].from && r.graph.edges[k].to == s.graph.edges[k].to
            && r.graph.edges[k].kind == s.graph.edges[k].kind
}

proof fn lemma_grown_again(r: RegistryModel, s: RegistryModel, t: RegistryModel, m: int, n: int)
    requires
        grown(r, s, m),
        grown(s, t, n),
    ensures
        grown(r, t, m + n),
{
    assert forall|k: int| 0 <= k < r.graph.edges.len() implies k < t.graph.edges.len()
        && (#[trigger] r.graph.edges[k]).from == t.graph.edges[k].from && r.graph.edges[k].to
        == t.graph.edges[k].to && r.graph.edges[k].kind == t.graph.edges[k].kind by {
        assert(s.graph.edges[k].from == r.graph.edges[k].from);
    }
}

proof fn lemma_grown_keeps(r: RegistryModel, s: RegistryModel, n: int, caller: NavKey, c: ResolvedModel)
    requires
        grown(r, s, n),
        recorded(r, caller, c),
    ensures
        recorded(s, caller, c),
{
    let kind = if c.method {
        EdgeKind::MethodCall
    } else {
        EdgeKind::DirectCall
    };
    let (a, b) = (r.nodes[caller], r.nodes[target_key(c)]);
    let k = choose|k: int|
        0 <= k < r.graph.edges.len() && (#[trigger] r.graph.edges[k]).from == a
            && r.graph.edges[k].to == b && r.graph.edges[k].kind == kind;
    assert(s.graph.edges[k].from == a);
}

proof fn lemma_sites_update(es: Seq<EdgeExport>, i: int, e: EdgeExport)
    requires
        0 <= i < es.len(),
    ensures
        edge_sites(es.update(i, e)) == edge_sites(es) - es[i].count + e.count,
    decreases es.len(),
{
    let t = es.update(i, e);
    if i == es.len() - 1 {
        assert(t.drop_last() =~= es.drop_last());
    } else {
        assert(t.drop_last() =~= es.drop_last().update(i, e));
        lemma_sites_update(es.drop_last(), i, e);
    }
}

proof fn lemma_one_of(es: Seq<EdgeExport>, i: int)
    requires
        0 <= i < es.len(),
    ensures
        0 <= es[i].count <= edge_sites(es),
    decreases es.len(),
{
    if i < es.len() - 1 {
        lemma_one_of(es.drop_last(), i);
    } else {
        lemma_sites_positive(es.drop_last());
    }
}

proof fn lemma_sites_positive(es: Seq<EdgeExport>)
    ensures
        edge_sites(es) >= 0,
    decreases es.len(),
{
    if es.len() > 0 {
        lemma_sites_positive(es.drop_last());
    }
}

proof fn lemma_definition_grows(
    r: RegistryModel,
    key: NavKey,
    name: Seq<char>,
    home: Option<Seq<char>>,
    container: Option<Seq<char>>,
    kind: NodeKind,
    span: crate::graph::SourceSpan,
)
    requires
        linked_up(r.graph),
    ensures
        grown(r, r.with_definition(key, name, home, container, kind, span), 0),
        r.with_definition(key, name, home, container, kind, span).nodes.contains_key(key),
{
}

proof fn lemma_call_grows(r: RegistryModel, file: FileId, caller: NavKey, c: ResolvedModel)
    requires
        linked_up(r.graph),
        r.nodes.contains_key(caller),
        edge_sites(r.graph.edges) + sites(c) <= u32::MAX,
    ensures
        grown(r, with_call(r, file, caller, c), sites(c)),
        recorded(with_call(r, file, caller, c), caller, c),
{
    let key = target_key(c);
    let s = with_target(r, c);
    assert(grown(r, s, 0) && s.nodes.contains_key(key)) by {
        if !r.nodes.contains_key(key) {
            let m = r.with_file(c.file);
            lemma_definition_grows(
                m,
                key,
                c.name,
                c.home,
                c.container,
                if !c.local {
                    NodeKind::External
                } else if c.method {
                    NodeKind::Method
                } else {
                    NodeKind::Function
                },
                crate::semantic::lines_in(r.file_id(c.file), c.lines),
            );
            assert(grown(r, m, 0));
        }
    }
    let kind = if c.method {
        EdgeKind::MethodCall
    } else {
        EdgeKind::DirectCall
    };
    let e = Edge {
        kind,
        call_site: crate::semantic::lines_in(file, c.site),
        count: if c.sites == 0 {
            1
        } else {
            c.sites
        },
    };
    let (a, b) = (s.nodes[caller], s.nodes[key]);
    let t = with_call(r, file, caller, c);
    assert(t.graph == s.graph.with_edge(a, b, e));
    if s.graph.links.contains_key((a, b, kind)) {
        let i = s.graph.links[(a, b, kind)];
        lemma_one_of(s.graph.edges, i);
        lemma_sites_update(s.graph.edges, i, t.graph.edges[i]);
        assert(t.graph.edges =~= s.graph.edges.update(i, t.graph.edges[i]));
        assert(t.graph.edges[i].from == a);
        assert(grown(s, t, sites(c)));
    } else {
        let k = s.graph.edges.len() as int;
        assert(t.graph.edges[k].from == a);
        assert(t.graph.edges.drop_last() =~= s.graph.edges);
        assert(grown(s, t, sites(c)));
    }
    lemma_grown_again(r, s, t, 0, sites(c));
}

proof fn lemma_calls_grow(r: RegistryModel, file: FileId, caller: NavKey, cs: Seq<ResolvedModel>)
    requires
        linked_up(r.graph),
        r.nodes.contains_key(caller),
        edge_sites(r.graph.edges) + call_sites(cs) <= u32::MAX,
    ensures
        call_sites(cs) >= 0,
        grown(r, with_calls(r, file, caller, cs), call_sites(cs)),
        forall|j: int|
            0 <= j < cs.len() ==> recorded(
                with_calls(r, file, caller, cs),
                caller,
                #[trigger] cs[j],
            ),
    decreases cs.len(),
{
    if cs.len() > 0 {
        let rest = cs.drop_last();
        let c = cs.last();
        lemma_calls_grow(r, file, caller, rest);
        let s = with_calls(r, file, caller, rest);
        let t = with_calls(r, file, caller, cs);
        lemma_call_grows(s, file, caller, c);
        lemma_grown_again(r, s, t, call_sites(rest), sites(c));
        assert forall|j: int| 0 <= j < cs.len() implies recorded(t, caller, #[trigger] cs[j]) by {
            if j < rest.len() {
                assert(rest[j] == cs[j]);
                lemma_grown_keeps(s, t, sites(c), caller, cs[j]);
            }
        }
    }
}

/// Everything that the first `n` entries of the file call has been recorded.
spec fn items_recorded(r: RegistryModel, f: FileReportModel, n: int) -> bool {
    forall|i: int, j: int|
        0 <= i < n && f.items[i].callable && 0 <= j < f.items[i].calls.len() ==> recorded(
            r,
            entry_key(f, i),
            #[trigger] f.items[i].calls[j],
        )
}

proof fn lemma_grown_keeps_items(
    r: RegistryModel,
    s: RegistryModel,
    m: int,
    f: FileReportModel,
    n: int,
)
    requires
        grown(r, s, m),
        items_recorded(r, f, n),
    ensures
        items_recorded(s, f, n),
{
    assert forall|i: int, j: int|
        0 <= i < n && f.items[i].callable && 0 <= j < f.items[i].calls.len() implies recorded(
        s,
        entry_key(f, i),
        #[trigger] f.items[i].calls[j],
    ) by {
        lemma_grown_keeps(r, s, m, entry_key(f, i), f.items[i].calls[j]);
    }
}

proof fn lemma_items_grow(r: RegistryModel, f: FileReportModel, n: nat)
    requires
        linked_up(r.graph),
        n <= f.items.len(),
        edge_sites(r.graph.edges) + item_sites(f.items.take(n as int)) <= u32::MAX,
    ensures
        item_sites(f.items.take(n as int)) >= 0,
        grown(r, with_items(r, f, n), item_sites(f.items.take(n as int))),
        items_recorded(with_items(r, f, n), f, n as int),
    decreases n,
{
    let all = f.items.take(n as int);
    if n > 0 {
        let i = n - 1;
        let it = f.items[i];
        let front = f.items.take(i);
        assert(all.drop_last() =~= front);
        assert(all.last() == it);
        lemma_call_sites_positive(it.calls);
        lemma_items_grow(r, f, i as nat);
        let s = with_items(r, f, i as nat);
        let t = with_items(r, f, n);
        if it.callable {
            let u = with_caller(s, f, i);
            let key = entry_key(f, i);
            lemma_definition_grows(
                s,
                key,
                bare_name(it.label),
                f.home,
                crate::semantic::item_container(f.items, i),
                if it.method {
                    NodeKind::Method
                } else {
                    NodeKind::Function
                },
                crate::semantic::lines_in(s.file_id(f.file), Some(it.lines)),
            );
            lemma_calls_grow(u, r.file_id(f.file), key, it.calls);
            lemma_grown_again(s, u, t, 0, call_sites(it.calls));
            lemma_grown_again(r, s, t, item_sites(front), call_sites(it.calls));
            lemma_grown_keeps_items(s, t, call_sites(it.calls), f, i);
        }
    }
}

proof fn lemma_call_sites_positive(cs: Seq<ResolvedModel>)
    ensures
        call_sites(cs) >= 0,
    decreases cs.len(),
{
    if cs.len() > 0 {
        lemma_call_sites_positive(cs.drop_last());
    }
}

proof fn lemma_item_sites_positive(items: Seq<ItemModel>)
    ensures
        item_sites(items) >= 0,
    decreases items.len(),
{
    if items.len() > 0 {
        lemma_item_sites_positive(items.drop_last());
        lemma_call_sites_positive(items.last().calls);
    }
}

/// Each call that is reported of a function or method in a file that is read becomes an
/// edge from it to the call's target, and what is reported of other files does not: the
/// edges stand for as many call sites as are reported of the files that are read. A call
/// without known sites stands for one.
pub proof fn law_reported_calls_are_recorded(files: Seq<FileReportModel>)
    requires
        all_sites(files) <= u32::MAX,
    ensures
        edge_sites(with_reports(files).graph.edges) == all_sites(files),
        forall|m: int, i: int, j: int|
            0 <= m < files.len() && read(files[m]) && 0 <= i < files[m].items.len()
                && files[m].items[i].callable && 0 <= j < files[m].items[i].calls.len() ==> recorded(
                with_reports(files),
                entry_key(files[m], i),
                #[trigger] files[m].items[i].calls[j],
            ),
{
    lemma_reports_grow(files);
    let r = with_reports(files);
    assert forall|m: int, i: int, j: int|
        0 <= m < files.len() && read(files[m]) && 0 <= i < files[m].items.len()
            && files[m].items[i].callable && 0 <= j < files[m].items[i].calls.len() implies recorded(
        r,
        entry_key(files[m], i),
        #[trigger] files[m].items[i].calls[j],
    ) by {
        assert(items_recorded(r, files[m], files[m].items.len() as int));
    }
}

proof fn lemma_reports_grow(files: Seq<FileReportModel>)
    requires
        all_sites(files) <= u32::MAX,
    ensures
        all_sites(files) >= 0,
        linked_up(with_reports(files).graph),
        edge_sites(with_reports(files).graph.edges) == all_sites(files),
        forall|m: int|
            0 <= m < files.len() && read(#[trigger] files[m]) ==> items_recorded(
                with_reports(files),
                files[m],
                files[m].items.len() as int,
            ),
    decreases files.len(),
{
    if files.len() > 0 {
        let rest = files.drop_last();
        let f = files.last();
        lemma_item_sites_positive(f.items);
        lemma_reports_grow(rest);
        let r = with_reports(rest);
        let t = with_reports(files);
        if f.file.path is Some {
            lemma_closes(f.file.path->0, ".rs"@);
        }
        assert(crate::semantic::is_read(f) == read(f));
        assert(t == with_report(r, f));
        if read(f) {
            let s = r.with_file(f.file);
            assert(f.items.take(f.items.len() as int) =~= f.items);
            assert(grown(r, s, 0));
            lemma_items_grow(s, f, f.items.len());
            lemma_grown_again(r, s, t, 0, item_sites(f.items));
            assert forall|m: int| 0 <= m < files.len() && read(#[trigger] files[m]) implies items_recorded(
                t,
                files[m],
                files[m].items.len() as int,
            ) by {
                if m < rest.len() {
                    assert(rest[m] == files[m]);
                    lemma_grown_keeps_items(
                        r,
                        t,
                        item_sites(f.items),
                        files[m],
                        files[m].items.len() as int,
                    );
                }
            }
        } else {
            assert forall|m: int| 0 <= m < files.len() && read(#[trigger] files[m]) implies items_recorded(
                t,
                files[m],
                files[m].items.len() as int,
            ) by {
                assert(rest[m] == files[m]);
            }
        }
    }
}

// -- names ----------------------------------------------------------------------------

/// A name: nothing in it is blank, and no bracket opens in it.
pub open spec fn solid(name: Seq<char>) -> bool {
    &&& name.len() > 0
    &&& forall|i: int|
        0 <= i < name.len() ==> !is_white(#[trigger] name[i]) && name[i] != '(' && name[i] != '<'
}

proof fn lemma_prefix(s: Seq<char>, a: char, b: char, c: char, i: int, n: int)
    requires
        0 <= i <= n <= s.len(),
        forall|j: int| i <= j < n ==> #[trigger] s[j] != a && s[j] != b && s[j] != c,
        n < s.len() ==> s[n] == a || s[n] == b || s[n] == c,
    ensures
        prefix_end(s, a, b, c, i) == n,
    decreases n - i,
{
    if i < n {
        lemma_prefix(s, a, b, c, i + 1, n);
    }
}

proof fn lemma_end_trimmed(s: Seq<char>, m: int) -> (k: int)
    requires
        0 < m <= s.len(),
        !is_white(s[m - 1]),
    ensures
        m <= k <= s.len(),
        trimmed_end(s) == s.take(k),
    decreases s.len(),
{
    if m < s.len() && is_white(s.last()) {
        let k = lemma_end_trimmed(s.drop_last(), m);
        assert(s.drop_last().take(k) =~= s.take(k));
        k
    } else {
        assert(s.take(s.len() as int) =~= s);
        s.len() as int
    }
}

proof fn lemma_solid_trimmed(name: Seq<char>)
    requires
        solid(name),
    ensures
        trimmed(name) == name,
{
    assert(!is_white(name[0]));
    assert(!is_white(name[name.len() - 1]));
}

/// The name of a definition is what its label holds before its arguments, its type
/// parameters or a blank.
pub proof fn law_labels_start_with_the_name(name: Seq<char>, rest: Seq<char>)
    requires
        solid(name),
        rest.len() > 0 ==> rest[0] == '(' || rest[0] == '<' || rest[0] == ' ',
    ensures
        bare_name(name + rest) == name,
{
    let s = name + rest;
    let n = name.len() as int;
    assert forall|j: int| 0 <= j < n implies #[trigger] s[j] != '(' && s[j] != '<' && s[j] != ' ' by {
        assert(s[j] == name[j]);
        assert(is_white(' '));
    }
    if n < s.len() {
        assert(s[n] == rest[0]);
    }
    lemma_prefix(s, '(', '<', ' ', 0, n);
    assert(s.take(n) =~= name);
    lemma_solid_trimmed(name);
}

/// The container that a label names is what it holds before its type parameters or a
/// blank, after `impl` where it starts with that.
pub proof fn law_labels_name_the_container(name: Seq<char>, rest: Seq<char>, by_impl: bool)
    requires
        solid(name),
        rest.len() > 0 ==> rest[0] == '<' || rest[0] == ' ',
        !by_impl ==> name != "impl"@,
    ensures
        container_name(
            if by_impl {
                "impl "@ + name + rest
            } else {
                name + rest
            },
        ) == name,
{
    reveal_strlit("impl ");
    reveal_strlit("impl");
    let lead = if by_impl {
        "impl "@
    } else {
        Seq::empty()
    };
    let s = if by_impl {
        "impl "@ + name + rest
    } else {
        name + rest
    };
    let d = lead.len() as int;
    let n = name.len() as int;
    assert(is_white(' '));
    assert("impl "@[0] == 'i' && "impl "@[1] == 'm' && "impl "@[2] == 'p' && "impl "@[3] == 'l'
        && "impl "@[4] == ' ');
    assert(forall|j: int| 0 <= j < n ==> s[d + j] == #[trigger] name[j]);
    assert(!is_white(name[0]));
    assert(!is_white(s[0]));
    assert(trimmed_start(s) == s);
    assert(s[d + n - 1] == name[n - 1]);
    let k = lemma_end_trimmed(s, d + n);
    let t = s.take(k);
    assert(trimmed(s) == t);
    let u = without_impl(t);
    if by_impl {
        assert(t.subrange(0, 5) =~= "impl "@);
        assert(occurs_at(t, "impl "@, 0));
        assert(u == t.skip(5));
    } else {
        if occurs_at(t, "impl "@, 0) {
            let v = t.subrange(0, 5);
            assert(v[0] == t[0] && v[1] == t[1] && v[2] == t[2] && v[3] == t[3] && v[4] == t[4]);
            assert(t[4] == ' ');
            if n > 4 {
                assert(name[4] == s[4]);
            } else if n == 4 {
                assert(name[0] == s[0] && name[1] == s[1] && name[2] == s[2] && name[3] == s[3]);
                assert("impl"@[0] == 'i' && "impl"@[1] == 'm' && "impl"@[2] == 'p' && "impl"@[3]
                    == 'l');
                assert(name =~= "impl"@);
            } else {
                assert(s[n] == rest[0]);
                assert(t[n] == s[n]);
                assert(n == 1 || n == 2 || n == 3);
            }
        }
        assert(u == t);
    }
    assert forall|j: int| 0 <= j < n implies #[trigger] u[j] != ' ' && u[j] != '<' by {
        assert(u[j] == s[d + j]);
        assert(s[d + j] == name[j]);
    }
    if n < u.len() {
        assert(u[n] == s[d + n]);
        assert(s[d + n] == rest[0]);
    }
    lemma_prefix(u, ' ', '<', '<', 0, n);
    assert(u.take(n) =~= name) by {
        assert forall|j: int| 0 <= j < n implies u[j] == #[trigger] name[j] by {
            assert(u[j] == s[d + j]);
        }
    }
    lemma_solid_trimmed(name);
}

/// The crate of entry `i`, and its container where it has one.
pub open spec fn entered_module(f: FileReportModel, i: int) -> Seq<char> {
    match f.items[i].parent {
        Some(p) => f.home->0 + "::"@ + container_name(f.items[p].label),
        None => f.home->0,
    }
}

/// The path of entry `i`, with a number where it was given out before.
pub open spec fn entered_path(r: RegistryModel, f: FileReportModel, i: int) -> Seq<char> {
    let path = entered_module(f, i) + "::"@ + bare_name(f.items[i].label);
    if r.used.contains_key(path) && r.used[path] > 0 {
        path + "#"@ + crate::text::decimal(r.used[path] as nat)
    } else {
        path
    }
}

/// What a function or method is entered under for the first time: its name, the path of
/// crate, container and name, its kind and its place. A path that was given out before is
/// marked with the number of times.
pub proof fn law_callers_are_entered_by_name(r: RegistryModel, f: FileReportModel, i: int)
    requires
        0 <= i < f.items.len(),
        !r.nodes.contains_key(entry_key(f, i)),
        r.graph.nodes.len() < u32::MAX,
        !r.graph.names.contains_key(entered_path(r, f, i)),
        f.home matches Some(h) && h.len() > 0,
        bare_name(f.items[i].label).len() > 0,
        f.items[i].parent matches Some(p) ==> 0 <= p < f.items.len() && container_name(
            f.items[p].label,
        ).len() > 0,
    ensures
        ({
            let s = with_caller(r, f, i);
            let it = f.items[i];
            let name = bare_name(it.label);
            let n = s.graph.nodes[s.nodes[entry_key(f, i)].0 as int];
            &&& s.nodes[entry_key(f, i)].0 == r.graph.nodes.len()
            &&& n.name == name
            &&& n.module == entered_module(f, i)
            &&& n.qualified_name == entered_path(r, f, i)
            &&& n.kind == if it.method {
                NodeKind::Method
            } else {
                NodeKind::Function
            }
            &&& n.span.start_line == it.lines.start_line
            &&& n.span.end_line == it.lines.end_line
            &&& n.span.file == r.file_id(f.file).0
            &&& it.lines.start_line <= it.lines.end_line < u32::MAX ==> n.stats.lines_of_code
                == it.lines.end_line - it.lines.start_line + 1
        }),
{
}

} // verus!
