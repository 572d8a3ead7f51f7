//! Language front ends: from source files to a call graph.

use crate::fragment::{CallModel, FileFragment, FragmentModel, RawCall};
use crate::graph::{CodeGraph, GraphModel, Node, NodeModel};
use crate::lang::Lang;
use crate::link::{call_total, def_total, link_units, linkable, linked};
use crate::seqs::{lemma_push_take, views_of};
use crate::source::{SourceFile, SourceModel};
use crate::syntax::{
    fits, grammar_error, grammar_failure, parsed, read_tree, tree_fits, Grammar,
};
use crate::text::concat2;
use crate::typescript::{is_tsx, is_tsx_path};
use crate::walk::{
    defines, law_calls_belong_to_definitions, read_unit, unit_of, CallSite, DefModel, DefSite,
    FileUnit, SiteModel, UnitModel,
};
use vstd::prelude::*;

verus! {

/// What can go wrong in an adapter.
#[derive(Debug)]
pub enum AdapterError {
    Parse { path: String, message: String },
    Other(String),
}

/// The mathematical content of an [`AdapterError`].
pub enum AdapterErrorModel {
    Parse { path: Seq<char>, message: Seq<char> },
    Other(Seq<char>),
}

impl View for AdapterError {
    type V = AdapterErrorModel;

    open spec fn view(&self) -> AdapterErrorModel {
        match self {
            AdapterError::Parse { path, message } => AdapterErrorModel::Parse {
                path: path@,
                message: message@,
            },
            AdapterError::Other(m) => AdapterErrorModel::Other(m@),
        }
    }
}

impl AdapterErrorModel {
    /// What the error says.
    pub open spec fn text(self) -> Seq<char> {
        match self {
            AdapterErrorModel::Parse { path, message } => "failed to parse "@ + path + ": "@
                + message,
            AdapterErrorModel::Other(m) => "adapter error: "@ + m,
        }
    }
}

impl AdapterError {
    /// What the error says.
    pub fn text(&self) -> (r: String)
        ensures
            r@ == self@.text(),
    {
        match self {
            AdapterError::Parse { path, message } => {
                let mut out = concat2("failed to parse ", path.as_str());
                out.append(": ");
                out.append(message.as_str());
                out
            },
            AdapterError::Other(m) => concat2("adapter error: ", m.as_str()),
        }
    }
}

/// The content of the outcome of parsing.
pub open spec fn graph_result(r: Result<CodeGraph, AdapterError>) -> Result<
    GraphModel,
    AdapterErrorModel,
> {
    match r {
        Ok(g) => Ok(g@),
        Err(e) => Err(e@),
    }
}

/// The content of the outcome of reading one file.
pub open spec fn fragment_result(r: Result<FileFragment, AdapterError>) -> Result<
    FragmentModel,
    AdapterErrorModel,
> {
    match r {
        Ok(f) => Ok(f@),
        Err(e) => Err(e@),
    }
}

// -- reading files ------------------------------------------------------------------

/// The grammar for a file.
pub open spec fn grammar_for(lang: Lang, path: Seq<char>) -> Grammar {
    match lang {
        Lang::Rust => Grammar::Rust,
        Lang::Go => Grammar::Go,
        Lang::Python => Grammar::Python,
        Lang::TypeScript => if is_tsx(path) {
            Grammar::Tsx
        } else {
            Grammar::TypeScript
        },
    }
}

fn grammar_of(lang: Lang, path: &str) -> (r: Grammar)
    ensures
        r == grammar_for(lang, path@),
{
    match lang {
        Lang::Rust => Grammar::Rust,
        Lang::Go => Grammar::Go,
        Lang::Python => Grammar::Python,
        Lang::TypeScript => if is_tsx_path(path) {
            Grammar::Tsx
        } else {
            Grammar::TypeScript
        },
    }
}

/// What is said of a grammar that cannot be used.
pub open spec fn grammar_message(lang: Lang) -> Seq<char> {
    match lang {
        Lang::Rust => "failed to load Rust grammar: "@,
        Lang::Go => "failed to load Go grammar: "@,
        Lang::Python => "failed to load Python grammar: "@,
        Lang::TypeScript => "failed to load TypeScript grammar: "@,
    }
}

fn grammar_message_of(lang: Lang) -> (r: &'static str)
    ensures
        r@ == grammar_message(lang),
{
    match lang {
        Lang::Rust => "failed to load Rust grammar: ",
        Lang::Go => "failed to load Go grammar: ",
        Lang::Python => "failed to load Python grammar: ",
        Lang::TypeScript => "failed to load TypeScript grammar: ",
    }
}

/// What a file holds: an error where the grammar cannot be used, where the parser
/// gives no tree, or where the tree is too large to be counted.
pub open spec fn read_file(lang: Lang, f: SourceModel) -> Result<UnitModel, AdapterErrorModel> {
    let g = grammar_for(lang, f.path);
    match grammar_failure(g) {
        Some(e) => Err(AdapterErrorModel::Other(grammar_message(lang) + e)),
        None => match parsed(g, f.text) {
            None => Err(
                AdapterErrorModel::Parse {
                    path: f.path,
                    message: "tree-sitter produced no tree"@,
                },
            ),
            Some(t) => if fits(t) {
                Ok(unit_of(lang, t, f.text, f.path))
            } else {
                Err(
                    AdapterErrorModel::Parse {
                        path: f.path,
                        message: "the syntax tree is too large"@,
                    },
                )
            },
        },
    }
}

/// What the files hold, or the first error.
pub open spec fn read_files(lang: Lang, files: Seq<SourceModel>) -> Result<
    Seq<UnitModel>,
    AdapterErrorModel,
>
    decreases files.len(),
{
    if files.len() == 0 {
        Ok(Seq::empty())
    } else {
        match read_files(lang, files.drop_last()) {
            Err(e) => Err(e),
            Ok(us) => match read_file(lang, files.last()) {
                Err(e) => Err(e),
                Ok(u) => Ok(us.push(u)),
            },
        }
    }
}

/// Every definition of the unit is valid.
pub open spec fn unit_valid(u: UnitModel) -> bool {
    forall|j: int| 0 <= j < u.defs.len() ==> (#[trigger] u.defs[j]).node.valid()
}

fn extract_unit(lang: Lang, f: &SourceFile) -> (r: Result<FileUnit, AdapterError>)
    ensures
        match r {
            Ok(u) => read_file(lang, f@) == Ok::<UnitModel, AdapterErrorModel>(u@) && unit_valid(
                u@,
            ),
            Err(e) => read_file(lang, f@) == Err::<UnitModel, AdapterErrorModel>(e@),
        },
{
    let g = grammar_of(lang, f.path.as_str());
    if let Some(e) = grammar_error(g) {
        return Err(AdapterError::Other(concat2(grammar_message_of(lang), e.as_str())));
    }
    match read_tree(g, f.text.as_str()) {
        None => Err(
            AdapterError::Parse {
                path: f.path.clone(),
                message: "tree-sitter produced no tree".to_owned(),
            },
        ),
        Some(t) => {
            if tree_fits(&t) {
                let u = read_unit(lang, &t, f.text.as_str(), f.path.as_str());
                assert forall|j: int| 0 <= j < u@.defs.len() implies (
                #[trigger] u@.defs[j]).node.valid() by {
                    assert(u.defs@[j]@.node.valid());
                }
                Ok(u)
            } else {
                Err(
                    AdapterError::Parse {
                        path: f.path.clone(),
                        message: "the syntax tree is too large".to_owned(),
                    },
                )
            }
        },
    }
}

fn extract_units(lang: Lang, files: &Vec<SourceFile>) -> (r: Result<Vec<FileUnit>, AdapterError>)
    ensures
        match r {
            Ok(us) => read_files(lang, views_of(files@)) == Ok::<
                Seq<UnitModel>,
                AdapterErrorModel,
            >(views_of(us@)) && forall|i: int|
                0 <= i < us@.len() ==> unit_valid((#[trigger] us@[i])@),
            Err(e) => read_files(lang, views_of(files@)) == Err::<
                Seq<UnitModel>,
                AdapterErrorModel,
            >(e@),
        },
{
    let ghost fs = views_of(files@);
    let mut out: Vec<FileUnit> = Vec::new();
    let mut i: usize = 0;
    assert(fs.take(0) =~= Seq::empty());
    assert(views_of(out@) =~= Seq::<UnitModel>::empty());
    while i < files.len()
        invariant
            i <= files@.len(),
            fs == views_of(files@),
            read_files(lang, fs.take(i as int)) == Ok::<Seq<UnitModel>, AdapterErrorModel>(
                views_of(out@),
            ),
            forall|j: int| 0 <= j < out@.len() ==> unit_valid((#[trigger] out@[j])@),
        decreases files@.len() - i,
    {
        proof {
            assert(fs[i as int] == files@[i as int]@);
            assert(fs.take(i + 1).drop_last() =~= fs.take(i as int));
            assert(fs.take(i + 1).last() == files@[i as int]@);
        }
        match extract_unit(lang, &files[i]) {
            Ok(u) => {
                proof {
                    crate::seqs::lemma_views_push(out@, u);
                }
                out.push(u);
            },
            Err(e) => {
                proof {
                    lemma_first_error(lang, fs, i + 1);
                }
                return Err(e);
            },
        }
        i += 1;
    }
    assert(fs.take(fs.len() as int) =~= fs);
    Ok(out)
}

/// An error in the first files is the error of all.
proof fn lemma_first_error(lang: Lang, files: Seq<SourceModel>, k: int)
    requires
        0 <= k <= files.len(),
        read_files(lang, files.take(k)) is Err,
    ensures
        read_files(lang, files) == read_files(lang, files.take(k)),
    decreases files.len(),
{
    if k < files.len() {
        assert(files.drop_last().take(k) =~= files.take(k));
        lemma_first_error(lang, files.drop_last(), k);
    } else {
        assert(files.take(k) =~= files);
    }
}

/// Whether the units can be linked.
fn can_link(units: &Vec<FileUnit>) -> (r: bool)
    requires
        forall|i: int| 0 <= i < units@.len() ==> unit_valid((#[trigger] units@[i])@),
    ensures
        r == linkable(views_of(units@)),
{
    let ghost us = views_of(units@);
    let mut total: u64 = 0;
    let mut i: usize = 0;
    assert(us.take(0) =~= Seq::empty());
    let mut small = units.len() < u32::MAX as usize;
    while i < units.len() && small
        invariant
            us == views_of(units@),
            i <= units@.len(),
            small ==> total == def_total(us.take(i as int)) + call_total(us.take(i as int)),
            small ==> total < u32::MAX,
            small ==> units@.len() < u32::MAX,
            !small ==> units@.len() >= u32::MAX || def_total(us) + call_total(us) >= u32::MAX,
        decreases units@.len() - i,
    {
        let u = &units[i];
        proof {
            assert(us[i as int] == u@);
            assert(us.take(i + 1).drop_last() =~= us.take(i as int));
            assert(us.take(i + 1).last() == u@);
            lemma_totals_grow(us, i + 1);
        }
        let d: u64 = u.defs.len() as u64;
        let c: u64 = u.calls.len() as u64;
        let limit: u64 = u32::MAX as u64;
        if d >= limit || c >= limit || total + d + c >= limit {
            small = false;
        } else {
            total = total + d + c;
        }
        i += 1;
    }
    proof {
        if small {
            assert(us.take(us.len() as int) =~= us);
            assert forall|i: int, j: int| 0 <= i < us.len() && 0 <= j < us[i].defs.len() implies (
            #[trigger] us[i].defs[j]).node.valid() by {
                assert(unit_valid(units@[i]@));
            }
        }
    }
    small
}

proof fn lemma_totals_grow(units: Seq<UnitModel>, k: int)
    requires
        0 <= k <= units.len(),
    ensures
        def_total(units.take(k)) <= def_total(units),
        call_total(units.take(k)) <= call_total(units),
    decreases units.len(),
{
    if k < units.len() {
        lemma_totals_grow(units.drop_last(), k);
        assert(units.drop_last().take(k) =~= units.take(k));
    } else {
        assert(units.take(k) =~= units);
    }
}

/// What is said of files that hold too much.
pub open spec fn too_large() -> AdapterErrorModel {
    AdapterErrorModel::Other("too many files, definitions or calls"@)
}

/// The graph of units that can be linked.
pub open spec fn link_result(lang: Lang, units: Seq<UnitModel>) -> Result<
    GraphModel,
    AdapterErrorModel,
> {
    if linkable(units) {
        Ok(linked(lang, units))
    } else {
        Err(too_large())
    }
}

fn link_checked(lang: Lang, units: &Vec<FileUnit>) -> (r: Result<CodeGraph, AdapterError>)
    requires
        forall|i: int| 0 <= i < units@.len() ==> unit_valid((#[trigger] units@[i])@),
    ensures
        graph_result(r) == link_result(lang, views_of(units@)),
        r is Ok ==> r->Ok_0.wf(),
{
    if can_link(units) {
        Ok(link_units(lang, units))
    } else {
        Err(AdapterError::Other("too many files, definitions or calls".to_owned()))
    }
}

/// The outcome of reading and linking files. A grammar that serves all files of the
/// language is tried before the first file.
pub open spec fn parse_result(lang: Lang, files: Seq<SourceModel>) -> Result<
    GraphModel,
    AdapterErrorModel,
> {
    let failure = grammar_failure(grammar_for(lang, Seq::empty()));
    if lang != Lang::TypeScript && failure is Some {
        Err(AdapterErrorModel::Other(grammar_message(lang) + failure->0))
    } else {
        match read_files(lang, files) {
            Err(e) => Err(e),
            Ok(us) => link_result(lang, us),
        }
    }
}

fn parse_files(lang: Lang, files: &Vec<SourceFile>) -> (r: Result<CodeGraph, AdapterError>)
    ensures
        graph_result(r) == parse_result(lang, views_of(files@)),
        r is Ok ==> r->Ok_0.wf(),
{
    if lang != Lang::TypeScript {
        let g = grammar_of(lang, "");
        assert(g == grammar_for(lang, Seq::empty()));
        if let Some(e) = grammar_error(g) {
            return Err(AdapterError::Other(concat2(grammar_message_of(lang), e.as_str())));
        }
    }
    match extract_units(lang, files) {
        Err(e) => Err(e),
        Ok(us) => link_checked(lang, &us),
    }
}

/// Read a batch of Go files into one call graph.
pub fn parse_go(files: &Vec<SourceFile>) -> (r: Result<CodeGraph, AdapterError>)
    ensures
        graph_result(r) == parse_result(Lang::Go, views_of(files@)),
        r is Ok ==> r->Ok_0.wf(),
{
    parse_files(Lang::Go, files)
}

/// Read a batch of Python files into one call graph.
pub fn parse_python(files: &Vec<SourceFile>) -> (r: Result<CodeGraph, AdapterError>)
    ensures
        graph_result(r) == parse_result(Lang::Python, views_of(files@)),
        r is Ok ==> r->Ok_0.wf(),
{
    parse_files(Lang::Python, files)
}

/// Read a batch of TypeScript files into one call graph.
pub fn parse_typescript(files: &Vec<SourceFile>) -> (r: Result<CodeGraph, AdapterError>)
    ensures
        graph_result(r) == parse_result(Lang::TypeScript, views_of(files@)),
        r is Ok ==> r->Ok_0.wf(),
{
    parse_files(Lang::TypeScript, files)
}

// -- fragments ----------------------------------------------------------------------

/// The fragment of a Rust file.
pub open spec fn fragment_of(u: UnitModel) -> FragmentModel {
    FragmentModel {
        path: u.path,
        defs: u.defs.map_values(|d: DefModel| d.node),
        calls: u.calls.map_values(|c: SiteModel| c.call),
    }
}

/// What a fragment holds: its definitions are found by their names.
pub open spec fn unit_from(f: FragmentModel) -> UnitModel {
    UnitModel {
        path: f.path,
        defs: f.defs.map_values(|n: NodeModel| DefModel { node: n, key: n.name }),
        calls: f.calls.map_values(|c: CallModel| SiteModel { call: c, module: Seq::empty() }),
    }
}

pub open spec fn units_from(fs: Seq<FragmentModel>) -> Seq<UnitModel> {
    fs.map_values(|f: FragmentModel| unit_from(f))
}

/// The outcome of reading one Rust file.
pub open spec fn fragment_for(f: SourceModel) -> Result<FragmentModel, AdapterErrorModel> {
    match read_file(Lang::Rust, f) {
        Ok(u) => Ok(fragment_of(u)),
        Err(e) => Err(e),
    }
}

/// The fragments of Rust files, or the first error.
pub open spec fn fragments_for(files: Seq<SourceModel>) -> Result<
    Seq<FragmentModel>,
    AdapterErrorModel,
>
    decreases files.len(),
{
    if files.len() == 0 {
        Ok(Seq::empty())
    } else {
        match fragments_for(files.drop_last()) {
            Err(e) => Err(e),
            Ok(fs) => match fragment_for(files.last()) {
                Err(e) => Err(e),
                Ok(f) => Ok(fs.push(f)),
            },
        }
    }
}

/// The outcome of reading and linking Rust files.
pub open spec fn rust_result(files: Seq<SourceModel>) -> Result<GraphModel, AdapterErrorModel> {
    match grammar_failure(Grammar::Rust) {
        Some(e) => Err(AdapterErrorModel::Other(grammar_message(Lang::Rust) + e)),
        None => match fragments_for(files) {
            Err(e) => Err(e),
            Ok(fs) => link_result(Lang::Rust, units_from(fs)),
        },
    }
}

/// A fragment bears its file's path; every call in it is made by one of its definitions,
/// and every span names the file by the local number zero.
pub proof fn law_fragment_calls_have_definitions(f: SourceModel)
    requires
        fragment_for(f) is Ok,
    ensures
        ({
            let r = fragment_for(f)->Ok_0;
            &&& r.path == f.path
            &&& forall|k: int|
                0 <= k < r.calls.len() ==> (#[trigger] r.calls[k]).call_site.file == 0 && exists|
                    i: int,
                |
                    0 <= i < r.defs.len() && (#[trigger] r.defs[i]).qualified_name
                        == r.calls[k].caller
            &&& forall|i: int| 0 <= i < r.defs.len() ==> (#[trigger] r.defs[i]).span.file == 0
        }),
{
    let u = read_file(Lang::Rust, f)->Ok_0;
    let r = fragment_for(f)->Ok_0;
    let t = parsed(grammar_for(Lang::Rust, f.path), f.text)->0;
    law_calls_belong_to_definitions(Lang::Rust, t, f.text, f.path);
    assert forall|k: int| 0 <= k < r.calls.len() implies (#[trigger] r.calls[k]).call_site.file == 0
        && exists|i: int|
        0 <= i < r.defs.len() && (#[trigger] r.defs[i]).qualified_name == r.calls[k].caller by {
        assert(r.calls[k] == u.calls[k].call);
        assert(defines(u.defs, u.calls[k].call.caller));
        let i = choose|i: int|
            0 <= i < u.defs.len() && (#[trigger] u.defs[i]).node.qualified_name
                == u.calls[k].call.caller;
        assert(r.defs[i] == u.defs[i].node);
    }
    assert forall|i: int| 0 <= i < r.defs.len() implies (#[trigger] r.defs[i]).span.file == 0 by {
        assert(r.defs[i] == u.defs[i].node);
    }
}

/// Read one Rust file: its definitions and its unresolved calls. The outcome is a
/// function of the file's path and text.
pub fn extract_file(sf: &SourceFile) -> (r: Result<FileFragment, AdapterError>)
    ensures
        fragment_result(r) == fragment_for(sf@),
        r is Ok ==> forall|j: int|
            0 <= j < r->Ok_0.defs@.len() ==> (#[trigger] r->Ok_0.defs@[j])@.valid(),
{
    match extract_unit(Lang::Rust, sf) {
        Err(e) => Err(e),
        Ok(u) => {
            let ghost want = fragment_of(u@);
            let mut defs: Vec<Node> = Vec::new();
            let mut i: usize = 0;
            assert(views_of(defs@) =~= want.defs.take(0));
            while i < u.defs.len()
                invariant
                    i <= u.defs@.len() == want.defs.len(),
                    unit_valid(u@),
                    want == fragment_of(u@),
                    views_of(defs@) == want.defs.take(i as int),
                    forall|j: int| 0 <= j < defs@.len() ==> (#[trigger] defs@[j])@.valid(),
                decreases u.defs@.len() - i,
            {
                let n = u.defs[i].node.clone();
                proof {
                    assert(u@.defs[i as int] == u.defs@[i as int]@);
                    assert(u@.defs[i as int].node.valid());
                    lemma_push_take(defs@, n, want.defs, i as int);
                }
                defs.push(n);
                i += 1;
            }
            let mut calls: Vec<RawCall> = Vec::new();
            let mut k: usize = 0;
            assert(views_of(calls@) =~= want.calls.take(0));
            while k < u.calls.len()
                invariant
                    k <= u.calls@.len() == want.calls.len(),
                    want == fragment_of(u@),
                    views_of(calls@) == want.calls.take(k as int),
                decreases u.calls@.len() - k,
            {
                let c = u.calls[k].call.clone();
                proof {
                    assert(u@.calls[k as int] == u.calls@[k as int]@);
                    lemma_push_take(calls@, c, want.calls, k as int);
                }
                calls.push(c);
                k += 1;
            }
            let f = FileFragment { path: u.path.clone(), defs, calls };
            proof {
                assert(want.defs.take(want.defs.len() as int) =~= want.defs);
                assert(want.calls.take(want.calls.len() as int) =~= want.calls);
                assert(f@ =~= want);
            }
            Ok(f)
        },
    }
}

fn unit_of_fragment(f: &FileFragment) -> (r: FileUnit)
    ensures
        r@ == unit_from(f@),
{
    let ghost want = unit_from(f@);
    let mut defs: Vec<DefSite> = Vec::new();
    let mut i: usize = 0;
    assert(views_of(defs@) =~= want.defs.take(0));
    while i < f.defs.len()
        invariant
            i <= f.defs@.len() == want.defs.len(),
            want == unit_from(f@),
            views_of(defs@) == want.defs.take(i as int),
        decreases f.defs@.len() - i,
    {
        let d = DefSite { node: f.defs[i].clone(), key: f.defs[i].name.clone() };
        proof {
            assert(f@.defs[i as int] == f.defs@[i as int]@);
            lemma_push_take(defs@, d, want.defs, i as int);
        }
        defs.push(d);
        i += 1;
    }
    let mut calls: Vec<CallSite> = Vec::new();
    let mut k: usize = 0;
    assert(views_of(calls@) =~= want.calls.take(0));
    while k < f.calls.len()
        invariant
            k <= f.calls@.len() == want.calls.len(),
            want == unit_from(f@),
            views_of(calls@) == want.calls.take(k as int),
        decreases f.calls@.len() - k,
    {
        let c = CallSite { call: f.calls[k].clone(), module: String::new() };
        proof {
            assert(f@.calls[k as int] == f.calls@[k as int]@);
            assert(c@.module =~= Seq::<char>::empty());
            lemma_push_take(calls@, c, want.calls, k as int);
        }
        calls.push(c);
        k += 1;
    }
    let u = FileUnit { path: f.path.clone(), defs, calls };
    proof {
        assert(want.defs.take(want.defs.len() as int) =~= want.defs);
        assert(want.calls.take(want.calls.len() as int) =~= want.calls);
        assert(u@ =~= want);
    }
    u
}

fn units_of_fragments(fs: &Vec<FileFragment>) -> (r: Vec<FileUnit>)
    ensures
        views_of(r@) == units_from(views_of(fs@)),
{
    let ghost want = units_from(views_of(fs@));
    let mut out: Vec<FileUnit> = Vec::new();
    let mut i: usize = 0;
    assert(views_of(out@) =~= want.take(0));
    while i < fs.len()
        invariant
            i <= fs@.len() == want.len(),
            want == units_from(views_of(fs@)),
            views_of(out@) == want.take(i as int),
        decreases fs@.len() - i,
    {
        let u = unit_of_fragment(&fs[i]);
        proof {
            assert(views_of(fs@)[i as int] == fs@[i as int]@);
            lemma_push_take(out@, u, want, i as int);
        }
        out.push(u);
        i += 1;
    }
    assert(want.take(want.len() as int) =~= want);
    out
}

/// Link fragments into one graph. Definitions are entered first, so a call finds
/// its target in whatever fragment it stands.
pub fn resolve_fragments(fragments: &Vec<FileFragment>) -> (r: CodeGraph)
    requires
        linkable(units_from(views_of(fragments@))),
    ensures
        r.wf(),
        r@ == linked(Lang::Rust, units_from(views_of(fragments@))),
{
    let us = units_of_fragments(fragments);
    link_units(Lang::Rust, &us)
}

/// Whether every definition of the fragments is valid.
fn fragments_valid(fs: &Vec<FileFragment>) -> (r: bool)
    ensures
        r == forall|i: int|
            0 <= i < fs@.len() ==> unit_valid(#[trigger] units_from(views_of(fs@))[i]),
{
    let ghost us = units_from(views_of(fs@));
    let mut i: usize = 0;
    while i < fs.len()
        invariant
            i <= fs@.len() == us.len(),
            us == units_from(views_of(fs@)),
            forall|k: int| 0 <= k < i ==> unit_valid(#[trigger] us[k]),
        decreases fs@.len() - i,
    {
        let f = &fs[i];
        assert(us[i as int] == unit_from(f@));
        let mut j: usize = 0;
        while j < f.defs.len()
            invariant
                j <= f.defs@.len() == us[i as int].defs.len(),
                i < us.len() == fs@.len(),
                us == units_from(views_of(fs@)),
                us[i as int] == unit_from(f@),
                forall|k: int| 0 <= k < j ==> (#[trigger] us[i as int].defs[k]).node.valid(),
            decreases f.defs@.len() - j,
        {
            assert(us[i as int].defs[j as int].node == f.defs@[j as int]@);
            if f.defs[j].stats.decision_points == u32::MAX {
                assert(!us[i as int].defs[j as int].node.valid());
                return false;
            }
            j += 1;
        }
        i += 1;
    }
    true
}

/// The outcome of linking fragments that may be too many.
pub open spec fn fragments_result(fs: Seq<FragmentModel>) -> Result<GraphModel, AdapterErrorModel> {
    link_result(Lang::Rust, units_from(fs))
}

fn link_fragments(fragments: &Vec<FileFragment>) -> (r: Result<CodeGraph, AdapterError>)
    ensures
        graph_result(r) == fragments_result(views_of(fragments@)),
        r is Ok ==> r->Ok_0.wf(),
{
    let ghost us = units_from(views_of(fragments@));
    if !fragments_valid(fragments) {
        proof {
            let i = choose|i: int| 0 <= i < fragments@.len() && !unit_valid(#[trigger] us[i]);
            let j = choose|j: int|
                0 <= j < us[i].defs.len() && !(#[trigger] us[i].defs[j]).node.valid();
            assert(!us[i].defs[j].node.valid());
            assert(!linkable(us));
        }
        return Err(AdapterError::Other("too many files, definitions or calls".to_owned()));
    }
    let units = units_of_fragments(fragments);
    assert forall|i: int| 0 <= i < units@.len() implies unit_valid((#[trigger] units@[i])@) by {
        assert(views_of(units@)[i] == units@[i]@);
        assert(unit_valid(us[i]));
    }
    link_checked(Lang::Rust, &units)
}

/// Read a batch of Rust files into one call graph: every file is read on its own,
/// then the fragments are linked.
pub fn parse_rust(files: &Vec<SourceFile>) -> (r: Result<CodeGraph, AdapterError>)
    ensures
        graph_result(r) == rust_result(views_of(files@)),
        r is Ok ==> r->Ok_0.wf(),
{
    if let Some(e) = grammar_error(Grammar::Rust) {
        return Err(AdapterError::Other(concat2(grammar_message_of(Lang::Rust), e.as_str())));
    }
    let ghost fs = views_of(files@);
    let mut out: Vec<FileFragment> = Vec::new();
    let mut i: usize = 0;
    assert(fs.take(0) =~= Seq::empty());
    assert(views_of(out@) =~= Seq::<FragmentModel>::empty());
    while i < files.len()
        invariant
            i <= files@.len(),
            fs == views_of(files@),
            grammar_failure(Grammar::Rust) is None,
            fragments_for(fs.take(i as int)) == Ok::<Seq<FragmentModel>, AdapterErrorModel>(
                views_of(out@),
            ),
        decreases files@.len() - i,
    {
        proof {
            assert(fs[i as int] == files@[i as int]@);
            assert(fs.take(i + 1).drop_last() =~= fs.take(i as int));
            assert(fs.take(i + 1).last() == files@[i as int]@);
        }
        match extract_file(&files[i]) {
            Ok(f) => {
                proof {
                    crate::seqs::lemma_views_push(out@, f);
                }
                out.push(f);
            },
            Err(e) => {
                proof {
                    lemma_first_fragment_error(fs, i + 1);
                }
                return Err(e);
            },
        }
        i += 1;
    }
    assert(fs.take(fs.len() as int) =~= fs);
    link_fragments(&out)
}

proof fn lemma_first_fragment_error(files: Seq<SourceModel>, k: int)
    requires
        0 <= k <= files.len(),
        fragments_for(files.take(k)) is Err,
    ensures
        fragments_for(files) == fragments_for(files.take(k)),
    decreases files.len(),
{
    if k < files.len() {
        assert(files.drop_last().take(k) =~= files.take(k));
        lemma_first_fragment_error(files.drop_last(), k);
    } else {
        assert(files.take(k) =~= files);
    }
}

/// Linking fragments that were read before gives the graph that reading all files
/// anew gives: whether a fragment was kept or read again makes no difference.
pub proof fn law_incremental_matches_parse(files: Seq<SourceModel>, kept: Seq<FragmentModel>)
    requires
        grammar_failure(Grammar::Rust) is None,
        kept.len() == files.len(),
        forall|i: int|
            0 <= i < files.len() ==> fragment_for(#[trigger] files[i]) == Ok::<
                FragmentModel,
                AdapterErrorModel,
            >(kept[i]),
    ensures
        fragments_result(kept) == rust_result(files),
{
    lemma_kept(files, kept);
}

proof fn lemma_kept(files: Seq<SourceModel>, kept: Seq<FragmentModel>)
    requires
        kept.len() == files.len(),
        forall|i: int|
            0 <= i < files.len() ==> fragment_for(#[trigger] files[i]) == Ok::<
                FragmentModel,
                AdapterErrorModel,
            >(kept[i]),
    ensures
        fragments_for(files) == Ok::<Seq<FragmentModel>, AdapterErrorModel>(kept),
    decreases files.len(),
{
    if files.len() > 0 {
        let front = files.drop_last();
        assert forall|i: int| 0 <= i < front.len() implies fragment_for(#[trigger] front[i]) == Ok::<
            FragmentModel,
            AdapterErrorModel,
        >(kept.drop_last()[i]) by {
            assert(front[i] == files[i]);
        }
        lemma_kept(front, kept.drop_last());
        assert(files[files.len() - 1] == files.last());
        assert(kept.drop_last().push(kept.last()) =~= kept);
    } else {
        assert(kept =~= Seq::empty());
    }
}

// -- adapters -----------------------------------------------------------------------

/// A language front end.
pub trait LanguageAdapter {
    /// The stable name.
    spec fn title(&self) -> Seq<char>;

    /// The extensions of the files that it reads.
    spec fn endings(&self) -> Seq<Seq<char>>;

    /// What parsing a batch of files gives.
    spec fn outcome(&self, files: Seq<SourceModel>) -> Result<GraphModel, AdapterErrorModel>;

    /// Files can be read one by one and linked later.
    spec fn incremental(&self) -> bool;

    /// What reading one file gives.
    spec fn file_outcome(&self, f: SourceModel) -> Result<FragmentModel, AdapterErrorModel>;

    /// What linking fragments gives.
    spec fn link_outcome(&self, fs: Seq<FragmentModel>) -> Result<GraphModel, AdapterErrorModel>;

    /// Stable identifier.
    fn name(&self) -> (r: &'static str)
        ensures
            r@ == self.title(),
    ;

    /// The file extensions that the adapter handles, without the dot.
    fn extensions(&self) -> (r: Vec<&'static str>)
        ensures
            views_of(r@) == self.endings(),
    ;

    /// Read a batch of files into one graph.
    fn parse(&self, files: &Vec<SourceFile>) -> (r: Result<CodeGraph, AdapterError>)
        ensures
            graph_result(r) == self.outcome(views_of(files@)),
            r is Ok ==> r->Ok_0.wf(),
    ;

    /// Whether files can be read one by one and linked later.
    fn supports_incremental(&self) -> (r: bool)
        ensures
            r == self.incremental(),
    ;

    /// Read one file; an error where the adapter is not incremental.
    fn extract_fragment(&self, file: &SourceFile) -> (r: Result<FileFragment, AdapterError>)
        ensures
            fragment_result(r) == self.file_outcome(file@),
    ;

    /// Link fragments; an error where the adapter is not incremental.
    fn resolve_fragments(&self, fragments: &Vec<FileFragment>) -> (r: Result<
        CodeGraph,
        AdapterError,
    >)
        ensures
            graph_result(r) == self.link_outcome(views_of(fragments@)),
            r is Ok ==> r->Ok_0.wf(),
    ;
}

/// What an adapter that is not incremental says of reading one file.
pub open spec fn no_extraction() -> AdapterErrorModel {
    AdapterErrorModel::Other("this adapter does not support incremental extraction"@)
}

/// What an adapter that is not incremental says of linking fragments.
pub open spec fn no_resolution() -> AdapterErrorModel {
    AdapterErrorModel::Other("this adapter does not support incremental resolution"@)
}

fn extraction_refused() -> (r: Result<FileFragment, AdapterError>)
    ensures
        fragment_result(r) == Err::<FragmentModel, AdapterErrorModel>(no_extraction()),
{
    Err(
        AdapterError::Other(
            "this adapter does not support incremental extraction".to_owned(),
        ),
    )
}

fn resolution_refused() -> (r: Result<CodeGraph, AdapterError>)
    ensures
        graph_result(r) == Err::<GraphModel, AdapterErrorModel>(no_resolution()),
{
    Err(
        AdapterError::Other(
            "this adapter does not support incremental resolution".to_owned(),
        ),
    )
}

fn one_ending(e: &'static str) -> (r: Vec<&'static str>)
    ensures
        views_of(r@) == seq![e@],
{
    let mut v: Vec<&'static str> = Vec::new();
    v.push(e);
    assert(views_of(v@) =~= seq![e@]);
    v
}

/// The Rust front end.
#[derive(Debug, Clone, Copy)]
pub struct RustTreeSitterAdapter;

impl RustTreeSitterAdapter {
    pub fn new() -> (r: Self)
        ensures
            r == RustTreeSitterAdapter,
    {
        RustTreeSitterAdapter
    }
}

impl LanguageAdapter for RustTreeSitterAdapter {
    open spec fn title(&self) -> Seq<char> {
        "treesitter-rust"@
    }

    open spec fn endings(&self) -> Seq<Seq<char>> {
        seq!["rs"@]
    }

    open spec fn outcome(&self, files: Seq<SourceModel>) -> Result<GraphModel, AdapterErrorModel> {
        rust_result(files)
    }

    open spec fn incremental(&self) -> bool {
        true
    }

    open spec fn file_outcome(&self, f: SourceModel) -> Result<FragmentModel, AdapterErrorModel> {
        fragment_for(f)
    }

    open spec fn link_outcome(&self, fs: Seq<FragmentModel>) -> Result<
        GraphModel,
        AdapterErrorModel,
    > {
        fragments_result(fs)
    }

    fn name(&self) -> (r: &'static str) {
        "treesitter-rust"
    }

    fn extensions(&self) -> (r: Vec<&'static str>) {
        one_ending("rs")
    }

    fn parse(&self, files: &Vec<SourceFile>) -> (r: Result<CodeGraph, AdapterError>) {
        parse_rust(files)
    }

    fn supports_incremental(&self) -> (r: bool) {
        true
    }

    fn extract_fragment(&self, file: &SourceFile) -> (r: Result<FileFragment, AdapterError>) {
        extract_file(file)
    }

    fn resolve_fragments(&self, fragments: &Vec<FileFragment>) -> (r: Result<
        CodeGraph,
        AdapterError,
    >) {
        link_fragments(fragments)
    }
}

/// The Go front end.
#[derive(Debug, Clone, Copy)]
pub struct GoTreeSitterAdapter;

impl GoTreeSitterAdapter {
    pub fn new() -> (r: Self)
        ensures
            r == GoTreeSitterAdapter,
    {
        GoTreeSitterAdapter
    }
}

impl LanguageAdapter for GoTreeSitterAdapter {
    open spec fn title(&self) -> Seq<char> {
        "treesitter-go"@
    }

    open spec fn endings(&self) -> Seq<Seq<char>> {
        seq!["go"@]
    }

    open spec fn outcome(&self, files: Seq<SourceModel>) -> Result<GraphModel, AdapterErrorModel> {
        parse_result(Lang::Go, files)
    }

    open spec fn incremental(&self) -> bool {
        false
    }

    open spec fn file_outcome(&self, f: SourceModel) -> Result<FragmentModel, AdapterErrorModel> {
        Err(no_extraction())
    }

    open spec fn link_outcome(&self, fs: Seq<FragmentModel>) -> Result<
        GraphModel,
        AdapterErrorModel,
    > {
        Err(no_resolution())
    }

    fn name(&self) -> (r: &'static str) {
        "treesitter-go"
    }

    fn extensions(&self) -> (r: Vec<&'static str>) {
        one_ending("go")
    }

    fn parse(&self, files: &Vec<SourceFile>) -> (r: Result<CodeGraph, AdapterError>) {
        parse_go(files)
    }

    fn supports_incremental(&self) -> (r: bool) {
        false
    }

    fn extract_fragment(&self, file: &SourceFile) -> (r: Result<FileFragment, AdapterError>) {
        extraction_refused()
    }

    fn resolve_fragments(&self, fragments: &Vec<FileFragment>) -> (r: Result<
        CodeGraph,
        AdapterError,
    >) {
        resolution_refused()
    }
}

/// The Python front end.
#[derive(Debug, Clone, Copy)]
pub struct PythonTreeSitterAdapter;

impl PythonTreeSitterAdapter {
    pub fn new() -> (r: Self)
        ensures
            r == PythonTreeSitterAdapter,
    {
        PythonTreeSitterAdapter
    }
}

impl LanguageAdapter for PythonTreeSitterAdapter {
    open spec fn title(&self) -> Seq<char> {
        "treesitter-python"@
    }

    open spec fn endings(&self) -> Seq<Seq<char>> {
        seq!["py"@, "pyi"@]
    }

    open spec fn outcome(&self, files: Seq<SourceModel>) -> Result<GraphModel, AdapterErrorModel> {
        parse_result(Lang::Python, files)
    }

    open spec fn incremental(&self) -> bool {
        false
    }

    open spec fn file_outcome(&self, f: SourceModel) -> Result<FragmentModel, AdapterErrorModel> {
        Err(no_extraction())
    }

    open spec fn link_outcome(&self, fs: Seq<FragmentModel>) -> Result<
        GraphModel,
        AdapterErrorModel,
    > {
        Err(no_resolution())
    }

    fn name(&self) -> (r: &'static str) {
        "treesitter-python"
    }

    fn extensions(&self) -> (r: Vec<&'static str>) {
        let mut v: Vec<&'static str> = Vec::new();
        v.push("py");
        v.push("pyi");
        assert(views_of(v@) =~= seq!["py"@, "pyi"@]);
        v
    }

    fn parse(&self, files: &Vec<SourceFile>) -> (r: Result<CodeGraph, AdapterError>) {
        parse_python(files)
    }

    fn supports_incremental(&self) -> (r: bool) {
        false
    }

    fn extract_fragment(&self, file: &SourceFile) -> (r: Result<FileFragment, AdapterError>) {
        extraction_refused()
    }

    fn resolve_fragments(&self, fragments: &Vec<FileFragment>) -> (r: Result<
        CodeGraph,
        AdapterError,
    >) {
        resolution_refused()
    }
}

/// The TypeScript front end.
#[derive(Debug, Clone, Copy)]
pub struct TypeScriptTreeSitterAdapter;

impl TypeScriptTreeSitterAdapter {
    pub fn new() -> (r: Self)
        ensures
            r == TypeScriptTreeSitterAdapter,
    {
        TypeScriptTreeSitterAdapter
    }
}

impl LanguageAdapter for TypeScriptTreeSitterAdapter {
    open spec fn title(&self) -> Seq<char> {
        "treesitter-typescript"@
    }

    open spec fn endings(&self) -> Seq<Seq<char>> {
        seq!["ts"@, "tsx"@, "mts"@, "cts"@]
    }

    open spec fn outcome(&self, files: Seq<SourceModel>) -> Result<GraphModel, AdapterErrorModel> {
        parse_result(Lang::TypeScript, files)
    }

    open spec fn incremental(&self) -> bool {
        false
    }

    open spec fn file_outcome(&self, f: SourceModel) -> Result<FragmentModel, AdapterErrorModel> {
        Err(no_extraction())
    }

    open spec fn link_outcome(&self, fs: Seq<FragmentModel>) -> Result<
        GraphModel,
        AdapterErrorModel,
    > {
        Err(no_resolution())
    }

    fn name(&self) -> (r: &'static str) {
        "treesitter-typescript"
    }

    fn extensions(&self) -> (r: Vec<&'static str>) {
        let mut v: Vec<&'static str> = Vec::new();
        v.push("ts");
        v.push("tsx");
        v.push("mts");
        v.push("cts");
        assert(views_of(v@) =~= seq!["ts"@, "tsx"@, "mts"@, "cts"@]);
        v
    }

    fn parse(&self, files: &Vec<SourceFile>) -> (r: Result<CodeGraph, AdapterError>) {
        parse_typescript(files)
    }

    fn supports_incremental(&self) -> (r: bool) {
        false
    }

    fn extract_fragment(&self, file: &SourceFile) -> (r: Result<FileFragment, AdapterError>) {
        extraction_refused()
    }

    fn resolve_fragments(&self, fragments: &Vec<FileFragment>) -> (r: Result<
        CodeGraph,
        AdapterError,
    >) {
        resolution_refused()
    }
}

/// The semantic Rust front end. This library links what a semantic backend reports
/// (see [`crate::semantic`]) but holds no such backend itself.
#[derive(Debug, Clone, Copy)]
pub struct RustAnalyzerAdapter;

/// What is said where no semantic backend is present.
pub open spec fn no_backend() -> AdapterErrorModel {
    AdapterErrorModel::Other(
        "lcw-adapter-ra was built without the `semantic` feature; rebuild with `--features semantic` (or the engine's `semantic` feature) to enable the rust-analyzer backend"@,
    )
}

impl RustAnalyzerAdapter {
    pub fn new() -> (r: Self)
        ensures
            r == RustAnalyzerAdapter,
    {
        RustAnalyzerAdapter
    }

    /// Whether a semantic backend is present: it is not.
    pub fn is_semantic_enabled() -> (r: bool)
        ensures
            !r,
    {
        false
    }
}

impl LanguageAdapter for RustAnalyzerAdapter {
    open spec fn title(&self) -> Seq<char> {
        "rust-analyzer"@
    }

    open spec fn endings(&self) -> Seq<Seq<char>> {
        seq!["rs"@]
    }

    open spec fn outcome(&self, files: Seq<SourceModel>) -> Result<GraphModel, AdapterErrorModel> {
        Err(no_backend())
    }

    open spec fn incremental(&self) -> bool {
        false
    }

    open spec fn file_outcome(&self, f: SourceModel) -> Result<FragmentModel, AdapterErrorModel> {
        Err(no_extraction())
    }

    open spec fn link_outcome(&self, fs: Seq<FragmentModel>) -> Result<
        GraphModel,
        AdapterErrorModel,
    > {
        Err(no_resolution())
    }

    fn name(&self) -> (r: &'static str) {
        "rust-analyzer"
    }

    fn extensions(&self) -> (r: Vec<&'static str>) {
        one_ending("rs")
    }

    fn parse(&self, files: &Vec<SourceFile>) -> (r: Result<CodeGraph, AdapterError>) {
        Err(
            AdapterError::Other(
                "lcw-adapter-ra was built without the `semantic` feature; rebuild with `--features semantic` (or the engine's `semantic` feature) to enable the rust-analyzer backend".to_owned(),
            ),
        )
    }

    fn supports_incremental(&self) -> (r: bool) {
        false
    }

    fn extract_fragment(&self, file: &SourceFile) -> (r: Result<FileFragment, AdapterError>) {
        extraction_refused()
    }

    fn resolve_fragments(&self, fragments: &Vec<FileFragment>) -> (r: Result<
        CodeGraph,
        AdapterError,
    >) {
        resolution_refused()
    }
}

/// A front end by its language.
#[derive(Debug, Clone, Copy)]
pub enum AnyAdapter {
    Rust(RustTreeSitterAdapter),
    Go(GoTreeSitterAdapter),
    Python(PythonTreeSitterAdapter),
    TypeScript(TypeScriptTreeSitterAdapter),
}

impl AnyAdapter {
    /// The front end of a language.
    pub open spec fn spec_of(lang: Lang) -> AnyAdapter {
        match lang {
            Lang::Rust => AnyAdapter::Rust(RustTreeSitterAdapter),
            Lang::Go => AnyAdapter::Go(GoTreeSitterAdapter),
            Lang::Python => AnyAdapter::Python(PythonTreeSitterAdapter),
            Lang::TypeScript => AnyAdapter::TypeScript(TypeScriptTreeSitterAdapter),
        }
    }

    /// The front end of a language.
    pub fn of(lang: Lang) -> (r: Self)
        ensures
            r == AnyAdapter::spec_of(lang),
    {
        match lang {
            Lang::Rust => AnyAdapter::Rust(RustTreeSitterAdapter::new()),
            Lang::Go => AnyAdapter::Go(GoTreeSitterAdapter::new()),
            Lang::Python => AnyAdapter::Python(PythonTreeSitterAdapter::new()),
            Lang::TypeScript => AnyAdapter::TypeScript(TypeScriptTreeSitterAdapter::new()),
        }
    }
}

impl LanguageAdapter for AnyAdapter {
    open spec fn title(&self) -> Seq<char> {
        match self {
            AnyAdapter::Rust(a) => a.title(),
            AnyAdapter::Go(a) => a.title(),
            AnyAdapter::Python(a) => a.title(),
            AnyAdapter::TypeScript(a) => a.title(),
        }
    }

    open spec fn endings(&self) -> Seq<Seq<char>> {
        match self {
            AnyAdapter::Rust(a) => a.endings(),
            AnyAdapter::Go(a) => a.endings(),
            AnyAdapter::Python(a) => a.endings(),
            AnyAdapter::TypeScript(a) => a.endings(),
        }
    }

    open spec fn outcome(&self, files: Seq<SourceModel>) -> Result<GraphModel, AdapterErrorModel> {
        match self {
            AnyAdapter::Rust(a) => a.outcome(files),
            AnyAdapter::Go(a) => a.outcome(files),
            AnyAdapter::Python(a) => a.outcome(files),
            AnyAdapter::TypeScript(a) => a.outcome(files),
        }
    }

    open spec fn incremental(&self) -> bool {
        match self {
            AnyAdapter::Rust(a) => a.incremental(),
            AnyAdapter::Go(a) => a.incremental(),
            AnyAdapter::Python(a) => a.incremental(),
            AnyAdapter::TypeScript(a) => a.incremental(),
        }
    }

    open spec fn file_outcome(&self, f: SourceModel) -> Result<FragmentModel, AdapterErrorModel> {
        match self {
            AnyAdapter::Rust(a) => a.file_outcome(f),
            AnyAdapter::Go(a) => a.file_outcome(f),
            AnyAdapter::Python(a) => a.file_outcome(f),
            AnyAdapter::TypeScript(a) => a.file_outcome(f),
        }
    }

    open spec fn link_outcome(&self, fs: Seq<FragmentModel>) -> Result<
        GraphModel,
        AdapterErrorModel,
    > {
        match self {
            AnyAdapter::Rust(a) => a.link_outcome(fs),
            AnyAdapter::Go(a) => a.link_outcome(fs),
            AnyAdapter::Python(a) => a.link_outcome(fs),
            AnyAdapter::TypeScript(a) => a.link_outcome(fs),
        }
    }

    fn name(&self) -> (r: &'static str) {
        match self {
            AnyAdapter::Rust(a) => a.name(),
            AnyAdapter::Go(a) => a.name(),
            AnyAdapter::Python(a) => a.name(),
            AnyAdapter::TypeScript(a) => a.name(),
        }
    }

    fn extensions(&self) -> (r: Vec<&'static str>) {
        match self {
            AnyAdapter::Rust(a) => a.extensions(),
            AnyAdapter::Go(a) => a.extensions(),
            AnyAdapter::Python(a) => a.extensions(),
            AnyAdapter::TypeScript(a) => a.extensions(),
        }
    }

    fn parse(&self, files: &Vec<SourceFile>) -> (r: Result<CodeGraph, AdapterError>) {
        match self {
            AnyAdapter::Rust(a) => a.parse(files),
            AnyAdapter::Go(a) => a.parse(files),
            AnyAdapter::Python(a) => a.parse(files),
            AnyAdapter::TypeScript(a) => a.parse(files),
        }
    }

    fn supports_incremental(&self) -> (r: bool) {
        match self {
            AnyAdapter::Rust(a) => a.supports_incremental(),
            AnyAdapter::Go(a) => a.supports_incremental(),
            AnyAdapter::Python(a) => a.supports_incremental(),
            AnyAdapter::TypeScript(a) => a.supports_incremental(),
        }
    }

    fn extract_fragment(&self, file: &SourceFile) -> (r: Result<FileFragment, AdapterError>) {
        match self {
            AnyAdapter::Rust(a) => a.extract_fragment(file),
            AnyAdapter::Go(a) => a.extract_fragment(file),
            AnyAdapter::Python(a) => a.extract_fragment(file),
            AnyAdapter::TypeScript(a) => a.extract_fragment(file),
        }
    }

    fn resolve_fragments(&self, fragments: &Vec<FileFragment>) -> (r: Result<
        CodeGraph,
        AdapterError,
    >) {
        match self {
            AnyAdapter::Rust(a) => a.resolve_fragments(fragments),
            AnyAdapter::Go(a) => a.resolve_fragments(fragments),
            AnyAdapter::Python(a) => a.resolve_fragments(fragments),
            AnyAdapter::TypeScript(a) => a.resolve_fragments(fragments),
        }
    }
}

} // verus!
