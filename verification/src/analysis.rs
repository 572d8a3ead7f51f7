//! The analysis stage: metrics and findings over a report's graph.

use crate::config::Config;
use crate::diagnostic::{Diagnostic, DiagnosticModel};
use crate::ext::{
    extended_lenses, DeadCodeLens, ExtLensConfig, GodFunctionLens, HotspotLens, RecursionCycleLens,
    UnstableDependencyLens,
};
use crate::graph::{CodeGraph, GraphModel};
use crate::lenses::{ComplexityLens, HazardsLens, LayeringLens, Lens, ParadigmLens, PurityLens};
use crate::metrics::{compute, cyclicity, metrics_of, on_cycle};
use crate::order::{
    arrange, key_views, lemma_key_push, lemma_order_exists, placed_before, sort_order, stable_order, text_key, KeyModel, SortKey,
};
use crate::report::{AnalysisReport, ReportModel};
use crate::seqs::{gather, lemma_push_take, lemma_tally_bound, lemma_tally_zero, views_of};
use vstd::prelude::*;

verus! {

/// Any of the lenses.
#[derive(Debug, Clone, Copy, PartialEq, Eq, Structural)]
pub enum AnyLens {
    Complexity(ComplexityLens),
    Hazards(HazardsLens),
    Purity(PurityLens),
    Layering(LayeringLens),
    Paradigm(ParadigmLens),
    RecursionCycle(RecursionCycleLens),
    DeadCode(DeadCodeLens),
    GodFunction(GodFunctionLens),
    Hotspot(HotspotLens),
    UnstableDependency(UnstableDependencyLens),
}

impl Lens for AnyLens {
    open spec fn title(&self) -> Seq<char> {
        match self {
            AnyLens::Complexity(l) => l.title(),
            AnyLens::Hazards(l) => l.title(),
            AnyLens::Purity(l) => l.title(),
            AnyLens::Layering(l) => l.title(),
            AnyLens::Paradigm(l) => l.title(),
            AnyLens::RecursionCycle(l) => l.title(),
            AnyLens::DeadCode(l) => l.title(),
            AnyLens::GodFunction(l) => l.title(),
            AnyLens::Hotspot(l) => l.title(),
            AnyLens::UnstableDependency(l) => l.title(),
        }
    }

    open spec fn findings(&self, g: GraphModel, config: Config) -> Seq<DiagnosticModel> {
        match self {
            AnyLens::Complexity(l) => l.findings(g, config),
            AnyLens::Hazards(l) => l.findings(g, config),
            AnyLens::Purity(l) => l.findings(g, config),
            AnyLens::Layering(l) => l.findings(g, config),
            AnyLens::Paradigm(l) => l.findings(g, config),
            AnyLens::RecursionCycle(l) => l.findings(g, config),
            AnyLens::DeadCode(l) => l.findings(g, config),
            AnyLens::GodFunction(l) => l.findings(g, config),
            AnyLens::Hotspot(l) => l.findings(g, config),
            AnyLens::UnstableDependency(l) => l.findings(g, config),
        }
    }

    fn name(&self) -> (r: &'static str) {
        match self {
            AnyLens::Complexity(l) => l.name(),
            AnyLens::Hazards(l) => l.name(),
            AnyLens::Purity(l) => l.name(),
            AnyLens::Layering(l) => l.name(),
            AnyLens::Paradigm(l) => l.name(),
            AnyLens::RecursionCycle(l) => l.name(),
            AnyLens::DeadCode(l) => l.name(),
            AnyLens::GodFunction(l) => l.name(),
            AnyLens::Hotspot(l) => l.name(),
            AnyLens::UnstableDependency(l) => l.name(),
        }
    }

    fn evaluate(&self, graph: &CodeGraph, config: &Config) -> (r: Vec<Diagnostic>) {
        match self {
            AnyLens::Complexity(l) => l.evaluate(graph, config),
            AnyLens::Hazards(l) => l.evaluate(graph, config),
            AnyLens::Purity(l) => l.evaluate(graph, config),
            AnyLens::Layering(l) => l.evaluate(graph, config),
            AnyLens::Paradigm(l) => l.evaluate(graph, config),
            AnyLens::RecursionCycle(l) => l.evaluate(graph, config),
            AnyLens::DeadCode(l) => l.evaluate(graph, config),
            AnyLens::GodFunction(l) => l.evaluate(graph, config),
            AnyLens::Hotspot(l) => l.evaluate(graph, config),
            AnyLens::UnstableDependency(l) => l.evaluate(graph, config),
        }
    }
}

/// The lens, where the switch is on.
pub open spec fn switched(on: bool, lens: AnyLens) -> Seq<AnyLens> {
    if on {
        seq![lens]
    } else {
        Seq::empty()
    }
}

/// The lenses that the configuration enables, in their fixed order.
pub open spec fn enabled(config: Config) -> Seq<AnyLens> {
    switched(config.lenses.complexity, AnyLens::Complexity(ComplexityLens)) + switched(
        config.lenses.hazards,
        AnyLens::Hazards(HazardsLens),
    ) + switched(config.lenses.purity, AnyLens::Purity(PurityLens)) + switched(
        config.lenses.layering,
        AnyLens::Layering(LayeringLens),
    ) + switched(config.lenses.paradigm, AnyLens::Paradigm(ParadigmLens))
}

/// The lenses that the configuration enables, in their fixed order.
pub fn enabled_lenses(config: &Config) -> (r: Vec<AnyLens>)
    ensures
        r@ == enabled(*config),
{
    let mut out: Vec<AnyLens> = Vec::new();
    if config.lenses.complexity {
        out.push(AnyLens::Complexity(ComplexityLens));
    }
    if config.lenses.hazards {
        out.push(AnyLens::Hazards(HazardsLens));
    }
    if config.lenses.purity {
        out.push(AnyLens::Purity(PurityLens));
    }
    if config.lenses.layering {
        out.push(AnyLens::Layering(LayeringLens));
    }
    if config.lenses.paradigm {
        out.push(AnyLens::Paradigm(ParadigmLens));
    }
    assert(out@ =~= enabled(*config));
    out
}

/// What a list of lenses finds, lens by lens.
pub open spec fn all_findings(lenses: Seq<AnyLens>, g: GraphModel, config: Config) -> Seq<
    DiagnosticModel,
> {
    gather(lenses.len() as int, |i: int| lenses[i].findings(g, config))
}

/// By what a finding is sorted: the most severe first, then by node, then by code.
pub open spec fn finding_key(d: DiagnosticModel) -> KeyModel {
    text_key(
        seq![
            (3 - d.severity.spec_rank()) as u64,
            match d.node {
                None => 0,
                Some(id) => (id.0 + 1) as u64,
            },
        ],
        d.code,
    )
}

pub open spec fn finding_keys(ds: Seq<DiagnosticModel>) -> Seq<KeyModel> {
    ds.map_values(|d: DiagnosticModel| finding_key(d))
}

/// The findings in order.
pub open spec fn sorted(ds: Seq<DiagnosticModel>) -> Seq<DiagnosticModel> {
    arrange(ds, finding_keys(ds))
}

/// The findings in order: the most severe first, then by node, then by code; equal
/// ones stay as they came.
pub fn sort_findings(ds: &Vec<Diagnostic>) -> (r: Vec<Diagnostic>)
    ensures
        views_of(r@) == sorted(views_of(ds@)),
{
    let ghost all = views_of(ds@);
    let ghost want = finding_keys(all);
    let mut keys: Vec<SortKey> = Vec::new();
    let mut i: usize = 0;
    while i < ds.len()
        invariant
            i <= ds@.len(),
            all == views_of(ds@),
            want == finding_keys(all),
            key_views(keys@) == want.take(i as int),
        decreases ds@.len() - i,
    {
        let d = &ds[i];
        let mut ranks: Vec<u64> = Vec::new();
        ranks.push(3 - d.severity.rank());
        ranks.push(
            match d.node {
                None => 0,
                Some(id) => id.0 as u64 + 1,
            },
        );
        let key = SortKey { ranks, text: d.code.clone(), minor: 0 };
        proof {
            assert(key@.ranks =~= finding_key(d@).ranks);
            lemma_key_push(keys@, key, want, i as int);
        }
        keys.push(key);
        i += 1;
    }
    assert(want.take(want.len() as int) =~= want);
    let order = sort_order(&keys);
    let ghost goal = sorted(all);
    let mut out: Vec<Diagnostic> = Vec::new();
    let mut j: usize = 0;
    proof {
        assert(views_of(out@) =~= goal.take(0));
    }
    while j < order.len()
        invariant
            j <= order@.len() == goal.len(),
            all == views_of(ds@),
            goal == sorted(all),
            order@.map_values(|x: usize| x as int) == stable_order(finding_keys(all)),
            forall|x: int| 0 <= x < order@.len() ==> #[trigger] order@[x] < ds@.len(),
            views_of(out@) == goal.take(j as int),
        decreases order@.len() - j,
    {
        let d = ds[order[j]].clone();
        proof {
            let p = order@.map_values(|x: usize| x as int);
            assert(p[j as int] == order@[j as int]);
            assert(goal[j as int] == all[p[j as int]]);
            lemma_push_take(out@, d, goal, j as int);
        }
        out.push(d);
        j += 1;
    }
    assert(goal.take(goal.len() as int) =~= goal);
    out
}

/// Add what the lenses find to the end of a list.
fn run_lenses(
    lenses: &Vec<AnyLens>,
    graph: &CodeGraph,
    config: &Config,
    out: &mut Vec<Diagnostic>,
)
    requires
        graph.wf(),
    ensures
        views_of(final(out)@) == views_of(old(out)@) + all_findings(lenses@, graph@, *config),
{
    let ghost g = graph@;
    let ghost f = |i: int| lenses@[i].findings(g, *config);
    let ghost before = views_of(out@);
    let mut i: usize = 0;
    proof {
        assert(before + gather(0, f) =~= before);
    }
    while i < lenses.len()
        invariant
            graph.wf(),
            g == graph@,
            f == (|i: int| lenses@[i].findings(g, *config)),
            i <= lenses@.len(),
            views_of(out@) == before + gather(i as int, f),
        decreases lenses@.len() - i,
    {
        let mut found = lenses[i].evaluate(graph, config);
        let ghost mid = out@;
        let ghost new = found@;
        out.append(&mut found);
        proof {
            assert(views_of(mid + new) =~= views_of(mid) + views_of(new));
            assert(views_of(out@) =~= before + gather(i + 1, f));
        }
        i += 1;
    }
}

/// A report after the analysis stage.
pub open spec fn analyzed(r: ReportModel, config: Config) -> ReportModel {
    ReportModel {
        metrics: r.metrics + metrics_of(r.graph, config),
        diagnostics: sorted(r.diagnostics + all_findings(enabled(config), r.graph, config)),
        ..r
    }
}

/// Compute the metrics of a report's graph, add what the enabled lenses find, and put
/// the findings in order.
pub fn analyze(config: &Config, report: &mut AnalysisReport)
    requires
        old(report).graph.wf(),
    ensures
        final(report)@ == analyzed(old(report)@, *config),
        final(report).graph == old(report).graph,
{
    let mut found = compute(&report.graph, config);
    report.metrics.append(&mut found);
    let lenses = enabled_lenses(config);
    run_lenses(&lenses, &report.graph, config, &mut report.diagnostics);
    report.diagnostics = sort_findings(&report.diagnostics);
    assert(report@ =~= analyzed(old(report)@, *config));
}

/// A report after the extended lenses: as it was where none is enabled.
pub open spec fn analyzed_extended(r: ReportModel, config: Config, ext: ExtLensConfig) -> ReportModel {
    if ext.disabled() {
        r
    } else {
        ReportModel {
            diagnostics: sorted(r.diagnostics + all_findings(ext.lenses(), r.graph, config)),
            ..r
        }
    }
}

/// Add what the enabled extended lenses find and put the findings in order. Where
/// none is enabled the report stays as it is.
pub fn analyze_extended(config: &Config, ext: &ExtLensConfig, report: &mut AnalysisReport)
    requires
        old(report).graph.wf(),
    ensures
        final(report)@ == analyzed_extended(old(report)@, *config, *ext),
        final(report).graph == old(report).graph,
{
    if ext.is_disabled() {
        return;
    }
    let lenses = extended_lenses(ext);
    run_lenses(&lenses, &report.graph, config, &mut report.diagnostics);
    report.diagnostics = sort_findings(&report.diagnostics);
    assert(report@ =~= analyzed_extended(old(report)@, *config, *ext));
}

// -- laws -----------------------------------------------------------------------------

/// Sorting keeps every finding and adds none, and puts the more severe ones first;
/// among equally severe ones those about the whole project come first, then those
/// about nodes in the order of their ids.
pub proof fn law_sorted_by_severity(ds: Seq<DiagnosticModel>)
    ensures
        sorted(ds).len() == ds.len(),
        forall|d: DiagnosticModel| #[trigger] sorted(ds).contains(d) <==> ds.contains(d),
        forall|i: int, j: int|
            0 <= i < j < ds.len() ==> (#[trigger] sorted(ds)[i]).severity.spec_rank()
                >= (#[trigger] sorted(ds)[j]).severity.spec_rank(),
        forall|i: int, j: int|
            0 <= i < j < ds.len() && (#[trigger] sorted(ds)[i]).severity == (
            #[trigger] sorted(ds)[j]).severity ==> match (sorted(ds)[i].node, sorted(ds)[j].node) {
                (Some(a), Some(b)) => a.0 <= b.0,
                (Some(_), None) => false,
                (None, _) => true,
            },
{
    let keys = finding_keys(ds);
    lemma_order_exists(keys);
    let p = stable_order(keys);
    let s = sorted(ds);
    assert forall|d: DiagnosticModel| #[trigger] s.contains(d) <==> ds.contains(d) by {
        if s.contains(d) {
            let i = s.index_of(d);
            assert(ds[p[i]] == d);
        }
        if ds.contains(d) {
            let x = ds.index_of(d);
            assert(p.contains(x));
            let i = p.index_of(x);
            assert(s[i] == d);
        }
    }
    assert forall|i: int, j: int| 0 <= i < j < ds.len() implies (
    #[trigger] s[i]).severity.spec_rank() >= (#[trigger] s[j]).severity.spec_rank() && (
    s[i].severity == s[j].severity ==> match (s[i].node, s[j].node) {
        (Some(a), Some(b)) => a.0 <= b.0,
        (Some(_), None) => false,
        (None, _) => true,
    }) by {
        assert(placed_before(keys, p[i], p[j]));
        let a = keys[p[i]].ranks;
        let b = keys[p[j]].ranks;
        assert(ds[p[i]] == s[i] && ds[p[j]] == s[j]);
        assert(a == finding_key(s[i]).ranks && b == finding_key(s[j]).ranks);
        reveal_with_fuel(crate::order::ranks_lt, 3);
        assert(a.skip(1)[0] == a[1] && b.skip(1)[0] == b[1]);
        assert(a.skip(1).skip(1) =~= Seq::empty());
        assert(b.skip(1).skip(1) =~= Seq::empty());
    }
}

/// A disabled configuration changes nothing; the metrics and the graph never change
/// under the extended lenses, and no finding is lost.
pub proof fn law_extended_only_adds(r: ReportModel, config: Config, ext: ExtLensConfig)
    ensures
        ext.disabled() ==> analyzed_extended(r, config, ext) == r,
        analyzed_extended(r, config, ext).graph == r.graph,
        analyzed_extended(r, config, ext).metrics == r.metrics,
        forall|d: DiagnosticModel| #[trigger]
            r.diagnostics.contains(d) ==> analyzed_extended(
                r,
                config,
                ext,
            ).diagnostics.contains(d),
{
    if !ext.disabled() {
        let more = all_findings(ext.lenses(), r.graph, config);
        law_sorted_by_severity(r.diagnostics + more);
        assert forall|d: DiagnosticModel| #[trigger] r.diagnostics.contains(d) implies (
        r.diagnostics + more).contains(d) by {
            assert((r.diagnostics + more)[r.diagnostics.index_of(d)] == d);
        }
    }
}

/// The share of nodes on a cycle lies between nothing and the whole.
pub proof fn law_cyclicity_is_a_share(g: GraphModel)
    requires
        g.wf(),
    ensures
        0 <= cyclicity(g).num <= cyclicity(g).den,
        cyclicity(g).den > 0,
        cyclicity(g).num == 0 <==> forall|v: int|
            0 <= v < g.nodes.len() ==> !#[trigger] on_cycle(g)(v),
{
    let n = g.nodes.len() as int;
    lemma_tally_bound(n, on_cycle(g));
    lemma_tally_zero(n, on_cycle(g));
}

} // verus!
