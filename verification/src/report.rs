//! The result of an analysis: the graph and what was found in it.

use crate::diagnostic::{Diagnostic, DiagnosticModel, Severity};
use crate::graph::{restored, snapshot_of, CodeGraph, GraphExport, GraphModel, GraphSnapshot, NodeKind};
use crate::metric::Metric;
use crate::seqs::{lemma_push_take, tally, views_of};
use crate::suggestion::{Suggestion, SuggestionModel};
use crate::vertical::Vertical;
use vstd::prelude::*;

verus! {

/// Counts of what a report holds.
#[derive(Debug, Clone, Copy, PartialEq, Eq, Structural)]
pub struct Summary {
    pub files: usize,
    pub nodes: usize,
    pub edges: usize,
    pub external_nodes: usize,
    pub diagnostics: usize,
    pub high_severity: usize,
    pub suggestions: usize,
}

impl Default for Summary {
    fn default() -> (r: Self)
        ensures
            r == (Summary {
                files: 0,
                nodes: 0,
                edges: 0,
                external_nodes: 0,
                diagnostics: 0,
                high_severity: 0,
                suggestions: 0,
            }),
    {
        Summary {
            files: 0,
            nodes: 0,
            edges: 0,
            external_nodes: 0,
            diagnostics: 0,
            high_severity: 0,
            suggestions: 0,
        }
    }
}

/// Everything that an analysis produces.
pub struct AnalysisReport {
    pub graph: CodeGraph,
    pub metrics: Vec<Metric>,
    pub diagnostics: Vec<Diagnostic>,
    pub suggestions: Vec<Suggestion>,
    /// The declared or detected industry vertical.
    pub vertical: Vertical,
}

/// The mathematical content of an [`AnalysisReport`].
#[verifier::ext_equal]
pub struct ReportModel {
    pub graph: GraphModel,
    pub metrics: Seq<Metric>,
    pub diagnostics: Seq<DiagnosticModel>,
    pub suggestions: Seq<SuggestionModel>,
    pub vertical: Vertical,
}

impl View for AnalysisReport {
    type V = ReportModel;

    open spec fn view(&self) -> ReportModel {
        ReportModel {
            graph: self.graph@,
            metrics: self.metrics@,
            diagnostics: views_of(self.diagnostics@),
            suggestions: views_of(self.suggestions@),
            vertical: self.vertical,
        }
    }
}

/// The number of placeholders in a graph.
pub open spec fn external_count(g: GraphModel) -> nat {
    tally(g.nodes.len() as int, |i: int| g.nodes[i].kind == NodeKind::External)
}

/// The number of findings of high severity.
pub open spec fn high_count(ds: Seq<DiagnosticModel>) -> nat {
    tally(ds.len() as int, |i: int| ds[i].severity == Severity::High)
}

impl ReportModel {
    /// `s` counts what the report holds.
    pub open spec fn summarized_by(self, s: Summary) -> bool {
        &&& s.files == self.graph.files.len()
        &&& s.nodes == self.graph.nodes.len()
        &&& s.edges == self.graph.edges.len()
        &&& s.external_nodes == external_count(self.graph)
        &&& s.diagnostics == self.diagnostics.len()
        &&& s.high_severity == high_count(self.diagnostics)
        &&& s.suggestions == self.suggestions.len()
    }
}

/// A borrowed flat view of a report.
pub struct ReportExport<'a> {
    pub vertical: Vertical,
    pub summary: Summary,
    pub graph: GraphExport<'a>,
    pub metrics: &'a Vec<Metric>,
    pub diagnostics: &'a Vec<Diagnostic>,
    pub suggestions: &'a Vec<Suggestion>,
}

/// An owned image of a report from which the report can be rebuilt.
#[derive(Debug)]
pub struct ReportSnapshot {
    pub vertical: Vertical,
    pub summary: Summary,
    pub graph: GraphSnapshot,
    pub metrics: Vec<Metric>,
    pub diagnostics: Vec<Diagnostic>,
    pub suggestions: Vec<Suggestion>,
}

impl AnalysisReport {
    pub fn new(graph: CodeGraph) -> (r: Self)
        ensures
            r@ == (ReportModel {
                graph: graph@,
                metrics: Seq::empty(),
                diagnostics: Seq::empty(),
                suggestions: Seq::empty(),
                vertical: Vertical::Unknown,
            }),
            r.graph == graph,
    {
        let r = AnalysisReport {
            graph,
            metrics: Vec::new(),
            diagnostics: Vec::new(),
            suggestions: Vec::new(),
            vertical: Vertical::Unknown,
        };
        assert(r@.diagnostics =~= Seq::empty());
        assert(r@.suggestions =~= Seq::empty());
        r
    }

    /// Count what the report holds.
    pub fn summary(&self) -> (r: Summary)
        ensures
            self@.summarized_by(r),
    {
        let mut external_nodes: usize = 0;
        let n: usize = self.graph.node_count();
        let ghost is_external = |i: int| self@.graph.nodes[i].kind == NodeKind::External;
        let mut i: usize = 0;
        while i < n
            invariant
                i <= n == self@.graph.nodes.len(),
                is_external == (|i: int| self@.graph.nodes[i].kind == NodeKind::External),
                external_nodes == tally(i as int, is_external),
                external_nodes <= i,
            decreases n - i,
        {
            if self.graph.nodes_at(i).kind == NodeKind::External {
                external_nodes += 1;
            }
            i += 1;
        }
        let mut high_severity: usize = 0;
        let ghost is_high = |i: int| self@.diagnostics[i].severity == Severity::High;
        let mut j: usize = 0;
        while j < self.diagnostics.len()
            invariant
                j <= self.diagnostics@.len(),
                is_high == (|i: int| self@.diagnostics[i].severity == Severity::High),
                high_severity == tally(j as int, is_high),
                high_severity <= j,
            decreases self.diagnostics@.len() - j,
        {
            if self.diagnostics[j].severity == Severity::High {
                high_severity += 1;
            }
            j += 1;
        }
        Summary {
            files: self.graph.file_count(),
            nodes: self.graph.node_count(),
            edges: self.graph.edge_count(),
            external_nodes,
            diagnostics: self.diagnostics.len(),
            high_severity,
            suggestions: self.suggestions.len(),
        }
    }

    /// A flat view: the graph flattened, the counts and the findings.
    pub fn export(&self) -> (r: ReportExport<'_>)
        requires
            self.graph.wf(),
        ensures
            r.vertical == self.vertical,
            self@.summarized_by(r.summary),
            r.graph@ == snapshot_of(self@.graph),
            *r.metrics == self.metrics,
            *r.diagnostics == self.diagnostics,
            *r.suggestions == self.suggestions,
    {
        ReportExport {
            vertical: self.vertical,
            summary: self.summary(),
            graph: self.graph.export(),
            metrics: &self.metrics,
            diagnostics: &self.diagnostics,
            suggestions: &self.suggestions,
        }
    }

    /// An owned image of the report, from which it can be rebuilt.
    pub fn snapshot(&self) -> (r: ReportSnapshot)
        requires
            self.graph.wf(),
        ensures
            r.vertical == self.vertical,
            self@.summarized_by(r.summary),
            r.graph@ == snapshot_of(self@.graph),
            r.metrics@ == self@.metrics,
            views_of(r.diagnostics@) == self@.diagnostics,
            views_of(r.suggestions@) == self@.suggestions,
    {
        let mut metrics: Vec<Metric> = Vec::new();
        let mut i: usize = 0;
        while i < self.metrics.len()
            invariant
                i <= self.metrics@.len(),
                metrics@ =~= self.metrics@.take(i as int),
            decreases self.metrics@.len() - i,
        {
            metrics.push(self.metrics[i]);
            i += 1;
        }
        let mut diagnostics: Vec<Diagnostic> = Vec::new();
        let mut j: usize = 0;
        while j < self.diagnostics.len()
            invariant
                j <= self.diagnostics@.len(),
                views_of(diagnostics@) =~= self@.diagnostics.take(j as int),
            decreases self.diagnostics@.len() - j,
        {
            let d = self.diagnostics[j].clone();
            proof {
                lemma_push_take(diagnostics@, d, self@.diagnostics, j as int);
            }
            diagnostics.push(d);
            j += 1;
        }
        let mut suggestions: Vec<Suggestion> = Vec::new();
        let mut k: usize = 0;
        while k < self.suggestions.len()
            invariant
                k <= self.suggestions@.len(),
                views_of(suggestions@) =~= self@.suggestions.take(k as int),
            decreases self.suggestions@.len() - k,
        {
            let s = self.suggestions[k].clone();
            proof {
                lemma_push_take(suggestions@, s, self@.suggestions, k as int);
            }
            suggestions.push(s);
            k += 1;
        }
        ReportSnapshot {
            vertical: self.vertical,
            summary: self.summary(),
            graph: self.graph.snapshot(),
            metrics,
            diagnostics,
            suggestions,
        }
    }

    /// Rebuild a report from its image.
    pub fn from_snapshot(snapshot: ReportSnapshot) -> (r: Self)
        requires
            snapshot.graph@.valid(),
        ensures
            r.graph.wf(),
            r@ == (ReportModel {
                graph: restored(snapshot.graph@),
                metrics: snapshot.metrics@,
                diagnostics: views_of(snapshot.diagnostics@),
                suggestions: views_of(snapshot.suggestions@),
                vertical: snapshot.vertical,
            }),
    {
        AnalysisReport {
            graph: CodeGraph::from_snapshot(snapshot.graph),
            metrics: snapshot.metrics,
            diagnostics: snapshot.diagnostics,
            suggestions: snapshot.suggestions,
            vertical: snapshot.vertical,
        }
    }
}

impl Default for AnalysisReport {
    fn default() -> (r: Self)
        ensures
            r.graph.wf(),
            r@ == (ReportModel {
                graph: GraphModel::empty(),
                metrics: Seq::empty(),
                diagnostics: Seq::empty(),
                suggestions: Seq::empty(),
                vertical: Vertical::Unknown,
            }),
    {
        AnalysisReport::new(CodeGraph::new())
    }
}

} // verus!
