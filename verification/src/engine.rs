//! The pipeline: sources to graph, graph to findings, with progress on the way.

use crate::adapter::{
    graph_result, AdapterError, AdapterErrorModel, AnyAdapter, LanguageAdapter,
    RustTreeSitterAdapter,
};
use crate::analysis::{analyze, analyzed};
use crate::cache::{CacheModel, FragmentCache};
use crate::config::{AdapterMode, Config};
use crate::graph::{CodeGraph, GraphModel};
use crate::incremental::{
    cache_after, faithful, incremental_outcome, law_cached_run_matches_cold_run,
    lemma_same_gathering, one_file_per_path, parse_incremental,
};
use crate::lang::Lang;
use crate::report::{AnalysisReport, ReportModel};
use crate::seqs::views_of;
use crate::source::{SourceFile, SourceModel};
use crate::syntax::{grammar_failure, Grammar};
use crate::text::concat2;
use crate::vertical::Vertical;
use vstd::prelude::*;

verus! {

/// What can go wrong in the engine.
#[derive(Debug)]
pub enum EngineError {
    /// Walking the repository failed; what the walk said.
    Walk(String),
    /// The configuration cannot be used.
    Config(String),
    Adapter(AdapterError),
    /// No source files were found under this root.
    NoFiles(String),
}

/// The mathematical content of an [`EngineError`].
pub enum EngineErrorModel {
    Walk(Seq<char>),
    Config(Seq<char>),
    Adapter(AdapterErrorModel),
    NoFiles(Seq<char>),
}

impl View for EngineError {
    type V = EngineErrorModel;

    open spec fn view(&self) -> EngineErrorModel {
        match self {
            EngineError::Walk(m) => EngineErrorModel::Walk(m@),
            EngineError::Config(m) => EngineErrorModel::Config(m@),
            EngineError::Adapter(e) => EngineErrorModel::Adapter(e@),
            EngineError::NoFiles(p) => EngineErrorModel::NoFiles(p@),
        }
    }
}

impl EngineErrorModel {
    /// What the error says.
    pub open spec fn text(self) -> Seq<char> {
        match self {
            EngineErrorModel::Walk(m) => "failed to walk repository: "@ + m,
            EngineErrorModel::Config(m) => "configuration error: "@ + m,
            EngineErrorModel::Adapter(e) => e.text(),
            EngineErrorModel::NoFiles(p) => "no source files found under "@ + p,
        }
    }
}

impl EngineError {
    /// What the error says.
    pub fn text(&self) -> (r: String)
        ensures
            r@ == self@.text(),
    {
        match self {
            EngineError::Walk(m) => concat2("failed to walk repository: ", m.as_str()),
            EngineError::Config(m) => concat2("configuration error: ", m.as_str()),
            EngineError::Adapter(e) => e.text(),
            EngineError::NoFiles(p) => concat2("no source files found under ", p.as_str()),
        }
    }
}

/// A step of an analysis, reported where it begins or ends.
#[derive(Debug, Clone, Copy, PartialEq, Eq, Structural)]
pub enum Progress {
    /// Walking the repository for source files.
    Discovering,
    /// The walk is done.
    Discovered { files: usize },
    /// Reading the files into memory.
    Reading { files: usize },
    /// Parsing the sources into a call graph.
    Parsing { files: usize },
    /// Parsing is done.
    Parsed { nodes: usize, edges: usize },
    /// Running the lenses and computing metrics.
    Analyzing,
    /// The turn of the advisors, which detect the vertical and make suggestions. None is
    /// built in; those of the caller run before the analysis is finished.
    Advising,
    /// The whole pipeline is done.
    Done { nodes: usize, diagnostics: usize, suggestions: usize },
}

/// The front end that a configuration asks for. The semantic backend is not part of
/// this build, so both modes are served by the syntactic front end of the language.
fn select_adapter(config: &Config, lang: Lang) -> (r: AnyAdapter)
    ensures
        r == AnyAdapter::spec_of(lang),
{
    match config.adapter.mode {
        AdapterMode::Fast => AnyAdapter::of(lang),
        AdapterMode::Semantic => AnyAdapter::of(lang),
    }
}

/// The analysis engine: a configuration and the front end that it asks for.
pub struct Engine {
    config: Config,
    adapter: AnyAdapter,
}

/// A report on a graph before the built-in stages. These fill in metrics and findings
/// only: no advisor is built in, so there are no suggestions and the vertical is unknown
/// until a stage of the caller sets them.
pub open spec fn fresh_report(g: GraphModel) -> ReportModel {
    ReportModel {
        graph: g,
        metrics: Seq::empty(),
        diagnostics: Seq::empty(),
        suggestions: Seq::empty(),
        vertical: Vertical::Unknown,
    }
}

/// The report on what the front end gave, or what it said against the sources.
pub open spec fn engine_outcome(
    parsed: Result<GraphModel, AdapterErrorModel>,
    config: Config,
) -> Result<ReportModel, EngineErrorModel> {
    match parsed {
        Ok(g) => Ok(analyzed(fresh_report(g), config)),
        Err(e) => Err(EngineErrorModel::Adapter(e)),
    }
}

/// The steps up to the end of the built-in stages.
pub open spec fn early_steps(
    files: nat,
    parsed: Result<GraphModel, AdapterErrorModel>,
) -> Seq<Progress> {
    let parsing = Progress::Parsing { files: files as usize };
    match parsed {
        Ok(g) => seq![
            parsing,
            Progress::Parsed { nodes: g.nodes.len() as usize, edges: g.edges.len() as usize },
            Progress::Analyzing,
            Progress::Advising,
        ],
        Err(_) => seq![parsing],
    }
}

/// The step that ends an analysis.
pub open spec fn last_step(r: ReportModel) -> Progress {
    Progress::Done {
        nodes: r.graph.nodes.len() as usize,
        diagnostics: r.diagnostics.len() as usize,
        suggestions: r.suggestions.len() as usize,
    }
}

pub open spec fn report_result(r: Result<AnalysisReport, EngineError>) -> Result<
    ReportModel,
    EngineErrorModel,
> {
    match r {
        Ok(report) => Ok(report@),
        Err(e) => Err(e@),
    }
}

/// The steps of a whole analysis of sources.
pub open spec fn all_steps(
    files: nat,
    parsed: Result<GraphModel, AdapterErrorModel>,
    config: Config,
) -> Seq<Progress> {
    match engine_outcome(parsed, config) {
        Ok(r) => early_steps(files, parsed).push(last_step(r)),
        Err(_) => early_steps(files, parsed),
    }
}

impl Engine {
    pub closed spec fn settings(&self) -> Config {
        self.config
    }

    /// The front end.
    pub closed spec fn front_end(&self) -> AnyAdapter {
        self.adapter
    }

    /// An engine for a configuration, on Rust sources.
    pub fn new(config: Config) -> (r: Self)
        ensures
            r.settings() == config,
            r.front_end() == AnyAdapter::spec_of(Lang::Rust),
    {
        Engine::for_language(config, Lang::Rust)
    }

    /// An engine for a configuration, on sources of a language.
    pub fn for_language(config: Config, lang: Lang) -> (r: Self)
        ensures
            r.settings() == config,
            r.front_end() == AnyAdapter::spec_of(lang),
    {
        let adapter = select_adapter(&config, lang);
        Engine { config, adapter }
    }

    pub fn config(&self) -> (r: &Config)
        ensures
            *r == self.settings(),
    {
        &self.config
    }

    /// The stable name of the engine's front end.
    pub fn adapter_name(&self) -> (r: &'static str)
        ensures
            r@ == self.front_end().title(),
    {
        self.adapter.name()
    }

    /// The extensions of the files that the engine's front end reads.
    pub fn extensions(&self) -> (r: Vec<&'static str>)
        ensures
            views_of(r@) == self.front_end().endings(),
    {
        self.adapter.extensions()
    }

    /// Note that a walk of `root` has found `files` files: an error where there are
    /// none.
    pub fn discovered(&self, root: &str, files: usize, progress: &mut Vec<Progress>) -> (r: Result<
        (),
        EngineError,
    >)
        ensures
            files == 0 ==> r is Err && r->Err_0@ == EngineErrorModel::NoFiles(root@)
                && final(progress)@ == old(progress)@.push(Progress::Discovered { files }),
            files > 0 ==> r is Ok && final(progress)@ == old(progress)@.push(
                Progress::Discovered { files },
            ).push(Progress::Reading { files }),
    {
        progress.push(Progress::Discovered { files });
        if files == 0 {
            return Err(EngineError::NoFiles(root.to_owned()));
        }
        progress.push(Progress::Reading { files });
        Ok(())
    }

    /// The built-in stages on what the front end gave.
    fn report_on(
        &self,
        parsed: Result<CodeGraph, AdapterError>,
        files: Ghost<nat>,
        progress: &mut Vec<Progress>,
    ) -> (r: Result<AnalysisReport, EngineError>)
        requires
            parsed is Ok ==> parsed->Ok_0.wf(),
            old(progress)@.len() > 0,
            old(progress)@.last() == (Progress::Parsing { files: files@ as usize }),
        ensures
            report_result(r) == engine_outcome(graph_result(parsed), self.settings()),
            r is Ok ==> r->Ok_0.graph.wf(),
            final(progress)@ == old(progress)@.drop_last() + early_steps(
                files@,
                graph_result(parsed),
            ),
    {
        let ghost before = progress@.drop_last();
        let ghost want = early_steps(files@, graph_result(parsed));
        match parsed {
            Ok(graph) => {
                let mut report = AnalysisReport::new(graph);
                progress.push(
                    Progress::Parsed {
                        nodes: report.graph.node_count(),
                        edges: report.graph.edge_count(),
                    },
                );
                progress.push(Progress::Analyzing);
                analyze(&self.config, &mut report);
                progress.push(Progress::Advising);
                assert(progress@ =~= before + want);
                Ok(report)
            },
            Err(e) => {
                assert(progress@ =~= before + want);
                Err(EngineError::Adapter(e))
            },
        }
    }

    /// Analyze sources that are already in memory, up to the end of the built-in
    /// stages. Further stages may follow before [`finish`](Engine::finish).
    pub fn prepare(&self, sources: &Vec<SourceFile>, progress: &mut Vec<Progress>) -> (r: Result<
        AnalysisReport,
        EngineError,
    >)
        ensures
            report_result(r) == engine_outcome(
                self.front_end().outcome(views_of(sources@)),
                self.settings(),
            ),
            r is Ok ==> r->Ok_0.graph.wf(),
            final(progress)@ == old(progress)@ + early_steps(
                sources@.len(),
                self.front_end().outcome(views_of(sources@)),
            ),
    {
        let ghost before = progress@;
        progress.push(Progress::Parsing { files: sources.len() });
        assert(progress@.drop_last() =~= before);
        let parsed = self.adapter.parse(sources);
        self.report_on(parsed, Ghost(sources@.len()), progress)
    }

    /// As [`prepare`](Engine::prepare), but files that the cache holds unchanged are
    /// not read again.
    pub fn prepare_cached(
        &self,
        sources: &Vec<SourceFile>,
        cache: &mut FragmentCache,
        progress: &mut Vec<Progress>,
    ) -> (r: Result<AnalysisReport, EngineError>)
        requires
            old(cache).wf(),
        ensures
            final(cache).wf(),
            final(cache)@ == cache_after(self.front_end(), old(cache)@, views_of(sources@)),
            report_result(r) == engine_outcome(
                incremental_outcome(self.front_end(), old(cache)@, views_of(sources@)),
                self.settings(),
            ),
            r is Ok ==> r->Ok_0.graph.wf(),
            final(progress)@ == old(progress)@ + early_steps(
                sources@.len(),
                incremental_outcome(self.front_end(), old(cache)@, views_of(sources@)),
            ),
    {
        let ghost before = progress@;
        progress.push(Progress::Parsing { files: sources.len() });
        assert(progress@.drop_last() =~= before);
        let parsed = parse_incremental(&self.adapter, sources, cache);
        self.report_on(parsed, Ghost(sources@.len()), progress)
    }

    /// Note that an analysis is done.
    pub fn finish(&self, report: &AnalysisReport, progress: &mut Vec<Progress>)
        ensures
            final(progress)@ == old(progress)@.push(last_step(report@)),
    {
        progress.push(
            Progress::Done {
                nodes: report.graph.node_count(),
                diagnostics: report.diagnostics.len(),
                suggestions: report.suggestions.len(),
            },
        );
    }

    /// Analyze sources that are already in memory.
    pub fn analyze_sources(&self, sources: &Vec<SourceFile>) -> (r: Result<
        AnalysisReport,
        EngineError,
    >)
        ensures
            report_result(r) == engine_outcome(
                self.front_end().outcome(views_of(sources@)),
                self.settings(),
            ),
            r is Ok ==> r->Ok_0.graph.wf(),
    {
        let mut progress: Vec<Progress> = Vec::new();
        self.analyze_sources_with_progress(sources, &mut progress)
    }

    /// Analyze sources that are already in memory, and note each step.
    pub fn analyze_sources_with_progress(
        &self,
        sources: &Vec<SourceFile>,
        progress: &mut Vec<Progress>,
    ) -> (r: Result<AnalysisReport, EngineError>)
        ensures
            report_result(r) == engine_outcome(
                self.front_end().outcome(views_of(sources@)),
                self.settings(),
            ),
            r is Ok ==> r->Ok_0.graph.wf(),
            final(progress)@ == old(progress)@ + all_steps(
                sources@.len(),
                self.front_end().outcome(views_of(sources@)),
                self.settings(),
            ),
    {
        let ghost before = progress@;
        let ghost parsed = self.front_end().outcome(views_of(sources@));
        match self.prepare(sources, progress) {
            Ok(report) => {
                self.finish(&report, progress);
                assert(progress@ =~= before + all_steps(sources@.len(), parsed, self.settings()));
                Ok(report)
            },
            Err(e) => Err(e),
        }
    }
}

// -- laws -----------------------------------------------------------------------------

/// A successful analysis reports its steps in order: parsing before parsed, that
/// before analyzing, that before advising, and the end last.
pub proof fn law_steps_in_order(
    files: nat,
    parsed: Result<GraphModel, AdapterErrorModel>,
    config: Config,
)
    requires
        engine_outcome(parsed, config) is Ok,
    ensures
        all_steps(files, parsed, config).len() == 5,
        all_steps(files, parsed, config)[0] is Parsing,
        all_steps(files, parsed, config)[1] is Parsed,
        all_steps(files, parsed, config)[2] == Progress::Analyzing,
        all_steps(files, parsed, config)[3] == Progress::Advising,
        all_steps(files, parsed, config)[4] == last_step(engine_outcome(parsed, config)->Ok_0),
{
}

/// The findings of a report come with the most severe first.
pub proof fn law_report_is_sorted(
    parsed: Result<GraphModel, AdapterErrorModel>,
    config: Config,
    i: int,
    j: int,
)
    requires
        engine_outcome(parsed, config) is Ok,
        0 <= i < j < engine_outcome(parsed, config)->Ok_0.diagnostics.len(),
    ensures
        engine_outcome(parsed, config)->Ok_0.diagnostics[i].severity.spec_rank()
            >= engine_outcome(parsed, config)->Ok_0.diagnostics[j].severity.spec_rank(),
{
    let r = fresh_report(parsed->Ok_0);
    let ds = r.diagnostics + crate::analysis::all_findings(
        crate::analysis::enabled(config),
        r.graph,
        config,
    );
    crate::analysis::law_sorted_by_severity(ds);
    assert(crate::analysis::sorted(ds)[i].severity.spec_rank() >= crate::analysis::sorted(
        ds,
    )[j].severity.spec_rank());
}

/// An analysis with the help of a faithful cache reports what an analysis without one
/// reports, step by step and as a whole.
pub proof fn law_cached_analysis_matches_cold_analysis(
    cache: CacheModel,
    files: Seq<SourceModel>,
    config: Config,
)
    requires
        grammar_failure(Grammar::Rust) is None,
        one_file_per_path(files),
        faithful(RustTreeSitterAdapter, cache, files),
    ensures
        ({
            let a = AnyAdapter::spec_of(Lang::Rust);
            let cached = incremental_outcome(a, cache, files);
            let cold = a.outcome(files);
            &&& engine_outcome(cached, config) == engine_outcome(cold, config)
            &&& all_steps(files.len(), cached, config) == all_steps(files.len(), cold, config)
        }),
{
    lemma_same_gathering(AnyAdapter::spec_of(Lang::Rust), RustTreeSitterAdapter, cache, files);
    law_cached_run_matches_cold_run(cache, files);
}

} // verus!
