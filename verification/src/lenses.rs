//! Engineering lenses: independent rules that read the graph and the configuration
//! and answer with findings.

use crate::config::Config;
use crate::diagnostic::{Diagnostic, DiagnosticModel, Severity};
use crate::graph::{edge_of, CodeGraph, EdgeExport, GraphModel, Node, NodeKind, NodeModel};
use crate::ids::NodeId;
use crate::metric::{round, rounded, WHOLE};
use crate::metrics::{caller_count, count_callers, lemma_product, purity, purity_score};
use crate::seqs::{gather, lemma_gather_has, lemma_views_push, sum, tally, views_of};
use crate::text::{decimal, decimal_text, same, split, split_text, views, wide_decimal_text};
use vstd::prelude::*;

verus! {

/// An engineering lens: a self-contained rule that produces findings.
pub trait Lens {
    /// The lens's stable machine name.
    spec fn title(&self) -> Seq<char>;

    /// What the lens finds in a graph.
    spec fn findings(&self, g: GraphModel, config: Config) -> Seq<DiagnosticModel>;

    /// The lens's stable machine name, which its findings carry.
    fn name(&self) -> (r: &'static str)
        ensures
            r@ == self.title(),
    ;

    /// Evaluate the lens against a graph, under the thresholds of the configuration.
    fn evaluate(&self, graph: &CodeGraph, config: &Config) -> (r: Vec<Diagnostic>)
        requires
            graph.wf(),
        ensures
            views_of(r@) == self.findings(graph@, *config),
    ;
}

/// A finding about a node.
pub open spec fn finding(
    lens: Seq<char>,
    code: Seq<char>,
    severity: Severity,
    message: Seq<char>,
    node: NodeId,
) -> DiagnosticModel {
    DiagnosticModel { code, lens, severity, message, node: Some(node) }
}

/// One item where the condition holds, none where it does not.
pub open spec fn only_if<T>(condition: bool, item: T) -> Seq<T> {
    if condition {
        seq![item]
    } else {
        Seq::empty()
    }
}

/// Add a finding about a node.
pub(crate) fn add_finding(
    out: &mut Vec<Diagnostic>,
    lens: &str,
    code: &str,
    severity: Severity,
    message: &str,
    node: NodeId,
)
    ensures
        views_of(final(out)@) == views_of(old(out)@).push(
            finding(lens@, code@, severity, message@, node),
        ),
{
    let d = Diagnostic::new(lens, code, severity, message).at(node);
    proof {
        lemma_views_push(out@, d);
    }
    out.push(d);
}

/// The node is a definition, not a placeholder.
pub open spec fn defined(n: NodeModel) -> bool {
    n.kind != NodeKind::External
}

/// A name between backticks, and what is said of it.
pub open spec fn quoted(name: Seq<char>, rest: Seq<char>) -> Seq<char> {
    "`"@ + name + "`"@ + rest
}

pub(crate) fn quote(name: &str, rest: &str) -> (r: String)
    ensures
        r@ == quoted(name@, rest@),
{
    let mut out = "`".to_owned();
    out.append(name);
    out.append("`");
    out.append(rest);
    out
}

/// A text with a number in it.
pub open spec fn counted(before: Seq<char>, n: int, after: Seq<char>) -> Seq<char> {
    before + decimal(n as nat) + after
}

pub(crate) fn count_text(before: &str, n: u128, after: &str) -> (r: String)
    ensures
        r@ == counted(before@, n as int, after@),
{
    let mut out = before.to_owned();
    out.append(wide_decimal_text(n).as_str());
    out.append(after);
    out
}

/// A text with a measured number and its limit in it.
pub open spec fn limited(
    before: Seq<char>,
    n: int,
    between: Seq<char>,
    max: int,
) -> Seq<char> {
    counted(before, n, counted(between, max, ")"@))
}

fn limit_text(before: &str, n: u32, between: &str, max: u32) -> (r: String)
    ensures
        r@ == limited(before@, n as int, between@, max as int),
{
    count_text(before, n as u128, count_text(between, max as u128, ")").as_str())
}

// -- complexity -----------------------------------------------------------------------

/// Thresholds on cyclomatic complexity, parameter count, length and nesting.
#[derive(Debug, Clone, Copy, PartialEq, Eq, Structural)]
pub struct ComplexityLens;

/// What the complexity lens finds about one node.
pub open spec fn complexity_findings(g: GraphModel, config: Config) -> spec_fn(int) -> Seq<
    DiagnosticModel,
> {
    |i: int|
        {
            let n = g.nodes[i];
            let m = config.metrics;
            let cc = n.complexity();
            let about = |code: Seq<char>, severity: Severity, message: Seq<char>|
                finding("complexity"@, code, severity, quoted(n.qualified_name, message), n.id);
            if !defined(n) {
                Seq::empty()
            } else {
                only_if(
                    cc > m.cyclomatic_max,
                    about(
                        "high_complexity"@,
                        if cc >= capped(2 * m.cyclomatic_max) {
                            Severity::High
                        } else {
                            Severity::Medium
                        },
                        limited(
                            " has cyclomatic complexity "@,
                            cc,
                            " (max "@,
                            m.cyclomatic_max as int,
                        ),
                    ),
                ) + only_if(
                    n.stats.parameters > m.max_parameters,
                    about(
                        "too_many_parameters"@,
                        Severity::Low,
                        limited(
                            " takes "@,
                            n.stats.parameters as int,
                            " parameters (max "@,
                            m.max_parameters as int,
                        ),
                    ),
                ) + only_if(
                    n.stats.lines_of_code > m.max_function_loc,
                    about(
                        "long_function"@,
                        Severity::Low,
                        limited(
                            " is "@,
                            n.stats.lines_of_code as int,
                            " lines long (max "@,
                            m.max_function_loc as int,
                        ),
                    ),
                ) + only_if(
                    n.stats.max_nesting > m.max_nesting,
                    about(
                        "deep_nesting"@,
                        Severity::Low,
                        limited(
                            " nests "@,
                            n.stats.max_nesting as int,
                            " levels deep (max "@,
                            m.max_nesting as int,
                        ),
                    ),
                )
            }
        }
}

/// A number, or the greatest 32-bit one where it is greater.
pub open spec fn capped(n: int) -> int {
    if n > u32::MAX {
        u32::MAX as int
    } else {
        n
    }
}

/// Twice the number, or the greatest one.
pub(crate) fn doubled(n: u32) -> (r: u32)
    ensures
        r == capped(2 * n),
{
    if n > u32::MAX / 2 {
        u32::MAX
    } else {
        2 * n
    }
}

impl Lens for ComplexityLens {
    open spec fn title(&self) -> Seq<char> {
        "complexity"@
    }

    open spec fn findings(&self, g: GraphModel, config: Config) -> Seq<DiagnosticModel> {
        gather(g.nodes.len() as int, complexity_findings(g, config))
    }

    fn name(&self) -> (r: &'static str) {
        "complexity"
    }

    fn evaluate(&self, graph: &CodeGraph, config: &Config) -> (r: Vec<Diagnostic>) {
        let ghost g = graph@;
        let ghost f = complexity_findings(g, *config);
        let mut out: Vec<Diagnostic> = Vec::new();
        let n: usize = graph.node_count();
        let mut i: usize = 0;
        proof {
            graph.lemma_wf();
            assert(views_of(out@) =~= Seq::empty());
        }
        while i < n
            invariant
                graph.wf(),
                g == graph@,
                g.wf(),
                i <= n == g.nodes.len(),
                f == complexity_findings(g, *config),
                views_of(out@) == gather(i as int, f),
            decreases n - i,
        {
            let node = graph.nodes_at(i);
            let ghost before = views_of(out@);
            if node.kind != NodeKind::External {
                check_complexity(&mut out, node, config);
            }
            assert(views_of(out@) =~= before + f(i as int));
            i += 1;
        }
        out
    }
}

/// Add what the complexity lens finds about a definition.
fn check_complexity(out: &mut Vec<Diagnostic>, node: &Node, config: &Config)
    requires
        node@.valid(),
        defined(node@),
    ensures
        forall|g: GraphModel, i: int|
            g.nodes[i] == node@ ==> views_of(final(out)@) == views_of(old(out)@)
                + #[trigger] complexity_findings(g, *config)(i),
{
    let m = &config.metrics;
    let name = node.qualified_name.as_str();
    let lens = "complexity";
    let cc: u32 = node.cyclomatic_complexity();
    let ghost s0 = views_of(out@);
    if cc > m.cyclomatic_max {
        let severity = if cc >= doubled(m.cyclomatic_max) {
            Severity::High
        } else {
            Severity::Medium
        };
        let said = limit_text(
            " has cyclomatic complexity ",
            cc,
            " (max ",
            m.cyclomatic_max,
        );
        let message = quote(name, said.as_str());
        add_finding(out, lens, "high_complexity", severity, message.as_str(), node.id);
    }
    let ghost s1 = views_of(out@);
    if node.stats.parameters > m.max_parameters {
        let said = limit_text(
            " takes ",
            node.stats.parameters,
            " parameters (max ",
            m.max_parameters,
        );
        let message = quote(name, said.as_str());
        add_finding(out, lens, "too_many_parameters", Severity::Low, message.as_str(), node.id);
    }
    let ghost s2 = views_of(out@);
    if node.stats.lines_of_code > m.max_function_loc {
        let said = limit_text(
            " is ",
            node.stats.lines_of_code,
            " lines long (max ",
            m.max_function_loc,
        );
        let message = quote(name, said.as_str());
        add_finding(out, lens, "long_function", Severity::Low, message.as_str(), node.id);
    }
    let ghost s3 = views_of(out@);
    if node.stats.max_nesting > m.max_nesting {
        let said = limit_text(
            " nests ",
            node.stats.max_nesting,
            " levels deep (max ",
            m.max_nesting,
        );
        let message = quote(name, said.as_str());
        add_finding(out, lens, "deep_nesting", Severity::Low, message.as_str(), node.id);
    }
    proof {
        let s4 = views_of(out@);
        assert(s1 =~= s0 + s1.skip(s0.len() as int));
        assert(s2 =~= s1 + s2.skip(s1.len() as int));
        assert(s3 =~= s2 + s3.skip(s2.len() as int));
        assert(s4 =~= s3 + s4.skip(s3.len() as int));
        assert forall|g: GraphModel, i: int| g.nodes[i] == node@ implies s4 == s0
            + #[trigger] complexity_findings(g, *config)(i) by {
            assert(s4 =~= s0 + complexity_findings(g, *config)(i));
        }
    }
}

// -- hazards --------------------------------------------------------------------------

/// Memory and thread-safety hazards: `unsafe` usage and heap pressure.
#[derive(Debug, Clone, Copy, PartialEq, Eq, Structural)]
pub struct HazardsLens;

/// The weighted allocations of a node, in millionths.
pub open spec fn pressure(n: NodeModel, config: Config) -> int {
    n.stats.allocations * config.metrics.heap_sensitivity.0
}

/// What the hazards lens finds about one node.
pub open spec fn hazard_findings(g: GraphModel, config: Config) -> spec_fn(int) -> Seq<
    DiagnosticModel,
> {
    |i: int|
        {
            let n = g.nodes[i];
            let about = |code: Seq<char>, severity: Severity, message: Seq<char>|
                finding("hazards"@, code, severity, quoted(n.qualified_name, message), n.id);
            let blocks: int = if n.stats.unsafe_blocks > 0 {
                n.stats.unsafe_blocks as int
            } else {
                1
            };
            if !defined(n) {
                Seq::empty()
            } else {
                only_if(
                    n.stats.unsafe_blocks > 0 || n.flags.is_unsafe,
                    about(
                        "unsafe_usage"@,
                        Severity::Medium,
                        counted(
                            " uses `unsafe` ("@,
                            blocks,
                            " block(s)); review memory & thread safety"@,
                        ),
                    ),
                ) + only_if(
                    pressure(n, config) >= 8 * WHOLE,
                    about(
                        "heap_pressure"@,
                        if pressure(n, config) >= 20 * WHOLE {
                            Severity::Medium
                        } else {
                            Severity::Low
                        },
                        counted(
                            " performs ~"@,
                            rounded(pressure(n, config), WHOLE as int),
                            " heap allocations (memory pressure)"@,
                        ),
                    ),
                )
            }
        }
}

impl Lens for HazardsLens {
    open spec fn title(&self) -> Seq<char> {
        "hazards"@
    }

    open spec fn findings(&self, g: GraphModel, config: Config) -> Seq<DiagnosticModel> {
        gather(g.nodes.len() as int, hazard_findings(g, config))
    }

    fn name(&self) -> (r: &'static str) {
        "hazards"
    }

    fn evaluate(&self, graph: &CodeGraph, config: &Config) -> (r: Vec<Diagnostic>) {
        let ghost g = graph@;
        let ghost f = hazard_findings(g, *config);
        let mut out: Vec<Diagnostic> = Vec::new();
        let n: usize = graph.node_count();
        let mut i: usize = 0;
        proof {
            assert(views_of(out@) =~= Seq::empty());
        }
        while i < n
            invariant
                g == graph@,
                i <= n == g.nodes.len(),
                f == hazard_findings(g, *config),
                views_of(out@) == gather(i as int, f),
            decreases n - i,
        {
            let node = graph.nodes_at(i);
            let ghost before = views_of(out@);
            if node.kind != NodeKind::External {
                check_hazards(&mut out, node, config);
            }
            assert(views_of(out@) =~= before + f(i as int));
            i += 1;
        }
        out
    }
}

/// Add what the hazards lens finds about a definition.
fn check_hazards(out: &mut Vec<Diagnostic>, node: &Node, config: &Config)
    requires
        defined(node@),
    ensures
        forall|g: GraphModel, i: int|
            g.nodes[i] == node@ ==> views_of(final(out)@) == views_of(old(out)@)
                + #[trigger] hazard_findings(g, *config)(i),
{
    let name = node.qualified_name.as_str();
    let ghost s0 = views_of(out@);
    if node.stats.unsafe_blocks > 0 || node.flags.is_unsafe {
        let blocks: u32 = if node.stats.unsafe_blocks > 0 {
            node.stats.unsafe_blocks
        } else {
            1
        };
        let said = count_text(
            " uses `unsafe` (",
            blocks as u128,
            " block(s)); review memory & thread safety",
        );
        let message = quote(name, said.as_str());
        add_finding(out, "hazards", "unsafe_usage", Severity::Medium, message.as_str(), node.id);
    }
    let ghost s1 = views_of(out@);
    proof {
        lemma_product(node.stats.allocations, config.metrics.heap_sensitivity.0);
    }
    let allocations: i128 = node.stats.allocations as i128;
    let factor: i128 = config.metrics.heap_sensitivity.0 as i128;
    let weighted: i128 = allocations * factor;
    if weighted >= 8_000_000 {
        let severity = if weighted >= 20_000_000 {
            Severity::Medium
        } else {
            Severity::Low
        };
        let about: u128 = round(weighted as u128, 1_000_000);
        let said = count_text(
            " performs ~",
            about,
            " heap allocations (memory pressure)",
        );
        let message = quote(name, said.as_str());
        add_finding(out, "hazards", "heap_pressure", severity, message.as_str(), node.id);
    }
    proof {
        let s2 = views_of(out@);
        assert(s1 =~= s0 + s1.skip(s0.len() as int));
        assert(s2 =~= s1 + s2.skip(s1.len() as int));
        assert forall|g: GraphModel, i: int| g.nodes[i] == node@ implies s2 == s0
            + #[trigger] hazard_findings(g, *config)(i) by {
            assert(s2 =~= s0 + hazard_findings(g, *config)(i));
        }
    }
}

// -- purity ---------------------------------------------------------------------------

/// Functions heavy with side effects that are nonetheless widely depended upon.
#[derive(Debug, Clone, Copy, PartialEq, Eq, Structural)]
pub struct PurityLens;

/// A number of hundredths with two decimals.
pub open spec fn hundredths(n: int) -> Seq<char> {
    decimal((n / 100) as nat) + (if n % 100 < 10 {
        ".0"@
    } else {
        "."@
    }) + decimal((n % 100) as nat)
}

/// A number of hundredths with two decimals.
pub fn hundredths_text(n: u64) -> (r: String)
    ensures
        r@ == hundredths(n as int),
{
    let mut out = decimal_text(n / 100);
    if n % 100 < 10 {
        out.append(".0");
    } else {
        out.append(".");
    }
    out.append(decimal_text(n % 100).as_str());
    out
}

/// What the purity lens says of a node.
pub open spec fn impure_text(purity: int, callers: int) -> Seq<char> {
    " is side-effect heavy (purity "@ + hundredths(purity) + counted(
        ") yet has "@,
        callers,
        " callers; consider isolating effects"@,
    )
}

/// What the purity lens finds about one node.
pub open spec fn purity_findings(g: GraphModel) -> spec_fn(int) -> Seq<DiagnosticModel> {
    |i: int|
        {
            let n = g.nodes[i];
            let callers = caller_count(g, n.id) as int;
            only_if(
                defined(n) && purity(n) < 40 && callers >= 3,
                finding(
                    "purity"@,
                    "impure_hotspot"@,
                    Severity::Low,
                    quoted(n.qualified_name, impure_text(purity(n), callers)),
                    n.id,
                ),
            )
        }
}

impl Lens for PurityLens {
    open spec fn title(&self) -> Seq<char> {
        "purity"@
    }

    open spec fn findings(&self, g: GraphModel, config: Config) -> Seq<DiagnosticModel> {
        gather(g.nodes.len() as int, purity_findings(g))
    }

    fn name(&self) -> (r: &'static str) {
        "purity"
    }

    fn evaluate(&self, graph: &CodeGraph, config: &Config) -> (r: Vec<Diagnostic>) {
        let ghost g = graph@;
        let ghost f = purity_findings(g);
        let mut out: Vec<Diagnostic> = Vec::new();
        let n: usize = graph.node_count();
        let mut i: usize = 0;
        proof {
            assert(views_of(out@) =~= Seq::empty());
        }
        while i < n
            invariant
                graph.wf(),
                g == graph@,
                i <= n == g.nodes.len(),
                f == purity_findings(g),
                views_of(out@) == gather(i as int, f),
            decreases n - i,
        {
            let node = graph.nodes_at(i);
            let ghost before = views_of(out@);
            if node.kind != NodeKind::External {
                let score: u32 = purity_score(node);
                let callers: usize = count_callers(graph, node.id);
                if score < 40 && callers >= 3 {
                    let mut said = " is side-effect heavy (purity ".to_owned();
                    said.append(hundredths_text(score as u64).as_str());
                    let rest = count_text(
                        ") yet has ",
                        callers as u128,
                        " callers; consider isolating effects",
                    );
                    said.append(rest.as_str());
                    let message = quote(node.qualified_name.as_str(), said.as_str());
                    add_finding(
                        &mut out,
                        "purity",
                        "impure_hotspot",
                        Severity::Low,
                        message.as_str(),
                        node.id,
                    );
                }
            }
            assert(views_of(out@) =~= before + f(i as int));
            i += 1;
        }
        out
    }
}

// -- layering -------------------------------------------------------------------------

/// Checks of the architecture's layers: in the concentric styles no inner layer may
/// depend on an outer one; in model-view-controller no model on a view or controller.
#[derive(Debug, Clone, Copy, PartialEq, Eq, Structural)]
pub struct LayeringLens;

/// The class of the last segment that has one.
pub open spec fn last_class<T>(segments: Seq<Seq<char>>, class: spec_fn(Seq<char>) -> Option<T>) -> Option<
    T,
>
    decreases segments.len(),
{
    if segments.len() == 0 {
        None
    } else if class(segments.last()) is Some {
        class(segments.last())
    } else {
        last_class(segments.drop_last(), class)
    }
}

/// The concentric layers, from the innermost.
#[derive(Debug, Clone, Copy, PartialEq, Eq, Structural)]
pub enum Layer {
    Domain,
    Application,
    Interface,
    Infrastructure,
}

impl Layer {
    /// How far out the layer lies.
    pub open spec fn ring(self) -> int {
        match self {
            Layer::Domain => 0,
            Layer::Application => 1,
            Layer::Interface => 2,
            Layer::Infrastructure => 3,
        }
    }

    pub open spec fn text(self) -> Seq<char> {
        match self {
            Layer::Domain => "domain"@,
            Layer::Application => "application"@,
            Layer::Interface => "interface"@,
            Layer::Infrastructure => "infrastructure"@,
        }
    }

    /// How far out the layer lies.
    pub fn index(self) -> (r: u8)
        ensures
            r == self.ring(),
    {
        match self {
            Layer::Domain => 0,
            Layer::Application => 1,
            Layer::Interface => 2,
            Layer::Infrastructure => 3,
        }
    }

    pub fn as_str(self) -> (r: &'static str)
        ensures
            r@ == self.text(),
    {
        match self {
            Layer::Domain => "domain",
            Layer::Application => "application",
            Layer::Interface => "interface",
            Layer::Infrastructure => "infrastructure",
        }
    }
}

/// The concentric layer that a module segment names.
pub open spec fn layer_word(s: Seq<char>) -> Option<Layer> {
    if s == "domain"@ || s == "entities"@ || s == "entity"@ || s == "model"@ || s == "models"@ || s
        == "core"@ {
        Some(Layer::Domain)
    } else if s == "application"@ || s == "app"@ || s == "usecase"@ || s == "use_case"@ || s
        == "usecases"@ || s == "service"@ || s == "services"@ || s == "logic"@ {
        Some(Layer::Application)
    } else if s == "interface"@ || s == "interfaces"@ || s == "adapter"@ || s == "adapters"@ || s
        == "api"@ || s == "presentation"@ || s == "handler"@ || s == "handlers"@ || s
        == "controller"@ || s == "controllers"@ {
        Some(Layer::Interface)
    } else if s == "infrastructure"@ || s == "infra"@ || s == "framework"@ || s == "frameworks"@
        || s == "db"@ || s == "database"@ || s == "persistence"@ || s == "repository"@ || s
        == "repositories"@ || s == "repo"@ || s == "io"@ || s == "net"@ || s == "http"@ || s
        == "web"@ || s == "fs"@ {
        Some(Layer::Infrastructure)
    } else {
        None
    }
}

fn word_layer(s: &str) -> (r: Option<Layer>)
    ensures
        r == layer_word(s@),
{
    if same(s, "domain") || same(s, "entities") || same(s, "entity") || same(s, "model") || same(
        s,
        "models",
    ) || same(s, "core") {
        Some(Layer::Domain)
    } else if same(s, "application") || same(s, "app") || same(s, "usecase") || same(s, "use_case")
        || same(s, "usecases") || same(s, "service") || same(s, "services") || same(s, "logic") {
        Some(Layer::Application)
    } else if same(s, "interface") || same(s, "interfaces") || same(s, "adapter") || same(
        s,
        "adapters",
    ) || same(s, "api") || same(s, "presentation") || same(s, "handler") || same(s, "handlers")
        || same(s, "controller") || same(s, "controllers") {
        Some(Layer::Interface)
    } else if same(s, "infrastructure") || same(s, "infra") || same(s, "framework") || same(
        s,
        "frameworks",
    ) || same(s, "db") || same(s, "database") || same(s, "persistence") || same(s, "repository")
        || same(s, "repositories") || same(s, "repo") || same(s, "io") || same(s, "net") || same(
        s,
        "http",
    ) || same(s, "web") || same(s, "fs") {
        Some(Layer::Infrastructure)
    } else {
        None
    }
}

/// The concentric layer of a module: that of its last segment that names one.
pub open spec fn layer_of(module: Seq<char>) -> Option<Layer> {
    last_class(split(module, "::"@), |s: Seq<char>| layer_word(s))
}

/// The concentric layer of a module: that of its last segment that names one.
pub fn concentric_layer(module: &str) -> (r: Option<Layer>)
    ensures
        r == layer_of(module@),
{
    proof {
        reveal_strlit("::");
    }
    let segments = split_text(module, "::");
    let ghost all = views(segments@);
    let ghost class = |s: Seq<char>| layer_word(s);
    let mut found: Option<Layer> = None;
    let mut i: usize = 0;
    while i < segments.len()
        invariant
            i <= segments@.len(),
            all == views(segments@),
            class == (|s: Seq<char>| layer_word(s)),
            found == last_class(all.take(i as int), class),
        decreases segments@.len() - i,
    {
        proof {
            assert(all.take(i + 1).drop_last() =~= all.take(i as int));
            assert(all.take(i + 1).last() == segments@[i as int]@);
        }
        let here = word_layer(segments[i].as_str());
        if here.is_some() {
            found = here;
        }
        i += 1;
    }
    assert(all.take(all.len() as int) =~= all);
    found
}

/// The parts of model-view-controller.
#[derive(Debug, Clone, Copy, PartialEq, Eq, Structural)]
pub enum Mvc {
    Model,
    View,
    Controller,
}

impl Mvc {
    pub open spec fn text(self) -> Seq<char> {
        match self {
            Mvc::Model => "model"@,
            Mvc::View => "view"@,
            Mvc::Controller => "controller"@,
        }
    }

    pub fn as_str(self) -> (r: &'static str)
        ensures
            r@ == self.text(),
    {
        match self {
            Mvc::Model => "model",
            Mvc::View => "view",
            Mvc::Controller => "controller",
        }
    }
}

/// The part that a module segment names.
pub open spec fn mvc_word(s: Seq<char>) -> Option<Mvc> {
    if s == "model"@ || s == "models"@ || s == "entity"@ || s == "entities"@ || s == "domain"@ {
        Some(Mvc::Model)
    } else if s == "view"@ || s == "views"@ || s == "template"@ || s == "templates"@ || s
        == "component"@ || s == "components"@ {
        Some(Mvc::View)
    } else if s == "controller"@ || s == "controllers"@ || s == "handler"@ || s == "handlers"@ || s
        == "route"@ || s == "routes"@ {
        Some(Mvc::Controller)
    } else {
        None
    }
}

fn word_mvc(s: &str) -> (r: Option<Mvc>)
    ensures
        r == mvc_word(s@),
{
    if same(s, "model") || same(s, "models") || same(s, "entity") || same(s, "entities") || same(
        s,
        "domain",
    ) {
        Some(Mvc::Model)
    } else if same(s, "view") || same(s, "views") || same(s, "template") || same(s, "templates")
        || same(s, "component") || same(s, "components") {
        Some(Mvc::View)
    } else if same(s, "controller") || same(s, "controllers") || same(s, "handler") || same(
        s,
        "handlers",
    ) || same(s, "route") || same(s, "routes") {
        Some(Mvc::Controller)
    } else {
        None
    }
}

/// The part of a module: that of its last segment that names one.
pub open spec fn mvc_of(module: Seq<char>) -> Option<Mvc> {
    last_class(split(module, "::"@), |s: Seq<char>| mvc_word(s))
}

/// The part of a module: that of its last segment that names one.
pub fn mvc_layer(module: &str) -> (r: Option<Mvc>)
    ensures
        r == mvc_of(module@),
{
    proof {
        reveal_strlit("::");
    }
    let segments = split_text(module, "::");
    let ghost all = views(segments@);
    let ghost class = |s: Seq<char>| mvc_word(s);
    let mut found: Option<Mvc> = None;
    let mut i: usize = 0;
    while i < segments.len()
        invariant
            i <= segments@.len(),
            all == views(segments@),
            class == (|s: Seq<char>| mvc_word(s)),
            found == last_class(all.take(i as int), class),
        decreases segments@.len() - i,
    {
        proof {
            assert(all.take(i + 1).drop_last() =~= all.take(i as int));
            assert(all.take(i + 1).last() == segments@[i as int]@);
        }
        let here = word_mvc(segments[i].as_str());
        if here.is_some() {
            found = here;
        }
        i += 1;
    }
    assert(all.take(all.len() as int) =~= all);
    found
}

/// The configuration names this architecture style.
pub open spec fn styled(config: Config, style: Seq<char>) -> bool {
    views(config.lenses.architecture@).contains(style)
}

fn has_style(config: &Config, style: &str) -> (r: bool)
    ensures
        r == styled(*config, style@),
{
    let styles = &config.lenses.architecture;
    let mut i: usize = 0;
    while i < styles.len()
        invariant
            *styles == config.lenses.architecture,
            i <= styles@.len(),
            forall|j: int| 0 <= j < i ==> #[trigger] views(styles@)[j] != style@,
        decreases styles@.len() - i,
    {
        if same(styles[i].as_str(), style) {
            assert(views(styles@)[i as int] == style@);
            return true;
        }
        i += 1;
    }
    false
}

/// The call goes outward: its source lies in an inner layer, its target in an outer.
pub open spec fn goes_outward(from: NodeModel, to: NodeModel) -> bool {
    match (layer_of(from.module), layer_of(to.module)) {
        (Some(a), Some(b)) => a.ring() < b.ring(),
        _ => false,
    }
}

/// The call goes from a model to a view or controller.
pub open spec fn leaves_model(from: NodeModel, to: NodeModel) -> bool {
    mvc_of(from.module) == Some(Mvc::Model) && (mvc_of(to.module) == Some(Mvc::View) || mvc_of(
        to.module,
    ) == Some(Mvc::Controller))
}

/// A name between backticks, with its layer.
pub open spec fn layered_name(n: NodeModel, layer: Layer) -> Seq<char> {
    quoted(n.qualified_name, " ("@ + layer.text() + ")"@)
}

/// What is said of a call that goes outward.
pub open spec fn outward_text(style: Seq<char>, from: NodeModel, to: NodeModel) -> Seq<char> {
    style + ": "@ + layered_name(from, layer_of(from.module)->0) + " depends on "@ + layered_name(
        to,
        layer_of(to.module)->0,
    ) + " — inner layer reaching outward"@
}

/// What is said of a call that leaves the model.
pub open spec fn leaving_text(from: NodeModel, to: NodeModel) -> Seq<char> {
    "mvc: model "@ + quoted(
        from.qualified_name,
        " depends on "@ + (mvc_of(to.module)->0).text() + " "@,
    ) + quoted(to.qualified_name, ""@)
}

/// What the layering lens finds about one call.
pub open spec fn layering_findings(g: GraphModel, config: Config) -> spec_fn(int) -> Seq<
    DiagnosticModel,
> {
    |i: int|
        {
            let e = g.edges[i];
            let from = g.node(e.from);
            let to = g.node(e.to);
            let style = if styled(config, "clean"@) {
                "clean"@
            } else {
                "onion"@
            };
            if e.from == e.to || !defined(from) || !defined(to) {
                Seq::empty()
            } else {
                only_if(
                    (styled(config, "clean"@) || styled(config, "onion"@)) && goes_outward(
                        from,
                        to,
                    ),
                    finding(
                        "layering"@,
                        "layering_violation"@,
                        Severity::Medium,
                        outward_text(style, from, to),
                        e.from,
                    ),
                ) + only_if(
                    styled(config, "mvc"@) && leaves_model(from, to),
                    finding(
                        "layering"@,
                        "mvc_violation"@,
                        Severity::Medium,
                        leaving_text(from, to),
                        e.from,
                    ),
                )
            }
        }
}

fn layered_text(node: &Node, layer: Layer) -> (r: String)
    ensures
        r@ == layered_name(node@, layer),
{
    let mut rest = " (".to_owned();
    rest.append(layer.as_str());
    rest.append(")");
    quote(node.qualified_name.as_str(), rest.as_str())
}

/// Add a finding where the call goes outward.
fn check_outward(out: &mut Vec<Diagnostic>, style: &str, from: NodeId, src: &Node, dst: &Node)
    ensures
        views_of(final(out)@) == views_of(old(out)@) + only_if(
            goes_outward(src@, dst@),
            finding(
                "layering"@,
                "layering_violation"@,
                Severity::Medium,
                outward_text(style@, src@, dst@),
                from,
            ),
        ),
{
    let ghost before = views_of(out@);
    if let Some(a) = concentric_layer(src.module.as_str()) {
        if let Some(b) = concentric_layer(dst.module.as_str()) {
            if a.index() < b.index() {
                let mut message = style.to_owned();
                message.append(": ");
                message.append(layered_text(src, a).as_str());
                message.append(" depends on ");
                message.append(layered_text(dst, b).as_str());
                message.append(" — inner layer reaching outward");
                add_finding(
                    out,
                    "layering",
                    "layering_violation",
                    Severity::Medium,
                    message.as_str(),
                    from,
                );
                assert(views_of(out@) =~= before + seq![views_of(out@).last()]);
                return;
            }
        }
    }
    assert(before =~= before + Seq::empty());
}

/// Add a finding where the call leaves the model.
fn check_mvc(out: &mut Vec<Diagnostic>, from: NodeId, src: &Node, dst: &Node)
    ensures
        views_of(final(out)@) == views_of(old(out)@) + only_if(
            leaves_model(src@, dst@),
            finding(
                "layering"@,
                "mvc_violation"@,
                Severity::Medium,
                leaving_text(src@, dst@),
                from,
            ),
        ),
{
    let ghost before = views_of(out@);
    if let Some(Mvc::Model) = mvc_layer(src.module.as_str()) {
        if let Some(outer) = mvc_layer(dst.module.as_str()) {
            if outer != Mvc::Model {
                let mut rest = " depends on ".to_owned();
                rest.append(outer.as_str());
                rest.append(" ");
                let mut message = "mvc: model ".to_owned();
                message.append(quote(src.qualified_name.as_str(), rest.as_str()).as_str());
                message.append(quote(dst.qualified_name.as_str(), "").as_str());
                add_finding(
                    out,
                    "layering",
                    "mvc_violation",
                    Severity::Medium,
                    message.as_str(),
                    from,
                );
                assert(views_of(out@) =~= before + seq![views_of(out@).last()]);
                return;
            }
        }
    }
    assert(before =~= before + Seq::empty());
}

impl Lens for LayeringLens {
    open spec fn title(&self) -> Seq<char> {
        "layering"@
    }

    open spec fn findings(&self, g: GraphModel, config: Config) -> Seq<DiagnosticModel> {
        gather(g.edges.len() as int, layering_findings(g, config))
    }

    fn name(&self) -> (r: &'static str) {
        "layering"
    }

    fn evaluate(&self, graph: &CodeGraph, config: &Config) -> (r: Vec<Diagnostic>) {
        let ghost g = graph@;
        let ghost f = layering_findings(g, *config);
        let clean = has_style(config, "clean");
        let layered = clean || has_style(config, "onion");
        let mvc = has_style(config, "mvc");
        let style = if clean {
            "clean"
        } else {
            "onion"
        };
        let mut out: Vec<Diagnostic> = Vec::new();
        let edges = graph.edges();
        let mut i: usize = 0;
        proof {
            graph.lemma_wf();
            assert(views_of(out@) =~= Seq::empty());
        }
        while i < edges.len()
            invariant
                g == graph@,
                g.wf(),
                edges@ == g.edges.map_values(|e: EdgeExport| (e.from, e.to, edge_of(e))),
                i <= edges@.len(),
                f == layering_findings(g, *config),
                clean == styled(*config, "clean"@),
                layered == (clean || styled(*config, "onion"@)),
                mvc == styled(*config, "mvc"@),
                style@ == if clean {
                    "clean"@
                } else {
                    "onion"@
                },
                views_of(out@) == gather(i as int, f),
            decreases edges@.len() - i,
        {
            let ghost before = views_of(out@);
            let from = edges[i].0;
            let to = edges[i].1;
            assert(g.has(g.edges[i as int].from));
            if from != to {
                let src = graph.node(from);
                let dst = graph.node(to);
                if src.kind != NodeKind::External && dst.kind != NodeKind::External {
                    if layered {
                        check_outward(&mut out, style, from, src, dst);
                    }
                    let ghost mid = views_of(out@);
                    if mvc {
                        check_mvc(&mut out, from, src, dst);
                    }
                    proof {
                        assert(mid =~= before + mid.skip(before.len() as int));
                        assert(views_of(out@) =~= before + f(i as int));
                    }
                }
            }
            assert(views_of(out@) =~= before + f(i as int));
            i += 1;
        }
        out
    }
}

// -- paradigm -------------------------------------------------------------------------

/// Whether a codebase is object oriented, functional or mixed: one note on the whole.
#[derive(Debug, Clone, Copy, PartialEq, Eq, Structural)]
pub struct ParadigmLens;

/// The node is a definition that counts as a method.
pub open spec fn is_method(g: GraphModel) -> spec_fn(int) -> bool {
    |i: int|
        defined(g.nodes[i]) && (g.nodes[i].kind == NodeKind::Method || g.nodes[i].flags.is_method)
}

/// The node is a free function.
pub open spec fn is_function(g: GraphModel) -> spec_fn(int) -> bool {
    |i: int| !is_method(g)(i) && g.nodes[i].kind == NodeKind::Function
}

/// The node is a definition.
pub open spec fn is_def(g: GraphModel) -> spec_fn(int) -> bool {
    |i: int| defined(g.nodes[i])
}

/// The purity of a definition, in hundredths.
pub open spec fn def_purity(g: GraphModel) -> spec_fn(int) -> int {
    |i: int|
        if defined(g.nodes[i]) {
            purity(g.nodes[i])
        } else {
            0
        }
}

/// The counts that the paradigm is read from.
pub struct ParadigmCounts {
    pub methods: int,
    pub functions: int,
    pub defs: int,
    /// The sum of the purities, in hundredths.
    pub purity: int,
}

pub open spec fn paradigm_counts(g: GraphModel) -> ParadigmCounts {
    let n = g.nodes.len() as int;
    ParadigmCounts {
        methods: tally(n, is_method(g)) as int,
        functions: tally(n, is_function(g)) as int,
        defs: tally(n, is_def(g)) as int,
        purity: sum(n, def_purity(g)),
    }
}

impl ParadigmCounts {
    /// Methods and free functions; at least one.
    pub open spec fn classified(self) -> int {
        if self.methods + self.functions > 0 {
            self.methods + self.functions
        } else {
            1
        }
    }

    /// From three methods in five on: object oriented. Up to seven in twenty, with a
    /// mean purity of at least sixty hundredths: functional.
    pub open spec fn label(self) -> Seq<char> {
        if 5 * self.methods >= 3 * self.classified() {
            "object-oriented"@
        } else if 20 * self.methods <= 7 * self.classified() && self.purity >= 60 * self.defs {
            "functional"@
        } else {
            "mixed / procedural"@
        }
    }

    pub open spec fn message(self) -> Seq<char> {
        "codebase paradigm: "@ + self.label() + counted(
            " ("@,
            rounded(100 * self.methods, self.classified()),
            "% methods, mean purity "@,
        ) + hundredths(rounded(self.purity, self.defs)) + ")"@
    }
}

/// What the paradigm lens finds.
pub open spec fn paradigm_findings(g: GraphModel) -> Seq<DiagnosticModel> {
    let c = paradigm_counts(g);
    only_if(
        c.defs > 0,
        DiagnosticModel {
            code: "paradigm_profile"@,
            lens: "paradigm"@,
            severity: Severity::Info,
            message: c.message(),
            node: None,
        },
    )
}

impl Lens for ParadigmLens {
    open spec fn title(&self) -> Seq<char> {
        "paradigm"@
    }

    open spec fn findings(&self, g: GraphModel, config: Config) -> Seq<DiagnosticModel> {
        paradigm_findings(g)
    }

    fn name(&self) -> (r: &'static str) {
        "paradigm"
    }

    fn evaluate(&self, graph: &CodeGraph, config: &Config) -> (r: Vec<Diagnostic>) {
        let ghost g = graph@;
        let mut methods: u64 = 0;
        let mut functions: u64 = 0;
        let mut defs: u64 = 0;
        let mut total: u64 = 0;
        let n: usize = graph.node_count();
        let mut i: usize = 0;
        proof {
            graph.lemma_wf();
        }
        while i < n
            invariant
                g == graph@,
                i <= n == g.nodes.len() <= u32::MAX,
                methods == tally(i as int, is_method(g)),
                functions == tally(i as int, is_function(g)),
                defs == tally(i as int, is_def(g)),
                total == sum(i as int, def_purity(g)),
                methods + functions <= i,
                defs <= i,
                15 * defs <= total <= 100 * defs,
            decreases n - i,
        {
            let node = graph.nodes_at(i);
            if node.kind != NodeKind::External {
                defs += 1;
                total += purity_score(node) as u64;
                if node.kind == NodeKind::Method || node.flags.is_method {
                    methods += 1;
                } else if node.kind == NodeKind::Function {
                    functions += 1;
                }
            }
            i += 1;
        }
        let mut out: Vec<Diagnostic> = Vec::new();
        proof {
            assert(views_of(out@) =~= Seq::empty());
        }
        if defs == 0 {
            return out;
        }
        let classified: u64 = if methods + functions > 0 {
            methods + functions
        } else {
            1
        };
        let label = if 5 * methods >= 3 * classified {
            "object-oriented"
        } else if 20 * methods <= 7 * classified && total >= 60 * defs {
            "functional"
        } else {
            "mixed / procedural"
        };
        let percent: u128 = round(100 * (methods as u128), classified);
        let mean: u128 = round(total as u128, defs);
        proof {
            lemma_share(100 * methods, classified as int, 100);
            lemma_share(total as int, defs as int, 100);
        }
        let mut message = "codebase paradigm: ".to_owned();
        message.append(label);
        message.append(count_text(" (", percent, "% methods, mean purity ").as_str());
        message.append(hundredths_text(mean as u64).as_str());
        message.append(")");
        let d = Diagnostic::new("paradigm", "paradigm_profile", Severity::Info, message.as_str());
        proof {
            lemma_views_push(out@, d);
        }
        out.push(d);
        assert(views_of(out@) =~= paradigm_findings(g));
        out
    }
}

/// A rounded mean lies between the bounds of what it is a mean of.
proof fn lemma_share(n: int, d: int, max: int)
    requires
        d > 0,
        0 <= n <= max * d,
    ensures
        0 <= rounded(n, d) <= max + 1,
{
    assert(0 <= n / d <= max) by (nonlinear_arith)
        requires
            d > 0,
            0 <= n <= max * d,
    ;
}

// -- laws -----------------------------------------------------------------------------

/// Some finding is about node `v`.
pub open spec fn reported(ds: Seq<DiagnosticModel>, v: int) -> bool {
    exists|d: DiagnosticModel| #[trigger]
        ds.contains(d) && (d.node matches Some(id) && id.0 == v)
}

/// Every finding carries the lens's name and, where it is about a node, a definition
/// of the graph.
pub open spec fn well_labelled(ds: Seq<DiagnosticModel>, title: Seq<char>, g: GraphModel) -> bool {
    forall|d: DiagnosticModel| #[trigger]
        ds.contains(d) ==> d.lens == title && (d.node matches Some(id) ==> g.has(id) && defined(
            g.node(id),
        ))
}

/// Findings gathered place by place are well labelled where those of each place are.
pub proof fn lemma_gather_labelled(
    n: int,
    f: spec_fn(int) -> Seq<DiagnosticModel>,
    title: Seq<char>,
    g: GraphModel,
)
    requires
        forall|i: int| 0 <= i < n ==> well_labelled(#[trigger] f(i), title, g),
    ensures
        well_labelled(gather(n, f), title, g),
{
    assert forall|d: DiagnosticModel| #[trigger] gather(n, f).contains(d) implies d.lens == title
        && (d.node matches Some(id) ==> g.has(id) && defined(g.node(id))) by {
        lemma_gather_has(n, f, d);
        let i = choose|i: int| 0 <= i < n && #[trigger] f(i).contains(d);
        assert(well_labelled(f(i), title, g));
    }
}

/// The built-in lenses label their findings with their own name, and report nothing
/// but definitions.
pub proof fn law_builtin_findings_are_labelled(g: GraphModel, config: Config)
    requires
        g.wf(),
    ensures
        well_labelled(ComplexityLens.findings(g, config), ComplexityLens.title(), g),
        well_labelled(HazardsLens.findings(g, config), HazardsLens.title(), g),
        well_labelled(PurityLens.findings(g, config), PurityLens.title(), g),
        well_labelled(LayeringLens.findings(g, config), LayeringLens.title(), g),
        well_labelled(ParadigmLens.findings(g, config), ParadigmLens.title(), g),
{
    let n = g.nodes.len() as int;
    assert forall|i: int| 0 <= i < n implies well_labelled(
        #[trigger] complexity_findings(g, config)(i),
        "complexity"@,
        g,
    ) by {
        assert(g.nodes[i].id.0 == i);
    }
    lemma_gather_labelled(n, complexity_findings(g, config), "complexity"@, g);
    assert forall|i: int| 0 <= i < n implies well_labelled(
        #[trigger] hazard_findings(g, config)(i),
        "hazards"@,
        g,
    ) by {
        assert(g.nodes[i].id.0 == i);
    }
    lemma_gather_labelled(n, hazard_findings(g, config), "hazards"@, g);
    assert forall|i: int| 0 <= i < n implies well_labelled(
        #[trigger] purity_findings(g)(i),
        "purity"@,
        g,
    ) by {
        assert(g.nodes[i].id.0 == i);
    }
    lemma_gather_labelled(n, purity_findings(g), "purity"@, g);
    assert forall|i: int| 0 <= i < g.edges.len() implies well_labelled(
        #[trigger] layering_findings(g, config)(i),
        "layering"@,
        g,
    ) by {
        assert(g.has(g.edges[i].from));
    }
    lemma_gather_labelled(g.edges.len() as int, layering_findings(g, config), "layering"@, g);
}

/// With the concentric styles on, a call between definitions is reported exactly when
/// it goes from an inner layer to an outer one; a call inward or within a layer never.
pub proof fn law_outward_calls_are_reported(g: GraphModel, config: Config, i: int)
    requires
        g.wf(),
        0 <= i < g.edges.len(),
        styled(config, "clean"@) || styled(config, "onion"@),
        !styled(config, "mvc"@),
        g.edges[i].from != g.edges[i].to,
        defined(g.node(g.edges[i].from)),
        defined(g.node(g.edges[i].to)),
    ensures
        layering_findings(g, config)(i).len() == if goes_outward(
            g.node(g.edges[i].from),
            g.node(g.edges[i].to),
        ) {
            1nat
        } else {
            0nat
        },
{
}


/// The first of two concentric layers lies inside the second.
pub open spec fn lies_inside(a: Layer, b: Layer) -> bool {
    match a {
        Layer::Domain => b == Layer::Application || b == Layer::Interface || b
            == Layer::Infrastructure,
        Layer::Application => b == Layer::Interface || b == Layer::Infrastructure,
        Layer::Interface => b == Layer::Infrastructure,
        Layer::Infrastructure => false,
    }
}

/// The words that name a concentric layer.
pub open spec fn names_layer(l: Layer, w: Seq<char>) -> bool {
    match l {
        Layer::Domain => {
            ||| w == "domain"@
            ||| w == "entities"@
            ||| w == "entity"@
            ||| w == "model"@
            ||| w == "models"@
            ||| w == "core"@
        },
        Layer::Application => {
            ||| w == "application"@
            ||| w == "app"@
            ||| w == "usecase"@
            ||| w == "use_case"@
            ||| w == "usecases"@
            ||| w == "service"@
            ||| w == "services"@
            ||| w == "logic"@
        },
        Layer::Interface => {
            ||| w == "interface"@
            ||| w == "interfaces"@
            ||| w == "adapter"@
            ||| w == "adapters"@
            ||| w == "api"@
            ||| w == "presentation"@
            ||| w == "handler"@
            ||| w == "handlers"@
            ||| w == "controller"@
            ||| w == "controllers"@
        },
        Layer::Infrastructure => {
            ||| w == "infrastructure"@
            ||| w == "infra"@
            ||| w == "framework"@
            ||| w == "frameworks"@
            ||| w == "db"@
            ||| w == "database"@
            ||| w == "persistence"@
            ||| w == "repository"@
            ||| w == "repositories"@
            ||| w == "repo"@
            ||| w == "io"@
            ||| w == "net"@
            ||| w == "http"@
            ||| w == "web"@
            ||| w == "fs"@
        },
    }
}

/// The words that name a part of model-view-controller.
pub open spec fn names_part(m: Mvc, w: Seq<char>) -> bool {
    match m {
        Mvc::Model => {
            ||| w == "model"@
            ||| w == "models"@
            ||| w == "entity"@
            ||| w == "entities"@
            ||| w == "domain"@
        },
        Mvc::View => {
            ||| w == "view"@
            ||| w == "views"@
            ||| w == "template"@
            ||| w == "templates"@
            ||| w == "component"@
            ||| w == "components"@
        },
        Mvc::Controller => {
            ||| w == "controller"@
            ||| w == "controllers"@
            ||| w == "handler"@
            ||| w == "handlers"@
            ||| w == "route"@
            ||| w == "routes"@
        },
    }
}

/// The module lies in the layer: one of its segments names the layer, and no later one
/// names any.
pub open spec fn lies_in(module: Seq<char>, l: Layer) -> bool {
    let parts = split(module, "::"@);
    exists|i: int|
        0 <= i < parts.len() && names_layer(l, #[trigger] parts[i]) && forall|j: int, m: Layer|
            i < j < parts.len() ==> !#[trigger] names_layer(m, parts[j])
}

/// The module is of the part: one of its segments names the part, and no later one names
/// any.
pub open spec fn is_of(module: Seq<char>, p: Mvc) -> bool {
    let parts = split(module, "::"@);
    exists|i: int|
        0 <= i < parts.len() && names_part(p, #[trigger] parts[i]) && forall|j: int, m: Mvc|
            i < j < parts.len() ==> !#[trigger] names_part(m, parts[j])
}

proof fn lemma_last_class<T>(parts: Seq<Seq<char>>, class: spec_fn(Seq<char>) -> Option<T>)
    ensures
        match last_class(parts, class) {
            Some(x) => exists|i: int|
                0 <= i < parts.len() && class(#[trigger] parts[i]) == Some(x) && forall|j: int|
                    i < j < parts.len() ==> class(#[trigger] parts[j]) is None,
            None => forall|j: int| 0 <= j < parts.len() ==> class(#[trigger] parts[j]) is None,
        },
    decreases parts.len(),
{
    if parts.len() > 0 {
        let n = parts.len() - 1;
        if class(parts.last()) is Some {
            assert(class(parts[n]) == last_class(parts, class));
        } else {
            let front = parts.drop_last();
            lemma_last_class(front, class);
            assert forall|j: int| 0 <= j < n implies front[j] == #[trigger] parts[j] by {}
            assert(class(parts[n]) is None);
            if let Some(x) = last_class(front, class) {
                let i = choose|i: int|
                    0 <= i < front.len() && class(#[trigger] front[i]) == Some(x) && forall|j: int|
                        i < j < front.len() ==> class(#[trigger] front[j]) is None;
                assert(class(parts[i]) == Some(x));
                assert forall|j: int| i < j < parts.len() implies class(
                    #[trigger] parts[j],
                ) is None by {
                    if j < n {
                        assert(class(front[j]) is None);
                    }
                }
            } else {
                assert forall|j: int| 0 <= j < parts.len() implies class(
                    #[trigger] parts[j],
                ) is None by {
                    if j < n {
                        assert(class(front[j]) is None);
                    }
                }
            }
        }
    }
}

#[verifier::rlimit(40)]
proof fn lemma_words(w: Seq<char>)
    ensures
        forall|l: Layer| #[trigger] names_layer(l, w) ==> layer_word(w) is Some,
        layer_word(w) is Some ==> names_layer(layer_word(w)->0, w),
        forall|m: Mvc| #[trigger] names_part(m, w) ==> mvc_word(w) is Some,
        mvc_word(w) is Some ==> names_part(mvc_word(w)->0, w),
{
}

/// What tells the words of one layer from those of another: first letter and length.
proof fn lemma_word_marks(w: Seq<char>)
    ensures
        names_layer(Layer::Domain, w) ==> w.len() > 1 && (w[0] == 'd' && w.len() == 6 || w[0] == 'e'
            || w[0] == 'm' || w[0] == 'c' && w.len() == 4),
        names_layer(Layer::Application, w) ==> w.len() > 1 && (w[0] == 'a' && (w.len() == 11
            || w.len() == 3 && w[2] == 'p') || w[0] == 'u' || w[0] == 's' || w[0] == 'l'),
        names_layer(Layer::Interface, w) ==> w.len() > 1 && (w[0] == 'i' && (w.len() == 9 || w.len()
            == 10) || w[0] == 'a' && (w.len() == 7 || w.len() == 8 || w.len() == 3 && w[2] == 'i')
            || w[0] == 'p' && w[1] == 'r' || w[0] == 'h' && w[1] == 'a' || w[0] == 'c' && w.len()
            > 4),
        names_layer(Layer::Infrastructure, w) ==> w.len() > 1 && (w[0] == 'i' && (w.len() == 14
            || w.len() == 5 || w.len() == 2) || w[0] == 'f' || w[0] == 'd' && w.len() != 6 || w[0]
            == 'p' && w[1] == 'e' || w[0] == 'r' || w[0] == 'n' || w[0] == 'h' && w[1] == 't'
            || w[0] == 'w'),
{
    reveal_strlit("domain");
    reveal_strlit("entities");
    reveal_strlit("entity");
    reveal_strlit("model");
    reveal_strlit("models");
    reveal_strlit("core");
    reveal_strlit("application");
    reveal_strlit("app");
    reveal_strlit("usecase");
    reveal_strlit("use_case");
    reveal_strlit("usecases");
    reveal_strlit("service");
    reveal_strlit("services");
    reveal_strlit("logic");
    reveal_strlit("interface");
    reveal_strlit("interfaces");
    reveal_strlit("adapter");
    reveal_strlit("adapters");
    reveal_strlit("api");
    reveal_strlit("presentation");
    reveal_strlit("handler");
    reveal_strlit("handlers");
    reveal_strlit("controller");
    reveal_strlit("controllers");
    reveal_strlit("infrastructure");
    reveal_strlit("infra");
    reveal_strlit("framework");
    reveal_strlit("frameworks");
    reveal_strlit("db");
    reveal_strlit("database");
    reveal_strlit("persistence");
    reveal_strlit("repository");
    reveal_strlit("repositories");
    reveal_strlit("repo");
    reveal_strlit("io");
    reveal_strlit("net");
    reveal_strlit("http");
    reveal_strlit("web");
    reveal_strlit("fs");
}

/// What tells the words of one part of model-view-controller from those of another.
proof fn lemma_part_marks(w: Seq<char>)
    ensures
        names_part(Mvc::Model, w) ==> w.len() > 1 && (w[0] == 'm' || w[0] == 'e' || w[0] == 'd'),
        names_part(Mvc::View, w) ==> w.len() > 1 && (w[0] == 'v' || w[0] == 't' || w[0] == 'c'
            && w[2] == 'm'),
        names_part(Mvc::Controller, w) ==> w.len() > 1 && (w[0] == 'c' && w[2] == 'n' || w[0] == 'h'
            || w[0] == 'r'),
{
    reveal_strlit("model");
    reveal_strlit("models");
    reveal_strlit("entity");
    reveal_strlit("entities");
    reveal_strlit("domain");
    reveal_strlit("view");
    reveal_strlit("views");
    reveal_strlit("template");
    reveal_strlit("templates");
    reveal_strlit("component");
    reveal_strlit("components");
    reveal_strlit("controller");
    reveal_strlit("controllers");
    reveal_strlit("handler");
    reveal_strlit("handlers");
    reveal_strlit("route");
    reveal_strlit("routes");
}

/// The layer of a module is the one it lies in, and its part the one it is of; a module
/// has at most one of either.
pub proof fn law_modules_have_one_layer(module: Seq<char>, l: Layer, p: Mvc)
    ensures
        layer_of(module) == Some(l) <==> lies_in(module, l),
        mvc_of(module) == Some(p) <==> is_of(module, p),
{
    let parts = split(module, "::"@);
    let class = |s: Seq<char>| layer_word(s);
    let sort = |s: Seq<char>| mvc_word(s);
    lemma_last_class(parts, class);
    lemma_last_class(parts, sort);
    assert forall|j: int| 0 <= j < parts.len() implies ({
        &&& forall|m: Layer| #[trigger] names_layer(m, parts[j]) ==> class(parts[j]) == Some(m)
        &&& class(#[trigger] parts[j]) is Some ==> names_layer(class(parts[j])->0, parts[j])
        &&& forall|m: Mvc| #[trigger] names_part(m, parts[j]) ==> sort(parts[j]) == Some(m)
        &&& sort(parts[j]) is Some ==> names_part(sort(parts[j])->0, parts[j])
    }) by {
        lemma_words(parts[j]);
        lemma_word_marks(parts[j]);
        lemma_part_marks(parts[j]);
    }
    if lies_in(module, l) {
        let i = choose|i: int|
            0 <= i < parts.len() && names_layer(l, #[trigger] parts[i]) && forall|j: int, m: Layer|
                i < j < parts.len() ==> !#[trigger] names_layer(m, parts[j]);
        assert(class(parts[i]) == Some(l));
        let k = choose|k: int|
            0 <= k < parts.len() && class(#[trigger] parts[k]) == last_class(parts, class)
                && forall|j: int| k < j < parts.len() ==> class(#[trigger] parts[j]) is None;
        assert(class(parts[k]) is Some);
        if k > i {
            assert(names_layer(class(parts[k])->0, parts[k]));
        }
    }
    if is_of(module, p) {
        let i = choose|i: int|
            0 <= i < parts.len() && names_part(p, #[trigger] parts[i]) && forall|j: int, m: Mvc|
                i < j < parts.len() ==> !#[trigger] names_part(m, parts[j]);
        assert(sort(parts[i]) == Some(p));
        let k = choose|k: int|
            0 <= k < parts.len() && sort(#[trigger] parts[k]) == last_class(parts, sort)
                && forall|j: int| k < j < parts.len() ==> sort(#[trigger] parts[j]) is None;
        assert(sort(parts[k]) is Some);
        if k > i {
            assert(names_part(sort(parts[k])->0, parts[k]));
        }
    }
    if layer_of(module) == Some(l) {
        let k = choose|k: int|
            0 <= k < parts.len() && class(#[trigger] parts[k]) == Some(l) && forall|j: int|
                k < j < parts.len() ==> class(#[trigger] parts[j]) is None;
        assert(names_layer(l, parts[k]));
        assert forall|j: int, m: Layer| k < j < parts.len() implies !#[trigger] names_layer(
            m,
            parts[j],
        ) by {
            assert(class(parts[j]) is None);
        }
    }
    if mvc_of(module) == Some(p) {
        let k = choose|k: int|
            0 <= k < parts.len() && sort(#[trigger] parts[k]) == Some(p) && forall|j: int|
                k < j < parts.len() ==> sort(#[trigger] parts[j]) is None;
        assert(names_part(p, parts[k]));
        assert forall|j: int, m: Mvc| k < j < parts.len() implies !#[trigger] names_part(
            m,
            parts[j],
        ) by {
            assert(sort(parts[j]) is None);
        }
    }
}

/// How many findings carry the code.
pub open spec fn coded(ds: Seq<DiagnosticModel>, code: Seq<char>) -> nat {
    tally(ds.len() as int, |i: int| ds[i].code == code)
}

proof fn lemma_coded_add(a: Seq<DiagnosticModel>, b: Seq<DiagnosticModel>, code: Seq<char>)
    ensures
        coded(a + b, code) == coded(a, code) + coded(b, code),
    decreases b.len(),
{
    let f = |i: int| (a + b)[i].code == code;
    if b.len() == 0 {
        assert(a + b =~= a);
    } else {
        let c = b.drop_last();
        lemma_coded_add(a, c, code);
        lemma_coded_take(a + b, code);
        lemma_coded_take(b, code);
        assert((a + b).drop_last() =~= a + c);
        assert((a + b).last() == b.last());
    }
}

proof fn lemma_coded_take(s: Seq<DiagnosticModel>, code: Seq<char>)
    requires
        s.len() > 0,
    ensures
        coded(s, code) == coded(s.drop_last(), code) + if s.last().code == code {
            1nat
        } else {
            0nat
        },
{
    let f = |i: int| s[i].code == code;
    let g = |i: int| s.drop_last()[i].code == code;
    lemma_tally_agree(s.len() - 1, f, g);
}

proof fn lemma_tally_agree(n: int, f: spec_fn(int) -> bool, g: spec_fn(int) -> bool)
    requires
        forall|i: int| 0 <= i < n ==> #[trigger] f(i) == g(i),
    ensures
        tally(n, f) == tally(n, g),
    decreases n,
{
    if n > 0 {
        lemma_tally_agree(n - 1, f, g);
        assert(f(n - 1) == g(n - 1));
    }
}

/// Where each place gives one finding with the code or none, there are as many of them as
/// there are places that give one.
proof fn lemma_coded_gather(
    n: int,
    f: spec_fn(int) -> Seq<DiagnosticModel>,
    code: Seq<char>,
    p: spec_fn(int) -> bool,
)
    requires
        forall|i: int|
            0 <= i < n ==> coded(#[trigger] f(i), code) == if p(i) {
                1nat
            } else {
                0nat
            },
    ensures
        coded(gather(n, f), code) == tally(n, p),
    decreases n,
{
    if n > 0 {
        lemma_coded_gather(n - 1, f, code, p);
        lemma_coded_add(gather(n - 1, f), f(n - 1), code);
        assert(coded(f(n - 1), code) == if p(n - 1) {
            1nat
        } else {
            0nat
        });
    }
}

/// Edge `i` is a call between two definitions, of which that of the caller lies in an
/// inner layer and the other in an outer one.
pub open spec fn breaks_layers(g: GraphModel) -> spec_fn(int) -> bool {
    |i: int|
        {
            let e = g.edges[i];
            let from = g.nodes[e.from.0 as int];
            let to = g.nodes[e.to.0 as int];
            &&& e.from != e.to
            &&& from.kind != NodeKind::External
            &&& to.kind != NodeKind::External
            &&& exists|a: Layer, b: Layer| #[trigger]
                lies_inside(a, b) && lies_in(from.module, a) && lies_in(to.module, b)
        }
}

/// Edge `i` is a call between two definitions, from a model to a view or a controller.
pub open spec fn breaks_model(g: GraphModel) -> spec_fn(int) -> bool {
    |i: int|
        {
            let e = g.edges[i];
            let from = g.nodes[e.from.0 as int];
            let to = g.nodes[e.to.0 as int];
            &&& e.from != e.to
            &&& from.kind != NodeKind::External
            &&& to.kind != NodeKind::External
            &&& is_of(from.module, Mvc::Model)
            &&& is_of(to.module, Mvc::View) || is_of(to.module, Mvc::Controller)
        }
}

proof fn lemma_breaks(g: GraphModel, config: Config, i: int)
    requires
        g.wf(),
        0 <= i < g.edges.len(),
    ensures
        coded(layering_findings(g, config)(i), "layering_violation"@) == if (styled(
            config,
            "clean"@,
        ) || styled(config, "onion"@)) && breaks_layers(g)(i) {
            1nat
        } else {
            0nat
        },
        coded(layering_findings(g, config)(i), "mvc_violation"@) == if styled(config, "mvc"@)
            && breaks_model(g)(i) {
            1nat
        } else {
            0nat
        },
{
    let e = g.edges[i];
    let from = g.node(e.from);
    let to = g.node(e.to);
    let layer = Layer::Domain;
    let part = Mvc::Model;
    assert forall|l: Layer| layer_of(from.module) == Some(l) <==> #[trigger] lies_in(
        from.module,
        l,
    ) by {
        law_modules_have_one_layer(from.module, l, part);
    }
    assert forall|l: Layer| layer_of(to.module) == Some(l) <==> #[trigger] lies_in(to.module, l) by {
        law_modules_have_one_layer(to.module, l, part);
    }
    assert forall|p: Mvc| mvc_of(from.module) == Some(p) <==> #[trigger] is_of(from.module, p) by {
        law_modules_have_one_layer(from.module, layer, p);
    }
    assert forall|p: Mvc| mvc_of(to.module) == Some(p) <==> #[trigger] is_of(to.module, p) by {
        law_modules_have_one_layer(to.module, layer, p);
    }
    if goes_outward(from, to) {
        assert(lies_inside(layer_of(from.module)->0, layer_of(to.module)->0));
        assert(lies_in(from.module, layer_of(from.module)->0));
        assert(lies_in(to.module, layer_of(to.module)->0));
    }
    reveal_strlit("layering_violation");
    reveal_strlit("mvc_violation");
    assert("layering_violation"@.len() != "mvc_violation"@.len());
    let all = layering_findings(g, config)(i);
    let style = if styled(config, "clean"@) {
        "clean"@
    } else {
        "onion"@
    };
    let x = only_if(
        (styled(config, "clean"@) || styled(config, "onion"@)) && goes_outward(from, to),
        finding(
            "layering"@,
            "layering_violation"@,
            Severity::Medium,
            outward_text(style, from, to),
            e.from,
        ),
    );
    let y = only_if(
        styled(config, "mvc"@) && leaves_model(from, to),
        finding(
            "layering"@,
            "mvc_violation"@,
            Severity::Medium,
            leaving_text(from, to),
            e.from,
        ),
    );
    lemma_coded_one(x, "layering_violation"@);
    lemma_coded_one(x, "mvc_violation"@);
    lemma_coded_one(y, "layering_violation"@);
    lemma_coded_one(y, "mvc_violation"@);
    lemma_coded_one(all, "layering_violation"@);
    lemma_coded_one(all, "mvc_violation"@);
    lemma_coded_add(x, y, "layering_violation"@);
    lemma_coded_add(x, y, "mvc_violation"@);
}

proof fn lemma_coded_one(s: Seq<DiagnosticModel>, code: Seq<char>)
    ensures
        s.len() == 0 ==> coded(s, code) == 0,
        s.len() == 1 ==> coded(s, code) == if s[0].code == code {
            1nat
        } else {
            0nat
        },
{
    if s.len() == 1 {
        lemma_coded_take(s, code);
    }
}

/// With a concentric style on, there is one layering finding for each call that goes from
/// an inner layer to an outer one, and no other; with model-view-controller on, one for
/// each call that goes from a model to a view or a controller. A style that is off gives
/// none.
pub proof fn law_layering_counts_the_broken_calls(g: GraphModel, config: Config)
    requires
        g.wf(),
    ensures
        coded(LayeringLens.findings(g, config), "layering_violation"@) == if styled(
            config,
            "clean"@,
        ) || styled(config, "onion"@) {
            tally(g.edges.len() as int, breaks_layers(g))
        } else {
            0
        },
        coded(LayeringLens.findings(g, config), "mvc_violation"@) == if styled(config, "mvc"@) {
            tally(g.edges.len() as int, breaks_model(g))
        } else {
            0
        },
{
    let n = g.edges.len() as int;
    let f = layering_findings(g, config);
    let round = styled(config, "clean"@) || styled(config, "onion"@);
    let three = styled(config, "mvc"@);
    let p = |i: int| round && breaks_layers(g)(i);
    let q = |i: int| three && breaks_model(g)(i);
    assert forall|i: int| 0 <= i < n implies coded(#[trigger] f(i), "layering_violation"@) == if p(
        i,
    ) {
        1nat
    } else {
        0nat
    } by {
        lemma_breaks(g, config, i);
    }
    assert forall|i: int| 0 <= i < n implies coded(#[trigger] f(i), "mvc_violation"@) == if q(i) {
        1nat
    } else {
        0nat
    } by {
        lemma_breaks(g, config, i);
    }
    lemma_coded_gather(n, f, "layering_violation"@, p);
    lemma_coded_gather(n, f, "mvc_violation"@, q);
    if round {
        lemma_tally_agree(n, p, breaks_layers(g));
    } else {
        crate::seqs::lemma_tally_zero(n, p);
    }
    if three {
        lemma_tally_agree(n, q, breaks_model(g));
    } else {
        crate::seqs::lemma_tally_zero(n, q);
    }
}

/// What is said of a call from an inner layer to an outer one is about the caller, and
/// names both ends and their layers.
pub proof fn law_broken_calls_are_named(
    g: GraphModel,
    config: Config,
    i: int,
    a: Layer,
    b: Layer,
)
    requires
        g.wf(),
        0 <= i < g.edges.len(),
        styled(config, "clean"@) || styled(config, "onion"@),
        breaks_layers(g)(i),
        lies_in(g.nodes[g.edges[i].from.0 as int].module, a),
        lies_in(g.nodes[g.edges[i].to.0 as int].module, b),
    ensures
        LayeringLens.findings(g, config).contains(
            DiagnosticModel {
                code: "layering_violation"@,
                lens: "layering"@,
                severity: Severity::Medium,
                message: (if styled(config, "clean"@) {
                    "clean"@
                } else {
                    "onion"@
                }) + ": "@ + ("`"@ + g.nodes[g.edges[i].from.0 as int].qualified_name + "`"@ + (
                " ("@ + a.text() + ")"@)) + " depends on "@ + ("`"@
                    + g.nodes[g.edges[i].to.0 as int].qualified_name + "`"@ + (" ("@ + b.text()
                    + ")"@)) + " — inner layer reaching outward"@,
                node: Some(g.edges[i].from),
            },
        ),
{
    let e = g.edges[i];
    let from = g.node(e.from);
    let to = g.node(e.to);
    let f = layering_findings(g, config);
    law_modules_have_one_layer(from.module, a, Mvc::Model);
    law_modules_have_one_layer(to.module, b, Mvc::Model);
    let (x, y) = choose|x: Layer, y: Layer| #[trigger]
        lies_inside(x, y) && lies_in(from.module, x) && lies_in(to.module, y);
    law_modules_have_one_layer(from.module, x, Mvc::Model);
    law_modules_have_one_layer(to.module, y, Mvc::Model);
    let style = if styled(config, "clean"@) {
        "clean"@
    } else {
        "onion"@
    };
    let d = finding(
        "layering"@,
        "layering_violation"@,
        Severity::Medium,
        outward_text(style, from, to),
        e.from,
    );
    assert(f(i)[0] == d);
    assert(f(i).contains(d));
    lemma_gather_has(g.edges.len() as int, f, d);
}

} // verus!
