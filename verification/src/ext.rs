//! Extended lenses, which read the shape of the call graph: cycles, dead code, god
//! functions, hotspots and unstable dependencies. None runs unless it is asked for.

use crate::analysis::AnyLens;
use crate::arena::{divides, listed, number_lists};
use crate::config::Config;
use crate::diagnostic::{Diagnostic, DiagnosticModel, Severity};
use crate::graph::{edge_of, lemma_neighbors, CodeGraph, EdgeExport, GraphModel, Node, NodeKind, NodeModel};
use crate::ids::NodeId;
use crate::lenses::{
    add_finding, capped, count_text, counted, defined, doubled, finding,
    lemma_gather_labelled, only_if, quote, quoted, reported, well_labelled, Lens,

};
use crate::metric::Millionths;
use crate::metrics::{
    call_links, callee_count, caller_count, count_callees, count_callers, graph_components,
    lemma_on_cycle, list_components, on_cycle,
};
use crate::reach::{distinct, joined, lemma_joined, lemma_joined_len};
use crate::seqs::{gather, lemma_gather_has, views_of, weight};
use crate::text::same;
use vstd::prelude::*;

verus! {

/// Which extended lenses run, and with what thresholds. The default enables none.
#[derive(Debug, Clone, Copy, PartialEq, Eq, Structural)]
pub struct ExtLensConfig {
    /// Call cycles and self recursion.
    pub recursion_cycles: Option<RecursionCycleLens>,
    /// Definitions without callers that are no entry points.
    pub dead_code: Option<DeadCodeLens>,
    /// Hubs with many callers and many callees.
    pub god_function: Option<GodFunctionLens>,
    /// Heavily called nodes.
    pub hotspot: Option<HotspotLens>,
    /// Many calls into complex or volatile callees.
    pub unstable_dependency: Option<UnstableDependencyLens>,
}

impl Default for ExtLensConfig {
    fn default() -> (r: Self)
        ensures
            r == (ExtLensConfig {
                recursion_cycles: None,
                dead_code: None,
                god_function: None,
                hotspot: None,
                unstable_dependency: None,
            }),
    {
        ExtLensConfig {
            recursion_cycles: None,
            dead_code: None,
            god_function: None,
            hotspot: None,
            unstable_dependency: None,
        }
    }
}

impl ExtLensConfig {
    /// Every lens with its default thresholds.
    pub open spec fn everything() -> ExtLensConfig {
        ExtLensConfig {
            recursion_cycles: Some(RecursionCycleLens::usual()),
            dead_code: Some(DeadCodeLens::usual()),
            god_function: Some(GodFunctionLens::usual()),
            hotspot: Some(HotspotLens::usual()),
            unstable_dependency: Some(UnstableDependencyLens::usual()),
        }
    }

    /// Every lens with its default thresholds.
    pub fn all() -> (r: Self)
        ensures
            r == ExtLensConfig::everything(),
    {
        ExtLensConfig {
            recursion_cycles: Some(RecursionCycleLens::default()),
            dead_code: Some(DeadCodeLens::default()),
            god_function: Some(GodFunctionLens::default()),
            hotspot: Some(HotspotLens::default()),
            unstable_dependency: Some(UnstableDependencyLens::default()),
        }
    }

    /// No lens is enabled.
    pub open spec fn disabled(self) -> bool {
        &&& self.recursion_cycles is None
        &&& self.dead_code is None
        &&& self.god_function is None
        &&& self.hotspot is None
        &&& self.unstable_dependency is None
    }

    /// No lens is enabled.
    pub fn is_disabled(&self) -> (r: bool)
        ensures
            r == self.disabled(),
    {
        self.recursion_cycles.is_none() && self.dead_code.is_none() && self.god_function.is_none()
            && self.hotspot.is_none() && self.unstable_dependency.is_none()
    }

    /// The enabled lenses, in their fixed order.
    pub open spec fn lenses(self) -> Seq<AnyLens> {
        (match self.recursion_cycles {
            Some(l) => seq![AnyLens::RecursionCycle(l)],
            None => Seq::empty(),
        }) + (match self.dead_code {
            Some(l) => seq![AnyLens::DeadCode(l)],
            None => Seq::empty(),
        }) + (match self.god_function {
            Some(l) => seq![AnyLens::GodFunction(l)],
            None => Seq::empty(),
        }) + (match self.hotspot {
            Some(l) => seq![AnyLens::Hotspot(l)],
            None => Seq::empty(),
        }) + (match self.unstable_dependency {
            Some(l) => seq![AnyLens::UnstableDependency(l)],
            None => Seq::empty(),
        })
    }
}

/// The enabled extended lenses, in their fixed order.
pub fn extended_lenses(cfg: &ExtLensConfig) -> (r: Vec<AnyLens>)
    ensures
        r@ == cfg.lenses(),
{
    let mut out: Vec<AnyLens> = Vec::new();
    if let Some(l) = cfg.recursion_cycles {
        out.push(AnyLens::RecursionCycle(l));
    }
    if let Some(l) = cfg.dead_code {
        out.push(AnyLens::DeadCode(l));
    }
    if let Some(l) = cfg.god_function {
        out.push(AnyLens::GodFunction(l));
    }
    if let Some(l) = cfg.hotspot {
        out.push(AnyLens::Hotspot(l));
    }
    if let Some(l) = cfg.unstable_dependency {
        out.push(AnyLens::UnstableDependency(l));
    }
    assert(out@ =~= cfg.lenses());
    out
}

// -- cycles ---------------------------------------------------------------------------

/// Call cycles: strongly connected components, and direct self recursion.
#[derive(Debug, Clone, Copy, PartialEq, Eq, Structural)]
pub struct RecursionCycleLens {
    /// The smallest component that counts as a cycle.
    pub min_cycle_size: usize,
    /// From this size on a cycle is of high severity.
    pub large_cycle_size: usize,
    /// Also report functions that call themselves.
    pub report_self_recursion: bool,
}

impl RecursionCycleLens {
    pub open spec fn usual() -> RecursionCycleLens {
        RecursionCycleLens { min_cycle_size: 2, large_cycle_size: 4, report_self_recursion: true }
    }
}

impl Default for RecursionCycleLens {
    fn default() -> (r: Self)
        ensures
            r == RecursionCycleLens::usual(),
    {
        RecursionCycleLens { min_cycle_size: 2, large_cycle_size: 4, report_self_recursion: true }
    }
}

/// What is said of a member of a cycle.
pub open spec fn cycle_text(size: int) -> Seq<char> {
    counted(
        " sits in a call cycle of "@,
        size,
        " functions; cyclic dependencies block modular reasoning"@,
    )
}

/// What is found about a member of a component.
pub open spec fn member_findings(
    lens: RecursionCycleLens,
    g: GraphModel,
    members: Seq<int>,
) -> spec_fn(int) -> Seq<DiagnosticModel> {
    |k: int|
        {
            let n = g.nodes[members[k]];
            only_if(
                defined(n),
                finding(
                    "recursion"@,
                    "recursion_cycle"@,
                    if members.len() >= lens.large_cycle_size {
                        Severity::High
                    } else {
                        Severity::Medium
                    },
                    quoted(n.qualified_name, cycle_text(members.len() as int)),
                    n.id,
                ),
            )
        }
}

/// What is found about one component.
pub open spec fn cycle_findings(lens: RecursionCycleLens, g: GraphModel) -> spec_fn(int) -> Seq<
    DiagnosticModel,
> {
    |c: int|
        {
            let members = graph_components(g)[c];
            if members.len() < lens.min_cycle_size {
                Seq::empty()
            } else {
                gather(members.len() as int, member_findings(lens, g, members))
            }
        }
}

/// What is found about one call.
pub open spec fn self_call_findings(g: GraphModel) -> spec_fn(int) -> Seq<DiagnosticModel> {
    |i: int|
        {
            let e = g.edges[i];
            let n = g.node(e.from);
            only_if(
                e.from == e.to && defined(n),
                finding(
                    "recursion"@,
                    "self_recursion"@,
                    Severity::Low,
                    quoted(
                        n.qualified_name,
                        " is directly self-recursive; ensure a base case and bounded depth"@,
                    ),
                    e.from,
                ),
            )
        }
}

impl RecursionCycleLens {
    /// Add what is found about one component.
    fn check_component(
        &self,
        out: &mut Vec<Diagnostic>,
        graph: &CodeGraph,
        members: &Vec<u32>,
        Ghost(ms): Ghost<Seq<int>>,
    )
        requires
            graph.wf(),
            ms == members@.map_values(|x: u32| x as int),
            forall|k: int| 0 <= k < ms.len() ==> 0 <= #[trigger] ms[k] < graph@.nodes.len(),
        ensures
            views_of(final(out)@) == views_of(old(out)@) + gather(
                ms.len() as int,
                member_findings(*self, graph@, ms),
            ),
    {
        let ghost g = graph@;
        let ghost f = member_findings(*self, g, ms);
        let ghost before = views_of(out@);
        let size: usize = members.len();
        let severity = if size >= self.large_cycle_size {
            Severity::High
        } else {
            Severity::Medium
        };
        let mut k: usize = 0;
        proof {
            graph.lemma_wf();
            assert(before + gather(0, f) =~= before);
        }
        while k < size
            invariant
                g == graph@,
                g.wf(),
                f == member_findings(*self, g, ms),
                k <= size == members@.len(),
                ms == members@.map_values(|x: u32| x as int),
                forall|k: int| 0 <= k < ms.len() ==> 0 <= #[trigger] ms[k] < g.nodes.len(),
                severity == if ms.len() >= self.large_cycle_size {
                    Severity::High
                } else {
                    Severity::Medium
                },
                views_of(out@) == before + gather(k as int, f),
            decreases size - k,
        {
            assert(ms[k as int] == members@[k as int]);
            let node = graph.nodes_at(members[k] as usize);
            let ghost mid = views_of(out@);
            if node.kind != NodeKind::External {
                let said = count_text(
                    " sits in a call cycle of ",
                    size as u128,
                    " functions; cyclic dependencies block modular reasoning",
                );
                let message = quote(node.qualified_name.as_str(), said.as_str());
                add_finding(
                    out,
                    "recursion",
                    "recursion_cycle",
                    severity,
                    message.as_str(),
                    node.id,
                );
            }
            proof {
                assert(views_of(out@) =~= mid + f(k as int));
                assert(views_of(out@) =~= before + gather(k + 1, f));
            }
            k += 1;
        }
    }

    /// Add what is found about the calls of functions to themselves.
    fn check_self_calls(&self, out: &mut Vec<Diagnostic>, graph: &CodeGraph)
        requires
            graph.wf(),
        ensures
            views_of(final(out)@) == views_of(old(out)@) + gather(
                graph@.edges.len() as int,
                self_call_findings(graph@),
            ),
    {
        let ghost g = graph@;
        let ghost f = self_call_findings(g);
        let ghost before = views_of(out@);
        let edges = graph.edges();
        let mut i: usize = 0;
        proof {
            graph.lemma_wf();
            assert(before + gather(0, f) =~= before);
        }
        while i < edges.len()
            invariant
                g == graph@,
                g.wf(),
                f == self_call_findings(g),
                edges@ == g.edges.map_values(|e: EdgeExport| (e.from, e.to, edge_of(e))),
                i <= edges@.len(),
                views_of(out@) == before + gather(i as int, f),
            decreases edges@.len() - i,
        {
            let from = edges[i].0;
            let ghost mid = views_of(out@);
            assert(g.has(g.edges[i as int].from));
            if from == edges[i].1 {
                let node = graph.node(from);
                if node.kind != NodeKind::External {
                    let message = quote(
                        node.qualified_name.as_str(),
                        " is directly self-recursive; ensure a base case and bounded depth",
                    );
                    add_finding(
                        out,
                        "recursion",
                        "self_recursion",
                        Severity::Low,
                        message.as_str(),
                        from,
                    );
                }
            }
            proof {
                assert(views_of(out@) =~= mid + f(i as int));
                assert(views_of(out@) =~= before + gather(i + 1, f));
            }
            i += 1;
        }
    }
}

impl Lens for RecursionCycleLens {
    open spec fn title(&self) -> Seq<char> {
        "recursion"@
    }

    open spec fn findings(&self, g: GraphModel, config: Config) -> Seq<DiagnosticModel> {
        gather(graph_components(g).len() as int, cycle_findings(*self, g)) + (
        if self.report_self_recursion {
            gather(g.edges.len() as int, self_call_findings(g))
        } else {
            Seq::empty()
        })
    }

    fn name(&self) -> (r: &'static str) {
        "recursion"
    }

    /// Where every cycle counts, the definitions that are reported are exactly those
    /// that stand on a cycle.
    fn evaluate(&self, graph: &CodeGraph, config: &Config) -> (r: Vec<Diagnostic>)
        ensures
            self.min_cycle_size == 2 && self.report_self_recursion ==> forall|v: int|
                0 <= v < graph@.nodes.len() ==> (#[trigger] reported(views_of(r@), v) <==> defined(
                    graph@.nodes[v],
                ) && on_cycle(graph@)(v)),
    {
        let ghost g = graph@;
        let ghost f = cycle_findings(*self, g);
        let ghost cs = graph_components(g);
        let mut out: Vec<Diagnostic> = Vec::new();
        let comps = list_components(graph);
        let mut c: usize = 0;
        proof {
            assert(views_of(out@) =~= Seq::empty());
        }
        while c < comps.len()
            invariant
                graph.wf(),
                g == graph@,
                f == cycle_findings(*self, g),
                cs == graph_components(g),
                number_lists(comps@) == cs,
                forall|c: int, i: int|
                    0 <= c < cs.len() && 0 <= i < cs[c].len() ==> 0 <= #[trigger] cs[c][i]
                        < g.nodes.len(),
                c <= comps@.len(),
                views_of(out@) == gather(c as int, f),
            decreases comps@.len() - c,
        {
            let ghost mid = views_of(out@);
            assert(cs[c as int] == comps@[c as int]@.map_values(|x: u32| x as int));
            if comps[c].len() >= self.min_cycle_size {
                self.check_component(&mut out, graph, &comps[c], Ghost(cs[c as int]));
            }
            assert(views_of(out@) =~= mid + f(c as int));
            c += 1;
        }
        let ghost cycles = views_of(out@);
        if self.report_self_recursion {
            self.check_self_calls(&mut out, graph);
        } else {
            assert(cycles + Seq::empty() =~= cycles);
        }
        proof {
            graph.lemma_wf();
            if self.min_cycle_size == 2 && self.report_self_recursion {
                assert forall|v: int| 0 <= v < g.nodes.len() implies (#[trigger] reported(
                    views_of(out@),
                    v,
                ) <==> defined(g.nodes[v]) && on_cycle(g)(v)) by {
                    lemma_cycles_reported(*self, g, *config, v);
                }
            }
        }
        out
    }
}

// -- dead code ------------------------------------------------------------------------

/// Functions and methods without callers that are no entry points. Dynamic dispatch
/// can call code that the graph does not show, so the findings are of low severity.
#[derive(Debug, Clone, Copy, PartialEq, Eq, Structural)]
pub struct DeadCodeLens {
    /// Report public items too, though they may be called from outside.
    pub include_public: bool,
}

impl DeadCodeLens {
    pub open spec fn usual() -> DeadCodeLens {
        DeadCodeLens { include_public: false }
    }
}

impl Default for DeadCodeLens {
    fn default() -> (r: Self)
        ensures
            r == DeadCodeLens::usual(),
    {
        DeadCodeLens { include_public: false }
    }
}

/// The node may be reported as dead: a function or method that is neither `main` nor
/// a test nor, unless asked for, public.
pub open spec fn dead_candidate(n: NodeModel, include_public: bool) -> bool {
    &&& n.kind == NodeKind::Function || n.kind == NodeKind::Method
    &&& !n.flags.is_test
    &&& n.name != "main"@
    &&& n.flags.is_pub ==> include_public
}

/// The node may be reported as dead.
pub fn is_dead_code_candidate(node: &Node, include_public: bool) -> (r: bool)
    ensures
        r == dead_candidate(node@, include_public),
{
    (node.kind == NodeKind::Function || node.kind == NodeKind::Method) && !node.flags.is_test
        && !same(node.name.as_str(), "main") && (include_public || !node.flags.is_pub)
}

/// What is found about one node.
pub open spec fn dead_findings(lens: DeadCodeLens, g: GraphModel) -> spec_fn(int) -> Seq<
    DiagnosticModel,
> {
    |i: int|
        {
            let n = g.nodes[i];
            only_if(
                dead_candidate(n, lens.include_public) && g.neighbors_in(n.id).len() == 0,
                finding(
                    "dead_code"@,
                    "dead_code"@,
                    Severity::Low,
                    quoted(
                        n.qualified_name,
                        " has no callers and is not an entrypoint (possible dead/unreachable code)"@,
                    ),
                    n.id,
                ),
            )
        }
}

impl Lens for DeadCodeLens {
    open spec fn title(&self) -> Seq<char> {
        "dead_code"@
    }

    open spec fn findings(&self, g: GraphModel, config: Config) -> Seq<DiagnosticModel> {
        gather(g.nodes.len() as int, dead_findings(*self, g))
    }

    fn name(&self) -> (r: &'static str) {
        "dead_code"
    }

    fn evaluate(&self, graph: &CodeGraph, config: &Config) -> (r: Vec<Diagnostic>) {
        let ghost g = graph@;
        let ghost f = dead_findings(*self, g);
        let mut out: Vec<Diagnostic> = Vec::new();
        let n: usize = graph.node_count();
        let mut i: usize = 0;
        proof {
            assert(views_of(out@) =~= Seq::empty());
        }
        while i < n
            invariant
                graph.wf(),
                g == graph@,
                i <= n == g.nodes.len(),
                f == dead_findings(*self, g),
                views_of(out@) == gather(i as int, f),
            decreases n - i,
        {
            let node = graph.nodes_at(i);
            let ghost before = views_of(out@);
            if is_dead_code_candidate(node, self.include_public) && graph.in_degree(node.id) == 0 {
                let message = quote(
                    node.qualified_name.as_str(),
                    " has no callers and is not an entrypoint (possible dead/unreachable code)",
                );
                add_finding(
                    &mut out,
                    "dead_code",
                    "dead_code",
                    Severity::Low,
                    message.as_str(),
                    node.id,
                );
            }
            assert(views_of(out@) =~= before + f(i as int));
            i += 1;
        }
        out
    }
}

// -- god functions --------------------------------------------------------------------

/// Nodes with both very many callers and very many callees.
#[derive(Debug, Clone, Copy, PartialEq, Eq, Structural)]
pub struct GodFunctionLens {
    /// The least number of callers.
    pub fan_in: usize,
    /// The least number of distinct callees.
    pub fan_out: usize,
}

impl GodFunctionLens {
    pub open spec fn usual() -> GodFunctionLens {
        GodFunctionLens { fan_in: 8, fan_out: 8 }
    }
}

impl Default for GodFunctionLens {
    fn default() -> (r: Self)
        ensures
            r == GodFunctionLens::usual(),
    {
        GodFunctionLens { fan_in: 8, fan_out: 8 }
    }
}

/// The count reaches twice the bar, or the greatest number where that is less.
pub open spec fn twice(count: int, bar: usize) -> bool {
    count >= 2 * bar || count == usize::MAX
}

fn reaches_twice(count: usize, bar: usize) -> (r: bool)
    ensures
        r == twice(count as int, bar),
{
    if bar > usize::MAX / 2 {
        count == usize::MAX
    } else {
        count >= 2 * bar || count == usize::MAX
    }
}

/// What is said of a god function.
pub open spec fn god_text(callers: int, callees: int) -> Seq<char> {
    counted(
        " has fan-in "@,
        callers,
        counted(" and fan-out "@, callees, "; it likely does too much (god function)"@),
    )
}

/// What is found about one node.
pub open spec fn god_findings(lens: GodFunctionLens, g: GraphModel) -> spec_fn(int) -> Seq<
    DiagnosticModel,
> {
    |i: int|
        {
            let n = g.nodes[i];
            let callers = caller_count(g, n.id) as int;
            let callees = callee_count(g, n.id) as int;
            only_if(
                defined(n) && callers >= lens.fan_in && callees >= lens.fan_out,
                finding(
                    "god_function"@,
                    "god_function"@,
                    if twice(callers, lens.fan_in) && twice(callees, lens.fan_out) {
                        Severity::High
                    } else {
                        Severity::Medium
                    },
                    quoted(n.qualified_name, god_text(callers, callees)),
                    n.id,
                ),
            )
        }
}

impl Lens for GodFunctionLens {
    open spec fn title(&self) -> Seq<char> {
        "god_function"@
    }

    open spec fn findings(&self, g: GraphModel, config: Config) -> Seq<DiagnosticModel> {
        gather(g.nodes.len() as int, god_findings(*self, g))
    }

    fn name(&self) -> (r: &'static str) {
        "god_function"
    }

    fn evaluate(&self, graph: &CodeGraph, config: &Config) -> (r: Vec<Diagnostic>) {
        let ghost g = graph@;
        let ghost f = god_findings(*self, g);
        let mut out: Vec<Diagnostic> = Vec::new();
        let n: usize = graph.node_count();
        let mut i: usize = 0;
        proof {
            assert(views_of(out@) =~= Seq::empty());
        }
        while i < n
            invariant
                graph.wf(),
                g == graph@,
                i <= n == g.nodes.len(),
                f == god_findings(*self, g),
                views_of(out@) == gather(i as int, f),
            decreases n - i,
        {
            let node = graph.nodes_at(i);
            let ghost before = views_of(out@);
            if node.kind != NodeKind::External {
                let callers: usize = count_callers(graph, node.id);
                let callees: usize = count_callees(graph, node.id);
                if callers >= self.fan_in && callees >= self.fan_out {
                    let severity = if reaches_twice(callers, self.fan_in) && reaches_twice(
                        callees,
                        self.fan_out,
                    ) {
                        Severity::High
                    } else {
                        Severity::Medium
                    };
                    let rest = count_text(
                        " and fan-out ",
                        callees as u128,
                        "; it likely does too much (god function)",
                    );
                    let said = count_text(" has fan-in ", callers as u128, rest.as_str());
                    let message = quote(node.qualified_name.as_str(), said.as_str());
                    add_finding(
                        &mut out,
                        "god_function",
                        "god_function",
                        severity,
                        message.as_str(),
                        node.id,
                    );
                }
            }
            assert(views_of(out@) =~= before + f(i as int));
            i += 1;
        }
        out
    }
}

// -- hotspots -------------------------------------------------------------------------

/// Nodes that are reached from many callers and call sites.
#[derive(Debug, Clone, Copy, PartialEq, Eq, Structural)]
pub struct HotspotLens {
    /// The least number of distinct callers.
    pub min_callers: usize,
    /// The least number of incoming call sites.
    pub min_call_volume: u32,
}

impl HotspotLens {
    pub open spec fn usual() -> HotspotLens {
        HotspotLens { min_callers: 6, min_call_volume: 16 }
    }
}

impl Default for HotspotLens {
    fn default() -> (r: Self)
        ensures
            r == HotspotLens::usual(),
    {
        HotspotLens { min_callers: 6, min_call_volume: 16 }
    }
}

/// How often a call leads to a node: the call's multiplicity where it does.
pub open spec fn arrivals(v: int) -> spec_fn(EdgeExport) -> int {
    |e: EdgeExport|
        if e.to.0 == v {
            e.count as int
        } else {
            0
        }
}

/// The number of call sites that lead to a node.
pub open spec fn call_volume(g: GraphModel, v: int) -> int {
    capped(weight(g.edges, arrivals(v)))
}

/// The number of call sites that lead to each node.
fn call_volumes(graph: &CodeGraph) -> (r: Vec<u32>)
    requires
        graph.wf(),
    ensures
        r@.len() == graph@.nodes.len(),
        forall|v: int| 0 <= v < r@.len() ==> #[trigger] r@[v] == call_volume(graph@, v),
{
    let ghost g = graph@;
    let n: usize = graph.node_count();
    let mut volume: Vec<u32> = Vec::new();
    while volume.len() < n
        invariant
            volume@.len() <= n,
            forall|v: int| 0 <= v < volume@.len() ==> #[trigger] volume@[v] == 0,
        decreases n - volume@.len(),
    {
        volume.push(0);
    }
    let edges = graph.edges();
    let mut i: usize = 0;
    proof {
        graph.lemma_wf();
    }
    while i < edges.len()
        invariant
            g == graph@,
            g.wf(),
            edges@ == g.edges.map_values(|e: EdgeExport| (e.from, e.to, edge_of(e))),
            i <= edges@.len(),
            volume@.len() == n == g.nodes.len(),
            forall|v: int|
                0 <= v < n ==> #[trigger] volume@[v] == capped(
                    weight(g.edges.take(i as int), arrivals(v)),
                ) && weight(g.edges.take(i as int), arrivals(v)) >= 0,
        decreases edges@.len() - i,
    {
        let to: usize = edges[i].1.index();
        let count: u32 = edges[i].2.count;
        assert(g.has(g.edges[i as int].to));
        let ghost before = volume@;
        let old_volume: u32 = volume[to];
        let new_volume: u32 = if count > u32::MAX - old_volume {
            u32::MAX
        } else {
            old_volume + count
        };
        volume.set(to, new_volume);
        proof {
            assert(g.edges.take(i + 1).drop_last() =~= g.edges.take(i as int));
            assert forall|v: int| 0 <= v < n implies #[trigger] volume@[v] == capped(
                weight(g.edges.take(i + 1), arrivals(v)),
            ) && weight(g.edges.take(i + 1), arrivals(v)) >= 0 by {
                let upto = g.edges.take(i + 1);
                assert(before[v] == capped(weight(g.edges.take(i as int), arrivals(v))));
                assert(upto.last() == g.edges[i as int]);
                assert(weight(upto, arrivals(v)) == weight(upto.drop_last(), arrivals(v))
                    + arrivals(v)(upto.last()));
                if v == to {
                    assert(volume@[v] == new_volume);
                } else {
                    assert(volume@[v] == before[v]);
                }
            }
        }
        i += 1;
    }
    assert(g.edges.take(g.edges.len() as int) =~= g.edges);
    volume
}

/// What is said of a hotspot.
pub open spec fn hotspot_text(callers: int, calls: int) -> Seq<char> {
    counted(
        " is a call hotspot: "@,
        callers,
        counted(
            " callers across "@,
            calls,
            " call sites, on many paths; optimize the hot path"@,
        ),
    )
}

/// What is found about one node.
pub open spec fn hotspot_findings(lens: HotspotLens, g: GraphModel) -> spec_fn(int) -> Seq<
    DiagnosticModel,
> {
    |i: int|
        {
            let n = g.nodes[i];
            let callers = caller_count(g, n.id) as int;
            let calls = call_volume(g, i);
            only_if(
                defined(n) && callers >= 2 && (callers >= lens.min_callers || calls
                    >= lens.min_call_volume),
                finding(
                    "hotspot"@,
                    "hotspot"@,
                    if twice(callers, lens.min_callers) || calls >= capped(
                        2 * lens.min_call_volume,
                    ) {
                        Severity::High
                    } else {
                        Severity::Medium
                    },
                    quoted(n.qualified_name, hotspot_text(callers, calls)),
                    n.id,
                ),
            )
        }
}

impl Lens for HotspotLens {
    open spec fn title(&self) -> Seq<char> {
        "hotspot"@
    }

    open spec fn findings(&self, g: GraphModel, config: Config) -> Seq<DiagnosticModel> {
        gather(g.nodes.len() as int, hotspot_findings(*self, g))
    }

    fn name(&self) -> (r: &'static str) {
        "hotspot"
    }

    fn evaluate(&self, graph: &CodeGraph, config: &Config) -> (r: Vec<Diagnostic>) {
        let ghost g = graph@;
        let ghost f = hotspot_findings(*self, g);
        let volume = call_volumes(graph);
        let mut out: Vec<Diagnostic> = Vec::new();
        let n: usize = graph.node_count();
        let mut i: usize = 0;
        proof {
            assert(views_of(out@) =~= Seq::empty());
        }
        while i < n
            invariant
                graph.wf(),
                g == graph@,
                i <= n == g.nodes.len() == volume@.len(),
                forall|v: int| 0 <= v < n ==> #[trigger] volume@[v] == call_volume(g, v),
                f == hotspot_findings(*self, g),
                views_of(out@) == gather(i as int, f),
            decreases n - i,
        {
            let node = graph.nodes_at(i);
            let ghost before = views_of(out@);
            if node.kind != NodeKind::External {
                let callers: usize = count_callers(graph, node.id);
                let calls: u32 = volume[i];
                if callers >= 2 && (callers >= self.min_callers || calls >= self.min_call_volume) {
                    let severity = if reaches_twice(callers, self.min_callers) || calls >= doubled(
                        self.min_call_volume,
                    ) {
                        Severity::High
                    } else {
                        Severity::Medium
                    };
                    let rest = count_text(
                        " callers across ",
                        calls as u128,
                        " call sites, on many paths; optimize the hot path",
                    );
                    let said = count_text(" is a call hotspot: ", callers as u128, rest.as_str());
                    let message = quote(node.qualified_name.as_str(), said.as_str());
                    add_finding(
                        &mut out,
                        "hotspot",
                        "hotspot",
                        severity,
                        message.as_str(),
                        node.id,
                    );
                }
            }
            assert(views_of(out@) =~= before + f(i as int));
            i += 1;
        }
        out
    }
}

// -- unstable dependencies ------------------------------------------------------------

/// Nodes that call many complex or volatile callees. A callee is volatile where it is
/// complex or has many callers itself.
#[derive(Debug, Clone, Copy, PartialEq, Eq, Structural)]
pub struct UnstableDependencyLens {
    /// The least number of internal callees.
    pub min_fan_out: usize,
    /// From this complexity on a callee is volatile.
    pub complex_cc: u32,
    /// The least share of volatile callees.
    pub fraction: Millionths,
}

impl UnstableDependencyLens {
    pub open spec fn usual() -> UnstableDependencyLens {
        UnstableDependencyLens { min_fan_out: 5, complex_cc: 10, fraction: Millionths(500_000) }
    }

    /// The callee is volatile.
    pub open spec fn volatile(self, g: GraphModel, c: NodeId) -> bool {
        g.node(c).complexity() >= self.complex_cc || twice(
            caller_count(g, c) as int,
            self.min_fan_out,
        )
    }
}

impl Default for UnstableDependencyLens {
    fn default() -> (r: Self)
        ensures
            r == UnstableDependencyLens::usual(),
    {
        UnstableDependencyLens { min_fan_out: 5, complex_cc: 10, fraction: Millionths(500_000) }
    }
}

/// The callees of a node that are definitions, each once.
pub open spec fn internal_callees(g: GraphModel, id: NodeId) -> Seq<NodeId> {
    joined(Seq::empty(), g.neighbors_out(id)).filter(|c: NodeId| defined(g.node(c)))
}

/// Those of a node's internal callees that are volatile.
pub open spec fn volatile_callees(lens: UnstableDependencyLens, g: GraphModel, id: NodeId) -> Seq<
    NodeId,
> {
    internal_callees(g, id).filter(|c: NodeId| lens.volatile(g, c))
}

/// What is said of a node with unstable dependencies.
pub open spec fn unstable_text(volatile: int, internal: int) -> Seq<char> {
    counted(
        " depends on "@,
        volatile,
        counted(
            "/"@,
            internal,
            " complex or volatile callees; changes there will ripple (unstable dependency)"@,
        ),
    )
}

/// What is found about one node.
pub open spec fn unstable_findings(
    lens: UnstableDependencyLens,
    g: GraphModel,
) -> spec_fn(int) -> Seq<DiagnosticModel> {
    |i: int|
        {
            let n = g.nodes[i];
            let all = internal_callees(g, n.id).len();
            let volatile = volatile_callees(lens, g, n.id).len();
            only_if(
                defined(n) && all > 0 && all >= lens.min_fan_out && volatile * 1_000_000
                    >= lens.fraction.0 * all,
                finding(
                    "unstable_dependency"@,
                    "unstable_dependency"@,
                    if 4 * volatile >= 3 * all {
                        Severity::Medium
                    } else {
                        Severity::Low
                    },
                    quoted(n.qualified_name, unstable_text(volatile as int, all as int)),
                    n.id,
                ),
            )
        }
}

impl UnstableDependencyLens {
    fn is_volatile(&self, graph: &CodeGraph, c: NodeId) -> (r: bool)
        requires
            graph.wf(),
            graph@.has(c),
        ensures
            r == self.volatile(graph@, c),
    {
        proof {
            graph.lemma_wf();
        }
        graph.node(c).cyclomatic_complexity() >= self.complex_cc || reaches_twice(
            count_callers(graph, c),
            self.min_fan_out,
        )
    }

    /// The number of a node's internal callees, and of the volatile ones among them.
    fn count_volatile(&self, graph: &CodeGraph, id: NodeId) -> (r: (usize, usize))
        requires
            graph.wf(),
            graph@.has(id),
        ensures
            r.0 == internal_callees(graph@, id).len(),
            r.1 == volatile_callees(*self, graph@, id).len(),
            r.1 <= r.0 <= u32::MAX,
    {
        let ghost g = graph@;
        let ghost inside = |c: NodeId| defined(g.node(c));
        let ghost shaky = |c: NodeId| self.volatile(g, c);
        let callees = distinct(&graph.neighbors_out(id));
        let mut all: usize = 0;
        let mut volatile: usize = 0;
        let mut k: usize = 0;
        proof {
            graph.lemma_wf();
            lemma_neighbors(g);
            g.edges.reverse().lemma_filter_len(|e: EdgeExport| e.from == id);
            lemma_joined(Seq::empty(), g.neighbors_out(id));
            lemma_joined_len(Seq::empty(), g.neighbors_out(id));
            assert forall|j: int| 0 <= j < callees@.len() implies g.has(
                #[trigger] callees@[j],
            ) by {
                assert(callees@.contains(callees@[j]));
                assert(g.neighbors_out(id).contains(callees@[j]));
                assert(g.calls(id, callees@[j]));
            }
            assert(callees@.take(0).filter(inside) =~= Seq::empty()) by {
                reveal(Seq::filter);
            }
            assert(Seq::<NodeId>::empty().filter(shaky) =~= Seq::empty()) by {
                reveal(Seq::filter);
            }
        }
        while k < callees.len()
            invariant
                graph.wf(),
                g == graph@,
                callees@ == joined(Seq::empty(), g.neighbors_out(id)),
                forall|j: int| 0 <= j < callees@.len() ==> g.has(#[trigger] callees@[j]),
                inside == (|c: NodeId| defined(g.node(c))),
                shaky == (|c: NodeId| self.volatile(g, c)),
                k <= callees@.len() <= u32::MAX,
                all == callees@.take(k as int).filter(inside).len(),
                volatile == callees@.take(k as int).filter(inside).filter(shaky).len(),
                volatile <= all <= k,
            decreases callees@.len() - k,
        {
            proof {
                reveal(Seq::filter);
                assert(callees@.take(k + 1).drop_last() =~= callees@.take(k as int));
                let front = callees@.take(k as int).filter(inside);
                assert(front.push(callees@[k as int]).drop_last() =~= front);
            }
            let c = callees[k];
            if graph.node(c).kind != NodeKind::External {
                all += 1;
                if self.is_volatile(graph, c) {
                    volatile += 1;
                }
            }
            k += 1;
        }
        assert(callees@.take(callees@.len() as int) =~= callees@);
        (all, volatile)
    }
}

impl Lens for UnstableDependencyLens {
    open spec fn title(&self) -> Seq<char> {
        "unstable_dependency"@
    }

    open spec fn findings(&self, g: GraphModel, config: Config) -> Seq<DiagnosticModel> {
        gather(g.nodes.len() as int, unstable_findings(*self, g))
    }

    fn name(&self) -> (r: &'static str) {
        "unstable_dependency"
    }

    fn evaluate(&self, graph: &CodeGraph, config: &Config) -> (r: Vec<Diagnostic>) {
        let ghost g = graph@;
        let ghost f = unstable_findings(*self, g);
        let mut out: Vec<Diagnostic> = Vec::new();
        let n: usize = graph.node_count();
        let mut i: usize = 0;
        proof {
            graph.lemma_wf();
            assert(views_of(out@) =~= Seq::empty());
        }
        while i < n
            invariant
                graph.wf(),
                g == graph@,
                g.wf(),
                i <= n == g.nodes.len(),
                f == unstable_findings(*self, g),
                views_of(out@) == gather(i as int, f),
            decreases n - i,
        {
            let node = graph.nodes_at(i);
            let ghost before = views_of(out@);
            if node.kind != NodeKind::External {
                assert(g.nodes[i as int].id.0 == i);
                let (all, volatile) = self.count_volatile(graph, node.id);
                let share: i128 = (volatile as i128) * 1_000_000;
                proof {
                    crate::metrics::lemma_product(all as u32, self.fraction.0);
                    assert(all * self.fraction.0 == self.fraction.0 * all) by (nonlinear_arith);
                }
                let bar: i128 = (all as i128) * (self.fraction.0 as i128);
                if all > 0 && all >= self.min_fan_out && share >= bar {
                    let severity = if 4 * (volatile as u64) >= 3 * (all as u64) {
                        Severity::Medium
                    } else {
                        Severity::Low
                    };
                    let rest = count_text(
                        "/",
                        all as u128,
                        " complex or volatile callees; changes there will ripple (unstable dependency)",
                    );
                    let said = count_text(" depends on ", volatile as u128, rest.as_str());
                    let message = quote(node.qualified_name.as_str(), said.as_str());
                    add_finding(
                        &mut out,
                        "unstable_dependency",
                        "unstable_dependency",
                        severity,
                        message.as_str(),
                        node.id,
                    );
                }
            }
            assert(views_of(out@) =~= before + f(i as int));
            i += 1;
        }
        out
    }
}

// -- laws -----------------------------------------------------------------------------

/// A configuration enables no lens exactly when its list of lenses is empty; the one
/// with everything enables five.
pub proof fn law_disabled_has_no_lenses(cfg: ExtLensConfig)
    ensures
        cfg.disabled() <==> cfg.lenses().len() == 0,
        ExtLensConfig::everything().lenses().len() == 5,
{
}

/// The dead-code lens reports exactly the functions and methods that nothing calls
/// and that are neither `main` nor tests nor, unless asked for, public.
pub proof fn law_dead_code_is_uncalled(
    lens: DeadCodeLens,
    g: GraphModel,
    config: Config,
    id: NodeId,
)
    requires
        g.wf(),
        g.has(id),
    ensures
        reported(lens.findings(g, config), id.0 as int) <==> dead_candidate(
            g.node(id),
            lens.include_public,
        ) && forall|a: NodeId| !#[trigger] g.calls(a, id),
{
    let f = dead_findings(lens, g);
    let n = g.nodes.len() as int;
    let v = id.0 as int;
    lemma_neighbors(g);
    assert(g.nodes[v].id == id);
    let callers = g.neighbors_in(id);
    if callers.len() > 0 {
        assert(callers.contains(callers[0]));
        assert(g.calls(callers[0], id));
    }
    if exists|a: NodeId| #[trigger] g.calls(a, id) {
        let a = choose|a: NodeId| #[trigger] g.calls(a, id);
        assert(callers.contains(a));
    }
    if reported(gather(n, f), v) {
        let d = choose|d: DiagnosticModel| #[trigger]
            gather(n, f).contains(d) && (d.node matches Some(id) && id.0 == v);
        lemma_gather_has(n, f, d);
        let i = choose|i: int| 0 <= i < n && #[trigger] f(i).contains(d);
        assert(g.nodes[i].id.0 == i);
        assert(i == v);
    }
    if dead_candidate(g.nodes[v], lens.include_public) && callers.len() == 0 {
        let d = f(v)[0];
        assert(f(v).contains(d));
        lemma_gather_has(n, f, d);
        assert(gather(n, f).contains(d) && (d.node matches Some(id) && id.0 == v));
    }
}

/// The extended lenses label their findings with their own name, and report nothing
/// but definitions.
pub proof fn law_extended_findings_are_labelled(
    dead: DeadCodeLens,
    god: GodFunctionLens,
    hot: HotspotLens,
    unstable: UnstableDependencyLens,
    g: GraphModel,
    config: Config,
)
    requires
        g.wf(),
    ensures
        well_labelled(dead.findings(g, config), dead.title(), g),
        well_labelled(god.findings(g, config), god.title(), g),
        well_labelled(hot.findings(g, config), hot.title(), g),
        well_labelled(unstable.findings(g, config), unstable.title(), g),
{
    let n = g.nodes.len() as int;
    assert forall|i: int| 0 <= i < n implies well_labelled(
        #[trigger] dead_findings(dead, g)(i),
        "dead_code"@,
        g,
    ) by {
        assert(g.nodes[i].id.0 == i);
    }
    lemma_gather_labelled(n, dead_findings(dead, g), "dead_code"@, g);
    assert forall|i: int| 0 <= i < n implies well_labelled(
        #[trigger] god_findings(god, g)(i),
        "god_function"@,
        g,
    ) by {
        assert(g.nodes[i].id.0 == i);
    }
    lemma_gather_labelled(n, god_findings(god, g), "god_function"@, g);
    assert forall|i: int| 0 <= i < n implies well_labelled(
        #[trigger] hotspot_findings(hot, g)(i),
        "hotspot"@,
        g,
    ) by {
        assert(g.nodes[i].id.0 == i);
    }
    lemma_gather_labelled(n, hotspot_findings(hot, g), "hotspot"@, g);
    assert forall|i: int| 0 <= i < n implies well_labelled(
        #[trigger] unstable_findings(unstable, g)(i),
        "unstable_dependency"@,
        g,
    ) by {
        assert(g.nodes[i].id.0 == i);
    }
    lemma_gather_labelled(n, unstable_findings(unstable, g), "unstable_dependency"@, g);
}

/// What the cycle lens reports, where it looks for every cycle: the definitions that
/// stand on one.
proof fn lemma_cycles_reported(lens: RecursionCycleLens, g: GraphModel, config: Config, v: int)
    requires
        g.wf(),
        divides(graph_components(g), g.nodes.len() as int, call_links(g)),
        0 <= v < g.nodes.len(),
        lens.min_cycle_size == 2,
        lens.report_self_recursion,
    ensures
        reported(lens.findings(g, config), v) <==> defined(g.nodes[v]) && on_cycle(g)(v),
{
    let comps = graph_components(g);
    let n = comps.len() as int;
    let m = g.edges.len() as int;
    let f = cycle_findings(lens, g);
    let h = self_call_findings(g);
    let all = lens.findings(g, config);
    let front = gather(n, f);
    let back = gather(m, h);
    assert(listed(comps, v));
    let c = choose|c: int| 0 <= c < comps.len() && #[trigger] comps[c].contains(v);
    lemma_on_cycle(g, comps, c, v);
    assert(g.nodes[v].id.0 == v);
    if reported(all, v) {
        let d = choose|d: DiagnosticModel| #[trigger]
            all.contains(d) && (d.node matches Some(id) && id.0 == v);
        let k = all.index_of(d);
        if k < front.len() {
            assert(front.contains(front[k]));
            lemma_gather_has(n, f, d);
            let x = choose|x: int| 0 <= x < n && #[trigger] f(x).contains(d);
            let ms = comps[x];
            lemma_gather_has(ms.len() as int, member_findings(lens, g, ms), d);
            let j = choose|j: int|
                0 <= j < ms.len() && #[trigger] member_findings(lens, g, ms)(j).contains(d);
            assert(0 <= ms[j] < g.nodes.len());
            assert(g.nodes[ms[j]].id.0 == ms[j]);
            assert(ms.contains(ms[j]));
            lemma_on_cycle(g, comps, x, v);
        } else {
            assert(back.contains(back[k - front.len()]));
            lemma_gather_has(m, h, d);
            let e = choose|e: int| 0 <= e < m && #[trigger] h(e).contains(d);
            assert(call_links(g)[e] == (v, v));
            assert(call_links(g).contains((v, v)));
        }
    }
    if defined(g.nodes[v]) && on_cycle(g)(v) {
        if comps[c].len() > 1 {
            let ms = comps[c];
            let j = ms.index_of(v);
            let t = member_findings(lens, g, ms);
            let d = t(j)[0];
            assert(t(j).contains(d));
            lemma_gather_has(ms.len() as int, t, d);
            assert(f(c).contains(d));
            lemma_gather_has(n, f, d);
            assert(all[front.index_of(d)] == d);
            assert(all.contains(d) && (d.node matches Some(id) && id.0 == v));
        } else {
            let e = call_links(g).index_of((v, v));
            assert(g.edges[e].from.0 == v && g.edges[e].to.0 == v);
            let d = h(e)[0];
            assert(h(e).contains(d));
            lemma_gather_has(m, h, d);
            assert(all[front.len() + back.index_of(d)] == d);
            assert(all.contains(d) && (d.node matches Some(id) && id.0 == v));
        }
    }
}

} // verus!
