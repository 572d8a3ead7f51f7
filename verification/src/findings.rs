//! What is measured and reported of a definition, told from the nodes and the calls of the
//! graph alone.

use crate::config::Config;
use crate::diagnostic::{DiagnosticModel, Severity};
use crate::entries::{entries_of, entry_kind, law_entries_are_ordered_and_complete, EntryKind};
use crate::ext::{
    call_volume, dead_findings, god_findings, hotspot_findings, internal_callees,
    unstable_findings, volatile_callees, DeadCodeLens, GodFunctionLens, HotspotLens,
    UnstableDependencyLens,
};
use crate::graph::{lemma_neighbors, EdgeExport, GraphModel, NodeKind, NodeModel};
use crate::ids::NodeId;
use crate::lenses::{
    complexity_findings, hazard_findings, only_if, paradigm_counts, paradigm_findings,
    purity_findings, ComplexityLens, HazardsLens, Lens, PurityLens,
};
use crate::metric::{Metric, MetricKind, Quotient};
use crate::metrics::{callee_count, caller_count, cyclicity, metrics_of, node_metrics};
use crate::reach::{joined, lemma_joined};
use crate::seqs::{gather, lemma_filter_has, lemma_gather_has, lemma_push_has, tally, weight};
use vstd::prelude::*;

verus! {

// -- callers and callees --------------------------------------------------------------

/// Some call goes from node `u` to node `v`.
pub open spec fn goes(g: GraphModel, u: int, v: int) -> bool {
    exists|i: int|
        0 <= i < g.edges.len() && (#[trigger] g.edges[i]).from.0 == u && g.edges[i].to.0 == v
}

/// The nodes that call node `v`.
pub open spec fn calling(g: GraphModel, v: int) -> spec_fn(int) -> bool {
    |u: int| goes(g, u, v)
}

/// The nodes that node `v` calls.
pub open spec fn called(g: GraphModel, v: int) -> spec_fn(int) -> bool {
    |u: int| goes(g, v, u)
}

/// How many nodes call node `v`, each counted once.
pub open spec fn callers(g: GraphModel, v: int) -> nat {
    tally(g.nodes.len() as int, calling(g, v))
}

/// How many nodes node `v` calls, each counted once.
pub open spec fn callees(g: GraphModel, v: int) -> nat {
    tally(g.nodes.len() as int, called(g, v))
}

proof fn lemma_tally_agree(n: int, f: spec_fn(int) -> bool, g: spec_fn(int) -> bool)
    requires
        forall|i: int| 0 <= i < n ==> #[trigger] f(i) == g(i),
    ensures
        tally(n, f) == tally(n, g),
    decreases n,
{
    if n > 0 {
        lemma_tally_agree(n - 1, f, g);
        assert(f(n - 1) == g(n - 1));
    }
}

/// One more place that holds is one more that is counted.
proof fn lemma_tally_one_more(n: int, f: spec_fn(int) -> bool, g: spec_fn(int) -> bool, k: int)
    requires
        0 <= k < n,
        !f(k),
        g(k),
        forall|i: int| 0 <= i < n && i != k ==> #[trigger] f(i) == g(i),
    ensures
        tally(n, g) == tally(n, f) + 1,
    decreases n,
{
    if k == n - 1 {
        lemma_tally_agree(n - 1, f, g);
    } else {
        lemma_tally_one_more(n - 1, f, g, k);
        assert(f(n - 1) == g(n - 1));
    }
}

/// A list without repeats has as many items as there are numbers in it.
proof fn lemma_list_counts(s: Seq<NodeId>, n: int)
    requires
        s.no_duplicates(),
        n <= u32::MAX,
        forall|x: NodeId| #[trigger] s.contains(x) ==> x.0 < n,
    ensures
        s.len() == tally(n, |u: int| 0 <= u < n && s.contains(NodeId(u as u32))),
    decreases s.len(),
{
    let g = |u: int| 0 <= u < n && s.contains(NodeId(u as u32));
    if s.len() == 0 {
        crate::seqs::lemma_tally_zero(n, g);
    } else {
        let front = s.drop_last();
        let x = s.last();
        let f = |u: int| 0 <= u < n && front.contains(NodeId(u as u32));
        assert(front.push(x) =~= s);
        lemma_push_has(front, x);
        assert(!front.contains(x)) by {
            if front.contains(x) {
                let i = front.index_of(x);
                assert(s[i] == s[s.len() - 1]);
            }
        }
        assert forall|y: NodeId| #[trigger] front.contains(y) implies y.0 < n by {
            assert(s.contains(y));
        }
        lemma_list_counts(front, n);
        assert(s.contains(x));
        lemma_tally_one_more(n, f, g, x.0 as int);
    }
}

/// The callers and the callees of a node are counted each once, however many calls there
/// are between two nodes.
pub proof fn law_callers_and_callees_are_counted_once(g: GraphModel, id: NodeId)
    requires
        g.wf(),
    ensures
        caller_count(g, id) == callers(g, id.0 as int),
        callee_count(g, id) == callees(g, id.0 as int),
{
    let n = g.nodes.len() as int;
    let ins = joined(Seq::empty(), g.neighbors_in(id));
    let outs = joined(Seq::empty(), g.neighbors_out(id));
    lemma_neighbors(g);
    lemma_joined(Seq::empty(), g.neighbors_in(id));
    lemma_joined(Seq::empty(), g.neighbors_out(id));
    assert forall|x: NodeId| #[trigger] ins.contains(x) implies x.0 < n by {
        assert(g.calls(x, id));
    }
    assert forall|x: NodeId| #[trigger] outs.contains(x) implies x.0 < n by {
        assert(g.calls(id, x));
    }
    lemma_list_counts(ins, n);
    lemma_list_counts(outs, n);
    let f = |u: int| 0 <= u < n && ins.contains(NodeId(u as u32));
    let h = |u: int| 0 <= u < n && outs.contains(NodeId(u as u32));
    assert forall|u: int| 0 <= u < n implies #[trigger] f(u) == calling(g, id.0 as int)(u) by {
        let x = NodeId(u as u32);
        assert(ins.contains(x) <==> g.neighbors_in(id).contains(x));
        assert(g.neighbors_in(id).contains(x) <==> g.calls(x, id));
        lemma_goes(g, x, id);
    }
    assert forall|u: int| 0 <= u < n implies #[trigger] h(u) == called(g, id.0 as int)(u) by {
        let x = NodeId(u as u32);
        assert(outs.contains(x) <==> g.neighbors_out(id).contains(x));
        assert(g.neighbors_out(id).contains(x) <==> g.calls(id, x));
        lemma_goes(g, id, x);
    }
    lemma_tally_agree(n, f, calling(g, id.0 as int));
    lemma_tally_agree(n, h, called(g, id.0 as int));
}

pub proof fn lemma_goes(g: GraphModel, a: NodeId, b: NodeId)
    ensures
        g.calls(a, b) == goes(g, a.0 as int, b.0 as int),
{
    if g.calls(a, b) {
        let i = choose|i: int|
            0 <= i < g.edges.len() && (#[trigger] g.edges[i]).from == a && g.edges[i].to == b;
        assert(g.edges[i].from.0 == a.0);
    }
    if goes(g, a.0 as int, b.0 as int) {
        let i = choose|i: int|
            0 <= i < g.edges.len() && (#[trigger] g.edges[i]).from.0 == a.0 as int
                && g.edges[i].to.0 == b.0 as int;
        assert(g.edges[i].from == a && g.edges[i].to == b);
    }
}

// -- metrics --------------------------------------------------------------------------

/// How pure a definition looks, in hundredths: a whole, less a share for allocating, a
/// share for being unsafe and a share for waiting.
pub open spec fn pureness(n: NodeModel) -> int {
    let allocates: int = if n.stats.allocations > 0 {
        35
    } else {
        0
    };
    let unchecked: int = if n.flags.is_unsafe || n.stats.unsafe_blocks > 0 {
        30
    } else {
        0
    };
    let waits: int = if n.flags.is_async || n.stats.awaits > 0 {
        20
    } else {
        0
    };
    100 - allocates - unchecked - waits
}

/// The values that are measured of the definition at node `v`.
pub open spec fn measured(g: GraphModel, config: Config, v: int, kind: MetricKind) -> Option<
    Quotient,
> {
    let n = g.nodes[v];
    match kind {
        MetricKind::CyclomaticComplexity => Some(
            Quotient { num: (n.stats.decision_points + 1) as i128, den: 1 },
        ),
        MetricKind::FanIn => Some(Quotient { num: callers(g, v) as i128, den: 1 }),
        MetricKind::FanOut => Some(Quotient { num: callees(g, v) as i128, den: 1 }),
        MetricKind::HeapAllocations => Some(
            Quotient {
                num: (n.stats.allocations * config.metrics.heap_sensitivity.0) as i128,
                den: 1_000_000,
            },
        ),
        MetricKind::PurityScore => Some(Quotient { num: pureness(n) as i128, den: 100 }),
        _ => None,
    }
}

/// What is measured of a node: of a definition its complexity, its callers and callees,
/// its allocations and its purity, and nothing else; of a placeholder nothing.
pub proof fn law_definitions_are_measured(
    g: GraphModel,
    config: Config,
    v: int,
    kind: MetricKind,
    value: Quotient,
)
    requires
        g.wf(),
        0 <= v < g.nodes.len(),
    ensures
        metrics_of(g, config).contains(Metric { kind, value, node: Some(NodeId(v as u32)) })
            <==> g.nodes[v].kind != NodeKind::External && measured(g, config, v, kind) == Some(
            value,
        ),
{
    let n = g.nodes.len() as int;
    let f = node_metrics(g, config);
    let m = Metric { kind, value, node: Some(NodeId(v as u32)) };
    let id = NodeId(v as u32);
    let last = Metric { kind: MetricKind::Cyclicity, value: cyclicity(g), node: None };
    lemma_gather_has(n, f, m);
    lemma_push_has(gather(n, f), last);
    law_callers_and_callees_are_counted_once(g, id);
    if gather(n, f).contains(m) {
        let i = choose|i: int| 0 <= i < n && #[trigger] f(i).contains(m);
        let k = f(i).index_of(m);
        assert(f(i)[k] == m);
        assert(i == v);
    }
    if g.nodes[v].kind != NodeKind::External && measured(g, config, v, kind) == Some(value) {
        let all = f(v);
        let k: int = match kind {
            MetricKind::CyclomaticComplexity => 0,
            MetricKind::FanIn => 1,
            MetricKind::FanOut => 2,
            MetricKind::HeapAllocations => 3,
            _ => 4,
        };
        assert(all[k] == m);
        assert(f(v).contains(m));
    }
}

// -- findings -------------------------------------------------------------------------

/// Some finding about node `v` has the code and the severity.
pub open spec fn says(ds: Seq<DiagnosticModel>, code: Seq<char>, s: Severity, v: int) -> bool {
    exists|d: DiagnosticModel| #[trigger]
        ds.contains(d) && d.code == code && d.severity == s && d.node == Some(NodeId(v as u32))
}

/// The severe one of two severities, where the condition holds.
pub open spec fn graver(condition: bool, a: Severity, b: Severity) -> Severity {
    if condition {
        a
    } else {
        b
    }
}

/// What is said of a node is what is found at its place.
proof fn lemma_says_at(
    n: int,
    f: spec_fn(int) -> Seq<DiagnosticModel>,
    code: Seq<char>,
    s: Severity,
    v: int,
)
    requires
        0 <= v < n <= u32::MAX,
        forall|i: int, d: DiagnosticModel|
            0 <= i < n && #[trigger] f(i).contains(d) ==> d.node == Some(NodeId(i as u32)),
    ensures
        says(gather(n, f), code, s, v) <==> says(f(v), code, s, v),
{
    if says(gather(n, f), code, s, v) {
        let d = choose|d: DiagnosticModel| #[trigger]
            gather(n, f).contains(d) && d.code == code && d.severity == s && d.node == Some(
                NodeId(v as u32),
            );
        lemma_gather_has(n, f, d);
        let i = choose|i: int| 0 <= i < n && #[trigger] f(i).contains(d);
        assert(i == v);
        assert(f(v).contains(d));
    }
    if says(f(v), code, s, v) {
        let d = choose|d: DiagnosticModel| #[trigger]
            f(v).contains(d) && d.code == code && d.severity == s && d.node == Some(
                NodeId(v as u32),
            );
        lemma_gather_has(n, f, d);
    }
}

proof fn lemma_one_has<T>(c: bool, x: T)
    ensures
        forall|y: T| #[trigger] only_if(c, x).contains(y) <==> c && y == x,
{
    assert forall|y: T| #[trigger] only_if(c, x).contains(y) <==> c && y == x by {
        if c {
            assert(only_if(c, x)[0] == x);
        }
    }
}

proof fn lemma_add_has<T>(a: Seq<T>, b: Seq<T>)
    ensures
        forall|y: T| #[trigger] (a + b).contains(y) <==> a.contains(y) || b.contains(y),
{
    assert forall|y: T| #[trigger] (a + b).contains(y) <==> a.contains(y) || b.contains(y) by {
        if a.contains(y) {
            assert((a + b)[a.index_of(y)] == y);
        }
        if b.contains(y) {
            assert((a + b)[a.len() + b.index_of(y)] == y);
        }
        if (a + b).contains(y) {
            let k = (a + b).index_of(y);
            if k < a.len() {
                assert(a[k] == y);
            } else {
                assert(b[k - a.len()] == y);
            }
        }
    }
}

/// The complexity lens reports a definition for each of its measures that is over its
/// limit, and for no other reason: complexity, gravely from twice the limit on, number of
/// parameters, length and nesting.
#[verifier::rlimit(40)]
pub proof fn law_limits_are_enforced(g: GraphModel, config: Config, v: int, s: Severity)
    requires
        g.wf(),
        0 <= v < g.nodes.len(),
    ensures
        ({
            let n = g.nodes[v];
            let m = config.metrics;
            let ds = ComplexityLens.findings(g, config);
            let cc = n.stats.decision_points + 1;
            let defined = n.kind != NodeKind::External;
            &&& says(ds, "high_complexity"@, s, v) <==> defined && cc > m.cyclomatic_max && s
                == graver(
                cc >= 2 * m.cyclomatic_max || cc == u32::MAX,
                Severity::High,
                Severity::Medium,
            )
            &&& says(ds, "too_many_parameters"@, s, v) <==> defined && n.stats.parameters
                > m.max_parameters && s == Severity::Low
            &&& says(ds, "long_function"@, s, v) <==> defined && n.stats.lines_of_code
                > m.max_function_loc && s == Severity::Low
            &&& says(ds, "deep_nesting"@, s, v) <==> defined && n.stats.max_nesting > m.max_nesting
                && s == Severity::Low
        }),
{
    let n = g.nodes.len() as int;
    let f = complexity_findings(g, config);
    assert forall|i: int, d: DiagnosticModel|
        0 <= i < n && #[trigger] f(i).contains(d) implies d.node == Some(NodeId(i as u32)) by {
        assert(g.nodes[i].id.0 == i);
        let k = f(i).index_of(d);
        assert(f(i)[k] == d);
    }
    lemma_says_at(n, f, "high_complexity"@, s, v);
    lemma_says_at(n, f, "too_many_parameters"@, s, v);
    lemma_says_at(n, f, "long_function"@, s, v);
    lemma_says_at(n, f, "deep_nesting"@, s, v);
    assert(g.nodes[v].id.0 == v);
    assert(g.nodes[v].valid());
    reveal_strlit("high_complexity");
    reveal_strlit("too_many_parameters");
    reveal_strlit("long_function");
    reveal_strlit("deep_nesting");
    assert("high_complexity"@.len() == 15 && "too_many_parameters"@.len() == 19
        && "long_function"@.len() == 13 && "deep_nesting"@.len() == 12);
    lemma_complexity_at(g, config, v);
    if g.nodes[v].kind != NodeKind::External {
        let node = g.nodes[v];
        let m = config.metrics;
        if node.stats.decision_points + 1 > m.cyclomatic_max {
            let d = complexity_item(g, config, v, 0);
            assert(f(v).contains(d));
        }
        if node.stats.parameters > m.max_parameters {
            let d = complexity_item(g, config, v, 1);
            assert(f(v).contains(d));
        }
        if node.stats.lines_of_code > m.max_function_loc {
            let d = complexity_item(g, config, v, 2);
            assert(f(v).contains(d));
        }
        if node.stats.max_nesting > m.max_nesting {
            let d = complexity_item(g, config, v, 3);
            assert(f(v).contains(d));
        }
    }
}

/// The four things that the complexity lens may say of a node.
spec fn complexity_item(g: GraphModel, config: Config, v: int, k: int) -> DiagnosticModel {
    let n = g.nodes[v];
    let m = config.metrics;
    let cc = n.complexity();
    let about = |code: Seq<char>, severity: Severity, message: Seq<char>|
        crate::lenses::finding(
            "complexity"@,
            code,
            severity,
            crate::lenses::quoted(n.qualified_name, message),
            n.id,
        );
    if k == 0 {
        about(
            "high_complexity"@,
            if cc >= crate::lenses::capped(2 * m.cyclomatic_max) {
                Severity::High
            } else {
                Severity::Medium
            },
            crate::lenses::limited(
                " has cyclomatic complexity "@,
                cc,
                " (max "@,
                m.cyclomatic_max as int,
            ),
        )
    } else if k == 1 {
        about(
            "too_many_parameters"@,
            Severity::Low,
            crate::lenses::limited(
                " takes "@,
                n.stats.parameters as int,
                " parameters (max "@,
                m.max_parameters as int,
            ),
        )
    } else if k == 2 {
        about(
            "long_function"@,
            Severity::Low,
            crate::lenses::limited(
                " is "@,
                n.stats.lines_of_code as int,
                " lines long (max "@,
                m.max_function_loc as int,
            ),
        )
    } else {
        about(
            "deep_nesting"@,
            Severity::Low,
            crate::lenses::limited(
                " nests "@,
                n.stats.max_nesting as int,
                " levels deep (max "@,
                m.max_nesting as int,
            ),
        )
    }
}

proof fn lemma_complexity_at(g: GraphModel, config: Config, v: int)
    ensures
        ({
            let n = g.nodes[v];
            let m = config.metrics;
            let defined = n.kind != NodeKind::External;
            forall|d: DiagnosticModel| #[trigger]
                complexity_findings(g, config)(v).contains(d) <==> defined && {
                    ||| n.stats.decision_points + 1 > m.cyclomatic_max && d == complexity_item(
                        g,
                        config,
                        v,
                        0,
                    )
                    ||| n.stats.parameters > m.max_parameters && d == complexity_item(g, config, v, 1)
                    ||| n.stats.lines_of_code > m.max_function_loc && d == complexity_item(
                        g,
                        config,
                        v,
                        2,
                    )
                    ||| n.stats.max_nesting > m.max_nesting && d == complexity_item(g, config, v, 3)
                }
        }),
{
    let n = g.nodes[v];
    let m = config.metrics;
    let a = only_if(n.complexity() > m.cyclomatic_max, complexity_item(g, config, v, 0));
    let b = only_if(n.stats.parameters > m.max_parameters, complexity_item(g, config, v, 1));
    let c = only_if(n.stats.lines_of_code > m.max_function_loc, complexity_item(g, config, v, 2));
    let d = only_if(n.stats.max_nesting > m.max_nesting, complexity_item(g, config, v, 3));
    lemma_one_has(n.complexity() > m.cyclomatic_max, complexity_item(g, config, v, 0));
    lemma_one_has(n.stats.parameters > m.max_parameters, complexity_item(g, config, v, 1));
    lemma_one_has(n.stats.lines_of_code > m.max_function_loc, complexity_item(g, config, v, 2));
    lemma_one_has(n.stats.max_nesting > m.max_nesting, complexity_item(g, config, v, 3));
    lemma_add_has(a, b);
    lemma_add_has(a + b, c);
    lemma_add_has(a + b + c, d);
    if n.kind != NodeKind::External {
        assert(complexity_findings(g, config)(v) == a + b + c + d);
    }
}


/// The hazards lens reports a definition that is unsafe or has unsafe blocks, and one whose
/// weighted allocations come to eight or more, graver from twenty on.
pub proof fn law_hazards_are_reported(g: GraphModel, config: Config, v: int, s: Severity)
    requires
        g.wf(),
        0 <= v < g.nodes.len(),
    ensures
        ({
            let n = g.nodes[v];
            let ds = HazardsLens.findings(g, config);
            let defined = n.kind != NodeKind::External;
            let load = n.stats.allocations * config.metrics.heap_sensitivity.0;
            &&& says(ds, "unsafe_usage"@, s, v) <==> defined && (n.flags.is_unsafe
                || n.stats.unsafe_blocks > 0) && s == Severity::Medium
            &&& says(ds, "heap_pressure"@, s, v) <==> defined && load >= 8_000_000 && s == graver(
                load >= 20_000_000,
                Severity::Medium,
                Severity::Low,
            )
        }),
{
    let n = g.nodes.len() as int;
    let f = hazard_findings(g, config);
    assert forall|i: int, d: DiagnosticModel|
        0 <= i < n && #[trigger] f(i).contains(d) implies d.node == Some(NodeId(i as u32)) by {
        assert(g.nodes[i].id.0 == i);
        let k = f(i).index_of(d);
        assert(f(i)[k] == d);
    }
    lemma_says_at(n, f, "unsafe_usage"@, s, v);
    lemma_says_at(n, f, "heap_pressure"@, s, v);
    assert(g.nodes[v].id.0 == v);
    reveal_strlit("unsafe_usage");
    reveal_strlit("heap_pressure");
    assert("unsafe_usage"@.len() == 12 && "heap_pressure"@.len() == 13);
    let node = g.nodes[v];
    let all = f(v);
    let load = node.stats.allocations * config.metrics.heap_sensitivity.0;
    let unchecked = node.flags.is_unsafe || node.stats.unsafe_blocks > 0;
    if node.kind != NodeKind::External {
        if unchecked {
            assert(all.contains(all[0]));
        }
        if load >= 8_000_000 {
            assert(all.contains(all.last()));
        }
        assert forall|d: DiagnosticModel| #[trigger] all.contains(d) implies (unchecked && d
            == all[0]) || (load >= 8_000_000 && d == all.last()) by {
            let k = all.index_of(d);
            assert(all[k] == d);
        }
    }
}

/// What each place finds is one finding with the code, the severity and the node, where the
/// condition holds, and nothing where it does not.
proof fn lemma_says_one(
    n: int,
    f: spec_fn(int) -> Seq<DiagnosticModel>,
    code: Seq<char>,
    grave: spec_fn(int) -> Severity,
    holds: spec_fn(int) -> bool,
    s: Severity,
    v: int,
)
    requires
        0 <= v < n <= u32::MAX,
        forall|i: int|
            0 <= i < n ==> if holds(i) {
                (#[trigger] f(i)).len() == 1 && f(i)[0].node == Some(NodeId(i as u32))
                    && f(i)[0].code == code && f(i)[0].severity == grave(i)
            } else {
                f(i).len() == 0
            },
    ensures
        says(gather(n, f), code, s, v) <==> holds(v) && s == grave(v),
{
    assert forall|i: int, d: DiagnosticModel|
        0 <= i < n && #[trigger] f(i).contains(d) implies d.node == Some(NodeId(i as u32)) by {
        let k = f(i).index_of(d);
        assert(f(i)[k] == d);
        assert(f(i).len() > 0);
    }
    lemma_says_at(n, f, code, s, v);
    let all = f(v);
    if holds(v) {
        assert(all.contains(all[0]));
        assert forall|d: DiagnosticModel| #[trigger] all.contains(d) implies d == all[0] by {
            let k = all.index_of(d);
            assert(all[k] == d);
        }
    }
}

/// The purity lens reports a definition that looks less pure than two fifths and has at
/// least three callers.
pub proof fn law_impure_hotspots_are_reported(g: GraphModel, config: Config, v: int, s: Severity)
    requires
        g.wf(),
        0 <= v < g.nodes.len(),
    ensures
        says(PurityLens.findings(g, config), "impure_hotspot"@, s, v) <==> g.nodes[v].kind
            != NodeKind::External && pureness(g.nodes[v]) < 40 && callers(g, v) >= 3 && s
            == Severity::Low,
{
    let holds = |i: int|
        g.nodes[i].kind != NodeKind::External && pureness(g.nodes[i]) < 40 && callers(g, i) >= 3;
    assert forall|i: int| 0 <= i < g.nodes.len() implies if holds(i) {
        (#[trigger] purity_findings(g)(i)).len() == 1 && purity_findings(g)(i)[0].node == Some(
            NodeId(i as u32),
        ) && purity_findings(g)(i)[0].code == "impure_hotspot"@ && purity_findings(
            g,
        )(i)[0].severity == Severity::Low
    } else {
        purity_findings(g)(i).len() == 0
    } by {
        assert(g.nodes[i].id.0 == i);
        law_callers_and_callees_are_counted_once(g, g.nodes[i].id);
    }
    lemma_says_one(
        g.nodes.len() as int,
        purity_findings(g),
        "impure_hotspot"@,
        |i: int| Severity::Low,
        holds,
        s,
        v,
    );
}

/// The dead-code lens reports a function or method that no call leads to, that is no test
/// and not called `main`, and that is not public, unless public ones are asked for.
pub proof fn law_uncalled_code_is_reported(
    lens: DeadCodeLens,
    g: GraphModel,
    config: Config,
    v: int,
    s: Severity,
)
    requires
        g.wf(),
        0 <= v < g.nodes.len(),
    ensures
        says(lens.findings(g, config), "dead_code"@, s, v) <==> {
            let n = g.nodes[v];
            &&& n.kind == NodeKind::Function || n.kind == NodeKind::Method
            &&& !n.flags.is_test
            &&& n.name != "main"@
            &&& !n.flags.is_pub || lens.include_public
            &&& forall|u: int| !#[trigger] goes(g, u, v)
            &&& s == Severity::Low
        },
{
    let holds = |i: int|
        {
            let n = g.nodes[i];
            &&& n.kind == NodeKind::Function || n.kind == NodeKind::Method
            &&& !n.flags.is_test
            &&& n.name != "main"@
            &&& !n.flags.is_pub || lens.include_public
            &&& forall|u: int| !#[trigger] goes(g, u, i)
        };
    lemma_neighbors(g);
    assert forall|i: int| 0 <= i < g.nodes.len() implies if holds(i) {
        (#[trigger] dead_findings(lens, g)(i)).len() == 1 && dead_findings(lens, g)(i)[0].node
            == Some(NodeId(i as u32)) && dead_findings(lens, g)(i)[0].code == "dead_code"@
            && dead_findings(lens, g)(i)[0].severity == Severity::Low
    } else {
        dead_findings(lens, g)(i).len() == 0
    } by {
        let id = g.nodes[i].id;
        assert(id.0 == i);
        lemma_called(g, id);
    }
    lemma_says_one(
        g.nodes.len() as int,
        dead_findings(lens, g),
        "dead_code"@,
        |i: int| Severity::Low,
        holds,
        s,
        v,
    );
}

/// A node has callers where some call leads to it.
proof fn lemma_called(g: GraphModel, id: NodeId)
    requires
        g.wf(),
    ensures
        g.neighbors_in(id).len() == 0 <==> forall|u: int| !#[trigger] goes(g, u, id.0 as int),
{
    let ins = g.neighbors_in(id);
    lemma_neighbors(g);
    if ins.len() > 0 {
        assert(ins.contains(ins[0]));
        lemma_goes(g, ins[0], id);
        assert(goes(g, ins[0].0 as int, id.0 as int));
    }
    if exists|u: int| #[trigger] goes(g, u, id.0 as int) {
        let u = choose|u: int| #[trigger] goes(g, u, id.0 as int);
        let i = choose|i: int|
            0 <= i < g.edges.len() && (#[trigger] g.edges[i]).from.0 == u && g.edges[i].to.0
                == id.0 as int;
        let a = g.edges[i].from;
        assert(g.edges[i].to == id);
        assert(g.calls(a, id));
        assert(ins.contains(a));
    }
}

/// The lens for god functions reports a definition with as many callers and as many callees
/// as asked for, gravely where both are twice that.
pub proof fn law_god_functions_are_reported(
    lens: GodFunctionLens,
    g: GraphModel,
    config: Config,
    v: int,
    s: Severity,
)
    requires
        g.wf(),
        0 <= v < g.nodes.len(),
    ensures
        says(lens.findings(g, config), "god_function"@, s, v) <==> g.nodes[v].kind
            != NodeKind::External && callers(g, v) >= lens.fan_in && callees(g, v) >= lens.fan_out
            && s == graver(
            (callers(g, v) >= 2 * lens.fan_in || callers(g, v) == usize::MAX) && (callees(g, v) >= 2
                * lens.fan_out || callees(g, v) == usize::MAX),
            Severity::High,
            Severity::Medium,
        ),
{
    let holds = |i: int|
        g.nodes[i].kind != NodeKind::External && callers(g, i) >= lens.fan_in && callees(g, i)
            >= lens.fan_out;
    let grave = |i: int|
        graver(
            (callers(g, i) >= 2 * lens.fan_in || callers(g, i) == usize::MAX) && (callees(g, i) >= 2
                * lens.fan_out || callees(g, i) == usize::MAX),
            Severity::High,
            Severity::Medium,
        );
    assert forall|i: int| 0 <= i < g.nodes.len() implies if holds(i) {
        (#[trigger] god_findings(lens, g)(i)).len() == 1 && god_findings(lens, g)(i)[0].node == Some(
            NodeId(i as u32),
        ) && god_findings(lens, g)(i)[0].code == "god_function"@ && god_findings(
            lens,
            g,
        )(i)[0].severity == grave(i)
    } else {
        god_findings(lens, g)(i).len() == 0
    } by {
        assert(g.nodes[i].id.0 == i);
        law_callers_and_callees_are_counted_once(g, g.nodes[i].id);
    }
    lemma_says_one(
        g.nodes.len() as int,
        god_findings(lens, g),
        "god_function"@,
        grave,
        holds,
        s,
        v,
    );
}

/// The call sites that lead to node `v`, taken over all calls.
pub open spec fn sites_into(es: Seq<EdgeExport>, v: int) -> int
    decreases es.len(),
{
    if es.len() == 0 {
        0
    } else {
        sites_into(es.drop_last(), v) + if es.last().to.0 == v {
            es.last().count as int
        } else {
            0
        }
    }
}

proof fn lemma_sites(es: Seq<EdgeExport>, v: int)
    ensures
        weight(es, crate::ext::arrivals(v)) == sites_into(es, v),
        sites_into(es, v) >= 0,
    decreases es.len(),
{
    if es.len() > 0 {
        lemma_sites(es.drop_last(), v);
    }
}

/// The hotspot lens reports a definition with at least two callers and with as many
/// callers, or as many call sites that lead to it, as asked for; gravely where one of the
/// two is twice that.
pub proof fn law_hotspots_are_reported(
    lens: HotspotLens,
    g: GraphModel,
    config: Config,
    v: int,
    s: Severity,
)
    requires
        g.wf(),
        0 <= v < g.nodes.len(),
        sites_into(g.edges, v) < u32::MAX,
    ensures
        says(lens.findings(g, config), "hotspot"@, s, v) <==> g.nodes[v].kind != NodeKind::External
            && callers(g, v) >= 2 && (callers(g, v) >= lens.min_callers || sites_into(g.edges, v)
            >= lens.min_call_volume) && s == graver(
            callers(g, v) >= 2 * lens.min_callers || callers(g, v) == usize::MAX || sites_into(
                g.edges,
                v,
            ) >= 2 * lens.min_call_volume,
            Severity::High,
            Severity::Medium,
        ),
{
    let volume = |i: int|
        if sites_into(g.edges, i) > u32::MAX {
            u32::MAX as int
        } else {
            sites_into(g.edges, i)
        };
    let holds = |i: int|
        g.nodes[i].kind != NodeKind::External && callers(g, i) >= 2 && (callers(g, i)
            >= lens.min_callers || volume(i) >= lens.min_call_volume);
    let grave = |i: int|
        graver(
            callers(g, i) >= 2 * lens.min_callers || callers(g, i) == usize::MAX || volume(i) >= 2
                * lens.min_call_volume || volume(i) == u32::MAX,
            Severity::High,
            Severity::Medium,
        );
    assert forall|i: int| 0 <= i < g.nodes.len() implies if holds(i) {
        (#[trigger] hotspot_findings(lens, g)(i)).len() == 1 && hotspot_findings(lens, g)(i)[0].node
            == Some(NodeId(i as u32)) && hotspot_findings(lens, g)(i)[0].code == "hotspot"@
            && hotspot_findings(lens, g)(i)[0].severity == grave(i)
    } else {
        hotspot_findings(lens, g)(i).len() == 0
    } by {
        assert(g.nodes[i].id.0 == i);
        law_callers_and_callees_are_counted_once(g, g.nodes[i].id);
        lemma_sites(g.edges, i);
        assert(call_volume(g, i) == volume(i));
    }
    lemma_says_one(
        g.nodes.len() as int,
        hotspot_findings(lens, g),
        "hotspot"@,
        grave,
        holds,
        s,
        v,
    );
}

/// The definitions that node `v` calls.
pub open spec fn inner_callees(g: GraphModel, v: int) -> spec_fn(int) -> bool {
    |u: int| goes(g, v, u) && g.nodes[u].kind != NodeKind::External
}

/// Those of them that are complex, or have twice as many callers as asked for.
pub open spec fn shaky_callees(lens: UnstableDependencyLens, g: GraphModel, v: int) -> spec_fn(
    int,
) -> bool {
    |u: int|
        goes(g, v, u) && g.nodes[u].kind != NodeKind::External && (g.nodes[u].stats.decision_points
            + 1 >= lens.complex_cc || callers(g, u) >= 2 * lens.min_fan_out || callers(g, u)
            == usize::MAX)
}

proof fn lemma_filter_counts(s: Seq<NodeId>, keep: spec_fn(NodeId) -> bool, n: int)
    requires
        s.no_duplicates(),
        n <= u32::MAX,
        forall|x: NodeId| #[trigger] s.contains(x) ==> x.0 < n,
    ensures
        s.filter(keep).no_duplicates(),
        forall|x: NodeId| #[trigger] s.filter(keep).contains(x) <==> s.contains(x) && keep(x),
        s.filter(keep).len() == tally(
            n,
            |u: int| 0 <= u < n && s.filter(keep).contains(NodeId(u as u32)),
        ),
{
    lemma_filter_has(s, keep);
    lemma_filter_distinct(s, keep);
    lemma_list_counts(s.filter(keep), n);
}

proof fn lemma_filter_distinct(s: Seq<NodeId>, keep: spec_fn(NodeId) -> bool)
    requires
        s.no_duplicates(),
    ensures
        s.filter(keep).no_duplicates(),
    decreases s.len(),
{
    reveal(Seq::filter);
    if s.len() > 0 {
        let front = s.drop_last();
        lemma_filter_distinct(front, keep);
        lemma_filter_has(front, keep);
        let all = s.filter(keep);
        assert forall|i: int, j: int| 0 <= i < j < all.len() implies all[i] != all[j] by {
            if keep(s.last()) && j == all.len() - 1 {
                assert(front.filter(keep)[i] == all[i]);
                assert(front.filter(keep).contains(all[i]));
                let k = front.index_of(all[i]);
                assert(s[k] == all[i]);
            }
        }
    }
}

/// The lens for unstable dependencies reports a definition that calls at least one
/// definition and as many as asked for, of which the asked share or more is complex or
/// called from everywhere; graver where three quarters are.
pub proof fn law_unstable_dependencies_are_reported(
    lens: UnstableDependencyLens,
    g: GraphModel,
    config: Config,
    v: int,
    s: Severity,
)
    requires
        g.wf(),
        0 <= v < g.nodes.len(),
    ensures
        ({
            let n = g.nodes.len() as int;
            let all = tally(n, inner_callees(g, v));
            let shaky = tally(n, shaky_callees(lens, g, v));
            says(lens.findings(g, config), "unstable_dependency"@, s, v) <==> g.nodes[v].kind
                != NodeKind::External && all > 0 && all >= lens.min_fan_out && shaky * 1_000_000
                >= lens.fraction.0 * all && s == graver(
                4 * shaky >= 3 * all,
                Severity::Medium,
                Severity::Low,
            )
        }),
{
    let n = g.nodes.len() as int;
    let all = |i: int| tally(n, inner_callees(g, i));
    let shaky = |i: int| tally(n, shaky_callees(lens, g, i));
    let holds = |i: int|
        g.nodes[i].kind != NodeKind::External && all(i) > 0 && all(i) >= lens.min_fan_out && shaky(i)
            * 1_000_000 >= lens.fraction.0 * all(i);
    let grave = |i: int| graver(4 * shaky(i) >= 3 * all(i), Severity::Medium, Severity::Low);
    assert forall|i: int| 0 <= i < n implies if holds(i) {
        (#[trigger] unstable_findings(lens, g)(i)).len() == 1 && unstable_findings(
            lens,
            g,
        )(i)[0].node == Some(NodeId(i as u32)) && unstable_findings(lens, g)(i)[0].code
            == "unstable_dependency"@ && unstable_findings(lens, g)(i)[0].severity == grave(i)
    } else {
        unstable_findings(lens, g)(i).len() == 0
    } by {
        assert(g.nodes[i].id.0 == i);
        lemma_shaky(lens, g, g.nodes[i].id);
    }
    lemma_says_one(n, unstable_findings(lens, g), "unstable_dependency"@, grave, holds, s, v);
}

proof fn lemma_shaky(lens: UnstableDependencyLens, g: GraphModel, id: NodeId)
    requires
        g.wf(),
    ensures
        internal_callees(g, id).len() == tally(
            g.nodes.len() as int,
            inner_callees(g, id.0 as int),
        ),
        volatile_callees(lens, g, id).len() == tally(
            g.nodes.len() as int,
            shaky_callees(lens, g, id.0 as int),
        ),
{
    let n = g.nodes.len() as int;
    let v = id.0 as int;
    let outs = joined(Seq::empty(), g.neighbors_out(id));
    let inside = |c: NodeId| crate::lenses::defined(g.node(c));
    let moving = |c: NodeId| lens.volatile(g, c);
    let some = internal_callees(g, id);
    let few = volatile_callees(lens, g, id);
    lemma_neighbors(g);
    lemma_joined(Seq::empty(), g.neighbors_out(id));
    assert forall|x: NodeId| #[trigger] outs.contains(x) implies x.0 < n by {
        assert(g.calls(id, x));
    }
    lemma_filter_counts(outs, inside, n);
    assert forall|x: NodeId| #[trigger] some.contains(x) implies x.0 < n by {
        assert(outs.contains(x));
    }
    lemma_filter_counts(some, moving, n);
    let f = |u: int| 0 <= u < n && some.contains(NodeId(u as u32));
    let h = |u: int| 0 <= u < n && few.contains(NodeId(u as u32));
    assert forall|u: int| 0 <= u < n implies #[trigger] f(u) == inner_callees(g, v)(u) by {
        let x = NodeId(u as u32);
        assert(outs.contains(x) <==> g.neighbors_out(id).contains(x));
        assert(g.neighbors_out(id).contains(x) <==> g.calls(id, x));
        lemma_goes(g, id, x);
        law_callers_and_callees_are_counted_once(g, x);
    }
    lemma_tally_agree(n, f, inner_callees(g, v));
    assert forall|u: int| 0 <= u < n implies #[trigger] h(u) == shaky_callees(lens, g, v)(u) by {
        let x = NodeId(u as u32);
        assert(outs.contains(x) <==> g.neighbors_out(id).contains(x));
        assert(g.neighbors_out(id).contains(x) <==> g.calls(id, x));
        lemma_goes(g, id, x);
        law_callers_and_callees_are_counted_once(g, x);
        assert(some.contains(x) <==> outs.contains(x) && inside(x));
        assert(few.contains(x) <==> some.contains(x) && moving(x));
    }
    lemma_tally_agree(n, h, shaky_callees(lens, g, v));
}

// -- entry points ---------------------------------------------------------------------

/// A program may start at the definition: it has one of the names for that.
pub open spec fn names_start(g: GraphModel, name: Seq<char>) -> bool {
    ||| name == "main"@
    ||| name == "_start"@
    ||| name == "init"@ && g.files.len() > 0 && crate::path::extension(g.files[0]) == Some("go"@)
}

/// An entry point is a definition at which a program may start, or one that no call leads
/// to. Of the latter a test is a test, whatever else it is; of the others what is exported
/// counts as that, then what is public as that.
pub proof fn law_entries_are_what_nobody_calls(g: GraphModel, v: int, kind: EntryKind)
    requires
        g.wf(),
        0 <= v < g.nodes.len(),
    ensures
        entry_kind(g, NodeId(v as u32)) == Some(kind) <==> {
            let n = g.nodes[v];
            let start = names_start(g, n.name);
            let free = forall|u: int| !#[trigger] goes(g, u, v);
            n.kind != NodeKind::External && match kind {
                EntryKind::Main => start,
                EntryKind::Test => !start && free && n.flags.is_test,
                EntryKind::Exported => !start && free && !n.flags.is_test && n.flags.is_exported,
                EntryKind::PublicRoot => !start && free && !n.flags.is_test && !n.flags.is_exported
                    && n.flags.is_pub,
                EntryKind::Root => !start && free && !n.flags.is_test && !n.flags.is_exported
                    && !n.flags.is_pub,
            }
        },
{
    lemma_called(g, NodeId(v as u32));
}

/// Which kinds of entry points are listed before which.
pub open spec fn listed_first(a: EntryKind, b: EntryKind) -> bool {
    match a {
        EntryKind::Main => b != EntryKind::Main,
        EntryKind::Exported => b == EntryKind::PublicRoot || b == EntryKind::Root || b
            == EntryKind::Test,
        EntryKind::PublicRoot => b == EntryKind::Root || b == EntryKind::Test,
        EntryKind::Root => b == EntryKind::Test,
        EntryKind::Test => false,
    }
}

/// The list of entry points has each of them once, and goes from the likeliest starting
/// place to the least likely: where a program starts, exports, public items, other
/// definitions, tests.
pub proof fn law_entries_start_with_the_likeliest(g: GraphModel, i: int, j: int)
    requires
        g.wf(),
        0 <= i < j < entries_of(g).len(),
    ensures
        !listed_first(entries_of(g)[j].kind, entries_of(g)[i].kind),
{
    law_entries_are_ordered_and_complete(g);
}

// -- paradigms ------------------------------------------------------------------------

/// The definitions that count as methods.
pub open spec fn as_method(g: GraphModel) -> spec_fn(int) -> bool {
    |i: int|
        g.nodes[i].kind == NodeKind::Method || (g.nodes[i].kind != NodeKind::External
            && g.nodes[i].flags.is_method)
}

/// The definitions that count as free functions.
pub open spec fn as_function(g: GraphModel) -> spec_fn(int) -> bool {
    |i: int| g.nodes[i].kind == NodeKind::Function && !g.nodes[i].flags.is_method
}

/// The definitions.
pub open spec fn as_definition(g: GraphModel) -> spec_fn(int) -> bool {
    |i: int| g.nodes[i].kind != NodeKind::External
}

/// The purity of the first `n` nodes taken together, placeholders left out.
pub open spec fn pureness_of(g: GraphModel, n: int) -> int
    decreases n,
{
    if n <= 0 {
        0
    } else {
        pureness_of(g, n - 1) + if g.nodes[n - 1].kind != NodeKind::External {
            pureness(g.nodes[n - 1])
        } else {
            0
        }
    }
}

proof fn lemma_pureness_of(g: GraphModel, n: int)
    ensures
        crate::seqs::sum(n, crate::lenses::def_purity(g)) == pureness_of(g, n),
    decreases n,
{
    if n > 0 {
        lemma_pureness_of(g, n - 1);
    }
}

/// A codebase with definitions gets one note on its paradigm: object oriented where at
/// least three fifths of its methods and free functions are methods; functional where at
/// most seven twentieths are and the mean purity is three fifths or more; mixed otherwise.
/// One without definitions gets none.
pub proof fn law_paradigm_is_read_from_the_counts(g: GraphModel)
    ensures
        ({
            let n = g.nodes.len() as int;
            let methods = tally(n, as_method(g)) as int;
            let functions = tally(n, as_function(g)) as int;
            let defs = tally(n, as_definition(g)) as int;
            let most: int = if methods + functions > 0 {
                methods + functions
            } else {
                1
            };
            let c = paradigm_counts(g);
            &&& paradigm_findings(g).len() == if defs > 0 {
                1nat
            } else {
                0nat
            }
            &&& defs > 0 ==> paradigm_findings(g)[0].node is None
                && paradigm_findings(g)[0].severity == Severity::Info
                && paradigm_findings(g)[0].message == c.message()
            &&& c.label() == if 5 * methods >= 3 * most {
                "object-oriented"@
            } else if 20 * methods <= 7 * most && pureness_of(g, n) >= 60 * defs {
                "functional"@
            } else {
                "mixed / procedural"@
            }
        }),
{
    let n = g.nodes.len() as int;
    let a = crate::lenses::is_method(g);
    let b = crate::lenses::is_function(g);
    let c = crate::lenses::is_def(g);
    assert forall|i: int| 0 <= i < n implies #[trigger] a(i) == as_method(g)(i) by {}
    assert forall|i: int| 0 <= i < n implies #[trigger] b(i) == as_function(g)(i) by {}
    assert forall|i: int| 0 <= i < n implies #[trigger] c(i) == as_definition(g)(i) by {}
    lemma_tally_agree(n, a, as_method(g));
    lemma_tally_agree(n, b, as_function(g));
    lemma_tally_agree(n, c, as_definition(g));
    lemma_pureness_of(g, n);
}

} // verus!
