//! Metrics, lenses and the order of what they report.

use livewalk::analysis::{analyze, analyze_extended, enabled_lenses};
use livewalk::config::Config;
use livewalk::diagnostic::{Diagnostic, Severity};
use livewalk::ext::{
    extended_lenses, DeadCodeLens, ExtLensConfig, GodFunctionLens, HotspotLens,
    RecursionCycleLens, UnstableDependencyLens,
};
use livewalk::graph::{CodeGraph, Edge, EdgeKind, Node, NodeFlags, NodeKind, NodeStats, SourceSpan};
use livewalk::ids::NodeId;
use livewalk::lenses::{
    concentric_layer, hundredths_text, mvc_layer, ComplexityLens, HazardsLens, Layer,
    LayeringLens, Lens, Mvc, ParadigmLens, PurityLens,
};
use livewalk::metric::{round, MetricKind, Millionths};
use livewalk::metrics::{compute, purity_score};
use livewalk::report::AnalysisReport;

fn def_node(qualified: &str, module: &str, kind: NodeKind, stats: NodeStats) -> Node {
    Node {
        id: NodeId(0),
        name: qualified
            .rsplit("::")
            .next()
            .unwrap_or(qualified)
            .to_string(),
        qualified_name: qualified.to_string(),
        module: module.to_string(),
        kind,
        span: SourceSpan::default(),
        flags: NodeFlags::default(),
        stats,
    }
}

fn add_def(g: &mut CodeGraph, qn: &str, kind: NodeKind) -> NodeId {
    add_def_full(g, qn, kind, NodeFlags::default(), NodeStats::default())
}

fn add_def_full(
    g: &mut CodeGraph,
    qn: &str,
    kind: NodeKind,
    flags: NodeFlags,
    stats: NodeStats,
) -> NodeId {
    let name = qn.rsplit("::").next().unwrap_or(qn).to_string();
    let module = qn
        .rsplit_once("::")
        .map(|(m, _)| m.to_string())
        .unwrap_or_default();
    g.add_node(Node {
        id: NodeId(0),
        name,
        qualified_name: qn.to_string(),
        module,
        kind,
        span: SourceSpan::default(),
        flags,
        stats,
    })
}

fn call(g: &mut CodeGraph, from: NodeId, to: NodeId) {
    g.add_edge(
        from,
        to,
        Edge::new(EdgeKind::DirectCall, SourceSpan::default()),
    );
}

fn codes<'a>(diags: &'a [Diagnostic], code: &str) -> Vec<&'a Diagnostic> {
    diags.iter().filter(|d| d.code == code).collect()
}

fn messages(diags: &[Diagnostic]) -> Vec<&str> {
    diags.iter().map(|d| d.message.as_str()).collect()
}

// -- built-in lenses ------------------------------------------------------------------

#[test]
fn complexity_lens_flags_hot_functions() {
    let mut g = CodeGraph::new();
    let stats = NodeStats {
        decision_points: 15, // cc = 16 > default max 10
        ..Default::default()
    };
    g.add_node(def_node("crate::hot", "crate", NodeKind::Function, stats));

    let diags = ComplexityLens.evaluate(&g, &Config::default());
    assert!(diags
        .iter()
        .any(|d| d.code == "high_complexity" && d.severity >= Severity::Medium));
}

#[test]
fn layering_lens_flags_inner_to_outer() {
    let mut g = CodeGraph::new();
    let f = g.intern_file("src/lib.rs");
    let domain = g.add_node(def_node(
        "crate::domain::User::validate",
        "crate::domain",
        NodeKind::Method,
        NodeStats::default(),
    ));
    let infra = g.add_node(def_node(
        "crate::infrastructure::db::save",
        "crate::infrastructure::db",
        NodeKind::Function,
        NodeStats::default(),
    ));
    // domain -> infrastructure points from the inside out.
    g.add_edge(
        domain,
        infra,
        Edge::new(EdgeKind::DirectCall, SourceSpan::new(f, 1, 0, 1, 1)),
    );

    let mut config = Config::default();
    config.lenses.architecture = vec!["clean".to_string()];
    let diags = LayeringLens.evaluate(&g, &config);
    assert!(diags.iter().any(|d| d.code == "layering_violation"));

    // The other way round is fine.
    let mut g2 = CodeGraph::new();
    let d2 = g2.add_node(def_node(
        "crate::domain::User::validate",
        "crate::domain",
        NodeKind::Method,
        NodeStats::default(),
    ));
    let i2 = g2.add_node(def_node(
        "crate::infrastructure::db::save",
        "crate::infrastructure::db",
        NodeKind::Function,
        NodeStats::default(),
    ));
    g2.add_edge(
        i2,
        d2,
        Edge::new(EdgeKind::DirectCall, SourceSpan::new(f, 1, 0, 1, 1)),
    );
    assert!(LayeringLens.evaluate(&g2, &config).is_empty());
}

#[test]
fn analyze_fills_metrics_and_sorts_diagnostics() {
    let mut g = CodeGraph::new();
    g.add_node(def_node(
        "crate::hot",
        "crate",
        NodeKind::Function,
        NodeStats {
            decision_points: 30,
            unsafe_blocks: 1,
            ..Default::default()
        },
    ));
    let mut report = AnalysisReport::new(g);

    analyze(&Config::default(), &mut report);

    assert!(!report.metrics.is_empty());
    assert!(!report.diagnostics.is_empty());
    // Highest severity first.
    for pair in report.diagnostics.windows(2) {
        assert!(pair[0].severity >= pair[1].severity);
    }
}

#[test]
fn limits_are_exceeded_only_above_them() {
    let mut g = CodeGraph::new();
    let at_limit = NodeStats {
        decision_points: 9,
        parameters: 5,
        max_nesting: 4,
        lines_of_code: 60,
        ..Default::default()
    };
    g.add_node(def_node("m::fits", "m", NodeKind::Function, at_limit));
    let config = Config::default();
    assert!(ComplexityLens.evaluate(&g, &config).is_empty());

    let mut g = CodeGraph::new();
    let over = NodeStats {
        decision_points: 10,
        parameters: 6,
        max_nesting: 5,
        lines_of_code: 61,
        ..Default::default()
    };
    g.add_node(def_node("m::over", "m", NodeKind::Function, over));
    let found = ComplexityLens.evaluate(&g, &config);
    assert_eq!(
        messages(&found),
        vec![
            "`m::over` has cyclomatic complexity 11 (max 10)",
            "`m::over` takes 6 parameters (max 5)",
            "`m::over` is 61 lines long (max 60)",
            "`m::over` nests 5 levels deep (max 4)",
        ]
    );
    assert_eq!(found[0].severity, Severity::Medium);
    assert!(found.iter().all(|d| d.lens == "complexity"));
}

#[test]
fn complexity_at_twice_the_limit_is_severe() {
    let severity = |points: u32| {
        let mut g = CodeGraph::new();
        let stats = NodeStats {
            decision_points: points,
            ..Default::default()
        };
        g.add_node(def_node("m::f", "m", NodeKind::Function, stats));
        ComplexityLens.evaluate(&g, &Config::default())[0].severity
    };
    assert_eq!(severity(18), Severity::Medium);
    assert_eq!(severity(20), Severity::High);
}

#[test]
fn lenses_never_look_at_externals() {
    let mut g = CodeGraph::new();
    g.add_node(Node::external("std::mem::transmute"));
    let config = Config::default();
    for lens in enabled_lenses(&config) {
        assert!(lens.evaluate(&g, &config).is_empty());
    }
}

#[test]
fn hazards_are_unsafe_code_and_heap_pressure() {
    let mut g = CodeGraph::new();
    let stats = NodeStats {
        unsafe_blocks: 2,
        allocations: 13,
        ..Default::default()
    };
    let risky = g.add_node(def_node("m::risky", "m", NodeKind::Function, stats));
    let mut config = Config::default();
    config.metrics.heap_sensitivity = Millionths(1_500_000);
    let found = HazardsLens.evaluate(&g, &config);
    assert_eq!(
        messages(&found),
        vec![
            "`m::risky` uses `unsafe` (2 block(s)); review memory & thread safety",
            // 19.5, to the even neighbour
            "`m::risky` performs ~20 heap allocations (memory pressure)",
        ]
    );
    assert_eq!(found[1].severity, Severity::Low);
    assert_eq!(found[0].node, Some(risky));

    config.metrics.heap_sensitivity = Millionths(100_000);
    assert_eq!(HazardsLens.evaluate(&g, &config).len(), 1);
}

#[test]
fn purity_falls_with_each_effect() {
    let mut node = def_node("m::f", "m", NodeKind::Function, NodeStats::default());
    assert_eq!(purity_score(&node), 100);
    node.stats.allocations = 3;
    assert_eq!(purity_score(&node), 65);
    node.flags.is_unsafe = true;
    assert_eq!(purity_score(&node), 35);
    node.stats.awaits = 1;
    assert_eq!(purity_score(&node), 15);

    assert_eq!(hundredths_text(100), "1.00");
    assert_eq!(hundredths_text(7), "0.07");
    assert_eq!(hundredths_text(35), "0.35");
}

#[test]
fn impure_functions_with_many_callers_are_reported() {
    let mut g = CodeGraph::new();
    let stats = NodeStats {
        allocations: 1,
        unsafe_blocks: 1,
        ..Default::default()
    };
    let busy = add_def_full(
        &mut g,
        "m::busy",
        NodeKind::Function,
        NodeFlags::default(),
        stats,
    );
    for i in 0..3 {
        let c = add_def(&mut g, &format!("m::c{i}"), NodeKind::Function);
        assert!(PurityLens.evaluate(&g, &Config::default()).is_empty());
        call(&mut g, c, busy);
    }
    let found = PurityLens.evaluate(&g, &Config::default());
    assert_eq!(
        messages(&found),
        vec!["`m::busy` is side-effect heavy (purity 0.35) yet has 3 callers; consider isolating effects"]
    );
}

#[test]
fn the_paradigm_is_a_profile_of_the_whole() {
    let profile = |methods: usize, functions: usize| {
        let mut g = CodeGraph::new();
        for i in 0..methods {
            add_def(&mut g, &format!("m::T::f{i}"), NodeKind::Method);
        }
        for i in 0..functions {
            add_def(&mut g, &format!("m::g{i}"), NodeKind::Function);
        }
        let found = ParadigmLens.evaluate(&g, &Config::default());
        found.first().map(|d| d.message.clone())
    };
    assert_eq!(profile(0, 0), None);
    assert_eq!(
        profile(3, 2).as_deref(),
        Some("codebase paradigm: object-oriented (60% methods, mean purity 1.00)")
    );
    assert_eq!(
        profile(1, 2).as_deref(),
        Some("codebase paradigm: functional (33% methods, mean purity 1.00)")
    );
    assert_eq!(
        profile(1, 1).as_deref(),
        Some("codebase paradigm: mixed / procedural (50% methods, mean purity 1.00)")
    );
}

#[test]
fn calls_that_go_outward_are_worded_by_style() {
    let mut g = CodeGraph::new();
    let model = add_def(&mut g, "shop::models::load", NodeKind::Function);
    let view = add_def(&mut g, "shop::views::show", NodeKind::Function);
    let infra = add_def(&mut g, "shop::db::save", NodeKind::Function);
    call(&mut g, model, view);
    call(&mut g, model, infra);
    let mut config = Config::default();
    config.lenses.architecture = vec!["onion".to_string(), "mvc".to_string()];
    assert_eq!(
        messages(&LayeringLens.evaluate(&g, &config)),
        vec![
            "mvc: model `shop::models::load` depends on view `shop::views::show`",
            "onion: `shop::models::load` (domain) depends on `shop::db::save` (infrastructure) — inner layer reaching outward",
        ]
    );
    config.lenses.architecture = vec![];
    assert!(LayeringLens.evaluate(&g, &config).is_empty());
}

#[test]
fn layers_are_read_off_module_names() {
    assert_eq!(concentric_layer("app::domain::user"), Some(Layer::Domain));
    assert_eq!(concentric_layer("app::misc"), Some(Layer::Application));
    assert_eq!(concentric_layer("shop::misc"), None);
    assert_eq!(mvc_layer("app::models"), Some(Mvc::Model));
    assert_eq!(mvc_layer("app::misc"), None);
}

#[test]
fn all_built_in_lenses_are_enabled_by_default() {
    let config = Config::default();
    let names: Vec<&str> = enabled_lenses(&config).iter().map(|l| l.name()).collect();
    assert_eq!(
        names,
        vec!["complexity", "hazards", "purity", "layering", "paradigm"]
    );
    let mut config = Config::default();
    config.lenses.purity = false;
    config.lenses.paradigm = false;
    let names: Vec<&str> = enabled_lenses(&config).iter().map(|l| l.name()).collect();
    assert_eq!(names, vec!["complexity", "hazards", "layering"]);
}

// -- metrics --------------------------------------------------------------------------

#[test]
fn metrics_are_exact() {
    let mut g = CodeGraph::new();
    let a = add_def(&mut g, "m::a", NodeKind::Function);
    let b = add_def(&mut g, "m::b", NodeKind::Function);
    let c = add_def(&mut g, "m::c", NodeKind::Function);
    call(&mut g, a, b);
    call(&mut g, b, a);
    call(&mut g, a, c);
    let metrics = compute(&g, &Config::default());
    let of = |kind: MetricKind, node: Option<NodeId>| {
        metrics
            .iter()
            .find(|m| m.kind == kind && m.node == node)
            .unwrap()
            .value
    };
    let fan_out = of(MetricKind::FanOut, Some(a));
    assert_eq!((fan_out.num, fan_out.den), (2, 1));
    let fan_in = of(MetricKind::FanIn, Some(c));
    assert_eq!((fan_in.num, fan_in.den), (1, 1));
    // Two of the three functions are on a cycle.
    let cyclicity = of(MetricKind::Cyclicity, None);
    assert_eq!(3 * cyclicity.num, 2 * cyclicity.den as i128);
}

#[test]
fn quotients_round_half_to_even() {
    assert_eq!(round(5, 2), 2);
    assert_eq!(round(7, 2), 4);
    assert_eq!(round(8, 3), 3);
    assert_eq!(round(7, 3), 2);
}

// -- extended lenses: recursion -------------------------------------------------------

#[test]
fn recursion_lens_flags_mutual_recursion_and_self_recursion() {
    let mut g = CodeGraph::new();
    let a = add_def(&mut g, "crate::a", NodeKind::Function);
    let b = add_def(&mut g, "crate::b", NodeKind::Function);
    call(&mut g, a, b);
    call(&mut g, b, a); // a <-> b
    let s = add_def(&mut g, "crate::selfrec", NodeKind::Function);
    call(&mut g, s, s); // a cycle of one

    let diags = RecursionCycleLens::default().evaluate(&g, &Config::default());

    let cycle = codes(&diags, "recursion_cycle");
    assert_eq!(cycle.len(), 2, "both members of the a<->b cycle flagged");
    assert!(cycle.iter().all(|d| d.severity == Severity::Medium));
    let selfrec = codes(&diags, "self_recursion");
    assert_eq!(selfrec.len(), 1);
    assert_eq!(selfrec[0].severity, Severity::Low);
    assert_eq!(selfrec[0].node, Some(s));
}

#[test]
fn recursion_lens_escalates_large_cycles_and_ignores_acyclic() {
    // A cycle of four reaches the `large_cycle_size` bar.
    let mut g = CodeGraph::new();
    let ids: Vec<NodeId> = (0..4)
        .map(|i| add_def(&mut g, &format!("crate::n{i}"), NodeKind::Function))
        .collect();
    for i in 0..4 {
        call(&mut g, ids[i], ids[(i + 1) % 4]);
    }
    let diags = RecursionCycleLens::default().evaluate(&g, &Config::default());
    let cycle = codes(&diags, "recursion_cycle");
    assert_eq!(cycle.len(), 4);
    assert!(cycle.iter().all(|d| d.severity == Severity::High));

    // A straight chain a -> b -> c has no cycle.
    let mut g2 = CodeGraph::new();
    let a = add_def(&mut g2, "crate::a", NodeKind::Function);
    let b = add_def(&mut g2, "crate::b", NodeKind::Function);
    let c = add_def(&mut g2, "crate::c", NodeKind::Function);
    call(&mut g2, a, b);
    call(&mut g2, b, c);
    assert!(RecursionCycleLens::default()
        .evaluate(&g2, &Config::default())
        .is_empty());
}

// -- extended lenses: dead code -------------------------------------------------------

#[test]
fn dead_code_lens_flags_only_uncalled_non_entrypoints() {
    let mut g = CodeGraph::new();
    // An uncalled private function is dead.
    let dead = add_def(&mut g, "crate::dead", NodeKind::Function);
    // `main` is an entry even with no callers.
    add_def(&mut g, "crate::main", NodeKind::Function);
    // So is a test.
    add_def_full(
        &mut g,
        "crate::it_works",
        NodeKind::Function,
        NodeFlags {
            is_test: true,
            ..Default::default()
        },
        NodeStats::default(),
    );
    // A public function may be called from elsewhere.
    add_def_full(
        &mut g,
        "crate::api",
        NodeKind::Function,
        NodeFlags {
            is_pub: true,
            ..Default::default()
        },
        NodeStats::default(),
    );
    // A called private function is alive...
    let caller = add_def(&mut g, "crate::caller", NodeKind::Function);
    let callee = add_def(&mut g, "crate::callee", NodeKind::Function);
    call(&mut g, caller, callee);
    // ...but `caller` itself has no callers.

    let diags = DeadCodeLens::default().evaluate(&g, &Config::default());
    let flagged: Vec<_> = codes(&diags, "dead_code")
        .iter()
        .map(|d| d.node.unwrap())
        .collect();
    assert!(flagged.contains(&dead));
    assert!(flagged.contains(&caller));
    assert!(!flagged.contains(&callee));
    assert!(diags.iter().all(|d| d.severity == Severity::Low));
    // main, test and pub are left out.
    assert_eq!(codes(&diags, "dead_code").len(), 2);

    // Public items are flagged on request.
    let with_pub = DeadCodeLens {
        include_public: true,
    }
    .evaluate(&g, &Config::default());
    assert_eq!(codes(&with_pub, "dead_code").len(), 3);
}

// -- extended lenses: god functions ---------------------------------------------------

#[test]
fn god_function_lens_needs_both_high_fan_in_and_fan_out() {
    let mut g = CodeGraph::new();
    let hub = add_def(&mut g, "crate::hub", NodeKind::Function);
    for i in 0..3 {
        let caller = add_def(&mut g, &format!("crate::in{i}"), NodeKind::Function);
        call(&mut g, caller, hub);
        let callee = add_def(&mut g, &format!("crate::out{i}"), NodeKind::Function);
        call(&mut g, hub, callee);
    }
    // fan_in == fan_out == 3.
    let lens = GodFunctionLens {
        fan_in: 3,
        fan_out: 3,
    };
    let diags = lens.evaluate(&g, &Config::default());
    let god = codes(&diags, "god_function");
    assert_eq!(god.len(), 1);
    assert_eq!(god[0].node, Some(hub));
    assert_eq!(god[0].severity, Severity::Medium);

    // High fan-in without fan-out is no god function.
    let strict = GodFunctionLens {
        fan_in: 3,
        fan_out: 8,
    };
    assert!(codes(&strict.evaluate(&g, &Config::default()), "god_function").is_empty());
}

// -- extended lenses: hotspots --------------------------------------------------------

#[test]
fn hotspot_lens_uses_callers_or_call_volume() {
    // By callers: three of them, each calling once.
    let mut g = CodeGraph::new();
    let target = add_def(&mut g, "crate::target", NodeKind::Function);
    for i in 0..3 {
        let c = add_def(&mut g, &format!("crate::c{i}"), NodeKind::Function);
        call(&mut g, c, target);
    }
    let by_callers = HotspotLens {
        min_callers: 3,
        min_call_volume: 1000,
    }
    .evaluate(&g, &Config::default());
    assert_eq!(codes(&by_callers, "hotspot").len(), 1);

    // By volume: two callers, one of which calls many times.
    let mut g2 = CodeGraph::new();
    let t = add_def(&mut g2, "crate::t", NodeKind::Function);
    let hot = add_def(&mut g2, "crate::hot", NodeKind::Function);
    let cold = add_def(&mut g2, "crate::cold", NodeKind::Function);
    for _ in 0..60 {
        call(&mut g2, hot, t); // one edge with count 60
    }
    call(&mut g2, cold, t);
    let by_volume = HotspotLens {
        min_callers: 5,
        min_call_volume: 50,
    }
    .evaluate(&g2, &Config::default());
    let hs = codes(&by_volume, "hotspot");
    assert_eq!(hs.len(), 1);
    assert_eq!(hs[0].node, Some(t));

    // A target with one caller is never on many paths.
    let mut g3 = CodeGraph::new();
    let only = add_def(&mut g3, "crate::only", NodeKind::Function);
    let one = add_def(&mut g3, "crate::one", NodeKind::Function);
    for _ in 0..99 {
        call(&mut g3, one, only);
    }
    assert!(codes(
        &HotspotLens {
            min_callers: 2,
            min_call_volume: 1,
        }
        .evaluate(&g3, &Config::default()),
        "hotspot"
    )
    .is_empty());
}

// -- extended lenses: unstable dependencies -------------------------------------------

#[test]
fn unstable_dependency_lens_flags_high_volatile_fan_out() {
    let mut g = CodeGraph::new();
    let src = add_def(&mut g, "crate::src", NodeKind::Function);
    // Three complex callees (cc = 13) and a trivial one: 3/4 volatile.
    for i in 0..3 {
        let cx = add_def_full(
            &mut g,
            &format!("crate::cx{i}"),
            NodeKind::Function,
            NodeFlags::default(),
            NodeStats {
                decision_points: 12,
                ..Default::default()
            },
        );
        call(&mut g, src, cx);
    }
    let simple = add_def(&mut g, "crate::simple", NodeKind::Function);
    call(&mut g, src, simple);

    let lens = UnstableDependencyLens {
        min_fan_out: 3,
        complex_cc: 10,
        fraction: Millionths(500_000),
    };
    let diags = lens.evaluate(&g, &Config::default());
    let unstable = codes(&diags, "unstable_dependency");
    assert_eq!(unstable.len(), 1);
    assert_eq!(unstable[0].node, Some(src));
    assert_eq!(unstable[0].severity, Severity::Medium); // 0.75 >= 0.75

    // A function whose callees are all simple is stable.
    let mut g2 = CodeGraph::new();
    let s2 = add_def(&mut g2, "crate::s2", NodeKind::Function);
    for i in 0..4 {
        let leaf = add_def(&mut g2, &format!("crate::leaf{i}"), NodeKind::Function);
        call(&mut g2, s2, leaf);
    }
    assert!(codes(
        &lens.evaluate(&g2, &Config::default()),
        "unstable_dependency"
    )
    .is_empty());
}

#[test]
fn lenses_count_a_callee_once() {
    // One complex callee, called in two ways.
    let mut g = CodeGraph::new();
    let src = add_def(&mut g, "crate::src", NodeKind::Function);
    let cx = add_def_full(
        &mut g,
        "crate::cx",
        NodeKind::Function,
        NodeFlags::default(),
        NodeStats {
            decision_points: 12,
            ..Default::default()
        },
    );
    call(&mut g, src, cx);
    g.add_edge(
        src,
        cx,
        Edge::new(EdgeKind::MethodCall, SourceSpan::default()),
    );
    let lens = |min_fan_out: usize| UnstableDependencyLens {
        min_fan_out,
        complex_cc: 10,
        fraction: Millionths(500_000),
    };
    let of = |n: usize| {
        codes(
            &lens(n).evaluate(&g, &Config::default()),
            "unstable_dependency",
        )
        .len()
    };
    assert_eq!(of(1), 1);
    assert_eq!(of(2), 0);
}

// -- choosing the extended lenses -----------------------------------------------------

#[test]
fn default_config_is_disabled_and_yields_no_lenses() {
    let cfg = ExtLensConfig::default();
    assert!(cfg.is_disabled());
    assert!(extended_lenses(&cfg).is_empty());
}

#[test]
fn all_config_enables_every_extended_lens() {
    let cfg = ExtLensConfig::all();
    assert!(!cfg.is_disabled());
    assert_eq!(extended_lenses(&cfg).len(), 5);
}

#[test]
fn extended_lenses_respects_individual_toggles() {
    let cfg = ExtLensConfig {
        god_function: Some(GodFunctionLens::default()),
        ..Default::default()
    };
    let lenses = extended_lenses(&cfg);
    assert_eq!(lenses.len(), 1);
    assert_eq!(lenses[0].name(), "god_function");
}

#[test]
fn analyze_extended_is_noop_when_disabled_and_appends_when_enabled() {
    // A cycle, so that one extended lens has something to say.
    let mut g = CodeGraph::new();
    let a = add_def(&mut g, "crate::a", NodeKind::Function);
    let b = add_def(&mut g, "crate::b", NodeKind::Function);
    call(&mut g, a, b);
    call(&mut g, b, a);

    let mut report = AnalysisReport::new(g);
    analyze_extended(&Config::default(), &ExtLensConfig::default(), &mut report);
    assert!(
        report.diagnostics.is_empty(),
        "disabled config must not change output"
    );

    analyze_extended(&Config::default(), &ExtLensConfig::all(), &mut report);
    assert!(report
        .diagnostics
        .iter()
        .any(|d| d.code == "recursion_cycle"));
    // Still highest severity first.
    for pair in report.diagnostics.windows(2) {
        assert!(pair[0].severity >= pair[1].severity);
    }
}
