//! The pipeline and what surrounds it: configuration, discovery, the fragment cache.

use livewalk::adapter::AdapterError;
use livewalk::cache::{
    cache_file, cache_home, hash_text, hex_text, CacheEntry, FragmentCache, CACHE_VERSION,
};
use livewalk::config::{
    choose_source, find, search_places, AdapterMode, Config, ConfigError, VerticalChoice,
};
use livewalk::diagnostic::Severity;
use livewalk::discover::{exclude_rules, is_wanted, select_files};
use livewalk::engine::{Engine, EngineError, Progress};
use livewalk::fragment::FileFragment;
use livewalk::lang::Lang;
use livewalk::metric::Millionths;
use livewalk::source::SourceFile;
use livewalk::suggestion::{Suggestion, Target};
use livewalk::vertical::Vertical;
use std::collections::hash_map::DefaultHasher;
use std::hash::{Hash, Hasher};

// -- engine ---------------------------------------------------------------------------

#[test]
fn analyzes_in_memory_sources() {
    let engine = Engine::new(Config::default());
    let sources = vec![SourceFile::new("src/lib.rs", "fn a() { b(); } fn b() {}")];
    let report = engine.analyze_sources(&sources).unwrap();
    assert_eq!(report.graph.node_count(), 2);
    assert_eq!(report.graph.edge_count(), 1);
    let summary = report.summary();
    assert_eq!(summary.nodes, 2);
}

#[test]
fn streams_progress_in_order() {
    let engine = Engine::new(Config::default());
    let sources = vec![SourceFile::new("src/lib.rs", "fn a() { b(); } fn b() {}")];

    let mut events = Vec::new();
    let report = engine
        .analyze_sources_with_progress(&sources, &mut events)
        .unwrap();

    assert_eq!(report.graph.node_count(), 2);
    // Parsing precedes Parsed precedes Analyzing precedes Advising precedes Done.
    let parsing = events
        .iter()
        .position(|p| matches!(p, Progress::Parsing { .. }));
    let done = events
        .iter()
        .position(|p| matches!(p, Progress::Done { .. }));
    assert!(parsing.is_some() && done.is_some());
    assert!(parsing < done);
    assert!(matches!(
        events.last(),
        Some(Progress::Done { nodes: 2, .. })
    ));
}

#[test]
fn every_step_is_reported_once() {
    let engine = Engine::new(Config::default());
    let sources = vec![SourceFile::new("src/lib.rs", "fn a() { b(); } fn b() {}")];
    let mut events = Vec::new();
    let report = engine
        .analyze_sources_with_progress(&sources, &mut events)
        .unwrap();
    assert_eq!(
        events,
        vec![
            Progress::Parsing { files: 1 },
            Progress::Parsed { nodes: 2, edges: 1 },
            Progress::Analyzing,
            Progress::Advising,
            Progress::Done {
                nodes: 2,
                diagnostics: report.diagnostics.len(),
                suggestions: 0,
            },
        ]
    );
}

#[test]
fn reports_come_sorted() {
    let engine = Engine::new(Config::default());
    let text = "fn a(p: u8, q: u8, r: u8, s: u8, t: u8, u: u8) { unsafe { b() } } fn b() {}";
    let sources = vec![SourceFile::new("src/lib.rs", text)];
    let report = engine.analyze_sources(&sources).unwrap();
    let severities: Vec<Severity> = report.diagnostics.iter().map(|d| d.severity).collect();
    assert!(severities.windows(2).all(|w| w[0] >= w[1]));
    assert!(severities.contains(&Severity::Medium));
    assert!(severities.contains(&Severity::Info));
}

#[test]
fn an_empty_set_of_sources_gives_an_empty_report() {
    let engine = Engine::new(Config::default());
    let report = engine.analyze_sources(&vec![]).unwrap();
    assert_eq!(report.graph.node_count(), 0);
    assert_eq!(report.vertical, Vertical::Unknown);
    assert!(report.diagnostics.is_empty());
    assert_eq!(engine.extensions(), vec!["rs"]);
    assert_eq!(engine.config().project.vertical, VerticalChoice::Auto);
}

#[test]
fn a_walk_that_finds_nothing_is_an_error() {
    let engine = Engine::new(Config::default());
    let mut events = Vec::new();
    match engine.discovered("repo", 0, &mut events) {
        Err(e) => assert_eq!(e.text(), "no source files found under repo"),
        Ok(_) => panic!("nothing was found"),
    }
    assert_eq!(events, vec![Progress::Discovered { files: 0 }]);
    assert!(engine.discovered("repo", 3, &mut events).is_ok());
    assert_eq!(events.last(), Some(&Progress::Reading { files: 3 }));
}

#[test]
fn errors_say_what_went_wrong() {
    assert_eq!(
        EngineError::Walk("denied".to_string()).text(),
        "failed to walk repository: denied"
    );
    assert_eq!(
        EngineError::Config("bad".to_string()).text(),
        "configuration error: bad"
    );
    let parse = AdapterError::Parse {
        path: "a.rs".to_string(),
        message: "odd".to_string(),
    };
    assert_eq!(
        EngineError::Adapter(parse).text(),
        "failed to parse a.rs: odd"
    );
    assert_eq!(
        AdapterError::Other("gone".to_string()).text(),
        "adapter error: gone"
    );
}

// -- fragment cache -------------------------------------------------------------------

#[test]
fn hash_changes_with_content() {
    assert_ne!(hash_text("fn a() {}"), hash_text("fn a() { b(); }"));
    assert_eq!(hash_text("same"), hash_text("same"));
}

#[test]
fn get_is_hash_validated() {
    let mut c = FragmentCache::new("treesitter-rust");
    let p = "src/a.rs".to_string();
    c.insert(p.clone(), 42, FileFragment::new(&p));
    assert!(c.get(&p, 42).is_some());
    assert!(c.get(&p, 43).is_none(), "stale hash must miss");
}

#[test]
fn explicit_relative_dir_resolves_against_root() {
    let f = cache_file("/repo", ".livewalk-cache", None, 0).unwrap();
    assert!(f.ends_with("fragments.json"));
    assert!(f.starts_with("/repo/.livewalk-cache"));
}

#[test]
fn without_a_directory_the_cache_lies_under_the_cache_home() {
    let f = cache_file("/repo", "", Some("/home/u/.cache"), 0xab);
    assert_eq!(
        f.as_deref(),
        Some("/home/u/.cache/livewalk/00000000000000ab/fragments.json")
    );
    assert_eq!(cache_file("/repo", "", None, 0xab), None);
    assert_eq!(hex_text(0x1f2e, 4), "1f2e");
    assert_eq!(hex_text(0, 2), "00");

    assert_eq!(
        cache_home(Some("/x"), Some("/h"), Some("/l"), "/t"),
        "/x"
    );
    assert_eq!(
        cache_home(Some(""), Some("/h"), Some("/l"), "/t"),
        "/h/.cache"
    );
    assert_eq!(cache_home(None, None, Some("/l"), "/t"), "/l");
    assert_eq!(cache_home(None, Some(""), None, "/t"), "/t");
}

#[test]
fn hashes_are_those_of_the_fixed_seed() {
    for text in ["", "fn a() {}", "naïve ✓"] {
        let mut h = DefaultHasher::new();
        text.len().hash(&mut h);
        text.hash(&mut h);
        assert_eq!(hash_text(text), h.finish());
    }
}

#[test]
fn caches_of_another_adapter_or_version_are_dropped() {
    let entry = || CacheEntry {
        path: "a.rs".to_string(),
        hash: 7,
        fragment: FileFragment::new("a.rs"),
    };
    let stored = FragmentCache::from_entries(CACHE_VERSION, "rust", vec![entry()]);
    let c = FragmentCache::load(Some(stored), "rust");
    assert!(c.get("a.rs", 7).is_some());
    assert!(!c.is_dirty());

    let stored = FragmentCache::from_entries(CACHE_VERSION, "go", vec![entry()]);
    assert!(FragmentCache::load(Some(stored), "rust").entries().is_empty());
    let stored = FragmentCache::from_entries(CACHE_VERSION + 1, "rust", vec![entry()]);
    let c = FragmentCache::load(Some(stored), "rust");
    assert!(c.entries().is_empty());
    assert_eq!((c.version(), c.adapter()), (CACHE_VERSION, "rust"));
}

#[test]
fn vanished_files_leave_the_cache() {
    let mut c = FragmentCache::new("rust");
    assert!(!c.is_dirty());
    c.insert("a.rs".to_string(), 1, FileFragment::new("a.rs"));
    c.insert("b.rs".to_string(), 2, FileFragment::new("b.rs"));
    assert!(c.is_dirty());
    c.retain(&vec!["b.rs".to_string()]);
    assert!(c.get("a.rs", 1).is_none());
    assert!(c.get("b.rs", 2).is_some());
    // A second insert replaces the first.
    c.insert("b.rs".to_string(), 3, FileFragment::new("b.rs"));
    assert!(c.get("b.rs", 2).is_none());
    assert!(c.get("b.rs", 3).is_some());
    assert_eq!(c.entries().len(), 1);
}

// -- configuration --------------------------------------------------------------------

#[test]
fn empty_config_uses_documented_defaults() {
    let cfg = Config::default();
    assert_eq!(cfg.metrics.cyclomatic_max, 10);
    assert_eq!(cfg.metrics.max_parameters, 5);
    assert_eq!(cfg.adapter.mode, AdapterMode::Fast);
    assert!(cfg.telemetry.no_network);
    assert_eq!(cfg.project.vertical, VerticalChoice::Auto);
    assert_eq!(cfg.project.vertical.fixed(), None);
    assert_eq!(
        VerticalChoice::GameEngine.fixed(),
        Some(Vertical::GameEngine)
    );
    assert_eq!(cfg.lenses.architecture, vec!["clean".to_string()]);
    assert!(cfg.validate().is_ok());
}

fn complaint(config: &Config) -> String {
    match config.validate() {
        Ok(()) => String::new(),
        Err(e) => e.text(),
    }
}

#[test]
fn partial_override_keeps_other_defaults() {
    let mut cfg = Config::default();
    cfg.metrics.cyclomatic_max = 20;
    cfg.project.vertical = VerticalChoice::GameEngine;
    assert_eq!(cfg.metrics.cyclomatic_max, 20);
    assert_eq!(cfg.metrics.max_parameters, 5); // default preserved
    assert_eq!(cfg.project.vertical.fixed(), Some(Vertical::GameEngine));
    assert!(cfg.validate().is_ok());
}

#[test]
fn rejects_out_of_range_coverage() {
    let mut cfg = Config::default();
    cfg.metrics.coverage_min = Millionths(2_000_000);
    assert!(cfg.validate().is_err());
    assert_eq!(
        complaint(&cfg),
        "invalid config: metrics.coverage_min must be within 0.0..=1.0"
    );
    cfg.metrics.coverage_min = Millionths(1_000_000);
    assert!(cfg.validate().is_ok());
}

#[test]
fn rejects_unknown_architecture() {
    let mut cfg = Config::default();
    cfg.lenses.architecture = vec!["hexagonal".to_string()];
    assert!(cfg.validate().is_err());
    cfg.lenses.architecture.insert(0, "mvc".to_string());
    assert_eq!(
        complaint(&cfg),
        "invalid config: unknown architecture style 'hexagonal' (expected clean|onion|mvc)"
    );
}

#[test]
fn settings_out_of_range_are_named() {
    let mut cfg = Config::default();
    cfg.metrics.heap_sensitivity = Millionths(-1);
    assert_eq!(
        complaint(&cfg),
        "invalid config: metrics.heap_sensitivity must be >= 0"
    );

    let mut cfg = Config::default();
    cfg.suggestions.latency = Millionths(-500_000);
    assert_eq!(
        complaint(&cfg),
        "invalid config: suggestions.latency weight must be >= 0"
    );
    assert_eq!(cfg.suggestions.weight(Target::Latency), Millionths(-500_000));
}

#[test]
fn the_other_configuration_errors_name_the_file() {
    let io = ConfigError::Io {
        path: "x.toml".to_string(),
        source: "gone".to_string(),
    };
    assert_eq!(io.text(), "could not read config x.toml: gone");
    let toml = ConfigError::Toml {
        path: "x.toml".to_string(),
        source: "odd".to_string(),
    };
    assert_eq!(toml.text(), "invalid TOML in x.toml: odd");
}

#[test]
fn the_nearest_configuration_is_found() {
    assert_eq!(
        search_places("/a/b"),
        vec!["/a/b/livewalk.toml", "/a/livewalk.toml", "/livewalk.toml"]
    );
    let found = find("/a/b", &vec![false, true, true]);
    assert_eq!(found.as_deref(), Some("/a/livewalk.toml"));
    assert_eq!(find("/a/b", &vec![false, false, false]), None);
    let explicit = Some("my.toml".to_string());
    assert_eq!(
        choose_source(&explicit, "/a/b", &vec![true, true, true]).as_deref(),
        Some("my.toml")
    );
    assert_eq!(
        choose_source(&None, "/a/b", &vec![true, true, true]).as_deref(),
        Some("/a/b/livewalk.toml")
    );
}

// -- discovery ------------------------------------------------------------------------

#[test]
fn build_output_is_left_out_of_a_walk() {
    let mut config = Config::default();
    config.adapter.exclude = vec!["**/generated/**".to_string()];
    let rules = exclude_rules(&config);
    assert_eq!(rules[0], "!target");
    assert_eq!(rules[1], "!**/target/**");
    assert!(rules.contains(&"!node_modules".to_string()));
    assert_eq!(rules.last().map(String::as_str), Some("!**/generated/**"));
    assert_eq!(rules.len(), 9);
}

#[test]
fn files_are_chosen_by_extension_and_ordered_by_path() {
    let rs = vec!["rs"];
    assert!(is_wanted("src/lib.rs", &rs));
    assert!(!is_wanted("src/lib.rsx", &rs));
    assert!(!is_wanted("rs", &rs));
    assert!(!is_wanted("src/.rs", &rs));
    let paths: Vec<String> = ["src/b.rs", "src/a.go", "src/a/z.rs", "src/a.rs", "Z.rs"]
        .iter()
        .map(|p| p.to_string())
        .collect();
    // By parts: the directory `a` comes before the file `a.rs`.
    assert_eq!(
        select_files(&paths, &rs),
        vec!["Z.rs", "src/a/z.rs", "src/a.rs", "src/b.rs"]
    );
}

// -- suggestions ----------------------------------------------------------------------

#[test]
fn suggestions_are_built_up() {
    let s = Suggestion::new("Split it", "It does two things")
        .with_targets(vec![Target::Maintainability])
        .with_priority(200);
    assert_eq!(s.title, "Split it");
    assert_eq!(s.targets, vec![Target::Maintainability]);
    assert_eq!(s.priority, 200);
    assert_eq!(s.node, None);
}

// -- incremental parsing --------------------------------------------------------------

#[test]
fn unchanged_files_come_from_the_cache() {
    let engine = Engine::new(Config::default());
    assert_eq!(engine.adapter_name(), "treesitter-rust");
    let mut sources = vec![
        SourceFile::new("src/a.rs", "pub fn a() { crate::b::b(); }"),
        SourceFile::new("src/b.rs", "pub fn b() {}"),
    ];
    let mut cache = FragmentCache::new(engine.adapter_name());
    let mut events = Vec::new();
    let first = engine
        .prepare_cached(&sources, &mut cache, &mut events)
        .unwrap();
    let cold = engine.analyze_sources(&sources).unwrap();
    assert_eq!(first.graph.node_count(), cold.graph.node_count());
    assert_eq!(first.graph.edge_count(), cold.graph.edge_count());
    assert_eq!(first.diagnostics.len(), cold.diagnostics.len());
    assert_eq!(cache.entries().len(), 2);
    assert!(cache.is_dirty());

    // Stored and loaded, the cache is as good as before, and nothing is read again.
    let stored = FragmentCache::from_entries(
        cache.version(),
        cache.adapter(),
        cache
            .entries()
            .iter()
            .map(|e| CacheEntry {
                path: e.path.clone(),
                hash: e.hash,
                fragment: e.fragment.clone(),
            })
            .collect(),
    );
    let mut cache = FragmentCache::load(Some(stored), engine.adapter_name());
    let second = engine
        .prepare_cached(&sources, &mut cache, &mut events)
        .unwrap();
    assert!(!cache.is_dirty());
    assert_eq!(second.graph.edge_count(), cold.graph.edge_count());

    // A changed file is read again, and a vanished one is dropped.
    sources.remove(0);
    sources[0] = SourceFile::new("src/b.rs", "pub fn b() { c(); } fn c() {}");
    let third = engine
        .prepare_cached(&sources, &mut cache, &mut events)
        .unwrap();
    assert_eq!(third.graph.node_count(), 2);
    assert!(cache.is_dirty());
    assert_eq!(cache.entries().len(), 1);
    assert_eq!(cache.entries()[0].hash, hash_text(&sources[0].text));
}

#[test]
fn a_front_end_that_is_not_incremental_reads_the_batch() {
    let engine = Engine::for_language(Config::default(), Lang::Go);
    assert_eq!(engine.extensions(), vec!["go"]);
    let sources = vec![SourceFile::new(
        "sample/run.go",
        "package sample\n\nfunc helper() {}\n\nfunc run() {\n\thelper()\n}\n",
    )];
    let mut cache = FragmentCache::new(engine.adapter_name());
    let report = engine
        .prepare_cached(&sources, &mut cache, &mut Vec::new())
        .unwrap();
    assert!(report.graph.node_by_qualified("sample::run").is_some());
    assert_eq!(report.graph.edge_count(), 1);
    assert!(cache.entries().is_empty());
    assert!(!cache.is_dirty());
}

#[test]
fn the_cache_finds_a_file_however_its_path_is_written() {
    let mut c = FragmentCache::new("rust");
    c.insert("src//a.rs".to_string(), 1, FileFragment::new("src//a.rs"));
    assert!(c.get("src/a.rs", 1).is_some());
    c.insert("src/./a.rs".to_string(), 2, FileFragment::new("src/./a.rs"));
    assert!(c.get("src/a.rs", 1).is_none());
    assert!(c.get("src/a.rs", 2).is_some());
    assert_eq!(c.entries().len(), 1);
    c.retain(&vec!["src/a.rs/".to_string()]);
    assert_eq!(c.entries().len(), 1);
    c.retain(&vec!["a.rs".to_string()]);
    assert!(c.entries().is_empty());
}
