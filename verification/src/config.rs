//! Configuration: which lenses run, which thresholds apply, how sources are parsed.
//!
//! Fractional settings are given in millionths (see [`Millionths`]).

use crate::metric::{Millionths, WHOLE};
use crate::path::{join_path, lemma_parent_shorter, parent_dir, parent_of, under};
use crate::suggestion::Target;
use crate::text::{concat2, same, views};
use crate::vertical::Vertical;
use vstd::prelude::*;

verus! {

/// What can be wrong with a configuration.
#[derive(Debug)]
pub enum ConfigError {
    /// The file could not be read.
    Io { path: String, source: String },
    /// The file is no valid document.
    Toml { path: String, source: String },
    /// A setting is out of its range.
    Invalid(String),
}

impl ConfigError {
    /// What the error says.
    pub open spec fn spec_text(self) -> Seq<char> {
        match self {
            ConfigError::Io { path, source } => "could not read config "@ + path@ + ": "@ + source@,
            ConfigError::Toml { path, source } => "invalid TOML in "@ + path@ + ": "@ + source@,
            ConfigError::Invalid(m) => "invalid config: "@ + m@,
        }
    }

    /// What the error says.
    pub fn text(&self) -> (r: String)
        ensures
            r@ == self.spec_text(),
    {
        match self {
            ConfigError::Io { path, source } => {
                let mut out = concat2("could not read config ", path.as_str());
                out.append(": ");
                out.append(source.as_str());
                out
            },
            ConfigError::Toml { path, source } => {
                let mut out = concat2("invalid TOML in ", path.as_str());
                out.append(": ");
                out.append(source.as_str());
                out
            },
            ConfigError::Invalid(m) => concat2("invalid config: ", m.as_str()),
        }
    }
}

/// The whole configuration.
#[derive(Debug)]
pub struct Config {
    pub project: ProjectConfig,
    pub adapter: AdapterConfig,
    pub lenses: LensesConfig,
    pub metrics: MetricsConfig,
    pub suggestions: SuggestionsConfig,
    pub telemetry: TelemetryConfig,
}

/// Identity and the industry vertical.
#[derive(Debug)]
pub struct ProjectConfig {
    pub name: Option<String>,
    /// `Auto` detects the vertical from the code.
    pub vertical: VerticalChoice,
}

impl Default for ProjectConfig {
    fn default() -> (r: Self)
        ensures
            r.name is None,
            r.vertical == VerticalChoice::Auto,
    {
        ProjectConfig { name: None, vertical: VerticalChoice::Auto }
    }
}

/// A declared vertical, or `Auto` to have it detected.
#[derive(Debug, Clone, Copy, PartialEq, Eq, Structural)]
pub enum VerticalChoice {
    Auto,
    Embedded,
    GameEngine,
    Backend,
    FullStack,
}

impl VerticalChoice {
    /// The declared vertical; `None` for `Auto`.
    pub fn fixed(self) -> (r: Option<Vertical>)
        ensures
            r == match self {
                VerticalChoice::Auto => None,
                VerticalChoice::Embedded => Some(Vertical::Embedded),
                VerticalChoice::GameEngine => Some(Vertical::GameEngine),
                VerticalChoice::Backend => Some(Vertical::Backend),
                VerticalChoice::FullStack => Some(Vertical::FullStack),
            },
    {
        match self {
            VerticalChoice::Auto => None,
            VerticalChoice::Embedded => Some(Vertical::Embedded),
            VerticalChoice::GameEngine => Some(Vertical::GameEngine),
            VerticalChoice::Backend => Some(Vertical::Backend),
            VerticalChoice::FullStack => Some(Vertical::FullStack),
        }
    }
}

/// How sources are parsed.
#[derive(Debug, Clone, Copy, PartialEq, Eq, Structural)]
pub enum AdapterMode {
    /// Syntax trees and resolution by name.
    Fast,
    /// A semantic backend, where one is present.
    Semantic,
}

/// Parsing controls.
#[derive(Debug)]
pub struct AdapterConfig {
    pub mode: AdapterMode,
    /// Further patterns of paths to leave out.
    pub exclude: Vec<String>,
    pub follow_symlinks: bool,
}

impl Default for AdapterConfig {
    fn default() -> (r: Self)
        ensures
            r.mode == AdapterMode::Fast,
            r.exclude@.len() == 0,
            !r.follow_symlinks,
    {
        AdapterConfig { mode: AdapterMode::Fast, exclude: Vec::new(), follow_symlinks: false }
    }
}

/// Which lenses run.
#[derive(Debug)]
pub struct LensesConfig {
    pub complexity: bool,
    pub purity: bool,
    pub hazards: bool,
    pub layering: bool,
    pub paradigm: bool,
    /// Architecture styles to check: any of `clean`, `onion`, `mvc`.
    pub architecture: Vec<String>,
}

impl Default for LensesConfig {
    fn default() -> (r: Self)
        ensures
            r.complexity && r.purity && r.hazards && r.layering && r.paradigm,
            views(r.architecture@) == seq!["clean"@],
    {
        let mut architecture: Vec<String> = Vec::new();
        architecture.push("clean".to_owned());
        assert(views(architecture@) =~= seq!["clean"@]);
        LensesConfig {
            complexity: true,
            purity: true,
            hazards: true,
            layering: true,
            paradigm: true,
            architecture,
        }
    }
}

/// Quality thresholds.
#[derive(Debug, Clone, Copy, PartialEq, Eq, Structural)]
pub struct MetricsConfig {
    /// Cyclomatic complexity above which a function is reported.
    pub cyclomatic_max: u32,
    pub max_parameters: u32,
    pub max_nesting: u32,
    pub max_function_loc: u32,
    /// Informational target for test coverage, from zero to one.
    pub coverage_min: Millionths,
    /// Multiplier of the heap-allocation heuristic.
    pub heap_sensitivity: Millionths,
}

impl Default for MetricsConfig {
    fn default() -> (r: Self)
        ensures
            r == (MetricsConfig {
                cyclomatic_max: 10,
                max_parameters: 5,
                max_nesting: 4,
                max_function_loc: 60,
                coverage_min: Millionths(700_000),
                heap_sensitivity: Millionths(WHOLE),
            }),
    {
        MetricsConfig {
            cyclomatic_max: 10,
            max_parameters: 5,
            max_nesting: 4,
            max_function_loc: 60,
            coverage_min: Millionths(700_000),
            heap_sensitivity: Millionths(WHOLE),
        }
    }
}

/// The weight of each optimization target, and how many suggestions to make.
#[derive(Debug, Clone, Copy, PartialEq, Eq, Structural)]
pub struct SuggestionsConfig {
    pub scalability: Millionths,
    pub maintainability: Millionths,
    pub robustness: Millionths,
    pub latency: Millionths,
    pub performance: Millionths,
    pub max_suggestions: usize,
}

impl Default for SuggestionsConfig {
    fn default() -> (r: Self)
        ensures
            r == (SuggestionsConfig {
                scalability: Millionths(WHOLE),
                maintainability: Millionths(WHOLE),
                robustness: Millionths(WHOLE),
                latency: Millionths(WHOLE),
                performance: Millionths(WHOLE),
                max_suggestions: 50,
            }),
    {
        SuggestionsConfig {
            scalability: Millionths(WHOLE),
            maintainability: Millionths(WHOLE),
            robustness: Millionths(WHOLE),
            latency: Millionths(WHOLE),
            performance: Millionths(WHOLE),
            max_suggestions: 50,
        }
    }
}

impl SuggestionsConfig {
    pub open spec fn spec_weight(self, target: Target) -> Millionths {
        match target {
            Target::Scalability => self.scalability,
            Target::Maintainability => self.maintainability,
            Target::Robustness => self.robustness,
            Target::Latency => self.latency,
            Target::Performance => self.performance,
        }
    }

    /// The weight of a target.
    pub fn weight(&self, target: Target) -> (r: Millionths)
        ensures
            r == self.spec_weight(target),
    {
        match target {
            Target::Scalability => self.scalability,
            Target::Maintainability => self.maintainability,
            Target::Robustness => self.robustness,
            Target::Latency => self.latency,
            Target::Performance => self.performance,
        }
    }
}

/// Observability controls.
#[derive(Debug)]
pub struct TelemetryConfig {
    pub level: String,
    /// No network exporter is ever enabled.
    pub no_network: bool,
}

impl Default for TelemetryConfig {
    fn default() -> (r: Self)
        ensures
            r.level@ == "info"@,
            r.no_network,
    {
        TelemetryConfig { level: "info".to_owned(), no_network: true }
    }
}

impl Default for Config {
    fn default() -> (r: Self)
        ensures
            r.project.name is None,
            r.project.vertical == VerticalChoice::Auto,
            r.adapter.mode == AdapterMode::Fast,
            r.adapter.exclude@.len() == 0,
            !r.adapter.follow_symlinks,
            r.lenses.complexity && r.lenses.purity && r.lenses.hazards && r.lenses.layering
                && r.lenses.paradigm,
            views(r.lenses.architecture@) == seq!["clean"@],
            r.metrics == (MetricsConfig {
                cyclomatic_max: 10,
                max_parameters: 5,
                max_nesting: 4,
                max_function_loc: 60,
                coverage_min: Millionths(700_000),
                heap_sensitivity: Millionths(WHOLE),
            }),
            r.suggestions == (SuggestionsConfig {
                scalability: Millionths(WHOLE),
                maintainability: Millionths(WHOLE),
                robustness: Millionths(WHOLE),
                latency: Millionths(WHOLE),
                performance: Millionths(WHOLE),
                max_suggestions: 50,
            }),
            r.telemetry.level@ == "info"@,
            r.telemetry.no_network,
            r.problem() is None,
    {
        let r = Config {
            project: ProjectConfig::default(),
            adapter: AdapterConfig::default(),
            lenses: LensesConfig::default(),
            metrics: MetricsConfig::default(),
            suggestions: SuggestionsConfig::default(),
            telemetry: TelemetryConfig::default(),
        };
        assert(r.problem() is None) by {
            reveal_with_fuel(unknown_from, 2);
            assert(views(r.lenses.architecture@)[0] == "clean"@);
        }
        r
    }
}

// -- validity -----------------------------------------------------------------------

/// An architecture style that can be checked.
pub open spec fn known_style(s: Seq<char>) -> bool {
    s == "clean"@ || s == "onion"@ || s == "mvc"@
}

/// The first style from `i` on that cannot be checked.
pub open spec fn unknown_from(styles: Seq<Seq<char>>, i: int) -> Option<Seq<char>>
    decreases styles.len() - i,
{
    if i < 0 || i >= styles.len() {
        None
    } else if !known_style(styles[i]) {
        Some(styles[i])
    } else {
        unknown_from(styles, i + 1)
    }
}

/// What is wrong with the weight of a target, if anything.
pub open spec fn weight_problem(s: SuggestionsConfig) -> Option<Seq<char>> {
    let message = |t: Target| Some("suggestions."@ + t.text() + " weight must be >= 0"@);
    if s.scalability.0 < 0 {
        message(Target::Scalability)
    } else if s.maintainability.0 < 0 {
        message(Target::Maintainability)
    } else if s.robustness.0 < 0 {
        message(Target::Robustness)
    } else if s.latency.0 < 0 {
        message(Target::Latency)
    } else if s.performance.0 < 0 {
        message(Target::Performance)
    } else {
        None
    }
}

impl Config {
    /// The first thing that is wrong with the configuration, if anything: the
    /// coverage target, the heap sensitivity, the architecture styles, the weights.
    pub open spec fn problem(self) -> Option<Seq<char>> {
        if !(0 <= self.metrics.coverage_min.0 <= WHOLE) {
            Some("metrics.coverage_min must be within 0.0..=1.0"@)
        } else if self.metrics.heap_sensitivity.0 < 0 {
            Some("metrics.heap_sensitivity must be >= 0"@)
        } else {
            match unknown_from(views(self.lenses.architecture@), 0) {
                Some(a) => Some(
                    "unknown architecture style '"@ + a + "' (expected clean|onion|mvc)"@,
                ),
                None => weight_problem(self.suggestions),
            }
        }
    }

    /// Check what the document's shape alone cannot express.
    pub fn validate(&self) -> (r: Result<(), ConfigError>)
        ensures
            match r {
                Ok(_) => self.problem() is None,
                Err(ConfigError::Invalid(m)) => self.problem() == Some(m@),
                Err(_) => false,
            },
    {
        let m = &self.metrics;
        if m.coverage_min.0 < 0 || m.coverage_min.0 > WHOLE {
            return Err(
                ConfigError::Invalid("metrics.coverage_min must be within 0.0..=1.0".to_owned()),
            );
        }
        if m.heap_sensitivity.0 < 0 {
            return Err(ConfigError::Invalid("metrics.heap_sensitivity must be >= 0".to_owned()));
        }
        let ghost styles = views(self.lenses.architecture@);
        let mut i: usize = 0;
        while i < self.lenses.architecture.len()
            invariant
                i <= self.lenses.architecture@.len(),
                styles == views(self.lenses.architecture@),
                0 <= self.metrics.coverage_min.0 <= WHOLE,
                self.metrics.heap_sensitivity.0 >= 0,
                unknown_from(styles, 0) == unknown_from(styles, i as int),
            decreases self.lenses.architecture@.len() - i,
        {
            let a = self.lenses.architecture[i].as_str();
            assert(styles[i as int] == a@);
            if !same(a, "clean") && !same(a, "onion") && !same(a, "mvc") {
                let mut t = concat2("unknown architecture style '", a);
                t.append("' (expected clean|onion|mvc)");
                return Err(ConfigError::Invalid(t));
            }
            i += 1;
        }
        let s = &self.suggestions;
        let bad = if s.scalability.0 < 0 {
            Some(Target::Scalability)
        } else if s.maintainability.0 < 0 {
            Some(Target::Maintainability)
        } else if s.robustness.0 < 0 {
            Some(Target::Robustness)
        } else if s.latency.0 < 0 {
            Some(Target::Latency)
        } else if s.performance.0 < 0 {
            Some(Target::Performance)
        } else {
            None
        };
        match bad {
            Some(t) => {
                let mut text = concat2("suggestions.", t.as_str());
                text.append(" weight must be >= 0");
                Err(ConfigError::Invalid(text))
            },
            None => Ok(()),
        }
    }
}

// -- where it is found ------------------------------------------------------------------

/// The name of the configuration file.
pub open spec fn config_file_name() -> Seq<char> {
    "livewalk.toml"@
}

/// The places of a configuration file: in the directory, then in each one above.
pub open spec fn places(start: Seq<char>) -> Seq<Seq<char>>
    decreases start.len(),
{
    let here = seq![under(start, config_file_name())];
    match parent_dir(start) {
        Some(d) => if d.len() < start.len() {
            here + places(d)
        } else {
            here
        },
        None => here,
    }
}

/// The places where a configuration file is looked for, in order.
pub fn search_places(start: &str) -> (r: Vec<String>)
    ensures
        views(r@) == places(start@),
{
    let mut out: Vec<String> = Vec::new();
    let mut dir = start.to_owned();
    assert(views(out@) + places(dir@) =~= places(start@));
    loop
        invariant
            views(out@) + places(dir@) == places(start@),
        decreases dir@.len(),
    {
        let p = join_path(dir.as_str(), "livewalk.toml");
        let ghost had = views(out@);
        let ghost here = p@;
        out.push(p);
        assert(views(out@) =~= had.push(here));
        match parent_of(dir.as_str()) {
            Some(d) => {
                proof {
                    lemma_parent_shorter(dir@);
                    assert(had + places(dir@) =~= had.push(here) + places(d@));
                }
                dir = d;
            },
            None => {
                assert(had + places(dir@) =~= had.push(here));
                return out;
            },
        }
    }
}

/// The first place, from `i` on, where a file is present.
pub open spec fn first_present(all: Seq<Seq<char>>, present: Seq<bool>, i: int) -> Option<Seq<char>>
    decreases all.len() - i,
{
    if i < 0 || i >= all.len() || i >= present.len() {
        None
    } else if present[i] {
        Some(all[i])
    } else {
        first_present(all, present, i + 1)
    }
}

/// The configuration file for a directory: the first of the places where, as
/// `present` tells, a file is found.
pub fn find(start: &str, present: &Vec<bool>) -> (r: Option<String>)
    ensures
        match r {
            Some(p) => first_present(places(start@), present@, 0) == Some(p@),
            None => first_present(places(start@), present@, 0) is None,
        },
{
    let all = search_places(start);
    let ghost av = views(all@);
    let mut i: usize = 0;
    while i < all.len() && i < present.len()
        invariant
            i <= all@.len(),
            av == views(all@),
            av == places(start@),
            first_present(av, present@, 0) == first_present(av, present@, i as int),
        decreases all@.len() - i,
    {
        assert(av[i as int] == all@[i as int]@);
        if present[i] {
            return Some(all[i].clone());
        }
        i += 1;
    }
    None
}

/// Which configuration is used: the one that is named, else the first one found,
/// else the defaults (`None`).
pub fn choose_source(explicit: &Option<String>, start: &str, present: &Vec<bool>) -> (r: Option<String>)
    ensures
        match *explicit {
            Some(e) => r is Some && r->0@ == e@,
            None => match first_present(places(start@), present@, 0) {
                Some(p) => r is Some && r->0@ == p,
                None => r is None,
            },
        },
{
    match explicit {
        Some(e) => Some(e.clone()),
        None => find(start, present),
    }
}

} // verus!
