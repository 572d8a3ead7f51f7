//! Quality measurements, attached to a node or to the project as a whole.

use crate::ids::NodeId;
use vstd::prelude::*;

verus! {

/// What is measured.
#[derive(Debug, Clone, Copy, PartialEq, Eq, Structural)]
pub enum MetricKind {
    /// Decision points and one, per function.
    CyclomaticComplexity,
    /// Number of callers.
    FanIn,
    /// Number of distinct callees.
    FanOut,
    LinesOfCode,
    MaxNesting,
    Parameters,
    /// From zero to one: the estimate that a function is pure.
    PurityScore,
    /// Heuristic heap-allocation count.
    HeapAllocations,
    UnsafeBlocks,
    /// Project wide: the fraction of functions in a dependency cycle.
    Cyclicity,
}

impl MetricKind {
    pub open spec fn text(self) -> Seq<char> {
        match self {
            MetricKind::CyclomaticComplexity => "cyclomatic_complexity"@,
            MetricKind::FanIn => "fan_in"@,
            MetricKind::FanOut => "fan_out"@,
            MetricKind::LinesOfCode => "lines_of_code"@,
            MetricKind::MaxNesting => "max_nesting"@,
            MetricKind::Parameters => "parameters"@,
            MetricKind::PurityScore => "purity_score"@,
            MetricKind::HeapAllocations => "heap_allocations"@,
            MetricKind::UnsafeBlocks => "unsafe_blocks"@,
            MetricKind::Cyclicity => "cyclicity"@,
        }
    }

    pub fn as_str(self) -> (r: &'static str)
        ensures
            r@ == self.text(),
    {
        match self {
            MetricKind::CyclomaticComplexity => "cyclomatic_complexity",
            MetricKind::FanIn => "fan_in",
            MetricKind::FanOut => "fan_out",
            MetricKind::LinesOfCode => "lines_of_code",
            MetricKind::MaxNesting => "max_nesting",
            MetricKind::Parameters => "parameters",
            MetricKind::PurityScore => "purity_score",
            MetricKind::HeapAllocations => "heap_allocations",
            MetricKind::UnsafeBlocks => "unsafe_blocks",
            MetricKind::Cyclicity => "cyclicity",
        }
    }
}

/// An exact rational value: `num` over `den`.
#[derive(Debug, Clone, Copy, PartialEq, Eq, Structural)]
pub struct Quotient {
    pub num: i128,
    pub den: u64,
}

/// A setting in millionths: `1_500_000` stands for one and a half.
#[derive(Debug, Clone, Copy, PartialEq, Eq, Structural)]
pub struct Millionths(pub i64);

/// The millionths in a whole.
pub const WHOLE: i64 = 1_000_000;

/// The integer nearest to `num / den`; of two equally near ones, the even one.
pub open spec fn rounded(num: int, den: int) -> int {
    let q = num / den;
    let r = num % den;
    if 2 * r < den {
        q
    } else if 2 * r > den {
        q + 1
    } else if q % 2 == 0 {
        q
    } else {
        q + 1
    }
}

/// The integer nearest to `num / den`; of two equally near ones, the even one.
pub fn round(num: u128, den: u64) -> (r: u128)
    requires
        den > 0,
        num < u128::MAX,
    ensures
        r == rounded(num as int, den as int),
{
    let d: u128 = den as u128;
    let q: u128 = num / d;
    let rest: u128 = num % d;
    proof {
        assert(0 <= q <= num) by (nonlinear_arith)
            requires
                q == num / d,
                d > 0,
                num >= 0,
        ;
    }
    if 2 * rest < d {
        q
    } else if 2 * rest > d {
        q + 1
    } else if q % 2 == 0 {
        q
    } else {
        q + 1
    }
}

/// A measured value, of one node or of the project.
#[derive(Debug, Clone, Copy, PartialEq, Eq, Structural)]
pub struct Metric {
    pub kind: MetricKind,
    pub value: Quotient,
    /// `None` means that the metric is project wide.
    pub node: Option<NodeId>,
}

impl Metric {
    pub fn node(kind: MetricKind, node: NodeId, value: Quotient) -> (r: Self)
        ensures
            r == (Metric { kind, value, node: Some(node) }),
    {
        Metric { kind, value, node: Some(node) }
    }

    pub fn project(kind: MetricKind, value: Quotient) -> (r: Self)
        ensures
            r == (Metric { kind, value, node: None }),
    {
        Metric { kind, value, node: None }
    }
}

} // verus!
