//! Findings of the engineering lenses.

use crate::ids::NodeId;
use vstd::prelude::*;

verus! {

/// How serious a finding is, from least to most.
#[derive(Debug, Clone, Copy, PartialEq, Eq, Structural, PartialOrd, Ord)]
pub enum Severity {
    Info,
    Low,
    Medium,
    High,
}

impl Severity {
    /// The place of the severity in the order from least to most.
    pub open spec fn spec_rank(self) -> int {
        match self {
            Severity::Info => 0,
            Severity::Low => 1,
            Severity::Medium => 2,
            Severity::High => 3,
        }
    }

    pub open spec fn text(self) -> Seq<char> {
        match self {
            Severity::Info => "info"@,
            Severity::Low => "low"@,
            Severity::Medium => "medium"@,
            Severity::High => "high"@,
        }
    }

    /// The place of the severity in the order from least to most.
    pub fn rank(self) -> (r: u64)
        ensures
            r == self.spec_rank(),
    {
        match self {
            Severity::Info => 0,
            Severity::Low => 1,
            Severity::Medium => 2,
            Severity::High => 3,
        }
    }

    pub fn as_str(self) -> (r: &'static str)
        ensures
            r@ == self.text(),
    {
        match self {
            Severity::Info => "info",
            Severity::Low => "low",
            Severity::Medium => "medium",
            Severity::High => "high",
        }
    }
}

/// A single finding.
#[derive(Debug)]
pub struct Diagnostic {
    /// Stable machine code, e.g. `high_complexity`.
    pub code: String,
    /// Which lens produced it, e.g. `complexity`.
    pub lens: String,
    pub severity: Severity,
    pub message: String,
    /// The node the finding is attached to, if any.
    pub node: Option<NodeId>,
}

/// The mathematical content of a [`Diagnostic`].
#[verifier::ext_equal]
pub struct DiagnosticModel {
    pub code: Seq<char>,
    pub lens: Seq<char>,
    pub severity: Severity,
    pub message: Seq<char>,
    pub node: Option<NodeId>,
}

impl View for Diagnostic {
    type V = DiagnosticModel;

    open spec fn view(&self) -> DiagnosticModel {
        DiagnosticModel {
            code: self.code@,
            lens: self.lens@,
            severity: self.severity,
            message: self.message@,
            node: self.node,
        }
    }
}

impl Clone for Diagnostic {
    fn clone(&self) -> (r: Self)
        ensures
            r == *self,
    {
        Diagnostic {
            code: self.code.clone(),
            lens: self.lens.clone(),
            severity: self.severity,
            message: self.message.clone(),
            node: self.node,
        }
    }
}

impl Diagnostic {
    pub fn new(lens: &str, code: &str, severity: Severity, message: &str) -> (r: Self)
        ensures
            r@ == (DiagnosticModel {
                code: code@,
                lens: lens@,
                severity,
                message: message@,
                node: None,
            }),
    {
        Diagnostic {
            code: code.to_owned(),
            lens: lens.to_owned(),
            severity,
            message: message.to_owned(),
            node: None,
        }
    }

    /// The same finding, attached to a node.
    pub fn at(self, node: NodeId) -> (r: Self)
        ensures
            r@ == (DiagnosticModel { node: Some(node), ..self@ }),
    {
        Diagnostic {
            code: self.code,
            lens: self.lens,
            severity: self.severity,
            message: self.message,
            node: Some(node),
        }
    }
}

} // verus!
