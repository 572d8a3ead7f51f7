//! Architectural suggestions and the optimization targets they serve.

use crate::ids::NodeId;
use vstd::prelude::*;

verus! {

/// What a suggestion improves.
#[derive(Debug, Clone, Copy, PartialEq, Eq, Structural, Hash)]
pub enum Target {
    Scalability,
    Maintainability,
    Robustness,
    Latency,
    Performance,
}

impl Target {
    pub open spec fn text(self) -> Seq<char> {
        match self {
            Target::Scalability => "scalability"@,
            Target::Maintainability => "maintainability"@,
            Target::Robustness => "robustness"@,
            Target::Latency => "latency"@,
            Target::Performance => "performance"@,
        }
    }

    pub fn as_str(self) -> (r: &'static str)
        ensures
            r@ == self.text(),
    {
        match self {
            Target::Scalability => "scalability",
            Target::Maintainability => "maintainability",
            Target::Robustness => "robustness",
            Target::Latency => "latency",
            Target::Performance => "performance",
        }
    }
}

/// A recommendation.
#[derive(Debug)]
pub struct Suggestion {
    pub title: String,
    pub rationale: String,
    pub targets: Vec<Target>,
    /// From 0 (lowest) to 100 (highest).
    pub priority: u8,
    pub node: Option<NodeId>,
}

/// The mathematical content of a [`Suggestion`].
#[verifier::ext_equal]
pub struct SuggestionModel {
    pub title: Seq<char>,
    pub rationale: Seq<char>,
    pub targets: Seq<Target>,
    pub priority: u8,
    pub node: Option<NodeId>,
}

impl View for Suggestion {
    type V = SuggestionModel;

    open spec fn view(&self) -> SuggestionModel {
        SuggestionModel {
            title: self.title@,
            rationale: self.rationale@,
            targets: self.targets@,
            priority: self.priority,
            node: self.node,
        }
    }
}

impl Clone for Suggestion {
    fn clone(&self) -> (r: Self)
        ensures
            r@ == self@,
    {
        let mut targets: Vec<Target> = Vec::new();
        let mut i: usize = 0;
        while i < self.targets.len()
            invariant
                i <= self.targets@.len(),
                targets@ =~= self.targets@.take(i as int),
            decreases self.targets@.len() - i,
        {
            targets.push(self.targets[i]);
            i += 1;
        }
        Suggestion {
            title: self.title.clone(),
            rationale: self.rationale.clone(),
            targets,
            priority: self.priority,
            node: self.node,
        }
    }
}

impl Suggestion {
    pub fn new(title: &str, rationale: &str) -> (r: Self)
        ensures
            r@ == (SuggestionModel {
                title: title@,
                rationale: rationale@,
                targets: Seq::empty(),
                priority: 50,
                node: None,
            }),
    {
        Suggestion {
            title: title.to_owned(),
            rationale: rationale.to_owned(),
            targets: Vec::new(),
            priority: 50,
            node: None,
        }
    }

    pub fn with_targets(self, targets: Vec<Target>) -> (r: Self)
        ensures
            r@ == (SuggestionModel { targets: targets@, ..self@ }),
    {
        let mut out = self;
        out.targets = targets;
        out
    }

    pub fn with_priority(self, priority: u8) -> (r: Self)
        ensures
            r@ == (SuggestionModel { priority, ..self@ }),
    {
        let mut out = self;
        out.priority = priority;
        out
    }

    pub fn at(self, node: NodeId) -> (r: Self)
        ensures
            r@ == (SuggestionModel { node: Some(node), ..self@ }),
    {
        let mut out = self;
        out.node = Some(node);
        out
    }
}

} // verus!
