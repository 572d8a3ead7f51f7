//! Industry verticals, to which advice adapts.

use vstd::prelude::*;

verus! {

#[derive(Debug, Clone, Copy, PartialEq, Eq, Structural)]
pub enum Vertical {
    /// Embedded: absolute control of hardware resources.
    Embedded,
    /// Game engines: real time, data oriented.
    GameEngine,
    /// Backend and microservices.
    Backend,
    /// Full stack and user interfaces.
    FullStack,
    /// Not enough signal to decide.
    Unknown,
}

impl Vertical {
    pub open spec fn text(self) -> Seq<char> {
        match self {
            Vertical::Embedded => "embedded"@,
            Vertical::GameEngine => "game-engine"@,
            Vertical::Backend => "backend"@,
            Vertical::FullStack => "full-stack"@,
            Vertical::Unknown => "unknown"@,
        }
    }

    pub fn as_str(self) -> (r: &'static str)
        ensures
            r@ == self.text(),
    {
        match self {
            Vertical::Embedded => "embedded",
            Vertical::GameEngine => "game-engine",
            Vertical::Backend => "backend",
            Vertical::FullStack => "full-stack",
            Vertical::Unknown => "unknown",
        }
    }
}

impl Default for Vertical {
    fn default() -> (r: Self)
        ensures
            r == Vertical::Unknown,
    {
        Vertical::Unknown
    }
}

} // verus!
