//! Stable, compact identifiers used throughout the library.
//!
//! A [`NodeId`] is the position of a node inside a [`crate::graph::CodeGraph`];
//! a [`FileId`] is a position in the graph's table of files.

use crate::text::{decimal, decimal_text};
use vstd::prelude::*;

verus! {

/// Position of a node (callable symbol) inside a graph.
#[derive(Debug, Clone, Copy, PartialEq, Eq, Structural, Hash, PartialOrd, Ord)]
pub struct NodeId(pub u32);

/// Position of a source file in a graph's file table.
#[derive(Debug, Clone, Copy, PartialEq, Eq, Structural, Hash, PartialOrd, Ord)]
pub struct FileId(pub u32);

impl NodeId {
    pub fn index(self) -> (r: usize)
        ensures
            r == self.0,
    {
        self.0 as usize
    }

    /// The name of the node in exported documents: `n` and its number.
    pub fn label(self) -> (r: String)
        ensures
            r@ == node_label(self),
    {
        let mut out = String::new();
        out.push('n');
        out.append(decimal_text(self.0 as u64).as_str());
        assert(out@ =~= node_label(self));
        out
    }
}

/// `n` and the node's number.
pub open spec fn node_label(id: NodeId) -> Seq<char> {
    seq!['n'] + decimal(id.0 as nat)
}

impl FileId {
    pub fn index(self) -> (r: usize)
        ensures
            r == self.0,
    {
        self.0 as usize
    }
}

} // verus!
