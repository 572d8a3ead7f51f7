//! One file's share of the call graph before calls are linked to definitions.
//!
//! A fragment is a function of the file's path and text alone, so it can be kept
//! as long as the text does not change. Linking the calls across files is a
//! second pass over all fragments.

use crate::graph::{Node, NodeModel, SourceSpan};
use crate::seqs::views_of;
use vstd::prelude::*;

verus! {

/// How a call site is written.
#[derive(Debug, Clone, Copy, PartialEq, Eq, Structural)]
pub enum CallKind {
    /// `foo()`.
    Direct,
    /// `x.foo()`.
    Method,
    /// `Type::foo()`.
    Associated,
    /// `foo!(...)`.
    Macro,
}

/// A call site whose target is not yet known.
#[derive(Debug)]
pub struct RawCall {
    /// Qualified name of the enclosing definition.
    pub caller: String,
    pub kind: CallKind,
    /// The callee as written, e.g. `Type::foo`.
    pub path: String,
    /// The last path segment.
    pub short: String,
    /// Where the call stands. The file is that of the fragment.
    pub call_site: SourceSpan,
}

/// The mathematical content of a [`RawCall`].
#[verifier::ext_equal]
pub struct CallModel {
    pub caller: Seq<char>,
    pub kind: CallKind,
    pub path: Seq<char>,
    pub short: Seq<char>,
    pub call_site: SourceSpan,
}

impl View for RawCall {
    type V = CallModel;

    open spec fn view(&self) -> CallModel {
        CallModel {
            caller: self.caller@,
            kind: self.kind,
            path: self.path@,
            short: self.short@,
            call_site: self.call_site,
        }
    }
}

impl Clone for RawCall {
    fn clone(&self) -> (r: Self)
        ensures
            r == *self,
    {
        RawCall {
            caller: self.caller.clone(),
            kind: self.kind,
            path: self.path.clone(),
            short: self.short.clone(),
            call_site: self.call_site,
        }
    }
}

/// The definitions and the call sites of one file.
#[derive(Debug)]
pub struct FileFragment {
    /// Path of the file.
    pub path: String,
    /// Functions and methods in source order; ids and files are not yet those of
    /// a graph.
    pub defs: Vec<Node>,
    /// Call sites in source order.
    pub calls: Vec<RawCall>,
}

/// The mathematical content of a [`FileFragment`].
#[verifier::ext_equal]
pub struct FragmentModel {
    pub path: Seq<char>,
    pub defs: Seq<NodeModel>,
    pub calls: Seq<CallModel>,
}

impl View for FileFragment {
    type V = FragmentModel;

    open spec fn view(&self) -> FragmentModel {
        FragmentModel {
            path: self.path@,
            defs: views_of(self.defs@),
            calls: views_of(self.calls@),
        }
    }
}

impl FileFragment {
    /// The fragment of `path` without definitions and calls.
    pub fn new(path: &str) -> (r: Self)
        ensures
            r@ == (FragmentModel { path: path@, defs: Seq::empty(), calls: Seq::empty() }),
    {
        let r = FileFragment { path: path.to_owned(), defs: Vec::new(), calls: Vec::new() };
        assert(r@ =~= (FragmentModel { path: path@, defs: Seq::empty(), calls: Seq::empty() }));
        r
    }
}

impl Clone for FileFragment {
    fn clone(&self) -> (r: Self)
        ensures
            r@ == self@,
    {
        let mut defs: Vec<Node> = Vec::new();
        let mut i: usize = 0;
        while i < self.defs.len()
            invariant
                i <= self.defs@.len(),
                defs@ =~= self.defs@.take(i as int),
            decreases self.defs@.len() - i,
        {
            defs.push(self.defs[i].clone());
            i += 1;
        }
        let mut calls: Vec<RawCall> = Vec::new();
        let mut j: usize = 0;
        while j < self.calls.len()
            invariant
                j <= self.calls@.len(),
                calls@ =~= self.calls@.take(j as int),
            decreases self.calls@.len() - j,
        {
            calls.push(self.calls[j].clone());
            j += 1;
        }
        let r = FileFragment { path: self.path.clone(), defs, calls };
        assert(r@ =~= self@);
        r
    }
}

} // verus!
