//! A source file handed to a language adapter.

use vstd::prelude::*;

verus! {

/// A source file in memory: its path and its full text.
#[derive(Debug)]
pub struct SourceFile {
    pub path: String,
    pub text: String,
}

/// The mathematical content of a [`SourceFile`].
pub struct SourceModel {
    pub path: Seq<char>,
    pub text: Seq<char>,
}

impl View for SourceFile {
    type V = SourceModel;

    open spec fn view(&self) -> SourceModel {
        SourceModel { path: self.path@, text: self.text@ }
    }
}

impl Clone for SourceFile {
    fn clone(&self) -> (r: Self)
        ensures
            r == *self,
    {
        SourceFile { path: self.path.clone(), text: self.text.clone() }
    }
}

impl SourceFile {
    pub fn new(path: &str, text: &str) -> (r: Self)
        ensures
            r@ == (SourceModel { path: path@, text: text@ }),
    {
        SourceFile { path: path.to_owned(), text: text.to_owned() }
    }

    pub fn path(&self) -> (r: &str)
        ensures
            r@ == self@.path,
    {
        self.path.as_str()
    }
}

} // verus!
