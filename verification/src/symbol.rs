//! Symbolic paths: the names by which modules and functions are referred to.

use vstd::prelude::*;
use crate::text::{copy_texts, join, joined};

verus! {

/// A symbolic path, one identifier per segment.
pub struct SymbolPath {
    pub segments: Vec<String>,
}

impl View for SymbolPath {
    type V = Seq<Seq<char>>;

    open spec fn view(&self) -> Seq<Seq<char>> {
        self.segments.deep_view()
    }
}

impl DeepView for SymbolPath {
    type V = Seq<Seq<char>>;

    open spec fn deep_view(&self) -> Seq<Seq<char>> {
        self.view()
    }
}

/// The text of a symbolic path: its segments with `::` between them.
pub open spec fn symbol_text(path: Seq<Seq<char>>) -> Seq<char> {
    joined(path, "::"@)
}

impl SymbolPath {
    /// The path made of the given segments.
    pub fn new(segments: Vec<String>) -> (path: SymbolPath)
        ensures
            path@ == segments.deep_view(),
    {
        SymbolPath { segments }
    }

    /// A copy of the path.
    pub fn copy(&self) -> (path: SymbolPath)
        ensures
            path@ == self@,
    {
        SymbolPath { segments: copy_texts(&self.segments) }
    }

    /// The path of `name` inside the module that this path names.
    pub fn child(&self, name: &str) -> (path: SymbolPath)
        ensures
            path@ == self@.push(name@),
    {
        let mut segments = copy_texts(&self.segments);
        segments.push(name.to_owned());
        assert(segments.deep_view() =~= self@.push(name@));
        SymbolPath { segments }
    }

    /// Whether the path has no segment.
    pub fn is_empty(&self) -> (empty: bool)
        ensures
            empty == (self@.len() == 0),
    {
        self.segments.len() == 0
    }

    /// The text of the path, with `::` between its segments.
    pub fn to_text(&self) -> (text: String)
        ensures
            text@ == symbol_text(self@),
    {
        join(&self.segments, "::")
    }
}

} // verus!
