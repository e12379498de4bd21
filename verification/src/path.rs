//! File paths as sequences of segments, and the rules that derive one path
//! from another.

use vstd::prelude::*;
use crate::text::{
    copy_texts, join, joined, lemma_push_view, plain_spelling, stem, strip_escape,
    strip_extension,
};

verus! {

/// A hierarchical file path, one text per segment.
pub struct FilePath {
    pub segments: Vec<String>,
}

impl View for FilePath {
    type V = Seq<Seq<char>>;

    open spec fn view(&self) -> Seq<Seq<char>> {
        self.segments.deep_view()
    }
}

/// The path with every escaped segment rewritten to its plain spelling.
pub open spec fn normalized(path: Seq<Seq<char>>) -> Seq<Seq<char>> {
    Seq::new(path.len(), |i: int| plain_spelling(path[i]))
}

/// Whether a base name marks a file as the root of its directory's namespace.
pub open spec fn is_root_name(base: Seq<char>) -> bool {
    base == "mod"@ || base == "lib"@ || base == "main"@
}

/// The directory in which the modules that a file declares are looked up: the
/// file's parent directory where its base name is a root name, else the file's
/// own path without the extension.
pub open spec fn search_directory_of(file: Seq<Seq<char>>) -> Seq<Seq<char>> {
    if file.len() == 0 {
        file
    } else if is_root_name(stem(file.last())) {
        file.drop_last()
    } else {
        file.drop_last().push(stem(file.last()))
    }
}

/// The file of module `name` below `directory`, as a single file.
pub open spec fn module_file_of(directory: Seq<Seq<char>>, name: Seq<char>) -> Seq<Seq<char>> {
    directory.push(name + ".rs"@)
}

/// The file of module `name` below `directory`, as a directory of its own.
pub open spec fn module_directory_file_of(directory: Seq<Seq<char>>, name: Seq<char>) -> Seq<
    Seq<char>,
> {
    directory.push(name).push("mod.rs"@)
}

/// The text of a path: its segments with `/` between them.
pub open spec fn path_text(path: Seq<Seq<char>>) -> Seq<char> {
    joined(path, "/"@)
}

/// The key under which a file is cached: the text of its normalized path.
pub open spec fn cache_key(file: Seq<Seq<char>>) -> Seq<char> {
    path_text(normalized(file))
}

/// One key for one file. Two paths whose segments have the same plain
/// spelling, one by one, have the same cache key, however they are escaped.
pub proof fn lemma_one_key_per_file(first: Seq<Seq<char>>, second: Seq<Seq<char>>)
    requires
        first.len() == second.len(),
        forall|i: int|
            0 <= i < first.len() ==> plain_spelling(#[trigger] first[i]) == plain_spelling(
                second[i],
            ),
    ensures
        cache_key(first) == cache_key(second),
{
    assert(normalized(first) =~= normalized(second));
}

impl DeepView for FilePath {
    type V = Seq<Seq<char>>;

    open spec fn deep_view(&self) -> Seq<Seq<char>> {
        self.view()
    }
}

impl FilePath {
    /// The path made of the given segments.
    pub fn new(segments: Vec<String>) -> (path: FilePath)
        ensures
            path@ == segments.deep_view(),
    {
        FilePath { segments }
    }

    /// A copy of the path.
    pub fn copy(&self) -> (path: FilePath)
        ensures
            path@ == self@,
    {
        FilePath { segments: copy_texts(&self.segments) }
    }

    /// The path with every escaped segment rewritten to its plain spelling, so
    /// that one file has one path however it was referred to.
    pub fn normalize(&self) -> (path: FilePath)
        ensures
            path@ == normalized(self@),
    {
        let mut segments: Vec<String> = Vec::new();
        let mut index: usize = 0;
        while index < self.segments.len()
            invariant
                index <= self.segments.len(),
                segments.deep_view() == normalized(self@).take(index as int),
            decreases self.segments.len() - index,
        {
            let ghost before = segments;
            let plain = strip_escape(self.segments[index].as_str());
            segments.push(plain);
            proof {
                lemma_push_view(before, segments, plain);
                assert(segments.deep_view() =~= normalized(self@).take(index as int + 1));
            }
            index = index + 1;
        }
        assert(normalized(self@).take(index as int) =~= normalized(self@));
        FilePath { segments }
    }

    /// The directory in which the modules that this file declares are looked
    /// up.
    pub fn search_directory(&self) -> (directory: FilePath)
        ensures
            directory@ == search_directory_of(self@),
    {
        let count: usize = self.segments.len();
        if count == 0 {
            return self.copy();
        }
        let mut segments = copy_texts(&self.segments);
        assert(segments.deep_view().len() == self@.len());
        let last = segments.pop().unwrap();
        assert(segments.deep_view() =~= self@.drop_last());
        assert(last@ == self@.last());
        let base = strip_extension(last.as_str());
        if base == "mod".to_owned() || base == "lib".to_owned() || base == "main".to_owned() {
            FilePath { segments }
        } else {
            segments.push(base);
            assert(segments.deep_view() =~= self@.drop_last().push(stem(self@.last())));
            FilePath { segments }
        }
    }

    /// The path one segment below this one.
    pub fn child(&self, name: &str) -> (path: FilePath)
        ensures
            path@ == self@.push(name@),
    {
        let mut segments = copy_texts(&self.segments);
        segments.push(name.to_owned());
        assert(segments.deep_view() =~= self@.push(name@));
        FilePath { segments }
    }

    /// The file of module `name` below this directory, as a single file.
    pub fn module_file(&self, name: &str) -> (path: FilePath)
        ensures
            path@ == module_file_of(self@, name@),
    {
        let mut segments = copy_texts(&self.segments);
        segments.push(name.to_owned().concat(".rs"));
        assert(segments.deep_view() =~= module_file_of(self@, name@));
        FilePath { segments }
    }

    /// The file of module `name` below this directory, as a directory of its
    /// own.
    pub fn module_directory_file(&self, name: &str) -> (path: FilePath)
        ensures
            path@ == module_directory_file_of(self@, name@),
    {
        let mut segments = copy_texts(&self.segments);
        segments.push(name.to_owned());
        segments.push("mod.rs".to_owned());
        assert(segments.deep_view() =~= module_directory_file_of(self@, name@));
        FilePath { segments }
    }

    /// The text of the path, with `/` between its segments.
    pub fn to_text(&self) -> (text: String)
        ensures
            text@ == path_text(self@),
    {
        join(&self.segments, "/")
    }

    /// The key under which this file is cached.
    pub fn key(&self) -> (text: String)
        ensures
            text@ == cache_key(self@),
    {
        self.normalize().to_text()
    }
}

} // verus!
