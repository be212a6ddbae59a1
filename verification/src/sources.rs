//! Source files: a path and a text each.

use vstd::prelude::*;

verus! {

/// A source file in memory.
#[derive(Debug)]
pub struct SourceFile {
    pub path: String,
    pub content: String,
}

/// What a [`SourceFile`] says.
pub ghost struct FileModel {
    pub path: Seq<char>,
    pub content: Seq<char>,
}

impl DeepView for SourceFile {
    type V = FileModel;

    open spec fn deep_view(&self) -> FileModel {
        FileModel { path: self.path@, content: self.content@ }
    }
}

impl Clone for SourceFile {
    fn clone(&self) -> (r: Self)
        ensures
            r.deep_view() == self.deep_view(),
    {
        SourceFile { path: self.path.clone(), content: self.content.clone() }
    }
}

} // verus!
