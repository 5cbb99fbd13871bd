//! The filesystem as the search sees it.

use vstd::prelude::*;

verus! {

/// Access to a directory tree. Its spec functions describe the tree, which
/// stays the same while a search runs; an impl states them by overriding
/// them, and one that does not leaves them unspecified.
pub trait FsController {
    /// The paths listed in directory `dir`, or `None` where it cannot be
    /// listed.
    closed spec fn listing(&self, dir: Seq<char>) -> Option<Seq<Seq<char>>> {
        arbitrary()
    }

    /// `path` names a directory.
    closed spec fn dir_at(&self, path: Seq<char>) -> bool {
        arbitrary()
    }

    /// `path` names a regular file.
    closed spec fn file_at(&self, path: Seq<char>) -> bool {
        arbitrary()
    }

    /// The text held by the file at `path`, or `None` where it cannot be read.
    closed spec fn contents(&self, path: Seq<char>) -> Option<Seq<char>> {
        arbitrary()
    }

    /// The absolute form of `path`, or the empty path where it cannot be
    /// resolved.
    closed spec fn canonical(&self, path: Seq<char>) -> Seq<char> {
        arbitrary()
    }

    fn get_list_dir(&self, path: &str) -> (r: Result<Vec<String>, String>)
        ensures
            match r {
                Ok(v) => self.listing(path@) == Some(v@.map_values(|s: String| s@)),
                Err(_) => self.listing(path@) is None,
            },
    ;

    fn is_file(&self, path: &str) -> (r: bool)
        ensures
            r == self.file_at(path@),
    ;

    fn is_dir(&self, path: &str) -> (r: bool)
        ensures
            r == self.dir_at(path@),
    ;

    fn read_to_string(&self, path: &str) -> (r: Result<String, String>)
        ensures
            match r {
                Ok(s) => self.contents(path@) == Some(s@),
                Err(_) => self.contents(path@) is None,
            },
    ;

    fn canonicalize(&self, path: &str) -> (r: String)
        ensures
            r@ == self.canonical(path@),
    ;
}

} // verus!
