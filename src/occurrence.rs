//! Found entries and the state that the search stages share.

use vstd::prelude::*;

verus! {

/// The kind of a found entry.
#[derive(Clone, Copy, Debug, PartialEq, Eq)]
pub enum Kind {
    File,
    Dir,
    TextFile,
}

pub struct OccurenceData {
    pub path: String,
}

/// One found entry, tagged by its kind.
pub enum Occurence {
    File(OccurenceData),
    Dir(OccurenceData),
    TextFile(OccurenceData),
}

impl View for Occurence {
    type V = (Kind, Seq<char>);

    open spec fn view(&self) -> (Kind, Seq<char>) {
        match self {
            Occurence::File(d) => (Kind::File, d.path@),
            Occurence::Dir(d) => (Kind::Dir, d.path@),
            Occurence::TextFile(d) => (Kind::TextFile, d.path@),
        }
    }
}

/// The kinds and paths of a list of found entries.
pub open spec fn views(s: Seq<Occurence>) -> Seq<(Kind, Seq<char>)> {
    s.map_values(|o: Occurence| o@)
}

/// The path of a found entry, whatever its kind.
pub fn get_occurence_path(occ: &Occurence) -> (r: &String)
    ensures
        r@ == occ@.1,
{
    match occ {
        Occurence::File(data) => &data.path,
        Occurence::Dir(data) => &data.path,
        Occurence::TextFile(data) => &data.path,
    }
}

impl Occurence {
    /// A found entry of the given kind at `path`.
    pub fn with_kind(kind: Kind, path: String) -> (r: Occurence)
        ensures
            r@ == (kind, path@),
    {
        match kind {
            Kind::File => Occurence::File(OccurenceData { path }),
            Kind::Dir => Occurence::Dir(OccurenceData { path }),
            Kind::TextFile => Occurence::TextFile(OccurenceData { path }),
        }
    }
}

/// What the search stages share: the name searched for and the entries
/// found so far.
pub struct Context {
    pub name: String,
    pub files: Vec<Occurence>,
}

} // verus!
