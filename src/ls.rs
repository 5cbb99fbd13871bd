//! A one-level listing of the files in a directory.

use vstd::prelude::*;
use crate::fs::FsController;
use crate::text::{chars_of, file_name, file_name_start};

verus! {

/// Relies on `String::push`: appends one character.
#[verifier::external_body]
fn push_char(s: &mut String, c: char)
    ensures
        final(s)@ == old(s)@.push(c),
{
    s.push(c)
}

/// `path` read against `root`: unchanged where it is absolute, else joined
/// to `root` with one `/` between them.
pub open spec fn joined(root: Seq<char>, path: Seq<char>) -> Seq<char> {
    if path.len() > 0 && path[0] == '/' {
        path
    } else if root.len() == 0 || root.last() == '/' {
        root + path
    } else {
        root.push('/') + path
    }
}

/// The paths among `entries` that name regular files.
pub open spec fn files_among<F: FsController>(fs: F, entries: Seq<Seq<char>>) -> Seq<Seq<char>> {
    entries.filter(|e: Seq<char>| fs.file_at(e))
}

/// The last component of each path.
pub open spec fn names_of(paths: Seq<Seq<char>>) -> Seq<Seq<char>> {
    paths.map_values(|p: Seq<char>| file_name(p))
}

/// A string holding `chars[from..]`.
fn string_from(chars: &Vec<char>, from: usize) -> (r: String)
    requires
        from <= chars.len(),
    ensures
        r@ == chars@.subrange(from as int, chars.len() as int),
{
    let mut r = String::new();
    let mut k: usize = from;
    while k < chars.len()
        invariant
            from <= k <= chars.len(),
            r@ == chars@.subrange(from as int, k as int),
        decreases chars.len() - k,
    {
        push_char(&mut r, chars[k]);
        proof {
            assert(chars@.subrange(from as int, k + 1) =~= chars@.subrange(from as int, k as int).push(
                chars@[k as int],
            ));
        }
        k += 1;
    }
    r
}

pub struct LsApp<F: FsController> {
    pub fs: F,
    pub root: String,
}

impl<F: FsController> LsApp<F> {
    pub fn new(fs: F, root: String) -> (r: LsApp<F>)
        ensures
            r.fs == fs,
            r.root == root,
    {
        LsApp { fs, root }
    }

    /// The names of the regular files in directory `str_path`, read against
    /// the root, in listing order; or the error of listing it.
    pub fn print_files(&self, str_path: String) -> (r: Result<Vec<String>, String>)
        ensures
            match r {
                Ok(names) => exists|entries: Seq<Seq<char>>|
                    self.fs.listing(joined(self.root@, str_path@)) == Some(entries)
                        && names@.map_values(|s: String| s@) == names_of(
                        #[trigger] files_among(self.fs, entries),
                    ),
                Err(_) => self.fs.listing(joined(self.root@, str_path@)) is None,
            },
    {
        let path = self.get_abs_path_from_str(str_path);
        let list_files = match self.get_files_in_dir(path.as_str()) {
            Ok(list_files) => list_files,
            Err(err) => return Err(err),
        };
        let ghost files = list_files@.map_values(|s: String| s@);
        let mut names: Vec<String> = Vec::new();
        let mut i: usize = 0;
        while i < list_files.len()
            invariant
                i <= list_files.len(),
                files == list_files@.map_values(|s: String| s@),
                names@.map_values(|s: String| s@) == names_of(files.take(i as int)),
            decreases list_files.len() - i,
        {
            let chars = chars_of(list_files[i].as_str());
            let start = file_name_start(&chars);
            let name = string_from(&chars, start);
            let ghost before = names@;
            names.push(name);
            proof {
                assert(names@.map_values(|s: String| s@) =~= before.map_values(|s: String| s@).push(
                    file_name(files[i as int]),
                ));
                assert(names_of(files.take(i + 1)) =~= names_of(files.take(i as int)).push(
                    file_name(files[i as int]),
                ));
            }
            i += 1;
        }
        proof {
            assert(files.take(i as int) =~= files);
        }
        Ok(names)
    }

    /// `str_path` read against the root.
    fn get_abs_path_from_str(&self, str_path: String) -> (r: String)
        ensures
            r@ == joined(self.root@, str_path@),
    {
        let chars = chars_of(str_path.as_str());
        if chars.len() > 0 && chars[0] == '/' {
            return str_path;
        }
        let root_chars = chars_of(self.root.as_str());
        let mut path = self.root.clone();
        if root_chars.len() > 0 && root_chars[root_chars.len() - 1] != '/' {
            push_char(&mut path, '/');
        }
        let ghost base = path@;
        let mut k: usize = 0;
        while k < chars.len()
            invariant
                k <= chars.len(),
                path@ == base + chars@.subrange(0, k as int),
            decreases chars.len() - k,
        {
            push_char(&mut path, chars[k]);
            proof {
                assert(chars@.subrange(0, k + 1) =~= chars@.subrange(0, k as int).push(
                    chars@[k as int],
                ));
            }
            k += 1;
        }
        proof {
            assert(chars@.subrange(0, k as int) =~= chars@);
        }
        path
    }

    /// The paths of the regular files listed in directory `path`.
    fn get_files_in_dir(&self, path: &str) -> (r: Result<Vec<String>, String>)
        ensures
            match r {
                Ok(v) => exists|entries: Seq<Seq<char>>|
                    self.fs.listing(path@) == Some(entries) && v@.map_values(|s: String| s@)
                        == #[trigger] files_among(self.fs, entries),
                Err(_) => self.fs.listing(path@) is None,
            },
    {
        let list_dir = match self.fs.get_list_dir(path) {
            Ok(list_dir) => list_dir,
            Err(err) => return Err(err),
        };
        let ghost entries = list_dir@.map_values(|s: String| s@);
        let mut files: Vec<String> = Vec::new();
        let mut i: usize = 0;
        while i < list_dir.len()
            invariant
                i <= list_dir.len(),
                entries == list_dir@.map_values(|s: String| s@),
                files@.map_values(|s: String| s@) == files_among(self.fs, entries.take(i as int)),
            decreases list_dir.len() - i,
        {
            let ghost before = files@;
            let ghost t = entries.take(i + 1);
            proof {
                assert(t.drop_last() =~= entries.take(i as int));
                assert(t.last() == list_dir@[i as int]@);
                assert(t =~= entries.take(i as int).push(list_dir@[i as int]@));
            }
            if self.fs.is_file(list_dir[i].as_str()) {
                files.push(list_dir[i].clone());
            }
            proof {
                assert(files_among(self.fs, t) =~= files_among(self.fs, entries.take(i as int)) + if self.fs.file_at(
                    list_dir@[i as int]@,
                ) {
                    seq![list_dir@[i as int]@]
                } else {
                    Seq::empty()
                }) by {
                    entries.take(i as int).lemma_filter_push(list_dir@[i as int]@, |e: Seq<char>| self.fs.file_at(e));
                }
                assert(files@.map_values(|s: String| s@) =~= files_among(self.fs, t));
            }
            i += 1;
        }
        proof {
            assert(entries.take(i as int) =~= entries);
        }
        Ok(files)
    }
}

} // verus!
