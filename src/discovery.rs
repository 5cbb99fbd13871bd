//! Recursive search of a directory tree for entries with a given name.

use vstd::prelude::*;
use crate::fs::FsController;
use crate::occurrence::{views, Context, Kind, Occurence};
use crate::text::{chars_of, ends_with, file_name, file_name_is, has_suffix};

verus! {

/// How deep below the root the search may descend.
pub const MAX_DEPTH: usize = usize::MAX;

/// A name whose entries are candidates for a search of their text.
pub open spec fn is_text_name(p: Seq<char>) -> bool {
    ends_with(p, seq!['.', 't', 'x', 't']) || ends_with(p, seq!['.', 'r', 's'])
}

/// The kind that a found entry at `p` gets.
pub open spec fn classify<F: FsController>(fs: F, p: Seq<char>) -> Kind {
    if fs.dir_at(p) {
        Kind::Dir
    } else if is_text_name(p) {
        Kind::TextFile
    } else {
        Kind::File
    }
}

/// The entries named `name` among `entries` and, for each of them that is a
/// directory, below it to `depth` more levels: in listing order, each
/// directory's findings before the directory itself.
pub open spec fn found_among<F: FsController>(
    fs: F,
    entries: Seq<Seq<char>>,
    name: Seq<char>,
    depth: nat,
) -> Seq<(Kind, Seq<char>)>
    decreases depth, entries.len(),
{
    if entries.len() == 0 {
        Seq::empty()
    } else {
        let e = entries.last();
        let nested = if fs.dir_at(e) && depth > 0 {
            match fs.listing(e) {
                Some(sub) => found_among(fs, sub, name, (depth - 1) as nat),
                None => Seq::empty(),
            }
        } else {
            Seq::empty()
        };
        let own = if file_name(e) == name {
            seq![(classify(fs, e), e)]
        } else {
            Seq::empty()
        };
        found_among(fs, entries.drop_last(), name, depth) + nested + own
    }
}

/// What a search of directory `dir` for `name` finds, or `None` where `dir`
/// cannot be listed.
pub open spec fn found_under<F: FsController>(
    fs: F,
    dir: Seq<char>,
    name: Seq<char>,
    depth: nat,
) -> Option<Seq<(Kind, Seq<char>)>> {
    match fs.listing(dir) {
        Some(entries) => Some(found_among(fs, entries, name, depth)),
        None => None,
    }
}

/// `p` is one of `entries` or, for a directory among them, listed below it
/// within `depth` more levels.
pub open spec fn listed_in<F: FsController>(
    fs: F,
    entries: Seq<Seq<char>>,
    p: Seq<char>,
    depth: nat,
) -> bool
    decreases depth,
{
    entries.contains(p) || (depth > 0 && exists|k: int|
        0 <= k < entries.len() && fs.dir_at(entries[k]) && match fs.listing(#[trigger] entries[k]) {
            Some(sub) => listed_in(fs, sub, p, (depth - 1) as nat),
            None => false,
        })
}

/// `p` is listed in directory `dir` or below it within `depth` more levels.
pub open spec fn listed_below<F: FsController>(
    fs: F,
    dir: Seq<char>,
    p: Seq<char>,
    depth: nat,
) -> bool {
    match fs.listing(dir) {
        Some(entries) => listed_in(fs, entries, p, depth),
        None => false,
    }
}

/// `x` is what the search reports for an entry named `name` at `x.1`.
pub open spec fn reported<F: FsController>(fs: F, x: (Kind, Seq<char>), name: Seq<char>) -> bool {
    file_name(x.1) == name && x.0 == classify(fs, x.1)
}

proof fn lemma_found_among_exact<F: FsController>(
    fs: F,
    entries: Seq<Seq<char>>,
    name: Seq<char>,
    depth: nat,
    x: (Kind, Seq<char>),
)
    ensures
        found_among(fs, entries, name, depth).contains(x) <==> (reported(fs, x, name) && listed_in(
            fs,
            entries,
            x.1,
            depth,
        )),
    decreases depth, entries.len(),
{
    if entries.len() == 0 {
        assert(!found_among(fs, entries, name, depth).contains(x));
        assert(!entries.contains(x.1));
    } else {
        let e = entries.last();
        let rest = entries.drop_last();
        lemma_found_among_exact(fs, rest, name, depth, x);
        let nested = if fs.dir_at(e) && depth > 0 {
            match fs.listing(e) {
                Some(sub) => found_among(fs, sub, name, (depth - 1) as nat),
                None => Seq::empty(),
            }
        } else {
            Seq::empty()
        };
        let own = if file_name(e) == name {
            seq![(classify(fs, e), e)]
        } else {
            Seq::empty()
        };
        let whole = found_among(fs, rest, name, depth) + nested + own;
        assert(found_among(fs, entries, name, depth) == whole);
        let via_e = fs.dir_at(e) && depth > 0 && match fs.listing(e) {
            Some(sub) => listed_in(fs, sub, x.1, (depth - 1) as nat),
            None => false,
        };
        if fs.dir_at(e) && depth > 0 {
            if let Some(sub) = fs.listing(e) {
                lemma_found_among_exact(fs, sub, name, (depth - 1) as nat, x);
            }
        }
        assert(whole.contains(x) <==> (found_among(fs, rest, name, depth).contains(x)
            || nested.contains(x) || own.contains(x))) by {
            if whole.contains(x) {
                let i = choose|i: int| 0 <= i < whole.len() && whole[i] == x;
                let n1 = found_among(fs, rest, name, depth).len();
                if i < n1 {
                    assert(found_among(fs, rest, name, depth)[i] == x);
                } else if i < n1 + nested.len() {
                    assert(nested[i - n1] == x);
                } else {
                    assert(own[i - n1 - nested.len()] == x);
                }
            }
            if found_among(fs, rest, name, depth).contains(x) {
                let i = choose|i: int|
                    0 <= i < found_among(fs, rest, name, depth).len() && found_among(
                        fs,
                        rest,
                        name,
                        depth,
                    )[i] == x;
                assert(whole[i] == x);
            }
            if nested.contains(x) {
                let i = choose|i: int| 0 <= i < nested.len() && nested[i] == x;
                assert(whole[found_among(fs, rest, name, depth).len() as int + i] == x);
            }
            if own.contains(x) {
                assert(own[0] == x);
                assert(whole[found_among(fs, rest, name, depth).len() + nested.len() as int] == x);
            }
        }
        assert(listed_in(fs, entries, x.1, depth) <==> (listed_in(fs, rest, x.1, depth) || x.1
            == e || via_e)) by {
            if entries.contains(x.1) {
                let i = choose|i: int| 0 <= i < entries.len() && entries[i] == x.1;
                if i < rest.len() {
                    assert(rest[i] == x.1);
                }
            }
            if rest.contains(x.1) {
                let i = choose|i: int| 0 <= i < rest.len() && rest[i] == x.1;
                assert(entries[i] == x.1);
            }
            if x.1 == e {
                assert(entries[entries.len() - 1] == x.1);
            }
            if depth > 0 {
                let d = (depth - 1) as nat;
                if exists|k: int|
                    0 <= k < entries.len() && fs.dir_at(entries[k]) && match fs.listing(
                        #[trigger] entries[k],
                    ) {
                        Some(sub) => listed_in(fs, sub, x.1, d),
                        None => false,
                    } {
                    let k = choose|k: int|
                        0 <= k < entries.len() && fs.dir_at(entries[k]) && match fs.listing(
                            #[trigger] entries[k],
                        ) {
                            Some(sub) => listed_in(fs, sub, x.1, d),
                            None => false,
                        };
                    if k < rest.len() {
                        assert(rest[k] == entries[k]);
                    }
                }
                if exists|k: int|
                    0 <= k < rest.len() && fs.dir_at(rest[k]) && match fs.listing(
                        #[trigger] rest[k],
                    ) {
                        Some(sub) => listed_in(fs, sub, x.1, d),
                        None => false,
                    } {
                    let k = choose|k: int|
                        0 <= k < rest.len() && fs.dir_at(rest[k]) && match fs.listing(
                            #[trigger] rest[k],
                        ) {
                            Some(sub) => listed_in(fs, sub, x.1, d),
                            None => false,
                        };
                    assert(entries[k] == rest[k]);
                }
                if via_e {
                    assert(entries[entries.len() - 1] == e);
                }
            }
        }
        if reported(fs, x, name) && x.1 == e {
            assert(own[0] == x);
            assert(own.contains(x));
        }
        if own.contains(x) {
            assert(own[0] == x);
        }
        if nested.contains(x) {
            assert(via_e);
        }
        if via_e && reported(fs, x, name) {
            assert(nested.contains(x));
        }
    }
}

/// The search finds exactly the entries listed below the directory whose
/// last component is `name`, each reported with the kind that its path and
/// the tree give it.
pub proof fn lemma_discover_exact<F: FsController>(
    fs: F,
    dir: Seq<char>,
    name: Seq<char>,
    depth: nat,
    x: (Kind, Seq<char>),
)
    requires
        found_under(fs, dir, name, depth) is Some,
    ensures
        found_under(fs, dir, name, depth)->0.contains(x) <==> (reported(fs, x, name)
            && listed_below(fs, dir, x.1, depth)),
{
    lemma_found_among_exact(fs, fs.listing(dir)->0, name, depth, x);
}

/// A directory named `name` is reported as a directory, and what lies below
/// it is searched as well.
pub proof fn lemma_matching_dir_searched<F: FsController>(
    fs: F,
    dir: Seq<char>,
    name: Seq<char>,
    depth: nat,
    e: Seq<char>,
)
    requires
        found_under(fs, dir, name, depth) is Some,
        fs.listing(dir)->0.contains(e),
        fs.dir_at(e),
        file_name(e) == name,
        depth > 0,
        fs.listing(e) is Some,
    ensures
        found_under(fs, dir, name, depth)->0.contains((Kind::Dir, e)),
        forall|x: (Kind, Seq<char>)| #[trigger]
            found_under(fs, e, name, (depth - 1) as nat)->0.contains(x) ==> found_under(
                fs,
                dir,
                name,
                depth,
            )->0.contains(x),
{
    let entries = fs.listing(dir)->0;
    lemma_discover_exact(fs, dir, name, depth, (Kind::Dir, e));
    assert forall|x: (Kind, Seq<char>)| #[trigger]
        found_under(fs, e, name, (depth - 1) as nat)->0.contains(x) implies found_under(
            fs,
            dir,
            name,
            depth,
        )->0.contains(x) by {
        lemma_discover_exact(fs, e, name, (depth - 1) as nat, x);
        lemma_discover_exact(fs, dir, name, depth, x);
        let k = choose|k: int| 0 <= k < entries.len() && entries[k] == e;
        assert(fs.dir_at(entries[k]) && match fs.listing(entries[k]) {
            Some(sub) => listed_in(fs, sub, x.1, (depth - 1) as nat),
            None => false,
        });
    }
}

/// `p` lies below the directory at `e`: it is `e`, a `/`, then more.
pub open spec fn lies_below(p: Seq<char>, e: Seq<char>) -> bool {
    e.len() < p.len() && p.subrange(0, e.len() as int) == e && p[e.len() as int] == '/'
}

/// `e` is `dir` joined with a non-empty name that holds no `/`.
pub open spec fn child_path(dir: Seq<char>, e: Seq<char>) -> bool {
    let base = if dir.len() > 0 && dir.last() == '/' {
        dir
    } else {
        dir.push('/')
    };
    base.len() < e.len() && e.subrange(0, base.len() as int) == base && forall|i: int|
        base.len() <= i < e.len() ==> e[i] != '/'
}

/// Every listing of the tree names distinct entries, each its directory
/// joined with a name: a tree without links that lead back into it.
pub open spec fn tree_shaped<F: FsController>(fs: F) -> bool {
    forall|dir: Seq<char>|
        #[trigger] fs.listing(dir) is Some ==> fs.listing(dir)->0.no_duplicates() && forall|k: int|
            0 <= k < fs.listing(dir)->0.len() ==> child_path(dir, #[trigger] fs.listing(dir)->0[k])
}

proof fn lemma_child_ends_in_name(dir: Seq<char>, e: Seq<char>)
    requires
        child_path(dir, e),
    ensures
        e.len() > 0 && e.last() != '/',
{
}

proof fn lemma_below_listed<F: FsController>(
    fs: F,
    e: Seq<char>,
    sub: Seq<Seq<char>>,
    p: Seq<char>,
    depth: nat,
)
    requires
        tree_shaped(fs),
        e.len() > 0 && e.last() != '/',
        fs.listing(e) == Some(sub),
        listed_in(fs, sub, p, depth),
    ensures
        lies_below(p, e),
    decreases depth,
{
    assert(fs.listing(e) is Some);
    let base = e.push('/');
    assert(base.subrange(0, e.len() as int) =~= e);
    assert(base[e.len() as int] == '/');
    if sub.contains(p) {
        let k = choose|k: int| 0 <= k < sub.len() && sub[k] == p;
        assert(child_path(e, sub[k]));
        assert(p.subrange(0, base.len() as int) == base);
        assert(p.subrange(0, e.len() as int) =~= p.subrange(0, base.len() as int).subrange(
            0,
            e.len() as int,
        ));
        assert(p[e.len() as int] == p.subrange(0, base.len() as int)[e.len() as int]);
    } else {
        let d = (depth - 1) as nat;
        let k = choose|k: int|
            0 <= k < sub.len() && fs.dir_at(sub[k]) && match fs.listing(#[trigger] sub[k]) {
                Some(s2) => listed_in(fs, s2, p, d),
                None => false,
            };
        let x = sub[k];
        assert(child_path(e, x));
        assert(x.subrange(0, base.len() as int) == base);
        lemma_child_ends_in_name(e, x);
        lemma_below_listed(fs, x, fs.listing(x)->0, p, d);
        assert(x.subrange(0, e.len() as int) =~= x.subrange(0, base.len() as int).subrange(
            0,
            e.len() as int,
        ));
        assert(x[e.len() as int] == x.subrange(0, base.len() as int)[e.len() as int]);
        assert(p.subrange(0, e.len() as int) =~= p.subrange(0, x.len() as int).subrange(
            0,
            e.len() as int,
        ));
        assert(p[e.len() as int] == p.subrange(0, x.len() as int)[e.len() as int]);
    }
}

proof fn lemma_siblings_apart(dir: Seq<char>, a: Seq<char>, b: Seq<char>, p: Seq<char>)
    requires
        child_path(dir, a),
        child_path(dir, b),
        a != b,
    ensures
        !lies_below(a, b),
        !(lies_below(p, a) && lies_below(p, b)),
{
    let base = if dir.len() > 0 && dir.last() == '/' {
        dir
    } else {
        dir.push('/')
    };
    if lies_below(a, b) {
        assert(a[b.len() as int] == '/');
    }
    if lies_below(p, a) && lies_below(p, b) {
        if a.len() == b.len() {
            assert(a =~= b);
        } else if a.len() < b.len() {
            assert(p[a.len() as int] == p.subrange(0, b.len() as int)[a.len() as int]);
        } else {
            assert(p[b.len() as int] == p.subrange(0, a.len() as int)[b.len() as int]);
        }
    }
}

proof fn lemma_found_among_once<F: FsController>(
    fs: F,
    dir: Seq<char>,
    entries: Seq<Seq<char>>,
    name: Seq<char>,
    depth: nat,
)
    requires
        tree_shaped(fs),
        entries.no_duplicates(),
        forall|k: int| 0 <= k < entries.len() ==> child_path(dir, #[trigger] entries[k]),
    ensures
        found_among(fs, entries, name, depth).no_duplicates(),
    decreases depth, entries.len(),
{
    if entries.len() > 0 {
        let e = entries.last();
        let rest = entries.drop_last();
        assert(forall|k: int| 0 <= k < rest.len() ==> rest[k] == entries[k]);
        lemma_found_among_once(fs, dir, rest, name, depth);
        let found_rest = found_among(fs, rest, name, depth);
        let nested = if fs.dir_at(e) && depth > 0 {
            match fs.listing(e) {
                Some(sub) => found_among(fs, sub, name, (depth - 1) as nat),
                None => Seq::empty(),
            }
        } else {
            Seq::empty()
        };
        let own = if file_name(e) == name {
            seq![(classify(fs, e), e)]
        } else {
            Seq::empty()
        };
        assert(found_among(fs, entries, name, depth) == found_rest + nested + own);
        assert(child_path(dir, entries[entries.len() - 1]));
        lemma_child_ends_in_name(dir, e);
        if fs.dir_at(e) && depth > 0 {
            if let Some(sub) = fs.listing(e) {
                assert(fs.listing(e) is Some);
                lemma_found_among_once(fs, e, sub, name, (depth - 1) as nat);
            }
        }
        // Whatever comes from the earlier entries lies apart from `e`.
        assert forall|i: int| 0 <= i < found_rest.len() implies {
            let q = #[trigger] found_rest[i].1;
            q != e && !lies_below(q, e)
        } by {
            let x = found_rest[i];
            assert(found_rest.contains(x));
            lemma_found_among_exact(fs, rest, name, depth, x);
            if rest.contains(x.1) {
                let k = choose|k: int| 0 <= k < rest.len() && rest[k] == x.1;
                assert(entries[k] == x.1);
                assert(k != entries.len() - 1);
                assert(child_path(dir, entries[k]));
                lemma_siblings_apart(dir, x.1, e, x.1);
            } else {
                let d = (depth - 1) as nat;
                let k = choose|k: int|
                    0 <= k < rest.len() && fs.dir_at(rest[k]) && match fs.listing(
                        #[trigger] rest[k],
                    ) {
                        Some(s2) => listed_in(fs, s2, x.1, d),
                        None => false,
                    };
                let y = rest[k];
                assert(entries[k] == y);
                assert(child_path(dir, entries[k]));
                lemma_child_ends_in_name(dir, y);
                lemma_below_listed(fs, y, fs.listing(y)->0, x.1, d);
                lemma_siblings_apart(dir, e, y, x.1);
                if x.1 == e {
                    assert(lies_below(e, y));
                }
            }
        }
        assert forall|j: int| 0 <= j < nested.len() implies lies_below(#[trigger] nested[j].1, e) by {
            let x = nested[j];
            assert(nested.contains(x));
            lemma_found_among_exact(fs, fs.listing(e)->0, name, (depth - 1) as nat, x);
            lemma_below_listed(fs, e, fs.listing(e)->0, x.1, (depth - 1) as nat);
        }
        assert(found_rest.disjoint(nested)) by {
            assert forall|i: int, j: int|
                0 <= i < found_rest.len() && 0 <= j < nested.len() implies found_rest[i]
                != nested[j] by {
                assert(lies_below(nested[j].1, e));
                assert(!lies_below(found_rest[i].1, e));
            }
        }
        vstd::seq_lib::lemma_no_dup_in_concat(found_rest, nested);
        assert((found_rest + nested).disjoint(own)) by {
            assert forall|i: int, j: int|
                0 <= i < (found_rest + nested).len() && 0 <= j < own.len() implies (found_rest
                + nested)[i] != own[j] by {
                assert(own[j].1 == e);
                if i < found_rest.len() {
                    assert((found_rest + nested)[i] == found_rest[i]);
                } else {
                    assert((found_rest + nested)[i] == nested[i - found_rest.len()]);
                    assert(lies_below(nested[i - found_rest.len()].1, e));
                }
            }
        }
        vstd::seq_lib::lemma_no_dup_in_concat(found_rest + nested, own);
    }
}

/// In a tree-shaped filesystem the search reports each entry once.
pub proof fn lemma_discover_once<F: FsController>(
    fs: F,
    dir: Seq<char>,
    name: Seq<char>,
    depth: nat,
)
    requires
        tree_shaped(fs),
        found_under(fs, dir, name, depth) is Some,
    ensures
        found_under(fs, dir, name, depth)->0.no_duplicates(),
{
    assert(fs.listing(dir) is Some);
    lemma_found_among_once(fs, dir, fs.listing(dir)->0, name, depth);
}

/// The discovery stage: searches the tree under `root`.
pub struct FindProcess<F: FsController> {
    pub fs: F,
    pub root: String,
}

impl<F: FsController> FindProcess<F> {
    pub fn new(fs: F, root: String) -> (r: FindProcess<F>)
        ensures
            r.fs == fs,
            r.root == root,
    {
        FindProcess { fs, root }
    }

    /// Every entry under the root named `filename`, or the error of listing
    /// the root itself.
    pub fn find_files(&self, filename: &str) -> (r: Result<Vec<Occurence>, String>)
        ensures
            match r {
                Ok(v) => found_under(self.fs, self.root@, filename@, MAX_DEPTH as nat) == Some(
                    views(v@),
                ),
                Err(_) => self.fs.listing(self.root@) is None,
            },
    {
        self.find_file_recursive(filename, self.root.as_str(), MAX_DEPTH)
    }

    fn find_file_recursive(&self, filename: &str, current_dir: &str, depth: usize) -> (r: Result<
        Vec<Occurence>,
        String,
    >)
        ensures
            match r {
                Ok(v) => found_under(self.fs, current_dir@, filename@, depth as nat) == Some(
                    views(v@),
                ),
                Err(_) => self.fs.listing(current_dir@) is None,
            },
        decreases depth,
    {
        let files_and_dirs = match self.fs.get_list_dir(current_dir) {
            Ok(files_and_dirs) => files_and_dirs,
            Err(err) => return Err(err),
        };
        let ghost entries = files_and_dirs@.map_values(|s: String| s@);
        let name = chars_of(filename);
        let txt = vec!['.', 't', 'x', 't'];
        let rs = vec!['.', 'r', 's'];
        let mut result: Vec<Occurence> = Vec::new();
        let mut i: usize = 0;
        while i < files_and_dirs.len()
            invariant
                i <= files_and_dirs.len(),
                entries == files_and_dirs@.map_values(|s: String| s@),
                self.fs.listing(current_dir@) == Some(entries),
                name@ == filename@,
                txt@ == seq!['.', 't', 'x', 't'],
                rs@ == seq!['.', 'r', 's'],
                views(result@) == found_among(
                    self.fs,
                    entries.take(i as int),
                    filename@,
                    depth as nat,
                ),
            decreases files_and_dirs.len() - i,
        {
            let file = files_and_dirs[i].clone();
            let ghost before = result@;
            proof {
                assert(entries.take(i + 1).drop_last() =~= entries.take(i as int));
                assert(entries.take(i + 1).last() == file@);
            }
            let is_dir = self.fs.is_dir(file.as_str());
            if is_dir && depth > 0 {
                if let Ok(mut founds) = self.find_file_recursive(filename, file.as_str(), depth - 1) {
                    result.append(&mut founds);
                }
            }
            let ghost mid = result@;
            proof {
                assert(views(mid) =~= found_among(
                    self.fs,
                    entries.take(i as int),
                    filename@,
                    depth as nat,
                ) + if self.fs.dir_at(file@) && depth > 0 {
                    match self.fs.listing(file@) {
                        Some(sub) => found_among(self.fs, sub, filename@, (depth - 1) as nat),
                        None => Seq::empty(),
                    }
                } else {
                    Seq::empty()
                });
            }
            let path_chars = chars_of(file.as_str());
            if file_name_is(&path_chars, &name) {
                if is_dir {
                    result.push(Occurence::with_kind(Kind::Dir, file));
                } else if has_suffix(&path_chars, &txt) || has_suffix(&path_chars, &rs) {
                    result.push(Occurence::with_kind(Kind::TextFile, file));
                } else {
                    result.push(Occurence::with_kind(Kind::File, file));
                }
            }
            proof {
                assert(views(result@) =~= found_among(
                    self.fs,
                    entries.take(i + 1),
                    filename@,
                    depth as nat,
                ));
            }
            i += 1;
        }
        proof {
            assert(entries.take(i as int) =~= entries);
        }
        Ok(result)
    }

    /// Fills the context with every entry under the root named as the
    /// context says; on an error the context is left as it was.
    pub fn process(&self, context: &mut Context) -> (r: Result<(), String>)
        ensures
            final(context).name@ == old(context).name@,
            match r {
                Ok(()) => found_under(
                    self.fs,
                    self.root@,
                    old(context).name@,
                    MAX_DEPTH as nat,
                ) == Some(views(final(context).files@)),
                Err(_) => self.fs.listing(self.root@) is None && final(context).files@ == old(
                    context,
                ).files@,
            },
    {
        let founds = match self.find_files(context.name.as_str()) {
            Ok(founds) => founds,
            Err(err) => return Err(err),
        };
        context.files = founds;
        Ok(())
    }
}

} // verus!
