//! The content filter: keeps the text files whose contents hold a string.

use vstd::prelude::*;
use crate::fs::FsController;
use crate::occurrence::{views, Context, Kind, Occurence};
use crate::text::{chars_of, contains_seq, occurs_in};

verus! {

/// How many contiguous batches the entries are split into.
pub const BATCH_COUNT: usize = 64;

/// A found entry that the filter keeps: a text file that can be read and
/// whose contents hold `needle`.
pub open spec fn survives<F: FsController>(
    fs: F,
    o: (Kind, Seq<char>),
    needle: Seq<char>,
) -> bool {
    o.0 == Kind::TextFile && match fs.contents(o.1) {
        Some(c) => occurs_in(needle, c),
        None => false,
    }
}

/// The entries of `s` that the filter keeps, in order, each now a plain file.
pub open spec fn survivors<F: FsController>(
    fs: F,
    s: Seq<(Kind, Seq<char>)>,
    needle: Seq<char>,
) -> Seq<(Kind, Seq<char>)>
    decreases s.len(),
{
    if s.len() == 0 {
        Seq::empty()
    } else {
        survivors(fs, s.drop_last(), needle) + if survives(fs, s.last(), needle) {
            seq![(Kind::File, s.last().1)]
        } else {
            Seq::empty()
        }
    }
}

/// The filter keeps exactly the text files of its input that can be read
/// and hold `needle`, each once for each time it is listed, as plain files;
/// nothing else comes out of it.
pub proof fn lemma_filter_exact<F: FsController>(
    fs: F,
    s: Seq<(Kind, Seq<char>)>,
    needle: Seq<char>,
    x: (Kind, Seq<char>),
)
    ensures
        survivors(fs, s, needle).contains(x) <==> (x.0 == Kind::File && s.contains(
            (Kind::TextFile, x.1),
        ) && survives(fs, (Kind::TextFile, x.1), needle)),
    decreases s.len(),
{
    if s.len() == 0 {
        assert(!survivors(fs, s, needle).contains(x));
    } else {
        let rest = s.drop_last();
        let o = s.last();
        lemma_filter_exact(fs, rest, needle, x);
        let tail = if survives(fs, o, needle) {
            seq![(Kind::File, o.1)]
        } else {
            Seq::<(Kind, Seq<char>)>::empty()
        };
        let whole = survivors(fs, rest, needle) + tail;
        assert(survivors(fs, s, needle) == whole);
        if whole.contains(x) {
            let i = choose|i: int| 0 <= i < whole.len() && whole[i] == x;
            if i < survivors(fs, rest, needle).len() {
                assert(survivors(fs, rest, needle)[i] == x);
                let j = choose|j: int| 0 <= j < rest.len() && rest[j] == (Kind::TextFile, x.1);
                assert(s[j] == rest[j]);
            } else {
                assert(tail[i - survivors(fs, rest, needle).len()] == x);
                assert(s[s.len() - 1] == o);
            }
        }
        if x.0 == Kind::File && s.contains((Kind::TextFile, x.1)) && survives(
            fs,
            (Kind::TextFile, x.1),
            needle,
        ) {
            let j = choose|j: int| 0 <= j < s.len() && s[j] == (Kind::TextFile, x.1);
            if j < rest.len() {
                assert(rest[j] == s[j]);
                let i = choose|i: int|
                    0 <= i < survivors(fs, rest, needle).len() && survivors(fs, rest, needle)[i]
                        == x;
                assert(whole[i] == x);
            } else {
                assert(o == (Kind::TextFile, x.1));
                assert(tail[0] == x);
                assert(whole[survivors(fs, rest, needle).len() as int] == x);
            }
        }
    }
}

/// Where batch `i` of `len` entries starts; batch `i` ends where batch
/// `i + 1` starts.
pub open spec fn batch_start(len: nat, i: nat) -> nat {
    let size = len / (BATCH_COUNT as nat) + 1;
    if size * i <= len {
        size * i
    } else {
        len
    }
}

/// Where batch `i` of `len` entries starts.
pub fn batch_bound(len: usize, i: usize) -> (r: usize)
    requires
        i <= BATCH_COUNT,
    ensures
        r == batch_start(len as nat, i as nat),
{
    let size = (len / BATCH_COUNT + 1) as u128;
    assert(size * (i as u128) <= 0x1_0000_0000_0000_0000u128 * 64) by (nonlinear_arith)
        requires
            size <= 0x1_0000_0000_0000_0000u128,
            i <= 64,
    ;
    let start = size * (i as u128);
    if start <= len as u128 {
        start as usize
    } else {
        len
    }
}

pub struct InTextFileFilter {
    pub content: String,
}

impl InTextFileFilter {
    pub fn new(content: String) -> (r: InTextFileFilter)
        ensures
            r.content == content,
    {
        InTextFileFilter { content }
    }

    /// Scans `files[lo..hi]`, adding to `found` each entry that the filter
    /// keeps.
    fn filter_batch<F: FsController>(
        fs: &F,
        files: &Vec<Occurence>,
        lo: usize,
        hi: usize,
        needle: &Vec<char>,
        found: &mut Vec<Occurence>,
    )
        requires
            lo <= hi <= files.len(),
            views(old(found)@) == survivors(*fs, views(files@).take(lo as int), needle@),
        ensures
            views(final(found)@) == survivors(*fs, views(files@).take(hi as int), needle@),
    {
        let ghost vs = views(files@);
        let mut k: usize = lo;
        while k < hi
            invariant
                lo <= k <= hi <= files.len(),
                vs == views(files@),
                views(found@) == survivors(*fs, vs.take(k as int), needle@),
            decreases hi - k,
        {
            proof {
                assert(vs.take(k + 1).drop_last() =~= vs.take(k as int));
                assert(vs.take(k + 1).last() == files@[k as int]@);
            }
            if let Occurence::TextFile(occ) = &files[k] {
                match fs.read_to_string(occ.path.as_str()) {
                    Ok(data) => {
                        let hay = chars_of(data.as_str());
                        if contains_seq(&hay, needle) {
                            found.push(Occurence::with_kind(Kind::File, occ.path.clone()));
                        }
                    },
                    Err(_) => {},
                }
            }
            proof {
                assert(views(found@) =~= survivors(*fs, vs.take(k + 1), needle@));
            }
            k += 1;
        }
    }

    /// Replaces the entries of the context by those that the filter keeps,
    /// each now a plain file. A file that cannot be read is left out.
    pub fn post_process<F: FsController>(&self, fs: &F, context: &mut Context) -> (r: Result<
        (),
        String,
    >)
        ensures
            r is Ok,
            final(context).name@ == old(context).name@,
            views(final(context).files@) == survivors(
                *fs,
                views(old(context).files@),
                self.content@,
            ),
    {
        let len = context.files.len();
        let needle = chars_of(self.content.as_str());
        let mut found: Vec<Occurence> = Vec::new();
        let mut i: usize = 0;
        proof {
            assert(views(context.files@).take(0) =~= Seq::<(Kind, Seq<char>)>::empty());
            assert(views(found@) =~= Seq::<(Kind, Seq<char>)>::empty());
        }
        while i < BATCH_COUNT
            invariant
                i <= BATCH_COUNT,
                len == context.files.len(),
                needle@ == self.content@,
                views(found@) == survivors(
                    *fs,
                    views(context.files@).take(batch_start(len as nat, i as nat) as int),
                    needle@,
                ),
            decreases BATCH_COUNT - i,
        {
            let left_bound = batch_bound(len, i);
            let right_bound = batch_bound(len, i + 1);
            proof {
                let size = len as nat / (BATCH_COUNT as nat) + 1;
                assert(size * (i as nat) <= size * ((i + 1) as nat)) by (nonlinear_arith)
                    requires
                        i <= i + 1,
                ;
            }
            Self::filter_batch(fs, &context.files, left_bound, right_bound, &needle, &mut found);
            i += 1;
        }
        proof {
            let size = len as nat / (BATCH_COUNT as nat) + 1;
            assert(size * (BATCH_COUNT as nat) > len) by (nonlinear_arith)
                requires
                    size == len as nat / 64 + 1,
            ;
            assert(views(context.files@).take(len as int) =~= views(context.files@));
        }
        context.files = found;
        Ok(())
    }
}

} // verus!
