//! Character-level helpers on paths and file contents.

use vstd::prelude::*;

verus! {

/// The last component of a path: what follows its last `/`.
pub open spec fn file_name(p: Seq<char>) -> Seq<char>
    decreases p.len(),
{
    if p.len() == 0 || p.last() == '/' {
        Seq::empty()
    } else {
        file_name(p.drop_last()).push(p.last())
    }
}

/// `s` ends with `suffix`.
pub open spec fn ends_with(s: Seq<char>, suffix: Seq<char>) -> bool {
    suffix.len() <= s.len() && s.subrange(s.len() - suffix.len(), s.len() as int) == suffix
}

/// `needle` occurs in `hay` as a contiguous run of characters.
pub open spec fn occurs_in(needle: Seq<char>, hay: Seq<char>) -> bool {
    exists|i: int|
        0 <= i && i + needle.len() <= hay.len() && #[trigger] hay.subrange(i, i + needle.len())
            == needle
}

/// The characters of `s`, one by one.
pub fn chars_of(s: &str) -> (r: Vec<char>)
    ensures
        r@ == s@,
{
    let mut r: Vec<char> = Vec::new();
    for c in it: s.chars()
        invariant
            r@ == it.seq().take(it.index() as int),
    {
        r.push(c);
    }
    r
}

/// `s[start..]` begins with `t`.
pub fn matches_at(s: &Vec<char>, start: usize, t: &Vec<char>) -> (r: bool)
    requires
        start <= s.len(),
    ensures
        r == (start + t.len() <= s.len() && s@.subrange(start as int, start + t.len()) == t@),
{
    if t.len() > s.len() - start {
        return false;
    }
    let mut k: usize = 0;
    while k < t.len()
        invariant
            k <= t.len(),
            start + t.len() <= s.len(),
            forall|j: int| 0 <= j < k ==> s@[start + j] == t@[j],
        decreases t.len() - k,
    {
        if s[start + k] != t[k] {
            proof {
                assert(s@.subrange(start as int, start + t.len())[k as int] != t@[k as int]);
            }
            return false;
        }
        k += 1;
    }
    proof {
        assert(s@.subrange(start as int, start + t.len()) =~= t@);
    }
    true
}

/// `s` ends with `suffix`.
pub fn has_suffix(s: &Vec<char>, suffix: &Vec<char>) -> (r: bool)
    ensures
        r == ends_with(s@, suffix@),
{
    if suffix.len() > s.len() {
        return false;
    }
    matches_at(s, s.len() - suffix.len(), suffix)
}

/// `needle` occurs somewhere in `hay`.
pub fn contains_seq(hay: &Vec<char>, needle: &Vec<char>) -> (r: bool)
    ensures
        r == occurs_in(needle@, hay@),
{
    if needle.len() > hay.len() {
        return false;
    }
    if needle.len() == 0 {
        proof {
            assert(hay@.subrange(0int, 0int + needle@.len()) =~= needle@);
        }
        return true;
    }
    let last = hay.len() - needle.len();
    let mut i: usize = 0;
    while i <= last
        invariant
            last + needle.len() == hay.len(),
            needle.len() > 0,
            i <= last + 1,
            forall|j: int| 0 <= j < i ==> #[trigger] hay@.subrange(j, j + needle.len()) != needle@,
        decreases last + 1 - i,
    {
        if matches_at(hay, i, needle) {
            return true;
        }
        i += 1;
    }
    false
}

/// Where the last component of `p` starts.
pub fn file_name_start(p: &Vec<char>) -> (k: usize)
    ensures
        k <= p.len(),
        file_name(p@) == p@.subrange(k as int, p.len() as int),
{
    let mut k: usize = p.len();
    while k > 0 && p[k - 1] != '/'
        invariant
            k <= p.len(),
            forall|j: int| k <= j < p.len() ==> p@[j] != '/',
        decreases k,
    {
        k -= 1;
    }
    proof {
        lemma_file_name_from(p@, k as int);
    }
    k
}

proof fn lemma_file_name_from(p: Seq<char>, k: int)
    requires
        0 <= k <= p.len(),
        k == 0 || p[k - 1] == '/',
        forall|j: int| k <= j < p.len() ==> p[j] != '/',
    ensures
        file_name(p) == p.subrange(k, p.len() as int),
    decreases p.len(),
{
    if p.len() == k {
        if k > 0 {
            assert(p.last() == '/');
        }
        assert(p.subrange(k, p.len() as int) =~= Seq::<char>::empty());
    } else {
        lemma_file_name_from(p.drop_last(), k);
        assert(p.subrange(k, p.len() as int) =~= p.drop_last().subrange(k, p.len() - 1).push(
            p.last(),
        ));
    }
}

/// The last component of `path` is exactly `name`.
pub fn file_name_is(path: &Vec<char>, name: &Vec<char>) -> (r: bool)
    ensures
        r == (file_name(path@) == name@),
{
    let k = file_name_start(path);
    if path.len() - k != name.len() {
        return false;
    }
    matches_at(path, k, name)
}

} // verus!
