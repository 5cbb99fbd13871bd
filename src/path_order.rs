//! The order of paths: component by component, which on plain paths is the
//! order of their characters with `/` before every other character.

use vstd::prelude::*;

verus! {

/// The rank of a character in the order of paths.
pub open spec fn rank(c: char) -> int {
    if c == '/' {
        0
    } else {
        c as u32 as int + 1
    }
}

/// `a[k..]` comes before `b[k..]`.
pub open spec fn before_from(a: Seq<char>, b: Seq<char>, k: int) -> bool
    decreases a.len() - k,
{
    if k >= a.len() {
        k < b.len()
    } else if k >= b.len() {
        false
    } else if rank(a[k]) < rank(b[k]) {
        true
    } else if rank(a[k]) > rank(b[k]) {
        false
    } else {
        before_from(a, b, k + 1)
    }
}

/// Path `a` comes strictly before path `b`.
pub open spec fn path_before(a: Seq<char>, b: Seq<char>) -> bool {
    before_from(a, b, 0)
}

/// `a[k..]` and `b[k..]` rank alike, character by character.
pub open spec fn ranks_alike_from(a: Seq<char>, b: Seq<char>, k: int) -> bool {
    a.len() == b.len() && forall|i: int| k <= i < a.len() ==> rank(a[i]) == rank(b[i])
}

/// Path `a` comes strictly before path `b`.
pub fn path_less(a: &Vec<char>, b: &Vec<char>) -> (r: bool)
    ensures
        r == path_before(a@, b@),
{
    let mut k: usize = 0;
    while k < a.len() && k < b.len()
        invariant
            k <= a.len(),
            k <= b.len(),
            before_from(a@, b@, 0) == before_from(a@, b@, k as int),
        decreases a.len() - k,
    {
        let x = if a[k] == '/' {
            0u64
        } else {
            a[k] as u32 as u64 + 1
        };
        let y = if b[k] == '/' {
            0u64
        } else {
            b[k] as u32 as u64 + 1
        };
        if x < y {
            return true;
        }
        if x > y {
            return false;
        }
        k += 1;
    }
    k == a.len() && k < b.len()
}

proof fn lemma_before_irreflexive(a: Seq<char>, k: int)
    requires
        0 <= k,
    ensures
        !before_from(a, a, k),
    decreases a.len() - k,
{
    if k < a.len() {
        lemma_before_irreflexive(a, k + 1);
    }
}

proof fn lemma_before_transitive(a: Seq<char>, b: Seq<char>, c: Seq<char>, k: int)
    requires
        0 <= k,
        before_from(a, b, k),
        before_from(b, c, k),
    ensures
        before_from(a, c, k),
    decreases a.len() - k,
{
    if k < a.len() && k < b.len() && k < c.len() && rank(a[k]) == rank(b[k]) && rank(b[k])
        == rank(c[k]) {
        lemma_before_transitive(a, b, c, k + 1);
    }
}

proof fn lemma_incomparable_alike(a: Seq<char>, b: Seq<char>, k: int)
    requires
        0 <= k <= a.len(),
        k <= b.len(),
        !before_from(a, b, k),
        !before_from(b, a, k),
    ensures
        ranks_alike_from(a, b, k),
    decreases a.len() - k,
{
    if k < a.len() {
        lemma_incomparable_alike(a, b, k + 1);
    }
}

proof fn lemma_alike_incomparable(a: Seq<char>, b: Seq<char>, k: int)
    requires
        0 <= k <= a.len(),
        ranks_alike_from(a, b, k),
    ensures
        !before_from(a, b, k),
        !before_from(b, a, k),
    decreases a.len() - k,
{
    if k < a.len() {
        lemma_alike_incomparable(a, b, k + 1);
    }
}

/// The order of paths is a strict weak ordering.
pub proof fn lemma_path_order()
    ensures
        forall|a: Seq<char>| !#[trigger] path_before(a, a),
        forall|a: Seq<char>, b: Seq<char>, c: Seq<char>|
            #[trigger] path_before(a, b) && #[trigger] path_before(b, c) ==> path_before(a, c),
        forall|a: Seq<char>, b: Seq<char>, c: Seq<char>|
            #![trigger path_before(a, b), path_before(b, c)]
            !path_before(a, b) && !path_before(b, a) && !path_before(b, c) && !path_before(c, b)
                ==> !path_before(a, c) && !path_before(c, a),
{
    assert forall|a: Seq<char>| !#[trigger] path_before(a, a) by {
        lemma_before_irreflexive(a, 0);
    }
    assert forall|a: Seq<char>, b: Seq<char>, c: Seq<char>|
        #[trigger] path_before(a, b) && #[trigger] path_before(b, c) implies path_before(a, c) by {
        lemma_before_transitive(a, b, c, 0);
    }
    assert forall|a: Seq<char>, b: Seq<char>, c: Seq<char>|
        #![trigger path_before(a, b), path_before(b, c)]
        !path_before(a, b) && !path_before(b, a) && !path_before(b, c) && !path_before(
            c,
            b,
        ) implies !path_before(a, c) && !path_before(c, a) by {
        lemma_incomparable_alike(a, b, 0);
        lemma_incomparable_alike(b, c, 0);
        lemma_alike_incomparable(a, c, 0);
    }
}

} // verus!
