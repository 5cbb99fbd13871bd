//! Randomized three-way partition quicksort over an ordering predicate.

use vstd::prelude::*;
use rand::Rng;

verus! {

#[verifier::external_type_specification]
#[verifier::external_body]
pub struct ExThreadRng(rand::rngs::ThreadRng);

/// Relies on rand's `ThreadRng::default`, which hands out the generator of
/// the calling thread.
#[verifier::external_body]
fn new_rng() -> (r: rand::rngs::ThreadRng) {
    rand::rngs::ThreadRng::default()
}

/// Relies on rand's `Rng::gen_range`: for a non-empty range `lo..hi` it
/// returns a value of that range (it panics on an empty one).
#[verifier::external_body]
fn random_index(rng: &mut rand::rngs::ThreadRng, lo: usize, hi: usize) -> (r: usize)
    requires
        lo < hi,
    ensures
        lo <= r < hi,
{
    rng.gen_range(lo..hi)
}

/// Relies on `slice::swap`: the two elements trade places.
#[verifier::external_body]
fn swap_items<T>(elements: &mut Vec<T>, i: usize, j: usize)
    requires
        i < old(elements).len(),
        j < old(elements).len(),
    ensures
        final(elements)@ == old(elements)@.update(i as int, old(elements)@[j as int]).update(
            j as int,
            old(elements)@[i as int],
        ),
{
    elements.swap(i, j)
}

/// `a` comes strictly before `b` under `order`.
pub open spec fn less<T>(order: spec_fn(T, T) -> bool, a: T, b: T) -> bool {
    order(a, b)
}

/// Neither of `a` and `b` comes before the other.
pub open spec fn equivalent<T>(order: spec_fn(T, T) -> bool, a: T, b: T) -> bool {
    !less(order, a, b) && !less(order, b, a)
}

/// `order` is a strict weak ordering.
pub open spec fn strict_weak_order<T>(order: spec_fn(T, T) -> bool) -> bool {
    &&& forall|a: T| !#[trigger] less(order, a, a)
    &&& forall|a: T, b: T, c: T|
        #[trigger] less(order, a, b) && #[trigger] less(order, b, c) ==> less(order, a, c)
    &&& forall|a: T, b: T, c: T|
        #[trigger] equivalent(order, a, b) && #[trigger] equivalent(order, b, c) ==> equivalent(
            order,
            a,
            c,
        )
}

/// `cmp` can be called on any two values and answers whether the first
/// comes before the second under `order`.
pub open spec fn decides<T, F: Fn(&T, &T) -> bool>(cmp: F, order: spec_fn(T, T) -> bool) -> bool {
    &&& forall|a: T, b: T| #[trigger] cmp.requires((&a, &b))
    &&& forall|a: T, b: T, r: bool| #[trigger] cmp.ensures((&a, &b), r) ==> r == order(a, b)
}

/// Some strict weak ordering that `cmp` decides.
pub open spec fn order_of<T, F: Fn(&T, &T) -> bool>(cmp: F) -> spec_fn(T, T) -> bool {
    choose|order: spec_fn(T, T) -> bool| decides(cmp, order) && strict_weak_order(order)
}

/// No element of `s` comes before an element that precedes it.
pub open spec fn sorted_by<T>(order: spec_fn(T, T) -> bool, s: Seq<T>) -> bool {
    forall|i: int, j: int| 0 <= i < j < s.len() ==> !#[trigger] less(order, s[j], s[i])
}

/// Sorts `elements` in place by a strict weak ordering `cmp` decides; the
/// elements are rearranged, never lost or duplicated. Elements equivalent
/// under the ordering may end up in any relative order.
pub fn sort<T, F: Fn(&T, &T) -> bool>(elements: &mut Vec<T>, cmp: &F)
    requires
        exists|order: spec_fn(T, T) -> bool| decides(*cmp, order) && strict_weak_order(order),
    ensures
        final(elements)@.to_multiset() == old(elements)@.to_multiset(),
        sorted_by(order_of(*cmp), final(elements)@),
{
    sort_by_order(elements, cmp, Ghost(order_of(*cmp)));
}

/// Sorts `elements` in place by `order`, which `cmp` decides.
pub fn sort_by_order<T, F: Fn(&T, &T) -> bool>(
    elements: &mut Vec<T>,
    cmp: &F,
    Ghost(order): Ghost<spec_fn(T, T) -> bool>,
)
    requires
        decides(*cmp, order),
        strict_weak_order(order),
    ensures
        final(elements)@.to_multiset() == old(elements)@.to_multiset(),
        sorted_by(order, final(elements)@),
{
    let mut rng = new_rng();
    let size = elements.len();
    qsort(elements, 0, size, cmp, Ghost(order), &mut rng);
    proof {
        assert(final(elements)@.subrange(0, size as int) =~= final(elements)@);
        assert(old(elements)@.subrange(0, size as int) =~= old(elements)@);
    }
}

/// Two sorted arrangements of the same elements agree position by position
/// up to equivalence: sorting what is already sorted changes it only by
/// reordering elements that are equivalent to one another.
pub proof fn lemma_sorted_unique<T>(order: spec_fn(T, T) -> bool, a: Seq<T>, b: Seq<T>)
    requires
        strict_weak_order(order),
        sorted_by(order, a),
        sorted_by(order, b),
        a.to_multiset() == b.to_multiset(),
    ensures
        a.len() == b.len(),
        forall|i: int| 0 <= i < a.len() ==> #[trigger] equivalent(order, a[i], b[i]),
    decreases a.len(),
{
    broadcast use vstd::seq_lib::group_to_multiset_ensures;
    broadcast use vstd::multiset::group_multiset_axioms;

    assert(a.len() == a.to_multiset().len());
    assert(b.len() == b.to_multiset().len());
    if a.len() > 0 {
        let x = a[0];
        assert(a.contains(x));
        assert(b.to_multiset().count(x) > 0);
        let j = choose|j: int| 0 <= j < b.len() && b[j] == x;
        assert(b.contains(b[0]));
        assert(a.to_multiset().count(b[0]) > 0);
        let i = choose|i: int| 0 <= i < a.len() && a[i] == b[0];
        if i > 0 {
            assert(!less(order, a[i], a[0]));
        }
        if j > 0 {
            assert(!less(order, b[j], b[0]));
        }
        assert(equivalent(order, a[0], b[0]));
        assert forall|k: int| 0 <= k <= j implies #[trigger] equivalent(order, b[k], b[0]) by {
            if k > 0 {
                assert(!less(order, b[k], b[0]));
                if k < j {
                    assert(!less(order, b[j], b[k]));
                }
                if less(order, b[0], b[k]) {
                    assert(equivalent(order, b[0], b[j]));
                    if less(order, b[k], b[j]) {
                        assert(less(order, b[0], b[k]) && less(order, b[k], b[j]));
                    } else {
                        assert(equivalent(order, b[k], b[j]));
                        assert(equivalent(order, b[j], b[0]));
                        assert(equivalent(order, b[k], b[j]) && equivalent(order, b[j], b[0]));
                    }
                }
            }
        }
        let a2 = a.drop_first();
        let b2 = b.remove(j);
        assert(a2 =~= a.remove(0));
        assert(a2.to_multiset() =~= b2.to_multiset());
        assert forall|p: int, q: int| 0 <= p < q < b2.len() implies !#[trigger] less(
            order,
            b2[q],
            b2[p],
        ) by {
            let p1 = if p < j {
                p
            } else {
                p + 1
            };
            let q1 = if q < j {
                q
            } else {
                q + 1
            };
            assert(b2[p] == b[p1] && b2[q] == b[q1]);
        }
        assert forall|p: int, q: int| 0 <= p < q < a2.len() implies !#[trigger] less(
            order,
            a2[q],
            a2[p],
        ) by {
            assert(a2[p] == a[p + 1] && a2[q] == a[q + 1]);
        }
        lemma_sorted_unique(order, a2, b2);
        assert forall|m: int| 0 <= m < a.len() implies #[trigger] equivalent(order, a[m], b[m]) by {
            if m > 0 {
                assert(equivalent(order, a2[m - 1], b2[m - 1]));
                if m - 1 >= j {
                    assert(b2[m - 1] == b[m]);
                } else {
                    assert(b2[m - 1] == b[m - 1]);
                    assert(equivalent(order, b[m - 1], b[0]));
                    assert(equivalent(order, b[m], b[0]));
                    assert(equivalent(order, b[0], b[m]));
                    assert(equivalent(order, b[m - 1], b[0]) && equivalent(order, b[0], b[m]));
                    assert(equivalent(order, b[m - 1], b[m]));
                    assert(equivalent(order, a[m], b[m - 1]) && equivalent(order, b[m - 1], b[m]));
                }
            }
        }
    }
}

fn qsort<T, F: Fn(&T, &T) -> bool>(
    elements: &mut Vec<T>,
    lo: usize,
    hi: usize,
    cmp: &F,
    Ghost(order): Ghost<spec_fn(T, T) -> bool>,
    rng: &mut rand::rngs::ThreadRng,
)
    requires
        lo <= hi <= old(elements).len(),
        decides(*cmp, order),
        strict_weak_order(order),
    ensures
        final(elements).len() == old(elements).len(),
        forall|k: int|
            0 <= k < old(elements).len() && !(lo <= k < hi) ==> final(elements)@[k]
                == old(elements)@[k],
        final(elements)@.subrange(lo as int, hi as int).to_multiset() == old(
            elements,
        )@.subrange(lo as int, hi as int).to_multiset(),
        forall|i: int, j: int|
            lo <= i < j < hi ==> !#[trigger] less(order, final(elements)@[j], final(elements)@[i]),
    decreases hi - lo,
{
    if hi - lo < 2 {
        return;
    }
    let ghost s0 = elements@;
    let mid = random_index(rng, lo, hi);
    let (left, right) = partition(elements, lo, hi, mid, cmp, Ghost(order));
    let ghost s1 = elements@;
    let ghost p = s1[left as int];
    qsort(elements, lo, left, cmp, Ghost(order), rng);
    let ghost s2 = elements@;
    qsort(elements, right, hi, cmp, Ghost(order), rng);
    proof {
        let s3 = elements@;
        assert(s3.subrange(lo as int, left as int) =~= s2.subrange(lo as int, left as int));
        assert(s2.subrange(right as int, hi as int) =~= s1.subrange(right as int, hi as int));
        assert(s3.subrange(left as int, right as int) =~= s1.subrange(left as int, right as int));
        lemma_multiset_all(
            s3.subrange(lo as int, left as int),
            s1.subrange(lo as int, left as int),
            |x: T| less(order, x, p),
        );
        lemma_multiset_all(
            s3.subrange(right as int, hi as int),
            s1.subrange(right as int, hi as int),
            |x: T| less(order, p, x),
        );
        assert forall|k: int| lo <= k < left implies #[trigger] less(order, s3[k], p) by {
            assert(s3[k] == s3.subrange(lo as int, left as int)[k - lo]);
        }
        assert forall|k: int| right <= k < hi implies #[trigger] less(order, p, s3[k]) by {
            assert(s3[k] == s3.subrange(right as int, hi as int)[k - right]);
        }
        assert forall|i: int, j: int| lo <= i < j < hi implies !#[trigger] less(
            order,
            s3[j],
            s3[i],
        ) by {
            if i < left && j < left {
            } else if right <= i && right <= j {
            } else if i < left && j < right {
                assert(equivalent(order, s3[j], p));
                assert(less(order, s3[i], p));
                if less(order, s3[j], s3[i]) {
                    assert(less(order, s3[j], s3[i]) && less(order, s3[i], p));
                    assert(less(order, s3[j], p));
                }
            } else if i < left {
                assert(less(order, s3[i], p) && less(order, p, s3[j]));
                assert(less(order, s3[i], s3[j]));
                if less(order, s3[j], s3[i]) {
                    assert(less(order, s3[i], s3[j]) && less(order, s3[j], s3[i]));
                    assert(less(order, s3[i], s3[i]));
                }
            } else if j < right {
                assert(equivalent(order, s3[i], p));
                assert(equivalent(order, s3[j], p));
                assert(equivalent(order, p, s3[j]));
                assert(equivalent(order, s3[i], s3[j]));
            } else {
                assert(equivalent(order, s3[i], p));
                assert(less(order, p, s3[j]));
                if less(order, s3[j], s3[i]) {
                    assert(less(order, p, s3[j]) && less(order, s3[j], s3[i]));
                    assert(less(order, p, s3[i]));
                }
            }
        }
        lemma_multiset_split3(s1, lo as int, left as int, right as int, hi as int);
        lemma_multiset_split3(s3, lo as int, left as int, right as int, hi as int);
    }
}

/// Moves the value at `pivot_index` to its final place within `lo..hi`, with
/// every element before it coming before the pivot, then a band of elements
/// equivalent to it, then the elements that come after it. Returns the start
/// of the pivot's band and the end of that band.
fn partition<T, F: Fn(&T, &T) -> bool>(
    elements: &mut Vec<T>,
    lo: usize,
    hi: usize,
    pivot_index: usize,
    cmp: &F,
    Ghost(order): Ghost<spec_fn(T, T) -> bool>,
) -> (r: (usize, usize))
    requires
        lo <= pivot_index < hi <= old(elements).len(),
        decides(*cmp, order),
        strict_weak_order(order),
    ensures
        lo <= r.0 < r.1 <= hi,
        final(elements).len() == old(elements).len(),
        forall|k: int|
            0 <= k < old(elements).len() && !(lo <= k < hi) ==> final(elements)@[k]
                == old(elements)@[k],
        final(elements)@.subrange(lo as int, hi as int).to_multiset() == old(
            elements,
        )@.subrange(lo as int, hi as int).to_multiset(),
        forall|k: int|
            lo <= k < r.0 ==> #[trigger] less(order, final(elements)@[k], final(elements)@[r.0 as int]),
        forall|k: int|
            r.0 <= k < r.1 ==> #[trigger] equivalent(
                order,
                final(elements)@[k],
                final(elements)@[r.0 as int],
            ),
        forall|k: int|
            r.1 <= k < hi ==> #[trigger] less(order, final(elements)@[r.0 as int], final(elements)@[k]),
{
    let ghost s0 = elements@;
    let ghost p = s0[pivot_index as int];
    let mut num_less_than_pivot: usize = 0;
    let mut k: usize = lo;
    while k < hi
        invariant
            lo <= k <= hi <= elements.len(),
            elements@ == s0,
            lo <= pivot_index < hi,
            p == s0[pivot_index as int],
            decides(*cmp, order),
            strict_weak_order(order),
            num_less_than_pivot == count_below(order, s0.subrange(lo as int, k as int), p),
            num_less_than_pivot <= k - lo,
        decreases hi - k,
    {
        if cmp(&elements[k], &elements[pivot_index]) {
            num_less_than_pivot += 1;
        }
        proof {
            assert(s0.subrange(lo as int, k + 1).drop_last() =~= s0.subrange(lo as int, k as int));
        }
        k += 1;
    }
    proof {
        lemma_count_below_lt(order, s0.subrange(lo as int, hi as int), p, pivot_index - lo);
    }
    let pivot_position = lo + num_less_than_pivot;
    swap_items(elements, pivot_position, pivot_index);
    let ghost s1 = elements@;
    proof {
        lemma_swap_multiset(s0, lo as int, hi as int, pivot_position as int, pivot_index as int);
        lemma_count_below_perm(order, s1.subrange(lo as int, hi as int), s0.subrange(lo as int, hi as int), p);
    }
    let mut less_id: usize = lo;
    let mut i: usize = lo;
    while i < hi
        invariant
            lo <= less_id <= i <= hi <= elements.len(),
            less_id <= pivot_position < hi,
            pivot_position - lo == count_below(order, s1.subrange(lo as int, hi as int), p),
            decides(*cmp, order),
            strict_weak_order(order),
            elements.len() == s0.len(),
            s1.len() == s0.len(),
            forall|k: int| 0 <= k < s0.len() && !(lo <= k < hi) ==> elements@[k] == s0[k],
            forall|k: int| i <= k < hi ==> elements@[k] == s1[k],
            elements@[pivot_position as int] == p,
            less_id - lo == count_below(order, s1.subrange(lo as int, i as int), p),
            forall|k: int| lo <= k < less_id ==> #[trigger] less(order, elements@[k], p),
            forall|k: int| less_id <= k < i ==> !#[trigger] less(order, elements@[k], p),
            elements@.subrange(lo as int, hi as int).to_multiset() == s0.subrange(
                lo as int,
                hi as int,
            ).to_multiset(),
        decreases hi - i,
    {
        let ghost before = elements@;
        proof {
            assert(s1.subrange(lo as int, i + 1).drop_last() =~= s1.subrange(lo as int, i as int));
            lemma_count_below_prefix(order, s1.subrange(lo as int, hi as int), p, i + 1 - lo);
            assert(s1.subrange(lo as int, hi as int).subrange(0, i + 1 - lo) =~= s1.subrange(
                lo as int,
                i + 1,
            ));
        }
        if cmp(&elements[i], &elements[pivot_position]) {
            proof {
                assert(less_id != pivot_position);
            }
            swap_items(elements, less_id, i);
            proof {
                lemma_swap_multiset(before, lo as int, hi as int, less_id as int, i as int);
            }
            less_id += 1;
        }
        i += 1;
    }
    proof {
        assert(s1.subrange(lo as int, hi as int) =~= s1.subrange(lo as int, i as int));
    }
    let mut greater_id: usize = pivot_position + 1;
    let mut i: usize = pivot_position + 1;
    while i < hi
        invariant
            lo <= pivot_position < greater_id <= i <= hi <= elements.len(),
            decides(*cmp, order),
            strict_weak_order(order),
            elements.len() == s0.len(),
            forall|k: int| 0 <= k < s0.len() && !(lo <= k < hi) ==> elements@[k] == s0[k],
            elements@[pivot_position as int] == p,
            forall|k: int| lo <= k < pivot_position ==> #[trigger] less(order, elements@[k], p),
            forall|k: int|
                pivot_position < k < greater_id ==> #[trigger] equivalent(order, elements@[k], p),
            forall|k: int| greater_id <= k < i ==> #[trigger] less(order, p, elements@[k]),
            forall|k: int| i <= k < hi ==> !#[trigger] less(order, elements@[k], p),
            elements@.subrange(lo as int, hi as int).to_multiset() == s0.subrange(
                lo as int,
                hi as int,
            ).to_multiset(),
        decreases hi - i,
    {
        let ghost before = elements@;
        if !cmp(&elements[i], &elements[pivot_position]) && !cmp(
            &elements[pivot_position],
            &elements[i],
        ) {
            swap_items(elements, greater_id, i);
            proof {
                lemma_swap_multiset(before, lo as int, hi as int, greater_id as int, i as int);
                assert(equivalent(order, before[i as int], p));
            }
            greater_id += 1;
        } else {
            assert(!less(order, before[i as int], p));
            assert(less(order, p, before[i as int]));
        }
        i += 1;
    }
    (pivot_position, greater_id)
}

/// How many elements of `s` come before `p`.
spec fn count_below<T>(order: spec_fn(T, T) -> bool, s: Seq<T>, p: T) -> nat
    decreases s.len(),
{
    if s.len() == 0 {
        0
    } else {
        count_below(order, s.drop_last(), p) + if less(order, s.last(), p) {
            1nat
        } else {
            0nat
        }
    }
}

proof fn lemma_count_below_le<T>(order: spec_fn(T, T) -> bool, s: Seq<T>, p: T)
    ensures
        count_below(order, s, p) <= s.len(),
    decreases s.len(),
{
    if s.len() > 0 {
        lemma_count_below_le(order, s.drop_last(), p);
    }
}

proof fn lemma_count_below_lt<T>(order: spec_fn(T, T) -> bool, s: Seq<T>, p: T, idx: int)
    requires
        0 <= idx < s.len(),
        !less(order, s[idx], p),
    ensures
        count_below(order, s, p) < s.len(),
    decreases s.len(),
{
    if idx == s.len() - 1 {
        lemma_count_below_le(order, s.drop_last(), p);
    } else {
        lemma_count_below_lt(order, s.drop_last(), p, idx);
    }
}

proof fn lemma_count_below_prefix<T>(order: spec_fn(T, T) -> bool, s: Seq<T>, p: T, n: int)
    requires
        0 <= n <= s.len(),
    ensures
        count_below(order, s.subrange(0, n), p) <= count_below(order, s, p),
    decreases s.len(),
{
    if n < s.len() {
        lemma_count_below_prefix(order, s.drop_last(), p, n);
        assert(s.drop_last().subrange(0, n) =~= s.subrange(0, n));
    } else {
        assert(s.subrange(0, n) =~= s);
    }
}

proof fn lemma_count_below_add<T>(order: spec_fn(T, T) -> bool, a: Seq<T>, b: Seq<T>, p: T)
    ensures
        count_below(order, a + b, p) == count_below(order, a, p) + count_below(order, b, p),
    decreases b.len(),
{
    if b.len() == 0 {
        assert(a + b =~= a);
    } else {
        lemma_count_below_add(order, a, b.drop_last(), p);
        assert((a + b).drop_last() =~= a + b.drop_last());
    }
}

proof fn lemma_count_below_perm<T>(order: spec_fn(T, T) -> bool, a: Seq<T>, b: Seq<T>, p: T)
    requires
        a.to_multiset() == b.to_multiset(),
    ensures
        count_below(order, a, p) == count_below(order, b, p),
    decreases a.len(),
{
    broadcast use vstd::seq_lib::group_to_multiset_ensures;
    broadcast use vstd::multiset::group_multiset_axioms;

    if a.len() == 0 {
        assert(b.to_multiset().len() == 0);
        assert(b.len() == 0);
    } else {
        let x = a.last();
        assert(a.contains(x)) by {
            assert(a[a.len() - 1] == x);
        }
        assert(b.to_multiset().count(x) > 0);
        assert(b.contains(x));
        let j = choose|j: int| 0 <= j < b.len() && b[j] == x;
        let b2 = b.remove(j);
        assert(a.drop_last() =~= a.remove(a.len() - 1));
        assert(a.drop_last().to_multiset() =~= b2.to_multiset());
        lemma_count_below_perm(order, a.drop_last(), b2, p);
        assert(b2 =~= b.subrange(0, j) + b.subrange(j + 1, b.len() as int));
        assert(b =~= b.subrange(0, j) + (seq![x] + b.subrange(j + 1, b.len() as int)));
        lemma_count_below_add(order, b.subrange(0, j), b.subrange(j + 1, b.len() as int), p);
        lemma_count_below_add(order, b.subrange(0, j), seq![x] + b.subrange(j + 1, b.len() as int), p);
        lemma_count_below_add(order, seq![x], b.subrange(j + 1, b.len() as int), p);
        assert(seq![x].drop_last() =~= Seq::<T>::empty());
        assert(count_below(order, Seq::<T>::empty(), p) == 0);
        assert(count_below(order, seq![x], p) == if less(order, x, p) {
            1nat
        } else {
            0nat
        });
        assert(count_below(order, a, p) == count_below(order, a.drop_last(), p) + if less(order, x, p) {
            1nat
        } else {
            0nat
        });
    }
}

/// Swapping two positions of `lo..hi` keeps what that range holds.
proof fn lemma_swap_multiset<T>(s: Seq<T>, lo: int, hi: int, i: int, j: int)
    requires
        0 <= lo <= i < hi <= s.len(),
        lo <= j < hi,
    ensures
        ({
            let t = s.update(i, s[j]).update(j, s[i]);
            t.subrange(lo, hi).to_multiset() == s.subrange(lo, hi).to_multiset()
        }),
{
    broadcast use vstd::seq_lib::group_to_multiset_ensures;
    broadcast use vstd::multiset::group_multiset_axioms;

    let r = s.subrange(lo, hi);
    let t = s.update(i, s[j]).update(j, s[i]);
    assert(t.subrange(lo, hi) =~= r.update(i - lo, r[j - lo]).update(j - lo, r[i - lo]));
    let u = r.update(i - lo, r[j - lo]);
    vstd::seq_lib::to_multiset_update(r, i - lo, r[j - lo]);
    vstd::seq_lib::to_multiset_update(u, j - lo, r[i - lo]);
    if i == j {
        assert(u =~= r);
        assert(r.update(i - lo, r[i - lo]) =~= r);
    } else {
        assert(u[j - lo] == r[j - lo]);
    }
    assert(u.update(j - lo, r[i - lo]).to_multiset() =~= r.to_multiset());
}

/// A property of every element of `b` holds of every element of a
/// rearrangement `a` of it.
proof fn lemma_multiset_all<T>(a: Seq<T>, b: Seq<T>, pred: spec_fn(T) -> bool)
    requires
        a.to_multiset() == b.to_multiset(),
        forall|k: int| 0 <= k < b.len() ==> pred(#[trigger] b[k]),
    ensures
        forall|k: int| 0 <= k < a.len() ==> pred(#[trigger] a[k]),
{
    broadcast use vstd::seq_lib::group_to_multiset_ensures;

    assert forall|k: int| 0 <= k < a.len() implies pred(#[trigger] a[k]) by {
        assert(a.contains(a[k]));
        assert(b.to_multiset().count(a[k]) > 0);
        assert(b.contains(a[k]));
    }
}

/// What `lo..hi` holds is what its three consecutive parts hold together.
proof fn lemma_multiset_split3<T>(s: Seq<T>, lo: int, m1: int, m2: int, hi: int)
    requires
        0 <= lo <= m1 <= m2 <= hi <= s.len(),
    ensures
        s.subrange(lo, hi).to_multiset() == s.subrange(lo, m1).to_multiset().add(
            s.subrange(m1, m2).to_multiset(),
        ).add(s.subrange(m2, hi).to_multiset()),
{
    assert(s.subrange(lo, hi) =~= (s.subrange(lo, m1) + s.subrange(m1, m2)) + s.subrange(m2, hi));
    vstd::seq_lib::lemma_multiset_commutative(s.subrange(lo, m1) + s.subrange(m1, m2), s.subrange(m2, hi));
    vstd::seq_lib::lemma_multiset_commutative(s.subrange(lo, m1), s.subrange(m1, m2));
}

} // verus!
