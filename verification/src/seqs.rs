//! Sorted offset sequences, occupancy counting, and the two-pointer
//! intersection of ascending posting lists.

use vstd::prelude::*;

verus! {

/// A strictly ascending sequence of offsets.
pub open spec fn sorted_strict(s: Seq<usize>) -> bool {
    forall|p: int, q: int| 0 <= p < q < s.len() ==> s[p] < s[q]
}

/// Membership in a pushed sequence.
pub proof fn lemma_push_contains(s: Seq<usize>, v: usize, x: usize)
    ensures
        s.push(v).contains(x) <==> (s.contains(x) || x == v),
{
    if s.push(v).contains(x) {
        let i = choose|i: int| 0 <= i < s.push(v).len() && s.push(v)[i] == x;
        if i < s.len() {
            assert(s[i] == x);
        }
    }
    if s.contains(x) {
        let i = choose|i: int| 0 <= i < s.len() && s[i] == x;
        assert(s.push(v)[i] == x);
    }
    if x == v {
        assert(s.push(v)[s.len() as int] == x);
    }
}

/// A prefix grows one element at a time.
pub proof fn lemma_take_step(s: Seq<usize>, j: int)
    requires
        0 <= j < s.len(),
    ensures
        s.take(j + 1) =~= s.take(j).push(s[j]),
{
}

/// Members of a prefix are members of the whole.
pub proof fn lemma_take_subset(s: Seq<usize>, j: int, x: usize)
    requires
        0 <= j <= s.len(),
        s.take(j).contains(x),
    ensures
        s.contains(x),
{
    let i = choose|i: int| 0 <= i < j && s.take(j)[i] == x;
    assert(s[i] == x);
}

/// The least element of a sorted sequence is its head.
pub proof fn lemma_sorted_head(a: Seq<usize>, x: usize)
    requires
        sorted_strict(a),
        a.len() > 0,
        a.contains(x),
    ensures
        a[0] <= x,
{
    let i = choose|i: int| 0 <= i < a.len() && a[i] == x;
    if i > 0 {
        assert(a[0] < a[i]);
    }
}

/// A member of a sorted sequence smaller than `s[j]` already lies in the
/// prefix of length `j`.
pub proof fn lemma_sorted_take_contains(s: Seq<usize>, j: int, x: usize)
    requires
        sorted_strict(s),
        0 <= j <= s.len(),
        s.contains(x),
        j == s.len() || x < s[j],
    ensures
        s.take(j).contains(x),
{
    let i = choose|i: int| 0 <= i < s.len() && s[i] == x;
    if i >= j {
        assert(j < s.len());
        if i > j {
            assert(s[j] < s[i]);
        }
        assert(false);
    }
    assert(s.take(j)[i] == x);
}

/// Appending an element larger than every member keeps a sequence sorted.
pub proof fn lemma_sorted_push(s: Seq<usize>, x: usize)
    requires
        sorted_strict(s),
        forall|y: usize| s.contains(y) ==> y < x,
    ensures
        sorted_strict(s.push(x)),
{
    let t = s.push(x);
    assert forall|p: int, q: int| 0 <= p < q < t.len() implies t[p] < t[q] by {
        if q == s.len() {
            assert(s.contains(s[p]));
        }
    }
}

/// Two strictly ascending sequences with the same members are equal.
/// This is why repeated queries against one immutable index agree: the
/// result is pinned by its membership and its order alone.
pub proof fn lemma_sorted_unique(a: Seq<usize>, b: Seq<usize>)
    requires
        sorted_strict(a),
        sorted_strict(b),
        forall|x: usize| a.contains(x) <==> b.contains(x),
    ensures
        a == b,
    decreases a.len(),
{
    if a.len() == 0 {
        if b.len() > 0 {
            assert(b.contains(b[0]));
            assert(false);
        }
        assert(a =~= b);
    } else if b.len() == 0 {
        assert(a.contains(a[0]));
        assert(false);
    } else {
        assert(a.contains(a[0]));
        assert(b.contains(b[0]));
        lemma_sorted_head(a, b[0]);
        lemma_sorted_head(b, a[0]);
        assert(a[0] == b[0]);
        let a1 = a.subrange(1, a.len() as int);
        let b1 = b.subrange(1, b.len() as int);
        assert forall|x: usize| a1.contains(x) implies b1.contains(x) by {
            let i = choose|i: int| 0 <= i < a1.len() && a1[i] == x;
            assert(a[i + 1] == x);
            assert(a.contains(x));
            assert(a[0] < x);
            assert(b.contains(x));
            let j = choose|j: int| 0 <= j < b.len() && b[j] == x;
            assert(j > 0);
            assert(b1[j - 1] == x);
        }
        assert forall|x: usize| b1.contains(x) implies a1.contains(x) by {
            let i = choose|i: int| 0 <= i < b1.len() && b1[i] == x;
            assert(b[i + 1] == x);
            assert(b.contains(x));
            assert(b[0] < x);
            assert(a.contains(x));
            let j = choose|j: int| 0 <= j < a.len() && a[j] == x;
            assert(j > 0);
            assert(a1[j - 1] == x);
        }
        assert forall|p: int, q: int| 0 <= p < q < a1.len() implies a1[p] < a1[q] by {
            assert(a[p + 1] < a[q + 1]);
        }
        assert forall|p: int, q: int| 0 <= p < q < b1.len() implies b1[p] < b1[q] by {
            assert(b[p + 1] < b[q + 1]);
        }
        lemma_sorted_unique(a1, b1);
        assert(a.len() == b.len());
        assert forall|t: int| 0 <= t < a.len() implies a[t] == b[t] by {
            if t > 0 {
                assert(a1[t - 1] == b1[t - 1]);
            }
        }
        assert(a =~= b);
    }
}

/// Number of `true` entries of an occupancy sequence.
pub open spec fn count_true(s: Seq<bool>) -> int
    decreases s.len(),
{
    if s.len() == 0 {
        0
    } else {
        count_true(s.drop_last()) + if s.last() {
            1int
        } else {
            0int
        }
    }
}

pub proof fn lemma_count_true_bound(s: Seq<bool>)
    ensures
        0 <= count_true(s) <= s.len(),
    decreases s.len(),
{
    if s.len() > 0 {
        lemma_count_true_bound(s.drop_last());
    }
}

/// Marking a clear slot occupied raises the count by one.
pub proof fn lemma_count_true_set(s: Seq<bool>, i: int)
    requires
        0 <= i < s.len(),
        !s[i],
    ensures
        count_true(s.update(i, true)) == count_true(s) + 1,
    decreases s.len(),
{
    let t = s.update(i, true);
    if i == s.len() - 1 {
        assert(t.drop_last() =~= s.drop_last());
    } else {
        assert(t.drop_last() =~= s.drop_last().update(i, true));
        lemma_count_true_set(s.drop_last(), i);
    }
}

/// A fully clear sequence has count zero.
pub proof fn lemma_count_true_none(s: Seq<bool>)
    requires
        forall|i: int| 0 <= i < s.len() ==> !s[i],
    ensures
        count_true(s) == 0,
    decreases s.len(),
{
    if s.len() > 0 {
        lemma_count_true_none(s.drop_last());
    }
}

/// A fully occupied sequence has count equal to its length.
pub proof fn lemma_count_true_full(s: Seq<bool>)
    requires
        forall|i: int| 0 <= i < s.len() ==> s[i],
    ensures
        count_true(s) == s.len(),
    decreases s.len(),
{
    if s.len() > 0 {
        lemma_count_true_full(s.drop_last());
    }
}

/// Sum of the per-slot counters of the occupied slots below `upto`.
pub open spec fn sum_upto(counts: Seq<usize>, occ: Seq<bool>, upto: int) -> int
    decreases upto,
{
    if upto <= 0 {
        0
    } else {
        sum_upto(counts, occ, upto - 1) + if occ[upto - 1] {
            counts[upto - 1] as int
        } else {
            0int
        }
    }
}

/// With no occupied slot the sum is zero.
pub proof fn lemma_sum_upto_none(counts: Seq<usize>, occ: Seq<bool>, upto: int)
    requires
        forall|i: int| 0 <= i < occ.len() ==> !occ[i],
        upto <= occ.len(),
    ensures
        sum_upto(counts, occ, upto) == 0,
    decreases upto,
{
    if upto > 0 {
        lemma_sum_upto_none(counts, occ, upto - 1);
    }
}

pub proof fn lemma_sum_upto_monotone(counts: Seq<usize>, occ: Seq<bool>, a: int, b: int)
    requires
        0 <= a <= b,
    ensures
        sum_upto(counts, occ, a) <= sum_upto(counts, occ, b),
    decreases b,
{
    if b > a {
        lemma_sum_upto_monotone(counts, occ, a, b - 1);
    }
}

/// Claiming a clear slot with counter one raises the sum over any range
/// that covers the slot by one.
pub proof fn lemma_sum_upto_claim(counts: Seq<usize>, occ: Seq<bool>, i: int, upto: int)
    requires
        0 <= i < counts.len(),
        counts.len() == occ.len(),
        !occ[i],
        upto <= counts.len(),
    ensures
        sum_upto(counts.update(i, 1), occ.update(i, true), upto) == sum_upto(counts, occ, upto)
            + if i < upto {
            1int
        } else {
            0int
        },
    decreases upto,
{
    if upto > 0 {
        lemma_sum_upto_claim(counts, occ, i, upto - 1);
    }
}

/// Raising an occupied slot's counter by one raises the sum over any range
/// that covers the slot by one.
pub proof fn lemma_sum_upto_bump(counts: Seq<usize>, occ: Seq<bool>, i: int, v: usize, upto: int)
    requires
        0 <= i < counts.len(),
        occ[i],
        v as int == counts[i] + 1,
        upto <= counts.len(),
    ensures
        sum_upto(counts.update(i, v), occ, upto) == sum_upto(counts, occ, upto) + if i < upto {
            1int
        } else {
            0int
        },
    decreases upto,
{
    if upto > 0 {
        lemma_sum_upto_bump(counts, occ, i, v, upto - 1);
    }
}

/// A vector of `n` copies of `v`.
pub fn filled<T: Copy>(n: usize, v: T) -> (r: Vec<T>)
    ensures
        r@.len() == n,
        forall|i: int| 0 <= i < n ==> r@[i] == v,
{
    let mut r: Vec<T> = Vec::new();
    let mut i: usize = 0;
    while i < n
        invariant
            i <= n,
            r@.len() == i,
            forall|j: int| 0 <= j < i ==> r@[j] == v,
        decreases n - i,
    {
        r.push(v);
        i += 1;
    }
    r
}

/// Copies the half-open range `[st, st+ln)` of `v` into a fresh vector.
#[verifier::loop_isolation(false)]
pub fn copy_range(v: &Vec<usize>, st: usize, ln: usize) -> (r: Vec<usize>)
    requires
        st + ln <= v@.len(),
    ensures
        r@ == v@.subrange(st as int, st as int + ln as int),
{
    let n = v.len();
    let mut r: Vec<usize> = Vec::new();
    let mut i: usize = 0;
    while i < ln
        invariant
            i <= ln,
            r@.len() == i,
            forall|j: int| 0 <= j < i ==> r@[j] == v@[st + j],
        decreases ln - i,
    {
        r.push(v[st + i]);
        i += 1;
    }
    proof {
        assert(r@ =~= v@.subrange(st as int, st as int + ln as int));
    }
    r
}

/// Intersects two strictly ascending offset lists by a two-pointer merge.
/// The result is strictly ascending and holds exactly the common members.
#[verifier::loop_isolation(false)]
#[verifier::rlimit(60)]
pub fn intersect_sorted(a: &Vec<usize>, b: &Vec<usize>) -> (r: Vec<usize>)
    requires
        sorted_strict(a@),
        sorted_strict(b@),
    ensures
        sorted_strict(r@),
        forall|x: usize| r@.contains(x) <==> (a@.contains(x) && b@.contains(x)),
{
    let mut r: Vec<usize> = Vec::new();
    let mut i: usize = 0;
    let mut j: usize = 0;
    while i < a.len() && j < b.len()
        invariant
            i <= a@.len(),
            j <= b@.len(),
            sorted_strict(r@),
            forall|x: usize|
                r@.contains(x) <==> (a@.take(i as int).contains(x) && b@.take(
                    j as int,
                ).contains(x)),
            i < a@.len() ==> forall|x: usize| b@.take(j as int).contains(x) ==> x < a@[i as int],
            j < b@.len() ==> forall|x: usize| a@.take(i as int).contains(x) ==> x < b@[j as int],
        decreases a@.len() - i + b@.len() - j,
    {
        let av = a[i];
        let bv = b[j];
        if av < bv {
            proof {
                lemma_take_step(a@, i as int);
                assert forall|x: usize| a@.take(i + 1).contains(x) implies x == av || a@.take(
                    i as int,
                ).contains(x) by {
                    lemma_push_contains(a@.take(i as int), av, x);
                }
                assert forall|x: usize|
                    r@.contains(x) implies (a@.take(i + 1).contains(x) && b@.take(
                    j as int,
                ).contains(x)) by {
                    lemma_push_contains(a@.take(i as int), av, x);
                }
                assert forall|x: usize|
                    a@.take(i + 1).contains(x) && b@.take(j as int).contains(x) implies r@.contains(
                    x,
                ) by {
                    lemma_push_contains(a@.take(i as int), av, x);
                }
                assert forall|x: usize| #[trigger] a@.take(i + 1).contains(x) implies x <= av by {
                    lemma_push_contains(a@.take(i as int), av, x);
                    if x != av {
                        let p = choose|p: int| 0 <= p < i && a@.take(i as int)[p] == x;
                        assert(a@[p] < a@[i as int]);
                    }
                }
            }
            i += 1;
        } else if bv < av {
            proof {
                lemma_take_step(b@, j as int);
                assert forall|x: usize| b@.take(j + 1).contains(x) implies x == bv || b@.take(
                    j as int,
                ).contains(x) by {
                    lemma_push_contains(b@.take(j as int), bv, x);
                }
                assert forall|x: usize|
                    r@.contains(x) implies (a@.take(i as int).contains(x) && b@.take(
                    j + 1,
                ).contains(x)) by {
                    lemma_push_contains(b@.take(j as int), bv, x);
                }
                assert forall|x: usize|
                    a@.take(i as int).contains(x) && b@.take(j + 1).contains(x) implies r@.contains(
                    x,
                ) by {
                    lemma_push_contains(b@.take(j as int), bv, x);
                }
                assert forall|x: usize| #[trigger] b@.take(j + 1).contains(x) implies x <= bv by {
                    lemma_push_contains(b@.take(j as int), bv, x);
                    if x != bv {
                        let p = choose|p: int| 0 <= p < j && b@.take(j as int)[p] == x;
                        assert(b@[p] < b@[j as int]);
                    }
                }
            }
            j += 1;
        } else {
            proof {
                assert forall|y: usize| r@.contains(y) implies y < av by {
                    assert(a@.take(i as int).contains(y));
                    let p = choose|p: int| 0 <= p < i && a@.take(i as int)[p] == y;
                    assert(a@[p] < a@[i as int]);
                }
                lemma_sorted_push(r@, av);
            }
            let ghost r0 = r@;
            r.push(av);
            proof {
                lemma_take_step(a@, i as int);
                lemma_take_step(b@, j as int);
                assert forall|x: usize|
                    r@.contains(x) implies (a@.take(i + 1).contains(x) && b@.take(
                    j + 1,
                ).contains(x)) by {
                    lemma_push_contains(r0, av, x);
                    lemma_push_contains(a@.take(i as int), av, x);
                    lemma_push_contains(b@.take(j as int), bv, x);
                    if x != av {
                        lemma_take_subset(a@, i as int, x);
                        lemma_take_subset(b@, j as int, x);
                    }
                }
                assert forall|x: usize|
                    a@.take(i + 1).contains(x) && b@.take(j + 1).contains(x) implies r@.contains(
                    x,
                ) by {
                    lemma_push_contains(r0, av, x);
                    lemma_push_contains(a@.take(i as int), av, x);
                    lemma_push_contains(b@.take(j as int), bv, x);
                }
                assert forall|x: usize| #[trigger] a@.take(i + 1).contains(x) implies x <= av by {
                    lemma_push_contains(a@.take(i as int), av, x);
                    if x != av {
                        let p = choose|p: int| 0 <= p < i && a@.take(i as int)[p] == x;
                        assert(a@[p] < a@[i as int]);
                    }
                }
                assert forall|x: usize| #[trigger] b@.take(j + 1).contains(x) implies x <= bv by {
                    lemma_push_contains(b@.take(j as int), bv, x);
                    if x != bv {
                        let p = choose|p: int| 0 <= p < j && b@.take(j as int)[p] == x;
                        assert(b@[p] < b@[j as int]);
                    }
                }
            }
            i += 1;
            j += 1;
        }
    }
    proof {
        assert forall|x: usize| r@.contains(x) implies (a@.contains(x) && b@.contains(x)) by {
            lemma_take_subset(a@, i as int, x);
            lemma_take_subset(b@, j as int, x);
        }
        assert forall|x: usize| a@.contains(x) && b@.contains(x) implies r@.contains(x) by {
            if i == a@.len() {
                assert(a@.take(i as int) =~= a@);
                if j < b@.len() {
                    lemma_sorted_take_contains(b@, j as int, x);
                } else {
                    assert(b@.take(j as int) =~= b@);
                }
            } else {
                assert(j == b@.len());
                assert(b@.take(j as int) =~= b@);
                lemma_sorted_take_contains(a@, i as int, x);
            }
        }
    }
    r
}

} // verus!
