//! The mathematical model of bound-finding over a sorted knot sequence.
//!
//! Every search operation of the library is characterized through two counts:
//! how many elements of the sequence are `<=` the query and how many are `<`
//! it. On a sorted sequence each count is also a partition point, which makes
//! the results of all bound-finding operations plain functions of the counts.
//! The lemmas here establish the partition view and the laws that hold of the
//! operations.

use vstd::prelude::*;

verus! {

/// A sequence is sorted: non-strictly increasing under the total order of its
/// elements. Duplicate runs are explicitly permitted.
pub open spec fn is_sorted(s: Seq<i64>) -> bool {
    forall|i: int, j: int| 0 <= i <= j < s.len() ==> s[i] <= s[j]
}

/// The number of elements of `s` that are `<=` `q`.
pub open spec fn count_le(s: Seq<i64>, q: i64) -> int
    decreases s.len(),
{
    if s.len() == 0 {
        0
    } else {
        count_le(s.drop_last(), q) + if s.last() <= q {
            1int
        } else {
            0int
        }
    }
}

/// The number of elements of `s` that are `<` `q`.
pub open spec fn count_lt(s: Seq<i64>, q: i64) -> int
    decreases s.len(),
{
    if s.len() == 0 {
        0
    } else {
        count_lt(s.drop_last(), q) + if s.last() < q {
            1int
        } else {
            0int
        }
    }
}

/// The largest index whose element is `<=` `q`, clamped to `[0, len - 1]`:
/// the result of `lower_bound` on a sorted, non-empty sequence.
pub open spec fn lower_bound_spec(s: Seq<i64>, q: i64) -> int {
    if count_le(s, q) == 0 {
        0
    } else {
        count_le(s, q) - 1
    }
}

/// The smallest index whose element is `>=` `q`, clamped to `[0, len - 1]`:
/// the result of `upper_bound` on a sorted, non-empty sequence.
pub open spec fn upper_bound_spec(s: Seq<i64>, q: i64) -> int {
    if count_lt(s, q) == s.len() {
        s.len() - 1
    } else {
        count_lt(s, q)
    }
}

/// The result of `strict_upper_bound`: the number of elements `<=` `q`, which
/// on a sorted sequence is the smallest index whose element is `>` `q`, or
/// `len` when every element is `<=` `q`.
pub open spec fn strict_upper_bound_spec(s: Seq<i64>, q: i64) -> int {
    count_le(s, q)
}

/// The result of `strict_lower_bound`: the largest index whose element is
/// `<` `q`, or `0` when every element is `>=` `q`.
pub open spec fn strict_lower_bound_spec(s: Seq<i64>, q: i64) -> int {
    if count_lt(s, q) == 0 {
        0
    } else {
        count_lt(s, q) - 1
    }
}

/// Clamps a candidate bracket start into `[0, len - 2]`, so that the bracket
/// `[v, v + 1]` stays inside the sequence.
pub open spec fn clamp_bracket(v: int, len: int) -> int {
    if v < 0 {
        0
    } else if v > len - 2 {
        len - 2
    } else {
        v
    }
}

/// The smaller index of the bracket `upper_border` returns: the bracket is
/// biased toward later indices, so that on an exact duplicate run the smaller
/// index points at the last duplicate.
pub open spec fn upper_border_min_spec(s: Seq<i64>, q: i64) -> int {
    clamp_bracket(count_le(s, q) - 1, s.len() as int)
}

/// The smaller index of the bracket `lower_border` returns: the bracket is
/// biased toward earlier indices, so that on an exact duplicate run the larger
/// index points at the first duplicate.
pub open spec fn lower_border_min_spec(s: Seq<i64>, q: i64) -> int {
    clamp_bracket(count_lt(s, q) - 1, s.len() as int)
}

/// Both counts lie between `0` and the length of the sequence, and no more
/// elements are `<` `q` than are `<=` `q`.
pub proof fn lemma_count_bounds(s: Seq<i64>, q: i64)
    ensures
        0 <= count_lt(s, q) <= count_le(s, q) <= s.len(),
    decreases s.len(),
{
    if s.len() > 0 {
        lemma_count_bounds(s.drop_last(), q);
    }
}

/// On a sorted sequence, `count_le` is a partition point: an index holds an
/// element `<=` `q` exactly when it lies below the count.
pub proof fn lemma_count_le_partition(s: Seq<i64>, q: i64)
    requires
        is_sorted(s),
    ensures
        0 <= count_le(s, q) <= s.len(),
        forall|i: int| 0 <= i < s.len() ==> (s[i] <= q <==> i < count_le(s, q)),
    decreases s.len(),
{
    lemma_count_bounds(s, q);
    if s.len() > 0 {
        let prefix = s.drop_last();
        let n = s.len() as int;
        assert forall|i: int, j: int| 0 <= i <= j < prefix.len() implies prefix[i] <= prefix[j] by {
            assert(prefix[i] == s[i]);
            assert(prefix[j] == s[j]);
        }
        lemma_count_le_partition(prefix, q);
        lemma_count_bounds(prefix, q);
        let cp = count_le(prefix, q);
        if s.last() <= q {
            assert forall|i: int| #![trigger prefix[i]] 0 <= i < n - 1 implies prefix[i] <= q by {
                assert(prefix[i] == s[i]);
                assert(s[i] <= s[n - 1]);
            }
            if cp < n - 1 {
                assert(prefix[cp] <= q);
                assert(false);
            }
            assert(count_le(s, q) == n);
            assert forall|i: int| #![trigger s[i]] 0 <= i < n implies s[i] <= q by {
                if i < n - 1 {
                    assert(prefix[i] <= q);
                    assert(prefix[i] == s[i]);
                }
            }
        } else {
            assert(count_le(s, q) == cp);
            assert forall|i: int| #![trigger s[i]] 0 <= i < n implies (s[i] <= q <==> i < cp) by {
                if i < n - 1 {
                    assert(s[i] == prefix[i]);
                } else {
                    assert(!(s[n - 1] <= q));
                }
            }
        }
    }
}

/// On a sorted sequence, `count_lt` is a partition point: an index holds an
/// element `<` `q` exactly when it lies below the count.
pub proof fn lemma_count_lt_partition(s: Seq<i64>, q: i64)
    requires
        is_sorted(s),
    ensures
        0 <= count_lt(s, q) <= s.len(),
        forall|i: int| 0 <= i < s.len() ==> (s[i] < q <==> i < count_lt(s, q)),
    decreases s.len(),
{
    lemma_count_bounds(s, q);
    if s.len() > 0 {
        let prefix = s.drop_last();
        let n = s.len() as int;
        assert forall|i: int, j: int| 0 <= i <= j < prefix.len() implies prefix[i] <= prefix[j] by {
            assert(prefix[i] == s[i]);
            assert(prefix[j] == s[j]);
        }
        lemma_count_lt_partition(prefix, q);
        lemma_count_bounds(prefix, q);
        let cp = count_lt(prefix, q);
        if s.last() < q {
            assert forall|i: int| #![trigger prefix[i]] 0 <= i < n - 1 implies prefix[i] < q by {
                assert(prefix[i] == s[i]);
                assert(s[i] <= s[n - 1]);
            }
            if cp < n - 1 {
                assert(prefix[cp] < q);
                assert(false);
            }
            assert(count_lt(s, q) == n);
            assert forall|i: int| #![trigger s[i]] 0 <= i < n implies s[i] < q by {
                if i < n - 1 {
                    assert(prefix[i] < q);
                    assert(prefix[i] == s[i]);
                }
            }
        } else {
            assert(count_lt(s, q) == cp);
            assert forall|i: int| #![trigger s[i]] 0 <= i < n implies (s[i] < q <==> i < cp) by {
                if i < n - 1 {
                    assert(s[i] == prefix[i]);
                } else {
                    assert(!(s[n - 1] < q));
                }
            }
        }
    }
}

/// A position that partitions a sorted sequence by `<= q` is the count itself:
/// partition points are unique.
pub proof fn lemma_count_le_from_partition(s: Seq<i64>, q: i64, c: int)
    requires
        is_sorted(s),
        0 <= c <= s.len(),
        forall|i: int| 0 <= i < c ==> s[i] <= q,
        forall|i: int| c <= i < s.len() ==> !(s[i] <= q),
    ensures
        c == count_le(s, q),
{
    lemma_count_le_partition(s, q);
    let c0 = count_le(s, q);
    if c < c0 {
        assert(s[c] <= q);
        assert(false);
    }
    if c0 < c {
        assert(s[c0] <= q);
        assert(false);
    }
}

/// A position that partitions a sorted sequence by `< q` is the count itself.
pub proof fn lemma_count_lt_from_partition(s: Seq<i64>, q: i64, c: int)
    requires
        is_sorted(s),
        0 <= c <= s.len(),
        forall|i: int| 0 <= i < c ==> s[i] < q,
        forall|i: int| c <= i < s.len() ==> !(s[i] < q),
    ensures
        c == count_lt(s, q),
{
    lemma_count_lt_partition(s, q);
    let c0 = count_lt(s, q);
    if c < c0 {
        assert(s[c] < q);
        assert(false);
    }
    if c0 < c {
        assert(s[c0] < q);
        assert(false);
    }
}

/// Any bracket start satisfying the loop invariant of `upper_border` — its
/// element is `<=` the query unless it is the first index, and its successor's
/// element is `>` the query unless the successor is the last index — is the
/// clamped count, so the binary search has exactly one possible answer.
pub proof fn lemma_upper_border_char(s: Seq<i64>, q: i64, a: int)
    requires
        is_sorted(s),
        s.len() >= 2,
        0 <= a <= s.len() - 2,
        a == 0 || s[a] <= q,
        a + 1 == s.len() - 1 || q < s[a + 1],
    ensures
        a == upper_border_min_spec(s, q),
{
    lemma_count_le_partition(s, q);
    let c = count_le(s, q);
    if a > 0 {
        assert(s[a] <= q);
        assert(a < c);
    }
    if a + 1 < s.len() - 1 {
        assert(!(s[a + 1] <= q));
        assert(c <= a + 1);
    }
}

/// The counterpart of [`lemma_upper_border_char`] for `lower_border`, whose
/// loop keeps its bracket start strictly below the query.
pub proof fn lemma_lower_border_char(s: Seq<i64>, q: i64, a: int)
    requires
        is_sorted(s),
        s.len() >= 2,
        0 <= a <= s.len() - 2,
        a == 0 || s[a] < q,
        a + 1 == s.len() - 1 || q <= s[a + 1],
    ensures
        a == lower_border_min_spec(s, q),
{
    lemma_count_lt_partition(s, q);
    let c = count_lt(s, q);
    if a > 0 {
        assert(s[a] < q);
        assert(a < c);
    }
    if a + 1 < s.len() - 1 {
        assert(!(s[a + 1] < q));
        assert(c <= a + 1);
    }
}

/// Raising the query never lowers either count.
pub proof fn lemma_counts_monotone(s: Seq<i64>, q1: i64, q2: i64)
    requires
        q1 <= q2,
    ensures
        count_le(s, q1) <= count_le(s, q2),
        count_lt(s, q1) <= count_lt(s, q2),
    decreases s.len(),
{
    if s.len() > 0 {
        lemma_counts_monotone(s.drop_last(), q1, q2);
    }
}

/// For queries `q1 <= q2`, `lower_bound` at `q1` is at most `lower_bound` at
/// `q2`: the bound indices move with the query.
pub proof fn lemma_lower_bound_monotonic(s: Seq<i64>, q1: i64, q2: i64)
    requires
        is_sorted(s),
        s.len() >= 1,
        q1 <= q2,
    ensures
        lower_bound_spec(s, q1) <= lower_bound_spec(s, q2),
{
    lemma_counts_monotone(s, q1, q2);
    lemma_count_bounds(s, q1);
    lemma_count_bounds(s, q2);
}

/// For queries `q1 <= q2`, `upper_bound` at `q1` is at most `upper_bound` at
/// `q2`.
pub proof fn lemma_upper_bound_monotonic(s: Seq<i64>, q1: i64, q2: i64)
    requires
        is_sorted(s),
        s.len() >= 1,
        q1 <= q2,
    ensures
        upper_bound_spec(s, q1) <= upper_bound_spec(s, q2),
{
    lemma_counts_monotone(s, q1, q2);
    lemma_count_bounds(s, q1);
    lemma_count_bounds(s, q2);
}

/// For a query inside the range of the sequence that matches at most one
/// element, `lower_bound` is at most `upper_bound`. (On a duplicate run equal
/// to the query the two cross by design: `lower_bound` returns the last
/// duplicate and `upper_bound` the first.)
pub proof fn lemma_lower_bound_le_upper_bound(s: Seq<i64>, q: i64)
    requires
        is_sorted(s),
        s.len() >= 1,
        s[0] <= q,
        q <= s[s.len() - 1],
        count_le(s, q) - count_lt(s, q) <= 1,
    ensures
        lower_bound_spec(s, q) <= upper_bound_spec(s, q),
{
    lemma_count_le_partition(s, q);
    lemma_count_lt_partition(s, q);
    assert(count_le(s, q) >= 1);
    assert(!(s[s.len() - 1] < q));
    assert(count_lt(s, q) <= s.len() - 1);
}

/// Where the element at `lower_bound` differs from the query, `lower_bound`
/// and `upper_bound` agree — provided the query does not fall strictly between
/// two distinct knots, where the two bounds bracket it one index apart.
pub proof fn lemma_bounds_equal_on_miss(s: Seq<i64>, q: i64)
    requires
        is_sorted(s),
        s.len() >= 1,
        count_le(s, q) > count_lt(s, q) || q < s[0] || q > s[s.len() - 1],
    ensures
        s[lower_bound_spec(s, q)] != q ==> lower_bound_spec(s, q) == upper_bound_spec(s, q),
{
    lemma_count_le_partition(s, q);
    lemma_count_lt_partition(s, q);
    let c_le = count_le(s, q);
    let c_lt = count_lt(s, q);
    if c_le > c_lt {
        assert(s[c_le - 1] <= q);
        assert(!(s[c_le - 1] < q));
    } else if q < s[0] {
        assert(!(s[0] <= q));
        assert(c_le == 0);
        assert(c_lt == 0);
    } else {
        assert(s[s.len() - 1] < q);
        assert forall|i: int| #![trigger s[i]] 0 <= i < s.len() implies s[i] < q by {
            assert(s[i] <= s[s.len() - 1]);
        }
        assert(c_le == s.len());
        assert(c_lt == s.len());
    }
}

/// When no element equals the query, the two border operations return the same
/// bracket: their bias differs only on exact matches.
pub proof fn lemma_borders_agree_on_miss(s: Seq<i64>, q: i64)
    requires
        is_sorted(s),
        s.len() >= 2,
        count_le(s, q) == count_lt(s, q),
    ensures
        lower_border_min_spec(s, q) == upper_border_min_spec(s, q),
{
}

} // verus!
