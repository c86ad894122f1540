//! The generalized NX order statistic (N50 at fraction one half): sort the
//! lengths ascending, scan the cumulative sum upward, and report the first
//! length whose cumulative sum strictly exceeds `fraction * total`; when no
//! sum does (only possible at fraction one), the largest length.
//!
//! The fraction is carried as a rational `num / den`, and the strict-excess
//! test `cumulative * den > total * num` is exact integer arithmetic.
use vstd::prelude::*;
use vstd::relations::{antisymmetric, reflexive, sorted_by, strongly_connected, total_ordering, transitive};
use vstd::seq_lib::{group_to_multiset_ensures, lemma_sorted_unique};
use crate::Error;

verus! {

broadcast use group_to_multiset_ensures;

/// Ascending order on lengths.
pub open spec fn len_leq() -> spec_fn(usize, usize) -> bool {
    |x: usize, y: usize| x <= y
}

/// A sequence of lengths in ascending order.
pub open spec fn sorted_asc(s: Seq<usize>) -> bool {
    forall|a: int, b: int| 0 <= a < b < s.len() ==> s[a] <= s[b]
}

/// The lengths sorted ascending.
pub open spec fn sorted_of(s: Seq<usize>) -> Seq<usize> {
    s.sort_by(len_leq())
}

/// The sum of a sequence of lengths.
pub open spec fn sum_of(s: Seq<usize>) -> int
    decreases s.len(),
{
    if s.len() == 0 {
        0
    } else {
        sum_of(s.drop_last()) + s.last()
    }
}

/// A sum of lengths is never negative.
pub proof fn lemma_sum_nonneg(s: Seq<usize>)
    ensures
        sum_of(s) >= 0,
    decreases s.len(),
{
    if s.len() > 0 {
        lemma_sum_nonneg(s.drop_last());
    }
}

/// Extending a prefix by one element adds that element to its sum.
pub proof fn lemma_sum_step(s: Seq<usize>, i: int)
    requires
        0 <= i < s.len(),
    ensures
        sum_of(s.subrange(0, i + 1)) == sum_of(s.subrange(0, i)) + s[i],
{
    let t = s.subrange(0, i + 1);
    assert(t.drop_last() =~= s.subrange(0, i));
}

/// A prefix sum never exceeds the whole sum.
pub proof fn lemma_sum_prefix_le(s: Seq<usize>, i: int)
    requires
        0 <= i <= s.len(),
    ensures
        sum_of(s.subrange(0, i)) <= sum_of(s),
    decreases s.len() - i,
{
    if i == s.len() {
        assert(s.subrange(0, i) =~= s);
    } else {
        lemma_sum_step(s, i);
        lemma_sum_prefix_le(s, i + 1);
    }
}

/// Removing one element removes exactly its value from the sum.
proof fn lemma_sum_remove(s: Seq<usize>, i: int)
    requires
        0 <= i < s.len(),
    ensures
        sum_of(s.remove(i)) == sum_of(s) - s[i],
    decreases s.len(),
{
    if i == s.len() - 1 {
        assert(s.remove(i) =~= s.drop_last());
    } else {
        let r = s.remove(i);
        assert(r.last() == s.last());
        assert(r.drop_last() =~= s.drop_last().remove(i));
        lemma_sum_remove(s.drop_last(), i);
    }
}

/// Sequences holding the same lengths, in any order, have the same sum.
pub proof fn lemma_sum_permutation(a: Seq<usize>, b: Seq<usize>)
    requires
        a.to_multiset() == b.to_multiset(),
    ensures
        sum_of(a) == sum_of(b),
    decreases a.len(),
{
    if a.len() == 0 {
        assert(b.to_multiset().len() == 0);
    } else {
        let x = a.last();
        assert(a.contains(x));
        assert(b.to_multiset().contains(x));
        assert(b.contains(x));
        let j = choose|j: int| 0 <= j < b.len() && b[j] == x;
        lemma_sum_remove(b, j);
        assert(a.drop_last() =~= a.remove(a.len() - 1));
        assert(a.drop_last().to_multiset() == a.to_multiset().remove(x));
        assert(b.remove(j).to_multiset() == b.to_multiset().remove(x));
        lemma_sum_permutation(a.drop_last(), b.remove(j));
    }
}

/// The ascending order on lengths is a total ordering.
proof fn lemma_len_leq_total()
    ensures
        total_ordering(len_leq()),
{
    let r = len_leq();
    assert forall|x: usize| #[trigger] r(x, x) by {}
    assert(reflexive(r));
    assert forall|x: usize, y: usize| #[trigger] r(x, y) && #[trigger] r(y, x) implies x == y by {}
    assert(antisymmetric(r));
    assert forall|x: usize, y: usize, z: usize|
        #[trigger] r(x, y) && #[trigger] r(y, z) implies r(x, z) by {}
    assert(transitive(r));
    assert forall|x: usize, y: usize| #[trigger] r(x, y) || #[trigger] r(y, x) by {}
    assert(strongly_connected(r));
}

/// Sorts the lengths ascending, in place.
pub fn sort_lengths(v: &mut Vec<usize>)
    ensures
        final(v)@ == sorted_of(old(v)@),
{
    let mut out: Vec<usize> = Vec::new();
    let mut i: usize = 0;
    while i < v.len()
        invariant
            i <= v@.len(),
            v@ == old(v)@,
            sorted_asc(out@),
            out@.to_multiset() == v@.subrange(0, i as int).to_multiset(),
        decreases v@.len() - i,
    {
        let x = v[i];
        let ghost prev = out@;
        let mut p: usize = 0;
        while p < out.len() && out[p] <= x
            invariant
                p <= out@.len(),
                out@ == prev,
                forall|j: int| 0 <= j < p ==> out@[j] <= x,
            decreases out@.len() - p,
        {
            p = p + 1;
        }
        proof {
            prev.insert_ensures(p as int, x);
        }
        out.insert(p, x);
        proof {
            assert forall|a: int, b: int| 0 <= a < b < out@.len() implies out@[a] <= out@[b] by {
                if b < p {
                    assert(out@[a] == prev[a] && out@[b] == prev[b]);
                } else if a < p && b == p {
                    assert(out@[a] == prev[a] && out@[b] == x);
                } else if a < p && b > p {
                    assert(out@[a] == prev[a] && out@[b] == prev[b - 1]);
                    assert(prev[p as int] > x);
                } else if a == p && b > p {
                    assert(out@[a] == x && out@[b] == prev[b - 1]);
                    assert(prev[p as int] > x);
                } else {
                    assert(out@[a] == prev[a - 1] && out@[b] == prev[b - 1]);
                }
            }
            assert(out@ == prev.insert(p as int, x));
            assert(prev.insert(p as int, x).to_multiset() == prev.to_multiset().insert(x));
            assert(v@.subrange(0, i + 1) =~= v@.subrange(0, i as int).push(x));
            assert(v@.subrange(0, i as int).push(x).to_multiset() == v@.subrange(
                0,
                i as int,
            ).to_multiset().insert(x));
        }
        i = i + 1;
    }
    proof {
        assert(v@.subrange(0, v@.len() as int) =~= v@);
        lemma_len_leq_total();
        old(v)@.lemma_sort_by_ensures(len_leq());
        let r = len_leq();
        assert forall|a: int, b: int|
            0 <= a < b < out@.len() implies #[trigger] r(out@[a], out@[b]) by {
            assert(out@[a] <= out@[b]);
        }
        assert(sorted_by(out@, r));
        lemma_sorted_unique(out@, old(v)@.sort_by(r), r);
        assert(out@ == sorted_of(old(v)@));
    }
    *v = out;
}

/// The value at the first position, at or after `i`, of the ascending
/// sequence `s` whose inclusive cumulative sum strictly exceeds
/// `total * num / den`; the last value when none does.
pub open spec fn nx_scan(s: Seq<usize>, total: int, num: int, den: int, i: int) -> usize
    decreases s.len() - i,
{
    if s.len() == 0 {
        0
    } else if i < 0 || i >= s.len() - 1 {
        s[s.len() - 1]
    } else if sum_of(s.subrange(0, i + 1)) * den > total * num {
        s[i]
    } else {
        nx_scan(s, total, num, den, i + 1)
    }
}

/// The generalized NX value of `s` at fraction `num / den`.
pub open spec fn spec_nx(s: Seq<usize>, num: int, den: int) -> usize {
    nx_scan(sorted_of(s), sum_of(s), num, den, 0)
}

/// Whatever the scan reports is drawn from positions at or after `i`.
proof fn lemma_nx_scan_in_suffix(s: Seq<usize>, total: int, num: int, den: int, i: int)
    requires
        s.len() > 0,
        0 <= i < s.len(),
    ensures
        exists|j: int|
            i <= j < s.len() && nx_scan(s, total, num, den, i) == s[j],
    decreases s.len() - i,
{
    if i >= s.len() - 1 {
        assert(nx_scan(s, total, num, den, i) == s[s.len() - 1]);
    } else if sum_of(s.subrange(0, i + 1)) * den > total * num {
        assert(nx_scan(s, total, num, den, i) == s[i]);
    } else {
        lemma_nx_scan_in_suffix(s, total, num, den, i + 1);
    }
}

/// Raising the fraction can only move the scan's stop later, so the
/// reported value can only grow.
proof fn lemma_nx_scan_monotone(
    s: Seq<usize>,
    total: int,
    num1: int,
    den1: int,
    num2: int,
    den2: int,
    i: int,
)
    requires
        s.len() > 0,
        0 <= i < s.len(),
        sorted_asc(s),
        total >= 0,
        0 < den1,
        0 < den2,
        num1 * den2 <= num2 * den1,
    ensures
        nx_scan(s, total, num1, den1, i) <= nx_scan(s, total, num2, den2, i),
    decreases s.len() - i,
{
    if i >= s.len() - 1 {
    } else {
        let p = sum_of(s.subrange(0, i + 1));
        if p * den2 > total * num2 {
            assert(p * den1 > total * num1) by (nonlinear_arith)
                requires
                    p * den2 > total * num2,
                    num1 * den2 <= num2 * den1,
                    total >= 0,
                    0 < den1,
                    0 < den2,
            ;
        } else if p * den1 > total * num1 {
            lemma_nx_scan_in_suffix(s, total, num2, den2, i + 1);
        } else {
            lemma_nx_scan_monotone(s, total, num1, den1, num2, den2, i + 1);
        }
    }
}

/// At a full fraction no cumulative sum strictly exceeds the threshold, so
/// the scan runs to the last (largest) value.
proof fn lemma_nx_scan_full(s: Seq<usize>, total: int, num: int, i: int)
    requires
        s.len() > 0,
        0 <= i < s.len(),
        num > 0,
        total >= sum_of(s),
    ensures
        nx_scan(s, total, num, num, i) == s[s.len() - 1],
    decreases s.len() - i,
{
    if i >= s.len() - 1 {
    } else {
        let p = sum_of(s.subrange(0, i + 1));
        lemma_sum_prefix_le(s, i + 1);
        assert(!(p * num > total * num)) by (nonlinear_arith)
            requires
                p <= total,
                num > 0,
        ;
        lemma_nx_scan_full(s, total, num, i + 1);
    }
}

/// At fraction one the NX value is the maximum length: it occurs among the
/// lengths and no length exceeds it.
pub proof fn lemma_nx_full_fraction(s: Seq<usize>, num: int)
    requires
        s.len() > 0,
        num > 0,
    ensures
        s.contains(spec_nx(s, num, num)),
        forall|i: int| 0 <= i < s.len() ==> s[i] <= spec_nx(s, num, num),
{
    let t = sorted_of(s);
    lemma_len_leq_total();
    s.lemma_sort_by_ensures(len_leq());
    assert(s.to_multiset() == t.to_multiset());
    assert(s.to_multiset().len() == s.len());
    assert(t.to_multiset().len() == t.len());
    lemma_sum_permutation(s, t);
    lemma_nx_scan_full(t, sum_of(s), num, 0);
    let m = t[t.len() - 1];
    assert(spec_nx(s, num, num) == m);
    assert(t.contains(m));
    assert(s.to_multiset().contains(m));
    assert(s.contains(m));
    let r = len_leq();
    assert forall|i: int| 0 <= i < s.len() implies s[i] <= m by {
        assert(s.contains(s[i]));
        assert(t.to_multiset().contains(s[i]));
        assert(t.contains(s[i]));
        let j = choose|j: int| 0 <= j < t.len() && t[j] == s[i];
        if j < t.len() - 1 {
            assert(r(t[j], t[t.len() - 1]));
        }
    }
}

/// The NX value never shrinks when the fraction grows: with fractions
/// `num1/den1 <= num2/den2`, the value at the first is at most the value at
/// the second.
pub proof fn lemma_nx_monotone(s: Seq<usize>, num1: int, den1: int, num2: int, den2: int)
    requires
        s.len() > 0,
        0 < den1,
        0 < den2,
        num1 * den2 <= num2 * den1,
    ensures
        spec_nx(s, num1, den1) <= spec_nx(s, num2, den2),
{
    let t = sorted_of(s);
    lemma_len_leq_total();
    s.lemma_sort_by_ensures(len_leq());
    assert(s.to_multiset() == t.to_multiset());
    assert(s.to_multiset().len() == s.len());
    assert(t.to_multiset().len() == t.len());
    lemma_sum_nonneg(s);
    let r = len_leq();
    assert forall|a: int, b: int| 0 <= a < b < t.len() implies t[a] <= t[b] by {
        assert(r(t[a], t[b]));
    }
    lemma_nx_scan_monotone(t, sum_of(s), num1, den1, num2, den2, 0);
}

/// Computes the generalized NX value of the lengths at fraction
/// `num / den`, sorting `lengths` ascending in place.
///
/// A fraction outside (0, 1] is rejected as an invalid argument, and an
/// empty length set as degenerate input; in both cases the lengths are left
/// untouched.
pub fn nx(lengths: &mut Vec<usize>, num: u64, den: u64) -> (r: Result<usize, Error>)
    requires
        sum_of(old(lengths)@) <= u64::MAX,
    ensures
        num == 0 || den == 0 || num > den ==> r == Err::<usize, Error>(Error::InvalidArgument)
            && final(lengths)@ == old(lengths)@,
        0 < num <= den && old(lengths)@.len() == 0 ==> r == Err::<usize, Error>(
            Error::DegenerateInput,
        ) && final(lengths)@ == old(lengths)@,
        0 < num <= den && old(lengths)@.len() > 0 ==> final(lengths)@ == sorted_of(old(lengths)@)
            && r == Ok::<usize, Error>(spec_nx(old(lengths)@, num as int, den as int)),
{
    if num == 0 || den == 0 || num > den {
        return Err(Error::InvalidArgument);
    }
    if lengths.len() == 0 {
        return Err(Error::DegenerateInput);
    }
    sort_lengths(lengths);
    proof {
        lemma_len_leq_total();
        old(lengths)@.lemma_sort_by_ensures(len_leq());
        assert(old(lengths)@.to_multiset() == lengths@.to_multiset());
        assert(old(lengths)@.to_multiset().len() == old(lengths)@.len());
        assert(lengths@.to_multiset().len() == lengths@.len());
        lemma_sum_permutation(old(lengths)@, lengths@);
    }
    let ghost s = lengths@;
    let ghost total_spec = sum_of(old(lengths)@);
    let n = lengths.len();

    let mut total: u64 = 0;
    let mut i: usize = 0;
    while i < n
        invariant
            i <= n,
            n == lengths@.len(),
            lengths@ == s,
            sum_of(s) == total_spec,
            total_spec <= u64::MAX,
            total == sum_of(s.subrange(0, i as int)),
        decreases n - i,
    {
        proof {
            lemma_sum_step(s, i as int);
            lemma_sum_prefix_le(s, i + 1);
        }
        total = total + (lengths[i] as u64);
        i = i + 1;
    }
    proof {
        assert(s.subrange(0, n as int) =~= s);
    }

    let mut cum: u64 = 0;
    let mut j: usize = 0;
    while j < n - 1
        invariant
            j <= n - 1,
            n == lengths@.len(),
            n >= 1,
            0 < num <= den,
            old(lengths)@.len() > 0,
            lengths@ == s,
            s == sorted_of(old(lengths)@),
            sum_of(s) == total_spec,
            total_spec == sum_of(old(lengths)@),
            total_spec <= u64::MAX,
            total == total_spec,
            cum == sum_of(s.subrange(0, j as int)),
            nx_scan(s, total_spec, num as int, den as int, 0) == nx_scan(
                s,
                total_spec,
                num as int,
                den as int,
                j as int,
            ),
        decreases n - 1 - j,
    {
        proof {
            lemma_sum_step(s, j as int);
            lemma_sum_prefix_le(s, j + 1);
        }
        cum = cum + (lengths[j] as u64);
        proof {
            assert((cum as int) * (den as int) <= (u64::MAX as int) * (u64::MAX as int))
                by (nonlinear_arith)
                requires
                    0 <= cum as int <= u64::MAX as int,
                    0 <= den as int <= u64::MAX as int,
            ;
            assert((total as int) * (num as int) <= (u64::MAX as int) * (u64::MAX as int))
                by (nonlinear_arith)
                requires
                    0 <= total as int <= u64::MAX as int,
                    0 <= num as int <= u64::MAX as int,
            ;
        }
        if (cum as u128) * (den as u128) > (total as u128) * (num as u128) {
            assert(nx_scan(s, total_spec, num as int, den as int, j as int) == s[j as int]);
            return Ok(lengths[j]);
        }
        j = j + 1;
    }
    assert(nx_scan(s, total_spec, num as int, den as int, (n - 1) as int) == s[n - 1]);
    Ok(lengths[n - 1])
}

} // verus!
