//! Counting the subarrays whose median exceeds a threshold.
//!
//! Each element becomes `+1` when it exceeds `k` and `-1` otherwise; a
//! subarray qualifies when its sum is nonnegative. The prefix sums are
//! counted by parity in two Fenwick trees.

use vstd::prelude::*;
use crate::fenwick::{Fenwick, range_sum, abs_sum, total_abs, lemma_fits_by_abs};

verus! {

/// `+1` when `a[i]` exceeds `k`, `-1` otherwise.
pub open spec fn step(a: Seq<i64>, k: i64, i: int) -> int {
    if a[i] > k { 1 } else { -1 }
}

/// The sum of `step` over the first `r` elements.
pub open spec fn balance(a: Seq<i64>, k: i64, r: int) -> int
    decreases r,
{
    if r <= 0 { 0 } else { balance(a, k, r - 1) + step(a, k, r - 1) }
}

/// How many of `a[l..r]` exceed `k`.
pub open spec fn greater_count(a: Seq<i64>, k: i64, l: int, r: int) -> int
    decreases r - l,
{
    if r <= l {
        0
    } else {
        greater_count(a, k, l, r - 1) + (if a[r - 1] > k { 1int } else { 0int })
    }
}

/// The (upper) median of `a[l..r]` exceeds `k`: at least half of the
/// elements do.
pub open spec fn median_exceeds(a: Seq<i64>, k: i64, l: int, r: int) -> bool {
    2 * greater_count(a, k, l, r) >= r - l
}

/// The number of starts `l < m` such that `a[l..r]` has its median above `k`.
pub open spec fn count_ending_at(a: Seq<i64>, k: i64, r: int, m: int) -> int
    decreases m,
{
    if m <= 0 {
        0
    } else {
        count_ending_at(a, k, r, m - 1) + (if median_exceeds(a, k, m - 1, r) { 1int } else { 0int })
    }
}

/// The number of nonempty subarrays of `a[..n]` whose median exceeds `k`.
pub open spec fn count_median_exceeds(a: Seq<i64>, k: i64, n: int) -> int
    decreases n,
{
    if n <= 0 { 0 } else { count_median_exceeds(a, k, n - 1) + count_ending_at(a, k, n, n) }
}

/// The number of prefix positions `l < r` of parity `par` whose prefix
/// balance is exactly `v`.
pub open spec fn hist(p: Seq<int>, par: int, r: int, v: int) -> int
    decreases r,
{
    if r <= 0 {
        0
    } else {
        hist(p, par, r - 1, v) + (if (r - 1) % 2 == par && p[r - 1] == v { 1int } else { 0int })
    }
}

/// The number of prefix positions `l < r` of parity `par` whose prefix
/// balance is at most `t`.
pub open spec fn count_le(p: Seq<int>, par: int, r: int, t: int) -> int
    decreases r,
{
    if r <= 0 {
        0
    } else {
        count_le(p, par, r - 1, t) + (if (r - 1) % 2 == par && p[r - 1] <= t { 1int } else { 0int })
    }
}

proof fn lemma_balance_greater(a: Seq<i64>, k: i64, l: int, r: int)
    requires
        0 <= l <= r,
    ensures
        balance(a, k, r) - balance(a, k, l) == 2 * greater_count(a, k, l, r) - (r - l),
    decreases r - l,
{
    if l < r {
        lemma_balance_greater(a, k, l, r - 1);
    }
}

proof fn lemma_balance_parity(a: Seq<i64>, k: i64, r: int)
    requires
        0 <= r,
    ensures
        (balance(a, k, r) + r) % 2 == 0,
        -r <= balance(a, k, r) <= r,
    decreases r,
{
    if r > 0 {
        lemma_balance_parity(a, k, r - 1);
    }
}

proof fn lemma_count_le_step(p: Seq<int>, par: int, r: int, t: int)
    ensures
        count_le(p, par, r, t) == count_le(p, par, r, t - 1) + hist(p, par, r, t),
    decreases r,
{
    if r > 0 {
        lemma_count_le_step(p, par, r - 1, t);
    }
}

proof fn lemma_count_le_none(p: Seq<int>, par: int, r: int, t: int)
    requires
        forall|l: int| 0 <= l < r ==> p[l] > t,
    ensures
        count_le(p, par, r, t) == 0,
    decreases r,
{
    if r > 0 {
        lemma_count_le_none(p, par, r - 1, t);
    }
}

proof fn lemma_count_le_bound(p: Seq<int>, par: int, r: int, t: int)
    requires
        0 <= r,
    ensures
        0 <= count_le(p, par, r, t) <= r,
    decreases r,
{
    if r > 0 {
        lemma_count_le_bound(p, par, r - 1, t);
    }
}

proof fn lemma_hist_nonneg(p: Seq<int>, par: int, r: int, v: int)
    ensures
        hist(p, par, r, v) >= 0,
    decreases r,
{
    if r > 0 {
        lemma_hist_nonneg(p, par, r - 1, v);
    }
}

/// The tree for parity `par` after the first `r` prefix positions.
spec fn tracks(view: Seq<int>, p: Seq<int>, par: int, r: int, offset: int) -> bool {
    &&& view[0] == 0
    &&& forall|v: int| 1 <= v < view.len() ==> #[trigger] view[v] == hist(p, par, r, v - offset)
}

proof fn lemma_tracks_prefix(view: Seq<int>, p: Seq<int>, par: int, r: int, offset: int, idx: int)
    requires
        tracks(view, p, par, r, offset),
        forall|l: int| 0 <= l < r ==> p[l] + offset >= 1,
        0 <= idx < view.len(),
    ensures
        range_sum(view, 0, idx) == count_le(p, par, r, idx - offset),
    decreases idx,
{
    if idx == 0 {
        lemma_count_le_none(p, par, r, idx - offset);
    } else {
        lemma_tracks_prefix(view, p, par, r, offset, idx - 1);
        lemma_count_le_step(p, par, r, idx - offset);
    }
}

proof fn lemma_abs_sum_nonneg(s: Seq<int>, lo: int, hi: int)
    requires
        forall|v: int| 0 <= v < s.len() ==> s[v] >= 0,
        0 <= lo,
        hi < s.len(),
    ensures
        abs_sum(s, lo, hi) == range_sum(s, lo, hi),
    decreases hi - lo,
{
    if lo < hi {
        lemma_abs_sum_nonneg(s, lo, hi - 1);
    }
}

proof fn lemma_tracks_total(view: Seq<int>, p: Seq<int>, par: int, r: int, offset: int)
    requires
        tracks(view, p, par, r, offset),
        forall|l: int| 0 <= l < r ==> p[l] + offset >= 1,
        view.len() >= 1,
        0 <= r,
    ensures
        total_abs(view) <= r,
{
    assert forall|v: int| 0 <= v < view.len() implies view[v] >= 0 by {
        if v > 0 {
            lemma_hist_nonneg(p, par, r, v - offset);
        }
    }
    lemma_abs_sum_nonneg(view, 0, view.len() - 1);
    lemma_tracks_prefix(view, p, par, r, offset, view.len() - 1);
    lemma_count_le_bound(p, par, r, view.len() - 1 - offset);
}

proof fn lemma_count_ending(a: Seq<i64>, k: i64, p: Seq<int>, r: int, m: int)
    requires
        0 <= m <= r,
        r < p.len(),
        forall|i: int| 0 <= i < p.len() ==> #[trigger] p[i] == balance(a, k, i),
    ensures
        count_ending_at(a, k, r, m) == count_le(p, r % 2, m, p[r]) + count_le(
            p,
            1 - r % 2,
            m,
            p[r] - 1,
        ),
    decreases m,
{
    if m > 0 {
        let l = m - 1;
        lemma_count_ending(a, k, p, r, l);
        lemma_balance_greater(a, k, l, r);
        lemma_balance_parity(a, k, l);
        lemma_balance_parity(a, k, r);
        assert(p[l] == balance(a, k, l));
        assert(p[r] == balance(a, k, r));
    }
}

proof fn lemma_count_total_bound(a: Seq<i64>, k: i64, n: int)
    requires
        0 <= n,
    ensures
        0 <= 2 * count_median_exceeds(a, k, n) <= n * (n + 1),
    decreases n,
{
    if n > 0 {
        lemma_count_total_bound(a, k, n - 1);
        lemma_count_ending_bound(a, k, n, n);
        assert(0 <= 2 * count_median_exceeds(a, k, n) <= n * (n + 1)) by (nonlinear_arith)
            requires
                count_median_exceeds(a, k, n) == count_median_exceeds(a, k, n - 1)
                    + count_ending_at(a, k, n, n),
                0 <= 2 * count_median_exceeds(a, k, n - 1) <= (n - 1) * n,
                0 <= count_ending_at(a, k, n, n) <= n,
        ;
    }
}

proof fn lemma_count_ending_bound(a: Seq<i64>, k: i64, r: int, m: int)
    requires
        0 <= m,
    ensures
        0 <= count_ending_at(a, k, r, m) <= m,
    decreases m,
{
    if m > 0 {
        lemma_count_ending_bound(a, k, r, m - 1);
    }
}

/// Counts the nonempty subarrays of `values` whose median is greater than `k`.
pub fn count_median_greater(values: &Vec<i64>, k: i64) -> (count: i64)
    requires
        values.len() < usize::MAX / 16,
        values.len() * (values.len() + 1) / 2 <= i64::MAX,
    ensures
        count == count_median_exceeds(values@, k, values.len() as int),
{
    let n = values.len();
    let ghost a = values@;
    let ghost p = Seq::new((n + 1) as nat, |i: int| balance(a, k, i));
    let mut prefix: Vec<i64> = vec![0; n + 1];
    let mut i: usize = 0;
    while i < n
        invariant
            n == values.len(),
            a == values@,
            n < usize::MAX / 16,
            prefix@.len() == n + 1,
            i <= n,
            forall|j: int| 0 <= j <= i ==> #[trigger] prefix@[j] == balance(a, k, j),
        decreases n - i,
    {
        proof {
            lemma_balance_parity(a, k, i as int);
        }
        let d: i64 = if values[i] > k { 1 } else { -1 };
        let next = prefix[i] + d;
        prefix.set(i + 1, next);
        i = i + 1;
    }
    let offset: i64 = n as i64 + 1;
    let size: usize = 2 * n + 3;
    let mut bit_even = Fenwick::new(size);
    let mut bit_odd = Fenwick::new(size);
    proof {
        assert forall|l: int| 0 <= l <= n implies p[l] + offset >= 1 && p[l] + offset < size by {
            lemma_balance_parity(a, k, l);
        }
        assert(tracks(bit_odd@, p, 1, 0, offset as int));
        assert(tracks(bit_even@.update(offset as int, bit_even@[offset as int] + 1), p, 0, 1, offset as int)) by {
            reveal_with_fuel(hist, 2);
        }
        lemma_tracks_total(bit_even@.update(offset as int, bit_even@[offset as int] + 1), p, 0, 1, offset as int);
        lemma_fits_by_abs(bit_even@.update(offset as int, bit_even@[offset as int] + 1));
    }
    bit_even.add(offset as usize, 1);
    let mut ans: i64 = 0;
    let mut r: usize = 1;
    while r <= n
        invariant
            n == values.len(),
            a == values@,
            n < usize::MAX / 16,
            n * (n + 1) / 2 <= i64::MAX,
            p.len() == n + 1,
            forall|j: int| 0 <= j <= n ==> #[trigger] p[j] == balance(a, k, j),
            prefix@.len() == n + 1,
            forall|j: int| 0 <= j <= n ==> #[trigger] prefix@[j] == p[j],
            forall|l: int| 0 <= l <= n ==> p[l] + offset >= 1 && p[l] + offset < size,
            offset == n + 1,
            size == 2 * n + 3,
            1 <= r <= n + 1,
            bit_even.wf(),
            bit_odd.wf(),
            bit_even@.len() == size + 1,
            bit_odd@.len() == size + 1,
            tracks(bit_even@, p, 0, r as int, offset as int),
            tracks(bit_odd@, p, 1, r as int, offset as int),
            ans == count_median_exceeds(a, k, r - 1),
        decreases n + 1 - r,
    {
        let pr = prefix[r];
        let idx_pr = (pr + offset) as usize;
        let idx_pr_m1 = (pr - 1 + offset) as usize;
        let ghost rr = r as int;
        proof {
            lemma_count_ending(a, k, p, rr, rr);
            lemma_tracks_prefix(bit_even@, p, 0, rr, offset as int, idx_pr as int);
            lemma_tracks_prefix(bit_odd@, p, 1, rr, offset as int, idx_pr as int);
            lemma_tracks_prefix(bit_even@, p, 0, rr, offset as int, idx_pr_m1 as int);
            lemma_tracks_prefix(bit_odd@, p, 1, rr, offset as int, idx_pr_m1 as int);
            lemma_count_total_bound(a, k, rr);
            lemma_count_total_bound(a, k, n as int);
            lemma_count_monotone(a, k, rr, n as int);
            lemma_count_le_bound(p, 0, rr, p[rr]);
            lemma_count_le_bound(p, 1, rr, p[rr]);
            lemma_count_le_bound(p, 0, rr, p[rr] - 1);
            lemma_count_le_bound(p, 1, rr, p[rr] - 1);
            lemma_tracks_total(bit_even@, p, 0, rr, offset as int);
            lemma_tracks_total(bit_odd@, p, 1, rr, offset as int);
            lemma_fits_by_abs(bit_even@);
            lemma_fits_by_abs(bit_odd@);
        }
        let ghost par = rr % 2;
        if r % 2 == 0 {
            let s1 = bit_even.sum(idx_pr);
            let s2 = bit_odd.sum(idx_pr_m1);
            ans = ans + s1 + s2;
            proof {
                lemma_tracks_add(bit_even@, p, 0, rr, offset as int, idx_pr as int);
                lemma_tracks_total(bit_even@.update(idx_pr as int, bit_even@[idx_pr as int] + 1), p, 0, rr + 1, offset as int);
                lemma_fits_by_abs(bit_even@.update(idx_pr as int, bit_even@[idx_pr as int] + 1));
                lemma_tracks_other(bit_odd@, p, 1, rr, offset as int);
            }
            bit_even.add(idx_pr, 1);
        } else {
            let s1 = bit_odd.sum(idx_pr);
            let s2 = bit_even.sum(idx_pr_m1);
            ans = ans + s1 + s2;
            proof {
                lemma_tracks_add(bit_odd@, p, 1, rr, offset as int, idx_pr as int);
                lemma_tracks_total(bit_odd@.update(idx_pr as int, bit_odd@[idx_pr as int] + 1), p, 1, rr + 1, offset as int);
                lemma_fits_by_abs(bit_odd@.update(idx_pr as int, bit_odd@[idx_pr as int] + 1));
                lemma_tracks_other(bit_even@, p, 0, rr, offset as int);
            }
            bit_odd.add(idx_pr, 1);
        }
        r = r + 1;
    }
    ans
}

proof fn lemma_count_monotone(a: Seq<i64>, k: i64, m: int, n: int)
    requires
        0 <= m <= n,
    ensures
        count_median_exceeds(a, k, m) <= count_median_exceeds(a, k, n),
    decreases n - m,
{
    if m < n {
        lemma_count_monotone(a, k, m, n - 1);
        lemma_count_ending_bound(a, k, n, n);
    }
}

/// Recording prefix position `r` in the tree of its own parity.
proof fn lemma_tracks_add(view: Seq<int>, p: Seq<int>, par: int, r: int, offset: int, idx: int)
    requires
        tracks(view, p, par, r, offset),
        r % 2 == par,
        0 <= r,
        1 <= idx < view.len(),
        idx == p[r] + offset,
    ensures
        tracks(view.update(idx, view[idx] + 1), p, par, r + 1, offset),
{
    let nv = view.update(idx, view[idx] + 1);
    assert forall|v: int| 1 <= v < nv.len() implies #[trigger] nv[v] == hist(p, par, r + 1, v - offset) by {
        assert(hist(p, par, r + 1, v - offset) == hist(p, par, r, v - offset) + (if r % 2 == par && p[r] == v - offset { 1int } else { 0int }));
    }
}

/// Recording prefix position `r` leaves the tree of the other parity as it is.
proof fn lemma_tracks_other(view: Seq<int>, p: Seq<int>, par: int, r: int, offset: int)
    requires
        tracks(view, p, par, r, offset),
        r % 2 != par,
        0 <= r,
    ensures
        tracks(view, p, par, r + 1, offset),
{
    assert forall|v: int| 1 <= v < view.len() implies #[trigger] view[v] == hist(p, par, r + 1, v - offset) by {
        assert(hist(p, par, r + 1, v - offset) == hist(p, par, r, v - offset));
    }
}

} // verus!
