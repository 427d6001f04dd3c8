//! Energy harvest: the first window of consecutive readings that sums to a
//! target and is not longer than a limit, found with two pointers.

use vstd::prelude::*;

verus! {

/// `a[l] + ... + a[r - 1]` (zero when `r <= l`).
pub open spec fn wsum(a: Seq<i64>, l: int, r: int) -> int
    decreases r - l,
{
    if r <= l { 0 } else { wsum(a, l, r - 1) + a[r - 1] }
}

/// Moves the left end `l` of the window ending at `r` right while the window
/// sums to more than `s`.
pub open spec fn shrink(a: Seq<i64>, s: i64, l: int, r: int) -> int
    decreases r + 1 - l,
{
    if l <= r && wsum(a, l, r + 1) > s { shrink(a, s, l + 1, r) } else { l }
}

/// The left end of the window after the right end has reached `r`.
pub open spec fn left_end(a: Seq<i64>, s: i64, r: int) -> int
    decreases r,
{
    if r <= 0 { shrink(a, s, 0, 0) } else { shrink(a, s, left_end(a, s, r - 1), r) }
}

/// The window ending at `r` sums to `s` and has at most `k` readings.
pub open spec fn hit(a: Seq<i64>, k: usize, s: i64, r: int) -> bool {
    let l = left_end(a, s, r);
    wsum(a, l, r + 1) == s && l <= r && r - l + 1 <= k
}

/// The first hit at a right end `r` or later, as `(left, right)`.
pub open spec fn first_hit(a: Seq<i64>, k: usize, s: i64, r: int) -> Option<(int, int)>
    decreases a.len() - r,
{
    if r >= a.len() || r < 0 {
        None
    } else if hit(a, k, s, r) {
        Some((left_end(a, s, r), r))
    } else {
        first_hit(a, k, s, r + 1)
    }
}

/// Every sum that the scan forms at the right end `r` fits in an `i64`: the
/// sums of the windows ending at `r` whose left end lies between the left end
/// reached before `r` and the one reached at `r`.
pub open spec fn step_sums_fit(a: Seq<i64>, s: i64, r: int) -> bool {
    let lo = if r == 0 { 0 } else { left_end(a, s, r - 1) };
    forall|l: int| lo <= l <= left_end(a, s, r) ==> i64::MIN <= #[trigger] wsum(a, l, r + 1) <= i64::MAX
}

/// Every sum that the scan forms fits in an `i64`, at each right end up to the
/// first window found (at every right end when none is found).
pub open spec fn scan_sums_fit(a: Seq<i64>, k: usize, s: i64) -> bool {
    forall|r: int| 0 <= r < a.len() && (forall|q: int| 0 <= q < r ==> !#[trigger] hit(a, k, s, q)) ==> #[trigger] step_sums_fit(a, s, r)
}

proof fn lemma_wsum_front(a: Seq<i64>, l: int, r: int)
    requires
        l < r,
    ensures
        wsum(a, l, r) == a[l] + wsum(a, l + 1, r),
    decreases r - l,
{
    if l + 1 < r {
        lemma_wsum_front(a, l, r - 1);
    } else {
        assert(wsum(a, l, l) == 0);
        assert(wsum(a, l + 1, r) == 0);
    }
}

proof fn lemma_shrink_bounds(a: Seq<i64>, s: i64, l: int, r: int)
    requires
        l <= r + 1,
    ensures
        l <= shrink(a, s, l, r) <= r + 1,
    decreases r + 1 - l,
{
    if l <= r && wsum(a, l, r + 1) > s {
        lemma_shrink_bounds(a, s, l + 1, r);
    }
}

proof fn lemma_left_end_bounds(a: Seq<i64>, s: i64, r: int)
    requires
        0 <= r,
    ensures
        0 <= left_end(a, s, r) <= r + 1,
    decreases r,
{
    if r == 0 {
        lemma_shrink_bounds(a, s, 0, 0);
    } else {
        lemma_left_end_bounds(a, s, r - 1);
        lemma_shrink_bounds(a, s, left_end(a, s, r - 1), r);
    }
}

/// The first window `(left, right)` that sums to `s` with at most `k`
/// readings, scanning right ends in order and shrinking from the left while
/// the sum is too large; `None` when there is none.
pub fn find_window(values: &Vec<i64>, k: usize, s: i64) -> (res: Option<(usize, usize)>)
    requires
        scan_sums_fit(values@, k, s),
    ensures
        res == (match first_hit(values@, k, s, 0) {
            Some((l, r)) => Some((l as usize, r as usize)),
            None => None,
        }),
        res matches Some((l, r)) ==> l <= r < values.len() && wsum(values@, l as int, r + 1) == s && r - l + 1 <= k,
{
    let n = values.len();
    let ghost a = values@;
    let mut left: usize = 0;
    let mut sum: i64 = 0;
    let mut right: usize = 0;
    while right < n
        invariant
            n == values.len(),
            a == values@,
            scan_sums_fit(a, k, s),
            forall|q: int| 0 <= q < right ==> !#[trigger] hit(a, k, s, q),
            right <= n,
            left <= right,
            right == 0 ==> left == 0,
            right > 0 ==> left == left_end(a, s, right - 1),
            sum == wsum(a, left as int, right as int),
            first_hit(a, k, s, 0) == first_hit(a, k, s, right as int),
        decreases n - right,
    {
        proof {
            assert(step_sums_fit(a, s, right as int));
            if right == 0 {
                lemma_shrink_bounds(a, s, 0, 0);
            } else {
                lemma_shrink_bounds(a, s, left as int, right as int);
            }
            assert(i64::MIN <= wsum(a, left as int, right + 1) <= i64::MAX);
        }
        sum = sum + values[right];
        let ghost l0 = left as int;
        while sum > s && left <= right
            invariant
                n == values.len(),
                a == values@,
                right < n,
                l0 <= left <= right + 1,
                l0 == (if right == 0 { 0 } else { left_end(a, s, right - 1) }),
                step_sums_fit(a, s, right as int),
                left_end(a, s, right as int) == shrink(a, s, l0, right as int),
                sum == wsum(a, left as int, right + 1),
                shrink(a, s, left as int, right as int) == shrink(a, s, l0, right as int),
            decreases right + 1 - left,
        {
            proof {
                lemma_wsum_front(a, left as int, right + 1);
                lemma_shrink_bounds(a, s, left + 1, right as int);
                assert(i64::MIN <= wsum(a, left + 1, right + 1) <= i64::MAX);
            }
            sum = sum - values[left];
            left = left + 1;
        }
        proof {
            assert(left_end(a, s, right as int) == left);
        }
        if sum == s && left <= right && right - left + 1 <= k {
            return Some((left, right));
        }
        right = right + 1;
    }
    None
}

/// `a[l..=r]` sums to `s` and holds at most `k` readings.
pub open spec fn good_window(a: Seq<i64>, k: usize, s: i64, l: int, r: int) -> bool {
    0 <= l <= r < a.len() && wsum(a, l, r + 1) == s && r - l + 1 <= k
}

/// Every reading is positive.
pub open spec fn all_positive(a: Seq<i64>) -> bool {
    forall|i: int| 0 <= i < a.len() ==> a[i] > 0
}

proof fn lemma_wsum_split(a: Seq<i64>, x: int, y: int, z: int)
    requires
        x <= y <= z,
    ensures
        wsum(a, x, z) == wsum(a, x, y) + wsum(a, y, z),
    decreases z - y,
{
    if y < z {
        lemma_wsum_split(a, x, y, z - 1);
    }
}

proof fn lemma_wsum_positive(a: Seq<i64>, x: int, y: int)
    requires
        all_positive(a),
        0 <= x < y <= a.len(),
    ensures
        wsum(a, x, y) > 0,
    decreases y - x,
{
    assert(a[y - 1] > 0);
    if x + 1 < y {
        lemma_wsum_positive(a, x, y - 1);
    } else {
        assert(wsum(a, x, x) == 0);
    }
}

proof fn lemma_shrink_min(a: Seq<i64>, s: i64, l0: int, r: int)
    requires
        0 <= l0 <= r + 1,
        r < a.len(),
        forall|l: int| 0 <= l < l0 ==> #[trigger] wsum(a, l, r + 1) > s,
    ensures
        l0 <= shrink(a, s, l0, r) <= r + 1,
        forall|l: int| 0 <= l < shrink(a, s, l0, r) ==> #[trigger] wsum(a, l, r + 1) > s,
        shrink(a, s, l0, r) <= r ==> wsum(a, shrink(a, s, l0, r), r + 1) <= s,
    decreases r + 1 - l0,
{
    if l0 <= r && wsum(a, l0, r + 1) > s {
        lemma_shrink_min(a, s, l0 + 1, r);
    }
}

/// With positive readings, the left end after reaching `r` is the first
/// start whose window up to `r` sums to at most `s`.
proof fn lemma_left_end_min(a: Seq<i64>, s: i64, r: int)
    requires
        all_positive(a),
        0 <= r < a.len(),
    ensures
        0 <= left_end(a, s, r) <= r + 1,
        forall|l: int| 0 <= l < left_end(a, s, r) ==> #[trigger] wsum(a, l, r + 1) > s,
        left_end(a, s, r) <= r ==> wsum(a, left_end(a, s, r), r + 1) <= s,
    decreases r,
{
    if r == 0 {
        lemma_shrink_min(a, s, 0, 0);
    } else {
        lemma_left_end_min(a, s, r - 1);
        let l0 = left_end(a, s, r - 1);
        assert forall|l: int| 0 <= l < l0 implies #[trigger] wsum(a, l, r + 1) > s by {
            assert(wsum(a, l, r) > s);
        }
        lemma_shrink_min(a, s, l0, r);
    }
}

/// With positive readings, a window ending at `r` qualifies exactly when its
/// start is the left end of the scan.
proof fn lemma_hit_iff(a: Seq<i64>, k: usize, s: i64, r: int)
    requires
        all_positive(a),
        0 <= r < a.len(),
    ensures
        hit(a, k, s, r) ==> good_window(a, k, s, left_end(a, s, r), r),
        forall|l: int| #[trigger] good_window(a, k, s, l, r) ==> hit(a, k, s, r) && l == left_end(a, s, r),
{
    lemma_left_end_min(a, s, r);
    let le = left_end(a, s, r);
    assert forall|l: int| #[trigger] good_window(a, k, s, l, r) implies hit(a, k, s, r) && l == le by {
        assert(!(wsum(a, l, r + 1) > s));
        assert(le <= l);
        if le < l {
            lemma_wsum_split(a, le, l, r + 1);
            lemma_wsum_positive(a, le, l);
        }
    }
}

proof fn lemma_first_hit(a: Seq<i64>, k: usize, s: i64, r0: int)
    requires
        all_positive(a),
        0 <= r0,
    ensures
        match first_hit(a, k, s, r0) {
            Some((l, r)) => good_window(a, k, s, l, r) && r0 <= r
                && forall|l2: int, r2: int| r0 <= r2 && #[trigger] good_window(a, k, s, l2, r2) ==> r <= r2 && (r2 == r ==> l2 == l),
            None => forall|l2: int, r2: int| r0 <= r2 ==> !#[trigger] good_window(a, k, s, l2, r2),
        },
    decreases a.len() - r0,
{
    if r0 < a.len() {
        lemma_hit_iff(a, k, s, r0);
        if !hit(a, k, s, r0) {
            lemma_first_hit(a, k, s, r0 + 1);
        }
    }
}

/// With positive readings, the window found sums to `s` within the limit and
/// ends first among all such windows (at the only start that fits); nothing
/// is found only when no window qualifies.
pub proof fn law_harvest_first(a: Seq<i64>, k: usize, s: i64)
    requires
        all_positive(a),
    ensures
        match first_hit(a, k, s, 0) {
            Some((l, r)) => good_window(a, k, s, l, r)
                && forall|l2: int, r2: int| #[trigger] good_window(a, k, s, l2, r2) ==> r <= r2 && (r2 == r ==> l2 == l),
            None => forall|l2: int, r2: int| !#[trigger] good_window(a, k, s, l2, r2),
        },
{
    lemma_first_hit(a, k, s, 0);
}

/// Whether every sum that `find_window` forms over `values` fits in an `i64`.
pub fn window_scan_fits(values: &Vec<i64>, k: usize, s: i64) -> (ok: bool)
    ensures
        ok == scan_sums_fit(values@, k, s),
{
    let n = values.len();
    let ghost a = values@;
    let mut left: usize = 0;
    let mut sum: i128 = 0;
    let mut right: usize = 0;
    while right < n
        invariant
            n == values.len(),
            a == values@,
            right <= n,
            left <= right,
            right == 0 ==> left == 0,
            right > 0 ==> left == left_end(a, s, right - 1),
            sum == wsum(a, left as int, right as int),
            i64::MIN <= sum <= i64::MAX,
            forall|q: int| 0 <= q < right ==> !#[trigger] hit(a, k, s, q),
            forall|q: int| 0 <= q < right ==> #[trigger] step_sums_fit(a, s, q),
        decreases n - right,
    {
        let ghost lo = left as int;
        proof {
            if right == 0 {
                lemma_shrink_bounds(a, s, 0, 0);
            } else {
                lemma_shrink_bounds(a, s, left as int, right as int);
            }
        }
        let t = sum + values[right] as i128;
        if t < i64::MIN as i128 || t > i64::MAX as i128 {
            proof {
                assert(!step_sums_fit(a, s, right as int));
            }
            return false;
        }
        sum = t;
        while sum > s as i128 && left <= right
            invariant
                n == values.len(),
                a == values@,
                right < n,
                lo <= left <= right + 1,
                lo == (if right == 0 { 0 } else { left_end(a, s, right - 1) }),
                left_end(a, s, right as int) == shrink(a, s, lo, right as int),
                shrink(a, s, left as int, right as int) == shrink(a, s, lo, right as int),
                sum == wsum(a, left as int, right + 1),
                i64::MIN <= sum <= i64::MAX,
                forall|l: int| lo <= l <= left ==> i64::MIN <= #[trigger] wsum(a, l, right + 1) <= i64::MAX,
                forall|q: int| 0 <= q < right ==> !#[trigger] hit(a, k, s, q),
            decreases right + 1 - left,
        {
            proof {
                lemma_wsum_front(a, left as int, right + 1);
                lemma_shrink_bounds(a, s, left + 1, right as int);
            }
            let t2 = sum - values[left] as i128;
            if t2 < i64::MIN as i128 || t2 > i64::MAX as i128 {
                proof {
                    assert(!(i64::MIN <= wsum(a, left + 1, right + 1) <= i64::MAX));
                    assert(!step_sums_fit(a, s, right as int));
                    assert(!scan_sums_fit(a, k, s));
                }
                return false;
            }
            sum = t2;
            left = left + 1;
        }
        proof {
            assert(left_end(a, s, right as int) == left);
            assert(step_sums_fit(a, s, right as int));
        }
        if sum == s as i128 && left <= right && right - left + 1 <= k {
            proof {
                assert(hit(a, k, s, right as int));
                assert forall|r: int| 0 <= r < a.len() && (forall|q: int| 0 <= q < r ==> !#[trigger] hit(a, k, s, q))
                    implies #[trigger] step_sums_fit(a, s, r) by {
                    if r > right {
                        assert(!hit(a, k, s, right as int));
                    }
                }
            }
            return true;
        }
        right = right + 1;
    }
    true
}

} // verus!
