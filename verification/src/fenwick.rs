//! A Fenwick (binary indexed) tree over `i64` with point updates and prefix sums.

use vstd::prelude::*;

verus! {

/// The lowest set bit of `i` (zero for zero).
pub open spec fn lowbit(i: usize) -> usize {
    i & ((!i + 1) as usize)
}

/// The lowest set bit of a positive `i` is positive and at most `i`.
pub proof fn lemma_lowbit_bounds(i: usize)
    requires
        i > 0,
    ensures
        0 < lowbit(i) <= i,
        !i + 1 <= usize::MAX,
{
    assert(i > 0 ==> 0 < i & ((!i + 1) as usize) <= i) by (bit_vector);
    assert(i > 0 ==> (!i + 1) as usize == !i + 1) by (bit_vector);
}

proof fn lemma_lowbit_skip(i: usize, t: usize)
    requires
        i > 0,
        0 < t < lowbit(i),
        i + t <= usize::MAX,
    ensures
        (i + t) - lowbit((i + t) as usize) >= i,
{
    assert(i > 0 && 0 < t && t < i & ((!i + 1) as usize) && i + t == (i + t) as usize ==>
        (i + t) - ((i + t) as usize & ((!((i + t) as usize) + 1) as usize)) >= i) by (bit_vector);
}

proof fn lemma_lowbit_next(i: usize)
    requires
        i > 0,
        i + lowbit(i) <= usize::MAX,
    ensures
        (i + lowbit(i)) - lowbit((i + lowbit(i)) as usize) <= i - lowbit(i),
{
    assert(i > 0 && i + (i & ((!i + 1) as usize)) == (i + (i & ((!i + 1) as usize))) as usize ==>
        (i + (i & ((!i + 1) as usize))) - ((i + (i & ((!i + 1) as usize))) as usize
            & ((!((i + (i & ((!i + 1) as usize))) as usize) + 1) as usize))
        <= i - (i & ((!i + 1) as usize))) by (bit_vector);
}


/// `s[lo + 1] + ... + s[hi]` (zero when `hi <= lo`).
pub open spec fn range_sum(s: Seq<int>, lo: int, hi: int) -> int
    decreases hi - lo,
{
    if hi <= lo { 0 } else { range_sum(s, lo, hi - 1) + s[hi] }
}

/// `|s[lo + 1]| + ... + |s[hi]|` (zero when `hi <= lo`).
pub open spec fn abs_sum(s: Seq<int>, lo: int, hi: int) -> int
    decreases hi - lo,
{
    if hi <= lo {
        0
    } else {
        abs_sum(s, lo, hi - 1) + (if s[hi] < 0 { -s[hi] } else { s[hi] })
    }
}

/// The sum of the absolute values of the positions `1..len` of `s`.
pub open spec fn total_abs(s: Seq<int>) -> int {
    abs_sum(s, 0, s.len() - 1)
}

/// Sums over adjacent ranges add up.
pub proof fn lemma_range_sum_split(s: Seq<int>, a: int, b: int, c: int)
    requires
        a <= b <= c,
    ensures
        range_sum(s, a, b) + range_sum(s, b, c) == range_sum(s, a, c),
    decreases c - b,
{
    if b < c {
        lemma_range_sum_split(s, a, b, c - 1);
    }
}

/// A range sum is bounded by the absolute sum over the same range.
pub proof fn lemma_range_sum_abs(s: Seq<int>, lo: int, hi: int)
    ensures
        -abs_sum(s, lo, hi) <= range_sum(s, lo, hi) <= abs_sum(s, lo, hi),
        abs_sum(s, lo, hi) >= 0,
    decreases hi - lo,
{
    if lo < hi {
        lemma_range_sum_abs(s, lo, hi - 1);
    }
}

/// The absolute sum grows with the range.
pub proof fn lemma_abs_sum_mono(s: Seq<int>, lo: int, hi: int, lo2: int, hi2: int)
    requires
        lo2 <= lo <= hi <= hi2,
    ensures
        abs_sum(s, lo, hi) <= abs_sum(s, lo2, hi2),
    decreases (hi2 - hi) + (lo - lo2),
{
    if hi < hi2 {
        lemma_abs_sum_mono(s, lo, hi, lo2, hi2 - 1);
        lemma_range_sum_abs(s, hi2 - 1, hi2);
    } else if lo2 < lo {
        lemma_abs_split(s, lo2, lo2 + 1, hi2);
        lemma_abs_sum_mono(s, lo, hi, lo2 + 1, hi2);
        lemma_range_sum_abs(s, lo2, lo2 + 1);
    }
}

/// Absolute sums over adjacent ranges add up.
pub proof fn lemma_abs_split(s: Seq<int>, a: int, b: int, c: int)
    requires
        a <= b <= c,
    ensures
        abs_sum(s, a, b) + abs_sum(s, b, c) == abs_sum(s, a, c),
    decreases c - b,
{
    if b < c {
        lemma_abs_split(s, a, b, c - 1);
    }
}

/// Changing one position changes exactly the range sums that contain it.
pub proof fn lemma_range_sum_update(s: Seq<int>, p: int, v: int, lo: int, hi: int)
    requires
        0 <= lo,
        hi < s.len(),
        0 <= p < s.len(),
    ensures
        range_sum(s.update(p, v), lo, hi) == range_sum(s, lo, hi) + (if lo < p <= hi { v - s[p] } else { 0 }),
    decreases hi - lo,
{
    if lo < hi {
        lemma_range_sum_update(s, p, v, lo, hi - 1);
    }
}

/// Adding `val` at position `idx` raises every prefix sum that reaches `idx`
/// by `val` and leaves the shorter ones unchanged.
pub proof fn law_add_then_sum(s: Seq<int>, idx: int, val: int, i: int)
    requires
        1 <= idx,
        0 <= i < s.len(),
    ensures
        range_sum(added(s, idx, val), 0, i) == range_sum(s, 0, i) + (if idx <= i { val } else { 0 }),
{
    if idx < s.len() {
        lemma_range_sum_update(s, idx, s[idx] + val, 0, i);
    }
}

/// Every sum that a tree over `s` holds, `s[j - lowbit(j) + 1] + ... + s[j]`
/// for `1 <= j < len`, fits in an `i64`.
pub open spec fn entries_fit(s: Seq<int>) -> bool {
    forall|j: int| 1 <= j < s.len() ==> i64::MIN <= #[trigger] range_sum(s, j - lowbit(j as usize), j) <= i64::MAX
}

/// Every partial sum that the prefix-sum scan up to `hi` forms, once it has
/// come down to position `i`, fits in an `i64`: the sums over
/// `i - lowbit(i) + 1 ..= hi`, then from the next position down, and so on.
pub open spec fn scan_fits(s: Seq<int>, i: usize, hi: int) -> bool
    decreases i,
{
    if i == 0 {
        true
    } else {
        proof {
            lemma_lowbit_bounds(i);
        }
        &&& i64::MIN <= range_sum(s, i - lowbit(i), hi) <= i64::MAX
        &&& scan_fits(s, (i - lowbit(i)) as usize, hi)
    }
}

/// What adding `val` at position `idx` makes of the values `s`: a position
/// past the end changes nothing.
pub open spec fn added(s: Seq<int>, idx: int, val: int) -> Seq<int> {
    if 0 <= idx < s.len() { s.update(idx, s[idx] + val) } else { s }
}

proof fn lemma_scan_abs(s: Seq<int>, i: usize, hi: int)
    requires
        total_abs(s) <= i64::MAX,
        i <= hi < s.len(),
    ensures
        scan_fits(s, i, hi),
    decreases i,
{
    if i > 0 {
        lemma_lowbit_bounds(i);
        lemma_range_sum_abs(s, i - lowbit(i), hi);
        lemma_abs_sum_mono(s, i - lowbit(i), hi, 0, s.len() - 1);
        lemma_scan_abs(s, (i - lowbit(i)) as usize, hi);
    }
}

/// Values whose absolute values sum to at most `i64::MAX` keep every tree
/// entry and every partial sum of a scan within `i64`.
pub proof fn lemma_fits_by_abs(s: Seq<int>)
    requires
        total_abs(s) <= i64::MAX,
        s.len() <= usize::MAX,
    ensures
        entries_fit(s),
        forall|i: usize, hi: int| i <= hi < s.len() ==> #[trigger] scan_fits(s, i, hi),
{
    assert forall|j: int| 1 <= j < s.len() implies i64::MIN <= #[trigger] range_sum(s, j - lowbit(j as usize), j) <= i64::MAX by {
        lemma_lowbit_bounds(j as usize);
        lemma_range_sum_abs(s, j - lowbit(j as usize), j);
        lemma_abs_sum_mono(s, j - lowbit(j as usize), j, 0, s.len() - 1);
    }
    assert forall|i: usize, hi: int| i <= hi < s.len() implies #[trigger] scan_fits(s, i, hi) by {
        lemma_scan_abs(s, i, hi);
    }
}

proof fn lemma_range_sum_agree(a: Seq<int>, b: Seq<int>, lo: int, hi: int)
    requires
        forall|k: int| lo < k <= hi ==> a[k] == b[k],
    ensures
        range_sum(a, lo, hi) == range_sum(b, lo, hi),
    decreases hi - lo,
{
    if lo < hi {
        lemma_range_sum_agree(a, b, lo, hi - 1);
    }
}

/// Adding at two positions gives the same values in either order, and two
/// adds at one position give what one add of their total gives.
pub proof fn law_adds_commute(s: Seq<int>, i: int, x: int, j: int, y: int)
    ensures
        added(added(s, i, x), j, y) == added(added(s, j, y), i, x),
        added(added(s, i, x), i, y) == added(s, i, x + y),
{
    assert(added(added(s, i, x), j, y) =~= added(added(s, j, y), i, x));
    assert(added(added(s, i, x), i, y) =~= added(s, i, x + y));
}

/// A Fenwick tree: `tree[j]` holds the sum of the values at positions
/// `j - lowbit(j) + 1 ..= j`; position `0` is unused.
pub struct Fenwick {
    tree: Vec<i64>,
    values: Ghost<Seq<int>>,
}

impl View for Fenwick {
    type V = Seq<int>;

    /// The point values at positions `0..len`; position `0` stays zero.
    closed spec fn view(&self) -> Seq<int> {
        self.values@
    }
}

impl Fenwick {
    /// The tree is consistent with its point values.
    pub closed spec fn wf(&self) -> bool {
        &&& self.tree@.len() == self.values@.len()
        &&& 1 <= self.tree@.len() <= usize::MAX / 2
        &&& self.values@[0] == 0
        &&& self.tree@[0] == 0
        &&& forall|j: int|
            1 <= j < self.tree@.len() ==> #[trigger] self.tree@[j] == range_sum(
                self.values@,
                j - lowbit(j as usize),
                j,
            )
    }

    /// A tree over positions `1..=size`, all zero.
    pub fn new(size: usize) -> (f: Self)
        requires
            size < usize::MAX / 2,
        ensures
            f.wf(),
            f@ == Seq::new((size + 1) as nat, |_i: int| 0int),
    {
        let tree: Vec<i64> = vec![0; size + 1];
        let ghost values = Seq::new((size + 1) as nat, |_i: int| 0int);
        assert(tree@.len() == size + 1);
        proof {
            assert forall|j: int| 1 <= j < tree@.len() implies #[trigger] tree@[j] == range_sum(
                values,
                j - lowbit(j as usize),
                j,
            ) by {
                lemma_lowbit_bounds(j as usize);
                lemma_zero_sum(values, j - lowbit(j as usize), j);
            }
        }
        Fenwick { tree, values: Ghost(values) }
    }

    /// The number of positions, `size + 1`.
    pub closed spec fn len(&self) -> nat {
        self.tree@.len()
    }

    /// The entries of the tree, entry `0` included.
    pub closed spec fn entries(&self) -> Seq<i64> {
        self.tree@
    }

    /// Two well-formed trees with the same values have the same entries: the
    /// values determine the whole tree.
    pub proof fn law_tree_determined(f1: &Fenwick, f2: &Fenwick)
        requires
            f1.wf(),
            f2.wf(),
            f1@ == f2@,
        ensures
            f1.entries() == f2.entries(),
    {
        assert(f1.tree@ =~= f2.tree@);
    }

    /// Two well-formed trees with the same entries hold the same values: the
    /// tree determines its values.
    pub proof fn law_values_determined(f1: &Fenwick, f2: &Fenwick)
        requires
            f1.wf(),
            f2.wf(),
            f1.entries() == f2.entries(),
        ensures
            f1@ == f2@,
    {
        let a = f1.values@;
        let b = f2.values@;
        let n = a.len() as int;
        Fenwick::lemma_values_agree(f1, f2, n);
        assert(a =~= b);
    }

    proof fn lemma_values_agree(f1: &Fenwick, f2: &Fenwick, j: int)
        requires
            f1.wf(),
            f2.wf(),
            f1.entries() == f2.entries(),
            0 <= j <= f1.values@.len(),
        ensures
            forall|i: int| 0 <= i < j ==> f1.values@[i] == f2.values@[i],
        decreases j,
    {
        if j > 0 {
            Fenwick::lemma_values_agree(f1, f2, j - 1);
            let i = j - 1;
            if i > 0 {
                let a = f1.values@;
                let b = f2.values@;
                lemma_lowbit_bounds(i as usize);
                let lo = i - lowbit(i as usize);
                assert(f1.tree@[i] == f2.tree@[i]);
                lemma_range_sum_agree(a, b, lo, i - 1);
                assert(range_sum(a, lo, i) == range_sum(a, lo, i - 1) + a[i]);
                assert(range_sum(b, lo, i) == range_sum(b, lo, i - 1) + b[i]);
            }
        }
    }

    /// Adds at two positions, made in either order on two trees with the same
    /// entries, leave trees with the same entries; two adds at one position
    /// leave what one add of their total leaves.
    pub proof fn law_adds_commute_on_trees(f1: &Fenwick, f2: &Fenwick, g1: &Fenwick, g2: &Fenwick, i: int, x: int, j: int, y: int)
        requires
            f1.wf(),
            f2.wf(),
            g1.wf(),
            g2.wf(),
            f1.entries() == f2.entries(),
            g1@ == added(added(f1@, i, x), j, y),
            g2@ == added(added(f2@, j, y), i, x) || (i == j && g2@ == added(f2@, i, x + y)),
        ensures
            g1.entries() == g2.entries(),
    {
        Fenwick::law_values_determined(f1, f2);
        law_adds_commute(f1@, i, x, j, y);
        Fenwick::law_tree_determined(g1, g2);
    }

    /// Adds `val` at position `idx`; an `idx` past the end changes nothing.
    pub fn add(&mut self, idx: usize, val: i64)
        requires
            old(self).wf(),
            idx >= 1,
            entries_fit(added(old(self)@, idx as int, val as int)),
        ensures
            final(self).wf(),
            final(self)@ == added(old(self)@, idx as int, val as int),
    {
        let ghost old_vals = self.values@;
        let ghost old_tree = self.tree@;
        let ghost len = self.tree@.len();
        if idx >= self.tree.len() {
            return;
        }
        let ghost new_vals = old_vals.update(idx as int, old_vals[idx as int] + val);
        let mut i = idx;
        proof {
            lemma_lowbit_bounds(i);
        }
        while i < self.tree.len()
            invariant
                self.tree@.len() == len,
                1 <= len <= usize::MAX / 2,
                1 <= idx < len,
                i >= 1,
                i <= 2 * len,
                i - lowbit(i) < idx <= i,
                new_vals == old_vals.update(idx as int, old_vals[idx as int] + val),
                entries_fit(new_vals),
                self.tree@[0] == 0,
                new_vals.len() == len,
                old_vals.len() == len,
                forall|j: int|
                    1 <= j < len ==> #[trigger] old_tree[j] == range_sum(
                        old_vals,
                        j - lowbit(j as usize),
                        j,
                    ),
                forall|j: int|
                    1 <= j < len ==> #[trigger] self.tree@[j] == old_tree[j] + (if j < i && j
                        - lowbit(j as usize) < idx <= j {
                        val as int
                    } else {
                        0
                    }),
            decreases 2 * len - i,
        {
            proof {
                lemma_lowbit_bounds(i);
                lemma_range_sum_update(old_vals, idx as int, old_vals[idx as int] + val, i - lowbit(i), i as int);
                assert(i64::MIN <= range_sum(new_vals, i - lowbit(i as usize), i as int) <= i64::MAX);
            }
            let low = i & (!i + 1);
            assert(low == lowbit(i));
            let ghost prev_tree = self.tree@;
            let cur = self.tree[i];
            self.tree.set(i, cur + val);
            let ghost i_old = i;
            i = i + low;
            proof {
                assert forall|j: int| 1 <= j < len implies #[trigger] self.tree@[j] == old_tree[j] + (if j < i && j
                        - lowbit(j as usize) < idx <= j {
                        val as int
                    } else {
                        0
                    }) by {
                    if i_old < j < i {
                        lemma_lowbit_skip(i_old, (j - i_old) as usize);
                    }
                }
                lemma_lowbit_next(i_old);
            }
        }
        proof {
            assert forall|j: int| 1 <= j < len implies #[trigger] self.tree@[j] == range_sum(
                new_vals,
                j - lowbit(j as usize),
                j,
            ) by {
                lemma_lowbit_bounds(j as usize);
                lemma_range_sum_update(old_vals, idx as int, old_vals[idx as int] + val, j - lowbit(j as usize), j);
            }
        }
        self.values = Ghost(new_vals);
    }

    /// The prefix sum of the values at positions `1..=idx`.
    pub fn sum(&self, idx: usize) -> (res: i64)
        requires
            self.wf(),
            idx < self@.len(),
            scan_fits(self@, idx, idx as int),
        ensures
            res == range_sum(self@, 0, idx as int),
    {
        let mut res: i64 = 0;
        let mut i = idx;
        while i > 0
            invariant
                self.wf(),
                i <= idx < self@.len(),
                res == range_sum(self@, i as int, idx as int),
                scan_fits(self@, i, idx as int),
            decreases i,
        {
            proof {
                lemma_lowbit_bounds(i);
                lemma_range_sum_split(self@, i - lowbit(i), i as int, idx as int);
            }
            let low = i & (!i + 1);
            assert(low == lowbit(i));
            res = res + self.tree[i];
            i = i - low;
        }
        res
    }
}

proof fn lemma_zero_sum(s: Seq<int>, lo: int, hi: int)
    requires
        forall|k: int| 0 <= k < s.len() ==> s[k] == 0,
        0 <= lo,
        hi < s.len(),
    ensures
        range_sum(s, lo, hi) == 0,
    decreases hi - lo,
{
    if lo < hi {
        lemma_zero_sum(s, lo, hi - 1);
    }
}

} // verus!
