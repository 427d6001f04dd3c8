//! The crypto heist: taking every coin of a value forfeits the coins whose
//! value is one less; the take is planned over the distinct values in
//! increasing order.

use vstd::prelude::*;

verus! {

/// The number of occurrences of `v` in `a`.
pub open spec fn occurrences(a: Seq<i64>, v: i64) -> int
    decreases a.len(),
{
    if a.len() == 0 {
        0
    } else {
        occurrences(a.drop_last(), v) + (if a.last() == v { 1int } else { 0int })
    }
}

/// `s` is strictly increasing.
pub open spec fn increasing(s: Seq<i64>) -> bool {
    forall|i: int, j: int| 0 <= i < j < s.len() ==> s[i] < s[j]
}

/// `s` lists exactly the values that occur in `a`.
pub open spec fn lists_values(s: Seq<i64>, a: Seq<i64>) -> bool {
    forall|x: i64| s.contains(x) <==> a.contains(x)
}

/// The distinct values of `a`, in increasing order.
pub open spec fn distinct_values(a: Seq<i64>) -> Seq<i64> {
    choose|s: Seq<i64>| increasing(s) && lists_values(s, a)
}

/// The planner's state after the first `i` distinct values `keys`:
/// the best totals up to the value before last and up to the last value, and
/// the last value seen (`i64::MIN` before any).
pub open spec fn plan(a: Seq<i64>, keys: Seq<i64>, i: int) -> (int, int, int)
    decreases i,
{
    if i <= 0 {
        (0, 0, i64::MIN as int)
    } else {
        let (p2, p1, pk) = plan(a, keys, i - 1);
        let k = keys[i - 1];
        let gain = k * occurrences(a, k);
        let cur = if pk == k - 1 {
            if p1 >= p2 + gain { p1 } else { p2 + gain }
        } else {
            p1 + gain
        };
        (p1, cur, k as int)
    }
}

/// The total that the plan reaches over all distinct values of `a`.
pub open spec fn heist_total(a: Seq<i64>) -> int {
    plan(a, distinct_values(a), distinct_values(a).len() as int).1
}

/// The sums that the planner forms at the `i`-th distinct value `keys[i]` fit
/// in an `i64`.
pub open spec fn step_fits(a: Seq<i64>, keys: Seq<i64>, i: int) -> bool {
    let (p2, p1, pk) = plan(a, keys, i);
    let gain = keys[i] * occurrences(a, keys[i]);
    &&& i64::MIN <= gain <= i64::MAX
    &&& pk == keys[i] - 1 ==> i64::MIN <= p2 + gain <= i64::MAX
    &&& pk != keys[i] - 1 ==> i64::MIN <= p1 + gain <= i64::MAX
}

/// Every sum that the planner forms fits in an `i64`, and no value is
/// `i64::MIN` (whose predecessor does not exist).
pub open spec fn heist_fits(a: Seq<i64>) -> bool {
    let keys = distinct_values(a);
    &&& !a.contains(i64::MIN)
    &&& forall|i: int| 0 <= i < keys.len() ==> #[trigger] step_fits(a, keys, i)
}

proof fn lemma_increasing_unique(s1: Seq<i64>, s2: Seq<i64>)
    requires
        increasing(s1),
        increasing(s2),
        forall|x: i64| s1.contains(x) <==> s2.contains(x),
    ensures
        s1 == s2,
    decreases s1.len() + s2.len(),
{
    if s1.len() == 0 {
        if s2.len() > 0 {
            assert(s2.contains(s2[0]));
        }
        assert(s1 =~= s2);
    } else if s2.len() == 0 {
        assert(s1.contains(s1[0]));
    } else {
        assert(s1.contains(s1[0]));
        assert(s2.contains(s2[0]));
        let i = choose|i: int| 0 <= i < s2.len() && s2[i] == s1[0];
        let j = choose|j: int| 0 <= j < s1.len() && s1[j] == s2[0];
        assert(s1[0] == s2[0]) by {
            if i > 0 {
                assert(s2[0] < s2[i]);
                if j > 0 {
                    assert(s1[0] < s1[j]);
                }
            }
        }
        let t1 = s1.drop_first();
        let t2 = s2.drop_first();
        assert forall|x: i64| t1.contains(x) <==> t2.contains(x) by {
            if t1.contains(x) {
                let p = choose|p: int| 0 <= p < t1.len() && t1[p] == x;
                assert(s1[0] < s1[p + 1]);
                assert(s2.contains(x));
                let q = choose|q: int| 0 <= q < s2.len() && s2[q] == x;
                assert(q != 0);
                assert(t2[q - 1] == x);
            }
            if t2.contains(x) {
                let p = choose|p: int| 0 <= p < t2.len() && t2[p] == x;
                assert(s2[0] < s2[p + 1]);
                assert(s1.contains(x));
                let q = choose|q: int| 0 <= q < s1.len() && s1[q] == x;
                assert(q != 0);
                assert(t1[q - 1] == x);
            }
        }
        lemma_increasing_unique(t1, t2);
        assert(s1 =~= seq![s1[0]] + t1);
        assert(s2 =~= seq![s2[0]] + t2);
    }
}

proof fn lemma_occurrences_push(a: Seq<i64>, x: i64, v: i64)
    ensures
        occurrences(a.push(x), v) == occurrences(a, v) + (if x == v { 1int } else { 0int }),
{
    assert(a.push(x).drop_last() =~= a);
}

proof fn lemma_occurrences_bound(a: Seq<i64>, v: i64)
    ensures
        0 <= occurrences(a, v) <= a.len(),
        occurrences(a, v) > 0 <==> a.contains(v),
    decreases a.len(),
{
    if a.len() > 0 {
        lemma_occurrences_bound(a.drop_last(), v);
        if a.drop_last().contains(v) {
            let i = choose|i: int| 0 <= i < a.drop_last().len() && a.drop_last()[i] == v;
            assert(a[i] == v);
        }
        if a.contains(v) && a.last() != v {
            let i = choose|i: int| 0 <= i < a.len() && a[i] == v;
            assert(a.drop_last()[i] == v);
        }
    }
}

/// The position of `v` in the increasing `keys`, or where it would be inserted.
fn search(keys: &Vec<i64>, v: i64) -> (pos: usize)
    requires
        increasing(keys@),
    ensures
        pos <= keys.len(),
        forall|i: int| 0 <= i < pos ==> keys@[i] < v,
        forall|i: int| pos < i < keys.len() ==> keys@[i] > v,
        pos < keys.len() ==> keys@[pos as int] >= v,
{
    let mut lo: usize = 0;
    let mut hi: usize = keys.len();
    while lo < hi
        invariant
            increasing(keys@),
            lo <= hi <= keys.len(),
            forall|i: int| 0 <= i < lo ==> keys@[i] < v,
            forall|i: int| hi <= i < keys.len() ==> keys@[i] >= v,
        decreases hi - lo,
    {
        let mid = lo + (hi - lo) / 2;
        if keys[mid] < v {
            lo = mid + 1;
        } else {
            hi = mid;
        }
    }
    assert forall|i: int| lo < i < keys.len() implies keys@[i] > v by {
        assert(keys@[lo as int] < keys@[i]);
    }
    lo
}

/// The distinct values of `values` in increasing order, with the number of
/// times each occurs.
fn tally(values: &Vec<i64>) -> (res: (Vec<i64>, Vec<i64>))
    requires
        values.len() < i64::MAX,
    ensures
        res.0@ == distinct_values(values@),
        increasing(res.0@),
        lists_values(res.0@, values@),
        res.1@.len() == res.0@.len(),
        forall|q: int| 0 <= q < res.0@.len() ==> #[trigger] res.1@[q] == occurrences(values@, res.0@[q]),
{
    let ghost a = values@;
    let mut keys: Vec<i64> = Vec::new();
    let mut counts: Vec<i64> = Vec::new();
    let mut i: usize = 0;
    while i < values.len()
        invariant
            a == values@,
            values.len() < i64::MAX,
            i <= values.len(),
            keys@.len() == counts@.len(),
            increasing(keys@),
            lists_values(keys@, a.take(i as int)),
            forall|j: int| 0 <= j < keys@.len() ==> #[trigger] counts@[j] == occurrences(a.take(i as int), keys@[j]),
        decreases values.len() - i,
    {
        let v = values[i];
        let pos = search(&keys, v);
        let ghost pre = a.take(i as int);
        let ghost post = a.take(i + 1);
        proof {
            assert(post =~= pre.push(v));
            lemma_occurrences_bound(pre, v);
            assert forall|j: int| 0 <= j < keys@.len() implies #[trigger] counts@[j] <= i by {
                lemma_occurrences_bound(pre, keys@[j]);
            }
        }
        if pos < keys.len() && keys[pos] == v {
            let c = counts[pos];
            counts.set(pos, c + 1);
            proof {
                assert forall|x: i64| keys@.contains(x) <==> post.contains(x) by {
                    if post.contains(x) && x != v {
                        let q = choose|q: int| 0 <= q < i + 1 && post[q] == x;
                        assert(pre[q] == x);
                    }
                    if pre.contains(x) {
                        let q = choose|q: int| 0 <= q < i && pre[q] == x;
                        assert(post[q] == x);
                    }
                }
                assert forall|j: int| 0 <= j < keys@.len() implies #[trigger] counts@[j] == occurrences(post, keys@[j]) by {
                    lemma_occurrences_push(pre, v, keys@[j]);
                }
            }
        } else {
            proof {
                assert(!keys@.contains(v)) by {
                    if keys@.contains(v) {
                        let q = choose|q: int| 0 <= q < keys@.len() && keys@[q] == v;
                    }
                }
            }
            let ghost old_keys = keys@;
            keys.insert(pos, v);
            counts.insert(pos, 1);
            proof {
                assert forall|x: i64| keys@.contains(x) <==> post.contains(x) by {
                    if post.contains(x) && x != v {
                        let q = choose|q: int| 0 <= q < i + 1 && post[q] == x;
                        assert(pre[q] == x);
                        assert(pre.contains(x));
                        let r = choose|r: int| 0 <= r < old_keys.len() && old_keys[r] == x;
                        if r < pos {
                            assert(keys@[r] == x);
                        } else {
                            assert(keys@[r + 1] == x);
                        }
                    }
                    if post.contains(x) && x == v {
                        assert(keys@[pos as int] == x);
                    }
                    if keys@.contains(x) && x != v {
                        let r = choose|r: int| 0 <= r < keys@.len() && keys@[r] == x;
                        if r < pos {
                            assert(old_keys[r] == x);
                        } else {
                            assert(old_keys[r - 1] == x);
                        }
                        assert(pre.contains(x));
                        let q = choose|q: int| 0 <= q < i && pre[q] == x;
                        assert(post[q] == x);
                    }
                    if x == v {
                        assert(post[i as int] == x);
                    }
                }
                assert forall|j: int| 0 <= j < keys@.len() implies #[trigger] counts@[j] == occurrences(post, keys@[j]) by {
                    lemma_occurrences_push(pre, v, keys@[j]);
                    if j != pos {
                        lemma_occurrences_bound(pre, v);
                    }
                }
            }
        }
        i = i + 1;
    }
    proof {
        assert(a.take(a.len() as int) =~= a);
        lemma_increasing_unique(keys@, distinct_values(a));
    }
    (keys, counts)
}

/// The best total of the heist over `values`: the distinct values are taken
/// in increasing order, and a value is taken with all its coins unless the
/// value one less was taken and that is worth more.
pub fn max_heist(values: &Vec<i64>) -> (total: i64)
    requires
        heist_fits(values@),
        values.len() < i64::MAX,
    ensures
        total == heist_total(values@),
{
    let ghost a = values@;
    let (keys, counts) = tally(values);
    let mut prev2: i64 = 0;
    let mut prev1: i64 = 0;
    let mut prev_key: i64 = i64::MIN;
    let mut j: usize = 0;
    while j < keys.len()
        invariant
            a == values@,
            heist_fits(a),
            keys@ == distinct_values(a),
            lists_values(keys@, a),
            keys@.len() == counts@.len(),
            forall|q: int| 0 <= q < keys@.len() ==> #[trigger] counts@[q] == occurrences(a, keys@[q]),
            j <= keys.len(),
            plan(a, keys@, j as int) == (prev2 as int, prev1 as int, prev_key as int),
        decreases keys.len() - j,
    {
        let k = keys[j];
        proof {
            assert(step_fits(a, keys@, j as int));
            assert(keys@.contains(k));
            lemma_occurrences_bound(a, k);
            assert(k != i64::MIN);
        }
        let gain = k * counts[j];
        let cur = if prev_key == k - 1 {
            let with = prev2 + gain;
            if prev1 >= with { prev1 } else { with }
        } else {
            prev1 + gain
        };
        prev2 = prev1;
        prev1 = cur;
        prev_key = k;
        j = j + 1;
    }
    prev1
}

/// Whether every sum that the planner forms over `values` fits in an `i64`
/// (and no value is `i64::MIN`).
pub fn heist_in_range(values: &Vec<i64>) -> (ok: bool)
    requires
        values.len() < i64::MAX,
    ensures
        ok == heist_fits(values@),
{
    let ghost a = values@;
    let (keys, counts) = tally(values);
    if keys.len() > 0 && keys[0] == i64::MIN {
        proof {
            assert(keys@.contains(keys@[0]));
        }
        return false;
    }
    proof {
        if a.contains(i64::MIN) {
            assert(keys@.contains(i64::MIN));
            let q = choose|q: int| 0 <= q < keys@.len() && keys@[q] == i64::MIN;
            if q > 0 {
                assert(keys@[0] < keys@[q]);
            }
        }
    }
    let mut prev2: i64 = 0;
    let mut prev1: i64 = 0;
    let mut prev_key: i64 = i64::MIN;
    let mut j: usize = 0;
    while j < keys.len()
        invariant
            a == values@,
            !a.contains(i64::MIN),
            a.len() < i64::MAX,
            keys@ == distinct_values(a),
            lists_values(keys@, a),
            keys@.len() == counts@.len(),
            forall|q: int| 0 <= q < keys@.len() ==> #[trigger] counts@[q] == occurrences(a, keys@[q]),
            j <= keys.len(),
            plan(a, keys@, j as int) == (prev2 as int, prev1 as int, prev_key as int),
            forall|i: int| 0 <= i < j ==> #[trigger] step_fits(a, keys@, i),
        decreases keys.len() - j,
    {
        let k = keys[j];
        let c = counts[j];
        let ghost st = plan(a, keys@, j as int);
        proof {
            assert(keys@.contains(k));
            lemma_occurrences_bound(a, k);
            assert(k != i64::MIN);
            assert(k as i128 * c as i128 <= 170141183460469231731687303715884105727) by (nonlinear_arith)
                requires
                    i64::MIN <= k <= i64::MAX,
                    0 <= c <= i64::MAX,
            ;
            assert(k as i128 * c as i128 >= -170141183460469231731687303715884105728) by (nonlinear_arith)
                requires
                    i64::MIN <= k <= i64::MAX,
                    0 <= c <= i64::MAX,
            ;
        }
        let g = k as i128 * c as i128;
        if g < i64::MIN as i128 || g > i64::MAX as i128 {
            assert(!step_fits(a, keys@, j as int));
            return false;
        }
        let gain = g as i64;
        let cur = if prev_key == k - 1 {
            let with = prev2 as i128 + gain as i128;
            if with < i64::MIN as i128 || with > i64::MAX as i128 {
                assert(!step_fits(a, keys@, j as int));
                return false;
            }
            let with = with as i64;
            if prev1 >= with { prev1 } else { with }
        } else {
            let sum = prev1 as i128 + gain as i128;
            if sum < i64::MIN as i128 || sum > i64::MAX as i128 {
                assert(!step_fits(a, keys@, j as int));
                return false;
            }
            sum as i64
        };
        proof {
            assert(gain as int == keys@[j as int] * occurrences(a, keys@[j as int]));
            assert(plan(a, keys@, j as int) == st);
            assert(step_fits(a, keys@, j as int));
        }
        prev2 = prev1;
        prev1 = cur;
        prev_key = k;
        j = j + 1;
    }
    true
}

/// `sel` takes no two of the first `i` values of `keys` that differ by one.
pub open spec fn non_adjacent(keys: Seq<i64>, sel: Seq<bool>, i: int) -> bool {
    forall|j1: int, j2: int| 0 <= j1 < j2 < i && #[trigger] sel[j1] && #[trigger] sel[j2] ==> keys[j2] != keys[j1] + 1
}

/// What taking every coin of each value `keys[j]`, `j < i`, with `sel[j]` set yields.
pub open spec fn take_value(a: Seq<i64>, keys: Seq<i64>, sel: Seq<bool>, i: int) -> int
    decreases i,
{
    if i <= 0 {
        0
    } else {
        take_value(a, keys, sel, i - 1) + (if sel[i - 1] { keys[i - 1] * occurrences(a, keys[i - 1]) } else { 0 })
    }
}

proof fn lemma_take_prefix(a: Seq<i64>, keys: Seq<i64>, s1: Seq<bool>, s2: Seq<bool>, i: int)
    requires
        forall|j: int| 0 <= j < i ==> s1[j] == s2[j],
    ensures
        take_value(a, keys, s1, i) == take_value(a, keys, s2, i),
    decreases i,
{
    if i > 0 {
        lemma_take_prefix(a, keys, s1, s2, i - 1);
    }
}

/// The values of `keys` are nonnegative, as are their gains.
spec fn gains_ok(a: Seq<i64>, keys: Seq<i64>) -> bool {
    forall|j: int| 0 <= j < keys.len() ==> #[trigger] keys[j] >= 0 && keys[j] * occurrences(a, keys[j]) >= 0
}

proof fn lemma_plan_upper(a: Seq<i64>, keys: Seq<i64>, sel: Seq<bool>, i: int)
    requires
        increasing(keys),
        gains_ok(a, keys),
        0 <= i <= keys.len(),
        non_adjacent(keys, sel, i),
    ensures
        take_value(a, keys, sel, i) <= plan(a, keys, i).1,
    decreases i,
{
    if i > 0 {
        assert(non_adjacent(keys, sel, i - 1));
        lemma_plan_upper(a, keys, sel, i - 1);
        let (p2, p1, pk) = plan(a, keys, i - 1);
        let k = keys[i - 1];
        let g = k * occurrences(a, k);
        assert(k >= 0 && g >= 0);
        if i >= 2 {
            assert(pk == keys[i - 2]);
            assert(p2 == plan(a, keys, i - 2).1);
        }
        if sel[i - 1] && pk == k - 1 {
            assert(i >= 2);
            assert(!sel[i - 2]);
            assert(non_adjacent(keys, sel, i - 2));
            lemma_plan_upper(a, keys, sel, i - 2);
        }
    }
}

proof fn lemma_plan_attained(a: Seq<i64>, keys: Seq<i64>, i: int) -> (sel: Seq<bool>)
    requires
        increasing(keys),
        gains_ok(a, keys),
        0 <= i <= keys.len(),
    ensures
        sel.len() == i,
        non_adjacent(keys, sel, i),
        take_value(a, keys, sel, i) == plan(a, keys, i).1,
    decreases i,
{
    if i == 0 {
        Seq::empty()
    } else {
        let (p2, p1, pk) = plan(a, keys, i - 1);
        let k = keys[i - 1];
        let g = k * occurrences(a, k);
        assert(k >= 0);
        if i >= 2 {
            assert(pk == keys[i - 2]);
            assert(p2 == plan(a, keys, i - 2).1);
        }
        if pk == k - 1 && p1 < p2 + g {
            assert(i >= 2);
            let w = lemma_plan_attained(a, keys, i - 2);
            let sel = w.push(false).push(true);
            lemma_take_prefix(a, keys, sel, w, i - 2);
            assert(sel[i - 2] == false && sel[i - 1] == true);
            assert(take_value(a, keys, sel, i - 1) == take_value(a, keys, sel, i - 2));
            assert(take_value(a, keys, sel, i) == take_value(a, keys, sel, i - 1) + g);
            assert(plan(a, keys, i).1 == p2 + g);
            assert forall|j1: int, j2: int| 0 <= j1 < j2 < i && #[trigger] sel[j1] && #[trigger] sel[j2] implies keys[j2] != keys[j1] + 1 by {
                if j2 < i - 2 {
                    assert(sel[j1] == w[j1] && sel[j2] == w[j2]);
                } else {
                    assert(j2 == i - 1 && j1 < i - 2);
                    assert(keys[j1] < keys[i - 2]);
                }
            }
            sel
        } else {
            let w = lemma_plan_attained(a, keys, i - 1);
            let take = !(pk == k - 1);
            let sel = w.push(take);
            lemma_take_prefix(a, keys, sel, w, i - 1);
            assert(sel[i - 1] == take);
            if take {
                assert(take_value(a, keys, sel, i) == take_value(a, keys, sel, i - 1) + g);
                assert(plan(a, keys, i).1 == p1 + g);
            } else {
                assert(take_value(a, keys, sel, i) == take_value(a, keys, sel, i - 1));
                assert(plan(a, keys, i).1 == p1);
            }
            assert forall|j1: int, j2: int| 0 <= j1 < j2 < i && #[trigger] sel[j1] && #[trigger] sel[j2] implies keys[j2] != keys[j1] + 1 by {
                if j2 < i - 1 {
                    assert(sel[j1] == w[j1] && sel[j2] == w[j2]);
                } else {
                    assert(take);
                    if i >= 2 {
                        assert(keys[j1] <= keys[i - 2]);
                        assert(keys[i - 2] < keys[i - 1]);
                    }
                }
            }
            sel
        }
    }
}

proof fn lemma_keys_total(a: Seq<i64>, keys: Seq<i64>)
    requires
        forall|i: int| 0 <= i < a.len() ==> a[i] >= 0,
        increasing(keys),
        lists_values(keys, a),
    ensures
        heist_total(a) == plan(a, keys, keys.len() as int).1,
        gains_ok(a, keys),
{
    assert(increasing(distinct_values(a)) && lists_values(distinct_values(a), a));
    lemma_increasing_unique(distinct_values(a), keys);
    assert forall|j: int| 0 <= j < keys.len() implies #[trigger] keys[j] >= 0 && keys[j] * occurrences(a, keys[j]) >= 0 by {
        assert(keys.contains(keys[j]));
        assert(a.contains(keys[j]));
        lemma_occurrences_bound(a, keys[j]);
        let k = keys[j];
        let o = occurrences(a, k);
        assert(k * o >= 0) by (nonlinear_arith) requires k >= 0, o >= 0;
    }
}

/// With no negative value, no take that skips the neighbours of each value it
/// takes yields more than the heist total.
pub proof fn law_heist_best(a: Seq<i64>, keys: Seq<i64>, sel: Seq<bool>)
    requires
        forall|i: int| 0 <= i < a.len() ==> a[i] >= 0,
        increasing(keys),
        lists_values(keys, a),
        sel.len() == keys.len(),
        non_adjacent(keys, sel, keys.len() as int),
    ensures
        take_value(a, keys, sel, keys.len() as int) <= heist_total(a),
{
    lemma_keys_total(a, keys);
    lemma_plan_upper(a, keys, sel, keys.len() as int);
}

/// With no negative value, some take that skips the neighbours of each value
/// it takes yields exactly the heist total.
pub proof fn law_heist_attained(a: Seq<i64>, keys: Seq<i64>)
    requires
        forall|i: int| 0 <= i < a.len() ==> a[i] >= 0,
        increasing(keys),
        lists_values(keys, a),
    ensures
        exists|sel: Seq<bool>| sel.len() == keys.len() && non_adjacent(keys, sel, keys.len() as int)
            && #[trigger] take_value(a, keys, sel, keys.len() as int) == heist_total(a),
{
    lemma_keys_total(a, keys);
    let sel = lemma_plan_attained(a, keys, keys.len() as int);
    assert(take_value(a, keys, sel, keys.len() as int) == heist_total(a));
}

} // verus!
