//! Prime resonance: counting the ways to split an even number of values into
//! pairs whose sums are all prime.

use vstd::prelude::*;
use vstd::std_specs::bits::u64_trailing_zeros;

verus! {

/// `x` is prime: at least two and without divisor strictly between one and itself.
pub open spec fn prime(x: int) -> bool {
    x >= 2 && forall|d: int| 2 <= d < x ==> #[trigger] (x % d) != 0
}

proof fn lemma_small_divisor(x: int, d: int)
    requires
        2 <= d < x,
        x % d == 0,
    ensures
        exists|e: int| 2 <= e && e * e <= x && #[trigger] (x % e) == 0 && (e <= d),
{
    let q = x / d;
    assert(x == d * q) by (nonlinear_arith)
        requires
            x % d == 0,
            d > 0,
            q == x / d,
    ;
    assert(q >= 2) by (nonlinear_arith)
        requires
            x == d * q,
            d < x,
            d >= 2,
    ;
    if d * d <= x {
        assert(x % d == 0);
    } else {
        assert(q < d) by (nonlinear_arith)
            requires
                x == d * q,
                d * d > x,
                d > 0,
        ;
        assert(q * q <= x) by (nonlinear_arith)
            requires
                x == d * q,
                q < d,
                q >= 0,
        ;
        assert(x % q == 0) by (nonlinear_arith)
            requires
                x == d * q,
                q >= 2,
        ;
    }
}

proof fn lemma_even_divisor(x: int, e: int)
    requires
        e > 0,
        e % 2 == 0,
        x % e == 0,
    ensures
        x % 2 == 0,
{
    let q = x / e;
    let h = e / 2;
    vstd::arithmetic::div_mod::lemma_fundamental_div_mod(x, e);
    vstd::arithmetic::div_mod::lemma_fundamental_div_mod(e, 2);
    assert(x == e * q);
    assert(e == 2 * h);
    assert(x == 2 * (h * q)) by (nonlinear_arith)
        requires
            x == e * q,
            e == 2 * h,
    ;
}

/// Whether `x` is prime, by trial division with odd divisors up to its
/// square root.
pub fn is_prime(x: u32) -> (b: bool)
    requires
        x < 4294836225 || !prime(x as int),
    ensures
        b == prime(x as int),
{
    if x < 2 {
        return false;
    }
    if x % 2 == 0 {
        proof {
            if x != 2 {
                assert((x as int) % 2 == 0);
            }
        }
        return x == 2;
    }
    let mut d: u32 = 3;
    loop
        invariant
            x >= 3,
            x % 2 == 1,
            x < 4294836225 || !prime(x as int),
            d % 2 == 1,
            3 <= d,
            (d - 2) * (d - 2) <= x,
            d <= 65537,
            forall|e: int| 2 <= e < d ==> #[trigger] ((x as int) % e) != 0,
        decreases 65537 - d,
    {
        if d == 65537 {
            proof {
                assert(65535 * 65535 <= x);
                if !prime(x as int) {
                    let f = choose|f: int| 2 <= f < x && #[trigger] ((x as int) % f) == 0;
                    lemma_small_divisor(x as int, f);
                    let e = choose|e: int| 2 <= e && e * e <= x && #[trigger] ((x as int) % e) == 0 && (e <= f);
                    assert(e < 65537) by (nonlinear_arith)
                        requires
                            e * e <= x,
                            x <= 4294967295,
                            e >= 2,
                    ;
                }
            }
            assert(false);
        }
        assert(d * d <= 4294836225) by (nonlinear_arith)
            requires
                d <= 65535,
                d >= 3,
        ;
        if d * d > x {
            proof {
                assert forall|f: int| 2 <= f < x implies #[trigger] ((x as int) % f) != 0 by {
                    if (x as int) % f == 0 {
                        lemma_small_divisor(x as int, f);
                        let e = choose|e: int| 2 <= e && e * e <= x && #[trigger] ((x as int) % e) == 0 && (e <= f);
                        assert(e < d) by (nonlinear_arith)
                            requires
                                e * e <= x,
                                d * d > x,
                                e >= 2,
                                d >= 3,
                        ;
                    }
                }
            }
            return true;
        }
        if x % d == 0 {
            proof {
                assert(d < x) by (nonlinear_arith)
                    requires
                        d * d <= x,
                        d >= 3,
                ;
                assert((x as int) % (d as int) == 0);
            }
            return false;
        }
        proof {
            assert((x as int) % (d + 1) != 0) by {
                if (x as int) % (d + 1) == 0 {
                    lemma_even_divisor(x as int, d + 1);
                }
            }
        }
        d = d + 2;
    }
}


/// Whether `x` is a prime of at least 65535 squared, the values whose test by
/// `is_prime` would square a divisor past the `u32` range.
pub fn prime_test_overflows(x: u32) -> (b: bool)
    ensures
        b == (x >= 4294836225 && prime(x as int)),
{
    if x < 4294836225 {
        return false;
    }
    let mut d: u32 = 2;
    while d < 65536
        invariant
            x >= 4294836225,
            2 <= d <= 65536,
            forall|e: int| 2 <= e < d ==> #[trigger] ((x as int) % e) != 0,
        decreases 65536 - d,
    {
        if x % d == 0 {
            proof {
                assert((x as int) % (d as int) == 0);
                assert(d < x);
            }
            return false;
        }
        d = d + 1;
    }
    proof {
        assert forall|e: int| 2 <= e < x implies #[trigger] ((x as int) % e) != 0 by {
            if (x as int) % e == 0 {
                lemma_small_divisor(x as int, e);
                let f = choose|f: int| 2 <= f && f * f <= x && #[trigger] ((x as int) % f) == 0 && f <= e;
                assert(f < 65536) by (nonlinear_arith)
                    requires
                        f * f <= x,
                        x <= 4294967295,
                        f >= 2,
                ;
            }
        }
    }
    true
}

/// The number of ways to split the positions listed in `s` into pairs whose
/// values sum to a prime: the first position is paired with some later one
/// and the rest is split in the same way.
pub open spec fn pairings(a: Seq<u32>, s: Seq<int>) -> nat
    decreases s.len(), s.len(),
{
    if s.len() == 0 { 1 } else { pick_sum(a, s, 1) }
}

/// The ways that pair the first position of `s` with the `t`-th or a later one.
pub open spec fn pick_sum(a: Seq<u32>, s: Seq<int>, t: int) -> nat
    decreases s.len(), s.len() - t,
{
    if t <= 0 || t >= s.len() {
        0
    } else {
        (if prime(a[s[0]] + a[s[t]]) { pairings(a, s.remove(t).drop_first()) } else { 0 })
            + pick_sum(a, s, t + 1)
    }
}

/// Bit `j` of `m` is set.
pub open spec fn bit(m: u64, j: int) -> bool {
    0 <= j < 64 && (m >> (j as u64)) & 1u64 == 1u64
}

/// The positions below `n` of the set bits of `m`, in increasing order.
pub open spec fn bits(m: u64, n: int) -> Seq<int>
    decreases n,
{
    if n <= 0 {
        Seq::empty()
    } else if bit(m, n - 1) {
        bits(m, n - 1).push(n - 1)
    } else {
        bits(m, n - 1)
    }
}

/// The number of ones in the binary representation of `x`.
fn count_ones(x: u64) -> (r: u32)
    ensures
        r == bits(x, 64).len(),
{
    let mut c: u32 = 0;
    let mut j: u64 = 0;
    while j < 64
        invariant
            j <= 64,
            c == bits(x, j as int).len(),
            c <= j,
        decreases 64 - j,
    {
        if (x >> j) & 1 == 1 {
            c = c + 1;
        }
        j = j + 1;
    }
    c
}

proof fn lemma_odd_pairings(a: Seq<u32>, s: Seq<int>)
    requires
        s.len() % 2 == 1,
    ensures
        pairings(a, s) == 0,
    decreases s.len(), s.len(),
{
    lemma_odd_pick(a, s, 1);
}

proof fn lemma_odd_pick(a: Seq<u32>, s: Seq<int>, t: int)
    requires
        s.len() % 2 == 1,
        t >= 1,
    ensures
        pick_sum(a, s, t) == 0,
    decreases s.len(), s.len() - t,
{
    if t < s.len() {
        lemma_odd_pairings(a, s.remove(t).drop_first());
        lemma_odd_pick(a, s, t + 1);
    }
}

proof fn lemma_pick_bound(a: Seq<u32>, s: Seq<int>, t: int)
    requires
        1 <= t,
    ensures
        pick_sum(a, s, t) <= pick_sum(a, s, 1),
    decreases t,
{
    if t > 1 {
        lemma_pick_bound(a, s, t - 1);
    }
}

proof fn lemma_bits_shape(m: u64, n: int)
    requires
        0 <= n <= 64,
    ensures
        bits(m, n).len() <= n,
        forall|q: int| 0 <= q < bits(m, n).len() ==> 0 <= #[trigger] bits(m, n)[q] < n && bit(m, bits(m, n)[q]),
        forall|p: int, q: int| 0 <= p < q < bits(m, n).len() ==> bits(m, n)[p] < bits(m, n)[q],
        forall|j: int| 0 <= j < n && bit(m, j) ==> bits(m, n).contains(j),
    decreases n,
{
    if n > 0 {
        lemma_bits_shape(m, n - 1);
        let s = bits(m, n);
        let s1 = bits(m, n - 1);
        assert forall|j: int| 0 <= j < n && bit(m, j) implies s.contains(j) by {
            if j < n - 1 {
                let q = choose|q: int| 0 <= q < s1.len() && s1[q] == j;
                assert(s[q] == j);
            } else {
                assert(s[s.len() - 1] == j);
            }
        }
    }
}

proof fn lemma_bits_agree(m1: u64, m2: u64, n: int)
    requires
        forall|j: int| 0 <= j < n ==> bit(m1, j) == bit(m2, j),
    ensures
        bits(m1, n) == bits(m2, n),
    decreases n,
{
    if n > 0 {
        lemma_bits_agree(m1, m2, n - 1);
    }
}

proof fn lemma_bits_prefix(m: u64, p: int, n: int)
    requires
        0 <= p <= n <= 64,
    ensures
        bits(m, p).len() <= bits(m, n).len(),
        bits(m, n).take(bits(m, p).len() as int) == bits(m, p),
        forall|q: int| bits(m, p).len() <= q < bits(m, n).len() ==> #[trigger] bits(m, n)[q] >= p,
    decreases n - p,
{
    if p < n {
        lemma_bits_prefix(m, p, n - 1);
        assert(bits(m, n).take(bits(m, p).len() as int) =~= bits(m, p));
    }
}

proof fn lemma_bits_index(m: u64, n: int, t: int)
    requires
        0 <= n <= 64,
        0 <= t < bits(m, n).len(),
    ensures
        bits(m, bits(m, n)[t]).len() == t,
{
    let s = bits(m, n);
    let p = s[t];
    lemma_bits_shape(m, n);
    lemma_bits_prefix(m, p, n);
    lemma_bits_prefix(m, p + 1, n);
    let l = bits(m, p).len() as int;
    assert(bits(m, p + 1) == bits(m, p).push(p));
    assert(s[l] == bits(m, p + 1)[l]);
    if t < l {
        assert(s[t] == bits(m, p)[t]);
        lemma_bits_shape(m, p);
    } else if t > l {
        assert(s[l] < s[t]);
    }
}

proof fn lemma_bits_clear(m: u64, m2: u64, p: int, n: int)
    requires
        0 <= p < n <= 64,
        bit(m, p),
        forall|j: int| #![trigger bit(m2, j)] 0 <= j < 64 ==> bit(m2, j) == (bit(m, j) && j != p),
    ensures
        bits(m2, n) == bits(m, n).remove(bits(m, p).len() as int),
        bits(m, p).len() < bits(m, n).len(),
    decreases n,
{
    if p == n - 1 {
        lemma_bits_agree(m, m2, n - 1);
        assert(bits(m, n).remove(bits(m, p).len() as int) =~= bits(m, n - 1));
    } else {
        lemma_bits_clear(m, m2, p, n - 1);
        assert(bit(m2, n - 1) == bit(m, n - 1));
        assert(bits(m2, n) =~= bits(m, n).remove(bits(m, p).len() as int));
    }
}

proof fn lemma_clear_bit(m: u64, p: u64)
    requires
        p < 64,
    ensures
        forall|j: int| #![trigger bit(m & !(1u64 << p), j)] 0 <= j < 64 ==> bit(m & !(1u64 << p), j) == (bit(m, j) && j != p),
        bit(m, p as int) ==> (m & !(1u64 << p)) < m,
{
    assert forall|j: int| #![trigger bit(m & !(1u64 << p), j)] 0 <= j < 64 implies bit(m & !(1u64 << p), j) == (bit(m, j) && j != p) by {
        let jj = j as u64;
        assert(jj < 64 && p < 64 ==> ((((m & !(1u64 << p)) >> jj) & 1u64 == 1u64) == (((m >> jj) & 1u64 == 1u64) && jj != p))) by (bit_vector);
    }
    assert(p < 64 && (m >> p) & 1u64 == 1u64 ==> (m & !(1u64 << p)) < m) by (bit_vector);
}

proof fn lemma_lowest_bit(m: u64)
    requires
        m != 0,
    ensures
        u64_trailing_zeros(m) < 64,
        bit(m, u64_trailing_zeros(m) as int),
        forall|j: int| 0 <= j < u64_trailing_zeros(m) ==> !#[trigger] bit(m, j),
        forall|j: int| #![trigger bit(m & ((m - 1) as u64), j)] 0 <= j < 64 ==> bit(m & ((m - 1) as u64), j) == (bit(m, j) && j != u64_trailing_zeros(m)),
{
    broadcast use vstd::std_specs::bits::axiom_u64_trailing_zeros;
    let z = u64_trailing_zeros(m) as u64;
    assert(z == 0 || m << ((64 - z) as u64) == 0);
    assert forall|j: int| 0 <= j < u64_trailing_zeros(m) implies !#[trigger] bit(m, j) by {
        assert((m >> (j as u64)) & 1u64 == 0u64);
    }
    assert forall|j: int| #![trigger bit(m & ((m - 1) as u64), j)] 0 <= j < 64 implies bit(m & ((m - 1) as u64), j) == (bit(m, j) && j != z) by {
        let jj = j as u64;
        assert(m != 0 && z < 64 && (m >> z) & 1u64 == 1u64 && (z == 0 || m << ((64 - z) as u64) == 0) && jj < 64 ==>
            ((((m & ((m - 1) as u64)) >> jj) & 1u64 == 1u64) == (((m >> jj) & 1u64 == 1u64) && jj != z))) by (bit_vector);
    }
}


proof fn lemma_bits_high(m: u64, n: int)
    requires
        0 <= n < 64,
        m < (1u64 << (n as u64)),
    ensures
        bits(m, 64) == bits(m, n),
        forall|j: int| n <= j < 64 ==> !#[trigger] bit(m, j),
{
    assert forall|j: int| n <= j < 64 implies !bit(m, j) by {
        let jj = j as u64;
        let nn = n as u64;
        assert(nn < 64 && m < (1u64 << nn) && nn <= jj && jj < 64 ==> (m >> jj) & 1u64 == 0u64) by (bit_vector);
    }
    lemma_bits_tail(m, n, 64);
}

proof fn lemma_bits_tail(m: u64, n: int, k: int)
    requires
        0 <= n <= k,
        forall|j: int| n <= j < k ==> !bit(m, j),
    ensures
        bits(m, k) == bits(m, n),
    decreases k - n,
{
    if n < k {
        lemma_bits_tail(m, n, k - 1);
    }
}

proof fn lemma_bits_empty(n: int)
    requires
        0 <= n,
    ensures
        bits(0, n) == Seq::<int>::empty(),
    decreases n,
{
    if n > 0 {
        lemma_bits_empty(n - 1);
        let jj = (n - 1) as u64;
        assert((0u64 >> jj) & 1u64 == 0u64) by (bit_vector);
    }
}

proof fn lemma_bits_full(n: int, k: int)
    requires
        0 <= k <= n < 64,
    ensures
        bits(((1u64 << (n as u64)) - 1) as u64, k) == Seq::new(k as nat, |j: int| j),
    decreases k,
{
    if k > 0 {
        lemma_bits_full(n, k - 1);
        let jj = (k - 1) as u64;
        let nn = n as u64;
        assert(jj < nn && nn < 64 ==> ((((1u64 << nn) - 1) as u64 >> jj) & 1u64 == 1u64)) by (bit_vector);
        assert(bits(((1u64 << (n as u64)) - 1) as u64, k) =~= Seq::new(k as nat, |j: int| j));
    }
}

proof fn lemma_bits_index_of(m: u64, n: int, z: int)
    requires
        0 <= n <= 64,
        0 <= z < 64,
        bit(m, z),
        forall|j: int| 0 <= j < z ==> !#[trigger] bit(m, j),
        forall|j: int| n <= j < 64 ==> !#[trigger] bit(m, j),
    ensures
        z < n,
        bits(m, n).len() > 0,
        bits(m, n)[0] == z,
        bits(m, z).len() == 0,
{
    lemma_bits_tail(m, 0, z);
    assert(bits(m, z + 1) == seq![z]);
    lemma_bits_prefix(m, z + 1, n);
    assert(bits(m, n).take(1)[0] == z);
}

/// All values pairwise sum to a number that fits in a `u32` and that trial
/// division can test.
pub open spec fn sums_testable(a: Seq<u32>) -> bool {
    forall|i: int, j: int|
        0 <= i < j < a.len() ==> {
            &&& #[trigger] a[i] + #[trigger] a[j] <= u32::MAX
            &&& (a[i] + a[j] < 4294836225 || !prime(a[i] + a[j]))
        }
}

/// Counts the ways to split all of `values` into pairs with prime sums.
pub fn count_prime_pairings(values: &Vec<u32>) -> (count: Option<u64>)
    requires
        values.len() + 3 < usize::BITS,
        sums_testable(values@),
    ensures
        count is None <==> exists|mask: u64| mask < (1u64 << (values.len() as u64))
            && pairings(values@, #[trigger] bits(mask, values.len() as int)) > u64::MAX,
        count matches Some(c) ==> c == pairings(values@, Seq::new(values.len() as nat, |j: int| j)),
{
    let n = values.len();
    let ghost a = values@;
    let ghost nn = n as int;
    let nbits = n as u64;
    assert(nbits < 64);
    let limit: u64 = 1u64 << nbits;
    assert(n < usize::BITS && nbits == n ==> ((1u64 << nbits) as usize) as u64 == (1u64 << nbits)) by (bit_vector);
    assert(nbits < 64 ==> 1u64 <= (1u64 << nbits)) by (bit_vector);
    let size = limit as usize;
    let full: u64 = limit - 1;
    let mut dp: Vec<u64> = vec![0u64; size];
    dp.set(0, 1);
    proof {
        lemma_bits_empty(nn);
    }
    let mut mask: u64 = 1;
    while mask < limit
        invariant
            n == values.len(),
            a == values@,
            nn == n,
            nbits == n,
            n + 3 < usize::BITS,
            nbits < 64,
            limit == 1u64 << nbits,
            size == limit,
            dp@.len() == size,
            sums_testable(a),
            1 <= mask <= limit,
            forall|mk: u64| mk < mask ==> #[trigger] dp@[mk as int] == pairings(a, bits(mk, nn)),
            forall|mk: u64| mask <= mk < limit ==> #[trigger] dp@[mk as int] == 0,
        decreases limit - mask,
    {
        let ghost s = bits(mask, nn);
        proof {
            lemma_bits_high(mask, nn);
            lemma_bits_shape(mask, nn);
        }
        if count_ones(mask) % 2 != 0 {
            proof {
                lemma_odd_pairings(a, s);
            }
        } else {
            proof {
                lemma_lowest_bit(mask);
                lemma_bits_index_of(mask, nn, u64_trailing_zeros(mask) as int);
            }
            let i = mask.trailing_zeros() as usize;
            let mut m = mask;
            let ghost mut t: int = 0;
            while m != 0
                invariant
                    n == values.len(),
                    a == values@,
                    nn == n,
                    nbits == n,
                    nbits < 64,
                    limit == 1u64 << nbits,
                    size == limit,
                    dp@.len() == size,
                    sums_testable(a),
                    1 <= mask < limit,
                    s == bits(mask, nn),
                    s.len() % 2 == 0,
                    s.len() > 0,
                    i == s[0],
                    0 <= t <= s.len(),
                    bits(m, nn) == s.skip(t),
                    m < (1u64 << nbits),
                    forall|mk: u64| mk < mask ==> #[trigger] dp@[mk as int] == pairings(a, bits(mk, nn)),
                    forall|mk: u64| mask < mk < limit ==> #[trigger] dp@[mk as int] == 0,
                    dp@[mask as int] + pick_sum(a, s, if t == 0 { 1 } else { t }) == pick_sum(a, s, 1),
                decreases bits(m, nn).len(),
            {
                proof {
                    lemma_lowest_bit(m);
                    lemma_bits_high(m, nn);
                    lemma_bits_shape(m, nn);
                    lemma_bits_index_of(m, nn, u64_trailing_zeros(m) as int);
                    lemma_bits_clear(m, (m & ((m - 1) as u64)) as u64, u64_trailing_zeros(m) as int, nn);
                }
                let j = m.trailing_zeros() as usize;
                assert(bits(m, nn)[0] == j);
                assert(s[t] == j);
                let ghost old_m = m;
                assert((m & ((m - 1) as u64)) <= m) by (bit_vector);
                m = m & (m - 1);
                proof {
                    assert(bits(m, nn) =~= s.skip(t + 1));
                }
                if j != i {
                    assert(t >= 1);
                    let ghost tt = t;
                    proof {
                        lemma_bits_shape(mask, nn);
                        assert(s[0] < s[tt]);
                    }
                    if is_prime(values[i] + values[j]) {
                        let sub = mask & !(1u64 << (i as u64)) & !(1u64 << (j as u64));
                        proof {
                            let m1 = mask & !(1u64 << (i as u64));
                            lemma_clear_bit(mask, i as u64);
                            lemma_clear_bit(m1, j as u64);
                            lemma_bits_index(mask, nn, 0);
                            lemma_bits_clear(mask, m1, i as int, nn);
                            assert(bits(m1, nn) == s.drop_first());
                            lemma_bits_index(m1, nn, tt - 1);
                            assert(bits(m1, nn)[tt - 1] == j);
                            lemma_bits_clear(m1, sub, j as int, nn);
                            assert(bits(sub, nn) =~= s.remove(tt).drop_first());
                            lemma_pick_bound(a, s, tt + 1);
                            assert(sub < mask);
                            assert(dp@[sub as int] == pairings(a, s.remove(tt).drop_first()));
                        }
                        let add = dp[sub as usize];
                        let cur = dp[mask as usize];
                        if cur > u64::MAX - add {
                            proof {
                                assert(pick_sum(a, s, tt) == pairings(a, s.remove(tt).drop_first()) + pick_sum(a, s, tt + 1));
                                assert(pairings(a, bits(mask, nn)) > u64::MAX);
                            }
                            return None;
                        }
                        dp.set(mask as usize, cur + add);
                    }
                    assert(pick_sum(a, s, tt) == (if prime(a[s[0]] + a[s[tt]]) { pairings(a, s.remove(tt).drop_first()) } else { 0 }) + pick_sum(a, s, tt + 1));
                } else {
                    proof {
                        lemma_bits_shape(mask, nn);
                        if t > 0 {
                            assert(s[0] < s[t]);
                        }
                    }
                }
                proof {
                    t = t + 1;
                }
            }
            proof {
                assert(t == s.len()) by {
                    lemma_bits_empty(nn);
                }
            }
        }
        mask = mask + 1;
    }
    proof {
        lemma_bits_full(nn, nn);
        assert forall|mk: u64| mk < (1u64 << (values.len() as u64)) implies pairings(a, #[trigger] bits(mk, nn)) <= u64::MAX by {
            assert(dp@[mk as int] == pairings(a, bits(mk, nn)));
        }
    }
    Some(dp[full as usize])
}

} // verus!
