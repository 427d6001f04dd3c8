//! Small verified helpers on strings: decimal rendering and character pushes.

use vstd::prelude::*;

verus! {

/// The decimal digit character for `d < 10`.
pub open spec fn digit_char(d: nat) -> char {
    (d + 48) as char
}

/// The decimal representation of `n`, without leading zeros.
pub open spec fn decimal(n: nat) -> Seq<char>
    decreases n,
{
    if n < 10 {
        seq![digit_char(n)]
    } else {
        decimal(n / 10).push(digit_char(n % 10))
    }
}

/// Appends `c` to `s` by `String::push`. Trusted: the contract claims that
/// the text afterwards is the text before followed by `c`, as std documents.
#[verifier::external_body]
pub(crate) fn push_char(s: &mut String, c: char)
    ensures
        final(s)@ == old(s)@.push(c),
{
    s.push(c);
}

/// Renders `n` in decimal.
pub fn decimal_string(n: u64) -> (s: String)
    ensures
        s@ == decimal(n as nat),
{
    let mut digits: Vec<char> = Vec::new();
    let mut m = n;
    let ghost mut rest: Seq<char> = Seq::empty();
    loop
        invariant_except_break
            decimal(n as nat) == decimal(m as nat) + rest,
        invariant
            digits@.reverse() == rest,
        ensures
            decimal(n as nat) == rest,
        decreases m,
    {
        let d = m % 10;
        let c = (d as u8 + 48u8) as char;
        assert(c == digit_char(d as nat));
        digits.push(c);
        if m < 10 {
            proof {
                assert(decimal(m as nat) == seq![c]);
                rest = seq![c] + rest;
            }
            assert(digits@.reverse() =~= rest);
            break;
        }
        proof {
            assert(decimal(m as nat) == decimal((m / 10) as nat).push(c));
            assert(decimal((m / 10) as nat).push(c) + rest =~= decimal((m / 10) as nat) + (seq![c] + rest));
            rest = seq![c] + rest;
        }
        assert(digits@.reverse() =~= rest);
        m = m / 10;
    }
    let mut s = String::new();
    let mut i = digits.len();
    while i > 0
        invariant
            i <= digits@.len(),
            s@ == digits@.reverse().take((digits@.len() - i) as int),
        decreases i,
    {
        i = i - 1;
        push_char(&mut s, digits[i]);
        assert(s@ =~= digits@.reverse().take((digits@.len() - i) as int));
    }
    assert(s@ =~= rest);
    s
}

} // verus!

verus! {

/// The characters of `s`, in order.
pub fn chars_of(s: &str) -> (v: Vec<char>)
    ensures
        v@ == s@,
{
    let mut v: Vec<char> = Vec::new();
    for c in it: s.chars()
        invariant
            it.seq() == s@,
            v@ == s@.take(it.index()),
    {
        v.push(c);
        assert(v@ =~= s@.take(it.index() + 1));
    }
    assert(s@.take(s@.len() as int) =~= s@);
    v
}

/// The string made of the characters `v[from..to]`.
pub fn string_of(v: &Vec<char>, from: usize, to: usize) -> (s: String)
    requires
        from <= to <= v.len(),
    ensures
        s@ == v@.subrange(from as int, to as int),
{
    let mut s = String::new();
    let mut i = from;
    while i < to
        invariant
            from <= i <= to <= v.len(),
            s@ == v@.subrange(from as int, i as int),
        decreases to - i,
    {
        push_char(&mut s, v[i]);
        i = i + 1;
        assert(s@ =~= v@.subrange(from as int, i as int));
    }
    s
}

/// A copy of `s` that is kept to its first `n` characters; a longer `s` is
/// cut there and marked with a line `...[truncated]`.
pub fn truncate(s: &str, n: usize) -> (t: String)
    ensures
        s@.len() <= n ==> t@ == s@,
        s@.len() > n ==> t@ == s@.take(n as int) + "\n...[truncated]"@,
{
    let v = chars_of(s);
    if v.len() <= n {
        let t = string_of(&v, 0, v.len());
        assert(v@.subrange(0, v@.len() as int) =~= v@);
        t
    } else {
        let mut t = string_of(&v, 0, n);
        t.append("\n...[truncated]");
        t
    }
}

} // verus!

verus! {

/// `c` is white space in the sense of `char::is_whitespace` (the Unicode
/// `White_Space` property).
pub open spec fn is_ws(c: char) -> bool {
    let x = c as int;
    (9 <= x <= 13) || x == 32 || x == 0x85 || x == 0xA0 || x == 0x1680 || (0x2000 <= x <= 0x200A)
        || x == 0x2028 || x == 0x2029 || x == 0x202F || x == 0x205F || x == 0x3000
}

/// The number of white-space characters that `s` starts with.
pub open spec fn lead_ws(s: Seq<char>) -> nat
    decreases s.len(),
{
    if s.len() == 0 || !is_ws(s[0]) { 0 } else { 1 + lead_ws(s.drop_first()) }
}

/// The number of white-space characters that `s` ends with.
pub open spec fn trail_ws(s: Seq<char>) -> nat
    decreases s.len(),
{
    if s.len() == 0 || !is_ws(s.last()) { 0 } else { 1 + trail_ws(s.drop_last()) }
}

/// `s` without its leading and trailing white space (as `str::trim`).
pub open spec fn trimmed(s: Seq<char>) -> Seq<char> {
    let t = s.skip(lead_ws(s) as int);
    t.take(t.len() - trail_ws(t))
}

fn is_ws_exec(c: char) -> (b: bool)
    ensures
        b == is_ws(c),
{
    ('\u{9}' <= c && c <= '\u{d}') || c == ' ' || c == '\u{85}' || c == '\u{a0}' || c == '\u{1680}'
        || ('\u{2000}' <= c && c <= '\u{200a}') || c == '\u{2028}' || c == '\u{2029}' || c == '\u{202f}'
        || c == '\u{205f}' || c == '\u{3000}'
}

proof fn lemma_lead(s: Seq<char>, k: int)
    requires
        0 <= k <= s.len(),
        forall|i: int| 0 <= i < k ==> is_ws(#[trigger] s[i]),
        k == s.len() || !is_ws(s[k]),
    ensures
        lead_ws(s) == k,
    decreases k,
{
    if k > 0 {
        lemma_lead(s.drop_first(), k - 1);
    }
}

proof fn lemma_trail(s: Seq<char>, k: int)
    requires
        0 <= k <= s.len(),
        forall|i: int| s.len() - k <= i < s.len() ==> is_ws(#[trigger] s[i]),
        k == s.len() || !is_ws(s[s.len() - k - 1]),
    ensures
        trail_ws(s) == k,
    decreases k,
{
    if k > 0 {
        lemma_trail(s.drop_last(), k - 1);
    }
}

/// The bounds `lo..hi` of `v` without its leading and trailing white space.
pub fn trim_bounds(v: &Vec<char>) -> (r: (usize, usize))
    ensures
        r.0 <= r.1 <= v@.len(),
        r.0 == lead_ws(v@),
        v@.subrange(r.0 as int, r.1 as int) == trimmed(v@),
{
    let mut lo: usize = 0;
    while lo < v.len() && is_ws_exec(v[lo])
        invariant
            lo <= v@.len(),
            forall|i: int| 0 <= i < lo ==> is_ws(#[trigger] v@[i]),
        decreases v@.len() - lo,
    {
        lo = lo + 1;
    }
    proof {
        lemma_lead(v@, lo as int);
    }
    let mut hi: usize = v.len();
    while hi > lo && is_ws_exec(v[hi - 1])
        invariant
            lo <= hi <= v@.len(),
            forall|i: int| hi <= i < v@.len() ==> is_ws(#[trigger] v@[i]),
        decreases hi,
    {
        hi = hi - 1;
    }
    proof {
        let t = v@.skip(lo as int);
        assert forall|i: int| t.len() - (v@.len() - hi) <= i < t.len() implies is_ws(#[trigger] t[i]) by {
            assert(t[i] == v@[lo + i]);
        }
        if hi > lo {
            assert(t[t.len() - (v@.len() - hi) - 1] == v@[hi - 1]);
        }
        lemma_trail(t, v@.len() - hi);
        assert(v@.subrange(lo as int, hi as int) =~= trimmed(v@));
    }
    (lo, hi)
}

/// `s` without its leading and trailing white space.
pub fn trim(s: &str) -> (t: String)
    ensures
        t@ == trimmed(s@),
{
    let v = chars_of(s);
    let (lo, hi) = trim_bounds(&v);
    string_of(&v, lo, hi)
}

/// The value of the decimal digits `s` (each of `'0'..='9'`).
pub open spec fn digits_value(s: Seq<char>) -> int
    decreases s.len(),
{
    if s.len() == 0 { 0 } else { digits_value(s.drop_last()) * 10 + (s.last() as int - 48) }
}

/// `s` is a non-empty run of decimal digits.
pub open spec fn numeral(s: Seq<char>) -> bool {
    s.len() > 0 && forall|i: int| 0 <= i < s.len() ==> '0' <= #[trigger] s[i] <= '9'
}

/// The number that `s` writes in decimal after an optional `+`, if it does.
pub open spec fn unsigned_value(s: Seq<char>) -> Option<int> {
    let t = if s.len() > 0 && s[0] == '+' { s.drop_first() } else { s };
    if numeral(t) { Some(digits_value(t)) } else { None }
}

/// The number that `s` writes in decimal after an optional `+` or `-`, if it does.
pub open spec fn signed_value(s: Seq<char>) -> Option<int> {
    if s.len() > 0 && s[0] == '-' {
        if numeral(s.drop_first()) { Some(-digits_value(s.drop_first())) } else { None }
    } else {
        unsigned_value(s)
    }
}

proof fn lemma_digits_nonneg(s: Seq<char>)
    requires
        forall|i: int| 0 <= i < s.len() ==> '0' <= #[trigger] s[i] <= '9',
    ensures
        digits_value(s) >= 0,
    decreases s.len(),
{
    if s.len() > 0 {
        assert forall|i: int| 0 <= i < s.drop_last().len() implies '0' <= #[trigger] s.drop_last()[i] <= '9' by {
            assert(s.drop_last()[i] == s[i]);
        }
        lemma_digits_nonneg(s.drop_last());
        assert('0' <= s[s.len() - 1] <= '9');
    }
}

proof fn lemma_digits_grow(s: Seq<char>, i: int)
    requires
        forall|j: int| 0 <= j < s.len() ==> '0' <= #[trigger] s[j] <= '9',
        0 <= i <= s.len(),
    ensures
        digits_value(s.take(i)) <= digits_value(s),
    decreases s.len() - i,
{
    if i < s.len() {
        let t = s.take(i + 1);
        assert(t.drop_last() =~= s.take(i));
        assert(t.last() == s[i]);
        assert forall|j: int| 0 <= j < s.take(i).len() implies '0' <= #[trigger] s.take(i)[j] <= '9' by {
            assert(s.take(i)[j] == s[j]);
        }
        lemma_digits_nonneg(s.take(i));
        lemma_digits_grow(s, i + 1);
    } else {
        assert(s.take(i) =~= s);
    }
}

/// The value of the digits `v[from..]` when they are a numeral of value at
/// most `limit`.
fn digits_upto(v: &Vec<char>, from: usize, limit: u64) -> (r: Option<u64>)
    requires
        from <= v@.len(),
    ensures
        r matches Some(x) <==> (numeral(v@.skip(from as int)) && digits_value(v@.skip(from as int)) <= limit),
        r matches Some(x) ==> x == digits_value(v@.skip(from as int)),
{
    let ghost t = v@.skip(from as int);
    if from == v.len() {
        return None;
    }
    let mut acc: u64 = 0;
    let mut j: usize = from;
    while j < v.len()
        invariant
            from < v@.len(),
            t == v@.skip(from as int),
            from <= j <= v@.len(),
            forall|i: int| 0 <= i < j - from ==> '0' <= #[trigger] t[i] <= '9',
            acc == digits_value(t.take(j - from)),
            acc <= limit,
        decreases v@.len() - j,
    {
        let c = v[j];
        assert(t[j - from] == c);
        let ghost p = t.take(j - from + 1);
        proof {
            assert(p.drop_last() =~= t.take(j - from));
            assert(p.last() == c);
        }
        if !('0' <= c && c <= '9') {
            return None;
        }
        let d = (c as u32 - 48) as u64;
        if d > limit || acc > (limit - d) / 10 {
            proof {
                if d <= limit {
                    assert(acc * 10 + d > limit) by (nonlinear_arith)
                        requires
                            acc > (limit - d) / 10,
                            d <= 9,
                            d <= limit,
                    ;
                }
                if numeral(t) {
                    lemma_digits_grow(t, j - from + 1);
                }
            }
            return None;
        }
        proof {
            assert(acc * 10 + d <= limit) by (nonlinear_arith)
                requires
                    acc <= (limit - d) / 10,
                    d <= 9,
                    d <= limit,
            ;
        }
        acc = acc * 10 + d;
        j = j + 1;
    }
    assert(t.take(t.len() as int) =~= t);
    Some(acc)
}

/// Reads an unsigned decimal number, as `str::parse::<u64>` does: an optional
/// `+`, then one or more digits, with a value that fits in a `u64`.
pub fn parse_u64(s: &str) -> (r: Option<u64>)
    ensures
        r matches Some(x) <==> (unsigned_value(s@) matches Some(v) && v <= u64::MAX),
        r matches Some(x) ==> unsigned_value(s@) == Some(x as int),
{
    let v = chars_of(s);
    let from: usize = if v.len() > 0 && v[0] == '+' { 1 } else { 0 };
    proof {
        if from == 1 {
            assert(v@.skip(1) =~= s@.drop_first());
        } else {
            assert(v@.skip(0) =~= s@);
        }
    }
    digits_upto(&v, from, u64::MAX)
}

/// Reads a signed decimal number, as `str::parse::<i64>` does: an optional
/// `+` or `-`, then one or more digits, with a value that fits in an `i64`.
pub fn parse_i64(s: &str) -> (r: Option<i64>)
    ensures
        r matches Some(x) <==> (signed_value(s@) matches Some(v) && i64::MIN <= v <= i64::MAX),
        r matches Some(x) ==> signed_value(s@) == Some(x as int),
{
    let v = chars_of(s);
    if v.len() > 0 && v[0] == '-' {
        assert(v@.skip(1) =~= s@.drop_first());
        match digits_upto(&v, 1, 9223372036854775808u64) {
            Some(m) => {
                if m == 9223372036854775808u64 {
                    Some(i64::MIN)
                } else {
                    Some(-(m as i64))
                }
            },
            None => None,
        }
    } else {
        let from: usize = if v.len() > 0 && v[0] == '+' { 1 } else { 0 };
        proof {
            if from == 1 {
                assert(v@.skip(1) =~= s@.drop_first());
            } else {
                assert(v@.skip(0) =~= s@);
            }
        }
        match digits_upto(&v, from, 9223372036854775807u64) {
            Some(m) => Some(m as i64),
            None => None,
        }
    }
}

} // verus!
