//! Decoding run-length encoded strings such as `3[a2[c]]`.
//!
//! The decoder reads the input once, left to right, keeping a stack of
//! pending repeat counts and of the text built before each `[`.

use vstd::prelude::*;
use vstd::string::*;
use crate::text::{chars_of, decimal, decimal_string, digit_char, push_char};

verus! {

/// The decoder's state after a prefix of the input.
#[verifier::ext_equal]
pub struct DecodeState {
    /// Repeat counts of the open brackets, innermost last.
    pub counts: Seq<nat>,
    /// Text decoded before each open bracket, innermost last.
    pub parts: Seq<Seq<char>>,
    /// Text decoded inside the innermost open bracket (or at top level).
    pub current: Seq<char>,
    /// The number read so far since the last non-digit.
    pub num: nat,
    /// Whether a digit has been read since the last non-digit.
    pub has_num: bool,
}

/// An ASCII decimal digit.
pub open spec fn is_digit(c: char) -> bool {
    '0' <= c <= '9'
}

/// The value of a digit character.
pub open spec fn digit_value(c: char) -> nat {
    (c as int - '0' as int) as nat
}

/// `s` written `n` times in a row.
pub open spec fn repeat(s: Seq<char>, n: nat) -> Seq<char>
    decreases n,
{
    if n == 0 { Seq::empty() } else { repeat(s, (n - 1) as nat) + s }
}

/// The state before any input.
pub open spec fn initial_state() -> DecodeState {
    DecodeState { counts: Seq::empty(), parts: Seq::empty(), current: Seq::empty(), num: 0, has_num: false }
}

/// The effect of reading one character.
pub open spec fn decode_step(st: DecodeState, c: char) -> DecodeState {
    if is_digit(c) {
        DecodeState { num: st.num * 10 + digit_value(c), has_num: true, ..st }
    } else if c == '[' {
        DecodeState {
            counts: st.counts.push(st.num),
            parts: st.parts.push(st.current),
            current: Seq::empty(),
            num: 0,
            has_num: false,
        }
    } else if c == ']' {
        DecodeState {
            counts: st.counts.drop_last(),
            parts: st.parts.drop_last(),
            current: st.parts.last() + repeat(st.current, st.counts.last()),
            ..st
        }
    } else if st.has_num {
        DecodeState { current: (st.current + decimal(st.num)).push(c), num: 0, has_num: false, ..st }
    } else {
        DecodeState { current: st.current.push(c), ..st }
    }
}

/// The state after reading all of `s`.
pub open spec fn decode_run(s: Seq<char>) -> DecodeState
    decreases s.len(),
{
    if s.len() == 0 { initial_state() } else { decode_step(decode_run(s.drop_last()), s.last()) }
}

/// The decoded text of `s`: the text at the end, followed by a number still
/// pending after the last character.
pub open spec fn decoded(s: Seq<char>) -> Seq<char> {
    let st = decode_run(s);
    if st.has_num { st.current + decimal(st.num) } else { st.current }
}

/// The input can be decoded: every `]` closes an open `[`, and every number
/// fits in a `usize`.
pub open spec fn decodable(s: Seq<char>) -> bool {
    forall|i: int|
        0 <= i < s.len() ==> {
            let st = #[trigger] decode_run(s.take(i));
            &&& is_digit(s[i]) ==> st.num * 10 + digit_value(s[i]) <= usize::MAX
            &&& s[i] == ']' ==> st.counts.len() > 0
        }
}

/// Decodes `s`: `k[x]` stands for `x` repeated `k` times; a number not
/// followed by `[` is kept as written (without leading zeros).
pub fn decode(s: &str) -> (out: String)
    requires
        decodable(s@),
    ensures
        out@ == decoded(s@),
{
    let mut counts: Vec<usize> = Vec::new();
    let mut parts: Vec<String> = Vec::new();
    let mut current = String::new();
    let mut num: usize = 0;
    let mut has_num = false;
    let ghost input = s@;
    for c in it: s.chars()
        invariant
            input == s@,
            it.seq() == input,
            decodable(input),
            counts@.len() == decode_run(input.take(it.index())).counts.len(),
            parts@.len() == counts@.len(),
            parts@.len() == decode_run(input.take(it.index())).parts.len(),
            forall|j: int| 0 <= j < counts@.len() ==> counts@[j] as nat == #[trigger] decode_run(input.take(it.index())).counts[j],
            forall|j: int| 0 <= j < parts@.len() ==> #[trigger] parts@[j]@ == decode_run(input.take(it.index())).parts[j],
            current@ == decode_run(input.take(it.index())).current,
            num as nat == decode_run(input.take(it.index())).num,
            has_num == decode_run(input.take(it.index())).has_num,
    {
        let ghost n = it.index();
        let ghost pre = input.take(n);
        let ghost st = decode_run(pre);
        proof {
            assert(input.take(n + 1).drop_last() =~= pre);
            assert(input.take(n + 1).last() == c);
        }
        if '0' <= c && c <= '9' {
            let d = (c as u32 - 48) as usize;
            num = num * 10 + d;
            has_num = true;
        } else if c == '[' {
            counts.push(num);
            let mut taken = String::new();
            std::mem::swap(&mut taken, &mut current);
            parts.push(taken);
            num = 0;
            has_num = false;
        } else if c == ']' {
            let count = counts.pop().unwrap();
            let mut base = parts.pop().unwrap();
            let ghost base0 = base@;
            let mut t: usize = 0;
            while t < count
                invariant
                    t <= count,
                    base@ == base0 + repeat(current@, t as nat),
                decreases count - t,
            {
                base.append(current.as_str());
                t = t + 1;
                assert(base@ =~= base0 + repeat(current@, t as nat));
            }
            current = base;
        } else {
            if has_num {
                let digits = decimal_string(num as u64);
                current.append(digits.as_str());
                num = 0;
                has_num = false;
            }
            push_char(&mut current, c);
        }
        proof {
            let nst = decode_run(input.take(n + 1));
            assert(nst == decode_step(st, c));
            assert forall|j: int| 0 <= j < counts@.len() implies counts@[j] as nat == #[trigger] nst.counts[j] by {}
            assert forall|j: int| 0 <= j < parts@.len() implies #[trigger] parts@[j]@ == nst.parts[j] by {}
        }
    }
    assert(input.take(input.len() as int) =~= input);
    if has_num {
        let digits = decimal_string(num as u64);
        current.append(digits.as_str());
    }
    current
}

/// The state after reading `b`, starting from `st`.
spec fn steps(st: DecodeState, b: Seq<char>) -> DecodeState
    decreases b.len(),
{
    if b.len() == 0 { st } else { decode_step(steps(st, b.drop_last()), b.last()) }
}

/// Text without digits and brackets.
pub open spec fn plain(s: Seq<char>) -> bool {
    forall|i: int| 0 <= i < s.len() ==> !is_digit(#[trigger] s[i]) && s[i] != '[' && s[i] != ']'
}

proof fn lemma_run_concat(a: Seq<char>, b: Seq<char>)
    ensures
        decode_run(a + b) == steps(decode_run(a), b),
    decreases b.len(),
{
    if b.len() == 0 {
        assert(a + b =~= a);
    } else {
        lemma_run_concat(a, b.drop_last());
        assert((a + b).drop_last() =~= a + b.drop_last());
        assert((a + b).last() == b.last());
    }
}

proof fn lemma_steps_plain(st: DecodeState, x: Seq<char>)
    requires
        plain(x),
        !st.has_num,
    ensures
        steps(st, x).counts == st.counts,
        steps(st, x).parts == st.parts,
        steps(st, x).current == st.current + x,
        steps(st, x).num == st.num,
        !steps(st, x).has_num,
    decreases x.len(),
{
    if x.len() == 0 {
        assert(st.current + x =~= st.current);
    } else {
        assert(plain(x.drop_last())) by {
            assert forall|i: int| 0 <= i < x.drop_last().len() implies !is_digit(#[trigger] x.drop_last()[i])
                && x.drop_last()[i] != '[' && x.drop_last()[i] != ']' by {
                assert(x.drop_last()[i] == x[i]);
            }
        }
        lemma_steps_plain(st, x.drop_last());
        assert(x.last() == x[x.len() - 1]);
        assert(st.current + x =~= (st.current + x.drop_last()).push(x.last()));
    }
}

proof fn lemma_steps_decimal(st: DecodeState, k: nat)
    requires
        st.num == 0,
        !st.has_num,
    ensures
        steps(st, decimal(k)).counts == st.counts,
        steps(st, decimal(k)).parts == st.parts,
        steps(st, decimal(k)).current == st.current,
        steps(st, decimal(k)).num == k,
        steps(st, decimal(k)).has_num,
    decreases k,
{
    if k < 10 {
        let c = digit_char(k);
        assert(decimal(k) == seq![c]);
        assert(seq![c].drop_last() =~= Seq::<char>::empty());
        assert(c as int == k + 48);
        assert(is_digit(c));
        assert(steps(st, decimal(k)) == decode_step(steps(st, Seq::<char>::empty()), c));
        assert(steps(st, Seq::<char>::empty()) == st);
    } else {
        lemma_steps_decimal(st, k / 10);
        let c = digit_char(k % 10);
        assert(decimal(k).drop_last() =~= decimal(k / 10));
        assert(decimal(k).last() == c);
        assert(c as int == k % 10 + 48);
        assert((k / 10) * 10 + k % 10 == k);
        assert(is_digit(c));
        assert(steps(st, decimal(k)) == decode_step(steps(st, decimal(k / 10)), c));
    }
}

/// The input can be decoded and leaves no bracket open at its end.
pub open spec fn balanced(s: Seq<char>) -> bool {
    decodable(s) && decode_run(s).counts.len() == 0
}

/// The input can be decoded and leaves neither a bracket open nor a number
/// pending at its end: text, `k[w]` for such `w`, and sequences of these.
pub open spec fn closed(s: Seq<char>) -> bool {
    balanced(s) && !decode_run(s).has_num
}

/// The state `st` seen from an outer context: the counts `c0` and texts
/// `p0` of brackets opened before it lie below its own, and `x` comes before
/// the text of its outermost level.
spec fn embed(st: DecodeState, c0: Seq<nat>, p0: Seq<Seq<char>>, x: Seq<char>) -> DecodeState {
    if st.parts.len() == 0 {
        DecodeState { counts: c0 + st.counts, parts: p0 + st.parts, current: x + st.current, num: st.num, has_num: st.has_num }
    } else {
        DecodeState {
            counts: c0 + st.counts,
            parts: p0 + st.parts.update(0, x + st.parts[0]),
            current: st.current,
            num: st.num,
            has_num: st.has_num,
        }
    }
}

proof fn lemma_embed_step(st: DecodeState, c: char, c0: Seq<nat>, p0: Seq<Seq<char>>, x: Seq<char>)
    requires
        st.counts.len() == st.parts.len(),
        c == ']' ==> st.counts.len() > 0,
    ensures
        decode_step(embed(st, c0, p0, x), c) == embed(decode_step(st, c), c0, p0, x),
        decode_step(st, c).counts.len() == decode_step(st, c).parts.len(),
{
    let e = embed(st, c0, p0, x);
    let a = decode_step(e, c);
    let b = embed(decode_step(st, c), c0, p0, x);
    if is_digit(c) {
        assert(a =~~= b);
    } else if c == '[' {
        if st.parts.len() == 0 {
            assert(st.parts.push(st.current).update(0, x + st.current) =~~= seq![x + st.current]);
            assert(a.parts =~~= b.parts);
            assert(a.counts =~~= b.counts);
        } else {
            assert(st.parts.push(st.current).update(0, x + st.parts[0]) =~~= st.parts.update(0, x + st.parts[0]).push(st.current));
            assert(a.parts =~~= b.parts);
            assert(a.counts =~~= b.counts);
        }
        assert(a =~~= b);
    } else if c == ']' {
        let n = st.parts.len();
        assert(a.counts =~~= b.counts);
        if n == 1 {
            assert(st.parts.drop_last() =~~= Seq::<Seq<char>>::empty());
            assert(a.parts =~~= b.parts);
            assert(e.parts.last() == x + st.parts[0]);
            assert(a.current =~~= b.current);
        } else {
            assert(st.parts.update(0, x + st.parts[0]).drop_last() =~~= st.parts.drop_last().update(0, x + st.parts[0]));
            assert(a.parts =~~= b.parts);
            assert(e.parts.last() == st.parts.last());
            assert(a.current =~~= b.current);
        }
        assert(a =~~= b);
    } else {
        if st.parts.len() == 0 {
            if st.has_num {
                assert(((x + st.current) + decimal(st.num)).push(c) =~= x + (st.current + decimal(st.num)).push(c));
            } else {
                assert((x + st.current).push(c) =~= x + st.current.push(c));
            }
        }
        assert(a =~~= b);
    }
}

proof fn lemma_decodable_prefix(s: Seq<char>, n: int)
    requires
        decodable(s),
        0 <= n <= s.len(),
    ensures
        decodable(s.take(n)),
{
    let t = s.take(n);
    assert forall|i: int| 0 <= i < t.len() implies {
        let st = #[trigger] decode_run(t.take(i));
        &&& is_digit(t[i]) ==> st.num * 10 + digit_value(t[i]) <= usize::MAX
        &&& t[i] == ']' ==> st.counts.len() > 0
    } by {
        assert(t.take(i) =~= s.take(i));
        assert(t[i] == s[i]);
        let st = decode_run(s.take(i));
    }
}

/// Reading decodable text inside an outer context leaves that context in
/// place; the decoder's stacks stay paired, and no number is kept without a
/// digit read.
proof fn lemma_embed_run(s: Seq<char>, c0: Seq<nat>, p0: Seq<Seq<char>>, x: Seq<char>)
    requires
        decodable(s),
    ensures
        steps(embed(initial_state(), c0, p0, x), s) == embed(decode_run(s), c0, p0, x),
        decode_run(s).counts.len() == decode_run(s).parts.len(),
        !decode_run(s).has_num ==> decode_run(s).num == 0,
    decreases s.len(),
{
    if s.len() == 0 {
        assert(embed(initial_state(), c0, p0, x) =~~= embed(decode_run(s), c0, p0, x));
    } else {
        let t = s.drop_last();
        assert(s.take(s.len() - 1) =~= t);
        lemma_decodable_prefix(s, s.len() - 1);
        lemma_embed_run(t, c0, p0, x);
        let st = decode_run(t);
        assert(s[s.len() - 1] == s.last());
        assert(s.last() == ']' ==> st.counts.len() > 0);
        lemma_embed_step(st, s.last(), c0, p0, x);
    }
}

proof fn lemma_closed_state(s: Seq<char>)
    requires
        closed(s),
    ensures
        decode_run(s) =~~= embed(initial_state(), Seq::empty(), Seq::empty(), decoded(s)),
{
    lemma_embed_run(s, Seq::empty(), Seq::empty(), Seq::empty());
    let st = decode_run(s);
    assert(st.parts =~= Seq::<Seq<char>>::empty());
    assert(st.counts =~= Seq::<nat>::empty());
    assert(decoded(s) + Seq::<char>::empty() =~= decoded(s));
}

proof fn lemma_decodable_decimal(k: nat)
    requires
        k <= usize::MAX,
    ensures
        decodable(decimal(k)),
    decreases k,
{
    let d = decimal(k);
    if k < 10 {
        let c = digit_char(k);
        assert(d == seq![c]);
        assert(c as int == k + 48);
        assert(d.take(0) =~= Seq::<char>::empty());
        assert(decode_run(d.take(0)) == initial_state());
    } else {
        lemma_decodable_decimal(k / 10);
        let t = decimal(k / 10);
        let c = digit_char(k % 10);
        assert(d == t.push(c));
        assert(c as int == k % 10 + 48);
        lemma_run_concat(Seq::empty(), t);
        assert(Seq::<char>::empty() + t =~= t);
        lemma_steps_decimal(initial_state(), k / 10);
        assert((k / 10) * 10 + k % 10 == k);
        assert forall|i: int| 0 <= i < d.len() implies {
            let st = #[trigger] decode_run(d.take(i));
            &&& is_digit(d[i]) ==> st.num * 10 + digit_value(d[i]) <= usize::MAX
            &&& d[i] == ']' ==> st.counts.len() > 0
        } by {
            if i < t.len() {
                assert(d.take(i) =~= t.take(i));
                assert(d[i] == t[i]);
                let st = decode_run(t.take(i));
            } else {
                assert(d.take(i) =~= t);
                assert(d[i] == c);
            }
        }
    }
}

/// Text without digits and brackets is closed and decodes to itself.
pub proof fn law_plain_unchanged(s: Seq<char>)
    requires
        plain(s),
    ensures
        closed(s),
        decoded(s) == s,
{
    lemma_run_concat(Seq::empty(), s);
    assert(Seq::<char>::empty() + s =~= s);
    lemma_steps_plain(initial_state(), s);
    assert(Seq::<char>::empty() + s =~= s);
    assert forall|i: int| 0 <= i < s.len() implies {
        let st = #[trigger] decode_run(s.take(i));
        &&& is_digit(s[i]) ==> st.num * 10 + digit_value(s[i]) <= usize::MAX
        &&& s[i] == ']' ==> st.counts.len() > 0
    } by {
        let st = decode_run(s.take(i));
    }
}

/// Decoding a closed text followed by a text that leaves no bracket open
/// gives the two decodings one after the other; two closed texts make a
/// closed one.
pub proof fn law_concat(s1: Seq<char>, s2: Seq<char>)
    requires
        closed(s1),
        balanced(s2),
    ensures
        balanced(s1 + s2),
        decoded(s1 + s2) == decoded(s1) + decoded(s2),
        closed(s2) ==> closed(s1 + s2),
{
    let d1 = decoded(s1);
    let s = s1 + s2;
    lemma_closed_state(s1);
    assert forall|j: int| 0 <= j <= s2.len() implies #[trigger] decode_run(s1 + s2.take(j))
        == embed(decode_run(s2.take(j)), Seq::empty(), Seq::empty(), d1) by {
        lemma_run_concat(s1, s2.take(j));
        lemma_decodable_prefix(s2, j);
        lemma_embed_run(s2.take(j), Seq::empty(), Seq::empty(), d1);
    }
    assert forall|i: int| 0 <= i < s.len() implies {
        let st = #[trigger] decode_run(s.take(i));
        &&& is_digit(s[i]) ==> st.num * 10 + digit_value(s[i]) <= usize::MAX
        &&& s[i] == ']' ==> st.counts.len() > 0
    } by {
        if i < s1.len() {
            assert(s.take(i) =~= s1.take(i));
            assert(s[i] == s1[i]);
            let st = decode_run(s1.take(i));
        } else {
            let j = i - s1.len();
            assert(s.take(i) =~= s1 + s2.take(j));
            assert(s[i] == s2[j]);
            assert(decode_run(s1 + s2.take(j)) == embed(decode_run(s2.take(j)), Seq::empty(), Seq::empty(), d1));
            let st = decode_run(s2.take(j));
            lemma_decodable_prefix(s2, j);
            lemma_embed_run(s2.take(j), Seq::empty(), Seq::empty(), d1);
        }
    }
    assert(s2.take(s2.len() as int) =~= s2);
    assert(s1 + s2.take(s2.len() as int) =~= s);
    lemma_embed_run(s2, Seq::empty(), Seq::empty(), d1);
    let st2 = decode_run(s2);
    assert(st2.parts.len() == 0);
    assert(decode_run(s) == embed(st2, Seq::empty(), Seq::empty(), d1));
    if st2.has_num {
        assert(d1 + st2.current + decimal(st2.num) =~= d1 + (st2.current + decimal(st2.num)));
    }
}

/// A count `k` followed by a closed text `x` in brackets decodes to the
/// decoding of `x` written `k` times; for a count that fits in a `usize` the
/// whole is closed.
pub proof fn law_repeat_block(k: nat, x: Seq<char>)
    requires
        closed(x),
    ensures
        decoded(decimal(k) + seq!['['] + x + seq![']']) == repeat(decoded(x), k),
        k <= usize::MAX ==> closed(decimal(k) + seq!['['] + x + seq![']']),
{
    let a1 = decimal(k);
    let a2 = a1 + seq!['['];
    let a3 = a2 + x;
    let a4 = a3 + seq![']'];
    let e0: Seq<nat> = seq![k];
    let ep: Seq<Seq<char>> = seq![Seq::<char>::empty()];
    lemma_run_concat(Seq::empty(), a1);
    assert(Seq::<char>::empty() + a1 =~= a1);
    lemma_steps_decimal(initial_state(), k);
    let st1 = decode_run(a1);
    assert(a2.drop_last() =~= a1);
    let st2 = decode_run(a2);
    assert(st2 == decode_step(st1, '['));
    assert(st2 =~~= embed(initial_state(), e0, ep, Seq::empty()));
    assert forall|j: int| 0 <= j <= x.len() implies #[trigger] decode_run(a2 + x.take(j))
        == embed(decode_run(x.take(j)), e0, ep, Seq::empty()) by {
        lemma_run_concat(a2, x.take(j));
        lemma_decodable_prefix(x, j);
        lemma_embed_run(x.take(j), e0, ep, Seq::empty());
    }
    assert(x.take(x.len() as int) =~= x);
    assert(a2 + x.take(x.len() as int) =~= a3);
    lemma_embed_run(x, e0, ep, Seq::empty());
    let sx = decode_run(x);
    let st3 = decode_run(a3);
    assert(st3 == embed(sx, e0, ep, Seq::empty()));
    assert(sx.parts.len() == 0);
    assert(sx.num == 0);
    assert(a4.drop_last() =~= a3);
    let st4 = decode_run(a4);
    assert(st4 == decode_step(st3, ']'));
    assert(st3.counts =~= seq![k]);
    assert(st3.parts =~~= seq![Seq::<char>::empty()]);
    assert(st3.current =~= decoded(x));
    assert(st4.current =~= Seq::<char>::empty() + repeat(decoded(x), k));
    assert(st4.counts =~= Seq::<nat>::empty());
    if k <= usize::MAX {
        lemma_decodable_decimal(k);
        assert forall|i: int| 0 <= i < a4.len() implies {
            let st = #[trigger] decode_run(a4.take(i));
            &&& is_digit(a4[i]) ==> st.num * 10 + digit_value(a4[i]) <= usize::MAX
            &&& a4[i] == ']' ==> st.counts.len() > 0
        } by {
            if i < a1.len() {
                assert(a4.take(i) =~= a1.take(i));
                assert(a4[i] == a1[i]);
                let st = decode_run(a1.take(i));
            } else if i == a1.len() {
                assert(a4[i] == '[');
            } else if i < a3.len() {
                let j = i - a2.len();
                assert(a4.take(i) =~= a2 + x.take(j));
                assert(a4[i] == x[j]);
                assert(decode_run(a2 + x.take(j)) == embed(decode_run(x.take(j)), e0, ep, Seq::empty()));
                let st = decode_run(x.take(j));
                lemma_decodable_prefix(x, j);
                lemma_embed_run(x.take(j), e0, ep, Seq::empty());
            } else {
                assert(a4.take(i) =~= a3);
                assert(a4[i] == ']');
            }
        }
    }
}

proof fn lemma_depth_bound(s: Seq<char>)
    requires
        forall|j: int| 0 <= j < s.len() && s[j] == ']' ==> #[trigger] decode_run(s.take(j)).counts.len() > 0,
    ensures
        decode_run(s).counts.len() <= s.len(),
    decreases s.len(),
{
    if s.len() > 0 {
        let t = s.drop_last();
        assert forall|j: int| 0 <= j < t.len() && t[j] == ']' implies #[trigger] decode_run(t.take(j)).counts.len() > 0 by {
            assert(t.take(j) =~= s.take(j));
            assert(s[j] == ']');
        }
        lemma_depth_bound(t);
        assert(s.take(s.len() - 1) =~= t);
    }
}

/// Whether `s` can be decoded: every `]` closes an open `[` and every number
/// read fits in a `usize`.
pub fn can_decode(s: &str) -> (ok: bool)
    ensures
        ok == decodable(s@),
{
    let v = chars_of(s);
    let ghost input = s@;
    let mut depth: usize = 0;
    let mut num: usize = 0;
    let mut has_num = false;
    let mut i: usize = 0;
    while i < v.len()
        invariant
            input == s@,
            v@ == input,
            i <= v@.len(),
            forall|j: int| 0 <= j < i ==> {
                let st = #[trigger] decode_run(input.take(j));
                &&& is_digit(input[j]) ==> st.num * 10 + digit_value(input[j]) <= usize::MAX
                &&& input[j] == ']' ==> st.counts.len() > 0
            },
            depth == decode_run(input.take(i as int)).counts.len(),
            num == decode_run(input.take(i as int)).num,
            has_num == decode_run(input.take(i as int)).has_num,
        decreases v@.len() - i,
    {
        let c = v[i];
        let ghost st = decode_run(input.take(i as int));
        proof {
            assert(input.take(i + 1).drop_last() =~= input.take(i as int));
            assert(input.take(i + 1).last() == c);
            let pre = input.take(i as int);
            assert forall|j: int| 0 <= j < pre.len() && pre[j] == ']' implies #[trigger] decode_run(pre.take(j)).counts.len() > 0 by {
                assert(pre.take(j) =~= input.take(j));
                assert(pre[j] == input[j]);
            }
            lemma_depth_bound(pre);
        }
        if '0' <= c && c <= '9' {
            let d = (c as u32 - 48) as usize;
            assert(d == digit_value(c));
            if num > (usize::MAX - d) / 10 {
                proof {
                    assert(num * 10 + d > usize::MAX) by (nonlinear_arith)
                        requires
                            num > (usize::MAX - d) / 10,
                            d <= 9,
                    ;
                    assert(decode_run(input.take(i as int)) == st);
                }
                return false;
            }
            proof {
                assert(num * 10 + d <= usize::MAX) by (nonlinear_arith)
                    requires
                        num <= (usize::MAX - d) / 10,
                        d <= 9,
                ;
            }
            num = num * 10 + d;
            has_num = true;
        } else if c == '[' {
            depth = depth + 1;
            num = 0;
            has_num = false;
        } else if c == ']' {
            if depth == 0 {
                assert(decode_run(input.take(i as int)) == st);
                return false;
            }
            depth = depth - 1;
        } else if has_num {
            num = 0;
            has_num = false;
        }
        proof {
            assert forall|j: int| 0 <= j < i + 1 implies {
                let st2 = #[trigger] decode_run(input.take(j));
                &&& is_digit(input[j]) ==> st2.num * 10 + digit_value(input[j]) <= usize::MAX
                &&& input[j] == ']' ==> st2.counts.len() > 0
            } by {
                if j == i {
                    assert(decode_run(input.take(j)) == st);
                }
            }
        }
        i = i + 1;
    }
    true
}

} // verus!
