//! The watcher's bookkeeping: which challenges are new, the record of the
//! challenges already seen, and the decisions taken on each poll.

use vstd::prelude::*;
use vstd::string::*;
use crate::text::{chars_of, string_of, decimal, decimal_string, trim_bounds, trimmed};

verus! {

/// One challenge of a contest, as the fetcher reports it.
pub struct Challenge {
    pub slug: String,
    pub name: String,
    pub body_html: String,
    pub problem_statement: String,
    pub input_format: String,
    pub output_format: String,
    pub constraints: String,
    pub url: String,
}

impl Clone for Challenge {
    fn clone(&self) -> (c: Self)
        ensures
            c == *self,
    {
        Challenge {
            slug: self.slug.clone(),
            name: self.name.clone(),
            body_html: self.body_html.clone(),
            problem_statement: self.problem_statement.clone(),
            input_format: self.input_format.clone(),
            output_format: self.output_format.clone(),
            constraints: self.constraints.clone(),
            url: self.url.clone(),
        }
    }
}

/// One poll of a contest's challenge list.
pub struct FetchResult {
    pub contest: String,
    pub fetched_at: String,
    pub challenges: Vec<Challenge>,
}

/// The slugs of the challenges already seen.
pub struct Seen {
    pub slugs: Vec<String>,
}

/// The character sequences of a list of strings.
pub open spec fn views(v: Seq<String>) -> Seq<Seq<char>> {
    v.map_values(|s: String| s@)
}

/// The challenges of `cs` whose slug is not among `seen`, in their order.
pub open spec fn unseen(cs: Seq<Challenge>, seen: Seq<Seq<char>>) -> Seq<Challenge>
    decreases cs.len(),
{
    if cs.len() == 0 {
        Seq::empty()
    } else {
        let rest = unseen(cs.drop_last(), seen);
        if seen.contains(cs.last().slug@) { rest } else { rest.push(cs.last()) }
    }
}

/// Whether some string of `v` equals `s`.
fn contains_str(v: &Vec<String>, s: &String) -> (found: bool)
    ensures
        found == views(v@).contains(s@),
{
    let mut i: usize = 0;
    while i < v.len()
        invariant
            i <= v@.len(),
            forall|j: int| 0 <= j < i ==> v@[j]@ != s@,
        decreases v@.len() - i,
    {
        if v[i] == *s {
            assert(views(v@)[i as int] == s@);
            return true;
        }
        i = i + 1;
    }
    proof {
        if views(v@).contains(s@) {
            let j = choose|j: int| 0 <= j < views(v@).len() && views(v@)[j] == s@;
            assert(v@[j]@ == s@);
        }
    }
    false
}

/// The new challenges of a poll are exactly those of its challenges whose slug
/// is not recorded as seen, each once and in the poll's order.
pub proof fn law_unseen_is_filter(cs: Seq<Challenge>, seen: Seq<Seq<char>>)
    ensures
        unseen(cs, seen) == cs.filter(|c: Challenge| !seen.contains(c.slug@)),
    decreases cs.len(),
{
    reveal(Seq::filter);
    let f = |c: Challenge| !seen.contains(c.slug@);
    if cs.len() > 0 {
        law_unseen_is_filter(cs.drop_last(), seen);
        assert(unseen(cs.drop_last(), seen) == cs.drop_last().filter(f));
        assert(cs.filter(f) == (if f(cs.last()) { cs.drop_last().filter(f).push(cs.last()) } else { cs.drop_last().filter(f) }));
    } else {
        assert(cs.filter(f) == cs);
    }
}

/// The challenges of the poll whose slug has not been seen, in the order
/// in which the poll lists them.
pub fn new_challenges(result: &FetchResult, seen: &Seen) -> (fresh: Vec<Challenge>)
    ensures
        fresh@ == unseen(result.challenges@, views(seen.slugs@)),
        fresh@ == result.challenges@.filter(|c: Challenge| !views(seen.slugs@).contains(c.slug@)),
{
    proof {
        law_unseen_is_filter(result.challenges@, views(seen.slugs@));
    }
    let ghost sv = views(seen.slugs@);
    let mut fresh: Vec<Challenge> = Vec::new();
    let mut i: usize = 0;
    while i < result.challenges.len()
        invariant
            sv == views(seen.slugs@),
            i <= result.challenges@.len(),
            fresh@ == unseen(result.challenges@.take(i as int), sv),
        decreases result.challenges@.len() - i,
    {
        let c = &result.challenges[i];
        proof {
            assert(result.challenges@.take(i + 1).drop_last() =~= result.challenges@.take(i as int));
        }
        if !contains_str(&seen.slugs, &c.slug) {
            fresh.push(c.clone());
        }
        i = i + 1;
    }
    assert(result.challenges@.take(result.challenges@.len() as int) =~= result.challenges@);
    fresh
}

/// The outcome of a poll: the new challenges when the fetch succeeded, its
/// error otherwise.
pub fn check(fetched: Result<FetchResult, String>, seen: &Seen) -> (res: Result<Vec<Challenge>, String>)
    ensures
        match fetched {
            Ok(r) => res matches Ok(fresh) && fresh@ == unseen(r.challenges@, views(seen.slugs@)),
            Err(e) => res matches Err(e2) && e2 == e,
        },
{
    match fetched {
        Ok(r) => Ok(new_challenges(&r, seen)),
        Err(e) => Err(e),
    }
}

/// The name to show for a challenge: its name, or its slug when unnamed.
pub fn display_name(c: &Challenge) -> (name: &String)
    ensures
        name@ == (if c.name@.len() == 0 { c.slug@ } else { c.name@ }),
{
    if c.name.as_str().is_empty() { &c.slug } else { &c.name }
}


/// `a` comes no later than `b` in lexicographic order of code points (the
/// order of `String`, which compares the UTF-8 encodings byte by byte).
pub open spec fn lex_le(a: Seq<char>, b: Seq<char>) -> bool
    decreases a.len(),
{
    if a.len() == 0 {
        true
    } else if b.len() == 0 {
        false
    } else if a[0] != b[0] {
        (a[0] as int) < (b[0] as int)
    } else {
        lex_le(a.drop_first(), b.drop_first())
    }
}

/// The strings are in lexicographic order.
pub open spec fn sorted(v: Seq<Seq<char>>) -> bool {
    forall|i: int, j: int| 0 <= i < j < v.len() ==> lex_le(#[trigger] v[i], #[trigger] v[j])
}

proof fn lemma_lex_total(a: Seq<char>, b: Seq<char>)
    ensures
        lex_le(a, b) || lex_le(b, a),
    decreases a.len(),
{
    if a.len() > 0 && b.len() > 0 && a[0] == b[0] {
        lemma_lex_total(a.drop_first(), b.drop_first());
    }
}

proof fn lemma_lex_trans(a: Seq<char>, b: Seq<char>, c: Seq<char>)
    requires
        lex_le(a, b),
        lex_le(b, c),
    ensures
        lex_le(a, c),
    decreases a.len(),
{
    if a.len() > 0 && b.len() > 0 && c.len() > 0 && a[0] == b[0] && b[0] == c[0] {
        lemma_lex_trans(a.drop_first(), b.drop_first(), c.drop_first());
    }
}

/// Whether `a` comes no later than `b` in lexicographic order.
fn lex_le_exec(a: &Vec<char>, b: &Vec<char>) -> (le: bool)
    ensures
        le == lex_le(a@, b@),
{
    let mut i: usize = 0;
    assert(a@.skip(0) =~= a@);
    assert(b@.skip(0) =~= b@);
    while i < a.len() && i < b.len()
        invariant
            i <= a@.len(),
            i <= b@.len(),
            lex_le(a@, b@) == lex_le(a@.skip(i as int), b@.skip(i as int)),
        decreases a@.len() - i,
    {
        if a[i] != b[i] {
            assert(a@.skip(i as int)[0] == a@[i as int]);
            assert(b@.skip(i as int)[0] == b@[i as int]);
            return a[i] < b[i];
        }
        proof {
            assert(a@.skip(i as int).drop_first() =~= a@.skip(i + 1));
            assert(b@.skip(i as int).drop_first() =~= b@.skip(i + 1));
        }
        i = i + 1;
    }
    a.len() <= b.len()
}

/// Sorts `v` in lexicographic order.
pub fn sort_strings(v: &mut Vec<String>)
    ensures
        sorted(views(final(v)@)),
        views(final(v)@).to_multiset() == views(old(v)@).to_multiset(),
{
    broadcast use vstd::seq_lib::group_to_multiset_ensures;
    let mut rest: Vec<String> = Vec::new();
    std::mem::swap(&mut rest, v);
    let ghost orig = views(rest@).to_multiset();
    assert(views(v@) =~= Seq::<Seq<char>>::empty());
    while rest.len() > 0
        invariant
            sorted(views(v@)),
            views(v@).to_multiset().add(views(rest@).to_multiset()) == orig,
        decreases rest@.len(),
    {
        let ghost before = rest@;
        let s = rest.pop().unwrap();
        proof {
            assert(views(before) =~= views(rest@).push(s@));
            vstd::seq_lib::to_multiset_build(views(rest@), s@);
        }
        let key = chars_of(s.as_str());
        let mut j: usize = 0;
        while j < v.len()
            invariant
                key@ == s@,
                sorted(views(v@)),
                j <= v@.len(),
                forall|q: int| 0 <= q < j ==> lex_le(#[trigger] views(v@)[q], s@),
            ensures
                j <= v@.len(),
                forall|q: int| 0 <= q < j ==> lex_le(#[trigger] views(v@)[q], s@),
                j < v@.len() ==> !lex_le(views(v@)[j as int], s@),
            decreases v@.len() - j,
        {
            let other = chars_of(v[j].as_str());
            if !lex_le_exec(&other, &key) {
                break;
            }
            j = j + 1;
        }
        let ghost old_v = views(v@);
        proof {
            if j < v@.len() {
                lemma_lex_total(old_v[j as int], s@);
            }
        }
        v.insert(j, s);
        proof {
            assert(views(v@) =~= old_v.insert(j as int, s@));
            vstd::seq_lib::to_multiset_insert(old_v, j as int, s@);
            assert(views(v@).to_multiset().add(views(rest@).to_multiset()) =~= old_v.to_multiset().add(views(before).to_multiset()));
            assert forall|p: int, q: int| 0 <= p < q < views(v@).len() implies lex_le(#[trigger] views(v@)[p], #[trigger] views(v@)[q]) by {
                if q == j {
                } else if p == j {
                    assert(lex_le(s@, old_v[j as int]));
                    if q - 1 > j {
                        lemma_lex_trans(s@, old_v[j as int], old_v[q - 1]);
                    }
                } else if p < j && q > j {
                    assert(views(v@)[p] == old_v[p]);
                    assert(views(v@)[q] == old_v[q - 1]);
                } else if q < j {
                    assert(views(v@)[p] == old_v[p]);
                    assert(views(v@)[q] == old_v[q]);
                } else {
                    assert(views(v@)[p] == old_v[p - 1]);
                    assert(views(v@)[q] == old_v[q - 1]);
                }
            }
        }
    }
    assert(views(rest@) =~= Seq::<Seq<char>>::empty());
}

/// Records `slug` as seen. Returns whether it was new; a new slug is added
/// and the record is sorted, which is when it needs saving.
pub fn mark_solved(seen: &mut Seen, slug: &str) -> (changed: bool)
    ensures
        changed == !views(old(seen).slugs@).contains(slug@),
        views(final(seen).slugs@).contains(slug@),
        forall|x: Seq<char>| views(old(seen).slugs@).contains(x) ==> views(final(seen).slugs@).contains(x),
        changed ==> sorted(views(final(seen).slugs@)),
        changed ==> views(final(seen).slugs@).to_multiset() == views(old(seen).slugs@).push(slug@).to_multiset(),
        !changed ==> *final(seen) == *old(seen),
{
    let s = String::from_str(slug);
    if contains_str(&seen.slugs, &s) {
        return false;
    }
    let ghost before = seen.slugs@;
    seen.slugs.push(s);
    assert(views(seen.slugs@) =~= views(before).push(slug@));
    sort_strings(&mut seen.slugs);
    proof {
        broadcast use vstd::seq_lib::group_to_multiset_ensures;
        let pushed = views(before).push(slug@);
        assert(pushed[before.len() as int] == slug@);
        assert(pushed.to_multiset().count(slug@) > 0);
        assert(views(seen.slugs@).to_multiset().count(slug@) > 0);
        assert forall|x: Seq<char>| views(before).contains(x) implies views(seen.slugs@).contains(x) by {
            let i = choose|i: int| 0 <= i < views(before).len() && views(before)[i] == x;
            assert(pushed[i] == x);
            assert(pushed.to_multiset().count(x) > 0);
            assert(views(seen.slugs@).to_multiset().count(x) > 0);
        }
    }
    true
}

/// Each challenge that `unseen` keeps comes from `cs` and has a slug outside `seen`.
proof fn lemma_unseen_members(cs: Seq<Challenge>, seen: Seq<Seq<char>>)
    ensures
        forall|i: int| 0 <= i < unseen(cs, seen).len() ==> !seen.contains(#[trigger] unseen(cs, seen)[i].slug@)
            && cs.contains(unseen(cs, seen)[i]),
    decreases cs.len(),
{
    if cs.len() > 0 {
        lemma_unseen_members(cs.drop_last(), seen);
        let rest = unseen(cs.drop_last(), seen);
        assert forall|i: int| 0 <= i < unseen(cs, seen).len() implies !seen.contains(#[trigger] unseen(cs, seen)[i].slug@)
            && cs.contains(unseen(cs, seen)[i]) by {
            if i < rest.len() {
                assert(unseen(cs, seen)[i] == rest[i]);
                assert(!seen.contains(rest[i].slug@));
                assert(cs.drop_last().contains(rest[i]));
                let j = choose|j: int| 0 <= j < cs.drop_last().len() && cs.drop_last()[j] == rest[i];
                assert(cs[j] == rest[i]);
            } else {
                assert(unseen(cs, seen)[i] == cs.last());
                assert(cs[cs.len() - 1] == cs.last());
            }
        }
    }
}

/// A challenge of a poll whose slug is not recorded as seen is reported as new.
pub proof fn law_unseen_reported(cs: Seq<Challenge>, seen: Seq<Seq<char>>, i: int)
    requires
        0 <= i < cs.len(),
        !seen.contains(cs[i].slug@),
    ensures
        unseen(cs, seen).contains(cs[i]),
    decreases cs.len(),
{
    let rest = unseen(cs.drop_last(), seen);
    if i < cs.len() - 1 {
        assert(cs.drop_last()[i] == cs[i]);
        law_unseen_reported(cs.drop_last(), seen, i);
        let j = choose|j: int| 0 <= j < rest.len() && rest[j] == cs[i];
        if !seen.contains(cs.last().slug@) {
            assert(unseen(cs, seen)[j] == rest[j]);
        } else {
            assert(unseen(cs, seen)[j] == rest[j]);
        }
    } else {
        assert(unseen(cs, seen) == rest.push(cs.last()));
        assert(unseen(cs, seen)[rest.len() as int] == cs[i]);
    }
}

/// A challenge whose slug is recorded as seen is never reported as new.
pub proof fn law_seen_not_new(cs: Seq<Challenge>, seen: Seq<Seq<char>>, slug: Seq<char>)
    requires
        seen.contains(slug),
    ensures
        forall|i: int| 0 <= i < unseen(cs, seen).len() ==> #[trigger] unseen(cs, seen)[i].slug@ != slug,
{
    lemma_unseen_members(cs, seen);
}

/// Once the slugs of a poll's new challenges are recorded (on top of what was
/// seen), the same poll reports nothing new.
pub proof fn law_recorded_poll_is_empty(cs: Seq<Challenge>, seen: Seq<Seq<char>>, later: Seq<Seq<char>>)
    requires
        forall|x: Seq<char>| seen.contains(x) ==> later.contains(x),
        forall|i: int| 0 <= i < unseen(cs, seen).len() ==> later.contains(#[trigger] unseen(cs, seen)[i].slug@),
    ensures
        unseen(cs, later).len() == 0,
{
    lemma_unseen_members(cs, later);
    if unseen(cs, later).len() > 0 {
        let c = unseen(cs, later)[0];
        assert(!later.contains(c.slug@));
        let j = choose|j: int| 0 <= j < cs.len() && cs[j] == c;
        assert(!seen.contains(cs[j].slug@));
        law_unseen_reported(cs, seen, j);
        let k = choose|k: int| 0 <= k < unseen(cs, seen).len() && unseen(cs, seen)[k] == c;
        assert(later.contains(unseen(cs, seen)[k].slug@));
    }
}


/// The number of distinct strings among the first `n` of `s`.
pub open spec fn distinct_count(s: Seq<Seq<char>>, n: int) -> nat
    decreases n,
{
    if n <= 0 {
        0
    } else {
        distinct_count(s, n - 1) + (if s.take(n - 1).contains(s[n - 1]) { 0nat } else { 1nat })
    }
}

/// Whether one of the first `n` strings of `v` equals `s`.
fn contains_before(v: &Vec<String>, n: usize, s: &String) -> (found: bool)
    requires
        n <= v@.len(),
    ensures
        found == views(v@).take(n as int).contains(s@),
{
    let mut i: usize = 0;
    while i < n
        invariant
            n <= v@.len(),
            i <= n,
            forall|j: int| 0 <= j < i ==> v@[j]@ != s@,
        decreases n - i,
    {
        if v[i] == *s {
            assert(views(v@).take(n as int)[i as int] == s@);
            return true;
        }
        i = i + 1;
    }
    proof {
        if views(v@).take(n as int).contains(s@) {
            let j = choose|j: int| 0 <= j < n && views(v@).take(n as int)[j] == s@;
            assert(v@[j]@ == s@);
        }
    }
    false
}

/// The number of distinct slugs in the record.
pub fn seen_count(seen: &Seen) -> (count: usize)
    ensures
        count == distinct_count(views(seen.slugs@), seen.slugs@.len() as int),
{
    let mut count: usize = 0;
    let mut i: usize = 0;
    while i < seen.slugs.len()
        invariant
            i <= seen.slugs@.len(),
            count == distinct_count(views(seen.slugs@), i as int),
            count <= i,
        decreases seen.slugs@.len() - i,
    {
        if !contains_before(&seen.slugs, i, &seen.slugs[i]) {
            count = count + 1;
        }
        i = i + 1;
    }
    count
}

/// The lines that report a poll: one per new challenge, or a note that
/// there is none with the number of challenges seen so far.
pub fn poll_report(fresh: &Vec<Challenge>, seen: &Seen) -> (lines: Vec<String>)
    ensures
        fresh@.len() > 0 ==> lines@.len() == fresh@.len() && forall|i: int| 0 <= i < fresh@.len() ==> #[trigger] lines@[i]@ == "NEW: ["@ + fresh@[i].slug@ + "] "@ + (if fresh@[i].name@.len() == 0 { fresh@[i].slug@ } else { fresh@[i].name@ }),
        fresh@.len() == 0 ==> lines@.len() == 1 && lines@[0]@ == "No new challenges ("@ + decimal(distinct_count(views(seen.slugs@), seen.slugs@.len() as int)) + " seen)."@,
{
    let mut lines: Vec<String> = Vec::new();
    if fresh.len() == 0 {
        let count = seen_count(seen);
        let mut line = String::from_str("No new challenges (");
        let digits = decimal_string(count as u64);
        line.append(digits.as_str());
        line.append(" seen).");
        lines.push(line);
        return lines;
    }
    let mut i: usize = 0;
    while i < fresh.len()
        invariant
            i <= fresh@.len(),
            lines@.len() == i,
            forall|j: int| 0 <= j < i ==> #[trigger] lines@[j]@ == "NEW: ["@ + fresh@[j].slug@ + "] "@ + (if fresh@[j].name@.len() == 0 { fresh@[j].slug@ } else { fresh@[j].name@ }),
        decreases fresh@.len() - i,
    {
        let c = &fresh[i];
        let mut line = String::from_str("NEW: [");
        line.append(c.slug.as_str());
        line.append("] ");
        line.append(display_name(c).as_str());
        lines.push(line);
        i = i + 1;
    }
    lines
}

/// Whether to ring after a poll: only when ringing is on and something is new.
pub fn ring_after_poll(fresh: &Vec<Challenge>, ring: bool) -> (r: bool)
    ensures
        r == (ring && fresh@.len() > 0),
{
    ring && fresh.len() > 0
}

/// Whether login credentials are configured: both parts are non-empty.
pub fn has_credentials(username: &str, password: &str) -> (b: bool)
    ensures
        b == (username@.len() > 0 && password@.len() > 0),
{
    !username.is_empty() && !password.is_empty()
}


/// The position of the first `c` in `s`, if any.
pub open spec fn first_index(s: Seq<char>, c: char) -> Option<int>
    decreases s.len(),
{
    if s.len() == 0 {
        None
    } else {
        match first_index(s.drop_last(), c) {
            Some(p) => Some(p),
            None => if s.last() == c { Some(s.len() - 1) } else { None },
        }
    }
}

/// The setting that a line of the environment file holds: blank lines and
/// `#` comments hold none; otherwise the trimmed line is split at its first
/// `=` into a name and a value (a line without `=` holds none).
pub open spec fn env_entry(line: Seq<char>) -> Option<(Seq<char>, Seq<char>)> {
    let t = trimmed(line);
    if t.len() == 0 || t[0] == '#' {
        None
    } else {
        match first_index(t, '=') {
            Some(p) => Some((t.take(p), t.skip(p + 1))),
            None => None,
        }
    }
}

proof fn lemma_first_index(s: Seq<char>, c: char, p: int)
    requires
        0 <= p <= s.len(),
        forall|i: int| 0 <= i < p ==> s[i] != c,
        p < s.len() ==> s[p] == c,
    ensures
        first_index(s, c) == (if p < s.len() { Some(p) } else { None::<int> }),
    decreases s.len(),
{
    if s.len() > 0 {
        if p < s.len() - 1 {
            lemma_first_index(s.drop_last(), c, p);
        } else {
            lemma_first_index(s.drop_last(), c, s.len() - 1);
        }
    }
}

/// A trimmed line that is not blank, does not start with `#` and holds an `=`
/// sets the name before its first `=` to everything after it, verbatim; any
/// other line sets nothing.
pub proof fn law_env_line(line: Seq<char>, p: int)
    ensures
        (0 <= p < trimmed(line).len() && trimmed(line)[0] != '#' && trimmed(line)[p] == '='
            && (forall|i: int| 0 <= i < p ==> trimmed(line)[i] != '='))
            ==> env_entry(line) == Some((trimmed(line).take(p), trimmed(line).skip(p + 1))),
        (env_entry(line) is None) == (trimmed(line).len() == 0 || trimmed(line)[0] == '#'
            || (forall|i: int| 0 <= i < trimmed(line).len() ==> trimmed(line)[i] != '=')),
{
    let t = trimmed(line);
    if 0 <= p < t.len() && t[p] == '=' && (forall|i: int| 0 <= i < p ==> t[i] != '=') {
        lemma_first_index(t, '=', p);
    }
    if forall|i: int| 0 <= i < t.len() ==> t[i] != '=' {
        lemma_first_index(t, '=', t.len() as int);
    } else {
        let q = choose|i: int| 0 <= i < t.len() && t[i] == '=';
        let f = lemma_least_index(t, q);
        lemma_first_index(t, '=', f);
    }
}

proof fn lemma_env_line_all(line: Seq<char>)
    ensures
        forall|p: int| 0 <= p < trimmed(line).len() && trimmed(line)[0] != '#' && #[trigger] trimmed(line)[p] == '='
            && (forall|i: int| 0 <= i < p ==> trimmed(line)[i] != '=')
            ==> env_entry(line) == Some((trimmed(line).take(p), trimmed(line).skip(p + 1))),
        (env_entry(line) is None) == (trimmed(line).len() == 0 || trimmed(line)[0] == '#'
            || (forall|i: int| 0 <= i < trimmed(line).len() ==> trimmed(line)[i] != '=')),
{
    law_env_line(line, 0);
    assert forall|p: int| 0 <= p < trimmed(line).len() && trimmed(line)[0] != '#' && #[trigger] trimmed(line)[p] == '='
        && (forall|i: int| 0 <= i < p ==> trimmed(line)[i] != '=')
        implies env_entry(line) == Some((trimmed(line).take(p), trimmed(line).skip(p + 1))) by {
        law_env_line(line, p);
    }
}

proof fn lemma_least_index(t: Seq<char>, q: int) -> (f: int)
    requires
        0 <= q < t.len(),
        t[q] == '=',
    ensures
        0 <= f <= q,
        t[f] == '=',
        forall|i: int| 0 <= i < f ==> t[i] != '=',
    decreases q,
{
    if exists|i: int| 0 <= i < q && t[i] == '=' {
        let r = choose|i: int| 0 <= i < q && t[i] == '=';
        lemma_least_index(t, r)
    } else {
        q
    }
}

/// The setting on one line of the environment file, as `(name, value)`.
pub fn parse_env_line(line: &str) -> (entry: Option<(String, String)>)
    ensures
        match entry {
            Some((k, v)) => env_entry(line@) == Some((k@, v@)),
            None => env_entry(line@) is None,
        },
        forall|p: int| 0 <= p < trimmed(line@).len() && trimmed(line@)[0] != '#' && #[trigger] trimmed(line@)[p] == '='
            && (forall|i: int| 0 <= i < p ==> trimmed(line@)[i] != '=')
            ==> entry is Some && entry.unwrap().0@ == trimmed(line@).take(p) && entry.unwrap().1@ == trimmed(line@).skip(p + 1),
        (entry is None) == (trimmed(line@).len() == 0 || trimmed(line@)[0] == '#'
            || (forall|i: int| 0 <= i < trimmed(line@).len() ==> trimmed(line@)[i] != '=')),
{
    proof {
        lemma_env_line_all(line@);
    }
    let v = chars_of(line);
    let (lo, hi) = trim_bounds(&v);
    let ghost t = trimmed(line@);
    if lo == hi || v[lo] == '#' {
        return None;
    }
    let mut p = lo;
    while p < hi && v[p] != '='
        invariant
            lo <= p <= hi <= v@.len(),
            forall|i: int| lo <= i < p ==> v@[i] != '=',
        decreases hi - p,
    {
        p = p + 1;
    }
    proof {
        assert forall|i: int| 0 <= i < p - lo implies t[i] != '=' by {
            assert(t[i] == v@[lo + i]);
        }
        if p < hi {
            assert(t[p - lo] == v@[p as int]);
        }
        lemma_first_index(t, '=', p - lo);
    }
    if p == hi {
        return None;
    }
    let key = string_of(&v, lo, p);
    let value = string_of(&v, p + 1, hi);
    proof {
        assert(key@ =~= t.take(p - lo));
        assert(value@ =~= t.skip(p - lo + 1));
    }
    Some((key, value))
}

/// The arguments that start the fetcher: the script, the contest, in watch
/// mode `--watch --interval <secs>`, then `--headless` and `--login` where
/// asked for.
pub open spec fn fetch_args_spec(script: Seq<char>, contest: Seq<char>, watch_interval: Option<u64>, headless: bool, login: bool) -> Seq<Seq<char>> {
    seq![script, contest]
        + (match watch_interval {
            Some(i) => seq!["--watch"@, "--interval"@, decimal(i as nat)],
            None => Seq::empty(),
        })
        + (if headless { seq!["--headless"@] } else { Seq::empty() })
        + (if login { seq!["--login"@] } else { Seq::empty() })
}

proof fn lemma_decimal_ends_in_digit(n: nat)
    ensures
        decimal(n).len() >= 1,
        '0' <= decimal(n).last() <= '9',
    decreases n,
{
    if n >= 10 {
        lemma_decimal_ends_in_digit(n / 10);
    }
}

/// The fetcher starts with the script and the contest; after them it gets
/// `--headless` exactly when a headless browser is asked for, `--login`
/// exactly when a login is asked for, and `--watch` exactly in watch mode,
/// each independently of the others.
pub proof fn law_fetch_flags(script: Seq<char>, contest: Seq<char>, watch_interval: Option<u64>, headless: bool, login: bool)
    ensures
        fetch_args_spec(script, contest, watch_interval, headless, login).len() >= 2,
        fetch_args_spec(script, contest, watch_interval, headless, login)[0] == script,
        fetch_args_spec(script, contest, watch_interval, headless, login)[1] == contest,
        fetch_args_spec(script, contest, watch_interval, headless, login).skip(2).contains("--headless"@) == headless,
        fetch_args_spec(script, contest, watch_interval, headless, login).skip(2).contains("--login"@) == login,
        fetch_args_spec(script, contest, watch_interval, headless, login).skip(2).contains("--watch"@) == (watch_interval is Some),
{
    reveal_strlit("--headless");
    reveal_strlit("--login");
    reveal_strlit("--watch");
    reveal_strlit("--interval");
    let a = fetch_args_spec(script, contest, watch_interval, headless, login);
    let r = a.skip(2);
    let w: Seq<Seq<char>> = match watch_interval {
        Some(i) => seq!["--watch"@, "--interval"@, decimal(i as nat)],
        None => Seq::empty(),
    };
    let h: Seq<Seq<char>> = if headless { seq!["--headless"@] } else { Seq::empty() };
    let l: Seq<Seq<char>> = if login { seq!["--login"@] } else { Seq::empty() };
    assert(r =~= w + h + l);
    if let Some(i) = watch_interval {
        lemma_decimal_ends_in_digit(i as nat);
        assert(decimal(i as nat) != "--headless"@ && decimal(i as nat) != "--login"@ && decimal(i as nat) != "--watch"@) by {
            assert("--headless"@.last() == 's');
            assert("--login"@.last() == 'n');
            assert("--watch"@.last() == 'h');
        }
        assert("--interval"@ != "--headless"@) by {
            assert("--interval"@[2] != "--headless"@[2]);
        }
    }
    assert("--watch"@ != "--headless"@ && "--watch"@ != "--login"@) by {
        assert("--watch"@[2] != "--login"@[2]);
    }
    assert("--interval"@ != "--login"@ && "--interval"@ != "--watch"@ && "--headless"@ != "--login"@) by {
        assert("--interval"@.len() == 10 && "--login"@.len() == 7 && "--watch"@.len() == 7 && "--headless"@.len() == 10);
    }
    if headless {
        assert(r[w.len() as int] == "--headless"@);
    }
    if login {
        assert(r[(w.len() + h.len()) as int] == "--login"@);
    }
    if watch_interval is Some {
        assert(r[0] == "--watch"@);
    }
}

/// The arguments that start the fetcher.
pub fn fetch_args(script: &str, contest: &str, watch_interval: Option<u64>, headless: bool, login: bool) -> (args: Vec<String>)
    ensures
        views(args@) == fetch_args_spec(script@, contest@, watch_interval, headless, login),
        views(args@).skip(2).contains("--headless"@) == headless,
        views(args@).skip(2).contains("--login"@) == login,
        views(args@).skip(2).contains("--watch"@) == (watch_interval is Some),
{
    proof {
        law_fetch_flags(script@, contest@, watch_interval, headless, login);
    }
    let mut args: Vec<String> = Vec::new();
    args.push(String::from_str(script));
    args.push(String::from_str(contest));
    let ghost a0 = views(args@);
    assert(a0 =~= seq![script@, contest@]);
    if let Some(i) = watch_interval {
        args.push(String::from_str("--watch"));
        args.push(String::from_str("--interval"));
        args.push(decimal_string(i));
    }
    let ghost a1 = views(args@);
    assert(a1 =~= a0 + (match watch_interval {
        Some(i) => seq!["--watch"@, "--interval"@, decimal(i as nat)],
        None => Seq::<Seq<char>>::empty(),
    }));
    if headless {
        args.push(String::from_str("--headless"));
    }
    let ghost a2 = views(args@);
    assert(a2 =~= a1 + (if headless { seq!["--headless"@] } else { Seq::<Seq<char>>::empty() }));
    if login {
        args.push(String::from_str("--login"));
    }
    assert(views(args@) =~= a2 + (if login { seq!["--login"@] } else { Seq::<Seq<char>>::empty() }));
    args
}

/// The statement of a challenge: its HTML body, else its plain statement,
/// else nothing.
pub open spec fn statement_of(c: Challenge) -> Seq<char> {
    if c.body_html@.len() > 0 {
        c.body_html@
    } else if c.problem_statement@.len() > 0 {
        c.problem_statement@
    } else {
        Seq::empty()
    }
}

/// The description of a challenge that the solver receives.
pub open spec fn challenge_text_spec(slug: Seq<char>, c: Option<Challenge>) -> Seq<char> {
    match c {
        Some(c) => "Challenge: "@ + (if c.name@.len() == 0 { slug } else { c.name@ }) + "\nURL: "@ + c.url@
            + "\n\nPROBLEM STATEMENT:\n"@ + statement_of(c) + "\n\nINPUT FORMAT:\n"@ + c.input_format@
            + "\n\nOUTPUT FORMAT:\n"@ + c.output_format@ + "\n\nCONSTRAINTS:\n"@ + c.constraints@,
        None => "Challenge slug: "@ + slug,
    }
}

/// `s` ends with `t`.
pub open spec fn ends_with(s: Seq<char>, t: Seq<char>) -> bool {
    s.len() >= t.len() && s.skip(s.len() - t.len()) == t
}

/// `s` starts with `t`.
pub open spec fn starts_with(s: Seq<char>, t: Seq<char>) -> bool {
    s.len() >= t.len() && s.take(t.len() as int) == t
}

/// The description of a fetched challenge opens with its name (its slug where
/// it has none) and its URL, and closes with its input format, its output
/// format and its constraints, in that order, whichever field the statement
/// came from.
pub proof fn law_text_sections(slug: Seq<char>, c: Challenge)
    ensures
        starts_with(challenge_text_spec(slug, Some(c)),
            "Challenge: "@ + (if c.name@.len() == 0 { slug } else { c.name@ }) + "\nURL: "@ + c.url@ + "\n\nPROBLEM STATEMENT:\n"@),
        ends_with(challenge_text_spec(slug, Some(c)),
            "\n\nINPUT FORMAT:\n"@ + c.input_format@ + "\n\nOUTPUT FORMAT:\n"@ + c.output_format@
            + "\n\nCONSTRAINTS:\n"@ + c.constraints@),
        ends_with(challenge_text_spec(slug, Some(c)), "\n\nCONSTRAINTS:\n"@ + c.constraints@),
        ({
            let t = challenge_text_spec(slug, Some(c));
            let head = "Challenge: "@ + (if c.name@.len() == 0 { slug } else { c.name@ }) + "\nURL: "@ + c.url@ + "\n\nPROBLEM STATEMENT:\n"@;
            let tail = "\n\nINPUT FORMAT:\n"@ + c.input_format@ + "\n\nOUTPUT FORMAT:\n"@ + c.output_format@
                + "\n\nCONSTRAINTS:\n"@ + c.constraints@;
            t.len() == head.len() + (if c.body_html@.len() > 0 { c.body_html@ } else { c.problem_statement@ }).len() + tail.len()
            && t.subrange(head.len() as int, t.len() - tail.len())
                == (if c.body_html@.len() > 0 { c.body_html@ } else { c.problem_statement@ })
        }),
        challenge_text_spec(slug, None) == "Challenge slug: "@ + slug,
{
    let t = challenge_text_spec(slug, Some(c));
    let head = "Challenge: "@ + (if c.name@.len() == 0 { slug } else { c.name@ }) + "\nURL: "@ + c.url@ + "\n\nPROBLEM STATEMENT:\n"@;
    let last = "\n\nCONSTRAINTS:\n"@ + c.constraints@;
    let tail = "\n\nINPUT FORMAT:\n"@ + c.input_format@ + "\n\nOUTPUT FORMAT:\n"@ + c.output_format@
        + "\n\nCONSTRAINTS:\n"@ + c.constraints@;
    assert(t =~= head + (statement_of(c) + tail));
    assert(t.take(head.len() as int) =~= head);
    assert(t.skip(t.len() - tail.len()) =~= tail);
    assert(tail.skip(tail.len() - last.len()) =~= last);
    assert(t.skip(t.len() - last.len()) =~= last);
    assert(t.subrange(head.len() as int, t.len() - tail.len()) =~= statement_of(c));
}

/// Describes a challenge for the solver, from its fetched data where known.
pub fn challenge_text(slug: &str, challenge: Option<&Challenge>) -> (text: String)
    ensures
        text@ == challenge_text_spec(slug@, match challenge { Some(c) => Some(*c), None => None }),
        match challenge {
            Some(c) => ends_with(text@, "\n\nINPUT FORMAT:\n"@ + c.input_format@ + "\n\nOUTPUT FORMAT:\n"@
                + c.output_format@ + "\n\nCONSTRAINTS:\n"@ + c.constraints@),
            None => true,
        },
{
    proof {
        if let Some(c) = challenge {
            law_text_sections(slug@, *c);
        }
    }
    match challenge {
        Some(c) => {
            let mut t = String::from_str("Challenge: ");
            if c.name.as_str().is_empty() {
                t.append(slug);
            } else {
                t.append(c.name.as_str());
            }
            t.append("\nURL: ");
            t.append(c.url.as_str());
            t.append("\n\nPROBLEM STATEMENT:\n");
            if !c.body_html.as_str().is_empty() {
                t.append(c.body_html.as_str());
            } else if !c.problem_statement.as_str().is_empty() {
                t.append(c.problem_statement.as_str());
            } else {
                t.append("");
                proof {
                    reveal_strlit("");
                }
            }
            t.append("\n\nINPUT FORMAT:\n");
            t.append(c.input_format.as_str());
            t.append("\n\nOUTPUT FORMAT:\n");
            t.append(c.output_format.as_str());
            t.append("\n\nCONSTRAINTS:\n");
            t.append(c.constraints.as_str());
            t
        },
        None => {
            let mut t = String::from_str("Challenge slug: ");
            t.append(slug);
            t
        },
    }
}

/// The request that the solver receives for a challenge whose folder is `dir`.
pub open spec fn solve_prompt_spec(text: Seq<char>, dir: Seq<char>) -> Seq<char> {
    "Solve the following HackerRank contest challenge in Rust.\n\n"@ + text
        + "\n\nTasks:\n1. Write a complete Rust program to "@ + dir
        + "/main.rs. It must read from standard input and write to standard output. Use `use std::io::{self, BufRead};` style, no external crates.\n2. Create a test script "@
        + dir
        + "/tests.sh that (a) compiles with `rustc -O main.rs -o main`, (b) runs the compiled binary against every Sample Input from the problem statement, and (c) compares with the expected Sample Output. The script must exit 0 only if ALL samples pass.\n3. Run the tests and report PASS/FAIL for each sample.\nDo not modify anything outside "@
        + dir + "."@
}

/// The solver's request opens with the instruction and then the challenge
/// description unchanged, names `dir/main.rs` as the program to write right
/// after the description, and closes by fencing the work into `dir`.
pub proof fn law_prompt_frames_text(text: Seq<char>, dir: Seq<char>)
    ensures
        starts_with(solve_prompt_spec(text, dir),
            "Solve the following HackerRank contest challenge in Rust.\n\n"@ + text
            + "\n\nTasks:\n1. Write a complete Rust program to "@ + dir + "/main.rs"@),
        ends_with(solve_prompt_spec(text, dir), "Do not modify anything outside "@ + dir + "."@),
{
    reveal_strlit("/main.rs");
    reveal_strlit("/main.rs. It must read from standard input and write to standard output. Use `use std::io::{self, BufRead};` style, no external crates.\n2. Create a test script ");
    let p = solve_prompt_spec(text, dir);
    let a = "Solve the following HackerRank contest challenge in Rust.\n\n"@ + text
        + "\n\nTasks:\n1. Write a complete Rust program to "@ + dir;
    let long = "/main.rs. It must read from standard input and write to standard output. Use `use std::io::{self, BufRead};` style, no external crates.\n2. Create a test script "@;
    let head = a + "/main.rs"@;
    let rest = long.skip(8) + dir
        + "/tests.sh that (a) compiles with `rustc -O main.rs -o main`, (b) runs the compiled binary against every Sample Input from the problem statement, and (c) compares with the expected Sample Output. The script must exit 0 only if ALL samples pass.\n3. Run the tests and report PASS/FAIL for each sample.\nDo not modify anything outside "@
        + dir + "."@;
    assert(long =~= "/main.rs"@ + long.skip(8));
    assert(p =~= head + rest);
    assert(p.take(head.len() as int) =~= head);
    let last = "Do not modify anything outside "@ + dir + "."@;
    let before = a + long + dir
        + "/tests.sh that (a) compiles with `rustc -O main.rs -o main`, (b) runs the compiled binary against every Sample Input from the problem statement, and (c) compares with the expected Sample Output. The script must exit 0 only if ALL samples pass.\n3. Run the tests and report PASS/FAIL for each sample.\nDo not modify anything outside "@;
    let tests = "/tests.sh that (a) compiles with `rustc -O main.rs -o main`, (b) runs the compiled binary against every Sample Input from the problem statement, and (c) compares with the expected Sample Output. The script must exit 0 only if ALL samples pass.\n3. Run the tests and report PASS/FAIL for each sample.\nDo not modify anything outside "@;
    reveal_strlit("/tests.sh that (a) compiles with `rustc -O main.rs -o main`, (b) runs the compiled binary against every Sample Input from the problem statement, and (c) compares with the expected Sample Output. The script must exit 0 only if ALL samples pass.\n3. Run the tests and report PASS/FAIL for each sample.\nDo not modify anything outside ");
    reveal_strlit("Do not modify anything outside ");
    let k = tests.len() - 31;
    assert(tests =~= tests.take(k) + "Do not modify anything outside "@);
    assert(p =~= (a + long + dir + tests.take(k)) + last);
    assert(p.skip(p.len() - last.len()) =~= last);
}

/// Builds the solver's request from the challenge description and folder.
pub fn solve_prompt(text: &str, dir: &str) -> (prompt: String)
    ensures
        prompt@ == solve_prompt_spec(text@, dir@),
        starts_with(prompt@, "Solve the following HackerRank contest challenge in Rust.\n\n"@ + text@),
        ends_with(prompt@, "Do not modify anything outside "@ + dir@ + "."@),
{
    let mut p = String::from_str("Solve the following HackerRank contest challenge in Rust.\n\n");
    p.append(text);
    p.append("\n\nTasks:\n1. Write a complete Rust program to ");
    p.append(dir);
    p.append("/main.rs. It must read from standard input and write to standard output. Use `use std::io::{self, BufRead};` style, no external crates.\n2. Create a test script ");
    p.append(dir);
    p.append("/tests.sh that (a) compiles with `rustc -O main.rs -o main`, (b) runs the compiled binary against every Sample Input from the problem statement, and (c) compares with the expected Sample Output. The script must exit 0 only if ALL samples pass.\n3. Run the tests and report PASS/FAIL for each sample.\nDo not modify anything outside ");
    p.append(dir);
    p.append(".");
    proof {
        law_prompt_frames_text(text@, dir@);
        let h = "Solve the following HackerRank contest challenge in Rust.\n\n"@ + text@;
        let g = h + "\n\nTasks:\n1. Write a complete Rust program to "@ + dir@ + "/main.rs"@;
        assert(g.take(h.len() as int) =~= h);
        assert(p@.take(h.len() as int) =~= p@.take(g.len() as int).take(h.len() as int));
    }
    p
}

/// What the watch loop does with the new challenges of a poll.
pub enum PollAction {
    /// Record these slugs as seen without solving them.
    MarkSeen(Vec<String>),
    /// Neither solve nor record.
    Report,
    /// Solve these challenges.
    Solve(Vec<Challenge>),
}

/// The watch loop's state: whether the next poll is the first.
pub struct WatchState {
    pub first: bool,
}

/// The slugs of a list of challenges.
pub open spec fn slugs_of(cs: Seq<Challenge>) -> Seq<Seq<char>> {
    cs.map_values(|c: Challenge| c.slug@)
}

impl WatchState {
    /// The state before the first poll.
    pub fn new() -> (st: Self)
        ensures
            st.first,
    {
        WatchState { first: true }
    }

    /// Decides what to do with the new challenges of a poll. On the first
    /// poll with `skip_current`, they are recorded as seen; otherwise they
    /// are solved unless `no_solve`.
    pub fn on_poll(&mut self, fresh: Vec<Challenge>, skip_current: bool, no_solve: bool) -> (action: PollAction)
        ensures
            !final(self).first,
            old(self).first && skip_current ==> (action matches PollAction::MarkSeen(slugs) && views(slugs@) == slugs_of(fresh@)),
            !(old(self).first && skip_current) && no_solve ==> action is Report,
            !(old(self).first && skip_current) && !no_solve ==> (action matches PollAction::Solve(cs) && cs@ == fresh@),
    {
        if self.first {
            self.first = false;
            if skip_current {
                let mut slugs: Vec<String> = Vec::new();
                let mut i: usize = 0;
                while i < fresh.len()
                    invariant
                        i <= fresh@.len(),
                        views(slugs@) == slugs_of(fresh@).take(i as int),
                    decreases fresh@.len() - i,
                {
                    let ghost before = slugs@;
                    let sl = fresh[i].slug.clone();
                    assert(sl@ == fresh@[i as int].slug@);
                    slugs.push(sl);
                    assert(views(slugs@) =~= views(before).push(fresh@[i as int].slug@));
                    i = i + 1;
                    assert(views(slugs@) =~= slugs_of(fresh@).take(i as int));
                }
                assert(slugs_of(fresh@).take(fresh@.len() as int) =~= slugs_of(fresh@));
                return PollAction::MarkSeen(slugs);
            }
        }
        if no_solve {
            PollAction::Report
        } else {
            PollAction::Solve(fresh)
        }
    }
}

/// The position of the first challenge of `cs` whose slug is `slug`.
pub fn find_by_slug(cs: &Vec<Challenge>, slug: &str) -> (pos: Option<usize>)
    ensures
        match pos {
            Some(i) => i < cs@.len() && cs@[i as int].slug@ == slug@ && forall|j: int| 0 <= j < i ==> cs@[j].slug@ != slug@,
            None => forall|j: int| 0 <= j < cs@.len() ==> cs@[j].slug@ != slug@,
        },
{
    let target = String::from_str(slug);
    let mut i: usize = 0;
    while i < cs.len()
        invariant
            target@ == slug@,
            i <= cs@.len(),
            forall|j: int| 0 <= j < i ==> cs@[j].slug@ != slug@,
        decreases cs@.len() - i,
    {
        if cs[i].slug == target {
            return Some(i);
        }
        i = i + 1;
    }
    None
}

} // verus!
