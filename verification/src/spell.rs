//! The ancient spell decoder: for each prefix of a scroll, how many
//! dictionary words begin with it, using a trie over the dictionary.

use vstd::prelude::*;

verus! {

/// `p` is a prefix of `w`.
pub open spec fn is_prefix(p: Seq<u8>, w: Seq<u8>) -> bool {
    p.len() <= w.len() && w.take(p.len() as int) == p
}

/// How many of `words` begin with `p`.
pub open spec fn prefix_count(words: Seq<Seq<u8>>, p: Seq<u8>) -> nat
    decreases words.len(),
{
    if words.len() == 0 {
        0
    } else {
        prefix_count(words.drop_last(), p) + (if is_prefix(p, words.last()) { 1nat } else { 0nat })
    }
}

/// The total length of `words`.
pub open spec fn total_len(words: Seq<Seq<u8>>) -> nat
    decreases words.len(),
{
    if words.len() == 0 { 0 } else { total_len(words.drop_last()) + words.last().len() }
}

/// Every byte of every word is at least `b'a'`.
pub open spec fn words_lowercase(words: Seq<Seq<u8>>) -> bool {
    forall|i: int, j: int| 0 <= i < words.len() && 0 <= j < words[i].len() ==> #[trigger] words[i][j] >= 97
}

/// Every byte of the scroll that the decoder reads (those up to the first
/// prefix that no word has) is at least `b'a'`.
pub open spec fn scroll_readable(words: Seq<Seq<u8>>, scroll: Seq<u8>) -> bool {
    forall|i: int| 0 <= i < scroll.len() && (i == 0 || prefix_count(words, scroll.take(i)) > 0) ==> #[trigger] scroll[i] >= 97
}

/// The counts held by the trie's nodes.
spec fn counts_of(trie: Seq<(u32, Vec<(u8, u32)>)>) -> Seq<int> {
    Seq::new(trie.len(), |x: int| trie[x].0 as int)
}

/// The child lists of the trie's nodes.
spec fn kids_of(trie: Seq<(u32, Vec<(u8, u32)>)>) -> Seq<Seq<(u8, u32)>> {
    Seq::new(trie.len(), |x: int| trie[x].1@)
}

/// The trie: node `x` spells `paths[x]`, holds the number of words that
/// begin with it, and lists its children by letter (`byte - b'a'`).
spec fn trie_inv(counts: Seq<int>, kids: Seq<Seq<(u8, u32)>>, paths: Seq<Seq<u8>>, words: Seq<Seq<u8>>) -> bool {
    &&& counts.len() == paths.len()
    &&& kids.len() == paths.len()
    &&& paths.len() >= 1
    &&& paths[0] == Seq::<u8>::empty()
    &&& forall|x: int, e: int| 0 <= x < kids.len() && 0 <= e < kids[x].len() ==> {
        let (c, y) = #[trigger] kids[x][e];
        &&& 0 < y < kids.len()
        &&& c < 159
        &&& paths[y as int] == paths[x].push((c + 97) as u8)
    }
    &&& forall|x: int, y: int| 0 <= x < paths.len() && 0 <= y < paths.len() && x != y ==> #[trigger] paths[x] != #[trigger] paths[y]
    &&& forall|x: int| 0 < x < counts.len() ==> #[trigger] counts[x] == prefix_count(words, paths[x]) && prefix_count(words, paths[x]) > 0
    &&& forall|x: int| 0 < x < paths.len() ==> #[trigger] paths[x].len() > 0
    &&& forall|x: int, b: u8| 0 <= x < kids.len() && b >= 97 && prefix_count(words, #[trigger] paths[x].push(b)) > 0 ==> exists|e: int| 0 <= e < kids[x].len() && #[trigger] kids[x][e].0 == b - 97
}

proof fn lemma_prefix_count_push(words: Seq<Seq<u8>>, w: Seq<u8>, p: Seq<u8>)
    ensures
        prefix_count(words.push(w), p) == prefix_count(words, p) + (if is_prefix(p, w) { 1nat } else { 0nat }),
{
    assert(words.push(w).drop_last() =~= words);
}

proof fn lemma_prefix_step(p: Seq<u8>, w: Seq<u8>, d: int)
    requires
        0 <= d < w.len(),
    ensures
        is_prefix(p, w.take(d + 1)) == (is_prefix(p, w.take(d)) || p == w.take(d + 1)),
{
    if p.len() <= d {
        assert(w.take(d).take(p.len() as int) =~= w.take(d + 1).take(p.len() as int));
    }
    if p.len() == d + 1 {
        assert(w.take(d + 1).take(p.len() as int) =~= w.take(d + 1));
    }
}

proof fn lemma_prefix_count_longer(words: Seq<Seq<u8>>, p: Seq<u8>, q: Seq<u8>)
    requires
        is_prefix(p, q),
    ensures
        prefix_count(words, q) <= prefix_count(words, p),
    decreases words.len(),
{
    if words.len() > 0 {
        lemma_prefix_count_longer(words.drop_last(), p, q);
        let w = words.last();
        if is_prefix(q, w) {
            assert(w.take(p.len() as int) =~= q.take(p.len() as int));
        }
    }
}

proof fn lemma_prefix_count_bound(words: Seq<Seq<u8>>, p: Seq<u8>)
    ensures
        prefix_count(words, p) <= words.len(),
    decreases words.len(),
{
    if words.len() > 0 {
        lemma_prefix_count_bound(words.drop_last(), p);
    }
}

proof fn lemma_inv_new_word(counts: Seq<int>, kids: Seq<Seq<(u8, u32)>>, paths: Seq<Seq<u8>>, words: Seq<Seq<u8>>)
    requires
        trie_inv(counts, kids, paths, words),
    ensures
        trie_inv(counts, kids, paths, words.push(Seq::<u8>::empty())),
{
    let nw = words.push(Seq::<u8>::empty());
    assert forall|x: int| 0 < x < counts.len() implies #[trigger] counts[x] == prefix_count(nw, paths[x]) && prefix_count(nw, paths[x]) > 0 by {
        lemma_prefix_count_push(words, Seq::<u8>::empty(), paths[x]);
        assert(paths[x].len() > 0);
        assert(counts[x] == prefix_count(words, paths[x]));
        assert(!is_prefix(paths[x], Seq::<u8>::empty()));
    }
    assert forall|x: int, b: u8| 0 <= x < kids.len() && b >= 97 && prefix_count(nw, #[trigger] paths[x].push(b)) > 0 implies exists|e: int| 0 <= e < kids[x].len() && #[trigger] kids[x][e].0 == b - 97 by {
        lemma_prefix_count_push(words, Seq::<u8>::empty(), paths[x].push(b));
    }
}

/// Reading letter `b` of word `w` moves from the node spelling `w[..d]` to
/// the node spelling `w[..=d]`, creating it where needed, and counts `w` there.
proof fn lemma_step(
    counts: Seq<int>,
    kids: Seq<Seq<(u8, u32)>>,
    paths: Seq<Seq<u8>>,
    ncounts: Seq<int>,
    nkids: Seq<Seq<(u8, u32)>>,
    npaths: Seq<Seq<u8>>,
    done: Seq<Seq<u8>>,
    w: Seq<u8>,
    d: int,
    node: int,
    next: int,
)
    requires
        trie_inv(counts, kids, paths, done.push(w.take(d))),
        0 <= d < w.len(),
        w[d] >= 97,
        0 <= node < paths.len(),
        paths[node] == w.take(d),
        0 < next < npaths.len(),
        npaths.len() <= u32::MAX,
        npaths[next] == w.take(d + 1),
        npaths.len() == paths.len() || (npaths.len() == paths.len() + 1 && next == paths.len()),
        forall|x: int| 0 <= x < paths.len() ==> #[trigger] npaths[x] == paths[x],
        ncounts.len() == npaths.len(),
        nkids.len() == npaths.len(),
        ncounts[next] == (if next < paths.len() { counts[next] } else { 0 }) + 1,
        forall|x: int| 0 <= x < paths.len() && x != next ==> #[trigger] ncounts[x] == counts[x],
        forall|x: int| 0 <= x < paths.len() && x != node ==> #[trigger] nkids[x] == kids[x],
        next == paths.len() ==> nkids[next] == Seq::<(u8, u32)>::empty(),
        nkids[node] == kids[node] || nkids[node] == kids[node].push(((w[d] - 97) as u8, next as u32)),
        exists|e: int| 0 <= e < nkids[node].len() && #[trigger] nkids[node][e] == ((w[d] - 97) as u8, next as u32),
        next == paths.len() ==> forall|z: int| 0 <= z < paths.len() ==> #[trigger] paths[z] != w.take(d + 1),
    ensures
        trie_inv(ncounts, nkids, npaths, done.push(w.take(d + 1))),
{
    let cur = done.push(w.take(d));
    let nxt = done.push(w.take(d + 1));
    let np = w.take(d + 1);
    assert(np =~= paths[node].push(w[d]));
    assert forall|x: int, e: int| 0 <= x < nkids.len() && 0 <= e < nkids[x].len() implies {
        let (c, y) = #[trigger] nkids[x][e];
        &&& 0 < y < nkids.len()
        &&& c < 159
        &&& npaths[y as int] == npaths[x].push((c + 97) as u8)
    } by {
        if x < paths.len() && (x != node || e < kids[node].len()) {
            assert(nkids[x][e] == kids[x][e]);
            let (c, y) = kids[x][e];
            assert(0 < y < kids.len());
            assert(paths[y as int] == paths[x].push((c + 97) as u8));
            assert(npaths[y as int] == paths[y as int]);
            assert(npaths[x] == paths[x]);
        } else if x >= paths.len() {
            assert(nkids[x] == Seq::<(u8, u32)>::empty());
        } else if x < paths.len() {
            assert(x == node);
            assert(nkids[node] == kids[node].push(((w[d] - 97) as u8, next as u32)));
            assert(e == kids[node].len());
            assert(nkids[x][e] == ((w[d] - 97) as u8, next as u32));
            let c = nkids[x][e].0;
            assert(c + 97 == w[d]);
            assert(npaths[x].push((c + 97) as u8) =~= np);
        }
    }
    assert forall|x: int, y: int| 0 <= x < npaths.len() && 0 <= y < npaths.len() && x != y implies #[trigger] npaths[x] != #[trigger] npaths[y] by {
        if x == next && y < paths.len() && next == paths.len() {
            assert(paths[y] != np);
        } else if y == next && x < paths.len() && next == paths.len() {
            assert(paths[x] != np);
        }
    }
    assert forall|x: int| 0 < x < ncounts.len() implies #[trigger] ncounts[x] == prefix_count(nxt, npaths[x]) && prefix_count(nxt, npaths[x]) > 0 by {
        lemma_prefix_count_push(done, w.take(d + 1), npaths[x]);
        lemma_prefix_count_push(done, w.take(d), npaths[x]);
        lemma_prefix_step(npaths[x], w, d);
        if x == next {
            if next < paths.len() {
                assert(counts[next] == prefix_count(cur, paths[next]));
            } else {
                if prefix_count(cur, np) > 0 {
                    assert(prefix_count(cur, paths[node].push(w[d])) > 0);
                    let e = choose|e: int| 0 <= e < kids[node].len() && #[trigger] kids[node][e].0 == w[d] - 97;
                    let (c, y) = kids[node][e];
                    assert(paths[y as int] == np);
                }
            }
        } else {
            assert(npaths[x] != np);
            assert(counts[x] == prefix_count(cur, paths[x]));
        }
    }
    assert forall|x: int, b: u8| 0 <= x < nkids.len() && b >= 97 && prefix_count(nxt, #[trigger] npaths[x].push(b)) > 0 implies exists|e: int| 0 <= e < nkids[x].len() && #[trigger] nkids[x][e].0 == b - 97 by {
        let q = npaths[x].push(b);
        lemma_prefix_count_push(done, w.take(d + 1), q);
        lemma_prefix_count_push(done, w.take(d), q);
        lemma_prefix_step(q, w, d);
        if q == np {
            assert(npaths[x] =~= q.drop_last());
            assert(paths[node] =~= np.drop_last());
            assert(x == node);
            assert(q[q.len() - 1] == b);
            assert(np[d] == w[d]);
            assert(b == w[d]);
        } else if x == next && next == paths.len() {
            assert(prefix_count(cur, q) > 0);
            assert(q.take(np.len() as int) =~= np);
            lemma_prefix_count_longer(cur, np, q);
            if prefix_count(cur, np) > 0 {
                assert(prefix_count(cur, paths[node].push(w[d])) > 0);
                let e = choose|e: int| 0 <= e < kids[node].len() && #[trigger] kids[node][e].0 == w[d] - 97;
                let (c, y) = kids[node][e];
                assert(paths[y as int] == np);
            }
            assert(q.take(np.len() as int) =~= np);
        } else {
            assert(prefix_count(cur, paths[x].push(b)) > 0);
            let e = choose|e: int| 0 <= e < kids[x].len() && #[trigger] kids[x][e].0 == b - 97;
            if x == node {
                assert(nkids[x][e] == kids[x][e]);
            } else {
                assert(nkids[x][e] == kids[x][e]);
            }
        }
    }
}


/// Looks for the child of `node` with letter `idx`.
fn find_child(node: &(u32, Vec<(u8, u32)>), idx: u8) -> (res: Option<usize>)
    ensures
        match res {
            Some(e) => e < node.1@.len() && node.1@[e as int].0 == idx,
            None => forall|e: int| 0 <= e < node.1@.len() ==> #[trigger] node.1@[e].0 != idx,
        },
{
    let children = &node.1;
    let mut e: usize = 0;
    while e < children.len()
        invariant
            children == &node.1,
            e <= children@.len(),
            forall|q: int| 0 <= q < e ==> #[trigger] children@[q].0 != idx,
        decreases children@.len() - e,
    {
        if children[e].0 == idx {
            return Some(e);
        }
        e = e + 1;
    }
    None
}

proof fn lemma_total_len_take(words: Seq<Seq<u8>>, i: int)
    requires
        0 <= i < words.len(),
    ensures
        total_len(words.take(i + 1)) == total_len(words.take(i)) + words[i].len(),
{
    assert(words.take(i + 1).drop_last() =~= words.take(i));
}

proof fn lemma_total_len_bound(words: Seq<Seq<u8>>, i: int)
    requires
        0 <= i <= words.len(),
    ensures
        total_len(words.take(i)) <= total_len(words),
    decreases words.len() - i,
{
    if i < words.len() {
        lemma_total_len_bound(words, i + 1);
        lemma_total_len_take(words, i);
    } else {
        assert(words.take(i) =~= words);
    }
}

/// For each prefix of `scroll`, the number of `words` that begin with it.
pub fn spell_counts(words: &Vec<Vec<u8>>, scroll: &Vec<u8>) -> (out: Vec<u32>)
    requires
        words_lowercase(words.deep_view()),
        scroll_readable(words.deep_view(), scroll@),
        words.len() <= u32::MAX,
        total_len(words.deep_view()) < u32::MAX,
    ensures
        out@.len() == scroll@.len(),
        forall|i: int| 0 <= i < scroll@.len() ==> #[trigger] out@[i] == prefix_count(words.deep_view(), scroll@.take(i + 1)),
{
    let ghost all = words.deep_view();
    let mut trie: Vec<(u32, Vec<(u8, u32)>)> = Vec::new();
    trie.push((0u32, Vec::new()));
    let ghost mut paths: Seq<Seq<u8>> = seq![Seq::<u8>::empty()];
    proof {
        assert(trie_inv(counts_of(trie@), kids_of(trie@), paths, all.take(0)));
    }
    let mut wi: usize = 0;
    while wi < words.len()
        invariant
            all == words.deep_view(),
            words_lowercase(all),
            words.len() <= u32::MAX,
            total_len(all) < u32::MAX,
            wi <= words.len(),
            trie_inv(counts_of(trie@), kids_of(trie@), paths, all.take(wi as int)),
            trie@.len() <= 1 + total_len(all.take(wi as int)),
        decreases words.len() - wi,
    {
        let word = &words[wi];
        let ghost w = word@;
        let ghost done = all.take(wi as int);
        proof {
            assert(all[wi as int] == w);
            lemma_inv_new_word(counts_of(trie@), kids_of(trie@), paths, done);
            assert(w.take(0) =~= Seq::<u8>::empty());
            lemma_total_len_take(all, wi as int);
            lemma_total_len_bound(all, wi as int + 1);
        }
        let mut node: usize = 0;
        let mut d: usize = 0;
        while d < word.len()
            invariant
                all == words.deep_view(),
                words_lowercase(all),
                words.len() <= u32::MAX,
                wi < words.len(),
                w == word@,
                w == all[wi as int],
                done == all.take(wi as int),
                d <= w.len(),
                trie_inv(counts_of(trie@), kids_of(trie@), paths, done.push(w.take(d as int))),
                node < trie@.len(),
                paths[node as int] == w.take(d as int),
                trie@.len() <= 1 + total_len(done) + d,
                total_len(done) + w.len() < u32::MAX,
            decreases w.len() - d,
        {
            let b = word[d];
            proof {
                assert(w[d as int] == all[wi as int][d as int]);
            }
            let idx = b - 97;
            let ghost cur = done.push(w.take(d as int));
            let ghost np = w.take(d + 1);
            let ghost counts0 = counts_of(trie@);
            let ghost kids0 = kids_of(trie@);
            let ghost paths0 = paths;
            let ghost mut edge: int = 0;
            let found = find_child(&trie[node], idx);
            let next: usize = match found {
                Some(e) => {
                    let y = trie[node].1[e].1 as usize;
                    proof {
                        assert(kids0[node as int][e as int] == trie@[node as int].1@[e as int]);
                        let _ = kids0[node as int][e as int];
                        assert(paths[y as int] == paths[node as int].push((idx + 97) as u8));
                        assert(paths[y as int] =~= np);
                        edge = e as int;
                    }
                    y
                },
                None => {
                    let new_id = trie.len() as u32;
                    proof {
                        assert(np =~= paths[node as int].push(b));
                        assert forall|z: int| 0 <= z < trie@.len() implies #[trigger] paths[z] != np by {
                            if paths[z] == np {
                                lemma_prefix_step(np, w, d as int);
                                lemma_prefix_count_push(done, w.take(d as int), np);
                                if z == 0 {
                                } else if prefix_count(cur, np) > 0 {
                                    assert(prefix_count(cur, paths[node as int].push(b)) > 0);
                                    let e = choose|e: int| 0 <= e < kids0[node as int].len() && #[trigger] kids0[node as int][e].0 == b - 97;
                                    assert(kids0[node as int][e] == trie@[node as int].1@[e]);
                                } else {
                                    assert(counts0[z] == prefix_count(cur, paths[z]));
                                }
                            }
                        }
                    }
                    trie[node].1.push((idx, new_id));
                    trie.push((0u32, Vec::new()));
                    proof {
                        paths = paths.push(np);
                        edge = kids0[node as int].len() as int;
                    }
                    new_id as usize
                },
            };
            let cnt = trie[next].0;
            proof {
                lemma_prefix_count_push(done, w.take(d as int), np);
                lemma_prefix_count_bound(done, np);
                assert(!is_prefix(np, w.take(d as int)));
                assert(done.len() == wi);
                if next < paths0.len() {
                    assert(counts0[next as int] == prefix_count(cur, paths0[next as int]));
                }
            }
            trie[next].0 = cnt + 1;
            proof {
                assert(kids_of(trie@)[node as int][edge] == (idx, next as u32));
                lemma_step(counts0, kids0, paths0, counts_of(trie@), kids_of(trie@), paths, done, w, d as int, node as int, next as int);
            }
            node = next;
            d = d + 1;
        }
        proof {
            assert(w.take(w.len() as int) =~= w);
            assert(all.take(wi + 1) =~= done.push(w));
            lemma_total_len_take(all, wi as int);
        }
        wi = wi + 1;
    }
    proof {
        assert(all.take(all.len() as int) =~= all);
    }
    let mut out: Vec<u32> = Vec::new();
    let mut node: usize = 0;
    let mut broken = false;
    let mut i: usize = 0;
    while i < scroll.len()
        invariant
            all == words.deep_view(),
            scroll_readable(all, scroll@),
            trie_inv(counts_of(trie@), kids_of(trie@), paths, all),
            i <= scroll@.len(),
            out@.len() == i,
            forall|q: int| 0 <= q < i ==> #[trigger] out@[q] == prefix_count(all, scroll@.take(q + 1)),
            !broken ==> node < trie@.len() && paths[node as int] == scroll@.take(i as int),
            broken ==> prefix_count(all, scroll@.take(i as int)) == 0 && i >= 1,
        decreases scroll@.len() - i,
    {
        let ghost sc = scroll@;
        proof {
            assert(sc.take(i + 1).take(i as int) =~= sc.take(i as int));
        }
        if broken {
            proof {
                lemma_prefix_count_longer(all, sc.take(i as int), sc.take(i + 1));
            }
            out.push(0);
        } else {
            proof {
                if i > 0 {
                    assert(paths[node as int].len() > 0);
                    assert(node != 0);
                    assert(counts_of(trie@)[node as int] == prefix_count(all, paths[node as int]));
                }
            }
            let b = scroll[i];
            let idx = b - 97;
            let ghost np = sc.take(i + 1);
            proof {
                assert(np =~= paths[node as int].push(b));
            }
            match find_child(&trie[node], idx) {
                Some(e) => {
                    let y = trie[node].1[e].1 as usize;
                    proof {
                        assert(kids_of(trie@)[node as int][e as int] == trie@[node as int].1@[e as int]);
                        let _ = kids_of(trie@)[node as int][e as int];
                        assert(paths[y as int] =~= np);
                        assert(counts_of(trie@)[y as int] == prefix_count(all, paths[y as int]));
                    }
                    node = y;
                    out.push(trie[node].0);
                },
                None => {
                    proof {
                        if prefix_count(all, paths[node as int].push(b)) > 0 {
                            let e = choose|e: int| 0 <= e < kids_of(trie@)[node as int].len() && #[trigger] kids_of(trie@)[node as int][e].0 == b - 97;
                            assert(kids_of(trie@)[node as int][e] == trie@[node as int].1@[e]);
                        }
                    }
                    broken = true;
                    out.push(0);
                },
            }
        }
        i = i + 1;
    }
    out
}

/// For each prefix of `scroll`, the number of `words` that begin with it; or
/// `None` when the decoder would read a byte below `b'a'` (one at the start,
/// or one after a prefix that some word begins with).
pub fn spell_counts_checked(words: &Vec<Vec<u8>>, scroll: &Vec<u8>) -> (res: Option<Vec<u32>>)
    requires
        words_lowercase(words.deep_view()),
        words.len() <= u32::MAX,
        total_len(words.deep_view()) < u32::MAX,
    ensures
        res is None <==> !scroll_readable(words.deep_view(), scroll@),
        res matches Some(out) ==> out@.len() == scroll@.len()
            && forall|i: int| 0 <= i < scroll@.len() ==> #[trigger] out@[i] == prefix_count(words.deep_view(), scroll@.take(i + 1)),
{
    let ghost all = words.deep_view();
    let mut cut: usize = 0;
    let mut prefix: Vec<u8> = Vec::new();
    while cut < scroll.len() && scroll[cut] >= 97
        invariant
            cut <= scroll@.len(),
            prefix@ == scroll@.take(cut as int),
            forall|i: int| 0 <= i < cut ==> scroll@[i] >= 97,
        decreases scroll@.len() - cut,
    {
        prefix.push(scroll[cut]);
        cut = cut + 1;
        assert(prefix@ =~= scroll@.take(cut as int));
    }
    proof {
        assert forall|i: int| 0 <= i < prefix@.len() && (i == 0 || prefix_count(all, prefix@.take(i)) > 0) implies #[trigger] prefix@[i] >= 97 by {
            assert(prefix@[i] == scroll@[i]);
        }
    }
    let mut out = spell_counts(words, &prefix);
    proof {
        assert forall|i: int| 0 <= i < cut implies #[trigger] out@[i] == prefix_count(all, scroll@.take(i + 1)) by {
            assert(prefix@.take(i + 1) =~= scroll@.take(i + 1));
        }
    }
    if cut < scroll.len() {
        if cut == 0 || out[cut - 1] != 0 {
            proof {
                if cut > 0 {
                    assert(scroll@.take(cut as int) =~= scroll@.take(cut - 1 + 1));
                }
                assert(!(scroll@[cut as int] >= 97));
            }
            return None;
        }
        let ghost base = scroll@.take(cut as int);
        proof {
            assert(base =~= scroll@.take(cut - 1 + 1));
            assert(prefix_count(all, base) == 0);
        }
        while out.len() < scroll.len()
            invariant
                cut < scroll@.len(),
                cut <= out@.len() <= scroll@.len(),
                base == scroll@.take(cut as int),
                prefix_count(all, base) == 0,
                forall|i: int| 0 <= i < out@.len() ==> #[trigger] out@[i] == prefix_count(all, scroll@.take(i + 1)),
            decreases scroll@.len() - out@.len(),
        {
            let ghost i = out@.len() as int;
            proof {
                assert(is_prefix(base, scroll@.take(i + 1))) by {
                    assert(scroll@.take(i + 1).take(cut as int) =~= base);
                }
                lemma_prefix_count_longer(all, base, scroll@.take(i + 1));
            }
            out.push(0);
        }
        proof {
            assert forall|i: int| 0 <= i < scroll@.len() && (i == 0 || prefix_count(all, scroll@.take(i)) > 0)
                implies #[trigger] scroll@[i] >= 97 by {
                if i > cut {
                    assert(is_prefix(base, scroll@.take(i))) by {
                        assert(scroll@.take(i).take(cut as int) =~= base);
                    }
                    lemma_prefix_count_longer(all, base, scroll@.take(i));
                }
            }
        }
    }
    Some(out)
}

} // verus!
