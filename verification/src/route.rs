//! The last-mile route planner: the shortest walk from the depot (node `0`)
//! through a tree of roads that reaches every delivery point, without having
//! to come back.

use vstd::prelude::*;
use crate::tree::{is_tree, is_rooted_tree, tree_shape, adj_view, walk_tree};

verus! {

/// `a` is `x` or an ancestor of `x` in the tree that `adj` describes.
pub open spec fn ancestor(adj: Seq<Seq<usize>>, a: int, x: int) -> bool
    decreases tree_shape(adj).1[x],
    when is_tree(adj) && 0 <= x < adj.len()
{
    x == a || (x != 0 && ancestor(adj, a, tree_shape(adj).0[x]))
}

/// The walk has to enter `x`: some delivery point lies in its subtree.
pub open spec fn needed(adj: Seq<Seq<usize>>, delivery: Seq<bool>, x: int) -> bool {
    exists|d: int| 0 <= d < adj.len() && delivery[d] && #[trigger] ancestor(adj, x, d)
}

/// The number of nodes `x < k` other than the depot that the walk has to enter
/// (each is entered over the road from its parent).
pub open spec fn needed_roads(adj: Seq<Seq<usize>>, delivery: Seq<bool>, k: int) -> nat
    decreases k,
{
    if k <= 0 {
        0
    } else {
        needed_roads(adj, delivery, k - 1) + (if k - 1 != 0 && needed(adj, delivery, k - 1) { 1nat } else { 0nat })
    }
}

/// The largest depth of a delivery point `x < k` (zero when there is none).
pub open spec fn deepest(adj: Seq<Seq<usize>>, delivery: Seq<bool>, k: int) -> int
    decreases k,
{
    if k <= 0 {
        0
    } else {
        let d = if delivery[k - 1] { tree_shape(adj).1[k - 1] as int } else { 0 };
        let rest = deepest(adj, delivery, k - 1);
        if d > rest { d } else { rest }
    }
}

/// The length of the shortest walk from the depot that reaches every delivery
/// point: every needed road twice, except those on the way to the deepest
/// delivery point, which is where the walk ends.
pub open spec fn route_length(adj: Seq<Seq<usize>>, delivery: Seq<bool>) -> int {
    let e = needed_roads(adj, delivery, adj.len() as int);
    if e == 0 { 0 } else { 2 * e - deepest(adj, delivery, adj.len() as int) }
}

/// Counting a property over the elements of `s`.
spec fn count_in(s: Seq<usize>, p: spec_fn(int) -> bool) -> nat
    decreases s.len(),
{
    if s.len() == 0 { 0 } else { (if p(s[0] as int) { 1nat } else { 0nat }) + count_in(s.drop_first(), p) }
}

/// The largest value over the elements of `s` (zero for none).
spec fn max_in(s: Seq<usize>, f: spec_fn(int) -> int) -> int
    decreases s.len(),
{
    if s.len() == 0 {
        0
    } else {
        let rest = max_in(s.drop_first(), f);
        if f(s[0] as int) > rest { f(s[0] as int) } else { rest }
    }
}

/// Counting a property over `0..k`.
spec fn count_below(k: int, p: spec_fn(int) -> bool) -> nat
    decreases k,
{
    if k <= 0 { 0 } else { count_below(k - 1, p) + (if p(k - 1) { 1nat } else { 0nat }) }
}

/// The largest value over `0..k` (zero for none).
spec fn max_below(k: int, f: spec_fn(int) -> int) -> int
    decreases k,
{
    if k <= 0 {
        0
    } else {
        let rest = max_below(k - 1, f);
        if f(k - 1) > rest { f(k - 1) } else { rest }
    }
}

proof fn lemma_count_remove(s: Seq<usize>, p: spec_fn(int) -> bool, i: int)
    requires
        0 <= i < s.len(),
    ensures
        count_in(s, p) == count_in(s.remove(i), p) + (if p(s[i] as int) { 1nat } else { 0nat }),
    decreases i,
{
    if i == 0 {
        assert(s.remove(0) =~= s.drop_first());
    } else {
        lemma_count_remove(s.drop_first(), p, i - 1);
        assert(s.remove(i).drop_first() =~= s.drop_first().remove(i - 1));
        assert(s.remove(i)[0] == s[0]);
    }
}

proof fn lemma_max_remove(s: Seq<usize>, f: spec_fn(int) -> int, i: int)
    requires
        0 <= i < s.len(),
    ensures
        max_in(s, f) == (if f(s[i] as int) > max_in(s.remove(i), f) { f(s[i] as int) } else { max_in(s.remove(i), f) }),
    decreases i,
{
    if i == 0 {
        assert(s.remove(0) =~= s.drop_first());
    } else {
        lemma_max_remove(s.drop_first(), f, i - 1);
        assert(s.remove(i).drop_first() =~= s.drop_first().remove(i - 1));
        assert(s.remove(i)[0] == s[0]);
    }
}

/// `s` lists each of `0..n` exactly once.
spec fn permutes(s: Seq<usize>, n: int) -> bool {
    &&& s.len() == n
    &&& s.no_duplicates()
    &&& forall|x: int| 0 <= x < n ==> #[trigger] s.contains(x as usize)
}

proof fn lemma_permutes_remove(s: Seq<usize>, n: int) -> (i: int)
    requires
        permutes(s, n),
        n > 0,
        n <= usize::MAX + 1,
    ensures
        0 <= i < s.len(),
        s[i] == (n - 1) as usize,
        permutes(s.remove(i), n - 1),
{
    assert(s.contains((n - 1) as usize));
    let i = choose|i: int| 0 <= i < s.len() && s[i] == (n - 1) as usize;
    let r = s.remove(i);
    assert forall|x: int| 0 <= x < n - 1 implies #[trigger] r.contains(x as usize) by {
        assert(s.contains(x as usize));
        let j = choose|j: int| 0 <= j < s.len() && s[j] == x as usize;
        if j < i {
            assert(r[j] == x as usize);
        } else {
            assert(j != i);
            assert(r[j - 1] == x as usize);
        }
    }
    assert(r.no_duplicates()) by {
        assert forall|a: int, b: int| 0 <= a < b < r.len() implies r[a] != r[b] by {
            let a2 = if a < i { a } else { a + 1 };
            let b2 = if b < i { b } else { b + 1 };
            assert(r[a] == s[a2]);
            assert(r[b] == s[b2]);
        }
    }
    i
}

proof fn lemma_count_permutes(s: Seq<usize>, n: int, p: spec_fn(int) -> bool)
    requires
        permutes(s, n),
        0 <= n <= usize::MAX + 1,
    ensures
        count_in(s, p) == count_below(n, p),
    decreases n,
{
    if n > 0 {
        let i = lemma_permutes_remove(s, n);
        lemma_count_remove(s, p, i);
        lemma_count_permutes(s.remove(i), n - 1, p);
    }
}

proof fn lemma_max_permutes(s: Seq<usize>, n: int, f: spec_fn(int) -> int)
    requires
        permutes(s, n),
        0 <= n <= usize::MAX + 1,
    ensures
        max_in(s, f) == max_below(n, f),
    decreases n,
{
    if n > 0 {
        let i = lemma_permutes_remove(s, n);
        lemma_max_remove(s, f, i);
        lemma_max_permutes(s.remove(i), n - 1, f);
    }
}

/// A property holding of `len` distinct numbers below `k` holds of at least
/// `len` numbers below `k`.
proof fn lemma_count_at_least(s: Seq<int>, k: int, p: spec_fn(int) -> bool)
    requires
        s.no_duplicates(),
        forall|i: int| 0 <= i < s.len() ==> 0 <= #[trigger] s[i] < k && p(s[i]),
    ensures
        count_below(k, p) >= s.len(),
    decreases k,
{
    if k <= 0 {
        if s.len() > 0 {
            assert(0 <= s[0] < k);
        }
    } else if s.contains(k - 1) {
        let i = choose|i: int| 0 <= i < s.len() && s[i] == k - 1;
        let r = s.remove(i);
        assert forall|j: int| 0 <= j < r.len() implies 0 <= #[trigger] r[j] < k - 1 && p(r[j]) by {
            let j2 = if j < i { j } else { j + 1 };
            assert(r[j] == s[j2]);
            assert(s[j2] != s[i]);
        }
        assert(r.no_duplicates()) by {
            assert forall|a: int, b: int| 0 <= a < b < r.len() implies r[a] != r[b] by {
                let a2 = if a < i { a } else { a + 1 };
                let b2 = if b < i { b } else { b + 1 };
                assert(r[a] == s[a2]);
                assert(r[b] == s[b2]);
            }
        }
        lemma_count_at_least(r, k - 1, p);
    } else {
        assert forall|j: int| 0 <= j < s.len() implies 0 <= #[trigger] s[j] < k - 1 && p(s[j]) by {
            assert(s[j] != k - 1);
        }
        lemma_count_at_least(s, k - 1, p);
    }
}


proof fn lemma_ancestor_child(adj: Seq<Seq<usize>>, a: int, d: int)
    requires
        is_tree(adj),
        0 <= a < adj.len(),
        0 <= d < adj.len(),
        ancestor(adj, a, d),
        d != a,
    ensures
        exists|c: int| 0 < c < adj.len() && tree_shape(adj).0[c] == a && #[trigger] ancestor(adj, c, d),
    decreases tree_shape(adj).1[d],
{
    let (par, dep) = tree_shape(adj);
    assert(is_rooted_tree(adj, par, dep));
    let p = par[d];
    if p == a {
        assert(ancestor(adj, d, d));
    } else {
        lemma_ancestor_child(adj, a, p);
        let c = choose|c: int| 0 < c < adj.len() && par[c] == a && #[trigger] ancestor(adj, c, p);
        assert(ancestor(adj, c, d));
    }
}

proof fn lemma_ancestor_parent(adj: Seq<Seq<usize>>, c: int, d: int)
    requires
        is_tree(adj),
        0 < c < adj.len(),
        0 <= d < adj.len(),
        ancestor(adj, c, d),
    ensures
        ancestor(adj, tree_shape(adj).0[c], d),
    decreases tree_shape(adj).1[d],
{
    let (par, dep) = tree_shape(adj);
    assert(is_rooted_tree(adj, par, dep));
    if d == c {
        assert(ancestor(adj, par[c], par[c]));
    } else {
        assert(d != 0);
        lemma_ancestor_parent(adj, c, par[d]);
    }
}

/// A node has to be entered exactly when it is a delivery point or one of
/// its children has to be entered.
proof fn lemma_needed_step(adj: Seq<Seq<usize>>, delivery: Seq<bool>, x: int)
    requires
        is_tree(adj),
        0 <= x < adj.len(),
        delivery.len() == adj.len(),
    ensures
        needed(adj, delivery, x) == (delivery[x] || exists|c: int| 0 < c < adj.len() && #[trigger] tree_shape(adj).0[c] == x && needed(adj, delivery, c)),
{
    let par = tree_shape(adj).0;
    if needed(adj, delivery, x) && !delivery[x] {
        let d = choose|d: int| 0 <= d < adj.len() && delivery[d] && #[trigger] ancestor(adj, x, d);
        lemma_ancestor_child(adj, x, d);
        let c = choose|c: int| 0 < c < adj.len() && par[c] == x && #[trigger] ancestor(adj, c, d);
        assert(needed(adj, delivery, c));
    }
    if delivery[x] {
        assert(ancestor(adj, x, x));
    }
    if exists|c: int| 0 < c < adj.len() && #[trigger] par[c] == x && needed(adj, delivery, c) {
        let c = choose|c: int| 0 < c < adj.len() && #[trigger] par[c] == x && needed(adj, delivery, c);
        let d = choose|d: int| 0 <= d < adj.len() && delivery[d] && #[trigger] ancestor(adj, c, d);
        lemma_ancestor_parent(adj, c, d);
    }
}

/// The path from `d` up to (not including) the depot.
spec fn chain(adj: Seq<Seq<usize>>, d: int) -> Seq<int>
    decreases tree_shape(adj).1[d],
    when is_tree(adj) && 0 <= d < adj.len()
{
    if d == 0 { Seq::empty() } else { seq![d] + chain(adj, tree_shape(adj).0[d]) }
}

proof fn lemma_chain(adj: Seq<Seq<usize>>, d: int)
    requires
        is_tree(adj),
        0 <= d < adj.len(),
    ensures
        chain(adj, d).len() == tree_shape(adj).1[d],
        forall|i: int| 0 <= i < chain(adj, d).len() ==> {
            let a = #[trigger] chain(adj, d)[i];
            &&& 0 < a < adj.len()
            &&& tree_shape(adj).1[a] == tree_shape(adj).1[d] - i
            &&& ancestor(adj, a, d)
        },
    decreases tree_shape(adj).1[d],
{
    let (par, dep) = tree_shape(adj);
    assert(is_rooted_tree(adj, par, dep));
    if d != 0 {
        let p = par[d];
        lemma_chain(adj, p);
        let c = chain(adj, d);
        assert forall|i: int| 0 <= i < c.len() implies {
            let a = #[trigger] c[i];
            &&& 0 < a < adj.len()
            &&& dep[a] == dep[d] - i
            &&& ancestor(adj, a, d)
        } by {
            if i > 0 {
                assert(c[i] == chain(adj, p)[i - 1]);
            } else {
                assert(ancestor(adj, d, d));
            }
        }
    }
}

proof fn lemma_roads_count(adj: Seq<Seq<usize>>, delivery: Seq<bool>, k: int)
    ensures
        needed_roads(adj, delivery, k) == count_below(k, |x: int| x != 0 && needed(adj, delivery, x)),
    decreases k,
{
    if k > 0 {
        lemma_roads_count(adj, delivery, k - 1);
    }
}

proof fn lemma_deepest_max(adj: Seq<Seq<usize>>, delivery: Seq<bool>, k: int)
    ensures
        deepest(adj, delivery, k) == max_below(k, |x: int| if delivery[x] { tree_shape(adj).1[x] as int } else { 0 }),
    decreases k,
{
    if k > 0 {
        lemma_deepest_max(adj, delivery, k - 1);
    }
}

proof fn lemma_deepest_attained(adj: Seq<Seq<usize>>, delivery: Seq<bool>, k: int)
    requires
        0 <= k,
    ensures
        deepest(adj, delivery, k) == 0 || exists|d: int| 0 <= d < k && delivery[d] && #[trigger] tree_shape(adj).1[d] == deepest(adj, delivery, k),
        deepest(adj, delivery, k) >= 0,
    decreases k,
{
    if k > 0 {
        lemma_deepest_attained(adj, delivery, k - 1);
        if deepest(adj, delivery, k) != deepest(adj, delivery, k - 1) {
            assert(delivery[k - 1] && tree_shape(adj).1[k - 1] == deepest(adj, delivery, k));
        }
    }
}

/// The deepest delivery point lies no deeper than the number of roads that
/// have to be driven.
proof fn lemma_deepest_roads(adj: Seq<Seq<usize>>, delivery: Seq<bool>)
    requires
        is_tree(adj),
        delivery.len() == adj.len(),
    ensures
        deepest(adj, delivery, adj.len() as int) <= needed_roads(adj, delivery, adj.len() as int),
{
    let n = adj.len() as int;
    lemma_deepest_attained(adj, delivery, n);
    if deepest(adj, delivery, n) != 0 {
        let d = choose|d: int| 0 <= d < n && delivery[d] && #[trigger] tree_shape(adj).1[d] == deepest(adj, delivery, n);
        lemma_chain(adj, d);
        let c = chain(adj, d);
        let p = |x: int| x != 0 && needed(adj, delivery, x);
        assert(c.no_duplicates()) by {
            assert forall|i: int, j: int| 0 <= i < j < c.len() implies c[i] != c[j] by {
                let _ = c[i];
                let _ = c[j];
            }
        }
        assert forall|i: int| 0 <= i < c.len() implies 0 <= #[trigger] c[i] < n && p(c[i]) by {
            let _ = c[i];
            assert(ancestor(adj, c[i], d));
        }
        lemma_count_at_least(c, n, p);
        lemma_roads_count(adj, delivery, n);
    }
}


/// Some child of `x` that comes at position `t` or later of the walk has to
/// be entered.
spec fn child_needed_after(adj: Seq<Seq<usize>>, delivery: Seq<bool>, pos: Seq<int>, x: int, t: int) -> bool {
    exists|c: int| 0 < c < adj.len() && #[trigger] tree_shape(adj).0[c] == x && pos[c] >= t && needed(adj, delivery, c)
}

/// The length of the shortest walk from the depot (node `0`) along the roads
/// `adj` of a tree that passes every node marked in `delivery`.
pub fn plan_route(adj: &Vec<Vec<usize>>, delivery: &Vec<bool>) -> (length: usize)
    requires
        is_tree(adj_view(adj@)),
        delivery@.len() == adj@.len(),
        adj@.len() < usize::MAX / 2,
    ensures
        length == route_length(adj_view(adj@), delivery@),
{
    let ghost av = adj_view(adj@);
    let ghost del = delivery@;
    let n = adj.len();
    let ghost pd = tree_shape(av);
    let ghost par = pd.0;
    let ghost dep = pd.1;
    proof {
        assert(is_rooted_tree(av, par, dep));
        assert(!av[0].contains(0usize)) by {
            if av[0].contains(0usize) {
                let q = choose|q: int| 0 <= q < av[0].len() && av[0][q] == 0usize;
                let _ = av[0][q];
            }
        }
    }
    let (parent, depth, order) = walk_tree(adj, 0);
    let ghost pos = Seq::new(n as nat, |x: int| choose|i: int| 0 <= i < n && order@[i] == x as usize);
    let ghost pn = |x: int| x != 0 && needed(av, del, x);
    let ghost fd = |x: int| if del[x] { dep[x] as int } else { 0 };
    proof {
        assert forall|x: int| 0 <= x < n implies 0 <= #[trigger] pos[x] < n && order@[pos[x]] == x as usize by {
            assert(order@.contains(x as usize));
        }
        assert(order@.skip(n as int) =~= Seq::<usize>::empty());
    }
    let mut has: Vec<bool> = vec![false; n];
    let mut edge_count: usize = 0;
    let mut max_depth: usize = 0;
    let mut t: usize = n;
    while t > 0
        invariant
            n == adj@.len(),
            n < usize::MAX / 2,
            av == adj_view(adj@),
            del == delivery@,
            del.len() == n,
            is_tree(av),
            pd == tree_shape(av),
            par == pd.0,
            dep == pd.1,
            pn == (|x: int| x != 0 && needed(av, del, x)),
            fd == (|x: int| if del[x] { dep[x] as int } else { 0 }),
            is_rooted_tree(av, par, dep),
            parent@.len() == n,
            depth@.len() == n,
            forall|v: int| 0 < v < n ==> #[trigger] parent@[v] as int == par[v],
            forall|v: int| 0 <= v < n ==> #[trigger] depth@[v] as int == dep[v],
            order@.len() == n,
            order@.no_duplicates(),
            forall|i: int| 0 <= i < n ==> #[trigger] order@[i] < n,
            forall|x: int| 0 <= x < n ==> 0 <= #[trigger] pos[x] < n && order@[pos[x]] == x as usize,
            forall|i: int, j: int| 0 <= i < n && 0 <= j < n && order@[i] != 0 && order@[j] as int == par[order@[i] as int] ==> j < i,
            t <= n,
            has@.len() == n,
            forall|x: int| 0 <= x < n && pos[x] >= t ==> #[trigger] has@[x] == needed(av, del, x),
            forall|x: int| 0 <= x < n && pos[x] < t ==> #[trigger] has@[x] == child_needed_after(av, del, pos, x, t as int),
            edge_count == count_in(order@.skip(t as int), pn),
            max_depth == max_in(order@.skip(t as int), fd),
            edge_count <= n - t,
        decreases t,
    {
        t = t - 1;
        let u = order[t];
        proof {
            assert(u < n);
            assert(pos[u as int] == t) by {
                assert(order@[pos[u as int]] == u);
                assert(order@[t as int] == u);
            }
            assert(order@.skip(t as int).drop_first() =~= order@.skip(t + 1));
            assert(order@.skip(t as int)[0] == u);
            lemma_needed_step(av, del, u as int);
            assert(has@[u as int] == child_needed_after(av, del, pos, u as int, t + 1));
            if child_needed_after(av, del, pos, u as int, t + 1) {
                let c = choose|c: int| 0 < c < n && #[trigger] par[c] == u && pos[c] >= t + 1 && needed(av, del, c);
            }
            if exists|c: int| 0 < c < n && #[trigger] par[c] == u as int && needed(av, del, c) {
                let c = choose|c: int| 0 < c < n && #[trigger] par[c] == u as int && needed(av, del, c);
                assert(pos[c] > t) by {
                    assert(0 <= pos[c] < n && order@[pos[c]] == c as usize);
                    assert(order@[pos[u as int]] == u);
                }
                assert(tree_shape(av).0[c] == u as int);
                assert(child_needed_after(av, del, pos, u as int, t + 1));
            }
        }
        if delivery[u] {
            has.set(u, true);
            if depth[u] > max_depth {
                max_depth = depth[u];
            }
        }
        proof {
            assert(has@[u as int] == needed(av, del, u as int));
        }
        if u != 0 && has[u] {
            edge_count = edge_count + 1;
            let p = parent[u];
            proof {
                assert(pos[p as int] < t) by {
                    assert(order@[pos[p as int]] == p);
                    assert(order@[pos[u as int]] == u);
                }
            }
            has.set(p, true);
        }
        proof {
            assert forall|x: int| 0 <= x < n && pos[x] >= t implies #[trigger] has@[x] == needed(av, del, x) by {
                if x != u as int && pos[x] > t {
                }
            }
            assert forall|x: int| 0 <= x < n && pos[x] < t implies #[trigger] has@[x] == child_needed_after(av, del, pos, x, t as int) by {
                if child_needed_after(av, del, pos, x, t as int) && !child_needed_after(av, del, pos, x, t + 1) {
                    let c = choose|c: int| 0 < c < n && #[trigger] par[c] == x && pos[c] >= t && needed(av, del, c);
                    assert(0 <= pos[c] < n && order@[pos[c]] == c as usize);
                    assert(c == u as int);
                }
                if child_needed_after(av, del, pos, x, t + 1) {
                    let c = choose|c: int| 0 < c < n && #[trigger] par[c] == x && pos[c] >= t + 1 && needed(av, del, c);
                    assert(child_needed_after(av, del, pos, x, t as int));
                }
                if x == par[u as int] && u != 0 && needed(av, del, u as int) {
                    assert(child_needed_after(av, del, pos, x, t as int));
                }
            }
        }
    }
    proof {
        assert(order@.skip(0) =~= order@);
        assert(crate::route::permutes(order@, n as int));
        lemma_count_permutes(order@, n as int, pn);
        lemma_max_permutes(order@, n as int, fd);
        lemma_roads_count(av, del, n as int);
        lemma_deepest_max(av, del, n as int);
        lemma_deepest_roads(av, del);
        lemma_deepest_attained(av, del, n as int);
    }
    if edge_count == 0 {
        0
    } else {
        2 * edge_count - max_depth
    }
}

} // verus!
