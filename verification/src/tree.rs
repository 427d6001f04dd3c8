//! Rooted trees given by adjacency lists: the iterative depth-first walk
//! from node `0` that both tree challenges start with.

use vstd::prelude::*;

verus! {

/// `adj` lists the neighbours of each node of a tree rooted at node `0`
/// whose parents are `par` and depths `dep`: each non-root node's parent is
/// one level closer to the root, every listed neighbour of a node is its
/// parent or one of its children, every child is listed by its parent, and no
/// list names a node twice.
pub open spec fn is_rooted_tree(adj: Seq<Seq<usize>>, par: Seq<int>, dep: Seq<nat>) -> bool {
    let n = adj.len();
    &&& n >= 1
    &&& par.len() == n
    &&& dep.len() == n
    &&& dep[0] == 0
    &&& forall|v: int| 0 < v < n ==> 0 <= #[trigger] par[v] < n && dep[v] == dep[par[v]] + 1 && dep[v] < n
    &&& forall|u: int, k: int| 0 <= u < n && 0 <= k < adj[u].len() ==> {
        let v = #[trigger] adj[u][k] as int;
        &&& 0 <= v < n
        &&& (v != 0 && par[v] == u) || (u != 0 && par[u] == v)
    }
    &&& forall|v: int| 0 < v < n ==> #[trigger] adj[par[v]].contains(v as usize)
    &&& forall|u: int, k1: int, k2: int| 0 <= u < n && 0 <= k1 < k2 < adj[u].len() ==> #[trigger] adj[u][k1] != #[trigger] adj[u][k2]
}

/// `adj` lists the neighbours of each node of a tree rooted at node `0`.
pub open spec fn is_tree(adj: Seq<Seq<usize>>) -> bool {
    exists|pd: (Seq<int>, Seq<nat>)| is_rooted_tree(adj, pd.0, pd.1)
}

/// Parents and depths of the tree that `adj` describes.
pub open spec fn tree_shape(adj: Seq<Seq<usize>>) -> (Seq<int>, Seq<nat>) {
    choose|pd: (Seq<int>, Seq<nat>)| is_rooted_tree(adj, pd.0, pd.1)
}

/// The neighbour lists as sequences.
pub open spec fn adj_view(adj: Seq<Vec<usize>>) -> Seq<Seq<usize>> {
    adj.map_values(|l: Vec<usize>| l@)
}

proof fn lemma_len_bound(s: Seq<usize>, n: int)
    requires
        s.no_duplicates(),
        forall|i: int| 0 <= i < s.len() ==> s[i] < n,
        n >= 0,
    ensures
        s.len() <= n,
{
    let m = s.map_values(|x: usize| x as int);
    assert forall|i: int, j: int| 0 <= i < j < m.len() implies m[i] != m[j] by {
        assert(s[i] != s[j]);
    }
    assert(m.no_duplicates());
    m.unique_seq_to_set();
    vstd::set_lib::lemma_int_range(0, n);
    assert(m.to_set().subset_of(vstd::set_lib::set_int_range(0, n))) by {
        assert forall|x: int| m.to_set().contains(x) implies vstd::set_lib::set_int_range(0, n).contains(x) by {
            let i = choose|i: int| 0 <= i < m.len() && m[i] == x;
        }
    }
    vstd::set_lib::lemma_len_subset(m.to_set(), vstd::set_lib::set_int_range(0, n));
}

proof fn lemma_all_in_order(adj: Seq<Seq<usize>>, par: Seq<int>, dep: Seq<nat>, order: Seq<usize>, x: int)
    requires
        adj.len() <= usize::MAX,
        is_rooted_tree(adj, par, dep),
        0 <= x < adj.len(),
        order.contains(0usize),
        forall|u: usize, v: int| #![trigger order.contains(u), par[v]] order.contains(u) && 0 < v < adj.len() && par[v] == u ==> order.contains(v as usize),
    ensures
        order.contains(x as usize),
    decreases dep[x],
{
    if x != 0 {
        let p = par[x];
        lemma_all_in_order(adj, par, dep, order, p);
        assert(order.contains(p as usize));
    }
}

proof fn lemma_cover_len(s: Seq<usize>, n: int)
    requires
        0 <= n <= usize::MAX + 1,
        forall|x: int| 0 <= x < n ==> #[trigger] s.contains(x as usize),
    ensures
        s.len() >= n,
{
    let m = s.map_values(|x: usize| x as int);
    vstd::set_lib::lemma_int_range(0, n);
    assert(vstd::set_lib::set_int_range(0, n).subset_of(m.to_set())) by {
        assert forall|x: int| vstd::set_lib::set_int_range(0, n).contains(x) implies m.to_set().contains(x) by {
            assert(s.contains(x as usize));
            let i = choose|i: int| 0 <= i < s.len() && s[i] == x as usize;
            assert(m[i] == x);
        }
    }
    m.lemma_cardinality_of_set();
    vstd::set_lib::lemma_len_subset(vstd::set_lib::set_int_range(0, n), m.to_set());
}

/// Walks the tree from node `0` depth first, keeping a stack of nodes to
/// visit: returns each node's parent (`root_parent` for the root), its depth
/// and the order of the visits. Every node is visited once, after its parent.
pub fn walk_tree(adj: &Vec<Vec<usize>>, root_parent: usize) -> (res: (Vec<usize>, Vec<usize>, Vec<usize>))
    requires
        is_tree(adj_view(adj@)),
        !adj@[0]@.contains(root_parent),
    ensures
        ({
            let (parent, depth, order) = res;
            let (par, dep) = tree_shape(adj_view(adj@));
            let n = adj@.len();
            &&& parent@.len() == n
            &&& depth@.len() == n
            &&& parent@[0] == root_parent
            &&& forall|v: int| 0 < v < n ==> #[trigger] parent@[v] as int == par[v]
            &&& forall|v: int| 0 <= v < n ==> #[trigger] depth@[v] as int == dep[v]
            &&& order@.len() == n
            &&& order@.no_duplicates()
            &&& forall|i: int| 0 <= i < n ==> #[trigger] order@[i] < n
            &&& forall|x: int| 0 <= x < n ==> #[trigger] order@.contains(x as usize)
            &&& forall|i: int, j: int| 0 <= i < n && 0 <= j < n && order@[i] != 0 && order@[j] as int == par[order@[i] as int] ==> j < i
        }),
{
    let ghost av = adj_view(adj@);
    let ghost pd = tree_shape(av);
    let ghost par = pd.0;
    let ghost dep = pd.1;
    assert(is_rooted_tree(av, par, dep));
    let n = adj.len();
    let mut parent: Vec<usize> = vec![root_parent; n];
    let mut depth: Vec<usize> = vec![0; n];
    let mut order: Vec<usize> = Vec::new();
    let mut stack: Vec<usize> = Vec::new();
    stack.push(0);
    proof {
        assert((order@ + stack@) =~= seq![0usize]);
        assert((order@ + stack@)[0] == 0usize);
    }
    while stack.len() > 0
        invariant
            n == adj@.len(),
            av == adj_view(adj@),
            is_rooted_tree(av, par, dep),
            !av[0].contains(root_parent),
            parent@.len() == n,
            depth@.len() == n,
            parent@[0] == root_parent,
            (order@ + stack@).no_duplicates(),
            forall|i: int| 0 <= i < (order@ + stack@).len() ==> #[trigger] (order@ + stack@)[i] < n,
            (order@ + stack@).contains(0usize),
            forall|x: usize| #[trigger] (order@ + stack@).contains(x) && x != 0 ==> parent@[x as int] as int == par[x as int] && order@.contains(par[x as int] as usize),
            forall|x: usize| #[trigger] (order@ + stack@).contains(x) ==> depth@[x as int] as int == dep[x as int],
            forall|u: usize, v: int| #![trigger order@.contains(u), par[v]] order@.contains(u) && 0 < v < n && par[v] == u ==> (order@ + stack@).contains(v as usize),
            forall|i: int, j: int| 0 <= i < order@.len() && 0 <= j < order@.len() && order@[i] != 0 && order@[j] as int == par[order@[i] as int] ==> j < i,
        decreases n - order@.len(),
    {
        proof {
            lemma_len_bound(order@ + stack@, n as int);
        }
        let ghost w_before = order@ + stack@;
        let ghost stack_before = stack@;
        let u = stack.pop().unwrap();
        let ghost order0 = order@;
        let ghost stack0 = stack@;
        let ghost vis0 = order0 + stack0.push(u);
        proof {
            assert(stack_before =~= stack0.push(u));
            assert(w_before =~= vis0);
            assert(vis0 =~= (order0 + stack0).push(u));
            assert(vis0[vis0.len() - 1] == u);
            assert(vis0.contains(u));
            assert(!order0.contains(u)) by {
                if order0.contains(u) {
                    let i = choose|i: int| 0 <= i < order0.len() && order0[i] == u;
                    assert(vis0[i] == vis0[vis0.len() - 1]);
                }
            }
        }
        order.push(u);
        proof {
            assert(order@[order0.len() as int] == u);
            assert(order@ + stack@ =~= order0.push(u) + stack0);
            assert forall|x: usize| (order@ + stack@).contains(x) <==> vis0.contains(x) by {
                if vis0.contains(x) {
                    let i = choose|i: int| 0 <= i < vis0.len() && vis0[i] == x;
                    if i < order0.len() {
                        assert((order@ + stack@)[i] == x);
                    } else if i < order0.len() + stack0.len() {
                        assert((order@ + stack@)[i + 1] == x);
                    } else {
                        assert((order@ + stack@)[order0.len() as int] == x);
                    }
                }
                if (order@ + stack@).contains(x) {
                    let i = choose|i: int| 0 <= i < (order@ + stack@).len() && (order@ + stack@)[i] == x;
                    if i < order0.len() {
                        assert(vis0[i] == x);
                    } else if i == order0.len() {
                        assert(vis0[vis0.len() - 1] == x);
                    } else {
                        assert(vis0[i - 1] == x);
                    }
                }
            }
            assert((order@ + stack@).no_duplicates()) by {
                assert forall|i: int, j: int| 0 <= i < j < (order@ + stack@).len() implies (order@ + stack@)[i] != (order@ + stack@)[j] by {
                    let w = order@ + stack@;
                    let mi = if i < order0.len() { i } else if i == order0.len() { vis0.len() - 1 } else { i - 1 };
                    let mj = if j < order0.len() { j } else if j == order0.len() { vis0.len() - 1 } else { j - 1 };
                    assert(w[i] == vis0[mi]);
                    assert(w[j] == vis0[mj]);
                }
            }
            assert forall|x: usize| #[trigger] (order@ + stack@).contains(x) && x != 0 implies parent@[x as int] as int == par[x as int] && order@.contains(par[x as int] as usize) by {
                assert(vis0.contains(x));
                assert(w_before.contains(x));
                assert(order0.contains(par[x as int] as usize));
                let q = choose|q: int| 0 <= q < order0.len() && order0[q] == par[x as int] as usize;
                assert(order@[q] == order0[q]);
            }
            assert forall|q: int| 0 <= q < av[u as int].len() && #[trigger] av[u as int][q] != 0 && par[av[u as int][q] as int] == u implies !(order@ + stack@).contains(av[u as int][q]) by {
                let v = av[u as int][q];
                if (order@ + stack@).contains(v) {
                    assert(vis0.contains(v));
                    assert(w_before.contains(v));
                    assert(order0.contains(par[v as int] as usize));
                }
            }
            assert forall|x: usize| #[trigger] (order@ + stack@).contains(x) implies depth@[x as int] as int == dep[x as int] by {
                assert(vis0.contains(x));
                assert(w_before.contains(x));
            }
            assert forall|i: int| 0 <= i < (order@ + stack@).len() implies #[trigger] (order@ + stack@)[i] < n by {
                let w = order@ + stack@;
                let mi = if i < order0.len() { i } else if i == order0.len() { vis0.len() - 1 } else { i - 1 };
                assert(w[i] == vis0[mi]);
                assert(w_before[mi] < n);
            }
            assert forall|i: int, j: int| 0 <= i < order@.len() && 0 <= j < order@.len() && order@[i] != 0 && order@[j] as int == par[order@[i] as int] implies j < i by {
                if i == order0.len() {
                    if j == i {
                        assert(dep[u as int] == dep[par[u as int]] + 1);
                    }
                } else if j == order0.len() {
                    let x = order@[i];
                    assert(order0[i] == x);
                    assert(vis0[i] == x);
                    assert(vis0.contains(x));
                    assert(order@.contains(par[x as int] as usize));
                    assert(order0.contains(par[x as int] as usize)) by {
                        let q = choose|q: int| 0 <= q < order0.len() && order0[q] == x;
                        assert(vis0[q] == x);
                    }
                }
            }
        }
        let mut k: usize = 0;
        while k < adj[u].len()
            invariant
                n == adj@.len(),
                av == adj_view(adj@),
                is_rooted_tree(av, par, dep),
                !av[0].contains(root_parent),
                u < n,
                parent@.len() == n,
                depth@.len() == n,
                parent@[0] == root_parent,
                u != 0 ==> parent@[u as int] as int == par[u as int],
                depth@[u as int] as int == dep[u as int],
                order@ == order0.push(u),
                order@.contains(u),
                !order0.contains(u),
                k <= av[u as int].len(),
                (order@ + stack@).no_duplicates(),
                forall|i: int| 0 <= i < (order@ + stack@).len() ==> #[trigger] (order@ + stack@)[i] < n,
                (order@ + stack@).contains(0usize),
                forall|x: usize| #[trigger] (order@ + stack@).contains(x) && x != 0 ==> parent@[x as int] as int == par[x as int] && order@.contains(par[x as int] as usize),
                forall|x: usize| #[trigger] (order@ + stack@).contains(x) ==> depth@[x as int] as int == dep[x as int],
                forall|w: usize, v: int| #![trigger order0.contains(w), par[v]] order0.contains(w) && 0 < v < n && par[v] == w ==> (order@ + stack@).contains(v as usize),
                forall|q: int| 0 <= q < k && #[trigger] av[u as int][q] != 0 && par[av[u as int][q] as int] == u ==> (order@ + stack@).contains(av[u as int][q]),
                forall|q: int| k <= q < av[u as int].len() && #[trigger] av[u as int][q] != 0 && par[av[u as int][q] as int] == u ==> !(order@ + stack@).contains(av[u as int][q]),
                forall|i: int, j: int| 0 <= i < order@.len() && 0 <= j < order@.len() && order@[i] != 0 && order@[j] as int == par[order@[i] as int] ==> j < i,
            decreases av[u as int].len() - k,
        {
            let v = adj[u][k];
            proof {
                assert(av[u as int][k as int] == v);
                let _ = av[u as int][k as int];
                if v != 0 && par[v as int] == u && u != 0 && par[u as int] == v {
                    assert(dep[v as int] == dep[u as int] + 1);
                    assert(dep[u as int] == dep[v as int] + 1);
                }
                if u == 0 {
                    assert(av[0].contains(v));
                }
            }
            if v != parent[u] {
                proof {
                    assert(v != 0 && par[v as int] == u);
                    assert(!(order@ + stack@).contains(v));
                    assert(dep[v as int] == dep[u as int] + 1);
                }
                let ghost w0 = order@ + stack@;
                parent.set(v, u);
                let du = depth[u];
                depth.set(v, du + 1);
                stack.push(v);
                proof {
                    let w1 = order@ + stack@;
                    assert(w1 =~= w0.push(v));
                    assert forall|x: usize| w1.contains(x) <==> (w0.contains(x) || x == v) by {
                        if w1.contains(x) {
                            let i = choose|i: int| 0 <= i < w1.len() && w1[i] == x;
                            if i < w0.len() {
                                assert(w0[i] == x);
                            }
                        }
                        if w0.contains(x) {
                            let i = choose|i: int| 0 <= i < w0.len() && w0[i] == x;
                            assert(w1[i] == x);
                        }
                        if x == v {
                            assert(w1[w0.len() as int] == x);
                        }
                    }
                    assert(w1.no_duplicates()) by {
                        assert forall|i: int, j: int| 0 <= i < j < w1.len() implies w1[i] != w1[j] by {
                            if j == w0.len() {
                                assert(w0.contains(w1[i]));
                            }
                        }
                    }
                    assert forall|q: int| k + 1 <= q < av[u as int].len() && #[trigger] av[u as int][q] != 0 && par[av[u as int][q] as int] == u implies !w1.contains(av[u as int][q]) by {
                        assert(av[u as int][k as int] != av[u as int][q]);
                    }
                }
            }
            k = k + 1;
        }
        proof {
            assert forall|w: usize, v: int| #![trigger order@.contains(w), par[v]] order@.contains(w) && 0 < v < n && par[v] == w implies (order@ + stack@).contains(v as usize) by {
                if w == u {
                    assert(av[par[v] as int].contains(v as usize));
                    let q = choose|q: int| 0 <= q < av[u as int].len() && av[u as int][q] == v as usize;
                    assert(av[u as int][q] != 0);
                } else {
                    let q = choose|q: int| 0 <= q < order@.len() && order@[q] == w;
                    assert(q < order0.len());
                    assert(order0[q] == w);
                    assert(order0.contains(w));
                }
            }
        }
    }
    proof {
        assert(order@ + stack@ =~= order@);
        assert forall|x: int| 0 <= x < n implies #[trigger] order@.contains(x as usize) by {
            lemma_all_in_order(av, par, dep, order@, x);
        }
        lemma_len_bound(order@, n as int);
        assert(order@.len() >= n) by {
            lemma_cover_len(order@, n as int);
        }
        assert forall|v: int| 0 < v < n implies #[trigger] parent@[v] as int == par[v] by {
            assert(order@.contains(v as usize));
        }
        assert forall|v: int| 0 <= v < n implies #[trigger] depth@[v] as int == dep[v] by {
            assert(order@.contains(v as usize));
        }
    }
    (parent, depth, order)
}

/// With every neighbour of a visited node visited and the root visited,
/// every node of the tree is visited.
proof fn lemma_all_visited(adj: Seq<Seq<usize>>, par: Seq<int>, dep: Seq<nat>, visited: Seq<bool>, x: int)
    requires
        adj.len() <= usize::MAX,
        is_rooted_tree(adj, par, dep),
        visited.len() == adj.len(),
        visited[0],
        forall|u: int, k: int| 0 <= u < adj.len() && visited[u] && 0 <= k < adj[u].len() ==> visited[#[trigger] adj[u][k] as int],
        0 <= x < adj.len(),
    ensures
        visited[x],
    decreases dep[x],
{
    if x != 0 {
        let p = par[x];
        lemma_all_visited(adj, par, dep, visited, p);
        assert(adj[p].contains(x as usize));
        let k = choose|k: int| 0 <= k < adj[p].len() && adj[p][k] == x as usize;
        assert(visited[adj[p][k] as int]);
    }
}

/// Whether `adj` lists the neighbours of each node of a tree rooted at node
/// `0`, each neighbour once.
pub fn check_tree(adj: &Vec<Vec<usize>>) -> (ok: bool)
    ensures
        ok == is_tree(adj_view(adj@)),
{
    let ghost av = adj_view(adj@);
    let n = adj.len();
    if n == 0 {
        proof {
            if is_tree(av) {
                let pd = tree_shape(av);
                assert(is_rooted_tree(av, pd.0, pd.1));
            }
        }
        return false;
    }
    let ghost pd = tree_shape(av);
    // every listed neighbour is a node
    let mut u: usize = 0;
    while u < n
        invariant
            n == adj@.len(),
            av == adj_view(adj@),
            pd == tree_shape(av),
            u <= n,
            forall|x: int, k: int| 0 <= x < u && 0 <= k < av[x].len() ==> #[trigger] av[x][k] < n,
        decreases n - u,
    {
        let mut k: usize = 0;
        assert(av[u as int] == adj@[u as int]@);
        while k < adj[u].len()
            invariant
                n == adj@.len(),
                av == adj_view(adj@),
                pd == tree_shape(av),
                u < n,
                av[u as int] == adj@[u as int]@,
                k <= av[u as int].len(),
                forall|x: int, k2: int| 0 <= x < u && 0 <= k2 < av[x].len() ==> #[trigger] av[x][k2] < n,
                forall|k2: int| 0 <= k2 < k ==> #[trigger] av[u as int][k2] < n,
            decreases av[u as int].len() - k,
        {
            if adj[u][k] >= n {
                proof {
                    if is_tree(av) {
                        assert(is_rooted_tree(av, pd.0, pd.1));
                        assert(av[u as int][k as int] < n);
                    }
                }
                return false;
            }
            k = k + 1;
        }
        u = u + 1;
    }
    // breadth-first search from node 0
    let mut visited: Vec<bool> = vec![false; n];
    let mut par: Vec<usize> = vec![0; n];
    let mut dep: Vec<usize> = vec![0; n];
    let mut order: Vec<usize> = Vec::new();
    visited.set(0, true);
    order.push(0);
    let mut ptr: usize = 0;
    proof {
        assert(order@.contains(0usize)) by {
            assert(order@[0] == 0usize);
        }
        assert forall|x: int| 0 <= x < n implies (#[trigger] visited@[x] <==> order@.contains(x as usize)) by {
            if order@.contains(x as usize) {
                let i = choose|i: int| 0 <= i < order@.len() && order@[i] == x as usize;
                assert(i == 0);
            }
        }
    }
    while ptr < order.len()
        invariant
            n == adj@.len(),
            n >= 1,
            av == adj_view(adj@),
            pd == tree_shape(av),
            forall|x: int, k: int| 0 <= x < n && 0 <= k < av[x].len() ==> #[trigger] av[x][k] < n,
            visited@.len() == n,
            par@.len() == n,
            dep@.len() == n,
            ptr <= order@.len() <= n,
            order@.no_duplicates(),
            forall|i: int| 0 <= i < order@.len() ==> #[trigger] order@[i] < n,
            forall|x: int| 0 <= x < n ==> (#[trigger] visited@[x] <==> order@.contains(x as usize)),
            visited@[0],
            dep@[0] == 0,
            forall|i: int| 0 <= i < order@.len() ==> #[trigger] dep@[order@[i] as int] <= i,
            forall|x: int| 0 < x < n && #[trigger] visited@[x] ==> par@[x] < n && visited@[par@[x] as int]
                && dep@[x] == dep@[par@[x] as int] + 1 && av[par@[x] as int].contains(x as usize),
            forall|i: int, k: int| 0 <= i < ptr && 0 <= k < av[order@[i] as int].len() ==> #[trigger] visited@[av[order@[i] as int][k] as int],
            is_tree(av) ==> forall|x: int| 0 < x < n && #[trigger] visited@[x] ==> par@[x] as int == pd.0[x] && dep@[x] as int == pd.1[x],
        decreases n - ptr,
    {
        let u = order[ptr];
        assert(av[u as int] == adj@[u as int]@);
        assert(visited@[u as int]) by {
            assert(order@.contains(u));
        }
        let mut k: usize = 0;
        while k < adj[u].len()
            invariant
                n == adj@.len(),
                n >= 1,
                av == adj_view(adj@),
                pd == tree_shape(av),
                forall|x: int, k: int| 0 <= x < n && 0 <= k < av[x].len() ==> #[trigger] av[x][k] < n,
                u < n,
                av[u as int] == adj@[u as int]@,
                visited@[u as int],
                u == order@[ptr as int],
                k <= av[u as int].len(),
                visited@.len() == n,
                par@.len() == n,
                dep@.len() == n,
                ptr < order@.len() <= n,
                order@.no_duplicates(),
                forall|i: int| 0 <= i < order@.len() ==> #[trigger] order@[i] < n,
                forall|x: int| 0 <= x < n ==> (#[trigger] visited@[x] <==> order@.contains(x as usize)),
                visited@[0],
                dep@[0] == 0,
                forall|i: int| 0 <= i < order@.len() ==> #[trigger] dep@[order@[i] as int] <= i,
                forall|x: int| 0 < x < n && #[trigger] visited@[x] ==> par@[x] < n && visited@[par@[x] as int]
                    && dep@[x] == dep@[par@[x] as int] + 1 && av[par@[x] as int].contains(x as usize),
                forall|i: int, k2: int| 0 <= i < ptr && 0 <= k2 < av[order@[i] as int].len() ==> #[trigger] visited@[av[order@[i] as int][k2] as int],
                forall|k2: int| 0 <= k2 < k ==> #[trigger] visited@[av[u as int][k2] as int],
                is_tree(av) ==> forall|x: int| 0 < x < n && #[trigger] visited@[x] ==> par@[x] as int == pd.0[x] && dep@[x] as int == pd.1[x],
            decreases av[u as int].len() - k,
        {
            let v = adj[u][k];
            assert(v == av[u as int][k as int]);
            assert(v < n);
            if !visited[v] {
                proof {
                    assert(dep@[u as int] <= ptr);
                    if is_tree(av) {
                        assert(is_rooted_tree(av, pd.0, pd.1));
                        assert(v != 0);
                        if u != 0 && pd.0[u as int] == v as int {
                            assert(par@[u as int] as int == pd.0[u as int]);
                            assert(visited@[par@[u as int] as int]);
                        }
                        assert(pd.0[v as int] == u as int);
                    }
                }
                let ghost old_order = order@;
                let ghost old_visited = visited@;
                let ghost old_par = par@;
                let ghost old_dep = dep@;
                visited.set(v, true);
                par.set(v, u);
                let du = dep[u];
                dep.set(v, du + 1);
                order.push(v);
                proof {
                    assert(av[u as int].contains(v)) by {
                        assert(av[u as int][k as int] == v);
                    }
                    assert(order@[old_order.len() as int] == v);
                    assert forall|x: int| 0 <= x < n implies (#[trigger] visited@[x] <==> order@.contains(x as usize)) by {
                        if x == v as int {
                            assert(order@.contains(v));
                        } else {
                            assert(visited@[x] == old_visited[x]);
                            if old_order.contains(x as usize) {
                                let i = choose|i: int| 0 <= i < old_order.len() && old_order[i] == x as usize;
                                assert(order@[i] == x as usize);
                            }
                            if order@.contains(x as usize) {
                                let i = choose|i: int| 0 <= i < order@.len() && order@[i] == x as usize;
                                assert(i < old_order.len());
                                assert(old_order[i] == x as usize);
                            }
                        }
                    }
                    assert(!old_order.contains(v));
                    assert(order@.no_duplicates()) by {
                        assert forall|i: int, j: int| 0 <= i < j < order@.len() implies order@[i] != order@[j] by {
                            if j == old_order.len() {
                                assert(old_order.contains(order@[i]) ==> order@[i] != v);
                                assert(order@[i] == old_order[i]);
                            } else {
                                assert(order@[i] == old_order[i] && order@[j] == old_order[j]);
                            }
                        }
                    }
                    assert forall|i: int| 0 <= i < order@.len() implies #[trigger] order@[i] < n by {
                        if i < old_order.len() {
                            assert(order@[i] == old_order[i]);
                        }
                    }
                    lemma_len_bound(order@, n as int);
                    assert forall|i: int| 0 <= i < order@.len() implies #[trigger] dep@[order@[i] as int] <= i by {
                        if i < old_order.len() {
                            assert(order@[i] == old_order[i]);
                            assert(old_order[i] != v) by {
                                assert(old_order.contains(old_order[i]));
                            }
                        }
                    }
                    assert forall|x: int| 0 < x < n && #[trigger] visited@[x] implies par@[x] < n && visited@[par@[x] as int]
                        && dep@[x] == dep@[par@[x] as int] + 1 && av[par@[x] as int].contains(x as usize) by {
                        if x != v as int {
                            assert(old_visited[x]);
                            assert(old_visited[old_par[x] as int]);
                            assert(old_par[x] as int != v as int);
                        }
                    }
                    assert forall|i: int, k2: int| 0 <= i < ptr && 0 <= k2 < av[order@[i] as int].len() implies #[trigger] visited@[av[order@[i] as int][k2] as int] by {
                        assert(order@[i] == old_order[i]);
                        assert(old_visited[av[old_order[i] as int][k2] as int]);
                    }
                    assert forall|k2: int| 0 <= k2 < k + 1 implies #[trigger] visited@[av[u as int][k2] as int] by {
                        if k2 < k {
                            assert(old_visited[av[u as int][k2] as int]);
                        }
                    }
                    if is_tree(av) {
                        assert(is_rooted_tree(av, pd.0, pd.1));
                        assert forall|x: int| 0 < x < n && #[trigger] visited@[x] implies par@[x] as int == pd.0[x] && dep@[x] as int == pd.1[x] by {
                            if x != v as int {
                                assert(old_visited[x]);
                            } else {
                                if u != 0 {
                                    assert(old_visited[u as int]);
                                }
                            }
                        }
                    }
                }
            }
            k = k + 1;
        }
        ptr = ptr + 1;
    }
    proof {
        if is_tree(av) {
            assert(is_rooted_tree(av, pd.0, pd.1));
            assert forall|x: int, k: int| 0 <= x < n && visited@[x] && 0 <= k < av[x].len() implies visited@[#[trigger] av[x][k] as int] by {
                assert(order@.contains(x as usize));
                let i = choose|i: int| 0 <= i < order@.len() && order@[i] == x as usize;
                assert(visited@[av[order@[i] as int][k] as int]);
            }
            assert forall|x: int| 0 <= x < n implies #[trigger] visited@[x] by {
                lemma_all_visited(av, pd.0, pd.1, visited@, x);
            }
        }
    }
    // every node is reached
    let mut x: usize = 0;
    while x < n
        invariant
            n == visited@.len(),
            av == adj_view(adj@),
            x <= n,
            forall|y: int| 0 <= y < x ==> #[trigger] visited@[y],
            is_tree(av) ==> forall|y: int| 0 <= y < n ==> #[trigger] visited@[y],
        decreases n - x,
    {
        if !visited[x] {
            return false;
        }
        x = x + 1;
    }
    // every listed pair is a parent and a child, and no list repeats a node
    let mut mark: Vec<usize> = vec![n; n];
    let mut u: usize = 0;
    while u < n
        invariant
            n == adj@.len(),
            n >= 1,
            av == adj_view(adj@),
            pd == tree_shape(av),
            forall|x: int, k: int| 0 <= x < n && 0 <= k < av[x].len() ==> #[trigger] av[x][k] < n,
            forall|y: int| 0 <= y < n ==> #[trigger] visited@[y],
            visited@.len() == n,
            par@.len() == n,
            mark@.len() == n,
            u <= n,
            forall|y: int| 0 <= y < n ==> #[trigger] mark@[y] < u || mark@[y] == n,
            forall|x: int, k: int| 0 <= x < u && 0 <= k < av[x].len() ==> {
                let v = #[trigger] av[x][k] as int;
                (v != 0 && par@[v] as int == x) || (x != 0 && par@[x] as int == v)
            },
            forall|x: int, k1: int, k2: int| 0 <= x < u && 0 <= k1 < k2 < av[x].len() ==> #[trigger] av[x][k1] != #[trigger] av[x][k2],
            is_tree(av) ==> forall|x: int| 0 < x < n && #[trigger] visited@[x] ==> par@[x] as int == pd.0[x] && dep@[x] as int == pd.1[x],
        decreases n - u,
    {
        assert(av[u as int] == adj@[u as int]@);
        let mut k: usize = 0;
        while k < adj[u].len()
            invariant
                n == adj@.len(),
                n >= 1,
                av == adj_view(adj@),
                pd == tree_shape(av),
                forall|x: int, k: int| 0 <= x < n && 0 <= k < av[x].len() ==> #[trigger] av[x][k] < n,
                forall|y: int| 0 <= y < n ==> #[trigger] visited@[y],
                visited@.len() == n,
                par@.len() == n,
                mark@.len() == n,
                u < n,
                av[u as int] == adj@[u as int]@,
                k <= av[u as int].len(),
                forall|y: int| 0 <= y < n ==> #[trigger] mark@[y] < u || mark@[y] == n || mark@[y] == u,
                forall|y: int| 0 <= y < n && #[trigger] mark@[y] == u ==> exists|k2: int| 0 <= k2 < k && av[u as int][k2] as int == y,
                forall|k2: int| 0 <= k2 < k ==> #[trigger] mark@[av[u as int][k2] as int] == u,
                forall|x: int, k2: int| 0 <= x < u && 0 <= k2 < av[x].len() ==> {
                    let v = #[trigger] av[x][k2] as int;
                    (v != 0 && par@[v] as int == x) || (x != 0 && par@[x] as int == v)
                },
                forall|k2: int| 0 <= k2 < k ==> {
                    let v = #[trigger] av[u as int][k2] as int;
                    (v != 0 && par@[v] as int == u) || (u != 0 && par@[u as int] as int == v)
                },
                forall|x: int, k1: int, k2: int| 0 <= x < u && 0 <= k1 < k2 < av[x].len() ==> #[trigger] av[x][k1] != #[trigger] av[x][k2],
                forall|k1: int, k2: int| 0 <= k1 < k2 < k ==> #[trigger] av[u as int][k1] != #[trigger] av[u as int][k2],
                is_tree(av) ==> forall|x: int| 0 < x < n && #[trigger] visited@[x] ==> par@[x] as int == pd.0[x] && dep@[x] as int == pd.1[x],
            decreases av[u as int].len() - k,
        {
            let v = adj[u][k];
            assert(v == av[u as int][k as int]);
            if !((v != 0 && par[v] == u) || (u != 0 && par[u] == v)) {
                proof {
                    if is_tree(av) {
                        assert(is_rooted_tree(av, pd.0, pd.1));
                        assert(visited@[v as int]);
                        assert(visited@[u as int]);
                    }
                }
                return false;
            }
            if mark[v] == u {
                proof {
                    let k2 = choose|k2: int| 0 <= k2 < k && av[u as int][k2] as int == v as int;
                    if is_tree(av) {
                        assert(is_rooted_tree(av, pd.0, pd.1));
                        assert(av[u as int][k2] == av[u as int][k as int]);
                    }
                }
                return false;
            }
            let ghost old_mark = mark@;
            mark.set(v, u);
            proof {
                assert forall|y: int| 0 <= y < n && #[trigger] mark@[y] == u implies exists|k2: int| 0 <= k2 < k + 1 && av[u as int][k2] as int == y by {
                    if y == v as int {
                        assert(av[u as int][k as int] as int == y);
                    } else {
                        assert(old_mark[y] == u);
                        let k2 = choose|k2: int| 0 <= k2 < k && av[u as int][k2] as int == y;
                        assert(av[u as int][k2] as int == y);
                    }
                }
                assert forall|k2: int| 0 <= k2 < k + 1 implies #[trigger] mark@[av[u as int][k2] as int] == u by {
                    if k2 < k && av[u as int][k2] != v {
                        assert(old_mark[av[u as int][k2] as int] == u);
                    }
                }
                assert forall|k1: int, k2: int| 0 <= k1 < k2 < k + 1 implies #[trigger] av[u as int][k1] != #[trigger] av[u as int][k2] by {
                    if k2 == k {
                        assert(old_mark[av[u as int][k1] as int] == u);
                    }
                }
            }
            k = k + 1;
        }
        u = u + 1;
    }
    proof {
        let pi = Seq::new(n as nat, |i: int| par@[i] as int);
        let dn = Seq::new(n as nat, |i: int| dep@[i] as nat);
        assert forall|v: int| 0 < v < n implies 0 <= #[trigger] pi[v] < n && dn[v] == dn[pi[v]] + 1 && dn[v] < n by {
            assert(visited@[v]);
            assert(order@.contains(v as usize));
            let i = choose|i: int| 0 <= i < order@.len() && order@[i] == v as usize;
            assert(dep@[order@[i] as int] <= i);
        }
        assert forall|v: int| 0 < v < n implies #[trigger] av[pi[v]].contains(v as usize) by {
            assert(visited@[v]);
        }
        assert forall|uu: int, k: int| 0 <= uu < n && 0 <= k < av[uu].len() implies {
            let v = #[trigger] av[uu][k] as int;
            &&& 0 <= v < n
            &&& (v != 0 && pi[v] == uu) || (uu != 0 && pi[uu] == v)
        } by {
            let v = av[uu][k] as int;
            assert(v < n);
        }
        assert(is_rooted_tree(av, pi, dn));
        assert(is_rooted_tree(av, (pi, dn).0, (pi, dn).1));
    }
    true
}

} // verus!
