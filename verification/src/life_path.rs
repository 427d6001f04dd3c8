//! Optimal life path: the best value of a downward path through a rooted
//! tree when up to `m` of its inner nodes may be left out.

use vstd::prelude::*;
use crate::tree::{is_tree, tree_shape, adj_view, walk_tree};

verus! {

/// A rooted tree with one value per node, and the number `m` of inner nodes
/// that a path may leave out.
pub struct Solver {
    /// The number of nodes that a path may leave out.
    pub m: usize,
    /// The neighbours of each node.
    pub adj: Vec<Vec<u32>>,
    /// The parent of each node (a non-node for the root).
    pub parent: Vec<usize>,
    /// A child of each node, or `usize::MAX` for a leaf.
    pub heavy: Vec<usize>,
    /// The value of each node.
    pub value: Vec<i32>,
}

/// The larger of two integers.
pub open spec fn max_int(x: int, y: int) -> int {
    if x >= y { x } else { y }
}

/// The larger of an optional maximum and a value.
pub open spec fn max_opt(x: Option<int>, y: int) -> int {
    match x {
        Some(v) => max_int(v, y),
        None => y,
    }
}

impl Solver {
    /// The number of nodes.
    pub open spec fn n(&self) -> int {
        self.value@.len() as int
    }

    /// `adj[u][k]` is a child of `u`: a neighbour other than its parent.
    pub open spec fn is_child_entry(&self, u: int, k: int) -> bool {
        0 <= u < self.n() && 0 <= k < self.adj@[u]@.len() && self.adj@[u]@[k] as int != self.parent@[u] as int
    }

    /// `r` ranks the nodes so that every child ranks below its parent.
    pub open spec fn ranked(&self, r: Seq<nat>) -> bool {
        &&& r.len() == self.n()
        &&& forall|u: int, k: int| #[trigger] self.is_child_entry(u, k) ==> self.adj@[u]@[k] < self.n() && r[self.adj@[u]@[k] as int] < r[u]
    }

    /// A ranking of the nodes, where one exists.
    pub open spec fn rank(&self) -> Seq<nat> {
        choose|r: Seq<nat>| self.ranked(r)
    }

    /// The data describes a rooted tree (more generally, children always rank
    /// below their parents) and `heavy` names a child of each inner node.
    pub open spec fn wf(&self) -> bool {
        &&& self.adj@.len() == self.n()
        &&& self.parent@.len() == self.n()
        &&& self.heavy@.len() == self.n()
        &&& self.m < usize::MAX
        &&& exists|r: Seq<nat>| self.ranked(r)
        &&& forall|u: int| 0 <= u < self.n() ==> {
            &&& #[trigger] self.heavy@[u] == usize::MAX ==> forall|k: int| 0 <= k < self.adj@[u]@.len() ==> !self.is_child_entry(u, k)
            &&& self.heavy@[u] != usize::MAX ==> exists|k: int| #[trigger] self.is_child_entry(u, k) && self.adj@[u]@[k] as int == self.heavy@[u] as int
        }
    }

    /// The best value of a downward path from `u` to a leaf that leaves out
    /// at most `s` of its nodes other than the leaf.
    pub open spec fn best(&self, u: int, s: int) -> int
        decreases self.rank()[u], 1int, 0int,
        when self.wf() && 0 <= u < self.n()
    {
        match self.fold(u, s, self.adj@[u]@.len() as int, -1) {
            Some(x) => self.value@[u] + x,
            None => self.value@[u] as int,
        }
    }

    /// The best continuation below `u` through its child `c`, before `u`'s
    /// own value is added: keep `u`, or leave `u` out and spend one of `s`.
    pub open spec fn through(&self, u: int, c: int, s: int) -> int
        decreases self.rank()[c], 1int, 1int,
        when self.wf() && 0 <= c < self.n() && 0 <= u < self.n()
    {
        if s >= 1 {
            max_int(self.best(c, s), self.best(c, s - 1) - self.value@[u])
        } else {
            self.best(c, s)
        }
    }

    /// The largest `through(u, c, s)` over the children `c` among the first
    /// `k` neighbours of `u`, other than `excl`.
    pub open spec fn fold(&self, u: int, s: int, k: int, excl: int) -> Option<int>
        decreases self.rank()[u], 0int, k,
        when self.wf() && 0 <= u < self.n() && k <= self.adj@[u]@.len()
    {
        if k <= 0 {
            None
        } else {
            let prev = self.fold(u, s, k - 1, excl);
            let c = self.adj@[u]@[k - 1] as int;
            if !self.is_child_entry(u, k - 1) || c == excl {
                prev
            } else {
                Some(max_opt(prev, self.through(u, c, s)))
            }
        }
    }
}


impl Solver {
    /// `x` lies in the subtree of `u`: it is `u` or lies in the subtree of a
    /// child of `u`.
    pub open spec fn in_subtree(&self, u: int, x: int) -> bool
        decreases self.rank()[u],
        when self.wf() && 0 <= u < self.n()
    {
        x == u || exists|k: int| #[trigger] self.is_child_entry(u, k) && self.in_subtree(self.adj@[u]@[k] as int, x)
    }

    /// The values that the search computes at `u` fit in an `i32`: the best
    /// values from `u`, and those from its children less `u`'s value.
    pub open spec fn fits_at(&self, u: int) -> bool {
        &&& forall|s: int| 0 <= s <= self.m ==> i32::MIN <= #[trigger] self.best(u, s) <= i32::MAX
        &&& forall|k: int, s: int| #[trigger] self.is_child_entry(u, k) && 0 <= s < self.m ==> i32::MIN <= #[trigger] self.best(self.adj@[u]@[k] as int, s) - self.value@[u] <= i32::MAX
    }

    /// Every value that the search from `u` computes fits in an `i32`.
    pub open spec fn fits_below(&self, u: int) -> bool {
        forall|x: int| #[trigger] self.in_subtree(u, x) ==> self.fits_at(x)
    }

    proof fn lemma_fold_excl(&self, u: int, s: int, k: int, h: int)
        requires
            self.wf(),
            0 <= u < self.n(),
            0 <= k <= self.adj@[u]@.len(),
            h >= 0,
        ensures
            self.fold(u, s, k, -1) == (if exists|kk: int| 0 <= kk < k && #[trigger] self.is_child_entry(u, kk) && self.adj@[u]@[kk] as int == h {
                Some(max_opt(self.fold(u, s, k, h), self.through(u, h, s)))
            } else {
                self.fold(u, s, k, h)
            }),
        decreases k,
    {
        if k > 0 {
            self.lemma_fold_excl(u, s, k - 1, h);
            if self.is_child_entry(u, k - 1) && self.adj@[u]@[k - 1] as int == h {
                assert(self.is_child_entry(u, k - 1));
            }
        }
    }

    /// The best values of the downward paths from `u`, for each number
    /// `0..=m` of nodes that may be left out.
    pub fn dfs(&self, u: usize) -> (res: Vec<i32>)
        requires
            u < self.n(),
            u < self.heavy@.len(),
            self.m < usize::MAX,
            self.heavy@[u as int] != usize::MAX ==> self.wf() && self.fits_below(u as int),
        ensures
            res@.len() == self.m + 1,
            self.heavy@[u as int] == usize::MAX ==> forall|s: int| 0 <= s <= self.m ==> #[trigger] res@[s] == self.value@[u as int],
            self.wf() && self.fits_below(u as int) ==> forall|s: int| 0 <= s <= self.m ==> #[trigger] res@[s] as int == self.best(u as int, s),
        decreases self.rank()[u as int],
    {
        let m = self.m;
        let vu = self.value[u];
        let h = self.heavy[u];
        let ghost uu = u as int;
        if h == usize::MAX {
            let res = vec![vu; m + 1];
            proof {
                if self.wf() {
                    assert forall|s: int| 0 <= s <= self.m implies #[trigger] res@[s] as int == self.best(uu, s) by {
                        self.lemma_fold_none(uu, s, self.adj@[uu]@.len() as int);
                    }
                }
            }
            return res;
        }
        proof {
            assert(self.in_subtree(uu, uu));
            assert(self.fits_at(uu));
        }
        let ghost hk = choose|k: int| #[trigger] self.is_child_entry(uu, k) && self.adj@[uu]@[k] as int == h as int;
        assert(self.is_child_entry(uu, hk));
        assert(h < self.n());
        proof {
            self.lemma_fits_child(uu, hk);
        }
        let mut a = self.dfs(h);
        let ghost hh = h as int;
        let mut s = m;
        while s > 0
            invariant
                self.wf(),
                self.fits_at(uu),
                self.fits_below(uu),
                m == self.m,
                uu == u,
                uu < self.n(),
                vu == self.value@[uu],
                hh == h,
                self.is_child_entry(uu, hk),
                self.adj@[uu]@[hk] as int == hh,
                a@.len() == m + 1,
                s <= m,
                forall|t: int| 0 <= t <= s ==> #[trigger] a@[t] as int == self.best(hh, t),
                forall|t: int| s < t <= m ==> #[trigger] a@[t] as int == self.through(uu, hh, t),
            decreases s,
        {
            let prev = a[s - 1];
            let cand = prev - vu;
            if cand > a[s] {
                a.set(s, cand);
            }
            s = s - 1;
        }
        assert(a@[0] as int == self.through(uu, hh, 0));
        let mut k: usize = 0;
        while k < self.adj[u].len()
            invariant
                self.wf(),
                self.fits_at(uu),
                self.fits_below(uu),
                m == self.m,
                uu == u,
                uu < self.n(),
                vu == self.value@[uu],
                hh == h,
                self.is_child_entry(uu, hk),
                self.adj@[uu]@[hk] as int == hh,
                a@.len() == m + 1,
                k <= self.adj@[uu]@.len(),
                forall|t: int| 0 <= t <= m ==> #[trigger] a@[t] as int == max_opt(self.fold(uu, t, k as int, hh), self.through(uu, hh, t)),
            decreases self.adj@[uu]@.len() - k,
        {
            let v = self.adj[u][k] as usize;
            if v == self.parent[u] || v == h {
                proof {
                    assert forall|t: int| 0 <= t <= m implies #[trigger] a@[t] as int == max_opt(self.fold(uu, t, k + 1, hh), self.through(uu, hh, t)) by {
                        assert(self.fold(uu, t, k + 1, hh) == self.fold(uu, t, k as int, hh));
                    }
                }
            } else {
                assert(self.is_child_entry(uu, k as int));
                proof {
                    self.lemma_fits_child(uu, k as int);
                }
                let b = self.dfs(v);
                let ghost a0 = a@;
                let mut t: usize = 0;
                while t <= m
                    invariant
                        self.wf(),
                        self.fits_at(uu),
                self.fits_below(uu),
                        m == self.m,
                        m < usize::MAX,
                        uu == u,
                        uu < self.n(),
                        vu == self.value@[uu],
                        hh == h,
                        v == self.adj@[uu]@[k as int],
                        v != hh,
                        self.is_child_entry(uu, k as int),
                        a@.len() == m + 1,
                        b@.len() == m + 1,
                        forall|q: int| 0 <= q <= m ==> #[trigger] b@[q] as int == self.best(v as int, q),
                        k < self.adj@[uu]@.len(),
                        t <= m + 1,
                        forall|q: int| 0 <= q < t ==> #[trigger] a@[q] as int == max_opt(self.fold(uu, q, k + 1, hh), self.through(uu, hh, q)),
                        forall|q: int| t <= q <= m ==> #[trigger] a@[q] == a0[q],
                        forall|q: int| 0 <= q <= m ==> #[trigger] a0[q] as int == max_opt(self.fold(uu, q, k as int, hh), self.through(uu, hh, q)),
                    decreases m + 1 - t,
                {
                    let mut cand = b[t];
                    if t >= 1 {
                        let c2 = b[t - 1] - vu;
                        if c2 > cand {
                            cand = c2;
                        }
                    }
                    if cand > a[t] {
                        a.set(t, cand);
                    }
                    proof {
                        let q = t as int;
                        assert(self.fold(uu, q, k + 1, hh) == Some(max_opt(self.fold(uu, q, k as int, hh), self.through(uu, v as int, q))));
                    }
                    t = t + 1;
                }
            }
            k = k + 1;
        }
        let mut t: usize = 0;
        while t <= m
            invariant
                self.wf(),
                self.fits_at(uu),
                self.fits_below(uu),
                m == self.m,
                m < usize::MAX,
                uu == u,
                uu < self.n(),
                vu == self.value@[uu],
                hh == h,
                self.is_child_entry(uu, hk),
                self.adj@[uu]@[hk] as int == hh,
                a@.len() == m + 1,
                t <= m + 1,
                forall|q: int| 0 <= q < t ==> #[trigger] a@[q] as int == self.best(uu, q),
                forall|q: int| t <= q <= m ==> #[trigger] a@[q] as int == max_opt(self.fold(uu, q, self.adj@[uu]@.len() as int, hh), self.through(uu, hh, q)),
            decreases m + 1 - t,
        {
            proof {
                self.lemma_fold_excl(uu, t as int, self.adj@[uu]@.len() as int, hh);
                assert(self.is_child_entry(uu, hk));
                assert(self.best(uu, t as int) == vu + a@[t as int]);
            }
            let x = a[t];
            a.set(t, x + vu);
            t = t + 1;
        }
        a
    }

    /// The best values from `u`, as `dfs` computes them, or `None` when some
    /// value that the search from `u` computes leaves the `i32` range.
    pub fn dfs_checked(&self, u: usize) -> (res: Option<Vec<i32>>)
        requires
            self.wf(),
            u < self.n(),
        ensures
            res is None <==> !self.fits_below(u as int),
            res matches Some(r) ==> r@.len() == self.m + 1
                && forall|s: int| 0 <= s <= self.m ==> #[trigger] r@[s] as int == self.best(u as int, s),
        decreases self.rank()[u as int],
    {
        let m = self.m;
        let vu = self.value[u];
        let h = self.heavy[u];
        let ghost uu = u as int;
        assert(self.in_subtree(uu, uu));
        if h == usize::MAX {
            let res = vec![vu; m + 1];
            proof {
                assert forall|s: int| 0 <= s <= self.m implies #[trigger] res@[s] as int == self.best(uu, s) by {
                    self.lemma_fold_none(uu, s, self.adj@[uu]@.len() as int);
                }
                assert(self.heavy@[uu] == usize::MAX);
                assert forall|s: int| 0 <= s <= self.m implies i32::MIN <= #[trigger] self.best(uu, s) <= i32::MAX by {
                    assert(res@[s] as int == self.best(uu, s));
                }
                assert(self.fits_at(uu));
                assert forall|x: int| #[trigger] self.in_subtree(uu, x) implies self.fits_at(x) by {
                    if x != uu {
                        let k = choose|k: int| #[trigger] self.is_child_entry(uu, k) && self.in_subtree(self.adj@[uu]@[k] as int, x);
                        assert(!self.is_child_entry(uu, k));
                    }
                }
            }
            return Some(res);
        }
        let ghost hk = choose|k: int| #[trigger] self.is_child_entry(uu, k) && self.adj@[uu]@[k] as int == h as int;
        assert(self.is_child_entry(uu, hk));
        assert(h < self.n());
        let mut a = match self.dfs_checked(h) {
            Some(r) => r,
            None => {
                proof {
                    if self.fits_below(uu) {
                        self.lemma_fits_child(uu, hk);
                    }
                }
                return None;
            },
        };
        let ghost hh = h as int;
        let mut s = m;
        while s > 0
            invariant
                self.wf(),
                self.in_subtree(uu, uu),
                m == self.m,
                uu == u,
                uu < self.n(),
                vu == self.value@[uu],
                hh == h,
                self.is_child_entry(uu, hk),
                self.adj@[uu]@[hk] as int == hh,
                self.fits_below(hh),
                a@.len() == m + 1,
                s <= m,
                forall|t: int| 0 <= t <= s ==> #[trigger] a@[t] as int == self.best(hh, t),
                forall|t: int| s < t <= m ==> #[trigger] a@[t] as int == self.through(uu, hh, t),
                forall|q: int| s <= q < m ==> i32::MIN <= #[trigger] self.best(hh, q) - vu <= i32::MAX,
            decreases s,
        {
            let prev = a[s - 1];
            let wide = prev as i64 - vu as i64;
            if wide < i32::MIN as i64 || wide > i32::MAX as i64 {
                proof {
                    assert(!self.fits_at(uu));
                }
                return None;
            }
            let cand = wide as i32;
            if cand > a[s] {
                a.set(s, cand);
            }
            s = s - 1;
        }
        assert(a@[0] as int == self.through(uu, hh, 0));
        let mut k: usize = 0;
        while k < self.adj[u].len()
            invariant
                self.wf(),
                self.in_subtree(uu, uu),
                m == self.m,
                uu == u,
                uu < self.n(),
                vu == self.value@[uu],
                hh == h,
                self.is_child_entry(uu, hk),
                self.adj@[uu]@[hk] as int == hh,
                self.fits_below(hh),
                forall|q: int| 0 <= q < m ==> i32::MIN <= #[trigger] self.best(hh, q) - vu <= i32::MAX,
                a@.len() == m + 1,
                k <= self.adj@[uu]@.len(),
                forall|t: int| 0 <= t <= m ==> #[trigger] a@[t] as int == max_opt(self.fold(uu, t, k as int, hh), self.through(uu, hh, t)),
                forall|kk: int| 0 <= kk < k && #[trigger] self.is_child_entry(uu, kk) ==> self.fits_below(self.adj@[uu]@[kk] as int)
                    && forall|q: int| 0 <= q < m ==> i32::MIN <= #[trigger] self.best(self.adj@[uu]@[kk] as int, q) - vu <= i32::MAX,
            decreases self.adj@[uu]@.len() - k,
        {
            let v = self.adj[u][k] as usize;
            if v == self.parent[u] || v == h {
                proof {
                    assert forall|t: int| 0 <= t <= m implies #[trigger] a@[t] as int == max_opt(self.fold(uu, t, k + 1, hh), self.through(uu, hh, t)) by {
                        assert(self.fold(uu, t, k + 1, hh) == self.fold(uu, t, k as int, hh));
                    }
                }
            } else {
                assert(self.is_child_entry(uu, k as int));
                let b = match self.dfs_checked(v) {
                    Some(r) => r,
                    None => {
                        proof {
                            if self.fits_below(uu) {
                                self.lemma_fits_child(uu, k as int);
                            }
                        }
                        return None;
                    },
                };
                let ghost a0 = a@;
                let mut t: usize = 0;
                while t <= m
                    invariant
                        self.wf(),
                        self.in_subtree(uu, uu),
                        m == self.m,
                        m < usize::MAX,
                        uu == u,
                        uu < self.n(),
                        vu == self.value@[uu],
                        hh == h,
                        v == self.adj@[uu]@[k as int],
                        v != hh,
                        self.is_child_entry(uu, k as int),
                        a@.len() == m + 1,
                        b@.len() == m + 1,
                        forall|q: int| 0 <= q <= m ==> #[trigger] b@[q] as int == self.best(v as int, q),
                        k < self.adj@[uu]@.len(),
                        t <= m + 1,
                        forall|q: int| 0 <= q < t ==> #[trigger] a@[q] as int == max_opt(self.fold(uu, q, k + 1, hh), self.through(uu, hh, q)),
                        forall|q: int| t <= q <= m ==> #[trigger] a@[q] == a0[q],
                        forall|q: int| 0 <= q <= m ==> #[trigger] a0[q] as int == max_opt(self.fold(uu, q, k as int, hh), self.through(uu, hh, q)),
                        forall|q: int| 0 <= q && q + 1 < t ==> i32::MIN <= #[trigger] self.best(v as int, q) - vu <= i32::MAX,
                    decreases m + 1 - t,
                {
                    let mut cand = b[t];
                    if t >= 1 {
                        let wide = b[t - 1] as i64 - vu as i64;
                        if wide < i32::MIN as i64 || wide > i32::MAX as i64 {
                            proof {
                                assert(i32::MIN <= self.best(v as int, t - 1) - vu <= i32::MAX ==> false);
                                assert(!self.fits_at(uu));
                            }
                            return None;
                        }
                        let c2 = wide as i32;
                        if c2 > cand {
                            cand = c2;
                        }
                    }
                    if cand > a[t] {
                        a.set(t, cand);
                    }
                    proof {
                        let q = t as int;
                        assert(self.fold(uu, q, k + 1, hh) == Some(max_opt(self.fold(uu, q, k as int, hh), self.through(uu, v as int, q))));
                    }
                    t = t + 1;
                }
            }
            proof {
                assert forall|kk: int| 0 <= kk < k + 1 && #[trigger] self.is_child_entry(uu, kk) implies self.fits_below(self.adj@[uu]@[kk] as int)
                    && forall|q: int| 0 <= q < m ==> i32::MIN <= #[trigger] self.best(self.adj@[uu]@[kk] as int, q) - vu <= i32::MAX by {
                    if kk == k && self.adj@[uu]@[kk] as int == hh {
                        assert forall|q: int| 0 <= q < m implies i32::MIN <= #[trigger] self.best(self.adj@[uu]@[kk] as int, q) - vu <= i32::MAX by {
                            assert(i32::MIN <= self.best(hh, q) - vu <= i32::MAX);
                        }
                    }
                }
            }
            k = k + 1;
        }
        let mut t: usize = 0;
        while t <= m
            invariant
                self.wf(),
                self.in_subtree(uu, uu),
                m == self.m,
                m < usize::MAX,
                uu == u,
                uu < self.n(),
                vu == self.value@[uu],
                hh == h,
                self.is_child_entry(uu, hk),
                self.adj@[uu]@[hk] as int == hh,
                a@.len() == m + 1,
                t <= m + 1,
                forall|q: int| 0 <= q < t ==> #[trigger] a@[q] as int == self.best(uu, q),
                forall|q: int| t <= q <= m ==> #[trigger] a@[q] as int == max_opt(self.fold(uu, q, self.adj@[uu]@.len() as int, hh), self.through(uu, hh, q)),
            decreases m + 1 - t,
        {
            proof {
                self.lemma_fold_excl(uu, t as int, self.adj@[uu]@.len() as int, hh);
                assert(self.is_child_entry(uu, hk));
                assert(self.best(uu, t as int) == vu + a@[t as int]);
            }
            let x = a[t];
            let wide = x as i64 + vu as i64;
            if wide < i32::MIN as i64 || wide > i32::MAX as i64 {
                proof {
                    assert(!(i32::MIN <= self.best(uu, t as int) <= i32::MAX));
                    assert(!self.fits_at(uu));
                }
                return None;
            }
            a.set(t, wide as i32);
            t = t + 1;
        }
        proof {
            assert(self.fits_at(uu)) by {
                assert forall|s: int| 0 <= s <= self.m implies i32::MIN <= #[trigger] self.best(uu, s) <= i32::MAX by {
                    assert(a@[s] as int == self.best(uu, s));
                }
            }
            assert forall|x: int| #[trigger] self.in_subtree(uu, x) implies self.fits_at(x) by {
                if x != uu {
                    let k = choose|k: int| #[trigger] self.is_child_entry(uu, k) && self.in_subtree(self.adj@[uu]@[k] as int, x);
                    assert(self.fits_below(self.adj@[uu]@[k] as int));
                }
            }
        }
        Some(a)
    }

    /// The answer: the best path from the root leaving out at most `m` nodes.
    pub fn best_value(&self) -> (r: i32)
        requires
            self.wf(),
            self.fits_below(0),
            self.n() >= 1,
        ensures
            r as int == self.best(0, self.m as int),
    {
        let dp = self.dfs(0);
        dp[self.m]
    }

    /// What the search from `u` needs to fit, the search from a child needs too.
    proof fn lemma_fits_child(&self, u: int, k: int)
        requires
            self.wf(),
            0 <= u < self.n(),
            self.is_child_entry(u, k),
            self.fits_below(u),
        ensures
            self.fits_below(self.adj@[u]@[k] as int),
    {
        let c = self.adj@[u]@[k] as int;
        assert forall|x: int| #[trigger] self.in_subtree(c, x) implies self.fits_at(x) by {
            assert(self.in_subtree(u, x));
        }
    }

    proof fn lemma_fold_none(&self, u: int, s: int, k: int)
        requires
            self.wf(),
            0 <= u < self.n(),
            0 <= k <= self.adj@[u]@.len(),
            self.heavy@[u] == usize::MAX,
        ensures
            self.fold(u, s, k, -1) is None,
        decreases k,
    {
        if k > 0 {
            self.lemma_fold_none(u, s, k - 1);
        }
    }
}


impl Solver {
    /// `c` is a child of `u`: a neighbour of `u` other than its parent.
    pub open spec fn is_child(&self, u: int, c: int) -> bool {
        exists|k: int| #[trigger] self.is_child_entry(u, k) && self.adj@[u]@[k] as int == c
    }

    /// The best value from `u` down through its child `c` with `s` nodes that
    /// may be left out: `u` kept, or `u` left out at the cost of one of `s`.
    pub open spec fn via_child(&self, u: int, c: int, s: int) -> int {
        if s >= 1 {
            max_int(self.best(c, s) + self.value@[u], self.best(c, s - 1))
        } else {
            self.best(c, s) + self.value@[u]
        }
    }

    proof fn lemma_fold_max(&self, u: int, s: int, k: int)
        requires
            self.wf(),
            0 <= u < self.n(),
            0 <= k <= self.adj@[u]@.len(),
        ensures
            self.fold(u, s, k, -1) is None <==> forall|kk: int| 0 <= kk < k ==> !#[trigger] self.is_child_entry(u, kk),
            self.fold(u, s, k, -1) matches Some(x) ==> (forall|kk: int| 0 <= kk < k && #[trigger] self.is_child_entry(u, kk)
                ==> x >= self.through(u, self.adj@[u]@[kk] as int, s)),
            self.fold(u, s, k, -1) matches Some(x) ==> (exists|kk: int| 0 <= kk < k && #[trigger] self.is_child_entry(u, kk)
                && x == self.through(u, self.adj@[u]@[kk] as int, s)),
        decreases k,
    {
        if k > 0 {
            self.lemma_fold_max(u, s, k - 1);
            let c = self.adj@[u]@[k - 1] as int;
            if self.is_child_entry(u, k - 1) {
                assert(c != -1);
                let x = self.fold(u, s, k, -1).unwrap();
                if let Some(y) = self.fold(u, s, k - 1, -1) {
                    let kk = choose|kk: int| 0 <= kk < k - 1 && #[trigger] self.is_child_entry(u, kk)
                        && y == self.through(u, self.adj@[u]@[kk] as int, s);
                    if x == y {
                        assert(self.is_child_entry(u, kk));
                    } else {
                        assert(self.is_child_entry(u, k - 1));
                    }
                } else {
                    assert(self.is_child_entry(u, k - 1));
                }
            }
        }
    }

    /// The best value from `u` is its own value at a leaf, and otherwise the
    /// largest best value through one of its children.
    pub proof fn law_best_children(&self, u: int, s: int)
        requires
            self.wf(),
            0 <= u < self.n(),
        ensures
            (forall|c: int| !self.is_child(u, c)) ==> self.best(u, s) == self.value@[u],
            forall|c: int| #[trigger] self.is_child(u, c) ==> self.best(u, s) >= self.via_child(u, c, s),
            (exists|c: int| self.is_child(u, c)) ==> exists|c: int| #[trigger] self.is_child(u, c) && self.best(u, s) == self.via_child(u, c, s),
    {
        let len = self.adj@[u]@.len() as int;
        self.lemma_fold_max(u, s, len);
        match self.fold(u, s, len, -1) {
            None => {
                assert forall|c: int| !self.is_child(u, c) by {
                    if self.is_child(u, c) {
                        let k = choose|k: int| #[trigger] self.is_child_entry(u, k) && self.adj@[u]@[k] as int == c;
                    }
                }
            },
            Some(x) => {
                assert forall|c: int| #[trigger] self.is_child(u, c) implies self.best(u, s) >= self.via_child(u, c, s) by {
                    let k = choose|k: int| #[trigger] self.is_child_entry(u, k) && self.adj@[u]@[k] as int == c;
                    assert(x >= self.through(u, c, s));
                }
                let k = choose|kk: int| 0 <= kk < len && #[trigger] self.is_child_entry(u, kk)
                    && x == self.through(u, self.adj@[u]@[kk] as int, s);
                let c = self.adj@[u]@[k] as int;
                assert(self.is_child(u, c));
                assert(self.best(u, s) == self.via_child(u, c, s));
            },
        }
    }

    /// `p` is a downward path from its first node to a leaf: each node is a
    /// child of the one before, and the last has no child.
    pub open spec fn down_path(&self, p: Seq<int>) -> bool {
        &&& p.len() >= 1
        &&& 0 <= p[0] < self.n()
        &&& forall|i: int, j: int| 0 <= i && j == i + 1 && j < p.len() ==> #[trigger] self.is_child(p[i], p[j])
        &&& forall|c: int| !self.is_child(p.last(), c)
    }

    /// The values kept along `p`: those of the nodes not marked in `skip`.
    pub open spec fn kept_total(&self, p: Seq<int>, skip: Seq<bool>) -> int
        decreases p.len(),
    {
        if p.len() == 0 {
            0
        } else {
            (if skip[0] { 0 } else { self.value@[p[0]] as int }) + self.kept_total(p.drop_first(), skip.drop_first())
        }
    }

    /// The number of nodes marked in `skip`.
    pub open spec fn skipped(skip: Seq<bool>) -> nat
        decreases skip.len(),
    {
        if skip.len() == 0 { 0 } else { (if skip[0] { 1nat } else { 0nat }) + Solver::skipped(skip.drop_first()) }
    }

    /// `skip` marks at most `s` nodes of the path `p`, never its leaf.
    pub open spec fn skips_ok(p: Seq<int>, skip: Seq<bool>, s: int) -> bool {
        skip.len() == p.len() && p.len() >= 1 && !skip[skip.len() - 1] && Solver::skipped(skip) <= s
    }

    proof fn lemma_path_tail(&self, p: Seq<int>, skip: Seq<bool>)
        requires
            self.wf(),
            self.down_path(p),
            p.len() >= 2,
            skip.len() == p.len(),
        ensures
            self.is_child(p[0], p[1]),
            self.down_path(p.drop_first()),
            skip.drop_first().len() == p.drop_first().len(),
            skip.drop_first()[skip.len() - 2] == skip[skip.len() - 1],
            self.kept_total(p, skip) == (if skip[0] { 0 } else { self.value@[p[0]] as int })
                + self.kept_total(p.drop_first(), skip.drop_first()),
            Solver::skipped(skip) == (if skip[0] { 1nat } else { 0nat }) + Solver::skipped(skip.drop_first()),
    {
        let q = p.drop_first();
        assert(self.is_child(p[0], p[1]));
        let k = choose|k: int| #[trigger] self.is_child_entry(p[0], k) && self.adj@[p[0]]@[k] as int == p[1];
        assert(self.ranked(self.rank()));
        assert forall|i: int, j: int| 0 <= i && j == i + 1 && j < q.len() implies #[trigger] self.is_child(q[i], q[j]) by {
            assert(q[i] == p[i + 1] && q[j] == p[j + 1]);
            assert(self.is_child(p[i + 1], p[j + 1]));
        }
        assert(q.last() == p.last());
    }

    /// No downward path from `u`, with at most `s` of its nodes other than the
    /// leaf left out, keeps values worth more than `best(u, s)`.
    pub proof fn law_best_bounds_paths(&self, p: Seq<int>, skip: Seq<bool>, s: int)
        requires
            self.wf(),
            self.down_path(p),
            Solver::skips_ok(p, skip, s),
        ensures
            self.kept_total(p, skip) <= self.best(p[0], s),
        decreases self.rank()[p[0]],
    {
        let u = p[0];
        self.law_best_children(u, s);
        if p.len() == 1 {
            assert(p.last() == u);
            assert(forall|c: int| !self.is_child(u, c));
            assert(self.kept_total(p.drop_first(), skip.drop_first()) == 0);
            assert(!skip[0]);
            assert(self.kept_total(p, skip) == self.value@[u] as int);
        } else {
            self.lemma_path_tail(p, skip);
            let c = p[1];
            let q = p.drop_first();
            let sk = skip.drop_first();
            let k = choose|k: int| #[trigger] self.is_child_entry(u, k) && self.adj@[u]@[k] as int == c;
            assert(self.ranked(self.rank()));
            assert(self.rank()[c] < self.rank()[u]);
            if skip[0] {
                assert(Solver::skips_ok(q, sk, s - 1));
                self.law_best_bounds_paths(q, sk, s - 1);
            } else {
                assert(Solver::skips_ok(q, sk, s));
                self.law_best_bounds_paths(q, sk, s);
            }
            assert(self.best(u, s) >= self.via_child(u, c, s));
        }
    }

    /// Some downward path from `u`, with at most `s` of its nodes other than
    /// the leaf left out, keeps values worth exactly `best(u, s)`.
    pub proof fn law_best_attained(&self, u: int, s: int) -> (ps: (Seq<int>, Seq<bool>))
        requires
            self.wf(),
            0 <= u < self.n(),
            s >= 0,
        ensures
            self.down_path(ps.0),
            ps.0[0] == u,
            Solver::skips_ok(ps.0, ps.1, s),
            self.kept_total(ps.0, ps.1) == self.best(u, s),
        decreases self.rank()[u],
    {
        self.law_best_children(u, s);
        if forall|c: int| !self.is_child(u, c) {
            let p = seq![u];
            let sk = seq![false];
            assert(self.kept_total(p.drop_first(), sk.drop_first()) == 0);
            assert(Solver::skipped(sk.drop_first()) == 0);
            assert(sk[0] == false);
            assert(p.last() == u);
            assert forall|i: int, j: int| 0 <= i && j == i + 1 && j < p.len() implies #[trigger] self.is_child(p[i], p[j]) by {}
            assert(self.kept_total(p, sk) == self.value@[u] as int);
            assert(Solver::skipped(sk) == 0);
            (p, sk)
        } else {
            let c = choose|c: int| #[trigger] self.is_child(u, c) && self.best(u, s) == self.via_child(u, c, s);
            let k = choose|k: int| #[trigger] self.is_child_entry(u, k) && self.adj@[u]@[k] as int == c;
            assert(self.ranked(self.rank()));
            assert(self.rank()[c] < self.rank()[u]);
            let leave = s >= 1 && self.best(c, s - 1) >= self.best(c, s) + self.value@[u];
            let (q, sq) = if leave { self.law_best_attained(c, s - 1) } else { self.law_best_attained(c, s) };
            let p = seq![u] + q;
            let sk = seq![leave] + sq;
            assert(p.drop_first() =~= q);
            assert(sk.drop_first() =~= sq);
            assert(p[1] == q[0]);
            assert forall|i: int, j: int| 0 <= i && j == i + 1 && j < p.len() implies #[trigger] self.is_child(p[i], p[j]) by {
                if i > 0 {
                    assert(p[i] == q[i - 1] && p[j] == q[j - 1]);
                    assert(self.is_child(q[i - 1], q[j - 1]));
                }
            }
            assert(p.last() == q.last());
            assert(sk[sk.len() - 1] == sq[sq.len() - 1]);
            assert(self.kept_total(p, sk) == (if leave { 0 } else { self.value@[u] as int }) + self.kept_total(q, sq));
            assert(Solver::skipped(sk) == (if leave { 1nat } else { 0nat }) + Solver::skipped(sq));
            (p, sk)
        }
    }

    /// The best values depend only on the rooted tree and the node values:
    /// not on the order of the neighbour lists, nor on the child recorded as
    /// heavy (and so neither does what `dfs` returns).
    pub proof fn law_best_shape_only(a: &Solver, b: &Solver, u: int, s: int)
        requires
            a.wf(),
            b.wf(),
            a.n() == b.n(),
            a.value@ == b.value@,
            forall|x: int, c: int| 0 <= x < a.n() ==> (a.is_child(x, c) <==> b.is_child(x, c)),
            0 <= u < a.n(),
        ensures
            a.best(u, s) == b.best(u, s),
        decreases a.rank()[u],
    {
        assert(a.ranked(a.rank()));
        assert forall|c: int, t: int| a.is_child(u, c) implies #[trigger] a.best(c, t) == b.best(c, t) by {
            let k = choose|k: int| #[trigger] a.is_child_entry(u, k) && a.adj@[u]@[k] as int == c;
            assert(a.rank()[c] < a.rank()[u]);
            Solver::law_best_shape_only(a, b, c, t);
        }
        a.law_best_children(u, s);
        b.law_best_children(u, s);
        if exists|c: int| a.is_child(u, c) {
            let ca = choose|c: int| #[trigger] a.is_child(u, c) && a.best(u, s) == a.via_child(u, c, s);
            assert(b.is_child(u, ca));
            assert(a.via_child(u, ca, s) == b.via_child(u, ca, s));
            let cb = choose|c: int| #[trigger] b.is_child(u, c) && b.best(u, s) == b.via_child(u, c, s);
            assert(a.is_child(u, cb));
            assert(a.via_child(u, cb, s) == b.via_child(u, cb, s));
        } else {
            assert forall|c: int| !b.is_child(u, c) by {
                if b.is_child(u, c) {
                    assert(a.is_child(u, c));
                }
            }
        }
    }
}

/// The number of nodes in the subtree of `x` in the rooted tree `adj` with
/// parents `par` and depths `dep`: `x` and the subtrees of its children.
pub open spec fn sub_size(adj: Seq<Seq<usize>>, par: Seq<int>, dep: Seq<nat>, x: int) -> nat
    decreases adj.len() - dep[x], adj[x].len() + 1,
    when crate::tree::is_rooted_tree(adj, par, dep) && 0 <= x < adj.len()
{
    1 + kids_size(adj, par, dep, x, adj[x].len() as int)
}

/// The sizes of the subtrees of the children of `x` among its first `e`
/// neighbours, added up.
pub open spec fn kids_size(adj: Seq<Seq<usize>>, par: Seq<int>, dep: Seq<nat>, x: int, e: int) -> nat
    decreases adj.len() - dep[x], e,
    when crate::tree::is_rooted_tree(adj, par, dep) && 0 <= x < adj.len() && e <= adj[x].len()
{
    if e <= 0 {
        0
    } else {
        let v = adj[x][e - 1] as int;
        kids_size(adj, par, dep, x, e - 1) + (if v != 0 && par[v] == x { sub_size(adj, par, dep, v) } else { 0 })
    }
}

/// The neighbour lists with `usize` entries.
pub open spec fn widen(adj: Seq<Vec<u32>>) -> Seq<Seq<usize>> {
    adj.map_values(|l: Vec<u32>| l@.map_values(|x: u32| x as usize))
}

/// The sum of `size[x]` over the nodes `x < k` marked live.
spec fn live_sum(live: Seq<bool>, size: Seq<usize>, k: int) -> int
    decreases k,
{
    if k <= 0 { 0 } else { live_sum(live, size, k - 1) + (if live[k - 1] { size[k - 1] as int } else { 0 }) }
}

proof fn lemma_live_sum_update(live: Seq<bool>, size: Seq<usize>, live2: Seq<bool>, size2: Seq<usize>, p: int, k: int)
    requires
        0 <= p < k,
        forall|x: int| 0 <= x < k && x != p ==> live2[x] == live[x] && size2[x] == size[x],
    ensures
        live_sum(live2, size2, k) == live_sum(live, size, k) - (if live[p] { size[p] as int } else { 0 }) + (if live2[p] { size2[p] as int } else { 0 }),
    decreases k,
{
    if k - 1 > p {
        lemma_live_sum_update(live, size, live2, size2, p, k - 1);
    } else {
        lemma_live_sum_same(live, size, live2, size2, k - 1);
    }
}

proof fn lemma_live_sum_same(live: Seq<bool>, size: Seq<usize>, live2: Seq<bool>, size2: Seq<usize>, k: int)
    requires
        forall|x: int| 0 <= x < k ==> live2[x] == live[x] && size2[x] == size[x],
    ensures
        live_sum(live2, size2, k) == live_sum(live, size, k),
    decreases k,
{
    if k > 0 {
        lemma_live_sum_same(live, size, live2, size2, k - 1);
    }
}

proof fn lemma_live_sum_pair(live: Seq<bool>, size: Seq<usize>, p: int, q: int, k: int)
    requires
        0 <= p < k,
        0 <= q < k,
        p != q,
        live[p],
        live[q],
    ensures
        live_sum(live, size, k) >= size[p] + size[q],
    decreases k,
{
    lemma_live_sum_nonneg(live, size, k - 1);
    if k - 1 != p && k - 1 != q {
        lemma_live_sum_pair(live, size, p, q, k - 1);
    } else if k - 1 == p {
        lemma_live_sum_one(live, size, q, k - 1);
    } else {
        lemma_live_sum_one(live, size, p, k - 1);
    }
}

proof fn lemma_live_sum_one(live: Seq<bool>, size: Seq<usize>, p: int, k: int)
    requires
        0 <= p < k,
        live[p],
    ensures
        live_sum(live, size, k) >= size[p],
    decreases k,
{
    lemma_live_sum_nonneg(live, size, k - 1);
    if k - 1 != p {
        lemma_live_sum_one(live, size, p, k - 1);
    }
}

proof fn lemma_live_sum_nonneg(live: Seq<bool>, size: Seq<usize>, k: int)
    ensures
        live_sum(live, size, k) >= 0,
    decreases k,
{
    if k > 0 {
        lemma_live_sum_nonneg(live, size, k - 1);
    }
}

proof fn lemma_live_sum_none(live: Seq<bool>, size: Seq<usize>, k: int)
    requires
        forall|x: int| 0 <= x < k ==> !live[x],
    ensures
        live_sum(live, size, k) == 0,
    decreases k,
{
    if k > 0 {
        lemma_live_sum_none(live, size, k - 1);
    }
}

impl Solver {
    /// Roots the tree at node `0` and picks for each inner node a child with
    /// the largest subtree (the first such child in its neighbour list).
    #[verifier::spinoff_prover]
    #[verifier::rlimit(40)]
    pub fn new(m: usize, adj: Vec<Vec<u32>>, value: Vec<i32>) -> (s: Self)
        requires
            is_tree(widen(adj@)),
            value@.len() == adj@.len(),
            m < usize::MAX,
        ensures
            s.wf(),
            s.m == m,
            s.adj == adj,
            s.value == value,
            forall|u: int, k: int| 0 <= u < s.n() && 0 <= k < s.adj@[u]@.len() ==> (#[trigger] s.is_child_entry(u, k) <==> (
                s.adj@[u]@[k] != 0 && tree_shape(widen(adj@)).0[s.adj@[u]@[k] as int] == u)),
            s.parent@.len() == adj@.len(),
            s.parent@[0] == adj@.len(),
            forall|v: int| 0 < v < s.n() ==> #[trigger] s.parent@[v] as int == tree_shape(widen(adj@)).0[v],
            forall|u: int| 0 <= u < s.n() && #[trigger] s.heavy@[u] != usize::MAX ==> {
                let w = widen(adj@);
                let (par, dep) = tree_shape(w);
                exists|k: int| #[trigger] s.is_child_entry(u, k) && s.adj@[u]@[k] as int == s.heavy@[u] as int
                    && (forall|k2: int| #[trigger] s.is_child_entry(u, k2)
                        ==> sub_size(w, par, dep, s.adj@[u]@[k2] as int) <= sub_size(w, par, dep, s.heavy@[u] as int))
                    && (forall|k2: int| 0 <= k2 < k && #[trigger] s.is_child_entry(u, k2)
                        ==> sub_size(w, par, dep, s.adj@[u]@[k2] as int) < sub_size(w, par, dep, s.heavy@[u] as int))
            },
    {
        let n = adj.len();
        let ghost wide = widen(adj@);
        let mut adj_us: Vec<Vec<usize>> = Vec::new();
        let mut i: usize = 0;
        while i < n
            invariant
                n == adj@.len(),
                wide == widen(adj@),
                i <= n,
                adj_view(adj_us@) == wide.take(i as int),
            decreases n - i,
        {
            let mut row: Vec<usize> = Vec::new();
            let mut k: usize = 0;
            while k < adj[i].len()
                invariant
                    i < n,
                    n == adj@.len(),
                    k <= adj@[i as int]@.len(),
                    row@ == adj@[i as int]@.map_values(|x: u32| x as usize).take(k as int),
                decreases adj@[i as int]@.len() - k,
            {
                row.push(adj[i][k] as usize);
                k = k + 1;
                assert(row@ =~= adj@[i as int]@.map_values(|x: u32| x as usize).take(k as int));
            }
            assert(row@ =~= adj@[i as int]@.map_values(|x: u32| x as usize));
            let ghost before = adj_us@;
            adj_us.push(row);
            proof {
                assert(adj_view(adj_us@) =~= adj_view(before).push(row@));
                assert(wide[i as int] == row@);
                assert(wide.take(i + 1) =~= wide.take(i as int).push(wide[i as int]));
            }
            i = i + 1;
        }
        assert(adj_view(adj_us@) =~= wide);
        let ghost pd = tree_shape(wide);
        let ghost par = pd.0;
        proof {
            assert(!wide[0].contains(n)) by {
                if wide[0].contains(n) {
                    let q = choose|q: int| 0 <= q < wide[0].len() && wide[0][q] == n;
                    let _ = wide[0][q];
                }
            }
        }
        let (parent, _depth, order) = walk_tree(&adj_us, n);
        let ghost dep = pd.1;
        let ghost pos = Seq::new(n as nat, |x: int| choose|i: int| 0 <= i < n && order@[i] == x as usize);
        proof {
            assert(crate::tree::is_rooted_tree(wide, par, dep));
            assert forall|x: int| 0 <= x < n implies 0 <= #[trigger] pos[x] < n && order@[pos[x]] == x as usize by {
                assert(order@.contains(x as usize));
            }
        }
        let mut size: Vec<usize> = vec![1; n];
        let ghost mut live: Seq<bool> = Seq::new(n as nat, |x: int| false);
        proof {
            lemma_live_sum_none(live, size@, n as int);
        }
        let mut t: usize = n;
        while t > 0
            invariant
                n == adj@.len(),
                wide == widen(adj@),
                adj_view(adj_us@) == wide,
                crate::tree::is_rooted_tree(wide, par, dep),
                parent@.len() == n,
                forall|v: int| 0 < v < n ==> #[trigger] parent@[v] as int == par[v],
                parent@[0] == n,
                order@.len() == n,
                order@.no_duplicates(),
                adj_us@.len() == n,
                forall|i: int| 0 <= i < n ==> #[trigger] order@[i] < n,
                forall|x: int| 0 <= x < n ==> 0 <= #[trigger] pos[x] < n && order@[pos[x]] == x as usize,
                forall|i: int, j: int| 0 <= i < n && 0 <= j < n && order@[i] != 0 && order@[j] as int == par[order@[i] as int] ==> j < i,
                t <= n,
                size@.len() == n,
                live.len() == n,
                forall|x: int| 0 <= x < n ==> #[trigger] size@[x] >= 1,
                forall|x: int| 0 <= x < n && pos[x] < t ==> #[trigger] size@[x] == 1,
                forall|x: int| 0 <= x < n ==> #[trigger] live[x] == (pos[x] >= t && (x == 0 || pos[par[x]] < t)),
                live_sum(live, size@, n as int) == n - t,
                forall|x: int| 0 <= x < n && pos[x] >= t ==> #[trigger] size@[x] as int == sub_size(wide, par, dep, x),
            decreases t,
        {
            t = t - 1;
            let u = order[t];
            proof {
                assert(u < n);
                assert(pos[u as int] == t) by {
                    assert(order@[pos[u as int]] == u);
                    assert(order@[t as int] == u);
                }
                if u != 0 {
                    let j = pos[par[u as int]];
                    assert(order@[j] as int == par[u as int]);
                    assert(j < t);
                }
                let live0 = live;
                live = live.update(u as int, true);
                lemma_live_sum_update(live0, size@, live, size@, u as int, n as int);
                assert(size@[u as int] == 1);
                assert(kids_size(wide, par, dep, u as int, 0) == 0);
            }
            let mut e: usize = 0;
            while e < adj_us[u].len()
                invariant
                    n == adj@.len(),
                    adj_view(adj_us@) == wide,
                    crate::tree::is_rooted_tree(wide, par, dep),
                    parent@.len() == n,
                    forall|v: int| 0 < v < n ==> #[trigger] parent@[v] as int == par[v],
                    parent@[0] == n,
                    forall|x: int| 0 <= x < n ==> 0 <= #[trigger] pos[x] < n && order@[pos[x]] == x as usize,
                    forall|i: int, j: int| 0 <= i < n && 0 <= j < n && order@[i] != 0 && order@[j] as int == par[order@[i] as int] ==> j < i,
                    order@.len() == n,
                    adj_us@.len() == n,
                    u < n,
                    pos[u as int] == t,
                    t < n,
                    e <= wide[u as int].len(),
                    size@.len() == n,
                    live.len() == n,
                    forall|x: int| 0 <= x < n ==> #[trigger] size@[x] >= 1,
                    forall|x: int| 0 <= x < n && pos[x] < t ==> #[trigger] size@[x] == 1,
                    forall|x: int| 0 <= x < n ==> #[trigger] live[x] == (pos[x] >= t && (x == 0 || pos[par[x]] < t || (par[x] == u && !wide[u as int].take(e as int).contains(x as usize)))),
                    live_sum(live, size@, n as int) == n - t,
                    forall|x: int| 0 <= x < n && pos[x] > t ==> #[trigger] size@[x] as int == sub_size(wide, par, dep, x),
                    size@[u as int] as int == 1 + kids_size(wide, par, dep, u as int, e as int),
                decreases wide[u as int].len() - e,
            {
                let v = adj_us[u][e];
                proof {
                    assert(adj_view(adj_us@)[u as int] == adj_us@[u as int]@);
                    assert(wide[u as int][e as int] == v);
                    let _ = wide[u as int][e as int];
                    if v != 0 && par[v as int] == u && u != 0 && par[u as int] == v {
                        assert(dep[v as int] == dep[u as int] + 1);
                        assert(dep[u as int] == dep[v as int] + 1);
                    }
                }
                if v != parent[u] {
                    proof {
                        assert(v != 0 && par[v as int] == u);
                        assert(pos[v as int] > t) by {
                            assert(order@[pos[v as int]] == v);
                            assert(order@[pos[u as int]] == u);
                        }
                        assert(!wide[u as int].take(e as int).contains(v)) by {
                            if wide[u as int].take(e as int).contains(v) {
                                let q = choose|q: int| 0 <= q < e && wide[u as int].take(e as int)[q] == v;
                                assert(wide[u as int][q] == wide[u as int][e as int]);
                            }
                        }
                        assert(live[v as int]);
                        assert(live[u as int]);
                        lemma_live_sum_pair(live, size@, u as int, v as int, n as int);
                    }
                    let su = size[u];
                    let sv = size[v];
                    let ghost size0 = size@;
                    size.set(u, su + sv);
                    proof {
                        let live0 = live;
                        let mid = size@;
                        lemma_live_sum_update(live0, size0, live0, mid, u as int, n as int);
                        live = live.update(v as int, false);
                        lemma_live_sum_update(live0, mid, live, mid, v as int, n as int);
                    }
                }
                proof {
                    let pre = wide[u as int].take(e as int);
                    let post = wide[u as int].take(e + 1);
                    assert forall|x: int| 0 <= x < n implies #[trigger] live[x] == (pos[x] >= t && (x == 0 || pos[par[x]] < t || (par[x] == u && !post.contains(x as usize)))) by {
                        if post.contains(x as usize) && !pre.contains(x as usize) {
                            let q = choose|q: int| 0 <= q < e + 1 && post[q] == x as usize;
                            assert(q == e) by {
                                if q < e {
                                    assert(pre[q] == x as usize);
                                }
                            }
                        }
                        if pre.contains(x as usize) {
                            let q = choose|q: int| 0 <= q < e && pre[q] == x as usize;
                            assert(post[q] == x as usize);
                        }
                        if x == v as int && v != parent@[u as int] {
                            assert(post[e as int] == x as usize);
                        }
                    }
                    assert(wide[u as int][e as int] == v);
                    if v != parent@[u as int] {
                        assert(pos[v as int] > t);
                    } else {
                        assert(!(v != 0 && par[v as int] == u));
                    }
                    assert(kids_size(wide, par, dep, u as int, e + 1) == kids_size(wide, par, dep, u as int, e as int)
                        + (if v != 0 && par[v as int] == u { sub_size(wide, par, dep, v as int) } else { 0 }));
                }
                e = e + 1;
            }
            proof {
                assert(size@[u as int] as int == sub_size(wide, par, dep, u as int));
                assert forall|x: int| 0 <= x < n && pos[x] >= t implies #[trigger] size@[x] as int == sub_size(wide, par, dep, x) by {
                    if pos[x] == t {
                        assert(order@[pos[x]] == x as usize);
                    }
                }
                assert forall|x: int| 0 <= x < n implies #[trigger] live[x] == (pos[x] >= t && (x == 0 || pos[par[x]] < t)) by {
                    assert(wide[u as int].take(wide[u as int].len() as int) =~= wide[u as int]);
                    if x != 0 && par[x] == u {
                        assert(wide[par[x]].contains(x as usize));
                    }
                }
            }
        }
        let mut heavy: Vec<usize> = vec![usize::MAX; n];
        let mut idx: usize = 0;
        while idx < n
            invariant
                n == adj@.len(),
                wide == widen(adj@),
                crate::tree::is_rooted_tree(wide, par, dep),
                forall|v: int| 0 < v < n ==> #[trigger] parent@[v] as int == par[v],
                parent@[0] == n,
                forall|i: int, j: int| 0 <= i < n && 0 <= j < n && order@[i] != 0 && order@[j] as int == par[order@[i] as int] ==> j < i,
                adj_view(adj_us@) == wide,
                adj_us@.len() == n,
                parent@.len() == n,
                order@.len() == n,
                forall|i: int| 0 <= i < n ==> #[trigger] order@[i] < n,
                forall|x: int| 0 <= x < n ==> 0 <= #[trigger] pos[x] < n && order@[pos[x]] == x as usize,
                order@.no_duplicates(),
                size@.len() == n,
                forall|x: int| 0 <= x < n ==> #[trigger] size@[x] >= 1,
                heavy@.len() == n,
                idx <= n,
                forall|x: int| 0 <= x < n ==> #[trigger] size@[x] as int == sub_size(wide, par, dep, x),
                forall|x: int| 0 <= x < n && pos[x] < idx ==> {
                    &&& #[trigger] heavy@[x] == usize::MAX ==> forall|q: int| 0 <= q < wide[x].len() ==> wide[x][q] == parent@[x]
                    &&& heavy@[x] != usize::MAX ==> exists|q: int| 0 <= q < wide[x].len() && #[trigger] wide[x][q] == heavy@[x] && heavy@[x] != parent@[x]
                        && (forall|q2: int| 0 <= q2 < wide[x].len() && wide[x][q2] != parent@[x] ==> size@[wide[x][q2] as int] <= size@[heavy@[x] as int])
                        && (forall|q2: int| 0 <= q2 < q && wide[x][q2] != parent@[x] ==> size@[wide[x][q2] as int] < size@[heavy@[x] as int])
                },
            decreases n - idx,
        {
            let u = order[idx];
            proof {
                assert forall|q: int| 0 <= q < wide[u as int].len() implies #[trigger] wide[u as int][q] < n by {
                    let _ = wide[u as int][q];
                }
                assert(pos[u as int] == idx) by {
                    assert(order@[pos[u as int]] == u);
                    assert(order@[idx as int] == u);
                }
                assert(adj_view(adj_us@)[u as int] == adj_us@[u as int]@);
            }
            let mut best: usize = usize::MAX;
            let mut best_size: usize = 0;
            let mut e: usize = 0;
            while e < adj_us[u].len()
                invariant
                    n == adj@.len(),
                    adj_us@.len() == n,
                    u < n,
                    adj_us@[u as int]@ == wide[u as int],
                    parent@.len() == n,
                    size@.len() == n,
                    forall|x: int| 0 <= x < n ==> #[trigger] size@[x] >= 1,
                    forall|q: int| 0 <= q < wide[u as int].len() ==> #[trigger] wide[u as int][q] < n,
                    e <= wide[u as int].len(),
                    (best == usize::MAX) == (best_size == 0),
                    best == usize::MAX ==> forall|q: int| 0 <= q < e ==> wide[u as int][q] == parent@[u as int],
                    best != usize::MAX ==> exists|q: int| 0 <= q < e && #[trigger] wide[u as int][q] == best && best != parent@[u as int]
                        && best < n && best_size == size@[best as int]
                        && (forall|q2: int| 0 <= q2 < q && wide[u as int][q2] != parent@[u as int] ==> size@[wide[u as int][q2] as int] < best_size),
                    forall|q2: int| 0 <= q2 < e && wide[u as int][q2] != parent@[u as int] ==> size@[wide[u as int][q2] as int] <= best_size,
                decreases wide[u as int].len() - e,
            {
                let v = adj_us[u][e];
                assert(wide[u as int][e as int] == v);
                let ghost best0 = best;
                let ghost bs0 = best_size;
                if v != parent[u] && size[v] > best_size {
                    best_size = size[v];
                    best = v;
                    proof {
                        assert forall|q2: int| 0 <= q2 < e && wide[u as int][q2] != parent@[u as int] implies size@[wide[u as int][q2] as int] < best_size by {
                        }
                    }
                } else {
                    proof {
                        if best0 != usize::MAX {
                            let q = choose|q: int| 0 <= q < e && #[trigger] wide[u as int][q] == best0 && best0 != parent@[u as int]
                                && best0 < n && bs0 == size@[best0 as int]
                                && (forall|q2: int| 0 <= q2 < q && wide[u as int][q2] != parent@[u as int] ==> size@[wide[u as int][q2] as int] < bs0);
                            assert(0 <= q < e + 1 && wide[u as int][q] == best);
                        }
                    }
                }
                e = e + 1;
            }
            let ghost hb = best;
            heavy.set(u, best);
            proof {
                assert forall|x: int| 0 <= x < n && pos[x] < idx + 1 implies {
                    &&& #[trigger] heavy@[x] == usize::MAX ==> forall|q: int| 0 <= q < wide[x].len() ==> wide[x][q] == parent@[x]
                    &&& heavy@[x] != usize::MAX ==> exists|q: int| 0 <= q < wide[x].len() && #[trigger] wide[x][q] == heavy@[x] && heavy@[x] != parent@[x]
                        && (forall|q2: int| 0 <= q2 < wide[x].len() && wide[x][q2] != parent@[x] ==> size@[wide[x][q2] as int] <= size@[heavy@[x] as int])
                        && (forall|q2: int| 0 <= q2 < q && wide[x][q2] != parent@[x] ==> size@[wide[x][q2] as int] < size@[heavy@[x] as int])
                } by {
                    if x == u as int {
                        if hb != usize::MAX {
                            let q = choose|q: int| 0 <= q < wide[u as int].len() && #[trigger] wide[u as int][q] == hb && hb != parent@[u as int]
                                && hb < n && best_size == size@[hb as int]
                                && (forall|q2: int| 0 <= q2 < q && wide[u as int][q2] != parent@[u as int] ==> size@[wide[u as int][q2] as int] < best_size);
                            assert(wide[x][q] == heavy@[x]);
                        }
                    } else {
                        assert(pos[x] < idx) by {
                            if pos[x] == idx {
                                assert(order@[pos[x]] == x as usize);
                            }
                        }
                    }
                }
            }
            idx = idx + 1;
        }
        let s = Solver { m, adj, parent, heavy, value };
        proof {
            assert forall|u: int, k: int| 0 <= u < n && 0 <= k < s.adj@[u]@.len() implies (#[trigger] s.is_child_entry(u, k) <==> (
                s.adj@[u]@[k] != 0 && par[s.adj@[u]@[k] as int] == u)) by {
                assert(wide[u] == s.adj@[u]@.map_values(|x: u32| x as usize));
                assert(wide[u][k] == s.adj@[u]@[k] as usize);
                let v = wide[u][k] as int;
                let _ = wide[u][k];
                if v != 0 && par[v] == u && u != 0 && par[u] == v {
                    assert(dep[v] == dep[u] + 1);
                    assert(dep[u] == dep[v] + 1);
                }
            }
            let r = Seq::new(n as nat, |x: int| (n - pos[x]) as nat);
            assert(s.ranked(r)) by {
                assert forall|u: int, k: int| #[trigger] s.is_child_entry(u, k) implies s.adj@[u]@[k] < s.n() && r[s.adj@[u]@[k] as int] < r[u] by {
                    assert(wide[u] == s.adj@[u]@.map_values(|x: u32| x as usize));
                    assert(wide[u][k] == s.adj@[u]@[k] as usize);
                    let v = s.adj@[u]@[k] as int;
                    let _ = wide[u][k];
                    assert(order@[pos[v]] as int == v);
                    assert(order@[pos[u]] as int == u);
                }
            }
            assert forall|u: int| 0 <= u < s.n() implies {
                &&& #[trigger] s.heavy@[u] == usize::MAX ==> forall|k: int| 0 <= k < s.adj@[u]@.len() ==> !s.is_child_entry(u, k)
                &&& s.heavy@[u] != usize::MAX ==> exists|k: int| #[trigger] s.is_child_entry(u, k) && s.adj@[u]@[k] as int == s.heavy@[u] as int
            } by {
                assert(wide[u] == s.adj@[u]@.map_values(|x: u32| x as usize));
                assert(pos[u] < n);
                if s.heavy@[u] != usize::MAX {
                    let q = choose|q: int| 0 <= q < wide[u].len() && #[trigger] wide[u][q] == s.heavy@[u] && s.heavy@[u] != s.parent@[u];
                    assert(wide[u][q] == s.adj@[u]@[q] as usize);
                    assert(s.is_child_entry(u, q));
                } else {
                    assert forall|k: int| 0 <= k < s.adj@[u]@.len() implies !s.is_child_entry(u, k) by {
                        assert(wide[u][k] == s.adj@[u]@[k] as usize);
                    }
                }
            }
            assert forall|u: int| 0 <= u < s.n() && #[trigger] s.heavy@[u] != usize::MAX implies {
                exists|k: int| #[trigger] s.is_child_entry(u, k) && s.adj@[u]@[k] as int == s.heavy@[u] as int
                    && (forall|k2: int| #[trigger] s.is_child_entry(u, k2)
                        ==> sub_size(wide, par, dep, s.adj@[u]@[k2] as int) <= sub_size(wide, par, dep, s.heavy@[u] as int))
                    && (forall|k2: int| 0 <= k2 < k && #[trigger] s.is_child_entry(u, k2)
                        ==> sub_size(wide, par, dep, s.adj@[u]@[k2] as int) < sub_size(wide, par, dep, s.heavy@[u] as int))
            } by {
                assert(wide[u] == s.adj@[u]@.map_values(|x: u32| x as usize));
                assert(pos[u] < n);
                let h = s.heavy@[u];
                let q = choose|q: int| 0 <= q < wide[u].len() && #[trigger] wide[u][q] == h && h != s.parent@[u]
                    && (forall|q2: int| 0 <= q2 < wide[u].len() && wide[u][q2] != s.parent@[u] ==> size@[wide[u][q2] as int] <= size@[h as int])
                    && (forall|q2: int| 0 <= q2 < q && wide[u][q2] != s.parent@[u] ==> size@[wide[u][q2] as int] < size@[h as int]);
                assert(wide[u][q] == s.adj@[u]@[q] as usize);
                assert(s.is_child_entry(u, q));
                assert(h < n) by {
                    let _ = wide[u][q];
                }
                assert forall|k2: int| #[trigger] s.is_child_entry(u, k2)
                    implies sub_size(wide, par, dep, s.adj@[u]@[k2] as int) <= sub_size(wide, par, dep, h as int) by {
                    assert(wide[u][k2] == s.adj@[u]@[k2] as usize);
                    let _ = wide[u][k2];
                    assert(size@[wide[u][k2] as int] <= size@[h as int]);
                }
                assert forall|k2: int| 0 <= k2 < q && #[trigger] s.is_child_entry(u, k2)
                    implies sub_size(wide, par, dep, s.adj@[u]@[k2] as int) < sub_size(wide, par, dep, h as int) by {
                    assert(wide[u][k2] == s.adj@[u]@[k2] as usize);
                    let _ = wide[u][k2];
                    assert(size@[wide[u][k2] as int] < size@[h as int]);
                }
            }
        }
        s
    }
}

} // verus!
