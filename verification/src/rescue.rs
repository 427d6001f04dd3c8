//! Operation crimson rescue: the fewest moves from the rescuer `R` to the
//! target `B` on a grid whose cells `1` are walls, by breadth-first search.

use std::collections::VecDeque;
use vstd::prelude::*;

verus! {

/// Every row of the grid has `m` cells.
pub open spec fn rectangular(grid: Seq<Seq<char>>, m: int) -> bool {
    forall|r: int| 0 <= r < grid.len() ==> #[trigger] grid[r].len() == m
}

/// The cell `(r, c)` lies on the grid and is not a wall.
pub open spec fn open_cell(grid: Seq<Seq<char>>, m: int, p: (int, int)) -> bool {
    0 <= p.0 < grid.len() && 0 <= p.1 < m && grid[p.0][p.1] != '1'
}

/// `p` can be reached from `s` in at most `k` moves to a side-adjacent open
/// cell (the starting cell itself may be anything).
pub open spec fn reach(grid: Seq<Seq<char>>, m: int, s: (int, int), k: nat, p: (int, int)) -> bool
    decreases k,
{
    if p == s {
        true
    } else if k == 0 {
        false
    } else {
        reach(grid, m, s, (k - 1) as nat, p) || (open_cell(grid, m, p) && (
            reach(grid, m, s, (k - 1) as nat, (p.0 - 1, p.1)) || reach(grid, m, s, (k - 1) as nat, (p.0 + 1, p.1))
            || reach(grid, m, s, (k - 1) as nat, (p.0, p.1 - 1)) || reach(grid, m, s, (k - 1) as nat, (p.0, p.1 + 1))))
    }
}

/// The last cell holding `ch` in row `row` among its first `j` cells.
pub open spec fn last_in_row(row: Seq<char>, ch: char, j: int) -> Option<int>
    decreases j,
{
    if j <= 0 { None } else if row[j - 1] == ch { Some(j - 1) } else { last_in_row(row, ch, j - 1) }
}

/// The last cell (in reading order) holding `ch` among the first `i` rows.
pub open spec fn last_in_rows(grid: Seq<Seq<char>>, ch: char, i: int) -> Option<(int, int)>
    decreases i,
{
    if i <= 0 {
        None
    } else {
        match last_in_row(grid[i - 1], ch, grid[i - 1].len() as int) {
            Some(j) => Some((i - 1, j)),
            None => last_in_rows(grid, ch, i - 1),
        }
    }
}

/// The last cell holding `ch`, or the top-left corner when there is none.
pub open spec fn locate(grid: Seq<Seq<char>>, ch: char) -> (int, int) {
    match last_in_rows(grid, ch, grid.len() as int) {
        Some(p) => p,
        None => (0, 0),
    }
}

proof fn lemma_reach_mono(grid: Seq<Seq<char>>, m: int, s: (int, int), j: nat, k: nat, p: (int, int))
    requires
        j <= k,
        reach(grid, m, s, j, p),
    ensures
        reach(grid, m, s, k, p),
    decreases k,
{
    if j < k {
        lemma_reach_mono(grid, m, s, j, (k - 1) as nat, p);
    }
}

/// A cell other than the start reached within `k` moves is entered from a
/// neighbour reached within `k - 1` moves.
proof fn lemma_reach_pred(grid: Seq<Seq<char>>, m: int, s: (int, int), k: nat, p: (int, int))
    requires
        reach(grid, m, s, k, p),
        p != s,
    ensures
        k >= 1,
        open_cell(grid, m, p),
        reach(grid, m, s, (k - 1) as nat, (p.0 - 1, p.1)) || reach(grid, m, s, (k - 1) as nat, (p.0 + 1, p.1))
            || reach(grid, m, s, (k - 1) as nat, (p.0, p.1 - 1)) || reach(grid, m, s, (k - 1) as nat, (p.0, p.1 + 1)),
    decreases k,
{
    if reach(grid, m, s, (k - 1) as nat, p) {
        lemma_reach_pred(grid, m, s, (k - 1) as nat, p);
        let k2 = (k - 2) as nat;
        if reach(grid, m, s, k2, (p.0 - 1, p.1)) {
            lemma_reach_mono(grid, m, s, k2, (k - 1) as nat, (p.0 - 1, p.1));
        } else if reach(grid, m, s, k2, (p.0 + 1, p.1)) {
            lemma_reach_mono(grid, m, s, k2, (k - 1) as nat, (p.0 + 1, p.1));
        } else if reach(grid, m, s, k2, (p.0, p.1 - 1)) {
            lemma_reach_mono(grid, m, s, k2, (k - 1) as nat, (p.0, p.1 - 1));
        } else {
            lemma_reach_mono(grid, m, s, k2, (k - 1) as nat, (p.0, p.1 + 1));
        }
    }
}

/// Finds the last cell holding `ch` in reading order, or `(0, 0)`.
fn find_cell(grid: &Vec<Vec<char>>, ch: char) -> (p: (usize, usize))
    ensures
        p.0 as int == locate(grid.deep_view(), ch).0,
        p.1 as int == locate(grid.deep_view(), ch).1,
{
    let ghost g = grid.deep_view();
    let mut found: (usize, usize) = (0, 0);
    let ghost mut any = false;
    let mut i: usize = 0;
    while i < grid.len()
        invariant
            g == grid.deep_view(),
            i <= grid@.len(),
            any == (last_in_rows(g, ch, i as int) is Some),
            any ==> found.0 as int == last_in_rows(g, ch, i as int).unwrap().0 && found.1 as int == last_in_rows(g, ch, i as int).unwrap().1,
            !any ==> found == (0usize, 0usize),
        decreases grid@.len() - i,
    {
        let mut j: usize = 0;
        let ghost row = g[i as int];
        assert(row == grid@[i as int]@);
        while j < grid[i].len()
            invariant
                g == grid.deep_view(),
                i < grid@.len(),
                row == g[i as int],
                row == grid@[i as int]@,
                j <= row.len(),
                any == (last_in_row(row, ch, j as int) is Some || last_in_rows(g, ch, i as int) is Some),
                last_in_row(row, ch, j as int) is Some ==> found.0 == i && found.1 as int == last_in_row(row, ch, j as int).unwrap(),
                last_in_row(row, ch, j as int) is None && last_in_rows(g, ch, i as int) is Some ==> found.0 as int == last_in_rows(g, ch, i as int).unwrap().0 && found.1 as int == last_in_rows(g, ch, i as int).unwrap().1,
                !any ==> found == (0usize, 0usize),
            decreases row.len() - j,
        {
            if grid[i][j] == ch {
                found = (i, j);
                proof {
                    any = true;
                }
            }
            j = j + 1;
        }
        i = i + 1;
    }
    found
}


/// The cell lies on the `n` by `m` grid.
pub open spec fn on_grid(n: int, m: int, x: (int, int)) -> bool {
    0 <= x.0 < n && 0 <= x.1 < m
}

/// The `j`-th side neighbour of `x`, for `j` in `0..4`: up, down, left, right.
pub open spec fn nb(x: (int, int), j: int) -> (int, int) {
    if j == 0 {
        (x.0 - 1, x.1)
    } else if j == 1 {
        (x.0 + 1, x.1)
    } else if j == 2 {
        (x.0, x.1 - 1)
    } else {
        (x.0, x.1 + 1)
    }
}

/// `d` is the fewest moves that take the rescuer from `s` to `t`.
pub open spec fn shortest(grid: Seq<Seq<char>>, m: int, s: (int, int), t: (int, int), d: nat) -> bool {
    reach(grid, m, s, d, t) && forall|k: nat| k < d ==> !#[trigger] reach(grid, m, s, k, t)
}

/// Some number of moves takes the rescuer from `s` to `t`.
pub open spec fn reachable(grid: Seq<Seq<char>>, m: int, s: (int, int), t: (int, int)) -> bool {
    exists|k: nat| #[trigger] reach(grid, m, s, k, t)
}

/// `z` is one of the four side neighbours of `y`.
spec fn adjacent(z: (int, int), y: (int, int)) -> bool {
    z == (y.0 - 1, y.1) || z == (y.0 + 1, y.1) || z == (y.0, y.1 - 1) || z == (y.0, y.1 + 1)
}

/// The search has assigned a distance to the cell.
spec fn disc(dv: Seq<Seq<i32>>, m: int, x: (int, int)) -> bool {
    on_grid(dv.len() as int, m, x) && dv[x.0][x.1] != -1
}

/// The distance assigned to the cell.
spec fn dval(dv: Seq<Seq<i32>>, x: (int, int)) -> int {
    dv[x.0][x.1] as int
}

/// The queue's cells as integer pairs.
spec fn qcells(q: Seq<(usize, usize)>) -> Seq<(int, int)> {
    q.map_values(|p: (usize, usize)| (p.0 as int, p.1 as int))
}

/// The cell's distance is the fewest moves that reach it.
spec fn exact(g: Seq<Seq<char>>, m: int, s: (int, int), dv: Seq<Seq<i32>>, x: (int, int)) -> bool {
    &&& dval(dv, x) >= 0
    &&& shortest(g, m, s, x, dval(dv, x) as nat)
}

/// The open neighbours of `x` among the first `j` have a distance.
spec fn found_upto(g: Seq<Seq<char>>, m: int, dv: Seq<Seq<i32>>, x: (int, int), j: int) -> bool {
    forall|i: int| 0 <= i < j && open_cell(g, m, #[trigger] nb(x, i)) ==> disc(dv, m, nb(x, i))
}

/// The number of cells of row `row` among its first `j` that have a distance.
spec fn found_in_row(row: Seq<i32>, j: int) -> int
    decreases j,
{
    if j <= 0 { 0 } else { found_in_row(row, j - 1) + (if row[j - 1] != -1 { 1int } else { 0int }) }
}

/// The number of cells of the first `i` rows that have a distance.
spec fn found_in_rows(dv: Seq<Seq<i32>>, i: int) -> int
    decreases i,
{
    if i <= 0 { 0 } else { found_in_rows(dv, i - 1) + found_in_row(dv[i - 1], dv[i - 1].len() as int) }
}

/// The distance table has `n` rows of `m` cells.
spec fn shaped(dv: Seq<Seq<i32>>, n: int, m: int) -> bool {
    dv.len() == n && forall|r: int| 0 <= r < n ==> #[trigger] dv[r].len() == m
}

/// Every assigned distance is exact and below `count`.
spec fn all_exact(g: Seq<Seq<char>>, m: int, s: (int, int), dv: Seq<Seq<i32>>, count: int) -> bool {
    forall|x: (int, int)| #[trigger] disc(dv, m, x) ==> exact(g, m, s, dv, x) && dval(dv, x) < count
}

/// The queue holds distinct cells with distances, in increasing order of distance.
spec fn queue_ok(dv: Seq<Seq<i32>>, m: int, qc: Seq<(int, int)>) -> bool {
    &&& forall|i: int| 0 <= i < qc.len() ==> disc(dv, m, #[trigger] qc[i])
    &&& qc.no_duplicates()
    &&& forall|i: int, j: int| 0 <= i <= j < qc.len() ==> dval(dv, #[trigger] qc[i]) <= dval(dv, #[trigger] qc[j])
}

/// Every cell within `d` moves has a distance.
spec fn covered(g: Seq<Seq<char>>, m: int, s: (int, int), dv: Seq<Seq<i32>>, d: int) -> bool {
    forall|y: (int, int), k: nat| k <= d && #[trigger] reach(g, m, s, k, y) ==> disc(dv, m, y)
}

/// The invariant of the search between two cells taken off the queue.
spec fn bfs_inv(g: Seq<Seq<char>>, m: int, s: (int, int), dv: Seq<Seq<i32>>, qc: Seq<(int, int)>, count: int) -> bool {
    &&& shaped(dv, g.len() as int, m)
    &&& all_exact(g, m, s, dv, count)
    &&& queue_ok(dv, m, qc)
    &&& qc.len() > 0 ==> dval(dv, qc[qc.len() - 1]) <= dval(dv, qc[0]) + 1
    &&& disc(dv, m, s)
    &&& forall|z: (int, int)| #[trigger] disc(dv, m, z) && !qc.contains(z) ==> found_upto(g, m, dv, z, 4)
    &&& qc.len() > 0 ==> covered(g, m, s, dv, dval(dv, qc[0]))
    &&& count == found_in_rows(dv, g.len() as int)
    &&& count <= g.len() * m
}

/// The invariant while the neighbours of `x`, taken off the queue, are examined; the first `j`
/// of them have been.
spec fn step_inv(
    g: Seq<Seq<char>>,
    m: int,
    s: (int, int),
    dv: Seq<Seq<i32>>,
    qc: Seq<(int, int)>,
    count: int,
    x: (int, int),
    j: int,
) -> bool {
    let d = dval(dv, x);
    &&& shaped(dv, g.len() as int, m)
    &&& all_exact(g, m, s, dv, count)
    &&& queue_ok(dv, m, qc)
    &&& forall|i: int| 0 <= i < qc.len() ==> d <= dval(dv, #[trigger] qc[i]) <= d + 1
    &&& disc(dv, m, s)
    &&& disc(dv, m, x)
    &&& !qc.contains(x)
    &&& forall|z: (int, int)| #[trigger] disc(dv, m, z) && !qc.contains(z) && z != x ==> found_upto(g, m, dv, z, 4)
    &&& found_upto(g, m, dv, x, j)
    &&& covered(g, m, s, dv, d)
    &&& count == found_in_rows(dv, g.len() as int)
    &&& count <= g.len() * m
}

proof fn lemma_row_bound(row: Seq<i32>, j: int)
    requires
        0 <= j <= row.len(),
    ensures
        0 <= found_in_row(row, j) <= j,
    decreases j,
{
    if j > 0 {
        lemma_row_bound(row, j - 1);
    }
}

proof fn lemma_rows_bound(dv: Seq<Seq<i32>>, m: int, i: int)
    requires
        0 <= i <= dv.len(),
        m >= 0,
        forall|r: int| 0 <= r < dv.len() ==> #[trigger] dv[r].len() == m,
    ensures
        0 <= found_in_rows(dv, i) <= i * m,
    decreases i,
{
    if i > 0 {
        lemma_rows_bound(dv, m, i - 1);
        lemma_row_bound(dv[i - 1], m);
        assert((i - 1) * m + m == i * m) by (nonlinear_arith);
    }
}

proof fn lemma_row_update(row: Seq<i32>, c: int, v: i32, j: int)
    requires
        0 <= c < row.len(),
        0 <= j <= row.len(),
        row[c] == -1,
        v != -1,
    ensures
        found_in_row(row.update(c, v), j) == found_in_row(row, j) + (if c < j { 1int } else { 0int }),
    decreases j,
{
    if j > 0 {
        lemma_row_update(row, c, v, j - 1);
    }
}

proof fn lemma_rows_update(dv: Seq<Seq<i32>>, r: int, c: int, v: i32, i: int)
    requires
        0 <= r < dv.len(),
        0 <= c < dv[r].len(),
        0 <= i <= dv.len(),
        dv[r][c] == -1,
        v != -1,
    ensures
        found_in_rows(dv.update(r, dv[r].update(c, v)), i) == found_in_rows(dv, i) + (if r < i { 1int } else { 0int }),
    decreases i,
{
    if i > 0 {
        lemma_rows_update(dv, r, c, v, i - 1);
        if i - 1 == r {
            lemma_row_update(dv[r], c, v, dv[r].len() as int);
        }
    }
}

proof fn lemma_row_blank(row: Seq<i32>, j: int)
    requires
        0 <= j <= row.len(),
        forall|c: int| 0 <= c < row.len() ==> row[c] == -1,
    ensures
        found_in_row(row, j) == 0,
    decreases j,
{
    if j > 0 {
        lemma_row_blank(row, j - 1);
    }
}

proof fn lemma_rows_blank(dv: Seq<Seq<i32>>, i: int)
    requires
        0 <= i <= dv.len(),
        forall|r: int, c: int| 0 <= r < dv.len() && 0 <= c < dv[r].len() ==> dv[r][c] == -1,
    ensures
        found_in_rows(dv, i) == 0,
    decreases i,
{
    if i > 0 {
        lemma_rows_blank(dv, i - 1);
        lemma_row_blank(dv[i - 1], dv[i - 1].len() as int);
    }
}

/// A cell other than the start reached within `k` moves is entered from an adjacent cell
/// reached within `k - 1` moves.
proof fn pred_cell(g: Seq<Seq<char>>, m: int, s: (int, int), k: nat, y: (int, int)) -> (z: (int, int))
    requires
        reach(g, m, s, k, y),
        y != s,
    ensures
        k >= 1,
        open_cell(g, m, y),
        adjacent(z, y),
        reach(g, m, s, (k - 1) as nat, z),
{
    lemma_reach_pred(g, m, s, k, y);
    let k1 = (k - 1) as nat;
    if reach(g, m, s, k1, (y.0 - 1, y.1)) {
        (y.0 - 1, y.1)
    } else if reach(g, m, s, k1, (y.0 + 1, y.1)) {
        (y.0 + 1, y.1)
    } else if reach(g, m, s, k1, (y.0, y.1 - 1)) {
        (y.0, y.1 - 1)
    } else {
        (y.0, y.1 + 1)
    }
}

/// An open cell next to a cell whose neighbours all have distances has one too.
proof fn lemma_entered(g: Seq<Seq<char>>, m: int, dv: Seq<Seq<i32>>, z: (int, int), y: (int, int))
    requires
        found_upto(g, m, dv, z, 4),
        adjacent(z, y),
        open_cell(g, m, y),
    ensures
        disc(dv, m, y),
{
    if z == (y.0 - 1, y.1) {
        assert(nb(z, 1) == y);
    } else if z == (y.0 + 1, y.1) {
        assert(nb(z, 0) == y);
    } else if z == (y.0, y.1 - 1) {
        assert(nb(z, 3) == y);
    } else {
        assert(nb(z, 2) == y);
    }
}

/// Taking the head off the queue starts the examination of its neighbours.
proof fn lemma_pop(g: Seq<Seq<char>>, m: int, s: (int, int), dv: Seq<Seq<i32>>, qc: Seq<(int, int)>, count: int)
    requires
        bfs_inv(g, m, s, dv, qc, count),
        qc.len() > 0,
    ensures
        step_inv(g, m, s, dv, qc.drop_first(), count, qc[0], 0),
{
    let x = qc[0];
    let q1 = qc.drop_first();
    assert forall|i: int| 0 <= i < q1.len() implies dval(dv, x) <= dval(dv, #[trigger] q1[i]) <= dval(dv, x) + 1 by {
        assert(q1[i] == qc[i + 1]);
        assert(dval(dv, qc[0]) <= dval(dv, qc[i + 1]));
        assert(dval(dv, qc[i + 1]) <= dval(dv, qc[qc.len() - 1]));
    }
    assert forall|i: int, j: int| 0 <= i <= j < q1.len() implies dval(dv, #[trigger] q1[i]) <= dval(dv, #[trigger] q1[j]) by {
        assert(q1[i] == qc[i + 1] && q1[j] == qc[j + 1]);
    }
    assert forall|i: int| 0 <= i < q1.len() implies disc(dv, m, #[trigger] q1[i]) by {
        assert(q1[i] == qc[i + 1]);
    }
    assert(!q1.contains(x)) by {
        if q1.contains(x) {
            let i = choose|i: int| 0 <= i < q1.len() && q1[i] == x;
            assert(qc[i + 1] == qc[0]);
        }
    }
    assert forall|z: (int, int)| #[trigger] disc(dv, m, z) && !q1.contains(z) && z != x implies found_upto(g, m, dv, z, 4) by {
        if qc.contains(z) {
            let i = choose|i: int| 0 <= i < qc.len() && qc[i] == z;
            assert(i != 0);
            assert(q1[i - 1] == z);
        }
    }
}

/// An open neighbour of `x` without a distance gets `x`'s distance plus one and joins the queue.
proof fn lemma_discover(
    g: Seq<Seq<char>>,
    m: int,
    s: (int, int),
    dv: Seq<Seq<i32>>,
    qc: Seq<(int, int)>,
    count: int,
    x: (int, int),
    j: int,
)
    requires
        step_inv(g, m, s, dv, qc, count, x, j),
        0 <= j < 4,
        open_cell(g, m, nb(x, j)),
        !disc(dv, m, nb(x, j)),
        dval(dv, x) + 1 <= i32::MAX,
    ensures
        ({
            let y = nb(x, j);
            let dv2 = dv.update(y.0, dv[y.0].update(y.1, (dval(dv, x) + 1) as i32));
            step_inv(g, m, s, dv2, qc.push(y), count + 1, x, j + 1)
        }),
{
    let y = nb(x, j);
    let d = dval(dv, x);
    let v = (d + 1) as i32;
    let dv2 = dv.update(y.0, dv[y.0].update(y.1, v));
    let q2 = qc.push(y);
    let n = g.len() as int;
    assert(0 <= y.0 < n && 0 <= y.1 < m);
    assert forall|w: (int, int)| on_grid(n, m, w) && w != y implies dv2[w.0][w.1] == dv[w.0][w.1] by {
        if w.0 == y.0 {
            assert(dv2[w.0] == dv[y.0].update(y.1, v));
        }
    }
    assert(dv2[y.0][y.1] == v);
    assert forall|w: (int, int)| #[trigger] disc(dv2, m, w) <==> disc(dv, m, w) || w == y by {
        if on_grid(n, m, w) && w != y {
            assert(dv2[w.0][w.1] == dv[w.0][w.1]);
        }
    }
    // the new distance is exact
    assert(x == nb(y, 0) || x == nb(y, 1) || x == nb(y, 2) || x == nb(y, 3));
    assert(exact(g, m, s, dv, x));
    assert(y != s);
    assert(reach(g, m, s, d as nat, x));
    assert(reach(g, m, s, (d + 1) as nat, y));
    assert forall|k: nat| k < d + 1 implies !#[trigger] reach(g, m, s, k, y) by {
        if reach(g, m, s, k, y) {
            assert(disc(dv, m, y));
        }
    }
    assert(exact(g, m, s, dv2, y));
    assert forall|w: (int, int)| #[trigger] disc(dv2, m, w) implies exact(g, m, s, dv2, w) && dval(dv2, w) < count + 1 by {
        if w != y {
            assert(disc(dv, m, w));
            assert(dv2[w.0][w.1] == dv[w.0][w.1]);
            assert(exact(g, m, s, dv, w));
        }
    }
    assert(!qc.contains(y)) by {
        if qc.contains(y) {
            let i = choose|i: int| 0 <= i < qc.len() && qc[i] == y;
            assert(disc(dv, m, qc[i]));
        }
    }
    assert forall|i: int| 0 <= i < qc.len() implies dv2[qc[i].0][qc[i].1] == dv[qc[i].0][qc[i].1] by {
        assert(disc(dv, m, qc[i]));
    }
    assert forall|i: int| 0 <= i < q2.len() implies disc(dv2, m, #[trigger] q2[i]) && d <= dval(dv2, q2[i]) <= d + 1 by {
        if i < qc.len() {
            assert(q2[i] == qc[i]);
            assert(disc(dv, m, qc[i]));
            assert(d <= dval(dv, qc[i]) <= d + 1);
        }
    }
    assert forall|i: int, k: int| 0 <= i <= k < q2.len() implies dval(dv2, #[trigger] q2[i]) <= dval(dv2, #[trigger] q2[k]) by {
        if k < qc.len() {
            assert(q2[i] == qc[i] && q2[k] == qc[k]);
            assert(dval(dv, qc[i]) <= dval(dv, qc[k]));
        } else if i < qc.len() {
            assert(q2[i] == qc[i]);
            assert(d <= dval(dv, qc[i]) <= d + 1);
        }
    }
    assert(q2.no_duplicates()) by {
        assert forall|a: int, b: int| 0 <= a < q2.len() && 0 <= b < q2.len() && a != b implies q2[a] != q2[b] by {
            if a < qc.len() && b < qc.len() {
                assert(q2[a] == qc[a] && q2[b] == qc[b]);
            } else if a < qc.len() {
                assert(qc.contains(q2[a]));
            } else if b < qc.len() {
                assert(qc.contains(q2[b]));
            }
        }
    }
    assert forall|z: (int, int)| #[trigger] disc(dv2, m, z) && !q2.contains(z) && z != x implies found_upto(g, m, dv2, z, 4) by {
        assert(q2[qc.len() as int] == y);
        assert(z != y);
        if qc.contains(z) {
            let i = choose|i: int| 0 <= i < qc.len() && qc[i] == z;
            assert(q2[i] == z);
        }
        assert(disc(dv, m, z));
        assert(found_upto(g, m, dv, z, 4));
        assert forall|i: int| 0 <= i < 4 && open_cell(g, m, #[trigger] nb(z, i)) implies disc(dv2, m, nb(z, i)) by {
            assert(disc(dv, m, nb(z, i)));
        }
    }
    assert forall|i: int| 0 <= i < j + 1 && open_cell(g, m, #[trigger] nb(x, i)) implies disc(dv2, m, nb(x, i)) by {
        if i < j {
            assert(disc(dv, m, nb(x, i)));
        }
    }
    assert(!q2.contains(x)) by {
        if q2.contains(x) {
            let i = choose|i: int| 0 <= i < q2.len() && q2[i] == x;
            if i < qc.len() {
                assert(qc[i] == x);
            }
        }
    }
    assert forall|yy: (int, int), k: nat| k <= d && #[trigger] reach(g, m, s, k, yy) implies disc(dv2, m, yy) by {
        assert(disc(dv, m, yy));
    }
    assert(dval(dv2, x) == d);
    lemma_rows_update(dv, y.0, y.1, v, n);
    lemma_rows_bound(dv2, m, n);
}

/// A neighbour of `x` that is off the grid, a wall or already has a distance changes nothing.
proof fn lemma_skip(
    g: Seq<Seq<char>>,
    m: int,
    s: (int, int),
    dv: Seq<Seq<i32>>,
    qc: Seq<(int, int)>,
    count: int,
    x: (int, int),
    j: int,
)
    requires
        step_inv(g, m, s, dv, qc, count, x, j),
        0 <= j < 4,
        !open_cell(g, m, nb(x, j)) || disc(dv, m, nb(x, j)),
    ensures
        step_inv(g, m, s, dv, qc, count, x, j + 1),
{
}

/// Once every neighbour of `x` has been examined, the search invariant holds again.
proof fn lemma_finish(
    g: Seq<Seq<char>>,
    m: int,
    s: (int, int),
    dv: Seq<Seq<i32>>,
    qc: Seq<(int, int)>,
    count: int,
    x: (int, int),
)
    requires
        step_inv(g, m, s, dv, qc, count, x, 4),
    ensures
        bfs_inv(g, m, s, dv, qc, count),
{
    let d = dval(dv, x);
    if qc.len() > 0 {
        let h = dval(dv, qc[0]);
        assert(d <= h <= d + 1);
        assert(dval(dv, qc[qc.len() - 1]) <= d + 1);
        assert forall|y: (int, int), k: nat| k <= h && #[trigger] reach(g, m, s, k, y) implies disc(dv, m, y) by {
            if k > d && y != s {
                let z = pred_cell(g, m, s, k, y);
                assert(disc(dv, m, z));
                assert(exact(g, m, s, dv, z));
                assert(dval(dv, z) <= d) by {
                    if dval(dv, z) > d {
                        assert(!reach(g, m, s, d as nat, z));
                    }
                }
                if z != x {
                    if qc.contains(z) {
                        let i = choose|i: int| 0 <= i < qc.len() && qc[i] == z;
                        assert(dval(dv, qc[0]) <= dval(dv, qc[i]));
                    }
                }
                lemma_entered(g, m, dv, z, y);
            }
        }
    }
}

/// With the queue empty, every cell the rescuer can reach has a distance.
proof fn lemma_complete(g: Seq<Seq<char>>, m: int, s: (int, int), dv: Seq<Seq<i32>>, count: int, k: nat, y: (int, int))
    requires
        bfs_inv(g, m, s, dv, Seq::empty(), count),
        reach(g, m, s, k, y),
    ensures
        disc(dv, m, y),
    decreases k,
{
    if y != s {
        let z = pred_cell(g, m, s, k, y);
        lemma_complete(g, m, s, dv, count, (k - 1) as nat, z);
        assert(!Seq::<(int, int)>::empty().contains(z));
        lemma_entered(g, m, dv, z, y);
    }
}

/// The cell found by `locate` lies on a non-empty rectangular grid.
proof fn lemma_locate_on_grid(grid: Seq<Seq<char>>, m: int, ch: char)
    requires
        grid.len() >= 1,
        m >= 1,
        rectangular(grid, m),
    ensures
        on_grid(grid.len() as int, m, locate(grid, ch)),
{
    lemma_last_in_rows(grid, m, ch, grid.len() as int);
}

proof fn lemma_last_in_rows(grid: Seq<Seq<char>>, m: int, ch: char, i: int)
    requires
        0 <= i <= grid.len(),
        rectangular(grid, m),
    ensures
        last_in_rows(grid, ch, i) matches Some(p) ==> 0 <= p.0 < i && 0 <= p.1 < m,
    decreases i,
{
    if i > 0 {
        lemma_last_in_rows(grid, m, ch, i - 1);
        lemma_last_in_row(grid[i - 1], ch, grid[i - 1].len() as int);
    }
}

proof fn lemma_last_in_row(row: Seq<char>, ch: char, j: int)
    ensures
        last_in_row(row, ch, j) matches Some(c) ==> 0 <= c < j,
    decreases j,
{
    if j > 0 {
        lemma_last_in_row(row, ch, j - 1);
    }
}

/// The `j`-th side neighbour of `x` when it lies on the `n` by `m` grid.
fn neighbour(x: (usize, usize), j: usize, n: usize, m: usize) -> (res: Option<(usize, usize)>)
    requires
        j < 4,
        x.0 < n,
        x.1 < m,
    ensures
        match res {
            Some(y) => on_grid(n as int, m as int, (y.0 as int, y.1 as int)) && (y.0 as int, y.1 as int)
                == nb((x.0 as int, x.1 as int), j as int),
            None => !on_grid(n as int, m as int, nb((x.0 as int, x.1 as int), j as int)),
        },
{
    if j == 0 {
        if x.0 == 0 { None } else { Some((x.0 - 1, x.1)) }
    } else if j == 1 {
        if x.0 + 1 >= n { None } else { Some((x.0 + 1, x.1)) }
    } else if j == 2 {
        if x.1 == 0 { None } else { Some((x.0, x.1 - 1)) }
    } else {
        if x.1 + 1 >= m { None } else { Some((x.0, x.1 + 1)) }
    }
}

/// The fewest moves from the rescuer `R` (the last one in reading order) to the target `B`
/// (likewise) through cells that are not walls `1`, or `None` when the target cannot be
/// reached. A missing `R` or `B` stands at the top-left corner.
pub fn rescue_steps(grid: &Vec<Vec<char>>) -> (res: Option<i32>)
    requires
        grid.len() >= 1,
        grid@[0].len() >= 1,
        rectangular(grid.deep_view(), grid@[0].len() as int),
        grid.len() * grid@[0].len() <= i32::MAX,
    ensures
        ({
            let g = grid.deep_view();
            let m = grid@[0].len() as int;
            let s = locate(g, 'R');
            let t = locate(g, 'B');
            match res {
                Some(d) => d >= 0 && shortest(g, m, s, t, d as nat),
                None => !reachable(g, m, s, t),
            }
        }),
{
    let n = grid.len();
    let m = grid[0].len();
    let ghost g = grid.deep_view();
    assert(g[0].len() == m);
    let s = find_cell(grid, 'R');
    let t = find_cell(grid, 'B');
    let ghost sg = (s.0 as int, s.1 as int);
    let ghost tg = (t.0 as int, t.1 as int);
    proof {
        lemma_locate_on_grid(g, m as int, 'R');
        lemma_locate_on_grid(g, m as int, 'B');
    }
    let mut dist: Vec<Vec<i32>> = Vec::new();
    let mut r: usize = 0;
    while r < n
        invariant
            r <= n,
            dist@.len() == r,
            forall|i: int| 0 <= i < r ==> #[trigger] dist@[i]@.len() == m,
            forall|i: int, c: int| 0 <= i < r && 0 <= c < m ==> dist@[i]@[c] == -1,
        decreases n - r,
    {
        let mut row: Vec<i32> = Vec::new();
        let mut c: usize = 0;
        while c < m
            invariant
                c <= m,
                row@.len() == c,
                forall|k: int| 0 <= k < c ==> row@[k] == -1,
            decreases m - c,
        {
            row.push(-1);
            c = c + 1;
        }
        dist.push(row);
        r = r + 1;
    }
    let ghost dv0 = dist.deep_view();
    proof {
        lemma_rows_blank(dv0, n as int);
        lemma_rows_update(dv0, sg.0, sg.1, 0, n as int);
    }
    dist[s.0][s.1] = 0;
    let mut queue: VecDeque<(usize, usize)> = VecDeque::new();
    queue.push_back(s);
    let mut count: usize = 1;
    proof {
        let dv = dist.deep_view();
        assert(dv =~~= dv0.update(sg.0, dv0[sg.0].update(sg.1, 0)));
        assert(qcells(queue@) =~= seq![sg]);
        assert forall|w: (int, int)| #[trigger] disc(dv, m as int, w) implies w == sg by {
            if w.0 == sg.0 {
                assert(dv[w.0] == dv0[sg.0].update(sg.1, 0));
            }
        }
        assert(dval(dv, sg) == 0);
        assert(reach(g, m as int, sg, 0, sg));
        assert forall|y: (int, int), k: nat| k <= 0 && #[trigger] reach(g, m as int, sg, k, y) implies disc(dv, m as int, y) by {
        }
        assert forall|z: (int, int)| #[trigger] disc(dv, m as int, z) && !qcells(queue@).contains(z) implies found_upto(g, m as int, dv, z, 4) by {
            assert(qcells(queue@)[0] == sg);
        }
        assert(1 <= n * m) by (nonlinear_arith) requires n >= 1, m >= 1;
        assert(bfs_inv(g, m as int, sg, dv, qcells(queue@), count as int));
    }
    loop
        invariant_except_break
            bfs_inv(g, m as int, sg, dist.deep_view(), qcells(queue@), count as int),
        invariant
            g == grid.deep_view(),
            n == g.len(),
            m == g[0].len(),
            rectangular(g, m as int),
            n * m <= i32::MAX,
            sg == (s.0 as int, s.1 as int),
            tg == (t.0 as int, t.1 as int),
            on_grid(n as int, m as int, sg),
            on_grid(n as int, m as int, tg),
        ensures
            shaped(dist.deep_view(), n as int, m as int),
            all_exact(g, m as int, sg, dist.deep_view(), count as int),
            disc(dist.deep_view(), m as int, tg) || !reachable(g, m as int, sg, tg),
        decreases 2 * (n * m - count) + queue@.len(),
    {
        let ghost q0 = qcells(queue@);
        match queue.pop_front() {
            None => {
                proof {
                    assert(q0 =~= Seq::<(int, int)>::empty());
                    if reachable(g, m as int, sg, tg) {
                        let k = choose|k: nat| #[trigger] reach(g, m as int, sg, k, tg);
                        lemma_complete(g, m as int, sg, dist.deep_view(), count as int, k, tg);
                    }
                }
                break;
            },
            Some(x) => {
                let ghost xg = (x.0 as int, x.1 as int);
                assert(q0[0] == xg);
                if x.0 == t.0 && x.1 == t.1 {
                    break;
                }
                proof {
                    lemma_pop(g, m as int, sg, dist.deep_view(), q0, count as int);
                    assert(qcells(queue@) =~= q0.drop_first());
                }
                proof {
                    let dv = dist.deep_view();
                    assert(dv[xg.0].len() == m);
                    assert(dist@[xg.0]@ == dv[xg.0]);
                }
                let d = dist[x.0][x.1];
                let ghost c0 = count;
                let ghost l0 = queue@.len();
                let mut j: usize = 0;
                while j < 4
                    invariant
                        g == grid.deep_view(),
                        n == g.len(),
                        m == g[0].len(),
                        rectangular(g, m as int),
                        n * m <= i32::MAX,
                        x.0 < n,
                        x.1 < m,
                        xg == (x.0 as int, x.1 as int),
                        j <= 4,
                        d as int == dval(dist.deep_view(), xg),
                        step_inv(g, m as int, sg, dist.deep_view(), qcells(queue@), count as int, xg, j as int),
                        c0 <= count,
                        queue@.len() == l0 + (count - c0),
                    decreases 4 - j,
                {
                    let ghost dv = dist.deep_view();
                    let ghost qc = qcells(queue@);
                    match neighbour(x, j, n, m) {
                        Some(y) => {
                            let ghost yg = (y.0 as int, y.1 as int);
                            assert(g[yg.0].len() == m);
                            assert(dv[yg.0].len() == m);
                            if grid[y.0][y.1] != '1' && dist[y.0][y.1] == -1 {
                                assert(all_exact(g, m as int, sg, dv, count as int));
                                assert(dval(dv, xg) < count);
                                proof {
                                    lemma_discover(g, m as int, sg, dv, qc, count as int, xg, j as int);
                                }
                                dist[y.0][y.1] = d + 1;
                                queue.push_back(y);
                                proof {
                                    assert(dist.deep_view() =~~= dv.update(yg.0, dv[yg.0].update(yg.1, (d + 1) as i32)));
                                    assert(qcells(queue@) =~= qc.push(yg));
                                    lemma_rows_bound(dist.deep_view(), m as int, n as int);
                                }
                                count = count + 1;
                            } else {
                                proof {
                                    lemma_skip(g, m as int, sg, dv, qc, count as int, xg, j as int);
                                }
                            }
                        },
                        None => {
                            proof {
                                lemma_skip(g, m as int, sg, dv, qc, count as int, xg, j as int);
                            }
                        },
                    }
                    j = j + 1;
                }
                proof {
                    lemma_finish(g, m as int, sg, dist.deep_view(), qcells(queue@), count as int, xg);
                }
            },
        }
    }
    proof {
        let dv = dist.deep_view();
        assert(dv[tg.0].len() == m);
    }
    let dt = dist[t.0][t.1];
    if dt == -1 {
        None
    } else {
        proof {
            assert(disc(dist.deep_view(), m as int, tg));
        }
        Some(dt)
    }
}

/// The `n` by `m` grid whose cell `(i, j)` is `chars[i * m + j]`.
pub fn grid_from_chars(chars: &Vec<char>, n: usize, m: usize) -> (grid: Vec<Vec<char>>)
    requires
        n * m <= chars.len(),
    ensures
        grid.len() == n,
        rectangular(grid.deep_view(), m as int),
        forall|i: int, j: int| 0 <= i < n && 0 <= j < m ==> #[trigger] grid.deep_view()[i][j] == chars@[i * m + j],
{
    let mut grid: Vec<Vec<char>> = Vec::new();
    let mut i: usize = 0;
    let mut k: usize = 0;
    while i < n
        invariant
            i <= n,
            n * m <= chars.len(),
            k == i * m,
            grid@.len() == i,
            forall|a: int| 0 <= a < i ==> #[trigger] grid@[a]@.len() == m,
            forall|a: int, b: int| 0 <= a < i && 0 <= b < m ==> grid@[a]@[b] == chars@[a * m + b],
        decreases n - i,
    {
        assert((i + 1) * m <= n * m) by (nonlinear_arith) requires i + 1 <= n;
        assert((i + 1) * m == i * m + m) by (nonlinear_arith);
        let mut row: Vec<char> = Vec::new();
        let mut j: usize = 0;
        while j < m
            invariant
                j <= m,
                k == i * m,
                k + m <= chars.len(),
                row@.len() == j,
                forall|b: int| 0 <= b < j ==> row@[b] == chars@[i * m + b],
            decreases m - j,
        {
            row.push(chars[k + j]);
            j = j + 1;
        }
        grid.push(row);
        k = k + m;
        i = i + 1;
    }
    proof {
        let gv = grid.deep_view();
        assert forall|a: int| 0 <= a < gv.len() implies #[trigger] gv[a].len() == m by {
            assert(gv[a] == grid@[a]@);
        }
        assert forall|a: int, b: int| 0 <= a < n && 0 <= b < m implies #[trigger] gv[a][b] == chars@[a * m + b] by {
            assert(gv[a] == grid@[a]@);
        }
    }
    grid
}

} // verus!
