use hkwatch::harvest::find_window;
use hkwatch::life_path::Solver;
use hkwatch::rescue::{grid_from_chars, rescue_steps};
use hkwatch::route::plan_route;
use hkwatch::spell::{spell_counts, spell_counts_checked};
use hkwatch::tree::{check_tree, walk_tree};

fn grid(rows: &[&str]) -> Vec<Vec<char>> {
    let chars: Vec<char> = rows.iter().flat_map(|r| r.chars()).collect();
    grid_from_chars(&chars, rows.len(), rows[0].chars().count())
}

#[test]
fn grid_is_read_row_by_row() {
    let chars: Vec<char> = "abcdef".chars().collect();
    let g = grid_from_chars(&chars, 2, 3);
    assert_eq!(g, vec![vec!['a', 'b', 'c'], vec!['d', 'e', 'f']]);
    let extra: Vec<char> = "abcdefgh".chars().collect();
    assert_eq!(grid_from_chars(&extra, 3, 2), vec![vec!['a', 'b'], vec!['c', 'd'], vec!['e', 'f']]);
}

#[test]
fn rescue_goes_around_a_wall() {
    assert_eq!(rescue_steps(&grid(&["R00", "010", "00B"])), Some(4));
}

#[test]
fn rescue_trapped_behind_walls() {
    assert_eq!(rescue_steps(&grid(&["R1B"])), None);
    assert_eq!(rescue_steps(&grid(&["R0", "11", "0B"])), None);
}

#[test]
fn rescue_takes_the_shortest_of_several_routes() {
    let g = grid(&["R0000", "01110", "00000", "0111B"]);
    assert_eq!(rescue_steps(&g), Some(7));
}

#[test]
fn rescue_missing_marks_stand_at_the_corner() {
    // no R: the rescuer starts at the top-left corner
    assert_eq!(rescue_steps(&grid(&["0B"])), Some(1));
    // neither mark: start and target coincide
    assert_eq!(rescue_steps(&grid(&["00", "00"])), Some(0));
}

#[test]
fn rescue_uses_the_last_mark_in_reading_order() {
    // the second R is the rescuer's position
    assert_eq!(rescue_steps(&grid(&["R000RB"])), Some(1));
}

#[test]
fn harvest_finds_first_window_within_limit() {
    let a = vec![1, 2, 3, 4, 5];
    assert_eq!(find_window(&a, 2, 9), Some((3, 4)));
    assert_eq!(find_window(&a, 3, 9), Some((1, 3)));
    assert_eq!(find_window(&a, 5, 100), None);
    assert_eq!(find_window(&a, 1, 3), Some((2, 2)));
}

#[test]
fn harvest_misses_short_window_behind_a_zero() {
    // with a zero reading the scan keeps the longer window and misses [1, 1]
    assert_eq!(find_window(&vec![0, 5], 1, 5), None);
}

#[test]
fn harvest_empty_and_negative_target() {
    assert_eq!(find_window(&vec![], 3, 0), None);
    assert_eq!(find_window(&vec![1, 2], 2, -1), None);
}

fn brute_window(a: &[i64], k: usize, s: i64) -> Option<(usize, usize)> {
    for r in 0..a.len() {
        for l in 0..=r {
            if a[l..=r].iter().sum::<i64>() == s && r - l + 1 <= k {
                return Some((l, r));
            }
        }
    }
    None
}

#[test]
fn harvest_first_window_law_on_positive_values() {
    let a = vec![3, 1, 4, 1, 5, 9, 2, 6, 5, 3];
    for k in 1..6 {
        for s in 0..30 {
            assert_eq!(find_window(&a, k, s), brute_window(&a, k, s));
        }
    }
}

fn words(ws: &[&str]) -> Vec<Vec<u8>> {
    ws.iter().map(|w| w.as_bytes().to_vec()).collect()
}

#[test]
fn spell_counts_words_by_prefix() {
    let w = words(&["abc", "abd", "b"]);
    assert_eq!(spell_counts(&w, &b"abx".to_vec()), vec![2, 2, 0]);
    assert_eq!(spell_counts(&w, &b"abc".to_vec()), vec![2, 2, 1]);
    assert_eq!(spell_counts(&w, &b"bz".to_vec()), vec![1, 0]);
}

#[test]
fn spell_stays_zero_after_a_miss() {
    let w = words(&["a", "aa"]);
    assert_eq!(spell_counts(&w, &b"zA!".to_vec()), vec![0, 0, 0]);
    assert_eq!(spell_counts(&w, &b"aaa".to_vec()), vec![2, 1, 0]);
}

#[test]
fn spell_repeated_words_count_twice() {
    let w = words(&["ab", "ab", ""]);
    assert_eq!(spell_counts(&w, &b"ab".to_vec()), vec![2, 2]);
    assert_eq!(spell_counts(&w, &Vec::new()), Vec::<u32>::new());
}

fn undirected(n: usize, edges: &[(usize, usize)]) -> Vec<Vec<usize>> {
    let mut adj = vec![Vec::new(); n];
    for &(u, v) in edges {
        adj[u].push(v);
        adj[v].push(u);
    }
    adj
}

#[test]
fn route_visits_deliveries_and_ends_deepest() {
    let adj = undirected(4, &[(0, 1), (0, 2), (1, 3)]);
    assert_eq!(plan_route(&adj, &vec![false, false, true, true]), 4);
    assert_eq!(plan_route(&adj, &vec![false, false, false, true]), 2);
    assert_eq!(plan_route(&adj, &vec![false, false, true, false]), 1);
}

#[test]
fn route_without_deliveries_is_empty() {
    let adj = undirected(3, &[(0, 1), (1, 2)]);
    assert_eq!(plan_route(&adj, &vec![false, false, false]), 0);
    assert_eq!(plan_route(&adj, &vec![true, false, false]), 0);
    assert_eq!(plan_route(&vec![vec![]], &vec![true]), 0);
}

#[test]
fn walk_tree_roots_at_zero() {
    let adj = undirected(4, &[(0, 1), (1, 2), (1, 3)]);
    let (parent, depth, order) = walk_tree(&adj, 0);
    assert_eq!(parent[1], 0);
    assert_eq!(parent[2], 1);
    assert_eq!(parent[3], 1);
    assert_eq!(depth, vec![0, 1, 2, 2]);
    assert_eq!(order[0], 0);
    let mut sorted = order.clone();
    sorted.sort();
    assert_eq!(sorted, vec![0, 1, 2, 3]);
    let pos = |x: usize| order.iter().position(|&y| y == x).unwrap();
    assert!(pos(1) < pos(2) && pos(1) < pos(3));
}

fn tree32(n: usize, edges: &[(usize, usize)]) -> Vec<Vec<u32>> {
    let mut adj = vec![Vec::new(); n];
    for &(u, v) in edges {
        adj[u].push(v as u32);
        adj[v].push(u as u32);
    }
    adj
}

#[test]
fn life_path_skips_a_costly_node() {
    let adj = tree32(3, &[(0, 1), (1, 2)]);
    let s = Solver::new(1, adj.clone(), vec![5, -10, 3]);
    assert_eq!(s.best_value(), 8);
    let s0 = Solver::new(0, adj, vec![5, -10, 3]);
    assert_eq!(s0.best_value(), -2);
}

#[test]
fn life_path_picks_best_branch() {
    let adj = tree32(3, &[(0, 1), (0, 2)]);
    let s = Solver::new(0, adj, vec![1, 4, 6]);
    assert_eq!(s.best_value(), 7);
    assert_eq!(s.dfs(1), vec![4]);
}

#[test]
fn life_path_single_node() {
    let s = Solver::new(2, vec![vec![]], vec![-4]);
    assert_eq!(s.best_value(), -4);
    assert_eq!(s.dfs(0), vec![-4, -4, -4]);
}

#[test]
fn life_path_deeper_tree() {
    // 0 - 1 - 3, 0 - 2 - 4 - 5
    let adj = tree32(6, &[(0, 1), (1, 3), (0, 2), (2, 4), (4, 5)]);
    let value = vec![2, -1, 3, -8, -9, 10];
    // keeping everything: 2 + 3 - 9 + 10 = 6 beats 2 - 1 - 8 = -7
    assert_eq!(Solver::new(0, adj.clone(), value.clone()).best_value(), 6);
    // one node left out: drop -9 on the right branch
    assert_eq!(Solver::new(1, adj.clone(), value.clone()).best_value(), 15);
    // two left out: nothing else negative on that branch
    assert_eq!(Solver::new(2, adj, value).best_value(), 15);
}

#[test]
fn check_tree_accepts_trees() {
    assert!(check_tree(&undirected(4, &[(0, 1), (0, 2), (1, 3)])));
    assert!(check_tree(&undirected(3, &[(2, 1), (1, 0)])));
    assert!(check_tree(&vec![vec![]]));
}

#[test]
fn check_tree_refuses_other_graphs() {
    assert!(!check_tree(&vec![]));
    // a cycle
    assert!(!check_tree(&undirected(3, &[(0, 1), (1, 2), (2, 0)])));
    // two components
    assert!(!check_tree(&undirected(4, &[(0, 1), (2, 3)])));
    // the same road listed twice
    assert!(!check_tree(&undirected(2, &[(0, 1), (0, 1)])));
    // a loop at a node
    assert!(!check_tree(&vec![vec![0]]));
    // a neighbour that does not exist
    assert!(!check_tree(&vec![vec![1]]));
}

#[test]
fn check_tree_needs_children_listed_by_parents_only() {
    // a child listed by its parent alone still hangs from the root
    assert!(check_tree(&vec![vec![1], vec![]]));
    // a child that only lists its parent is out of reach from the root
    assert!(!check_tree(&vec![vec![], vec![0]]));
}

#[test]
fn spell_checked_reads_only_what_the_decoder_reads() {
    let w = words(&["ab", "b"]);
    assert_eq!(spell_counts_checked(&w, &b"abc".to_vec()), Some(vec![1, 1, 0]));
    // the byte after a prefix that no word has is never read
    assert_eq!(spell_counts_checked(&w, &b"zA".to_vec()), Some(vec![0, 0]));
    assert_eq!(spell_counts_checked(&w, &b"abcA!".to_vec()), Some(vec![1, 1, 0, 0, 0]));
    // a byte below 'a' that the decoder reads
    assert_eq!(spell_counts_checked(&w, &b"A".to_vec()), None);
    assert_eq!(spell_counts_checked(&w, &b"aA".to_vec()), None);
    assert_eq!(spell_counts_checked(&w, &Vec::new()), Some(vec![]));
}

#[test]
fn heavy_child_has_the_largest_subtree() {
    // 0 - 1, 0 - 2 - 3: node 2 carries two nodes, node 1 one
    let s = Solver::new(0, tree32(4, &[(0, 1), (0, 2), (2, 3)]), vec![0, 0, 0, 0]);
    assert_eq!(s.heavy[0], 2);
    assert_eq!(s.heavy[2], 3);
    assert_eq!(s.heavy[1], usize::MAX);
    // equal subtrees: the first child listed
    let t = Solver::new(0, tree32(3, &[(0, 2), (0, 1)]), vec![0, 0, 0]);
    assert_eq!(t.heavy[0], 2);
}

#[test]
fn best_value_ignores_neighbour_order() {
    let value = vec![2, -1, 3, -8, -9, 10];
    let a = Solver::new(1, tree32(6, &[(0, 1), (1, 3), (0, 2), (2, 4), (4, 5)]), value.clone());
    let b = Solver::new(1, tree32(6, &[(4, 5), (2, 4), (0, 2), (1, 3), (0, 1)]), value);
    assert_eq!(a.best_value(), b.best_value());
    assert_eq!(a.dfs(2), b.dfs(2));
}

#[test]
fn checked_search_agrees_or_reports_overflow() {
    let adj = tree32(6, &[(0, 1), (1, 3), (0, 2), (2, 4), (4, 5)]);
    let s = Solver::new(2, adj, vec![2, -1, 3, -8, -9, 10]);
    assert_eq!(s.dfs_checked(0), Some(s.dfs(0)));
    assert_eq!(s.dfs_checked(4), Some(s.dfs(4)));
    let big = Solver::new(0, tree32(2, &[(0, 1)]), vec![i32::MAX, 1]);
    assert_eq!(big.dfs_checked(0), None);
    assert_eq!(big.dfs_checked(1), Some(vec![1]));
    // leaving the root out avoids the overflowing sum, but the search still forms it
    let skip = Solver::new(1, tree32(2, &[(0, 1)]), vec![i32::MAX, 1]);
    assert_eq!(skip.dfs_checked(0), None);
    let low = Solver::new(1, tree32(3, &[(0, 1), (1, 2)]), vec![0, i32::MIN, 0]);
    assert_eq!(low.dfs_checked(0), None);
}

#[test]
fn dfs_of_a_leaf_needs_no_tree() {
    // a leaf is counted whatever the rest of the solver holds
    let s = Solver { m: 2, adj: vec![vec![5, 9]], parent: vec![3], heavy: vec![usize::MAX], value: vec![7] };
    assert_eq!(s.dfs(0), vec![7, 7, 7]);
}

#[test]
fn new_records_the_parents() {
    let s = Solver::new(0, tree32(4, &[(0, 1), (1, 2), (1, 3)]), vec![0, 0, 0, 0]);
    assert_eq!(s.parent, vec![4, 0, 1, 1]);
}
