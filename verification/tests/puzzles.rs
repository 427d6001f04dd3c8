use hkwatch::decode::decode;
use hkwatch::fenwick::Fenwick;
use hkwatch::heist::max_heist;
use hkwatch::median::count_median_greater;
use hkwatch::resonance::{count_prime_pairings, is_prime};
use hkwatch::vault::min_weighings;

#[test]
fn vault_needs_one_weighing_for_no_coins() {
    assert_eq!(min_weighings(0), 1);
}

#[test]
fn vault_weighings_grow_with_powers_of_three() {
    // 2n + 3 against 3^k
    assert_eq!(min_weighings(1), 2);
    assert_eq!(min_weighings(3), 2);
    assert_eq!(min_weighings(4), 3);
    assert_eq!(min_weighings(12), 3);
    assert_eq!(min_weighings(13), 4);
    assert_eq!(min_weighings(1_000_000_000), 20);
}

#[test]
fn fenwick_prefix_sums_follow_adds() {
    let mut f = Fenwick::new(5);
    f.add(2, 3);
    f.add(4, -1);
    assert_eq!(f.sum(0), 0);
    assert_eq!(f.sum(1), 0);
    assert_eq!(f.sum(2), 3);
    assert_eq!(f.sum(3), 3);
    assert_eq!(f.sum(4), 2);
    assert_eq!(f.sum(5), 2);
}

#[test]
fn fenwick_extreme_values_that_cancel() {
    let mut f = Fenwick::new(2);
    f.add(1, i64::MAX);
    f.add(2, -i64::MAX);
    assert_eq!(f.sum(1), i64::MAX);
    assert_eq!(f.sum(2), 0);
}

#[test]
fn fenwick_adds_commute() {
    let mut f1 = Fenwick::new(5);
    let mut f2 = Fenwick::new(5);
    f1.add(2, 3);
    f1.add(4, -7);
    f1.add(2, 1);
    f2.add(4, -7);
    f2.add(2, 4);
    for i in 0..=5usize {
        assert_eq!(f1.sum(i), f2.sum(i));
    }
}

#[test]
fn fenwick_add_past_the_end_changes_nothing() {
    let mut f = Fenwick::new(3);
    f.add(1, 7);
    f.add(4, 100);
    f.add(9, 100);
    assert_eq!(f.sum(3), 7);
}

#[test]
fn fenwick_add_then_sum_law_on_values() {
    // raising position 3 raises exactly the prefix sums that reach it
    let mut f = Fenwick::new(6);
    f.add(1, 2);
    f.add(5, 4);
    let before: Vec<i64> = (0..=6).map(|i| f.sum(i)).collect();
    f.add(3, 10);
    for i in 0..=6usize {
        let expected = before[i] + if i >= 3 { 10 } else { 0 };
        assert_eq!(f.sum(i), expected);
    }
}

#[test]
fn median_counts_small_example() {
    // [2, 1, 3] against 1: every subarray but [1] has its median above 1
    assert_eq!(count_median_greater(&vec![2, 1, 3], 1), 5);
}

#[test]
fn median_counts_none_and_all() {
    assert_eq!(count_median_greater(&vec![1, 1, 1], 5), 0);
    assert_eq!(count_median_greater(&vec![9, 9, 9], 5), 6);
    assert_eq!(count_median_greater(&vec![], 0), 0);
}

#[test]
fn median_even_length_counts_upper_half() {
    // [6, 1]: exactly half above 4 is enough for the pair
    assert_eq!(count_median_greater(&vec![6, 1], 4), 2);
    // [1, 6, 1]: [6], [1,6], [6,1]
    assert_eq!(count_median_greater(&vec![1, 6, 1], 4), 3);
}

fn brute_median(a: &[i64], k: i64) -> i64 {
    let mut c = 0;
    for l in 0..a.len() {
        for r in l + 1..=a.len() {
            let g = a[l..r].iter().filter(|&&x| x > k).count();
            if 2 * g >= r - l {
                c += 1;
            }
        }
    }
    c
}

#[test]
fn median_matches_direct_count() {
    let a = vec![5, 3, 8, 1, 9, 2, 7, 7, 4, 6];
    for k in 0..10 {
        assert_eq!(count_median_greater(&a, k), brute_median(&a, k));
    }
}

#[test]
fn decode_nested_blocks() {
    assert_eq!(decode("3[a2[c]]"), "accaccacc");
    assert_eq!(decode("2[abc]3[cd]ef"), "abcabccdcdcdef");
}

#[test]
fn decode_plain_text_is_unchanged() {
    assert_eq!(decode("abc"), "abc");
    assert_eq!(decode(""), "");
    assert_eq!(decode("x y-z"), "x y-z");
}

#[test]
fn decode_repeat_block_law_on_values() {
    assert_eq!(decode("10[ab]"), "ab".repeat(10));
    assert_eq!(decode("0[x]y"), "y");
    assert_eq!(decode("1[q]"), "q");
}

#[test]
fn decode_repeat_of_nested_text() {
    // k[w] for any closed w repeats the decoding of w
    assert_eq!(decode("2[a3[b]c]"), decode("a3[b]c").repeat(2));
    assert_eq!(decode("3[2[x]y]"), "xxyxxyxxy");
    assert_eq!(decode("12[a]"), "a".repeat(12));
    assert_eq!(decode("0[2[q]]"), "");
}

#[test]
fn decode_of_concatenation() {
    let parts = ["ab", "2[c]", "3[d1[e]]", "x"];
    let whole: String = parts.concat();
    let pieces: String = parts.iter().map(|p| decode(p)).collect();
    assert_eq!(decode(&whole), pieces);
}

#[test]
fn decode_keeps_loose_numbers() {
    assert_eq!(decode("a12b"), "a12b");
    assert_eq!(decode("12"), "12");
    assert_eq!(decode("007"), "7");
    assert_eq!(decode("2[a]5"), "aa5");
}

#[test]
fn prime_small_values() {
    assert!(!is_prime(0));
    assert!(!is_prime(1));
    assert!(is_prime(2));
    assert!(is_prime(3));
    assert!(!is_prime(4));
    assert!(!is_prime(9));
    assert!(is_prime(97));
    assert!(!is_prime(91));
    assert!(is_prime(65521));
    assert!(!is_prime(4294836225));
}

#[test]
fn pairings_count_prime_matchings() {
    // 1+2, 3+4 and 1+4, 2+3 are prime splits; 1+3 is not
    assert_eq!(count_prime_pairings(&vec![1, 2, 3, 4]), Some(2));
    assert_eq!(count_prime_pairings(&vec![1, 1]), Some(1));
    assert_eq!(count_prime_pairings(&vec![2, 2]), Some(0));
}

#[test]
fn pairings_all_ones_are_all_matchings() {
    // 1 + 1 = 2 is prime, so every perfect matching counts: 7 * 5 * 3 * 1
    assert_eq!(count_prime_pairings(&vec![1; 8]), Some(105));
    // 15 * 13 * ... * 1
    assert_eq!(count_prime_pairings(&vec![1; 16]), Some(2_027_025));
}

#[test]
fn pairings_odd_and_empty() {
    assert_eq!(count_prime_pairings(&vec![1, 2, 3]), Some(0));
    assert_eq!(count_prime_pairings(&vec![]), Some(1));
}

#[test]
fn heist_takes_best_non_adjacent_values() {
    assert_eq!(max_heist(&vec![3, 4, 2]), 6);
    assert_eq!(max_heist(&vec![2, 2, 3, 3, 3, 4]), 9);
    assert_eq!(max_heist(&vec![1, 1, 1, 5]), 8);
    assert_eq!(max_heist(&vec![]), 0);
}

#[test]
fn heist_negative_value_is_taken_when_isolated() {
    assert_eq!(max_heist(&vec![-1]), -1);
    assert_eq!(max_heist(&vec![-3, 5]), 2);
}

fn brute_heist(a: &[i64]) -> i64 {
    let mut keys: Vec<i64> = a.to_vec();
    keys.sort();
    keys.dedup();
    let mut best = i64::MIN;
    for mask in 0u32..(1 << keys.len()) {
        let mut ok = true;
        let mut total = 0;
        for i in 0..keys.len() {
            if mask & (1 << i) != 0 {
                for j in 0..keys.len() {
                    if mask & (1 << j) != 0 && keys[j] == keys[i] + 1 {
                        ok = false;
                    }
                }
                total += keys[i] * a.iter().filter(|&&x| x == keys[i]).count() as i64;
            }
        }
        if ok && total > best {
            best = total;
        }
    }
    best
}

#[test]
fn heist_is_best_take_for_nonnegative_values() {
    let inputs: Vec<Vec<i64>> = vec![
        vec![1, 2, 3, 4, 5, 6],
        vec![5, 5, 6, 7, 7, 7, 8, 10, 11],
        vec![0, 1, 1, 2, 9, 9, 10],
        vec![4, 4, 4, 5, 5, 6, 6, 6, 6],
    ];
    for a in inputs {
        assert_eq!(max_heist(&a), brute_heist(&a));
    }
}
