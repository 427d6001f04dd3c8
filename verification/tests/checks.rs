use hkwatch::decode::{can_decode, decode};
use hkwatch::harvest::{find_window, window_scan_fits};
use hkwatch::heist::heist_in_range;
use hkwatch::resonance::prime_test_overflows;
use hkwatch::text::{parse_i64, parse_u64};
use hkwatch::watcher::{find_by_slug, Challenge};

fn challenge(slug: &str) -> Challenge {
    Challenge {
        slug: slug.to_string(),
        name: String::new(),
        body_html: String::new(),
        problem_statement: String::new(),
        input_format: String::new(),
        output_format: String::new(),
        constraints: String::new(),
        url: String::new(),
    }
}

#[test]
fn can_decode_accepts_well_formed_input() {
    assert!(can_decode("3[a2[c]]"));
    assert!(can_decode(""));
    assert!(can_decode("ab12"));
    // an unclosed bracket is read without error
    assert!(can_decode("1[a"));
    assert_eq!(decode("1[a"), "a");
}

#[test]
fn can_decode_refuses_stray_close_and_huge_counts() {
    assert!(!can_decode("]"));
    assert!(!can_decode("a]b"));
    assert!(!can_decode("2[a]]"));
    assert!(!can_decode("99999999999999999999[a]"));
    assert!(can_decode("18446744073709551615"));
    assert!(!can_decode("18446744073709551616"));
}

#[test]
fn window_scan_fits_detects_overflow() {
    assert!(window_scan_fits(&vec![], 3, 0));
    assert!(window_scan_fits(&vec![1, 2, 3], 2, 5));
    // the scan stops at the first window, before the sum of both readings
    assert!(window_scan_fits(&vec![i64::MAX, i64::MAX], 1, i64::MAX));
    assert_eq!(find_window(&vec![i64::MAX, i64::MAX], 1, i64::MAX), Some((0, 0)));
    assert!(window_scan_fits(&vec![i64::MAX, 1], 2, 0));
    assert!(!window_scan_fits(&vec![1, i64::MAX], 5, i64::MAX));
    assert!(!window_scan_fits(&vec![i64::MIN, -1], 2, 0));
}

#[test]
fn find_by_slug_returns_first_match() {
    let cs = vec![challenge("a"), challenge("b"), challenge("b")];
    assert_eq!(find_by_slug(&cs, "b"), Some(1));
    assert_eq!(find_by_slug(&cs, "a"), Some(0));
    assert_eq!(find_by_slug(&cs, "c"), None);
    assert_eq!(find_by_slug(&vec![], "a"), None);
}

#[test]
fn heist_range_check() {
    assert!(heist_in_range(&vec![]));
    assert!(heist_in_range(&vec![2, 2, 3, 3, 3, 4]));
    assert!(!heist_in_range(&vec![i64::MIN]));
    assert!(!heist_in_range(&vec![i64::MAX, i64::MAX]));
    assert!(heist_in_range(&vec![i64::MAX]));
    assert!(!heist_in_range(&vec![1, i64::MAX]));
    assert!(heist_in_range(&vec![-5, i64::MAX]));
}

#[test]
fn prime_test_overflow_only_for_large_primes() {
    assert!(!prime_test_overflows(7));
    assert!(!prime_test_overflows(4_294_836_225));
    assert!(!prime_test_overflows(4_294_967_295));
    // the largest u32 prime
    assert!(prime_test_overflows(4_294_967_291));
    // 4294967279 is prime too
    assert!(prime_test_overflows(4_294_967_279));
    assert!(!prime_test_overflows(4_294_967_281));
}

#[test]
fn number_parsing_matches_std() {
    use_parsers();
}

fn use_parsers() {
    let cases = ["0", "42", "+7", "-7", "-0", "", "+", "-", "1a", " 1", "007",
        "18446744073709551615", "18446744073709551616", "9223372036854775807",
        "9223372036854775808", "-9223372036854775808", "-9223372036854775809", "--1", "+-1"];
    for c in cases {
        assert_eq!(parse_u64(c), c.parse::<u64>().ok(), "u64 {c}");
        assert_eq!(parse_i64(c), c.parse::<i64>().ok(), "i64 {c}");
    }
}
