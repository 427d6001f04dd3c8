use hkwatch::text::{chars_of, decimal_string, string_of, trim, trim_bounds, truncate};
use hkwatch::watcher::{
    challenge_text, check, display_name, fetch_args, has_credentials, mark_solved, new_challenges,
    parse_env_line, poll_report, ring_after_poll, seen_count, solve_prompt, sort_strings, Challenge,
    FetchResult, PollAction, Seen, WatchState,
};

fn challenge(slug: &str, name: &str) -> Challenge {
    Challenge {
        slug: slug.to_string(),
        name: name.to_string(),
        body_html: String::new(),
        problem_statement: String::new(),
        input_format: String::new(),
        output_format: String::new(),
        constraints: String::new(),
        url: String::new(),
    }
}

fn poll(cs: Vec<Challenge>) -> FetchResult {
    FetchResult { contest: "c".to_string(), fetched_at: "t".to_string(), challenges: cs }
}

fn seen(slugs: &[&str]) -> Seen {
    Seen { slugs: slugs.iter().map(|s| s.to_string()).collect() }
}

fn slugs(cs: &[Challenge]) -> Vec<String> {
    cs.iter().map(|c| c.slug.clone()).collect()
}

#[test]
fn new_challenges_keeps_unseen_in_poll_order() {
    let r = poll(vec![challenge("b", "B"), challenge("a", "A"), challenge("c", "")]);
    let fresh = new_challenges(&r, &seen(&["a"]));
    assert_eq!(slugs(&fresh), vec!["b", "c"]);
    assert_eq!(fresh[0].name, "B");
}

#[test]
fn new_challenges_all_seen_or_empty() {
    let r = poll(vec![challenge("a", ""), challenge("b", "")]);
    assert!(new_challenges(&r, &seen(&["b", "a"])).is_empty());
    assert!(new_challenges(&poll(vec![]), &seen(&[])).is_empty());
}

#[test]
fn check_passes_on_fetch_errors() {
    let s = seen(&[]);
    match check(Err("boom".to_string()), &s) {
        Err(e) => assert_eq!(e, "boom"),
        Ok(_) => panic!("expected the fetch error"),
    }
    match check(Ok(poll(vec![challenge("x", "")])), &s) {
        Ok(fresh) => assert_eq!(slugs(&fresh), vec!["x"]),
        Err(_) => panic!("expected new challenges"),
    }
}

#[test]
fn marked_slug_is_never_new_again() {
    let r = poll(vec![challenge("p", ""), challenge("q", "")]);
    let mut s = seen(&[]);
    assert!(mark_solved(&mut s, "q"));
    assert_eq!(slugs(&new_challenges(&r, &s)), vec!["p"]);
    assert!(!mark_solved(&mut s, "q"));
    assert_eq!(s.slugs, vec!["q"]);
}

#[test]
fn unrecorded_slug_is_reported_again() {
    // removing a slug from the record makes its challenge new once more
    let r = poll(vec![challenge("p", ""), challenge("q", "")]);
    let s = seen(&["q"]);
    assert_eq!(slugs(&new_challenges(&r, &s)), vec!["p"]);
    let s2 = seen(&[]);
    assert_eq!(slugs(&new_challenges(&r, &s2)), vec!["p", "q"]);
}

#[test]
fn recording_a_poll_leaves_nothing_new() {
    let r = poll(vec![challenge("z", ""), challenge("m", ""), challenge("a", "")]);
    let mut s = seen(&["m"]);
    let fresh = new_challenges(&r, &s);
    for c in &fresh {
        mark_solved(&mut s, &c.slug);
    }
    assert!(new_challenges(&r, &s).is_empty());
    assert_eq!(s.slugs, vec!["a", "m", "z"]);
}

#[test]
fn mark_solved_keeps_record_sorted() {
    let mut s = seen(&[]);
    for x in ["delta", "alpha", "charlie", "bravo", "alph"] {
        assert!(mark_solved(&mut s, x));
    }
    assert_eq!(s.slugs, vec!["alph", "alpha", "bravo", "charlie", "delta"]);
}

#[test]
fn sort_strings_orders_by_code_points() {
    let mut v: Vec<String> = vec!["b", "B", "a", "é", "ab", "a"].into_iter().map(String::from).collect();
    sort_strings(&mut v);
    assert_eq!(v, vec!["B", "a", "a", "ab", "b", "é"]);
}

#[test]
fn seen_count_counts_distinct_slugs() {
    assert_eq!(seen_count(&seen(&[])), 0);
    assert_eq!(seen_count(&seen(&["a", "b", "a"])), 2);
}

#[test]
fn poll_report_lines() {
    let fresh = vec![challenge("x1", "First"), challenge("x2", "")];
    assert_eq!(poll_report(&fresh, &seen(&[])), vec!["NEW: [x1] First", "NEW: [x2] x2"]);
    assert_eq!(poll_report(&vec![], &seen(&["a", "b", "c"])), vec!["No new challenges (3 seen)."]);
    assert_eq!(poll_report(&vec![], &seen(&[])), vec!["No new challenges (0 seen)."]);
}

#[test]
fn display_name_falls_back_to_slug() {
    assert_eq!(display_name(&challenge("s", "")), "s");
    assert_eq!(display_name(&challenge("s", "Name")), "Name");
}

#[test]
fn ring_only_for_new_challenges() {
    assert!(ring_after_poll(&vec![challenge("a", "")], true));
    assert!(!ring_after_poll(&vec![challenge("a", "")], false));
    assert!(!ring_after_poll(&vec![], true));
}

#[test]
fn credentials_need_both_parts() {
    assert!(has_credentials("u", "p"));
    assert!(!has_credentials("", "p"));
    assert!(!has_credentials("u", ""));
}

#[test]
fn env_lines() {
    assert_eq!(parse_env_line("KEY=value"), Some(("KEY".to_string(), "value".to_string())));
    assert_eq!(parse_env_line("  K = V  "), Some(("K ".to_string(), " V".to_string())));
    assert_eq!(parse_env_line("A=b=c"), Some(("A".to_string(), "b=c".to_string())));
    assert_eq!(parse_env_line("X="), Some(("X".to_string(), String::new())));
    assert_eq!(parse_env_line("# comment=1"), None);
    assert_eq!(parse_env_line("   "), None);
    assert_eq!(parse_env_line("no equals"), None);
}

#[test]
fn fetch_arguments() {
    assert_eq!(fetch_args("f.js", "con", None, false, false), vec!["f.js", "con"]);
    assert_eq!(
        fetch_args("f.js", "con", Some(15), true, true),
        vec!["f.js", "con", "--watch", "--interval", "15", "--headless", "--login"]
    );
    assert_eq!(fetch_args("f.js", "con", None, false, has_credentials("u", "p")), vec!["f.js", "con", "--login"]);
}

#[test]
fn challenge_text_with_and_without_data() {
    assert_eq!(challenge_text("slug", None), "Challenge slug: slug");
    let mut c = challenge("s", "");
    c.url = "http://u".to_string();
    c.problem_statement = "PS".to_string();
    c.input_format = "IN".to_string();
    c.output_format = "OUT".to_string();
    c.constraints = "C".to_string();
    assert_eq!(
        challenge_text("s", Some(&c)),
        "Challenge: s\nURL: http://u\n\nPROBLEM STATEMENT:\nPS\n\nINPUT FORMAT:\nIN\n\nOUTPUT FORMAT:\nOUT\n\nCONSTRAINTS:\nC"
    );
    c.body_html = "<p>B</p>".to_string();
    c.name = "Nice".to_string();
    assert!(challenge_text("s", Some(&c)).starts_with("Challenge: Nice\nURL: http://u\n\nPROBLEM STATEMENT:\n<p>B</p>\n"));
}

#[test]
fn solve_prompt_mentions_folder() {
    let p = solve_prompt("TEXT", "/d");
    assert!(p.starts_with("Solve the following HackerRank contest challenge in Rust.\n\nTEXT\n\nTasks:\n1. Write a complete Rust program to /d/main.rs."));
    assert!(p.contains("Use `use std::io::{self, BufRead};` style"));
    assert!(p.contains("Create a test script /d/tests.sh that"));
    assert!(p.ends_with("Do not modify anything outside /d."));
}

#[test]
fn watch_state_skips_first_poll_then_solves() {
    let mut st = WatchState::new();
    assert!(st.first);
    match st.on_poll(vec![challenge("a", ""), challenge("b", "")], true, false) {
        PollAction::MarkSeen(s) => assert_eq!(s, vec!["a", "b"]),
        _ => panic!("first poll should record"),
    }
    assert!(!st.first);
    match st.on_poll(vec![challenge("c", "")], true, false) {
        PollAction::Solve(cs) => assert_eq!(slugs(&cs), vec!["c"]),
        _ => panic!("later polls solve"),
    }
    match st.on_poll(vec![challenge("d", "")], true, true) {
        PollAction::Report => {}
        _ => panic!("no-solve only reports"),
    }
}

#[test]
fn watch_state_without_skip_solves_first_poll() {
    let mut st = WatchState::new();
    match st.on_poll(vec![challenge("a", "")], false, false) {
        PollAction::Solve(cs) => assert_eq!(slugs(&cs), vec!["a"]),
        _ => panic!("first poll solves"),
    }
}

#[test]
fn truncate_long_and_short() {
    assert_eq!(truncate("hello", 5), "hello");
    assert_eq!(truncate("hello", 10), "hello");
    assert_eq!(truncate("hello", 2), "he\n...[truncated]");
    assert_eq!(truncate("héllo", 2), "hé\n...[truncated]");
    assert_eq!(truncate("", 0), "");
}

#[test]
fn trim_white_space() {
    assert_eq!(trim("  a b \t\n"), "a b");
    assert_eq!(trim("\u{3000}x\u{a0}"), "x");
    assert_eq!(trim("   "), "");
    let v: Vec<char> = " ab ".chars().collect();
    assert_eq!(trim_bounds(&v), (1, 3));
}

#[test]
fn decimal_and_char_helpers() {
    assert_eq!(decimal_string(0), "0");
    assert_eq!(decimal_string(907), "907");
    assert_eq!(decimal_string(u64::MAX), "18446744073709551615");
    let v = chars_of("añb");
    assert_eq!(v, vec!['a', 'ñ', 'b']);
    assert_eq!(string_of(&v, 1, 3), "ñb");
}
