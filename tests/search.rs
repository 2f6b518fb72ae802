use minigrep::text::contains;
use minigrep::{search, search_case_insensitive};

#[test]
fn case_sensitive() {
    let query = "duct";
    let contents = "\
Rust:
safe, fast, productive.
Pick three.
Duct tape.";

    assert_eq!(vec!["safe, fast, productive."], search(query, contents));
}

#[test]
fn case_insensitive() {
    let query = "rUsT";
    let contents = "\
Rust:
safe, fast, productive.
Pick three.
Trust me.";

    assert_eq!(
        vec!["Rust:", "Trust me."],
        search_case_insensitive(query, contents)
    );
}

const POEM: &str = "Rust:\nsafe, fast, productive.\nPick three.\nDuct tape.";

#[test]
fn sensitive_search_keeps_order_and_exact_case() {
    assert_eq!(vec!["Pick three."], search("Pick", POEM));
    assert_eq!(Vec::<&str>::new(), search("pick", POEM));
    assert_eq!(vec!["Rust:", "safe, fast, productive."], search("s", POEM));
}

#[test]
fn insensitive_search_with_lowercase_query_finds_same_line() {
    assert_eq!(vec!["Pick three."], search_case_insensitive("pick", POEM));
}

#[test]
fn insensitive_result_covers_sensitive_result() {
    for query in ["Rust", "a", "e.", "Duct", "x"] {
        let exact = search(query, POEM);
        let folded = search_case_insensitive(query, POEM);
        for line in exact {
            assert!(folded.contains(&line));
        }
    }
}

#[test]
fn repeated_searches_agree() {
    assert_eq!(search("t", POEM), search("t", POEM));
    assert_eq!(
        search_case_insensitive("T", POEM),
        search_case_insensitive("T", POEM)
    );
}

#[test]
fn empty_query_matches_every_line() {
    let all = vec!["Rust:", "safe, fast, productive.", "Pick three.", "Duct tape."];
    assert_eq!(all, search("", POEM));
    assert_eq!(all, search_case_insensitive("", POEM));
}

#[test]
fn empty_content_has_no_lines() {
    assert!(search("a", "").is_empty());
    assert!(search("", "").is_empty());
    assert!(search_case_insensitive("a", "").is_empty());
    assert!(search_case_insensitive("", "").is_empty());
}

#[test]
fn crlf_terminators_are_removed() {
    assert_eq!(vec!["one", "two"], search("o", "one\r\ntwo\r\nsix"));
    assert_eq!(vec!["", "x"], search("", "\r\nx\n"));
    assert_eq!(vec!["a\r"], search("a", "a\r"));
}

#[test]
fn trailing_line_feed_adds_no_line() {
    assert_eq!(vec!["a", ""], search("", "a\n\n"));
    assert_eq!(vec!["a"], search("", "a\n"));
}

#[test]
fn query_longer_than_line_never_matches() {
    assert!(search("productive!", "productive").is_empty());
}

#[test]
fn insensitive_search_lowers_non_ascii_letters() {
    assert_eq!(vec!["ÉCOLE"], search_case_insensitive("école", "ÉCOLE\nschool"));
    assert!(search("école", "ÉCOLE\nschool").is_empty());
}

#[test]
fn insensitive_search_returns_original_text() {
    assert_eq!(vec!["HeLLo"], search_case_insensitive("LL", "HeLLo\nbye"));
    assert_eq!(vec!["HeLLo"], search_case_insensitive("ll", "HeLLo\nbye"));
}

#[test]
fn substring_containment() {
    assert!(contains("productive", "duct"));
    assert!(contains("abc", ""));
    assert!(!contains("", "a"));
    assert!(!contains("Duct", "duct"));
    assert!(contains("ababc", "abc"));
}
