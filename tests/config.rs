use minigrep::{matching_lines, Config};

fn args(list: &[&str]) -> Vec<String> {
    list.iter().map(|s| s.to_string()).collect()
}

#[test]
fn build_without_arguments_misses_query() {
    assert_eq!(Some("Didn't get a query string"), Config::build(args(&[]), false).err());
    assert_eq!(
        Some("Didn't get a query string"),
        Config::build(args(&["prog"]), false).err()
    );
}

#[test]
fn build_without_path_misses_file_path() {
    assert_eq!(
        Some("Didn't get a file path"),
        Config::build(args(&["prog", "foo"]), false).err()
    );
}

#[test]
fn build_captures_query_and_path() {
    let config = Config::build(args(&["prog", "foo", "poem.txt"]), false).unwrap();
    assert_eq!("foo", config.query);
    assert_eq!("poem.txt", config.file_path);
    assert!(!config.ignore_case);
}

#[test]
fn build_ignores_extra_arguments_and_keeps_toggle() {
    let config = Config::build(args(&["prog", "q", "p", "extra", "more"]), true).unwrap();
    assert_eq!("q", config.query);
    assert_eq!("p", config.file_path);
    assert!(config.ignore_case);
}

#[test]
fn configured_search_follows_toggle() {
    let contents = "Rust:\nsafe, fast, productive.\nPick three.\nDuct tape.";
    let exact = Config::build(args(&["prog", "Pick", "poem.txt"]), false).unwrap();
    assert_eq!(vec!["Pick three."], matching_lines(&exact, contents));
    let folded = Config::build(args(&["prog", "pick", "poem.txt"]), true).unwrap();
    assert_eq!(vec!["Pick three."], matching_lines(&folded, contents));
    let exact_lower = Config::build(args(&["prog", "pick", "poem.txt"]), false).unwrap();
    assert!(matching_lines(&exact_lower, contents).is_empty());
}
