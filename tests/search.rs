use minigrep::lines::split_lines;
use minigrep::matcher::{search_lines, LineMatcher, SearchError};
use minigrep::{search, Config, QueryParams};

const POEM: &str = "\
Rust:
safe, fast, productive.
Pick three.
";

fn args(items: &[&str]) -> Vec<String> {
    items.iter().map(|s| s.to_string()).collect()
}

#[test]
fn one_result() {
    let params = QueryParams::new(
        "duct",
        "\
Rust:
safe, fast, productive.
Pick three.
		",
        false,
    );

    assert_eq!(Ok(vec!["safe, fast, productive."]), search(params));
}

#[test]
fn case_insensitive() {
    let params = QueryParams::new(
        "dUcT",
        "\
Rust:
safe, fast, productive.
Pick three.
",
        true,
    );

    assert_eq!(Ok(vec!["safe, fast, productive."]), search(params));
}

#[test]
fn substring_line_is_kept_in_order() {
    let doc = "first rust\nsecond\nthird rust line\nrust";
    let found = search(QueryParams::new("rust", doc, false)).unwrap();
    assert_eq!(found, vec!["first rust", "third rust line", "rust"]);
}

#[test]
fn case_variants_are_kept_when_ignoring_case() {
    let doc = "DUCT tape\nproduct\nnothing\nDuCt";
    let found = search(QueryParams::new("duct", doc, true)).unwrap();
    assert_eq!(found, vec!["DUCT tape", "product", "DuCt"]);
}

#[test]
fn empty_query_returns_every_line() {
    let found = search(QueryParams::new("", POEM, false)).unwrap();
    assert_eq!(found, vec!["Rust:", "safe, fast, productive.", "Pick three."]);
    let found = search(QueryParams::new("", "a\n\nb", true)).unwrap();
    assert_eq!(found, vec!["a", "", "b"]);
}

#[test]
fn absent_query_returns_empty() {
    assert_eq!(search(QueryParams::new("zebra", POEM, false)), Ok(vec![]));
    assert_eq!(search(QueryParams::new("zebra", POEM, true)), Ok(vec![]));
}

#[test]
fn repeated_search_is_identical() {
    let first = search(QueryParams::new("t", POEM, true));
    let second = search(QueryParams::new("t", POEM, true));
    assert_eq!(first, second);
    assert_eq!(first, Ok(vec!["Rust:", "safe, fast, productive.", "Pick three."]));
}

#[test]
fn uppercase_does_not_match_case_sensitive_query() {
    let found = search(QueryParams::new("duct", "DUCT", false)).unwrap();
    assert!(found.is_empty());
}

#[test]
fn single_argument_is_a_usage_error() {
    let a = args(&["minigrep", "duct"]);
    let r = Config::new(&a);
    assert_eq!(r.err(), Some("Provide at least 2 arguments: query filename"));
}

#[test]
fn two_arguments_make_a_case_sensitive_config() {
    let a = args(&["minigrep", "duct", "poem.txt"]);
    let c = Config::new(&a).unwrap();
    assert_eq!(c.query, "duct");
    assert_eq!(c.file_path, "poem.txt");
    assert!(!c.is_case_insensitive);
}

#[test]
fn third_argument_i_ignores_case() {
    let a = args(&["minigrep", "duct", "poem.txt", "i"]);
    assert!(Config::new(&a).unwrap().is_case_insensitive);
    let a = args(&["minigrep", "duct", "poem.txt", "I"]);
    assert!(!Config::new(&a).unwrap().is_case_insensitive);
    let a = args(&["minigrep", "duct", "poem.txt", "ii"]);
    assert!(!Config::new(&a).unwrap().is_case_insensitive);
}

#[test]
fn meta_characters_are_literal() {
    let doc = "abc\na.c\n(x)\nx";
    assert_eq!(search(QueryParams::new("a.c", doc, false)), Ok(vec!["a.c"]));
    assert_eq!(search(QueryParams::new("(x)", doc, false)), Ok(vec!["(x)"]));
    assert_eq!(search(QueryParams::new("A.C", doc, true)), Ok(vec!["a.c"]));
    assert_eq!(search(QueryParams::new("*", doc, false)), Ok(vec![]));
}

#[test]
fn last_line_without_newline_is_a_candidate() {
    assert_eq!(search(QueryParams::new("end", "start\nthe end", false)), Ok(vec!["the end"]));
}

#[test]
fn carriage_return_stays_in_line() {
    assert_eq!(search(QueryParams::new("b", "a\r\nb\r\n", false)), Ok(vec!["b\r"]));
}

#[test]
fn line_with_many_occurrences_is_kept_once() {
    assert_eq!(search(QueryParams::new("ab", "ababab\nx", false)), Ok(vec!["ababab"]));
}

#[test]
fn empty_document_has_no_lines() {
    assert_eq!(search(QueryParams::new("", "", false)), Ok(vec![]));
    assert!(split_lines("").is_empty());
}

#[test]
fn split_lines_keeps_empty_lines_and_drops_final_newline() {
    assert_eq!(split_lines("a\n\nb\n"), vec!["a", "", "b"]);
    assert_eq!(split_lines("\n"), vec![""]);
    assert_eq!(split_lines("héllo\nwörld"), vec!["héllo", "wörld"]);
}

#[test]
fn line_matcher_matches_single_lines() {
    let m = LineMatcher::new("Ünï", true).ok().unwrap();
    assert!(m.is_match("xxÜNÏyy"));
    assert!(!m.is_match("un"));
    let m = LineMatcher::new("x+", false).ok().unwrap();
    assert!(m.is_match("ax+b"));
    assert!(!m.is_match("xx"));
    let doc = "x+1\nxx\ny x+";
    assert_eq!(search_lines(&m, doc), vec!["x+1", "y x+"]);
}

#[test]
fn oversized_query_is_an_invalid_pattern() {
    let query = "k".repeat(500_000);
    assert_eq!(search(QueryParams::new(&query, "k", true)), Err(SearchError::InvalidPattern));
}
