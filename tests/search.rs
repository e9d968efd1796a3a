use minigrep::{contains, filter, search, search_case_insensitive, split_lines};

#[test]
fn case_sensitive_search() {
    let query = "duct";
    let contents = "\
Rust:
safe, fast, productive.
Pick three.
Duct tape.";

    assert_eq!(vec!["safe, fast, productive."], search(query, contents));
}

#[test]
fn case_insensitive_search() {
    let query = "rUsT";
    let contents = "\
Rust:
safe, fast, productive.
Pick three.
Trust me.";

    assert_eq!(
        vec!["Rust:", "Trust me."],
        search_case_insensitive(query, contents)
    );
}

#[test]
fn contains_finds_runs_of_bytes() {
    assert!(contains("safe, fast, productive.", "duct"));
    assert!(contains("abc", "abc"));
    assert!(contains("abc", ""));
    assert!(contains("", ""));
    assert!(!contains("Duct tape.", "duct"));
    assert!(!contains("ab", "abc"));
    assert!(!contains("", "a"));
}

#[test]
fn sensitive_filter_returns_only_matching_lines() {
    let contents = "one\ntwo\nthree\nfour";
    let found = search("o", contents);
    assert_eq!(vec!["one", "two", "four"], found);
    for line in &found {
        assert!(line.contains("o"));
    }
}

#[test]
fn insensitive_keeps_what_sensitive_keeps() {
    let contents = "Alpha\nbeta\nALPHABET\nalphabet soup";
    let query = "alpha";
    let sensitive = search(query, contents);
    let insensitive = search_case_insensitive(query, contents);
    assert_eq!(vec!["alphabet soup"], sensitive);
    assert_eq!(vec!["Alpha", "ALPHABET", "alphabet soup"], insensitive);
    for line in &sensitive {
        assert!(insensitive.contains(line));
    }
}

#[test]
fn empty_query_returns_every_line() {
    let contents = "first\n\nthird";
    assert_eq!(vec!["first", "", "third"], search("", contents));
    assert_eq!(vec!["first", "", "third"], search_case_insensitive("", contents));
}

#[test]
fn empty_content_returns_nothing() {
    assert!(search("x", "").is_empty());
    assert!(search("", "").is_empty());
    assert!(search_case_insensitive("x", "").is_empty());
    assert!(search_case_insensitive("", "").is_empty());
}

#[test]
fn lines_come_back_in_their_order() {
    let contents = "c1\nb\nc2\nc3\nd";
    assert_eq!(vec!["c1", "c2", "c3"], search("c", contents));
    assert_eq!(vec!["c1", "c2", "c3"], search_case_insensitive("C", contents));
}

#[test]
fn filtering_twice_changes_nothing() {
    let contents = "Rust:\nsafe, fast, productive.\nPick three.\nTrust me.\n\nrust";
    for case_sensitive in [true, false] {
        for query in ["rust", "", "e"] {
            let once = filter(query, contents, case_sensitive);
            let mut written = String::new();
            for line in &once {
                written.push_str(line);
                written.push('\n');
            }
            let twice = filter(query, &written, case_sensitive);
            assert_eq!(once, twice);
        }
    }
}

#[test]
fn filter_follows_the_mode() {
    let contents = "Rust:\nsafe, fast, productive.\nPick three.\nTrust me.";
    assert_eq!(vec!["Trust me."], filter("rust", contents, true));
    assert_eq!(vec!["Rust:", "Trust me."], filter("rust", contents, false));
}

#[test]
fn lines_split_on_newline_only() {
    assert_eq!(Vec::<&str>::new(), split_lines(""));
    assert_eq!(vec![""], split_lines("\n"));
    assert_eq!(vec!["a"], split_lines("a\n"));
    assert_eq!(vec!["a", ""], split_lines("a\n\n"));
    assert_eq!(vec!["", "b"], split_lines("\nb"));
    assert_eq!(vec!["a\r", "b"], split_lines("a\r\nb"));
    assert_eq!(vec!["ä", "ö"], split_lines("ä\nö"));
}

#[test]
fn carriage_return_stays_in_its_line() {
    assert_eq!(vec!["tape\r"], search("tape", "duct\r\ntape\r\n"));
    assert!(search("tape\n", "tape\r\n").is_empty());
}

#[test]
fn folding_reaches_beyond_ascii() {
    let contents = "ÄPFEL\nBirnen\näpfel";
    assert_eq!(vec!["äpfel"], search("äpfel", contents));
    assert_eq!(vec!["ÄPFEL", "äpfel"], search_case_insensitive("äpfel", contents));
}
