use minigrep::config::{MISSING_FILENAME, MISSING_QUERY};
use minigrep::Config;

fn args(words: &[&str]) -> Vec<String> {
    words.iter().map(|w| w.to_string()).collect()
}

#[test]
fn config_takes_query_and_file_name() {
    let config = Config::new(args(&["minigrep", "to", "poem.txt", "extra"]), false).unwrap();
    assert_eq!("to", config.query);
    assert_eq!("poem.txt", config.filename);
    assert!(!config.case_sensitive);
    let config = Config::new(args(&["minigrep", "to", "poem.txt"]), true).unwrap();
    assert!(config.case_sensitive);
}

#[test]
fn config_without_query_is_refused() {
    assert_eq!(MISSING_QUERY, Config::new(args(&[]), true).unwrap_err());
    assert_eq!(MISSING_QUERY, Config::new(args(&["minigrep"]), true).unwrap_err());
    assert_eq!("Didn't get a query string", MISSING_QUERY);
}

#[test]
fn config_without_file_name_is_refused() {
    assert_eq!(MISSING_FILENAME, Config::new(args(&["minigrep", "to"]), true).unwrap_err());
    assert_eq!("Didn't get a file name", MISSING_FILENAME);
}
