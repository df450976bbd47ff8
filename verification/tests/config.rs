use minigrep::config::{MISSING_FILENAME, MISSING_QUERY};
use minigrep::{ComparisonMode, Config};

fn arguments(words: &[&str]) -> Vec<String> {
    words.iter().map(|word| word.to_string()).collect()
}

#[test]
fn config_from_query_and_filename() {
    let config = Config::new(&arguments(&["minigrep", "duct", "poem.txt"]), None).unwrap();
    assert_eq!("duct", config.query);
    assert_eq!("poem.txt", config.filename);
    assert!(config.case_sensitive);
    assert_eq!(ComparisonMode::CaseSensitive, config.mode());
}

#[test]
fn config_without_a_query() {
    let outcome = Config::new(&arguments(&["minigrep"]), None);
    assert_eq!("No query string was found in the inputs", outcome.unwrap_err());
    let outcome = Config::new(&arguments(&[]), Some("1"));
    assert_eq!(MISSING_QUERY, outcome.unwrap_err());
}

#[test]
fn config_without_a_filename() {
    let outcome = Config::new(&arguments(&["minigrep", "duct"]), None);
    assert_eq!("No file name was found in the inputs", outcome.unwrap_err());
    let outcome = Config::new(&arguments(&["minigrep", "duct"]), Some(""));
    assert_eq!(MISSING_FILENAME, outcome.unwrap_err());
}

#[test]
fn config_ignores_further_arguments() {
    let config = Config::new(
        &arguments(&["minigrep", "duct", "poem.txt", "more", "and more"]),
        None,
    )
    .unwrap();
    assert_eq!("duct", config.query);
    assert_eq!("poem.txt", config.filename);
}

#[test]
fn config_ignores_letter_case_when_the_variable_is_set() {
    let args = arguments(&["minigrep", "duct", "poem.txt"]);
    for value in ["1", "0", "", "false", "no"] {
        let config = Config::new(&args, Some(value)).unwrap();
        assert!(!config.case_sensitive);
        assert_eq!(ComparisonMode::CaseInsensitive, config.mode());
    }
}

#[test]
fn config_takes_an_empty_query() {
    let config = Config::new(&arguments(&["minigrep", "", "poem.txt"]), None).unwrap();
    assert_eq!("", config.query);
    assert_eq!("poem.txt", config.filename);
}
