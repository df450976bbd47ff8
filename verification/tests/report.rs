use minigrep::{run, Config};

fn config(query: &str, case_sensitive: bool) -> Config {
    Config {
        query: query.to_string(),
        filename: "poem.txt".to_string(),
        case_sensitive,
    }
}

#[test]
fn run_prints_contents_then_results() {
    let contents = "Rust:\nsafe, fast, productive.\nPick three.\nDuct tape";
    let output = run(&config("duct", true), contents);
    assert_eq!(
        "The file contains: \nRust:\nsafe, fast, productive.\nPick three.\nDuct tape\nResults:\nsafe, fast, productive.\n",
        output
    );
}

#[test]
fn run_without_letter_case() {
    let contents = "Rust:\nsafe, fast, productive.\nPick three.\nTrust me.";
    let output = run(&config("rUsT", false), contents);
    assert_eq!(
        "The file contains: \nRust:\nsafe, fast, productive.\nPick three.\nTrust me.\nResults:\nRust:\nTrust me.\n",
        output
    );
}

#[test]
fn run_with_nothing_found() {
    let output = run(&config("zzz", true), "one\ntwo\n");
    assert_eq!("The file contains: \none\ntwo\n\nResults:\n", output);
}

#[test]
fn run_on_an_empty_file() {
    let output = run(&config("a", false), "");
    assert_eq!("The file contains: \n\nResults:\n", output);
}

#[test]
fn run_prints_every_line_for_the_empty_query() {
    let output = run(&config("", true), "one\r\n\r\ntwo");
    assert_eq!("The file contains: \none\r\n\r\ntwo\nResults:\none\n\ntwo\n", output);
}
