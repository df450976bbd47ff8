use minigrep::{search, search_case_insensitive, search_with, ComparisonMode};

#[test]
fn case_sensitive() {
    let query = "duct";
    let contents = "\
Rust:
safe, fast, productive.
Pick three.
Duct tape";

    assert_eq!(vec!["safe, fast, productive."], search(query, contents));
}

#[test]
fn case_insensitive() {
    let query = "rUsT";
    let contents = "\
Rust:
safe, fast, productive.
Pick three.
Trust me.";

    assert_eq!(
        vec!["Rust:", "Trust me."],
        search_case_insensitive(query, contents)
    );
}

#[test]
fn no_match_is_an_empty_result() {
    let contents = "Rust:\nsafe, fast, productive.\nPick three.";
    assert_eq!(Vec::<&str>::new(), search("zzz", contents));
    assert_eq!(Vec::<&str>::new(), search_case_insensitive("zzz", contents));
}

#[test]
fn empty_query_returns_every_line() {
    let contents = "Rust:\n\nsafe, fast, productive.\n  Pick three.\n";
    let every = vec!["Rust:", "", "safe, fast, productive.", "  Pick three."];
    assert_eq!(every, search("", contents));
    assert_eq!(every, search_case_insensitive("", contents));
}

#[test]
fn empty_document_has_no_lines() {
    assert_eq!(Vec::<&str>::new(), search("a", ""));
    assert_eq!(Vec::<&str>::new(), search("", ""));
    assert_eq!(Vec::<&str>::new(), search_case_insensitive("a", ""));
    assert_eq!(Vec::<&str>::new(), search_case_insensitive("", ""));
}

#[test]
fn a_line_with_several_occurrences_is_returned_once() {
    assert_eq!(vec!["aaaa", "banana"], search("a", "aaaa\nxyz\nbanana"));
    assert_eq!(vec!["aaaa"], search("aa", "aaaa\nxyz\nbanana"));
    assert_eq!(vec!["banana"], search("ana", "aaaa\nxyz\nbanana"));
}

#[test]
fn equal_lines_are_all_returned_in_order() {
    let contents = "one\ntwo\none\nthree one\ntwo";
    assert_eq!(vec!["one", "one", "three one"], search("one", contents));
    assert_eq!(vec!["two", "two"], search("two", contents));
}

#[test]
fn results_keep_the_order_of_the_document() {
    let contents = "c match\nb\na match\nd match";
    assert_eq!(
        vec!["c match", "a match", "d match"],
        search("match", contents)
    );
    assert_eq!(
        vec!["c match", "a match", "d match"],
        search_case_insensitive("MATCH", contents)
    );
}

#[test]
fn whitespace_is_not_trimmed() {
    let contents = "  lead\ntrail  \n\tTab";
    assert_eq!(vec!["  lead"], search(" lead", contents));
    assert_eq!(vec!["trail  "], search("l  ", contents));
    assert_eq!(Vec::<&str>::new(), search("l   ", contents));
    assert_eq!(vec!["\tTab"], search("\t", contents));
}

#[test]
fn a_query_never_spans_two_lines() {
    assert_eq!(Vec::<&str>::new(), search("a\nb", "a\nb"));
    assert_eq!(Vec::<&str>::new(), search("ab", "a\nb"));
    assert_eq!(Vec::<&str>::new(), search("\n", "a\nb\n"));
}

#[test]
fn query_longer_than_every_line() {
    assert_eq!(Vec::<&str>::new(), search("abcdef", "abc\ndef\nabcde"));
    assert_eq!(vec!["abcdef"], search("abcdef", "abc\nabcdef\nabcde"));
}

#[test]
fn query_at_the_start_and_at_the_end_of_a_line() {
    let contents = "needle first\nlast needle\nneedle\nneedl";
    assert_eq!(
        vec!["needle first", "last needle", "needle"],
        search("needle", contents)
    );
}

#[test]
fn carriage_return_before_a_line_feed_is_not_part_of_the_line() {
    let contents = "Rust:\r\nsafe\r\nTrust\r\n";
    assert_eq!(vec!["Rust:", "Trust"], search("ust", contents));
    assert_eq!(Vec::<&str>::new(), search("\r", contents));
    assert_eq!(vec!["a\rb"], search("\r", "a\rb\nc"));
}

#[test]
fn characters_of_several_bytes() {
    let contents = "caf\u{e9} noir\ncafe\n\u{65e5}\u{672c}\u{8a9e}\n\u{1f980} crab";
    assert_eq!(vec!["caf\u{e9} noir"], search("\u{e9}", contents));
    assert_eq!(vec!["\u{65e5}\u{672c}\u{8a9e}"], search("\u{672c}", contents));
    assert_eq!(vec!["\u{1f980} crab"], search("\u{1f980} c", contents));
    assert_eq!(Vec::<&str>::new(), search("\u{e8}", contents));
    assert_eq!(Vec::<&str>::new(), search("\u{c3}", contents));
}

#[test]
fn case_insensitive_keeps_the_letter_case_of_the_line() {
    let contents = "RUST in capitals\nrust in small\nRuSt mixed\nnone";
    assert_eq!(
        vec!["RUST in capitals", "rust in small", "RuSt mixed"],
        search_case_insensitive("rust", contents)
    );
    assert_eq!(
        vec!["RUST in capitals", "rust in small", "RuSt mixed"],
        search_case_insensitive("RUST", contents)
    );
    assert_eq!(vec!["rust in small"], search("rust", contents));
}

#[test]
fn case_insensitive_beyond_ascii() {
    let contents = "\u{c4}PFEL\n\u{e4}pfel\nApfel\n\u{394}\u{395}\u{39b}\u{3a4}\u{391}";
    assert_eq!(
        vec!["\u{c4}PFEL", "\u{e4}pfel"],
        search_case_insensitive("\u{e4}pf", contents)
    );
    assert_eq!(
        vec!["\u{c4}PFEL", "\u{e4}pfel"],
        search_case_insensitive("\u{c4}PF", contents)
    );
    assert_eq!(
        vec!["\u{394}\u{395}\u{39b}\u{3a4}\u{391}"],
        search_case_insensitive("\u{3b4}\u{3b5}\u{3bb}", contents)
    );
    assert_eq!(vec!["\u{e4}pfel"], search("\u{e4}pf", contents));
}

#[test]
fn searching_twice_gives_the_same_lines() {
    let contents = "Rust:\nsafe, fast, productive.\nPick three.\nTrust me.";
    assert_eq!(search("ust", contents), search("ust", contents));
    assert_eq!(
        search_case_insensitive("RUST", contents),
        search_case_insensitive("RUST", contents)
    );
}

#[test]
fn every_returned_line_holds_the_query_and_no_other_line_does() {
    let contents = "alpha\nbeta\ngamma\ndelta\n\nepsilon";
    let found = search("l", contents);
    assert_eq!(vec!["alpha", "delta", "epsilon"], found);
    for line in contents.lines() {
        assert_eq!(line.contains("l"), found.contains(&line));
    }
}

#[test]
fn every_returned_line_holds_the_query_in_lowercase() {
    let contents = "ALPHA\nBeta\ngamma\nDeLtA\n\nepsilon";
    let found = search_case_insensitive("L", contents);
    assert_eq!(vec!["ALPHA", "DeLtA", "epsilon"], found);
    for line in contents.lines() {
        assert_eq!(line.to_lowercase().contains("l"), found.contains(&line));
    }
}

#[test]
fn returned_lines_are_parts_of_the_document() {
    let contents = String::from("one\ntwo\nthree");
    let found = search("t", &contents);
    assert_eq!(vec!["two", "three"], found);
    let start = contents.as_ptr() as usize;
    assert_eq!(start + 4, found[0].as_ptr() as usize);
    assert_eq!(start + 8, found[1].as_ptr() as usize);
}

#[test]
fn search_with_follows_the_mode() {
    let contents = "Rust:\nsafe, fast, productive.\nPick three.\nTrust me.";
    assert_eq!(
        vec!["Trust me."],
        search_with(ComparisonMode::CaseSensitive, "rust", contents)
    );
    assert_eq!(
        vec!["Rust:", "Trust me."],
        search_with(ComparisonMode::CaseInsensitive, "rust", contents)
    );
    assert_eq!(
        search("", contents),
        search_with(ComparisonMode::CaseSensitive, "", contents)
    );
    assert_eq!(
        search_case_insensitive("", contents),
        search_with(ComparisonMode::CaseInsensitive, "", contents)
    );
}
