use minigrep::search;
use minigrep::search_case_insensitive;
use minigrep::search_with;
use minigrep::Config;

#[test]
fn one_result_case_sensitive() {
    let query = "duct";
    let contents = "\
Rust:
safe, fast, productive.
Pick three.
Duct tape.";

    assert_eq!(vec!["safe, fast, productive."], search(query, contents));
}

#[test]
fn one_result_case_insensitive() {
    let query = "rUsT";
    let contents = "\
Rust:
safe, fast, productive.
Pick three.
Trust me.";

    assert_eq!(
        vec!["Rust:", "Trust me."],
        search_case_insensitive(query, contents)
    );
}

#[test]
fn multiple_results() {
    let query = "man";
    let contents = "\
Only one thing man cannot do,
woman,
Ahmed
Abdallah
Omdurman
Man";
    assert_eq!(
        vec!["Only one thing man cannot do,", "woman,", "Omdurman"],
        search(query, contents)
    );
}

#[test]
fn multiple_results_case_insensitive() {
    let query = "man";
    let contents = "\
Only one thing man cannot do,
woman,
Ahmed
Abdallah
Omdurman
Man";
    assert_eq!(
        vec!["Only one thing man cannot do,", "woman,", "Omdurman", "Man"],
        search_case_insensitive(query, contents)
    );
}

#[test]
fn no_results() {
    let query = "Mazin";
    let contents = "\
Yeah everything about this is amazing.
What do you think?
'I didn't like it actually!'";
    assert_eq!(Vec::<&str>::new(), search(query, contents));
}

#[test]
fn no_results_case_insensitive() {
    let query = "Mazin";
    let contents = "\
Yeah everything about this is awesome.
What do you think?
'I didn't like it actually!'";
    assert_eq!(Vec::<&str>::new(), search(query, contents));
}

#[test]
fn no_results_with_case_insensitive_variant() {
    let query = "Mazin";
    let contents = "\
Yeah everything about this is awesome.
What do you think?
'I didn't like it actually!'";
    assert_eq!(
        Vec::<&str>::new(),
        search_case_insensitive(query, contents)
    );
}

#[test]
fn empty_query_matches_every_line() {
    let contents = "first\nsecond\nthird";
    assert_eq!(vec!["first", "second", "third"], search("", contents));
    assert_eq!(
        vec!["first", "second", "third"],
        search_case_insensitive("", contents)
    );
}

#[test]
fn empty_contents_has_no_lines() {
    assert_eq!(Vec::<&str>::new(), search("", ""));
    assert_eq!(Vec::<&str>::new(), search_case_insensitive("", ""));
}

#[test]
fn trailing_newline_opens_no_extra_line() {
    assert_eq!(vec!["last"], search("", "last\n"));
}

#[test]
fn crlf_is_a_single_line_break() {
    assert_eq!(vec!["one", "two"], search("", "one\r\ntwo"));
}

#[test]
fn lone_carriage_return_is_kept() {
    assert_eq!(vec!["a\rb"], search("", "a\rb"));
}

#[test]
fn blank_lines_are_lines() {
    assert_eq!(vec!["a", "", "b"], search("", "a\n\nb"));
}

#[test]
fn lowercasing_really_happens() {
    // An uppercase query can only reach a lowercase line through lowercasing.
    assert_eq!(vec!["trust me"], search_case_insensitive("RUST", "trust me"));
    // And an uppercase line can only be reached by a lowercase query the same way.
    assert_eq!(vec!["TRUST ME"], search_case_insensitive("rust", "TRUST ME"));
}

#[test]
fn case_sensitive_results_are_among_case_insensitive_ones() {
    let query = "man";
    let contents = "Only one thing man cannot do,\nwoman,\nOmdurman\nMan";
    let sensitive = search(query, contents);
    let insensitive = search_case_insensitive(query, contents);
    for line in &sensitive {
        assert!(insensitive.contains(line));
    }
}

#[test]
fn search_with_dispatches_on_the_mode() {
    let contents = "Rust:\nTrust me.";
    let sensitive = Config {
        query: String::from("rUsT"),
        file_path: String::from("poem.txt"),
        ignore_case: false,
    };
    let insensitive = Config {
        query: String::from("rUsT"),
        file_path: String::from("poem.txt"),
        ignore_case: true,
    };
    assert_eq!(Vec::<&str>::new(), search_with(&sensitive, contents));
    assert_eq!(
        vec!["Rust:", "Trust me."],
        search_with(&insensitive, contents)
    );
}
