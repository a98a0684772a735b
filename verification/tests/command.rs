use blitzmd::command::parse_command;
use blitzmd::command::parse_search_command;
use blitzmd::command::usage_text;
use blitzmd::command::Command;
use blitzmd::command::CommandError;
use blitzmd::command::SearchOptions;
use blitzmd::command::ValueFlag;

fn line(words: &[&str]) -> Vec<String> {
    words.iter().map(|w| w.to_string()).collect()
}

fn options(words: &[&str]) -> SearchOptions {
    match parse_command(&line(words)) {
        Ok(Command::Search(options)) => options,
        other => panic!("expected search command, got {other:?}"),
    }
}

fn error(words: &[&str]) -> CommandError {
    match parse_command(&line(words)) {
        Ok(command) => panic!("expected an error, got {command:?}"),
        Err(error) => error,
    }
}

#[test]
fn parse_search_command_accepts_query_and_flags() {
    let args = vec![
        "blitzmd".to_string(),
        "search".to_string(),
        "--limit".to_string(),
        "5".to_string(),
        "--deep".to_string(),
        "rust".to_string(),
        "async".to_string(),
    ];

    let command = parse_command(&args).expect("command should parse");
    match command {
        Command::Search(opts) => {
            assert_eq!(opts.limit, 5);
            assert!(opts.deep);
            assert_eq!(opts.query, "rust async");
        }
        _ => panic!("expected search command"),
    }
}

#[test]
fn parse_search_command_accepts_llm_flag() {
    let args = vec![
        "blitzmd".to_string(),
        "search".to_string(),
        "--llm".to_string(),
        "athenox".to_string(),
    ];

    let command = parse_command(&args).expect("command should parse");
    match command {
        Command::Search(opts) => {
            assert!(opts.llm);
            assert_eq!(opts.query, "athenox");
        }
        _ => panic!("expected search command"),
    }
}

#[test]
fn a_search_has_its_defaults() {
    let opts = options(&["blitzmd", "search", "rust"]);
    assert_eq!(opts.query, "rust");
    assert_eq!(opts.limit, 8);
    assert_eq!(opts.timeout_ms, 900);
    assert_eq!(opts.deep_limit, 3);
    assert!(!opts.json && !opts.llm && !opts.deep && !opts.verbose);
}

#[test]
fn flags_stand_anywhere_among_the_terms() {
    let opts = options(&[
        "blitzmd", "search", "a", "--json", "--timeout-ms", "+1500", "b", "-v", "--deep-limit", "2", "c",
    ]);
    assert_eq!(opts.query, "a b c");
    assert_eq!(opts.timeout_ms, 1500);
    assert_eq!(opts.deep_limit, 2);
    assert!(opts.json && opts.verbose);
}

#[test]
fn the_last_value_of_a_flag_counts() {
    let opts = options(&["blitzmd", "search", "--limit", "0", "x", "--limit", "4"]);
    assert_eq!(opts.limit, 4);
}

#[test]
fn a_flag_may_be_the_value_of_a_flag() {
    match error(&["blitzmd", "search", "x", "--limit", "--json"]) {
        CommandError::InvalidValue(ValueFlag::Limit, value) => assert_eq!(value, "--json"),
        other => panic!("{other:?}"),
    }
}

#[test]
fn a_url_is_the_first_word_that_is_no_flag() {
    match parse_command(&line(&["blitzmd", "--fast", "https://a.example", "-v", "https://b.example"])) {
        Ok(Command::Convert { url, verbose }) => {
            assert_eq!(url, "https://a.example");
            assert!(verbose);
        }
        other => panic!("{other:?}"),
    }
    match parse_command(&line(&["blitzmd", "https://a.example"])) {
        Ok(Command::Convert { url, verbose }) => {
            assert_eq!(url, "https://a.example");
            assert!(!verbose);
        }
        other => panic!("{other:?}"),
    }
}

#[test]
fn every_wrong_command_line_has_its_message() {
    let cases: Vec<(Vec<&str>, &str)> = vec![
        (vec![], "Missing command arguments."),
        (vec!["blitzmd"], "Missing command arguments."),
        (vec!["blitzmd", "-v"], "Missing URL argument."),
        (vec!["blitzmd", "search"], "Missing search query."),
        (vec!["blitzmd", "search", "--json"], "Missing search query."),
        (vec!["blitzmd", "search", "x", "--limit"], "--limit requires a value."),
        (vec!["blitzmd", "search", "x", "--timeout-ms"], "--timeout-ms requires a value."),
        (vec!["blitzmd", "search", "x", "--deep-limit"], "--deep-limit requires a value."),
        (vec!["blitzmd", "search", "x", "--limit", "ten"], "Invalid --limit value: ten"),
        (vec!["blitzmd", "search", "x", "--limit", "-1"], "Invalid --limit value: -1"),
        (vec!["blitzmd", "search", "x", "--limit", ""], "Invalid --limit value: "),
        (vec!["blitzmd", "search", "x", "--limit", "+"], "Invalid --limit value: +"),
        (
            vec!["blitzmd", "search", "x", "--timeout-ms", "18446744073709551616"],
            "Invalid --timeout-ms value: 18446744073709551616",
        ),
        (vec!["blitzmd", "search", "x", "--deep-limit", "1.5"], "Invalid --deep-limit value: 1.5"),
        (vec!["blitzmd", "search", "x", "--fast"], "Unknown search flag: --fast"),
        (vec!["blitzmd", "search", "x", "--limit", "0"], "--limit must be greater than zero."),
        (vec!["blitzmd", "search", "x", "--deep-limit", "0"], "--deep-limit must be greater than zero."),
    ];
    for (words, message) in cases {
        assert_eq!(error(&words).message(), message, "{words:?}");
    }
}

#[test]
fn numbers_are_read_as_the_standard_library_reads_them() {
    for text in ["0", "7", "007", "+12", "18446744073709551615", "18446744073709551616", "1_0", " 1", "1 ", "++1", "-0", "٣"] {
        let args = line(&["blitzmd", "search", "x", "--timeout-ms", text]);
        let read = match parse_search_command(&args) {
            Ok(Command::Search(opts)) => Some(opts.timeout_ms),
            _ => None,
        };
        assert_eq!(read, text.parse::<u64>().ok(), "{text:?}");
    }
}

#[test]
fn usage_names_the_program() {
    let text = usage_text("md");
    assert_eq!(
        text,
        "blitzmd - blazing-fast URL to Markdown converter + web search\n\nUsage:\n  md [--verbose] <URL>\n  md search [--limit N] [--timeout-ms MS] [--json] [--llm] [--deep] [--deep-limit N] [--verbose] <query>\n"
    );
}

#[test]
fn a_search_that_is_accepted_asks_for_something() {
    for words in [
        vec!["blitzmd", "search", "--limit", "1", "x"],
        vec!["blitzmd", "search", "", "--deep-limit", "9"],
    ] {
        let opts = options(&words);
        assert!(opts.limit > 0 && opts.deep_limit > 0);
    }
}
