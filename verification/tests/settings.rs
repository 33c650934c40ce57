use dlx::config::Config;
use dlx::text::{decimal, is_whitespace, parse_number, split_words};

fn build(args: &[&str]) -> Result<Config, &'static str> {
    let args: Vec<String> = args.iter().map(|a| a.to_string()).collect();
    Config::build(&args)
}

#[test]
fn no_arguments_give_the_defaults() {
    let c = build(&[]).unwrap();
    assert!(!c.show_first());
    assert!(!c.help());
    assert_eq!(c.get_solution_interval(), 0);
    assert_eq!(c.get_level_limit(), 12);
    assert!(!c.preprocess());
    assert_eq!(c.get_report_delta(), 5);
    assert_eq!(c.get_randomization_seed(), None);
    assert_eq!(c.get_timeout(), None);
    assert!(!c.is_verbose());
}

#[test]
fn long_options_are_read() {
    let c = build(&[
        "dlx",
        "--show-first",
        "--solution-interval",
        "3",
        "--level-limit",
        "7",
        "--preprocess",
        "--report",
        "11",
        "--randomize",
        "42",
        "--timeout",
        "60",
        "--verbose",
    ])
    .unwrap();
    assert!(c.show_first());
    assert!(!c.help());
    assert_eq!(c.get_solution_interval(), 3);
    assert_eq!(c.get_level_limit(), 7);
    assert!(c.preprocess());
    assert_eq!(c.get_report_delta(), 11);
    assert_eq!(c.get_randomization_seed(), Some(42));
    assert_eq!(c.get_timeout(), Some(60));
    assert!(c.is_verbose());
}

#[test]
fn short_options_are_read() {
    let c = build(&["-f", "-i", "2", "-l", "0", "-p", "-r", "1", "-s", "9", "-t", "0", "-v"])
        .unwrap();
    assert!(c.show_first());
    assert_eq!(c.get_solution_interval(), 2);
    assert_eq!(c.get_level_limit(), 0);
    assert!(c.preprocess());
    assert_eq!(c.get_report_delta(), 1);
    assert_eq!(c.get_randomization_seed(), Some(9));
    assert_eq!(c.get_timeout(), Some(0));
    assert!(c.is_verbose());
}

#[test]
fn help_ends_the_reading() {
    let c = build(&["-f", "--help", "-v", "-i", "oops"]).unwrap();
    assert!(c.help());
    assert!(c.show_first());
    assert!(!c.is_verbose());
    assert_eq!(c.get_solution_interval(), 0);
    assert!(build(&["-h"]).unwrap().help());
}

#[test]
fn the_last_value_of_an_option_counts() {
    let c = build(&["-t", "5", "-t", "6"]).unwrap();
    assert_eq!(c.get_timeout(), Some(6));
}

#[test]
fn what_is_no_option_is_passed_over() {
    let c = build(&["program", "input.txt", "--unknown", "5", "-v"]).unwrap();
    assert!(c.is_verbose());
    assert_eq!(c.get_level_limit(), 12);
}

#[test]
fn a_value_is_taken_even_if_it_looks_like_an_option() {
    assert_eq!(
        build(&["-i", "-v"]).err(),
        Some("--solution-interval (-i) requires an integer argument")
    );
    let c = build(&["-i", "4", "-v"]).unwrap();
    assert_eq!(c.get_solution_interval(), 4);
    assert!(c.is_verbose());
}

#[test]
fn a_missing_number_is_complained_of() {
    assert_eq!(
        build(&["--solution-interval"]).err(),
        Some("--solution-interval (-i) requires an integer argument")
    );
    assert_eq!(
        build(&["-l"]).err(),
        Some("--level-limit (-l) requires an integer argument")
    );
    assert_eq!(build(&["-r"]).err(), Some("--report (-r) requires an integer argument"));
    assert_eq!(build(&["-s"]).err(), Some("--randomize (-s) requires an integer argument"));
    assert_eq!(build(&["-t"]).err(), Some("--timeout (-t) requires an integer argument"));
}

#[test]
fn what_is_no_number_is_complained_of() {
    assert_eq!(
        build(&["-l", "twelve"]).err(),
        Some("--level-limit (-l) requires an integer argument")
    );
    assert_eq!(
        build(&["--report", "1.5"]).err(),
        Some("--report (-r) requires an integer argument")
    );
    assert_eq!(
        build(&["--randomize", "-1"]).err(),
        Some("--randomize (-s) requires an integer argument")
    );
    assert_eq!(
        build(&["--timeout", ""]).err(),
        Some("--timeout (-t) requires an integer argument")
    );
    assert_eq!(
        build(&["--timeout", "18446744073709551616"]).err(),
        Some("--timeout (-t) requires an integer argument")
    );
    assert_eq!(
        build(&["-v", "--timeout", " 5"]).err(),
        Some("--timeout (-t) requires an integer argument")
    );
}

#[test]
fn the_first_complaint_is_given() {
    assert_eq!(
        build(&["-r", "x", "-t", "y"]).err(),
        Some("--report (-r) requires an integer argument")
    );
}

#[test]
fn parse_number_reads_what_the_standard_library_reads() {
    for text in [
        "0",
        "7",
        "+7",
        "007",
        "18446744073709551615",
        "18446744073709551616",
        "99999999999999999999999",
        "000000000000000000000000000018",
        "",
        "+",
        "-",
        "-0",
        "++1",
        "1+",
        "1 ",
        " 1",
        "1_000",
        "0x10",
        "12a",
        "١٢",
        "1e3",
    ] {
        assert_eq!(parse_number(text, u64::MAX), text.parse::<u64>().ok(), "{text:?}");
    }
    for text in ["255", "256", "+255", "0256", "300", "25", "2555"] {
        assert_eq!(
            parse_number(text, 255),
            text.parse::<u8>().ok().map(|v| v as u64),
            "{text:?}"
        );
    }
}

#[test]
fn decimal_writes_numbers() {
    assert_eq!(decimal(0), "0");
    assert_eq!(decimal(7), "7");
    assert_eq!(decimal(10), "10");
    assert_eq!(decimal(1234567890), "1234567890");
    assert_eq!(decimal(usize::MAX), usize::MAX.to_string());
}

#[test]
fn split_words_splits_like_the_standard_library() {
    for text in [
        "",
        " ",
        "a",
        " a",
        "a ",
        "a b",
        "  alpha\tbeta\n\ngamma \r\n",
        "x\u{b}y\u{c}z",
        "non\u{a0}breaking\u{2003}em\u{3000}wide",
        "zero\u{200b}width",
        "\u{85}\u{1680}\u{2028}\u{2029}\u{202f}\u{205f}q",
        "ünï cödé",
    ] {
        let expected: Vec<String> = text.split_whitespace().map(String::from).collect();
        assert_eq!(split_words(text), expected, "{text:?}");
    }
}

#[test]
fn is_whitespace_agrees_with_the_standard_library() {
    for code in 0..=0x3100u32 {
        if let Some(c) = char::from_u32(code) {
            assert_eq!(is_whitespace(c), c.is_whitespace(), "{code:#x}");
        }
    }
    assert!(!is_whitespace('\u{feff}'));
    assert!(!is_whitespace('\u{10ffff}'));
}
