use dlx::error::InputError;
use dlx::input::{is_blank, parse_items};
use dlx::render::{branch_code, code_str};
use dlx::search::Branch;

fn names(v: &[&str]) -> Vec<String> {
    v.iter().map(|s| s.to_string()).collect()
}

#[test]
fn parse_items_reads_primary_and_secondary_names() {
    let items = parse_items("a b c d | e f g\n").unwrap();
    assert_eq!(items.primary, names(&["a", "b", "c", "d"]));
    assert_eq!(items.secondary, names(&["e", "f", "g"]));
}

#[test]
fn parse_items_without_separator_has_no_secondary_names() {
    let items = parse_items("  one\ttwo  ").unwrap();
    assert_eq!(items.primary, names(&["one", "two"]));
    assert!(items.secondary.is_empty());
}

#[test]
fn parse_items_takes_a_separator_at_the_end() {
    let items = parse_items("x y|").unwrap();
    assert_eq!(items.primary, names(&["x", "y"]));
    assert!(items.secondary.is_empty());
    let items = parse_items("x|y").unwrap();
    assert_eq!(items.primary, names(&["x"]));
    assert_eq!(items.secondary, names(&["y"]));
}

#[test]
fn parse_items_rejects_what_is_not_ascii() {
    assert_eq!(parse_items("a b ç").err(), Some(InputError::NotAscii));
    assert_eq!(parse_items("é | | ").err(), Some(InputError::NotAscii));
}

#[test]
fn parse_items_rejects_a_second_separator() {
    assert_eq!(parse_items("a | b | c").err(), Some(InputError::SeparatorRepeated));
    assert_eq!(parse_items("||").err(), Some(InputError::SeparatorRepeated));
}

#[test]
fn parse_items_rejects_a_line_without_primary_names() {
    assert_eq!(parse_items("| a b").err(), Some(InputError::NoPrimaryItems));
    assert_eq!(parse_items("   |").err(), Some(InputError::NoPrimaryItems));
    assert_eq!(parse_items("").err(), Some(InputError::NoPrimaryItems));
}

#[test]
fn is_blank_knows_white_space() {
    assert!(is_blank(""));
    assert!(is_blank(" \t\r\n"));
    assert!(is_blank("\u{2003}"));
    assert!(!is_blank(" a "));
    assert!(!is_blank("|"));
}

#[test]
fn code_str_gives_digits_to_the_base_36() {
    for k in 0..40usize {
        let expected = char::from_digit(k as u32, 36).unwrap_or('*').to_string();
        assert_eq!(code_str(k), expected);
    }
    assert_eq!(code_str(usize::MAX), "*");
}

fn branches(v: &[(Option<usize>, usize)]) -> Vec<Branch> {
    v.iter().map(|&(position, length)| Branch { position, length }).collect()
}

#[test]
fn branch_code_lists_place_and_size_of_each_level() {
    let b = branches(&[(Some(1), 3), (Some(2), 2), (None, 11), (Some(36), 40)]);
    assert_eq!(branch_code(&b, 12), "13 22 ?b **");
    assert_eq!(branch_code(&b, 4), "13 22 ?b **");
}

#[test]
fn branch_code_cuts_long_lists_off() {
    let b = branches(&[(Some(1), 3), (Some(2), 2), (None, 11), (Some(36), 40)]);
    assert_eq!(branch_code(&b, 3), "13 22 ?b ...");
    assert_eq!(branch_code(&b, 1), "13 ...");
    assert_eq!(branch_code(&b, 0), "...");
}

#[test]
fn branch_code_of_no_level_is_empty() {
    assert_eq!(branch_code(&Vec::new(), 12), "");
    assert_eq!(branch_code(&Vec::new(), 0), "");
}

#[test]
fn branch_code_takes_the_largest_limit() {
    let b = branches(&[(Some(1), 1)]);
    assert_eq!(branch_code(&b, usize::MAX), "11");
}
