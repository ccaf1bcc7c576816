use frism::size::{parse_size_suffix, parse_size_with, size_literal, SizeError};

fn parse(s: &str) -> usize {
    match parse_size_suffix(s) {
        Ok(n) => n,
        Err(e) => panic!("{:?}", e),
    }
}

#[test]
fn plain_number() {
    assert_eq!(parse("10"), 10);
}

#[test]
fn kibibytes() {
    assert_eq!(parse("10k"), 10240);
    assert_eq!(parse("10K"), 10240);
}

#[test]
fn mebibytes() {
    assert_eq!(parse("2m"), 2097152);
    assert_eq!(parse("2M"), 2097152);
}

#[test]
fn gibibytes() {
    assert_eq!(parse("1g"), 1073741824);
    assert_eq!(parse("1G"), 1073741824);
}

#[test]
fn spaced_tokens_are_joined() {
    let lit = size_literal(&vec!["1 0 k".to_string()]);
    assert_eq!(lit, "10k");
    assert_eq!(parse(&lit), 10240);
    let lit = size_literal(&vec!["1".to_string(), "00".to_string(), "0 000\tk".to_string()]);
    assert_eq!(lit, "1000000k");
    assert_eq!(parse(&lit), 1024000000);
}

#[test]
fn no_tokens_give_empty_literal() {
    assert_eq!(size_literal(&vec![]), "");
}

#[test]
fn letters_are_not_a_number() {
    match parse_size_suffix("abc") {
        Err(SizeError::NotANumber(lit)) => assert_eq!(lit, "abc"),
        other => panic!("{:?}", other),
    }
}

#[test]
fn empty_and_lone_letter_are_not_a_number() {
    assert!(matches!(parse_size_suffix(""), Err(SizeError::NotANumber(_))));
    assert!(matches!(parse_size_suffix("k"), Err(SizeError::NotANumber(_))));
    assert!(matches!(parse_size_suffix("+"), Err(SizeError::NotANumber(_))));
    assert!(matches!(parse_size_suffix("-5"), Err(SizeError::NotANumber(_))));
    assert!(matches!(parse_size_suffix("1.5k"), Err(SizeError::NotANumber(_))));
}

#[test]
fn only_one_letter_is_dropped() {
    assert!(matches!(parse_size_suffix("10kb"), Err(SizeError::NotANumber(_))));
}

#[test]
fn other_letter_counts_once() {
    assert_eq!(parse("10x"), 10);
    assert_eq!(parse("7B"), 7);
}

#[test]
fn plus_sign_is_accepted() {
    assert_eq!(parse("+5k"), 5120);
}

#[test]
fn zero_is_read_as_zero() {
    assert_eq!(parse("0"), 0);
    assert_eq!(parse("0g"), 0);
}

#[test]
fn too_large_values() {
    match parse_size_suffix("99999999999999999999999") {
        Err(SizeError::TooLarge(lit)) => assert_eq!(lit, "99999999999999999999999"),
        other => panic!("{:?}", other),
    }
    assert!(matches!(parse_size_suffix("20000000000g"), Err(SizeError::TooLarge(_))));
    assert_eq!(parse("18446744073709551615"), usize::MAX);
}

#[test]
fn flag_decides_what_is_dropped() {
    assert_eq!(parse_size_with("10k", true).unwrap(), 10240);
    assert!(matches!(parse_size_with("10k", false), Err(SizeError::NotANumber(_))));
    assert_eq!(parse_size_with("10", false).unwrap(), 10);
    assert_eq!(parse_size_with("10x", true).unwrap(), 10);
}

#[test]
fn non_ascii_letter_is_dropped() {
    assert_eq!(parse("12é"), 12);
}
