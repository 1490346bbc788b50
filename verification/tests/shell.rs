use bed::shell::hint_suffix;
use bed::shell::validate_brackets;
use bed::shell::BracketValidation;

#[test]
fn brackets_balanced_is_valid() {
    assert_eq!(validate_brackets("(a[b]{c})"), BracketValidation::Valid);
    assert_eq!(validate_brackets("no brackets"), BracketValidation::Valid);
    assert_eq!(validate_brackets(""), BracketValidation::Valid);
}

#[test]
fn brackets_open_is_incomplete() {
    assert_eq!(validate_brackets("(a"), BracketValidation::Incomplete);
    assert_eq!(validate_brackets("([{"), BracketValidation::Incomplete);
}

#[test]
fn brackets_wrong_closer_is_mismatched() {
    assert_eq!(validate_brackets("(]"), BracketValidation::Mismatched('('));
    assert_eq!(validate_brackets("[ x }"), BracketValidation::Mismatched('['));
}

#[test]
fn brackets_closer_without_opener_is_unpaired() {
    assert_eq!(validate_brackets(")"), BracketValidation::Unpaired(')'));
    assert_eq!(validate_brackets("ab]cd"), BracketValidation::Unpaired(']'));
}

#[test]
fn hint_offers_rest_of_longer_entry() {
    assert_eq!(hint_suffix("10 PRINT X", "10 PR"), Some(String::from("INT X")));
}

#[test]
fn hint_declines_equal_entry() {
    assert_eq!(hint_suffix("10 PRINT X", "10 PRINT X"), None);
}

#[test]
fn hint_declines_non_prefix() {
    assert_eq!(hint_suffix("10 PRINT X", "20 P"), None);
    assert_eq!(hint_suffix("short", "longer line"), None);
}
