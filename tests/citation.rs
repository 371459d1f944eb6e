use scripcit::book_linking::{book_split, Book};
use scripcit::roman_numerals::{convert_to_numbers, is_roman_numeral};

#[test]
fn citation_is_roman_upper_test() {
    let upper_numeral = "VI";
    assert!(is_roman_numeral(upper_numeral));
}

#[test]
fn citation_is_roman_lower_test() {
    let lower_numeral = "iv";
    assert!(is_roman_numeral(lower_numeral));
}

#[test]
fn citation_is_not_roman_test() {
    let lower_numeral = "XM";
    assert_eq!(is_roman_numeral(lower_numeral), false);
}

#[test]
fn citation_pure_roman_numeral() {
    let roman_numeral = "CMXC";
    assert!(is_roman_numeral(roman_numeral));
}

#[test]
fn citation_test_number_conversion() {
    let roman_numeral = "CMXC";
    assert_eq!(convert_to_numbers(&roman_numeral), 990);
}

#[test]
fn citation_consec_abbrev_match_test() {
    let nbook = Book::new("Genesis", "Genesis");
    let (num, abbrev) = book_split("Gen");
    assert_eq!(nbook.name_match(&abbrev, &num), true);
}

#[test]
fn citation_irregular_abbrev_match_test() {
    let nbook = Book::new("John", "John");
    let (num, abbrev) = book_split("Jn");
    assert!(nbook.name_match(&abbrev, &num));
    let (nnum, nabbrev) = book_split("Joh");
    assert!(nbook.name_match(&nabbrev, &nnum));
    let (wnum, wabbrev) = book_split("Jdg");
    assert!(!nbook.name_match(&wabbrev, &wnum));
}
