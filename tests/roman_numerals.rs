use scripcit::roman_numerals::{convert_str_to_address_num, convert_to_numbers, is_roman_numeral};

#[test]
fn roman_numerals_is_roman_upper_test() {
    let upper_numeral = "VI";
    assert!(is_roman_numeral(upper_numeral));
}

#[test]
fn roman_numerals_is_roman_lower_test() {
    let lower_numeral = "iv";
    assert!(is_roman_numeral(lower_numeral));
}

#[test]
fn roman_numerals_is_not_roman_test() {
    let lower_numeral = "XM";
    assert_eq!(is_roman_numeral(lower_numeral), false);
}

#[test]
fn roman_numerals_pure_roman_numeral() {
    let roman_numeral = "CMXC";
    assert!(is_roman_numeral(roman_numeral));
}

#[test]
fn roman_numerals_test_number_conversion() {
    let roman_numeral = "CMXC";
    assert_eq!(convert_to_numbers(&roman_numeral), 990);
}

#[test]
fn lib_is_roman_upper_test() {
    let upper_numeral = "VI";
    assert!(is_roman_numeral(upper_numeral));
}

#[test]
fn lib_is_roman_lower_test() {
    let lower_numeral = "iv";
    assert!(is_roman_numeral(lower_numeral));
}

#[test]
fn lib_is_not_roman_test() {
    let lower_numeral = "XM";
    assert_eq!(is_roman_numeral(lower_numeral), false);
}

#[test]
fn lib_pure_roman_numeral() {
    let roman_numeral = "CMXC";
    assert!(is_roman_numeral(roman_numeral));
}

#[test]
fn lib_test_number_conversion() {
    let roman_numeral = "CMXC";
    assert_eq!(convert_to_numbers(&roman_numeral), 990);
}

#[test]
fn strict_form_rejects_malformed_numerals() {
    assert!(!is_roman_numeral("IIII"));
    assert!(!is_roman_numeral("VV"));
    assert!(!is_roman_numeral("IC"));
    assert!(!is_roman_numeral("MMMM"));
    assert!(!is_roman_numeral("vi."));
    assert!(!is_roman_numeral(" iv"));
    assert!(is_roman_numeral("MMMDCCCLXXXVIII"));
    assert!(is_roman_numeral("xliv"));
    assert!(is_roman_numeral(""));
}

#[test]
fn conversion_values() {
    assert_eq!(convert_to_numbers("MMMDCCCLXXXVIII"), 3888);
    assert_eq!(convert_to_numbers("xliv"), 44);
    assert_eq!(convert_to_numbers("  IX \n"), 9);
    assert_eq!(convert_to_numbers("MCMXCIV"), 1994);
}

#[test]
fn to_optional_number_reads_roman_and_decimal() {
    assert_eq!(convert_str_to_address_num(&String::from("iv")), Some(4));
    assert_eq!(convert_str_to_address_num(&String::from("990")), Some(990));
    assert_eq!(convert_str_to_address_num(&String::from("CMXC")), Some(990));
    assert_eq!(convert_str_to_address_num(&String::from("-12")), Some(-12));
    assert_eq!(convert_str_to_address_num(&String::from("40000")), None);
    assert_eq!(convert_str_to_address_num(&String::from("abc")), None);
    assert_eq!(convert_str_to_address_num(&String::from("3a")), None);
    assert_eq!(convert_str_to_address_num(&String::from("")), Some(0));
}
