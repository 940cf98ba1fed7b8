use speeko::text::{decimal_string, str_lt, string_from_chars, trim_chars, zero_padded_decimal};

#[test]
fn decimal_strings() {
    assert_eq!(decimal_string(0), "0");
    assert_eq!(decimal_string(907), "907");
    assert_eq!(decimal_string(u64::MAX), "18446744073709551615");
    assert_eq!(zero_padded_decimal(5, 3), "005");
    assert_eq!(zero_padded_decimal(12345, 3), "12345");
}

#[test]
fn trimming_and_order() {
    let chars: Vec<char> = " \t hi there\u{3000}\n".chars().collect();
    assert_eq!(trim_chars(&chars), "hi there".chars().collect::<Vec<char>>());
    assert_eq!(string_from_chars(&['o', 'k']), "ok");
    assert!(str_lt("start", "stop"));
    assert!(str_lt("sta", "start"));
    assert!(!str_lt("stop", "stop"));
    assert!(!str_lt("b", "a"));
}
