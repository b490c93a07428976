use pageant_scoring::text::{
    candidate_display_name, decimal_text, short_decimal_text, signed_decimal_text, trim,
    two_decimals_text,
};

#[test]
fn trim_removes_surrounding_unicode_white_space() {
    assert_eq!(trim("  \t a b \u{3000}\n"), "a b");
    assert_eq!(trim("   "), "");
    assert_eq!(trim(""), "");
}

#[test]
fn display_name_layout() {
    let n = candidate_display_name(&"Ana".to_string(), &"Reyes".to_string(), &"Cruz".to_string());
    assert_eq!(n, "Cruz, Ana Reyes");
    let n = candidate_display_name(&"Ana".to_string(), &"".to_string(), &" Cruz".to_string());
    assert_eq!(n, "Cruz, Ana");
}

#[test]
fn integers_in_decimal() {
    assert_eq!(decimal_text(0), "0");
    assert_eq!(decimal_text(1203), "1203");
    assert_eq!(signed_decimal_text(-45), "-45");
    assert_eq!(signed_decimal_text(i64::MIN), i64::MIN.to_string());
}

#[test]
fn two_decimal_text() {
    assert_eq!(two_decimals_text(8400), "84.00");
    assert_eq!(two_decimals_text(5), "0.05");
    assert_eq!(two_decimals_text(720), "7.20");
}

#[test]
fn shortest_decimal_text() {
    assert_eq!(short_decimal_text(6000, 4), "0.6");
    assert_eq!(short_decimal_text(10000, 4), "1");
    assert_eq!(short_decimal_text(1250, 4), "0.125");
    assert_eq!(short_decimal_text(0, 4), "0");
    assert_eq!(short_decimal_text(1250, 2), "12.5");
    assert_eq!(short_decimal_text(600000, 6), "0.6");
    assert_eq!(short_decimal_text(7, 38), "0.00000000000000000000000000000000000007");
}
