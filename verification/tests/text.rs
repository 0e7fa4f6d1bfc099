use md_viewer::text::{push_decimal, strip_final_newline};

#[test]
fn decimal_numerals() {
    for (n, expected) in [(0u128, "0"), (7, "7"), (10, "10"), (1234567890, "1234567890")] {
        let mut out = String::from("#");
        push_decimal(&mut out, n);
        assert_eq!(out, format!("#{expected}"));
    }
    let mut out = String::new();
    push_decimal(&mut out, u128::MAX);
    assert_eq!(out, u128::MAX.to_string());
}

#[test]
fn final_newline_is_stripped_once() {
    assert_eq!(strip_final_newline("a\n"), "a");
    assert_eq!(strip_final_newline("a\n\n"), "a\n");
    assert_eq!(strip_final_newline("a"), "a");
    assert_eq!(strip_final_newline(""), "");
    assert_eq!(strip_final_newline("\n"), "");
    assert_eq!(strip_final_newline("ü\n"), "ü");
}
