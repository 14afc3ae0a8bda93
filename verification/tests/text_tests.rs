use omp_hooks::outline::utf16_len;
use omp_hooks::text::{decimal_string, js_trim_str};

#[test]
fn js_trim_strips_ecmascript_whitespace_only() {
    assert_eq!(js_trim_str(" \t\u{feff}a b\u{3000}\r\n"), "a b");
    assert_eq!(js_trim_str("\u{85}x\u{85}"), "\u{85}x\u{85}");
    assert_eq!(js_trim_str("   "), "");
    assert_eq!(js_trim_str(""), "");
}

#[test]
fn utf16_len_counts_astral_characters_twice() {
    assert_eq!(utf16_len("abc"), 3);
    assert_eq!(utf16_len("a\u{1F600}"), 3);
    assert_eq!(utf16_len("é€"), 2);
    assert_eq!(utf16_len(""), 0);
}

#[test]
fn decimal_string_renders_integers() {
    assert_eq!(decimal_string(0), "0");
    assert_eq!(decimal_string(42), "42");
    assert_eq!(decimal_string(u64::MAX), "18446744073709551615");
}
