use automosaic::bytes::{push_le, read_le};
use automosaic::media::Platform;
use automosaic::paths::{join, roots_from, Route};
use automosaic::probe::is_number;
use automosaic::text::{
    chars_of, contains, decimal, decimal_padded, ends_with, find, lines_of, parse_number, same, same_ignoring_case,
    split_on, starts_with, text_of, trimmed,
};

fn c(s: &str) -> Vec<char> {
    chars_of(s)
}

#[test]
fn numbers_in_decimal() {
    assert_eq!(decimal(0), "0");
    assert_eq!(decimal(u64::MAX), u64::MAX.to_string());
    assert_eq!(decimal_padded(42, 8), "00000042");
    assert_eq!(decimal_padded(123456789, 8), "123456789");
    assert_eq!(parse_number(&c("+007"), 10), Some(7));
    assert_eq!(parse_number(&c("11"), 10), None);
    assert_eq!(parse_number(&c(""), 10), None);
    assert_eq!(parse_number(&c("99999999999999999999"), u64::MAX), None);
}

#[test]
fn numbers_that_may_be_fractions() {
    for s in ["1", "1.", ".5", "1.5", "-2", "+3e5", "1E-3", "inf", "-Infinity", "NaN"] {
        assert!(is_number(&c(s)) && s.parse::<f64>().is_ok(), "{s}");
    }
    for s in ["", ".", "1.2.3", "e5", "1e", "--1", "0x1", "N/A", "1 "] {
        assert!(!is_number(&c(s)) && s.parse::<f64>().is_err(), "{s}");
    }
}

#[test]
fn pieces_of_texts() {
    assert_eq!(find(&c("abcabc"), &c("ca")), Some(2));
    assert_eq!(find(&c("abc"), &c("x")), None);
    assert!(contains(&c("abc"), &c("")) && starts_with(&c("abc"), &c("ab")) && ends_with(&c("abc"), &c("bc")));
    let parts: Vec<String> = split_on(&c("a,,b"), ',').iter().map(|p| text_of(p)).collect();
    assert_eq!(parts, ["a", "", "b"]);
    let lines: Vec<String> = lines_of(&c("a\r\nb\n\nc")).iter().map(|p| text_of(p)).collect();
    assert_eq!(lines, ["a", "b", "", "c"]);
    assert_eq!(text_of(&trimmed(&c(" \t x y\n"))), "x y");
    assert!(same("ab", "ab") && !same("ab", "aB") && same_ignoring_case(&c("aB"), &c("Ab")));
}

#[test]
fn paths_are_joined_and_taken_apart() {
    assert_eq!(join(Platform::Unix, "a", "b"), "a/b");
    assert_eq!(join(Platform::Unix, "a/", "b"), "a/b");
    assert_eq!(join(Platform::Unix, "a", "/b"), "/b");
    assert_eq!(join(Platform::Unix, "", "b"), "b");
    let r = Route::parse(Platform::Unix, "/a//b/./c");
    assert_eq!(r.parts, ["a", "b", "c"]);
    assert_eq!(r.parent().unwrap().render(Platform::Unix), "/a/b");
    assert!(Route::parse(Platform::Unix, "/").parent().is_none());
}

#[test]
fn roots_are_distinct() {
    let r = roots_from(Platform::Unix, Some("/a/b/exe"), Some("/a"));
    assert_eq!(r, ["/a/b", "/a", "/"]);
}

#[test]
fn little_end_first() {
    let mut b = vec![9];
    push_le(&mut b, 0x0102_0304, 4);
    assert_eq!(b, [9, 4, 3, 2, 1]);
    assert_eq!(read_le(&b, 1, 4), 0x0102_0304);
}

#[test]
fn paths_on_windows() {
    let w = Platform::Windows;
    let r = roots_from(w, Some(r"C:\Program Files\app\app.exe"), Some(r"D:\work"));
    assert_eq!(r, [r"C:\Program Files\app", r"C:\Program Files", r"C:\", r"D:\work", r"D:\"]);
    assert_eq!(join(w, r"C:\m", "frame"), r"C:\m\frame");
    assert_eq!(join(w, r"C:\m/", "frame"), r"C:\m/frame");
    assert_eq!(join(w, r"C:\m", r"D:\x"), r"D:\x");
    assert_eq!(join(w, r"C:\m", r"\x"), r"C:\x");
    assert_eq!(join(w, "C:", "x"), "C:x");
    assert_eq!(join(w, r"C:\m", r"\\box\share\x"), r"\\box\share\x");
    let p = Route::parse(w, r"\\box\share\a/b");
    assert_eq!((p.prefix.as_str(), p.absolute), (r"\\box\share", true));
    assert_eq!(p.parent().unwrap().render(w), r"\\box\share\a");
    assert_eq!(Route::parse(w, r".\a").render(w), r".\a");
    // Elsewhere a backslash is a letter like any other.
    assert_eq!(Route::parse(Platform::Unix, r"a\b").parts, [r"a\b"]);
}
