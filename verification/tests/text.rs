//! Text operations, held against those of std.

use inspect_core::text::{
    begins_with, chars_of, contains, has_string, is_whitespace, join, lines, string_of, string_set,
    to_ascii_lowercase, trim,
};

const TEXTS: &[&str] = &[
    "",
    "a",
    "\n",
    "\n\n",
    "\r\n",
    "\r",
    "a\r",
    "a\r\r\n",
    "a\nb",
    "a\r\nb\r\n",
    "a\n\nb\n",
    "  a b \t\n",
    "\u{a0}x\u{2003}",
    "\u{feff}x\u{200b}",
    "ÄÖ\nß",
    "AbC-XyZ[@`{",
];

#[test]
fn white_space_is_that_of_std() {
    for c in (0..=0x10ffff).filter_map(char::from_u32) {
        assert_eq!(is_whitespace(c), c.is_whitespace(), "{c:?}");
    }
}

#[test]
fn lines_trim_and_lower_case_are_those_of_std() {
    for s in TEXTS {
        let expected: Vec<String> = s.lines().map(|l| l.to_string()).collect();
        assert_eq!(lines(s), expected, "{s:?}");
        assert_eq!(trim(s), s.trim(), "{s:?}");
        assert_eq!(to_ascii_lowercase(s), s.to_ascii_lowercase(), "{s:?}");
    }
}

#[test]
fn prefixes_and_parts_are_those_of_std() {
    for s in TEXTS {
        let chars = chars_of(s);
        for t in ["", "a", "\n", "a\n", " ", "b", "ß", "AbC", "yZ["] {
            assert_eq!(begins_with(&chars, t), s.starts_with(t), "{s:?} {t:?}");
            assert_eq!(contains(&chars, t), s.contains(t), "{s:?} {t:?}");
        }
    }
}

#[test]
fn parts_of_a_text() {
    let chars = chars_of("häuser");
    assert_eq!(string_of(&chars, 0, 6), "häuser");
    assert_eq!(string_of(&chars, 1, 3), "äu");
    assert_eq!(string_of(&chars, 2, 2), "");
}

#[test]
fn joining() {
    let parts: Vec<String> = ["a", "", "b", "c"].iter().map(|s| s.to_string()).collect();
    assert_eq!(join(&parts, 0, 4, "\n"), "a\n\nb\nc");
    assert_eq!(join(&parts, 2, 4, ", "), "b, c");
    assert_eq!(join(&parts, 3, 4, "-"), "c");
    assert_eq!(join(&parts, 1, 1, "-"), "");
}

#[test]
fn membership() {
    let v: Vec<String> = ["a", "b", "a"].iter().map(|s| s.to_string()).collect();
    assert!(has_string(&v, &"b".to_string()));
    assert!(!has_string(&v, &"c".to_string()));
    let set = string_set(&v);
    assert_eq!(set.len(), 2);
    assert!(set.contains("a") && set.contains("b") && !set.contains("c"));
}
