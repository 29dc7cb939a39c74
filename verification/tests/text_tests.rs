use pdf_maldives_be::text::{looks_complete, normalize_ordered_marker, ordered_marker_len, parses_as_u32_chars, trim_chars, chars_of};

#[test]
fn ordered_marker_lengths() {
    assert_eq!(ordered_marker_len("1. Intro"), Some(2));
    assert_eq!(ordered_marker_len("12 ) Item"), Some(4));
    assert_eq!(ordered_marker_len("1234. Too long"), None);
    assert_eq!(ordered_marker_len("3."), None);
    assert_eq!(ordered_marker_len("3.   "), None);
    assert_eq!(ordered_marker_len("abc"), None);
    assert_eq!(ordered_marker_len("7:"), None);
}

#[test]
fn ordered_marker_normalized() {
    assert_eq!(normalize_ordered_marker("3 .   Third"), "3. Third");
    assert_eq!(normalize_ordered_marker("10)item"), "10) item");
    assert_eq!(normalize_ordered_marker("plain text"), "plain text");
}

#[test]
fn sentence_endings() {
    assert!(looks_complete("Done.  "));
    assert!(looks_complete("Why?"));
    assert!(!looks_complete("Heading"));
    assert!(!looks_complete("   "));
}

#[test]
fn u32_parsing_matches_std() {
    for s in ["12", "+7", "", "+", "-1", "4294967295", "4294967296", "0012", "1a", "٣"] {
        let chars = chars_of(s);
        assert_eq!(parses_as_u32_chars(&chars), s.parse::<u32>().is_ok(), "{s}");
    }
}

#[test]
fn trimming_matches_std() {
    for s in ["  a b  ", "\u{3000}x\u{a0}", "", "   ", "\tline\n"] {
        let t: String = trim_chars(&chars_of(s)).into_iter().collect();
        assert_eq!(t, s.trim());
    }
}
