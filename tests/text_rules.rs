use termsearch::history::{parse_history_line, UTC_MAX_SECS, UTC_MIN_SECS};
use termsearch::text::{trim_end, white_space};

#[test]
fn white_space_agrees_with_std() {
    for code in 0u32..=0x10FFFF {
        if let Some(c) = char::from_u32(code) {
            assert_eq!(white_space(c), c.is_whitespace(), "{:x}", code);
        }
    }
}

#[test]
fn trim_end_agrees_with_std() {
    let samples = [
        "",
        "   ",
        "ls -la \t\n",
        "echo a\u{3000}\u{a0}",
        "x\u{2028} y \u{85}",
        "no trailing",
        " lead",
    ];
    for s in samples {
        assert_eq!(trim_end(&s.to_string()), s.trim_end());
    }
}

#[test]
fn trailing_unicode_space_is_trimmed() {
    let e = parse_history_line(": 5:0;make\u{3000}\u{a0}").unwrap();
    assert_eq!(e.command, "make");
}

#[test]
fn chrono_range_bounds() {
    assert!(chrono::DateTime::from_timestamp(UTC_MAX_SECS, 0).is_some());
    assert!(chrono::DateTime::from_timestamp(UTC_MAX_SECS + 1, 0).is_none());
    assert!(chrono::DateTime::from_timestamp(UTC_MIN_SECS, 0).is_some());
    assert!(chrono::DateTime::from_timestamp(UTC_MIN_SECS - 1, 0).is_none());
    let line = format!(": {}:0;ls", UTC_MAX_SECS);
    assert!(parse_history_line(&line).is_some());
    let line = format!(": {}:0;ls", UTC_MAX_SECS + 1);
    assert!(parse_history_line(&line).is_none());
}
