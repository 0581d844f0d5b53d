use termsearch::history::{parse_history_line, read_zsh_history};

#[test]
fn parses_extended_history_line() {
    let e = parse_history_line(": 1700000000:0;git status  ").unwrap();
    assert_eq!(e.timestamp, 1_700_000_000);
    assert_eq!(e.command, "git status");
}

#[test]
fn keeps_semicolons_in_command() {
    let e = parse_history_line(": 12:3;echo a; echo b").unwrap();
    assert_eq!(e.timestamp, 12);
    assert_eq!(e.command, "echo a; echo b");
}

#[test]
fn rejects_malformed_lines() {
    assert!(parse_history_line("git status").is_none());
    assert!(parse_history_line(": abc:0;ls").is_none());
    assert!(parse_history_line(": 12;ls").is_none());
    assert!(parse_history_line(": 12:;ls").is_none());
    assert!(parse_history_line(": :0;ls").is_none());
    assert!(parse_history_line("").is_none());
}

#[test]
fn rejects_blank_command() {
    assert!(parse_history_line(": 12:0;   ").is_none());
    assert!(parse_history_line(": 12:0;").is_none());
}

#[test]
fn rejects_out_of_range_time() {
    assert!(parse_history_line(": 99999999999999999999:0;ls").is_none());
    assert!(parse_history_line(": 9223372036854775807:0;ls").is_none());
}

#[test]
fn keeps_last_entries() {
    let lines: Vec<String> = vec![
        ": 1:0;one".to_string(),
        "garbage".to_string(),
        ": 2:0;two".to_string(),
        ": 3:0;three".to_string(),
    ];
    let r = read_zsh_history(&lines, 2);
    let cmds: Vec<&str> = r.iter().map(|e| e.command.as_str()).collect();
    assert_eq!(cmds, vec!["two", "three"]);
    assert_eq!(r[1].timestamp, 3);
    assert_eq!(read_zsh_history(&lines, 10).len(), 3);
    assert!(read_zsh_history(&lines, 0).is_empty());
}
