use termsearch::history::CommandEntry;
use termsearch::search::{
    command_match_score, get_frequent_commands, search_commands, search_lowered, SCALE,
};

fn entry(command: &str, timestamp: i64) -> CommandEntry {
    CommandEntry { command: command.to_string(), timestamp }
}

fn commands(v: &[CommandEntry]) -> Vec<String> {
    v.iter().map(|e| e.command.clone()).collect()
}

#[test]
fn search_deduplicates_repeated_command() {
    let history = vec![entry("git status", 100), entry("git status", 200), entry("ls -la", 300)];
    let recency = vec![100_000, 200_000, 300_000];
    let r = search_commands("git", &history, &recency, 10);
    assert_eq!(commands(&r), vec!["git status".to_string()]);
    assert_eq!(r[0].timestamp, 0);
}

#[test]
fn search_is_case_insensitive() {
    let history = vec![entry("git status", 100), entry("ls", 200)];
    let recency = vec![SCALE, SCALE];
    let r = search_commands("GIT", &history, &recency, 10);
    assert_eq!(commands(&r), vec!["git status".to_string()]);
}

#[test]
fn search_prefix_above_mid_string() {
    let history = vec![entry("xgit", 100), entry("git log", 200)];
    let recency = vec![500_000, 500_000];
    let r = search_commands("git", &history, &recency, 10);
    assert_eq!(commands(&r), vec!["git log".to_string(), "xgit".to_string()]);
}

#[test]
fn search_drops_late_matches() {
    // "git" starts at 3 of 6 characters: 0.5 - 3/6 is not positive.
    let history = vec![entry("abcgit", 100), entry("abgit", 100)];
    let recency = vec![SCALE, SCALE];
    let r = search_commands("git", &history, &recency, 10);
    assert_eq!(commands(&r), vec!["abgit".to_string()]);
}

#[test]
fn search_respects_limit_and_order() {
    let history = vec![
        entry("cargo build", 1),
        entry("cargo test", 2),
        entry("cargo run", 3),
        entry("make", 4),
    ];
    let recency = vec![100_000, 300_000, 200_000, SCALE];
    let r = search_commands("cargo", &history, &recency, 2);
    assert_eq!(commands(&r), vec!["cargo test".to_string(), "cargo run".to_string()]);
    let none = search_commands("cargo", &history, &recency, 0);
    assert!(none.is_empty());
}

#[test]
fn search_equal_scores_keep_first_match_order() {
    let history = vec![entry("ab", 1), entry("ac", 2), entry("ad", 3)];
    let recency = vec![SCALE, SCALE, SCALE];
    let r = search_commands("a", &history, &recency, 10);
    assert_eq!(commands(&r), vec!["ab".to_string(), "ac".to_string(), "ad".to_string()]);
}

#[test]
fn search_empty_history_and_no_match() {
    let r = search_commands("git", &Vec::new(), &Vec::new(), 10);
    assert!(r.is_empty());
    let history = vec![entry("ls", 1)];
    let r = search_commands("zzz", &history, &vec![SCALE], 10);
    assert!(r.is_empty());
}

#[test]
fn search_same_inputs_same_result() {
    let history = vec![entry("git push", 1), entry("git pull", 2), entry("grep git", 3)];
    let recency = vec![200_000, 250_000, 900_000];
    let a = search_commands("git", &history, &recency, 10);
    let b = search_commands("git", &history, &recency, 10);
    assert_eq!(commands(&a), commands(&b));
}

#[test]
fn match_score_values() {
    let chars = |s: &str| s.chars().collect::<Vec<char>>();
    assert_eq!(command_match_score(&chars("git status"), &chars("git")), 1_000_000);
    assert_eq!(command_match_score(&chars("xgit"), &chars("git")), 250_000);
    assert_eq!(command_match_score(&chars("abcgit"), &chars("git")), 0);
    assert_eq!(command_match_score(&chars("ls"), &chars("git")), 0);
}

#[test]
fn running_score_for_repeated_command() {
    // First: 1.0 * (0.6 * 0.1 + 0.4 * 1.0) = 0.46.
    // Second: 1.0 * (0.6 * 0.2 + 0.4 * 1.46) = 0.704, above "git log" at 0.6 * 0.5 + 0.4 * 1.0 = 0.7.
    let history = vec![entry("git status", 1), entry("git status", 2), entry("git log", 3)];
    let recency = vec![100_000, 200_000, 500_000];
    let r = search_commands("git", &history, &recency, 10);
    assert_eq!(commands(&r), vec!["git status".to_string(), "git log".to_string()]);
}

#[test]
fn frequent_favors_count() {
    let history = vec![entry("a", 1), entry("a", 2), entry("b", 3)];
    let recency = vec![100_000, 300_000, 500_000];
    let r = get_frequent_commands(&history, &recency, 10);
    assert_eq!(commands(&r), vec!["a".to_string(), "b".to_string()]);
}

#[test]
fn frequent_recency_breaks_equal_counts() {
    let history = vec![entry("old", 1), entry("new", 2)];
    let recency = vec![100_000, 900_000];
    let r = get_frequent_commands(&history, &recency, 10);
    assert_eq!(commands(&r), vec!["new".to_string(), "old".to_string()]);
}

#[test]
fn frequent_uses_latest_occurrence() {
    // "a": count 2, latest weight 0.9 -> 0.54 + 0.8; "b": count 2, latest weight 0.5.
    let history = vec![entry("a", 10), entry("b", 20), entry("b", 30), entry("a", 40)];
    let recency = vec![100_000, 200_000, 500_000, 900_000];
    let r = get_frequent_commands(&history, &recency, 10);
    assert_eq!(commands(&r), vec!["a".to_string(), "b".to_string()]);
}

#[test]
fn frequent_order_of_duplicates_irrelevant() {
    let h1 = vec![entry("a", 10), entry("b", 20), entry("a", 30)];
    let h2 = vec![entry("a", 30), entry("b", 20), entry("a", 10)];
    let r1 = get_frequent_commands(&h1, &vec![100_000, 500_000, 300_000], 10);
    let r2 = get_frequent_commands(&h2, &vec![300_000, 500_000, 100_000], 10);
    assert_eq!(commands(&r1), commands(&r2));
    assert_eq!(commands(&r1), vec!["a".to_string(), "b".to_string()]);
}

#[test]
fn frequent_limit_and_empty() {
    let history = vec![entry("a", 1), entry("b", 2), entry("c", 3)];
    let recency = vec![SCALE, SCALE, SCALE];
    assert_eq!(get_frequent_commands(&history, &recency, 2).len(), 2);
    assert!(get_frequent_commands(&Vec::new(), &Vec::new(), 5).is_empty());
}

#[test]
fn lowered_search_exact_values() {
    let chars = |s: &str| s.chars().collect::<Vec<char>>();
    // The ranking goes by the lowered forms handed in, whatever the commands say.
    let history = vec![entry("A", 1), entry("B", 2), entry("C", 3)];
    let lowers = vec![chars("zgit"), chars("git x"), chars("none")];
    let r = search_lowered(&chars("git"), &history, &lowers, &vec![SCALE, 0, SCALE], 10);
    // "B": 1.0 * (0 + 0.4) = 0.4; "A": 0.25 * (0.6 + 0.4) = 0.25
    assert_eq!(commands(&r), vec!["B".to_string(), "A".to_string()]);
}
