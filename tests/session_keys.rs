use termsearch::history::CommandEntry;
use termsearch::render::{Color, DrawOp};
use termsearch::search::SCALE;
use termsearch::session::{Key, KeyAction, TerminalUi};

fn entry(command: &str, timestamp: i64) -> CommandEntry {
    CommandEntry { command: command.to_string(), timestamp }
}

fn three_matches() -> TerminalUi {
    let history = vec![entry("aa", 1), entry("ab", 2), entry("ac", 3)];
    let mut ui = TerminalUi::new(10, history, vec![SCALE, SCALE, SCALE]);
    let initial = ui.initial_matches(&None);
    ui.set_initial_results(initial);
    ui
}

#[test]
fn scenario_git_status_single_row() {
    let history = vec![entry("git status", 100), entry("git status", 200), entry("ls -la", 300)];
    let mut ui = TerminalUi::new(10, history, vec![100_000, 200_000, 300_000]);
    let initial = ui.initial_matches(&Some("git".to_string()));
    ui.set_initial_results(initial);
    ui.set_initial_term(Some("git".to_string()));
    assert_eq!(ui.matches().len(), 1);
    assert_eq!(ui.matches()[0].command, "git status");
    assert_eq!(ui.selected_index(), 0);
    assert_eq!(ui.input(), "git");
}

#[test]
fn empty_term_ranks_by_frequency() {
    let history = vec![entry("a", 1), entry("a", 2), entry("b", 3)];
    let mut ui = TerminalUi::new(10, history, vec![100_000, 300_000, 500_000]);
    assert!(matches!(ui.handle_key_event(Key::Char('b', false)), KeyAction::Continue));
    assert_eq!(ui.matches().len(), 1);
    assert!(matches!(ui.handle_key_event(Key::Backspace), KeyAction::Continue));
    assert_eq!(ui.term(), &Some(String::new()));
    let cmds: Vec<&str> = ui.matches().iter().map(|e| e.command.as_str()).collect();
    assert_eq!(cmds, vec!["a", "b"]);
}

#[test]
fn down_wraps_to_top_and_up_wraps_to_bottom() {
    let mut ui = three_matches();
    assert_eq!(ui.matches().len(), 3);
    ui.handle_key_event(Key::Down);
    ui.handle_key_event(Key::Down);
    assert_eq!(ui.selected_index(), 2);
    ui.handle_key_event(Key::Down);
    assert_eq!(ui.selected_index(), 0);
    ui.handle_key_event(Key::Up);
    assert_eq!(ui.selected_index(), 2);
    ui.handle_key_event(Key::BackTab);
    assert_eq!(ui.selected_index(), 1);
    ui.handle_key_event(Key::Tab);
    assert_eq!(ui.selected_index(), 2);
}

#[test]
fn moving_with_no_matches_stays_at_zero() {
    let mut ui = TerminalUi::new(10, Vec::new(), Vec::new());
    ui.handle_key_event(Key::Down);
    assert_eq!(ui.selected_index(), 0);
    ui.handle_key_event(Key::Up);
    assert_eq!(ui.selected_index(), 0);
    assert!(matches!(ui.handle_key_event(Key::Enter), KeyAction::Continue));
}

#[test]
fn typing_resets_selection() {
    let mut ui = three_matches();
    ui.handle_key_event(Key::Down);
    assert_eq!(ui.selected_index(), 1);
    ui.handle_key_event(Key::Char('a', false));
    assert_eq!(ui.selected_index(), 0);
    assert_eq!(ui.input(), "a");
    assert_eq!(ui.matches().len(), 3);
    ui.handle_key_event(Key::Char('c', false));
    assert_eq!(ui.matches().len(), 1);
    assert_eq!(ui.matches()[0].command, "ac");
}

#[test]
fn enter_selects_current_match() {
    let mut ui = three_matches();
    ui.handle_key_event(Key::Down);
    let expected = ui.matches()[1].command.clone();
    match ui.handle_key_event(Key::Enter) {
        KeyAction::Select(c) => assert_eq!(c, expected),
        _ => panic!("expected a selection"),
    }
}

#[test]
fn exit_keys() {
    let mut ui = three_matches();
    assert!(matches!(ui.handle_key_event(Key::Esc), KeyAction::Exit));
    assert!(matches!(ui.handle_key_event(Key::Char('c', true)), KeyAction::Exit));
    assert!(matches!(ui.handle_key_event(Key::Char('d', true)), KeyAction::Exit));
    assert!(matches!(ui.handle_key_event(Key::Other), KeyAction::Continue));
    // Control with another letter types it.
    assert!(matches!(ui.handle_key_event(Key::Char('x', true)), KeyAction::Continue));
    assert_eq!(ui.input(), "x");
}

#[test]
fn backspace_on_empty_input() {
    let mut ui = three_matches();
    ui.handle_key_event(Key::Backspace);
    assert_eq!(ui.input(), "");
    assert_eq!(ui.matches().len(), 3);
}

#[test]
fn input_line_is_padded() {
    let mut ui = three_matches();
    ui.handle_key_event(Key::Char('a', false));
    let ops = ui.draw_input_buffer(6);
    assert_eq!(ops.len(), 3);
    assert!(matches!(ops[0], DrawOp::MoveTo(0, 0)));
    assert!(matches!(ops[1], DrawOp::ClearLine));
    match &ops[2] {
        DrawOp::Print(s) => assert_eq!(s, "> a   "),
        _ => panic!("expected text"),
    }
}

#[test]
fn frame_highlights_occurrence() {
    let history = vec![entry("a Git", 1)];
    let mut ui = TerminalUi::new(10, history, vec![SCALE]);
    ui.handle_key_event(Key::Char('g', false));
    ui.handle_key_event(Key::Char('i', false));
    assert_eq!(ui.matches().len(), 1);
    let ops = ui.draw_matches(20, 2);
    // two cleared rows, then the row, then the input line
    assert!(matches!(ops[0], DrawOp::MoveTo(0, 1)));
    assert!(matches!(ops[2], DrawOp::MoveTo(0, 2)));
    assert!(matches!(ops[4], DrawOp::MoveTo(0, 1)));
    assert!(matches!(ops[5], DrawOp::Foreground(Color::Black)));
    assert!(matches!(ops[6], DrawOp::Background(Color::White)));
    let printed: Vec<String> = ops
        .iter()
        .filter_map(|op| match op {
            DrawOp::Print(s) => Some(s.clone()),
            _ => None,
        })
        .collect();
    assert_eq!(printed[0], "a ");
    assert_eq!(printed[1], "Gi");
    assert_eq!(printed[2], "t");
    assert!(matches!(ops[8], DrawOp::Foreground(Color::Yellow)));
    assert!(matches!(ops[12], DrawOp::ResetColor));
    assert_eq!(ops.len(), 16);
}

#[test]
fn keys_that_redraw() {
    assert!(Key::Char('a', false).changes_screen());
    assert!(Key::Backspace.changes_screen());
    assert!(Key::Down.changes_screen());
    assert!(Key::BackTab.changes_screen());
    assert!(!Key::Enter.changes_screen());
    assert!(!Key::Other.changes_screen());
}

#[test]
fn new_weights_rerank_on_next_key() {
    let history = vec![entry("old", 1), entry("new", 2)];
    let mut ui = TerminalUi::new(10, history, vec![900_000, 100_000]);
    ui.handle_key_event(Key::Char('x', false));
    ui.handle_key_event(Key::Backspace);
    assert_eq!(ui.matches()[0].command, "old");
    ui.set_recency(vec![100_000, 900_000]);
    assert_eq!(ui.matches()[0].command, "old");
    ui.handle_key_event(Key::Char('x', false));
    ui.handle_key_event(Key::Backspace);
    assert_eq!(ui.matches()[0].command, "new");
}

#[test]
fn frame_shows_only_rows_that_fit() {
    let mut ui = three_matches();
    ui.handle_key_event(Key::Down);
    ui.handle_key_event(Key::Down);
    let ops = ui.draw_matches(10, 2);
    let moves: Vec<u16> = ops
        .iter()
        .filter_map(|op| match op {
            DrawOp::MoveTo(0, y) => Some(*y),
            _ => None,
        })
        .collect();
    // rows 1 and 2 cleared, one match on row 1, then the input line
    assert_eq!(moves, vec![1, 2, 1, 0]);
    // the selection lies below the rows shown: no row is inverted
    assert!(!ops.iter().any(|op| matches!(op, DrawOp::Background(Color::White))));
    let tiny = ui.draw_matches(10, 1);
    assert_eq!(tiny.len(), 2 + 3);
}

#[test]
fn empty_initial_term_ranks_by_frequency() {
    let history = vec![entry("a", 1), entry("b", 2), entry("a", 3)];
    let ui = TerminalUi::new(10, history, vec![100_000, 300_000, 100_000]);
    let cmds: Vec<String> =
        ui.initial_matches(&Some(String::new())).iter().map(|e| e.command.clone()).collect();
    assert_eq!(cmds, vec!["a".to_string(), "b".to_string()]);
    let none: Vec<String> = ui.initial_matches(&None).iter().map(|e| e.command.clone()).collect();
    assert_eq!(cmds, none);
}
