//! The state of an interactive search session, and how key presses change it.
use vstd::prelude::*;

use crate::history::{commands_of, CommandEntry};
use crate::render::{draws, frame, input_draws, render_frame, render_input_line, DrawOp};
use crate::search::{
    frequency_ranking, get_frequent_commands, search_commands, search_ranking, valid_recency,
};
use crate::text::push_char;
use vstd::string::{StrSliceExecFns, StringExecFns};

verus! {

/// A key press, as the session sees it.
#[derive(Debug, Clone, Copy, PartialEq, Eq)]
pub enum Key {
    /// A character; the flag says the Control modifier, and no other, was held.
    Char(char, bool),
    Backspace,
    Down,
    Tab,
    Up,
    BackTab,
    Enter,
    Esc,
    /// Any other key.
    Other,
}

/// What the event loop does after a key press.
#[derive(Debug)]
pub enum KeyAction {
    /// The session ends with this command.
    Select(String),
    /// The session goes on.
    Continue,
    /// The session ends with no command.
    Exit,
}

/// The matches for a search term: a ranking against it when it is present and not
/// empty, else the ranking by frequency.
pub open spec fn matches_for(
    term: Option<Seq<char>>,
    history: Seq<CommandEntry>,
    recency: Seq<u64>,
    limit: int,
) -> Seq<Seq<char>> {
    match term {
        Some(t) => if t.len() > 0 {
            search_ranking(t, history, recency, limit)
        } else {
            frequency_ranking(history, recency, limit)
        },
        None => frequency_ranking(history, recency, limit),
    }
}

/// The selection after moving down: back to the top from the last match.
pub open spec fn selection_down(selected: int, len: int) -> int {
    let last = if len > 0 {
        len - 1
    } else {
        0
    };
    if selected >= last {
        0
    } else {
        selected + 1
    }
}

/// The selection after moving up: to the last match from the top.
pub open spec fn selection_up(selected: int, len: int) -> int {
    if selected == 0 {
        if len > 0 {
            len - 1
        } else {
            0
        }
    } else {
        selected - 1
    }
}

impl Key {
    /// Whether the screen is drawn anew after this key, when the session goes on:
    /// typing, erasing and moving the selection change it.
    pub fn changes_screen(&self) -> (r: bool)
        ensures
            r == !(*self is Enter || *self is Other),
    {
        match self {
            Key::Enter | Key::Other => false,
            _ => true,
        }
    }
}

/// Whether a key ends the session with no command.
pub open spec fn is_exit_key(key: Key) -> bool {
    match key {
        Key::Esc => true,
        Key::Char(c, control) => control && (c == 'c' || c == 'd'),
        _ => false,
    }
}

/// The state of an interactive search over a history.
pub struct TerminalUi {
    history: Vec<CommandEntry>,
    recency: Vec<u64>,
    matches: Vec<CommandEntry>,
    input: String,
    selected_index: usize,
    term: Option<String>,
    num_results: usize,
}

impl TerminalUi {
    /// The history searched.
    pub closed spec fn spec_history(&self) -> Seq<CommandEntry> {
        self.history@
    }

    /// The recency weight of each history entry.
    pub closed spec fn spec_recency(&self) -> Seq<u64> {
        self.recency@
    }

    /// The commands listed, best first.
    pub closed spec fn spec_matches(&self) -> Seq<Seq<char>> {
        commands_of(self.matches@)
    }

    /// The text typed so far.
    pub closed spec fn spec_input(&self) -> Seq<char> {
        self.input@
    }

    /// The index of the selected match.
    pub closed spec fn spec_selected(&self) -> int {
        self.selected_index as int
    }

    /// The current search term, if one was given.
    pub closed spec fn spec_term(&self) -> Option<Seq<char>> {
        match self.term {
            Some(t) => Some(t@),
            None => None,
        }
    }

    /// The most matches listed.
    pub closed spec fn spec_limit(&self) -> int {
        self.num_results as int
    }

    /// The recency weights fit the history, and the selection points at a match, or is 0
    /// when there is none.
    pub open spec fn wf(&self) -> bool {
        &&& valid_recency(self.spec_history(), self.spec_recency())
        &&& if self.spec_matches().len() > 0 {
            0 <= self.spec_selected() < self.spec_matches().len()
        } else {
            self.spec_selected() == 0
        }
    }

    /// A session over `history`, with no matches, no input and no term yet.
    pub fn new(num_results: usize, history: Vec<CommandEntry>, recency: Vec<u64>) -> (r: Self)
        requires
            valid_recency(history@, recency@),
        ensures
            r.wf(),
            r.spec_history() == history@,
            r.spec_recency() == recency@,
            r.spec_matches().len() == 0,
            r.spec_input().len() == 0,
            r.spec_selected() == 0,
            r.spec_term() is None,
            r.spec_limit() == num_results,
    {
        TerminalUi {
            history,
            recency,
            matches: Vec::new(),
            input: String::new(),
            selected_index: 0,
            term: None,
            num_results,
        }
    }

    /// The commands listed.
    pub fn matches(&self) -> (r: &Vec<CommandEntry>)
        ensures
            commands_of(r@) == self.spec_matches(),
    {
        &self.matches
    }

    /// The index of the selected match.
    pub fn selected_index(&self) -> (r: usize)
        ensures
            r == self.spec_selected(),
    {
        self.selected_index
    }

    /// The text typed so far.
    pub fn input(&self) -> (r: &String)
        ensures
            r@ == self.spec_input(),
    {
        &self.input
    }

    /// The current search term, if any.
    pub fn term(&self) -> (r: &Option<String>)
        ensures
            match r {
                Some(t) => self.spec_term() == Some(t@),
                None => self.spec_term() is None,
            },
    {
        &self.term
    }

    /// The history searched.
    pub fn history(&self) -> (r: &Vec<CommandEntry>)
        ensures
            r@ == self.spec_history(),
    {
        &self.history
    }

    /// The frame that shows the session on a terminal of `width` columns and `height` rows.
    pub fn draw_matches(&self, width: u16, height: u16) -> (r: Vec<DrawOp>)
        ensures
            draws(r@) == frame(
                self.spec_matches(),
                self.spec_selected(),
                self.spec_term(),
                self.spec_input(),
                width as int,
                height as int,
            ),
    {
        render_frame(&self.matches, self.selected_index, &self.term, &self.input, width, height)
    }

    /// The input line alone, padded to `width` columns.
    pub fn draw_input_buffer(&self, width: u16) -> (r: Vec<DrawOp>)
        ensures
            draws(r@) == input_draws(self.spec_input(), width as int),
    {
        render_input_line(&self.input, width)
    }

    /// Replaces the recency weights, which age with the clock.
    pub fn set_recency(&mut self, recency: Vec<u64>)
        requires
            old(self).wf(),
            valid_recency(old(self).spec_history(), recency@),
        ensures
            final(self).wf(),
            final(self).spec_recency() == recency@,
            final(self).spec_history() == old(self).spec_history(),
            final(self).spec_matches() == old(self).spec_matches(),
            final(self).spec_input() == old(self).spec_input(),
            final(self).spec_term() == old(self).spec_term(),
            final(self).spec_selected() == old(self).spec_selected(),
            final(self).spec_limit() == old(self).spec_limit(),
    {
        self.recency = recency;
    }

    /// The matches shown first: a ranking against `term` when one is given and not
    /// empty, else the ranking by frequency.
    pub fn initial_matches(&self, term: &Option<String>) -> (r: Vec<CommandEntry>)
        requires
            self.wf(),
        ensures
            commands_of(r@) == matches_for(
                match term {
                    Some(t) => Some(t@),
                    None => None,
                },
                self.spec_history(),
                self.spec_recency(),
                self.spec_limit(),
            ),
    {
        match term {
            Some(t) => {
                if t.as_str().unicode_len() > 0 {
                    search_commands(t.as_str(), &self.history, &self.recency, self.num_results)
                } else {
                    get_frequent_commands(&self.history, &self.recency, self.num_results)
                }
            },
            None => get_frequent_commands(&self.history, &self.recency, self.num_results),
        }
    }

    /// Shows `initial_matches`, with the first one selected.
    pub fn set_initial_results(&mut self, initial_matches: Vec<CommandEntry>)
        requires
            old(self).wf(),
        ensures
            final(self).wf(),
            final(self).spec_matches() == commands_of(initial_matches@),
            final(self).spec_selected() == 0,
            final(self).spec_history() == old(self).spec_history(),
            final(self).spec_recency() == old(self).spec_recency(),
            final(self).spec_input() == old(self).spec_input(),
            final(self).spec_term() == old(self).spec_term(),
            final(self).spec_limit() == old(self).spec_limit(),
    {
        self.matches = initial_matches;
        self.selected_index = 0;
    }

    /// Takes `initial_term`, if given, as the text typed and the search term.
    pub fn set_initial_term(&mut self, initial_term: Option<String>)
        requires
            old(self).wf(),
        ensures
            final(self).wf(),
            match initial_term {
                Some(t) => final(self).spec_input() == t@ && final(self).spec_term() == Some(t@),
                None => final(self).spec_input() == old(self).spec_input() && final(self).spec_term()
                    == old(self).spec_term(),
            },
            final(self).spec_matches() == old(self).spec_matches(),
            final(self).spec_selected() == old(self).spec_selected(),
            final(self).spec_history() == old(self).spec_history(),
            final(self).spec_recency() == old(self).spec_recency(),
            final(self).spec_limit() == old(self).spec_limit(),
    {
        if let Some(t) = initial_term {
            self.input = t;
            self.term = Some(self.input.clone());
        }
    }

    /// Ranks the history anew for the current term, and selects the first match.
    fn update_matches(&mut self)
        requires
            old(self).wf(),
        ensures
            final(self).wf(),
            final(self).spec_matches() == matches_for(
                old(self).spec_term(),
                old(self).spec_history(),
                old(self).spec_recency(),
                old(self).spec_limit(),
            ),
            final(self).spec_selected() == 0,
            final(self).spec_history() == old(self).spec_history(),
            final(self).spec_recency() == old(self).spec_recency(),
            final(self).spec_input() == old(self).spec_input(),
            final(self).spec_term() == old(self).spec_term(),
            final(self).spec_limit() == old(self).spec_limit(),
    {
        let matches = match &self.term {
            Some(t) => {
                if t.as_str().unicode_len() > 0 {
                    search_commands(t.as_str(), &self.history, &self.recency, self.num_results)
                } else {
                    get_frequent_commands(&self.history, &self.recency, self.num_results)
                }
            },
            None => get_frequent_commands(&self.history, &self.recency, self.num_results),
        };
        self.matches = matches;
        self.selected_index = 0;
    }

    /// Applies a key press: typing and erasing rank the history anew and select the
    /// first match; the arrow keys and Tab move the selection round the list; Enter
    /// picks the selected match; Escape, Control-C and Control-D end the session.
    pub fn handle_key_event(&mut self, key: Key) -> (r: KeyAction)
        requires
            old(self).wf(),
        ensures
            final(self).wf(),
            final(self).spec_history() == old(self).spec_history(),
            final(self).spec_recency() == old(self).spec_recency(),
            final(self).spec_limit() == old(self).spec_limit(),
            final(self).spec_matches() != old(self).spec_matches() ==> final(self).spec_selected() == 0,
            match key {
                Key::Char(c, control) => if control && (c == 'c' || c == 'd') {
                    r is Exit && *final(self) == *old(self)
                } else {
                    r is Continue && retyped(*old(self), *final(self), old(self).spec_input().push(c))
                },
                Key::Backspace => r is Continue && retyped(
                    *old(self),
                    *final(self),
                    if old(self).spec_input().len() > 0 {
                        old(self).spec_input().drop_last()
                    } else {
                        old(self).spec_input()
                    },
                ),
                Key::Down | Key::Tab => r is Continue && moved(
                    *old(self),
                    *final(self),
                    selection_down(old(self).spec_selected(), old(self).spec_matches().len() as int),
                ),
                Key::Up | Key::BackTab => r is Continue && moved(
                    *old(self),
                    *final(self),
                    selection_up(old(self).spec_selected(), old(self).spec_matches().len() as int),
                ),
                Key::Enter => *final(self) == *old(self) && if old(self).spec_matches().len() > 0 {
                    r is Select && r->Select_0@ == old(self).spec_matches()[old(self).spec_selected()]
                } else {
                    r is Continue
                },
                Key::Esc => r is Exit && *final(self) == *old(self),
                Key::Other => r is Continue && *final(self) == *old(self),
            },
    {
        match key {
            Key::Esc => KeyAction::Exit,
            Key::Char(c, control) => {
                if control && (c == 'c' || c == 'd') {
                    KeyAction::Exit
                } else {
                    push_char(&mut self.input, c);
                    self.term = Some(self.input.clone());
                    self.update_matches();
                    KeyAction::Continue
                }
            },
            Key::Backspace => {
                let n: usize = self.input.as_str().unicode_len();
                if n > 0 {
                    let kept = String::from_str(self.input.as_str().substring_char(0, n - 1));
                    self.input = kept;
                }
                self.term = Some(self.input.clone());
                self.update_matches();
                KeyAction::Continue
            },
            Key::Down | Key::Tab => {
                let last: usize = if self.matches.len() > 0 {
                    self.matches.len() - 1
                } else {
                    0
                };
                if self.selected_index >= last {
                    self.selected_index = 0;
                } else {
                    self.selected_index = self.selected_index + 1;
                }
                KeyAction::Continue
            },
            Key::Up | Key::BackTab => {
                if self.selected_index == 0 {
                    self.selected_index = if self.matches.len() > 0 {
                        self.matches.len() - 1
                    } else {
                        0
                    };
                } else {
                    self.selected_index = self.selected_index - 1;
                }
                KeyAction::Continue
            },
            Key::Enter => {
                if self.selected_index < self.matches.len() {
                    KeyAction::Select(self.matches[self.selected_index].command.clone())
                } else {
                    KeyAction::Continue
                }
            },
            Key::Other => KeyAction::Continue,
        }
    }
}

/// After typing or erasing: `input` is the text and the term, the matches are ranked
/// anew for it, and the first is selected.
pub open spec fn retyped(before: TerminalUi, after: TerminalUi, input: Seq<char>) -> bool {
    &&& after.spec_input() == input
    &&& after.spec_term() == Some(input)
    &&& after.spec_matches() == matches_for(
        Some(input),
        before.spec_history(),
        before.spec_recency(),
        before.spec_limit(),
    )
    &&& after.spec_selected() == 0
}

/// After moving the selection: only the selection changed, to `selected`.
pub open spec fn moved(before: TerminalUi, after: TerminalUi, selected: int) -> bool {
    &&& after.spec_input() == before.spec_input()
    &&& after.spec_term() == before.spec_term()
    &&& after.spec_matches() == before.spec_matches()
    &&& after.spec_selected() == selected
}

} // verus!
