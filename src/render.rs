//! The frame that shows a session: the input line and one row per match.
use vstd::prelude::*;

use crate::history::{commands_of, CommandEntry};
use crate::text::{chars_of, find, first_occurrence, lower_of, lowercase, push_char};
use vstd::string::{StrSliceExecFns, StringExecFns};

verus! {

/// A terminal color.
#[derive(Debug, Clone, Copy, PartialEq, Eq)]
pub enum Color {
    Reset,
    Black,
    White,
    Yellow,
}

/// One drawing command of a frame.
#[derive(Debug)]
pub enum DrawOp {
    /// Moves the cursor to a column and a row.
    MoveTo(u16, u16),
    /// Clears the line the cursor is on.
    ClearLine,
    Foreground(Color),
    Background(Color),
    Print(String),
    /// Restores the default colors.
    ResetColor,
}

/// The view of a drawing command.
pub enum Draw {
    MoveTo(u16, u16),
    ClearLine,
    Foreground(Color),
    Background(Color),
    Print(Seq<char>),
    ResetColor,
}

impl View for DrawOp {
    type V = Draw;

    open spec fn view(&self) -> Draw {
        match self {
            DrawOp::MoveTo(x, y) => Draw::MoveTo(*x, *y),
            DrawOp::ClearLine => Draw::ClearLine,
            DrawOp::Foreground(c) => Draw::Foreground(*c),
            DrawOp::Background(c) => Draw::Background(*c),
            DrawOp::Print(s) => Draw::Print(s@),
            DrawOp::ResetColor => Draw::ResetColor,
        }
    }
}

/// The views of a sequence of drawing commands.
pub open spec fn draws(v: Seq<DrawOp>) -> Seq<Draw> {
    v.map_values(|d: DrawOp| d@)
}

/// Clearing rows 1 to `n` of the screen, top down.
pub open spec fn clear_rows(n: int) -> Seq<Draw>
    decreases n,
{
    if n <= 0 {
        seq![]
    } else {
        clear_rows(n - 1) + seq![Draw::MoveTo(0, n as u16), Draw::ClearLine]
    }
}

/// The text color of a row.
pub open spec fn text_color(selected: bool) -> Color {
    if selected {
        Color::Black
    } else {
        Color::Reset
    }
}

/// The background color of a row.
pub open spec fn back_color(selected: bool) -> Color {
    if selected {
        Color::White
    } else {
        Color::Reset
    }
}

/// The smaller of two integers.
pub open spec fn min_int(a: int, b: int) -> int {
    if a < b {
        a
    } else {
        b
    }
}

/// How a command is printed: plainly, or where the lower-cased term occurs in the
/// lower-cased command, in three parts with the occurrence in yellow.
pub open spec fn command_text(cmd: Seq<char>, term: Option<Seq<char>>, selected: bool) -> Seq<Draw> {
    match term {
        Some(t) => match first_occurrence(lower_of(cmd), lower_of(t)) {
            Some(p) => {
                let start = min_int(p, cmd.len() as int);
                let end = min_int(p + t.len(), cmd.len() as int);
                seq![
                    Draw::Print(cmd.subrange(0, start)),
                    Draw::Foreground(Color::Yellow),
                    Draw::Print(cmd.subrange(start, end)),
                    Draw::Foreground(text_color(selected)),
                    Draw::Print(cmd.subrange(end, cmd.len() as int)),
                ]
            },
            None => seq![Draw::Print(cmd)],
        },
        None => seq![Draw::Print(cmd)],
    }
}

/// The row of the `i`th match.
pub open spec fn match_row(i: int, cmd: Seq<char>, term: Option<Seq<char>>, selected: bool) -> Seq<
    Draw,
> {
    seq![
        Draw::MoveTo(0, (i + 1) as u16),
        Draw::Foreground(text_color(selected)),
        Draw::Background(back_color(selected)),
    ] + command_text(cmd, term, selected) + seq![Draw::ResetColor]
}

/// The rows of the first `n` matches.
pub open spec fn match_rows(cmds: Seq<Seq<char>>, selected: int, term: Option<Seq<char>>, n: int) -> Seq<
    Draw,
>
    decreases n,
{
    if n <= 0 {
        seq![]
    } else {
        match_rows(cmds, selected, term, n - 1) + match_row(
            n - 1,
            cmds[n - 1],
            term,
            n - 1 == selected,
        )
    }
}

/// The input line: `> ` and the input, padded with spaces to `width` characters.
pub open spec fn input_line(input: Seq<char>, width: int) -> Seq<char> {
    let line = seq!['>', ' '] + input;
    if line.len() < width {
        line + Seq::new((width - line.len()) as nat, |_i: int| ' ')
    } else {
        line
    }
}

/// Drawing the input line on the top row.
pub open spec fn input_draws(input: Seq<char>, width: int) -> Seq<Draw> {
    seq![Draw::MoveTo(0, 0), Draw::ClearLine, Draw::Print(input_line(input, width))]
}

/// How many matches fit under the input line on a terminal `height` rows high.
pub open spec fn shown_rows(len: int, height: int) -> int {
    if height <= 1 {
        0
    } else if len < height - 1 {
        len
    } else {
        height - 1
    }
}

/// The whole frame: every row below the input line cleared, the matches that fit on
/// the screen with the selected one inverted (none is, when the selection lies below
/// the last row shown), then the input line.
pub open spec fn frame(
    cmds: Seq<Seq<char>>,
    selected: int,
    term: Option<Seq<char>>,
    input: Seq<char>,
    width: int,
    height: int,
) -> Seq<Draw> {
    clear_rows(height) + match_rows(cmds, selected, term, shown_rows(cmds.len() as int, height))
        + input_draws(
        input,
        width,
    )
}

/// The `a..b` characters of `s`, as a new string.
fn slice_text(s: &String, a: usize, b: usize) -> (r: String)
    requires
        a <= b <= s@.len(),
    ensures
        r@ == s@.subrange(a as int, b as int),
{
    String::from_str(s.as_str().substring_char(a, b))
}

/// Draws the input line, padded to `width`.
pub fn render_input_line(input: &String, width: u16) -> (r: Vec<DrawOp>)
    ensures
        draws(r@) == input_draws(input@, width as int),
{
    let mut line = String::from_str("> ");
    proof {
        reveal_strlit("> ");
    }
    line.append(input.as_str());
    assert(line@ =~= seq!['>', ' '] + input@);
    let ghost base = line@;
    let mut n: usize = line.as_str().unicode_len();
    if n < width as usize {
        while n < width as usize
            invariant
                base.len() <= n <= width,
                n == line@.len(),
                line@ =~= base + Seq::new((n - base.len()) as nat, |_i: int| ' '),
            decreases width - n,
        {
            push_char(&mut line, ' ');
            n = n + 1;
        }
    }
    let mut out: Vec<DrawOp> = Vec::new();
    out.push(DrawOp::MoveTo(0, 0));
    out.push(DrawOp::ClearLine);
    out.push(DrawOp::Print(line));
    assert(draws(out@) =~= input_draws(input@, width as int));
    out
}

/// The view of an optional string.
pub open spec fn opt_view(o: Option<String>) -> Option<Seq<char>> {
    match o {
        Some(t) => Some(t@),
        None => None,
    }
}

/// Appends the commands that print `cmd`, with the occurrence of `term` highlighted.
fn push_command_text(out: &mut Vec<DrawOp>, cmd: &String, term: &Option<String>, selected: bool)
    ensures
        draws(final(out)@) == draws(old(out)@) + command_text(cmd@, opt_view(*term), selected),
{
    let ghost before = out@;
    match term {
        Some(t) => {
            let lower_term = chars_of(lowercase(t.as_str()).as_str());
            let lower_cmd = chars_of(lowercase(cmd.as_str()).as_str());
            let lower_len: usize = lower_cmd.len();
            proof {
                crate::text::lemma_find_from(lower_cmd@, lower_term@, 0);
            }
            match find(&lower_cmd, &lower_term) {
                Some(p) => {
                    let len: usize = cmd.as_str().unicode_len();
                    let term_len: usize = t.as_str().unicode_len();
                    let start: usize = if p < len {
                        p
                    } else {
                        len
                    };
                    let end: usize = if p >= len {
                        len
                    } else if term_len >= len - p {
                        len
                    } else {
                        p + term_len
                    };
                    assert(lower_term@ == lower_of(t@));
                    assert(lower_cmd@ == lower_of(cmd@));
                    assert(first_occurrence(lower_of(cmd@), lower_of(t@)) == Some(p as int));
                    assert(start == min_int(p as int, cmd@.len() as int));
                    assert(end == min_int(p + t@.len(), cmd@.len() as int));
                    out.push(DrawOp::Print(slice_text(cmd, 0, start)));
                    out.push(DrawOp::Foreground(Color::Yellow));
                    out.push(DrawOp::Print(slice_text(cmd, start, end)));
                    out.push(DrawOp::Foreground(if selected { Color::Black } else { Color::Reset }));
                    out.push(DrawOp::Print(slice_text(cmd, end, len)));
                    assert(draws(out@) =~= draws(before) + command_text(cmd@, opt_view(*term), selected));
                },
                None => {
                    out.push(DrawOp::Print(cmd.clone()));
                    assert(draws(out@) =~= draws(before) + command_text(cmd@, opt_view(*term), selected));
                },
            }
        },
        None => {
            out.push(DrawOp::Print(cmd.clone()));
            assert(draws(out@) =~= draws(before) + command_text(cmd@, opt_view(*term), selected));
        },
    }
}

/// Draws the whole frame: clears rows 1 to `height`, draws on rows 1 to `height - 1`
/// as many matches as fit there, the selected one in black on white, then the input
/// line padded to `width`.
pub fn render_frame(
    matches: &Vec<CommandEntry>,
    selected: usize,
    term: &Option<String>,
    input: &String,
    width: u16,
    height: u16,
) -> (r: Vec<DrawOp>)
    ensures
        draws(r@) == frame(
            commands_of(matches@),
            selected as int,
            opt_view(*term),
            input@,
            width as int,
            height as int,
        ),
{
    let mut out: Vec<DrawOp> = Vec::new();
    let mut i: u16 = 0;
    while i < height
        invariant
            i <= height,
            draws(out@) == clear_rows(i as int),
        decreases height - i,
    {
        let ghost before = out@;
        out.push(DrawOp::MoveTo(0, 1 + i));
        out.push(DrawOp::ClearLine);
        assert(draws(out@) =~= draws(before) + seq![Draw::MoveTo(0, (i + 1) as u16), Draw::ClearLine]);
        i = i + 1;
    }
    let ghost cleared = draws(out@);
    let ghost cmds = commands_of(matches@);
    let shown: usize = if height <= 1 {
        0
    } else if matches.len() < (height - 1) as usize {
        matches.len()
    } else {
        (height - 1) as usize
    };
    let mut k: usize = 0;
    while k < shown
        invariant
            shown == shown_rows(matches@.len() as int, height as int),
            k <= shown,
            shown <= matches@.len(),
            shown == 0 || shown < height,
            cmds == commands_of(matches@),
            draws(out@) == cleared + match_rows(cmds, selected as int, opt_view(*term), k as int),
        decreases shown - k,
    {
        let ghost before = out@;
        let is_selected: bool = k == selected;
        out.push(DrawOp::MoveTo(0, (k + 1) as u16));
        out.push(DrawOp::Foreground(if is_selected { Color::Black } else { Color::Reset }));
        out.push(DrawOp::Background(if is_selected { Color::White } else { Color::Reset }));
        let ghost mid = out@;
        push_command_text(&mut out, &matches[k].command, term, is_selected);
        let ghost mid2 = out@;
        out.push(DrawOp::ResetColor);
        proof {
            assert(draws(mid) =~= draws(before) + seq![
                Draw::MoveTo(0, (k + 1) as u16),
                Draw::Foreground(text_color(is_selected)),
                Draw::Background(back_color(is_selected)),
            ]);
            assert(draws(out@) =~= draws(mid2) + seq![Draw::ResetColor]);
            assert(cmds[k as int] == matches@[k as int].command@);
            assert(draws(out@) =~= draws(before) + match_row(
                k as int,
                cmds[k as int],
                opt_view(*term),
                is_selected,
            ));
        }
        k = k + 1;
    }
    let line = render_input_line(input, width);
    let ghost before = out@;
    let mut line = line;
    out.append(&mut line);
    assert(draws(out@) =~= draws(before) + input_draws(input@, width as int));
    out
}

} // verus!
