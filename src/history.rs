//! History entries, and the lines of a zsh extended history file they come from.
//!
//! A line reads `: <start>:<elapsed>;<command>`, where `<start>` is the Unix time the
//! command was started and `<elapsed>` how long it ran, both in decimal digits.
use vstd::prelude::*;

use crate::text::{chars_of, trim_end, trim_end_of};
use chrono::TimeZone;
use vstd::string::{StrSliceExecFns, StringExecFns};

verus! {

/// A command of the shell history, with the time it was run (Unix seconds, UTC).
#[derive(Debug, Clone)]
pub struct CommandEntry {
    pub command: String,
    pub timestamp: i64,
}

/// The command texts of a sequence of entries.
pub open spec fn commands_of(v: Seq<CommandEntry>) -> Seq<Seq<char>> {
    v.map_values(|e: CommandEntry| e.command@)
}

/// The first second that chrono can represent in UTC: January 1 of year -262143.
pub const UTC_MIN_SECS: i64 = -8334601228800;

/// The last second that chrono can represent in UTC: December 31 of year 262142, 23:59:59.
pub const UTC_MAX_SECS: i64 = 8210266876799;

/// Relies on chrono's `TimeZone::timestamp_opt` for `Utc` (through
/// `DateTime::from_timestamp`): it gives a single date and time for `secs` seconds and
/// no nanoseconds exactly when the day falls between chrono's first and last dates.
#[verifier::external_body]
fn utc_timestamp_valid(secs: i64) -> (r: bool)
    ensures
        r == (UTC_MIN_SECS <= secs && secs <= UTC_MAX_SECS),
{
    chrono::Utc.timestamp_opt(secs, 0).single().is_some()
}

/// An ASCII decimal digit.
pub open spec fn is_digit(c: char) -> bool {
    '0' <= c <= '9'
}

/// The end of the run of digits that starts at `i`.
pub open spec fn digits_end(s: Seq<char>, i: int) -> int
    decreases s.len() - i,
{
    if 0 <= i < s.len() && is_digit(s[i]) {
        digits_end(s, i + 1)
    } else {
        i
    }
}

/// The number that a string of digits spells in decimal.
pub open spec fn digits_value(s: Seq<char>) -> int
    decreases s.len(),
{
    if s.len() == 0 {
        0
    } else {
        digits_value(s.drop_last()) * 10 + (s.last() as int - '0' as int)
    }
}

/// The start time and the command text of a history line, as written.
pub open spec fn parse_line(line: Seq<char>) -> Option<(int, Seq<char>)> {
    let a = digits_end(line, 2);
    let b = digits_end(line, a + 1);
    if line.len() >= 2 && line[0] == ':' && line[1] == ' ' && a > 2 && a < line.len() && line[a]
        == ':' && b > a + 1 && b < line.len() && line[b] == ';' {
        Some((digits_value(line.subrange(2, a)), line.subrange(b + 1, line.len() as int)))
    } else {
        None
    }
}

/// The entry a history line gives: its start time must be at most `UTC_MAX_SECS`, the
/// last second chrono represents, and its command, without trailing white space, must
/// not be empty.
pub open spec fn parse_entry(line: Seq<char>) -> Option<(int, Seq<char>)> {
    match parse_line(line) {
        Some((secs, rest)) => if secs <= UTC_MAX_SECS && trim_end_of(
            rest,
        ).len() > 0 {
            Some((secs, trim_end_of(rest)))
        } else {
            None
        },
        None => None,
    }
}

/// The entries of the first `n` lines, in order.
pub open spec fn parsed_entries(lines: Seq<Seq<char>>, n: int) -> Seq<(int, Seq<char>)>
    decreases n,
{
    if n <= 0 {
        seq![]
    } else {
        let prior = parsed_entries(lines, n - 1);
        match parse_entry(lines[n - 1]) {
            Some(e) => prior.push(e),
            None => prior,
        }
    }
}

/// The time and the text of each entry.
pub open spec fn entries_view(v: Seq<CommandEntry>) -> Seq<(int, Seq<char>)> {
    v.map_values(|e: CommandEntry| (e.timestamp as int, e.command@))
}

proof fn lemma_digits_end(s: Seq<char>, i: int)
    requires
        0 <= i <= s.len(),
    ensures
        i <= digits_end(s, i) <= s.len(),
        forall|k: int| i <= k < digits_end(s, i) ==> is_digit(s[k]),
        digits_end(s, i) < s.len() ==> !is_digit(s[digits_end(s, i)]),
    decreases s.len() - i,
{
    if i < s.len() && is_digit(s[i]) {
        lemma_digits_end(s, i + 1);
    }
}

/// The end of the run of digits at `i`.
fn scan_digits(s: &Vec<char>, i: usize) -> (r: usize)
    requires
        i <= s@.len(),
    ensures
        r == digits_end(s@, i as int),
{
    let mut j: usize = i;
    while j < s.len() && '0' <= s[j] && s[j] <= '9'
        invariant
            i <= j <= s@.len(),
            digits_end(s@, i as int) == digits_end(s@, j as int),
        decreases s@.len() - j,
    {
        j = j + 1;
    }
    j
}

/// The value of the digits `s[a..b]`, or `None` where it exceeds `i64::MAX`.
fn digits_to_i64(s: &Vec<char>, a: usize, b: usize) -> (r: Option<i64>)
    requires
        a <= b <= s@.len(),
        forall|k: int| a <= k < b ==> is_digit(s@[k]),
    ensures
        match r {
            Some(v) => v == digits_value(s@.subrange(a as int, b as int)),
            None => digits_value(s@.subrange(a as int, b as int)) > i64::MAX,
        },
{
    let mut v: i64 = 0;
    let mut j: usize = a;
    while j < b
        invariant
            a <= j <= b <= s@.len(),
            forall|k: int| a <= k < b ==> is_digit(s@[k]),
            v == digits_value(s@.subrange(a as int, j as int)),
            v >= 0,
        decreases b - j,
    {
        assert(is_digit(s@[j as int]));
        let d: i64 = (s[j] as u32 - '0' as u32) as i64;
        assert(0 <= d <= 9);
        assert(s@.subrange(a as int, j + 1).drop_last() =~= s@.subrange(a as int, j as int));
        if v > (i64::MAX - d) / 10 {
            proof {
                lemma_digits_grow(s@, a as int, j + 1, b as int);
            }
            return None;
        }
        v = v * 10 + d;
        j = j + 1;
    }
    Some(v)
}

/// A longer run of digits has at least the value of its beginning.
proof fn lemma_digits_grow(s: Seq<char>, a: int, j: int, b: int)
    requires
        0 <= a <= j <= b <= s.len(),
        forall|k: int| a <= k < b ==> is_digit(s[k]),
    ensures
        digits_value(s.subrange(a, j)) <= digits_value(s.subrange(a, b)),
    decreases b - j,
{
    if j < b {
        lemma_digits_grow(s, a, j + 1, b);
        assert(s.subrange(a, j + 1).drop_last() =~= s.subrange(a, j));
        lemma_digits_nonneg(s.subrange(a, j));
    }
}

proof fn lemma_digits_nonneg(s: Seq<char>)
    requires
        forall|k: int| 0 <= k < s.len() ==> is_digit(s[k]),
    ensures
        digits_value(s) >= 0,
    decreases s.len(),
{
    if s.len() > 0 {
        lemma_digits_nonneg(s.drop_last());
    }
}

/// The entry that a history line gives, if any.
pub fn parse_history_line(line: &str) -> (r: Option<CommandEntry>)
    ensures
        match r {
            Some(e) => parse_entry(line@) == Some((e.timestamp as int, e.command@)),
            None => parse_entry(line@) is None,
        },
{
    let s = chars_of(line);
    let n: usize = s.len();
    if n < 2 || s[0] != ':' || s[1] != ' ' {
        return None;
    }
    let a = scan_digits(&s, 2);
    proof {
        lemma_digits_end(s@, 2);
    }
    if a <= 2 || a >= n || s[a] != ':' {
        return None;
    }
    let b = scan_digits(&s, a + 1);
    proof {
        lemma_digits_end(s@, a + 1);
    }
    if b <= a + 1 || b >= n || s[b] != ';' {
        return None;
    }
    let secs = match digits_to_i64(&s, 2, a) {
        Some(v) => v,
        None => return None,
    };
    proof {
        lemma_digits_nonneg(s@.subrange(2, a as int));
    }
    if !utc_timestamp_valid(secs) {
        return None;
    }
    let rest = String::from_str(line.substring_char(b + 1, n));
    let command = trim_end(&rest);
    if command.as_str().unicode_len() == 0 {
        return None;
    }
    Some(CommandEntry { command, timestamp: secs })
}

/// The entries of a history file's lines, the last `num_lines` of them at most.
pub fn read_zsh_history(lines: &Vec<String>, num_lines: usize) -> (r: Vec<CommandEntry>)
    ensures
        ({
            let all = parsed_entries(lines@.map_values(|l: String| l@), lines@.len() as int);
            let start = if all.len() > num_lines {
                all.len() - num_lines
            } else {
                0
            };
            entries_view(r@) == all.subrange(start, all.len() as int)
        }),
{
    let ghost views = lines@.map_values(|l: String| l@);
    let mut all: Vec<CommandEntry> = Vec::new();
    let mut i: usize = 0;
    while i < lines.len()
        invariant
            i <= lines@.len(),
            views == lines@.map_values(|l: String| l@),
            entries_view(all@) == parsed_entries(views, i as int),
        decreases lines@.len() - i,
    {
        let ghost before = all@;
        match parse_history_line(lines[i].as_str()) {
            Some(e) => {
                all.push(e);
                assert(entries_view(all@) =~= entries_view(before).push(
                    (e.timestamp as int, e.command@),
                ));
            },
            None => {},
        }
        i = i + 1;
    }
    let start: usize = if all.len() > num_lines {
        all.len() - num_lines
    } else {
        0
    };
    let mut out: Vec<CommandEntry> = Vec::new();
    let mut k: usize = start;
    while k < all.len()
        invariant
            start <= k <= all@.len(),
            entries_view(out@) =~= entries_view(all@).subrange(start as int, k as int),
        decreases all@.len() - k,
    {
        let ghost before = out@;
        out.push(CommandEntry { command: all[k].command.clone(), timestamp: all[k].timestamp });
        assert(entries_view(out@) =~= entries_view(before).push(entries_view(all@)[k as int]));
        k = k + 1;
    }
    out
}

} // verus!
