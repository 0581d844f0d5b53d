//! Ranking of history entries against a query, or by frequency alone.
//!
//! Scores are fixed-point integers: `SCALE` stands for 1.0. The recency weight of each
//! history entry is handed in by the caller, as it depends on the current time.
use vstd::prelude::*;

use crate::history::{commands_of, CommandEntry};
use crate::text::{chars_of, find, first_occurrence, lower_of, lowercase};

verus! {

/// The fixed-point unit of every score and weight: it stands for 1.0.
pub const SCALE: u64 = 1000000;

/// How well a (lower-cased) command matches a (lower-cased) query: `SCALE` when the
/// command starts with the query, `SCALE / 2 - p * SCALE / len` when the query first
/// occurs at position `p > 0`, and 0 when it does not occur.
pub open spec fn match_score(lower_cmd: Seq<char>, lower_term: Seq<char>) -> int {
    match first_occurrence(lower_cmd, lower_term) {
        Some(p) => if p == 0 {
            SCALE as int
        } else {
            SCALE as int / 2 - (p * SCALE as int) / (lower_cmd.len() as int)
        },
        None => 0,
    }
}

/// `match × (0.6 × recency + 0.4 × frequency)`, in units of `SCALE`.
pub open spec fn combined_score(m: int, recency: int, frequency: int) -> int {
    (m * (6 * recency + 4 * frequency)) / (10 * SCALE as int)
}

/// The keys of a sequence of keyed values.
pub open spec fn keys<V>(s: Seq<(Seq<char>, V)>) -> Seq<Seq<char>> {
    s.map_values(|p: (Seq<char>, V)| p.0)
}

/// The first index at or after `i` that holds `c`, or -1.
pub open spec fn key_index(ks: Seq<Seq<char>>, c: Seq<char>, i: int) -> int
    decreases ks.len() - i,
{
    if i < 0 || i >= ks.len() {
        -1
    } else if ks[i] == c {
        i
    } else {
        key_index(ks, c, i + 1)
    }
}

/// `key_index` finds `c` where it says, and nowhere before; -1 means `c` is not there.
pub proof fn lemma_key_index(ks: Seq<Seq<char>>, c: Seq<char>, i: int)
    requires
        0 <= i,
    ensures
        key_index(ks, c, i) == -1 || (i <= key_index(ks, c, i) < ks.len() && ks[key_index(
            ks,
            c,
            i,
        )] == c),
        forall|j: int| i <= j < ks.len() && (key_index(ks, c, i) == -1 || j < key_index(ks, c, i)) ==> ks[j] != c,
    decreases ks.len() - i,
{
    if i < ks.len() && ks[i] != c {
        lemma_key_index(ks, c, i + 1);
    }
}

/// One entry of the query scan: an entry that matches gets a total score, whose
/// frequency part is one more than the best total its command has had so far;
/// each command keeps the best total it reaches.
pub open spec fn search_step(acc: Seq<(Seq<char>, int)>, cmd: Seq<char>, m: int, r: int) -> Seq<
    (Seq<char>, int),
> {
    if m > 0 {
        let k = key_index(keys(acc), cmd, 0);
        if k >= 0 {
            let t = combined_score(m, r, acc[k].1 + SCALE);
            acc.update(k, (cmd, if t > acc[k].1 { t } else { acc[k].1 }))
        } else {
            acc.push((cmd, combined_score(m, r, SCALE as int)))
        }
    } else {
        acc
    }
}

/// The lower-cased command of each entry.
pub open spec fn lowered(history: Seq<CommandEntry>) -> Seq<Seq<char>> {
    history.map_values(|e: CommandEntry| lower_of(e.command@))
}

/// The best total score of each matching command after scanning the first `n` entries,
/// in order of first match; `lowers` holds the lower-cased commands.
pub open spec fn search_scores(
    history: Seq<CommandEntry>,
    lowers: Seq<Seq<char>>,
    recency: Seq<u64>,
    lower_term: Seq<char>,
    n: int,
) -> Seq<(Seq<char>, int)>
    decreases n,
{
    if n <= 0 {
        seq![]
    } else {
        search_step(
            search_scores(history, lowers, recency, lower_term, n - 1),
            history[n - 1].command@,
            match_score(lowers[n - 1], lower_term),
            recency[n - 1] as int,
        )
    }
}

/// Inserts `x` after every element whose score is at least its own.
pub open spec fn insert_desc(s: Seq<(Seq<char>, int)>, x: (Seq<char>, int)) -> Seq<
    (Seq<char>, int),
>
    decreases s.len(),
{
    if s.len() == 0 {
        seq![x]
    } else if s[0].1 >= x.1 {
        seq![s[0]] + insert_desc(s.drop_first(), x)
    } else {
        seq![x] + s
    }
}

/// Sorts by score, highest first; equal scores keep their order.
pub open spec fn sort_desc(s: Seq<(Seq<char>, int)>) -> Seq<(Seq<char>, int)>
    decreases s.len(),
{
    if s.len() == 0 {
        s
    } else {
        insert_desc(sort_desc(s.drop_last()), s.last())
    }
}

/// The commands of the `limit` best scores, best first.
pub open spec fn ranked(scores: Seq<(Seq<char>, int)>, limit: int) -> Seq<Seq<char>> {
    let sorted = sort_desc(scores);
    let n = if limit < sorted.len() {
        limit
    } else {
        sorted.len() as int
    };
    keys(sorted.take(n))
}

/// The ranking of `history` against `term`.
pub open spec fn search_ranking(
    term: Seq<char>,
    history: Seq<CommandEntry>,
    recency: Seq<u64>,
    limit: int,
) -> Seq<Seq<char>> {
    ranked(
        search_scores(history, lowered(history), recency, lower_of(term), history.len() as int),
        limit,
    )
}

/// Every recency weight lies between 0 and 1.0, one for each history entry.
pub open spec fn valid_recency(history: Seq<CommandEntry>, recency: Seq<u64>) -> bool {
    recency.len() == history.len() && forall|i: int| 0 <= i < recency.len() ==> recency[i] <= SCALE
}

/// The view of scored commands.
pub open spec fn pairs_view(v: Seq<(String, u128)>) -> Seq<(Seq<char>, int)> {
    v.map_values(|p: (String, u128)| (p.0@, p.1 as int))
}

/// The match score of a lower-cased command against a lower-cased query.
pub fn command_match_score(lower_cmd: &Vec<char>, lower_term: &Vec<char>) -> (r: i64)
    ensures
        r == match_score(lower_cmd@, lower_term@),
        r <= SCALE,
{
    proof {
        crate::text::lemma_find_from(lower_cmd@, lower_term@, 0);
    }
    let ghost fo = first_occurrence(lower_cmd@, lower_term@);
    let cmd_len: usize = lower_cmd.len();
    match find(lower_cmd, lower_term) {
        Some(p) => {
            assert(fo == Some(p as int));
            if p == 0 {
                SCALE as i64
            } else {
                proof {
                    if lower_term@.len() == 0 {
                        assert(lower_cmd@.subrange(0, 0) =~= lower_term@);
                    }
                    assert(p < cmd_len);
                    assert((p as int) * (SCALE as int) / (cmd_len as int) <= SCALE as int) by (nonlinear_arith)
                        requires
                            0 <= p < cmd_len,
                    ;
                }
                let d: u128 = (p as u128) * (SCALE as u128) / (cmd_len as u128);
                assert(d == (p as int) * (SCALE as int) / (lower_cmd@.len() as int));
                assert(first_occurrence(lower_cmd@, lower_term@) == Some(p as int));
                (SCALE / 2) as i64 - d as i64
            }
        },
        None => 0,
    }
}

proof fn lemma_combined_bound(m: int, r: int, f: int)
    requires
        0 <= m <= SCALE,
        0 <= r <= SCALE,
        0 <= f <= 3 * SCALE,
    ensures
        0 <= combined_score(m, r, f) <= 2 * SCALE,
        m * (6 * r + 4 * f) <= 18 * SCALE * SCALE,
{
    assert(m * (6 * r + 4 * f) <= 18 * SCALE * SCALE) by (nonlinear_arith)
        requires
            0 <= m <= SCALE,
            0 <= 6 * r + 4 * f <= 18 * SCALE,
    ;
    assert(0 <= m * (6 * r + 4 * f)) by (nonlinear_arith)
        requires
            0 <= m,
            0 <= 6 * r + 4 * f,
    ;
}

/// `combined_score` on machine integers.
fn combine(m: u64, r: u64, f: u64) -> (t: u64)
    requires
        m <= SCALE,
        r <= SCALE,
        f <= 3 * SCALE,
    ensures
        t == combined_score(m as int, r as int, f as int),
        t <= 2 * SCALE,
{
    proof {
        lemma_combined_bound(m as int, r as int, f as int);
    }
    m * (6 * r + 4 * f) / (10 * SCALE)
}

/// The first index of `v` whose key is `c`.
fn find_key<V>(v: &Vec<(String, V)>, c: &String) -> (r: Option<usize>)
    ensures
        match r {
            Some(k) => k < v@.len() && key_index(keys(v@.map_values(|p: (String, V)| (p.0@, p.1))), c@, 0) == k,
            None => key_index(keys(v@.map_values(|p: (String, V)| (p.0@, p.1))), c@, 0) == -1,
        },
{
    let ghost ks = keys(v@.map_values(|p: (String, V)| (p.0@, p.1)));
    let mut i: usize = 0;
    while i < v.len()
        invariant
            i <= v@.len(),
            ks == keys(v@.map_values(|p: (String, V)| (p.0@, p.1))),
            key_index(ks, c@, 0) == key_index(ks, c@, i as int),
        decreases v@.len() - i,
    {
        if v[i].0 == *c {
            return Some(i);
        }
        i = i + 1;
    }
    None
}

/// Inserting at the first position whose score is below `x`'s is `insert_desc`.
proof fn lemma_insert_desc_at(s: Seq<(Seq<char>, int)>, x: (Seq<char>, int), pos: int)
    requires
        0 <= pos <= s.len(),
        forall|k: int| 0 <= k < pos ==> s[k].1 >= x.1,
        pos < s.len() ==> s[pos].1 < x.1,
    ensures
        insert_desc(s, x) == s.insert(pos, x),
    decreases s.len(),
{
    if s.len() == 0 {
        assert(s.insert(pos, x) =~= seq![x]);
    } else if pos == 0 {
        assert(s.insert(pos, x) =~= seq![x] + s);
    } else {
        let t = s.drop_first();
        lemma_insert_desc_at(t, x, pos - 1);
        assert(s.insert(pos, x) =~= seq![s[0]] + t.insert(pos - 1, x));
    }
}

/// `sort_desc` of the scored commands, computed by insertion.
fn sort_scores(scores: &Vec<(String, u128)>) -> (r: Vec<(String, u128)>)
    ensures
        pairs_view(r@) == sort_desc(pairs_view(scores@)),
{
    let mut out: Vec<(String, u128)> = Vec::new();
    let mut i: usize = 0;
    while i < scores.len()
        invariant
            i <= scores@.len(),
            pairs_view(out@) == sort_desc(pairs_view(scores@).take(i as int)),
        decreases scores@.len() - i,
    {
        let key: u128 = scores[i].1;
        let mut pos: usize = 0;
        while pos < out.len() && out[pos].1 >= key
            invariant
                pos <= out@.len(),
                forall|k: int| 0 <= k < pos ==> out@[k].1 >= key,
            decreases out@.len() - pos,
        {
            pos = pos + 1;
        }
        let ghost before = out@;
        let item = (scores[i].0.clone(), key);
        out.insert(pos, item);
        proof {
            let sv = pairs_view(scores@);
            let x = (item.0@, item.1 as int);
            assert(x == sv[i as int]);
            lemma_insert_desc_at(pairs_view(before), x, pos as int);
            assert(pairs_view(out@) =~= pairs_view(before).insert(pos as int, x));
            assert(sv.take(i + 1).drop_last() =~= sv.take(i as int));
        }
        i = i + 1;
    }
    assert(pairs_view(scores@).take(scores@.len() as int) =~= pairs_view(scores@));
    out
}

/// The commands of the first `limit` scored commands, with no timestamp.
fn take_commands(sorted: &Vec<(String, u128)>, limit: usize) -> (r: Vec<CommandEntry>)
    ensures
        commands_of(r@) == ({
            let n = if limit < sorted@.len() {
                limit as int
            } else {
                sorted@.len() as int
            };
            keys(pairs_view(sorted@).take(n))
        }),
        forall|i: int| 0 <= i < r@.len() ==> r@[i].timestamp == 0,
{
    let n: usize = if limit < sorted.len() {
        limit
    } else {
        sorted.len()
    };
    let mut out: Vec<CommandEntry> = Vec::new();
    let mut i: usize = 0;
    while i < n
        invariant
            n <= sorted@.len(),
            i <= n,
            commands_of(out@) =~= keys(pairs_view(sorted@).take(i as int)),
            forall|j: int| 0 <= j < out@.len() ==> out@[j].timestamp == 0,
        decreases n - i,
    {
        let ghost before = out@;
        out.push(CommandEntry { command: sorted[i].0.clone(), timestamp: 0 });
        assert(commands_of(out@) =~= commands_of(before).push(sorted@[i as int].0@));
        assert(pairs_view(sorted@).take(i + 1) =~= pairs_view(sorted@).take(i as int).push(
            pairs_view(sorted@)[i as int],
        ));
        i = i + 1;
    }
    out
}

/// The views of character lists.
pub open spec fn char_lists(v: Seq<Vec<char>>) -> Seq<Seq<char>> {
    v.map_values(|x: Vec<char>| x@)
}

/// Ranks the commands of `history` against a lower-cased query, given the lower-cased
/// command of each entry.
///
/// An entry whose lower-cased command holds the query scores `SCALE` where it starts
/// with it, else `SCALE / 2 - p * SCALE / len` for a first occurrence at `p`; entries
/// that score 0 or less are left out. Its total is
/// `match × (0.6 × recency + 0.4 × frequency)`, where the frequency is 1.0 more than the
/// best total its command has had so far in the scan. Each command keeps its best total;
/// the commands come out by total, highest first, ties in order of first match, at most
/// `max_results` of them, with timestamp 0.
pub fn search_lowered(
    lower_term: &Vec<char>,
    history: &Vec<CommandEntry>,
    lower_commands: &Vec<Vec<char>>,
    recency: &Vec<u64>,
    max_results: usize,
) -> (r: Vec<CommandEntry>)
    requires
        valid_recency(history@, recency@),
        lower_commands@.len() == history@.len(),
    ensures
        commands_of(r@) == ranked(
            search_scores(
                history@,
                char_lists(lower_commands@),
                recency@,
                lower_term@,
                history@.len() as int,
            ),
            max_results as int,
        ),
        forall|i: int| 0 <= i < r@.len() ==> r@[i].timestamp == 0,
{
    let ghost lowers = char_lists(lower_commands@);
    let mut scores: Vec<(String, u128)> = Vec::new();
    let mut i: usize = 0;
    while i < history.len()
        invariant
            i <= history@.len(),
            valid_recency(history@, recency@),
            lower_commands@.len() == history@.len(),
            lowers == char_lists(lower_commands@),
            pairs_view(scores@) == search_scores(history@, lowers, recency@, lower_term@, i as int),
            forall|k: int| 0 <= k < scores@.len() ==> scores@[k].1 <= 2 * SCALE,
        decreases history@.len() - i,
    {
        let command = &history[i].command;
        let m: i64 = command_match_score(&lower_commands[i], lower_term);
        let ghost acc = pairs_view(scores@);
        if m > 0 {
            let r: u64 = recency[i];
            proof {
                assert(acc.map_values(|p: (Seq<char>, int)| p.0) =~= keys(
                    scores@.map_values(|p: (String, u128)| (p.0@, p.1)),
                ));
            }
            match find_key(&scores, command) {
                Some(k) => {
                    proof {
                        lemma_key_index(keys(acc), command@, 0);
                    }
                    let best: u128 = scores[k].1;
                    let t: u128 = combine(m as u64, r, best as u64 + SCALE) as u128;
                    if t > best {
                        scores.set(k, (command.clone(), t));
                        assert(pairs_view(scores@) =~= acc.update(k as int, (command@, t as int)));
                    } else {
                        assert(keys(acc)[k as int] == command@);
                        assert(pairs_view(scores@) =~= acc.update(k as int, (command@, scores@[k as int].1 as int)));
                    }
                },
                None => {
                    let t: u128 = combine(m as u64, r, SCALE) as u128;
                    scores.push((command.clone(), t));
                    assert(pairs_view(scores@) =~= acc.push((command@, t as int)));
                },
            }
        }
        i = i + 1;
    }
    let sorted = sort_scores(&scores);
    take_commands(&sorted, max_results)
}

/// Ranks the commands of `history` that contain `term`, ignoring case: the ranking of
/// `search_lowered`, on the lower-cased query and commands.
pub fn search_commands(
    term: &str,
    history: &Vec<CommandEntry>,
    recency: &Vec<u64>,
    max_results: usize,
) -> (r: Vec<CommandEntry>)
    requires
        valid_recency(history@, recency@),
    ensures
        commands_of(r@) == search_ranking(term@, history@, recency@, max_results as int),
        forall|i: int| 0 <= i < r@.len() ==> r@[i].timestamp == 0,
{
    let lower_term = chars_of(lowercase(term).as_str());
    let mut lower_commands: Vec<Vec<char>> = Vec::new();
    let mut i: usize = 0;
    while i < history.len()
        invariant
            i <= history@.len(),
            char_lists(lower_commands@) =~= lowered(history@).take(i as int),
        decreases history@.len() - i,
    {
        let lower_cmd = chars_of(lowercase(history[i].command.as_str()).as_str());
        let ghost before = lower_commands@;
        lower_commands.push(lower_cmd);
        assert(char_lists(lower_commands@) =~= char_lists(before).push(lower_of(history@[i as int].command@)));
        assert(lowered(history@).take(i + 1) =~= lowered(history@).take(i as int).push(
            lowered(history@)[i as int],
        ));
        i = i + 1;
    }
    assert(lowered(history@).take(i as int) =~= lowered(history@));
    search_lowered(&lower_term, history, &lower_commands, recency, max_results)
}

/// The count, the latest timestamp and the recency weight that goes with it, after one
/// more occurrence: of two occurrences at the same time, the higher weight is kept.
pub open spec fn usage_step(u: (int, int, int), ts: int, w: int) -> (int, int, int) {
    if ts > u.1 || (ts == u.1 && w > u.2) {
        (u.0 + 1, ts, w)
    } else {
        (u.0 + 1, u.1, u.2)
    }
}

/// The usage of a command that has not occurred.
pub open spec fn no_usage() -> (int, int, int) {
    (0, i64::MIN as int - 1, -1)
}

/// How often `c` occurs among the first `n` entries, and its latest occurrence.
pub open spec fn usage(history: Seq<CommandEntry>, recency: Seq<u64>, c: Seq<char>, n: int) -> (
    int,
    int,
    int,
)
    decreases n,
{
    if n <= 0 {
        no_usage()
    } else {
        let u = usage(history, recency, c, n - 1);
        if history[n - 1].command@ == c {
            usage_step(u, history[n - 1].timestamp as int, recency[n - 1] as int)
        } else {
            u
        }
    }
}

/// The distinct commands among the first `n` entries, in order of first occurrence.
pub open spec fn distinct_commands(history: Seq<CommandEntry>, n: int) -> Seq<Seq<char>>
    decreases n,
{
    if n <= 0 {
        seq![]
    } else {
        let d = distinct_commands(history, n - 1);
        let c = history[n - 1].command@;
        if d.contains(c) {
            d
        } else {
            d.push(c)
        }
    }
}

/// `0.6 × recency + 0.4 × count`, in tenths of `SCALE`.
pub open spec fn frequency_score(u: (int, int, int)) -> int {
    6 * u.2 + 4 * (SCALE as int) * u.0
}

/// Each distinct command with its frequency score.
pub open spec fn frequency_scores(history: Seq<CommandEntry>, recency: Seq<u64>) -> Seq<
    (Seq<char>, int),
> {
    distinct_commands(history, history.len() as int).map_values(
        |c: Seq<char>| (c, frequency_score(usage(history, recency, c, history.len() as int))),
    )
}

/// The ranking of `history` by frequency and recency.
pub open spec fn frequency_ranking(history: Seq<CommandEntry>, recency: Seq<u64>, limit: int) -> Seq<
    Seq<char>,
> {
    ranked(frequency_scores(history, recency), limit)
}

/// A command that is not among the distinct commands has not occurred.
proof fn lemma_absent_unused(history: Seq<CommandEntry>, recency: Seq<u64>, c: Seq<char>, n: int)
    requires
        n <= history.len(),
        !distinct_commands(history, n).contains(c),
    ensures
        usage(history, recency, c, n) == no_usage(),
    decreases n,
{
    if n > 0 {
        let d = distinct_commands(history, n - 1);
        let last = history[n - 1].command@;
        let dn = distinct_commands(history, n);
        if last == c {
            if d.contains(c) {
                assert(dn == d);
            } else {
                assert(dn[dn.len() - 1] == c);
            }
        }
        if d.contains(c) {
            let k = choose|k: int| 0 <= k < d.len() && d[k] == c;
            if !d.contains(last) {
                assert(dn[k] == c);
            }
        }
        lemma_absent_unused(history, recency, c, n - 1);
    }
}

/// The view of the usage table.
pub open spec fn usage_view(v: Seq<(String, (usize, i64, u64))>) -> Seq<(Seq<char>, (int, int, int))> {
    v.map_values(|p: (String, (usize, i64, u64))| (p.0@, (p.1.0 as int, p.1.1 as int, p.1.2 as int)))
}

/// Ranks the distinct commands of `history` by `0.6 × recency + 0.4 × count`, where the
/// count is exact and the recency is that of the command's latest occurrence: highest
/// first, ties in order of first occurrence, at most `max_results` of them, with
/// timestamp 0.
pub fn get_frequent_commands(history: &Vec<CommandEntry>, recency: &Vec<u64>, max_results: usize) -> (r:
    Vec<CommandEntry>)
    requires
        valid_recency(history@, recency@),
    ensures
        commands_of(r@) == frequency_ranking(history@, recency@, max_results as int),
        forall|i: int| 0 <= i < r@.len() ==> r@[i].timestamp == 0,
{
    let mut table: Vec<(String, (usize, i64, u64))> = Vec::new();
    let mut i: usize = 0;
    while i < history.len()
        invariant
            i <= history@.len(),
            valid_recency(history@, recency@),
            keys(usage_view(table@)) == distinct_commands(history@, i as int),
            forall|a: int, b: int| 0 <= a < b < table@.len() ==> table@[a].0@ != table@[b].0@,
            forall|k: int|
                0 <= k < table@.len() ==> usage_view(table@)[k].1 == usage(
                    history@,
                    recency@,
                    table@[k].0@,
                    i as int,
                ),
            forall|k: int| 0 <= k < table@.len() ==> table@[k].1.0 <= i,
        decreases history@.len() - i,
    {
        let entry = &history[i];
        let ts: i64 = entry.timestamp;
        let w: u64 = recency[i];
        let ghost t0 = table@;
        let ghost ks = keys(usage_view(t0));
        proof {
            assert(ks =~= keys(table@.map_values(|p: (String, (usize, i64, u64))| (p.0@, p.1))));
        }
        match find_key(&table, &entry.command) {
            Some(k) => {
                proof {
                    lemma_key_index(ks, entry.command@, 0);
                }
                let (count, latest, weight) = table[k].1;
                let u = if ts > latest || (ts == latest && w > weight) {
                    (count + 1, ts, w)
                } else {
                    (count + 1, latest, weight)
                };
                table.set(k, (entry.command.clone(), u));
                proof {
                    assert(ks[k as int] == t0[k as int].0@);
                    assert(ks.contains(entry.command@));
                    assert(keys(usage_view(table@)) =~= ks);
                    assert forall|j: int| 0 <= j < table@.len() implies usage_view(table@)[j].1
                        == usage(history@, recency@, table@[j].0@, i + 1) by {
                        if j != k {
                            if j < k {
                                assert(t0[j].0@ != t0[k as int].0@);
                            } else {
                                assert(t0[k as int].0@ != t0[j].0@);
                            }
                            assert(table@[j] == t0[j]);
                            assert(usage_view(table@)[j] == usage_view(t0)[j]);
                            assert(usage_view(t0)[j].1 == usage(history@, recency@, t0[j].0@, i as int));
                            assert(usage(history@, recency@, table@[j].0@, i + 1) == usage(
                                history@,
                                recency@,
                                table@[j].0@,
                                i as int,
                            ));
                        } else {
                            assert(usage_view(t0)[j].1 == usage(history@, recency@, entry.command@, i as int));
                            assert(usage_view(t0)[j].1 == (count as int, latest as int, weight as int));
                            assert(usage(history@, recency@, entry.command@, i + 1) == usage_step(
                                usage(history@, recency@, entry.command@, i as int),
                                ts as int,
                                w as int,
                            ));
                            assert(usage_view(table@)[j].1 == (u.0 as int, u.1 as int, u.2 as int));
                        }
                    }
                }
            },
            None => {
                proof {
                    lemma_key_index(ks, entry.command@, 0);
                    assert(!ks.contains(entry.command@));
                    lemma_absent_unused(history@, recency@, entry.command@, i as int);
                }
                table.push((entry.command.clone(), (1, ts, w)));
                proof {
                    assert(keys(usage_view(table@)) =~= ks.push(entry.command@));
                    assert forall|a: int| 0 <= a < t0.len() implies t0[a].0@ != entry.command@ by {
                        assert(ks[a] == t0[a].0@);
                    }
                    assert forall|j: int| 0 <= j < table@.len() implies usage_view(table@)[j].1
                        == usage(history@, recency@, table@[j].0@, i + 1) by {
                        if j < t0.len() {
                            assert(table@[j] == t0[j]);
                            assert(usage_view(table@)[j] == usage_view(t0)[j]);
                            assert(usage_view(t0)[j].1 == usage(history@, recency@, t0[j].0@, i as int));
                            assert(usage(history@, recency@, table@[j].0@, i + 1) == usage(
                                history@,
                                recency@,
                                table@[j].0@,
                                i as int,
                            ));
                        } else {
                            assert(usage(history@, recency@, entry.command@, i + 1) == usage_step(
                                no_usage(),
                                ts as int,
                                w as int,
                            ));
                        }
                    }
                }
            },
        }
        i = i + 1;
    }
    let mut scores: Vec<(String, u128)> = Vec::new();
    let mut j: usize = 0;
    while j < table.len()
        invariant
            j <= table@.len(),
            i == history@.len(),
            valid_recency(history@, recency@),
            keys(usage_view(table@)) == distinct_commands(history@, i as int),
            forall|k: int|
                0 <= k < table@.len() ==> usage_view(table@)[k].1 == usage(
                    history@,
                    recency@,
                    table@[k].0@,
                    i as int,
                ),
            forall|k: int| 0 <= k < table@.len() ==> table@[k].1.0 <= i,
            pairs_view(scores@) =~= frequency_scores(history@, recency@).take(j as int),
        decreases table@.len() - j,
    {
        let (count, _latest, weight) = table[j].1;
        proof {
            assert(keys(usage_view(table@))[j as int] == table@[j as int].0@);
        }
        let c: u128 = count as u128;
        let count_part: u128 = c * 4000000;
        let score: u128 = 6 * (weight as u128) + count_part;
        let ghost before = scores@;
        scores.push((table[j].0.clone(), score));
        proof {
            let d = distinct_commands(history@, i as int);
            assert(d[j as int] == table@[j as int].0@);
            assert(usage_view(table@)[j as int].1 == (count as int, _latest as int, weight as int));
            assert(frequency_scores(history@, recency@)[j as int] == (d[j as int], frequency_score(
                usage(history@, recency@, d[j as int], i as int),
            )));
            assert(4 * (SCALE as int) == 4000000);
            assert(4 * (SCALE as int) * (count as int) == 4000000 * (count as int));
            assert(score == 6 * (weight as int) + 4 * (SCALE as int) * (count as int));
            assert(pairs_view(scores@) =~= pairs_view(before).push(
                frequency_scores(history@, recency@)[j as int],
            ));
            assert(frequency_scores(history@, recency@).take(j + 1) =~= frequency_scores(
                history@,
                recency@,
            ).take(j as int).push(frequency_scores(history@, recency@)[j as int]));
        }
        j = j + 1;
    }
    proof {
        assert(frequency_scores(history@, recency@).take(j as int) =~= frequency_scores(
            history@,
            recency@,
        ));
    }
    let sorted = sort_scores(&scores);
    take_commands(&sorted, max_results)
}

} // verus!
