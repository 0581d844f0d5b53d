//! What the rankings guarantee: results hold the query and respect the limit, a prefix
//! match outranks a later match, and the ranking by frequency ignores the order in which
//! a command's occurrences were recorded.
use vstd::prelude::*;

use crate::history::CommandEntry;
use crate::search::{
    combined_score, distinct_commands, frequency_ranking, frequency_score, frequency_scores,
    insert_desc, keys, key_index, lemma_key_index, match_score, no_usage, ranked, search_ranking,
    lowered, search_scores, sort_desc, usage, valid_recency, SCALE,
};
use crate::text::{contains, first_occurrence, lemma_first_occurrence, lower_of, occurs_at};

verus! {

/// Scores never rise along the sequence.
pub open spec fn sorted_desc(s: Seq<(Seq<char>, int)>) -> bool {
    forall|i: int, j: int| 0 <= i < j < s.len() ==> s[i].1 >= s[j].1
}

proof fn lemma_insert_desc(s: Seq<(Seq<char>, int)>, x: (Seq<char>, int))
    requires
        sorted_desc(s),
    ensures
        insert_desc(s, x).len() == s.len() + 1,
        forall|y: (Seq<char>, int)| #[trigger] insert_desc(s, x).contains(y) <==> (s.contains(y) || y == x),
        sorted_desc(insert_desc(s, x)),
    decreases s.len(),
{
    let r = insert_desc(s, x);
    if s.len() == 0 {
        assert(r =~= seq![x]);
        assert forall|y: (Seq<char>, int)| r.contains(y) <==> (s.contains(y) || y == x) by {
            if r.contains(y) {
                assert(r[0] == y);
            }
            if y == x {
                assert(r[0] == y);
            }
        }
    } else if s[0].1 >= x.1 {
        let t = s.drop_first();
        lemma_insert_desc(t, x);
        let rt = insert_desc(t, x);
        assert(r == seq![s[0]] + rt);
        assert forall|y: (Seq<char>, int)| r.contains(y) <==> (s.contains(y) || y == x) by {
            if r.contains(y) {
                let k = choose|k: int| 0 <= k < r.len() && r[k] == y;
                if k > 0 {
                    assert(rt[k - 1] == y);
                    assert(rt.contains(y));
                    if t.contains(y) {
                        let m = choose|m: int| 0 <= m < t.len() && t[m] == y;
                        assert(s[m + 1] == y);
                        assert(s.contains(y));
                    }
                } else {
                    assert(s[0] == y);
                    assert(s.contains(y));
                }
            }
            if s.contains(y) {
                let k = choose|k: int| 0 <= k < s.len() && s[k] == y;
                if k == 0 {
                    assert(r[0] == y);
                } else {
                    assert(t[k - 1] == y);
                    assert(t.contains(y));
                    assert(rt.contains(y));
                    let m = choose|m: int| 0 <= m < rt.len() && rt[m] == y;
                    assert(r[m + 1] == y);
                }
            }
            if y == x {
                assert(t.contains(y) || y == x);
                assert(rt.contains(y));
                let m = choose|m: int| 0 <= m < rt.len() && rt[m] == y;
                assert(r[m + 1] == y);
            }
        }
        assert forall|i: int, j: int| 0 <= i < j < r.len() implies r[i].1 >= r[j].1 by {
            if i == 0 {
                assert(rt.contains(r[j]));
                if t.contains(r[j]) {
                    let m = choose|m: int| 0 <= m < t.len() && t[m] == r[j];
                    assert(s[m + 1] == r[j]);
                }
            } else {
                assert(r[i] == rt[i - 1] && r[j] == rt[j - 1]);
            }
        }
    } else {
        assert(r == seq![x] + s);
        assert forall|y: (Seq<char>, int)| r.contains(y) <==> (s.contains(y) || y == x) by {
            if r.contains(y) {
                let k = choose|k: int| 0 <= k < r.len() && r[k] == y;
                if k > 0 {
                    assert(s[k - 1] == y);
                }
            }
            if s.contains(y) {
                let k = choose|k: int| 0 <= k < s.len() && s[k] == y;
                assert(r[k + 1] == y);
            }
            if y == x {
                assert(r[0] == y);
            }
        }
        assert forall|i: int, j: int| 0 <= i < j < r.len() implies r[i].1 >= r[j].1 by {
            if i == 0 {
                assert(s[0].1 >= s[j - 1].1);
            } else {
                assert(r[i] == s[i - 1] && r[j] == s[j - 1]);
            }
        }
    }
}

/// `sort_desc` sorts, and keeps the length and the elements.
pub proof fn lemma_sort_desc(s: Seq<(Seq<char>, int)>)
    ensures
        sort_desc(s).len() == s.len(),
        forall|y: (Seq<char>, int)| #[trigger] sort_desc(s).contains(y) <==> s.contains(y),
        sorted_desc(sort_desc(s)),
    decreases s.len(),
{
    if s.len() > 0 {
        let t = s.drop_last();
        lemma_sort_desc(t);
        lemma_insert_desc(sort_desc(t), s.last());
        assert forall|y: (Seq<char>, int)| sort_desc(s).contains(y) <==> s.contains(y) by {
            if t.contains(y) {
                let k = choose|k: int| 0 <= k < t.len() && t[k] == y;
                assert(s[k] == y);
            }
            if s.contains(y) {
                let k = choose|k: int| 0 <= k < s.len() && s[k] == y;
                if k < s.len() - 1 {
                    assert(t[k] == y);
                }
            }
        }
    }
}

/// Every command kept by the query scan holds the query.
proof fn lemma_search_scores_match(
    history: Seq<CommandEntry>,
    recency: Seq<u64>,
    lower_term: Seq<char>,
    n: int,
)
    requires
        0 <= n <= history.len(),
    ensures
        forall|k: int|
            0 <= k < search_scores(history, lowered(history), recency, lower_term, n).len() ==> contains(
                lower_of(search_scores(history, lowered(history), recency, lower_term, n)[k].0),
                lower_term,
            ),
    decreases n,
{
    if n > 0 {
        let acc = search_scores(history, lowered(history), recency, lower_term, n - 1);
        lemma_search_scores_match(history, recency, lower_term, n - 1);
        let cmd = history[n - 1].command@;
        let m = match_score(lower_of(cmd), lower_term);
        lemma_first_occurrence(lower_of(cmd), lower_term);
        lemma_key_index(keys(acc), cmd, 0);
        if m > 0 {
            assert(contains(lower_of(cmd), lower_term));
        }
    }
}

/// The ranking against a query holds at most `limit` commands, and each holds the query,
/// ignoring case.
pub proof fn lemma_search_ranking_matches(
    term: Seq<char>,
    history: Seq<CommandEntry>,
    recency: Seq<u64>,
    limit: int,
)
    requires
        limit >= 0,
    ensures
        search_ranking(term, history, recency, limit).len() <= limit,
        forall|i: int|
            0 <= i < search_ranking(term, history, recency, limit).len() ==> contains(
                lower_of(search_ranking(term, history, recency, limit)[i]),
                lower_of(term),
            ),
{
    let scores = search_scores(history, lowered(history), recency, lower_of(term), history.len() as int);
    lemma_search_scores_match(history, recency, lower_of(term), history.len() as int);
    lemma_sort_desc(scores);
    let sorted = sort_desc(scores);
    assert forall|i: int|
        0 <= i < search_ranking(term, history, recency, limit).len() implies contains(
        lower_of(search_ranking(term, history, recency, limit)[i]),
        lower_of(term),
    ) by {
        let n = if limit < sorted.len() {
            limit
        } else {
            sorted.len() as int
        };
        assert(search_ranking(term, history, recency, limit)[i] == sorted.take(n)[i].0);
        assert(sorted.contains(sorted[i]));
        assert(scores.contains(sorted[i]));
        let k = choose|k: int| 0 <= k < scores.len() && scores[k] == sorted[i];
        assert(contains(lower_of(scores[k].0), lower_of(term)));
    }
}

/// `p` comes no later than `q`: by time, then by weight.
pub open spec fn latest_le(p: (int, int), q: (int, int)) -> bool {
    p.0 < q.0 || (p.0 == q.0 && p.1 <= q.1)
}

/// Two histories list the same commands in the same order.
pub open spec fn same_commands(h1: Seq<CommandEntry>, h2: Seq<CommandEntry>) -> bool {
    h1.len() == h2.len() && forall|k: int| 0 <= k < h1.len() ==> h2[k].command@ == h1[k].command@
}

/// Every occurrence in the first history, with its time and recency weight, is an
/// occurrence of the same command in the second.
#[verifier::opaque]
pub open spec fn occurrences_within(
    h1: Seq<CommandEntry>,
    r1: Seq<u64>,
    h2: Seq<CommandEntry>,
    r2: Seq<u64>,
) -> bool {
    forall|k: int|
        0 <= k < h1.len() ==> exists|k2: int|
            0 <= k2 < h2.len() && (#[trigger] h2[k2]).command@ == (#[trigger] h1[k]).command@
                && h2[k2].timestamp == h1[k].timestamp && r2[k2] == r1[k]
}

/// Where every occurrence of the first history is one of the second, the latest
/// occurrence of `c` in the first comes no later than that in the second.
proof fn lemma_latest_within(
    h1: Seq<CommandEntry>,
    r1: Seq<u64>,
    h2: Seq<CommandEntry>,
    r2: Seq<u64>,
    c: Seq<char>,
)
    requires
        h1.len() == r1.len(),
        h2.len() == r2.len(),
        occurrences_within(h1, r1, h2, r2),
    ensures
        ({
            let u = usage(h1, r1, c, h1.len() as int);
            let v = usage(h2, r2, c, h2.len() as int);
            latest_le((u.1, u.2), (v.1, v.2))
        }),
{
    reveal(occurrences_within);
    lemma_usage_latest(h1, r1, c, h1.len() as int);
    lemma_usage_latest(h2, r2, c, h2.len() as int);
    let u = usage(h1, r1, c, h1.len() as int);
    if (u.1, u.2) != (no_usage().1, no_usage().2) {
        let k = choose|k: int|
            0 <= k < h1.len() && h1[k].command@ == c && (u.1, u.2) == (
                h1[k].timestamp as int,
                r1[k] as int,
            );
        assert(h1[k] == h1[k]);
        let k2 = choose|k2: int|
            0 <= k2 < h2.len() && (#[trigger] h2[k2]).command@ == h1[k].command@
                && h2[k2].timestamp == h1[k].timestamp && r2[k2] == r1[k];
        assert(h2[k2].command@ == c);
    }
}

/// The count of `c` depends on the commands alone.
proof fn lemma_usage_count_same(
    h1: Seq<CommandEntry>,
    r1: Seq<u64>,
    h2: Seq<CommandEntry>,
    r2: Seq<u64>,
    c: Seq<char>,
    n: int,
)
    requires
        same_commands(h1, h2),
        n <= h1.len(),
    ensures
        usage(h2, r2, c, n).0 == usage(h1, r1, c, n).0,
    decreases n,
{
    if n > 0 {
        lemma_usage_count_same(h1, r1, h2, r2, c, n - 1);
    }
}

/// The latest occurrence of `c` is one of its occurrences (or none at all), and no
/// occurrence comes later.
proof fn lemma_usage_latest(history: Seq<CommandEntry>, recency: Seq<u64>, c: Seq<char>, n: int)
    requires
        n <= history.len(),
        recency.len() == history.len(),
    ensures
        ({
            let u = usage(history, recency, c, n);
            &&& latest_le((no_usage().1, no_usage().2), (u.1, u.2))
            &&& ((u.1, u.2) == (no_usage().1, no_usage().2) || exists|k: int|
                0 <= k < n && history[k].command@ == c && (u.1, u.2) == (
                    history[k].timestamp as int,
                    recency[k] as int,
                ))
            &&& forall|k: int|
                0 <= k < n && history[k].command@ == c ==> latest_le(
                    (history[k].timestamp as int, recency[k] as int),
                    (u.1, u.2),
                )
        }),
    decreases n,
{
    if n > 0 {
        lemma_usage_latest(history, recency, c, n - 1);
        let u0 = usage(history, recency, c, n - 1);
        let u = usage(history, recency, c, n);
        if history[n - 1].command@ == c {
            if !((u0.1, u0.2) == (no_usage().1, no_usage().2)) {
                let k = choose|k: int|
                    0 <= k < n - 1 && history[k].command@ == c && (u0.1, u0.2) == (
                        history[k].timestamp as int,
                        recency[k] as int,
                    );
                if (u.1, u.2) == (u0.1, u0.2) {
                    assert(0 <= k < n && history[k].command@ == c);
                }
            }
            if (u.1, u.2) != (u0.1, u0.2) {
                assert(history[n - 1].command@ == c);
            }
        } else {
            if !((u0.1, u0.2) == (no_usage().1, no_usage().2)) {
                let k = choose|k: int|
                    0 <= k < n - 1 && history[k].command@ == c && (u0.1, u0.2) == (
                        history[k].timestamp as int,
                        recency[k] as int,
                    );
                assert(0 <= k < n && history[k].command@ == c);
            }
        }
    }
}

/// The distinct commands depend on the commands alone.
proof fn lemma_distinct_same(h1: Seq<CommandEntry>, h2: Seq<CommandEntry>, n: int)
    requires
        same_commands(h1, h2),
        n <= h1.len(),
    ensures
        distinct_commands(h2, n) == distinct_commands(h1, n),
    decreases n,
{
    if n > 0 {
        lemma_distinct_same(h1, h2, n - 1);
    }
}

/// Reordering the occurrences of each command, with their times and recency weights,
/// leaves the ranking by frequency as it was: the count and the latest occurrence of
/// each command do not depend on the order of its occurrences. The two histories list
/// the same commands in the same order, and each occurrence of one, with its time and
/// weight, is an occurrence of the same command in the other.
pub proof fn lemma_frequency_ranking_reordered(
    h1: Seq<CommandEntry>,
    r1: Seq<u64>,
    h2: Seq<CommandEntry>,
    r2: Seq<u64>,
    limit: int,
)
    requires
        valid_recency(h1, r1),
        valid_recency(h2, r2),
        same_commands(h1, h2),
        occurrences_within(h1, r1, h2, r2),
        occurrences_within(h2, r2, h1, r1),
    ensures
        frequency_ranking(h2, r2, limit) == frequency_ranking(h1, r1, limit),
{
    let n = h1.len() as int;
    lemma_distinct_same(h1, h2, n);
    assert forall|c: Seq<char>| usage(h2, r2, c, n) == usage(h1, r1, c, n) by {
        lemma_usage_count_same(h1, r1, h2, r2, c, n);
        lemma_latest_within(h1, r1, h2, r2, c);
        lemma_latest_within(h2, r2, h1, r1, c);
    }
    assert(frequency_scores(h2, r2) =~= frequency_scores(h1, r1));
}

/// In the query scan, a command that occurs once, at `a`, is kept from then on exactly
/// when its match score is positive, with the total its one entry gets.
proof fn lemma_single_occurrence(
    history: Seq<CommandEntry>,
    recency: Seq<u64>,
    lower_term: Seq<char>,
    a: int,
    n: int,
)
    requires
        0 <= a < history.len(),
        0 <= n <= history.len(),
        recency.len() == history.len(),
        forall|k: int| 0 <= k < history.len() && k != a ==> history[k].command@ != history[a].command@,
    ensures
        ({
            let c = history[a].command@;
            let m = match_score(lower_of(c), lower_term);
            let acc = search_scores(history, lowered(history), recency, lower_term, n);
            &&& forall|k: int|
                0 <= k < acc.len() && acc[k].0 == c ==> n > a && m > 0 && acc[k].1 == combined_score(
                    m,
                    recency[a] as int,
                    SCALE as int,
                )
            &&& (n > a && m > 0) ==> exists|k: int| 0 <= k < acc.len() && acc[k].0 == c
        }),
    decreases n,
{
    if n > 0 {
        lemma_single_occurrence(history, recency, lower_term, a, n - 1);
        let c = history[a].command@;
        let acc0 = search_scores(history, lowered(history), recency, lower_term, n - 1);
        let acc = search_scores(history, lowered(history), recency, lower_term, n);
        let e = history[n - 1].command@;
        let m = match_score(lower_of(e), lower_term);
        let ks = keys(acc0);
        lemma_key_index(ks, e, 0);
        let k0 = key_index(ks, e, 0);
        if m > 0 {
            if k0 >= 0 {
                assert forall|k: int| 0 <= k < acc.len() && k != k0 implies acc[k] == acc0[k] by {}
                if n - 1 == a {
                    assert(ks[k0] == acc0[k0].0);
                }
                if n > a + 1 && match_score(lower_of(c), lower_term) > 0 {
                    let kk = choose|k: int| 0 <= k < acc0.len() && acc0[k].0 == c;
                    assert(ks[k0] == acc0[k0].0);
                    assert(acc[kk].0 == c);
                }
            } else {
                if n - 1 == a {
                    assert forall|k: int| 0 <= k < acc0.len() implies acc0[k].0 != c by {
                        assert(ks[k] == acc0[k].0);
                    }
                    assert(acc[acc0.len() as int].0 == c);
                } else {
                    assert(acc == acc0.push((e, combined_score(m, recency[n - 1] as int, SCALE as int))));
                    if n > a + 1 && match_score(lower_of(c), lower_term) > 0 {
                        let kk = choose|k: int| 0 <= k < acc0.len() && acc0[k].0 == c;
                        assert(acc[kk].0 == c);
                    }
                }
            }
        } else {
            if n - 1 == a {
            }
        }
    }
}

/// `combined_score` of a full match beats that of a match worth at most half, when the
/// first is at least as recent and both are counted once.
proof fn lemma_full_beats_half(ma: int, ra: int, mb: int, rb: int)
    requires
        ma == SCALE,
        0 <= mb <= SCALE / 2,
        0 <= rb <= ra <= SCALE,
    ensures
        combined_score(mb, rb, SCALE as int) < combined_score(ma, ra, SCALE as int),
{
    let x = 6 * ra + 4 * (SCALE as int);
    let y = 6 * rb + 4 * (SCALE as int);
    assert(SCALE == 1000000);
    assert(mb * y <= 500000 * x) by (nonlinear_arith)
        requires
            0 <= mb <= 500000,
            0 <= y <= x,
    ;
    assert(ma * x == 1000000 * x);
    let sa = (ma * x) / 10000000;
    let sb = (mb * y) / 10000000;
    assert(sa * 10000000 > ma * x - 10000000);
    assert(sb * 10000000 <= mb * y);
    assert(x >= 4000000);
}

/// A command that starts with the query, ignoring case, has a full match score. When it
/// and a command that holds the query only further on each occur once in the history,
/// and the first is at least as recent, the first is listed above the second wherever
/// the second is listed.
pub proof fn lemma_prefix_ranks_first(
    term: Seq<char>,
    history: Seq<CommandEntry>,
    recency: Seq<u64>,
    limit: int,
    a: int,
    b: int,
)
    requires
        valid_recency(history, recency),
        0 <= a < history.len(),
        0 <= b < history.len(),
        a != b,
        limit >= 0,
        occurs_at(lower_of(history[a].command@), lower_of(term), 0),
        first_occurrence(lower_of(history[b].command@), lower_of(term)) is Some,
        first_occurrence(lower_of(history[b].command@), lower_of(term))->Some_0 > 0,
        forall|k: int| 0 <= k < history.len() && k != a ==> history[k].command@ != history[a].command@,
        forall|k: int| 0 <= k < history.len() && k != b ==> history[k].command@ != history[b].command@,
        recency[b] <= recency[a],
    ensures
        match_score(lower_of(history[a].command@), lower_of(term)) == SCALE,
        forall|j: int|
            0 <= j < search_ranking(term, history, recency, limit).len() && search_ranking(
                term,
                history,
                recency,
                limit,
            )[j] == history[b].command@ ==> exists|i: int|
                0 <= i < j && search_ranking(term, history, recency, limit)[i]
                    == history[a].command@,
{
    let lt = lower_of(term);
    let ca = history[a].command@;
    let cb = history[b].command@;
    let n = history.len() as int;
    crate::text::lemma_find_from(lower_of(ca), lt, 0);
    crate::text::lemma_find_from(lower_of(cb), lt, 0);
    assert(first_occurrence(lower_of(ca), lt) == Some(0int));
    let ma = match_score(lower_of(ca), lt);
    let mb = match_score(lower_of(cb), lt);
    let p = first_occurrence(lower_of(cb), lt)->Some_0;
    assert(mb <= SCALE / 2) by {
        assert(p * (SCALE as int) >= 0) by (nonlinear_arith)
            requires
                p > 0,
        ;
        assert(lower_of(cb).len() > 0);
        assert((p * (SCALE as int)) / (lower_of(cb).len() as int) >= 0) by (nonlinear_arith)
            requires
                p * (SCALE as int) >= 0,
                lower_of(cb).len() > 0,
        ;
    }
    let scores = search_scores(history, lowered(history), recency, lt, n);
    lemma_single_occurrence(history, recency, lt, a, n);
    lemma_single_occurrence(history, recency, lt, b, n);
    lemma_sort_desc(scores);
    let sorted = sort_desc(scores);
    let r = search_ranking(term, history, recency, limit);
    let cut = if limit < sorted.len() {
        limit
    } else {
        sorted.len() as int
    };
    assert forall|j: int| 0 <= j < r.len() && r[j] == cb implies exists|i: int|
        0 <= i < j && r[i] == ca by {
        assert(r.len() == cut);
        assert(r[j] == sorted.take(cut)[j].0);
        assert(sorted.take(cut)[j] == sorted[j]);
        assert(sorted[j].0 == cb);
        assert(sorted.contains(sorted[j]));
        assert(scores.contains(sorted[j]));
        let kb = choose|k: int| 0 <= k < scores.len() && scores[k] == sorted[j];
        assert(scores[kb].0 == cb);
        assert(mb > 0);
        let ka = choose|k: int| 0 <= k < scores.len() && scores[k].0 == ca;
        assert(scores.contains(scores[ka]));
        assert(sorted.contains(scores[ka]));
        let ia = choose|i: int| 0 <= i < sorted.len() && sorted[i] == scores[ka];
        lemma_full_beats_half(ma, recency[a] as int, mb, recency[b] as int);
        assert(sorted[ia].1 > sorted[j].1);
        assert(ca != cb);
        if ia > j {
            assert(sorted[j].1 >= sorted[ia].1);
        }
        assert(ia < j);
        assert(r[ia] == sorted.take(cut)[ia].0);
    }
}

/// A command with a positive match score, once scanned, stays among the scored commands.
proof fn lemma_scored_kept(
    history: Seq<CommandEntry>,
    recency: Seq<u64>,
    lower_term: Seq<char>,
    a: int,
    n: int,
)
    requires
        0 <= a < n <= history.len(),
        match_score(lower_of(history[a].command@), lower_term) > 0,
    ensures
        exists|k: int|
            0 <= k < search_scores(history, lowered(history), recency, lower_term, n).len() && search_scores(
                history,
                lowered(history),
                recency,
                lower_term,
                n,
            )[k].0 == history[a].command@,
    decreases n,
{
    let c = history[a].command@;
    let acc0 = search_scores(history, lowered(history), recency, lower_term, n - 1);
    let acc = search_scores(history, lowered(history), recency, lower_term, n);
    let e = history[n - 1].command@;
    let m = match_score(lower_of(e), lower_term);
    let ks = keys(acc0);
    lemma_key_index(ks, e, 0);
    let k0 = key_index(ks, e, 0);
    if n - 1 == a {
        if k0 >= 0 {
            assert(ks[k0] == acc0[k0].0);
            assert(acc[k0].0 == c);
        } else {
            assert(acc[acc0.len() as int].0 == c);
        }
    } else {
        lemma_scored_kept(history, recency, lower_term, a, n - 1);
        let kk = choose|k: int| 0 <= k < acc0.len() && acc0[k].0 == c;
        if m > 0 {
            if k0 >= 0 {
                assert(ks[k0] == acc0[k0].0);
                assert(acc[kk].0 == c);
            } else {
                assert(acc[kk].0 == c);
            }
        } else {
            assert(acc[kk].0 == c);
        }
    }
}

/// A command that starts with the query, ignoring case, has a full match score, and
/// is listed whenever the ranking returns fewer than `limit` commands.
pub proof fn lemma_prefix_listed(
    term: Seq<char>,
    history: Seq<CommandEntry>,
    recency: Seq<u64>,
    limit: int,
    a: int,
)
    requires
        0 <= a < history.len(),
        limit >= 0,
        occurs_at(lower_of(history[a].command@), lower_of(term), 0),
    ensures
        match_score(lower_of(history[a].command@), lower_of(term)) == SCALE,
        search_ranking(term, history, recency, limit).len() < limit ==> search_ranking(
            term,
            history,
            recency,
            limit,
        ).contains(history[a].command@),
{
    let lt = lower_of(term);
    let ca = history[a].command@;
    crate::text::lemma_find_from(lower_of(ca), lt, 0);
    assert(first_occurrence(lower_of(ca), lt) == Some(0int));
    let scores = search_scores(history, lowered(history), recency, lt, history.len() as int);
    lemma_scored_kept(history, recency, lt, a, history.len() as int);
    lemma_sort_desc(scores);
    let sorted = sort_desc(scores);
    let r = search_ranking(term, history, recency, limit);
    if r.len() < limit {
        let k = choose|k: int| 0 <= k < scores.len() && scores[k].0 == ca;
        assert(scores.contains(scores[k]));
        assert(sorted.contains(scores[k]));
        let i = choose|i: int| 0 <= i < sorted.len() && sorted[i] == scores[k];
        assert(sorted.take(sorted.len() as int) =~= sorted);
        assert(r[i] == ca);
    }
}

/// Wherever a key is listed, a key whose score beats every score of the first is
/// listed before it.
proof fn lemma_ranked_before(
    scores: Seq<(Seq<char>, int)>,
    limit: int,
    x: (Seq<char>, int),
    y: Seq<char>,
)
    requires
        limit >= 0,
        scores.contains(x),
        x.0 != y,
        forall|k: int| 0 <= k < scores.len() && scores[k].0 == y ==> scores[k].1 < x.1,
    ensures
        forall|j: int|
            0 <= j < ranked(scores, limit).len() && ranked(scores, limit)[j] == y ==> exists|i: int|
                0 <= i < j && ranked(scores, limit)[i] == x.0,
{
    lemma_sort_desc(scores);
    let sorted = sort_desc(scores);
    let r = ranked(scores, limit);
    let cut = if limit < sorted.len() {
        limit
    } else {
        sorted.len() as int
    };
    assert forall|j: int| 0 <= j < r.len() && r[j] == y implies exists|i: int|
        0 <= i < j && r[i] == x.0 by {
        assert(r.len() == cut);
        assert(r[j] == sorted.take(cut)[j].0);
        assert(sorted.take(cut)[j] == sorted[j]);
        assert(sorted.contains(sorted[j]));
        assert(scores.contains(sorted[j]));
        let kb = choose|k: int| 0 <= k < scores.len() && scores[k] == sorted[j];
        assert(sorted.contains(x));
        let ia = choose|i: int| 0 <= i < sorted.len() && sorted[i] == x;
        if ia > j {
            assert(sorted[j].1 >= sorted[ia].1);
        }
        assert(ia != j);
        assert(r[ia] == sorted.take(cut)[ia].0);
    }
}

/// In the ranking by frequency, a command whose `0.6 × recency + 0.4 × count` beats
/// another's is listed before it wherever the other is listed: a command seen more often
/// outranks a more recent one whenever the weighted sum favors it.
pub proof fn lemma_frequency_order(
    history: Seq<CommandEntry>,
    recency: Seq<u64>,
    limit: int,
    a: int,
    b: int,
)
    requires
        0 <= a < history.len(),
        0 <= b < history.len(),
        limit >= 0,
        history[a].command@ != history[b].command@,
        frequency_score(usage(history, recency, history[a].command@, history.len() as int))
            > frequency_score(usage(history, recency, history[b].command@, history.len() as int)),
    ensures
        ({
            let r = frequency_ranking(history, recency, limit);
            forall|j: int|
                0 <= j < r.len() && r[j] == history[b].command@ ==> exists|i: int|
                    0 <= i < j && r[i] == history[a].command@
        }),
{
    let n = history.len() as int;
    let ca = history[a].command@;
    let cb = history[b].command@;
    let scores = frequency_scores(history, recency);
    let d = distinct_commands(history, n);
    lemma_listed_distinct(history, a, n);
    let k = choose|k: int| 0 <= k < d.len() && d[k] == ca;
    assert(scores[k] == (ca, frequency_score(usage(history, recency, ca, n))));
    assert(scores.contains(scores[k]));
    lemma_ranked_before(scores, limit, scores[k], cb);
}

/// Every command of the first `n` entries is among the distinct commands.
proof fn lemma_listed_distinct(history: Seq<CommandEntry>, a: int, n: int)
    requires
        0 <= a < n <= history.len(),
    ensures
        distinct_commands(history, n).contains(history[a].command@),
    decreases n,
{
    let d = distinct_commands(history, n - 1);
    let e = history[n - 1].command@;
    if n - 1 == a {
        if !d.contains(e) {
            assert(distinct_commands(history, n)[d.len() as int] == e);
        }
    } else {
        lemma_listed_distinct(history, a, n - 1);
        let k = choose|k: int| 0 <= k < d.len() && d[k] == history[a].command@;
        if !d.contains(e) {
            assert(distinct_commands(history, n)[k] == history[a].command@);
        }
    }
}

} // verus!
