//! Read-side computations over rows fetched from the rollup cache.
use vstd::prelude::*;
use chrono::TimeZone;
use crate::parts::{ErrorStat, ReliabilityReport, SkillStat};
use crate::text::{seq_less, str_less, lemma_seq_less_irreflexive, lemma_seq_less_transitive};
use crate::text::strip_prefix;

verus! {

pub open spec fn is_ascii_digit(c: char) -> bool {
    '0' <= c && c <= '9'
}

/// The shape of a `%Y-%m-%d` day: a year of four digits, or of a sign and at
/// least four digits outside years 0 to 9999, then a dash, two month digits,
/// a dash and two day digits.
pub open spec fn is_day_string(d: Seq<char>) -> bool {
    let n = d.len() as int;
    &&& n >= 10
    &&& d[n - 3] == '-'
    &&& d[n - 6] == '-'
    &&& is_ascii_digit(d[n - 1]) && is_ascii_digit(d[n - 2])
    &&& is_ascii_digit(d[n - 4]) && is_ascii_digit(d[n - 5])
    &&& forall|i: int| 1 <= i < n - 6 ==> is_ascii_digit(#[trigger] d[i])
    &&& (is_ascii_digit(d[0]) || d[0] == '+' || d[0] == '-')
    &&& (is_ascii_digit(d[0]) <==> n == 10)
}

/// The local calendar day (`%Y-%m-%d`) of an epoch-millisecond instant, in
/// the machine's time zone; the current day when the instant cannot be
/// represented there. The contract states the shape chrono's formatting
/// gives every day; which day it is depends on the time zone and is left
/// unsaid.
#[verifier::external_body]
fn local_day(ms: i64) -> (day: String)
    ensures
        is_day_string(day@),
{
    chrono::Local.timestamp_millis_opt(ms).single().unwrap_or_else(chrono::Local::now).format(
        "%Y-%m-%d",
    ).to_string()
}

/// `day` is what `local_day` can give for the instant `ms`.
pub closed spec fn local_day_of(ms: i64, day: String) -> bool {
    call_ensures(local_day, (ms,), day)
}

/// Inclusive day bounds of a time range: the local day of each given end, and
/// for an open end the earliest or latest day the cache can hold.
pub fn day_bounds(from: Option<i64>, to: Option<i64>) -> (r: (String, String))
    ensures
        from is None ==> r.0@ == "0000-01-01"@,
        to is None ==> r.1@ == "9999-12-31"@,
        from matches Some(ms) ==> local_day_of(ms, r.0) && is_day_string(r.0@),
        to matches Some(ms) ==> local_day_of(ms, r.1) && is_day_string(r.1@),
{
    let lo = match from {
        Some(ms) => local_day(ms),
        None => "0000-01-01".to_owned(),
    };
    let hi = match to {
        Some(ms) => local_day(ms),
        None => "9999-12-31".to_owned(),
    };
    (lo, hi)
}

pub const HOUR_MS: i64 = 3_600_000;

pub const WEEK_MS: i64 = 604_800_000;

/// A rolling usage window: it opens at the exact time of the first message
/// after the previous window closed and lasts a fixed length. `first` is the
/// index of that first message among the samples, and the window holds the
/// `messages` consecutive samples from there.
#[derive(Debug, Clone, Copy)]
pub struct UsageWindow {
    pub start: i64,
    pub end: i64,
    pub active: bool,
    pub tokens: i64,
    pub messages: i64,
    pub first: usize,
}

/// Sum of the token counts of samples `lo..hi`.
pub open spec fn token_sum(s: Seq<(i64, i64)>, lo: int, hi: int) -> int
    decreases hi - lo,
{
    if hi <= lo {
        0
    } else {
        token_sum(s, lo, hi - 1) + s[hi - 1].1
    }
}

/// `ws` is the folding of the first `n` samples into windows of `window_ms`:
/// consecutive, non-empty runs of samples; each window opens at its first
/// sample, which is at or after the end of the previous window, and every
/// later sample of the run falls before the window's end.
pub open spec fn folds_into(s: Seq<(i64, i64)>, n: int, window_ms: int, ws: Seq<UsageWindow>) -> bool {
    &&& (ws.len() == 0 <==> n == 0)
    &&& ws.len() > 0 ==> ws[0].first == 0
    &&& ws.len() > 0 ==> ws.last().first + ws.last().messages == n
    &&& forall|k: int|
        0 <= k < ws.len() ==> {
            let w = #[trigger] ws[k];
            &&& w.messages >= 1
            &&& w.first + w.messages <= n
            &&& w.start == s[w.first as int].0
            &&& w.end == w.start + window_ms
            &&& w.tokens == token_sum(s, w.first as int, w.first + w.messages)
            &&& !w.active
            &&& forall|i: int| w.first < i < w.first + w.messages ==> s[i].0 < w.end
        }
    &&& forall|k: int|
        0 <= k < ws.len() - 1 ==> {
            &&& (#[trigger] ws[k + 1]).first == ws[k].first + ws[k].messages
            &&& s[ws[k + 1].first as int].0 >= ws[k].end
        }
}

proof fn lemma_token_sum_split(s: Seq<(i64, i64)>, a: int, b: int, c: int)
    requires
        a <= b <= c,
    ensures
        token_sum(s, a, c) == token_sum(s, a, b) + token_sum(s, b, c),
    decreases c - b,
{
    if b < c {
        lemma_token_sum_split(s, a, b, c - 1);
    }
}

/// The arithmetic of folding sample `i` into the windows `ws` of the
/// samples before it stays in range: opening a window computes its end,
/// joining one adds to its token count.
pub open spec fn step_fits(s: Seq<(i64, i64)>, i: int, window_ms: int, ws: Seq<UsageWindow>) -> bool {
    if ws.len() == 0 || s[i].0 >= ws.last().end {
        i64::MIN <= s[i].0 + window_ms <= i64::MAX
    } else {
        i64::MIN <= ws.last().tokens + s[i].1 <= i64::MAX
    }
}

/// Folding the first `n` samples never leaves the range of `i64`.
pub open spec fn fold_fits(s: Seq<(i64, i64)>, n: int, window_ms: int) -> bool {
    forall|i: int, ws: Seq<UsageWindow>|
        0 <= i < n && #[trigger] folds_into(s, i, window_ms, ws) ==> step_fits(s, i, window_ms, ws)
}

/// Groups usage samples (timestamp, tokens), in the order given, into rolling
/// windows of `window_ms`.
pub fn fold_windows(samples: &Vec<(i64, i64)>, window_ms: i64) -> (ws: Vec<UsageWindow>)
    requires
        samples.len() < i64::MAX,
        fold_fits(samples@, samples.len() as int, window_ms as int),
    ensures
        folds_into(samples@, samples.len() as int, window_ms as int, ws@),
        ws@ == windows_of(samples@, samples.len() as int, window_ms as int),
{
    let mut ws: Vec<UsageWindow> = Vec::new();
    let n: usize = samples.len();
    for i in 0..n
        invariant
            n == samples.len(),
            n < i64::MAX,
            fold_fits(samples@, samples.len() as int, window_ms as int),
            folds_into(samples@, i as int, window_ms as int, ws@),
    {
        proof {
            assert(step_fits(samples@, i as int, window_ms as int, ws@));
        }
        let (ts, tokens) = samples[i];
        let needs_new = if ws.len() == 0 {
            true
        } else {
            ts >= ws[ws.len() - 1].end
        };
        let ghost prev = ws@;
        if needs_new {
            ws.push(
                UsageWindow {
                    start: ts,
                    end: ts + window_ms,
                    active: false,
                    tokens: tokens,
                    messages: 1,
                    first: i,
                },
            );
            proof {
                assert(token_sum(samples@, i as int, i as int) == 0);
                assert(token_sum(samples@, i as int, i + 1) == tokens);
                let w = ws@;
                assert forall|k: int| 0 <= k < w.len() implies {
                    let x = #[trigger] w[k];
                    &&& x.messages >= 1
                    &&& x.first + x.messages <= i + 1
                    &&& x.start == samples@[x.first as int].0
                    &&& x.end == x.start + window_ms
                    &&& x.tokens == token_sum(samples@, x.first as int, x.first + x.messages)
                    &&& !x.active
                    &&& forall|j: int| x.first < j < x.first + x.messages ==> samples@[j].0 < x.end
                } by {
                    if k < prev.len() {
                        assert(w[k] == prev[k]);
                    }
                }
                assert forall|k: int| 0 <= k < w.len() - 1 implies {
                    &&& (#[trigger] w[k + 1]).first == w[k].first + w[k].messages
                    &&& samples@[w[k + 1].first as int].0 >= w[k].end
                } by {
                    if k + 1 < prev.len() {
                        assert(w[k + 1] == prev[k + 1]);
                        assert(w[k] == prev[k]);
                    } else {
                        assert(w[k] == prev[k]);
                    }
                }
            }
        } else {
            let last = ws.len() - 1;
            let cur = ws[last];
            proof {
                lemma_token_sum_split(samples@, cur.first as int, i as int, i + 1);
                assert(token_sum(samples@, i as int, i as int) == 0);
            }
            ws.set(
                last,
                UsageWindow {
                    start: cur.start,
                    end: cur.end,
                    active: cur.active,
                    tokens: cur.tokens + tokens,
                    messages: cur.messages + 1,
                    first: cur.first,
                },
            );
            proof {
                let w = ws@;
                assert forall|k: int| 0 <= k < w.len() implies {
                    let x = #[trigger] w[k];
                    &&& x.messages >= 1
                    &&& x.first + x.messages <= i + 1
                    &&& x.start == samples@[x.first as int].0
                    &&& x.end == x.start + window_ms
                    &&& x.tokens == token_sum(samples@, x.first as int, x.first + x.messages)
                    &&& !x.active
                    &&& forall|j: int| x.first < j < x.first + x.messages ==> samples@[j].0 < x.end
                } by {
                    if k < prev.len() - 1 {
                        assert(w[k] == prev[k]);
                    }
                }
                assert forall|k: int| 0 <= k < w.len() - 1 implies {
                    &&& (#[trigger] w[k + 1]).first == w[k].first + w[k].messages
                    &&& samples@[w[k + 1].first as int].0 >= w[k].end
                } by {
                    assert(w[k] == prev[k]);
                    if k + 1 < prev.len() - 1 {
                        assert(w[k + 1] == prev[k + 1]);
                    } else {
                        assert(prev[k + 1] == prev.last());
                    }
                }
            }
        }
    }
    proof {
        law_fold_is_unique(
            samples@,
            n as int,
            window_ms as int,
            ws@,
            windows_of(samples@, n as int, window_ms as int),
        );
    }
    ws
}

/// The windows that a sample sequence folds into.
pub open spec fn windows_of(s: Seq<(i64, i64)>, n: int, window_ms: int) -> Seq<UsageWindow> {
    choose|ws: Seq<UsageWindow>| folds_into(s, n, window_ms, ws)
}

/// Samples listed in time order.
pub open spec fn sorted_by_time(s: Seq<(i64, i64)>, n: int) -> bool {
    forall|i: int, j: int| 0 <= i < j < n ==> s[i].0 <= s[j].0
}

proof fn lemma_windows_chain(s: Seq<(i64, i64)>, n: int, window_ms: int, ws: Seq<UsageWindow>, a: int, b: int)
    requires
        folds_into(s, n, window_ms, ws),
        window_ms > 0,
        0 <= a < b < ws.len(),
    ensures
        ws[a].end <= ws[b].start,
    decreases b - a,
{
    let wb = ws[b - 1];
    let wb1 = ws[b];
    assert(wb1 == ws[(b - 1) + 1]);
    if a < b - 1 {
        lemma_windows_chain(s, n, window_ms, ws, a, b - 1);
        let w = ws[b - 1];
        assert(w.end == w.start + window_ms);
    }
}

/// Over samples in time order, each window holds exactly the samples from its
/// opening instant up to (excluding) its end, and windows never overlap: a
/// message landing exactly on a window's end opens the next one.
pub proof fn law_windows_partition_time(s: Seq<(i64, i64)>, n: int, window_ms: int, ws: Seq<UsageWindow>)
    requires
        folds_into(s, n, window_ms, ws),
        sorted_by_time(s, n),
        window_ms > 0,
    ensures
        forall|k: int, i: int|
            #![trigger ws[k], s[i]]
            0 <= k < ws.len() && ws[k].first <= i < ws[k].first + ws[k].messages ==> ws[k].start
                <= s[i].0 < ws[k].end,
        forall|a: int, b: int| 0 <= a < b < ws.len() ==> (#[trigger] ws[a]).end <= (#[trigger] ws[b]).start,
{
    assert forall|k: int, i: int|
        #![trigger ws[k], s[i]]
        0 <= k < ws.len() && ws[k].first <= i < ws[k].first + ws[k].messages implies ws[k].start
            <= s[i].0 < ws[k].end by {
        let w = ws[k];
        if i > w.first {
            assert(s[w.first as int].0 <= s[i].0);
        }
    }
    assert forall|a: int, b: int| 0 <= a < b < ws.len() implies (#[trigger] ws[a]).end <= (
    #[trigger] ws[b]).start by {
        lemma_windows_chain(s, n, window_ms, ws, a, b);
    }
}

/// Sample `i` is one of the run of samples that window `w` holds.
pub open spec fn in_run(w: UsageWindow, i: int) -> bool {
    w.first <= i < w.first + w.messages
}

/// Some window among the first `m` holds sample `i`.
pub open spec fn covered(ws: Seq<UsageWindow>, m: int, i: int) -> bool {
    exists|k: int| 0 <= k < m && in_run(#[trigger] ws[k], i)
}

/// Messages counted by the first `m` windows.
pub open spec fn messages_total(ws: Seq<UsageWindow>, m: int) -> int
    decreases m,
{
    if m <= 0 {
        0
    } else {
        messages_total(ws, m - 1) + ws[m - 1].messages
    }
}

/// Tokens counted by the first `m` windows.
pub open spec fn tokens_total(ws: Seq<UsageWindow>, m: int) -> int
    decreases m,
{
    if m <= 0 {
        0
    } else {
        tokens_total(ws, m - 1) + ws[m - 1].tokens
    }
}

proof fn lemma_runs_chain(s: Seq<(i64, i64)>, n: int, window_ms: int, ws: Seq<UsageWindow>, a: int, b: int)
    requires
        folds_into(s, n, window_ms, ws),
        0 <= a < b < ws.len(),
    ensures
        ws[a].first + ws[a].messages <= ws[b].first,
    decreases b - a,
{
    assert(ws[(b - 1) + 1].first == ws[b - 1].first + ws[b - 1].messages);
    if a < b - 1 {
        lemma_runs_chain(s, n, window_ms, ws, a, b - 1);
        assert(ws[b - 1].messages >= 1);
    }
}

proof fn lemma_totals_upto(s: Seq<(i64, i64)>, n: int, window_ms: int, ws: Seq<UsageWindow>, m: int)
    requires
        folds_into(s, n, window_ms, ws),
        0 < m <= ws.len(),
    ensures
        messages_total(ws, m) == ws[m - 1].first + ws[m - 1].messages,
        tokens_total(ws, m) == token_sum(s, 0, ws[m - 1].first + ws[m - 1].messages),
        forall|i: int| 0 <= i < ws[m - 1].first + ws[m - 1].messages ==> #[trigger] covered(ws, m, i),
    decreases m,
{
    let w = ws[m - 1];
    assert(w.tokens == token_sum(s, w.first as int, w.first + w.messages));
    assert(messages_total(ws, m) == messages_total(ws, m - 1) + w.messages);
    assert(tokens_total(ws, m) == tokens_total(ws, m - 1) + w.tokens);
    if m == 1 {
        assert(messages_total(ws, 0) == 0);
        assert(tokens_total(ws, 0) == 0);
        assert(ws[0].first == 0);
        assert forall|i: int| 0 <= i < w.first + w.messages implies #[trigger] covered(ws, m, i) by {
            assert(in_run(ws[0], i));
        }
    } else {
        lemma_totals_upto(s, n, window_ms, ws, m - 1);
        let p = ws[m - 2];
        assert(ws[(m - 2) + 1].first == p.first + p.messages);
        lemma_token_sum_split(s, 0, w.first as int, w.first + w.messages);
        assert forall|i: int| 0 <= i < w.first + w.messages implies #[trigger] covered(ws, m, i) by {
            if i >= w.first {
                assert(in_run(ws[m - 1], i));
            } else {
                assert(covered(ws, m - 1, i));
                let k = choose|k: int| 0 <= k < m - 1 && in_run(#[trigger] ws[k], i);
                assert(in_run(ws[k], i));
            }
        }
    }
}

/// The windows account for every sample exactly once: each of the first `n`
/// samples lies in exactly one window's run, and the windows' message and
/// token totals are those of the samples.
pub proof fn law_windows_cover_samples(s: Seq<(i64, i64)>, n: int, window_ms: int, ws: Seq<UsageWindow>)
    requires
        folds_into(s, n, window_ms, ws),
    ensures
        messages_total(ws, ws.len() as int) == n,
        tokens_total(ws, ws.len() as int) == token_sum(s, 0, n),
        forall|i: int| 0 <= i < n ==> #[trigger] covered(ws, ws.len() as int, i),
        forall|i: int, a: int, b: int|
            0 <= a < ws.len() && 0 <= b < ws.len() && #[trigger] in_run(ws[a], i) && #[trigger] in_run(
                ws[b],
                i,
            ) ==> a == b,
{
    if ws.len() > 0 {
        lemma_totals_upto(s, n, window_ms, ws, ws.len() as int);
    }
    assert forall|i: int, a: int, b: int|
        0 <= a < ws.len() && 0 <= b < ws.len() && #[trigger] in_run(ws[a], i) && #[trigger] in_run(
            ws[b],
            i,
        ) implies a == b by {
        if a < b {
            lemma_runs_chain(s, n, window_ms, ws, a, b);
        } else if b < a {
            lemma_runs_chain(s, n, window_ms, ws, b, a);
        }
    }
}

/// Over samples in time order, at most one window contains any instant.
pub proof fn law_at_most_one_window_contains(
    s: Seq<(i64, i64)>,
    n: int,
    window_ms: int,
    ws: Seq<UsageWindow>,
    now: int,
)
    requires
        folds_into(s, n, window_ms, ws),
        sorted_by_time(s, n),
        window_ms > 0,
    ensures
        forall|a: int, b: int|
            0 <= a < ws.len() && 0 <= b < ws.len() && (#[trigger] ws[a]).start <= now < ws[a].end
                && (#[trigger] ws[b]).start <= now < ws[b].end ==> a == b,
{
    law_windows_partition_time(s, n, window_ms, ws);
}

/// The folding of a sample sequence into windows is unique.
pub proof fn law_fold_is_unique(
    s: Seq<(i64, i64)>,
    n: int,
    window_ms: int,
    ws1: Seq<UsageWindow>,
    ws2: Seq<UsageWindow>,
)
    requires
        folds_into(s, n, window_ms, ws1),
        folds_into(s, n, window_ms, ws2),
    ensures
        ws1 == ws2,
{
    let m = if ws1.len() < ws2.len() {
        ws1.len()
    } else {
        ws2.len()
    };
    assert forall|k: int| 0 <= k < m implies ws1[k] == ws2[k] by {
        lemma_fold_prefix_equal(s, n, window_ms, ws1, ws2, k);
    }
    if ws1.len() < ws2.len() {
        let k = ws1.len() - 1;
        lemma_fold_prefix_equal(s, n, window_ms, ws1, ws2, k);
        assert(ws2[k + 1].first == ws2[k].first + ws2[k].messages);
        assert(ws2[k + 1].messages >= 1);
    } else if ws2.len() < ws1.len() {
        let k = ws2.len() - 1;
        lemma_fold_prefix_equal(s, n, window_ms, ws1, ws2, k);
        assert(ws1[k + 1].first == ws1[k].first + ws1[k].messages);
        assert(ws1[k + 1].messages >= 1);
    }
    assert(ws1 =~= ws2);
}

proof fn lemma_fold_prefix_equal(
    s: Seq<(i64, i64)>,
    n: int,
    window_ms: int,
    ws1: Seq<UsageWindow>,
    ws2: Seq<UsageWindow>,
    k: int,
)
    requires
        folds_into(s, n, window_ms, ws1),
        folds_into(s, n, window_ms, ws2),
        0 <= k < ws1.len(),
        k < ws2.len(),
    ensures
        ws1[k] == ws2[k],
    decreases k,
{
    if k > 0 {
        lemma_fold_prefix_equal(s, n, window_ms, ws1, ws2, k - 1);
        assert(ws1[(k - 1) + 1].first == ws1[k - 1].first + ws1[k - 1].messages);
        assert(ws2[(k - 1) + 1].first == ws2[k - 1].first + ws2[k - 1].messages);
    }
    let w1 = ws1[k];
    let w2 = ws2[k];
    assert(w1.first == w2.first);
    if w1.messages < w2.messages {
        let i = w1.first + w1.messages;
        assert(s[i].0 < w2.end);
        if k == ws1.len() - 1 {
            assert(i == n);
        } else {
            assert(ws1[k + 1].first == i);
        }
    } else if w2.messages < w1.messages {
        let i = w2.first + w2.messages;
        assert(s[i].0 < w1.end);
        if k == ws2.len() - 1 {
            assert(i == n);
        } else {
            assert(ws2[k + 1].first == i);
        }
    }
}

/// How many of the newest windows a report keeps.
pub const MAX_WINDOWS: usize = 48;

/// The window length in hours, kept between one hour and one week.
pub open spec fn clamp_hours(h: i64) -> i64 {
    if h < 1 {
        1
    } else if h > 168 {
        168
    } else {
        h
    }
}

pub fn quota_window_ms(window_hours: i64) -> (ms: i64)
    ensures
        ms == clamp_hours(window_hours) * HOUR_MS,
{
    let h: i64 = if window_hours < 1 {
        1
    } else if window_hours > 168 {
        168
    } else {
        window_hours
    };
    h * HOUR_MS
}

/// A window with its `active` flag set to whether it contains `now`.
pub open spec fn mark_active(w: UsageWindow, now: i64) -> UsageWindow {
    UsageWindow {
        start: w.start,
        end: w.end,
        active: now >= w.start && now < w.end,
        tokens: w.tokens,
        messages: w.messages,
        first: w.first,
    }
}

/// The first active window, oldest first.
pub open spec fn first_active(ws: Seq<UsageWindow>) -> Option<UsageWindow>
    decreases ws.len(),
{
    if ws.len() == 0 {
        None
    } else if ws[0].active {
        Some(ws[0])
    } else {
        first_active(ws.drop_first())
    }
}

/// The largest token count among windows that are not active.
pub open spec fn inactive_max(ws: Seq<UsageWindow>) -> Option<i64>
    decreases ws.len(),
{
    if ws.len() == 0 {
        None
    } else {
        let p = inactive_max(ws.drop_last());
        let w = ws.last();
        if w.active {
            p
        } else {
            match p {
                None => Some(w.tokens),
                Some(m) => Some(if m >= w.tokens { m } else { w.tokens }),
            }
        }
    }
}

/// The reference the quota gauge is drawn against is the largest completed
/// window: nothing when every window is still open, and otherwise the token
/// count of a window that does not contain now, at least that of every other
/// such window.
pub proof fn law_reference_is_largest_completed(ws: Seq<UsageWindow>)
    ensures
        (forall|k: int| 0 <= k < ws.len() ==> (#[trigger] ws[k]).active) <==> inactive_max(ws) is None,
        inactive_max(ws) matches Some(m) ==> (exists|k: int|
            0 <= k < ws.len() && !(#[trigger] ws[k]).active && ws[k].tokens == m),
        inactive_max(ws) matches Some(m) ==> (forall|k: int|
            0 <= k < ws.len() && !(#[trigger] ws[k]).active ==> ws[k].tokens <= m),
    decreases ws.len(),
{
    if ws.len() > 0 {
        let p = ws.drop_last();
        law_reference_is_largest_completed(p);
        let w = ws.last();
        assert forall|k: int| 0 <= k < p.len() implies #[trigger] p[k] == ws[k] by {}
        if !w.active {
            assert(!ws[ws.len() - 1].active);
        }
        if inactive_max(p) is Some {
            let m = inactive_max(p)->0;
            let k = choose|k: int| 0 <= k < p.len() && !(#[trigger] p[k]).active && p[k].tokens == m;
            assert(ws[k] == p[k]);
        }
        if forall|k: int| 0 <= k < ws.len() ==> (#[trigger] ws[k]).active {
            assert forall|k: int| 0 <= k < p.len() implies (#[trigger] p[k]).active by {
                assert(ws[k].active);
            }
            assert(ws[ws.len() - 1].active);
        }
        if inactive_max(ws) is None {
            assert forall|k: int| 0 <= k < ws.len() implies (#[trigger] ws[k]).active by {
                if k < p.len() {
                    assert(p[k].active);
                }
            }
        }
        assert forall|k: int| 0 <= k < ws.len() && !(#[trigger] ws[k]).active implies ws[k].tokens
            <= inactive_max(ws)->0 by {
            if k < p.len() {
                assert(!p[k].active);
            }
        }
    }
}

/// Total tokens of the first `n` samples taken at or after `cutoff`.
pub open spec fn tokens_since(s: Seq<(i64, i64)>, n: int, cutoff: int) -> int
    decreases n,
{
    if n <= 0 {
        0
    } else {
        tokens_since(s, n - 1, cutoff) + if s[n - 1].0 >= cutoff {
            s[n - 1].1 as int
        } else {
            0
        }
    }
}

/// Newest window first, at most `MAX_WINDOWS` of them.
pub open spec fn newest_first(ws: Seq<UsageWindow>) -> Seq<UsageWindow> {
    ws.reverse().take(if ws.len() < 48 { ws.len() as int } else { 48 })
}

/// The integer part of a quota report; rates and costs are derived from it.
pub struct QuotaSummary {
    pub window_hours: i64,
    /// Newest first, at most `MAX_WINDOWS`, each flagged when it contains now.
    pub windows: Vec<UsageWindow>,
    pub active: Option<UsageWindow>,
    /// Largest completed window on record, the reference the gauge is drawn
    /// against.
    pub reference_tokens: i64,
    pub week_tokens: i64,
}

proof fn lemma_first_active_take(ws: Seq<UsageWindow>, i: int)
    requires
        0 <= i < ws.len(),
        forall|j: int| 0 <= j < i ==> !(#[trigger] ws[j]).active,
    ensures
        ws[i].active ==> first_active(ws) == Some(ws[i]),
        first_active(ws) == first_active(ws.subrange(i, ws.len() as int)),
    decreases i,
{
    if i > 0 {
        let t = ws.drop_first();
        assert forall|j: int| 0 <= j < i - 1 implies !(#[trigger] t[j]).active by {
            assert(t[j] == ws[j + 1]);
        }
        lemma_first_active_take(t, i - 1);
        assert(t.subrange(i - 1, t.len() as int) =~= ws.subrange(i, ws.len() as int));
        assert(!ws[0].active);
    } else {
        assert(ws.subrange(0, ws.len() as int) =~= ws);
    }
}

proof fn lemma_first_active_none(ws: Seq<UsageWindow>)
    requires
        forall|j: int| 0 <= j < ws.len() ==> !(#[trigger] ws[j]).active,
    ensures
        first_active(ws) == None::<UsageWindow>,
    decreases ws.len(),
{
    if ws.len() > 0 {
        let t = ws.drop_first();
        assert forall|j: int| 0 <= j < t.len() implies !(#[trigger] t[j]).active by {
            assert(t[j] == ws[j + 1]);
        }
        lemma_first_active_none(t);
    }
}

/// Folds the samples (timestamp, tokens) into windows of `window_hours`
/// (clamped to one hour .. one week) and summarises them at instant `now`.
pub fn quota_summary(samples: &Vec<(i64, i64)>, now: i64, window_hours: i64) -> (r: QuotaSummary)
    requires
        samples.len() < i64::MAX,
        now >= i64::MIN + WEEK_MS,
        fold_fits(samples@, samples.len() as int, clamp_hours(window_hours) * HOUR_MS),
        forall|i: int|
            0 <= i <= samples.len() ==> i64::MIN <= #[trigger] tokens_since(
                samples@,
                i,
                now - WEEK_MS,
            ) <= i64::MAX,
    ensures
        r.window_hours == clamp_hours(window_hours),
        ({
            let marked = windows_of(
                samples@,
                samples.len() as int,
                clamp_hours(window_hours) * HOUR_MS,
            ).map_values(|w: UsageWindow| mark_active(w, now));
            &&& r.windows@ == newest_first(marked)
            &&& r.active == first_active(marked)
            &&& r.reference_tokens == (match inactive_max(marked) {
                Some(m) => m,
                None => 0,
            })
            &&& (forall|k: int| 0 <= k < marked.len() ==> (#[trigger] marked[k]).active)
                ==> r.reference_tokens == 0
            &&& (exists|k: int| 0 <= k < marked.len() && !(#[trigger] marked[k]).active) ==> {
                &&& exists|k: int|
                    0 <= k < marked.len() && !(#[trigger] marked[k]).active && marked[k].tokens
                        == r.reference_tokens
                &&& forall|k: int|
                    0 <= k < marked.len() && !(#[trigger] marked[k]).active ==> marked[k].tokens
                        <= r.reference_tokens
            }
        }),
        r.week_tokens == tokens_since(samples@, samples.len() as int, now - WEEK_MS),
{
    let window_ms = quota_window_ms(window_hours);
    let folded = fold_windows(samples, window_ms);
    let ghost fw = folded@;
    let ghost marked = fw.map_values(|w: UsageWindow| mark_active(w, now));
    let n: usize = folded.len();
    let mut ws: Vec<UsageWindow> = Vec::new();
    let mut active: Option<UsageWindow> = None;
    let mut reference: Option<i64> = None;
    for k in 0..n
        invariant
            n == folded.len(),
            fw == folded@,
            marked == fw.map_values(|w: UsageWindow| mark_active(w, now)),
            ws@ == marked.take(k as int),
            active is Some ==> first_active(marked) == active,
            active is None ==> forall|j: int| 0 <= j < k ==> !(#[trigger] marked[j]).active,
            reference == inactive_max(marked.take(k as int)),
    {
        let w = folded[k];
        let is_active = now >= w.start && now < w.end;
        let m = UsageWindow {
            start: w.start,
            end: w.end,
            active: is_active,
            tokens: w.tokens,
            messages: w.messages,
            first: w.first,
        };
        proof {
            assert(marked[k as int] == m);
            assert(marked.take(k as int + 1).drop_last() =~= marked.take(k as int));
            assert(marked.take(k as int + 1).last() == m);
            if active is None {
                lemma_first_active_take(marked, k as int);
            }
        }
        if is_active && active.is_none() {
            active = Some(m);
        }
        if !is_active {
            reference = match reference {
                None => Some(w.tokens),
                Some(r) => Some(if r >= w.tokens { r } else { w.tokens }),
            };
        }
        ws.push(m);
        proof {
            assert(ws@ =~= marked.take(k as int + 1));
        }
    }
    proof {
        assert(marked.take(n as int) =~= marked);
        if active is None {
            lemma_first_active_none(marked);
        }
        law_reference_is_largest_completed(marked);
    }
    let mut week: i64 = 0;
    let cutoff = now - WEEK_MS;
    let total: usize = samples.len();
    for i in 0..total
        invariant
            total == samples.len(),
            cutoff == now - WEEK_MS,
            week == tokens_since(samples@, i as int, cutoff as int),
            forall|j: int|
                0 <= j <= samples.len() ==> i64::MIN <= #[trigger] tokens_since(
                    samples@,
                    j,
                    cutoff as int,
                ) <= i64::MAX,
    {
        proof {
            assert(i64::MIN <= tokens_since(samples@, i + 1, cutoff as int) <= i64::MAX);
        }
        if samples[i].0 >= cutoff {
            week = week + samples[i].1;
        }
    }
    let keep: usize = if n < MAX_WINDOWS {
        n
    } else {
        MAX_WINDOWS
    };
    let mut newest: Vec<UsageWindow> = Vec::new();
    for j in 0..keep
        invariant
            keep <= n,
            n == ws.len(),
            keep == (if n < 48 { n } else { 48 }),
            ws@ == marked,
            newest@ == marked.reverse().take(j as int),
    {
        proof {
            assert(marked.reverse()[j as int] == marked[n - 1 - j]);
            assert(marked.reverse().take(j + 1) =~= marked.reverse().take(j as int).push(
                marked[n - 1 - j],
            ));
        }
        newest.push(ws[n - 1 - j]);
    }
    QuotaSummary {
        window_hours: window_ms / HOUR_MS,
        windows: newest,
        active,
        reference_tokens: match reference {
            Some(m) => m,
            None => 0,
        },
        week_tokens: week,
    }
}

/// An event row (kind, count) by value.
pub open spec fn event_view(r: (String, i64)) -> (Seq<char>, i64) {
    (r.0@, r.1)
}

pub open spec fn error_view(e: ErrorStat) -> (Seq<char>, i64) {
    (e.name@, e.count)
}

pub open spec fn errors_view(v: Seq<ErrorStat>) -> Seq<(Seq<char>, i64)> {
    v.map_values(|e: ErrorStat| error_view(e))
}

/// The count of the last row of `kind`, or 0 when there is none.
pub open spec fn count_of(rows: Seq<(Seq<char>, i64)>, kind: Seq<char>) -> i64
    decreases rows.len(),
{
    if rows.len() == 0 {
        0
    } else if rows.last().0 == kind {
        rows.last().1
    } else {
        count_of(rows.drop_last(), kind)
    }
}

/// The `error:<name>` rows as (name, count), in row order.
pub open spec fn error_rows(rows: Seq<(Seq<char>, i64)>) -> Seq<(Seq<char>, i64)>
    decreases rows.len(),
{
    if rows.len() == 0 {
        Seq::empty()
    } else {
        let p = error_rows(rows.drop_last());
        let r = rows.last();
        if "error:"@.is_prefix_of(r.0) && r.0 != "compaction_auto"@ && r.0 != "compaction_manual"@
            && r.0 != "compaction_overflow"@ && r.0 != "retry"@ {
            p.push((r.0.skip(6), r.1))
        } else {
            p
        }
    }
}

/// Descending by count.
pub open spec fn sorted_by_count_desc(s: Seq<(Seq<char>, i64)>) -> bool {
    forall|i: int, j: int| 0 <= i < j < s.len() ==> s[i].1 >= s[j].1
}

/// The entries of `s` with count `c`, in order.
pub open spec fn with_count(s: Seq<(Seq<char>, i64)>, c: i64) -> Seq<(Seq<char>, i64)> {
    s.filter(|e: (Seq<char>, i64)| e.1 == c)
}

/// `out` is `input` stably sorted by descending count: sorted, and entries of
/// equal count keep their relative order.
pub open spec fn stable_sorted_desc(input: Seq<(Seq<char>, i64)>, out: Seq<(Seq<char>, i64)>) -> bool {
    &&& sorted_by_count_desc(out)
    &&& forall|c: i64| #[trigger] with_count(out, c) == with_count(input, c)
}

proof fn lemma_with_count_push(s: Seq<(Seq<char>, i64)>, e: (Seq<char>, i64), c: i64)
    ensures
        with_count(s.push(e), c) == if e.1 == c {
            with_count(s, c).push(e)
        } else {
            with_count(s, c)
        },
{
    reveal_with_fuel(Seq::<_>::filter, 1);
    assert(s.push(e).drop_last() =~= s);
}

proof fn lemma_with_count_all_below(s: Seq<(Seq<char>, i64)>, c: i64)
    requires
        forall|i: int| 0 <= i < s.len() ==> s[i].1 < c,
    ensures
        with_count(s, c) == Seq::<(Seq<char>, i64)>::empty(),
    decreases s.len(),
{
    reveal_with_fuel(Seq::<_>::filter, 1);
    if s.len() > 0 {
        lemma_with_count_all_below(s.drop_last(), c);
    }
}

/// Sorts error rows by descending count, keeping the order of equal counts.
fn sort_errors(errors: Vec<ErrorStat>) -> (out: Vec<ErrorStat>)
    ensures
        stable_sorted_desc(errors_view(errors@), errors_view(out@)),
{
    let ghost input = errors_view(errors@);
    let mut out: Vec<ErrorStat> = Vec::new();
    let mut rest = errors;
    let mut taken: usize = 0;
    let total: usize = rest.len();
    let ghost orig = rest@;
    proof {
        assert forall|c: i64| #[trigger] with_count(errors_view(out@), c)
            == with_count(input.take(0), c) by {
            reveal_with_fuel(Seq::<_>::filter, 1);
            assert(errors_view(out@) =~= Seq::<(Seq<char>, i64)>::empty());
            assert(input.take(0) =~= Seq::<(Seq<char>, i64)>::empty());
        }
    }
    while rest.len() > 0
        invariant
            input == errors_view(orig),
            total == orig.len(),
            taken + rest.len() == total,
            rest@ =~= orig.subrange(taken as int, total as int),
            sorted_by_count_desc(errors_view(out@)),
            forall|c: i64| #[trigger] with_count(errors_view(out@), c)
                == with_count(input.take(taken as int), c),
        decreases rest.len(),
    {
        let e = rest.remove(0);
        proof {
            assert(e == orig[taken as int]);
        }
        let ghost ov = errors_view(out@);
        let mut p: usize = 0;
        while p < out.len() && out[p].count >= e.count
            invariant
                ov == errors_view(out@),
                0 <= p <= out.len(),
                forall|j: int| 0 <= j < p ==> ov[j].1 >= e.count,
            decreases out.len() - p,
        {
            proof {
                assert(ov[p as int] == error_view(out@[p as int]));
            }
            p = p + 1;
        }
        proof {
            if p < out.len() {
                assert(ov[p as int] == error_view(out@[p as int]));
            }
        }
        let ghost ev = error_view(e);
        out.insert(p, e);
        proof {
            let nv = errors_view(out@);
            let left = ov.subrange(0, p as int);
            let right = ov.subrange(p as int, ov.len() as int);
            assert(nv =~= left + seq![ev] + right);
            assert(ov =~= left + right);
            assert forall|j: int| 0 <= j < right.len() implies right[j].1 < ev.1 by {
                assert(right[j] == ov[p + j]);
                assert(ov[p as int].1 < ev.1);
                if j > 0 {
                    assert(ov[p as int].1 >= ov[p + j].1);
                }
            }
            assert forall|i: int, j: int| 0 <= i < j < nv.len() implies nv[i].1 >= nv[j].1 by {
                if j < p {
                    assert(nv[i] == ov[i] && nv[j] == ov[j]);
                } else if j == p {
                    assert(nv[i] == ov[i]);
                } else if i < p {
                    assert(nv[i] == ov[i] && nv[j] == ov[j - 1]);
                } else if i == p {
                    assert(nv[j] == ov[j - 1]);
                    assert(nv[j] == right[j - 1 - p]);
                } else {
                    assert(nv[i] == ov[i - 1] && nv[j] == ov[j - 1]);
                }
            }
            assert(input[taken as int] == ev);
            assert(input.take(taken as int + 1) =~= input.take(taken as int).push(ev));
            assert forall|c: i64| #[trigger] with_count(nv, c) == with_count(
                input.take(taken as int + 1),
                c,
            ) by {
                let pred = |e: (Seq<char>, i64)| e.1 == c;
                Seq::filter_distributes_over_add(left + seq![ev], right, pred);
                Seq::filter_distributes_over_add(left, right, pred);
                assert(left + seq![ev] =~= left.push(ev));
                assert(with_count(nv, c) == with_count(left.push(ev), c) + with_count(right, c));
                assert(with_count(ov, c) == with_count(left, c) + with_count(right, c));
                assert(with_count(ov, c) == with_count(input.take(taken as int), c));
                lemma_with_count_push(left, ev, c);
                lemma_with_count_push(input.take(taken as int), ev, c);
                if ev.1 == c {
                    lemma_with_count_all_below(right, c);
                    assert(with_count(nv, c) =~= with_count(left, c).push(ev));
                    assert(with_count(ov, c) =~= with_count(left, c));
                } else {
                    assert(with_count(nv, c) == with_count(ov, c));
                }
            }
        }
        taken = taken + 1;
    }
    proof {
        assert(input.take(total as int) =~= input);
    }
    out
}

/// Ranks tools, given as (tool, calls) rows, by descending call count, keeping
/// the row order of tools with equal counts.
pub fn rank_tools(rows: Vec<(String, i64)>) -> (out: Vec<(String, i64)>)
    ensures
        stable_sorted_desc(
            rows@.map_values(|x: (String, i64)| event_view(x)),
            out@.map_values(|x: (String, i64)| event_view(x)),
        ),
{
    let ghost input = rows@.map_values(|x: (String, i64)| event_view(x));
    let mut stats: Vec<ErrorStat> = Vec::new();
    let mut rest = rows;
    let ghost orig = rest@;
    let total: usize = rest.len();
    let mut i: usize = 0;
    while rest.len() > 0
        invariant
            total == orig.len(),
            i + rest.len() == total,
            rest@ =~= orig.subrange(i as int, total as int),
            input == orig.map_values(|x: (String, i64)| event_view(x)),
            errors_view(stats@) == input.take(i as int),
        decreases rest.len(),
    {
        let (name, count) = rest.remove(0);
        proof {
            assert((name, count) == orig[i as int]);
        }
        let ghost before = stats@;
        stats.push(ErrorStat { name, count });
        proof {
            assert(errors_view(stats@) =~= errors_view(before).push(input[i as int]));
            assert(input.take(i + 1) =~= input.take(i as int).push(input[i as int]));
        }
        i = i + 1;
    }
    proof {
        assert(input.take(total as int) =~= input);
    }
    let sorted = sort_errors(stats);
    let mut out: Vec<(String, i64)> = Vec::new();
    let mut left = sorted;
    let ghost sorted_v = left@;
    let n: usize = left.len();
    let mut k: usize = 0;
    while left.len() > 0
        invariant
            n == sorted_v.len(),
            k + left.len() == n,
            left@ =~= sorted_v.subrange(k as int, n as int),
            out@.map_values(|x: (String, i64)| event_view(x)) == errors_view(sorted_v).take(k as int),
        decreases left.len(),
    {
        let e = left.remove(0);
        proof {
            assert(e == sorted_v[k as int]);
        }
        let ghost before = out@;
        out.push((e.name, e.count));
        proof {
            assert(out@.map_values(|x: (String, i64)| event_view(x)) =~= before.map_values(
                |x: (String, i64)| event_view(x),
            ).push(errors_view(sorted_v)[k as int]));
            assert(errors_view(sorted_v).take(k + 1) =~= errors_view(sorted_v).take(k as int).push(
                errors_view(sorted_v)[k as int],
            ));
        }
        k = k + 1;
    }
    proof {
        assert(errors_view(sorted_v).take(n as int) =~= errors_view(sorted_v));
    }
    out
}

/// Builds the reliability report from event rows (kind, count): compaction
/// and retry totals, and the `error:<name>` rows sorted by descending count
/// with ties in row order.
pub fn reliability_report(rows: Vec<(String, i64)>) -> (r: ReliabilityReport)
    ensures
        ({
            let v = rows@.map_values(|x: (String, i64)| event_view(x));
            &&& r.compactions_auto == count_of(v, "compaction_auto"@)
            &&& r.compactions_manual == count_of(v, "compaction_manual"@)
            &&& r.compactions_overflow == count_of(v, "compaction_overflow"@)
            &&& r.retries == count_of(v, "retry"@)
            &&& stable_sorted_desc(
                error_rows(v),
                errors_view(r.errors@),
            )
        }),
{
    let ghost v = rows@.map_values(|x: (String, i64)| event_view(x));
    proof {
        reveal_strlit("compaction_auto");
        reveal_strlit("compaction_manual");
        reveal_strlit("compaction_overflow");
        reveal_strlit("retry");
    }
    let auto_kind = "compaction_auto".to_owned();
    let manual_kind = "compaction_manual".to_owned();
    let overflow_kind = "compaction_overflow".to_owned();
    let retry_kind = "retry".to_owned();
    let mut compactions_auto: i64 = 0;
    let mut compactions_manual: i64 = 0;
    let mut compactions_overflow: i64 = 0;
    let mut retries: i64 = 0;
    let mut errors: Vec<ErrorStat> = Vec::new();
    let n: usize = rows.len();
    for i in 0..n
        invariant
            n == rows.len(),
            v == rows@.map_values(|x: (String, i64)| event_view(x)),
            auto_kind@ == "compaction_auto"@,
            manual_kind@ == "compaction_manual"@,
            overflow_kind@ == "compaction_overflow"@,
            retry_kind@ == "retry"@,
            compactions_auto == count_of(v.take(i as int), "compaction_auto"@),
            compactions_manual == count_of(v.take(i as int), "compaction_manual"@),
            compactions_overflow == count_of(v.take(i as int), "compaction_overflow"@),
            retries == count_of(v.take(i as int), "retry"@),
            errors_view(errors@) == error_rows(v.take(i as int)),
    {
        let kind = &rows[i].0;
        let count = rows[i].1;
        proof {
            reveal_strlit("compaction_auto");
            reveal_strlit("compaction_manual");
            reveal_strlit("compaction_overflow");
            reveal_strlit("retry");
            assert(v.take(i as int + 1).drop_last() =~= v.take(i as int));
            assert(v.take(i as int + 1).last() == v[i as int]);
            assert(v[i as int] == (kind@, count));
        }
        if *kind == auto_kind {
            compactions_auto = count;
        } else if *kind == manual_kind {
            compactions_manual = count;
        } else if *kind == overflow_kind {
            compactions_overflow = count;
        } else if *kind == retry_kind {
            retries = count;
        } else {
            match strip_prefix(kind.as_str(), "error:") {
                Some(name) => {
                    let ghost before = errors@;
                    proof {
                        reveal_strlit("error:");
                    }
                    errors.push(ErrorStat { name, count });
                    proof {
                        assert(errors_view(errors@) =~= errors_view(before).push((kind@.skip(6), count)));
                    }
                },
                None => {},
            }
        }
    }
    proof {
        assert(v.take(n as int) =~= v);
    }
    ReliabilityReport {
        errors: sort_errors(errors),
        compactions_auto,
        compactions_manual,
        compactions_overflow,
        retries,
    }
}

/// A project that has message facts, for the project picker.
#[derive(Debug)]
pub struct ProjectOption {
    pub project_id: String,
    pub name: String,
    pub worktree: String,
}

/// A failure with its text, and how often it occurred.
#[derive(Debug)]
pub struct ErrorDetail {
    pub scope: String,
    pub name: String,
    pub message: String,
    pub count: i64,
}

/// Reads, edits and writes of one file.
#[derive(Debug)]
pub struct FileStat {
    pub path: String,
    pub reads: i64,
    pub edits: i64,
    pub writes: i64,
    pub touches: i64,
}

/// Identical tool calls repeated within a session: all calls, the repeats
/// beyond the first, and the sessions where a call repeated.
#[derive(Debug)]
pub struct RedundancyStat {
    pub tool: String,
    pub calls: i64,
    pub repeated_calls: i64,
    pub sessions: i64,
}

/// How a model row shows its variants.
#[derive(Debug, PartialEq, Eq, Structural)]
pub enum VariantDisplay {
    /// No variant was used.
    Hidden,
    /// A lone variant carries nothing the model row does not already show,
    /// so it collapses into a badge on the row.
    Badge,
    /// Several variants are listed under the model.
    Nested,
}

/// How a model row with `variants` variants shows them.
pub fn variant_display(variants: usize) -> (d: VariantDisplay)
    ensures
        variants == 0 ==> d == VariantDisplay::Hidden,
        variants == 1 ==> d == VariantDisplay::Badge,
        variants >= 2 ==> d == VariantDisplay::Nested,
{
    if variants == 0 {
        VariantDisplay::Hidden
    } else if variants == 1 {
        VariantDisplay::Badge
    } else {
        VariantDisplay::Nested
    }
}

/// The label of an agent key: the display spelling of the last row with that
/// key, rows being ordered oldest use first, so the newest spelling wins.
pub open spec fn agent_label_of(rows: Seq<(String, String)>, key: Seq<char>) -> Option<Seq<char>>
    decreases rows.len(),
{
    if rows.len() == 0 {
        None
    } else if rows.last().0@ == key {
        Some(rows.last().1@)
    } else {
        agent_label_of(rows.drop_last(), key)
    }
}

/// Looks up the label of an agent key among (key, display) rows ordered by
/// last use.
pub fn agent_label(rows: &Vec<(String, String)>, key: &String) -> (r: Option<String>)
    ensures
        match r {
            Some(l) => agent_label_of(rows@, key@) == Some(l@),
            None => agent_label_of(rows@, key@) is None,
        },
{
    let mut k: usize = rows.len();
    proof {
        assert(rows@.take(k as int) =~= rows@);
    }
    while k > 0
        invariant
            k <= rows.len(),
            agent_label_of(rows@, key@) == agent_label_of(rows@.take(k as int), key@),
        decreases k,
    {
        proof {
            assert(rows@.take(k as int).drop_last() =~= rows@.take(k - 1));
        }
        if rows[k - 1].0 == *key {
            return Some(rows[k - 1].1.clone());
        }
        k = k - 1;
    }
    None
}

/// A skill usage row as aggregated by the cache.
#[derive(Debug)]
pub struct SkillRow {
    pub skill: String,
    pub via_task: i64,
    pub direct: i64,
    pub sessions: i64,
    pub projects: i64,
    pub first_used: i64,
    pub last_used: i64,
}

/// A skill stat by value: (skill, loads, via task, direct, sessions,
/// projects, first used, last used).
pub type SkillModel = (Seq<char>, i64, i64, i64, i64, i64, i64, i64);

pub open spec fn skill_model(s: SkillStat) -> SkillModel {
    (s.skill@, s.loads, s.via_task, s.direct, s.sessions, s.projects, s.first_used, s.last_used)
}

pub open spec fn skill_models(v: Seq<SkillStat>) -> Seq<SkillModel> {
    v.map_values(|s: SkillStat| skill_model(s))
}

/// The stat of a row: loads count both preloads via `task` and direct uses.
pub open spec fn skill_of_row(r: SkillRow) -> SkillModel {
    (
        r.skill@,
        (r.via_task + r.direct) as i64,
        r.via_task,
        r.direct,
        r.sessions,
        r.projects,
        r.first_used,
        r.last_used,
    )
}

/// Ranking order: more loads first, then by skill name.
pub open spec fn skill_precedes(a: SkillModel, b: SkillModel) -> bool {
    a.1 > b.1 || (a.1 == b.1 && seq_less(a.0, b.0))
}

/// The entries of `s` with the ranking key (loads, skill) of `k`, in order.
pub open spec fn with_skill_key(s: Seq<SkillModel>, k: (i64, Seq<char>)) -> Seq<SkillModel> {
    s.filter(|e: SkillModel| e.1 == k.0 && e.0 == k.1)
}

/// `out` is `input` stably sorted in ranking order.
pub open spec fn ranked(input: Seq<SkillModel>, out: Seq<SkillModel>) -> bool {
    &&& forall|i: int, j: int| 0 <= i < j < out.len() ==> !skill_precedes(out[j], out[i])
    &&& forall|k: (i64, Seq<char>)| #[trigger] with_skill_key(out, k) == with_skill_key(input, k)
}

proof fn lemma_skill_key_push(s: Seq<SkillModel>, e: SkillModel, k: (i64, Seq<char>))
    ensures
        with_skill_key(s.push(e), k) == if e.1 == k.0 && e.0 == k.1 {
            with_skill_key(s, k).push(e)
        } else {
            with_skill_key(s, k)
        },
{
    reveal_with_fuel(Seq::<_>::filter, 1);
    assert(s.push(e).drop_last() =~= s);
}

proof fn lemma_skill_key_none(s: Seq<SkillModel>, k: (i64, Seq<char>))
    requires
        forall|i: int| 0 <= i < s.len() ==> !(s[i].1 == k.0 && s[i].0 == k.1),
    ensures
        with_skill_key(s, k) == Seq::<SkillModel>::empty(),
    decreases s.len(),
{
    reveal_with_fuel(Seq::<_>::filter, 1);
    if s.len() > 0 {
        lemma_skill_key_none(s.drop_last(), k);
    }
}

proof fn lemma_skill_precedes_transitive(a: SkillModel, b: SkillModel, c: SkillModel)
    requires
        skill_precedes(a, b),
        skill_precedes(b, c),
    ensures
        skill_precedes(a, c),
{
    if a.1 == b.1 && b.1 == c.1 {
        lemma_seq_less_transitive(a.0, b.0, c.0);
    }
}

fn skill_rank_before(a: &SkillStat, b: &SkillStat) -> (r: bool)
    ensures
        r == skill_precedes(skill_model(*a), skill_model(*b)),
{
    a.loads > b.loads || (a.loads == b.loads && str_less(a.skill.as_str(), b.skill.as_str()))
}

/// Stat `s` carries the figures of row `r`: its skill, its two kinds of load
/// and their sum, its session and project counts, and its first and last use.
pub open spec fn carries_row(s: SkillModel, r: SkillRow) -> bool {
    &&& s.0 == r.skill@
    &&& s.1 == r.via_task + r.direct
    &&& s.2 == r.via_task
    &&& s.3 == r.direct
    &&& s.4 == r.sessions
    &&& s.5 == r.projects
    &&& s.6 == r.first_used
    &&& s.7 == r.last_used
}

/// Some input row is carried by stat `s`.
pub open spec fn from_some_row(s: SkillModel, rows: Seq<SkillRow>) -> bool {
    exists|j: int| 0 <= j < rows.len() && carries_row(s, #[trigger] rows[j])
}

/// Some stat of `out` carries row `r`.
pub open spec fn in_some_stat(r: SkillRow, out: Seq<SkillModel>) -> bool {
    exists|i: int| 0 <= i < out.len() && carries_row(#[trigger] out[i], r)
}

proof fn lemma_ranked_same_entries(input: Seq<SkillModel>, out: Seq<SkillModel>, e: SkillModel)
    requires
        ranked(input, out),
    ensures
        out.contains(e) <==> input.contains(e),
{
    let k = (e.1, e.0);
    let pred = |x: SkillModel| x.1 == k.0 && x.0 == k.1;
    assert(with_skill_key(out, k) == with_skill_key(input, k));
    if out.contains(e) {
        let i = choose|i: int| 0 <= i < out.len() && out[i] == e;
        out.lemma_filter_contains(pred, i);
        input.lemma_filter_contains_rev(pred, e);
    }
    if input.contains(e) {
        let i = choose|i: int| 0 <= i < input.len() && input[i] == e;
        input.lemma_filter_contains(pred, i);
        out.lemma_filter_contains_rev(pred, e);
    }
}

proof fn lemma_carried(rows: Seq<SkillRow>, out: Seq<SkillModel>, i: int)
    requires
        forall|i: int| 0 <= i < rows.len() ==> i64::MIN <= #[trigger] rows[i].via_task + rows[i].direct
            <= i64::MAX,
        ranked(rows.map_values(|r: SkillRow| skill_of_row(r)), out),
        0 <= i < out.len(),
    ensures
        from_some_row(out[i], rows),
{
    let input = rows.map_values(|r: SkillRow| skill_of_row(r));
    lemma_ranked_same_entries(input, out, out[i]);
    assert(out.contains(out[i]));
    let j = choose|j: int| 0 <= j < input.len() && input[j] == out[i];
    assert(input[j] == skill_of_row(rows[j]));
    assert(i64::MIN <= rows[j].via_task + rows[j].direct <= i64::MAX);
    assert(carries_row(out[i], rows[j]));
}

proof fn lemma_carrying(rows: Seq<SkillRow>, out: Seq<SkillModel>, j: int)
    requires
        forall|i: int| 0 <= i < rows.len() ==> i64::MIN <= #[trigger] rows[i].via_task + rows[i].direct
            <= i64::MAX,
        ranked(rows.map_values(|r: SkillRow| skill_of_row(r)), out),
        0 <= j < rows.len(),
    ensures
        in_some_stat(rows[j], out),
{
    let input = rows.map_values(|r: SkillRow| skill_of_row(r));
    assert(input[j] == skill_of_row(rows[j]));
    assert(input.contains(input[j]));
    lemma_ranked_same_entries(input, out, input[j]);
    let i = choose|i: int| 0 <= i < out.len() && out[i] == input[j];
    assert(i64::MIN <= rows[j].via_task + rows[j].direct <= i64::MAX);
    assert(carries_row(out[i], rows[j]));
}

/// Ranking moves skill stats, it never alters them: every stat carries the
/// figures of some input row, first and last use included, and every input
/// row is carried by some stat.
pub proof fn law_skill_stats_carry_their_rows(rows: Seq<SkillRow>, out: Seq<SkillModel>)
    requires
        forall|i: int| 0 <= i < rows.len() ==> i64::MIN <= #[trigger] rows[i].via_task + rows[i].direct
            <= i64::MAX,
        ranked(rows.map_values(|r: SkillRow| skill_of_row(r)), out),
    ensures
        forall|i: int| 0 <= i < out.len() ==> from_some_row(#[trigger] out[i], rows),
        forall|j: int| 0 <= j < rows.len() ==> in_some_stat(#[trigger] rows[j], out),
{
    let input = rows.map_values(|r: SkillRow| skill_of_row(r));
    assert forall|i: int| 0 <= i < out.len() implies from_some_row(#[trigger] out[i], rows) by {
        lemma_carried(rows, out, i);
    }
    assert forall|j: int| 0 <= j < rows.len() implies in_some_stat(#[trigger] rows[j], out) by {
        lemma_carrying(rows, out, j);
    }
}

/// Ranks skills by loads, most used first, ties by name.
pub fn skill_stats(rows: Vec<SkillRow>) -> (out: Vec<SkillStat>)
    requires
        forall|i: int|
            0 <= i < rows.len() ==> i64::MIN <= #[trigger] rows@[i].via_task + rows@[i].direct
                <= i64::MAX,
    ensures
        ranked(rows@.map_values(|r: SkillRow| skill_of_row(r)), skill_models(out@)),
        forall|i: int| 0 <= i < out.len() ==> from_some_row(#[trigger] skill_models(out@)[i], rows@),
        forall|j: int| 0 <= j < rows.len() ==> in_some_stat(#[trigger] rows@[j], skill_models(out@)),
{
    let ghost input = rows@.map_values(|r: SkillRow| skill_of_row(r));
    let ghost orig = rows@;
    let mut out: Vec<SkillStat> = Vec::new();
    let mut rest = rows;
    let mut taken: usize = 0;
    let total: usize = rest.len();
    proof {
        assert forall|k: (i64, Seq<char>)| #[trigger] with_skill_key(skill_models(out@), k)
            == with_skill_key(input.take(0), k) by {
            reveal_with_fuel(Seq::<_>::filter, 1);
            assert(skill_models(out@) =~= Seq::<SkillModel>::empty());
            assert(input.take(0) =~= Seq::<SkillModel>::empty());
        }
    }
    while rest.len() > 0
        invariant
            input == orig.map_values(|r: SkillRow| skill_of_row(r)),
            total == orig.len(),
            taken + rest.len() == total,
            rest@ =~= orig.subrange(taken as int, total as int),
            forall|i: int|
                0 <= i < orig.len() ==> i64::MIN <= #[trigger] orig[i].via_task + orig[i].direct
                    <= i64::MAX,
            forall|i: int, j: int|
                0 <= i < j < out.len() ==> !skill_precedes(
                    skill_models(out@)[j],
                    skill_models(out@)[i],
                ),
            forall|k: (i64, Seq<char>)| #[trigger] with_skill_key(skill_models(out@), k)
                == with_skill_key(input.take(taken as int), k),
        decreases rest.len(),
    {
        let row = rest.remove(0);
        proof {
            assert(row == orig[taken as int]);
        }
        let e = SkillStat {
            skill: row.skill,
            loads: row.via_task + row.direct,
            via_task: row.via_task,
            direct: row.direct,
            sessions: row.sessions,
            projects: row.projects,
            first_used: row.first_used,
            last_used: row.last_used,
        };
        let ghost ev = skill_model(e);
        proof {
            assert(ev == input[taken as int]);
        }
        let ghost ov = skill_models(out@);
        let mut p: usize = 0;
        while p < out.len() && !skill_rank_before(&e, &out[p])
            invariant
                ov == skill_models(out@),
                ev == skill_model(e),
                0 <= p <= out.len(),
                forall|j: int| 0 <= j < p ==> !skill_precedes(ev, ov[j]),
            decreases out.len() - p,
        {
            proof {
                assert(ov[p as int] == skill_model(out@[p as int]));
            }
            p = p + 1;
        }
        proof {
            if p < out.len() {
                assert(ov[p as int] == skill_model(out@[p as int]));
            }
        }
        out.insert(p, e);
        proof {
            let nv = skill_models(out@);
            let left = ov.subrange(0, p as int);
            let right = ov.subrange(p as int, ov.len() as int);
            assert(nv =~= left + seq![ev] + right);
            assert(ov =~= left + right);
            if p < ov.len() {
                assert(skill_precedes(ev, ov[p as int]));
            }
            assert forall|j: int| 0 <= j < right.len() implies !skill_precedes(right[j], ev) && !(
            right[j].1 == ev.1 && right[j].0 == ev.0) by {
                assert(right[j] == ov[p + j]);
                if j > 0 {
                    assert(!skill_precedes(ov[p + j], ov[p as int]));
                }
                if skill_precedes(right[j], ev) {
                    lemma_skill_precedes_transitive(right[j], ev, ov[p as int]);
                    if j == 0 {
                        lemma_seq_less_irreflexive(right[j].0);
                    }
                }
                if right[j].1 == ev.1 && right[j].0 == ev.0 {
                    if j == 0 {
                        lemma_seq_less_irreflexive(ev.0);
                    }
                }
            }
            assert forall|i: int, j: int| 0 <= i < j < nv.len() implies !skill_precedes(nv[j], nv[i]) by {
                if j < p {
                    assert(nv[i] == ov[i] && nv[j] == ov[j]);
                } else if j == p {
                    assert(nv[i] == ov[i]);
                } else if i < p {
                    assert(nv[i] == ov[i] && nv[j] == ov[j - 1]);
                } else if i == p {
                    assert(nv[j] == right[j - 1 - p]);
                } else {
                    assert(nv[i] == ov[i - 1] && nv[j] == ov[j - 1]);
                }
            }
            assert(input.take(taken as int + 1) =~= input.take(taken as int).push(ev));
            assert forall|k: (i64, Seq<char>)| #[trigger] with_skill_key(nv, k) == with_skill_key(
                input.take(taken as int + 1),
                k,
            ) by {
                let pred = |x: SkillModel| x.1 == k.0 && x.0 == k.1;
                Seq::filter_distributes_over_add(left + seq![ev], right, pred);
                Seq::filter_distributes_over_add(left, right, pred);
                assert(left + seq![ev] =~= left.push(ev));
                assert(with_skill_key(nv, k) == with_skill_key(left.push(ev), k) + with_skill_key(
                    right,
                    k,
                ));
                assert(with_skill_key(ov, k) == with_skill_key(left, k) + with_skill_key(right, k));
                assert(with_skill_key(ov, k) == with_skill_key(input.take(taken as int), k));
                lemma_skill_key_push(left, ev, k);
                lemma_skill_key_push(input.take(taken as int), ev, k);
                if ev.1 == k.0 && ev.0 == k.1 {
                    lemma_skill_key_none(right, k);
                    assert(with_skill_key(nv, k) =~= with_skill_key(left, k).push(ev));
                    assert(with_skill_key(ov, k) =~= with_skill_key(left, k));
                } else {
                    assert(with_skill_key(nv, k) == with_skill_key(ov, k));
                }
            }
        }
        taken = taken + 1;
    }
    proof {
        assert(input.take(total as int) =~= input);
        law_skill_stats_carry_their_rows(orig, skill_models(out@));
        assert(skill_models(out@).len() == out@.len());
    }
    out
}

} // verus!
