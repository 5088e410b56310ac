//! Time windows of the charts: how far back, how fine, and from which data.

use vstd::prelude::*;
use vstd::string::*;

use crate::{collector, num, text};

verus! {

/// The selectable ranges: their names and lengths in seconds.
pub open spec fn range_secs(name: Seq<char>) -> Option<u64> {
    if name == "1h"@ {
        Some(3_600)
    } else if name == "6h"@ {
        Some(21_600)
    } else if name == "24h"@ {
        Some(86_400)
    } else if name == "7d"@ {
        Some(604_800)
    } else if name == "30d"@ {
        Some(2_592_000)
    } else {
        None
    }
}

/// The names of the selectable ranges, shortest first.
pub fn history_ranges() -> (r: Vec<&'static str>)
    ensures
        text::slice_views(r@) == seq!["1h"@, "6h"@, "24h"@, "7d"@, "30d"@],
{
    let mut out: Vec<&'static str> = Vec::new();
    out.push("1h");
    out.push("6h");
    out.push("24h");
    out.push("7d");
    out.push("30d");
    proof {
        assert(text::slice_views(out@) =~= seq!["1h"@, "6h"@, "24h"@, "7d"@, "30d"@]);
    }
    out
}

/// The length of a selectable range, in seconds.
pub fn named_range(name: &str) -> (r: Option<u64>)
    ensures
        r == range_secs(name@),
{
    if text::same(name, "1h") {
        Some(3_600)
    } else if text::same(name, "6h") {
        Some(21_600)
    } else if text::same(name, "24h") {
        Some(86_400)
    } else if text::same(name, "7d") {
        Some(604_800)
    } else if text::same(name, "30d") {
        Some(2_592_000)
    } else {
        None
    }
}

/// Every range that is offered is accepted.
pub proof fn law_offered_ranges_are_accepted(i: int)
    requires
        0 <= i < 5,
    ensures
        range_secs(seq!["1h"@, "6h"@, "24h"@, "7d"@, "30d"@][i]) is Some,
{
}

/// The start of a window of `window_ms` that ends at `now`.
pub open spec fn window_start(now: int, window_ms: int) -> int {
    if now < window_ms {
        0
    } else {
        now - window_ms
    }
}

/// The time from which to serve points: what the client asks for, but no more
/// than the window allows, so that no request asks for unbounded history.
pub fn clamp_since(since_ms: u64, window_secs: u64, now: u64) -> (r: u64)
    ensures
        r == (if since_ms >= window_start(now as int, collector::cap_ms(window_secs)) {
            since_ms as int
        } else {
            window_start(now as int, collector::cap_ms(window_secs))
        }),
        r >= window_start(now as int, collector::cap_ms(window_secs)),
        r >= since_ms,
{
    let floor: u64 = now.saturating_sub(collector::duration_ms(window_secs));
    if since_ms >= floor {
        since_ms
    } else {
        floor
    }
}

/// How many points a chart aims for.
pub const TARGET_POINTS: u64 = 1440;

/// Width of a trend bucket, in milliseconds.
pub const BUCKET_MS: u64 = 60_000;

/// The width of a downsampling group for a window of trends: whole buckets, at
/// least one, and enough to stay within the target.
pub open spec fn group_width(window_ms: int) -> int {
    let step = window_ms / (TARGET_POINTS as int);
    let buckets = (step + BUCKET_MS - 1) / (BUCKET_MS as int);
    if buckets < 1 {
        BUCKET_MS as int
    } else {
        buckets * BUCKET_MS
    }
}

/// The width of a downsampling group for a window of trends.
pub fn group_for_window(window_ms: u64) -> (r: u64)
    ensures
        r == group_width(window_ms as int),
        r >= BUCKET_MS,
{
    let step: u64 = window_ms / TARGET_POINTS;
    let buckets: u64 = (step + (BUCKET_MS - 1)) / BUCKET_MS;
    if buckets < 1 {
        BUCKET_MS
    } else {
        buckets * BUCKET_MS
    }
}

/// The width of a downsampling group for a window of raw samples: enough to cap
/// the number of points, and narrow enough to keep every sample of a short
/// window.
pub open spec fn raw_group_width(window_ms: int) -> int {
    let step = window_ms / (TARGET_POINTS as int);
    if step < 1 {
        1
    } else {
        step
    }
}

/// The width of a downsampling group for a window of raw samples.
pub fn raw_group_for_window(window_ms: u64) -> (r: u64)
    ensures
        r == raw_group_width(window_ms as int),
        r >= 1,
{
    let step: u64 = window_ms / TARGET_POINTS;
    if step < 1 {
        1
    } else {
        step
    }
}

/// Groups of trends are whole buckets, and a window holds no more of them than
/// the target.
pub proof fn law_trend_groups_stay_within_the_target(window_ms: int)
    requires
        window_ms >= 0,
    ensures
        group_width(window_ms) % (BUCKET_MS as int) == 0,
        group_width(window_ms) >= BUCKET_MS,
        window_ms / group_width(window_ms) <= TARGET_POINTS,
{
    let step = window_ms / 1440;
    let g = group_width(window_ms);
    let buckets = (step + 59_999) / 60_000;
    assert(g >= step && g >= 60_000);
    assert(window_ms < 1440 * (step + 1));
    assert(window_ms / g <= 1440) by (nonlinear_arith)
        requires
            g >= step,
            g >= 60_000,
            0 <= window_ms < 1440 * (step + 1),
    {
        vstd::arithmetic::div_mod::lemma_fundamental_div_mod(window_ms, g);
        vstd::arithmetic::div_mod::lemma_mod_bound(window_ms, g);
        assert(window_ms < 1441 * g);
    }
    if buckets >= 1 {
        vstd::arithmetic::div_mod::lemma_mod_multiples_basic(buckets, 60_000);
    }
}

/// A window of raw samples never yields more than twice the target, and hardly
/// more than the target once it is long enough.
pub proof fn law_raw_groups_cap_the_points(window_ms: int)
    requires
        window_ms >= 0,
    ensures
        raw_group_width(window_ms) >= 1,
        window_ms / raw_group_width(window_ms) < 2 * TARGET_POINTS,
        window_ms >= TARGET_POINTS * TARGET_POINTS ==> window_ms / raw_group_width(window_ms)
            <= TARGET_POINTS + 1,
{
    let step = window_ms / 1440;
    let g = raw_group_width(window_ms);
    assert(window_ms < 1440 * (step + 1));
    assert(g >= 1 && g >= step);
    assert(window_ms < 2880 * g) by (nonlinear_arith)
        requires
            g >= 1,
            g >= step,
            window_ms < 1440 * (step + 1),
    ;
    vstd::arithmetic::div_mod::lemma_fundamental_div_mod(window_ms, g);
    vstd::arithmetic::div_mod::lemma_mod_bound(window_ms, g);
    assert(window_ms / g < 2880) by (nonlinear_arith)
        requires
            g >= 1,
            window_ms == g * (window_ms / g) + window_ms % g,
            0 <= window_ms % g,
            window_ms < 2880 * g,
    ;
    if window_ms >= 1440 * 1440 {
        assert(step >= 1440);
        assert(window_ms < 1442 * g) by (nonlinear_arith)
            requires
                g >= step,
                step >= 1440,
                window_ms < 1440 * (step + 1),
        ;
        assert(window_ms / g < 1442) by (nonlinear_arith)
            requires
                g >= 1,
                window_ms == g * (window_ms / g) + window_ms % g,
                0 <= window_ms % g,
                window_ms < 1442 * g,
        ;
    }
}

/// A history request: a named range, or a window of its own.
#[derive(Debug)]
pub struct HistoryQuery {
    pub range: Option<String>,
    pub since_ms: Option<u64>,
    pub until_ms: Option<u64>,
}

/// A resolved history request.
#[derive(Debug, Clone, Copy, PartialEq, Eq, Structural)]
pub struct HistoryWindow {
    pub since: u64,
    pub until: u64,
    pub group_ms: u64,
    /// Serve from raw samples, since the window lies within their retention.
    pub raw: bool,
}

/// The bounds that a request asks for: those of a named range that ends now, or
/// its own if they are in order. Any other combination is refused.
pub open spec fn bounds_of(
    range: Option<Seq<char>>,
    since: Option<u64>,
    until: Option<u64>,
    now: u64,
) -> Option<(int, int)> {
    match (range, since, until) {
        (Some(name), None, None) => match range_secs(name) {
            Some(secs) => Some(
                (window_start(now as int, collector::cap_ms(secs)), now as int),
            ),
            None => None,
        },
        (None, Some(s), Some(u)) => if s < u {
            Some((s as int, u as int))
        } else {
            None
        },
        _ => None,
    }
}

/// What a history request resolves to at `now`.
pub open spec fn resolved(
    range: Option<Seq<char>>,
    since: Option<u64>,
    until: Option<u64>,
    seed_window_secs: u64,
    now: u64,
) -> Option<HistoryWindow> {
    match bounds_of(range, since, until, now) {
        Some((s, u)) => Some(
            HistoryWindow {
                since: s as u64,
                until: u as u64,
                group_ms: group_width(u - s) as u64,
                raw: s >= window_start(now as int, collector::cap_ms(seed_window_secs)),
            },
        ),
        None => None,
    }
}

/// A window is served from raw samples only where the retention keeps them all:
/// no prune at `now` or before drops a sample of the window.
pub proof fn law_raw_windows_are_still_kept(
    range: Option<Seq<char>>,
    since: Option<u64>,
    until: Option<u64>,
    retention_secs: u64,
    now: u64,
    ts: int,
    pruned_at: int,
)
    requires
        resolved(range, since, until, retention_secs, now) matches Some(w) && w.raw && w.since
            <= ts,
        pruned_at <= now,
    ensures
        !(ts < collector::cutoff(pruned_at, collector::cap_ms(retention_secs))),
{
}

/// Resolve a history request at `now`; `None` if it is neither a known range nor
/// a window whose bounds are in order.
pub fn resolve_history(q: &HistoryQuery, seed_window_secs: u64, now: u64) -> (r: Option<
    HistoryWindow,
>)
    ensures
        r == resolved(text::opt_view(q.range), q.since_ms, q.until_ms, seed_window_secs, now),
        r matches Some(w) ==> w.since <= w.until,
{
    let (since, until): (u64, u64) = match (&q.range, q.since_ms, q.until_ms) {
        (Some(range), None, None) => match named_range(range.as_str()) {
            Some(secs) => (now.saturating_sub(collector::duration_ms(secs)), now),
            None => {
                return None;
            },
        },
        (None, Some(s), Some(u)) => if s < u {
            (s, u)
        } else {
            return None;
        },
        _ => {
            return None;
        },
    };
    let floor: u64 = now.saturating_sub(collector::duration_ms(seed_window_secs));
    Some(
        HistoryWindow {
            since,
            until,
            group_ms: group_for_window(until - since),
            raw: since >= floor,
        },
    )
}

/// The message for a history request that is refused.
pub const INVALID_RANGE_TEXT: &'static str =
    "invalid range: pass ?range=1h|6h|24h|7d|30d or ?since_ms=&until_ms=";

/// Where the history of a container comes from.
#[derive(Debug)]
pub enum HistorySource {
    /// From raw samples, in groups of this width.
    Raw(u64),
    /// From the trends recorded under this name.
    Trends(String),
    /// From the trends, once the name under which the id was recorded is known.
    LookUp,
}

/// Where the history of a container comes from. Trends are kept by name, so that
/// they span recreations; the name of a container that is gone has to be looked
/// up.
pub fn history_source(w: &HistoryWindow, listed_name: Option<String>) -> (r: HistorySource)
    requires
        w.since <= w.until,
    ensures
        if w.raw {
            r matches HistorySource::Raw(g) && g == raw_group_width(w.until - w.since)
        } else {
            match listed_name {
                Some(name) => r matches HistorySource::Trends(n) && n == name,
                None => r is LookUp,
            }
        },
{
    if w.raw {
        HistorySource::Raw(raw_group_for_window(w.until - w.since))
    } else {
        match listed_name {
            Some(name) => HistorySource::Trends(name),
            None => HistorySource::LookUp,
        }
    }
}

/// The history address that mirrors a backfill address: the first metrics
/// segment becomes a history segment.
pub open spec fn mirrored(url: Seq<char>) -> Seq<char> {
    match text::cut_on(url, "/api/metrics/"@) {
        Some((a, b)) => a + "/api/history/"@ + b,
        None => url,
    }
}

/// The history address that mirrors a backfill address.
pub fn history_url(backfill_url: &str) -> (r: String)
    ensures
        r@ == mirrored(backfill_url@),
{
    match text::split_on(backfill_url, "/api/metrics/") {
        Some((a, b)) => {
            let mut out = a.to_owned();
            out.append("/api/history/");
            out.append(b);
            out
        },
        None => backfill_url.to_owned(),
    }
}

// ---------------------------------------------------------------------------
// Laws of the windows
// ---------------------------------------------------------------------------

/// A range that is a number of hours or of days is as long as its name says, and
/// only the five that are offered are accepted.
pub proof fn law_ranges_are_as_long_as_they_say(name: Seq<char>, n: nat)
    ensures
        name == num::dec(n).push('h') && range_secs(name) is Some ==> range_secs(name)->0 == n
            * 3600,
        name == num::dec(n).push('d') && range_secs(name) is Some ==> range_secs(name)->0 == n * 24
            * 3600,
        range_secs(name) is Some ==> seq!["1h"@, "6h"@, "24h"@, "7d"@, "30d"@].contains(name),
{
    let all = seq!["1h"@, "6h"@, "24h"@, "7d"@, "30d"@];
    reveal_strlit("1h");
    reveal_strlit("6h");
    reveal_strlit("24h");
    reveal_strlit("7d");
    reveal_strlit("30d");
    assert("1h"@ =~= seq!['1', 'h']);
    assert("6h"@ =~= seq!['6', 'h']);
    assert("24h"@ =~= seq!['2', '4', 'h']);
    assert("7d"@ =~= seq!['7', 'd']);
    assert("30d"@ =~= seq!['3', '0', 'd']);
    if range_secs(name) is Some {
        assert(name == all[0] || name == all[1] || name == all[2] || name == all[3] || name
            == all[4]);
        num::lemma_dec(n);
        let d = num::dec(n);
        if name == d.push('h') || name == d.push('d') {
            assert(name.drop_last() =~= d);
            assert(name.last() == 'h' || name.last() == 'd');
            lemma_one_digit('1');
            lemma_one_digit('6');
            lemma_one_digit('7');
            lemma_two_digits('2', '4');
            lemma_two_digits('3', '0');
            if name == "1h"@ {
                assert(d =~= seq!['1']);
            } else if name == "6h"@ {
                assert(d =~= seq!['6']);
            } else if name == "24h"@ {
                assert(d =~= seq!['2', '4']);
            } else if name == "7d"@ {
                assert(d =~= seq!['7']);
            } else {
                assert(d =~= seq!['3', '0']);
            }
        }
    }
}

proof fn lemma_one_digit(c: char)
    ensures
        num::value(seq![c]) == c as int - 48,
{
    reveal_with_fuel(num::value, 2);
    assert(seq![c].drop_last() =~= Seq::<char>::empty());
}

proof fn lemma_two_digits(a: char, b: char)
    ensures
        num::value(seq![a, b]) == (a as int - 48) * 10 + (b as int - 48),
{
    lemma_one_digit(a);
    assert(seq![a, b].drop_last() =~= seq![a]);
}

/// The start of a window lies its length before its end, or at the beginning of
/// time.
pub proof fn law_windows_start_their_length_before(now: int, window_ms: int)
    requires
        0 <= now,
        0 <= window_ms,
    ensures
        now >= window_ms ==> window_start(now, window_ms) + window_ms == now,
        now < window_ms ==> window_start(now, window_ms) == 0,
{
}

/// A named range ends now and starts its length before; a window of one's own is
/// taken as it is if it starts before it ends. Nothing else is accepted: neither
/// both, nor half a window, nor nothing at all.
pub proof fn law_history_requests_resolve_to_what_they_ask(
    range: Option<Seq<char>>,
    since: Option<u64>,
    until: Option<u64>,
    seed_window_secs: u64,
    now: u64,
    secs: u64,
)
    ensures
        ({
            let w = resolved(range, since, until, seed_window_secs, now);
            &&& (range matches Some(name) && since is None && until is None && range_secs(name)
                == Some(secs)) ==> (w matches Some(x) && x.until == now && (if now >= secs * 1000 {
                x.since + secs * 1000 == now
            } else {
                x.since == 0
            }))
            &&& (range is None && since is Some && until is Some) ==> (w is Some) == (since->0
                < until->0)
            &&& (range is None && since is Some && until is Some && w is Some) ==> w->0.since
                == since->0 && w->0.until == until->0
            &&& w is Some ==> (range is Some && since is None && until is None) || (range is None
                && since is Some && until is Some)
            &&& (range matches Some(name) && range_secs(name) is None) ==> w is None
            &&& w matches Some(x) ==> x.raw == (x.since >= now || now - x.since <= (
            if seed_window_secs > 18_446_744_073_709_551 {
                0xffff_ffff_ffff_ffff
            } else {
                seed_window_secs * 1000
            }))
        }),
{
    if let Some(name) = range {
        if range_secs(name) == Some(secs) {
            assert(secs <= 2_592_000);
        }
    }
}

/// Groups of trends are no wider than they have to be: one bucket for a day and
/// less, and otherwise less than a bucket above what the target asks for.
pub proof fn law_trend_groups_are_not_too_wide(window_ms: int)
    requires
        window_ms >= 0,
    ensures
        window_ms <= 24 * 3600 * 1000 ==> group_width(window_ms) == 60_000,
        group_width(window_ms) < window_ms / 1440 + 60_000 || group_width(window_ms) == 60_000,
{
    let step = window_ms / 1440;
    let buckets = (step + 59_999) / 60_000;
    if window_ms <= 24 * 3600 * 1000 {
        assert(step <= 60_000);
        assert(buckets <= 1);
    }
}

/// Groups of raw samples are no wider than they have to be: the target many of
/// them fit into the window, unless they are as narrow as can be.
pub proof fn law_raw_groups_are_not_too_wide(window_ms: int)
    requires
        window_ms >= 0,
    ensures
        raw_group_width(window_ms) == 1 || 1440 * raw_group_width(window_ms) <= window_ms,
{
}

/// The history address differs from the backfill address in the one segment alone.
pub proof fn law_mirroring_changes_one_segment(url: Seq<char>)
    ensures
        match text::cut_on(url, "/api/metrics/"@) {
            Some((a, b)) => url == a + "/api/metrics/"@ + b && mirrored(url) == a
                + "/api/history/"@ + b,
            None => mirrored(url) == url,
        },
{
    text::law_cut_on_splits_at_the_text(url, "/api/metrics/"@);
}

} // verus!
