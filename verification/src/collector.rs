//! The collection loop: what one cycle publishes, reports, stores and prunes.

use vstd::prelude::*;

use crate::{model, notify, trend};

verus! {

/// Tunables of the collection loop.
#[derive(Debug, Clone, Copy)]
pub struct Config {
    /// Time between samples, in seconds.
    pub interval_secs: u64,
    /// How long raw samples are kept, in seconds.
    pub raw_retention_secs: u64,
    /// Width of a trend bucket, in seconds.
    pub trend_bucket_secs: u64,
    /// How long trend rollups are kept, in seconds.
    pub trend_retention_secs: u64,
    /// How often to prune, in seconds. Retention is hours or days, so pruning
    /// after every sample would be pure overhead.
    pub prune_interval_secs: u64,
}

/// A length of time in milliseconds, capped.
pub open spec fn cap_ms(secs: u64) -> int {
    if secs * 1000 > u64::MAX {
        u64::MAX as int
    } else {
        secs * 1000
    }
}

/// A length of time in milliseconds, capped at the largest number there is.
pub fn duration_ms(secs: u64) -> (r: u64)
    ensures
        r == cap_ms(secs),
{
    match secs.checked_mul(1000) {
        Some(ms) => ms,
        None => u64::MAX,
    }
}

/// The Unix time in milliseconds, given the time since the epoch if the clock
/// is past it: zero before the epoch, capped at the largest number there is.
pub fn unix_ms(since_epoch_ms: Option<u128>) -> (r: u64)
    ensures
        r == (match since_epoch_ms {
            None => 0,
            Some(ms) => if ms > u64::MAX {
                u64::MAX as int
            } else {
                ms as int
            },
        }),
{
    match since_epoch_ms {
        None => 0,
        Some(ms) => if ms > 0xffff_ffff_ffff_ffff {
            u64::MAX
        } else {
            ms as u64
        },
    }
}

/// How many sample cycles lie between two prunes.
pub open spec fn cadence(prune_interval_secs: nat, interval_secs: nat) -> nat {
    let step = if interval_secs == 0 {
        1
    } else {
        interval_secs
    };
    if prune_interval_secs < step {
        1
    } else {
        prune_interval_secs / step
    }
}

/// How many sample cycles lie between two prunes: roughly the prune interval,
/// and at least one cycle.
pub fn prune_cadence(prune_interval_secs: u64, interval_secs: u64) -> (r: u64)
    ensures
        r == cadence(prune_interval_secs as nat, interval_secs as nat),
        r >= 1,
{
    let step: u64 = if interval_secs == 0 {
        1
    } else {
        interval_secs
    };
    proof {
        let p = prune_interval_secs as int;
        let s = step as int;
        vstd::arithmetic::div_mod::lemma_fundamental_div_mod(p, s);
        vstd::arithmetic::div_mod::lemma_mod_bound(p, s);
        assert(p < s ==> p / s == 0) by (nonlinear_arith)
            requires
                0 <= p,
                s > 0,
                p == s * (p / s) + p % s,
                0 <= p % s < s,
        ;
        assert(p >= s ==> p / s >= 1) by (nonlinear_arith)
            requires
                s > 0,
                p == s * (p / s) + p % s,
                0 <= p % s < s,
        ;
    }
    let n: u64 = prune_interval_secs / step;
    if n == 0 {
        1
    } else {
        n
    }
}

/// What one real cycle leaves to do.
#[derive(Debug)]
pub struct Work {
    /// The snapshot to publish, whose containers are also to be stored.
    pub dashboard: model::Dashboard,
    /// The messages to send.
    pub notes: Vec<notify::Notification>,
    /// The rollups to store.
    pub flushed: trend::Flushed,
    /// The raw and the trend cutoff to prune to, on cycles that prune.
    pub prune: Option<(u64, u64)>,
}

/// What came of one cycle.
#[derive(Debug)]
pub enum Cycle {
    /// Collecting failed; the last snapshot stays.
    Failed,
    /// The first success only primes the readings that need two samples.
    Primed,
    /// A real cycle.
    Real(Work),
}

/// The state of the collection loop of one host.
pub struct Collector {
    cpu_count: usize,
    raw_retention_ms: u64,
    trend_retention_ms: u64,
    prune_every: u64,
    /// Real cycles since the last one that pruned.
    position: u64,
    primed: bool,
    bucketer: trend::Bucketer,
    tracker: Option<notify::Tracker>,
}

/// The cutoff of a retention: nothing older than that is kept.
pub open spec fn cutoff(now: int, retention: int) -> int {
    if now < retention {
        0
    } else {
        now - retention
    }
}

impl Collector {
    pub closed spec fn cpu_count(&self) -> usize {
        self.cpu_count
    }

    pub closed spec fn raw_retention_ms(&self) -> u64 {
        self.raw_retention_ms
    }

    pub closed spec fn trend_retention_ms(&self) -> u64 {
        self.trend_retention_ms
    }

    /// How many real cycles lie between two prunes.
    pub closed spec fn prune_every(&self) -> u64 {
        self.prune_every
    }

    /// How many real cycles have passed since the last prune.
    pub closed spec fn position(&self) -> u64 {
        self.position
    }

    /// Whether a first success has primed the readings.
    pub closed spec fn primed(&self) -> bool {
        self.primed
    }

    pub closed spec fn bucketer(&self) -> trend::Bucketer {
        self.bucketer
    }

    pub closed spec fn tracker(&self) -> Option<notify::Tracker> {
        self.tracker
    }

    /// The bucketer is well-formed, and pruning has a period.
    pub open spec fn wf(&self) -> bool {
        self.bucketer().wf() && self.position() < self.prune_every()
    }

    /// Whether nothing but the listed parts differs.
    pub open spec fn same_settings(&self, other: &Collector) -> bool {
        &&& self.cpu_count() == other.cpu_count()
        &&& self.raw_retention_ms() == other.raw_retention_ms()
        &&& self.trend_retention_ms() == other.trend_retention_ms()
        &&& self.prune_every() == other.prune_every()
    }

    /// The loop of one host before its first cycle. With a notification delay,
    /// status changes are reported.
    pub fn new(host: String, cpu_count: usize, config: &Config, notify_delay_ms: Option<u64>) -> (r:
        Self)
        requires
            config.trend_bucket_secs * 1000 <= u64::MAX,
        ensures
            r.wf(),
            r.cpu_count() == cpu_count,
            r.raw_retention_ms() == cap_ms(config.raw_retention_secs),
            r.trend_retention_ms() == cap_ms(config.trend_retention_secs),
            r.prune_every() == cadence(
                config.prune_interval_secs as nat,
                config.interval_secs as nat,
            ),
            r.position() == 0,
            !r.primed(),
            r.bucketer().host() == host@,
            r.bucketer().width() == (if config.trend_bucket_secs == 0 {
                1000
            } else {
                config.trend_bucket_secs * 1000
            }),
            r.bucketer().current() is None,
            r.bucketer().accs() == Seq::<trend::Acc>::empty(),
            match r.tracker() {
                Some(t) => {
                    &&& t.host() == host@
                    &&& notify_delay_ms == Some(t.delay())
                    &&& t.states() == Map::<Seq<char>, notify::Watched>::empty()
                },
                None => notify_delay_ms is None,
            },
    {
        let tracker = match notify_delay_ms {
            Some(delay) => Some(notify::Tracker::new(host.clone(), delay)),
            None => None,
        };
        Collector {
            cpu_count,
            raw_retention_ms: duration_ms(config.raw_retention_secs),
            trend_retention_ms: duration_ms(config.trend_retention_secs),
            prune_every: prune_cadence(config.prune_interval_secs, config.interval_secs),
            position: 0,
            primed: false,
            bucketer: trend::Bucketer::for_host(config.trend_bucket_secs, host),
            tracker,
        }
    }

    /// Fold in what was collected at `ts_ms`; `None` when collecting failed.
    ///
    /// The first success is discarded: without an earlier sample its
    /// delta-based readings are missing, and storing it would put a dip at the
    /// start of every chart. From then on each success is published, watched
    /// for status changes, rolled up and stored, and every so many of them, the
    /// first included, also prune.
    pub fn cycle(&mut self, ts_ms: u64, collected: Option<Vec<model::ContainerMetrics>>) -> (r:
        Cycle)
        requires
            old(self).wf(),
        ensures
            final(self).wf(),
            final(self).same_settings(old(self)),
            match collected {
                None => r is Failed && *final(self) == *old(self),
                Some(cs) => if !old(self).primed() {
                    &&& r is Primed
                    &&& final(self).primed()
                    &&& final(self).position() == old(self).position()
                    &&& final(self).bucketer() == old(self).bucketer()
                    &&& final(self).tracker() == old(self).tracker()
                } else {
                    &&& final(self).primed()
                    &&& r matches Cycle::Real(w) && real_cycle(
                        *old(self),
                        *final(self),
                        ts_ms,
                        cs,
                        w,
                    )
                },
            },
    {
        let containers = match collected {
            Some(cs) => cs,
            None => {
                return Cycle::Failed;
            },
        };
        if !self.primed {
            self.primed = true;
            return Cycle::Primed;
        }
        let notes = match &mut self.tracker {
            Some(t) => t.evaluate(ts_ms, containers.as_slice()),
            None => Vec::new(),
        };
        let flushed = self.bucketer.push(ts_ms, containers.as_slice());
        let prune: Option<(u64, u64)> = if self.position == 0 {
            Some(
                (
                    ts_ms.saturating_sub(self.raw_retention_ms),
                    ts_ms.saturating_sub(self.trend_retention_ms),
                ),
            )
        } else {
            None
        };
        self.position = if self.position + 1 == self.prune_every {
            0
        } else {
            self.position + 1
        };
        Cycle::Real(
            Work {
                dashboard: model::Dashboard {
                    generated_at_unix_ms: ts_ms,
                    cpu_count: self.cpu_count,
                    containers,
                },
                notes,
                flushed,
                prune,
            },
        )
    }
}

/// What a real cycle does with the containers it collected.
pub open spec fn real_cycle(
    before: Collector,
    after: Collector,
    ts_ms: u64,
    cs: Vec<model::ContainerMetrics>,
    w: Work,
) -> bool {
    &&& w.dashboard.generated_at_unix_ms == ts_ms
    &&& w.dashboard.cpu_count == before.cpu_count()
    &&& w.dashboard.containers == cs
    &&& match (before.tracker(), after.tracker()) {
        (Some(t), Some(u)) => notify::evaluated(t, u, ts_ms, cs@, w.notes@),
        (None, None) => w.notes@.len() == 0,
        _ => false,
    }
    &&& trend::pushed(before.bucketer(), after.bucketer(), ts_ms, cs@, w.flushed.containers@)
    &&& match w.prune {
        Some((raw, trends)) => {
            &&& before.position() == 0
            &&& raw == cutoff(ts_ms as int, before.raw_retention_ms() as int)
            &&& trends == cutoff(ts_ms as int, before.trend_retention_ms() as int)
        },
        None => before.position() != 0,
    }
    &&& after.position() == next_position(before.position() as int, before.prune_every() as int)
}

/// A prune drops exactly what is older than its retention: a row of time `ts` lies
/// before the cutoff if and only if more than the retention has passed since.
pub proof fn law_retention_drops_what_is_older(ts: nat, now: int, retention: int)
    requires
        0 <= retention,
    ensures
        (ts < cutoff(now, retention)) == (now - ts > retention),
{
}

/// The position after one more real cycle.
pub open spec fn next_position(position: int, every: int) -> int {
    if position + 1 == every {
        0
    } else {
        position + 1
    }
}

/// The position after `n` real cycles from the start.
pub open spec fn position_after(n: nat, every: int) -> int
    decreases n,
{
    if n == 0 {
        0
    } else {
        next_position(position_after((n - 1) as nat, every), every)
    }
}

/// Of the real cycles, numbered from zero, exactly those whose number is a
/// multiple of the cadence prune: the first one, and every so many after it.
pub proof fn law_prunes_every_nth_cycle(n: nat, every: int)
    requires
        every >= 1,
    ensures
        position_after(n, every) == n as int % every,
        (position_after(n, every) == 0) == (n as int % every == 0),
    decreases n,
{
    if n > 0 {
        let k = n - 1;
        law_prunes_every_nth_cycle(k as nat, every);
        vstd::arithmetic::div_mod::lemma_fundamental_div_mod(k, every);
        vstd::arithmetic::div_mod::lemma_mod_bound(k, every);
        if k % every + 1 == every {
            assert(n as int == (k / every + 1) * every) by (nonlinear_arith)
                requires
                    n == k + 1,
                    k == every * (k / every) + k % every,
                    k % every + 1 == every,
            ;
            vstd::arithmetic::div_mod::lemma_fundamental_div_mod_converse(
                n as int,
                every,
                k / every + 1,
                0,
            );
        } else {
            assert(n as int == (k / every) * every + (k % every + 1)) by (nonlinear_arith)
                requires
                    n == k + 1,
                    k == every * (k / every) + k % every,
            ;
            vstd::arithmetic::div_mod::lemma_fundamental_div_mod_converse(
                n as int,
                every,
                k / every,
                k % every + 1,
            );
        }
    } else {
        vstd::arithmetic::div_mod::lemma_small_mod(0, every as nat);
    }
}

/// With a prune interval of at least one sample interval, the cycles between
/// two prunes cover at most the prune interval.
pub proof fn law_prunes_at_least_every_interval(prune_interval_secs: nat, interval_secs: nat)
    requires
        interval_secs >= 1,
        prune_interval_secs >= interval_secs,
    ensures
        cadence(prune_interval_secs, interval_secs) * interval_secs <= prune_interval_secs,
        prune_interval_secs < (cadence(prune_interval_secs, interval_secs) + 1) * interval_secs,
{
    let p = prune_interval_secs as int;
    let s = interval_secs as int;
    vstd::arithmetic::div_mod::lemma_fundamental_div_mod(p, s);
    vstd::arithmetic::div_mod::lemma_mod_bound(p, s);
    assert((p / s) * s <= p && p < (p / s + 1) * s) by (nonlinear_arith)
        requires
            s > 0,
            p == s * (p / s) + p % s,
            0 <= p % s < s,
    ;
}

/// A length of time in milliseconds is a thousand times that in seconds, as long
/// as that is a number there is.
pub proof fn law_milliseconds_of_seconds(secs: u64)
    ensures
        secs <= 18_446_744_073_709_551 ==> cap_ms(secs) == secs * 1000,
        secs > 18_446_744_073_709_551 ==> cap_ms(secs) == 0xffff_ffff_ffff_ffff,
{
}

/// A prune interval below the sample interval prunes after every cycle.
pub proof fn law_short_prune_intervals_prune_always(prune_interval_secs: nat, interval_secs: nat)
    requires
        prune_interval_secs < interval_secs,
    ensures
        cadence(prune_interval_secs, interval_secs) == 1,
{
}

/// A real cycle publishes what it collected at its own time, and prunes exactly
/// when none has passed since the last prune: raw samples to what their own
/// retention keeps, and trends to what theirs does.
pub proof fn law_real_cycles_prune_by_retention(
    before: Collector,
    after: Collector,
    ts_ms: u64,
    cs: Vec<model::ContainerMetrics>,
    w: Work,
    raw_ts: nat,
    trend_ts: nat,
)
    requires
        before.wf(),
        real_cycle(before, after, ts_ms, cs, w),
    ensures
        w.dashboard.generated_at_unix_ms == ts_ms,
        w.dashboard.containers@ == cs@,
        w.dashboard.cpu_count == before.cpu_count(),
        (w.prune is Some) == (before.position() == 0),
        w.prune matches Some((raw, trends)) ==> {
            &&& (raw_ts < raw) == (ts_ms - raw_ts > before.raw_retention_ms())
            &&& (trend_ts < trends) == (ts_ms - trend_ts > before.trend_retention_ms())
        },
        before.position() + 1 < before.prune_every() ==> after.position() == before.position() + 1,
        before.position() + 1 == before.prune_every() ==> after.position() == 0,
        before.tracker() is None ==> w.notes@.len() == 0,
{
}

} // verus!
