//! Trend rollups: min, max and median over fixed time buckets.
//!
//! Samples accumulate in a bucket that is aligned to the wall clock. The first
//! sample of a later bucket closes the open one and emits its rollups. The
//! median is robust against spikes; the maximum keeps the worst case.

use vstd::prelude::*;
use vstd::string::*;

use crate::{model, order, reading, store, text};

verus! {

/// The rows produced when a bucket closes; empty when no boundary was crossed.
#[derive(Debug)]
pub struct Flushed {
    pub containers: Vec<store::ContainerTrend>,
}

impl Flushed {
    /// Whether nothing was produced.
    pub fn is_empty(&self) -> (r: bool)
        ensures
            r == (self.containers@.len() == 0),
    {
        self.containers.len() == 0
    }
}

// ---------------------------------------------------------------------------
// Statistics
// ---------------------------------------------------------------------------

/// Min, max, median and count over a set of readings.
#[derive(Debug, Clone, Copy)]
pub struct Stats {
    pub min: reading::Reading,
    pub max: reading::Reading,
    pub median: store::Median,
    pub count: u32,
}

/// The median of readings in ascending order.
pub open spec fn median_of(s: Seq<reading::Reading>) -> store::Median {
    let n = s.len() as int;
    if n % 2 == 1 {
        store::Median::At(s[n / 2])
    } else {
        store::Median::Between(s[n / 2 - 1], s[n / 2])
    }
}

/// The statistics of readings in ascending order.
pub open spec fn stats_of_sorted(s: Seq<reading::Reading>) -> Stats {
    Stats {
        min: s[0],
        max: s.last(),
        median: median_of(s),
        count: if s.len() > u32::MAX {
            u32::MAX
        } else {
            s.len() as u32
        },
    }
}

/// The median of readings in ascending order, of which there is at least one.
pub fn median_of_sorted(sorted: &[reading::Reading]) -> (r: store::Median)
    requires
        sorted.len() > 0,
    ensures
        r == median_of(sorted@),
        order::ascending(sorted@) ==> halves(r, sorted@),
{
    proof {
        if order::ascending(sorted@) {
            let k = sorted@.len() / 2;
            lemma_counts_around(sorted@, k as int);
            assert(sorted@.contains(sorted@[k as int]));
            if sorted@.len() % 2 == 0 {
                lemma_counts_around(sorted@, k - 1);
                assert(sorted@.contains(sorted@[k - 1]));
            }
        }
    }
    let n: usize = sorted.len();
    if n % 2 == 1 {
        store::Median::At(sorted[n / 2])
    } else {
        store::Median::Between(sorted[n / 2 - 1], sorted[n / 2])
    }
}

impl Stats {
    /// The statistics of a set of readings; none for an empty one.
    pub fn from(values: &[reading::Reading]) -> (r: Option<Stats>)
        ensures
            r == (if values@.len() == 0 {
                None
            } else {
                Some(stats_of_sorted(order::sorted(values@)))
            }),
    {
        if values.len() == 0 {
            return None;
        }
        let mut copy: Vec<reading::Reading> = Vec::new();
        let mut i: usize = 0;
        while i < values.len()
            invariant
                i <= values.len(),
                copy@ == values@.take(i as int),
            decreases values.len() - i,
        {
            copy.push(values[i]);
            proof {
                assert(values@.take(i + 1) =~= values@.take(i as int).push(values@[i as int]));
            }
            i += 1;
        }
        proof {
            assert(values@.take(values.len() as int) =~= values@);
        }
        let sorted = order::stable_sort(copy);
        proof {
            order::law_stable_sort_is_a_permutation(values@, sorted@);
        }
        let count: u32 = if sorted.len() > 0xffff_ffff {
            u32::MAX
        } else {
            sorted.len() as u32
        };
        Some(
            Stats {
                min: sorted[0],
                max: sorted[sorted.len() - 1],
                median: median_of_sorted(sorted.as_slice()),
                count,
            },
        )
    }
}

/// Whether a minimum and a maximum bound every reading and both occur, and a
/// median lies between them.
pub open spec fn bound_the_readings(
    min: reading::Reading,
    max: reading::Reading,
    median: store::Median,
    values: Seq<reading::Reading>,
) -> bool {
    &&& values.contains(min)
    &&& values.contains(max)
    &&& forall|i: int|
        0 <= i < values.len() ==> min.rank() <= (#[trigger] values[i]).rank() <= max.rank()
    &&& match median {
        store::Median::At(m) => min.rank() <= m.rank() <= max.rank(),
        store::Median::Between(a, b) => min.rank() <= a.rank() <= b.rank() <= max.rank(),
    }
}

/// The minimum and the maximum bound every reading, and both occur; the median
/// lies between them.
pub proof fn law_stats_bound_the_readings(values: Seq<reading::Reading>)
    requires
        values.len() > 0,
    ensures
        ({
            let stats = stats_of_sorted(order::sorted(values));
            bound_the_readings(stats.min, stats.max, stats.median, values)
        }),
{
    let r = order::sorted(values);
    order::law_sorted_is_a_stable_sort(values);
    order::law_stable_sort_is_a_permutation(values, r);
    r.to_multiset_ensures();
    values.to_multiset_ensures();
    assert(r.contains(r[0]));
    assert(r.contains(r.last()));
    assert(values.to_multiset().contains(r[0]));
    assert(values.to_multiset().contains(r.last()));
    lemma_ascending_ranks(r);
    assert forall|i: int| 0 <= i < values.len() implies stats_of_sorted(r).min.rank() <= (
    #[trigger] values[i]).rank() <= stats_of_sorted(r).max.rank() by {
        assert(values.contains(values[i]));
        assert(r.to_multiset().contains(values[i]));
        assert(r.contains(values[i]));
        let k = choose|k: int| 0 <= k < r.len() && r[k] == values[i];
        assert(r[0].rank() <= r[k].rank());
        assert(r[k].rank() <= r[r.len() - 1].rank());
    }
    let n = r.len() as int;
    assert(r[0].rank() <= r[n / 2].rank());
    assert(r[n / 2].rank() <= r[n - 1].rank());
    if n % 2 == 0 {
        assert(r[0].rank() <= r[n / 2 - 1].rank());
        assert(r[n / 2 - 1].rank() <= r[n / 2].rank());
    }
}

/// How many readings rank at most like `m`.
pub open spec fn at_most(values: Seq<reading::Reading>, m: reading::Reading) -> nat {
    values.filter(|v: reading::Reading| v.rank() <= m.rank()).len()
}

/// How many readings rank at least like `m`.
pub open spec fn at_least(values: Seq<reading::Reading>, m: reading::Reading) -> nat {
    values.filter(|v: reading::Reading| v.rank() >= m.rank()).len()
}

/// How many readings rank below `m`.
pub open spec fn below(values: Seq<reading::Reading>, m: reading::Reading) -> nat {
    values.filter(|v: reading::Reading| v.rank() < m.rank()).len()
}

/// How many readings rank above `m`.
pub open spec fn above(values: Seq<reading::Reading>, m: reading::Reading) -> nat {
    values.filter(|v: reading::Reading| v.rank() > m.rank()).len()
}

/// Whether a median splits readings in half. The one median of an odd number of
/// them is a reading with at least half of the readings on either side, itself
/// counted. The two of an even number `n` are the readings that end the lower
/// half and begin the upper one: `n / 2` readings are at most the first, fewer
/// are below it, and the same holds of the second from above.
pub open spec fn halves(median: store::Median, values: Seq<reading::Reading>) -> bool {
    let n = values.len();
    match median {
        store::Median::At(m) => {
            &&& n % 2 == 1
            &&& values.contains(m)
            &&& 2 * at_most(values, m) >= n
            &&& 2 * at_least(values, m) >= n
            &&& 2 * below(values, m) < n
            &&& 2 * above(values, m) < n
        },
        store::Median::Between(a, b) => {
            &&& n % 2 == 0
            &&& values.contains(a)
            &&& values.contains(b)
            &&& 2 * at_most(values, a) >= n
            &&& 2 * below(values, a) < n
            &&& 2 * at_least(values, b) >= n
            &&& 2 * above(values, b) < n
        },
    }
}

proof fn lemma_counts_around(r: Seq<reading::Reading>, k: int)
    requires
        order::ascending(r),
        0 <= k < r.len(),
    ensures
        at_most(r, r[k]) >= k + 1,
        at_least(r, r[k]) >= r.len() - k,
        below(r, r[k]) <= k,
        above(r, r[k]) <= r.len() - k - 1,
{
    let m = r[k];
    let n = r.len() as int;
    lemma_ascending_ranks(r);
    order::lemma_filter_keeps_a_stretch(
        r,
        0,
        k + 1,
        |v: reading::Reading| v.rank() <= m.rank(),
    );
    order::lemma_filter_keeps_a_stretch(r, k, n, |v: reading::Reading| v.rank() >= m.rank());
    order::lemma_filter_keeps_only_a_stretch(r, 0, k, |v: reading::Reading| v.rank() < m.rank());
    order::lemma_filter_keeps_only_a_stretch(
        r,
        k + 1,
        n,
        |v: reading::Reading| v.rank() > m.rank(),
    );
}

proof fn lemma_counts_of_sorted(
    values: Seq<reading::Reading>,
    r: Seq<reading::Reading>,
    m: reading::Reading,
)
    requires
        values.to_multiset() == r.to_multiset(),
    ensures
        at_most(values, m) == at_most(r, m),
        at_least(values, m) == at_least(r, m),
        below(values, m) == below(r, m),
        above(values, m) == above(r, m),
{
    order::lemma_same_values_same_count(
        values,
        r,
        |v: reading::Reading| v.rank() <= m.rank(),
    );
    order::lemma_same_values_same_count(
        values,
        r,
        |v: reading::Reading| v.rank() >= m.rank(),
    );
    order::lemma_same_values_same_count(values, r, |v: reading::Reading| v.rank() < m.rank());
    order::lemma_same_values_same_count(values, r, |v: reading::Reading| v.rank() > m.rank());
}

/// The median splits the readings in half, and the count is their number.
pub proof fn law_median_halves_the_readings(values: Seq<reading::Reading>)
    requires
        values.len() > 0,
    ensures
        halves(stats_of_sorted(order::sorted(values)).median, values),
        values.len() <= 0xffff_ffff ==> stats_of_sorted(order::sorted(values)).count
            == values.len(),
        values.len() > 0xffff_ffff ==> stats_of_sorted(order::sorted(values)).count == 0xffff_ffff,
{
    let r = order::sorted(values);
    let n = values.len() as int;
    order::law_sorted_is_a_stable_sort(values);
    order::law_stable_sort_is_a_permutation(values, r);
    r.to_multiset_ensures();
    values.to_multiset_ensures();
    assert forall|k: int| 0 <= k < n implies values.contains(#[trigger] r[k]) by {
        assert(r.contains(r[k]));
        assert(values.to_multiset().contains(r[k]));
    }
    lemma_counts_around(r, n / 2);
    lemma_counts_of_sorted(values, r, r[n / 2]);
    if n % 2 == 0 {
        lemma_counts_around(r, n / 2 - 1);
        lemma_counts_of_sorted(values, r, r[n / 2 - 1]);
    }
}

proof fn lemma_ascending_ranks(r: Seq<reading::Reading>)
    requires
        order::ascending(r),
    ensures
        forall|i: int, j: int|
            0 <= i <= j < r.len() ==> (#[trigger] r[i]).rank() <= (#[trigger] r[j]).rank(),
{
    assert forall|i: int, j: int| 0 <= i <= j < r.len() implies (#[trigger] r[i]).rank() <= (
    #[trigger] r[j]).rank() by {
        if i < j {
            assert(order::Ranked::le(&r[i], &r[j]));
        }
    }
}

// ---------------------------------------------------------------------------
// What a bucket accumulates
// ---------------------------------------------------------------------------

/// The readings of one metric of one container in the open bucket.
#[verifier::ext_equal]
pub struct Acc {
    pub id: Seq<char>,
    pub metric: store::Metric,
    pub name: Seq<char>,
    pub stack: Option<Seq<char>>,
    pub values: Seq<reading::Reading>,
}

/// The place of a container's metric: its index, or the length.
pub open spec fn slot(accs: Seq<Acc>, id: Seq<char>, metric: store::Metric) -> int
    decreases accs.len(),
{
    if accs.len() == 0 {
        0
    } else if accs[0].id == id && accs[0].metric == metric {
        0
    } else {
        1 + slot(accs.skip(1), id, metric)
    }
}

/// The bucket with one more reading. The name and the stack are those of the
/// first reading.
pub open spec fn with_value(
    accs: Seq<Acc>,
    c: model::ContainerMetrics,
    metric: store::Metric,
    value: reading::Reading,
) -> Seq<Acc> {
    let i = slot(accs, c.id@, metric);
    if i < accs.len() {
        accs.update(i, Acc { values: accs[i].values.push(value), ..accs[i] })
    } else {
        accs.push(
            Acc {
                id: c.id@,
                metric,
                name: c.name@,
                stack: text::opt_view(c.stack),
                values: seq![value],
            },
        )
    }
}

/// The bucket with one more reading, if there is one.
pub open spec fn with_reading(
    accs: Seq<Acc>,
    c: model::ContainerMetrics,
    metric: store::Metric,
    value: Option<reading::Reading>,
) -> Seq<Acc> {
    match value {
        Some(v) => with_value(accs, c, metric, v),
        None => accs,
    }
}

/// A byte count as a reading.
pub open spec fn count_reading(n: Option<u64>) -> Option<reading::Reading> {
    match n {
        Some(n) => Some(reading::Reading::count(n as nat)),
        None => None,
    }
}

/// The bucket with the readings of one container.
pub open spec fn with_container(accs: Seq<Acc>, c: model::ContainerMetrics) -> Seq<Acc> {
    let a = with_reading(accs, c, store::Metric::Cpu, c.cpu_percent);
    let a = with_reading(a, c, store::Metric::Mem, count_reading(c.mem_used));
    let a = with_reading(a, c, store::Metric::NetRx, c.net_rx_bps);
    let a = with_reading(a, c, store::Metric::NetTx, c.net_tx_bps);
    let a = with_reading(a, c, store::Metric::DiskRead, c.disk_read_bps);
    with_reading(a, c, store::Metric::DiskWrite, c.disk_write_bps)
}

/// The bucket with the readings of one cycle.
pub open spec fn with_cycle(accs: Seq<Acc>, cs: Seq<model::ContainerMetrics>) -> Seq<Acc>
    decreases cs.len(),
{
    if cs.len() == 0 {
        accs
    } else {
        with_container(with_cycle(accs, cs.drop_last()), cs.last())
    }
}

/// The start of the bucket that a point in time belongs to.
pub open spec fn bucket_start(ts: int, width: int) -> int {
    ts - ts % width
}

/// Whether a row is the rollup of what a bucket accumulated.
pub open spec fn rolls_up(
    row: store::ContainerTrend,
    acc: Acc,
    start: int,
    width: int,
    host: Seq<char>,
) -> bool {
    let stats = stats_of_sorted(order::sorted(acc.values));
    &&& row.bucket_start_ms == start
    &&& row.bucket_secs == width / 1000
    &&& row.host@ == host
    &&& row.id@ == acc.id
    &&& row.name@ == acc.name
    &&& text::opt_view(row.stack) == acc.stack
    &&& row.metric@ == store::metric_name(acc.metric)
    &&& row.min == stats.min
    &&& row.max == stats.max
    &&& row.median == stats.median
    &&& row.samples == stats.count
}

/// The minimum and the maximum of a rollup bound every reading of its bucket, and
/// both occur; its median lies between them.
pub proof fn law_rollups_bound_the_readings(
    row: store::ContainerTrend,
    acc: Acc,
    start: int,
    width: int,
    host: Seq<char>,
)
    requires
        rolls_up(row, acc, start, width, host),
        acc.values.len() > 0,
    ensures
        bound_the_readings(row.min, row.max, row.median, acc.values),
        halves(row.median, acc.values),
        acc.values.len() <= 0xffff_ffff ==> row.samples == acc.values.len(),
        row.id@ == acc.id,
        row.metric@ == store::metric_name(acc.metric),
        row.host@ == host,
        row.bucket_start_ms == start,
        width % 1000 == 0 ==> row.bucket_secs * 1000 == width,
{
    law_stats_bound_the_readings(acc.values);
    law_median_halves_the_readings(acc.values);
}

/// Whether rows are the rollups of a bucket, in order.
pub open spec fn all_roll_up(
    rows: Seq<store::ContainerTrend>,
    accs: Seq<Acc>,
    start: int,
    width: int,
    host: Seq<char>,
) -> bool {
    &&& rows.len() == accs.len()
    &&& forall|i: int|
        0 <= i < rows.len() ==> rolls_up(#[trigger] rows[i], accs[i], start, width, host)
}

/// Accumulated readings hold at least one value each.
pub open spec fn none_empty(accs: Seq<Acc>) -> bool {
    forall|i: int| 0 <= i < accs.len() ==> (#[trigger] accs[i]).values.len() > 0
}

struct ContainerAcc {
    id: String,
    metric: store::Metric,
    name: String,
    stack: Option<String>,
    values: Vec<reading::Reading>,
}

impl ContainerAcc {
    spec fn acc(self) -> Acc {
        Acc {
            id: self.id@,
            metric: self.metric,
            name: self.name@,
            stack: text::opt_view(self.stack),
            values: self.values@,
        }
    }
}

spec fn acc_views(s: Seq<ContainerAcc>) -> Seq<Acc> {
    s.map_values(|a: ContainerAcc| a.acc())
}

proof fn lemma_slot_is(accs: Seq<Acc>, id: Seq<char>, metric: store::Metric, k: int)
    requires
        0 <= k <= accs.len(),
        forall|j: int|
            0 <= j < k ==> !((#[trigger] accs[j]).id == id && accs[j].metric == metric),
        k < accs.len() ==> accs[k].id == id && accs[k].metric == metric,
    ensures
        slot(accs, id, metric) == k,
    decreases accs.len(),
{
    if accs.len() > 0 && k > 0 {
        assert(!(accs[0].id == id && accs[0].metric == metric));
        let t = accs.skip(1);
        assert forall|j: int| 0 <= j < k - 1 implies !((#[trigger] t[j]).id == id && t[j].metric
            == metric) by {
            assert(t[j] == accs[j + 1]);
        }
        lemma_slot_is(t, id, metric, k - 1);
    }
}

// ---------------------------------------------------------------------------
// The bucketer
// ---------------------------------------------------------------------------

/// Accumulates samples and emits rollups at bucket boundaries.
pub struct Bucketer {
    bucket_ms: u64,
    host: String,
    current_start: Option<u64>,
    containers: Vec<ContainerAcc>,
}

/// What feeding one cycle does: the rollups of the open bucket come out when
/// the cycle belongs to a later one, and the cycle's readings go in.
pub open spec fn pushed(
    before: Bucketer,
    after: Bucketer,
    ts_ms: u64,
    cs: Seq<model::ContainerMetrics>,
    rows: Seq<store::ContainerTrend>,
) -> bool {
    let start = bucket_start(ts_ms as int, before.width());
    let closes = before.current() matches Some(cur) && start > cur;
    &&& after.width() == before.width()
    &&& after.host() == before.host()
    &&& if closes {
        &&& all_roll_up(
            rows,
            before.accs(),
            before.current()->0 as int,
            before.width(),
            before.host(),
        )
        &&& after.accs() == with_cycle(Seq::empty(), cs)
    } else {
        &&& rows.len() == 0
        &&& after.accs() == with_cycle(before.accs(), cs)
    }
    &&& after.current() == (if closes || before.current() is None {
        Some(start as u64)
    } else {
        before.current()
    })
}

impl Bucketer {
    /// Width of a bucket, in milliseconds.
    pub closed spec fn width(&self) -> int {
        self.bucket_ms as int
    }

    /// The host that rows are stamped with.
    pub closed spec fn host(&self) -> Seq<char> {
        self.host@
    }

    /// Start of the bucket that is filling.
    pub closed spec fn current(&self) -> Option<u64> {
        self.current_start
    }

    /// What the open bucket has accumulated.
    pub closed spec fn accs(&self) -> Seq<Acc> {
        acc_views(self.containers@)
    }

    /// A bucket has a width, and holds no empty list of readings.
    pub open spec fn wf(&self) -> bool {
        self.width() > 0 && none_empty(self.accs())
    }

    /// A bucketer for `host` with buckets of at least one second.
    pub fn for_host(bucket_secs: u64, host: String) -> (r: Self)
        requires
            bucket_secs * 1000 <= u64::MAX,
        ensures
            r.wf(),
            r.width() == (if bucket_secs == 0 {
                1000
            } else {
                bucket_secs * 1000
            }),
            r.host() == host@,
            r.current() is None,
            r.accs() == Seq::<Acc>::empty(),
    {
        let secs: u64 = if bucket_secs == 0 {
            1
        } else {
            bucket_secs
        };
        let r = Bucketer {
            bucket_ms: secs * 1000,
            host,
            current_start: None,
            containers: Vec::new(),
        };
        proof {
            assert(r.accs() =~= Seq::<Acc>::empty());
        }
        r
    }

    /// A bucketer for the one host of a single-host setup.
    pub fn new(bucket_secs: u64) -> (r: Self)
        requires
            bucket_secs * 1000 <= u64::MAX,
        ensures
            r.wf(),
            r.width() == (if bucket_secs == 0 {
                1000
            } else {
                bucket_secs * 1000
            }),
            r.host() == "local"@,
            r.current() is None,
            r.accs() == Seq::<Acc>::empty(),
    {
        Self::for_host(bucket_secs, "local".to_owned())
    }

    /// Feed one collection cycle. Returns the rollups of the previous bucket if
    /// the cycle belongs to a later one, and nothing otherwise.
    pub fn push(&mut self, ts_ms: u64, containers: &[model::ContainerMetrics]) -> (r: Flushed)
        requires
            old(self).wf(),
        ensures
            final(self).wf(),
            pushed(*old(self), *final(self), ts_ms, containers@, r.containers@),
    {
        let past: u64 = ts_ms % self.bucket_ms;
        proof {
            vstd::arithmetic::div_mod::lemma_mod_decreases(ts_ms as nat, self.bucket_ms as nat);
        }
        let start: u64 = ts_ms - past;
        let flushed = match self.current_start {
            Some(cur) => if start > cur {
                let out = self.close(cur);
                self.current_start = Some(start);
                out
            } else {
                Flushed { containers: Vec::new() }
            },
            None => {
                self.current_start = Some(start);
                Flushed { containers: Vec::new() }
            },
        };
        let ghost base = self.accs();
        let ghost width = self.width();
        let ghost host = self.host();
        let ghost current = self.current();
        let mut i: usize = 0;
        proof {
            assert(containers@.take(0) =~= Seq::empty());
        }
        while i < containers.len()
            invariant
                i <= containers.len(),
                self.wf(),
                self.width() == width,
                self.host() == host,
                self.current() == current,
                self.accs() == with_cycle(base, containers@.take(i as int)),
            decreases containers.len() - i,
        {
            let c = &containers[i];
            proof {
                assert(containers@.take(i + 1).drop_last() =~= containers@.take(i as int));
                assert(containers@.take(i + 1).last() == *c);
            }
            self.add_reading(c, store::Metric::Cpu, c.cpu_percent);
            self.add_count(c, store::Metric::Mem, c.mem_used);
            self.add_reading(c, store::Metric::NetRx, c.net_rx_bps);
            self.add_reading(c, store::Metric::NetTx, c.net_tx_bps);
            self.add_reading(c, store::Metric::DiskRead, c.disk_read_bps);
            self.add_reading(c, store::Metric::DiskWrite, c.disk_write_bps);
            i += 1;
        }
        proof {
            assert(containers@.take(containers.len() as int) =~= containers@);
        }
        flushed
    }

    fn add_count(&mut self, c: &model::ContainerMetrics, metric: store::Metric, n: Option<u64>)
        requires
            old(self).wf(),
        ensures
            final(self).wf(),
            final(self).width() == old(self).width(),
            final(self).host() == old(self).host(),
            final(self).current() == old(self).current(),
            final(self).accs() == with_reading(old(self).accs(), *c, metric, count_reading(n)),
    {
        match n {
            Some(bytes) => {
                let v = reading::Reading::of_count(bytes);
                self.add_reading(c, metric, Some(v));
            },
            None => {},
        }
    }

    fn add_reading(
        &mut self,
        c: &model::ContainerMetrics,
        metric: store::Metric,
        value: Option<reading::Reading>,
    )
        requires
            old(self).wf(),
        ensures
            final(self).wf(),
            final(self).width() == old(self).width(),
            final(self).host() == old(self).host(),
            final(self).current() == old(self).current(),
            final(self).accs() == with_reading(old(self).accs(), *c, metric, value),
    {
        let v = match value {
            Some(v) => v,
            None => {
                return ;
            },
        };
        let ghost before = self.accs();
        let mut i: usize = 0;
        while i < self.containers.len()
            invariant
                i <= self.containers.len(),
                *self == *old(self),
                old(self).wf(),
                value == Some(v),
                before == self.accs(),
                forall|j: int|
                    0 <= j < i ==> !((#[trigger] before[j]).id == c.id@ && before[j].metric
                        == metric),
            decreases self.containers.len() - i,
        {
            if self.containers[i].metric == metric && text::same(
                self.containers[i].id.as_str(),
                c.id.as_str(),
            ) {
                proof {
                    assert(before[i as int] == self.containers[i as int].acc());
                    lemma_slot_is(before, c.id@, metric, i as int);
                }
                self.containers[i].values.push(v);
                proof {
                    assert(self.accs() =~= before.update(
                        i as int,
                        Acc { values: before[i as int].values.push(v), ..before[i as int] },
                    ));
                    assert(self.accs() == with_reading(before, *c, metric, value));
                }
                return ;
            }
            i += 1;
        }
        proof {
            lemma_slot_is(before, c.id@, metric, before.len() as int);
        }
        let mut values: Vec<reading::Reading> = Vec::new();
        values.push(v);
        self.containers.push(
            ContainerAcc {
                id: c.id.clone(),
                metric,
                name: c.name.clone(),
                stack: text::copy_opt(&c.stack),
                values,
            },
        );
        proof {
            assert(self.accs() =~= with_value(before, *c, metric, v));
        }
    }

    /// Close the bucket that starts at `start`: drain it into rows.
    fn close(&mut self, start: u64) -> (out: Flushed)
        requires
            old(self).wf(),
        ensures
            final(self).wf(),
            final(self).width() == old(self).width(),
            final(self).host() == old(self).host(),
            final(self).current() == old(self).current(),
            final(self).accs() == Seq::<Acc>::empty(),
            all_roll_up(
                out.containers@,
                old(self).accs(),
                start as int,
                old(self).width(),
                old(self).host(),
            ),
    {
        let ghost before = self.accs();
        let bucket_secs: u64 = self.bucket_ms / 1000;
        let mut rows: Vec<store::ContainerTrend> = Vec::new();
        let mut i: usize = 0;
        while i < self.containers.len()
            invariant
                i <= self.containers.len(),
                *self == *old(self),
                before == self.accs(),
                none_empty(before),
                bucket_secs == self.width() / 1000,
                rows.len() == i,
                forall|j: int|
                    0 <= j < i ==> rolls_up(
                        #[trigger] rows[j],
                        before[j],
                        start as int,
                        self.width(),
                        self.host(),
                    ),
            decreases self.containers.len() - i,
        {
            let acc = &self.containers[i];
            proof {
                assert(before[i as int] == acc.acc());
                assert(before[i as int].values.len() > 0);
            }
            if let Some(stats) = Stats::from(acc.values.as_slice()) {
                rows.push(
                    store::ContainerTrend {
                        bucket_start_ms: start,
                        bucket_secs,
                        host: self.host.clone(),
                        id: acc.id.clone(),
                        name: acc.name.clone(),
                        stack: text::copy_opt(&acc.stack),
                        metric: acc.metric.as_str(),
                        min: stats.min,
                        max: stats.max,
                        median: stats.median,
                        samples: stats.count,
                    },
                );
            }
            i += 1;
        }
        self.containers = Vec::new();
        proof {
            assert(self.accs() =~= Seq::<Acc>::empty());
        }
        Flushed { containers: rows }
    }
}

// ---------------------------------------------------------------------------
// Laws
// ---------------------------------------------------------------------------

/// The reading of one metric in a container's metrics.
pub open spec fn metric_reading(c: model::ContainerMetrics, metric: store::Metric) -> Option<
    reading::Reading,
> {
    match metric {
        store::Metric::Cpu => c.cpu_percent,
        store::Metric::Mem => count_reading(c.mem_used),
        store::Metric::NetRx => c.net_rx_bps,
        store::Metric::NetTx => c.net_tx_bps,
        store::Metric::DiskRead => c.disk_read_bps,
        store::Metric::DiskWrite => c.disk_write_bps,
    }
}

/// The readings of one metric of one container in a cycle, in order.
pub open spec fn cycle_readings(
    cs: Seq<model::ContainerMetrics>,
    id: Seq<char>,
    metric: store::Metric,
) -> Seq<reading::Reading>
    decreases cs.len(),
{
    if cs.len() == 0 {
        Seq::empty()
    } else {
        let before = cycle_readings(cs.drop_last(), id, metric);
        match metric_reading(cs.last(), metric) {
            Some(v) => if cs.last().id@ == id {
                before.push(v)
            } else {
                before
            },
            None => before,
        }
    }
}

/// What a bucket holds of one metric of one container.
pub open spec fn held(accs: Seq<Acc>, id: Seq<char>, metric: store::Metric) -> Seq<
    reading::Reading,
> {
    let i = slot(accs, id, metric);
    if i < accs.len() {
        accs[i].values
    } else {
        Seq::empty()
    }
}

/// Whether no two entries are of the same container and metric.
pub open spec fn distinct_slots(accs: Seq<Acc>) -> bool {
    forall|i: int, j: int|
        0 <= i < j < accs.len() ==> !((#[trigger] accs[i]).id == (#[trigger] accs[j]).id
            && accs[i].metric == accs[j].metric)
}

/// A slot is the first entry of its container and metric.
proof fn lemma_slot(accs: Seq<Acc>, id: Seq<char>, metric: store::Metric)
    ensures
        0 <= slot(accs, id, metric) <= accs.len(),
        slot(accs, id, metric) < accs.len() ==> accs[slot(accs, id, metric)].id == id && accs[slot(
            accs,
            id,
            metric,
        )].metric == metric,
        forall|j: int|
            0 <= j < slot(accs, id, metric) ==> !((#[trigger] accs[j]).id == id && accs[j].metric
                == metric),
    decreases accs.len(),
{
    if accs.len() > 0 && !(accs[0].id == id && accs[0].metric == metric) {
        let t = accs.skip(1);
        lemma_slot(t, id, metric);
        let k = slot(t, id, metric);
        if k < t.len() {
            assert(accs[k + 1] == t[k]);
        }
        assert forall|j: int| 0 <= j < k + 1 implies !((#[trigger] accs[j]).id == id
            && accs[j].metric == metric) by {
            if j > 0 {
                assert(t[j - 1] == accs[j]);
            }
        }
    }
}

/// One more reading is held under its own container and metric only.
proof fn lemma_with_value(
    accs: Seq<Acc>,
    c: model::ContainerMetrics,
    m: store::Metric,
    v: reading::Reading,
    id: Seq<char>,
    metric: store::Metric,
)
    ensures
        held(with_value(accs, c, m, v), id, metric) == (if c.id@ == id && m == metric {
            held(accs, id, metric).push(v)
        } else {
            held(accs, id, metric)
        }),
        distinct_slots(accs) ==> distinct_slots(with_value(accs, c, m, v)),
{
    let out = with_value(accs, c, m, v);
    let s = slot(accs, c.id@, m);
    let k = slot(accs, id, metric);
    lemma_slot(accs, c.id@, m);
    lemma_slot(accs, id, metric);
    assert forall|j: int| 0 <= j < accs.len() implies (#[trigger] out[j]).id == accs[j].id
        && out[j].metric == accs[j].metric by {}
    if k < accs.len() {
        lemma_slot_is(out, id, metric, k);
    } else if c.id@ == id && m == metric {
        lemma_slot_is(out, id, metric, accs.len() as int);
        assert(held(out, id, metric) =~= Seq::<reading::Reading>::empty().push(v));
    } else {
        lemma_slot_is(out, id, metric, out.len() as int);
    }
    if distinct_slots(accs) {
        assert forall|i: int, j: int| 0 <= i < j < out.len() implies !((#[trigger] out[i]).id == (
        #[trigger] out[j]).id && out[i].metric == out[j].metric) by {
            if j < accs.len() {
                assert(!(accs[i].id == accs[j].id && accs[i].metric == accs[j].metric));
            }
        }
    }
}

proof fn lemma_with_reading(
    accs: Seq<Acc>,
    c: model::ContainerMetrics,
    m: store::Metric,
    v: Option<reading::Reading>,
    id: Seq<char>,
    metric: store::Metric,
)
    ensures
        held(with_reading(accs, c, m, v), id, metric) == (match v {
            Some(x) => if c.id@ == id && m == metric {
                held(accs, id, metric).push(x)
            } else {
                held(accs, id, metric)
            },
            None => held(accs, id, metric),
        }),
        distinct_slots(accs) ==> distinct_slots(with_reading(accs, c, m, v)),
{
    if let Some(x) = v {
        lemma_with_value(accs, c, m, x, id, metric);
    }
}

/// Every reading of a cycle ends up in the bucket, in order, under its own
/// container and metric, and nothing else does. No container and metric ever
/// has two entries, so each yields one rollup.
pub proof fn law_bucket_holds_every_reading(
    accs: Seq<Acc>,
    cs: Seq<model::ContainerMetrics>,
    id: Seq<char>,
    metric: store::Metric,
)
    ensures
        held(with_cycle(accs, cs), id, metric) == held(accs, id, metric) + cycle_readings(
            cs,
            id,
            metric,
        ),
        distinct_slots(accs) ==> distinct_slots(with_cycle(accs, cs)),
    decreases cs.len(),
{
    if cs.len() == 0 {
        assert(held(accs, id, metric) + cycle_readings(cs, id, metric) =~= held(accs, id, metric));
    } else {
        let c = cs.last();
        law_bucket_holds_every_reading(accs, cs.drop_last(), id, metric);
        let a0 = with_cycle(accs, cs.drop_last());
        let a1 = with_reading(a0, c, store::Metric::Cpu, c.cpu_percent);
        let a2 = with_reading(a1, c, store::Metric::Mem, count_reading(c.mem_used));
        let a3 = with_reading(a2, c, store::Metric::NetRx, c.net_rx_bps);
        let a4 = with_reading(a3, c, store::Metric::NetTx, c.net_tx_bps);
        let a5 = with_reading(a4, c, store::Metric::DiskRead, c.disk_read_bps);
        lemma_with_reading(a0, c, store::Metric::Cpu, c.cpu_percent, id, metric);
        lemma_with_reading(a1, c, store::Metric::Mem, count_reading(c.mem_used), id, metric);
        lemma_with_reading(a2, c, store::Metric::NetRx, c.net_rx_bps, id, metric);
        lemma_with_reading(a3, c, store::Metric::NetTx, c.net_tx_bps, id, metric);
        lemma_with_reading(a4, c, store::Metric::DiskRead, c.disk_read_bps, id, metric);
        lemma_with_reading(a5, c, store::Metric::DiskWrite, c.disk_write_bps, id, metric);
        assert(held(with_cycle(accs, cs), id, metric) =~= held(accs, id, metric) + cycle_readings(
            cs,
            id,
            metric,
        ));
    }
}

/// A bucket is aligned to its width, and holds the point in time it is that of.
pub proof fn law_buckets_are_aligned(ts: int, width: int)
    requires
        width > 0,
        ts >= 0,
    ensures
        bucket_start(ts, width) % width == 0,
        0 <= bucket_start(ts, width) <= ts < bucket_start(ts, width) + width,
{
    vstd::arithmetic::div_mod::lemma_fundamental_div_mod(ts, width);
    vstd::arithmetic::div_mod::lemma_mod_bound(ts, width);
    vstd::arithmetic::div_mod::lemma_div_pos_is_pos(ts, width);
    assert(bucket_start(ts, width) == width * (ts / width));
    vstd::arithmetic::div_mod::lemma_mod_multiples_basic(ts / width, width);
    vstd::arithmetic::mul::lemma_mul_is_commutative(ts / width, width);
    vstd::arithmetic::mul::lemma_mul_nonnegative(ts / width, width);
}

proof fn lemma_later_bucket(ts: int, cur: int, width: int)
    requires
        width > 0,
        ts >= 0,
        cur >= 0,
        cur % width == 0,
    ensures
        (bucket_start(ts, width) > cur) == (ts >= cur + width),
{
    law_buckets_are_aligned(ts, width);
    let start = bucket_start(ts, width);
    vstd::arithmetic::div_mod::lemma_fundamental_div_mod(start, width);
    vstd::arithmetic::div_mod::lemma_fundamental_div_mod(cur, width);
    let a = start / width;
    let b = cur / width;
    assert(start == width * a && cur == width * b);
    assert((start > cur) ==> (start >= cur + width)) by (nonlinear_arith)
        requires
            start == width * a,
            cur == width * b,
            width > 0,
    ;
}

/// A cycle that still lies in the open bucket yields no row and adds its readings
/// to those that the bucket holds. The first cycle past the end of the bucket
/// yields one row for each container and metric that the bucket holds, with the
/// minimum, the maximum, the median and the number of the held readings, and
/// begins a new bucket, aligned to the width, with its own readings alone.
pub proof fn law_bucket_closes_at_its_end(
    before: Bucketer,
    after: Bucketer,
    ts_ms: u64,
    cs: Seq<model::ContainerMetrics>,
    rows: Seq<store::ContainerTrend>,
    cur: u64,
    id: Seq<char>,
    metric: store::Metric,
)
    requires
        pushed(before, after, ts_ms, cs, rows),
        before.wf(),
        before.current() == Some(cur),
        cur as int % before.width() == 0,
    ensures
        ts_ms < cur + before.width() ==> {
            &&& rows.len() == 0
            &&& after.current() == Some(cur)
            &&& held(after.accs(), id, metric) == held(before.accs(), id, metric) + cycle_readings(
                cs,
                id,
                metric,
            )
        },
        ts_ms >= cur + before.width() ==> {
            &&& rows.len() == before.accs().len()
            &&& forall|i: int|
                0 <= i < rows.len() ==> {
                    &&& (#[trigger] rows[i]).id@ == before.accs()[i].id
                    &&& rows[i].metric@ == store::metric_name(before.accs()[i].metric)
                    &&& rows[i].bucket_start_ms == cur
                    &&& rows[i].host@ == before.host()
                    &&& halves(rows[i].median, before.accs()[i].values)
                    &&& bound_the_readings(
                        rows[i].min,
                        rows[i].max,
                        rows[i].median,
                        before.accs()[i].values,
                    )
                }
            &&& held(after.accs(), id, metric) == cycle_readings(cs, id, metric)
            &&& after.current() matches Some(next) && next as int % before.width() == 0 && next
                <= ts_ms < next + before.width()
        },
{
    let width = before.width();
    lemma_later_bucket(ts_ms as int, cur as int, width);
    law_buckets_are_aligned(ts_ms as int, width);
    law_bucket_holds_every_reading(before.accs(), cs, id, metric);
    law_bucket_holds_every_reading(Seq::empty(), cs, id, metric);
    assert(held(Seq::<Acc>::empty(), id, metric) + cycle_readings(cs, id, metric)
        =~= cycle_readings(cs, id, metric));
    if ts_ms >= cur + width {
        assert forall|i: int| 0 <= i < rows.len() implies (#[trigger] rows[i]).id@
            == before.accs()[i].id && rows[i].metric@ == store::metric_name(
            before.accs()[i].metric,
        ) && rows[i].bucket_start_ms == cur && rows[i].host@ == before.host() && halves(
            rows[i].median,
            before.accs()[i].values,
        ) && bound_the_readings(
            rows[i].min,
            rows[i].max,
            rows[i].median,
            before.accs()[i].values,
        ) by {
            assert(before.accs()[i].values.len() > 0);
            law_rollups_bound_the_readings(
                rows[i],
                before.accs()[i],
                cur as int,
                width,
                before.host(),
            );
        }
    }
}

/// The first cycle opens the bucket that its time lies in.
pub proof fn law_first_cycle_opens_its_bucket(
    before: Bucketer,
    after: Bucketer,
    ts_ms: u64,
    cs: Seq<model::ContainerMetrics>,
    rows: Seq<store::ContainerTrend>,
)
    requires
        pushed(before, after, ts_ms, cs, rows),
        before.wf(),
        before.current() is None,
    ensures
        rows.len() == 0,
        after.current() matches Some(cur) && cur as int % before.width() == 0 && cur <= ts_ms < cur
            + before.width(),
{
    law_buckets_are_aligned(ts_ms as int, before.width());
}

/// Whether the name and the stack of an entry are those of a container under its
/// id.
pub open spec fn names_one_of(acc: Acc, cs: Seq<model::ContainerMetrics>) -> bool {
    exists|i: int|
        0 <= i < cs.len() && (#[trigger] cs[i]).id@ == acc.id && cs[i].name@ == acc.name
            && text::opt_view(cs[i].stack) == acc.stack
}

proof fn lemma_reading_keeps_names(
    accs: Seq<Acc>,
    c: model::ContainerMetrics,
    m: store::Metric,
    v: Option<reading::Reading>,
    cs: Seq<model::ContainerMetrics>,
)
    requires
        cs.contains(c),
        forall|k: int| 0 <= k < accs.len() ==> names_one_of(#[trigger] accs[k], cs),
    ensures
        forall|k: int|
            0 <= k < with_reading(accs, c, m, v).len() ==> names_one_of(
                #[trigger] with_reading(accs, c, m, v)[k],
                cs,
            ),
{
    let out = with_reading(accs, c, m, v);
    lemma_slot(accs, c.id@, m);
    assert forall|k: int| 0 <= k < out.len() implies names_one_of(#[trigger] out[k], cs) by {
        if k < accs.len() {
            assert(names_one_of(accs[k], cs));
            let i = choose|i: int|
                0 <= i < cs.len() && (#[trigger] cs[i]).id@ == accs[k].id && cs[i].name@
                    == accs[k].name && text::opt_view(cs[i].stack) == accs[k].stack;
            assert(cs[i].id@ == out[k].id);
        } else {
            let i = choose|i: int| 0 <= i < cs.len() && cs[i] == c;
            assert(cs[i].id@ == out[k].id);
        }
    }
}

/// What a new bucket holds carries the name and the stack of a container of the
/// cycle under the same id.
pub proof fn law_entries_name_their_container(cs: Seq<model::ContainerMetrics>, k: int)
    requires
        0 <= k < with_cycle(Seq::empty(), cs).len(),
    ensures
        names_one_of(with_cycle(Seq::empty(), cs)[k], cs),
{
    lemma_cycle_names(cs, cs.len() as int);
    assert(cs.take(cs.len() as int) =~= cs);
}

proof fn lemma_cycle_names(cs: Seq<model::ContainerMetrics>, n: int)
    requires
        0 <= n <= cs.len(),
    ensures
        forall|k: int|
            0 <= k < with_cycle(Seq::empty(), cs.take(n)).len() ==> names_one_of(
                #[trigger] with_cycle(Seq::empty(), cs.take(n))[k],
                cs,
            ),
    decreases n,
{
    if n > 0 {
        lemma_cycle_names(cs, n - 1);
        assert(cs.take(n).drop_last() =~= cs.take(n - 1));
        let c = cs[n - 1];
        assert(cs.take(n).last() == c);
        assert(cs.contains(c));
        let a0 = with_cycle(Seq::empty(), cs.take(n - 1));
        let a1 = with_reading(a0, c, store::Metric::Cpu, c.cpu_percent);
        let a2 = with_reading(a1, c, store::Metric::Mem, count_reading(c.mem_used));
        let a3 = with_reading(a2, c, store::Metric::NetRx, c.net_rx_bps);
        let a4 = with_reading(a3, c, store::Metric::NetTx, c.net_tx_bps);
        let a5 = with_reading(a4, c, store::Metric::DiskRead, c.disk_read_bps);
        lemma_reading_keeps_names(a0, c, store::Metric::Cpu, c.cpu_percent, cs);
        lemma_reading_keeps_names(a1, c, store::Metric::Mem, count_reading(c.mem_used), cs);
        lemma_reading_keeps_names(a2, c, store::Metric::NetRx, c.net_rx_bps, cs);
        lemma_reading_keeps_names(a3, c, store::Metric::NetTx, c.net_tx_bps, cs);
        lemma_reading_keeps_names(a4, c, store::Metric::DiskRead, c.disk_read_bps, cs);
        lemma_reading_keeps_names(a5, c, store::Metric::DiskWrite, c.disk_write_bps, cs);
    } else {
        assert(cs.take(0) =~= Seq::empty());
    }
}

/// Whether what a bucket holds is still there, in its place and under the same
/// names.
pub open spec fn keeps_names(before: Seq<Acc>, after: Seq<Acc>) -> bool {
    &&& after.len() >= before.len()
    &&& forall|k: int|
        0 <= k < before.len() ==> {
            &&& (#[trigger] after[k]).id == before[k].id
            &&& after[k].metric == before[k].metric
            &&& after[k].name == before[k].name
            &&& after[k].stack == before[k].stack
        }
}

proof fn lemma_reading_keeps_first_names(
    start: Seq<Acc>,
    accs: Seq<Acc>,
    c: model::ContainerMetrics,
    m: store::Metric,
    v: Option<reading::Reading>,
)
    requires
        keeps_names(start, accs),
    ensures
        keeps_names(start, with_reading(accs, c, m, v)),
{
    lemma_slot(accs, c.id@, m);
}

/// What a bucket holds keeps its place, its container and its metric, and the name
/// and the stack that it was first seen with, however many readings follow.
pub proof fn law_entries_keep_their_first_name(accs: Seq<Acc>, cs: Seq<model::ContainerMetrics>)
    ensures
        keeps_names(accs, with_cycle(accs, cs)),
    decreases cs.len(),
{
    if cs.len() > 0 {
        let c = cs.last();
        law_entries_keep_their_first_name(accs, cs.drop_last());
        let a0 = with_cycle(accs, cs.drop_last());
        let a1 = with_reading(a0, c, store::Metric::Cpu, c.cpu_percent);
        let a2 = with_reading(a1, c, store::Metric::Mem, count_reading(c.mem_used));
        let a3 = with_reading(a2, c, store::Metric::NetRx, c.net_rx_bps);
        let a4 = with_reading(a3, c, store::Metric::NetTx, c.net_tx_bps);
        let a5 = with_reading(a4, c, store::Metric::DiskRead, c.disk_read_bps);
        lemma_reading_keeps_first_names(accs, a0, c, store::Metric::Cpu, c.cpu_percent);
        lemma_reading_keeps_first_names(
            accs,
            a1,
            c,
            store::Metric::Mem,
            count_reading(c.mem_used),
        );
        lemma_reading_keeps_first_names(accs, a2, c, store::Metric::NetRx, c.net_rx_bps);
        lemma_reading_keeps_first_names(accs, a3, c, store::Metric::NetTx, c.net_tx_bps);
        lemma_reading_keeps_first_names(accs, a4, c, store::Metric::DiskRead, c.disk_read_bps);
        lemma_reading_keeps_first_names(accs, a5, c, store::Metric::DiskWrite, c.disk_write_bps);
    }
}

/// A cycle adds to each metric what the container reports under that name; memory
/// counts in bytes.
pub proof fn law_cycles_add_what_containers_report(c: model::ContainerMetrics)
    ensures
        cycle_readings(seq![c], c.id@, store::Metric::Cpu) == (match c.cpu_percent {
            Some(v) => seq![v],
            None => Seq::empty(),
        }),
        cycle_readings(seq![c], c.id@, store::Metric::Mem) == (match c.mem_used {
            Some(n) => seq![reading::Reading::count(n as nat)],
            None => Seq::empty(),
        }),
        cycle_readings(seq![c], c.id@, store::Metric::NetRx) == (match c.net_rx_bps {
            Some(v) => seq![v],
            None => Seq::empty(),
        }),
        cycle_readings(seq![c], c.id@, store::Metric::NetTx) == (match c.net_tx_bps {
            Some(v) => seq![v],
            None => Seq::empty(),
        }),
        cycle_readings(seq![c], c.id@, store::Metric::DiskRead) == (match c.disk_read_bps {
            Some(v) => seq![v],
            None => Seq::empty(),
        }),
        cycle_readings(seq![c], c.id@, store::Metric::DiskWrite) == (match c.disk_write_bps {
            Some(v) => seq![v],
            None => Seq::empty(),
        }),
{
    reveal_with_fuel(cycle_readings, 2);
    assert(seq![c].drop_last() =~= Seq::<model::ContainerMetrics>::empty());
    assert(seq![c].last() == c);
    let none = Seq::<reading::Reading>::empty();
    assert forall|v: reading::Reading| #[trigger] none.push(v) == seq![v] by {
        assert(none.push(v) =~= seq![v]);
    }
}

} // verus!
