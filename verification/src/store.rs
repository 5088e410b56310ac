//! What the store keeps: rows, points, and the SQL that reads and writes them.
//!
//! Two layers of data: raw samples, kept for a short time, and trends, the
//! min/max/median rollups of a time bucket, kept long. Executing the SQL is the
//! caller's part; every row goes in and comes out as plain values.

use vstd::prelude::*;
use vstd::string::*;

use crate::{auth, model, reading, text};

verus! {

/// Which metric a trend row describes.
#[derive(Debug, Clone, Copy, PartialEq, Eq, Hash, Structural)]
pub enum Metric {
    Cpu,
    Mem,
    /// Network receive rate, bytes per second.
    NetRx,
    /// Network transmit rate, bytes per second.
    NetTx,
    /// Block-device read rate, bytes per second.
    DiskRead,
    /// Block-device write rate, bytes per second.
    DiskWrite,
}

/// The name of a metric in the trend table.
pub open spec fn metric_name(m: Metric) -> Seq<char> {
    match m {
        Metric::Cpu => "cpu"@,
        Metric::Mem => "mem"@,
        Metric::NetRx => "net_rx"@,
        Metric::NetTx => "net_tx"@,
        Metric::DiskRead => "disk_read"@,
        Metric::DiskWrite => "disk_write"@,
    }
}

impl Metric {
    /// The name of the metric in the trend table.
    pub fn as_str(self) -> (r: &'static str)
        ensures
            r@ == metric_name(self),
    {
        match self {
            Metric::Cpu => "cpu",
            Metric::Mem => "mem",
            Metric::NetRx => "net_rx",
            Metric::NetTx => "net_tx",
            Metric::DiskRead => "disk_read",
            Metric::DiskWrite => "disk_write",
        }
    }
}

/// Different metrics have different names.
pub proof fn law_metric_names_differ(a: Metric, b: Metric)
    requires
        metric_name(a) == metric_name(b),
    ensures
        a == b,
{
    reveal_strlit("cpu");
    reveal_strlit("mem");
    reveal_strlit("net_rx");
    reveal_strlit("net_tx");
    reveal_strlit("disk_read");
    reveal_strlit("disk_write");
    assert("cpu"@.len() == 3 && "mem"@.len() == 3);
    assert("net_rx"@.len() == 6 && "net_tx"@.len() == 6);
    assert("disk_read"@.len() == 9 && "disk_write"@.len() == 10);
    assert("cpu"@[0] == 'c' && "mem"@[0] == 'm');
    assert("net_rx"@[4] == 'r' && "net_tx"@[4] == 't');
}

/// The middle of a set of readings.
#[derive(Debug, Clone, Copy)]
pub enum Median {
    /// The middle one of an odd number of readings.
    At(reading::Reading),
    /// Halfway between the two middle ones of an even number of readings.
    Between(reading::Reading, reading::Reading),
}

/// A min/max/median rollup over one time bucket for one container.
///
/// The name and the stack are kept beside the id, so history stays meaningful
/// when a container is recreated with a new id.
#[derive(Debug, Clone)]
pub struct ContainerTrend {
    pub bucket_start_ms: u64,
    pub bucket_secs: u64,
    /// The host this rollup belongs to.
    pub host: String,
    pub id: String,
    pub name: String,
    pub stack: Option<String>,
    pub metric: &'static str,
    pub min: reading::Reading,
    pub max: reading::Reading,
    pub median: Median,
    pub samples: u32,
}

/// One metric point, for seeding and streaming the live charts.
#[derive(Debug, Clone)]
pub struct MetricPoint {
    pub ts_ms: u64,
    pub cpu_percent: reading::Reading,
    pub mem_used: Option<u64>,
    pub net_rx: Option<reading::Reading>,
    pub net_tx: Option<reading::Reading>,
    pub disk_read: Option<reading::Reading>,
    pub disk_write: Option<reading::Reading>,
}

/// One bucket of the history view: a median line and a min/max envelope for
/// each metric. A field is `None` when the bucket has no rows for that metric.
#[derive(Debug, Clone)]
pub struct HistoryPoint {
    pub ts_ms: u64,
    pub cpu_min: Option<reading::Reading>,
    pub cpu_med: Option<reading::Reading>,
    pub cpu_max: Option<reading::Reading>,
    pub mem_min: Option<reading::Reading>,
    pub mem_med: Option<reading::Reading>,
    pub mem_max: Option<reading::Reading>,
    pub net_rx_min: Option<reading::Reading>,
    pub net_rx_med: Option<reading::Reading>,
    pub net_rx_max: Option<reading::Reading>,
    pub net_tx_min: Option<reading::Reading>,
    pub net_tx_med: Option<reading::Reading>,
    pub net_tx_max: Option<reading::Reading>,
    pub disk_read_min: Option<reading::Reading>,
    pub disk_read_med: Option<reading::Reading>,
    pub disk_read_max: Option<reading::Reading>,
    pub disk_write_min: Option<reading::Reading>,
    pub disk_write_med: Option<reading::Reading>,
    pub disk_write_max: Option<reading::Reading>,
}

// ---------------------------------------------------------------------------
// Integers at the storage boundary
// ---------------------------------------------------------------------------

/// A count as the database stores it.
pub open spec fn stored(v: int) -> int {
    if v > i64::MAX {
        i64::MAX as int
    } else {
        v
    }
}

/// A count as the database stores it: SQLite has signed integers, so a count
/// beyond their range is capped.
pub fn to_db(v: u64) -> (r: i64)
    ensures
        r == stored(v as int),
{
    if v > 0x7fff_ffff_ffff_ffff {
        i64::MAX
    } else {
        v as i64
    }
}

/// A count as it is read back from the database.
pub open spec fn loaded(v: int) -> int {
    if v < 0 {
        0
    } else {
        v
    }
}

/// A count read back from the database; a negative one is read as zero.
pub fn from_db(v: i64) -> (r: u64)
    ensures
        r == loaded(v as int),
{
    if v < 0 {
        0
    } else {
        v as u64
    }
}

/// An optional count as the database stores it.
pub open spec fn opt_stored(v: Option<u64>) -> Option<int> {
    match v {
        Some(n) => Some(stored(n as int)),
        None => None,
    }
}

/// An optional count as the database stores it.
pub fn opt_to_db(v: Option<u64>) -> (r: Option<i64>)
    ensures
        match r {
            Some(x) => opt_stored(v) == Some(x as int),
            None => v is None,
        },
{
    match v {
        Some(n) => Some(to_db(n)),
        None => None,
    }
}

/// A count within the range of the database's integers is read back as it was.
pub proof fn law_stored_counts_roundtrip(v: u64)
    requires
        v <= i64::MAX,
    ensures
        loaded(stored(v as int)) == v,
{
}

/// Storing keeps the order of counts, so a time range picks the rows that it
/// names.
pub proof fn law_storing_keeps_order(a: u64, b: u64)
    requires
        a <= b,
    ensures
        stored(a as int) <= stored(b as int),
{
}

// ---------------------------------------------------------------------------
// Rows to write
// ---------------------------------------------------------------------------

/// The values of one raw sample row, in the order of [`INSERT_SAMPLE_SQL`].
#[derive(Debug)]
pub struct SampleRow {
    pub ts_ms: i64,
    pub host: String,
    pub id: String,
    pub name: String,
    pub cpu_percent: Option<reading::Reading>,
    pub mem_used: Option<i64>,
    pub mem_limit: Option<i64>,
    pub net_rx: Option<reading::Reading>,
    pub net_tx: Option<reading::Reading>,
    pub disk_read: Option<reading::Reading>,
    pub disk_write: Option<reading::Reading>,
}

/// Whether an optional database integer stands for an optional count.
pub open spec fn opt_is_stored(r: Option<i64>, v: Option<u64>) -> bool {
    match r {
        Some(x) => opt_stored(v) == Some(x as int),
        None => v is None,
    }
}

/// Whether `row` records container `c` of `host` at `ts_ms`.
pub open spec fn records(
    row: SampleRow,
    host: Seq<char>,
    ts_ms: u64,
    c: model::ContainerMetrics,
) -> bool {
    &&& row.ts_ms == stored(ts_ms as int)
    &&& row.host@ == host
    &&& row.id@ == c.id@
    &&& row.name@ == c.name@
    &&& row.cpu_percent == c.cpu_percent
    &&& opt_is_stored(row.mem_used, c.mem_used)
    &&& opt_is_stored(row.mem_limit, c.mem_limit)
    &&& row.net_rx == c.net_rx_bps
    &&& row.net_tx == c.net_tx_bps
    &&& row.disk_read == c.disk_read_bps
    &&& row.disk_write == c.disk_write_bps
}

/// One collection cycle of a host as raw sample rows, one per container.
pub fn sample_rows(host: &str, ts_ms: u64, containers: &[model::ContainerMetrics]) -> (r: Vec<
    SampleRow,
>)
    ensures
        r.len() == containers.len(),
        forall|i: int|
            0 <= i < containers.len() ==> records(#[trigger] r[i], host@, ts_ms, containers[i]),
{
    let mut out: Vec<SampleRow> = Vec::new();
    let mut i: usize = 0;
    while i < containers.len()
        invariant
            i <= containers.len(),
            out.len() == i,
            forall|j: int| 0 <= j < i ==> records(#[trigger] out[j], host@, ts_ms, containers[j]),
        decreases containers.len() - i,
    {
        let c = &containers[i];
        out.push(
            SampleRow {
                ts_ms: to_db(ts_ms),
                host: host.to_owned(),
                id: c.id.clone(),
                name: c.name.clone(),
                cpu_percent: c.cpu_percent,
                mem_used: opt_to_db(c.mem_used),
                mem_limit: opt_to_db(c.mem_limit),
                net_rx: c.net_rx_bps,
                net_tx: c.net_tx_bps,
                disk_read: c.disk_read_bps,
                disk_write: c.disk_write_bps,
            },
        );
        i += 1;
    }
    out
}

/// The values of one trend row, in the order of [`INSERT_TREND_SQL`].
#[derive(Debug)]
pub struct TrendRow {
    pub bucket_start_ms: i64,
    pub bucket_secs: i64,
    pub host: String,
    pub id: String,
    pub name: String,
    pub stack: Option<String>,
    pub metric: &'static str,
    pub min: reading::Reading,
    pub max: reading::Reading,
    pub median: Median,
    pub samples: u32,
}

/// Whether `row` records the rollup `t`.
pub open spec fn records_trend(row: TrendRow, t: ContainerTrend) -> bool {
    &&& row.bucket_start_ms == stored(t.bucket_start_ms as int)
    &&& row.bucket_secs == stored(t.bucket_secs as int)
    &&& row.host@ == t.host@
    &&& row.id@ == t.id@
    &&& row.name@ == t.name@
    &&& text::opt_view(row.stack) == text::opt_view(t.stack)
    &&& row.metric == t.metric
    &&& row.min == t.min
    &&& row.max == t.max
    &&& row.median == t.median
    &&& row.samples == t.samples
}

/// A batch of rollups as trend rows, one per rollup.
pub fn trend_rows(trends: &[ContainerTrend]) -> (r: Vec<TrendRow>)
    ensures
        r.len() == trends.len(),
        forall|i: int| 0 <= i < trends.len() ==> records_trend(#[trigger] r[i], trends[i]),
{
    let mut out: Vec<TrendRow> = Vec::new();
    let mut i: usize = 0;
    while i < trends.len()
        invariant
            i <= trends.len(),
            out.len() == i,
            forall|j: int| 0 <= j < i ==> records_trend(#[trigger] out[j], trends[j]),
        decreases trends.len() - i,
    {
        let t = &trends[i];
        out.push(
            TrendRow {
                bucket_start_ms: to_db(t.bucket_start_ms),
                bucket_secs: to_db(t.bucket_secs),
                host: t.host.clone(),
                id: t.id.clone(),
                name: t.name.clone(),
                stack: text::copy_opt(&t.stack),
                metric: t.metric,
                min: t.min,
                max: t.max,
                median: t.median,
                samples: t.samples,
            },
        );
        i += 1;
    }
    out
}

// ---------------------------------------------------------------------------
// Rows that were read
// ---------------------------------------------------------------------------

/// The four rates of a row, in the order that the queries select them: network
/// received and sent, disk read and written.
pub type Rates = [Option<reading::Reading>; 4];

/// Whether a point carries the four rates of a row.
pub open spec fn carries(p: MetricPoint, rates: Rates) -> bool {
    &&& p.net_rx == rates[0]
    &&& p.net_tx == rates[1]
    &&& p.disk_read == rates[2]
    &&& p.disk_write == rates[3]
}

/// The CPU reading that a point shows: a missing one is shown as zero.
pub open spec fn shown_cpu(cpu_percent: Option<reading::Reading>) -> reading::Reading {
    match cpu_percent {
        Some(p) => p,
        None => reading::Reading::count(0),
    }
}

fn cpu_or_zero(cpu_percent: Option<reading::Reading>) -> (r: reading::Reading)
    ensures
        r == shown_cpu(cpu_percent),
{
    match cpu_percent {
        Some(p) => p,
        None => reading::Reading::zero(),
    }
}

/// Whether a point stands for the time, CPU reading, memory and rates of a row.
pub open spec fn is_point_of(
    p: MetricPoint,
    ts_ms: i64,
    cpu_percent: Option<reading::Reading>,
    mem_used: Option<i64>,
    rates: Rates,
) -> bool {
    &&& p.ts_ms == loaded(ts_ms as int)
    &&& p.cpu_percent == shown_cpu(cpu_percent)
    &&& match p.mem_used {
        Some(n) => mem_used matches Some(m) && n == loaded(m as int),
        None => mem_used is None,
    }
    &&& carries(p, rates)
}

/// The point of a raw sample row of [`RECENT_SAMPLES_SQL`]. A sample without a
/// CPU reading, such as that of a stopped container, has a point all the same.
pub fn row_to_point(
    ts_ms: i64,
    cpu_percent: Option<reading::Reading>,
    mem_used: Option<i64>,
    rates: Rates,
) -> (r: MetricPoint)
    ensures
        is_point_of(r, ts_ms, cpu_percent, mem_used, rates),
{
    MetricPoint {
        ts_ms: from_db(ts_ms),
        cpu_percent: cpu_or_zero(cpu_percent),
        mem_used: match mem_used {
            Some(m) => Some(from_db(m)),
            None => None,
        },
        net_rx: rates[0],
        net_tx: rates[1],
        disk_read: rates[2],
        disk_write: rates[3],
    }
}

/// The point of a row that records a container carries what was recorded: the
/// time, the CPU reading as it is shown, the memory and the four rates. Time and
/// memory lie within the range of the database's integers.
pub proof fn law_recorded_samples_are_read_back(
    row: SampleRow,
    host: Seq<char>,
    ts_ms: u64,
    c: model::ContainerMetrics,
    p: MetricPoint,
)
    requires
        records(row, host, ts_ms, c),
        is_point_of(
            p,
            row.ts_ms,
            row.cpu_percent,
            row.mem_used,
            [row.net_rx, row.net_tx, row.disk_read, row.disk_write],
        ),
        ts_ms <= i64::MAX,
        c.mem_used matches Some(n) ==> n <= i64::MAX,
    ensures
        p.ts_ms == ts_ms,
        p.cpu_percent == shown_cpu(c.cpu_percent),
        p.mem_used == c.mem_used,
        p.net_rx == c.net_rx_bps,
        p.net_tx == c.net_tx_bps,
        p.disk_read == c.disk_read_bps,
        p.disk_write == c.disk_write_bps,
{
}

/// The point of a summed trend row of [`RECENT_STACK_TRENDS_SQL`], its memory
/// rounded to whole bytes. A missing CPU sum shows as zero.
pub fn trend_row_to_point(
    ts_ms: i64,
    cpu_percent: Option<reading::Reading>,
    mem_used: Option<u64>,
    rates: Rates,
) -> (r: MetricPoint)
    ensures
        r.ts_ms == loaded(ts_ms as int),
        r.cpu_percent == shown_cpu(cpu_percent),
        r.mem_used == mem_used,
        carries(r, rates),
{
    MetricPoint {
        ts_ms: from_db(ts_ms),
        cpu_percent: cpu_or_zero(cpu_percent),
        mem_used,
        net_rx: rates[0],
        net_tx: rates[1],
        disk_read: rates[2],
        disk_write: rates[3],
    }
}

/// The value columns of a history row: minimum, median and maximum of each
/// metric in turn.
pub type Envelope = [Option<reading::Reading>; 18];

/// The point of a downsampled history row.
pub fn history_row_to_point(ts_ms: i64, envelope: Envelope) -> (r: HistoryPoint)
    ensures
        r.ts_ms == loaded(ts_ms as int),
        r.cpu_min == envelope[0] && r.cpu_med == envelope[1] && r.cpu_max == envelope[2],
        r.mem_min == envelope[3] && r.mem_med == envelope[4] && r.mem_max == envelope[5],
        r.net_rx_min == envelope[6] && r.net_rx_med == envelope[7] && r.net_rx_max == envelope[8],
        r.net_tx_min == envelope[9] && r.net_tx_med == envelope[10] && r.net_tx_max == envelope[11],
        r.disk_read_min == envelope[12] && r.disk_read_med == envelope[13] && r.disk_read_max
            == envelope[14],
        r.disk_write_min == envelope[15] && r.disk_write_med == envelope[16] && r.disk_write_max
            == envelope[17],
{
    HistoryPoint {
        ts_ms: from_db(ts_ms),
        cpu_min: envelope[0],
        cpu_med: envelope[1],
        cpu_max: envelope[2],
        mem_min: envelope[3],
        mem_med: envelope[4],
        mem_max: envelope[5],
        net_rx_min: envelope[6],
        net_rx_med: envelope[7],
        net_rx_max: envelope[8],
        net_tx_min: envelope[9],
        net_tx_med: envelope[10],
        net_tx_max: envelope[11],
        disk_read_min: envelope[12],
        disk_read_med: envelope[13],
        disk_read_max: envelope[14],
        disk_write_min: envelope[15],
        disk_write_med: envelope[16],
        disk_write_max: envelope[17],
    }
}

/// The bounds of a history query, in the order of its last three parameters.
#[derive(Debug, Clone, Copy, PartialEq, Eq, Structural)]
pub struct HistoryBounds {
    pub since_ms: i64,
    pub until_ms: i64,
    /// Width of a downsampling group; never zero.
    pub group_ms: i64,
}

/// The bounds of a history query. A group of zero width counts as one
/// millisecond wide, since the query divides by it.
pub fn history_bounds(since_ms: u64, until_ms: u64, group_ms: u64) -> (r: HistoryBounds)
    ensures
        r.since_ms == stored(since_ms as int),
        r.until_ms == stored(until_ms as int),
        r.group_ms == stored(if group_ms == 0 {
            1
        } else {
            group_ms as int
        }),
        r.group_ms >= 1,
{
    let group: u64 = if group_ms == 0 {
        1
    } else {
        group_ms
    };
    HistoryBounds { since_ms: to_db(since_ms), until_ms: to_db(until_ms), group_ms: to_db(group) }
}

// ---------------------------------------------------------------------------
// The session secret
// ---------------------------------------------------------------------------

/// A session secret, and whether it is new and has to be stored.
#[derive(Debug)]
pub struct SecretChoice {
    pub secret: Vec<u8>,
    pub fresh: bool,
}

/// The choice of a fresh secret, given what drawing one came to.
pub fn fresh_choice(drawn: Result<Vec<u8>, auth::RandomUnavailable>) -> (r: Result<
    SecretChoice,
    auth::RandomUnavailable,
>)
    ensures
        match drawn {
            Ok(secret) => r == Ok::<SecretChoice, auth::RandomUnavailable>(
                (SecretChoice { secret, fresh: true }),
            ),
            Err(e) => r == Err::<SecretChoice, auth::RandomUnavailable>(e),
        },
{
    match drawn {
        Ok(secret) => Ok(SecretChoice { secret, fresh: true }),
        Err(e) => Err(e),
    }
}

/// The session secret to use: the stored one if there is one, otherwise fresh
/// random bytes.
pub fn session_secret(existing: Option<Vec<u8>>) -> (r: Result<
    SecretChoice,
    auth::RandomUnavailable,
>)
    ensures
        existing matches Some(secret) ==> (r matches Ok(choice) && choice.secret == secret
            && !choice.fresh),
        existing is None ==> (r matches Ok(choice) ==> choice.fresh && choice.secret@.len()
            == auth::SECRET_LEN),
{
    match existing {
        Some(secret) => Ok(SecretChoice { secret, fresh: false }),
        None => fresh_choice(auth::generate_secret()),
    }
}

// ---------------------------------------------------------------------------
// Schema and its migration
// ---------------------------------------------------------------------------

/// A column that later versions added, for tables made by an earlier one.
#[derive(Debug, Clone, Copy)]
pub struct Backfill {
    pub table: &'static str,
    pub column: &'static str,
    pub decl: &'static str,
}

/// The columns to add to tables of an earlier version, in order. `host` is not
/// nullable, so existing rows get the name of a single-host setup.
pub fn backfills() -> (r: Vec<Backfill>)
    ensures
        r.len() == 6,
        r[0].table@ == "container_sample"@ && r[0].column@ == "host"@,
        r[1].table@ == "container_trend"@ && r[1].column@ == "host"@,
        r[0].decl@ == "TEXT NOT NULL DEFAULT 'local'"@,
        r[1].decl@ == "TEXT NOT NULL DEFAULT 'local'"@,
        r[2].table@ == "container_sample"@ && r[2].column@ == "net_rx"@,
        r[3].table@ == "container_sample"@ && r[3].column@ == "net_tx"@,
        r[4].table@ == "container_sample"@ && r[4].column@ == "disk_read"@,
        r[5].table@ == "container_sample"@ && r[5].column@ == "disk_write"@,
        forall|i: int| 2 <= i < 6 ==> (#[trigger] r[i]).decl@ == "REAL"@,
{
    let local: &'static str = "TEXT NOT NULL DEFAULT 'local'";
    let sample: &'static str = "container_sample";
    let mut out: Vec<Backfill> = Vec::new();
    out.push(Backfill { table: sample, column: "host", decl: local });
    out.push(Backfill { table: "container_trend", column: "host", decl: local });
    out.push(Backfill { table: sample, column: "net_rx", decl: "REAL" });
    out.push(Backfill { table: sample, column: "net_tx", decl: "REAL" });
    out.push(Backfill { table: sample, column: "disk_read", decl: "REAL" });
    out.push(Backfill { table: sample, column: "disk_write", decl: "REAL" });
    out
}

/// The statement that adds `column` to `table`, unless the table has it.
pub fn add_column_if_missing(columns: &Vec<String>, table: &str, column: &str, decl: &str) -> (r:
    Option<String>)
    ensures
        text::opt_view(r) == (if text::string_views(columns@).contains(column@) {
            None
        } else {
            Some("ALTER TABLE "@ + table@ + " ADD COLUMN "@ + column@ + " "@ + decl@)
        }),
{
    let ghost names = text::string_views(columns@);
    let mut i: usize = 0;
    while i < columns.len()
        invariant
            i <= columns.len(),
            names == text::string_views(columns@),
            forall|j: int| 0 <= j < i ==> #[trigger] names[j] != column@,
        decreases columns.len() - i,
    {
        if text::same(columns[i].as_str(), column) {
            proof {
                assert(names[i as int] == column@);
            }
            return None;
        }
        i += 1;
    }
    let mut sql = "ALTER TABLE ".to_owned();
    sql.append(table);
    sql.append(" ADD COLUMN ");
    sql.append(column);
    sql.append(" ");
    sql.append(decl);
    Some(sql)
}

/// The query that lists the columns of a table, their names second.
pub fn table_info_sql(table: &str) -> (r: String)
    ensures
        r@ == "PRAGMA table_info("@ + table@ + ")"@,
{
    let mut sql = "PRAGMA table_info(".to_owned();
    sql.append(table);
    sql.append(")");
    sql
}

/// Whether an index of an earlier version is still present.
pub const LEGACY_INDEX_SQL: &'static str = "SELECT EXISTS (SELECT 1 FROM sqlite_master
                                WHERE type = 'index' AND name = 'container_trend_host_id')";

/// Table definitions, run first so that the column backfill and the indexes
/// have something to work on.
pub const CREATE_TABLES: &'static str = "
CREATE TABLE IF NOT EXISTS container_sample (
    ts_ms       INTEGER NOT NULL,
    host        TEXT    NOT NULL,
    id          TEXT    NOT NULL,
    name        TEXT    NOT NULL,
    cpu_percent REAL,
    mem_used    INTEGER,
    mem_limit   INTEGER,
    net_rx      REAL,
    net_tx      REAL,
    disk_read   REAL,
    disk_write  REAL
);

CREATE TABLE IF NOT EXISTS container_trend (
    bucket_start_ms INTEGER NOT NULL,
    bucket_secs     INTEGER NOT NULL,
    host            TEXT    NOT NULL,
    id              TEXT    NOT NULL,
    name            TEXT    NOT NULL,
    stack           TEXT,
    metric          TEXT    NOT NULL,
    min             REAL    NOT NULL,
    max             REAL    NOT NULL,
    median          REAL    NOT NULL,
    samples         INTEGER NOT NULL
);

CREATE TABLE IF NOT EXISTS meta (
    key   TEXT PRIMARY KEY,
    value BLOB NOT NULL
);
";

/// Indexes, run after the column backfill. The time column comes directly after
/// the equality columns, so that a history read can seek its range; the
/// retention indexes lead with the column that pruning filters on.
pub const CREATE_INDEXES: &'static str = "
CREATE INDEX IF NOT EXISTS container_sample_host_id_ts ON container_sample(host, id, ts_ms);
CREATE INDEX IF NOT EXISTS container_trend_host_name_ts ON container_trend(host, name, bucket_start_ms);
CREATE INDEX IF NOT EXISTS container_trend_host_stack_ts ON container_trend(host, stack, bucket_start_ms) WHERE stack IS NOT NULL;
CREATE INDEX IF NOT EXISTS container_sample_retention ON container_sample(ts_ms);
CREATE INDEX IF NOT EXISTS container_trend_retention ON container_trend(bucket_start_ms);
DROP INDEX IF EXISTS container_trend_host_id;
DROP INDEX IF EXISTS container_trend_host_name;
";

// ---------------------------------------------------------------------------
// Statements
// ---------------------------------------------------------------------------

/// Reads the stored session secret.
pub const SELECT_SECRET_SQL: &'static str = "SELECT value FROM meta WHERE key = 'session_secret'";

/// Stores a fresh session secret.
pub const INSERT_SECRET_SQL: &'static str =
    "INSERT INTO meta (key, value) VALUES ('session_secret', ?1)";

/// Writes one [`SampleRow`].
pub const INSERT_SAMPLE_SQL: &'static str = "INSERT INTO container_sample
                       (ts_ms, host, id, name, cpu_percent, mem_used, mem_limit,
                        net_rx, net_tx, disk_read, disk_write)
                     VALUES (?1, ?2, ?3, ?4, ?5, ?6, ?7, ?8, ?9, ?10, ?11)";

/// Writes one [`ContainerTrend`].
pub const INSERT_TREND_SQL: &'static str = "INSERT INTO container_trend
                       (bucket_start_ms, bucket_secs, host, id, name, stack, metric, min, max, median, samples)
                     VALUES (?1, ?2, ?3, ?4, ?5, ?6, ?7, ?8, ?9, ?10, ?11)";

/// Drops raw samples from before a point in time.
pub const PRUNE_RAW_SQL: &'static str = "DELETE FROM container_sample WHERE ts_ms < ?1";

/// Drops trends whose bucket starts before a point in time.
pub const PRUNE_TRENDS_SQL: &'static str = "DELETE FROM container_trend WHERE bucket_start_ms < ?1";

/// Raw samples of one container from a point in time on, oldest first.
pub const RECENT_SAMPLES_SQL: &'static str =
    "SELECT ts_ms, cpu_percent, mem_used, net_rx, net_tx, disk_read, disk_write
                 FROM container_sample
                 WHERE host = ?1 AND id = ?2 AND ts_ms >= ?3 ORDER BY ts_ms ASC";

/// The name that the trends recorded for a container id.
pub const CONTAINER_NAME_SQL: &'static str =
    "SELECT name FROM container_trend WHERE host = ?1 AND id = ?2 LIMIT 1";

/// The envelope columns of the container history query: for each metric the
/// lowest minimum, the mean median and the highest maximum of a group.
pub const HISTORY_ENVELOPE: &'static str = "\
    MIN(CASE WHEN metric='cpu' THEN min END), AVG(CASE WHEN metric='cpu' THEN median END), MAX(CASE WHEN metric='cpu' THEN max END),
    MIN(CASE WHEN metric='mem' THEN min END), AVG(CASE WHEN metric='mem' THEN median END), MAX(CASE WHEN metric='mem' THEN max END),
    MIN(CASE WHEN metric='net_rx' THEN min END), AVG(CASE WHEN metric='net_rx' THEN median END), MAX(CASE WHEN metric='net_rx' THEN max END),
    MIN(CASE WHEN metric='net_tx' THEN min END), AVG(CASE WHEN metric='net_tx' THEN median END), MAX(CASE WHEN metric='net_tx' THEN max END),
    MIN(CASE WHEN metric='disk_read' THEN min END), AVG(CASE WHEN metric='disk_read' THEN median END), MAX(CASE WHEN metric='disk_read' THEN max END),
    MIN(CASE WHEN metric='disk_write' THEN min END), AVG(CASE WHEN metric='disk_write' THEN median END), MAX(CASE WHEN metric='disk_write' THEN max END)";

/// The per-bucket sums of the stack history query: each metric's minimum,
/// median and maximum, summed over the members of the stack.
pub const STACK_SUM_PER_BUCKET: &'static str = "\
    SUM(CASE WHEN metric='cpu' THEN min END) AS cpu_min, SUM(CASE WHEN metric='cpu' THEN median END) AS cpu_med, SUM(CASE WHEN metric='cpu' THEN max END) AS cpu_max,
    SUM(CASE WHEN metric='mem' THEN min END) AS mem_min, SUM(CASE WHEN metric='mem' THEN median END) AS mem_med, SUM(CASE WHEN metric='mem' THEN max END) AS mem_max,
    SUM(CASE WHEN metric='net_rx' THEN min END) AS net_rx_min, SUM(CASE WHEN metric='net_rx' THEN median END) AS net_rx_med, SUM(CASE WHEN metric='net_rx' THEN max END) AS net_rx_max,
    SUM(CASE WHEN metric='net_tx' THEN min END) AS net_tx_min, SUM(CASE WHEN metric='net_tx' THEN median END) AS net_tx_med, SUM(CASE WHEN metric='net_tx' THEN max END) AS net_tx_max,
    SUM(CASE WHEN metric='disk_read' THEN min END) AS disk_read_min, SUM(CASE WHEN metric='disk_read' THEN median END) AS disk_read_med, SUM(CASE WHEN metric='disk_read' THEN max END) AS disk_read_max,
    SUM(CASE WHEN metric='disk_write' THEN min END) AS disk_write_min, SUM(CASE WHEN metric='disk_write' THEN median END) AS disk_write_med, SUM(CASE WHEN metric='disk_write' THEN max END) AS disk_write_max";

/// The envelope over the summed columns of [`STACK_SUM_PER_BUCKET`].
pub const STACK_OUTER_ENVELOPE: &'static str = "\
    MIN(cpu_min), AVG(cpu_med), MAX(cpu_max),
    MIN(mem_min), AVG(mem_med), MAX(mem_max),
    MIN(net_rx_min), AVG(net_rx_med), MAX(net_rx_max),
    MIN(net_tx_min), AVG(net_tx_med), MAX(net_tx_max),
    MIN(disk_read_min), AVG(disk_read_med), MAX(disk_read_max),
    MIN(disk_write_min), AVG(disk_write_med), MAX(disk_write_max)";

/// The trends of a stack from a point in time on, the members' medians summed
/// per bucket and metric, oldest first.
pub const RECENT_STACK_TRENDS_SQL: &'static str = "\
    SELECT bucket_start_ms,
           SUM(CASE WHEN metric = 'cpu' THEN median ELSE 0 END) AS cpu,
           SUM(CASE WHEN metric = 'mem' THEN median ELSE 0 END) AS mem,
           SUM(CASE WHEN metric = 'net_rx' THEN median END) AS net_rx,
           SUM(CASE WHEN metric = 'net_tx' THEN median END) AS net_tx,
           SUM(CASE WHEN metric = 'disk_read' THEN median END) AS disk_read,
           SUM(CASE WHEN metric = 'disk_write' THEN median END) AS disk_write
    FROM container_trend
    WHERE host = ?1 AND stack = ?2 AND bucket_start_ms >= ?3
    GROUP BY bucket_start_ms
    ORDER BY bucket_start_ms ASC";

/// The history of a container from its raw samples, downsampled into groups. A
/// group narrower than the sample interval keeps every sample.
pub const RAW_HISTORY_SQL: &'static str = "\
    SELECT (ts_ms / ?5) * ?5 AS bucket,
           MIN(cpu_percent), AVG(cpu_percent), MAX(cpu_percent),
           MIN(mem_used), AVG(mem_used), MAX(mem_used),
           MIN(net_rx), AVG(net_rx), MAX(net_rx),
           MIN(net_tx), AVG(net_tx), MAX(net_tx),
           MIN(disk_read), AVG(disk_read), MAX(disk_read),
           MIN(disk_write), AVG(disk_write), MAX(disk_write)
    FROM container_sample
    WHERE host = ?1 AND id = ?2 AND ts_ms >= ?3 AND ts_ms <= ?4
    GROUP BY bucket
    ORDER BY bucket ASC";

/// The history of a container from its trends, by name, downsampled into groups.
pub fn history_container_sql() -> (r: String)
    ensures
        r@ == "SELECT (bucket_start_ms / ?5) * ?5 AS bucket, "@ + HISTORY_ENVELOPE@
            + "\n         FROM container_trend
         WHERE host = ?1 AND name = ?2 AND bucket_start_ms >= ?3 AND bucket_start_ms <= ?4
         GROUP BY bucket ORDER BY bucket ASC"@,
{
    let mut sql = "SELECT (bucket_start_ms / ?5) * ?5 AS bucket, ".to_owned();
    sql.append(HISTORY_ENVELOPE);
    sql.append(
        "\n         FROM container_trend
         WHERE host = ?1 AND name = ?2 AND bucket_start_ms >= ?3 AND bucket_start_ms <= ?4
         GROUP BY bucket ORDER BY bucket ASC",
    );
    sql
}

/// The history of a stack from its members' trends, summed per bucket and then
/// downsampled into groups.
pub fn history_stack_sql() -> (r: String)
    ensures
        r@ == "WITH per_bucket AS (
             SELECT bucket_start_ms AS b, "@ + STACK_SUM_PER_BUCKET@
            + "\n             FROM container_trend
             WHERE host = ?1 AND stack = ?2 AND bucket_start_ms >= ?3 AND bucket_start_ms <= ?4
             GROUP BY b
         )
         SELECT (b / ?5) * ?5 AS bucket, "@ + STACK_OUTER_ENVELOPE@
            + "\n         FROM per_bucket
         GROUP BY bucket ORDER BY bucket ASC"@,
{
    let mut sql = "WITH per_bucket AS (
             SELECT bucket_start_ms AS b, ".to_owned();
    sql.append(STACK_SUM_PER_BUCKET);
    sql.append(
        "\n             FROM container_trend
             WHERE host = ?1 AND stack = ?2 AND bucket_start_ms >= ?3 AND bucket_start_ms <= ?4
             GROUP BY b
         )
         SELECT (b / ?5) * ?5 AS bucket, ",
    );
    sql.append(STACK_OUTER_ENVELOPE);
    sql.append(
        "\n         FROM per_bucket
         GROUP BY bucket ORDER BY bucket ASC",
    );
    sql
}

// ---------------------------------------------------------------------------
// Laws of the rows
// ---------------------------------------------------------------------------

/// A count beyond the range of the database's integers is stored as the largest of
/// them, and a stored number below zero is read as zero.
pub proof fn law_counts_are_capped(v: u64, x: i64)
    ensures
        v > 0x7fff_ffff_ffff_ffff ==> stored(v as int) == 0x7fff_ffff_ffff_ffff,
        v <= 0x7fff_ffff_ffff_ffff ==> stored(v as int) == v,
        x < 0 ==> loaded(x as int) == 0,
        x >= 0 ==> loaded(x as int) == x,
        opt_stored(Some(v)) == Some(stored(v as int)),
        opt_stored(None) is None,
{
}

/// A row that records a container holds each of its values in the column of that
/// name: who it is, when it was seen, and what it used.
pub proof fn law_sample_rows_hold_their_container(
    row: SampleRow,
    host: Seq<char>,
    ts_ms: u64,
    c: model::ContainerMetrics,
)
    requires
        records(row, host, ts_ms, c),
    ensures
        row.host@ == host,
        row.id@ == c.id@,
        row.name@ == c.name@,
        ts_ms <= i64::MAX ==> row.ts_ms == ts_ms,
        row.cpu_percent == c.cpu_percent,
        (row.mem_used is None) == (c.mem_used is None),
        (row.mem_limit is None) == (c.mem_limit is None),
        c.mem_used matches Some(n) ==> (n <= i64::MAX ==> row.mem_used->0 == n),
        c.mem_limit matches Some(n) ==> (n <= i64::MAX ==> row.mem_limit->0 == n),
        row.net_rx == c.net_rx_bps,
        row.net_tx == c.net_tx_bps,
        row.disk_read == c.disk_read_bps,
        row.disk_write == c.disk_write_bps,
{
}

/// A row that records a rollup holds each of its values in the column of that
/// name.
pub proof fn law_trend_rows_hold_their_rollup(row: TrendRow, t: ContainerTrend)
    requires
        records_trend(row, t),
    ensures
        t.bucket_start_ms <= i64::MAX ==> row.bucket_start_ms == t.bucket_start_ms,
        t.bucket_secs <= i64::MAX ==> row.bucket_secs == t.bucket_secs,
        row.host@ == t.host@,
        row.id@ == t.id@,
        row.name@ == t.name@,
        (row.stack is None) == (t.stack is None),
        row.stack is Some ==> row.stack->0@ == t.stack->0@,
        row.metric@ == t.metric@,
        row.min == t.min,
        row.max == t.max,
        row.median == t.median,
        row.samples == t.samples,
{
}

/// The point of a row shows the CPU reading that is there, and zero where there is
/// none; it carries the four rates in the order that the queries select them.
pub proof fn law_points_show_their_row(
    p: MetricPoint,
    ts_ms: i64,
    cpu_percent: Option<reading::Reading>,
    mem_used: Option<i64>,
    rates: Rates,
)
    requires
        is_point_of(p, ts_ms, cpu_percent, mem_used, rates),
    ensures
        cpu_percent matches Some(v) ==> p.cpu_percent == v,
        cpu_percent is None ==> p.cpu_percent == reading::Reading::count(0),
        ts_ms >= 0 ==> p.ts_ms == ts_ms,
        (p.mem_used is None) == (mem_used is None),
        mem_used matches Some(m) ==> (m >= 0 ==> p.mem_used->0 == m),
        p.net_rx == rates[0],
        p.net_tx == rates[1],
        p.disk_read == rates[2],
        p.disk_write == rates[3],
{
}

/// Rollups are stored under names from which charts read them back: each metric
/// under its own.
pub proof fn law_metrics_are_stored_under_their_names()
    ensures
        metric_name(Metric::Cpu) == "cpu"@,
        metric_name(Metric::Mem) == "mem"@,
        metric_name(Metric::NetRx) == "net_rx"@,
        metric_name(Metric::NetTx) == "net_tx"@,
        metric_name(Metric::DiskRead) == "disk_read"@,
        metric_name(Metric::DiskWrite) == "disk_write"@,
{
}

} // verus!
