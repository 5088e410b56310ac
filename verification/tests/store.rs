//! Rows, statements and schema, run against an in-memory database.

use dockdoe::auth::{RandomUnavailable, SECRET_LEN};
use dockdoe::model::{ContainerMetrics, ContainerState, HealthState};
use dockdoe::reading::Reading;
use dockdoe::store::{
    add_column_if_missing, backfills, fresh_choice, from_db, history_bounds, history_container_sql,
    history_row_to_point, history_stack_sql, opt_to_db, row_to_point, sample_rows, session_secret,
    table_info_sql, to_db, trend_row_to_point, trend_rows, ContainerTrend, HistoryPoint, Median,
    Metric, MetricPoint, CONTAINER_NAME_SQL, CREATE_INDEXES, CREATE_TABLES, INSERT_SAMPLE_SQL,
    INSERT_SECRET_SQL, INSERT_TREND_SQL, LEGACY_INDEX_SQL, PRUNE_RAW_SQL, PRUNE_TRENDS_SQL,
    RAW_HISTORY_SQL, RECENT_SAMPLES_SQL, RECENT_STACK_TRENDS_SQL, SELECT_SECRET_SQL,
};
use rusqlite::{Connection, OptionalExtension, Row};

const HOST: &str = "local";

fn r(v: f64) -> Reading {
    Reading::from_bits(v.to_bits()).unwrap()
}

fn f(v: Reading) -> f64 {
    f64::from_bits(v.to_bits())
}

fn of(v: Option<Reading>) -> Option<f64> {
    v.map(f)
}

fn value(m: Median) -> f64 {
    match m {
        Median::At(x) => f(x),
        Median::Between(a, b) => f64::midpoint(f(a), f(b)),
    }
}

fn column(row: &Row<'_>, i: usize) -> Option<Reading> {
    row.get::<_, Option<f64>>(i).unwrap().map(r)
}

fn rates(row: &Row<'_>) -> [Option<Reading>; 4] {
    [column(row, 3), column(row, 4), column(row, 5), column(row, 6)]
}

/// A database driven by the library's statements and rows.
struct Store {
    conn: Connection,
}

impl Store {
    fn open_in_memory() -> Store {
        Store::from_connection(Connection::open_in_memory().unwrap())
    }

    fn from_connection(conn: Connection) -> Store {
        conn.execute_batch(CREATE_TABLES).unwrap();
        for b in backfills() {
            let columns: Vec<String> = conn
                .prepare(&table_info_sql(b.table))
                .unwrap()
                .query_map([], |row| row.get(1))
                .unwrap()
                .map(Result::unwrap)
                .collect();
            if let Some(sql) = add_column_if_missing(&columns, b.table, b.column, b.decl) {
                conn.execute(&sql, []).unwrap();
            }
        }
        conn.execute_batch(CREATE_INDEXES).unwrap();
        Store { conn }
    }

    fn insert_samples(&self, host: &str, ts_ms: u64, containers: &[ContainerMetrics]) {
        for s in sample_rows(host, ts_ms, containers) {
            self.conn
                .execute(
                    INSERT_SAMPLE_SQL,
                    (
                        s.ts_ms,
                        s.host,
                        s.id,
                        s.name,
                        of(s.cpu_percent),
                        s.mem_used,
                        s.mem_limit,
                        of(s.net_rx),
                        of(s.net_tx),
                        of(s.disk_read),
                        of(s.disk_write),
                    ),
                )
                .unwrap();
        }
    }

    fn insert_container_trends(&self, trends: &[ContainerTrend]) {
        for t in trend_rows(trends) {
            self.conn
                .execute(
                    INSERT_TREND_SQL,
                    (
                        t.bucket_start_ms,
                        t.bucket_secs,
                        t.host,
                        t.id,
                        t.name,
                        t.stack,
                        t.metric,
                        f(t.min),
                        f(t.max),
                        value(t.median),
                        t.samples,
                    ),
                )
                .unwrap();
        }
    }

    fn prune_raw(&self, before_ms: u64) -> usize {
        self.conn.execute(PRUNE_RAW_SQL, [to_db(before_ms)]).unwrap()
    }

    fn prune_trends(&self, before_ms: u64) -> usize {
        self.conn
            .execute(PRUNE_TRENDS_SQL, [to_db(before_ms)])
            .unwrap()
    }

    fn recent_container_samples(&self, host: &str, id: &str, since_ms: u64) -> Vec<MetricPoint> {
        self.conn
            .prepare(RECENT_SAMPLES_SQL)
            .unwrap()
            .query_map((host, id, to_db(since_ms)), |row| {
                Ok(row_to_point(
                    row.get(0)?,
                    column(row, 1),
                    row.get(2)?,
                    rates(row),
                ))
            })
            .unwrap()
            .map(Result::unwrap)
            .collect()
    }

    fn recent_stack_trends(&self, host: &str, stack: &str, since_ms: u64) -> Vec<MetricPoint> {
        self.conn
            .prepare(RECENT_STACK_TRENDS_SQL)
            .unwrap()
            .query_map((host, stack, to_db(since_ms)), |row| {
                let mem: Option<f64> = row.get(2)?;
                Ok(trend_row_to_point(
                    row.get(0)?,
                    column(row, 1),
                    mem.map(|m| m.round() as u64),
                    rates(row),
                ))
            })
            .unwrap()
            .map(Result::unwrap)
            .collect()
    }

    fn history(&self, sql: &str, host: &str, key: &str, window: (u64, u64, u64)) -> Vec<HistoryPoint> {
        let b = history_bounds(window.0, window.1, window.2);
        self.conn
            .prepare(sql)
            .unwrap()
            .query_map((host, key, b.since_ms, b.until_ms, b.group_ms), |row| {
                let mut envelope = [None; 18];
                for (i, slot) in envelope.iter_mut().enumerate() {
                    *slot = column(row, i + 1);
                }
                Ok(history_row_to_point(row.get(0)?, envelope))
            })
            .unwrap()
            .map(Result::unwrap)
            .collect()
    }

    fn history_container(&self, name: &str, window: (u64, u64, u64)) -> Vec<HistoryPoint> {
        self.history(&history_container_sql(), HOST, name, window)
    }

    fn history_stack(&self, stack: &str, window: (u64, u64, u64)) -> Vec<HistoryPoint> {
        self.history(&history_stack_sql(), HOST, stack, window)
    }

    fn history_container_raw(&self, id: &str, window: (u64, u64, u64)) -> Vec<HistoryPoint> {
        self.history(RAW_HISTORY_SQL, HOST, id, window)
    }

    fn container_name(&self, host: &str, id: &str) -> Option<String> {
        self.conn
            .query_row(CONTAINER_NAME_SQL, (host, id), |row| row.get(0))
            .optional()
            .unwrap()
    }

    fn session_secret(&self) -> Vec<u8> {
        let existing: Option<Vec<u8>> = self
            .conn
            .query_row(SELECT_SECRET_SQL, [], |row| row.get(0))
            .optional()
            .unwrap();
        let choice = session_secret(existing).unwrap();
        if choice.fresh {
            self.conn
                .execute(INSERT_SECRET_SQL, (&choice.secret,))
                .unwrap();
        }
        choice.secret
    }

    fn count(&self, table: &str) -> u64 {
        let n: i64 = self
            .conn
            .query_row(&format!("SELECT COUNT(*) FROM {table}"), [], |row| {
                row.get(0)
            })
            .unwrap();
        from_db(n)
    }

    fn plan(&self, sql: &str) -> String {
        let mut stmt = self
            .conn
            .prepare(&format!("EXPLAIN QUERY PLAN {sql}"))
            .unwrap();
        let dummies = vec![rusqlite::types::Value::Integer(1); stmt.parameter_count()];
        stmt.query_map(rusqlite::params_from_iter(dummies), |row| {
            row.get::<_, String>(3)
        })
        .unwrap()
        .map(Result::unwrap)
        .collect::<Vec<_>>()
        .join("; ")
    }
}

fn container_sample(id: &str, cpu: Option<f64>) -> ContainerMetrics {
    ContainerMetrics {
        id: id.to_string(),
        name: format!("c-{id}"),
        image: "img:latest".to_string(),
        state: ContainerState::Running,
        status: "Up".to_string(),
        health: HealthState::NoCheck,
        stack: None,
        cpu_percent: cpu.map(r),
        mem_used: Some(123),
        mem_limit: Some(456),
        net_rx_bps: Some(r(10.0)),
        net_tx_bps: Some(r(20.0)),
        disk_read_bps: Some(r(30.0)),
        disk_write_bps: Some(r(40.0)),
        ports: Vec::new(),
    }
}

fn trend(bucket: u64, id: &str, stack: Option<&str>, metric: Metric, min: f64, median: f64, max: f64) -> ContainerTrend {
    ContainerTrend {
        bucket_start_ms: bucket,
        bucket_secs: 60,
        host: HOST.into(),
        id: id.to_string(),
        name: format!("c-{id}"),
        stack: stack.map(str::to_string),
        metric: metric.as_str(),
        min: r(min),
        max: r(max),
        median: Median::At(r(median)),
        samples: 20,
    }
}

#[test]
fn insert_and_prune_roundtrip() {
    let store = Store::open_in_memory();
    let containers = vec![
        container_sample("a", Some(1.0)),
        container_sample("b", None),
    ];

    store.insert_samples(HOST, 1_000, &containers);
    store.insert_samples(HOST, 5_000, &containers);

    assert_eq!(store.count("container_sample"), 4);

    // Everything strictly before 5000 goes: the first cycle.
    let removed = store.prune_raw(5_000);
    assert_eq!(removed, 2);
    assert_eq!(store.count("container_sample"), 2);
}

#[test]
fn migrates_pre_multi_host_database_in_place() {
    let conn = Connection::open_in_memory().unwrap();
    conn.execute_batch(
        "CREATE TABLE container_sample (
             ts_ms INTEGER NOT NULL, id TEXT NOT NULL, name TEXT NOT NULL,
             cpu_percent REAL, mem_used INTEGER, mem_limit INTEGER,
             net_rx REAL, net_tx REAL, disk_read REAL, disk_write REAL);
         CREATE INDEX container_sample_id_ts ON container_sample(id, ts_ms);
         CREATE TABLE container_trend (
             bucket_start_ms INTEGER NOT NULL, bucket_secs INTEGER NOT NULL,
             id TEXT NOT NULL, name TEXT NOT NULL, stack TEXT, metric TEXT NOT NULL,
             min REAL NOT NULL, max REAL NOT NULL, median REAL NOT NULL, samples INTEGER NOT NULL);
         CREATE INDEX container_trend_ts ON container_trend(id, metric, bucket_start_ms);
         CREATE TABLE meta (key TEXT PRIMARY KEY, value BLOB NOT NULL);
         INSERT INTO container_sample (ts_ms, id, name) VALUES (1000, 'abc', 'c1');",
    )
    .unwrap();

    let store = Store::from_connection(conn);

    // The existing row belongs to the single host of before.
    let backfilled = store
        .conn
        .query_row(
            "SELECT host FROM container_sample WHERE id = 'abc'",
            [],
            |row| row.get::<_, String>(0),
        )
        .unwrap();
    assert_eq!(backfilled, "local");

    store.insert_samples("nas", 2_000, &[container_sample("z", Some(2.0))]);
    assert_eq!(store.count("container_sample"), 2);
}

#[test]
fn legacy_trend_index_is_noticed_and_dropped() {
    let conn = Connection::open_in_memory().unwrap();
    conn.execute_batch(CREATE_TABLES).unwrap();
    conn.execute_batch(
        "CREATE INDEX container_trend_host_id ON container_trend(host, id, metric, bucket_start_ms);",
    )
    .unwrap();
    let present = |c: &Connection| c.query_row(LEGACY_INDEX_SQL, [], |row| row.get::<_, bool>(0));
    assert!(present(&conn).unwrap());
    let store = Store::from_connection(conn);
    assert!(!present(&store.conn).unwrap());
}

#[test]
fn retention_prunes_seek_by_index_instead_of_scanning() {
    let store = Store::open_in_memory();
    let sample = store.plan("DELETE FROM container_sample WHERE ts_ms < 1");
    assert!(
        sample.contains("container_sample_retention") && !sample.contains("SCAN"),
        "sample prune should seek by index, got: {sample}"
    );
    let trend = store.plan("DELETE FROM container_trend WHERE bucket_start_ms < 1");
    assert!(
        trend.contains("container_trend_retention") && !trend.contains("SCAN"),
        "trend prune should seek by index, got: {trend}"
    );
    assert_eq!(store.plan(PRUNE_RAW_SQL), sample);
    assert_eq!(store.plan(PRUNE_TRENDS_SQL), trend);
}

#[test]
fn trend_history_reads_seek_time_range_by_index() {
    let store = Store::open_in_memory();
    for (what, sql, index, time_col, table) in [
        (
            "container history",
            history_container_sql(),
            "container_trend_host_name_ts",
            "bucket_start_ms>",
            "container_trend",
        ),
        (
            "stack history",
            history_stack_sql(),
            "container_trend_host_stack_ts",
            "bucket_start_ms>",
            "container_trend",
        ),
        (
            "stack seed",
            RECENT_STACK_TRENDS_SQL.to_string(),
            "container_trend_host_stack_ts",
            "bucket_start_ms>",
            "container_trend",
        ),
        (
            "raw history",
            RAW_HISTORY_SQL.to_string(),
            "container_sample_host_id_ts",
            "ts_ms>",
            "container_sample",
        ),
    ] {
        let p = store.plan(&sql);
        assert!(
            p.contains(index) && p.contains(time_col),
            "{what} should range-seek {time_col} via {index}, got: {p}"
        );
        assert!(
            !p.contains(&format!("SCAN {table}")),
            "{what} should not scan {table}, got: {p}"
        );
    }
}

#[test]
fn history_survives_container_recreation() {
    let store = Store::open_in_memory();
    let ct = |bucket: u64, id: &str| ContainerTrend {
        name: "web-1".to_string(),
        ..trend(bucket, id, None, Metric::Cpu, 1.0, 2.0, 3.0)
    };
    store.insert_container_trends(&[ct(0, "old-id"), ct(60_000, "new-id")]);

    let h = store.history_container("web-1", (0, u64::MAX, 60_000));
    assert_eq!(h.len(), 2, "history must span both incarnations");

    assert_eq!(
        store.container_name(HOST, "old-id").as_deref(),
        Some("web-1")
    );
    assert_eq!(store.container_name(HOST, "gone"), None);
}

#[test]
fn container_samples_roundtrip_io_rates() {
    let store = Store::open_in_memory();
    store.insert_samples(HOST, 1_000, &[container_sample("a", Some(1.0))]);
    let points = store.recent_container_samples(HOST, "a", 0);
    assert_eq!(points.len(), 1);
    let p = &points[0];
    assert_eq!(of(p.net_rx), Some(10.0));
    assert_eq!(of(p.net_tx), Some(20.0));
    assert_eq!(of(p.disk_read), Some(30.0));
    assert_eq!(of(p.disk_write), Some(40.0));
    assert_eq!(p.mem_used, Some(123));
}

#[test]
fn samples_without_a_cpu_reading_are_returned() {
    let store = Store::open_in_memory();
    store.insert_samples("local", 1_000, &[container_sample("b", None)]);
    let points = store.recent_container_samples("local", "b", 0);
    assert_eq!(points.len(), 1);
    assert_eq!(points[0].ts_ms, 1_000);
    assert_eq!(points[0].mem_used, Some(123));
    assert_eq!(f(points[0].cpu_percent), 0.0);
}

#[test]
fn session_secret_is_generated_once_and_stable() {
    let store = Store::open_in_memory();
    let first = store.session_secret();
    assert_eq!(first.len(), 32);
    assert_eq!(first.len(), SECRET_LEN);
    // A second call returns the same persisted secret, not a fresh one.
    assert_eq!(store.session_secret(), first);
}

#[test]
fn insert_trends_roundtrip() {
    let store = Store::open_in_memory();
    store.insert_container_trends(&[trend(0, "a", Some("web"), Metric::Cpu, 1.0, 4.0, 9.0)]);
    assert_eq!(store.count("container_trend"), 1);
}

#[test]
fn recent_stack_trends_sums_members_and_pivots() {
    let store = Store::open_in_memory();
    let ct = |bucket: u64, id: &str, stack: &str, metric: Metric, median: f64| {
        trend(bucket, id, Some(stack), metric, median, median, median)
    };
    store.insert_container_trends(&[
        // bucket 0: cpu 4+6=10, mem 100+200=300
        ct(0, "a", "web", Metric::Cpu, 4.0),
        ct(0, "a", "web", Metric::Mem, 100.0),
        ct(0, "b", "web", Metric::Cpu, 6.0),
        ct(0, "b", "web", Metric::Mem, 200.0),
        // bucket 60_000: cpu 2+3=5, mem 150+250=400
        ct(60_000, "a", "web", Metric::Cpu, 2.0),
        ct(60_000, "a", "web", Metric::Mem, 150.0),
        ct(60_000, "b", "web", Metric::Cpu, 3.0),
        ct(60_000, "b", "web", Metric::Mem, 250.0),
        // network rates pivot and sum like cpu and mem: 5+15=20
        ct(0, "a", "web", Metric::NetRx, 5.0),
        ct(0, "b", "web", Metric::NetRx, 15.0),
        // a different stack must not leak into the sum
        ct(0, "c", "db", Metric::Cpu, 99.0),
    ]);

    let points = store.recent_stack_trends(HOST, "web", 0);
    assert_eq!(points.len(), 2);
    assert_eq!(points[0].ts_ms, 0);
    assert!((f(points[0].cpu_percent) - 10.0).abs() < 1e-9);
    assert_eq!(points[0].mem_used, Some(300));
    assert_eq!(of(points[0].net_rx), Some(20.0));
    // No disk trends.
    assert_eq!(of(points[0].disk_read), None);
    // The second bucket has no network rows at all.
    assert_eq!(of(points[1].net_rx), None);
    assert_eq!(points[1].ts_ms, 60_000);
    assert!((f(points[1].cpu_percent) - 5.0).abs() < 1e-9);
    assert_eq!(points[1].mem_used, Some(400));

    // Older buckets are left out.
    let recent = store.recent_stack_trends(HOST, "web", 60_000);
    assert_eq!(recent.len(), 1);
    assert_eq!(recent[0].ts_ms, 60_000);
}

#[test]
fn history_container_carries_io_envelope() {
    let store = Store::open_in_memory();
    store.insert_container_trends(&[
        trend(0, "a", None, Metric::NetRx, 100.0, 400.0, 900.0),
        trend(0, "a", None, Metric::DiskWrite, 1.0, 2.0, 3.0),
    ]);

    let h = store.history_container("c-a", (0, u64::MAX, 60_000));
    assert_eq!(h.len(), 1);
    assert_eq!(of(h[0].net_rx_min), Some(100.0));
    assert_eq!(of(h[0].net_rx_med), Some(400.0));
    assert_eq!(of(h[0].net_rx_max), Some(900.0));
    assert_eq!(of(h[0].disk_write_med), Some(2.0));
    // Metrics with no rows in the bucket stay unknown.
    assert_eq!(of(h[0].net_tx_med), None);
    assert_eq!(of(h[0].cpu_med), None);
}

#[test]
fn history_stack_sums_members_then_downsamples() {
    let store = Store::open_in_memory();
    let ct = |bucket: u64, id: &str, min: f64, median: f64, max: f64| {
        trend(bucket, id, Some("web"), Metric::Cpu, min, median, max)
    };
    store.insert_container_trends(&[
        // bucket 0: summed envelope 3, 10, 19
        ct(0, "a", 1.0, 4.0, 9.0),
        ct(0, "b", 2.0, 6.0, 10.0),
        // bucket 60_000: summed envelope 2, 5, 8
        ct(60_000, "a", 1.0, 2.0, 3.0),
        ct(60_000, "b", 1.0, 3.0, 5.0),
    ]);

    let fine = store.history_stack("web", (0, u64::MAX, 60_000));
    assert_eq!(fine.len(), 2);
    assert_eq!(of(fine[0].cpu_min), Some(3.0));
    assert_eq!(of(fine[0].cpu_med), Some(10.0));
    assert_eq!(of(fine[0].cpu_max), Some(19.0));

    // A coarse group merges the summed buckets.
    let coarse = store.history_stack("web", (0, u64::MAX, 120_000));
    assert_eq!(coarse.len(), 1);
    assert_eq!(of(coarse[0].cpu_min), Some(2.0));
    assert_eq!(of(coarse[0].cpu_med), Some(7.5));
    assert_eq!(of(coarse[0].cpu_max), Some(19.0));

    // Unknown stacks and containers have an empty history.
    assert!(store.history_stack("nope", (0, u64::MAX, 60_000)).is_empty());
    assert!(store
        .history_container("nope", (0, u64::MAX, 60_000))
        .is_empty());
}

#[test]
fn raw_history_downsamples_and_respects_window() {
    let store = Store::open_in_memory();
    let c = |cpu| [container_sample("a", Some(cpu))];
    for (ts, cpu) in [(0, 10.0), (1_000, 30.0), (2_000, 20.0), (5_000, 40.0)] {
        store.insert_samples(HOST, ts, &c(cpu));
    }

    // Groups of 3 s: the first three samples merge.
    let h = store.history_container_raw("a", (0, u64::MAX, 3_000));
    assert_eq!(h.len(), 2, "4 samples in 3s groups must yield 2 points");
    assert_eq!(of(h[0].cpu_min), Some(10.0));
    assert_eq!(of(h[0].cpu_med), Some(20.0));
    assert_eq!(of(h[0].cpu_max), Some(30.0));

    // A group below the sample spacing keeps full resolution.
    let full = store.history_container_raw("a", (0, u64::MAX, 500));
    assert_eq!(full.len(), 4);
    assert_eq!(of(full[3].cpu_min), of(full[3].cpu_max));

    // The query itself is bounded.
    let bounded = store.history_container_raw("a", (1_000, 2_000, 500));
    assert_eq!(bounded.len(), 2);

    // A group of no width keeps every sample.
    assert_eq!(store.history_container_raw("a", (0, u64::MAX, 0)).len(), 4);
}

#[test]
fn recent_container_samples_filters_and_orders() {
    let store = Store::open_in_memory();
    let c = |cpu| [container_sample("a", Some(cpu))];
    store.insert_samples(HOST, 5_000, &c(20.0));
    store.insert_samples(HOST, 1_000, &c(10.0));
    store.insert_samples(HOST, 9_000, &c(30.0));

    let points = store.recent_container_samples(HOST, "a", 5_000);
    assert_eq!(points.len(), 2);
    // Oldest first, from 5000 on.
    assert_eq!(points[0].ts_ms, 5_000);
    assert_eq!(points[1].ts_ms, 9_000);
}

#[test]
fn prune_trends_drops_old_buckets() {
    let store = Store::open_in_memory();
    let t = |start: u64| trend(start, "a", None, Metric::Cpu, 1.0, 1.5, 2.0);
    store.insert_container_trends(&[t(1_000), t(50_000)]);
    let removed = store.prune_trends(50_000);
    assert_eq!(removed, 1);
    assert_eq!(store.count("container_trend"), 1);
}

#[test]
fn counts_are_capped_at_the_storage_boundary() {
    assert_eq!(to_db(0), 0);
    assert_eq!(to_db(1_720_000_000_000), 1_720_000_000_000);
    assert_eq!(to_db(u64::MAX), i64::MAX);
    assert_eq!(from_db(-1), 0);
    assert_eq!(from_db(i64::MAX), 9_223_372_036_854_775_807);
    assert_eq!(opt_to_db(None), None);
    assert_eq!(opt_to_db(Some(u64::MAX)), Some(i64::MAX));
    let b = history_bounds(1, u64::MAX, 0);
    assert_eq!((b.since_ms, b.until_ms, b.group_ms), (1, i64::MAX, 1));
}

#[test]
fn a_stored_secret_is_kept() {
    let choice = session_secret(Some(vec![1, 2, 3])).unwrap();
    assert_eq!(choice.secret, vec![1, 2, 3]);
    assert!(!choice.fresh);
    let fresh = session_secret(None).unwrap();
    assert!(fresh.fresh);
    assert_eq!(fresh.secret.len(), 32);
}

#[test]
fn a_drawn_secret_is_fresh_and_a_failed_draw_is_passed_on() {
    let choice = fresh_choice(Ok(vec![7; SECRET_LEN])).unwrap();
    assert_eq!(choice.secret, vec![7; SECRET_LEN]);
    assert!(choice.fresh);
    assert!(matches!(
        fresh_choice(Err(RandomUnavailable)),
        Err(RandomUnavailable)
    ));
}

#[test]
fn the_point_of_a_row_carries_what_was_recorded() {
    let containers = [container_sample("a", Some(12.5)), container_sample("b", None)];
    let rows = sample_rows(HOST, 7_000, &containers);
    let points: Vec<MetricPoint> = rows
        .iter()
        .map(|row| {
            let rates = [row.net_rx, row.net_tx, row.disk_read, row.disk_write];
            row_to_point(row.ts_ms, row.cpu_percent, row.mem_used, rates)
        })
        .collect();
    assert_eq!(f(points[0].cpu_percent), 12.5);
    assert_eq!(f(points[1].cpu_percent), 0.0);
    for p in points {
        assert_eq!(p.ts_ms, 7_000);
        assert_eq!(p.mem_used, Some(123));
        assert_eq!(of(p.net_rx), Some(10.0));
        assert_eq!(of(p.net_tx), Some(20.0));
        assert_eq!(of(p.disk_read), Some(30.0));
        assert_eq!(of(p.disk_write), Some(40.0));
    }
}

#[test]
fn columns_are_added_only_where_missing() {
    let columns = vec!["ts_ms".to_string(), "id".to_string()];
    assert_eq!(
        add_column_if_missing(&columns, "container_sample", "id", "TEXT"),
        None
    );
    assert_eq!(
        add_column_if_missing(&columns, "container_sample", "net_rx", "REAL").as_deref(),
        Some("ALTER TABLE container_sample ADD COLUMN net_rx REAL")
    );
    assert_eq!(
        table_info_sql("container_trend"),
        "PRAGMA table_info(container_trend)"
    );
    let names: Vec<String> = backfills()
        .iter()
        .map(|b| format!("{}.{} {}", b.table, b.column, b.decl))
        .collect();
    assert_eq!(
        names,
        vec![
            "container_sample.host TEXT NOT NULL DEFAULT 'local'",
            "container_trend.host TEXT NOT NULL DEFAULT 'local'",
            "container_sample.net_rx REAL",
            "container_sample.net_tx REAL",
            "container_sample.disk_read REAL",
            "container_sample.disk_write REAL",
        ]
    );
}
