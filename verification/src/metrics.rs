//! Lightweight in-process metrics, exported in Prometheus text exposition format.
//!
//! Counters only; the clock, and durations as decimal texts, are the caller's.

use crate::api::StatusResponse;
use crate::text;
use vstd::prelude::*;
use vstd::string::*;

verus! {

/// Counters and gauges of the service.
#[derive(Debug, Clone, Copy)]
pub struct Metrics {
    pub requests_total: u64,
    pub requests_by_status_2xx: u64,
    pub requests_by_status_4xx: u64,
    pub requests_by_status_5xx: u64,
    pub commits_total: u64,
    pub committed_ops_total: u64,
    pub cas_conflicts_total: u64,
    pub rejected_txns_total: u64,
    pub reads_total: u64,
    pub scans_total: u64,
    pub compactions_total: u64,
    pub compactions_failed_total: u64,
    pub wal_bytes_written_total: u64,
    pub snapshot_bytes_written_total: u64,
    pub keys: u64,
    pub lsn: u64,
    pub wal_total_bytes: u64,
    pub compacting: u64,
    pub last_snapshot_lsn: u64,
}

/// All counters at zero.
pub open spec fn zero_metrics() -> Metrics {
    Metrics {
        requests_total: 0,
        requests_by_status_2xx: 0,
        requests_by_status_4xx: 0,
        requests_by_status_5xx: 0,
        commits_total: 0,
        committed_ops_total: 0,
        cas_conflicts_total: 0,
        rejected_txns_total: 0,
        reads_total: 0,
        scans_total: 0,
        compactions_total: 0,
        compactions_failed_total: 0,
        wal_bytes_written_total: 0,
        snapshot_bytes_written_total: 0,
        keys: 0,
        lsn: 0,
        wal_total_bytes: 0,
        compacting: 0,
        last_snapshot_lsn: 0,
    }
}

impl Default for Metrics {
    fn default() -> (r: Metrics)
        ensures
            r == zero_metrics(),
    {
        Metrics {
            requests_total: 0,
            requests_by_status_2xx: 0,
            requests_by_status_4xx: 0,
            requests_by_status_5xx: 0,
            commits_total: 0,
            committed_ops_total: 0,
            cas_conflicts_total: 0,
            rejected_txns_total: 0,
            reads_total: 0,
            scans_total: 0,
            compactions_total: 0,
            compactions_failed_total: 0,
            wal_bytes_written_total: 0,
            snapshot_bytes_written_total: 0,
            keys: 0,
            lsn: 0,
            wal_total_bytes: 0,
            compacting: 0,
            last_snapshot_lsn: 0,
        }
    }
}

/// One more, around at the largest number.
pub open spec fn bumped(n: u64) -> u64 {
    if n == u64::MAX {
        0
    } else {
        (n + 1) as u64
    }
}

/// The counters after a response with a status.
pub open spec fn counted(m: Metrics, status: u16) -> Metrics {
    let n = Metrics { requests_total: bumped(m.requests_total), ..m };
    if 200 <= status <= 299 {
        Metrics { requests_by_status_2xx: bumped(m.requests_by_status_2xx), ..n }
    } else if 400 <= status <= 499 {
        Metrics { requests_by_status_4xx: bumped(m.requests_by_status_4xx), ..n }
    } else {
        Metrics { requests_by_status_5xx: bumped(m.requests_by_status_5xx), ..n }
    }
}

/// One metric: what it means, its type, and its value.
pub open spec fn metric(
    name: Seq<char>,
    help: Seq<char>,
    kind: Seq<char>,
    value: Seq<char>,
) -> Seq<char> {
    metric_head(name, help, kind) + name + " "@ + value + "\n"@
}

/// What a metric means, and its type.
pub open spec fn metric_head(name: Seq<char>, help: Seq<char>, kind: Seq<char>) -> Seq<char> {
    "# HELP "@ + name + " "@ + help + "\n# TYPE "@ + name + " "@ + kind + "\n"@
}

/// One counter.
pub open spec fn counter(name: Seq<char>, help: Seq<char>, value: u64) -> Seq<char> {
    metric(name, help, "counter"@, text::decimal(value as nat))
}

/// One gauge.
pub open spec fn gauge(name: Seq<char>, help: Seq<char>, value: u64) -> Seq<char> {
    metric(name, help, "gauge"@, text::decimal(value as nat))
}

/// The requests of one status class.
pub open spec fn class_line(class: Seq<char>, value: u64) -> Seq<char> {
    "kvstore_http_requests_total{status_class=\""@ + class + "\"} "@ + text::decimal(value as nat)
        + "\n"@
}

/// All metrics as Prometheus text. The two durations come as decimal numbers of seconds.
pub open spec fn prometheus(m: Metrics, uptime: Seq<char>, last_duration: Seq<char>) -> Seq<char> {
    metric(
        "kvstore_uptime_seconds"@,
        "Process uptime in seconds."@,
        "gauge"@,
        uptime,
    ) + metric_head(
        "kvstore_http_requests_total"@,
        "Total HTTP requests by status class."@,
        "counter"@,
    ) + class_line("2xx"@, m.requests_by_status_2xx) + class_line(
        "4xx"@,
        m.requests_by_status_4xx,
    ) + class_line("5xx"@, m.requests_by_status_5xx) + counter(
        "kvstore_commits_total"@,
        "Committed transactions."@,
        m.commits_total,
    ) + counter(
        "kvstore_committed_ops_total"@,
        "Individual ops applied in committed transactions."@,
        m.committed_ops_total,
    ) + counter(
        "kvstore_cas_conflicts_total"@,
        "Failed compare-and-swap checks."@,
        m.cas_conflicts_total,
    ) + counter(
        "kvstore_rejected_transactions_total"@,
        "Transactions rejected before commit."@,
        m.rejected_txns_total,
    ) + counter("kvstore_reads_total"@, "Single-key reads served."@, m.reads_total) + counter(
        "kvstore_scans_total"@,
        "Prefix/range scans served."@,
        m.scans_total,
    ) + counter(
        "kvstore_compactions_total"@,
        "Completed snapshot compactions."@,
        m.compactions_total,
    ) + counter(
        "kvstore_compactions_failed_total"@,
        "Failed snapshot compactions."@,
        m.compactions_failed_total,
    ) + counter(
        "kvstore_wal_bytes_written_total"@,
        "Bytes appended and fsynced to the WAL."@,
        m.wal_bytes_written_total,
    ) + counter(
        "kvstore_snapshot_bytes_written_total"@,
        "Bytes written to snapshots."@,
        m.snapshot_bytes_written_total,
    ) + gauge("kvstore_keys_current"@, "Current number of live keys."@, m.keys) + gauge(
        "kvstore_lsn"@,
        "Current commit log sequence number."@,
        m.lsn,
    ) + gauge(
        "kvstore_wal_bytes_current"@,
        "Current total on-disk WAL size in bytes."@,
        m.wal_total_bytes,
    ) + gauge(
        "kvstore_compacting"@,
        "1 while a snapshot compaction is running."@,
        m.compacting,
    ) + gauge(
        "kvstore_last_snapshot_lsn"@,
        "LSN of the most recent durable snapshot."@,
        m.last_snapshot_lsn,
    ) + metric(
        "kvstore_last_compaction_duration_seconds"@,
        "Wall-clock duration of the last compaction."@,
        "gauge"@,
        last_duration,
    )
}

fn push_head(s: &mut String, name: &str, help: &str, kind: &str)
    ensures
        final(s)@ == old(s)@ + metric_head(name@, help@, kind@),
{
    let ghost before = s@;
    s.append("# HELP ");
    s.append(name);
    s.append(" ");
    s.append(help);
    s.append("\n# TYPE ");
    s.append(name);
    s.append(" ");
    s.append(kind);
    s.append("\n");
    assert(s@ =~= before + metric_head(name@, help@, kind@));
}

pub(crate) fn push_metric(s: &mut String, name: &str, help: &str, kind: &str, value: &str)
    ensures
        final(s)@ == old(s)@ + metric(name@, help@, kind@, value@),
{
    let ghost before = s@;
    push_head(s, name, help, kind);
    s.append(name);
    s.append(" ");
    s.append(value);
    s.append("\n");
    assert(s@ =~= before + metric(name@, help@, kind@, value@));
}

pub(crate) fn push_counter(s: &mut String, name: &str, help: &str, value: u64)
    ensures
        final(s)@ == old(s)@ + counter(name@, help@, value),
{
    push_metric(s, name, help, "counter", text::number_text(value).as_str());
}

pub(crate) fn push_gauge(s: &mut String, name: &str, help: &str, value: u64)
    ensures
        final(s)@ == old(s)@ + gauge(name@, help@, value),
{
    push_metric(s, name, help, "gauge", text::number_text(value).as_str());
}

fn push_class(s: &mut String, class: &str, value: u64)
    ensures
        final(s)@ == old(s)@ + class_line(class@, value),
{
    let ghost before = s@;
    s.append("kvstore_http_requests_total{status_class=\"");
    s.append(class);
    s.append("\"} ");
    s.append(text::number_text(value).as_str());
    s.append("\n");
    assert(s@ =~= before + class_line(class@, value));
}

impl Metrics {
    /// Counts a response by its status class.
    pub fn record_status(&mut self, status: u16)
        ensures
            *final(self) == counted(*old(self), status),
    {
        self.requests_total = self.requests_total.wrapping_add(1);
        if 200 <= status && status <= 299 {
            self.requests_by_status_2xx = self.requests_by_status_2xx.wrapping_add(1);
        } else if 400 <= status && status <= 499 {
            self.requests_by_status_4xx = self.requests_by_status_4xx.wrapping_add(1);
        } else {
            self.requests_by_status_5xx = self.requests_by_status_5xx.wrapping_add(1);
        }
    }

    /// Takes the gauges over from the status of the store.
    pub fn observe(&mut self, s: &StatusResponse)
        ensures
            *final(self) == (Metrics {
                keys: s.key_count as u64,
                lsn: s.lsn,
                wal_total_bytes: s.wal_total_bytes,
                compacting: if s.compacting {
                    1
                } else {
                    0
                },
                last_snapshot_lsn: s.snapshot_lsn,
                ..*old(self)
            }),
    {
        self.keys = s.key_count as u64;
        self.lsn = s.lsn;
        self.wal_total_bytes = s.wal_total_bytes;
        self.compacting = if s.compacting {
            1
        } else {
            0
        };
        self.last_snapshot_lsn = s.snapshot_lsn;
    }

    /// All metrics as Prometheus text, with the uptime and the duration of the last compaction in
    /// seconds.
    pub fn render_prometheus(&self, uptime: &str, last_duration: &str) -> (r: String)
        ensures
            r@ == prometheus(*self, uptime@, last_duration@),
    {
        let mut s = String::new();
        push_metric(
            &mut s,
            "kvstore_uptime_seconds",
            "Process uptime in seconds.",
            "gauge",
            uptime,
        );
        push_head(
            &mut s,
            "kvstore_http_requests_total",
            "Total HTTP requests by status class.",
            "counter",
        );
        push_class(&mut s, "2xx", self.requests_by_status_2xx);
        push_class(&mut s, "4xx", self.requests_by_status_4xx);
        push_class(&mut s, "5xx", self.requests_by_status_5xx);
        push_counter(
            &mut s,
            "kvstore_commits_total",
            "Committed transactions.",
            self.commits_total,
        );
        push_counter(
            &mut s,
            "kvstore_committed_ops_total",
            "Individual ops applied in committed transactions.",
            self.committed_ops_total,
        );
        push_counter(
            &mut s,
            "kvstore_cas_conflicts_total",
            "Failed compare-and-swap checks.",
            self.cas_conflicts_total,
        );
        push_counter(
            &mut s,
            "kvstore_rejected_transactions_total",
            "Transactions rejected before commit.",
            self.rejected_txns_total,
        );
        push_counter(
            &mut s,
            "kvstore_reads_total",
            "Single-key reads served.",
            self.reads_total,
        );
        push_counter(
            &mut s,
            "kvstore_scans_total",
            "Prefix/range scans served.",
            self.scans_total,
        );
        push_counter(
            &mut s,
            "kvstore_compactions_total",
            "Completed snapshot compactions.",
            self.compactions_total,
        );
        push_counter(
            &mut s,
            "kvstore_compactions_failed_total",
            "Failed snapshot compactions.",
            self.compactions_failed_total,
        );
        push_counter(
            &mut s,
            "kvstore_wal_bytes_written_total",
            "Bytes appended and fsynced to the WAL.",
            self.wal_bytes_written_total,
        );
        push_counter(
            &mut s,
            "kvstore_snapshot_bytes_written_total",
            "Bytes written to snapshots.",
            self.snapshot_bytes_written_total,
        );
        push_gauge(&mut s, "kvstore_keys_current", "Current number of live keys.", self.keys);
        push_gauge(&mut s, "kvstore_lsn", "Current commit log sequence number.", self.lsn);
        push_gauge(
            &mut s,
            "kvstore_wal_bytes_current",
            "Current total on-disk WAL size in bytes.",
            self.wal_total_bytes,
        );
        push_gauge(
            &mut s,
            "kvstore_compacting",
            "1 while a snapshot compaction is running.",
            self.compacting,
        );
        push_gauge(
            &mut s,
            "kvstore_last_snapshot_lsn",
            "LSN of the most recent durable snapshot.",
            self.last_snapshot_lsn,
        );
        push_metric(
            &mut s,
            "kvstore_last_compaction_duration_seconds",
            "Wall-clock duration of the last compaction.",
            "gauge",
            last_duration,
        );
        assert(s@ =~= prometheus(*self, uptime@, last_duration@));
        s
    }
}

} // verus!
