//! What the settings, the metrics and the errors of the service promise.

use crate::address;
use crate::config::Config;
use crate::error;
use crate::error::{KvError, StoreError};
use crate::metrics;
use crate::server;
use crate::store::Status;
use crate::text;
use crate::text_laws;
use vstd::prelude::*;
use vstd::string::*;

verus! {

// ---------- settings ----------

/// The names of the settings that are texts.
pub open spec fn text_setting(name: Seq<char>) -> bool {
    name == "DATA_DIR"@ || name == "LISTEN_ADDR"@
}

/// The names of the settings that are sizes.
pub open spec fn size_setting(name: Seq<char>) -> bool {
    ||| name == "MAX_KEY_BYTES"@
    ||| name == "MAX_VALUE_BYTES"@
    ||| name == "MAX_TXN_OPS"@
    ||| name == "MAX_OPS_PER_TXN"@
    ||| name == "COMPACTION_THRESHOLD_BYTES"@
    ||| name == "WAL_COMPACT_THRESHOLD"@
}

proof fn lemma_names_differ()
    ensures
        "DATA_DIR"@.len() == 8,
        "LISTEN_ADDR"@.len() == 11,
        "LISTEN_ADDR"@[0] == 'L',
        "MAX_KEY_BYTES"@.len() == 13,
        "MAX_VALUE_BYTES"@.len() == 15,
        "MAX_VALUE_BYTES"@[4] == 'V',
        "MAX_TXN_OPS"@.len() == 11,
        "MAX_TXN_OPS"@[0] == 'M',
        "MAX_OPS_PER_TXN"@.len() == 15,
        "MAX_OPS_PER_TXN"@[4] == 'O',
        "COMPACTION_THRESHOLD_BYTES"@.len() == 26,
        "WAL_COMPACT_THRESHOLD"@.len() == 21,
{
    reveal_strlit("DATA_DIR");
    reveal_strlit("LISTEN_ADDR");
    reveal_strlit("MAX_KEY_BYTES");
    reveal_strlit("MAX_VALUE_BYTES");
    reveal_strlit("MAX_TXN_OPS");
    reveal_strlit("MAX_OPS_PER_TXN");
    reveal_strlit("COMPACTION_THRESHOLD_BYTES");
    reveal_strlit("WAL_COMPACT_THRESHOLD");
}

/// Without variables the defaults hold.
pub proof fn lemma_defaults(vars: Vec<(String, String)>, d: Config, r: Result<Config, KvError>)
    requires
        call_ensures(Config::load_from, (vars,), r),
        call_ensures(<Config as Default>::default, (), d),
        vars@.len() == 0,
        r is Ok,
    ensures
        r->Ok_0.data_dir@ == d.data_dir@,
        r->Ok_0.listen_addr@ == d.listen_addr@,
        r->Ok_0.max_key_bytes == d.max_key_bytes,
        r->Ok_0.max_value_bytes == d.max_value_bytes,
        r->Ok_0.max_txn_ops == d.max_txn_ops,
        r->Ok_0.compaction_threshold_bytes == d.compaction_threshold_bytes,
{
}

/// One more variable behind variables that are accepted. A size is taken over where it is a positive
/// number that fits, a directory where it is not blank, and an address where it is a socket address;
/// each to the letter, and nothing else changes. An unknown name is refused.
pub proof fn lemma_one_more_variable(
    vars: Vec<(String, String)>,
    r: Result<Config, KvError>,
    more: Vec<(String, String)>,
    name: String,
    value: String,
    bytes: &[u8],
    number: Option<i64>,
    addr: &str,
    is_address: bool,
    r2: Result<Config, KvError>,
)
    requires
        call_ensures(Config::load_from, (vars,), r),
        r is Ok,
        more@ == vars@.push((name, value)),
        call_ensures(Config::load_from, (more,), r2),
        bytes@ == vstd::utf8::encode_utf8(value@),
        call_ensures(text::read_signed, (bytes,), number),
        addr@ == value@,
        call_ensures(address::is_socket_address, (addr,), is_address),
    ensures
        r2 is Err ==> r2->Err_0@ is InvalidConfig,
        !text_setting(name@) && !size_setting(name@) ==> r2 is Err,
        name@ == "DATA_DIR"@ ==> (r2 is Ok <==> !text_laws::all_white(value@)),
        name@ == "LISTEN_ADDR"@ ==> (r2 is Ok <==> !text_laws::all_white(value@) && is_address),
        size_setting(name@) ==> (r2 is Ok <==> number is Some && 0 < number->Some_0 && (
        number->Some_0 <= usize::MAX || name@ == "COMPACTION_THRESHOLD_BYTES"@ || name@
            == "WAL_COMPACT_THRESHOLD"@)),
        r2 is Ok ==> {
            let c = r->Ok_0;
            let d = r2->Ok_0;
            &&& d.data_dir@ == if name@ == "DATA_DIR"@ {
                value@
            } else {
                c.data_dir@
            }
            &&& d.listen_addr@ == if name@ == "LISTEN_ADDR"@ {
                value@
            } else {
                c.listen_addr@
            }
            &&& d.max_key_bytes == if name@ == "MAX_KEY_BYTES"@ {
                number->Some_0 as int
            } else {
                c.max_key_bytes as int
            }
            &&& d.max_value_bytes == if name@ == "MAX_VALUE_BYTES"@ {
                number->Some_0 as int
            } else {
                c.max_value_bytes as int
            }
            &&& d.max_txn_ops == if name@ == "MAX_TXN_OPS"@ || name@ == "MAX_OPS_PER_TXN"@ {
                number->Some_0 as int
            } else {
                c.max_txn_ops as int
            }
            &&& d.compaction_threshold_bytes == if name@ == "COMPACTION_THRESHOLD_BYTES"@ || name@
                == "WAL_COMPACT_THRESHOLD"@ {
                number->Some_0 as int
            } else {
                c.compaction_threshold_bytes as int
            }
        },
{
    lemma_names_differ();
    assert(more@.drop_last() =~= vars@);
    assert(more@.last() == (name, value));
    assert(text::blank(value@) == text_laws::all_white(value@));
}

/// A setting is refused wherever it stands: an unknown name, or a size that is no positive number.
pub proof fn lemma_bad_variable_is_refused(
    vars: Vec<(String, String)>,
    i: int,
    bytes: &[u8],
    number: Option<i64>,
    r: Result<Config, KvError>,
)
    requires
        call_ensures(Config::load_from, (vars,), r),
        0 <= i < vars@.len(),
        bytes@ == vstd::utf8::encode_utf8(vars@[i].1@),
        call_ensures(text::read_signed, (bytes,), number),
        !text_setting(vars@[i].0@),
        size_setting(vars@[i].0@) ==> number is None || number->Some_0 <= 0,
    ensures
        r is Err,
{
    lemma_names_differ();
    lemma_bad_stays(vars@, i, vars@.len() as int);
    assert(vars@.take(vars@.len() as int) =~= vars@);
}

proof fn lemma_bad_stays(vars: Seq<(String, String)>, i: int, n: int)
    requires
        0 <= i < n <= vars.len(),
        forall|c: crate::config::ConfigView| #[trigger]
            crate::config::set_var(c, vars[i].0@, vars[i].1@) is Err,
    ensures
        crate::config::set_vars(vars.take(n)) is Err,
    decreases n,
{
    assert(vars.take(n).drop_last() =~= vars.take(n - 1));
    assert(vars.take(n).last() == vars[n - 1]);
    if i < n - 1 {
        lemma_bad_stays(vars, i, n - 1);
    }
}

// ---------- metrics ----------

/// A text holds another one.
pub open spec fn holds_text(page: Seq<char>, part: Seq<char>) -> bool {
    exists|i: int|
        0 <= i <= i + part.len() <= page.len() && #[trigger] page.subrange(
            i,
            i + part.len(),
        ) == part
}

spec fn pasted(parts: Seq<Seq<char>>) -> Seq<char>
    decreases parts.len(),
{
    if parts.len() == 0 {
        Seq::empty()
    } else {
        pasted(parts.drop_last()) + parts.last()
    }
}

proof fn lemma_holds(a: Seq<char>, part: Seq<char>, b: Seq<char>)
    ensures
        holds_text(a + part + b, part),
{
    let page = a + part + b;
    assert(page.subrange(a.len() as int, (a.len() + part.len()) as int) =~= part);
}

proof fn lemma_pasted_holds(parts: Seq<Seq<char>>, i: int, line: Seq<char>)
    requires
        0 <= i < parts.len(),
        holds_text(parts[i], line),
    ensures
        holds_text(pasted(parts), line),
    decreases parts.len(),
{
    let before = pasted(parts.drop_last());
    let page = pasted(parts);
    if i == parts.len() - 1 {
        let x = choose|x: int|
            0 <= x <= x + line.len() <= parts[i].len() && #[trigger] parts[i].subrange(
                x,
                x + line.len(),
            ) == line;
        let y = before.len() + x;
        assert(page.subrange(y, y + line.len()) =~= line);
    } else {
        lemma_pasted_holds(parts.drop_last(), i, line);
        let x = choose|x: int|
            0 <= x <= x + line.len() <= before.len() && #[trigger] before.subrange(
                x,
                x + line.len(),
            ) == line;
        assert(page.subrange(x, x + line.len()) =~= line);
    }
}

/// The line that gives the value of a metric.
pub open spec fn value_line(name: Seq<char>, value: Seq<char>) -> Seq<char> {
    "\n"@ + name + " "@ + value + "\n"@
}

proof fn lemma_metric_line(name: Seq<char>, help: Seq<char>, kind: Seq<char>, value: Seq<char>)
    ensures
        holds_text(metrics::metric(name, help, kind, value), value_line(name, value)),
{
    let a = "# HELP "@ + name + " "@ + help + "\n# TYPE "@ + name + " "@ + kind;
    let line = value_line(name, value);
    assert(metrics::metric(name, help, kind, value) =~= a + line + Seq::<char>::empty());
    lemma_holds(a, line, Seq::empty());
}

/// A counter goes up by one, around at the largest number.
pub open spec fn one_more(before: u64, after: u64) -> bool {
    after == (before + 1) % 0x1_0000_0000_0000_0000
}

/// A request that has come in is counted, and is one more in flight.
pub proof fn lemma_begin_request(m: &mut server::Metrics, r: ())
    requires
        call_ensures(server::Metrics::begin_request, (m,), r),
    ensures
        one_more(old(m).requests_total, final(m).requests_total),
        one_more(old(m).inflight, final(m).inflight),
        final(m).errors_5xx_total == old(m).errors_5xx_total,
        final(m).requests_by_route@ == old(m).requests_by_route@,
{
}

/// A request that is answered is no longer in flight, is an error of the server where its status says
/// so, and is counted under its route and no other.
pub proof fn lemma_end_request(m: &mut server::Metrics, label: &str, status: u16, r: ())
    requires
        call_ensures(server::Metrics::end_request, (m, label, status), r),
    ensures
        one_more(final(m).inflight, old(m).inflight),
        final(m).requests_total == old(m).requests_total,
        500 <= status <= 599 ==> one_more(old(m).errors_5xx_total, final(m).errors_5xx_total),
        !(500 <= status <= 599) ==> final(m).errors_5xx_total == old(m).errors_5xx_total,
        ({
            let k = vstd::utf8::encode_utf8(label@);
            let before = old(m).requests_by_route@;
            let after = final(m).requests_by_route@;
            &&& after.dom().contains(k)
            &&& after[k].0 == label@
            &&& before.dom().contains(k) ==> one_more(before[k].1, after[k].1)
            &&& !before.dom().contains(k) ==> after[k].1 == 1
            &&& forall|x: Seq<u8>|
                x != k ==> (#[trigger] after.dom().contains(x) <==> before.dom().contains(x))
            &&& forall|x: Seq<u8>| x != k && before.dom().contains(x) ==> #[trigger] after[x]
                == before[x]
        }),
{
}

/// The label of a route is what stands in a path behind the slashes at its start, up to the second
/// slash from there.
pub proof fn lemma_route_label(path: &str, r: String)
    requires
        call_ensures(server::route_label, (path,), r),
    ensures
        r@.len() > 0 ==> r@[0] != '/',
        forall|i: int, j: int|
            0 <= i < j < r@.len() ==> !(#[trigger] r@[i] == '/' && #[trigger] r@[j] == '/'),
        exists|a: Seq<char>, b: Seq<char>|
            {
                &&& #[trigger] slashes(a)
                &&& path@ == #[trigger] (a + r@ + b)
                &&& b.len() > 0 ==> b[0] == '/' && exists|i: int|
                    0 <= i < r@.len() && #[trigger] r@[i] == '/'
            },
{
    let p = path@;
    let n = server::behind_slashes(p, 0);
    lemma_behind_slashes(p, 0);
    let e = server::label_end(p, n, 1);
    lemma_label_end(p, n, 1);
    let a = p.take(n);
    let b = p.skip(e);
    assert(p =~= a + r@ + b);
    assert(slashes(a));
    if r@.len() > 0 {
        assert(r@[0] == p[n]);
    }
    assert forall|i: int, j: int| 0 <= i < j < r@.len() implies !(#[trigger] r@[i] == '/'
        && #[trigger] r@[j] == '/') by {
        assert(r@[i] == p[n + i] && r@[j] == p[n + j]);
    }
    if b.len() > 0 {
        assert(b[0] == p[e]);
        let x = choose|x: int| n <= x < e && #[trigger] p[x] == '/';
        assert(r@[x - n] == '/');
    }
}

/// A text made of slashes.
pub open spec fn slashes(s: Seq<char>) -> bool {
    forall|i: int| 0 <= i < s.len() ==> #[trigger] s[i] == '/'
}

proof fn lemma_behind_slashes(s: Seq<char>, from: int)
    requires
        0 <= from <= s.len(),
    ensures
        from <= server::behind_slashes(s, from) <= s.len(),
        forall|i: int| from <= i < server::behind_slashes(s, from) ==> #[trigger] s[i] == '/',
        server::behind_slashes(s, from) < s.len() ==> s[server::behind_slashes(s, from)] != '/',
    decreases s.len() - from,
{
    if from < s.len() && s[from] == '/' {
        lemma_behind_slashes(s, from + 1);
    }
}

proof fn lemma_label_end(s: Seq<char>, from: int, more: int)
    requires
        0 <= from <= s.len(),
        0 <= more <= 1,
    ensures
        ({
            let e = server::label_end(s, from, more);
            &&& from <= e <= s.len()
            &&& e < s.len() ==> s[e] == '/'
            &&& more == 0 ==> forall|i: int| from <= i < e ==> #[trigger] s[i] != '/'
            &&& forall|i: int, j: int|
                from <= i < j < e ==> !(#[trigger] s[i] == '/' && #[trigger] s[j] == '/')
            &&& more == 1 && e < s.len() ==> exists|x: int| from <= x < e && #[trigger] s[x] == '/'
        }),
    decreases s.len() - from,
{
    if from < s.len() {
        if s[from] == '/' {
            if more > 0 {
                lemma_label_end(s, from + 1, 0);
            }
        } else {
            lemma_label_end(s, from + 1, more);
        }
    }
}

/// The metrics page has a line for each number of the service and of the store, with its value.
pub proof fn lemma_render(m: &server::Metrics, status: &Status, uptime: &str, r: String)
    requires
        m.wf(),
        call_ensures(server::Metrics::render, (m, status, uptime), r),
    ensures
        holds_text(r@, value_line("kvs_requests_total"@, text::decimal(m.requests_total as nat))),
        holds_text(r@, value_line("kvs_inflight_requests"@, text::decimal(m.inflight as nat))),
        holds_text(
            r@,
            value_line("kvs_errors_5xx_total"@, text::decimal(m.errors_5xx_total as nat)),
        ),
        holds_text(r@, value_line("kvs_key_count"@, text::decimal(status.key_count as nat))),
        holds_text(r@, value_line("kvs_last_lsn"@, text::decimal(status.last_lsn as nat))),
        holds_text(
            r@,
            value_line("kvs_wal_size_bytes"@, text::decimal(status.wal_size_bytes as nat)),
        ),
        holds_text(
            r@,
            value_line("kvs_last_snapshot_lsn"@, text::decimal(status.last_snapshot_lsn as nat)),
        ),
        holds_text(
            r@,
            value_line(
                "kvs_compacting"@,
                text::decimal(
                    if status.compacting {
                        1
                    } else {
                        0
                    },
                ),
            ),
        ),
        holds_text(r@, value_line("kvs_uptime_seconds"@, uptime@)),
        forall|k: Seq<u8>| #[trigger]
            m.requests_by_route@.dom().contains(k) ==> holds_text(
                r@,
                "kvs_requests_by_route_total{route=\""@ + m.requests_by_route@[k].0 + "\"} "@
                    + text::decimal(m.requests_by_route@[k].1 as nat) + "\n"@,
            ),
{
    let routes = m.requests_by_route@;
    m.requests_by_route.lemma_entries();
    let ks = crate::order::sorted_keys(routes.dom());
    let compacting: u64 = if status.compacting {
        1
    } else {
        0
    };
    let parts = seq![
        metrics::counter("kvs_requests_total"@, "Total HTTP requests."@, m.requests_total),
        metrics::gauge(
            "kvs_inflight_requests"@,
            "Requests currently being served."@,
            m.inflight,
        ),
        metrics::counter("kvs_errors_5xx_total"@, "5xx responses."@, m.errors_5xx_total),
        metrics::gauge("kvs_key_count"@, "Number of live keys."@, status.key_count as u64),
        metrics::gauge("kvs_last_lsn"@, "Latest committed LSN."@, status.last_lsn),
        metrics::gauge("kvs_wal_size_bytes"@, "WAL size in bytes."@, status.wal_size_bytes),
        metrics::gauge(
            "kvs_last_snapshot_lsn"@,
            "LSN of newest snapshot."@,
            status.last_snapshot_lsn,
        ),
        metrics::gauge(
            "kvs_compacting"@,
            "Whether compaction is running (1/0)."@,
            compacting,
        ),
        metrics::metric("kvs_uptime_seconds"@, "Process uptime."@, "gauge"@, uptime@),
        server::route_lines(routes, ks),
    ];
    lemma_pasted(parts);
    assert(r@ =~= pasted(parts));
    let d = |n: u64| text::decimal(n as nat);
    lemma_metric_line(
        "kvs_requests_total"@,
        "Total HTTP requests."@,
        "counter"@,
        d(m.requests_total),
    );
    lemma_pasted_holds(parts, 0, value_line("kvs_requests_total"@, d(m.requests_total)));
    lemma_metric_line(
        "kvs_inflight_requests"@,
        "Requests currently being served."@,
        "gauge"@,
        d(m.inflight),
    );
    lemma_pasted_holds(parts, 1, value_line("kvs_inflight_requests"@, d(m.inflight)));
    lemma_metric_line(
        "kvs_errors_5xx_total"@,
        "5xx responses."@,
        "counter"@,
        d(m.errors_5xx_total),
    );
    lemma_pasted_holds(parts, 2, value_line("kvs_errors_5xx_total"@, d(m.errors_5xx_total)));
    lemma_metric_line(
        "kvs_key_count"@,
        "Number of live keys."@,
        "gauge"@,
        d(status.key_count as u64),
    );
    lemma_pasted_holds(parts, 3, value_line("kvs_key_count"@, d(status.key_count as u64)));
    lemma_metric_line("kvs_last_lsn"@, "Latest committed LSN."@, "gauge"@, d(status.last_lsn));
    lemma_pasted_holds(parts, 4, value_line("kvs_last_lsn"@, d(status.last_lsn)));
    lemma_metric_line(
        "kvs_wal_size_bytes"@,
        "WAL size in bytes."@,
        "gauge"@,
        d(status.wal_size_bytes),
    );
    lemma_pasted_holds(parts, 5, value_line("kvs_wal_size_bytes"@, d(status.wal_size_bytes)));
    lemma_metric_line(
        "kvs_last_snapshot_lsn"@,
        "LSN of newest snapshot."@,
        "gauge"@,
        d(status.last_snapshot_lsn),
    );
    lemma_pasted_holds(
        parts,
        6,
        value_line("kvs_last_snapshot_lsn"@, d(status.last_snapshot_lsn)),
    );
    lemma_metric_line(
        "kvs_compacting"@,
        "Whether compaction is running (1/0)."@,
        "gauge"@,
        d(compacting),
    );
    lemma_pasted_holds(parts, 7, value_line("kvs_compacting"@, d(compacting)));
    lemma_metric_line("kvs_uptime_seconds"@, "Process uptime."@, "gauge"@, uptime@);
    lemma_pasted_holds(parts, 8, value_line("kvs_uptime_seconds"@, uptime@));
    assert forall|k: Seq<u8>| #[trigger] routes.dom().contains(k) implies holds_text(
        r@,
        "kvs_requests_by_route_total{route=\""@ + routes[k].0 + "\"} "@ + text::decimal(
            routes[k].1 as nat,
        ) + "\n"@,
    ) by {
        crate::order::lemma_sorted_exists(routes.dom());
        assert(ks.to_set().contains(k));
        let i = choose|i: int| 0 <= i < ks.len() && ks[i] == k;
        lemma_route_line(routes, ks, i);
        lemma_pasted_holds(
            parts,
            9,
            "kvs_requests_by_route_total{route=\""@ + routes[k].0 + "\"} "@ + text::decimal(
                routes[k].1 as nat,
            ) + "\n"@,
        );
    }
}

proof fn lemma_pasted(parts: Seq<Seq<char>>)
    requires
        parts.len() == 10,
    ensures
        pasted(parts) == parts[0] + parts[1] + parts[2] + parts[3] + parts[4] + parts[5] + parts[6]
            + parts[7] + parts[8] + parts[9],
{
    reveal_with_fuel(pasted, 11);
    assert(Seq::<char>::empty() + parts[0] =~= parts[0]);
}

proof fn lemma_route_line(routes: server::Routes, ks: Seq<Seq<u8>>, i: int)
    requires
        0 <= i < ks.len(),
    ensures
        holds_text(
            server::route_lines(routes, ks),
            "kvs_requests_by_route_total{route=\""@ + routes[ks[i]].0 + "\"} "@ + text::decimal(
                routes[ks[i]].1 as nat,
            ) + "\n"@,
        ),
    decreases ks.len(),
{
    let line = "kvs_requests_by_route_total{route=\""@ + routes[ks[i]].0 + "\"} "@ + text::decimal(
        routes[ks[i]].1 as nat,
    ) + "\n"@;
    let before = server::route_lines(routes, ks.drop_last());
    let page = server::route_lines(routes, ks);
    if i == ks.len() - 1 {
        assert(page =~= before + line + Seq::<char>::empty());
        lemma_holds(before, line, Seq::empty());
    } else {
        lemma_route_line(routes, ks.drop_last(), i);
        let x = choose|x: int|
            0 <= x <= x + line.len() <= before.len() && #[trigger] before.subrange(
                x,
                x + line.len(),
            ) == line;
        assert(page.subrange(x, x + line.len()) =~= line);
    }
}

/// A response is counted, and is one more of exactly one class of statuses: those that succeed, those
/// that blame the request, and all others.
pub proof fn lemma_record_status(m: &mut metrics::Metrics, status: u16, r: ())
    requires
        call_ensures(metrics::Metrics::record_status, (m, status), r),
    ensures
        one_more(old(m).requests_total, final(m).requests_total),
        ({
            let success = 200 <= status <= 299;
            let blame = 400 <= status <= 499;
            let (a, b) = (*old(m), *final(m));
            &&& if success {
                one_more(a.requests_by_status_2xx, b.requests_by_status_2xx)
            } else {
                a.requests_by_status_2xx == b.requests_by_status_2xx
            }
            &&& if blame {
                one_more(a.requests_by_status_4xx, b.requests_by_status_4xx)
            } else {
                a.requests_by_status_4xx == b.requests_by_status_4xx
            }
            &&& if !success && !blame {
                one_more(a.requests_by_status_5xx, b.requests_by_status_5xx)
            } else {
                a.requests_by_status_5xx == b.requests_by_status_5xx
            }
            &&& b.commits_total == a.commits_total
            &&& b.committed_ops_total == a.committed_ops_total
            &&& b.cas_conflicts_total == a.cas_conflicts_total
            &&& b.rejected_txns_total == a.rejected_txns_total
            &&& b.reads_total == a.reads_total
            &&& b.scans_total == a.scans_total
        }),
{
}

/// The gauges are what the status says, and no counter changes.
pub proof fn lemma_observe(m: &mut metrics::Metrics, s: &crate::api::StatusResponse, r: ())
    requires
        call_ensures(metrics::Metrics::observe, (m, s), r),
        s.key_count <= u64::MAX,
    ensures
        final(m).keys == s.key_count,
        final(m).lsn == s.lsn,
        final(m).wal_total_bytes == s.wal_total_bytes,
        final(m).compacting == 1 <==> s.compacting,
        final(m).compacting == 0 <==> !s.compacting,
        final(m).last_snapshot_lsn == s.snapshot_lsn,
        final(m).requests_total == old(m).requests_total,
        final(m).commits_total == old(m).commits_total,
        final(m).committed_ops_total == old(m).committed_ops_total,
        final(m).cas_conflicts_total == old(m).cas_conflicts_total,
        final(m).rejected_txns_total == old(m).rejected_txns_total,
        final(m).reads_total == old(m).reads_total,
        final(m).scans_total == old(m).scans_total,
        final(m).compactions_total == old(m).compactions_total,
        final(m).compactions_failed_total == old(m).compactions_failed_total,
        final(m).wal_bytes_written_total == old(m).wal_bytes_written_total,
        final(m).snapshot_bytes_written_total == old(m).snapshot_bytes_written_total,
{
}

/// The requests of one class of statuses, as a line.
pub open spec fn class_value(class: Seq<char>, n: u64) -> Seq<char> {
    "{status_class=\""@ + class + "\"} "@ + text::decimal(n as nat) + "\n"@
}

proof fn lemma_class_line(class: Seq<char>, n: u64)
    ensures
        holds_text(metrics::class_line(class, n), class_value(class, n)),
{
    reveal_strlit("kvstore_http_requests_total{status_class=\"");
    reveal_strlit("{status_class=\"");
    let line = class_value(class, n);
    let page = metrics::class_line(class, n);
    let a = "kvstore_http_requests_total{status_class=\""@.take(27);
    assert("kvstore_http_requests_total{status_class=\""@ =~= a + "{status_class=\""@);
    assert(page =~= a + line + Seq::<char>::empty());
    lemma_holds(a, line, Seq::empty());
}

proof fn lemma_pasted_all(parts: Seq<Seq<char>>)
    requires
        parts.len() == 21,
    ensures
        pasted(parts) == parts[0] + parts[1] + parts[2] + parts[3] + parts[4] + parts[5] + parts[6] + parts[7] + parts[8] + parts[9] + parts[10] + parts[11] + parts[12] + parts[13] + parts[14] + parts[15] + parts[16] + parts[17] + parts[18] + parts[19] + parts[20],
{
    reveal_with_fuel(pasted, 22);
    assert(Seq::<char>::empty() + parts[0] =~= parts[0]);
}

/// The metrics page of the key table has a line for each number, with its value.
#[verifier::rlimit(80)]
#[verifier::spinoff_prover]
pub proof fn lemma_prometheus(m: &metrics::Metrics, uptime: &str, last: &str, r: String)
    requires
        call_ensures(metrics::Metrics::render_prometheus, (m, uptime, last), r),
    ensures
        holds_text(r@, value_line("kvstore_uptime_seconds"@, uptime@)),
        holds_text(r@, class_value("2xx"@, m.requests_by_status_2xx)),
        holds_text(r@, class_value("4xx"@, m.requests_by_status_4xx)),
        holds_text(r@, class_value("5xx"@, m.requests_by_status_5xx)),
        holds_text(r@, value_line("kvstore_commits_total"@, text::decimal(m.commits_total as nat))),
        holds_text(r@, value_line("kvstore_committed_ops_total"@, text::decimal(m.committed_ops_total as nat))),
        holds_text(r@, value_line("kvstore_cas_conflicts_total"@, text::decimal(m.cas_conflicts_total as nat))),
        holds_text(r@, value_line("kvstore_rejected_transactions_total"@, text::decimal(m.rejected_txns_total as nat))),
        holds_text(r@, value_line("kvstore_reads_total"@, text::decimal(m.reads_total as nat))),
        holds_text(r@, value_line("kvstore_scans_total"@, text::decimal(m.scans_total as nat))),
        holds_text(r@, value_line("kvstore_compactions_total"@, text::decimal(m.compactions_total as nat))),
        holds_text(r@, value_line("kvstore_compactions_failed_total"@, text::decimal(m.compactions_failed_total as nat))),
        holds_text(r@, value_line("kvstore_wal_bytes_written_total"@, text::decimal(m.wal_bytes_written_total as nat))),
        holds_text(r@, value_line("kvstore_snapshot_bytes_written_total"@, text::decimal(m.snapshot_bytes_written_total as nat))),
        holds_text(r@, value_line("kvstore_keys_current"@, text::decimal(m.keys as nat))),
        holds_text(r@, value_line("kvstore_lsn"@, text::decimal(m.lsn as nat))),
        holds_text(r@, value_line("kvstore_wal_bytes_current"@, text::decimal(m.wal_total_bytes as nat))),
        holds_text(r@, value_line("kvstore_compacting"@, text::decimal(m.compacting as nat))),
        holds_text(r@, value_line("kvstore_last_snapshot_lsn"@, text::decimal(m.last_snapshot_lsn as nat))),
        holds_text(r@, value_line("kvstore_last_compaction_duration_seconds"@, last@)),
{
    let d = |n: u64| text::decimal(n as nat);
    let parts = seq![
        metrics::metric(
            "kvstore_uptime_seconds"@,
            "Process uptime in seconds."@,
            "gauge"@,
            uptime@,
        ),
        metrics::metric_head(
            "kvstore_http_requests_total"@,
            "Total HTTP requests by status class."@,
            "counter"@,
        ),
        metrics::class_line("2xx"@, m.requests_by_status_2xx),
        metrics::class_line("4xx"@, m.requests_by_status_4xx),
        metrics::class_line("5xx"@, m.requests_by_status_5xx),
        metrics::counter("kvstore_commits_total"@, "Committed transactions."@, m.commits_total),
        metrics::counter("kvstore_committed_ops_total"@, "Individual ops applied in committed transactions."@, m.committed_ops_total),
        metrics::counter("kvstore_cas_conflicts_total"@, "Failed compare-and-swap checks."@, m.cas_conflicts_total),
        metrics::counter("kvstore_rejected_transactions_total"@, "Transactions rejected before commit."@, m.rejected_txns_total),
        metrics::counter("kvstore_reads_total"@, "Single-key reads served."@, m.reads_total),
        metrics::counter("kvstore_scans_total"@, "Prefix/range scans served."@, m.scans_total),
        metrics::counter("kvstore_compactions_total"@, "Completed snapshot compactions."@, m.compactions_total),
        metrics::counter("kvstore_compactions_failed_total"@, "Failed snapshot compactions."@, m.compactions_failed_total),
        metrics::counter("kvstore_wal_bytes_written_total"@, "Bytes appended and fsynced to the WAL."@, m.wal_bytes_written_total),
        metrics::counter("kvstore_snapshot_bytes_written_total"@, "Bytes written to snapshots."@, m.snapshot_bytes_written_total),
        metrics::gauge("kvstore_keys_current"@, "Current number of live keys."@, m.keys),
        metrics::gauge("kvstore_lsn"@, "Current commit log sequence number."@, m.lsn),
        metrics::gauge("kvstore_wal_bytes_current"@, "Current total on-disk WAL size in bytes."@, m.wal_total_bytes),
        metrics::gauge("kvstore_compacting"@, "1 while a snapshot compaction is running."@, m.compacting),
        metrics::gauge("kvstore_last_snapshot_lsn"@, "LSN of the most recent durable snapshot."@, m.last_snapshot_lsn),
        metrics::metric(
            "kvstore_last_compaction_duration_seconds"@,
            "Wall-clock duration of the last compaction."@,
            "gauge"@,
            last@,
        ),
    ];
    lemma_pasted_all(parts);
    assert(r@ == pasted(parts));
    lemma_metric_line(
        "kvstore_uptime_seconds"@,
        "Process uptime in seconds."@,
        "gauge"@,
        uptime@,
    );
    lemma_pasted_holds(parts, 0, value_line("kvstore_uptime_seconds"@, uptime@));
    lemma_class_line("2xx"@, m.requests_by_status_2xx);
    lemma_pasted_holds(parts, 2, class_value("2xx"@, m.requests_by_status_2xx));
    lemma_class_line("4xx"@, m.requests_by_status_4xx);
    lemma_pasted_holds(parts, 3, class_value("4xx"@, m.requests_by_status_4xx));
    lemma_class_line("5xx"@, m.requests_by_status_5xx);
    lemma_pasted_holds(parts, 4, class_value("5xx"@, m.requests_by_status_5xx));
    lemma_metric_line("kvstore_commits_total"@, "Committed transactions."@, "counter"@, d(m.commits_total));
    lemma_pasted_holds(parts, 5, value_line("kvstore_commits_total"@, d(m.commits_total)));
    lemma_metric_line("kvstore_committed_ops_total"@, "Individual ops applied in committed transactions."@, "counter"@, d(m.committed_ops_total));
    lemma_pasted_holds(parts, 6, value_line("kvstore_committed_ops_total"@, d(m.committed_ops_total)));
    lemma_metric_line("kvstore_cas_conflicts_total"@, "Failed compare-and-swap checks."@, "counter"@, d(m.cas_conflicts_total));
    lemma_pasted_holds(parts, 7, value_line("kvstore_cas_conflicts_total"@, d(m.cas_conflicts_total)));
    lemma_metric_line("kvstore_rejected_transactions_total"@, "Transactions rejected before commit."@, "counter"@, d(m.rejected_txns_total));
    lemma_pasted_holds(parts, 8, value_line("kvstore_rejected_transactions_total"@, d(m.rejected_txns_total)));
    lemma_metric_line("kvstore_reads_total"@, "Single-key reads served."@, "counter"@, d(m.reads_total));
    lemma_pasted_holds(parts, 9, value_line("kvstore_reads_total"@, d(m.reads_total)));
    lemma_metric_line("kvstore_scans_total"@, "Prefix/range scans served."@, "counter"@, d(m.scans_total));
    lemma_pasted_holds(parts, 10, value_line("kvstore_scans_total"@, d(m.scans_total)));
    lemma_metric_line("kvstore_compactions_total"@, "Completed snapshot compactions."@, "counter"@, d(m.compactions_total));
    lemma_pasted_holds(parts, 11, value_line("kvstore_compactions_total"@, d(m.compactions_total)));
    lemma_metric_line("kvstore_compactions_failed_total"@, "Failed snapshot compactions."@, "counter"@, d(m.compactions_failed_total));
    lemma_pasted_holds(parts, 12, value_line("kvstore_compactions_failed_total"@, d(m.compactions_failed_total)));
    lemma_metric_line("kvstore_wal_bytes_written_total"@, "Bytes appended and fsynced to the WAL."@, "counter"@, d(m.wal_bytes_written_total));
    lemma_pasted_holds(parts, 13, value_line("kvstore_wal_bytes_written_total"@, d(m.wal_bytes_written_total)));
    lemma_metric_line("kvstore_snapshot_bytes_written_total"@, "Bytes written to snapshots."@, "counter"@, d(m.snapshot_bytes_written_total));
    lemma_pasted_holds(parts, 14, value_line("kvstore_snapshot_bytes_written_total"@, d(m.snapshot_bytes_written_total)));
    lemma_metric_line("kvstore_keys_current"@, "Current number of live keys."@, "gauge"@, d(m.keys));
    lemma_pasted_holds(parts, 15, value_line("kvstore_keys_current"@, d(m.keys)));
    lemma_metric_line("kvstore_lsn"@, "Current commit log sequence number."@, "gauge"@, d(m.lsn));
    lemma_pasted_holds(parts, 16, value_line("kvstore_lsn"@, d(m.lsn)));
    lemma_metric_line("kvstore_wal_bytes_current"@, "Current total on-disk WAL size in bytes."@, "gauge"@, d(m.wal_total_bytes));
    lemma_pasted_holds(parts, 17, value_line("kvstore_wal_bytes_current"@, d(m.wal_total_bytes)));
    lemma_metric_line("kvstore_compacting"@, "1 while a snapshot compaction is running."@, "gauge"@, d(m.compacting));
    lemma_pasted_holds(parts, 18, value_line("kvstore_compacting"@, d(m.compacting)));
    lemma_metric_line("kvstore_last_snapshot_lsn"@, "LSN of the most recent durable snapshot."@, "gauge"@, d(m.last_snapshot_lsn));
    lemma_pasted_holds(parts, 19, value_line("kvstore_last_snapshot_lsn"@, d(m.last_snapshot_lsn)));
    lemma_metric_line(
        "kvstore_last_compaction_duration_seconds"@,
        "Wall-clock duration of the last compaction."@,
        "gauge"@,
        last@,
    );
    lemma_pasted_holds(
        parts,
        20,
        value_line("kvstore_last_compaction_duration_seconds"@, last@),
    );
}

// ---------- errors ----------

/// Two errors of the versioned store are of one kind.
pub open spec fn same_kind(a: KvError, b: KvError) -> bool {
    ||| a is InvalidConfig && b is InvalidConfig
    ||| a is EmptyKey && b is EmptyKey
    ||| a is KeyTooLarge && b is KeyTooLarge
    ||| a is ValueTooLarge && b is ValueTooLarge
    ||| a is EmptyTransaction && b is EmptyTransaction
    ||| a is TooManyOperations && b is TooManyOperations
    ||| a is ContradictoryKey && b is ContradictoryKey
    ||| a is CasConflict && b is CasConflict
    ||| a is KeyNotFound && b is KeyNotFound
    ||| a is VersionNotFound && b is VersionNotFound
    ||| a is CorruptWal && b is CorruptWal
    ||| a is CorruptSnapshot && b is CorruptSnapshot
    ||| a is InvalidRequest && b is InvalidRequest
    ||| a is InvalidBase64 && b is InvalidBase64
    ||| a is RouteNotFound && b is RouteNotFound
    ||| a is Io && b is Io
}

/// The code and the status of an error depend on its kind alone. What is not there is 404, a conflict
/// is 409, what is wrong with the store itself is 500, and what is wrong with the request is 400.
pub proof fn lemma_code_and_status(
    a: &KvError,
    b: &KvError,
    code: &'static str,
    code2: &'static str,
    status: u16,
    status2: u16,
)
    requires
        call_ensures(KvError::code, (a,), code),
        call_ensures(KvError::code, (b,), code2),
        call_ensures(KvError::status, (a,), status),
        call_ensures(KvError::status, (b,), status2),
    ensures
        same_kind(*a, *b) ==> code@ == code2@ && status == status2,
        status == 400 || status == 404 || status == 409 || status == 500,
        status == 404 <==> a is KeyNotFound || a is VersionNotFound || a is RouteNotFound,
        status == 409 <==> a is CasConflict,
        status == 500 <==> a is InvalidConfig || a is CorruptWal || a is CorruptSnapshot || a is Io,
{
}

/// The answer to an error gives its code, its status and its message.
pub proof fn lemma_error_response(
    e: &KvError,
    r: (u16, server::KvErrorBody),
    code: &'static str,
    status: u16,
    message: String,
)
    requires
        call_ensures(server::error_response, (e,), r),
        call_ensures(KvError::code, (e,), code),
        call_ensures(KvError::status, (e,), status),
        call_ensures(KvError::message, (e,), message),
    ensures
        r.0 == status,
        r.1.code@ == code@,
        e !is Io ==> r.1.message@ == message@,
{
}

/// A message tells these things, in this order.
pub open spec fn tells(message: Seq<char>, things: Seq<Seq<char>>) -> bool
    decreases things.len(),
{
    if things.len() == 0 {
        true
    } else {
        exists|i: int|
            {
                &&& 0 <= i <= i + things.last().len() <= message.len()
                &&& #[trigger] message.subrange(i, i + things.last().len()) == things.last()
                &&& tells(message.take(i), things.drop_last())
            }
    }
}

proof fn lemma_tells_one(a: Seq<char>, x: Seq<char>, b: Seq<char>)
    ensures
        tells(a + x + b, seq![x]),
{
    let m = a + x + b;
    let i = a.len() as int;
    assert(m.subrange(i, i + x.len()) =~= x);
    assert(seq![x].drop_last() =~= Seq::empty());
    assert(seq![x].last() == x);
    assert(tells(m.take(i), seq![x].drop_last()));
}

proof fn lemma_tells_two(a: Seq<char>, x: Seq<char>, b: Seq<char>, y: Seq<char>, c: Seq<char>)
    ensures
        tells(a + x + b + y + c, seq![x, y]),
{
    let m = a + x + b + y + c;
    let i = (a + x + b).len() as int;
    assert(m.subrange(i, i + y.len()) =~= y);
    assert(seq![x, y].drop_last() =~= seq![x]);
    assert(seq![x, y].last() == y);
    lemma_tells_one(a, x, b);
    assert(m.take(i) =~= a + x + b);
}

/// What the message of an error must tell: the sizes and limits, the key, the position, and the
/// reason that was given.
pub open spec fn details(e: KvError) -> Seq<Seq<char>> {
    match e {
        KvError::InvalidConfig(m) => seq![m@],
        KvError::KeyTooLarge { size, limit } => seq![
            text::decimal(size as nat),
            text::decimal(limit as nat),
        ],
        KvError::ValueTooLarge { size, limit } => seq![
            text::decimal(size as nat),
            text::decimal(limit as nat),
        ],
        KvError::TooManyOperations { count, limit } => seq![
            text::decimal(count as nat),
            text::decimal(limit as nat),
        ],
        KvError::ContradictoryKey(k) => seq![k@],
        KvError::CasConflict(k) => seq![k@],
        KvError::KeyNotFound(k) => seq![k@],
        KvError::VersionNotFound(lsn) => seq![text::decimal(lsn as nat)],
        KvError::CorruptWal { offset, message } => seq![text::decimal(offset as nat), message@],
        KvError::CorruptSnapshot(m) => seq![m@],
        KvError::InvalidRequest(m) => seq![m@],
        KvError::InvalidBase64 { field, message } => seq![field@, message@],
        KvError::RouteNotFound(r) => seq![r@],
        _ => Seq::empty(),
    }
}

/// The message of an error tells what it is about.
pub proof fn lemma_message_tells(e: &KvError, r: String)
    requires
        call_ensures(KvError::message, (e,), r),
    ensures
        tells(r@, details(*e)),
{
    let none = Seq::<char>::empty();
    let m = r@;
    match *e {
        KvError::InvalidConfig(t) => {
            lemma_tells_one("invalid configuration: "@, t@, none);
            assert(m =~= "invalid configuration: "@ + t@ + none);
        },
        KvError::KeyTooLarge { size, limit } => {
            lemma_tells_two(
                "key size "@,
                text::decimal(size as nat),
                " exceeds the limit of "@,
                text::decimal(limit as nat),
                " bytes"@,
            );
        },
        KvError::ValueTooLarge { size, limit } => {
            lemma_tells_two(
                "value size "@,
                text::decimal(size as nat),
                " exceeds the limit of "@,
                text::decimal(limit as nat),
                " bytes"@,
            );
        },
        KvError::TooManyOperations { count, limit } => {
            let (x, y) = (text::decimal(count as nat), text::decimal(limit as nat));
            lemma_tells_two("transaction contains "@, x, " operations, the limit is "@, y, none);
            assert(m =~= "transaction contains "@ + x + " operations, the limit is "@ + y + none);
        },
        KvError::ContradictoryKey(t) => {
            lemma_tells_one("transaction touches key more than once: "@, t@, none);
            assert(m =~= "transaction touches key more than once: "@ + t@ + none);
        },
        KvError::CasConflict(t) => {
            lemma_tells_one("compare-and-swap conflict on key: "@, t@, none);
            assert(m =~= "compare-and-swap conflict on key: "@ + t@ + none);
        },
        KvError::KeyNotFound(t) => {
            lemma_tells_one("key not found: "@, t@, none);
            assert(m =~= "key not found: "@ + t@ + none);
        },
        KvError::VersionNotFound(lsn) => {
            let x = text::decimal(lsn as nat);
            lemma_tells_one("log position not committed yet: "@, x, none);
            assert(m =~= "log position not committed yet: "@ + x + none);
        },
        KvError::CorruptWal { offset, message } => {
            let x = text::decimal(offset as nat);
            lemma_tells_two("corrupt WAL at offset "@, x, ": "@, message@, none);
            assert(m =~= "corrupt WAL at offset "@ + x + ": "@ + message@ + none);
        },
        KvError::CorruptSnapshot(t) => {
            lemma_tells_one("corrupt snapshot: "@, t@, none);
            assert(m =~= "corrupt snapshot: "@ + t@ + none);
        },
        KvError::InvalidRequest(t) => {
            lemma_tells_one("invalid request: "@, t@, none);
            assert(m =~= "invalid request: "@ + t@ + none);
        },
        KvError::InvalidBase64 { field, message } => {
            lemma_tells_two("invalid base64 in "@, field@, ": "@, message@, none);
            assert(m =~= "invalid base64 in "@ + field@ + ": "@ + message@ + none);
        },
        KvError::RouteNotFound(t) => {
            lemma_tells_one("route not found: "@, t@, none);
            assert(m =~= "route not found: "@ + t@ + none);
        },
        _ => {},
    }
}

/// Two errors of the key table are of one kind.
pub open spec fn same_store_kind(a: StoreError, b: StoreError) -> bool {
    ||| a is EmptyKey && b is EmptyKey
    ||| a is KeyTooLarge && b is KeyTooLarge
    ||| a is ValueTooLarge && b is ValueTooLarge
    ||| a is EmptyTransaction && b is EmptyTransaction
    ||| a is TransactionTooLarge && b is TransactionTooLarge
    ||| a is DuplicateKeyInTransaction && b is DuplicateKeyInTransaction
    ||| a is CasConflict && b is CasConflict
    ||| a is CompactionInProgress && b is CompactionInProgress
    ||| a is Corruption && b is Corruption
    ||| a is Io && b is Io
}

/// The kind that is answered depends on the kind of the error alone.
pub proof fn lemma_store_kind(a: &StoreError, b: &StoreError, x: &'static str, y: &'static str)
    requires
        call_ensures(StoreError::kind, (a,), x),
        call_ensures(StoreError::kind, (b,), y),
        same_store_kind(*a, *b),
    ensures
        x@ == y@,
{
}

/// How a value is mentioned: in base64, or as absent.
pub open spec fn mention(v: Option<Vec<u8>>) -> Seq<char> {
    match v {
        Some(b) => text::base64_text(b@),
        None => "<absent>"@,
    }
}

/// What the message of an error of the key table must tell.
pub open spec fn store_details(e: StoreError) -> Seq<Seq<char>> {
    match e {
        StoreError::KeyTooLarge { size, max } => seq![
            text::decimal(size as nat),
            text::decimal(max as nat),
        ],
        StoreError::ValueTooLarge { size, max } => seq![
            text::decimal(size as nat),
            text::decimal(max as nat),
        ],
        StoreError::TransactionTooLarge { count, max } => seq![
            text::decimal(count as nat),
            text::decimal(max as nat),
        ],
        StoreError::DuplicateKeyInTransaction { key } => seq![error::lossy(key@)],
        StoreError::CasConflict { key, expected, actual } => seq![
            error::lossy(key@),
            mention(expected),
            mention(actual),
        ],
        StoreError::Corruption(m) => seq![m@],
        _ => Seq::empty(),
    }
}

/// The message of an error of the key table tells what it is about.
pub proof fn lemma_store_message_tells(e: &StoreError, r: String)
    requires
        call_ensures(StoreError::message, (e,), r),
    ensures
        tells(r@, store_details(*e)),
{
    let none = Seq::<char>::empty();
    let m = r@;
    match *e {
        StoreError::KeyTooLarge { size, max } => {
            lemma_tells_two(
                "key size "@,
                text::decimal(size as nat),
                " bytes exceeds the configured maximum of "@,
                text::decimal(max as nat),
                " bytes"@,
            );
        },
        StoreError::ValueTooLarge { size, max } => {
            lemma_tells_two(
                "value size "@,
                text::decimal(size as nat),
                " bytes exceeds the configured maximum of "@,
                text::decimal(max as nat),
                " bytes"@,
            );
        },
        StoreError::TransactionTooLarge { count, max } => {
            let (x, y) = (text::decimal(count as nat), text::decimal(max as nat));
            let mid = " operations, maximum allowed is "@;
            lemma_tells_two("transaction contains "@, x, mid, y, none);
            assert(m =~= "transaction contains "@ + x + mid + y + none);
        },
        StoreError::DuplicateKeyInTransaction { key } => {
            let head = "transaction contains multiple operations for the same key: "@;
            lemma_tells_one(head, error::lossy(key@), none);
            assert(m =~= head + error::lossy(key@) + none);
        },
        StoreError::CasConflict { key, expected, actual } => {
            let head = "compare-and-swap conflict on key '"@;
            let k = error::lossy(key@);
            let (x, y) = (mention(expected), mention(actual));
            let all = seq![k, x, y];
            lemma_tells_two(head, k, "': expected "@, x, ", actual "@);
            let front = head + k + "': expected "@ + x + ", actual "@;
            assert(m =~= front + y);
            let i = front.len() as int;
            assert(m.subrange(i, i + y.len()) =~= y);
            assert(m.take(i) =~= front);
            assert(all.drop_last() =~= seq![k, x]);
            assert(all.last() == y);
        },
        StoreError::Corruption(t) => {
            lemma_tells_one("persistent data is corrupt: "@, t@, none);
            assert(m =~= "persistent data is corrupt: "@ + t@ + none);
        },
        _ => {},
    }
}

/// What is said of a body or a path that cannot be used tells the reason, or the path.
pub proof fn lemma_request_errors(
    reason: &str,
    unread: KvError,
    empty: KvError,
    not_json: KvError,
    method: &str,
    path: &str,
    no_route: KvError,
    bad: crate::api::AppError,
)
    requires
        call_ensures(server::body_error, (server::BodyFault::Unread(reason),), unread),
        call_ensures(server::body_error, (server::BodyFault::Empty,), empty),
        call_ensures(server::body_error, (server::BodyFault::NotJson(reason),), not_json),
        call_ensures(server::fallback, (method, path), no_route),
        call_ensures(crate::api::body_error, (Some(reason),), bad),
    ensures
        unread is InvalidRequest,
        tells(unread->InvalidRequest_0@, seq![reason@]),
        empty is InvalidRequest,
        not_json is InvalidRequest,
        tells(not_json->InvalidRequest_0@, seq![reason@]),
        no_route is RouteNotFound,
        tells(no_route->RouteNotFound_0@, seq![method@, path@]),
        bad is BadRequest,
        tells(bad->BadRequest_0@, seq![reason@]),
{
    let none = Seq::<char>::empty();
    let m = reason@;
    assert(unread@ is InvalidRequest && empty@ is InvalidRequest && not_json@ is InvalidRequest);
    assert(no_route@ is RouteNotFound);
    assert(bad@ is BadRequest);
    lemma_tells_one("failed reading body: "@, m, none);
    assert("failed reading body: "@ + m + none =~= "failed reading body: "@ + m);
    lemma_tells_one("invalid JSON: "@, m, none);
    assert("invalid JSON: "@ + m + none =~= "invalid JSON: "@ + m);
    lemma_tells_one("invalid JSON body: "@, m, none);
    assert("invalid JSON body: "@ + m + none =~= "invalid JSON body: "@ + m);
    lemma_tells_two(none, method@, " "@, path@, none);
    assert(none + method@ + " "@ + path@ + none =~= method@ + " "@ + path@);
}

/// The answer to a commit says that it was committed, and gives its LSN and the number of keys.
pub proof fn lemma_commit_resp(out: &crate::store::CommitOutcome, r: server::CommitResp)
    requires
        call_ensures(server::commit_resp, (out,), r),
    ensures
        r.committed,
        r.lsn == out.lsn,
        r.key_count == out.key_count,
{
}

} // verus!
