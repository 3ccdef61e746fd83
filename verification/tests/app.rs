use nfsview::app::{matches_text, step_index, App};
use nfsview::binary64::Binary64;
use nfsview::keys::{command, press, Command, Press};
use nfsview::rank::compare_mounts_by;
use nfsview::tab::{PercentileMode, Tab};
use nfsview::table::Table;
use nfsview::types::{
    BpfLatency, BpfOpLatency, IpAddr, LatencyDist, MountCounters, MountDerived, MountView, OpDerived,
    RpcClient, Snapshot, SortKey, Timestamp, UnitsMode,
};
use std::cmp::Ordering;

fn number(x: f64) -> Binary64 {
    Binary64::from_bits(x.to_bits())
}

fn float(x: Binary64) -> f64 {
    f64::from_bits(x.to_bits())
}

fn floats(v: Vec<Binary64>) -> Vec<f64> {
    v.into_iter().map(float).collect()
}

fn view(mountpoint: &str, addr: u32, read: f64, write: f64, ops: f64) -> MountView {
    let mut derived = MountDerived::default();
    derived.read_bps = number(read);
    derived.write_bps = number(write);
    derived.ops_per_sec = number(ops);
    MountView {
        counters: MountCounters {
            device: format!("host{addr}:/export"),
            mountpoint: mountpoint.to_string(),
            fstype: "nfs4".to_string(),
            vers: None,
            proto: None,
            nconnect: None,
            addr: Some(IpAddr::V4(addr)),
            clientaddr: None,
            st_dev: None,
            options: Table::new(),
            ops: Table::new(),
            raw_block: String::new(),
        },
        derived,
        resolved_ips: Vec::new(),
    }
}

fn snapshot(secs: i64, dt: f64, mounts: Vec<MountView>) -> Snapshot {
    Snapshot {
        ts: Timestamp { secs, nanos: 0 },
        dt_secs: number(dt),
        mounts,
        rpc: RpcClient::default(),
        raw_tcp_matches: Vec::new(),
        partial_errors: Vec::new(),
        bpf_attached: false,
    }
}

fn latency(ops: &[&str]) -> BpfLatency {
    BpfLatency {
        per_op: ops
            .iter()
            .map(|op| BpfOpLatency {
                op: op.to_string(),
                dist: LatencyDist {
                    samples: 1,
                    p50_ns: 1,
                    p90_ns: 1,
                    p99_ns: 1,
                    p999_ns: 1,
                    p9999_ns: 1,
                    p99999_ns: 1,
                    max_ns: 1,
                },
                buckets: vec![1],
            })
            .collect(),
        total_samples: ops.len() as u64,
    }
}

fn app(history: usize, sort: SortKey, filter: &str) -> App {
    App::new(history, UnitsMode::Auto, 1000, sort, filter.to_string())
}

fn rows(app: &App) -> Vec<String> {
    app.visible_mounts().iter().map(|m| m.counters.mountpoint.clone()).collect()
}

fn selected(app: &App) -> Option<&str> {
    app.selected_mount().map(|m| m.counters.mountpoint.as_str())
}

#[test]
fn a_new_state_shows_nothing() {
    let a = app(120, SortKey::Ops, "X");
    assert_eq!(a.tab, Tab::Servers);
    assert_eq!(a.percentile_mode, PercentileMode::All);
    assert!(!a.paused);
    assert_eq!((a.filter.as_str(), a.filter_lower.as_str()), ("X", "x"));
    assert!(a.snapshot.is_none() && a.last_error.is_none() && a.last_sample.is_none());
    assert!(rows(&a).is_empty());
    assert!(a.selected_mount().is_none() && a.selected_server().is_none());
    assert!(a.selected_mount_history().is_none() && a.selected_server_history().is_none());
    assert!(a.selected_mount_bpf().is_none() && a.selected_bpf_op().is_none());
    assert_eq!(a.read_hist.len(), 0);
    assert_eq!(a.interval_ms(), 1000);
}

#[test]
fn steps_stay_within_the_list() {
    assert_eq!(step_index(2, 1, 5), 3);
    assert_eq!(step_index(2, -1, 5), 1);
    assert_eq!(step_index(4, 3, 5), 4);
    assert_eq!(step_index(1, -9, 5), 0);
    assert_eq!(step_index(9, 0, 5), 4);
    assert_eq!(step_index(3, 1, 0), 0);
    assert_eq!(step_index(0, i32::MAX, 3), 2);
    assert_eq!(step_index(usize::MAX, 0, 3), 0);
}

#[test]
fn ingesting_sums_up_the_mounts() {
    let mut a = app(3, SortKey::Read, "");
    let mut m = view("/b", 1, 30.0, 1.0, 2.0);
    m.derived.avg_rtt_ms = Some(number(4.0));
    let mut n = view("/a", 2, 10.0, 2.0, 3.0);
    n.derived.avg_rtt_ms = Some(number(1.0));
    a.ingest(snapshot(50, 2.0, vec![m, n, view("/c", 1, 5.0, 0.0, 0.5)]));
    assert_eq!(floats(a.read_hist.to_vec()), [45.0]);
    assert_eq!(floats(a.write_hist.to_vec()), [3.0]);
    assert_eq!(floats(a.ops_hist.to_vec()), [5.5]);
    assert_eq!(floats(a.rtt_hist.to_vec()), [2.5]);
    assert_eq!(float(a.cumulative_read_bytes), 90.0);
    assert_eq!(float(a.cumulative_write_bytes), 6.0);
    assert_eq!(a.last_sample, Some(Timestamp { secs: 50, nanos: 0 }));
    assert_eq!(rows(&a), ["/b", "/a", "/c"]);
    let hosts: Vec<&str> = a.aggregate_servers().iter().map(|s| s.hostname.as_str()).collect();
    assert_eq!(hosts, ["host1", "host2"]);
    assert_eq!(float(a.aggregate_servers()[0].read_bps), 35.0);
    // A time that is none adds nothing to the totals.
    for dt in [0.0, -1.0, f64::INFINITY, f64::NAN] {
        a.ingest(snapshot(51, dt, vec![view("/b", 1, 7.0, 7.0, 7.0)]));
        assert_eq!(float(a.cumulative_read_bytes), 90.0);
    }
    // Three samples are kept.
    assert_eq!(floats(a.read_hist.to_vec()), [7.0, 7.0, 7.0]);
    assert_eq!(floats(a.rtt_hist.to_vec()), [0.0, 0.0, 0.0]);
    assert_eq!(a.read_hist.len(), 3);
}

#[test]
fn histories_are_kept_by_mount_and_server() {
    let mut a = app(2, SortKey::Read, "");
    for i in 1..=3 {
        let mut m = view("/m", 1, i as f64, 10.0, 1.0);
        m.derived.per_op = vec![
            OpDerived {
                op: "READ".to_string(),
                ops_per_sec: number(1.0),
                bytes_per_sec: number(1.0),
                share_pct: number(1.0),
                avg_rtt_ms: Some(number(0.5 * i as f64)),
                avg_exe_ms: None,
            },
            OpDerived {
                op: "WRITE".to_string(),
                ops_per_sec: number(1.0),
                bytes_per_sec: number(1.0),
                share_pct: number(1.0),
                avg_rtt_ms: None,
                avg_exe_ms: None,
            },
        ];
        m.derived.avg_rtt_ms = Some(number(8.0));
        a.ingest(snapshot(i, 1.0, vec![m, view("/n", 2, 0.5, 0.0, 1.0)]));
    }
    let h = a.selected_mount_history().unwrap();
    assert_eq!(floats(h.read_bps.to_vec()), [2.0, 3.0]);
    assert_eq!(floats(h.write_bps.to_vec()), [10.0, 10.0]);
    assert_eq!(floats(h.read_lat_ms.to_vec()), [1.0, 1.5]);
    assert_eq!(floats(h.write_lat_ms.to_vec()), [0.0, 0.0]);
    let h = a.selected_server_history().unwrap();
    assert_eq!(floats(h.read_bps.to_vec()), [2.0, 3.0]);
    assert_eq!(floats(h.ops.to_vec()), [1.0, 1.0]);
    assert_eq!(floats(h.rtt_ms.to_vec()), [8.0, 8.0]);
    a.reset_baseline();
    assert!(a.selected_mount_history().is_none() && a.selected_server_history().is_none());
    assert_eq!((a.read_hist.len(), a.rtt_hist.len()), (0, 0));
    assert_eq!(float(a.cumulative_read_bytes), 0.0);
    assert_eq!(rows(&a), ["/m", "/n"]);
}

#[test]
fn a_pause_keeps_everything() {
    let mut a = app(5, SortKey::Read, "");
    a.ingest(snapshot(1, 1.0, vec![view("/m", 1, 1.0, 1.0, 1.0)]));
    a.paused = true;
    a.ingest(snapshot(2, 1.0, vec![view("/n", 1, 1.0, 1.0, 1.0)]));
    assert_eq!(rows(&a), ["/m"]);
    assert_eq!(a.read_hist.len(), 1);
    assert_eq!(a.last_sample, Some(Timestamp { secs: 1, nanos: 0 }));
}

#[test]
fn the_filter_ignores_case() {
    let mut a = app(5, SortKey::Read, "ÉXP");
    let mut m = view("/data/éxports", 1, 1.0, 1.0, 1.0);
    m.counters.device = "plain:/x".to_string();
    let mut n = view("/other", 2, 2.0, 2.0, 2.0);
    n.counters.device = "srv:/Éxp".to_string();
    let mut o = view("/third", 3, 4.0, 4.0, 4.0);
    o.counters.device = "srv:/exp".to_string();
    assert!(a.matches_filter(&m) && a.matches_filter(&n) && !a.matches_filter(&o));
    a.ingest(snapshot(1, 1.0, vec![m, n, o]));
    assert_eq!(rows(&a), ["/other", "/data/éxports"]);
    // Only what passes is summed up, but every server is shown.
    assert_eq!(floats(a.read_hist.to_vec()), [3.0]);
    assert_eq!(a.aggregate_servers().len(), 3);
    assert!(matches_text("abc", "xyz", ""));
    assert!(matches_text("abc", "xyz", "bc") && matches_text("abc", "xyz", "xy"));
    assert!(!matches_text("abc", "xyz", "cx"));
}

#[test]
fn mounts_are_in_the_order_of_the_key() {
    let mut m = view("/m", 1, 1.0, 9.0, 5.0);
    m.derived.avg_rtt_ms = Some(number(3.0));
    m.counters.nconnect = Some(2);
    m.derived.observed_conns = 5;
    let mut n = view("/a", 2, 2.0, 8.0, 6.0);
    n.derived.avg_exe_ms = Some(number(1.0));
    n.counters.nconnect = Some(4);
    let o = view("/a/b", 3, 3.0, 7.0, 4.0);
    let mut a = app(5, SortKey::Read, "");
    a.ingest(snapshot(1, 1.0, vec![m, n, o]));
    let mut seen = vec![rows(&a)];
    for _ in 0..7 {
        a.cycle_sort();
        seen.push(rows(&a));
    }
    assert_eq!(
        seen,
        [
            ["/a/b", "/a", "/m"], // read
            ["/m", "/a", "/a/b"], // write
            ["/a", "/m", "/a/b"], // calls
            ["/m", "/a", "/a/b"], // round trip
            ["/a", "/m", "/a/b"], // execution
            ["/a", "/a/b", "/m"], // name
            ["/a", "/m", "/a/b"], // connections asked for
            ["/m", "/a", "/a/b"], // connections seen
        ],
    );
    assert_eq!(a.sort, SortKey::ObsConn);
    a.cycle_sort();
    assert_eq!(a.sort, SortKey::Read);
}

#[test]
fn comparisons() {
    let a = view("/a", 1, 1.0, f64::NAN, 1.0);
    let b = view("/b", 1, 2.0, 1.0, 1.0);
    assert_eq!(compare_mounts_by(&a, &b, SortKey::Read), Ordering::Greater);
    assert_eq!(compare_mounts_by(&b, &a, SortKey::Read), Ordering::Less);
    assert_eq!(compare_mounts_by(&a, &b, SortKey::Write), Ordering::Equal);
    assert_eq!(compare_mounts_by(&a, &b, SortKey::Ops), Ordering::Equal);
    assert_eq!(compare_mounts_by(&a, &b, SortKey::Mount), Ordering::Less);
    assert_eq!(compare_mounts_by(&a, &b, SortKey::Rtt), Ordering::Equal);
}

#[test]
fn a_selection_follows_its_mount() {
    let mut a = app(5, SortKey::Read, "");
    a.ingest(snapshot(1, 1.0, vec![view("/a", 1, 3.0, 1.0, 1.0), view("/b", 2, 2.0, 2.0, 1.0), view("/c", 3, 1.0, 3.0, 1.0)]));
    assert_eq!(selected(&a), Some("/a"));
    a.move_mount_selection(1);
    a.move_server_selection(2);
    assert_eq!(selected(&a), Some("/b"));
    assert_eq!(a.selected_server().unwrap().hostname, "host3");
    // The rows move, the selection with them.
    a.ingest(snapshot(2, 1.0, vec![view("/c", 3, 9.0, 1.0, 1.0), view("/a", 1, 8.0, 2.0, 1.0), view("/b", 2, 7.0, 3.0, 1.0)]));
    assert_eq!((a.selected, selected(&a)), (2, Some("/b")));
    assert_eq!((a.server_selected, a.selected_server().unwrap().hostname.as_str()), (0, "host3"));
    a.cycle_sort();
    assert_eq!((a.selected, selected(&a)), (0, Some("/b")));
    assert_eq!((a.server_selected, a.selected_server().unwrap().hostname.as_str()), (2, "host3"));
    // Gone: the row stays, or the last one takes its place.
    a.ingest(snapshot(3, 1.0, vec![view("/a", 1, 1.0, 1.0, 1.0)]));
    assert_eq!((a.selected, selected(&a)), (0, Some("/a")));
    assert_eq!((a.server_selected, a.selected_server().unwrap().hostname.as_str()), (0, "host1"));
    assert_eq!(a.selected_mount_key.as_deref(), Some("/a"));
    a.ingest(snapshot(4, 1.0, vec![]));
    assert_eq!((a.selected, selected(&a)), (0, None));
    assert_eq!(a.selected_mount_key, None);
    a.move_mount_selection(5);
    assert_eq!(a.selected, 0);
}

#[test]
fn a_selection_settles() {
    let mounts = || vec![view("/a", 1, 3.0, 1.0, 1.0), view("/b", 2, 2.0, 2.0, 1.0), view("/c", 3, 1.0, 3.0, 1.0)];
    let mut a = app(5, SortKey::Read, "");
    a.ingest(snapshot(1, 1.0, mounts()));
    a.move_mount_selection(2);
    a.move_server_selection(1);
    for secs in 2..5 {
        a.ingest(snapshot(secs, 1.0, mounts()));
        assert_eq!((a.selected, selected(&a), a.server_selected), (2, Some("/c"), 1));
    }
}

#[test]
fn the_selected_kind_of_call_is_kept_by_name() {
    let mut a = app(5, SortKey::Read, "");
    let mut m = view("/m", 1, 1.0, 1.0, 1.0);
    m.derived.bpf = Some(latency(&["READ", "WRITE", "COMMIT"]));
    a.ingest(snapshot(1, 1.0, vec![m]));
    assert_eq!(a.selected_bpf_op().map(|(i, o)| (i, o.op.clone())), Some((0, "READ".to_string())));
    a.move_hist_selection(1);
    assert_eq!(a.selected_bpf_op().map(|(i, o)| (i, o.op.clone())), Some((1, "WRITE".to_string())));
    let mut m = view("/m", 1, 1.0, 1.0, 1.0);
    m.derived.bpf = Some(latency(&["WRITE", "COMMIT", "READ"]));
    a.ingest(snapshot(2, 1.0, vec![m]));
    assert_eq!(a.selected_bpf_op().map(|(i, o)| (i, o.op.clone())), Some((0, "WRITE".to_string())));
    a.move_hist_selection(-5);
    assert_eq!(a.selected_op_key.as_deref(), Some("WRITE"));
    // No samples of it any more: the first row.
    let mut m = view("/m", 1, 1.0, 1.0, 1.0);
    m.derived.bpf = Some(latency(&["COMMIT", "READ"]));
    a.ingest(snapshot(3, 1.0, vec![m]));
    assert_eq!(a.selected_bpf_op().map(|(i, o)| (i, o.op.clone())), Some((0, "COMMIT".to_string())));
    a.move_hist_selection(9);
    assert_eq!(a.selected_op_key.as_deref(), Some("READ"));
    let mut m = view("/m", 1, 1.0, 1.0, 1.0);
    m.derived.bpf = Some(latency(&[]));
    a.ingest(snapshot(4, 1.0, vec![m]));
    assert!(a.selected_mount_bpf().is_some() && a.selected_bpf_op().is_none());
    a.move_hist_selection(1);
    assert_eq!(a.selected_op_key.as_deref(), Some("READ"));
}

#[test]
fn intervals_stay_within_bounds() {
    let mut a = app(5, SortKey::Read, "");
    a.increase_interval();
    assert_eq!(a.interval_ms(), 1100);
    a.decrease_interval();
    assert_eq!(a.interval_ms(), 1000);
    for (from, up, down) in [
        (9_950, 10_000, 9_850),
        (10_000, 10_000, 9_900),
        (150, 250, 100),
        (100, 200, 100),
        (0, 100, 100),
        (50_000, 10_000, 49_900),
        (u64::MAX, 10_000, u64::MAX - 100),
    ] {
        a.interval = from;
        a.increase_interval();
        assert_eq!(a.interval_ms(), up);
        a.interval = from;
        a.decrease_interval();
        assert_eq!(a.interval_ms(), down);
    }
}

#[test]
fn keys_do_what_they_say() {
    let mut a = app(5, SortKey::Read, "");
    a.ingest(snapshot(1, 1.0, vec![view("/a", 1, 3.0, 1.0, 1.0), view("/b", 2, 2.0, 2.0, 1.0)]));
    assert!(press(&mut a, Press::Char('q')));
    assert!(!press(&mut a, Press::Char('j')));
    assert_eq!((a.selected, a.server_selected), (0, 1));
    press(&mut a, Press::Up);
    assert_eq!(a.server_selected, 0);
    press(&mut a, Press::Char('l'));
    assert_eq!(a.tab, Tab::RpcMix);
    press(&mut a, Press::Down);
    assert_eq!((a.selected, a.server_selected), (1, 0));
    press(&mut a, Press::Char('k'));
    assert_eq!(a.selected, 0);
    press(&mut a, Press::Left);
    press(&mut a, Press::Char('h'));
    assert_eq!(a.tab, Tab::Help);
    press(&mut a, Press::Right);
    assert_eq!(a.tab, Tab::Servers);
    press(&mut a, Press::Char('?'));
    assert_eq!(a.tab, Tab::Help);
    press(&mut a, Press::Char(' '));
    assert!(a.paused);
    press(&mut a, Press::Char(' '));
    assert!(!a.paused);
    press(&mut a, Press::Char('s'));
    assert_eq!(a.sort, SortKey::Write);
    press(&mut a, Press::Char('p'));
    assert_eq!(a.percentile_mode, PercentileMode::Avg);
    for (key, units) in [
        ('m', UnitsMode::MiB),
        ('g', UnitsMode::GiB),
        ('t', UnitsMode::TiB),
        ('a', UnitsMode::Auto),
    ] {
        press(&mut a, Press::Char(key));
        assert_eq!(a.units, units);
    }
    press(&mut a, Press::Char('+'));
    assert_eq!(a.interval_ms(), 1100);
    press(&mut a, Press::Char('-'));
    assert_eq!(a.interval_ms(), 1000);
    press(&mut a, Press::Char('r'));
    assert_eq!(a.read_hist.len(), 0);
    assert_eq!(command(Press::Char('x')), None);
    assert_eq!(command(Press::Char('+')), Some(Command::Slower));
    assert!(!press(&mut a, Press::Char('x')));
    let mut m = view("/m", 1, 1.0, 1.0, 1.0);
    m.derived.bpf = Some(latency(&["READ", "WRITE"]));
    a.ingest(snapshot(2, 1.0, vec![m]));
    a.tab = Tab::Hist;
    press(&mut a, Press::Char('j'));
    assert_eq!(a.selected_op_key.as_deref(), Some("WRITE"));
}
