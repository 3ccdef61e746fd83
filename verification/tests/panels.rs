use nfsview::app::App;
use nfsview::binary64::Binary64;
use nfsview::format::{fmt_ms, fmt_rate};
use nfsview::panels::{
    card_values, curve, distribution_line, empty_message, hist_title, percentile_rows, rpc_line,
    samples_line, server_details, server_row, status_line,
};
use nfsview::table::Table;
use nfsview::types::{
    BpfLatency, BpfOpLatency, LatencyDist, MountCounters, MountDerived, MountView, OpDerived, RpcClient,
    ServerAgg, Snapshot, SortKey, Timestamp, UnitsMode,
};

fn number(x: f64) -> Binary64 {
    Binary64::from_bits(x.to_bits())
}

fn float(x: Binary64) -> f64 {
    f64::from_bits(x.to_bits())
}

fn view(mountpoint: &str) -> MountView {
    MountView {
        counters: MountCounters {
            device: "srv:/e".to_string(),
            mountpoint: mountpoint.to_string(),
            fstype: "nfs".to_string(),
            vers: None,
            proto: None,
            nconnect: None,
            addr: None,
            clientaddr: None,
            st_dev: None,
            options: Table::new(),
            ops: Table::new(),
            raw_block: String::new(),
        },
        derived: MountDerived::default(),
        resolved_ips: Vec::new(),
    }
}

fn snapshot(mounts: Vec<MountView>, bpf_attached: bool, errors: &[&str]) -> Snapshot {
    Snapshot {
        ts: Timestamp { secs: 0, nanos: 0 },
        dt_secs: number(1.0),
        mounts,
        rpc: RpcClient::default(),
        raw_tcp_matches: Vec::new(),
        partial_errors: errors.iter().map(|e| e.to_string()).collect(),
        bpf_attached,
    }
}

fn app(filter: &str) -> App {
    App::new(10, UnitsMode::Auto, 1000, SortKey::Ops, filter.to_string())
}

fn latency() -> BpfLatency {
    let mut buckets = vec![0; 64];
    buckets[10] = 7;
    buckets[12] = 7;
    BpfLatency {
        per_op: vec![BpfOpLatency {
            op: "READ".to_string(),
            dist: LatencyDist {
                samples: 12_345,
                p50_ns: 500,
                p90_ns: 1_500,
                p99_ns: 1_500_000,
                p999_ns: 2_500_000_000,
                p9999_ns: 0,
                p99999_ns: 7,
                max_ns: 10_000,
            },
            buckets,
        }],
        total_samples: 1_500_000,
    }
}

fn call(op: &str, rate: f64, share: f64, rtt: Option<f64>) -> OpDerived {
    OpDerived {
        op: op.to_string(),
        ops_per_sec: number(rate),
        bytes_per_sec: number(0.0),
        share_pct: number(share),
        avg_rtt_ms: rtt.map(number),
        avg_exe_ms: None,
    }
}

fn server(mounts: &[&str], per_op: Vec<OpDerived>) -> ServerAgg {
    ServerAgg {
        addr: None,
        hostname: "srv".to_string(),
        mounts: mounts.iter().map(|m| m.to_string()).collect(),
        read_bps: number(3.0 * 1024.0 * 1024.0),
        write_bps: number(0.0),
        ops_per_sec: number(12.25),
        avg_rtt_ms: Some(number(1.75)),
        avg_exe_ms: None,
        observed_conns: 0,
        nconnect: Some(16),
        per_op,
    }
}

#[test]
fn the_status_row() {
    let mut a = app("");
    assert_eq!(
        status_line(&a),
        (
            "backend:crossterm interval:1000ms paused:no filter:- sort:ops units:auto trend:all".to_string(),
            false,
        ),
    );
    a = app("Data");
    a.paused = true;
    a.units = UnitsMode::GiB;
    a.snapshot = Some(snapshot(vec![], false, &[]));
    assert_eq!(
        status_line(&a).0,
        "backend:crossterm interval:1000ms paused:yes filter:Data sort:ops units:GiB trend:all",
    );
    a.snapshot = Some(snapshot(vec![], false, &["ebpf disabled: x", "rpc: y"]));
    assert!(status_line(&a).0.ends_with(" trend:all warn: ebpf disabled: x; rpc: y"));
    a.last_error = Some("gone".to_string());
    assert_eq!(status_line(&a), ("ERROR: gone".to_string(), true));
}

#[test]
fn why_there_is_no_histogram() {
    let mut a = app("");
    assert_eq!(hist_title(&a), "Latency histogram (eBPF) — j/k to select op");
    assert!(empty_message(&a, false).starts_with("Built without --features=ebpf."));
    assert!(empty_message(&a, true).starts_with("eBPF backend not active — needs CAP_BPF"));
    a.ingest(snapshot(vec![], true, &[]));
    assert_eq!(empty_message(&a, true), "eBPF probes attached — no NFS mount selected.");
    a.ingest(snapshot(vec![view("/m"), view("/n")], true, &[]));
    assert_eq!(hist_title(&a), "Latency histogram (eBPF) — /m — j/k to select op");
    assert_eq!(empty_message(&a, true), "eBPF probes attached — waiting for NFS RPC traffic.");
    let mut busy = view("/n");
    busy.derived.bpf = Some(latency());
    a.ingest(snapshot(vec![view("/m"), busy], true, &[]));
    assert_eq!(empty_message(&a, true), "eBPF probes attached — no samples for /m this tick.");
    a.ingest(snapshot(vec![view("/m")], false, &[]));
    assert!(empty_message(&a, true).starts_with("eBPF backend not active"));
}

#[test]
fn the_percentile_table() {
    let l = latency();
    assert_eq!(
        percentile_rows(&l),
        [["READ", "12.3K", "500ns", "1.5us", "1.5ms", "2.5s", "-", "7ns", "10.0us"]],
    );
    assert_eq!(samples_line(&l), "1.5M samples this tick");
    let (range, bars) = distribution_line(&l.per_op[0]);
    assert_eq!(range, "READ distribution  (1.0us → 8.2us)");
    assert_eq!(bars, "▇ ▇");
}

#[test]
fn the_details_of_a_server() {
    let op = call("READ", 1234.56, 99.95, Some(0.25));
    assert_eq!(
        rpc_line(&op),
        format!("  {:<10} {:>8.1} ops/s  {:>5.1}%  rtt:{} exe:{}", "READ", 1234.56, 99.95, "0.2", "-"),
    );
    let wide = call("VERY_LONG_OPERATION", 123456789.0, 100.0, None);
    assert_eq!(
        rpc_line(&wide),
        format!("  {:<10} {:>8.1} ops/s  {:>5.1}%  rtt:- exe:-", "VERY_LONG_OPERATION", 123456789.0, 100.0),
    );
    let s = server(&["/a", "/b"], vec![op]);
    assert_eq!(
        server_details(Some(&s)),
        "host: srv\nmounts: /a, /b\nnconnect: 16\n\nRPC mix (top 8):\n  READ         1234.6 ops/s  100.0%  rtt:0.2 exe:-",
    );
    let mut many = server(&[], (0..9).map(|i| call(&format!("OP{i}"), 1.0, 1.0, None)).collect());
    many.nconnect = None;
    let text = server_details(Some(&many));
    assert!(text.starts_with("host: srv\nmounts: -\nnconnect: -\n\n"));
    assert_eq!(text.lines().count(), 5 + 8);
    assert!(text.contains("OP7") && !text.contains("OP8"));
    assert!(server_details(Some(&server(&[], vec![]))).ends_with("RPC mix (top 8):\n"));
    assert_eq!(server_details(None), "no servers");
    assert_eq!(
        server_row(&s, UnitsMode::Auto),
        ["srv", "3.0 MiB/s", "0.0 MiB/s", "12.2", "1.8", "-", "16"],
    );
    assert_eq!(card_values(Some(&s), UnitsMode::Auto), ["3.0 MiB/s", "0.0 MiB/s", "12.2", "1.8 ms"]);
    assert_eq!(card_values(None, UnitsMode::Auto), ["-", "-", "-", "- ms"]);
}

#[test]
fn rates_and_times() {
    let gib = 1024.0 * 1024.0 * 1024.0;
    assert_eq!(fmt_rate(number(1.5 * gib), UnitsMode::Auto), "1.5 GiB/s");
    assert_eq!(fmt_rate(number(1.5 * gib), UnitsMode::MiB), "1536.0 MiB/s");
    assert_eq!(fmt_rate(number(1.5 * gib), UnitsMode::TiB), "0.0 TiB/s");
    assert_eq!(fmt_rate(number(2048.0 * gib), UnitsMode::Auto), "2.0 TiB/s");
    assert_eq!(fmt_rate(number(512.0 * 1024.0), UnitsMode::Auto), "0.5 MiB/s");
    assert_eq!(fmt_ms(Some(number(2.0))), "2.0");
    assert_eq!(fmt_ms(None), "-");
}

#[test]
fn curves_fit_their_axes() {
    assert!(curve(&vec![]).is_none());
    let c = curve(&vec![number(5.0)]).unwrap();
    assert_eq!((float(c.x_max), float(c.y_max)), (1.0, 5.0 * 1.1));
    let values = [3.0, f64::NAN, 8.5, f64::INFINITY, -2.0, 0.25];
    let c = curve(&values.iter().map(|v| number(*v)).collect()).unwrap();
    let points: Vec<(f64, f64)> = c.points.iter().map(|(x, y)| (float(*x), float(*y))).collect();
    assert_eq!(points, [(0.0, 3.0), (1.0, 0.0), (2.0, 8.5), (3.0, 0.0), (4.0, -2.0), (5.0, 0.25)]);
    assert_eq!((float(c.x_max), float(c.y_max)), (5.0, 8.5 * 1.1));
    for (x, y) in points {
        assert!(x <= float(c.x_max) && y <= float(c.y_max));
    }
    let flat = curve(&vec![number(0.0), number(0.0)]).unwrap();
    assert_eq!(flat.y_max.to_bits(), (f64::MIN_POSITIVE * 1.1).to_bits());
}
