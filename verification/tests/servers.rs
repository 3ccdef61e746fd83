use nfsview::binary64::Binary64;
use nfsview::servers::{aggregate_servers_from, build_server_agg, check_conns, ops_weighted_mean};
use nfsview::table::Table;
use nfsview::types::{IpAddr, MountCounters, MountDerived, MountView, OpDerived, SortKey};

fn number(x: f64) -> Binary64 {
    Binary64::from_bits(x.to_bits())
}

fn float(x: Binary64) -> f64 {
    f64::from_bits(x.to_bits())
}

fn call(op: &str, ops: f64, bytes: f64, rtt: Option<f64>, exe: Option<f64>) -> OpDerived {
    OpDerived {
        op: op.to_string(),
        ops_per_sec: number(ops),
        bytes_per_sec: number(bytes),
        share_pct: number(0.0),
        avg_rtt_ms: rtt.map(number),
        avg_exe_ms: exe.map(number),
    }
}

fn view(device: &str, mountpoint: &str, addr: Option<IpAddr>, rates: (f64, f64, f64)) -> MountView {
    let mut derived = MountDerived::default();
    derived.read_bps = number(rates.0);
    derived.write_bps = number(rates.1);
    derived.ops_per_sec = number(rates.2);
    MountView {
        counters: MountCounters {
            device: device.to_string(),
            mountpoint: mountpoint.to_string(),
            fstype: "nfs4".to_string(),
            vers: None,
            proto: None,
            nconnect: None,
            addr,
            clientaddr: None,
            st_dev: None,
            options: Table::new(),
            ops: Table::new(),
            raw_block: String::new(),
        },
        derived,
        resolved_ips: Vec::new(),
    }
}

#[test]
fn means_are_weighted() {
    let mean = |items: &[(Option<f64>, f64)]| {
        let v: Vec<_> = items.iter().map(|(x, w)| (x.map(number), number(*w))).collect();
        ops_weighted_mean(&v).map(float)
    };
    assert_eq!(mean(&[]), None);
    assert_eq!(mean(&[(None, 5.0)]), None);
    assert_eq!(mean(&[(Some(3.0), 0.0)]), None);
    assert_eq!(mean(&[(Some(10.0), 1.0), (Some(2.0), 3.0)]), Some(4.0));
    assert_eq!(mean(&[(Some(10.0), 1.0), (None, 100.0), (Some(2.0), 3.0)]), Some(4.0));
}

#[test]
fn a_server_is_the_sum_of_its_mounts() {
    let ip = Some(IpAddr::V4(0x0a01_0102));
    let mut a = view("srv:/a", "/a", ip, (100.0, 1.0, 30.0));
    a.derived.avg_rtt_ms = Some(number(2.0));
    a.derived.avg_exe_ms = None;
    a.derived.observed_conns = 3;
    a.counters.nconnect = Some(4);
    a.derived.per_op = vec![
        call("READ", 20.0, 200.0, Some(2.0), None),
        call("GETATTR", 10.0, 10.0, Some(1.0), Some(5.0)),
    ];
    let mut b = view("other:/b", "/b", ip, (50.0, 2.0, 10.0));
    b.derived.avg_rtt_ms = Some(number(6.0));
    b.derived.observed_conns = 4;
    b.counters.nconnect = Some(2);
    b.derived.per_op = vec![call("GETATTR", 30.0, 30.0, Some(5.0), None)];
    let s = build_server_agg(ip, &[&a, &b]);
    assert_eq!(s.addr, ip);
    assert_eq!(s.hostname, "srv");
    assert_eq!(s.mounts, ["/a", "/b"]);
    assert_eq!(float(s.read_bps), 150.0);
    assert_eq!(float(s.write_bps), 3.0);
    assert_eq!(float(s.ops_per_sec), 40.0);
    // (2 * 30 + 6 * 10) / 40
    assert_eq!(s.avg_rtt_ms.map(float), Some(3.0));
    assert!(s.avg_exe_ms.is_none());
    assert_eq!(s.observed_conns, 7);
    assert_eq!(s.nconnect, Some(4));
    assert_eq!(s.per_op.len(), 2);
    assert_eq!(s.per_op[0].op, "GETATTR");
    assert_eq!(float(s.per_op[0].ops_per_sec), 40.0);
    assert_eq!(float(s.per_op[0].bytes_per_sec), 40.0);
    assert_eq!(float(s.per_op[0].share_pct), 40.0 / 60.0 * 100.0);
    // (1 * 10 + 5 * 30) / 40
    assert_eq!(s.per_op[0].avg_rtt_ms.map(float), Some(4.0));
    assert_eq!(s.per_op[0].avg_exe_ms.map(float), Some(5.0));
    assert_eq!(s.per_op[1].op, "READ");
    assert!(s.per_op[1].avg_exe_ms.is_none());
}

#[test]
fn sums_over_nothing_are_those_of_the_machine() {
    let s = build_server_agg(None, &[]);
    assert_eq!(s.hostname, "unknown");
    let none: [f64; 0] = [];
    assert_eq!(s.read_bps.to_bits(), none.iter().sum::<f64>().to_bits());
    assert!(s.mounts.is_empty() && s.per_op.is_empty());
    assert_eq!((s.nconnect, s.observed_conns), (None, 0));
    let unnamed = view("/dev/x", "/x", None, (0.0, 0.0, 0.0));
    assert_eq!(build_server_agg(None, &[&unnamed]).hostname, "unknown");
}

#[test]
fn sums_are_taken_in_order() {
    let x: Vec<f64> = vec![0.1, 0.2, 0.3, 1e17, -1e17, 0.7];
    let views: Vec<MountView> = x.iter().map(|v| view("h:/e", "/m", None, (*v, 0.0, 0.0))).collect();
    let group: Vec<&MountView> = views.iter().collect();
    let s = build_server_agg(None, &group);
    assert_eq!(s.read_bps.to_bits(), x.iter().sum::<f64>().to_bits());
}

#[test]
fn mounts_are_grouped_by_address() {
    let a = Some(IpAddr::V4(1));
    let b = Some(IpAddr::V6(1));
    let mounts = vec![
        view("x:/1", "/1", a, (1.0, 9.0, 5.0)),
        view("y:/2", "/2", None, (2.0, 8.0, 7.0)),
        view("z:/3", "/3", b, (3.0, 7.0, 5.0)),
        view("x:/4", "/4", a, (4.0, 6.0, 1.0)),
    ];
    let by = |key: SortKey| -> Vec<String> {
        aggregate_servers_from(&mounts, key).iter().map(|s| s.hostname.clone()).collect()
    };
    assert_eq!(by(SortKey::Read), ["x", "z", "y"]);
    assert_eq!(by(SortKey::Write), ["x", "y", "z"]);
    assert_eq!(by(SortKey::Ops), ["y", "x", "z"]);
    // These say nothing of servers: by calls.
    assert_eq!(by(SortKey::Mount), ["y", "x", "z"]);
    assert_eq!(by(SortKey::Nconnect), ["y", "x", "z"]);
    // Equals keep the order in which mounts name them.
    assert_eq!(by(SortKey::ObsConn), ["x", "y", "z"]);
    assert_eq!(by(SortKey::Rtt), ["x", "y", "z"]);
    let servers = aggregate_servers_from(&mounts, SortKey::Read);
    assert_eq!(servers[0].mounts, ["/1", "/4"]);
    assert_eq!(servers.iter().map(|s| s.mounts.len()).sum::<usize>(), mounts.len());
}

#[test]
fn connections_that_do_not_fit_are_noticed() {
    let mut mounts = vec![
        view("x:/1", "/1", Some(IpAddr::V4(1)), (0.0, 0.0, 0.0)),
        view("y:/2", "/2", Some(IpAddr::V4(2)), (0.0, 0.0, 0.0)),
        view("x:/3", "/3", Some(IpAddr::V4(1)), (0.0, 0.0, 0.0)),
    ];
    mounts[0].derived.observed_conns = u64::MAX;
    mounts[1].derived.observed_conns = u64::MAX;
    assert!(check_conns(&mounts));
    mounts[2].derived.observed_conns = 1;
    assert!(!check_conns(&mounts));
}
