use nfsview::binary64::Binary64;
use nfsview::rates::{check_deltas, delta_f64, delta_u64, derive_rates, host_from_device};
use nfsview::table::Table;
use nfsview::types::{IpAddr, MountCounters, OpCounters};

fn number(x: f64) -> Binary64 {
    Binary64::from_bits(x.to_bits())
}

fn float(x: Binary64) -> f64 {
    f64::from_bits(x.to_bits())
}

fn op(name: &str, calls: u64, bytes_sent: u64, bytes_recv: u64, rtt: f64, exe: f64) -> OpCounters {
    OpCounters {
        op: name.to_string(),
        calls,
        bytes_sent,
        bytes_recv,
        rtt_ms_total: number(rtt),
        exe_ms_total: number(exe),
    }
}

fn mount(ops: Vec<OpCounters>) -> MountCounters {
    let mut table = Table::new();
    for o in ops {
        table.insert(o.op.clone(), o);
    }
    MountCounters {
        device: "s:/e".to_string(),
        mountpoint: "/m".to_string(),
        fstype: "nfs4".to_string(),
        vers: None,
        proto: None,
        nconnect: None,
        addr: None,
        clientaddr: None,
        st_dev: None,
        options: Table::new(),
        ops: table,
        raw_block: String::new(),
    }
}

#[test]
fn delta_handles_reset() {
    assert_eq!(delta_u64(Some(10), 4), 0);
    assert_eq!(delta_u64(Some(10), 15), 5);
}

#[test]
fn derive_rates_basic() {
    let prev = mount(vec![op("READ", 10, 280, 1000, 50.0, 70.0)]);
    let curr = mount(vec![op("READ", 20, 560, 3000, 150.0, 170.0)]);

    let d = derive_rates(&curr, Some(&prev), number(2.0), 0, vec![]);
    // 2000 bytes_recv delta over 2s = 1000 B/s
    assert_eq!(float(d.read_bps), 1000.0);
    assert!(float(d.ops_per_sec) > 0.0);
    assert_eq!(d.avg_exe_ms.map(float), Some(10.0));
    assert_eq!(d.avg_rtt_ms.map(float), Some(10.0));
}

#[test]
fn derive_rates_uses_bytes_sent_for_write() {
    let prev = mount(vec![op("WRITE", 5, 4096, 140, 10.0, 15.0)]);
    let curr = mount(vec![op("WRITE", 10, 1052672, 280, 30.0, 45.0)]);

    let d = derive_rates(&curr, Some(&prev), number(1.0), 0, vec![]);
    // (1052672 - 4096) bytes_sent delta over 1s
    assert_eq!(float(d.write_bps), 1_048_576.0);
    assert_eq!(float(d.read_bps), 0.0);
}

#[test]
fn totals_grow_or_count_nothing() {
    assert_eq!(delta_u64(None, 7), 0);
    assert_eq!(float(delta_f64(None, number(7.0))), 0.0);
    assert_eq!(float(delta_f64(Some(number(5.0)), number(7.5))), 2.5);
    assert_eq!(float(delta_f64(Some(number(9.0)), number(7.5))), 0.0);
    assert_eq!(float(delta_f64(Some(number(1.0)), number(f64::NAN))), 0.0);
}

#[test]
fn every_kind_of_call_has_its_rates() {
    let prev = mount(vec![
        op("GETATTR", 100, 1000, 2000, 10.0, 20.0),
        op("READ", 10, 100, 5000, 50.0, 60.0),
        op("WRITE", 4, 400, 40, 8.0, 9.0),
    ]);
    let curr = mount(vec![
        op("GETATTR", 130, 1300, 2600, 40.0, 80.0),
        op("READ", 70, 700, 65_000, 170.0, 240.0),
        op("WRITE", 4, 400, 40, 8.0, 9.0),
        op("OPEN", 50, 1, 1, 1.0, 1.0),
    ]);
    let d = derive_rates(&curr, Some(&prev), number(2.0), 3, vec![(IpAddr::V4(1), 3)]);
    assert_eq!(float(d.read_bps), 30_000.0);
    assert_eq!(float(d.write_bps), 0.0);
    assert_eq!(float(d.ops_per_sec), 45.0);
    // The means of the two kinds that were called: 2 ms and 1 ms, 3 ms and 2 ms.
    assert_eq!(d.avg_rtt_ms.map(float), Some(1.5));
    assert_eq!(d.avg_exe_ms.map(float), Some(2.5));
    assert_eq!(d.observed_conns, 3);
    assert_eq!(d.observed_by_ip, vec![(IpAddr::V4(1), 3)]);
    assert!(d.bpf.is_none());
    // The most frequent kind first, the others in their order.
    let names: Vec<&str> = d.per_op.iter().map(|o| o.op.as_str()).collect();
    assert_eq!(names, ["READ", "GETATTR", "WRITE", "OPEN"]);
    assert_eq!(float(d.per_op[0].ops_per_sec), 30.0);
    assert_eq!(float(d.per_op[0].bytes_per_sec), 30_300.0);
    assert_eq!(float(d.per_op[0].share_pct), 60.0 * 100.0 / 90.0);
    assert_eq!(d.per_op[0].avg_rtt_ms.map(float), Some(2.0));
    assert_eq!(d.per_op[0].avg_exe_ms.map(float), Some(3.0));
    assert_eq!(float(d.per_op[2].share_pct), 0.0);
    assert!(d.per_op[2].avg_rtt_ms.is_none());
    // A kind that was not seen before has made no calls yet.
    assert_eq!(float(d.per_op[3].ops_per_sec), 0.0);
}

#[test]
fn shares_are_within_the_whole() {
    let prev = mount(vec![op("READ", 0, 0, 0, 0.0, 0.0), op("WRITE", 0, 0, 0, 0.0, 0.0)]);
    for (a, b) in [(7, 0), (1, 2), (999_999_999, 1), (1 << 46, 1), (3, 1 << 60)] {
        let curr = mount(vec![op("READ", a, 0, 0, 0.0, 0.0), op("WRITE", b, 0, 0, 0.0, 0.0)]);
        let d = derive_rates(&curr, Some(&prev), number(1.0), 0, vec![]);
        for o in &d.per_op {
            assert!((0.0..=100.0).contains(&float(o.share_pct)));
        }
    }
    let curr = mount(vec![op("READ", 7, 0, 0, 0.0, 0.0)]);
    let d = derive_rates(&curr, Some(&prev), number(1.0), 0, vec![]);
    assert_eq!(float(d.per_op[0].share_pct), 100.0);
}

#[test]
fn no_earlier_sample_means_no_rates() {
    let curr = mount(vec![op("READ", 20, 560, 3000, 150.0, 170.0)]);
    let d = derive_rates(&curr, None, number(1.0), 2, vec![]);
    assert_eq!(float(d.read_bps), 0.0);
    assert_eq!(float(d.ops_per_sec), 0.0);
    assert!(d.avg_rtt_ms.is_none());
    assert_eq!(d.observed_conns, 2);
    assert_eq!(d.per_op.len(), 1);
    assert_eq!(float(d.per_op[0].share_pct), 0.0);
}

#[test]
fn no_time_means_nothing_at_all() {
    let prev = mount(vec![op("READ", 10, 280, 1000, 50.0, 70.0)]);
    let curr = mount(vec![op("READ", 20, 560, 3000, 150.0, 170.0)]);
    for dt in [0.0, -0.0, -1.0, f64::NEG_INFINITY] {
        let d = derive_rates(&curr, Some(&prev), number(dt), 5, vec![(IpAddr::V4(9), 5)]);
        assert_eq!(float(d.read_bps), 0.0);
        assert_eq!(d.observed_conns, 0);
        assert!(d.observed_by_ip.is_empty());
        assert!(d.per_op.is_empty());
    }
}

#[test]
fn a_reset_counter_shows_no_rate() {
    let prev = mount(vec![op("READ", 100, 100, 100, 100.0, 100.0), op("WRITE", 1, 1, 1, 1.0, 1.0)]);
    let curr = mount(vec![op("READ", 3, 3, 3, 3.0, 3.0), op("WRITE", 2, 5, 1, 2.0, 2.0)]);
    let d = derive_rates(&curr, Some(&prev), number(1.0), 0, vec![]);
    assert_eq!(float(d.read_bps), 0.0);
    assert_eq!(float(d.ops_per_sec), 1.0);
    assert_eq!(float(d.write_bps), 4.0);
    for o in &d.per_op {
        assert!(float(o.ops_per_sec) >= 0.0 && float(o.bytes_per_sec) >= 0.0);
    }
}

#[test]
fn sums_that_do_not_fit_are_noticed() {
    let prev = mount(vec![op("READ", 0, 0, 0, 0.0, 0.0), op("WRITE", 0, 0, 0, 0.0, 0.0)]);
    let fine = mount(vec![op("READ", u64::MAX, 0, u64::MAX, 0.0, 0.0)]);
    let calls = mount(vec![op("READ", u64::MAX, 0, 0, 0.0, 0.0), op("WRITE", 1, 0, 0, 0.0, 0.0)]);
    let bytes = mount(vec![op("READ", 0, 1, u64::MAX, 0.0, 0.0)]);
    assert!(check_deltas(&fine, Some(&prev)));
    assert!(!check_deltas(&calls, Some(&prev)));
    assert!(!check_deltas(&bytes, Some(&prev)));
    assert!(check_deltas(&calls, None));
}

#[test]
fn hosts_of_devices() {
    assert_eq!(host_from_device("server:/export"), Some("server"));
    assert_eq!(host_from_device("10.0.0.1:/a:/b"), Some("10.0.0.1"));
    assert_eq!(host_from_device("[fe80::1]:/x"), Some("[fe80::1]"));
    assert_eq!(host_from_device(":/x"), Some(""));
    assert_eq!(host_from_device("/dev/sda1"), None);
    assert_eq!(host_from_device("server:export"), None);
    assert_eq!(host_from_device(""), None);
}
