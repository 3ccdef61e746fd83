use nfsview::binary64::Binary64;
use nfsview::sampler::{
    elapsed_secs, enrich, fallback, match_ips, observe, Backend, Readings, Sampler, SocketObs,
};
use nfsview::table::Table;
use nfsview::types::{
    BpfLatency, BpfOpLatency, IpAddr, LatencyDist, MountCounters, OpCounters, RpcClient, Timestamp,
};

fn float(x: Binary64) -> f64 {
    f64::from_bits(x.to_bits())
}

fn options(list: &[(&str, &str)]) -> Table<String, String> {
    let mut t = Table::new();
    for (k, v) in list {
        t.insert(k.to_string(), v.to_string());
    }
    t
}

fn mount(device: &str, mountpoint: &str, calls: u64) -> MountCounters {
    let mut ops = Table::new();
    ops.insert(
        "READ".to_string(),
        OpCounters {
            op: "READ".to_string(),
            calls,
            bytes_sent: 0,
            bytes_recv: calls * 1000,
            rtt_ms_total: Binary64::from_u64(calls * 2),
            exe_ms_total: Binary64::from_u64(calls * 3),
        },
    );
    MountCounters {
        device: device.to_string(),
        mountpoint: mountpoint.to_string(),
        fstype: "nfs4".to_string(),
        vers: Some("4.1".to_string()),
        proto: None,
        nconnect: None,
        addr: None,
        clientaddr: None,
        st_dev: None,
        options: options(&[("rw", ""), ("vers", "4.1")]),
        ops,
        raw_block: "raw".to_string(),
    }
}

fn readings(secs: i64, mounts: Vec<MountCounters>) -> Readings {
    Readings {
        now: Timestamp { secs, nanos: 0 },
        interval_ms: 1500,
        resolved: mounts.iter().map(|_| Vec::new()).collect(),
        mounts,
        mount_opts: Ok(Table::new()),
        mount_devs: Ok(Table::new()),
        rpc: Ok(RpcClient { calls: 7, retrans: 8, authrefresh: 9 }),
        sockets: Ok(SocketObs::default()),
        probes: None,
    }
}

#[test]
fn backends_attach_and_start() {
    assert_eq!(Backend::default(), Backend::Auto);
    assert!(Backend::Auto.wants_probes());
    assert!(!Backend::Proc.wants_probes());
    assert!(Backend::Ebpf.wants_probes());
    assert!(Backend::Auto.can_start(false));
    assert!(Backend::Proc.can_start(false));
    assert!(!Backend::Ebpf.can_start(false));
    assert!(Backend::Ebpf.can_start(true));
    assert_eq!(Backend::Auto.attach_message("no BTF").as_deref(), Some("ebpf disabled: no BTF"));
    assert_eq!(
        Backend::Ebpf.attach_message("no BTF").as_deref(),
        Some("ebpf backend requested but unavailable: no BTF"),
    );
    assert_eq!(Backend::Proc.attach_message("no BTF"), None);
}

#[test]
fn failed_readings_fall_back() {
    let mut errors = vec!["first".to_string()];
    let n: u64 = fallback("rpc", &mut errors, Ok(5));
    assert_eq!((n, errors.len()), (5, 1));
    let n: u64 = fallback("rpc", &mut errors, Err("gone".to_string()));
    assert_eq!(n, 0);
    assert_eq!(errors, ["first", "rpc: gone"]);
}

#[test]
fn elapsed_time() {
    let t = |secs, nanos| Timestamp { secs, nanos };
    assert_eq!(float(elapsed_secs(None, t(5, 0), 1500)), 1.5);
    assert_eq!(float(elapsed_secs(Some(t(3, 0)), t(5, 500_000_000), 1500)), 2.5);
    assert_eq!(float(elapsed_secs(Some(t(5, 0)), t(5, 0), 1500)), 0.0);
    // The clock went back.
    assert_eq!(float(elapsed_secs(Some(t(9, 0)), t(5, 0), 1500)), 1.5);
    assert_eq!(float(elapsed_secs(Some(t(5, 1)), t(5, 0), 250)), 0.25);
    let d = std::time::Duration::new(12_345, 678_901_234);
    assert_eq!(
        elapsed_secs(Some(t(-10, 999_999_999)), t(12_336, 678_901_233), 0).to_bits(),
        d.as_secs_f64().to_bits(),
    );
}

#[test]
fn mounts_are_enriched() {
    let mut opts = Table::new();
    opts.insert("/m".to_string(), options(&[("vers", "3"), ("nconnect", "8"), ("hard", "")]));
    opts.insert("/bad".to_string(), options(&[("nconnect", "many")]));
    let mut devs = Table::new();
    devs.insert("/m".to_string(), 77);
    let m = enrich(mount("h:/e", "/m", 1), &opts, &devs);
    // What the mount itself reports counts.
    assert_eq!(m.options.get(&"vers".to_string()).map(String::as_str), Some("4.1"));
    assert_eq!(m.options.get(&"hard".to_string()).map(String::as_str), Some(""));
    assert_eq!(m.options.get(&"nconnect".to_string()).map(String::as_str), Some("8"));
    assert_eq!(m.nconnect, Some(8));
    assert_eq!(m.st_dev, Some(77));
    let m = enrich(mount("h:/e", "/bad", 1), &opts, &devs);
    assert_eq!((m.nconnect, m.st_dev), (None, None));
    let mut known = mount("h:/e", "/m", 1);
    known.nconnect = Some(2);
    known.st_dev = Some(1);
    let m = enrich(known, &opts, &devs);
    assert_eq!((m.nconnect, m.st_dev), (Some(2), Some(77)));
    let mut stale = mount("h:/e", "/other", 1);
    stale.st_dev = Some(1);
    assert_eq!(enrich(stale, &opts, &devs).st_dev, None);
}

#[test]
fn addresses_are_matched_once() {
    let (a, b) = (IpAddr::V4(1), IpAddr::V4(2));
    assert_eq!(match_ips(Some(b), &vec![a, b, a]), vec![b, a]);
    assert_eq!(match_ips(None, &vec![a, b, a]), vec![a, b]);
    assert_eq!(match_ips(None, &vec![]), vec![]);
    let mut conns = Table::new();
    conns.insert(b, 4);
    conns.insert(IpAddr::V6(2), 9);
    assert_eq!(observe(&vec![a, b], &conns), (4, vec![(b, 4)]));
}

#[test]
fn rates_are_those_between_samples() {
    let mut sampler = Sampler::new(false, Backend::Auto, None);
    let first = sampler.tick(Ok(readings(100, vec![mount("h:/e", "/m", 10)]))).unwrap();
    assert_eq!(float(first.dt_secs), 1.5);
    assert_eq!(float(first.mounts[0].derived.ops_per_sec), 0.0);
    assert_eq!(first.rpc.retrans, 8);
    assert!(first.partial_errors.is_empty());
    assert!(!first.bpf_attached);
    let second = sampler
        .tick(Ok(readings(104, vec![mount("n:/e", "/new", 50), mount("h:/e", "/m", 30)])))
        .unwrap();
    assert_eq!(float(second.dt_secs), 4.0);
    assert_eq!(float(second.mounts[0].derived.ops_per_sec), 0.0);
    assert_eq!(float(second.mounts[1].derived.ops_per_sec), 5.0);
    assert_eq!(float(second.mounts[1].derived.read_bps), 5000.0);
    assert_eq!(second.mounts[1].derived.avg_rtt_ms.map(float), Some(2.0));
    // A failed reading passes its error on and changes nothing.
    assert_eq!(sampler.tick(Err("unreadable".to_string())).unwrap_err(), "unreadable");
    let third = sampler.tick(Ok(readings(106, vec![mount("h:/e", "/m", 32)]))).unwrap();
    assert_eq!(float(third.dt_secs), 2.0);
    assert_eq!(float(third.mounts[0].derived.ops_per_sec), 1.0);
    assert_eq!(third.mounts[0].counters.raw_block, "raw");
}

#[test]
fn errors_come_in_the_order_of_the_readings() {
    let mut sampler = Sampler::new(true, Backend::Ebpf, Some("no CAP_BPF".to_string()));
    let mut r = readings(1, vec![mount("h:/e", "/m", 1)]);
    r.mount_opts = Err("a".to_string());
    r.mount_devs = Err("b".to_string());
    r.rpc = Err("c".to_string());
    r.sockets = Err("d".to_string());
    r.probes = Some(Err("e".to_string()));
    let s = sampler.tick(Ok(r)).unwrap();
    assert_eq!(
        s.partial_errors,
        [
            "mounts: a",
            "mountinfo: b",
            "rpc: c",
            "sockets: d",
            "ebpf: e",
            "ebpf backend requested but unavailable: no CAP_BPF",
        ],
    );
    assert_eq!(s.rpc, RpcClient::default());
    assert!(s.bpf_attached);
    assert!(s.raw_tcp_matches.is_empty());
    // What was to be said about the start is not said again.
    let s = sampler.tick(Ok(readings(2, vec![]))).unwrap();
    assert!(s.partial_errors.is_empty());
}

#[test]
fn connections_are_counted_by_address() {
    let (named, resolved, other) = (IpAddr::V4(1), IpAddr::V4(2), IpAddr::V4(3));
    let mut obs = SocketObs::default();
    obs.by_remote_ip.insert(named, 2);
    obs.by_remote_ip.insert(resolved, 5);
    obs.by_remote_ip.insert(other, 100);
    obs.raw_matches.push("line".to_string());
    let mut m = mount("h:/e", "/m", 1);
    m.addr = Some(named);
    let mut r = readings(1, vec![m]);
    r.resolved = vec![vec![resolved, named]];
    r.sockets = Ok(obs);
    let mut sampler = Sampler::new(false, Backend::Proc, None);
    assert_eq!(sampler.hosts(&r.mounts), ["h"]);
    assert!(sampler.fits(&r));
    let s = sampler.tick(Ok(r)).unwrap();
    assert_eq!(s.mounts[0].derived.observed_conns, 7);
    assert_eq!(s.mounts[0].derived.observed_by_ip, vec![(named, 2), (resolved, 5)]);
    assert_eq!(s.mounts[0].resolved_ips, vec![resolved, named]);
    assert_eq!(s.raw_tcp_matches, ["line"]);
}

#[test]
fn names_are_not_resolved_when_not_wanted() {
    let mut r = readings(1, vec![mount("h:/e", "/m", 1), mount("local", "/n", 1)]);
    r.resolved = vec![vec![IpAddr::V4(2)], vec![]];
    let mut quiet = Sampler::new(true, Backend::Proc, None);
    assert!(quiet.hosts(&r.mounts).is_empty());
    assert_eq!(Sampler::new(false, Backend::Proc, None).hosts(&r.mounts), ["h", ""]);
    let s = quiet.tick(Ok(r)).unwrap();
    assert!(s.mounts[0].resolved_ips.is_empty());
}

#[test]
fn latencies_go_to_the_mounts_of_their_device() {
    let mut per_dev = Table::new();
    per_dev.insert(
        77,
        BpfLatency {
            per_op: vec![BpfOpLatency {
                op: "READ".to_string(),
                dist: LatencyDist {
                    samples: 3,
                    p50_ns: 1,
                    p90_ns: 2,
                    p99_ns: 3,
                    p999_ns: 4,
                    p9999_ns: 5,
                    p99999_ns: 6,
                    max_ns: 7,
                },
                buckets: vec![0, 1, 2],
            }],
            total_samples: 3,
        },
    );
    let mut devs = Table::new();
    devs.insert("/m".to_string(), 77);
    devs.insert("/n".to_string(), 78);
    let mut with = readings(1, vec![mount("h:/e", "/m", 1), mount("h:/f", "/n", 1), mount("h:/g", "/o", 1)]);
    with.mount_devs = Ok(devs);
    with.probes = Some(Ok(per_dev));
    let mut sampler = Sampler::new(true, Backend::Auto, None);
    let s = sampler.tick(Ok(with)).unwrap();
    assert!(s.bpf_attached);
    let bpf = s.mounts[0].derived.bpf.as_ref().unwrap();
    assert_eq!(bpf.total_samples, 3);
    assert_eq!(bpf.per_op[0].dist.max_ns, 7);
    assert_eq!(bpf.per_op[0].buckets, [0, 1, 2]);
    assert!(s.mounts[1].derived.bpf.is_none());
    assert!(s.mounts[2].derived.bpf.is_none());
}

#[test]
fn probes_only_add() {
    let run = |probes: Option<Result<Table<u32, BpfLatency>, String>>| {
        let mut sampler = Sampler::new(true, Backend::Auto, None);
        sampler.tick(Ok(readings(1, vec![mount("h:/e", "/m", 1)]))).unwrap();
        let mut r = readings(3, vec![mount("h:/e", "/m", 9)]);
        r.probes = probes;
        r.sockets = Err("gone".to_string());
        let s = sampler.tick(Ok(r)).unwrap();
        let d = &s.mounts[0].derived;
        let calls: Vec<(String, f64)> =
            d.per_op.iter().map(|o| (o.op.clone(), float(o.ops_per_sec))).collect();
        let shown = (d.read_bps.to_bits(), d.ops_per_sec.to_bits(), d.avg_rtt_ms.map(float), s.rpc, calls);
        (shown, s.partial_errors)
    };
    let (plain, errors) = run(None);
    assert_eq!(errors, ["sockets: gone"]);
    let (working, same) = run(Some(Ok(Table::new())));
    assert_eq!((&working, &same), (&plain, &errors));
    let (failing, more) = run(Some(Err("lost".to_string())));
    assert_eq!(failing, plain);
    assert_eq!(more, ["sockets: gone", "ebpf: lost"]);
    assert_eq!(f64::from_bits(plain.1), 4.0);
    assert_eq!(plain.4, [("READ".to_string(), 4.0)]);
}

#[test]
fn sums_of_a_sample_that_do_not_fit_are_noticed() {
    let sampler = Sampler::new(false, Backend::Proc, None);
    let mut obs = SocketObs::default();
    obs.by_remote_ip.insert(IpAddr::V4(1), u64::MAX);
    obs.by_remote_ip.insert(IpAddr::V4(2), 1);
    let mut r = readings(1, vec![mount("h:/e", "/m", 1)]);
    r.sockets = Ok(obs);
    r.resolved = vec![vec![IpAddr::V4(1)]];
    assert!(sampler.fits(&r));
    r.resolved = vec![vec![IpAddr::V4(1), IpAddr::V4(2)]];
    assert!(!sampler.fits(&r));
    r.sockets = Err("gone".to_string());
    assert!(sampler.fits(&r));
    let mut running = Sampler::new(false, Backend::Proc, None);
    running.tick(Ok(readings(1, vec![mount("h:/e", "/m", 0)]))).unwrap();
    let mut r = readings(2, vec![mount("h:/e", "/m", 1)]);
    r.mounts[0].ops.entries[0].1.bytes_sent = u64::MAX;
    assert!(!running.fits(&r));
}
