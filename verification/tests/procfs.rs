use nfsview::binary64::Binary64;
use nfsview::mountstats::parse_mountstats;
use nfsview::ports::NumberFault;
use nfsview::procfs::{parse_devices, parse_mounts, parse_options, parse_rpc, parse_tcp_lines};
use nfsview::sampler::SocketObs;
use nfsview::types::{IpAddr, MountCounters};

fn v4(a: u8, b: u8, c: u8, d: u8) -> IpAddr {
    IpAddr::V4(u32::from_be_bytes([a, b, c, d]))
}

const TCP: &str = "  sl  local_address rem_address   st tx_queue rx_queue tr tm->when retrnsmt   uid  timeout inode
   0: 0A01010A:0381 0201010A:0801 01 00000000:00000000 02:000A 00000000     0        0 1 2
   1: 0A01010A:0382 0201010A:0801 01 00000000:00000000 02:000A 00000000     0        0 1 2
   2: 0A01010A:0383 0301010A:0801 01 00000000:00000000 02:000A 00000000     0        0 1 2
   3: 0A01010A:A1B2 0401010A:0016 01 00000000:00000000 02:000A 00000000     0        0 1 2
   4: 00000000:0801 0201010A:0801 0A 00000000:00000000 00:0000 00000000     0        0 1 2
";

const TCP6: &str = "  sl  local_address                         remote_address                        st
   0: 00000000000000000000000001000000:A1B2 00000000000000000000000001000000:4E51 01 00000000:00000000
   1: 00000000000000000000000001000000:4E51 00000000000000000000000000000000:0000 0A 00000000:00000000
";

const MOUNTSTATS: &str = "device proc mounted on /proc with fstype proc
device srv:/export mounted on /mnt/data with fstype nfs4 statvers=1.1
\topts:\trw,vers=4.1,rsize=1048576,proto=tcp,nconnect=4,timeo=600,clientaddr=10.1.1.10,addr=10.1.1.2
\tage:\t1234
\tbytes:\t1 2 3 4 5 6 7 8
\tRPC iostats version: 1.1  p/v: 100003/4 (nfs)
\txprt:\ttcp 0 0 1 0 0 10 10 0 10 0 2 0 0
\tper-op statistics
\t        NULL: 1 1 0 44 24 0 0 0 0
\t        READ: 20 21 0 5600 3000 7 150 170 0
\t       WRITE: 5 5 0 4096 700 1 20
device tmpfs mounted on /tmp with fstype tmpfs
device old:/x mounted on /old with fstype nfs statvers=1.1
\topts:\tro,vers=3
";

fn parsed() -> Vec<MountCounters> {
    parse_mountstats(MOUNTSTATS).expect("parse")
}

#[test]
fn mountstats_fixture_parses() {
    let s = MOUNTSTATS.split("device tmpfs").next().unwrap();
    let mounts = parse_mountstats(s).expect("parse");
    assert_eq!(mounts.len(), 1);
    assert_eq!(mounts[0].nconnect, Some(4));
}

#[test]
fn tcp_v4_fixture_filters_state_and_port() {
    let mut out = SocketObs::default();
    parse_tcp_lines(TCP, false, &[2049], &mut out);

    let ip_a = v4(10, 1, 1, 2);
    let ip_b = v4(10, 1, 1, 3);

    assert_eq!(out.by_remote_ip.get(&ip_a), Some(&2), "two ESTABLISHED conns to 10.1.1.2:2049");
    assert_eq!(out.by_remote_ip.get(&ip_b), Some(&1), "one ESTABLISHED conn to 10.1.1.3:2049");
    assert_eq!(out.by_remote_ip.entries.len(), 2, "port 22 and LISTEN state must be filtered");
    assert_eq!(out.raw_matches.len(), 3);
}

#[test]
fn tcp_v6_fixture_parses_loopback() {
    let mut out = SocketObs::default();
    parse_tcp_lines(TCP6, true, &[20049], &mut out);

    // ::1
    let lo = IpAddr::V6(1);
    assert_eq!(out.by_remote_ip.get(&lo), Some(&1));
}

#[test]
fn established_connections_are_counted() {
    let mut out = SocketObs::default();
    parse_tcp_lines(TCP, false, &[2049], &mut out);
    assert!(out.raw_matches[2].starts_with("2: 0A01010A:0383 0301010A:0801 01"));
    // Another table adds to it.
    parse_tcp_lines(TCP, false, &[22, 2049], &mut out);
    assert_eq!(out.by_remote_ip.get(&v4(10, 1, 1, 2)), Some(&4));
    assert_eq!(out.by_remote_ip.get(&v4(10, 1, 1, 4)), Some(&1));
    assert_eq!(out.raw_matches.len(), 7);
}

#[test]
fn long_addresses_are_read() {
    let mut out = SocketObs::default();
    parse_tcp_lines(TCP6, true, &[20049], &mut out);
    assert_eq!(out.by_remote_ip.get(&IpAddr::V6(1)), Some(&1));
    let mut none = SocketObs::default();
    parse_tcp_lines(TCP6, false, &[20049], &mut none);
    assert!(none.by_remote_ip.entries.is_empty());
    let line = "0: 0:0 B80D0120000000000000000067452301:0801 01";
    parse_tcp_lines(line, true, &[2049], &mut none);
    assert_eq!(none.by_remote_ip.entries, [(IpAddr::V6(0x2001_0db8_0000_0000_0000_0000_0123_4567), 1)]);
}

#[test]
fn lines_that_show_no_connection_are_passed_over() {
    let mut out = SocketObs::default();
    for line in [
        "",
        "0: x",
        "0: 0:0 0201010A:0801",
        "0: 0:0 0201010A:0801 1",
        "0: 0:0 0201010A 01",
        "0: 0:0 0201010A:801 01",
        "0: 0:0 0201010G:0801 01",
        "0: 0:0 201010A:0801 01",
        "0: 0:0 0201010A:08G1 01",
        "0: 0:0 0201010A:0801:1 01",
    ] {
        parse_tcp_lines(line, false, &[2049], &mut out);
        assert!(out.raw_matches.is_empty(), "{line}");
    }
    parse_tcp_lines("0: 0:0 0a01010a:0801 01", false, &[2049], &mut out);
    assert_eq!(out.by_remote_ip.entries, [(v4(10, 1, 1, 10), 1)]);
}

#[test]
fn options_by_name() {
    let list: Vec<char> = "rw,vers=4.1,sec=a=b,vers=3,=x".chars().collect();
    let t = parse_options(&list);
    let entries: Vec<(&str, &str)> = t.entries.iter().map(|(k, v)| (k.as_str(), v.as_str())).collect();
    assert_eq!(entries, [("rw", ""), ("vers", "3"), ("sec", "a=b"), ("", "x")]);
}

#[test]
fn mounts_by_mountpoint() {
    let t = parse_mounts(
        "srv:/e /m nfs4 rw,nconnect=8 0 0\nproc /proc proc rw 0 0\nsrv:/f /n nfs ro 0 0\nshort line\n",
    );
    assert_eq!(t.entries.len(), 2);
    let m = t.get(&"/m".to_string()).unwrap();
    assert_eq!(m.get(&"nconnect".to_string()).map(String::as_str), Some("8"));
    assert!(t.get(&"/n".to_string()).is_some() && t.get(&"/proc".to_string()).is_none());
}

#[test]
fn devices_by_mountpoint() {
    let t = parse_devices(
        "36 35 0:52 / /m rw,noatime shared:1 - nfs4 srv:/e rw\n37 35 8:1 / /disk rw - ext4 /dev/sda1 rw\n38 35 x:1 / /bad rw - a b c\n39 35 1 / /bad rw\n40 35 4096:0 / /bad rw\n",
    );
    assert_eq!(t.get(&"/m".to_string()), Some(&52));
    assert_eq!(t.get(&"/disk".to_string()), Some(&((8 << 20) | 1)));
    assert_eq!(t.get(&"/bad".to_string()), None);
}

#[test]
fn counters_of_the_client() {
    let r = parse_rpc("net 0 0 0 0\nrpc 1234 5 67\nproc4 2 0 0\nrpc 1 1 1\n").unwrap();
    assert_eq!((r.calls, r.retrans, r.authrefresh), (1234, 5, 67));
    assert_eq!(parse_rpc("net 0 0 0 0\n"), None);
    assert_eq!(parse_rpc("rpc 1 2\nrpc a 2 3\n"), None);
}

#[test]
fn statistics_of_the_mounts() {
    let mounts = parsed();
    assert_eq!(mounts.len(), 2);
    let m = &mounts[0];
    assert_eq!((m.device.as_str(), m.mountpoint.as_str(), m.fstype.as_str()), ("srv:/export", "/mnt/data", "nfs4"));
    assert_eq!(m.nconnect, Some(4));
    assert_eq!((m.vers.as_deref(), m.proto.as_deref()), (Some("4.1"), Some("tcp")));
    assert_eq!(m.options.get(&"addr".to_string()).map(String::as_str), Some("10.1.1.2"));
    assert_eq!((m.addr, m.clientaddr, m.st_dev), (None, None, None));
    assert_eq!(m.ops.entries.len(), 3);
    let read = m.ops.get(&"READ".to_string()).unwrap();
    assert_eq!((read.op.as_str(), read.calls, read.bytes_sent, read.bytes_recv), ("READ", 20, 5600, 3000));
    assert_eq!(read.rtt_ms_total, Binary64::from_u64(150));
    assert_eq!(read.exe_ms_total, Binary64::from_u64(170));
    // A field that the line lacks is zero.
    let write = m.ops.get(&"WRITE".to_string()).unwrap();
    assert_eq!((write.rtt_ms_total, write.exe_ms_total), (Binary64::from_u64(20), Binary64::zero()));
    assert!(m.raw_block.starts_with("device srv:/export") && m.raw_block.contains("per-op statistics\n"));
    assert!(!m.raw_block.contains("tmpfs"));
    assert_eq!((mounts[1].mountpoint.as_str(), mounts[1].nconnect), ("/old", None));
    assert!(mounts[1].ops.entries.is_empty());
}

#[test]
fn a_counter_that_is_no_number_is_an_error() {
    let text = MOUNTSTATS.replace("20 21 0 5600", "20 21 0 56x0");
    let e = parse_mountstats(&text).unwrap_err();
    assert_eq!((e.op.as_str(), e.fault), ("READ", NumberFault::InvalidDigit));
    assert_eq!(e.message(), "invalid counter of READ");
    assert!(parse_mountstats("").unwrap().is_empty());
}
