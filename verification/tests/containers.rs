use nfsview::natural::Natural;
use nfsview::order::sort;
use nfsview::rank::{sort_ops, OpOrder};
use nfsview::ringbuf::RingBuf;
use nfsview::tab::{PercentileMode, Tab};
use nfsview::table::Table;
use nfsview::text::{contains, decimal_text, find, is_before, join, same, text_of};
use nfsview::types::{IpAddr, OpDerived, SortKey, UnitsMode};
use nfsview::binary64::Binary64;

fn chars(s: &str) -> Vec<char> {
    s.chars().collect()
}

fn call(op: &str, rate: u64) -> OpDerived {
    OpDerived {
        op: op.to_string(),
        ops_per_sec: Binary64::from_u64(rate),
        bytes_per_sec: Binary64::zero(),
        share_pct: Binary64::zero(),
        avg_rtt_ms: None,
        avg_exe_ms: None,
    }
}

#[test]
fn tabs_go_round() {
    assert_eq!(Tab::titles(), ["Servers", "RPC Mix", "Trends", "Hist", "Connections", "Raw", "Help"]);
    let mut tab = Tab::Servers;
    for i in 0..7 {
        assert_eq!(tab.idx(), i);
        assert_eq!(tab.next().prev(), tab);
        assert_eq!(tab.prev().next(), tab);
        tab = tab.next();
    }
    assert_eq!(tab, Tab::Servers);
    assert_eq!(Tab::Servers.prev(), Tab::Help);
}

#[test]
fn trend_modes_go_round() {
    let mut mode = PercentileMode::All;
    let mut labels = Vec::new();
    for _ in 0..5 {
        labels.push(mode.label());
        mode = mode.next();
    }
    assert_eq!(labels, ["all", "avg", "p90", "p95", "p99"]);
    assert_eq!(mode, PercentileMode::All);
}

#[test]
fn sort_keys_go_round() {
    let mut key = SortKey::Read;
    let mut names = Vec::new();
    for _ in 0..8 {
        names.push(key.as_str());
        key = key.next();
    }
    assert_eq!(names, ["read", "write", "ops", "rtt", "exe", "mount", "nconnect", "obsconn"]);
    assert_eq!(key, SortKey::Read);
    assert_eq!(UnitsMode::Auto.label(), "auto");
    assert_eq!(UnitsMode::MiB.label(), "MiB");
    assert_eq!(UnitsMode::GiB.label(), "GiB");
    assert_eq!(UnitsMode::TiB.label(), "TiB");
}

#[test]
fn the_latest_items_are_kept() {
    let mut r = RingBuf::new(3);
    for i in 0..5 {
        r.push(i);
    }
    assert_eq!(r.to_vec(), [2, 3, 4]);
    assert_eq!(r.len(), 3);
    r.clear();
    assert_eq!(r.len(), 0);
    r.push(9);
    assert_eq!(r.to_vec(), [9]);
    let mut none = RingBuf::new(0);
    none.push(1);
    assert_eq!(none.len(), 0);
}

#[test]
fn stored_values_are_found() {
    let mut t: Table<String, u32> = Table::new();
    t.insert("a".to_string(), 1);
    t.insert("b".to_string(), 2);
    t.insert("a".to_string(), 3);
    assert_eq!(t.entries, [("a".to_string(), 3), ("b".to_string(), 2)]);
    assert_eq!(t.get(&"a".to_string()), Some(&3));
    assert_eq!(t.get(&"c".to_string()), None);
    assert_eq!(t.position(&"b".to_string()), Some(1));
    let mut by_addr: Table<Option<IpAddr>, u32> = Table::default();
    by_addr.insert(None, 1);
    by_addr.insert(Some(IpAddr::V4(7)), 2);
    assert_eq!(by_addr.get(&None), Some(&1));
    assert_eq!(by_addr.get(&Some(IpAddr::V6(7))), None);
}

#[test]
fn sorting_is_stable() {
    let mut ops: Vec<OpDerived> = [("a", 1), ("b", 5), ("c", 1), ("d", 7), ("e", 5)]
        .iter()
        .map(|(n, r)| call(n, *r))
        .collect();
    sort_ops(&mut ops);
    let names: Vec<&str> = ops.iter().map(|o| o.op.as_str()).collect();
    assert_eq!(names, ["d", "b", "e", "a", "c"]);
    sort(&mut ops, &OpOrder);
    let again: Vec<&str> = ops.iter().map(|o| o.op.as_str()).collect();
    assert_eq!(again, ["d", "b", "e", "a", "c"]);
    let mut n: u64 = 5;
    let mut many: Vec<OpDerived> = Vec::new();
    for i in 0..200 {
        n = n.wrapping_mul(6364136223846793005).wrapping_add(1442695040888963407);
        many.push(call(&i.to_string(), n >> 60));
    }
    let mut expected: Vec<(u64, String)> = many.iter().map(|o| (o.ops_per_sec.to_bits(), o.op.clone())).collect();
    expected.sort_by(|a, b| b.0.cmp(&a.0));
    sort_ops(&mut many);
    let got: Vec<(u64, String)> = many.iter().map(|o| (o.ops_per_sec.to_bits(), o.op.clone())).collect();
    assert_eq!(got, expected);
}

#[test]
fn texts_compare_and_contain() {
    let words = ["", "a", "ab", "abc", "b", "ba", "é", "éa", "z", "𝄞", "\u{ffff}"];
    for a in words {
        for b in words {
            assert_eq!(same(a, b), a == b);
            assert_eq!(is_before(a, b), a < b);
            assert_eq!(contains(a, b), a.contains(b));
        }
    }
    assert_eq!(find(&chars("xaxab"), &chars("ab")), Some(3));
    assert_eq!(find(&chars("xaxa"), &chars("ab")), None);
    assert_eq!(find(&chars("abc"), &chars("")), Some(0));
}

#[test]
fn texts_are_made() {
    assert_eq!(text_of(&['h', 'é', '𝄞']), "hé𝄞");
    for n in [0, 9, 10, 99, 100, 12_345, u64::MAX] {
        assert_eq!(decimal_text(n), n.to_string());
    }
    let parts: Vec<String> = ["a", "", "b"].iter().map(|s| s.to_string()).collect();
    assert_eq!(join(&parts, "; "), "a; ; b");
    assert_eq!(join(&Vec::new(), "; "), "");
}

#[test]
fn large_numbers() {
    let mut n = Natural::from_u64(u64::MAX);
    n.multiply(u64::MAX);
    let square = (u64::MAX as u128) * (u64::MAX as u128);
    let mut s = String::new();
    let mut other = Natural::from_u64(u64::MAX);
    other.multiply(u64::MAX - 1);
    assert!(n.at_least(&other) && !other.at_least(&n) && n.at_least(&n));
    assert_eq!(other.divide(1000), (((u64::MAX as u128) * ((u64::MAX - 1) as u128)) % 1000) as u64);
    n.push_decimal(&mut s);
    assert_eq!(s, square.to_string());
}
