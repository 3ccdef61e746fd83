//! What a snapshot shows, in terms of what was read.

use crate::binary64;
use crate::exact;
use crate::ports;
use crate::sampler;
use crate::sampler::{Backend, Readings, Sampler};
use crate::table;
use crate::table::Table;
use crate::text;
use crate::types::{BpfLatency, IpAddr, MountCounters, Snapshot, Timestamp};
use vstd::prelude::*;

verus! {

/// The nanoseconds from one time to another.
pub open spec fn nanos_between(a: Timestamp, b: Timestamp) -> int {
    (b.secs - a.secs) * 1_000_000_000 + (b.nanos - a.nanos)
}

/// The time that a snapshot covers is the time since the one before, and the time between samples
/// where there was none or the clock went back. Whole seconds are exact.
pub proof fn law_time_covered(ts: Timestamp, now: Timestamp, interval_ms: u64, k: nat)
    ensures
        nanos_between(ts, now) >= 0 ==> sampler::elapsed(Some(ts), now, interval_ms) == binary64::sum(
            binary64::whole((nanos_between(ts, now) / 1_000_000_000) as nat),
            binary64::quotient(
                binary64::whole((nanos_between(ts, now) % 1_000_000_000) as nat),
                binary64::whole(1_000_000_000),
            ),
        ),
        nanos_between(ts, now) < 0 ==> sampler::elapsed(Some(ts), now, interval_ms) == binary64::quotient(
            binary64::whole(interval_ms as nat),
            binary64::whole(1000),
        ),
        sampler::elapsed(None, now, interval_ms) == binary64::quotient(
            binary64::whole(interval_ms as nat),
            binary64::whole(1000),
        ),
        nanos_between(ts, now) == k * 1_000_000_000 && k <= 0x20_0000_0000_0000 ==> sampler::elapsed(
            Some(ts),
            now,
            interval_ms,
        ) == binary64::whole(k),
{
    assert(now.total() - ts.total() == nanos_between(ts, now)) by (nonlinear_arith)
        requires
            now.total() == now.secs * 1_000_000_000 + now.nanos,
            ts.total() == ts.secs * 1_000_000_000 + ts.nanos,
            nanos_between(ts, now) == (now.secs - ts.secs) * 1_000_000_000 + (now.nanos - ts.nanos),
    ;
    if nanos_between(ts, now) == k * 1_000_000_000 && k <= 0x20_0000_0000_0000 {
        assert(nanos_between(ts, now) / 1_000_000_000 == k);
        assert(nanos_between(ts, now) % 1_000_000_000 == 0);
        exact::law_whole_quotient(0, 1_000_000_000);
        exact::law_whole_sum(k, 0);
    }
}

/// Where a reading failed, what is said of it, and nothing otherwise.
pub open spec fn said<T>(label: Seq<char>, r: Result<T, String>) -> Seq<Seq<char>> {
    match r {
        Ok(_) => Seq::empty(),
        Err(e) => seq![label + ": "@ + e@],
    }
}

/// A snapshot shows what was read: the time, the counters of the RPC client, the lines of
/// connections, whether there are probes, and in their order what is said of the readings that
/// failed.
pub proof fn law_snapshot_shows(
    s: Snapshot,
    r: Readings,
    no_dns: bool,
    prev: Option<(Timestamp, Vec<MountCounters>)>,
    pending: Option<String>,
)
    requires
        sampler::is_snapshot(s, r, no_dns, prev, pending),
    ensures
        s.ts == r.now,
        prev matches Some(p) ==> s.dt_secs == sampler::elapsed(Some(p.0), r.now, r.interval_ms),
        prev is None ==> s.dt_secs == sampler::elapsed(None, r.now, r.interval_ms),
        s.mounts@.len() == r.mounts@.len(),
        r.rpc matches Ok(c) ==> s.rpc == c,
        r.rpc is Err ==> s.rpc.calls == 0 && s.rpc.retrans == 0 && s.rpc.authrefresh == 0,
        r.sockets matches Ok(o) ==> s.raw_tcp_matches@ == o.raw_matches@,
        r.sockets is Err ==> s.raw_tcp_matches@.len() == 0,
        s.bpf_attached <==> r.probes is Some,
        text::texts(s.partial_errors@) == said("mounts"@, r.mount_opts) + said("mountinfo"@, r.mount_devs) + said(
            "rpc"@,
            r.rpc,
        ) + said("sockets"@, r.sockets) + (match r.probes {
            Some(p) => said("ebpf"@, p),
            None => Seq::empty(),
        }) + (match pending {
            Some(m) => seq![m@],
            None => Seq::empty(),
        }),
{
    let a = said("mounts"@, r.mount_opts);
    let b = said("mountinfo"@, r.mount_devs);
    let c = said("rpc"@, r.rpc);
    let d = said("sockets"@, r.sockets);
    let e = match r.probes {
        Some(p) => said("ebpf"@, p),
        None => Seq::empty(),
    };
    let f = match pending {
        Some(m) => seq![m@],
        None => Seq::empty(),
    };
    assert(sampler::noted(Seq::empty(), "mounts"@, r.mount_opts) =~= a);
    assert(sampler::noted(a, "mountinfo"@, r.mount_devs) =~= a + b);
    assert(sampler::noted(a + b, "rpc"@, r.rpc) =~= a + b + c);
    assert(sampler::noted(a + b + c, "sockets"@, r.sockets) =~= a + b + c + d);
    if let Some(p) = r.probes {
        assert(sampler::noted(a + b + c + d, "ebpf"@, p) =~= a + b + c + d + e);
    } else {
        assert(a + b + c + d + e =~= a + b + c + d);
    }
    assert(sampler::error_texts(r, pending) =~= a + b + c + d + e + f);
}

/// A mount of a snapshot is the mount that was read: its own fields and counters, the number of
/// its device from the list with devices, and the options of the list of mounts where it has none
/// of that name itself.
pub proof fn law_mount_shown(
    s: Snapshot,
    r: Readings,
    no_dns: bool,
    prev: Option<(Timestamp, Vec<MountCounters>)>,
    pending: Option<String>,
    i: int,
    key: Seq<char>,
)
    requires
        sampler::is_snapshot(s, r, no_dns, prev, pending),
        0 <= i < r.mounts@.len(),
    ensures
        ({
            let m = r.mounts@[i];
            let v = s.mounts@[i];
            &&& v.counters.device@ == m.device@
            &&& v.counters.mountpoint@ == m.mountpoint@
            &&& v.counters.fstype@ == m.fstype@
            &&& v.counters.vers == m.vers
            &&& v.counters.proto == m.proto
            &&& v.counters.addr == m.addr
            &&& v.counters.clientaddr == m.clientaddr
            &&& v.counters.ops.entries@ == m.ops.entries@
            &&& v.counters.raw_block@ == m.raw_block@
            &&& v.counters.st_dev == (match r.mount_devs {
                Ok(t) => table::lookup(t.entries@, m.mountpoint@),
                Err(_) => None,
            })
            &&& m.nconnect is Some ==> v.counters.nconnect == m.nconnect
            &&& table::lookup(m.options.entries@, key) is Some ==> table::lookup(v.counters.options.entries@, key)
                == table::lookup(m.options.entries@, key)
            &&& table::lookup(m.options.entries@, key) is None ==> table::lookup(
                v.counters.options.entries@,
                key,
            ) == (match r.mount_opts {
                Ok(t) => match table::lookup(t.entries@, m.mountpoint@) {
                    Some(own) => table::lookup(own.entries@, key),
                    None => None,
                },
                Err(_) => None,
            })
        }),
{
    let m = r.mounts@[i];
    let v = s.mounts@[i];
    assert(sampler::is_view(v, r, i, no_dns, prev, s.dt_secs));
    table::law_entries_are_found(Seq::<(String, u32)>::empty(), 0, m.mountpoint@);
    table::law_entries_are_found(Seq::<(String, Table<String, String>)>::empty(), 0, m.mountpoint@);
    if let Some(own) = table::lookup(r.options(), m.mountpoint@) {
        sampler::law_with_options(m.options.entries@, own.entries@, key);
    }
}

/// Where a mount does not say how many connections it has, its options in the list of mounts do.
pub proof fn law_connections_asked_for(
    s: Snapshot,
    r: Readings,
    no_dns: bool,
    prev: Option<(Timestamp, Vec<MountCounters>)>,
    pending: Option<String>,
    i: int,
    opts: Table<String, Table<String, String>>,
    own: Table<String, String>,
    value: String,
    n: u32,
)
    requires
        sampler::is_snapshot(s, r, no_dns, prev, pending),
        0 <= i < r.mounts@.len(),
        r.mounts@[i].nconnect is None,
        r.mount_opts == Ok::<Table<String, Table<String, String>>, String>(opts),
        table::lookup(opts.entries@, r.mounts@[i].mountpoint@) == Some(own),
    ensures
        table::lookup(own.entries@, "nconnect"@) == Some(value) && value@ == text::decimal(n as nat)
            ==> s.mounts@[i].counters.nconnect == Some(n),
        table::lookup(own.entries@, "nconnect"@) is None ==> s.mounts@[i].counters.nconnect is None,
{
    assert(sampler::is_view(s.mounts@[i], r, i, no_dns, prev, s.dt_secs));
    ports::law_decimal_read_back(n as nat, u32::MAX as nat);
}

/// The connections to the addresses of a server that has any: one entry for each address, in
/// their order, and their sum.
pub proof fn law_connections_observed(ips: Seq<IpAddr>, conns: Seq<(IpAddr, u64)>)
    ensures
        sampler::observed(ips, conns) == ips.filter(|ip: IpAddr| table::lookup(conns, ip) is Some).map_values(
            |ip: IpAddr| (ip, table::lookup(conns, ip)->0),
        ),
        sampler::conn_total(sampler::observed(ips, conns)) == ips.fold_left(
            0nat,
            |a: nat, ip: IpAddr|
                match table::lookup(conns, ip) {
                    Some(n) => a + n as nat,
                    None => a,
                },
        ),
    decreases ips.len(),
{
    reveal(Seq::filter);
    let p = |ip: IpAddr| table::lookup(conns, ip) is Some;
    let f = |ip: IpAddr| (ip, table::lookup(conns, ip)->0);
    if ips.len() > 0 {
        let front = ips.drop_last();
        law_connections_observed(front, conns);
        let before = sampler::observed(front, conns);
        if let Some(n) = table::lookup(conns, ips.last()) {
            assert(ips.filter(p) == front.filter(p).push(ips.last()));
            assert(front.filter(p).push(ips.last()).map_values(f) =~= front.filter(p).map_values(f).push(
                f(ips.last()),
            ));
            assert(before.push((ips.last(), n)).drop_last() =~= before);
        } else {
            assert(ips.filter(p) == front.filter(p));
        }
    } else {
        assert(ips.filter(p).map_values(f) =~= sampler::observed(ips, conns));
    }
}

/// A mount of a snapshot shows the connections to the addresses of its server: the one that the
/// mount names and, where names are resolved, those of its host.
pub proof fn law_connections_shown(
    s: Snapshot,
    r: Readings,
    no_dns: bool,
    prev: Option<(Timestamp, Vec<MountCounters>)>,
    pending: Option<String>,
    i: int,
)
    requires
        sampler::is_snapshot(s, r, no_dns, prev, pending),
        0 <= i < r.mounts@.len(),
        i < r.resolved@.len(),
        binary64::less(binary64::zero(), s.dt_secs),
    ensures
        ({
            let v = s.mounts@[i];
            let resolved = if no_dns {
                Seq::<IpAddr>::empty()
            } else {
                r.resolved@[i]@
            };
            let ips = sampler::match_addresses(r.mounts@[i].addr, resolved);
            let list = match r.sockets {
                Ok(o) => sampler::observed(ips, o.by_remote_ip.entries@),
                Err(_) => Seq::empty(),
            };
            &&& v.resolved_ips@ == resolved
            &&& v.derived.observed_by_ip@ == list
            &&& v.derived.observed_conns == sampler::conn_total(list) as u64
        }),
{
    let v = s.mounts@[i];
    assert(sampler::is_view(v, r, i, no_dns, prev, s.dt_secs));
    if r.sockets is Err {
        lemma_no_connections(
            sampler::match_addresses(r.mounts@[i].addr, r.addresses(no_dns, i)),
        );
    }
}

proof fn lemma_no_connections(ips: Seq<IpAddr>)
    ensures
        sampler::observed(ips, Seq::empty()) == Seq::<(IpAddr, u64)>::empty(),
    decreases ips.len(),
{
    if ips.len() > 0 {
        lemma_no_connections(ips.drop_last());
        table::law_entries_are_found(Seq::<(IpAddr, u64)>::empty(), 0, ips.last());
    }
}

/// A mount of a snapshot shows the latencies of its own device, whole, and none where the device
/// is not known or has none.
pub proof fn law_latencies_shown(
    s: Snapshot,
    r: Readings,
    no_dns: bool,
    prev: Option<(Timestamp, Vec<MountCounters>)>,
    pending: Option<String>,
    i: int,
    latencies: Table<u32, BpfLatency>,
    k: int,
)
    requires
        sampler::is_snapshot(s, r, no_dns, prev, pending),
        0 <= i < r.mounts@.len(),
        r.probes == Some(Ok::<Table<u32, BpfLatency>, String>(latencies)),
    ensures
        s.mounts@[i].counters.st_dev is None ==> s.mounts@[i].derived.bpf is None,
        s.mounts@[i].counters.st_dev matches Some(dev) ==> match table::lookup(latencies.entries@, dev) {
            Some(l) => s.mounts@[i].derived.bpf matches Some(b) && b.total_samples == l.total_samples
                && b.per_op@.len() == l.per_op@.len() && (0 <= k < l.per_op@.len() ==> b.per_op@[k].op@
                == l.per_op@[k].op@ && b.per_op@[k].dist == l.per_op@[k].dist && b.per_op@[k].buckets@
                == l.per_op@[k].buckets@),
            None => s.mounts@[i].derived.bpf is None,
        },
{
    assert(sampler::is_view(s.mounts@[i], r, i, no_dns, prev, s.dt_secs));
}

/// Without probes no mount shows latencies.
pub proof fn law_no_latencies(
    s: Snapshot,
    r: Readings,
    no_dns: bool,
    prev: Option<(Timestamp, Vec<MountCounters>)>,
    pending: Option<String>,
    i: int,
)
    requires
        sampler::is_snapshot(s, r, no_dns, prev, pending),
        0 <= i < r.mounts@.len(),
        r.probes is None,
    ensures
        s.mounts@[i].derived.bpf is None,
{
    assert(sampler::is_view(s.mounts@[i], r, i, no_dns, prev, s.dt_secs));
    if let Some(dev) = s.mounts@[i].counters.st_dev {
        table::law_entries_are_found(Seq::<(u32, BpfLatency)>::empty(), 0, dev);
    }
}

/// The counters that a snapshot shows are kept for the next, field by field, with its time.
pub proof fn law_counters_kept(sampler: Sampler, s: Snapshot, i: int)
    requires
        sampler::keeps(sampler, s),
        0 <= i < s.mounts@.len(),
    ensures
        sampler.pending_error is None,
        sampler.prev is Some,
        (sampler.prev->0).0 == s.ts,
        (sampler.prev->0).1@.len() == s.mounts@.len(),
        ({
            let kept = (sampler.prev->0).1@[i];
            let shown = s.mounts@[i].counters;
            &&& kept.device@ == shown.device@
            &&& kept.mountpoint@ == shown.mountpoint@
            &&& kept.fstype@ == shown.fstype@
            &&& kept.vers == shown.vers
            &&& kept.proto == shown.proto
            &&& kept.nconnect == shown.nconnect
            &&& kept.addr == shown.addr
            &&& kept.clientaddr == shown.clientaddr
            &&& kept.st_dev == shown.st_dev
            &&& kept.options.entries@ == shown.options.entries@
            &&& kept.ops.entries@ == shown.ops.entries@
            &&& kept.raw_block@ == shown.raw_block@
        }),
{
    let counters = (sampler.prev->0).1;
    assert(sampler::same_counters(s.mounts@[i].counters, counters@[i]));
}

/// Of probes that cannot be attached something is said but where none are wanted, and what is
/// said ends with the reason.
pub proof fn law_attach_warning(backend: Backend, error: Seq<char>)
    ensures
        backend == Backend::Proc ==> backend.attach_warning(error) is None,
        backend != Backend::Proc ==> (backend.attach_warning(error) matches Some(m) && m.len() >= error.len()
            && m.skip(m.len() - error.len()) == error),
{
    if let Some(m) = backend.attach_warning(error) {
        assert(m.skip(m.len() - error.len()) =~= error);
    }
}

/// The addresses of a server come in the order in which its host name resolves to them, behind
/// the one that the mount names, and one that came before is not repeated.
pub proof fn law_addresses_in_order(addr: Option<IpAddr>, resolved: Seq<IpAddr>, ip: IpAddr)
    ensures
        addr is None ==> sampler::match_addresses(addr, Seq::empty()).len() == 0,
        addr matches Some(a) ==> sampler::match_addresses(addr, Seq::empty()) == seq![a],
        sampler::match_addresses(addr, resolved.push(ip)) == if addr == Some(ip) || resolved.contains(ip) {
            sampler::match_addresses(addr, resolved)
        } else {
            sampler::match_addresses(addr, resolved).push(ip)
        },
{
    sampler::law_match_addresses(addr, resolved);
    assert(resolved.push(ip).drop_last() =~= resolved);
}

} // verus!
