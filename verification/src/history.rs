//! The latest samples of each mount and of each server.

use crate::binary64;
use crate::binary64::Binary64;
use crate::ringbuf;
use crate::ringbuf::RingBuf;
use crate::search;
use crate::table;
use crate::table::Table;
use crate::text::same;
use crate::types::{IpAddr, MountView, OpDerived, ServerAgg};
use vstd::prelude::*;

verus! {

/// The latest samples of a mount.
#[derive(Debug)]
pub struct MountHistory {
    pub read_bps: RingBuf<Binary64>,
    pub write_bps: RingBuf<Binary64>,
    pub read_lat_ms: RingBuf<Binary64>,
    pub write_lat_ms: RingBuf<Binary64>,
}

/// The latest samples of a mount, the oldest first.
pub struct MountTrend {
    pub read_bps: Seq<Binary64>,
    pub write_bps: Seq<Binary64>,
    pub read_lat_ms: Seq<Binary64>,
    pub write_lat_ms: Seq<Binary64>,
}

impl MountHistory {
    /// Whether each series keeps `cap` samples.
    pub open spec fn wf(self, cap: usize) -> bool {
        &&& self.read_bps.wf() && self.read_bps.cap == cap
        &&& self.write_bps.wf() && self.write_bps.cap == cap
        &&& self.read_lat_ms.wf() && self.read_lat_ms.cap == cap
        &&& self.write_lat_ms.wf() && self.write_lat_ms.cap == cap
    }

    /// The samples.
    pub open spec fn trend(self) -> MountTrend {
        MountTrend {
            read_bps: self.read_bps@,
            write_bps: self.write_bps@,
            read_lat_ms: self.read_lat_ms@,
            write_lat_ms: self.write_lat_ms@,
        }
    }

    /// No samples, and room for `history` of each.
    pub fn new(history: usize) -> (r: Self)
        ensures
            r.wf(history),
            r.trend() == no_mount_trend(),
    {
        MountHistory {
            read_bps: RingBuf::new(history),
            write_bps: RingBuf::new(history),
            read_lat_ms: RingBuf::new(history),
            write_lat_ms: RingBuf::new(history),
        }
    }
}

/// No samples of a mount.
pub open spec fn no_mount_trend() -> MountTrend {
    MountTrend {
        read_bps: Seq::empty(),
        write_bps: Seq::empty(),
        read_lat_ms: Seq::empty(),
        write_lat_ms: Seq::empty(),
    }
}

/// The round trip time of a kind of call; zero where it is not known.
pub open spec fn op_latency(per_op: Seq<OpDerived>, op: Seq<char>) -> Binary64 {
    match search::first(per_op, |o: OpDerived| o.op@ == op) {
        Some(i) => match per_op[i].avg_rtt_ms {
            Some(x) => x,
            None => binary64::zero(),
        },
        None => binary64::zero(),
    }
}

/// The round trip time of a kind of call; zero where it is not known.
pub fn op_lat(per_op: &Vec<OpDerived>, op_name: &str) -> (r: Binary64)
    ensures
        r == op_latency(per_op@, op_name@),
{
    let ghost p = |o: OpDerived| o.op@ == op_name@;
    let mut i: usize = 0;
    while i < per_op.len()
        invariant
            p == (|o: OpDerived| o.op@ == op_name@),
            i <= per_op@.len(),
            forall|j: int| 0 <= j < i ==> !p(#[trigger] per_op@[j]),
        decreases per_op@.len() - i,
    {
        if same(per_op[i].op.as_str(), op_name) {
            proof {
                search::lemma_first_is(per_op@, p, i as int);
            }
            return match per_op[i].avg_rtt_ms {
                Some(x) => x,
                None => Binary64::zero(),
            };
        }
        i = i + 1;
    }
    proof {
        search::lemma_first_none(per_op@, p);
    }
    Binary64::zero()
}

/// The samples of a mount with one more.
pub open spec fn mount_trend_with(t: MountTrend, cap: nat, m: MountView) -> MountTrend {
    MountTrend {
        read_bps: ringbuf::pushed(t.read_bps, cap, m.derived.read_bps),
        write_bps: ringbuf::pushed(t.write_bps, cap, m.derived.write_bps),
        read_lat_ms: ringbuf::pushed(t.read_lat_ms, cap, op_latency(m.derived.per_op@, "READ"@)),
        write_lat_ms: ringbuf::pushed(t.write_lat_ms, cap, op_latency(m.derived.per_op@, "WRITE"@)),
    }
}

/// The samples of all mounts by mountpoint, in the order in which the mountpoints came.
pub type MountTrends = Seq<(Seq<char>, MountTrend)>;

/// The samples of all mounts with one more of one mount.
pub open spec fn mount_recorded(trends: MountTrends, cap: nat, m: MountView) -> MountTrends {
    let name = m.counters.mountpoint@;
    match search::first(trends, |e: (Seq<char>, MountTrend)| e.0 == name) {
        Some(i) => trends.update(i, (name, mount_trend_with(trends[i].1, cap, m))),
        None => trends.push((name, mount_trend_with(no_mount_trend(), cap, m))),
    }
}

/// The samples of all mounts with one more of each of some mounts, in turn.
pub open spec fn mounts_recorded(trends: MountTrends, cap: nat, mounts: Seq<MountView>) -> MountTrends
    decreases mounts.len(),
{
    if mounts.len() == 0 {
        trends
    } else {
        mount_recorded(mounts_recorded(trends, cap, mounts.drop_last()), cap, mounts.last())
    }
}

/// The samples that a table of mounts holds.
pub open spec fn mount_trends(entries: Seq<(String, MountHistory)>) -> MountTrends {
    entries.map_values(|e: (String, MountHistory)| (e.0@, e.1.trend()))
}

/// Whether no mountpoint occurs twice, and each series of each mount keeps `cap` samples.
pub open spec fn mount_histories_wf(entries: Seq<(String, MountHistory)>, cap: usize) -> bool {
    &&& table::distinct(entries)
    &&& forall|i: int| 0 <= i < entries.len() ==> (#[trigger] entries[i]).1.wf(cap)
}

/// Adds a sample of a mount.
fn record_mount(histories: &mut Table<String, MountHistory>, cap: usize, m: &MountView)
    requires
        mount_histories_wf(old(histories).entries@, cap),
    ensures
        mount_histories_wf(final(histories).entries@, cap),
        mount_trends(final(histories).entries@) == mount_recorded(
            mount_trends(old(histories).entries@),
            cap as nat,
            *m,
        ),
{
    let ghost before = histories.entries@;
    let ghost name = m.counters.mountpoint@;
    let ghost p = |e: (String, MountHistory)| e.0@ == name;
    let ghost q = |e: (Seq<char>, MountTrend)| e.0 == name;
    let read_lat: Binary64 = op_lat(&m.derived.per_op, "READ");
    let write_lat: Binary64 = op_lat(&m.derived.per_op, "WRITE");
    proof {
        search::lemma_first(before, p);
        search::lemma_first_same(before, p, mount_trends(before), q);
        assert(p =~= (|e: (String, MountHistory)| crate::table::Key::id(e.0) == crate::table::Key::id(m.counters.mountpoint)));
    }
    match histories.position(&m.counters.mountpoint) {
        Some(i) => {
            let entry: &mut (String, MountHistory) = &mut histories.entries[i];
            entry.1.read_bps.push(m.derived.read_bps);
            entry.1.write_bps.push(m.derived.write_bps);
            entry.1.read_lat_ms.push(read_lat);
            entry.1.write_lat_ms.push(write_lat);
        },
        None => {
            let mut h: MountHistory = MountHistory::new(cap);
            h.read_bps.push(m.derived.read_bps);
            h.write_bps.push(m.derived.write_bps);
            h.read_lat_ms.push(read_lat);
            h.write_lat_ms.push(write_lat);
            histories.entries.push((m.counters.mountpoint.clone(), h));
        },
    }
    assert(mount_trends(histories.entries@) =~= mount_recorded(mount_trends(before), cap as nat, *m));
}

/// Adds a sample of each mount.
pub fn record_mounts(histories: &mut Table<String, MountHistory>, cap: usize, mounts: &Vec<MountView>)
    requires
        mount_histories_wf(old(histories).entries@, cap),
    ensures
        mount_histories_wf(final(histories).entries@, cap),
        mount_trends(final(histories).entries@) == mounts_recorded(
            mount_trends(old(histories).entries@),
            cap as nat,
            mounts@,
        ),
{
    let ghost before = mount_trends(histories.entries@);
    let mut i: usize = 0;
    while i < mounts.len()
        invariant
            i <= mounts@.len(),
            mount_histories_wf(histories.entries@, cap),
            mount_trends(histories.entries@) == mounts_recorded(before, cap as nat, mounts@.take(i as int)),
        decreases mounts@.len() - i,
    {
        record_mount(histories, cap, &mounts[i]);
        i = i + 1;
        assert(mounts@.take(i as int).drop_last() =~= mounts@.take(i - 1));
    }
    assert(mounts@.take(i as int) =~= mounts@);
}

/// The latest samples of a server.
#[derive(Debug)]
pub struct ServerHistory {
    pub read_bps: RingBuf<Binary64>,
    pub write_bps: RingBuf<Binary64>,
    pub ops: RingBuf<Binary64>,
    pub rtt_ms: RingBuf<Binary64>,
}

/// The latest samples of a server, the oldest first.
pub struct ServerTrend {
    pub read_bps: Seq<Binary64>,
    pub write_bps: Seq<Binary64>,
    pub ops: Seq<Binary64>,
    pub rtt_ms: Seq<Binary64>,
}

impl ServerHistory {
    /// Whether each series keeps `cap` samples.
    pub open spec fn wf(self, cap: usize) -> bool {
        &&& self.read_bps.wf() && self.read_bps.cap == cap
        &&& self.write_bps.wf() && self.write_bps.cap == cap
        &&& self.ops.wf() && self.ops.cap == cap
        &&& self.rtt_ms.wf() && self.rtt_ms.cap == cap
    }

    /// The samples.
    pub open spec fn trend(self) -> ServerTrend {
        ServerTrend {
            read_bps: self.read_bps@,
            write_bps: self.write_bps@,
            ops: self.ops@,
            rtt_ms: self.rtt_ms@,
        }
    }

    /// No samples, and room for `history` of each.
    pub fn new(history: usize) -> (r: Self)
        ensures
            r.wf(history),
            r.trend() == no_server_trend(),
    {
        ServerHistory {
            read_bps: RingBuf::new(history),
            write_bps: RingBuf::new(history),
            ops: RingBuf::new(history),
            rtt_ms: RingBuf::new(history),
        }
    }
}

/// No samples of a server.
pub open spec fn no_server_trend() -> ServerTrend {
    ServerTrend {
        read_bps: Seq::empty(),
        write_bps: Seq::empty(),
        ops: Seq::empty(),
        rtt_ms: Seq::empty(),
    }
}

/// The samples of a server with one more.
pub open spec fn server_trend_with(t: ServerTrend, cap: nat, s: ServerAgg) -> ServerTrend {
    ServerTrend {
        read_bps: ringbuf::pushed(t.read_bps, cap, s.read_bps),
        write_bps: ringbuf::pushed(t.write_bps, cap, s.write_bps),
        ops: ringbuf::pushed(t.ops, cap, s.ops_per_sec),
        rtt_ms: ringbuf::pushed(
            t.rtt_ms,
            cap,
            match s.avg_rtt_ms {
                Some(x) => x,
                None => binary64::zero(),
            },
        ),
    }
}

/// The samples of all servers by address, in the order in which the addresses came.
pub type ServerTrends = Seq<(Option<IpAddr>, ServerTrend)>;

/// The samples of all servers with one more of one server.
pub open spec fn server_recorded(trends: ServerTrends, cap: nat, s: ServerAgg) -> ServerTrends {
    match search::first(trends, |e: (Option<IpAddr>, ServerTrend)| e.0 == s.addr) {
        Some(i) => trends.update(i, (s.addr, server_trend_with(trends[i].1, cap, s))),
        None => trends.push((s.addr, server_trend_with(no_server_trend(), cap, s))),
    }
}

/// The samples of all servers with one more of each of some servers, in turn.
pub open spec fn servers_recorded(trends: ServerTrends, cap: nat, servers: Seq<ServerAgg>) -> ServerTrends
    decreases servers.len(),
{
    if servers.len() == 0 {
        trends
    } else {
        server_recorded(servers_recorded(trends, cap, servers.drop_last()), cap, servers.last())
    }
}

/// The samples that a table of servers holds.
pub open spec fn server_trends(entries: Seq<(Option<IpAddr>, ServerHistory)>) -> ServerTrends {
    entries.map_values(|e: (Option<IpAddr>, ServerHistory)| (e.0, e.1.trend()))
}

/// Whether no server occurs twice, and each series of each server keeps `cap` samples.
pub open spec fn server_histories_wf(entries: Seq<(Option<IpAddr>, ServerHistory)>, cap: usize) -> bool {
    &&& table::distinct(entries)
    &&& forall|i: int| 0 <= i < entries.len() ==> (#[trigger] entries[i]).1.wf(cap)
}

/// Adds a sample of a server.
fn record_server(histories: &mut Table<Option<IpAddr>, ServerHistory>, cap: usize, s: &ServerAgg)
    requires
        server_histories_wf(old(histories).entries@, cap),
    ensures
        server_histories_wf(final(histories).entries@, cap),
        server_trends(final(histories).entries@) == server_recorded(
            server_trends(old(histories).entries@),
            cap as nat,
            *s,
        ),
{
    let ghost before = histories.entries@;
    let ghost p = |e: (Option<IpAddr>, ServerHistory)| e.0 == s.addr;
    let ghost q = |e: (Option<IpAddr>, ServerTrend)| e.0 == s.addr;
    let rtt: Binary64 = match s.avg_rtt_ms {
        Some(x) => x,
        None => Binary64::zero(),
    };
    proof {
        search::lemma_first(before, p);
        search::lemma_first_same(before, p, server_trends(before), q);
        assert(p =~= (|e: (Option<IpAddr>, ServerHistory)| crate::table::Key::id(e.0) == crate::table::Key::id(s.addr)));
    }
    match histories.position(&s.addr) {
        Some(i) => {
            let entry: &mut (Option<IpAddr>, ServerHistory) = &mut histories.entries[i];
            entry.1.read_bps.push(s.read_bps);
            entry.1.write_bps.push(s.write_bps);
            entry.1.ops.push(s.ops_per_sec);
            entry.1.rtt_ms.push(rtt);
        },
        None => {
            let mut h: ServerHistory = ServerHistory::new(cap);
            h.read_bps.push(s.read_bps);
            h.write_bps.push(s.write_bps);
            h.ops.push(s.ops_per_sec);
            h.rtt_ms.push(rtt);
            histories.entries.push((s.addr, h));
        },
    }
    assert(server_trends(histories.entries@) =~= server_recorded(server_trends(before), cap as nat, *s));
}

/// Adds a sample of each server.
pub fn record_servers(histories: &mut Table<Option<IpAddr>, ServerHistory>, cap: usize, servers: &Vec<ServerAgg>)
    requires
        server_histories_wf(old(histories).entries@, cap),
    ensures
        server_histories_wf(final(histories).entries@, cap),
        server_trends(final(histories).entries@) == servers_recorded(
            server_trends(old(histories).entries@),
            cap as nat,
            servers@,
        ),
{
    let ghost before = server_trends(histories.entries@);
    let mut i: usize = 0;
    while i < servers.len()
        invariant
            i <= servers@.len(),
            server_histories_wf(histories.entries@, cap),
            server_trends(histories.entries@) == servers_recorded(before, cap as nat, servers@.take(i as int)),
        decreases servers@.len() - i,
    {
        record_server(histories, cap, &servers[i]);
        i = i + 1;
        assert(servers@.take(i as int).drop_last() =~= servers@.take(i - 1));
    }
    assert(servers@.take(i as int) =~= servers@);
}

} // verus!
