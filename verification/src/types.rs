//! What is measured, and what is derived from it.

use crate::binary64::Binary64;
use crate::table::Table;
use vstd::prelude::*;

verus! {

/// An internet address.
#[derive(Debug, Clone, Copy, PartialEq, Eq, Structural)]
pub enum IpAddr {
    V4(u32),
    V6(u128),
}

/// What mounts and servers are ordered by.
#[derive(Debug, Clone, Copy, PartialEq, Eq, Structural)]
pub enum SortKey {
    Read,
    Write,
    Ops,
    Rtt,
    Exe,
    Mount,
    Nconnect,
    ObsConn,
}

impl SortKey {
    /// The place of the key in the cycle of keys.
    pub open spec fn position(self) -> nat {
        match self {
            SortKey::Read => 0,
            SortKey::Write => 1,
            SortKey::Ops => 2,
            SortKey::Rtt => 3,
            SortKey::Exe => 4,
            SortKey::Mount => 5,
            SortKey::Nconnect => 6,
            SortKey::ObsConn => 7,
        }
    }

    /// The key at a place of the cycle.
    pub open spec fn at(place: nat) -> SortKey {
        let p = place % 8;
        if p == 0 {
            SortKey::Read
        } else if p == 1 {
            SortKey::Write
        } else if p == 2 {
            SortKey::Ops
        } else if p == 3 {
            SortKey::Rtt
        } else if p == 4 {
            SortKey::Exe
        } else if p == 5 {
            SortKey::Mount
        } else if p == 6 {
            SortKey::Nconnect
        } else {
            SortKey::ObsConn
        }
    }

    /// The name of the key.
    pub open spec fn name(self) -> Seq<char> {
        match self {
            SortKey::Read => "read"@,
            SortKey::Write => "write"@,
            SortKey::Ops => "ops"@,
            SortKey::Rtt => "rtt"@,
            SortKey::Exe => "exe"@,
            SortKey::Mount => "mount"@,
            SortKey::Nconnect => "nconnect"@,
            SortKey::ObsConn => "obsconn"@,
        }
    }

    /// The next key of the cycle.
    pub fn next(self) -> (r: Self)
        ensures
            r == SortKey::at(self.position() + 1),
    {
        match self {
            SortKey::Read => SortKey::Write,
            SortKey::Write => SortKey::Ops,
            SortKey::Ops => SortKey::Rtt,
            SortKey::Rtt => SortKey::Exe,
            SortKey::Exe => SortKey::Mount,
            SortKey::Mount => SortKey::Nconnect,
            SortKey::Nconnect => SortKey::ObsConn,
            SortKey::ObsConn => SortKey::Read,
        }
    }

    /// The name of the key.
    pub fn as_str(self) -> (r: &'static str)
        ensures
            r@ == self.name(),
    {
        match self {
            SortKey::Read => "read",
            SortKey::Write => "write",
            SortKey::Ops => "ops",
            SortKey::Rtt => "rtt",
            SortKey::Exe => "exe",
            SortKey::Mount => "mount",
            SortKey::Nconnect => "nconnect",
            SortKey::ObsConn => "obsconn",
        }
    }
}

/// Every sort key stands at its place of the cycle, and eight steps go all the way round.
pub proof fn law_sort_cycle(key: SortKey)
    ensures
        key.position() < 8,
        SortKey::at(key.position()) == key,
        SortKey::at(key.position() + 8) == key,
{
}

/// The units in which rates are shown.
#[derive(Debug, Clone, Copy, PartialEq, Eq, Structural)]
pub enum UnitsMode {
    Auto,
    MiB,
    GiB,
    TiB,
}

impl UnitsMode {
    /// The name of the units.
    pub open spec fn name(self) -> Seq<char> {
        match self {
            UnitsMode::Auto => "auto"@,
            UnitsMode::MiB => "MiB"@,
            UnitsMode::GiB => "GiB"@,
            UnitsMode::TiB => "TiB"@,
        }
    }

    /// The name of the units.
    pub fn label(self) -> (r: &'static str)
        ensures
            r@ == self.name(),
    {
        match self {
            UnitsMode::Auto => "auto",
            UnitsMode::MiB => "MiB",
            UnitsMode::GiB => "GiB",
            UnitsMode::TiB => "TiB",
        }
    }
}

/// The counters of one kind of call on one mount, since it was mounted.
#[derive(Debug)]
pub struct OpCounters {
    pub op: String,
    pub calls: u64,
    pub bytes_sent: u64,
    pub bytes_recv: u64,
    pub rtt_ms_total: Binary64,
    pub exe_ms_total: Binary64,
}

impl Clone for OpCounters {
    fn clone(&self) -> (r: Self)
        ensures
            r == *self,
    {
        OpCounters {
            op: self.op.clone(),
            calls: self.calls,
            bytes_sent: self.bytes_sent,
            bytes_recv: self.bytes_recv,
            rtt_ms_total: self.rtt_ms_total,
            exe_ms_total: self.exe_ms_total,
        }
    }
}

/// One mount as the kernel reports it.
#[derive(Debug)]
pub struct MountCounters {
    pub device: String,
    pub mountpoint: String,
    pub fstype: String,
    pub vers: Option<String>,
    pub proto: Option<String>,
    pub nconnect: Option<u32>,
    pub addr: Option<IpAddr>,
    pub clientaddr: Option<IpAddr>,
    pub st_dev: Option<u32>,
    pub options: Table<String, String>,
    pub ops: Table<String, OpCounters>,
    pub raw_block: String,
}

/// The rates of one kind of call.
#[derive(Debug)]
pub struct OpDerived {
    pub op: String,
    pub ops_per_sec: Binary64,
    pub bytes_per_sec: Binary64,
    pub share_pct: Binary64,
    pub avg_rtt_ms: Option<Binary64>,
    pub avg_exe_ms: Option<Binary64>,
}

/// The distribution of the latencies of one kind of call.
#[derive(Debug, Clone, Copy, PartialEq, Eq, Structural)]
pub struct LatencyDist {
    pub samples: u64,
    pub p50_ns: u64,
    pub p90_ns: u64,
    pub p99_ns: u64,
    pub p999_ns: u64,
    pub p9999_ns: u64,
    pub p99999_ns: u64,
    pub max_ns: u64,
}

/// The latencies of one kind of call, with the counts of the histogram buckets.
#[derive(Debug)]
pub struct BpfOpLatency {
    pub op: String,
    pub dist: LatencyDist,
    pub buckets: Vec<u64>,
}

/// The latencies of one mount.
#[derive(Debug)]
pub struct BpfLatency {
    pub per_op: Vec<BpfOpLatency>,
    pub total_samples: u64,
}

/// What is derived for one mount from two samples.
#[derive(Debug)]
pub struct MountDerived {
    pub read_bps: Binary64,
    pub write_bps: Binary64,
    pub ops_per_sec: Binary64,
    pub avg_rtt_ms: Option<Binary64>,
    pub avg_exe_ms: Option<Binary64>,
    pub observed_conns: u64,
    pub observed_by_ip: Vec<(IpAddr, u64)>,
    pub per_op: Vec<OpDerived>,
    pub bpf: Option<BpfLatency>,
}

/// One mount of a snapshot.
#[derive(Debug)]
pub struct MountView {
    pub counters: MountCounters,
    pub derived: MountDerived,
    pub resolved_ips: Vec<IpAddr>,
}

/// The counters of the RPC client.
#[derive(Debug, Clone, Copy, PartialEq, Eq, Structural)]
pub struct RpcClient {
    pub calls: u64,
    pub retrans: u64,
    pub authrefresh: u64,
}

impl Default for RpcClient {
    fn default() -> (r: Self)
        ensures
            r == (RpcClient { calls: 0, retrans: 0, authrefresh: 0 }),
    {
        RpcClient { calls: 0, retrans: 0, authrefresh: 0 }
    }
}

/// A time, in seconds and nanoseconds since the start of 1970.
#[derive(Debug, Clone, Copy, PartialEq, Eq, Structural)]
pub struct Timestamp {
    pub secs: i64,
    pub nanos: u32,
}

impl Timestamp {
    /// Whether the nanoseconds are less than a second.
    pub open spec fn wf(self) -> bool {
        self.nanos < 1_000_000_000
    }

    /// The time in nanoseconds.
    pub open spec fn total(self) -> int {
        self.secs * 1_000_000_000 + self.nanos
    }
}

/// What one sample shows.
#[derive(Debug)]
pub struct Snapshot {
    pub ts: Timestamp,
    pub dt_secs: Binary64,
    pub mounts: Vec<MountView>,
    pub rpc: RpcClient,
    pub raw_tcp_matches: Vec<String>,
    pub partial_errors: Vec<String>,
    pub bpf_attached: bool,
}

/// The mounts of one server, taken together.
#[derive(Debug)]
pub struct ServerAgg {
    pub addr: Option<IpAddr>,
    pub hostname: String,
    pub mounts: Vec<String>,
    pub read_bps: Binary64,
    pub write_bps: Binary64,
    pub ops_per_sec: Binary64,
    pub avg_rtt_ms: Option<Binary64>,
    pub avg_exe_ms: Option<Binary64>,
    pub observed_conns: u64,
    pub nconnect: Option<u32>,
    pub per_op: Vec<OpDerived>,
}

} // verus!
