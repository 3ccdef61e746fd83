//! One sample after the other: what is read each time becomes a snapshot.

use crate::binary64;
use crate::binary64::Binary64;
use crate::exact;
use crate::order;
use crate::ports;
use crate::ports::parse_number;
use crate::rank;
use crate::rates;
use crate::rates::{check_deltas, derive_rates, host_from_device};
use crate::search;
use crate::table;
use crate::table::{Key, Table};
use crate::text;
use crate::text::{chars_of, same};
use crate::types::{
    BpfLatency, BpfOpLatency, IpAddr, MountCounters, MountDerived, MountView, OpCounters, OpDerived,
    RpcClient, Snapshot, SortKey, Timestamp,
};
use std::sync::atomic::AtomicU64;
use std::sync::Arc;
use vstd::prelude::*;
use vstd::string::*;

verus! {

/// Where latencies come from. `Auto` takes them from the kernel probes where those can be
/// attached; `Proc` never does; `Ebpf` insists on it.
#[derive(Debug, Clone, Copy, PartialEq, Eq, Structural)]
pub enum Backend {
    Auto,
    Proc,
    Ebpf,
}

impl Default for Backend {
    fn default() -> (r: Self)
        ensures
            r == Backend::Auto,
    {
        Backend::Auto
    }
}

impl Backend {
    /// Whether the kernel probes are to be attached.
    pub fn wants_probes(self) -> (r: bool)
        ensures
            r == (self != Backend::Proc),
    {
        self != Backend::Proc
    }

    /// Whether the program can start: probes that are insisted on have to be built in.
    pub fn can_start(self, probes_built: bool) -> (r: bool)
        ensures
            r == (self == Backend::Ebpf ==> probes_built),
    {
        self != Backend::Ebpf || probes_built
    }

    /// What is said where the probes cannot be attached.
    pub open spec fn attach_warning(self, error: Seq<char>) -> Option<Seq<char>> {
        match self {
            Backend::Auto => Some("ebpf disabled: "@ + error),
            Backend::Proc => None,
            Backend::Ebpf => Some("ebpf backend requested but unavailable: "@ + error),
        }
    }

    /// What is said where the probes cannot be attached.
    pub fn attach_message(self, error: &str) -> (r: Option<String>)
        ensures
            match r {
                Some(m) => self.attach_warning(error@) == Some(m@),
                None => self.attach_warning(error@) is None,
            },
    {
        match self {
            Backend::Auto => Some("ebpf disabled: ".to_string().concat(error)),
            Backend::Proc => None,
            Backend::Ebpf => Some("ebpf backend requested but unavailable: ".to_string().concat(error)),
        }
    }
}

/// How to sample. The time between samples is in milliseconds and can be changed meanwhile.
#[derive(Debug, Clone)]
pub struct SamplerConfig {
    pub interval: Arc<AtomicU64>,
    pub no_dns: bool,
    pub remote_ports: Vec<u16>,
    pub backend: Backend,
}

/// The connections to file servers that are established.
#[derive(Debug)]
pub struct SocketObs {
    pub by_remote_ip: Table<IpAddr, u64>,
    pub raw_matches: Vec<String>,
}

impl Default for SocketObs {
    fn default() -> (r: Self)
        ensures
            r.by_remote_ip.entries@ == Seq::<(IpAddr, u64)>::empty(),
            r.by_remote_ip.wf(),
            r.raw_matches@ == Seq::<String>::empty(),
    {
        SocketObs { by_remote_ip: Table::new(), raw_matches: Vec::new() }
    }
}

/// What was read, or a default where that failed, with a word on the failure.
pub fn fallback<T: Default>(label: &str, errors: &mut Vec<String>, r: Result<T, String>) -> (v: T)
    ensures
        match r {
            Ok(x) => v == x && final(errors)@ == old(errors)@,
            Err(e) => {
                &&& call_ensures(T::default, (), v)
                &&& final(errors)@.len() == old(errors)@.len() + 1
                &&& final(errors)@.drop_last() == old(errors)@
                &&& final(errors)@.last()@ == label@ + ": "@ + e@
            },
        },
{
    match r {
        Ok(x) => x,
        Err(e) => {
            let mut m: String = label.to_string();
            m.append(": ");
            m.append(e.as_str());
            errors.push(m);
            assert(errors@.drop_last() =~= old(errors)@);
            T::default()
        },
    }
}

/// A length of time in seconds, from whole nanoseconds.
pub open spec fn seconds(nanos: nat) -> Binary64 {
    binary64::sum(
        binary64::whole(nanos / 1_000_000_000),
        binary64::quotient(
            binary64::whole(nanos % 1_000_000_000),
            binary64::whole(1_000_000_000),
        ),
    )
}

/// The time since the sample before, in seconds; the time between samples where there was none
/// or the clock went back.
pub open spec fn elapsed(prev: Option<Timestamp>, now: Timestamp, interval_ms: u64) -> Binary64 {
    match prev {
        Some(ts) if now.total() >= ts.total() => seconds((now.total() - ts.total()) as nat),
        _ => binary64::quotient(binary64::whole(interval_ms as nat), binary64::whole(1000)),
    }
}

/// The time since the sample before, in seconds.
pub fn elapsed_secs(prev: Option<Timestamp>, now: Timestamp, interval_ms: u64) -> (r: Binary64)
    requires
        now.wf(),
        prev matches Some(ts) ==> ts.wf(),
    ensures
        r == elapsed(prev, now, interval_ms),
{
    match prev {
        Some(ts) => {
            let d: i128 = (now.secs as i128 - ts.secs as i128) * 1_000_000_000 + (now.nanos as i128
                - ts.nanos as i128);
            if d >= 0 {
                let nanos: u128 = d as u128;
                let secs: u64 = (nanos / 1_000_000_000) as u64;
                let rest: u64 = (nanos % 1_000_000_000) as u64;
                return Binary64::from_u64(secs).plus(
                    Binary64::from_u64(rest).over(Binary64::from_u64(1_000_000_000)),
                );
            }
        },
        None => {},
    }
    Binary64::from_u64(interval_ms).over(Binary64::from_u64(1000))
}

/// Mount options with those of `extra` that they lack.
pub open spec fn with_options(base: Seq<(String, String)>, extra: Seq<(String, String)>) -> Seq<(String, String)>
    decreases extra.len(),
{
    if extra.len() == 0 {
        base
    } else {
        let before = with_options(base, extra.drop_last());
        if table::lookup(before, extra.last().0@) is Some {
            before
        } else {
            before.push(extra.last())
        }
    }
}

/// The number of connections that mount options ask for.
pub open spec fn nconnect_option(options: Seq<(String, String)>) -> Option<u32> {
    match table::lookup(options, "nconnect"@) {
        Some(v) => match ports::number_value(v@, u32::MAX as nat) {
            Ok(n) => Some(n as u32),
            Err(_) => None,
        },
        None => None,
    }
}

/// Mount options by mountpoint.
pub type MountOptions = Table<String, Table<String, String>>;

/// A mount with what the list of mounts and the list of devices say of it.
pub open spec fn is_enriched(
    m: MountCounters,
    r: MountCounters,
    opts: Seq<(String, Table<String, String>)>,
    devs: Seq<(String, u32)>,
) -> bool {
    let extra = table::lookup(opts, m.mountpoint@);
    &&& r.device == m.device
    &&& r.mountpoint == m.mountpoint
    &&& r.fstype == m.fstype
    &&& r.vers == m.vers
    &&& r.proto == m.proto
    &&& r.nconnect == match extra {
        Some(t) if m.nconnect is None => nconnect_option(t.entries@),
        _ => m.nconnect,
    }
    &&& r.addr == m.addr
    &&& r.clientaddr == m.clientaddr
    &&& r.st_dev == table::lookup(devs, m.mountpoint@)
    &&& r.options.entries@ == match extra {
        Some(t) => with_options(m.options.entries@, t.entries@),
        None => m.options.entries@,
    }
    &&& r.ops == m.ops
    &&& r.raw_block == m.raw_block
}

/// Adds the options that are lacking.
fn add_options(options: &mut Table<String, String>, extra: &Table<String, String>)
    ensures
        final(options).entries@ == with_options(old(options).entries@, extra.entries@),
        old(options).wf() ==> final(options).wf(),
{
    let ghost base = options.entries@;
    let mut i: usize = 0;
    while i < extra.entries.len()
        invariant
            i <= extra.entries@.len(),
            options.entries@ == with_options(base, extra.entries@.take(i as int)),
            old(options).wf() ==> options.wf(),
        decreases extra.entries@.len() - i,
    {
        assert(extra.entries@.take(i + 1).drop_last() =~= extra.entries@.take(i as int));
        let e: &(String, String) = &extra.entries[i];
        match options.position(&e.0) {
            Some(_) => {},
            None => {
                proof {
                    search::lemma_first(
                        options.entries@,
                        |o: (String, String)| o.0.id() == e.0.id(),
                    );
                }
                options.entries.push((e.0.clone(), e.1.clone()));
            },
        }
        i = i + 1;
    }
    assert(extra.entries@.take(i as int) =~= extra.entries@);
}

/// The number of connections that mount options ask for.
fn find_nconnect(options: &Table<String, String>) -> (r: Option<u32>)
    ensures
        r == nconnect_option(options.entries@),
{
    match options.get(&"nconnect".to_string()) {
        Some(v) => match parse_number(&chars_of(v.as_str()), 0xffff_ffff) {
            Ok(n) => Some(n as u32),
            Err(_) => None,
        },
        None => None,
    }
}

/// Adds to a mount what the list of mounts and the list of devices say of it.
pub fn enrich(m: MountCounters, opts: &MountOptions, devs: &Table<String, u32>) -> (r: MountCounters)
    ensures
        is_enriched(m, r, opts.entries@, devs.entries@),
        m.options.wf() ==> r.options.wf(),
{
    let mut r: MountCounters = m;
    match opts.get(&r.mountpoint) {
        Some(extra) => {
            add_options(&mut r.options, extra);
            if r.nconnect.is_none() {
                r.nconnect = find_nconnect(extra);
            }
        },
        None => {},
    }
    r.st_dev = match devs.get(&r.mountpoint) {
        Some(d) => Some(*d),
        None => None,
    };
    r
}

/// Addresses with those of `more` that are lacking, each once.
pub open spec fn with_addresses(ips: Seq<IpAddr>, more: Seq<IpAddr>) -> Seq<IpAddr>
    decreases more.len(),
{
    if more.len() == 0 {
        ips
    } else {
        let before = with_addresses(ips, more.drop_last());
        if before.contains(more.last()) {
            before
        } else {
            before.push(more.last())
        }
    }
}

/// The addresses of the server of a mount: the one that the mount names, then those that its
/// host name resolves to.
pub open spec fn match_addresses(addr: Option<IpAddr>, resolved: Seq<IpAddr>) -> Seq<IpAddr> {
    with_addresses(
        match addr {
            Some(ip) => seq![ip],
            None => Seq::empty(),
        },
        resolved,
    )
}

/// The connections to some addresses, for those that have any.
pub open spec fn observed(ips: Seq<IpAddr>, conns: Seq<(IpAddr, u64)>) -> Seq<(IpAddr, u64)>
    decreases ips.len(),
{
    if ips.len() == 0 {
        Seq::empty()
    } else {
        let before = observed(ips.drop_last(), conns);
        match table::lookup(conns, ips.last()) {
            Some(c) => before.push((ips.last(), c)),
            None => before,
        }
    }
}

/// The sum of connections.
pub open spec fn conn_total(list: Seq<(IpAddr, u64)>) -> nat
    decreases list.len(),
{
    if list.len() == 0 {
        0
    } else {
        conn_total(list.drop_last()) + list.last().1 as nat
    }
}

/// Whether an address is in a list.
fn contains_ip(ips: &Vec<IpAddr>, ip: IpAddr) -> (r: bool)
    ensures
        r == ips@.contains(ip),
{
    let mut i: usize = 0;
    while i < ips.len()
        invariant
            i <= ips@.len(),
            forall|j: int| 0 <= j < i ==> ips@[j] != ip,
        decreases ips@.len() - i,
    {
        if ips[i] == ip {
            assert(ips@[i as int] == ip);
            return true;
        }
        i = i + 1;
    }
    false
}

/// The addresses of the server of a mount.
pub fn match_ips(addr: Option<IpAddr>, resolved: &Vec<IpAddr>) -> (r: Vec<IpAddr>)
    ensures
        r@ == match_addresses(addr, resolved@),
{
    let mut r: Vec<IpAddr> = Vec::new();
    match addr {
        Some(ip) => {
            r.push(ip);
        },
        None => {},
    }
    let ghost start = r@;
    assert(start =~= match addr {
        Some(ip) => seq![ip],
        None => Seq::empty(),
    });
    let mut i: usize = 0;
    while i < resolved.len()
        invariant
            i <= resolved@.len(),
            r@ == with_addresses(start, resolved@.take(i as int)),
        decreases resolved@.len() - i,
    {
        assert(resolved@.take(i + 1).drop_last() =~= resolved@.take(i as int));
        let ip: IpAddr = resolved[i];
        if !contains_ip(&r, ip) {
            r.push(ip);
        }
        i = i + 1;
    }
    assert(resolved@.take(i as int) =~= resolved@);
    r
}

proof fn lemma_observed_grows(ips: Seq<IpAddr>, conns: Seq<(IpAddr, u64)>, i: int)
    requires
        0 <= i <= ips.len(),
    ensures
        conn_total(observed(ips.take(i), conns)) <= conn_total(observed(ips, conns)),
    decreases ips.len() - i,
{
    if i < ips.len() {
        lemma_observed_grows(ips, conns, i + 1);
        assert(ips.take(i + 1).drop_last() =~= ips.take(i));
        let before = observed(ips.take(i), conns);
        if let Some(c) = table::lookup(conns, ips[i]) {
            assert(before.push((ips[i], c)).drop_last() =~= before);
        }
    } else {
        assert(ips.take(i) =~= ips);
    }
}

/// The connections to some addresses, and their sum.
pub fn observe(ips: &Vec<IpAddr>, conns: &Table<IpAddr, u64>) -> (r: (u64, Vec<(IpAddr, u64)>))
    requires
        conn_total(observed(ips@, conns.entries@)) <= u64::MAX,
    ensures
        r.1@ == observed(ips@, conns.entries@),
        r.0 == conn_total(r.1@),
{
    let mut total: u64 = 0;
    let mut list: Vec<(IpAddr, u64)> = Vec::new();
    let mut i: usize = 0;
    while i < ips.len()
        invariant
            i <= ips@.len(),
            conn_total(observed(ips@, conns.entries@)) <= u64::MAX,
            list@ == observed(ips@.take(i as int), conns.entries@),
            total == conn_total(list@),
        decreases ips@.len() - i,
    {
        proof {
            assert(ips@.take(i + 1).drop_last() =~= ips@.take(i as int));
            lemma_observed_grows(ips@, conns.entries@, i + 1);
        }
        let ip: IpAddr = ips[i];
        match conns.get(&ip) {
            Some(c) => {
                let ghost before = list@;
                list.push((ip, *c));
                assert(list@.drop_last() =~= before);
                total = total + *c;
            },
            None => {},
        }
        i = i + 1;
    }
    assert(ips@.take(i as int) =~= ips@);
    (total, list)
}

/// Whether the sum of the connections to some addresses fits its counter.
fn check_observed(ips: &Vec<IpAddr>, conns: &Table<IpAddr, u64>) -> (b: bool)
    ensures
        b == (conn_total(observed(ips@, conns.entries@)) <= u64::MAX),
{
    let mut total: u64 = 0;
    let mut i: usize = 0;
    while i < ips.len()
        invariant
            i <= ips@.len(),
            total == conn_total(observed(ips@.take(i as int), conns.entries@)),
        decreases ips@.len() - i,
    {
        proof {
            assert(ips@.take(i + 1).drop_last() =~= ips@.take(i as int));
            lemma_observed_grows(ips@, conns.entries@, i + 1);
        }
        match conns.get(&ips[i]) {
            Some(c) => {
                proof {
                    let before = observed(ips@.take(i as int), conns.entries@);
                    assert(before.push((ips@[i as int], *c)).drop_last() =~= before);
                }
                if total > u64::MAX - *c {
                    return false;
                }
                total = total + *c;
            },
            None => {},
        }
        i = i + 1;
    }
    assert(ips@.take(i as int) =~= ips@);
    true
}

proof fn lemma_nothing_observed(ips: Seq<IpAddr>)
    ensures
        observed(ips, Seq::empty()).len() == 0,
    decreases ips.len(),
{
    if ips.len() > 0 {
        lemma_nothing_observed(ips.drop_last());
        search::lemma_first_none(
            Seq::<(IpAddr, u64)>::empty(),
            |e: (IpAddr, u64)| e.0.id() == ips.last(),
        );
    }
}

/// What is read for one sample, once the mounts could be read.
pub struct Readings {
    pub now: Timestamp,
    /// The time between samples, in milliseconds.
    pub interval_ms: u64,
    pub mounts: Vec<MountCounters>,
    pub mount_opts: Result<MountOptions, String>,
    pub mount_devs: Result<Table<String, u32>, String>,
    pub rpc: Result<RpcClient, String>,
    pub sockets: Result<SocketObs, String>,
    /// The latencies by device; none where no probes are attached.
    pub probes: Option<Result<Table<u32, BpfLatency>, String>>,
    /// The addresses of each mount's host.
    pub resolved: Vec<Vec<IpAddr>>,
}

impl Readings {
    /// The mount options that could be read.
    pub open spec fn options(self) -> Seq<(String, Table<String, String>)> {
        match self.mount_opts {
            Ok(t) => t.entries@,
            Err(_) => Seq::empty(),
        }
    }

    /// The devices that could be read.
    pub open spec fn devices(self) -> Seq<(String, u32)> {
        match self.mount_devs {
            Ok(t) => t.entries@,
            Err(_) => Seq::empty(),
        }
    }

    /// The connections that could be read.
    pub open spec fn conns(self) -> Seq<(IpAddr, u64)> {
        match self.sockets {
            Ok(s) => s.by_remote_ip.entries@,
            Err(_) => Seq::empty(),
        }
    }

    /// The latencies that could be read.
    pub open spec fn latencies(self) -> Seq<(u32, BpfLatency)> {
        match self.probes {
            Some(Ok(t)) => t.entries@,
            _ => Seq::empty(),
        }
    }

    /// The addresses of the host of the mount at index `i`.
    pub open spec fn addresses(self, no_dns: bool, i: int) -> Seq<IpAddr> {
        if !no_dns && 0 <= i < self.resolved@.len() {
            self.resolved@[i]@
        } else {
            Seq::empty()
        }
    }

    /// The connections to the server of the mount at index `i`.
    pub open spec fn observed_at(self, no_dns: bool, i: int) -> Seq<(IpAddr, u64)> {
        observed(match_addresses(self.mounts@[i].addr, self.addresses(no_dns, i)), self.conns())
    }
}

/// Error messages with one more where a reading failed.
pub open spec fn noted<T>(errors: Seq<Seq<char>>, label: Seq<char>, r: Result<T, String>) -> Seq<Seq<char>> {
    match r {
        Ok(_) => errors,
        Err(e) => errors.push(label + ": "@ + e@),
    }
}

/// The error messages of a sample, in the order of the readings, with one left from the start.
pub open spec fn error_texts(r: Readings, pending: Option<String>) -> Seq<Seq<char>> {
    let a = noted(Seq::empty(), "mounts"@, r.mount_opts);
    let b = noted(a, "mountinfo"@, r.mount_devs);
    let c = noted(b, "rpc"@, r.rpc);
    let d = noted(c, "sockets"@, r.sockets);
    let e = match r.probes {
        Some(p) => noted(d, "ebpf"@, p),
        None => d,
    };
    match pending {
        Some(m) => e.push(m@),
        None => e,
    }
}

/// Latencies that are the same.
pub open spec fn same_latency(a: BpfLatency, b: BpfLatency) -> bool {
    &&& a.total_samples == b.total_samples
    &&& a.per_op@.len() == b.per_op@.len()
    &&& forall|i: int|
        0 <= i < a.per_op@.len() ==> (#[trigger] a.per_op@[i]).op == b.per_op@[i].op && a.per_op@[i].dist
            == b.per_op@[i].dist && a.per_op@[i].buckets@ == b.per_op@[i].buckets@
}

/// Counters that are the same.
pub open spec fn same_counters(a: MountCounters, b: MountCounters) -> bool {
    &&& a.device == b.device
    &&& a.mountpoint == b.mountpoint
    &&& a.fstype == b.fstype
    &&& a.vers == b.vers
    &&& a.proto == b.proto
    &&& a.nconnect == b.nconnect
    &&& a.addr == b.addr
    &&& a.clientaddr == b.clientaddr
    &&& a.st_dev == b.st_dev
    &&& a.options.entries@ == b.options.entries@
    &&& a.ops.entries@ == b.ops.entries@
    &&& a.raw_block == b.raw_block
}

/// The latest of some counters with the given mountpoint.
pub open spec fn last_with(prev: Seq<MountCounters>, mountpoint: Seq<char>) -> Option<MountCounters>
    decreases prev.len(),
{
    if prev.len() == 0 {
        None
    } else if prev.last().mountpoint@ == mountpoint {
        Some(prev.last())
    } else {
        last_with(prev.drop_last(), mountpoint)
    }
}

/// The counters of the sample before, by kind of call, of the mount with the given mountpoint.
pub open spec fn ops_before(prev: Option<(Timestamp, Vec<MountCounters>)>, mountpoint: Seq<char>) -> Option<rates::Ops> {
    match prev {
        Some((ts, counters)) => match last_with(counters@, mountpoint) {
            Some(p) => Some(p.ops.entries@),
            None => None,
        },
        None => None,
    }
}

/// When the sample before was taken.
pub open spec fn time_before(prev: Option<(Timestamp, Vec<MountCounters>)>) -> Option<Timestamp> {
    match prev {
        Some((ts, counters)) => Some(ts),
        None => None,
    }
}

/// What a sample shows of one mount.
pub open spec fn is_view(
    v: MountView,
    r: Readings,
    i: int,
    no_dns: bool,
    prev: Option<(Timestamp, Vec<MountCounters>)>,
    dt: Binary64,
) -> bool {
    let m = r.mounts@[i];
    let list = r.observed_at(no_dns, i);
    &&& is_enriched(m, v.counters, r.options(), r.devices())
    &&& v.resolved_ips@ == r.addresses(no_dns, i)
    &&& rates::is_derived(
        MountDerived { bpf: None, ..v.derived },
        ops_before(prev, m.mountpoint@),
        m.ops.entries@,
        dt,
        conn_total(list) as u64,
        list,
    )
    &&& match v.counters.st_dev {
        Some(dev) => match table::lookup(r.latencies(), dev) {
            Some(l) => v.derived.bpf matches Some(b) && same_latency(l, b),
            None => v.derived.bpf is None,
        },
        None => v.derived.bpf is None,
    }
}

/// Whether the sums that a sample takes fit their counters.
pub open spec fn sums_fit(
    r: Readings,
    no_dns: bool,
    prev: Option<(Timestamp, Vec<MountCounters>)>,
    i: int,
) -> bool {
    let m = r.mounts@[i];
    let dt = elapsed(time_before(prev), r.now, r.interval_ms);
    &&& conn_total(r.observed_at(no_dns, i)) <= u64::MAX
    &&& rates::no_time(dt) || rates::deltas_fit(ops_before(prev, m.mountpoint@), m.ops.entries@)
}

/// What a sample shows.
pub open spec fn is_snapshot(
    s: Snapshot,
    r: Readings,
    no_dns: bool,
    prev: Option<(Timestamp, Vec<MountCounters>)>,
    pending: Option<String>,
) -> bool {
    &&& s.ts == r.now
    &&& s.dt_secs == elapsed(time_before(prev), r.now, r.interval_ms)
    &&& s.mounts@.len() == r.mounts@.len()
    &&& forall|i: int|
        0 <= i < s.mounts@.len() ==> is_view(#[trigger] s.mounts@[i], r, i, no_dns, prev, s.dt_secs)
    &&& s.rpc == match r.rpc {
        Ok(rpc) => rpc,
        Err(_) => RpcClient { calls: 0, retrans: 0, authrefresh: 0 },
    }
    &&& s.raw_tcp_matches@ == match r.sockets {
        Ok(obs) => obs.raw_matches@,
        Err(_) => Seq::empty(),
    }
    &&& text::texts(s.partial_errors@) == error_texts(r, pending)
    &&& s.bpf_attached == r.probes is Some
}

/// Copies latencies.
fn copy_latency(l: &BpfLatency) -> (r: BpfLatency)
    ensures
        same_latency(*l, r),
{
    let mut per_op: Vec<BpfOpLatency> = Vec::new();
    let mut i: usize = 0;
    while i < l.per_op.len()
        invariant
            i <= l.per_op@.len(),
            per_op@.len() == i,
            forall|j: int|
                0 <= j < i ==> (#[trigger] l.per_op@[j]).op == per_op@[j].op && l.per_op@[j].dist
                    == per_op@[j].dist && l.per_op@[j].buckets@ == per_op@[j].buckets@,
        decreases l.per_op@.len() - i,
    {
        let op: &BpfOpLatency = &l.per_op[i];
        let mut buckets: Vec<u64> = Vec::new();
        let mut k: usize = 0;
        while k < op.buckets.len()
            invariant
                k <= op.buckets@.len(),
                buckets@ == op.buckets@.take(k as int),
            decreases op.buckets@.len() - k,
        {
            buckets.push(op.buckets[k]);
            k = k + 1;
            assert(op.buckets@.take(k as int) =~= op.buckets@.take(k - 1).push(op.buckets@[k - 1]));
        }
        assert(op.buckets@.take(k as int) =~= op.buckets@);
        per_op.push(BpfOpLatency { op: op.op.clone(), dist: op.dist, buckets });
        i = i + 1;
    }
    BpfLatency { per_op, total_samples: l.total_samples }
}

/// Copies an optional text.
fn copy_text(s: &Option<String>) -> (r: Option<String>)
    ensures
        r == *s,
{
    match s {
        Some(t) => Some(t.clone()),
        None => None,
    }
}

/// Copies counters.
fn copy_counters(m: &MountCounters) -> (r: MountCounters)
    ensures
        same_counters(*m, r),
{
    let mut options: Vec<(String, String)> = Vec::new();
    let mut i: usize = 0;
    while i < m.options.entries.len()
        invariant
            i <= m.options.entries@.len(),
            options@ == m.options.entries@.take(i as int),
        decreases m.options.entries@.len() - i,
    {
        let e: &(String, String) = &m.options.entries[i];
        options.push((e.0.clone(), e.1.clone()));
        i = i + 1;
        assert(options@ =~= m.options.entries@.take(i as int));
    }
    assert(m.options.entries@.take(i as int) =~= m.options.entries@);
    let mut ops: Vec<(String, OpCounters)> = Vec::new();
    let mut j: usize = 0;
    while j < m.ops.entries.len()
        invariant
            j <= m.ops.entries@.len(),
            ops@ == m.ops.entries@.take(j as int),
        decreases m.ops.entries@.len() - j,
    {
        let e: &(String, OpCounters) = &m.ops.entries[j];
        ops.push((e.0.clone(), e.1.clone()));
        j = j + 1;
        assert(ops@ =~= m.ops.entries@.take(j as int));
    }
    assert(m.ops.entries@.take(j as int) =~= m.ops.entries@);
    MountCounters {
        device: m.device.clone(),
        mountpoint: m.mountpoint.clone(),
        fstype: m.fstype.clone(),
        vers: copy_text(&m.vers),
        proto: copy_text(&m.proto),
        nconnect: m.nconnect,
        addr: m.addr,
        clientaddr: m.clientaddr,
        st_dev: m.st_dev,
        options: Table { entries: options },
        ops: Table { entries: ops },
        raw_block: m.raw_block.clone(),
    }
}

/// Copies addresses.
fn copy_ips(ips: &Vec<IpAddr>) -> (r: Vec<IpAddr>)
    ensures
        r@ == ips@,
{
    let mut r: Vec<IpAddr> = Vec::new();
    let mut i: usize = 0;
    while i < ips.len()
        invariant
            i <= ips@.len(),
            r@ == ips@.take(i as int),
        decreases ips@.len() - i,
    {
        r.push(ips[i]);
        i = i + 1;
        assert(ips@.take(i as int) =~= ips@.take(i - 1).push(ips@[i - 1]));
    }
    assert(ips@.take(i as int) =~= ips@);
    r
}

/// The latest of some counters with the given mountpoint.
fn find_last<'a>(prev: &'a Vec<MountCounters>, mountpoint: &str) -> (r: Option<&'a MountCounters>)
    ensures
        r == match last_with(prev@, mountpoint@) {
            Some(m) => Some(&m),
            None => None,
        },
{
    let mut i: usize = prev.len();
    assert(prev@.take(i as int) =~= prev@);
    while i > 0
        invariant
            i <= prev@.len(),
            last_with(prev@.take(i as int), mountpoint@) == last_with(prev@, mountpoint@),
        decreases i,
    {
        if same(prev[i - 1].mountpoint.as_str(), mountpoint) {
            return Some(&prev[i - 1]);
        }
        assert(prev@.take(i as int).drop_last() =~= prev@.take(i - 1));
        i = i - 1;
    }
    None
}

/// What is kept from one sample to the next.
pub struct Sampler {
    pub no_dns: bool,
    /// When the sample before was taken, and its counters.
    pub prev: Option<(Timestamp, Vec<MountCounters>)>,
    /// What is still to be said about the start.
    pub pending_error: Option<String>,
}

impl Sampler {
    /// Whether the time of the sample before is one.
    pub open spec fn wf(self) -> bool {
        time_before(self.prev) matches Some(ts) ==> ts.wf()
    }

    /// Before the first sample. `attach_error` says why the probes could not be attached, where
    /// that was tried in vain.
    pub fn new(no_dns: bool, backend: Backend, attach_error: Option<String>) -> (r: Sampler)
        ensures
            r.wf(),
            r.no_dns == no_dns,
            r.prev is None,
            match attach_error {
                Some(e) => match backend.attach_warning(e@) {
                    Some(m) => r.pending_error matches Some(p) && p@ == m,
                    None => r.pending_error is None,
                },
                None => r.pending_error is None,
            },
    {
        let pending_error: Option<String> = match attach_error {
            Some(e) => backend.attach_message(e.as_str()),
            None => None,
        };
        Sampler { no_dns, prev: None, pending_error }
    }

    /// The host of each mount, to be resolved; empty where the device names none. No hosts where
    /// names are not to be resolved.
    pub fn hosts(&self, mounts: &Vec<MountCounters>) -> (r: Vec<String>)
        ensures
            self.no_dns ==> r@.len() == 0,
            !self.no_dns ==> r@.len() == mounts@.len() && forall|i: int|
                0 <= i < r@.len() ==> (#[trigger] r@[i])@ == match rates::host(mounts@[i].device@) {
                    Some(h) => h,
                    None => Seq::empty(),
                },
    {
        let mut r: Vec<String> = Vec::new();
        if self.no_dns {
            return r;
        }
        let mut i: usize = 0;
        while i < mounts.len()
            invariant
                i <= mounts@.len(),
                r@.len() == i,
                forall|j: int|
                    0 <= j < i ==> (#[trigger] r@[j])@ == match rates::host(mounts@[j].device@) {
                        Some(h) => h,
                        None => Seq::empty(),
                    },
            decreases mounts@.len() - i,
        {
            match host_from_device(mounts[i].device.as_str()) {
                Some(h) => {
                    r.push(h.to_string());
                },
                None => {
                    r.push(String::new());
                },
            }
            i = i + 1;
        }
        r
    }

    /// Whether the sums that a sample takes fit their counters.
    pub fn fits(&self, rd: &Readings) -> (b: bool)
        requires
            self.wf(),
            rd.now.wf(),
        ensures
            b == (forall|i: int|
                0 <= i < rd.mounts@.len() ==> sums_fit(*rd, self.no_dns, self.prev, i)),
    {
        let before: Option<Timestamp> = match &self.prev {
            Some((ts, _)) => Some(*ts),
            None => None,
        };
        let dt_secs: Binary64 = elapsed_secs(before, rd.now, rd.interval_ms);
        let still: bool = !dt_secs.is_nan() && !Binary64::zero().is_less(dt_secs);
        let mut i: usize = 0;
        while i < rd.mounts.len()
            invariant
                i <= rd.mounts@.len(),
                dt_secs == elapsed(time_before(self.prev), rd.now, rd.interval_ms),
                still == rates::no_time(dt_secs),
                forall|j: int| 0 <= j < i ==> sums_fit(*rd, self.no_dns, self.prev, j),
            decreases rd.mounts@.len() - i,
        {
            let m: &MountCounters = &rd.mounts[i];
            let empty: Vec<IpAddr> = Vec::new();
            assert(empty@ =~= Seq::<IpAddr>::empty());
            let ips: Vec<IpAddr> = if !self.no_dns && i < rd.resolved.len() {
                match_ips(m.addr, &rd.resolved[i])
            } else {
                match_ips(m.addr, &empty)
            };
            assert(ips@ == match_addresses(m.addr, rd.addresses(self.no_dns, i as int)));
            let conns_fit: bool = match &rd.sockets {
                Ok(obs) => check_observed(&ips, &obs.by_remote_ip),
                Err(_) => {
                    proof {
                        lemma_nothing_observed(ips@);
                    }
                    true
                },
            };
            let last: Option<&MountCounters> = match &self.prev {
                Some((_, p)) => find_last(p, m.mountpoint.as_str()),
                None => None,
            };
            if !conns_fit || !(still || check_deltas(m, last)) {
                assert(!sums_fit(*rd, self.no_dns, self.prev, i as int));
                return false;
            }
            assert(sums_fit(*rd, self.no_dns, self.prev, i as int));
            i = i + 1;
        }
        true
    }

    /// What the sample shows of one mount.
    fn view(
        &self,
        m: MountCounters,
        i: usize,
        dt_secs: Binary64,
        opts: &MountOptions,
        devs: &Table<String, u32>,
        sockets: &SocketObs,
        per_dev: &Table<u32, BpfLatency>,
        resolved: &Vec<Vec<IpAddr>>,
        Ghost(r): Ghost<Readings>,
    ) -> (v: MountView)
        requires
            i < r.mounts@.len(),
            m == r.mounts@[i as int],
            opts.entries@ == r.options(),
            devs.entries@ == r.devices(),
            sockets.by_remote_ip.entries@ == r.conns(),
            per_dev.entries@ == r.latencies(),
            resolved == r.resolved,
            dt_secs == elapsed(time_before(self.prev), r.now, r.interval_ms),
            sums_fit(r, self.no_dns, self.prev, i as int),
        ensures
            is_view(v, r, i as int, self.no_dns, self.prev, dt_secs),
    {
        let counters: MountCounters = enrich(m, opts, devs);
        let resolved_ips: Vec<IpAddr> = if !self.no_dns && i < resolved.len() {
            copy_ips(&resolved[i])
        } else {
            Vec::new()
        };
        assert(resolved_ips@ =~= r.addresses(self.no_dns, i as int));
        let ips: Vec<IpAddr> = match_ips(counters.addr, &resolved_ips);
        let (total, by_ip) = observe(&ips, &sockets.by_remote_ip);
        let before: Option<&MountCounters> = match &self.prev {
            Some((_, p)) => find_last(p, counters.mountpoint.as_str()),
            None => None,
        };
        let mut derived: MountDerived = derive_rates(&counters, before, dt_secs, total, by_ip);
        let ghost plain = derived;
        derived.bpf = match counters.st_dev {
            Some(dev) => match per_dev.get(&dev) {
                Some(l) => Some(copy_latency(l)),
                None => None,
            },
            None => None,
        };
        assert(plain == (MountDerived { bpf: None, ..derived }));
        MountView { counters, derived, resolved_ips }
    }

    /// Makes a snapshot of what was read and keeps the counters for the next one. Where the
    /// mounts could not be read, passes the error on and keeps nothing.
    pub fn tick(&mut self, read: Result<Readings, String>) -> (r: Result<Snapshot, String>)
        requires
            old(self).wf(),
            read matches Ok(rd) ==> rd.now.wf() && forall|i: int|
                0 <= i < rd.mounts@.len() ==> sums_fit(rd, old(self).no_dns, old(self).prev, i),
        ensures
            final(self).wf(),
            match read {
                Ok(rd) => {
                    &&& r matches Ok(s) && is_snapshot(
                        s,
                        rd,
                        old(self).no_dns,
                        old(self).prev,
                        old(self).pending_error,
                    ) && keeps(*final(self), s)
                    &&& final(self).no_dns == old(self).no_dns
                },
                Err(e) => r == Err::<Snapshot, String>(e) && *final(self) == *old(self),
            },
    {
        let rd: Readings = match read {
            Ok(rd) => rd,
            Err(e) => {
                return Err(e);
            },
        };
        let ghost all = rd;
        let mut errors: Vec<String> = Vec::new();
        assert(text::texts(errors@) =~= Seq::empty());
        let opts: MountOptions = fallback("mounts", &mut errors, rd.mount_opts);
        assert(text::texts(errors@) =~= noted(Seq::empty(), "mounts"@, all.mount_opts));
        let ghost e1 = text::texts(errors@);
        let devs: Table<String, u32> = fallback("mountinfo", &mut errors, rd.mount_devs);
        assert(text::texts(errors@) =~= noted(e1, "mountinfo"@, all.mount_devs));
        let ghost e2 = text::texts(errors@);
        let rpc: RpcClient = fallback("rpc", &mut errors, rd.rpc);
        assert(text::texts(errors@) =~= noted(e2, "rpc"@, all.rpc));
        let ghost e3 = text::texts(errors@);
        let sockets: SocketObs = fallback("sockets", &mut errors, rd.sockets);
        assert(text::texts(errors@) =~= noted(e3, "sockets"@, all.sockets));
        let ghost e4 = text::texts(errors@);
        let bpf_attached: bool = rd.probes.is_some();
        let per_dev: Table<u32, BpfLatency> = match rd.probes {
            Some(p) => fallback("ebpf", &mut errors, p),
            None => Table::new(),
        };
        assert(text::texts(errors@) =~= match all.probes {
            Some(p) => noted(e4, "ebpf"@, p),
            None => e4,
        });
        let ghost e5 = text::texts(errors@);
        let ghost pending = self.pending_error;
        match self.pending_error.take() {
            Some(m) => {
                errors.push(m);
            },
            None => {},
        }
        assert(text::texts(errors@) =~= match pending {
            Some(m) => e5.push(m@),
            None => e5,
        });
        let before: Option<Timestamp> = match &self.prev {
            Some((ts, _)) => Some(*ts),
            None => None,
        };
        let dt_secs: Binary64 = elapsed_secs(before, rd.now, rd.interval_ms);
        let now: Timestamp = rd.now;
        let resolved: Vec<Vec<IpAddr>> = rd.resolved;
        let mut mounts: Vec<MountCounters> = rd.mounts;
        let n: usize = mounts.len();
        let mut rest: Vec<MountCounters> = Vec::new();
        // Taken from the back, the mounts stand in `rest` with the first one last.
        while mounts.len() > 0
            invariant
                n == all.mounts@.len(),
                mounts@.len() + rest@.len() == n,
                mounts@ == all.mounts@.take(mounts@.len() as int),
                forall|j: int| 0 <= j < rest@.len() ==> #[trigger] rest@[j] == all.mounts@[n - 1 - j],
            decreases mounts@.len(),
        {
            if let Some(m) = mounts.pop() {
                rest.push(m);
            }
            assert(mounts@ =~= all.mounts@.take(mounts@.len() as int));
        }
        let mut views: Vec<MountView> = Vec::new();
        let mut counters: Vec<MountCounters> = Vec::new();
        while rest.len() > 0
            invariant
                n == all.mounts@.len(),
                views@.len() + rest@.len() == n,
                counters@.len() == views@.len(),
                forall|j: int| 0 <= j < rest@.len() ==> #[trigger] rest@[j] == all.mounts@[n - 1 - j],
                opts.entries@ == all.options(),
                devs.entries@ == all.devices(),
                sockets.by_remote_ip.entries@ == all.conns(),
                per_dev.entries@ == all.latencies(),
                resolved == all.resolved,
                self.prev == old(self).prev,
                self.no_dns == old(self).no_dns,
                self.pending_error is None,
                dt_secs == elapsed(time_before(self.prev), all.now, all.interval_ms),
                forall|i: int|
                    0 <= i < n ==> sums_fit(all, old(self).no_dns, old(self).prev, i),
                forall|i: int|
                    0 <= i < views@.len() ==> is_view(
                        #[trigger] views@[i],
                        all,
                        i,
                        self.no_dns,
                        self.prev,
                        dt_secs,
                    ),
                forall|i: int|
                    0 <= i < views@.len() ==> same_counters(#[trigger] views@[i].counters, counters@[i]),
            decreases rest@.len(),
        {
            if let Some(m) = rest.pop() {
                let i: usize = views.len();
                assert(m == all.mounts@[i as int]);
                let v: MountView = self.view(
                    m,
                    i,
                    dt_secs,
                    &opts,
                    &devs,
                    &sockets,
                    &per_dev,
                    &resolved,
                    Ghost(all),
                );
                counters.push(copy_counters(&v.counters));
                views.push(v);
            }
        }
        self.prev = Some((now, counters));
        Ok(
            Snapshot {
                ts: now,
                dt_secs,
                mounts: views,
                rpc,
                raw_tcp_matches: sockets.raw_matches,
                partial_errors: errors,
                bpf_attached,
            },
        )
    }
}

/// Whether the counters of a snapshot are kept for the next one, and nothing is left to be said
/// about the start.
pub open spec fn keeps(sampler: Sampler, s: Snapshot) -> bool {
    &&& sampler.pending_error is None
    &&& sampler.prev matches Some((ts, counters)) && ts == s.ts && counters@.len() == s.mounts@.len()
        && forall|i: int|
        0 <= i < counters@.len() ==> same_counters((#[trigger] s.mounts@[i]).counters, counters@[i])
}

/// The time since the sample before is a number and not negative, whatever the clock did.
pub proof fn law_elapsed(prev: Option<Timestamp>, now: Timestamp, interval_ms: u64)
    ensures
        exact::not_negative(elapsed(prev, now, interval_ms)),
{
    match prev {
        Some(ts) if now.total() >= ts.total() => {
            let nanos = (now.total() - ts.total()) as nat;
            exact::law_whole_not_negative(nanos / 1_000_000_000);
            exact::law_whole_not_negative(nanos % 1_000_000_000);
            exact::law_whole_positive(1_000_000_000);
            exact::law_quotient_not_negative(
                binary64::whole(nanos % 1_000_000_000),
                binary64::whole(1_000_000_000),
            );
            exact::law_sum_not_negative(
                binary64::whole(nanos / 1_000_000_000),
                binary64::quotient(
                    binary64::whole(nanos % 1_000_000_000),
                    binary64::whole(1_000_000_000),
                ),
            );
        },
        _ => {
            exact::law_whole_not_negative(interval_ms as nat);
            exact::law_whole_positive(1000);
            exact::law_quotient_not_negative(
                binary64::whole(interval_ms as nat),
                binary64::whole(1000),
            );
        },
    }
}

/// An option that the mount itself reports stays as it is, and the others are those of the list
/// of mounts.
pub proof fn law_with_options(base: Seq<(String, String)>, extra: Seq<(String, String)>, key: Seq<char>)
    ensures
        table::lookup(with_options(base, extra), key) == match table::lookup(base, key) {
            Some(v) => Some(v),
            None => table::lookup(extra, key),
        },
    decreases extra.len(),
{
    if extra.len() == 0 {
        search::lemma_first_none(extra, |e: (String, String)| e.0.id() == key);
    } else {
        let front = extra.drop_last();
        let e = extra.last();
        let before = with_options(base, front);
        law_with_options(base, front, key);
        law_with_options(base, front, e.0@);
        assert(front.push(e) =~= extra);
        table::lemma_lookup_push(front, e, key);
        table::lemma_lookup_push(before, e, key);
    }
}

proof fn lemma_with_addresses(ips: Seq<IpAddr>, more: Seq<IpAddr>)
    requires
        ips.no_duplicates(),
    ensures
        with_addresses(ips, more).no_duplicates(),
        ips.len() <= with_addresses(ips, more).len(),
        forall|i: int| 0 <= i < ips.len() ==> with_addresses(ips, more)[i] == #[trigger] ips[i],
        forall|ip: IpAddr| #[trigger]
            with_addresses(ips, more).contains(ip) <==> ips.contains(ip) || more.contains(ip),
    decreases more.len(),
{
    if more.len() > 0 {
        let front = more.drop_last();
        let before = with_addresses(ips, front);
        let after = with_addresses(ips, more);
        lemma_with_addresses(ips, front);
        assert forall|ip: IpAddr| #[trigger] after.contains(ip) <==> ips.contains(ip) || more.contains(
            ip,
        ) by {
            if more.contains(ip) {
                let k = choose|k: int| 0 <= k < more.len() && more[k] == ip;
                if k < front.len() {
                    assert(front[k] == ip);
                    assert(front.contains(ip));
                }
            }
            if front.contains(ip) {
                let k = choose|k: int| 0 <= k < front.len() && front[k] == ip;
                assert(more[k] == ip);
            }
            if before.contains(ip) {
                let k = choose|k: int| 0 <= k < before.len() && before[k] == ip;
                assert(after[k] == ip);
            }
            if ip == more.last() {
                assert(more[more.len() - 1] == ip);
                if !before.contains(ip) {
                    assert(after[before.len() as int] == ip);
                }
            }
            if after.contains(ip) && !before.contains(ip) {
                let k = choose|k: int| 0 <= k < after.len() && after[k] == ip;
                assert(k == before.len());
            }
        }
    }
}

/// The addresses of a server are the one that the mount names, first, and those that its host
/// name resolves to, each once.
pub proof fn law_match_addresses(addr: Option<IpAddr>, resolved: Seq<IpAddr>)
    ensures
        match_addresses(addr, resolved).no_duplicates(),
        addr matches Some(ip) ==> match_addresses(addr, resolved).len() > 0 && match_addresses(
            addr,
            resolved,
        )[0] == ip,
        forall|ip: IpAddr| #[trigger]
            match_addresses(addr, resolved).contains(ip) <==> addr == Some(ip) || resolved.contains(ip),
{
    let start = match addr {
        Some(ip) => seq![ip],
        None => Seq::empty(),
    };
    lemma_with_addresses(start, resolved);
    if let Some(ip) = addr {
        assert(start[0] == ip);
    }
    assert forall|ip: IpAddr| #[trigger] start.contains(ip) <==> addr == Some(ip) by {
        if addr == Some(ip) {
            assert(start[0] == ip);
        }
    }
}

/// What is left to be said about the start is said with the first snapshot, last of all, and
/// not again.
pub proof fn law_start_error_said_once(
    first: Snapshot,
    r1: Readings,
    prev: Option<(Timestamp, Vec<MountCounters>)>,
    pending: Option<String>,
    sampler: Sampler,
    second: Snapshot,
    r2: Readings,
)
    requires
        is_snapshot(first, r1, sampler.no_dns, prev, pending),
        keeps(sampler, first),
        is_snapshot(second, r2, sampler.no_dns, sampler.prev, sampler.pending_error),
    ensures
        pending matches Some(m) ==> first.partial_errors@.len() > 0 && first.partial_errors@.last()@
            == m@,
        text::texts(second.partial_errors@) == error_texts(r2, None),
{
    if let Some(m) = pending {
        assert(text::texts(first.partial_errors@).len() == first.partial_errors@.len());
        assert(text::texts(first.partial_errors@).last() == m@);
    }
}

proof fn lemma_last_with(prev: Seq<MountCounters>, mountpoint: Seq<char>)
    ensures
        match last_with(prev, mountpoint) {
            Some(m) => exists|j: int|
                0 <= j < prev.len() && #[trigger] prev[j] == m && m.mountpoint@ == mountpoint,
            None => forall|j: int|
                0 <= j < prev.len() ==> (#[trigger] prev[j]).mountpoint@ != mountpoint,
        },
    decreases prev.len(),
{
    if prev.len() > 0 {
        let front = prev.drop_last();
        lemma_last_with(front, mountpoint);
        if prev.last().mountpoint@ == mountpoint {
            assert(prev[prev.len() - 1] == prev.last());
        } else {
            match last_with(front, mountpoint) {
                Some(m) => {
                    let j = choose|j: int|
                        0 <= j < front.len() && #[trigger] front[j] == m && m.mountpoint@ == mountpoint;
                    assert(prev[j] == m);
                },
                None => {
                    assert forall|j: int| 0 <= j < prev.len() implies (#[trigger] prev[j]).mountpoint@
                        != mountpoint by {
                        if j < front.len() {
                            assert(front[j] == prev[j]);
                        }
                    }
                },
            }
        }
    }
}

/// The rates of a snapshot are those between the counters of the snapshot before and its own,
/// over the time between the two.
pub proof fn law_rates_between_snapshots(
    first: Snapshot,
    r1: Readings,
    prev: Option<(Timestamp, Vec<MountCounters>)>,
    pending: Option<String>,
    sampler: Sampler,
    second: Snapshot,
    r2: Readings,
    i: int,
    j: int,
)
    requires
        is_snapshot(first, r1, sampler.no_dns, prev, pending),
        keeps(sampler, first),
        is_snapshot(second, r2, sampler.no_dns, sampler.prev, sampler.pending_error),
        0 <= i < r2.mounts@.len(),
        0 <= j < r1.mounts@.len(),
        r1.mounts@[j].mountpoint@ == r2.mounts@[i].mountpoint@,
        forall|a: int, b: int|
            0 <= a < b < r1.mounts@.len() ==> (#[trigger] r1.mounts@[a]).mountpoint@
                != (#[trigger] r1.mounts@[b]).mountpoint@,
    ensures
        second.dt_secs == elapsed(Some(r1.now), r2.now, r2.interval_ms),
        rates::is_derived(
            (MountDerived { bpf: None, ..second.mounts@[i].derived }),
            Some(r1.mounts@[j].ops.entries@),
            r2.mounts@[i].ops.entries@,
            second.dt_secs,
            conn_total(r2.observed_at(sampler.no_dns, i)) as u64,
            r2.observed_at(sampler.no_dns, i),
        ),
{
    let kept = match sampler.prev {
        Some((ts, counters)) => counters@,
        None => Seq::empty(),
    };
    let name = r2.mounts@[i].mountpoint@;
    lemma_last_with(kept, name);
    assert forall|k: int| 0 <= k < kept.len() implies (#[trigger] kept[k]).mountpoint@
        == r1.mounts@[k].mountpoint@ && kept[k].ops.entries@ == r1.mounts@[k].ops.entries@ by {
        assert(is_view(first.mounts@[k], r1, k, sampler.no_dns, prev, first.dt_secs));
        assert(same_counters(first.mounts@[k].counters, kept[k]));
    }
    assert(kept[j].mountpoint@ == name);
    let m = last_with(kept, name)->0;
    let k = choose|k: int| 0 <= k < kept.len() && #[trigger] kept[k] == m && m.mountpoint@ == name;
    if k < j {
        assert(r1.mounts@[k].mountpoint@ != r1.mounts@[j].mountpoint@);
    } else if j < k {
        assert(r1.mounts@[j].mountpoint@ != r1.mounts@[k].mountpoint@);
    }
    assert(is_view(second.mounts@[i], r2, i, sampler.no_dns, sampler.prev, second.dt_secs));
}

/// A mount that the snapshot before does not show has no rates yet: they are those from no
/// earlier counters.
pub proof fn law_new_mount_starts_afresh(
    first: Snapshot,
    r1: Readings,
    prev: Option<(Timestamp, Vec<MountCounters>)>,
    pending: Option<String>,
    sampler: Sampler,
    second: Snapshot,
    r2: Readings,
    i: int,
)
    requires
        is_snapshot(first, r1, sampler.no_dns, prev, pending),
        keeps(sampler, first),
        is_snapshot(second, r2, sampler.no_dns, sampler.prev, sampler.pending_error),
        0 <= i < r2.mounts@.len(),
        forall|j: int|
            0 <= j < r1.mounts@.len() ==> (#[trigger] r1.mounts@[j]).mountpoint@
                != r2.mounts@[i].mountpoint@,
    ensures
        rates::is_derived(
            (MountDerived { bpf: None, ..second.mounts@[i].derived }),
            None,
            r2.mounts@[i].ops.entries@,
            second.dt_secs,
            conn_total(r2.observed_at(sampler.no_dns, i)) as u64,
            r2.observed_at(sampler.no_dns, i),
        ),
{
    let kept = match sampler.prev {
        Some((ts, counters)) => counters@,
        None => Seq::empty(),
    };
    let name = r2.mounts@[i].mountpoint@;
    lemma_last_with(kept, name);
    assert forall|k: int| 0 <= k < kept.len() implies (#[trigger] kept[k]).mountpoint@ != name by {
        assert(is_view(first.mounts@[k], r1, k, sampler.no_dns, prev, first.dt_secs));
        assert(same_counters(first.mounts@[k].counters, kept[k]));
        assert(r1.mounts@[k].mountpoint@ != name);
    }
    assert(is_view(second.mounts@[i], r2, i, sampler.no_dns, sampler.prev, second.dt_secs));
}

/// The rates by kind of call are pinned by the counters and the time.
proof fn lemma_one_list_of_calls(
    a: MountDerived,
    b: MountDerived,
    prev: Option<rates::Ops>,
    ops: rates::Ops,
    dt: Binary64,
    conns: u64,
    by_ip: Seq<(IpAddr, u64)>,
)
    requires
        rates::is_derived(a, prev, ops, dt, conns, by_ip),
        rates::is_derived(b, prev, ops, dt, conns, by_ip),
        exact::not_negative(dt),
    ensures
        a.per_op@ == b.per_op@,
{
    if rates::no_time(dt) {
        assert(a.per_op@ =~= b.per_op@);
    } else {
        let before = rates::all_rates(prev, ops, dt, rates::total_calls(prev, ops));
        assert forall|i: int| 0 <= i < before.len() implies !(#[trigger] before[i]).ops_per_sec.nan() by {
            let calls = rates::op_delta(prev, ops[i]).calls as nat;
            exact::law_whole_positive(calls);
            exact::law_whole_not_negative(calls);
            exact::law_quotient_not_negative(binary64::whole(calls), dt);
        }
        rank::law_ops_ordered(before);
        order::law_sorted_unique(
            before,
            a.per_op@,
            b.per_op@,
            |x: OpDerived, y: OpDerived| rank::op_rank(x, y) > 0,
        );
    }
}

/// What the probes say only adds to a snapshot: whether they work, fail or are not there, the
/// counters, rates and connections are the same, and the messages of a snapshot without them
/// come first, in the same order.
pub proof fn law_probes_only_add(
    s1: Snapshot,
    r1: Readings,
    pending1: Option<String>,
    s2: Snapshot,
    r2: Readings,
    pending2: Option<String>,
    no_dns: bool,
    prev: Option<(Timestamp, Vec<MountCounters>)>,
    i: int,
)
    requires
        is_snapshot(s1, r1, no_dns, prev, pending1),
        is_snapshot(s2, r2, no_dns, prev, pending2),
        r2 == (Readings { probes: r2.probes, ..r1 }),
        0 <= i < r1.mounts@.len(),
    ensures
        s1.ts == s2.ts,
        s1.dt_secs == s2.dt_secs,
        s1.rpc == s2.rpc,
        s1.raw_tcp_matches@ == s2.raw_tcp_matches@,
        s1.mounts@.len() == s2.mounts@.len(),
        same_counters(s1.mounts@[i].counters, s2.mounts@[i].counters),
        s1.mounts@[i].resolved_ips@ == s2.mounts@[i].resolved_ips@,
        ({
            let a = s1.mounts@[i].derived;
            let b = s2.mounts@[i].derived;
            &&& a.read_bps == b.read_bps
            &&& a.write_bps == b.write_bps
            &&& a.ops_per_sec == b.ops_per_sec
            &&& a.avg_rtt_ms == b.avg_rtt_ms
            &&& a.avg_exe_ms == b.avg_exe_ms
            &&& a.observed_conns == b.observed_conns
            &&& a.observed_by_ip@ == b.observed_by_ip@
            &&& a.per_op@ == b.per_op@
        }),
        r1.probes is None && pending1 is None ==> text::texts(s1.partial_errors@).is_prefix_of(
            text::texts(s2.partial_errors@),
        ),
{
    assert(is_view(s1.mounts@[i], r1, i, no_dns, prev, s1.dt_secs));
    assert(is_view(s2.mounts@[i], r2, i, no_dns, prev, s2.dt_secs));
    assert(r1.observed_at(no_dns, i) == r2.observed_at(no_dns, i));
    assert(s1.mounts@[i].derived.observed_by_ip@ =~= s2.mounts@[i].derived.observed_by_ip@);
    law_elapsed(time_before(prev), r1.now, r1.interval_ms);
    lemma_one_list_of_calls(
        MountDerived { bpf: None, ..s1.mounts@[i].derived },
        MountDerived { bpf: None, ..s2.mounts@[i].derived },
        ops_before(prev, r1.mounts@[i].mountpoint@),
        r1.mounts@[i].ops.entries@,
        s1.dt_secs,
        conn_total(r1.observed_at(no_dns, i)) as u64,
        r1.observed_at(no_dns, i),
    );
}

/// Nothing that a snapshot shows of a mount is negative or not a number, so that mounts are in
/// one order under every key.
pub proof fn law_snapshot_not_negative(
    s: Snapshot,
    r: Readings,
    no_dns: bool,
    prev: Option<(Timestamp, Vec<MountCounters>)>,
    pending: Option<String>,
    i: int,
    sort: SortKey,
)
    requires
        is_snapshot(s, r, no_dns, prev, pending),
        0 <= i < r.mounts@.len(),
        sums_fit(r, no_dns, prev, i),
        r.mounts@[i].ops.entries@.len() <= u64::MAX,
    ensures
        rates::all_not_negative(s.mounts@[i].derived),
        rank::comparable(s.mounts@[i], sort),
{
    let v = s.mounts@[i];
    assert(is_view(v, r, i, no_dns, prev, s.dt_secs));
    law_elapsed(time_before(prev), r.now, r.interval_ms);
    rates::law_derived_not_negative(
        MountDerived { bpf: None, ..v.derived },
        ops_before(prev, r.mounts@[i].mountpoint@),
        r.mounts@[i].ops.entries@,
        s.dt_secs,
        conn_total(r.observed_at(no_dns, i)) as u64,
        r.observed_at(no_dns, i),
    );
}

} // verus!
