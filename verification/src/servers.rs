//! The mounts of each server taken together.

use crate::binary64;
use crate::binary64::Binary64;
use crate::exact;
use crate::rates;
use crate::rates::host_from_device;
use crate::order;
use crate::rank;
use crate::rank::{sort_ops, sort_servers};
use crate::table;
use crate::table::{Key, Table};
use crate::types::{IpAddr, MountView, OpDerived, ServerAgg, SortKey};
use vstd::prelude::*;
use vstd::string::*;

verus! {

/// Zero with its sign bit set, from which sums start.
pub open spec fn negative_zero() -> Binary64 {
    Binary64 { bits: binary64::SIGN }
}

/// The numbers added one after the other to `start`.
pub open spec fn running_sum(start: Binary64, xs: Seq<Binary64>) -> Binary64
    decreases xs.len(),
{
    if xs.len() == 0 {
        start
    } else {
        binary64::sum(running_sum(start, xs.drop_last()), xs.last())
    }
}

/// The sum of the weighted values that are there, and of their weights.
pub open spec fn weighted(items: Seq<(Option<Binary64>, Binary64)>) -> (Binary64, Binary64)
    decreases items.len(),
{
    if items.len() == 0 {
        (binary64::zero(), binary64::zero())
    } else {
        let (s, w) = weighted(items.drop_last());
        match items.last().0 {
            Some(x) => (
                binary64::sum(s, binary64::product(x, items.last().1)),
                binary64::sum(w, items.last().1),
            ),
            None => (s, w),
        }
    }
}

/// `sum / weight`; none where the weight is not above zero.
pub open spec fn ratio(sum: Binary64, weight: Binary64) -> Option<Binary64> {
    if binary64::less(binary64::zero(), weight) {
        Some(binary64::quotient(sum, weight))
    } else {
        None
    }
}

/// `sum / weight`; none where the weight is not above zero.
fn ratio_of(sum: Binary64, weight: Binary64) -> (r: Option<Binary64>)
    ensures
        r == ratio(sum, weight),
{
    if Binary64::zero().is_less(weight) {
        Some(sum.over(weight))
    } else {
        None
    }
}

/// The mean of values by their weights, over the values that are there.
pub fn ops_weighted_mean(items: &[(Option<Binary64>, Binary64)]) -> (r: Option<Binary64>)
    ensures
        r == ratio(weighted(items@).0, weighted(items@).1),
{
    let mut s: Binary64 = Binary64::zero();
    let mut w: Binary64 = Binary64::zero();
    let mut i: usize = 0;
    while i < items.len()
        invariant
            i <= items@.len(),
            weighted(items@.take(i as int)) == (s, w),
        decreases items@.len() - i,
    {
        let (v, wt) = items[i];
        proof {
            assert(items@.take(i + 1).drop_last() =~= items@.take(i as int));
        }
        match v {
            Some(x) => {
                s = s.plus(x.times(wt));
                w = w.plus(wt);
            },
            None => {},
        }
        i = i + 1;
    }
    assert(items@.take(i as int) =~= items@);
    ratio_of(s, w)
}

/// Sums over one kind of call.
#[derive(Debug, Clone, Copy, PartialEq, Eq, Structural)]
pub struct OpAccum {
    pub ops_sum: Binary64,
    pub bytes_sum: Binary64,
    pub rtt_weighted_sum: Binary64,
    pub rtt_weight: Binary64,
    pub exe_weighted_sum: Binary64,
    pub exe_weight: Binary64,
}

/// Sums of nothing.
pub open spec fn no_accum() -> OpAccum {
    OpAccum {
        ops_sum: binary64::zero(),
        bytes_sum: binary64::zero(),
        rtt_weighted_sum: binary64::zero(),
        rtt_weight: binary64::zero(),
        exe_weighted_sum: binary64::zero(),
        exe_weight: binary64::zero(),
    }
}

/// The sums with one more mount's rates of this kind of call.
pub open spec fn accumulated(a: OpAccum, op: OpDerived) -> OpAccum {
    OpAccum {
        ops_sum: binary64::sum(a.ops_sum, op.ops_per_sec),
        bytes_sum: binary64::sum(a.bytes_sum, op.bytes_per_sec),
        rtt_weighted_sum: match op.avg_rtt_ms {
            Some(x) => binary64::sum(a.rtt_weighted_sum, binary64::product(x, op.ops_per_sec)),
            None => a.rtt_weighted_sum,
        },
        rtt_weight: match op.avg_rtt_ms {
            Some(x) => binary64::sum(a.rtt_weight, op.ops_per_sec),
            None => a.rtt_weight,
        },
        exe_weighted_sum: match op.avg_exe_ms {
            Some(x) => binary64::sum(a.exe_weighted_sum, binary64::product(x, op.ops_per_sec)),
            None => a.exe_weighted_sum,
        },
        exe_weight: match op.avg_exe_ms {
            Some(x) => binary64::sum(a.exe_weight, op.ops_per_sec),
            None => a.exe_weight,
        },
    }
}

/// The sums by kind of call with the rates of one more.
pub open spec fn absorbed(accums: Seq<(String, OpAccum)>, op: OpDerived) -> Seq<(String, OpAccum)> {
    let a = match table::lookup(accums, op.op@) {
        Some(a) => a,
        None => no_accum(),
    };
    table::stored(accums, op.op, accumulated(a, op))
}

/// The sums by kind of call with the rates of a mount, taken in order.
pub open spec fn absorbed_all(accums: Seq<(String, OpAccum)>, ops: Seq<OpDerived>) -> Seq<(String, OpAccum)>
    decreases ops.len(),
{
    if ops.len() == 0 {
        accums
    } else {
        absorbed(absorbed_all(accums, ops.drop_last()), ops.last())
    }
}

/// The sums by kind of call over the mounts of a server, in the order in which the kinds come.
pub open spec fn group_accums(group: Seq<&MountView>) -> Seq<(String, OpAccum)>
    decreases group.len(),
{
    if group.len() == 0 {
        Seq::empty()
    } else {
        absorbed_all(group_accums(group.drop_last()), group.last().derived.per_op@)
    }
}

/// The rates of one kind of call, as a share of the calls of all kinds.
pub open spec fn merged(name: String, a: OpAccum, total: Binary64) -> OpDerived {
    OpDerived {
        op: name,
        ops_per_sec: a.ops_sum,
        bytes_per_sec: a.bytes_sum,
        share_pct: if binary64::less(binary64::zero(), total) {
            binary64::product(binary64::quotient(a.ops_sum, total), binary64::whole(100))
        } else {
            binary64::zero()
        },
        avg_rtt_ms: ratio(a.rtt_weighted_sum, a.rtt_weight),
        avg_exe_ms: ratio(a.exe_weighted_sum, a.exe_weight),
    }
}

/// The calls of all kinds.
pub open spec fn accum_total(accums: Seq<(String, OpAccum)>) -> Binary64 {
    running_sum(negative_zero(), accums.map_values(|e: (String, OpAccum)| e.1.ops_sum))
}

/// The rates by kind of call, in the order in which the kinds come.
pub open spec fn merged_all(accums: Seq<(String, OpAccum)>) -> Seq<OpDerived> {
    let total = accum_total(accums);
    accums.map_values(|e: (String, OpAccum)| merged(e.0, e.1, total))
}

/// The connections of all mounts.
pub open spec fn total_conns(group: Seq<&MountView>) -> nat
    decreases group.len(),
{
    if group.len() == 0 {
        0
    } else {
        total_conns(group.drop_last()) + group.last().derived.observed_conns as nat
    }
}

/// The largest number of connections asked for.
pub open spec fn most_connects(group: Seq<&MountView>) -> Option<u32>
    decreases group.len(),
{
    if group.len() == 0 {
        None
    } else {
        match (most_connects(group.drop_last()), group.last().counters.nconnect) {
            (Some(a), Some(b)) => if a < b {
                Some(b)
            } else {
                Some(a)
            },
            (Some(a), None) => Some(a),
            (None, b) => b,
        }
    }
}

/// The host of the first mount.
pub open spec fn group_host(group: Seq<&MountView>) -> Seq<char> {
    if group.len() == 0 {
        "unknown"@
    } else {
        match rates::host(group[0].counters.device@) {
            Some(h) => h,
            None => "unknown"@,
        }
    }
}

/// The mounts of a server taken together.
pub open spec fn is_aggregate(agg: ServerAgg, addr: Option<IpAddr>, group: Seq<&MountView>) -> bool {
    &&& agg.addr == addr
    &&& agg.hostname@ == group_host(group)
    &&& agg.mounts@ == group.map_values(|m: &MountView| m.counters.mountpoint)
    &&& agg.read_bps == running_sum(negative_zero(), group.map_values(|m: &MountView| m.derived.read_bps))
    &&& agg.write_bps == running_sum(negative_zero(), group.map_values(|m: &MountView| m.derived.write_bps))
    &&& agg.ops_per_sec == running_sum(
        negative_zero(),
        group.map_values(|m: &MountView| m.derived.ops_per_sec),
    )
    &&& agg.avg_rtt_ms == ({
        let w = weighted(
            group.map_values(|m: &MountView| (m.derived.avg_rtt_ms, m.derived.ops_per_sec)),
        );
        ratio(w.0, w.1)
    })
    &&& agg.avg_exe_ms == ({
        let w = weighted(
            group.map_values(|m: &MountView| (m.derived.avg_exe_ms, m.derived.ops_per_sec)),
        );
        ratio(w.0, w.1)
    })
    &&& agg.observed_conns == total_conns(group)
    &&& agg.nconnect == most_connects(group)
    &&& order::sorted(
        merged_all(group_accums(group)),
        agg.per_op@,
        |a: OpDerived, b: OpDerived| rank::op_rank(a, b) > 0,
    )
}

/// Adds the rates of a mount to the sums by kind of call.
fn absorb(accums: &mut Table<String, OpAccum>, ops: &Vec<OpDerived>)
    ensures
        final(accums).entries@ == absorbed_all(old(accums).entries@, ops@),
{
    let ghost start = accums.entries@;
    let mut i: usize = 0;
    assert(ops@.take(0) =~= Seq::empty());
    while i < ops.len()
        invariant
            i <= ops@.len(),
            accums.entries@ == absorbed_all(start, ops@.take(i as int)),
        decreases ops@.len() - i,
    {
        let op: &OpDerived = &ops[i];
        let mut a: OpAccum = match accums.get(&op.op) {
            Some(a) => *a,
            None => OpAccum {
                ops_sum: Binary64::zero(),
                bytes_sum: Binary64::zero(),
                rtt_weighted_sum: Binary64::zero(),
                rtt_weight: Binary64::zero(),
                exe_weighted_sum: Binary64::zero(),
                exe_weight: Binary64::zero(),
            },
        };
        let ghost a0 = a;
        a.ops_sum = a.ops_sum.plus(op.ops_per_sec);
        a.bytes_sum = a.bytes_sum.plus(op.bytes_per_sec);
        match op.avg_rtt_ms {
            Some(x) => {
                a.rtt_weighted_sum = a.rtt_weighted_sum.plus(x.times(op.ops_per_sec));
                a.rtt_weight = a.rtt_weight.plus(op.ops_per_sec);
            },
            None => {},
        }
        match op.avg_exe_ms {
            Some(x) => {
                a.exe_weighted_sum = a.exe_weighted_sum.plus(x.times(op.ops_per_sec));
                a.exe_weight = a.exe_weight.plus(op.ops_per_sec);
            },
            None => {},
        }
        proof {
            assert(a == accumulated(a0, *op));
            assert(ops@.take(i + 1).drop_last() =~= ops@.take(i as int));
        }
        accums.insert(op.op.clone(), a);
        i = i + 1;
    }
    assert(ops@.take(i as int) =~= ops@);
}

/// The rates by kind of call from the sums.
fn merge(accums: &Table<String, OpAccum>) -> (r: Vec<OpDerived>)
    ensures
        r@ == merged_all(accums.entries@),
{
    let ghost entries = accums.entries@;
    let ghost sums = entries.map_values(|e: (String, OpAccum)| e.1.ops_sum);
    let n: usize = accums.entries.len();
    let hundred: Binary64 = Binary64::from_u64(100);
    let mut total: Binary64 = Binary64 { bits: binary64::SIGN };
    let mut i: usize = 0;
    assert(sums.take(0) =~= Seq::empty());
    while i < n
        invariant
            entries == accums.entries@,
            sums == entries.map_values(|e: (String, OpAccum)| e.1.ops_sum),
            n == entries.len(),
            i <= n,
            total == running_sum(negative_zero(), sums.take(i as int)),
        decreases n - i,
    {
        proof {
            assert(sums.take(i + 1).drop_last() =~= sums.take(i as int));
        }
        total = total.plus(accums.entries[i].1.ops_sum);
        i = i + 1;
    }
    assert(sums.take(n as int) =~= sums);
    let mut r: Vec<OpDerived> = Vec::new();
    let mut j: usize = 0;
    while j < n
        invariant
            entries == accums.entries@,
            n == entries.len(),
            j <= n,
            total == accum_total(entries),
            hundred == binary64::whole(100),
            r@ == merged_all(entries).take(j as int),
        decreases n - j,
    {
        let e: &(String, OpAccum) = &accums.entries[j];
        let share_pct: Binary64 = if Binary64::zero().is_less(total) {
            e.1.ops_sum.over(total).times(hundred)
        } else {
            Binary64::zero()
        };
        r.push(
            OpDerived {
                op: e.0.clone(),
                ops_per_sec: e.1.ops_sum,
                bytes_per_sec: e.1.bytes_sum,
                share_pct,
                avg_rtt_ms: ratio_of(e.1.rtt_weighted_sum, e.1.rtt_weight),
                avg_exe_ms: ratio_of(e.1.exe_weighted_sum, e.1.exe_weight),
            },
        );
        j = j + 1;
        assert(r@ =~= merged_all(entries).take(j as int));
    }
    assert(merged_all(entries).take(n as int) =~= merged_all(entries));
    r
}

proof fn lemma_total_conns_grows(group: Seq<&MountView>, i: int)
    requires
        0 <= i <= group.len(),
    ensures
        total_conns(group.take(i)) <= total_conns(group),
    decreases group.len() - i,
{
    if i < group.len() {
        lemma_total_conns_grows(group, i + 1);
        assert(group.take(i + 1).drop_last() =~= group.take(i));
    } else {
        assert(group.take(i) =~= group);
    }
}

/// The mounts of a server taken together.
pub fn build_server_agg(addr: Option<IpAddr>, group: &[&MountView]) -> (r: ServerAgg)
    requires
        total_conns(group@) <= u64::MAX,
    ensures
        is_aggregate(r, addr, group@),
{
    let ghost g = group@;
    let ghost reads = g.map_values(|m: &MountView| m.derived.read_bps);
    let ghost writes = g.map_values(|m: &MountView| m.derived.write_bps);
    let ghost calls = g.map_values(|m: &MountView| m.derived.ops_per_sec);
    let ghost rtt_items = g.map_values(|m: &MountView| (m.derived.avg_rtt_ms, m.derived.ops_per_sec));
    let ghost exe_items = g.map_values(|m: &MountView| (m.derived.avg_exe_ms, m.derived.ops_per_sec));
    let ghost names = g.map_values(|m: &MountView| m.counters.mountpoint);
    let mut read_bps: Binary64 = Binary64 { bits: binary64::SIGN };
    let mut write_bps: Binary64 = Binary64 { bits: binary64::SIGN };
    let mut ops_per_sec: Binary64 = Binary64 { bits: binary64::SIGN };
    let mut observed_conns: u64 = 0;
    let mut nconnect: Option<u32> = None;
    let mut rtts: Vec<(Option<Binary64>, Binary64)> = Vec::new();
    let mut exes: Vec<(Option<Binary64>, Binary64)> = Vec::new();
    let mut mounts: Vec<String> = Vec::new();
    let mut accums: Table<String, OpAccum> = Table::new();
    let mut i: usize = 0;
    while i < group.len()
        invariant
            g == group@,
            reads == g.map_values(|m: &MountView| m.derived.read_bps),
            writes == g.map_values(|m: &MountView| m.derived.write_bps),
            calls == g.map_values(|m: &MountView| m.derived.ops_per_sec),
            rtt_items == g.map_values(|m: &MountView| (m.derived.avg_rtt_ms, m.derived.ops_per_sec)),
            exe_items == g.map_values(|m: &MountView| (m.derived.avg_exe_ms, m.derived.ops_per_sec)),
            names == g.map_values(|m: &MountView| m.counters.mountpoint),
            i <= g.len(),
            total_conns(g) <= u64::MAX,
            read_bps == running_sum(negative_zero(), reads.take(i as int)),
            write_bps == running_sum(negative_zero(), writes.take(i as int)),
            ops_per_sec == running_sum(negative_zero(), calls.take(i as int)),
            observed_conns == total_conns(g.take(i as int)),
            nconnect == most_connects(g.take(i as int)),
            rtts@ == rtt_items.take(i as int),
            exes@ == exe_items.take(i as int),
            mounts@ == names.take(i as int),
            accums.entries@ == group_accums(g.take(i as int)),
        decreases g.len() - i,
    {
        let m: &MountView = group[i];
        proof {
            assert(reads.take(i + 1).drop_last() =~= reads.take(i as int));
            assert(writes.take(i + 1).drop_last() =~= writes.take(i as int));
            assert(calls.take(i + 1).drop_last() =~= calls.take(i as int));
            assert(g.take(i + 1).drop_last() =~= g.take(i as int));
            lemma_total_conns_grows(g, i + 1);
        }
        read_bps = read_bps.plus(m.derived.read_bps);
        write_bps = write_bps.plus(m.derived.write_bps);
        ops_per_sec = ops_per_sec.plus(m.derived.ops_per_sec);
        observed_conns = observed_conns + m.derived.observed_conns;
        nconnect = match (nconnect, m.counters.nconnect) {
            (Some(a), Some(b)) => if a < b {
                Some(b)
            } else {
                Some(a)
            },
            (Some(a), None) => Some(a),
            (None, b) => b,
        };
        rtts.push((m.derived.avg_rtt_ms, m.derived.ops_per_sec));
        exes.push((m.derived.avg_exe_ms, m.derived.ops_per_sec));
        mounts.push(m.counters.mountpoint.clone());
        absorb(&mut accums, &m.derived.per_op);
        i = i + 1;
        assert(rtts@ =~= rtt_items.take(i as int));
        assert(exes@ =~= exe_items.take(i as int));
        assert(mounts@ =~= names.take(i as int));
    }
    proof {
        assert(reads.take(i as int) =~= reads);
        assert(writes.take(i as int) =~= writes);
        assert(calls.take(i as int) =~= calls);
        assert(rtt_items.take(i as int) =~= rtt_items);
        assert(exe_items.take(i as int) =~= exe_items);
        assert(names.take(i as int) =~= names);
        assert(g.take(i as int) =~= g);
    }
    let mut per_op: Vec<OpDerived> = merge(&accums);
    sort_ops(&mut per_op);
    let hostname: String = if group.len() == 0 {
        "unknown".to_string()
    } else {
        match host_from_device(group[0].counters.device.as_str()) {
            Some(h) => h.to_string(),
            None => "unknown".to_string(),
        }
    };
    ServerAgg {
        addr,
        hostname,
        mounts,
        read_bps,
        write_bps,
        ops_per_sec,
        avg_rtt_ms: ops_weighted_mean(rtts.as_slice()),
        avg_exe_ms: ops_weighted_mean(exes.as_slice()),
        observed_conns,
        nconnect,
        per_op,
    }
}

/// The addresses of the servers, in the order in which mounts name them.
pub open spec fn addresses(mounts: Seq<MountView>) -> Seq<Option<IpAddr>>
    decreases mounts.len(),
{
    if mounts.len() == 0 {
        Seq::empty()
    } else {
        let rest = addresses(mounts.drop_last());
        if rest.contains(mounts.last().counters.addr) {
            rest
        } else {
            rest.push(mounts.last().counters.addr)
        }
    }
}

/// The mounts of the server with the given address.
pub open spec fn mounts_of<'a>(mounts: Seq<MountView>, addr: Option<IpAddr>) -> Seq<&'a MountView>
    decreases mounts.len(),
{
    if mounts.len() == 0 {
        Seq::empty()
    } else {
        let rest = mounts_of(mounts.drop_last(), addr);
        if mounts.last().counters.addr == addr {
            rest.push(&mounts.last())
        } else {
            rest
        }
    }
}

/// Whether the connections of each server fit their counter.
pub open spec fn conns_fit(mounts: Seq<MountView>) -> bool {
    forall|addr: Option<IpAddr>| total_conns(#[trigger] mounts_of(mounts, addr)) <= u64::MAX
}

/// The aggregates of all servers, in the order in which mounts name them.
pub open spec fn are_aggregates(aggs: Seq<ServerAgg>, mounts: Seq<MountView>) -> bool {
    &&& aggs.len() == addresses(mounts).len()
    &&& forall|i: int|
        0 <= i < aggs.len() ==> is_aggregate(
            #[trigger] aggs[i],
            addresses(mounts)[i],
            mounts_of(mounts, addresses(mounts)[i]),
        )
}

/// The aggregates of all servers, sorted by a key.
pub open spec fn are_sorted_aggregates(aggs: Seq<ServerAgg>, mounts: Seq<MountView>, sort: SortKey) -> bool {
    exists|unsorted: Seq<ServerAgg>|
        #[trigger] are_aggregates(unsorted, mounts) && order::sorted(
            unsorted,
            aggs,
            |a: ServerAgg, b: ServerAgg| rank::server_rank(a, b, sort) > 0,
        )
}

/// The mounts of the server with the given address.
fn collect_mounts<'a>(mounts: &'a Vec<MountView>, addr: Option<IpAddr>) -> (r: Vec<&'a MountView>)
    ensures
        r@ == mounts_of(mounts@, addr),
{
    let mut r: Vec<&MountView> = Vec::new();
    let mut i: usize = 0;
    while i < mounts.len()
        invariant
            i <= mounts@.len(),
            r@ == mounts_of(mounts@.take(i as int), addr),
        decreases mounts@.len() - i,
    {
        assert(mounts@.take(i + 1).drop_last() =~= mounts@.take(i as int));
        if mounts[i].counters.addr.same_key(&addr) {
            r.push(&mounts[i]);
        }
        i = i + 1;
    }
    assert(mounts@.take(i as int) =~= mounts@);
    r
}

/// Whether the connections of each server fit their counter.
pub fn check_conns(mounts: &Vec<MountView>) -> (b: bool)
    ensures
        b == conns_fit(mounts@),
{
    let mut i: usize = 0;
    while i < mounts.len()
        invariant
            i <= mounts@.len(),
            forall|j: int|
                0 <= j < i ==> total_conns(
                    mounts_of(mounts@, (#[trigger] mounts@[j]).counters.addr),
                ) <= u64::MAX,
        decreases mounts@.len() - i,
    {
        let group: Vec<&MountView> = collect_mounts(mounts, mounts[i].counters.addr);
        let ghost g = mounts_of(mounts@, mounts@[i as int].counters.addr);
        let mut total: u64 = 0;
        let mut j: usize = 0;
        while j < group.len()
            invariant
                group@ == g,
                g == mounts_of(mounts@, mounts@[i as int].counters.addr),
                j <= g.len(),
                total == total_conns(g.take(j as int)),
            decreases g.len() - j,
        {
            let n: u64 = group[j].derived.observed_conns;
            proof {
                assert(g.take(j + 1).drop_last() =~= g.take(j as int));
                lemma_total_conns_grows(g, j + 1);
            }
            if total > u64::MAX - n {
                return false;
            }
            total = total + n;
            j = j + 1;
        }
        assert(g.take(j as int) =~= g);
        i = i + 1;
    }
    assert forall|addr: Option<IpAddr>| total_conns(#[trigger] mounts_of(mounts@, addr))
        <= u64::MAX by {
        let g = mounts_of(mounts@, addr);
        if g.len() > 0 {
            law_groups_partition(mounts@, addr);
            assert(g[0].counters.addr == addr && mounts@.contains(*g[0]));
            let k = choose|k: int| 0 <= k < mounts@.len() && mounts@[k] == *g[0];
            assert(mounts@[k].counters.addr == addr);
        }
    }
    true
}

/// Whether an address is in a list.
fn contains_addr(addrs: &Vec<Option<IpAddr>>, addr: Option<IpAddr>) -> (r: bool)
    ensures
        r == addrs@.contains(addr),
{
    let mut i: usize = 0;
    while i < addrs.len()
        invariant
            i <= addrs@.len(),
            forall|j: int| 0 <= j < i ==> addrs@[j] != addr,
        decreases addrs@.len() - i,
    {
        if addrs[i].same_key(&addr) {
            assert(addrs@[i as int] == addr);
            return true;
        }
        i = i + 1;
    }
    false
}

/// The aggregates of all servers, sorted by a key.
pub fn aggregate_servers_from(mounts: &Vec<MountView>, sort: SortKey) -> (r: Vec<ServerAgg>)
    requires
        conns_fit(mounts@),
    ensures
        are_sorted_aggregates(r@, mounts@, sort),
{
    let mut addrs: Vec<Option<IpAddr>> = Vec::new();
    let mut i: usize = 0;
    while i < mounts.len()
        invariant
            i <= mounts@.len(),
            addrs@ == addresses(mounts@.take(i as int)),
        decreases mounts@.len() - i,
    {
        assert(mounts@.take(i + 1).drop_last() =~= mounts@.take(i as int));
        let addr: Option<IpAddr> = mounts[i].counters.addr;
        if !contains_addr(&addrs, addr) {
            addrs.push(addr);
        }
        i = i + 1;
    }
    assert(mounts@.take(i as int) =~= mounts@);
    let mut servers: Vec<ServerAgg> = Vec::new();
    let mut j: usize = 0;
    while j < addrs.len()
        invariant
            addrs@ == addresses(mounts@),
            conns_fit(mounts@),
            j <= addrs@.len(),
            servers@.len() == j,
            forall|k: int|
                0 <= k < j ==> is_aggregate(
                    #[trigger] servers@[k],
                    addrs@[k],
                    mounts_of(mounts@, addrs@[k]),
                ),
        decreases addrs@.len() - j,
    {
        let group: Vec<&MountView> = collect_mounts(mounts, addrs[j]);
        servers.push(build_server_agg(addrs[j], group.as_slice()));
        j = j + 1;
    }
    let ghost unsorted = servers@;
    assert(are_aggregates(unsorted, mounts@));
    sort_servers(&mut servers, sort);
    servers
}

/// No two servers have one address, and every mount belongs to a server.
pub proof fn law_addresses(mounts: Seq<MountView>)
    ensures
        addresses(mounts).no_duplicates(),
        forall|i: int| 0 <= i < mounts.len() ==> addresses(mounts).contains((#[trigger] mounts[i]).counters.addr),
        forall|a: Option<IpAddr>| #[trigger]
            addresses(mounts).contains(a) ==> mounts_of(mounts, a).len() > 0,
    decreases mounts.len(),
{
    if mounts.len() > 0 {
        let rest = mounts.drop_last();
        law_addresses(rest);
        let addr = mounts.last().counters.addr;
        let before = addresses(rest);
        let now = addresses(mounts);
        assert forall|i: int| 0 <= i < mounts.len() implies now.contains(
            (#[trigger] mounts[i]).counters.addr,
        ) by {
            if i < mounts.len() - 1 {
                assert(rest[i] == mounts[i]);
                let a = mounts[i].counters.addr;
                let k = choose|k: int| 0 <= k < before.len() && before[k] == a;
                assert(now[k] == a);
            } else if !before.contains(addr) {
                assert(now[before.len() as int] == addr);
            }
        }
        assert forall|a: Option<IpAddr>| #[trigger] now.contains(a) implies mounts_of(mounts, a).len()
            > 0 by {
            let k = choose|k: int| 0 <= k < now.len() && now[k] == a;
            if k < before.len() {
                assert(before[k] == a);
                assert(before.contains(a));
            }
        }
    }
}

/// Every mount is in the group of its own address and in no other, and the groups hold nothing
/// else.
pub proof fn law_groups_partition(mounts: Seq<MountView>, addr: Option<IpAddr>)
    ensures
        forall|i: int|
            0 <= i < mounts_of(mounts, addr).len() ==> (#[trigger] mounts_of(mounts, addr)[i]).counters.addr
                == addr && mounts.contains(*mounts_of(mounts, addr)[i]),
        forall|i: int|
            0 <= i < mounts.len() && (#[trigger] mounts[i]).counters.addr == addr ==> mounts_of(
                mounts,
                addr,
            ).contains(&mounts[i]),
    decreases mounts.len(),
{
    if mounts.len() > 0 {
        let rest = mounts.drop_last();
        law_groups_partition(rest, addr);
        let before = mounts_of(rest, addr);
        let now = mounts_of(mounts, addr);
        assert forall|i: int| 0 <= i < now.len() implies (#[trigger] now[i]).counters.addr == addr
            && mounts.contains(*now[i]) by {
            if i < before.len() {
                assert(before[i] == now[i]);
                let k = choose|k: int| 0 <= k < rest.len() && rest[k] == *before[i];
                assert(mounts[k] == *now[i]);
            } else {
                assert(mounts[mounts.len() - 1] == *now[i]);
            }
        }
        assert forall|i: int| 0 <= i < mounts.len() && (#[trigger] mounts[i]).counters.addr
            == addr implies now.contains(&mounts[i]) by {
            if i < mounts.len() - 1 {
                assert(rest[i] == mounts[i]);
                let k = choose|k: int| 0 <= k < before.len() && before[k] == &rest[i];
                assert(now[k] == &mounts[i]);
            } else {
                assert(now[before.len() as int] == &mounts[i]);
            }
        }
    }
}

proof fn lemma_running_sum_not_negative(start: Binary64, xs: Seq<Binary64>)
    requires
        exact::not_negative(start),
        forall|i: int| 0 <= i < xs.len() ==> exact::not_negative(#[trigger] xs[i]),
    ensures
        exact::not_negative(running_sum(start, xs)),
    decreases xs.len(),
{
    if xs.len() > 0 {
        lemma_running_sum_not_negative(start, xs.drop_last());
        exact::law_sum_not_negative(running_sum(start, xs.drop_last()), xs.last());
    }
}

/// The sums over mounts of rates that are not negative.
proof fn lemma_sums_not_negative(group: Seq<&MountView>)
    requires
        forall|i: int| 0 <= i < group.len() ==> rates::all_not_negative((#[trigger] group[i]).derived),
    ensures
        exact::not_negative(
            running_sum(negative_zero(), group.map_values(|m: &MountView| m.derived.read_bps)),
        ),
        exact::not_negative(
            running_sum(negative_zero(), group.map_values(|m: &MountView| m.derived.write_bps)),
        ),
        exact::not_negative(
            running_sum(negative_zero(), group.map_values(|m: &MountView| m.derived.ops_per_sec)),
        ),
{
    let start = negative_zero();
    let reads = group.map_values(|m: &MountView| m.derived.read_bps);
    let writes = group.map_values(|m: &MountView| m.derived.write_bps);
    let calls = group.map_values(|m: &MountView| m.derived.ops_per_sec);
    assert(exact::not_negative(start)) by {
        binary64::lemma_quanta_zero(0);
    }
    assert forall|i: int| 0 <= i < reads.len() implies exact::not_negative(#[trigger] reads[i]) by {
        assert(rates::all_not_negative(group[i].derived));
    }
    assert forall|i: int| 0 <= i < writes.len() implies exact::not_negative(#[trigger] writes[i]) by {
        assert(rates::all_not_negative(group[i].derived));
    }
    assert forall|i: int| 0 <= i < calls.len() implies exact::not_negative(#[trigger] calls[i]) by {
        assert(rates::all_not_negative(group[i].derived));
    }
    lemma_running_sum_not_negative(start, reads);
    lemma_running_sum_not_negative(start, writes);
    lemma_running_sum_not_negative(start, calls);
}

/// Where nothing that is derived for the mounts of a server is negative, neither are its rates,
/// and the keys that compare these put servers in one order.
pub proof fn law_aggregate_not_negative(
    agg: ServerAgg,
    addr: Option<IpAddr>,
    group: Seq<&MountView>,
    sort: SortKey,
)
    requires
        is_aggregate(agg, addr, group),
        forall|i: int| 0 <= i < group.len() ==> rates::all_not_negative((#[trigger] group[i]).derived),
    ensures
        exact::not_negative(agg.read_bps),
        exact::not_negative(agg.write_bps),
        exact::not_negative(agg.ops_per_sec),
        sort != SortKey::Rtt && sort != SortKey::Exe ==> rank::comparable_server(agg, sort),
{
    lemma_sums_not_negative(group);
}

} // verus!
