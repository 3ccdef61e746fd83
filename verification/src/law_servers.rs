//! What the figures of a server mean, in terms of those of its mounts.

use crate::binary64;
use crate::binary64::Binary64;
use crate::order;
use crate::rank;
use crate::rates;
use crate::search;
use crate::servers;
use crate::servers::OpAccum;
use crate::table;
use crate::table::Key;
use crate::types::{IpAddr, MountView, OpDerived, ServerAgg, SortKey};
use vstd::prelude::*;

verus! {

/// Numbers added one after the other to `start`.
pub open spec fn summed(start: Binary64, xs: Seq<Binary64>) -> Binary64 {
    xs.fold_left(start, |a: Binary64, x: Binary64| binary64::sum(a, x))
}

/// Zero with its sign bit set.
pub open spec fn minus_zero() -> Binary64 {
    Binary64 { bits: 0x8000_0000_0000_0000 }
}

proof fn lemma_summed(start: Binary64, xs: Seq<Binary64>)
    ensures
        servers::running_sum(start, xs) == summed(start, xs),
    decreases xs.len(),
{
    if xs.len() > 0 {
        lemma_summed(start, xs.drop_last());
    }
}

/// The mounts of which a time is known, with the time and the calls per second.
pub open spec fn known(items: Seq<(Option<Binary64>, Binary64)>) -> Seq<(Option<Binary64>, Binary64)> {
    items.filter(|e: (Option<Binary64>, Binary64)| e.0 is Some)
}

/// The mean of the times that are known, each counted by its calls: none where there are no calls.
pub open spec fn mean_time(items: Seq<(Option<Binary64>, Binary64)>) -> Option<Binary64> {
    let top = summed(
        binary64::zero(),
        known(items).map_values(|e: (Option<Binary64>, Binary64)| binary64::product(e.0->0, e.1)),
    );
    let calls = summed(binary64::zero(), known(items).map_values(|e: (Option<Binary64>, Binary64)| e.1));
    if binary64::less(binary64::zero(), calls) {
        Some(binary64::quotient(top, calls))
    } else {
        None
    }
}

proof fn lemma_weighted(items: Seq<(Option<Binary64>, Binary64)>)
    ensures
        servers::weighted(items).0 == summed(
            binary64::zero(),
            known(items).map_values(|e: (Option<Binary64>, Binary64)| binary64::product(e.0->0, e.1)),
        ),
        servers::weighted(items).1 == summed(
            binary64::zero(),
            known(items).map_values(|e: (Option<Binary64>, Binary64)| e.1),
        ),
    decreases items.len(),
{
    reveal(Seq::filter);
    let f = |e: (Option<Binary64>, Binary64)| binary64::product(e.0->0, e.1);
    let g = |e: (Option<Binary64>, Binary64)| e.1;
    if items.len() > 0 {
        let front = items.drop_last();
        lemma_weighted(front);
        if items.last().0 is Some {
            let k = known(front);
            assert(known(items) == k.push(items.last()));
            assert(k.push(items.last()).map_values(f).drop_last() =~= k.map_values(f));
            assert(k.push(items.last()).map_values(g).drop_last() =~= k.map_values(g));
        }
    }
}

/// The mean of values by their weights.
pub proof fn law_weighted_mean(items: Seq<(Option<Binary64>, Binary64)>)
    ensures
        servers::ratio(servers::weighted(items).0, servers::weighted(items).1) == mean_time(items),
{
    lemma_weighted(items);
}

/// What a server shows of its mounts: their names in order, its throughput and its calls as the
/// sums of theirs, and its times as the means of theirs, each mount counted by its calls per
/// second. The round trip time takes nothing but round trip times and calls, and the execution
/// time nothing but execution times and calls.
pub proof fn law_server_figures(agg: ServerAgg, addr: Option<IpAddr>, group: Seq<&MountView>)
    requires
        servers::is_aggregate(agg, addr, group),
    ensures
        agg.addr == addr,
        agg.mounts@.len() == group.len(),
        forall|i: int| 0 <= i < group.len() ==> #[trigger] agg.mounts@[i]@ == group[i].counters.mountpoint@,
        agg.read_bps == summed(minus_zero(), Seq::new(group.len(), |i: int| group[i].derived.read_bps)),
        agg.write_bps == summed(minus_zero(), Seq::new(group.len(), |i: int| group[i].derived.write_bps)),
        agg.ops_per_sec == summed(minus_zero(), Seq::new(group.len(), |i: int| group[i].derived.ops_per_sec)),
        agg.avg_rtt_ms == mean_time(
            Seq::new(group.len(), |i: int| (group[i].derived.avg_rtt_ms, group[i].derived.ops_per_sec)),
        ),
        agg.avg_exe_ms == mean_time(
            Seq::new(group.len(), |i: int| (group[i].derived.avg_exe_ms, group[i].derived.ops_per_sec)),
        ),
{
    assert(servers::negative_zero() == minus_zero());
    let reads = Seq::new(group.len(), |i: int| group[i].derived.read_bps);
    let writes = Seq::new(group.len(), |i: int| group[i].derived.write_bps);
    let calls = Seq::new(group.len(), |i: int| group[i].derived.ops_per_sec);
    let rtts = Seq::new(group.len(), |i: int| (group[i].derived.avg_rtt_ms, group[i].derived.ops_per_sec));
    let exes = Seq::new(group.len(), |i: int| (group[i].derived.avg_exe_ms, group[i].derived.ops_per_sec));
    assert(group.map_values(|m: &MountView| m.derived.read_bps) =~= reads);
    assert(group.map_values(|m: &MountView| m.derived.write_bps) =~= writes);
    assert(group.map_values(|m: &MountView| m.derived.ops_per_sec) =~= calls);
    assert(group.map_values(|m: &MountView| (m.derived.avg_rtt_ms, m.derived.ops_per_sec)) =~= rtts);
    assert(group.map_values(|m: &MountView| (m.derived.avg_exe_ms, m.derived.ops_per_sec)) =~= exes);
    lemma_summed(minus_zero(), reads);
    lemma_summed(minus_zero(), writes);
    lemma_summed(minus_zero(), calls);
    law_weighted_mean(rtts);
    law_weighted_mean(exes);
}

/// Where two servers have mounts with the same calls and with their two times exchanged, their
/// two times are exchanged, whatever their throughput.
pub proof fn law_times_alike(
    a: ServerAgg,
    b: ServerAgg,
    addr: Option<IpAddr>,
    other: Option<IpAddr>,
    group: Seq<&MountView>,
    swapped: Seq<&MountView>,
)
    requires
        servers::is_aggregate(a, addr, group),
        servers::is_aggregate(b, other, swapped),
        group.len() == swapped.len(),
        forall|i: int|
            0 <= i < group.len() ==> (#[trigger] swapped[i]).derived.avg_rtt_ms == group[i].derived.avg_exe_ms
                && swapped[i].derived.avg_exe_ms == group[i].derived.avg_rtt_ms && swapped[i].derived.ops_per_sec
                == group[i].derived.ops_per_sec,
    ensures
        b.avg_rtt_ms == a.avg_exe_ms,
        b.avg_exe_ms == a.avg_rtt_ms,
        b.ops_per_sec == a.ops_per_sec,
{
    let f = |m: &MountView| (m.derived.avg_rtt_ms, m.derived.ops_per_sec);
    let g = |m: &MountView| (m.derived.avg_exe_ms, m.derived.ops_per_sec);
    let h = |m: &MountView| m.derived.ops_per_sec;
    assert(swapped.map_values(f) =~= group.map_values(g));
    assert(swapped.map_values(g) =~= group.map_values(f));
    assert(swapped.map_values(h) =~= group.map_values(h));
}

/// A sum of a number that is not negative and one above zero is above zero.
proof fn lemma_sum_positive(a: Binary64, b: Binary64)
    requires
        a == binary64::zero() || binary64::less(binary64::zero(), a),
        binary64::less(binary64::zero(), b),
    ensures
        binary64::less(binary64::zero(), binary64::sum(a, b)),
{
    binary64::lemma_quanta_zero(0);
    if a.finite() && b.finite() {
        let v = (a.value() + b.value()) as nat;
        assert(v >= 1);
        binary64::law_nearest_exact(false, 1);
        binary64::law_nearest_increases(1, 1, v, 1);
        binary64::lemma_quanta_zero(binary64::sum(a, b).low());
    }
}

proof fn lemma_one_known(items: Seq<(Option<Binary64>, Binary64)>, i: int)
    requires
        forall|j: int|
            0 <= j < items.len() && (#[trigger] items[j]).0 is Some ==> binary64::less(binary64::zero(), items[j].1),
        0 <= i < items.len(),
        items[i].0 is Some,
    ensures
        binary64::less(binary64::zero(), servers::weighted(items).1),
    decreases items.len(),
{
    let front = items.drop_last();
    assert forall|j: int| 0 <= j < front.len() && (#[trigger] front[j]).0 is Some implies binary64::less(
        binary64::zero(),
        front[j].1,
    ) by {
        assert(front[j] == items[j]);
    }
    lemma_zero_or_more(front);
    if i < front.len() {
        assert(front[i] == items[i]);
        lemma_one_known(front, i);
    }
    if items.last().0 is Some {
        assert(items[items.len() - 1].0 is Some);
        lemma_sum_positive(servers::weighted(front).1, items.last().1);
    }
}

proof fn lemma_zero_or_more(items: Seq<(Option<Binary64>, Binary64)>)
    requires
        forall|j: int|
            0 <= j < items.len() && (#[trigger] items[j]).0 is Some ==> binary64::less(binary64::zero(), items[j].1),
    ensures
        servers::weighted(items).1 == binary64::zero() || binary64::less(
            binary64::zero(),
            servers::weighted(items).1,
        ),
    decreases items.len(),
{
    if items.len() > 0 {
        let front = items.drop_last();
        assert forall|j: int| 0 <= j < front.len() && (#[trigger] front[j]).0 is Some implies binary64::less(
            binary64::zero(),
            front[j].1,
        ) by {
            assert(front[j] == items[j]);
        }
        lemma_zero_or_more(front);
        if items.last().0 is Some {
            assert(items[items.len() - 1].0 is Some);
            lemma_sum_positive(servers::weighted(front).1, items.last().1);
        }
    }
}

/// Where every mount has calls, a server has a time of a kind if and only if one of its mounts
/// has. Neither the throughput nor the other time takes part.
pub proof fn law_times_known(agg: ServerAgg, addr: Option<IpAddr>, group: Seq<&MountView>, i: int)
    requires
        servers::is_aggregate(agg, addr, group),
        forall|j: int|
            0 <= j < group.len() ==> binary64::less(
                binary64::zero(),
                (#[trigger] group[j]).derived.ops_per_sec,
            ),
    ensures
        0 <= i < group.len() && group[i].derived.avg_rtt_ms is Some ==> agg.avg_rtt_ms is Some,
        0 <= i < group.len() && group[i].derived.avg_exe_ms is Some ==> agg.avg_exe_ms is Some,
        (forall|j: int| 0 <= j < group.len() ==> (#[trigger] group[j]).derived.avg_rtt_ms is None)
            ==> agg.avg_rtt_ms is None,
        (forall|j: int| 0 <= j < group.len() ==> (#[trigger] group[j]).derived.avg_exe_ms is None)
            ==> agg.avg_exe_ms is None,
{
    let rtts = group.map_values(|m: &MountView| (m.derived.avg_rtt_ms, m.derived.ops_per_sec));
    let exes = group.map_values(|m: &MountView| (m.derived.avg_exe_ms, m.derived.ops_per_sec));
    assert forall|j: int| 0 <= j < rtts.len() && (#[trigger] rtts[j]).0 is Some implies binary64::less(
        binary64::zero(),
        rtts[j].1,
    ) by {
        assert(rtts[j].1 == group[j].derived.ops_per_sec);
    }
    assert forall|j: int| 0 <= j < exes.len() && (#[trigger] exes[j]).0 is Some implies binary64::less(
        binary64::zero(),
        exes[j].1,
    ) by {
        assert(exes[j].1 == group[j].derived.ops_per_sec);
    }
    if 0 <= i < group.len() {
        if group[i].derived.avg_rtt_ms is Some {
            lemma_one_known(rtts, i);
        }
        if group[i].derived.avg_exe_ms is Some {
            lemma_one_known(exes, i);
        }
    }
    if forall|j: int| 0 <= j < group.len() ==> (#[trigger] group[j]).derived.avg_rtt_ms is None {
        lemma_none_known(rtts);
    }
    if forall|j: int| 0 <= j < group.len() ==> (#[trigger] group[j]).derived.avg_exe_ms is None {
        lemma_none_known(exes);
    }
}

proof fn lemma_none_known(items: Seq<(Option<Binary64>, Binary64)>)
    requires
        forall|j: int| 0 <= j < items.len() ==> (#[trigger] items[j]).0 is None,
    ensures
        servers::weighted(items) == (binary64::zero(), binary64::zero()),
    decreases items.len(),
{
    if items.len() > 0 {
        assert(items[items.len() - 1].0 is None);
        lemma_none_known(items.drop_last());
    }
}

/// A server has as many connections as its mounts together, the largest number that any of them
/// asks for, and the host of its first mount.
pub proof fn law_server_connections(agg: ServerAgg, addr: Option<IpAddr>, group: Seq<&MountView>)
    requires
        servers::is_aggregate(agg, addr, group),
    ensures
        agg.observed_conns == Seq::new(group.len(), |i: int| group[i].derived.observed_conns as nat).fold_left(
            0nat,
            |a: nat, n: nat| a + n,
        ),
        match agg.nconnect {
            Some(n) => (exists|i: int| 0 <= i < group.len() && (#[trigger] group[i]).counters.nconnect == Some(n))
                && forall|i: int|
                0 <= i < group.len() && (#[trigger] group[i]).counters.nconnect is Some
                    ==> group[i].counters.nconnect->0 <= n,
            None => forall|i: int| 0 <= i < group.len() ==> (#[trigger] group[i]).counters.nconnect is None,
        },
        agg.hostname@ == if group.len() > 0 && rates::host(group[0].counters.device@) is Some {
            rates::host(group[0].counters.device@)->0
        } else {
            "unknown"@
        },
{
    lemma_connections(group);
}

proof fn lemma_connections(group: Seq<&MountView>)
    ensures
        servers::total_conns(group) == Seq::new(group.len(), |i: int| group[i].derived.observed_conns as nat).fold_left(
            0nat,
            |a: nat, n: nat| a + n,
        ),
        match servers::most_connects(group) {
            Some(n) => (exists|i: int| 0 <= i < group.len() && (#[trigger] group[i]).counters.nconnect == Some(n))
                && forall|i: int|
                0 <= i < group.len() && (#[trigger] group[i]).counters.nconnect is Some
                    ==> group[i].counters.nconnect->0 <= n,
            None => forall|i: int| 0 <= i < group.len() ==> (#[trigger] group[i]).counters.nconnect is None,
        },
    decreases group.len(),
{
    if group.len() > 0 {
        let front = group.drop_last();
        lemma_connections(front);
        let all = Seq::new(group.len(), |i: int| group[i].derived.observed_conns as nat);
        let before = Seq::new(front.len(), |i: int| front[i].derived.observed_conns as nat);
        assert(all.drop_last() =~= before);
        assert forall|i: int| 0 <= i < group.len() - 1 implies front[i] == #[trigger] group[i] by {}
        assert(group[group.len() - 1] == group.last());
        if let Some(n) = servers::most_connects(front) {
            let i = choose|i: int| 0 <= i < front.len() && (#[trigger] front[i]).counters.nconnect == Some(n);
            assert(group[i].counters.nconnect == Some(n));
        }
    }
}

/// The rates by kind of call of all mounts, one mount after the other.
pub open spec fn rows_in(group: Seq<&MountView>) -> Seq<OpDerived>
    decreases group.len(),
{
    if group.len() == 0 {
        Seq::empty()
    } else {
        rows_in(group.drop_last()) + group.last().derived.per_op@
    }
}

/// The rates of one kind of call.
pub open spec fn rows_of(rows: Seq<OpDerived>, name: Seq<char>) -> Seq<OpDerived> {
    rows.filter(|o: OpDerived| o.op@ == name)
}

/// The kinds of calls, in the order in which they first come.
pub open spec fn kinds(rows: Seq<OpDerived>) -> Seq<Seq<char>>
    decreases rows.len(),
{
    if rows.len() == 0 {
        Seq::empty()
    } else {
        let before = kinds(rows.drop_last());
        if before.contains(rows.last().op@) {
            before
        } else {
            before.push(rows.last().op@)
        }
    }
}

/// The calls per second of some rows.
pub open spec fn calls_of(rows: Seq<OpDerived>) -> Binary64 {
    summed(binary64::zero(), rows.map_values(|o: OpDerived| o.ops_per_sec))
}

/// The bytes per second of some rows.
pub open spec fn bytes_of(rows: Seq<OpDerived>) -> Binary64 {
    summed(binary64::zero(), rows.map_values(|o: OpDerived| o.bytes_per_sec))
}

/// The round trip times of some rows, with their calls per second.
pub open spec fn rtts_of(rows: Seq<OpDerived>) -> Seq<(Option<Binary64>, Binary64)> {
    rows.map_values(|o: OpDerived| (o.avg_rtt_ms, o.ops_per_sec))
}

/// The execution times of some rows, with their calls per second.
pub open spec fn exes_of(rows: Seq<OpDerived>) -> Seq<(Option<Binary64>, Binary64)> {
    rows.map_values(|o: OpDerived| (o.avg_exe_ms, o.ops_per_sec))
}

/// The calls per second of all kinds.
pub open spec fn all_calls_of(rows: Seq<OpDerived>) -> Binary64 {
    summed(minus_zero(), kinds(rows).map_values(|name: Seq<char>| calls_of(rows_of(rows, name))))
}

/// The sums over some rows of one kind.
spec fn accum_of(rows: Seq<OpDerived>) -> OpAccum {
    OpAccum {
        ops_sum: calls_of(rows),
        bytes_sum: bytes_of(rows),
        rtt_weighted_sum: servers::weighted(rtts_of(rows)).0,
        rtt_weight: servers::weighted(rtts_of(rows)).1,
        exe_weighted_sum: servers::weighted(exes_of(rows)).0,
        exe_weight: servers::weighted(exes_of(rows)).1,
    }
}

proof fn lemma_accum_push(rows: Seq<OpDerived>, op: OpDerived)
    ensures
        accum_of(rows.push(op)) == servers::accumulated(accum_of(rows), op),
        accum_of(Seq::empty()) == servers::no_accum(),
{
    let all = rows.push(op);
    assert(all.map_values(|o: OpDerived| o.ops_per_sec).drop_last() =~= rows.map_values(|o: OpDerived| o.ops_per_sec));
    assert(all.map_values(|o: OpDerived| o.bytes_per_sec).drop_last() =~= rows.map_values(
        |o: OpDerived| o.bytes_per_sec,
    ));
    assert(rtts_of(all).drop_last() =~= rtts_of(rows));
    assert(exes_of(all).drop_last() =~= exes_of(rows));
}

/// Whether the sums are those of some rows: one entry for each kind, in the order of the kinds.
spec fn sums_up(accums: Seq<(String, OpAccum)>, rows: Seq<OpDerived>) -> bool {
    &&& accums.len() == kinds(rows).len()
    &&& forall|i: int|
        0 <= i < accums.len() ==> (#[trigger] accums[i]).0@ == kinds(rows)[i] && accums[i].1 == accum_of(
            rows_of(rows, kinds(rows)[i]),
        )
}

proof fn lemma_kinds_differ(rows: Seq<OpDerived>)
    ensures
        kinds(rows).no_duplicates(),
        forall|i: int| 0 <= i < rows.len() ==> kinds(rows).contains((#[trigger] rows[i]).op@),
        forall|k: int| 0 <= k < kinds(rows).len() ==> rows_of(rows, #[trigger] kinds(rows)[k]).len() > 0,
    decreases rows.len(),
{
    reveal(Seq::filter);
    if rows.len() > 0 {
        let front = rows.drop_last();
        lemma_kinds_differ(front);
        let before = kinds(front);
        let now = kinds(rows);
        let name = rows.last().op@;
        assert forall|i: int| 0 <= i < rows.len() implies now.contains((#[trigger] rows[i]).op@) by {
            if i < front.len() {
                assert(front[i] == rows[i]);
                let k = choose|k: int| 0 <= k < before.len() && before[k] == front[i].op@;
                assert(now[k] == rows[i].op@);
            } else if !before.contains(name) {
                assert(now[before.len() as int] == name);
            }
        }
        assert forall|k: int| 0 <= k < now.len() implies rows_of(rows, #[trigger] now[k]).len() > 0 by {
            if k < before.len() {
                assert(now[k] == before[k]);
                assert(rows_of(front, before[k]).len() > 0);
            }
        }
    }
}

proof fn lemma_absorbed(accums: Seq<(String, OpAccum)>, rows: Seq<OpDerived>, op: OpDerived)
    requires
        sums_up(accums, rows),
    ensures
        sums_up(servers::absorbed(accums, op), rows.push(op)),
{
    reveal(Seq::filter);
    let all = rows.push(op);
    assert(all.drop_last() =~= rows);
    lemma_kinds_differ(rows);
    let before = kinds(rows);
    let after = servers::absorbed(accums, op);
    let p = |e: (String, OpAccum)| e.0.id() == op.op.id();
    search::lemma_first(accums, p);
    assert(rows_of(all, op.op@) == rows_of(rows, op.op@).push(op));
    lemma_accum_push(rows_of(rows, op.op@), op);
    if before.contains(op.op@) {
        let k = choose|k: int| 0 <= k < before.len() && before[k] == op.op@;
        assert(accums[k].0@ == op.op@);
        assert(p(accums[k]));
        let place = table::place(accums, op.op@)->0;
        assert(accums[place].0@ == before[place]);
        assert(place == k);
        assert forall|i: int| 0 <= i < after.len() implies (#[trigger] after[i]).0@ == before[i] && after[i].1
            == accum_of(rows_of(all, before[i])) by {
            assert(accums[i].0@ == before[i]);
            if i != k {
                assert(before[i] != before[k]);
                assert(rows_of(all, before[i]) == rows_of(rows, before[i]));
            }
        }
    } else {
        assert forall|j: int| 0 <= j < accums.len() implies !p(#[trigger] accums[j]) by {
            assert(accums[j].0@ == before[j]);
        }
        assert(rows_of(rows, op.op@) =~= Seq::empty()) by {
            lemma_absent(rows, op.op@);
        }
        let now = kinds(all);
        assert(now =~= before.push(op.op@));
        assert forall|i: int| 0 <= i < after.len() implies (#[trigger] after[i]).0@ == now[i] && after[i].1
            == accum_of(rows_of(all, now[i])) by {
            if i < before.len() {
                assert(accums[i].0@ == before[i]);
                assert(before[i] != op.op@);
                assert(rows_of(all, before[i]) == rows_of(rows, before[i]));
            }
        }
    }
}

proof fn lemma_absent(rows: Seq<OpDerived>, name: Seq<char>)
    requires
        !kinds(rows).contains(name),
    ensures
        rows_of(rows, name).len() == 0,
    decreases rows.len(),
{
    reveal(Seq::filter);
    if rows.len() > 0 {
        let front = rows.drop_last();
        let before = kinds(front);
        if before.contains(name) {
            let k = choose|k: int| 0 <= k < before.len() && before[k] == name;
            assert(kinds(rows)[k] == name);
        }
        if rows.last().op@ == name {
            assert(kinds(rows)[kinds(rows).len() - 1] == name);
        }
        lemma_absent(front, name);
    }
}

proof fn lemma_absorbed_all(accums: Seq<(String, OpAccum)>, rows: Seq<OpDerived>, ops: Seq<OpDerived>)
    requires
        sums_up(accums, rows),
    ensures
        sums_up(servers::absorbed_all(accums, ops), rows + ops),
    decreases ops.len(),
{
    if ops.len() > 0 {
        let front = ops.drop_last();
        lemma_absorbed_all(accums, rows, front);
        lemma_absorbed(servers::absorbed_all(accums, front), rows + front, ops.last());
        assert((rows + front).push(ops.last()) =~= rows + ops);
    } else {
        assert(rows + ops =~= rows);
    }
}

proof fn lemma_group(group: Seq<&MountView>)
    ensures
        sums_up(servers::group_accums(group), rows_in(group)),
    decreases group.len(),
{
    if group.len() > 0 {
        let front = group.drop_last();
        lemma_group(front);
        lemma_absorbed_all(servers::group_accums(front), rows_in(front), group.last().derived.per_op@);
    }
}

/// Whether a row of a server shows a kind of call of its mounts: calls and bytes added up, the
/// times as means by calls, and the calls as a share of those of all kinds in percent.
pub open spec fn is_merged(row: OpDerived, rows: Seq<OpDerived>) -> bool {
    let own = rows_of(rows, row.op@);
    let all = all_calls_of(rows);
    &&& own.len() > 0
    &&& row.ops_per_sec == calls_of(own)
    &&& row.bytes_per_sec == bytes_of(own)
    &&& row.avg_rtt_ms == mean_time(rtts_of(own))
    &&& row.avg_exe_ms == mean_time(exes_of(own))
    &&& row.share_pct == if binary64::less(binary64::zero(), all) {
        binary64::product(binary64::quotient(calls_of(own), all), binary64::whole(100))
    } else {
        binary64::zero()
    }
}

proof fn lemma_merged(accums: Seq<(String, OpAccum)>, rows: Seq<OpDerived>, i: int)
    requires
        sums_up(accums, rows),
        0 <= i < accums.len(),
    ensures
        servers::merged_all(accums).len() == kinds(rows).len(),
        servers::merged_all(accums)[i].op@ == kinds(rows)[i],
        is_merged(servers::merged_all(accums)[i], rows),
{
    lemma_kinds_differ(rows);
    let calls = kinds(rows).map_values(|name: Seq<char>| calls_of(rows_of(rows, name)));
    assert(accums.map_values(|e: (String, OpAccum)| e.1.ops_sum) =~= calls);
    lemma_summed(minus_zero(), calls);
    assert(servers::negative_zero() == minus_zero());
    assert(servers::accum_total(accums) == all_calls_of(rows));
    let own = rows_of(rows, kinds(rows)[i]);
    assert(accums[i].1 == accum_of(own));
    law_weighted_mean(rtts_of(own));
    law_weighted_mean(exes_of(own));
    assert(servers::merged_all(accums)[i] == servers::merged(
        accums[i].0,
        accums[i].1,
        servers::accum_total(accums),
    ));
}

/// A server has one row for each kind of call of its mounts, and each row shows its kind.
pub proof fn law_server_rows(agg: ServerAgg, addr: Option<IpAddr>, group: Seq<&MountView>, i: int, k: int, l: int)
    requires
        servers::is_aggregate(agg, addr, group),
    ensures
        0 <= k < agg.per_op@.len() ==> is_merged(agg.per_op@[k], rows_in(group)),
        0 <= k < l < agg.per_op@.len() ==> agg.per_op@[k].op@ != agg.per_op@[l].op@,
        0 <= i < rows_in(group).len() ==> exists|r: int|
            0 <= r < agg.per_op@.len() && #[trigger] agg.per_op@[r].op@ == rows_in(group)[i].op@,
{
    let rows = rows_in(group);
    let accums = servers::group_accums(group);
    let unsorted = servers::merged_all(accums);
    lemma_group(group);
    lemma_kinds_differ(rows);
    let later = |a: OpDerived, b: OpDerived| rank::op_rank(a, b) > 0;
    let perm = choose|perm: Seq<int>|
        #[trigger] order::arranges(unsorted, agg.per_op@, perm) && (order::orders(unsorted, later)
            ==> order::in_order(agg.per_op@, perm, later));
    if 0 <= k < agg.per_op@.len() {
        assert(agg.per_op@[k] == unsorted[perm[k]]);
        lemma_merged(accums, rows, perm[k]);
        if k < l < agg.per_op@.len() {
            assert(agg.per_op@[l] == unsorted[perm[l]]);
            lemma_merged(accums, rows, perm[l]);
            assert(perm[k] != perm[l]);
        }
    }
    if 0 <= i < rows.len() {
        assert(kinds(rows).contains(rows[i].op@));
        let j = choose|j: int| 0 <= j < kinds(rows).len() && kinds(rows)[j] == rows[i].op@;
        order::lemma_covers(perm, unsorted.len(), j);
        let r = choose|r: int| 0 <= r < unsorted.len() && #[trigger] perm[r] == j;
        assert(agg.per_op@[r] == unsorted[perm[r]]);
        lemma_merged(accums, rows, j);
        assert(agg.per_op@[r].op@ == rows[i].op@);
    }
}

/// The mounts of a server are those of its address, in their order.
pub proof fn law_mounts_of_server(mounts: Seq<MountView>, addr: Option<IpAddr>)
    ensures
        servers::mounts_of(mounts, addr) == mounts.filter(|m: MountView| m.counters.addr == addr).map_values(
            |m: MountView| &m,
        ),
    decreases mounts.len(),
{
    reveal(Seq::filter);
    let p = |m: MountView| m.counters.addr == addr;
    let f = |m: MountView| &m;
    if mounts.len() > 0 {
        let front = mounts.drop_last();
        law_mounts_of_server(front, addr);
        if p(mounts.last()) {
            assert(mounts.filter(p) == front.filter(p).push(mounts.last()));
            assert(front.filter(p).push(mounts.last()).map_values(f) =~= front.filter(p).map_values(f).push(
                f(mounts.last()),
            ));
        } else {
            assert(mounts.filter(p) == front.filter(p));
        }
    } else {
        assert(mounts.filter(p).map_values(f) =~= servers::mounts_of(mounts, addr));
    }
}

/// Every server is made of all mounts of its address, no two servers have one address, and every
/// mount belongs to a server.
pub proof fn law_server_list(aggs: Seq<ServerAgg>, mounts: Seq<MountView>, sort: SortKey, i: int, j: int, k: int)
    requires
        servers::are_sorted_aggregates(aggs, mounts, sort),
    ensures
        0 <= i < aggs.len() ==> servers::is_aggregate(
            aggs[i],
            aggs[i].addr,
            servers::mounts_of(mounts, aggs[i].addr),
        ),
        0 <= i < j < aggs.len() ==> aggs[i].addr != aggs[j].addr,
        0 <= k < mounts.len() ==> exists|s: int|
            0 <= s < aggs.len() && (#[trigger] aggs[s]).addr == mounts[k].counters.addr,
{
    let later = |a: ServerAgg, b: ServerAgg| rank::server_rank(a, b, sort) > 0;
    let unsorted = choose|unsorted: Seq<ServerAgg>|
        #[trigger] servers::are_aggregates(unsorted, mounts) && order::sorted(unsorted, aggs, later);
    let perm = choose|perm: Seq<int>|
        #[trigger] order::arranges(unsorted, aggs, perm) && (order::orders(unsorted, later) ==> order::in_order(
            aggs,
            perm,
            later,
        ));
    let addrs = servers::addresses(mounts);
    servers::law_addresses(mounts);
    if 0 <= i < aggs.len() {
        let a = perm[i];
        assert(aggs[i] == unsorted[perm[i]]);
        assert(servers::is_aggregate(unsorted[a], addrs[a], servers::mounts_of(mounts, addrs[a])));
        assert(unsorted[a].addr == addrs[a]);
        if i < j < aggs.len() {
            let b = perm[j];
            assert(aggs[j] == unsorted[perm[j]]);
            assert(servers::is_aggregate(unsorted[b], addrs[b], servers::mounts_of(mounts, addrs[b])));
            assert(unsorted[b].addr == addrs[b]);
            assert(perm[i] != perm[j]);
        }
    }
    if 0 <= k < mounts.len() {
        let own = mounts[k].counters.addr;
        assert(addrs.contains(own));
        let a = choose|a: int| 0 <= a < addrs.len() && addrs[a] == own;
        order::lemma_covers(perm, unsorted.len(), a);
        let s = choose|s: int| 0 <= s < unsorted.len() && #[trigger] perm[s] == a;
        assert(aggs[s] == unsorted[perm[s]]);
        assert(servers::is_aggregate(unsorted[a], addrs[a], servers::mounts_of(mounts, addrs[a])));
        assert(aggs[s].addr == own);
    }
}

/// The servers come in the order in which their addresses first come among the mounts.
pub proof fn law_addresses_in_order(mounts: Seq<MountView>, m: MountView)
    ensures
        servers::addresses(Seq::empty()).len() == 0,
        (exists|i: int| 0 <= i < mounts.len() && (#[trigger] mounts[i]).counters.addr == m.counters.addr)
            ==> servers::addresses(mounts.push(m)) == servers::addresses(mounts),
        (forall|i: int| 0 <= i < mounts.len() ==> (#[trigger] mounts[i]).counters.addr != m.counters.addr)
            ==> servers::addresses(mounts.push(m)) == servers::addresses(mounts).push(m.counters.addr),
{
    let addr = m.counters.addr;
    assert(mounts.push(m).drop_last() =~= mounts);
    servers::law_addresses(mounts);
    if forall|i: int| 0 <= i < mounts.len() ==> (#[trigger] mounts[i]).counters.addr != addr {
        servers::law_groups_partition(mounts, addr);
        if servers::addresses(mounts).contains(addr) {
            let group = servers::mounts_of(mounts, addr);
            assert(group[0].counters.addr == addr && mounts.contains(*group[0]));
            let k = choose|k: int| 0 <= k < mounts.len() && mounts[k] == *group[0];
            assert(mounts[k].counters.addr == addr);
        }
    }
}

} // verus!
