//! What the rates of a mount mean, in terms of the counters of its two samples.

use crate::binary64;
use crate::binary64::Binary64;
use crate::exact;
use crate::order;
use crate::rank;
use crate::rates;
use crate::rates::Ops;
use crate::table;
use crate::types::{IpAddr, MountDerived, OpCounters, OpDerived};
use vstd::arithmetic::power2::*;
use vstd::prelude::*;

verus! {

/// How far a counter is above an earlier value of it.
pub open spec fn gain(before: u64, now: u64) -> nat {
    if now >= before {
        (now - before) as nat
    } else {
        0
    }
}

/// How far a time is above an earlier value of it.
pub open spec fn time_gain(before: Binary64, now: Binary64) -> Binary64 {
    if binary64::less(binary64::zero(), binary64::difference(now, before)) {
        binary64::difference(now, before)
    } else {
        binary64::zero()
    }
}

/// Whether an earlier sample has counters of a name.
pub open spec fn counted(prev: Option<Ops>, name: Seq<char>) -> bool {
    match prev {
        Some(p) => exists|j: int| is_entry(p, name, j),
        None => false,
    }
}

/// Whether the entry at index `j` has a name.
pub open spec fn is_entry(p: Ops, name: Seq<char>, j: int) -> bool {
    0 <= j < p.len() && p[j].0@ == name
}

/// The earlier counters of a name.
pub open spec fn before(prev: Option<Ops>, name: Seq<char>) -> OpCounters {
    let p = prev->0;
    p[choose|j: int| is_entry(p, name, j)].1
}

/// The calls of a kind since the earlier sample.
pub open spec fn calls_since(prev: Option<Ops>, e: (String, OpCounters)) -> nat {
    if counted(prev, e.0@) {
        gain(before(prev, e.0@).calls, e.1.calls)
    } else {
        0
    }
}

/// The bytes that a kind of call has sent since the earlier sample.
pub open spec fn sent_since(prev: Option<Ops>, e: (String, OpCounters)) -> nat {
    if counted(prev, e.0@) {
        gain(before(prev, e.0@).bytes_sent, e.1.bytes_sent)
    } else {
        0
    }
}

/// The bytes that a kind of call has received since the earlier sample.
pub open spec fn received_since(prev: Option<Ops>, e: (String, OpCounters)) -> nat {
    if counted(prev, e.0@) {
        gain(before(prev, e.0@).bytes_recv, e.1.bytes_recv)
    } else {
        0
    }
}

/// The round trip time that a kind of call has taken since the earlier sample.
pub open spec fn rtt_since(prev: Option<Ops>, e: (String, OpCounters)) -> Binary64 {
    if counted(prev, e.0@) {
        time_gain(before(prev, e.0@).rtt_ms_total, e.1.rtt_ms_total)
    } else {
        binary64::zero()
    }
}

/// The execution time that a kind of call has taken since the earlier sample.
pub open spec fn exe_since(prev: Option<Ops>, e: (String, OpCounters)) -> Binary64 {
    if counted(prev, e.0@) {
        time_gain(before(prev, e.0@).exe_ms_total, e.1.exe_ms_total)
    } else {
        binary64::zero()
    }
}

/// Whether an earlier sample names each kind of call once.
pub open spec fn one_each(prev: Option<Ops>) -> bool {
    prev matches Some(p) ==> table::distinct(p)
}

/// The growth of the counters of one kind of call.
proof fn lemma_delta(prev: Option<Ops>, e: (String, OpCounters))
    requires
        one_each(prev),
    ensures
        ({
            let d = rates::op_delta(prev, e);
            &&& d.calls == calls_since(prev, e)
            &&& d.sent == sent_since(prev, e)
            &&& d.recv == received_since(prev, e)
            &&& d.rtt == rtt_since(prev, e)
            &&& d.exe == exe_since(prev, e)
        }),
{
    if let Some(p) = prev {
        if counted(prev, e.0@) {
            let j = choose|j: int| is_entry(p, e.0@, j);
            table::law_entries_are_found(p, j, e.0@);
        } else {
            assert forall|j: int| 0 <= j < p.len() implies (#[trigger] p[j]).0@ != e.0@ by {
                assert(!is_entry(p, e.0@, j));
            }
            table::law_entries_are_found(p, 0, e.0@);
        }
    }
}

/// Nothing in any time is nothing.
proof fn lemma_zero_rate(dt: Binary64)
    requires
        binary64::less(binary64::zero(), dt),
    ensures
        binary64::quotient(binary64::whole(0), dt) == binary64::zero(),
{
    exact::law_whole_exact(0);
    binary64::lemma_quanta_zero(dt.low());
    binary64::lemma_quanta_zero(0);
    if dt.finite() {
        binary64::lemma_nearest_zero(false, dt.magnitude());
        assert(0 * pow2(1074) == 0) by (nonlinear_arith);
    }
}

/// The throughput of a mount is that of the entries named READ and WRITE.
proof fn lemma_throughput(prev: Option<Ops>, ops: Ops, dt: Binary64)
    requires
        one_each(prev),
        table::distinct(ops),
        binary64::less(binary64::zero(), dt),
    ensures
        ({
            let t = rates::totals(prev, ops, dt);
            &&& forall|i: int|
                0 <= i < ops.len() && (#[trigger] ops[i]).0@ == "READ"@ ==> t.read_bps
                    == binary64::quotient(binary64::whole(received_since(prev, ops[i])), dt)
            &&& forall|i: int|
                0 <= i < ops.len() && (#[trigger] ops[i]).0@ == "WRITE"@ ==> t.write_bps
                    == binary64::quotient(binary64::whole(sent_since(prev, ops[i])), dt)
            &&& (forall|i: int| 0 <= i < ops.len() ==> (#[trigger] ops[i]).0@ != "READ"@)
                ==> t.read_bps == binary64::zero()
            &&& (forall|i: int| 0 <= i < ops.len() ==> (#[trigger] ops[i]).0@ != "WRITE"@)
                ==> t.write_bps == binary64::zero()
        }),
    decreases ops.len(),
{
    if ops.len() > 0 {
        let front = ops.drop_last();
        let t = rates::totals(prev, ops, dt);
        let f = rates::totals(prev, front, dt);
        assert(table::distinct(front)) by {
            assert forall|i: int, j: int| 0 <= i < j < front.len() implies (#[trigger] front[i]).0@
                != (#[trigger] front[j]).0@ by {
                assert(ops[i].0@ != ops[j].0@);
            }
        }
        lemma_throughput(prev, front, dt);
        lemma_delta(prev, ops.last());
        let last = ops.len() - 1;
        assert forall|i: int| 0 <= i < ops.len() && (#[trigger] ops[i]).0@ == "READ"@ implies t.read_bps
            == binary64::quotient(binary64::whole(received_since(prev, ops[i])), dt) by {
            if i < last {
                assert(front[i] == ops[i]);
                assert(ops[last].0@ != ops[i].0@);
            }
        }
        assert forall|i: int| 0 <= i < ops.len() && (#[trigger] ops[i]).0@ == "WRITE"@ implies t.write_bps
            == binary64::quotient(binary64::whole(sent_since(prev, ops[i])), dt) by {
            if i < last {
                assert(front[i] == ops[i]);
                assert(ops[last].0@ != ops[i].0@);
            }
        }
        if forall|i: int| 0 <= i < ops.len() ==> (#[trigger] ops[i]).0@ != "READ"@ {
            assert forall|i: int| 0 <= i < front.len() implies (#[trigger] front[i]).0@ != "READ"@ by {
                assert(front[i] == ops[i]);
            }
            assert(ops[last].0@ != "READ"@);
        }
        if forall|i: int| 0 <= i < ops.len() ==> (#[trigger] ops[i]).0@ != "WRITE"@ {
            assert forall|i: int| 0 <= i < front.len() implies (#[trigger] front[i]).0@ != "WRITE"@ by {
                assert(front[i] == ops[i]);
            }
            assert(ops[last].0@ != "WRITE"@);
        }
    }
}

/// What a mount reads is what its entry named READ has received since the earlier sample, and
/// what it writes is what its entry named WRITE has sent, each by the time between the samples.
/// Without such an entry, in either sample, it is zero. No other entry matters.
pub proof fn law_throughput(
    d: MountDerived,
    prev: Option<Ops>,
    ops: Ops,
    dt: Binary64,
    conns: u64,
    by_ip: Seq<(IpAddr, u64)>,
    i: int,
)
    requires
        rates::is_derived(d, prev, ops, dt, conns, by_ip),
        binary64::less(binary64::zero(), dt),
        one_each(prev),
        table::distinct(ops),
    ensures
        0 <= i < ops.len() && ops[i].0@ == "READ"@ ==> d.read_bps == if counted(prev, "READ"@) {
            binary64::quotient(
                binary64::whole(gain(before(prev, "READ"@).bytes_recv, ops[i].1.bytes_recv)),
                dt,
            )
        } else {
            binary64::zero()
        },
        0 <= i < ops.len() && ops[i].0@ == "WRITE"@ ==> d.write_bps == if counted(prev, "WRITE"@) {
            binary64::quotient(
                binary64::whole(gain(before(prev, "WRITE"@).bytes_sent, ops[i].1.bytes_sent)),
                dt,
            )
        } else {
            binary64::zero()
        },
        (forall|k: int| 0 <= k < ops.len() ==> (#[trigger] ops[k]).0@ != "READ"@) ==> d.read_bps
            == binary64::zero(),
        (forall|k: int| 0 <= k < ops.len() ==> (#[trigger] ops[k]).0@ != "WRITE"@) ==> d.write_bps
            == binary64::zero(),
{
    lemma_throughput(prev, ops, dt);
    lemma_zero_rate(dt);
}

/// The earlier counters of a name are those of its entry.
pub proof fn law_earlier_counters(prev: Option<Ops>, p: Ops, j: int)
    requires
        prev == Some(p),
        table::distinct(p),
        0 <= j < p.len(),
    ensures
        counted(prev, p[j].0@),
        before(prev, p[j].0@) == p[j].1,
{
    let name = p[j].0@;
    let q = prev->0;
    assert(q =~= p);
    assert(is_entry(q, name, j));
    let k = choose|k: int| is_entry(q, name, k);
    if k < j {
        assert(p[k].0@ != p[j].0@);
    } else if j < k {
        assert(p[j].0@ != p[k].0@);
    }
}

/// The sum of some numbers, one after the other.
pub open spec fn added<T>(xs: Seq<T>, f: spec_fn(T) -> Binary64) -> Binary64 {
    xs.fold_left(binary64::zero(), |a: Binary64, x: T| binary64::sum(a, f(x)))
}

/// The kinds of calls that were made.
pub open spec fn made(prev: Option<Ops>, ops: Ops) -> Ops {
    ops.filter(|e: (String, OpCounters)| calls_since(prev, e) > 0)
}

proof fn lemma_sums(prev: Option<Ops>, ops: Ops, dt: Binary64)
    requires
        one_each(prev),
    ensures
        ({
            let t = rates::totals(prev, ops, dt);
            &&& t.ops_per_sec == added(
                ops,
                |e: (String, OpCounters)|
                    binary64::quotient(binary64::whole(calls_since(prev, e)), dt),
            )
            &&& t.rtt_sum == added(
                made(prev, ops),
                |e: (String, OpCounters)|
                    binary64::quotient(rtt_since(prev, e), binary64::whole(calls_since(prev, e))),
            )
            &&& t.exe_sum == added(
                made(prev, ops),
                |e: (String, OpCounters)|
                    binary64::quotient(exe_since(prev, e), binary64::whole(calls_since(prev, e))),
            )
            &&& t.kinds == made(prev, ops).len()
            &&& rates::total_calls(prev, ops) == ops.fold_left(
                0nat,
                |a: nat, e: (String, OpCounters)| a + calls_since(prev, e),
            )
        }),
    decreases ops.len(),
{
    reveal(Seq::filter);
    if ops.len() > 0 {
        let front = ops.drop_last();
        lemma_sums(prev, front, dt);
        lemma_delta(prev, ops.last());
        if calls_since(prev, ops.last()) > 0 {
            assert(made(prev, ops) == made(prev, front).push(ops.last()));
            assert(made(prev, ops).drop_last() =~= made(prev, front));
            assert(made(prev, ops).last() == ops.last());
        }
    }
}

/// The calls per second of a mount are those of all its kinds added up. Its mean times are the
/// means, over the kinds that were called, of the time per call, and there are none where
/// nothing was called.
pub proof fn law_mount_means(
    d: MountDerived,
    prev: Option<Ops>,
    ops: Ops,
    dt: Binary64,
    conns: u64,
    by_ip: Seq<(IpAddr, u64)>,
)
    requires
        rates::is_derived(d, prev, ops, dt, conns, by_ip),
        binary64::less(binary64::zero(), dt),
        one_each(prev),
    ensures
        d.ops_per_sec == added(
            ops,
            |e: (String, OpCounters)| binary64::quotient(binary64::whole(calls_since(prev, e)), dt),
        ),
        made(prev, ops).len() == 0 ==> d.avg_rtt_ms is None && d.avg_exe_ms is None,
        made(prev, ops).len() > 0 ==> d.avg_rtt_ms == Some(
            binary64::quotient(
                added(
                    made(prev, ops),
                    |e: (String, OpCounters)|
                        binary64::quotient(rtt_since(prev, e), binary64::whole(calls_since(prev, e))),
                ),
                binary64::whole(made(prev, ops).len()),
            ),
        ),
        made(prev, ops).len() > 0 ==> d.avg_exe_ms == Some(
            binary64::quotient(
                added(
                    made(prev, ops),
                    |e: (String, OpCounters)|
                        binary64::quotient(exe_since(prev, e), binary64::whole(calls_since(prev, e))),
                ),
                binary64::whole(made(prev, ops).len()),
            ),
        ),
        d.observed_conns == conns,
        d.observed_by_ip@ == by_ip,
        d.bpf is None,
{
    lemma_sums(prev, ops, dt);
}

/// Whether a row shows a kind of call: its calls and bytes by the time, its share of the given
/// number of calls in percent, and its times by its calls.
pub open spec fn is_row(
    row: OpDerived,
    prev: Option<Ops>,
    e: (String, OpCounters),
    dt: Binary64,
    all: nat,
) -> bool {
    let calls = binary64::whole(calls_since(prev, e));
    &&& row.op@ == e.0@
    &&& row.ops_per_sec == binary64::quotient(calls, dt)
    &&& row.bytes_per_sec == binary64::quotient(
        binary64::whole(sent_since(prev, e) + received_since(prev, e)),
        dt,
    )
    &&& row.share_pct == if all == 0 {
        binary64::zero()
    } else {
        binary64::quotient(
            binary64::product(calls, binary64::whole(100)),
            binary64::whole(all),
        )
    }
    &&& calls_since(prev, e) == 0 ==> row.avg_rtt_ms is None && row.avg_exe_ms is None
    &&& calls_since(prev, e) > 0 ==> row.avg_rtt_ms == Some(
        binary64::quotient(rtt_since(prev, e), calls),
    ) && row.avg_exe_ms == Some(binary64::quotient(exe_since(prev, e), calls))
}

/// The calls of all kinds since the earlier sample.
pub open spec fn all_calls(prev: Option<Ops>, ops: Ops) -> nat {
    ops.fold_left(0nat, |a: nat, e: (String, OpCounters)| a + calls_since(prev, e))
}

proof fn lemma_row(prev: Option<Ops>, e: (String, OpCounters), dt: Binary64, all: nat)
    requires
        one_each(prev),
        binary64::less(binary64::zero(), dt),
    ensures
        is_row(rates::op_rates(e.0, rates::op_delta(prev, e), dt, all), prev, e, dt, all),
        !rates::op_rates(e.0, rates::op_delta(prev, e), dt, all).ops_per_sec.nan(),
{
    lemma_delta(prev, e);
    let calls = calls_since(prev, e);
    exact::law_whole_positive(calls);
    exact::law_whole_not_negative(calls);
    exact::law_quotient_not_negative(binary64::whole(calls), dt);
}

/// The rows before sorting.
proof fn lemma_unsorted(prev: Option<Ops>, ops: Ops, dt: Binary64, all: nat)
    requires
        one_each(prev),
        binary64::less(binary64::zero(), dt),
    ensures
        order::orders(
            rates::all_rates(prev, ops, dt, all),
            |a: OpDerived, b: OpDerived| rank::op_rank(a, b) > 0,
        ),
{
    let unsorted = rates::all_rates(prev, ops, dt, all);
    assert forall|i: int| 0 <= i < unsorted.len() implies !(#[trigger] unsorted[i]).ops_per_sec.nan() by {
        lemma_row(prev, ops[i], dt, all);
    }
    rank::law_ops_ordered(unsorted);
}

/// Every kind of call has a row, every row shows a kind, there are as many rows as kinds, and
/// rows with more calls come first.
pub proof fn law_rows_of_calls(
    d: MountDerived,
    prev: Option<Ops>,
    ops: Ops,
    dt: Binary64,
    conns: u64,
    by_ip: Seq<(IpAddr, u64)>,
    i: int,
    k: int,
    l: int,
)
    requires
        rates::is_derived(d, prev, ops, dt, conns, by_ip),
        binary64::less(binary64::zero(), dt),
        one_each(prev),
    ensures
        d.per_op@.len() == ops.len(),
        0 <= i < ops.len() ==> exists|row: int|
            0 <= row < d.per_op@.len() && is_row(
                #[trigger] d.per_op@[row],
                prev,
                ops[i],
                dt,
                all_calls(prev, ops),
            ),
        0 <= k < d.per_op@.len() ==> exists|kind: int|
            0 <= kind < ops.len() && is_row(
                d.per_op@[k],
                prev,
                #[trigger] ops[kind],
                dt,
                all_calls(prev, ops),
            ),
        0 <= k < l < d.per_op@.len() ==> !binary64::less(
            d.per_op@[k].ops_per_sec,
            d.per_op@[l].ops_per_sec,
        ),
{
    let all = all_calls(prev, ops);
    lemma_sums(prev, ops, dt);
    lemma_unsorted(prev, ops, dt, all);
    let unsorted = rates::all_rates(prev, ops, dt, all);
    let later = |a: OpDerived, b: OpDerived| rank::op_rank(a, b) > 0;
    let perm = choose|perm: Seq<int>|
        #[trigger] order::arranges(unsorted, d.per_op@, perm) && (order::orders(unsorted, later)
            ==> order::in_order(d.per_op@, perm, later));
    if 0 <= k < d.per_op@.len() {
        let kind = perm[k];
        assert(d.per_op@[k] == unsorted[kind]);
        lemma_row(prev, ops[kind], dt, all);
        assert(is_row(d.per_op@[k], prev, ops[kind], dt, all));
    }
    if 0 <= i < ops.len() {
        order::lemma_covers(perm, unsorted.len(), i);
        let row = choose|row: int| 0 <= row < unsorted.len() && #[trigger] perm[row] == i;
        assert(d.per_op@[row] == unsorted[perm[row]]);
        lemma_row(prev, ops[i], dt, all);
        assert(is_row(d.per_op@[row], prev, ops[i], dt, all));
    }
    if 0 <= k < l < d.per_op@.len() {
        assert(!later(d.per_op@[k], d.per_op@[l]));
    }
}

/// Where no time has passed, nothing is shown.
pub proof fn law_no_time(
    d: MountDerived,
    prev: Option<Ops>,
    ops: Ops,
    dt: Binary64,
    conns: u64,
    by_ip: Seq<(IpAddr, u64)>,
)
    requires
        rates::is_derived(d, prev, ops, dt, conns, by_ip),
        !dt.nan(),
        !binary64::less(binary64::zero(), dt),
    ensures
        d.read_bps == binary64::zero(),
        d.write_bps == binary64::zero(),
        d.ops_per_sec == binary64::zero(),
        d.avg_rtt_ms is None,
        d.avg_exe_ms is None,
        d.observed_conns == 0,
        d.observed_by_ip@.len() == 0,
        d.per_op@.len() == 0,
        d.bpf is None,
{
}

} // verus!
