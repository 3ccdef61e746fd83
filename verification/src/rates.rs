//! Rates from two samples of the counters of a mount.

use crate::binary64;
use crate::binary64::Binary64;
use crate::exact;
use crate::order;
use crate::rank;
use crate::rank::sort_ops;
use crate::table;
use crate::text;
use crate::text::{chars_of, find, same};
use crate::types::{IpAddr, MountCounters, MountDerived, OpCounters, OpDerived};
use vstd::arithmetic::power2::*;
use vstd::prelude::*;
use vstd::string::*;

verus! {

/// Whether `:/` stands in a device for the first time at index `i`.
pub open spec fn splits_at(device: Seq<char>, i: int) -> bool {
    text::occurs_at(device, ":/"@, i) && forall|j: int| 0 <= j < i ==> !text::occurs_at(device, ":/"@, j)
}

/// The host of a device of the form `host:/export`.
pub open spec fn host(device: Seq<char>) -> Option<Seq<char>> {
    if text::occurs(device, ":/"@) {
        Some(device.take(choose|i: int| splits_at(device, i)))
    } else {
        None
    }
}

/// The host of a device of the form `host:/export`.
pub fn host_from_device(device: &str) -> (r: Option<&str>)
    ensures
        match r {
            Some(h) => host(device@) == Some(h@),
            None => host(device@) is None,
        },
{
    let d: Vec<char> = chars_of(device);
    let mark: Vec<char> = chars_of(":/");
    match find(&d, &mark) {
        Some(i) => {
            proof {
                assert(splits_at(device@, i as int));
                let k = choose|k: int| splits_at(device@, k);
                assert(splits_at(device@, k));
                if k < i {
                    assert(text::occurs_at(device@, ":/"@, k));
                }
                if i < k {
                    assert(text::occurs_at(device@, ":/"@, i as int));
                }
            }
            Some(device.substring_char(0, i))
        },
        None => None,
    }
}

/// How much a counter has grown; nothing where it was not seen before or was reset.
pub open spec fn growth(prev: Option<u64>, curr: u64) -> u64 {
    match prev {
        Some(p) => if curr > p {
            (curr - p) as u64
        } else {
            0
        },
        None => 0,
    }
}

/// How much a counter has grown; nothing where it was not seen before or was reset.
pub fn delta_u64(prev: Option<u64>, curr: u64) -> (r: u64)
    ensures
        r == growth(prev, curr),
{
    match prev {
        Some(p) => curr.saturating_sub(p),
        None => 0,
    }
}

/// How much a total has grown; nothing where it was not seen before or has shrunk.
pub open spec fn total_growth(prev: Option<Binary64>, curr: Binary64) -> Binary64 {
    match prev {
        Some(p) => {
            let d = binary64::difference(curr, p);
            if binary64::less(binary64::zero(), d) {
                d
            } else {
                binary64::zero()
            }
        },
        None => binary64::zero(),
    }
}

/// How much a total has grown; nothing where it was not seen before or has shrunk.
pub fn delta_f64(prev: Option<Binary64>, curr: Binary64) -> (r: Binary64)
    ensures
        r == total_growth(prev, curr),
{
    match prev {
        Some(p) => {
            let d: Binary64 = curr.minus(p);
            if Binary64::zero().is_less(d) {
                d
            } else {
                Binary64::zero()
            }
        },
        None => Binary64::zero(),
    }
}

/// How much the counters of one kind of call have grown.
#[derive(Debug, Clone, Copy, PartialEq, Eq, Structural)]
pub struct OpDelta {
    pub calls: u64,
    pub sent: u64,
    pub recv: u64,
    pub rtt: Binary64,
    pub exe: Binary64,
}

/// The counters of a mount by kind of call.
pub type Ops = Seq<(String, OpCounters)>;

/// The counters of the same kind of call in the earlier sample.
pub open spec fn earlier(prev: Option<Ops>, name: Seq<char>) -> Option<OpCounters> {
    match prev {
        Some(ops) => table::lookup(ops, name),
        None => None,
    }
}

/// How much the counters of one kind of call have grown.
pub open spec fn op_delta(prev: Option<Ops>, e: (String, OpCounters)) -> OpDelta {
    match earlier(prev, e.0@) {
        Some(p) => OpDelta {
            calls: growth(Some(p.calls), e.1.calls),
            sent: growth(Some(p.bytes_sent), e.1.bytes_sent),
            recv: growth(Some(p.bytes_recv), e.1.bytes_recv),
            rtt: total_growth(Some(p.rtt_ms_total), e.1.rtt_ms_total),
            exe: total_growth(Some(p.exe_ms_total), e.1.exe_ms_total),
        },
        None => OpDelta {
            calls: 0,
            sent: 0,
            recv: 0,
            rtt: binary64::zero(),
            exe: binary64::zero(),
        },
    }
}

/// The calls of all kinds.
pub open spec fn total_calls(prev: Option<Ops>, ops: Ops) -> nat
    decreases ops.len(),
{
    if ops.len() == 0 {
        0
    } else {
        total_calls(prev, ops.drop_last()) + op_delta(prev, ops.last()).calls as nat
    }
}

/// The number of calls or bytes per second.
pub open spec fn per_second(n: nat, dt: Binary64) -> Binary64 {
    binary64::quotient(binary64::whole(n), dt)
}

/// The time per call; none without calls.
pub open spec fn per_call(time: Binary64, calls: nat) -> Option<Binary64> {
    if calls > 0 {
        Some(binary64::quotient(time, binary64::whole(calls)))
    } else {
        None
    }
}

/// The rates of one kind of call, as one of `total` calls.
pub open spec fn op_rates(name: String, d: OpDelta, dt: Binary64, total: nat) -> OpDerived {
    OpDerived {
        op: name,
        ops_per_sec: per_second(d.calls as nat, dt),
        bytes_per_sec: per_second((d.sent + d.recv) as nat, dt),
        share_pct: if total > 0 {
            binary64::quotient(
                binary64::product(binary64::whole(d.calls as nat), binary64::whole(100)),
                binary64::whole(total),
            )
        } else {
            binary64::zero()
        },
        avg_rtt_ms: per_call(d.rtt, d.calls as nat),
        avg_exe_ms: per_call(d.exe, d.calls as nat),
    }
}

/// The rates of all kinds of calls, in the order of the counters.
pub open spec fn all_rates(
    prev: Option<Ops>,
    ops: Ops,
    dt: Binary64,
    total: nat,
) -> Seq<OpDerived> {
    Seq::new(ops.len(), |i: int| op_rates(ops[i].0, op_delta(prev, ops[i]), dt, total))
}

/// What the mount as a whole gets from its kinds of calls, taken in order.
pub struct Totals {
    /// Payload of READ, which the server sends.
    pub read_bps: Binary64,
    /// Payload of WRITE, which the client sends.
    pub write_bps: Binary64,
    pub ops_per_sec: Binary64,
    /// Sum of the times per call.
    pub rtt_sum: Binary64,
    pub exe_sum: Binary64,
    /// Number of kinds of calls that were made.
    pub kinds: nat,
}

/// What the mount as a whole gets from its kinds of calls, taken in order.
pub open spec fn totals(
    prev: Option<Ops>,
    ops: Ops,
    dt: Binary64,
) -> Totals
    decreases ops.len(),
{
    if ops.len() == 0 {
        Totals {
            read_bps: binary64::zero(),
            write_bps: binary64::zero(),
            ops_per_sec: binary64::zero(),
            rtt_sum: binary64::zero(),
            exe_sum: binary64::zero(),
            kinds: 0,
        }
    } else {
        let t = totals(prev, ops.drop_last(), dt);
        let d = op_delta(prev, ops.last());
        let name = ops.last().0@;
        Totals {
            read_bps: if name == "READ"@ {
                per_second(d.recv as nat, dt)
            } else {
                t.read_bps
            },
            write_bps: if name == "WRITE"@ {
                per_second(d.sent as nat, dt)
            } else {
                t.write_bps
            },
            ops_per_sec: binary64::sum(t.ops_per_sec, per_second(d.calls as nat, dt)),
            rtt_sum: match per_call(d.rtt, d.calls as nat) {
                Some(x) => binary64::sum(t.rtt_sum, x),
                None => t.rtt_sum,
            },
            exe_sum: match per_call(d.exe, d.calls as nat) {
                Some(x) => binary64::sum(t.exe_sum, x),
                None => t.exe_sum,
            },
            kinds: if d.calls > 0 {
                t.kinds + 1
            } else {
                t.kinds
            },
        }
    }
}

/// Whether no time has passed; false where the time is not a number.
pub open spec fn no_time(dt: Binary64) -> bool {
    !dt.nan() && !binary64::less(binary64::zero(), dt)
}

/// Whether the sums of what the counters have grown by fit the counters' width.
pub open spec fn deltas_fit(prev: Option<Ops>, ops: Ops) -> bool {
    &&& total_calls(prev, ops) <= u64::MAX
    &&& forall|i: int|
        0 <= i < ops.len() ==> op_delta(prev, #[trigger] ops[i]).sent + op_delta(prev, ops[i]).recv
            <= u64::MAX
}

/// The counters of an earlier sample by kind of call.
pub open spec fn ops_of(prev: Option<&MountCounters>) -> Option<Ops> {
    match prev {
        Some(p) => Some(p.ops.entries@),
        None => None,
    }
}

/// Nothing derived.
pub open spec fn is_blank(d: MountDerived) -> bool {
    &&& d.read_bps == binary64::zero()
    &&& d.write_bps == binary64::zero()
    &&& d.ops_per_sec == binary64::zero()
    &&& d.avg_rtt_ms is None
    &&& d.avg_exe_ms is None
    &&& d.observed_conns == 0
    &&& d.observed_by_ip@.len() == 0
    &&& d.per_op@.len() == 0
    &&& d.bpf is None
}

/// What is derived from two samples taken `dt` apart.
pub open spec fn is_derived(
    d: MountDerived,
    prev: Option<Ops>,
    ops: Ops,
    dt: Binary64,
    conns: u64,
    by_ip: Seq<(IpAddr, u64)>,
) -> bool {
    let t = totals(prev, ops, dt);
    if no_time(dt) {
        is_blank(d)
    } else {
        &&& d.read_bps == t.read_bps
        &&& d.write_bps == t.write_bps
        &&& d.ops_per_sec == t.ops_per_sec
        &&& d.avg_rtt_ms == per_call(t.rtt_sum, t.kinds)
        &&& d.avg_exe_ms == per_call(t.exe_sum, t.kinds)
        &&& d.observed_conns == conns
        &&& d.observed_by_ip@ == by_ip
        &&& order::sorted(
            all_rates(prev, ops, dt, total_calls(prev, ops)),
            d.per_op@,
            |a: OpDerived, b: OpDerived| rank::op_rank(a, b) > 0,
        )
        &&& d.bpf is None
    }
}

impl Default for MountDerived {
    fn default() -> (r: Self)
        ensures
            is_blank(r),
    {
        MountDerived {
            read_bps: Binary64::zero(),
            write_bps: Binary64::zero(),
            ops_per_sec: Binary64::zero(),
            avg_rtt_ms: None,
            avg_exe_ms: None,
            observed_conns: 0,
            observed_by_ip: Vec::new(),
            per_op: Vec::new(),
            bpf: None,
        }
    }
}

/// How much the counters of one kind of call have grown.
fn delta_of(prev: Option<&MountCounters>, name: &String, op: &OpCounters) -> (r: OpDelta)
    ensures
        r == op_delta(ops_of(prev), (*name, *op)),
{
    let before: Option<&OpCounters> = match prev {
        Some(p) => p.ops.get(name),
        None => None,
    };
    match before {
        Some(p) => OpDelta {
            calls: delta_u64(Some(p.calls), op.calls),
            sent: delta_u64(Some(p.bytes_sent), op.bytes_sent),
            recv: delta_u64(Some(p.bytes_recv), op.bytes_recv),
            rtt: delta_f64(Some(p.rtt_ms_total), op.rtt_ms_total),
            exe: delta_f64(Some(p.exe_ms_total), op.exe_ms_total),
        },
        None => OpDelta {
            calls: delta_u64(None, op.calls),
            sent: delta_u64(None, op.bytes_sent),
            recv: delta_u64(None, op.bytes_recv),
            rtt: delta_f64(None, op.rtt_ms_total),
            exe: delta_f64(None, op.exe_ms_total),
        },
    }
}

/// The time per call; none without calls.
fn time_per_call(time: Binary64, calls: u64) -> (r: Option<Binary64>)
    ensures
        r == per_call(time, calls as nat),
{
    if calls > 0 {
        Some(time.over(Binary64::from_u64(calls)))
    } else {
        None
    }
}

/// The rates of one kind of call, as one of `total` calls.
fn rates_of(name: &String, d: OpDelta, dt_secs: Binary64, total: u64) -> (r: OpDerived)
    requires
        d.sent + d.recv <= u64::MAX,
    ensures
        r == op_rates(*name, d, dt_secs, total as nat),
{
    let calls: Binary64 = Binary64::from_u64(d.calls);
    let share_pct: Binary64 = if total > 0 {
        calls.times(Binary64::from_u64(100)).over(Binary64::from_u64(total))
    } else {
        Binary64::zero()
    };
    OpDerived {
        op: name.clone(),
        ops_per_sec: calls.over(dt_secs),
        bytes_per_sec: Binary64::from_u64(d.sent + d.recv).over(dt_secs),
        share_pct,
        avg_rtt_ms: time_per_call(d.rtt, d.calls),
        avg_exe_ms: time_per_call(d.exe, d.calls),
    }
}

proof fn lemma_total_calls_grows(prev: Option<Ops>, ops: Ops, i: int)
    requires
        0 <= i <= ops.len(),
    ensures
        total_calls(prev, ops.take(i)) <= total_calls(prev, ops),
    decreases ops.len() - i,
{
    if i < ops.len() {
        lemma_total_calls_grows(prev, ops, i + 1);
        assert(ops.take(i + 1).drop_last() =~= ops.take(i));
    } else {
        assert(ops.take(i) =~= ops);
    }
}

/// Whether the sums of what the counters have grown by fit the counters' width.
pub fn check_deltas(curr: &MountCounters, prev: Option<&MountCounters>) -> (b: bool)
    ensures
        b == deltas_fit(ops_of(prev), curr.ops.entries@),
{
    let ghost before = ops_of(prev);
    let ghost ops = curr.ops.entries@;
    let mut total: u64 = 0;
    let mut i: usize = 0;
    while i < curr.ops.entries.len()
        invariant
            before == ops_of(prev),
            ops == curr.ops.entries@,
            i <= ops.len(),
            total == total_calls(before, ops.take(i as int)),
            forall|j: int|
                0 <= j < i ==> op_delta(before, #[trigger] ops[j]).sent + op_delta(before, ops[j]).recv
                    <= u64::MAX,
        decreases ops.len() - i,
    {
        let entry: &(String, OpCounters) = &curr.ops.entries[i];
        let d: OpDelta = delta_of(prev, &entry.0, &entry.1);
        proof {
            assert((entry.0, entry.1) == ops[i as int]);
            assert(ops.take(i + 1).drop_last() =~= ops.take(i as int));
            lemma_total_calls_grows(before, ops, i + 1);
        }
        if d.sent > u64::MAX - d.recv || total > u64::MAX - d.calls {
            return false;
        }
        total = total + d.calls;
        i = i + 1;
    }
    assert(ops.take(i as int) =~= ops);
    true
}

/// What is derived for a mount from its counters and those of an earlier sample.
#[verifier::rlimit(30)]
pub fn derive_rates(
    curr: &MountCounters,
    prev: Option<&MountCounters>,
    dt_secs: Binary64,
    observed_conns: u64,
    observed_by_ip: Vec<(IpAddr, u64)>,
) -> (r: MountDerived)
    requires
        no_time(dt_secs) || deltas_fit(ops_of(prev), curr.ops.entries@),
    ensures
        is_derived(
            r,
            ops_of(prev),
            curr.ops.entries@,
            dt_secs,
            observed_conns,
            observed_by_ip@,
        ),
{
    if !dt_secs.is_nan() && !Binary64::zero().is_less(dt_secs) {
        return MountDerived::default();
    }
    let ghost before = ops_of(prev);
    let ghost ops = curr.ops.entries@;
    let n: usize = curr.ops.entries.len();
    let mut total: u64 = 0;
    let mut i: usize = 0;
    while i < n
        invariant
            before == ops_of(prev),
            ops == curr.ops.entries@,
            n == ops.len(),
            i <= n,
            deltas_fit(before, ops),
            total == total_calls(before, ops.take(i as int)),
        decreases n - i,
    {
        let entry: &(String, OpCounters) = &curr.ops.entries[i];
        let d: OpDelta = delta_of(prev, &entry.0, &entry.1);
        proof {
            assert((entry.0, entry.1) == ops[i as int]);
            assert(ops.take(i + 1).drop_last() =~= ops.take(i as int));
            lemma_total_calls_grows(before, ops, i + 1);
        }
        total = total + d.calls;
        i = i + 1;
    }
    assert(ops.take(n as int) =~= ops);
    let mut read_bps: Binary64 = Binary64::zero();
    let mut write_bps: Binary64 = Binary64::zero();
    let mut ops_per_sec: Binary64 = Binary64::zero();
    let mut rtt_sum: Binary64 = Binary64::zero();
    let mut exe_sum: Binary64 = Binary64::zero();
    let mut kinds: u64 = 0;
    let mut per_op: Vec<OpDerived> = Vec::new();
    let mut j: usize = 0;
    while j < n
        invariant
            before == ops_of(prev),
            ops == curr.ops.entries@,
            n == ops.len(),
            j <= n,
            deltas_fit(before, ops),
            total == total_calls(before, ops),
            kinds <= j,
            totals(before, ops.take(j as int), dt_secs) == (Totals {
                read_bps,
                write_bps,
                ops_per_sec,
                rtt_sum,
                exe_sum,
                kinds: kinds as nat,
            }),
            per_op@ == all_rates(before, ops.take(j as int), dt_secs, total as nat),
        decreases n - j,
    {
        let entry: &(String, OpCounters) = &curr.ops.entries[j];
        let d: OpDelta = delta_of(prev, &entry.0, &entry.1);
        proof {
            assert((entry.0, entry.1) == ops[j as int]);
            assert(op_delta(before, ops[j as int]).sent + op_delta(before, ops[j as int]).recv
                <= u64::MAX);
            assert(ops.take(j + 1).drop_last() =~= ops.take(j as int));
        }
        if same(entry.0.as_str(), "READ") {
            read_bps = Binary64::from_u64(d.recv).over(dt_secs);
        }
        if same(entry.0.as_str(), "WRITE") {
            write_bps = Binary64::from_u64(d.sent).over(dt_secs);
        }
        ops_per_sec = ops_per_sec.plus(Binary64::from_u64(d.calls).over(dt_secs));
        match time_per_call(d.rtt, d.calls) {
            Some(x) => {
                rtt_sum = rtt_sum.plus(x);
            },
            None => {},
        }
        match time_per_call(d.exe, d.calls) {
            Some(x) => {
                exe_sum = exe_sum.plus(x);
            },
            None => {},
        }
        if d.calls > 0 {
            kinds = kinds + 1;
        }
        per_op.push(rates_of(&entry.0, d, dt_secs, total));
        j = j + 1;
        assert(per_op@ =~= all_rates(before, ops.take(j as int), dt_secs, total as nat));
    }
    sort_ops(&mut per_op);
    MountDerived {
        read_bps,
        write_bps,
        ops_per_sec,
        avg_rtt_ms: time_per_call(rtt_sum, kinds),
        avg_exe_ms: time_per_call(exe_sum, kinds),
        observed_conns,
        observed_by_ip,
        per_op,
        bpf: None,
    }
}

/// A counter never shows more growth than its value, and none after a reset.
pub proof fn law_growth(prev: u64, curr: u64)
    ensures
        growth(Some(prev), curr) <= curr,
        curr <= prev ==> growth(Some(prev), curr) == 0,
        curr >= prev ==> prev + growth(Some(prev), curr) == curr,
        growth(None, curr) == 0,
{
}

/// A total never shows negative growth, and none where it was not seen before.
pub proof fn law_total_growth(prev: Option<Binary64>, curr: Binary64)
    ensures
        exact::not_negative(total_growth(prev, curr)),
        prev is None ==> total_growth(prev, curr) == binary64::zero(),
{
}

proof fn lemma_delta_not_negative(prev: Option<Ops>, e: (String, OpCounters))
    ensures
        exact::not_negative(op_delta(prev, e).rtt),
        exact::not_negative(op_delta(prev, e).exe),
{
}

proof fn lemma_per_second_not_negative(n: nat, dt: Binary64)
    requires
        n <= u64::MAX,
        binary64::less(binary64::zero(), dt),
    ensures
        exact::not_negative(per_second(n, dt)),
{
    exact::law_whole_positive(n);
    exact::law_whole_not_negative(n);
    exact::law_quotient_not_negative(binary64::whole(n), dt);
}

proof fn lemma_per_call_not_negative(time: Binary64, calls: nat)
    requires
        calls <= u64::MAX,
        exact::not_negative(time),
    ensures
        per_call(time, calls) matches Some(x) ==> exact::not_negative(x),
{
    if calls > 0 {
        exact::law_whole_positive(calls);
        exact::law_quotient_not_negative(time, binary64::whole(calls));
    }
}

/// Whether no rate of a kind of call is negative.
pub open spec fn op_not_negative(op: OpDerived) -> bool {
    &&& exact::not_negative(op.ops_per_sec)
    &&& exact::not_negative(op.bytes_per_sec)
    &&& exact::not_negative(op.share_pct)
    &&& op.avg_rtt_ms matches Some(x) ==> exact::not_negative(x)
    &&& op.avg_exe_ms matches Some(x) ==> exact::not_negative(x)
}

/// Whether nothing that is derived for a mount is negative.
pub open spec fn all_not_negative(d: MountDerived) -> bool {
    &&& exact::not_negative(d.read_bps)
    &&& exact::not_negative(d.write_bps)
    &&& exact::not_negative(d.ops_per_sec)
    &&& d.avg_rtt_ms matches Some(x) ==> exact::not_negative(x)
    &&& d.avg_exe_ms matches Some(x) ==> exact::not_negative(x)
    &&& forall|i: int| 0 <= i < d.per_op@.len() ==> op_not_negative(#[trigger] d.per_op@[i])
}

proof fn lemma_op_rates_not_negative(name: String, d: OpDelta, dt: Binary64, total: nat)
    requires
        binary64::less(binary64::zero(), dt),
        d.sent + d.recv <= u64::MAX,
        total <= u64::MAX,
        exact::not_negative(d.rtt),
        exact::not_negative(d.exe),
    ensures
        op_not_negative(op_rates(name, d, dt, total)),
{
    lemma_per_second_not_negative(d.calls as nat, dt);
    lemma_per_second_not_negative((d.sent + d.recv) as nat, dt);
    lemma_per_call_not_negative(d.rtt, d.calls as nat);
    lemma_per_call_not_negative(d.exe, d.calls as nat);
    if total > 0 {
        let calls = binary64::whole(d.calls as nat);
        let hundred = binary64::whole(100);
        exact::law_whole_positive(d.calls as nat);
        exact::law_whole_positive(100);
        exact::law_whole_positive(total);
        exact::law_whole_not_negative(d.calls as nat);
        exact::law_whole_not_negative(100);
        exact::law_product_not_negative(calls, hundred);
        exact::law_quotient_not_negative(
            binary64::product(calls, hundred),
            binary64::whole(total),
        );
    }
}

proof fn lemma_totals_not_negative(prev: Option<Ops>, ops: Ops, dt: Binary64)
    requires
        binary64::less(binary64::zero(), dt),
    ensures
        ({
            let t = totals(prev, ops, dt);
            &&& exact::not_negative(t.read_bps)
            &&& exact::not_negative(t.write_bps)
            &&& exact::not_negative(t.ops_per_sec)
            &&& exact::not_negative(t.rtt_sum)
            &&& exact::not_negative(t.exe_sum)
            &&& t.kinds <= ops.len()
        }),
    decreases ops.len(),
{
    if ops.len() > 0 {
        lemma_totals_not_negative(prev, ops.drop_last(), dt);
        let t = totals(prev, ops.drop_last(), dt);
        let d = op_delta(prev, ops.last());
        lemma_delta_not_negative(prev, ops.last());
        lemma_per_second_not_negative(d.recv as nat, dt);
        lemma_per_second_not_negative(d.sent as nat, dt);
        lemma_per_second_not_negative(d.calls as nat, dt);
        lemma_per_call_not_negative(d.rtt, d.calls as nat);
        lemma_per_call_not_negative(d.exe, d.calls as nat);
        exact::law_sum_not_negative(t.ops_per_sec, per_second(d.calls as nat, dt));
        if let Some(x) = per_call(d.rtt, d.calls as nat) {
            exact::law_sum_not_negative(t.rtt_sum, x);
        }
        if let Some(x) = per_call(d.exe, d.calls as nat) {
            exact::law_sum_not_negative(t.exe_sum, x);
        }
    }
}

/// Whatever the counters did, nothing that is derived from them is negative or not a number.
pub proof fn law_derived_not_negative(
    d: MountDerived,
    prev: Option<Ops>,
    ops: Ops,
    dt: Binary64,
    conns: u64,
    by_ip: Seq<(IpAddr, u64)>,
)
    requires
        is_derived(d, prev, ops, dt, conns, by_ip),
        exact::not_negative(dt),
        no_time(dt) || deltas_fit(prev, ops),
        ops.len() <= u64::MAX,
    ensures
        all_not_negative(d),
{
    if !no_time(dt) {
        let t = totals(prev, ops, dt);
        lemma_totals_not_negative(prev, ops, dt);
        lemma_per_call_not_negative(t.rtt_sum, t.kinds);
        lemma_per_call_not_negative(t.exe_sum, t.kinds);
        let total = total_calls(prev, ops);
        let before = all_rates(prev, ops, dt, total);
        let later = |a: OpDerived, b: OpDerived| rank::op_rank(a, b) > 0;
        let perm = choose|perm: Seq<int>|
            #[trigger] order::arranges(before, d.per_op@, perm) && (order::orders(before, later)
                ==> order::in_order(d.per_op@, perm, later));
        assert forall|i: int| 0 <= i < d.per_op@.len() implies op_not_negative(
            #[trigger] d.per_op@[i],
        ) by {
            let k = perm[i];
            assert(0 <= k < ops.len());
            assert(d.per_op@[i] == before[k]);
            lemma_delta_not_negative(prev, ops[k]);
            lemma_op_rates_not_negative(ops[k].0, op_delta(prev, ops[k]), dt, total);
        }
    }
}

/// The share of a kind of call is at most a hundred percent, where its calls and a hundred times
/// its calls are numbers without rounding.
pub proof fn law_share_within_all(name: String, d: OpDelta, dt: Binary64, total: nat)
    requires
        d.calls <= total <= u64::MAX,
        binary64::whole(d.calls as nat).magnitude() == d.calls as nat * pow2(1074),
        binary64::whole(d.calls as nat * 100).magnitude() == (d.calls as nat * 100) * pow2(1074),
    ensures
        !binary64::less(binary64::whole(100), op_rates(name, d, dt, total).share_pct),
{
    let p = pow2(1074);
    let c = d.calls as nat;
    let all = binary64::whole(total);
    lemma_pow2_pos(1074);
    exact::law_whole_exact(100);
    if total > 0 {
        exact::law_whole_positive(c);
        exact::law_whole_positive(c * 100);
        exact::law_whole_positive(total);
        exact::law_whole_not_negative(c);
        exact::law_whole_not_negative(total);
        let t = all.magnitude();
        // A hundred times the calls.
        assert((c * p) * (100 * p) == ((c * 100) * p) * p) by (nonlinear_arith);
        assert(1 * p == p);
        exact::lemma_nearest_scale(false, (c * 100) * p, 1, p);
        assert(binary64::product(binary64::whole(c), binary64::whole(100)) == binary64::whole(c * 100));
        // The calls of all kinds are at least as many, rounded or not.
        assert(c * p <= total * p) by (nonlinear_arith)
            requires
                c <= total,
        ;
        binary64::law_nearest_increases(c * p, 1, total * p, 1);
        let low = binary64::whole(c).low();
        if low < all.low() {
            binary64::lemma_quanta_increases(low, all.low());
        }
        assert(c * p <= t);
        binary64::lemma_quanta_zero(all.low());
        assert(((c * 100) * p) * p * 1 <= (100 * p) * t) by (nonlinear_arith)
            requires
                c * p <= t,
                p > 0,
        ;
        binary64::law_nearest_increases(((c * 100) * p) * p, t, 100 * p, 1);
        let share = op_rates(name, d, dt, total).share_pct;
        if share.low() < binary64::whole(100).low() {
            binary64::lemma_quanta_increases(share.low(), binary64::whole(100).low());
        }
    } else {
        binary64::lemma_quanta_zero(0);
    }
}

} // verus!
