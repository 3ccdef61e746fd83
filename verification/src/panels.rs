//! The texts and the curves of the panels.

use crate::app::App;
use crate::binary64;
use crate::binary64::Binary64;
use crate::format::{fmt_count, fmt_ms, fmt_ns, fmt_one_decimal, fmt_rate};
use crate::exact;
use crate::hist;
use crate::hist::{bucket_lower_ns, bucket_sparkline, bucket_upper_ns};
use crate::rank;
use crate::text;
use crate::text::{chars_of, join, push_decimal};
use crate::types::{BpfLatency, BpfOpLatency, MountView, OpDerived, ServerAgg, Snapshot, UnitsMode};
use vstd::arithmetic::power2::*;
use vstd::prelude::*;
use vstd::string::*;

verus! {

/// The text of the status row, unless there is an error: how samples are taken and shown, and
/// what could not be read.
pub open spec fn status(app: App) -> Seq<char> {
    "backend:crossterm interval:"@ + text::decimal(app.interval as nat) + "ms paused:"@ + (if app.paused {
        "yes"@
    } else {
        "no"@
    }) + " filter:"@ + (if app.filter@.len() == 0 {
        "-"@
    } else {
        app.filter@
    }) + " sort:"@ + app.sort.name() + " units:"@ + app.units.name() + " trend:"@
        + app.percentile_mode.name() + warnings(app.snapshot)
}

/// What could not be read.
pub open spec fn warnings(snapshot: Option<Snapshot>) -> Seq<char> {
    match snapshot {
        Some(snap) => if snap.partial_errors@.len() == 0 {
            Seq::empty()
        } else {
            " warn: "@ + text::joined(snap.partial_errors@, "; "@)
        },
        None => Seq::empty(),
    }
}

/// The text of the status row, and whether it is an error.
pub fn status_line(app: &App) -> (r: (String, bool))
    ensures
        match app.last_error {
            Some(e) => r.1 && r.0@ == "ERROR: "@ + e@,
            None => !r.1 && r.0@ == status(*app),
        },
{
    match &app.last_error {
        Some(e) => {
            return ("ERROR: ".to_string().concat(e.as_str()), true);
        },
        None => {},
    }
    let mut s: String = "backend:crossterm interval:".to_string();
    push_decimal(&mut s, app.interval_ms());
    s.append("ms paused:");
    s.append(
        if app.paused {
            "yes"
        } else {
            "no"
        },
    );
    s.append(" filter:");
    if app.filter.as_str().is_empty() {
        s.append("-");
    } else {
        s.append(app.filter.as_str());
    }
    s.append(" sort:");
    s.append(app.sort.as_str());
    s.append(" units:");
    s.append(app.units.label());
    s.append(" trend:");
    s.append(app.percentile_mode.label());
    match &app.snapshot {
        Some(snap) => {
            if snap.partial_errors.len() > 0 {
                s.append(" warn: ");
                s.append(join(&snap.partial_errors, "; ").as_str());
            }
        },
        None => {},
    }
    assert(s@ =~= status(*app));
    (s, false)
}

/// The title of the histogram panel.
pub open spec fn hist_title_text(mount: Option<MountView>) -> Seq<char> {
    match mount {
        Some(m) => "Latency histogram (eBPF) — "@ + m.counters.mountpoint@ + " — j/k to select op"@,
        None => "Latency histogram (eBPF) — j/k to select op"@,
    }
}

/// The title of the histogram panel.
pub fn hist_title(app: &App) -> (r: String)
    ensures
        r@ == hist_title_text(app.mount_in_row(app.selected as int)),
{
    match app.selected_mount() {
        Some(m) => {
            let mut s: String = "Latency histogram (eBPF) — ".to_string();
            s.append(m.counters.mountpoint.as_str());
            s.append(" — j/k to select op");
            s
        },
        None => "Latency histogram (eBPF) — j/k to select op".to_string(),
    }
}

/// Whether any mount has latency samples.
pub open spec fn any_samples(mounts: Seq<MountView>) -> bool {
    exists|i: int| 0 <= i < mounts.len() && has_samples(#[trigger] mounts[i])
}

/// Whether a mount has latency samples.
pub open spec fn has_samples(m: MountView) -> bool {
    m.derived.bpf matches Some(b) && b.per_op@.len() > 0
}

/// Whether any mount has latency samples.
fn find_samples(mounts: &Vec<MountView>) -> (r: bool)
    ensures
        r == any_samples(mounts@),
{
    let mut i: usize = 0;
    while i < mounts.len()
        invariant
            i <= mounts@.len(),
            forall|j: int| 0 <= j < i ==> !has_samples(#[trigger] mounts@[j]),
        decreases mounts@.len() - i,
    {
        match &mounts[i].derived.bpf {
            Some(b) => {
                if b.per_op.len() > 0 {
                    assert(has_samples(mounts@[i as int]));
                    return true;
                }
            },
            None => {},
        }
        i = i + 1;
    }
    false
}

/// Why there is no histogram: the probes are not built in, not attached, no mount is selected,
/// no calls were made at all, or none on the selected mount.
pub open spec fn no_hist_text(app: App, probes_built: bool) -> Seq<char> {
    let attached = app.snapshot matches Some(snap) && snap.bpf_attached;
    if !probes_built {
        "Built without --features=ebpf. Rebuild with `cargo build --features=ebpf` to enable per-op latency histograms."@
    } else if !attached {
        "eBPF backend not active — needs CAP_BPF and a kernel with NFS BTF (RHEL 9+). Run with sudo or `setcap cap_bpf,cap_sys_resource=ep`. (Check the status bar for the load error.)"@
    } else {
        match app.mount_in_row(app.selected as int) {
            None => "eBPF probes attached — no NFS mount selected."@,
            Some(m) => if any_samples(app.mounts()) {
                "eBPF probes attached — no samples for "@ + m.counters.mountpoint@ + " this tick."@
            } else {
                "eBPF probes attached — waiting for NFS RPC traffic."@
            },
        }
    }
}

/// Why there is no histogram.
pub fn empty_message(app: &App, probes_built: bool) -> (r: String)
    ensures
        r@ == no_hist_text(*app, probes_built),
{
    if !probes_built {
        return "Built without --features=ebpf. Rebuild with `cargo build --features=ebpf` to enable per-op latency histograms.".to_string();
    }
    let attached: bool = match &app.snapshot {
        Some(snap) => snap.bpf_attached,
        None => false,
    };
    if !attached {
        return "eBPF backend not active — needs CAP_BPF and a kernel with NFS BTF (RHEL 9+). Run with sudo or `setcap cap_bpf,cap_sys_resource=ep`. (Check the status bar for the load error.)".to_string();
    }
    let busy: bool = match &app.snapshot {
        Some(snap) => find_samples(&snap.mounts),
        None => false,
    };
    match app.selected_mount() {
        None => "eBPF probes attached — no NFS mount selected.".to_string(),
        Some(m) => if busy {
            let mut s: String = "eBPF probes attached — no samples for ".to_string();
            s.append(m.counters.mountpoint.as_str());
            s.append(" this tick.");
            s
        } else {
            "eBPF probes attached — waiting for NFS RPC traffic.".to_string()
        },
    }
}

/// The cells of a row of the percentile table.
pub open spec fn op_cells(op: BpfOpLatency) -> Seq<Seq<char>> {
    seq![
        op.op@,
        crate::format::count_text(op.dist.samples as nat),
        crate::format::ns_text(op.dist.p50_ns as nat),
        crate::format::ns_text(op.dist.p90_ns as nat),
        crate::format::ns_text(op.dist.p99_ns as nat),
        crate::format::ns_text(op.dist.p999_ns as nat),
        crate::format::ns_text(op.dist.p9999_ns as nat),
        crate::format::ns_text(op.dist.p99999_ns as nat),
        crate::format::ns_text(op.dist.max_ns as nat),
    ]
}

/// The cells of a row of the percentile table.
pub fn row_for_op(op: &BpfOpLatency) -> (r: Vec<String>)
    ensures
        text::texts(r@) == op_cells(*op),
{
    let mut r: Vec<String> = Vec::new();
    r.push(op.op.clone());
    r.push(fmt_count(op.dist.samples));
    r.push(fmt_ns(op.dist.p50_ns));
    r.push(fmt_ns(op.dist.p90_ns));
    r.push(fmt_ns(op.dist.p99_ns));
    r.push(fmt_ns(op.dist.p999_ns));
    r.push(fmt_ns(op.dist.p9999_ns));
    r.push(fmt_ns(op.dist.p99999_ns));
    r.push(fmt_ns(op.dist.max_ns));
    assert(text::texts(r@) =~= op_cells(*op));
    r
}

/// The rows of the percentile table.
pub fn percentile_rows(bpf: &BpfLatency) -> (r: Vec<Vec<String>>)
    ensures
        r@.len() == bpf.per_op@.len(),
        forall|i: int| 0 <= i < r@.len() ==> text::texts((#[trigger] r@[i])@) == op_cells(bpf.per_op@[i]),
{
    let mut r: Vec<Vec<String>> = Vec::new();
    let mut i: usize = 0;
    while i < bpf.per_op.len()
        invariant
            i <= bpf.per_op@.len(),
            r@.len() == i,
            forall|j: int| 0 <= j < i ==> text::texts((#[trigger] r@[j])@) == op_cells(bpf.per_op@[j]),
        decreases bpf.per_op@.len() - i,
    {
        r.push(row_for_op(&bpf.per_op[i]));
        i = i + 1;
    }
    r
}

/// How many samples the selected mount has.
pub fn samples_line(bpf: &BpfLatency) -> (r: String)
    ensures
        r@ == crate::format::count_text(bpf.total_samples as nat) + " samples this tick"@,
{
    fmt_count(bpf.total_samples).concat(" samples this tick")
}

/// The range of a distribution, over its bars.
pub open spec fn range_text(op: Seq<char>, lo: nat, hi: nat) -> Seq<char> {
    op + " distribution  ("@ + crate::format::ns_text(hist::lower_bound(lo)) + " → "@ + crate::format::ns_text(
        hist::upper_bound(hi),
    ) + ")"@
}

/// The range of a distribution, and its bars.
pub fn distribution_line(op: &BpfOpLatency) -> (r: (String, String))
    requires
        op.buckets@.len() > 0,
        forall|i: int| 0 <= i < op.buckets@.len() ==> op.buckets@[i] < u64::MAX,
    ensures
        exists|lo: int, hi: int|
            {
                &&& #[trigger] hist::is_first(op.buckets@, lo)
                &&& #[trigger] hist::is_last(op.buckets@, hi)
                &&& r.0@ == range_text(op.op@, lo as nat, hi as nat)
                &&& r.1@ == hist::bars(op.buckets@, lo, hi)
            },
{
    let (bars, lo, hi) = bucket_sparkline(op.buckets.as_slice());
    let mut s: String = op.op.clone();
    s.append(" distribution  (");
    s.append(fmt_ns(bucket_lower_ns(lo)).as_str());
    s.append(" → ");
    s.append(fmt_ns(bucket_upper_ns(hi)).as_str());
    s.append(")");
    assert(hist::is_first(op.buckets@, lo as int) && hist::is_last(op.buckets@, hi as int));
    assert(s@ =~= range_text(op.op@, lo as nat, hi as nat));
    (s, bars)
}

/// Spaces.
pub open spec fn spaces(n: nat) -> Seq<char> {
    Seq::new(n, |i: int| ' ')
}

/// A text with spaces behind it up to a width.
pub open spec fn pad_end(s: Seq<char>, width: nat) -> Seq<char> {
    if s.len() < width {
        s + spaces((width - s.len()) as nat)
    } else {
        s
    }
}

/// A text with spaces before it up to a width.
pub open spec fn pad_start(s: Seq<char>, width: nat) -> Seq<char> {
    if s.len() < width {
        spaces((width - s.len()) as nat) + s
    } else {
        s
    }
}

/// Appends the spaces that a text of the given length lacks to a width.
fn push_spaces(s: &mut String, len: usize, width: usize)
    ensures
        final(s)@ == old(s)@ + spaces(
            if len < width {
                (width - len) as nat
            } else {
                0
            },
        ),
{
    let mut i: usize = len;
    let ghost start = s@;
    assert(s@ =~= start + spaces(0));
    while i < width
        invariant
            len <= i,
            len < width ==> i <= width,
            len >= width ==> i == len,
            s@ == start + spaces((i - len) as nat),
        decreases width - i,
    {
        s.push(' ');
        i = i + 1;
        assert(s@ =~= start + spaces((i - len) as nat));
    }
}

/// The number of characters of a text.
fn length(s: &str) -> (n: usize)
    ensures
        n == s@.len(),
{
    chars_of(s).len()
}

/// The line of a kind of call in the details of a server.
pub open spec fn op_line(op: OpDerived) -> Seq<char> {
    "  "@ + pad_end(op.op@, 10) + " "@ + pad_start(crate::format::one_decimal(op.ops_per_sec), 8) + " ops/s  "@
        + pad_start(crate::format::one_decimal(op.share_pct), 5) + "%  rtt:"@ + crate::format::ms_text(
        op.avg_rtt_ms,
    ) + " exe:"@ + crate::format::ms_text(op.avg_exe_ms)
}

/// The line of a kind of call in the details of a server.
pub fn rpc_line(op: &OpDerived) -> (r: String)
    ensures
        r@ == op_line(*op),
{
    let mut s: String = "  ".to_string();
    s.append(op.op.as_str());
    push_spaces(&mut s, length(op.op.as_str()), 10);
    s.append(" ");
    let calls: String = fmt_one_decimal(op.ops_per_sec);
    push_spaces(&mut s, length(calls.as_str()), 8);
    s.append(calls.as_str());
    s.append(" ops/s  ");
    let share: String = fmt_one_decimal(op.share_pct);
    push_spaces(&mut s, length(share.as_str()), 5);
    s.append(share.as_str());
    s.append("%  rtt:");
    s.append(fmt_ms(op.avg_rtt_ms).as_str());
    s.append(" exe:");
    s.append(fmt_ms(op.avg_exe_ms).as_str());
    assert(s@ =~= op_line(*op));
    s
}

/// A number that was asked for; a dash for none.
pub open spec fn optional_count(n: Option<u32>) -> Seq<char> {
    match n {
        Some(n) => text::decimal(n as nat),
        None => "-"@,
    }
}

/// A number that was asked for; a dash for none.
fn fmt_optional(n: Option<u32>) -> (r: String)
    ensures
        r@ == optional_count(n),
{
    match n {
        Some(n) => text::decimal_text(n as u64),
        None => "-".to_string(),
    }
}

/// The lines of the first kinds of calls, at most eight, one under the other.
pub open spec fn top_lines(per_op: Seq<OpDerived>) -> Seq<char> {
    lines_joined(if per_op.len() > 8 {
        per_op.take(8)
    } else {
        per_op
    })
}

/// The lines of kinds of calls, one under the other.
pub open spec fn lines_joined(per_op: Seq<OpDerived>) -> Seq<char>
    decreases per_op.len(),
{
    if per_op.len() == 0 {
        Seq::empty()
    } else if per_op.len() == 1 {
        op_line(per_op[0])
    } else {
        lines_joined(per_op.drop_last()) + "\n"@ + op_line(per_op.last())
    }
}

/// The details of a server.
pub open spec fn details(server: Option<ServerAgg>) -> Seq<char> {
    match server {
        Some(s) => "host: "@ + s.hostname@ + "\nmounts: "@ + (if s.mounts@.len() == 0 {
            "-"@
        } else {
            text::joined(s.mounts@, ", "@)
        }) + "\nnconnect: "@ + optional_count(s.nconnect) + "\n\nRPC mix (top 8):\n"@ + top_lines(
            s.per_op@,
        ),
        None => "no servers"@,
    }
}

/// The details of a server.
pub fn server_details(server: Option<&ServerAgg>) -> (r: String)
    ensures
        r@ == details(
            match server {
                Some(s) => Some(*s),
                None => None,
            },
        ),
{
    let s: &ServerAgg = match server {
        Some(s) => s,
        None => {
            return "no servers".to_string();
        },
    };
    let mut r: String = "host: ".to_string();
    r.append(s.hostname.as_str());
    r.append("\nmounts: ");
    if s.mounts.len() == 0 {
        r.append("-");
    } else {
        r.append(join(&s.mounts, ", ").as_str());
    }
    r.append("\nnconnect: ");
    r.append(fmt_optional(s.nconnect).as_str());
    r.append("\n\nRPC mix (top 8):\n");
    let ghost head = r@;
    let n: usize = if s.per_op.len() > 8 {
        8
    } else {
        s.per_op.len()
    };
    let mut i: usize = 0;
    assert(r@ =~= head + lines_joined(s.per_op@.take(0)));
    while i < n
        invariant
            i <= n <= s.per_op@.len(),
            r@ == head + lines_joined(s.per_op@.take(i as int)),
        decreases n - i,
    {
        if i > 0 {
            r.append("\n");
        }
        r.append(rpc_line(&s.per_op[i]).as_str());
        i = i + 1;
        assert(s.per_op@.take(i as int).drop_last() =~= s.per_op@.take(i - 1));
        assert(r@ =~= head + lines_joined(s.per_op@.take(i as int)));
    }
    assert(n == s.per_op@.len() ==> s.per_op@.take(n as int) =~= s.per_op@);
    assert(r@ =~= details(Some(*s)));
    r
}

/// The cells of a row of the table of servers.
pub open spec fn server_cells(s: ServerAgg, units: UnitsMode) -> Seq<Seq<char>> {
    seq![
        s.hostname@,
        crate::format::rate_text(s.read_bps, units),
        crate::format::rate_text(s.write_bps, units),
        crate::format::one_decimal(s.ops_per_sec),
        crate::format::ms_text(s.avg_rtt_ms),
        crate::format::ms_text(s.avg_exe_ms),
        optional_count(s.nconnect),
    ]
}

/// The cells of a row of the table of servers.
pub fn server_row(s: &ServerAgg, units: UnitsMode) -> (r: Vec<String>)
    ensures
        text::texts(r@) == server_cells(*s, units),
{
    let mut r: Vec<String> = Vec::new();
    r.push(s.hostname.clone());
    r.push(fmt_rate(s.read_bps, units));
    r.push(fmt_rate(s.write_bps, units));
    r.push(fmt_one_decimal(s.ops_per_sec));
    r.push(fmt_ms(s.avg_rtt_ms));
    r.push(fmt_ms(s.avg_exe_ms));
    r.push(fmt_optional(s.nconnect));
    assert(text::texts(r@) =~= server_cells(*s, units));
    r
}

/// The values over the curves of the selected server: what it reads and writes, its calls per
/// second and their round trip time; dashes for none.
pub open spec fn card_texts(server: Option<ServerAgg>, units: UnitsMode) -> Seq<Seq<char>> {
    match server {
        Some(s) => seq![
            crate::format::rate_text(s.read_bps, units),
            crate::format::rate_text(s.write_bps, units),
            crate::format::one_decimal(s.ops_per_sec),
            crate::format::ms_text(s.avg_rtt_ms) + " ms"@,
        ],
        None => seq!["-"@, "-"@, "-"@, "-"@ + " ms"@],
    }
}

/// The values over the curves of the selected server.
pub fn card_values(server: Option<&ServerAgg>, units: UnitsMode) -> (r: Vec<String>)
    ensures
        text::texts(r@) == card_texts(
            match server {
                Some(s) => Some(*s),
                None => None,
            },
            units,
        ),
{
    let mut r: Vec<String> = Vec::new();
    match server {
        Some(s) => {
            r.push(fmt_rate(s.read_bps, units));
            r.push(fmt_rate(s.write_bps, units));
            r.push(fmt_one_decimal(s.ops_per_sec));
            r.push(fmt_ms(s.avg_rtt_ms).concat(" ms"));
            assert(text::texts(r@) =~= card_texts(Some(*s), units));
        },
        None => {
            r.push("-".to_string());
            r.push("-".to_string());
            r.push("-".to_string());
            r.push("-".to_string().concat(" ms"));
            assert(text::texts(r@) =~= card_texts(None, units));
        },
    }
    r
}

/// The pattern of the smallest positive number with a full significand.
pub const MIN_POSITIVE: u64 = 0x0010_0000_0000_0000;

/// The pattern of the number nearest to eleven tenths.
pub const ELEVEN_TENTHS: u64 = 0x3FF1_9999_9999_999A;

/// A curve: its points, and how far the axes reach.
pub struct Curve {
    pub points: Vec<(Binary64, Binary64)>,
    pub x_max: Binary64,
    pub y_max: Binary64,
}

/// The larger of two numbers.
pub open spec fn larger(a: Binary64, b: Binary64) -> Binary64 {
    if binary64::less(a, b) {
        b
    } else {
        a
    }
}

/// A sample, or zero where it is not finite.
pub open spec fn plotted(v: Binary64) -> Binary64 {
    if v.finite() {
        v
    } else {
        binary64::zero()
    }
}

/// The largest sample that is plotted, and not less than zero.
pub open spec fn highest(series: Seq<Binary64>) -> Binary64
    decreases series.len(),
{
    if series.len() == 0 {
        binary64::zero()
    } else {
        larger(highest(series.drop_last()), plotted(series.last()))
    }
}

/// The points of a curve: the samples over their indices.
pub open spec fn points(series: Seq<Binary64>) -> Seq<(Binary64, Binary64)> {
    Seq::new(series.len(), |i: int| (binary64::whole(i as nat), plotted(series[i])))
}

/// The curve of a series of samples. Its axes start at zero and reach to the last sample, or to
/// one, and a tenth above the highest sample.
pub open spec fn is_curve(c: Curve, series: Seq<Binary64>) -> bool {
    &&& c.points@ == points(series)
    &&& c.x_max == larger(
        binary64::whole(1),
        binary64::difference(binary64::whole(series.len()), binary64::whole(1)),
    )
    &&& c.y_max == binary64::product(
        larger(Binary64 { bits: MIN_POSITIVE }, highest(series)),
        Binary64 { bits: ELEVEN_TENTHS },
    )
}

/// The curve of a series of samples; none where there are no samples.
pub fn curve(series: &Vec<Binary64>) -> (r: Option<Curve>)
    ensures
        match r {
            Some(c) => series@.len() > 0 && is_curve(c, series@),
            None => series@.len() == 0,
        },
{
    let n: usize = series.len();
    if n == 0 {
        return None;
    }
    let mut list: Vec<(Binary64, Binary64)> = Vec::new();
    let mut top: Binary64 = Binary64::zero();
    let mut i: usize = 0;
    while i < n
        invariant
            n == series@.len(),
            i <= n,
            list@ == points(series@.take(i as int)),
            top == highest(series@.take(i as int)),
        decreases n - i,
    {
        assert(series@.take(i + 1).drop_last() =~= series@.take(i as int));
        let y: Binary64 = if series[i].is_finite() {
            series[i]
        } else {
            Binary64::zero()
        };
        list.push((Binary64::from_u64(i as u64), y));
        if top.is_less(y) {
            top = y;
        }
        i = i + 1;
        assert(list@ =~= points(series@.take(i as int)));
    }
    assert(series@.take(i as int) =~= series@);
    let one: Binary64 = Binary64::from_u64(1);
    let width: Binary64 = Binary64::from_u64(n as u64).minus(one);
    let least: Binary64 = Binary64::from_bits(MIN_POSITIVE);
    let x_max: Binary64 = if one.is_less(width) {
        width
    } else {
        one
    };
    let height: Binary64 = if least.is_less(top) {
        top
    } else {
        least
    };
    Some(Curve { points: list, x_max, y_max: height.times(Binary64::from_bits(ELEVEN_TENTHS)) })
}

proof fn lemma_highest(series: Seq<Binary64>, i: int)
    requires
        0 <= i < series.len(),
    ensures
        highest(series).finite(),
        exact::not_negative(highest(series)),
        !binary64::less(highest(series), plotted(series[i])),
    decreases series.len(),
{
    let front = series.drop_last();
    if front.len() > 0 {
        lemma_highest(front, if i < front.len() { i } else { 0 });
    } else {
        assert(highest(front) == binary64::zero());
    }
    if i < front.len() {
        assert(front[i] == series[i]);
    }
}

proof fn lemma_a_tenth_above(y: Binary64)
    requires
        y.finite(),
        !y.negative(),
    ensures
        !binary64::less(binary64::product(y, Binary64 { bits: ELEVEN_TENTHS }), y),
{
    let c = Binary64 { bits: ELEVEN_TENTHS };
    let p = pow2(1074);
    let z = binary64::product(y, c);
    binary64::lemma_pow2_53();
    lemma_pow2_pos(1074);
    lemma_pow2_adds(52, 1022);
    let u = pow2(1022);
    assert(c.magnitude() >= p) by {
        assert(c.magnitude() == (binary64::FRACTION as nat + 0x1_9999_9999_999Anat) * u);
        assert((binary64::FRACTION as nat + 0x1_9999_9999_999Anat) * u >= binary64::FRACTION as nat * u)
            by (nonlinear_arith);
    }
    let m = y.magnitude();
    let n = c.magnitude();
    assert(m * p <= (m * n) * 1) by (nonlinear_arith)
        requires
            n >= p,
    ;
    binary64::law_nearest_increases(m, 1, m * n, p);
    binary64::law_nearest_exact(false, y.low());
    if y.low() < z.low() && z.finite() {
        binary64::lemma_quanta_increases(y.low(), z.low());
    }
}

proof fn lemma_width(n: nat, i: nat)
    requires
        i < n <= 0x20_0000_0000_0000,
    ensures
        !binary64::less(
            larger(
                binary64::whole(1),
                binary64::difference(binary64::whole(n), binary64::whole(1)),
            ),
            binary64::whole(i),
        ),
{
    let last = (n - 1) as nat;
    exact::law_whole_difference(n, 1);
    exact::law_whole_order(1, last);
    exact::law_whole_order(last, i);
    exact::law_whole_order(1, i);
}

proof fn lemma_height(high: Binary64, y: Binary64)
    requires
        high.finite(),
        exact::not_negative(high),
        y.finite(),
        !binary64::less(high, y),
    ensures
        !binary64::less(
            binary64::product(
                larger(Binary64 { bits: MIN_POSITIVE }, high),
                Binary64 { bits: ELEVEN_TENTHS },
            ),
            y,
        ),
{
    let least = Binary64 { bits: MIN_POSITIVE };
    let top = larger(least, high);
    let z = binary64::product(top, Binary64 { bits: ELEVEN_TENTHS });
    assert(top.finite() && !top.negative() && !binary64::less(top, high)) by {
        binary64::lemma_quanta_increases(0, MIN_POSITIVE as nat);
        binary64::lemma_quanta_zero(0);
    }
    lemma_a_tenth_above(top);
    assert(!z.nan()) by {
        binary64::lemma_pow2_53();
    }
    rank::law_numbers_ordered(z, top, high);
    rank::law_numbers_ordered(z, high, y);
}

/// Every sample of a curve is within its axes.
pub proof fn law_curve_within_axes(c: Curve, series: Seq<Binary64>, i: int)
    requires
        is_curve(c, series),
        0 <= i < series.len() <= 0x20_0000_0000_0000,
    ensures
        !binary64::less(c.x_max, c.points@[i].0),
        !binary64::less(c.y_max, c.points@[i].1),
{
    lemma_width(series.len(), i as nat);
    lemma_highest(series, i);
    lemma_height(highest(series), plotted(series[i]));
}

} // verus!
