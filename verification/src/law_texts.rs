//! What the texts say of the values that they show.

use crate::app::App;
use crate::binary64;
use crate::binary64::Binary64;
use crate::exact;
use crate::hist;
use crate::panels;
use crate::panels::Curve;
use crate::text;
use crate::types::{BpfOpLatency, MountView, OpDerived, ServerAgg, UnitsMode};
use vstd::arithmetic::power2::*;
use vstd::prelude::*;

verus! {

/// Rounding a quotient to an integer: down below a half, up above it, and to the even one at it.
pub proof fn law_half_even(num: nat, den: nat)
    requires
        den > 0,
    ensures
        2 * (num % den) < den ==> binary64::half_even(num, den) == num / den,
        2 * (num % den) > den ==> binary64::half_even(num, den) == num / den + 1,
        2 * (num % den) == den ==> binary64::half_even(num, den) % 2 == 0 && (binary64::half_even(num, den) == num
            / den || binary64::half_even(num, den) == num / den + 1),
{
}

/// The text of a number of tenths.
pub open spec fn tenths_text(t: nat) -> Seq<char> {
    text::decimal(t / 10) + seq!['.', text::digit(t % 10)]
}

/// A finite number is shown as the closest number of tenths, with a minus sign before it where it
/// is negative.
pub proof fn law_closest_tenths(x: Binary64, other: nat)
    requires
        x.finite(),
    ensures
        ({
            let t = crate::format::tenths(x);
            let one = pow2(1074);
            let exact = (x.magnitude() * 10) as int;
            &&& binary64::distance((t * one) as int, exact) <= binary64::distance((other * one) as int, exact)
            &&& !x.negative() ==> crate::format::one_decimal(x) == tenths_text(t)
            &&& x.negative() ==> crate::format::one_decimal(x) == seq!['-'] + tenths_text(t)
        }),
{
    lemma_pow2_pos(1074);
    let t = crate::format::tenths(x);
    binary64::lemma_half_even_closest(x.magnitude() * 10, pow2(1074), other);
    assert(Seq::<char>::empty() + text::decimal(t / 10) =~= text::decimal(t / 10));
    assert(seq!['-'] + text::decimal(t / 10) + seq!['.', text::digit(t % 10)] =~= seq!['-'] + tenths_text(t));
}

/// What is no finite number is named, and an infinity has its sign.
pub proof fn law_no_finite_number(x: Binary64)
    ensures
        x.nan() ==> crate::format::one_decimal(x) == seq!['N', 'a', 'N'],
        x.infinite() && !x.negative() ==> crate::format::one_decimal(x) == seq!['i', 'n', 'f'],
        x.infinite() && x.negative() ==> crate::format::one_decimal(x) == seq!['-', 'i', 'n', 'f'],
{
    reveal_strlit("NaN");
    reveal_strlit("inf");
    assert("NaN"@ =~= seq!['N', 'a', 'N']);
    assert(Seq::<char>::empty() + "inf"@ =~= seq!['i', 'n', 'f']);
    assert(seq!['-'] + "inf"@ =~= seq!['-', 'i', 'n', 'f']);
}

/// An integer up to `2^53` is shown in full, with a zero behind the point.
pub proof fn law_whole_shown(n: nat)
    requires
        n <= 0x20_0000_0000_0000,
    ensures
        crate::format::one_decimal(binary64::whole(n)) == text::decimal(n) + seq!['.', '0'],
{
    exact::law_whole_exact(n);
    let x = binary64::whole(n);
    crate::format::lemma_tenths_whole(n, 0, x.magnitude());
    lemma2_to64();
    assert(n * pow2(0) == n) by (nonlinear_arith)
        requires
            pow2(0) == 1,
    ;
    assert(crate::format::tenths(x) == n * 10);
    assert(!x.negative());
    assert(Seq::<char>::empty() + text::decimal(n) =~= text::decimal(n));
}

/// A multiple of a unit is shown as the number of units.
proof fn lemma_multiple_shown(k: nat, unit: nat)
    requires
        0 < unit,
        k * unit <= 0x20_0000_0000_0000,
        k <= 0x20_0000_0000_0000,
        unit <= 0x20_0000_0000_0000,
    ensures
        crate::format::scaled(k * unit, unit) == text::decimal(k) + seq!['.', '0'],
{
    exact::law_whole_quotient(k * unit, unit);
    law_whole_shown(k);
}

/// Counts below ten thousand are shown in full, others in thousands, millions or billions, the
/// largest of these that they reach.
pub proof fn law_counts_shown(n: nat, k: nat)
    ensures
        n < 10_000 ==> crate::format::count_text(n) == text::decimal(n),
        10_000 <= n < 1_000_000 ==> crate::format::count_text(n) == crate::format::scaled(n, 1_000) + "K"@,
        1_000_000 <= n < 1_000_000_000 ==> crate::format::count_text(n) == crate::format::scaled(n, 1_000_000)
            + "M"@,
        1_000_000_000 <= n ==> crate::format::count_text(n) == crate::format::scaled(n, 1_000_000_000) + "G"@,
        10 <= k < 1_000 ==> crate::format::count_text(k * 1_000) == text::decimal(k) + seq!['.', '0'] + "K"@,
        1 <= k < 1_000 ==> crate::format::count_text(k * 1_000_000) == text::decimal(k) + seq!['.', '0'] + "M"@,
        1 <= k < 1_000_000 ==> crate::format::count_text(k * 1_000_000_000) == text::decimal(k) + seq!['.', '0']
            + "G"@,
{
    if k < 1_000_000 {
        lemma_multiple_shown(k, 1_000);
        lemma_multiple_shown(k, 1_000_000);
        lemma_multiple_shown(k, 1_000_000_000);
    }
}

/// No latency is a dash; others are shown in the largest of nanoseconds, microseconds,
/// milliseconds and seconds that they reach.
pub proof fn law_latencies_shown(ns: nat, k: nat)
    ensures
        crate::format::ns_text(0) == seq!['-'],
        0 < ns < 1_000 ==> crate::format::ns_text(ns) == text::decimal(ns) + "ns"@,
        1_000 <= ns < 1_000_000 ==> crate::format::ns_text(ns) == crate::format::scaled(ns, 1_000) + "us"@,
        1_000_000 <= ns < 1_000_000_000 ==> crate::format::ns_text(ns) == crate::format::scaled(ns, 1_000_000)
            + "ms"@,
        1_000_000_000 <= ns ==> crate::format::ns_text(ns) == crate::format::scaled(ns, 1_000_000_000) + "s"@,
        1 <= k < 1_000 ==> crate::format::ns_text(k * 1_000) == text::decimal(k) + seq!['.', '0'] + "us"@,
        1 <= k < 1_000 ==> crate::format::ns_text(k * 1_000_000) == text::decimal(k) + seq!['.', '0'] + "ms"@,
        1 <= k < 1_000_000 ==> crate::format::ns_text(k * 1_000_000_000) == text::decimal(k) + seq!['.', '0']
            + "s"@,
{
    reveal_strlit("-");
    assert("-"@ =~= seq!['-']);
    if k < 1_000_000 {
        lemma_multiple_shown(k, 1_000);
        lemma_multiple_shown(k, 1_000_000);
        lemma_multiple_shown(k, 1_000_000_000);
    }
}

/// A time in milliseconds is shown with one digit behind the point, and none as a dash.
pub proof fn law_times_shown(x: Option<Binary64>)
    ensures
        x matches Some(t) ==> crate::format::ms_text(x) == crate::format::one_decimal(t),
        x is None ==> crate::format::ms_text(x) == seq!['-'],
{
    reveal_strlit("-");
    assert("-"@ =~= seq!['-']);
}

/// A rate is shown in the units that were chosen, and where none were in TiB from a TiB on, in
/// GiB from a GiB on, and below in MiB. Whole units are shown in full.
pub proof fn law_rates_shown(bps: Binary64, k: nat)
    ensures
        crate::format::rate_text(bps, UnitsMode::MiB) == crate::format::one_decimal(
            binary64::quotient(bps, binary64::whole(0x10_0000)),
        ) + " MiB/s"@,
        crate::format::rate_text(bps, UnitsMode::GiB) == crate::format::one_decimal(
            binary64::quotient(bps, binary64::whole(0x4000_0000)),
        ) + " GiB/s"@,
        crate::format::rate_text(bps, UnitsMode::TiB) == crate::format::one_decimal(
            binary64::quotient(bps, binary64::whole(0x100_0000_0000)),
        ) + " TiB/s"@,
        binary64::less(bps, binary64::whole(0x4000_0000)) && binary64::less(bps, binary64::whole(0x100_0000_0000))
            ==> crate::format::rate_text(bps, UnitsMode::Auto) == crate::format::rate_text(bps, UnitsMode::MiB),
        !binary64::less(bps, binary64::whole(0x4000_0000)) && binary64::less(bps, binary64::whole(0x100_0000_0000))
            ==> crate::format::rate_text(bps, UnitsMode::Auto) == crate::format::rate_text(bps, UnitsMode::GiB),
        !binary64::less(bps, binary64::whole(0x100_0000_0000)) ==> crate::format::rate_text(bps, UnitsMode::Auto)
            == crate::format::rate_text(bps, UnitsMode::TiB),
        k < 0x1000 ==> crate::format::rate_text(binary64::whole(k * 0x10_0000), UnitsMode::MiB) == text::decimal(k)
            + seq!['.', '0'] + " MiB/s"@,
        k < 0x1000 ==> crate::format::rate_text(binary64::whole(k * 0x4000_0000), UnitsMode::GiB) == text::decimal(
            k,
        ) + seq!['.', '0'] + " GiB/s"@,
        k < 0x1000 ==> crate::format::rate_text(binary64::whole(k * 0x100_0000_0000), UnitsMode::TiB)
            == text::decimal(k) + seq!['.', '0'] + " TiB/s"@,
{
    if k < 0x1000 {
        lemma_multiple_shown(k, 0x10_0000);
        lemma_multiple_shown(k, 0x4000_0000);
        lemma_multiple_shown(k, 0x100_0000_0000);
    }
}

/// Whether a text stands between two others.
pub open spec fn sits(s: Seq<char>, before: Seq<char>, x: Seq<char>, after: Seq<char>) -> bool {
    s == before + x + after
}

/// Whether a text holds another.
pub open spec fn holds(s: Seq<char>, x: Seq<char>) -> bool {
    exists|before: Seq<char>, after: Seq<char>| sits(s, before, x, after)
}

/// The status row says how often samples are taken, whether they are paused, what is filtered, by
/// what rows are sorted, in what units rates are shown and what is plotted, and ends with what
/// could not be read.
pub proof fn law_status_says(app: App)
    ensures
        holds(panels::status(app), "interval:"@ + text::decimal(app.interval as nat) + "ms paused:"@),
        app.paused ==> holds(panels::status(app), "ms paused:"@ + "yes"@ + " filter:"@),
        !app.paused ==> holds(panels::status(app), "ms paused:"@ + "no"@ + " filter:"@),
        app.filter@.len() == 0 ==> holds(panels::status(app), " filter:"@ + "-"@ + " sort:"@),
        app.filter@.len() > 0 ==> holds(panels::status(app), " filter:"@ + app.filter@ + " sort:"@),
        holds(panels::status(app), " sort:"@ + app.sort.name() + " units:"@),
        holds(panels::status(app), " units:"@ + app.units.name() + " trend:"@),
        holds(panels::status(app), " trend:"@ + app.percentile_mode.name() + panels::warnings(app.snapshot)),
        app.snapshot is None ==> panels::warnings(app.snapshot).len() == 0,
        app.snapshot matches Some(snap) ==> (if snap.partial_errors@.len() == 0 {
            panels::warnings(app.snapshot).len() == 0
        } else {
            panels::warnings(app.snapshot) == " warn: "@ + text::joined(snap.partial_errors@, "; "@)
        }),
{
    let s = panels::status(app);
    let a = "backend:crossterm interval:"@;
    let a0 = "backend:crossterm "@;
    let a1 = "interval:"@;
    reveal_strlit("backend:crossterm interval:");
    reveal_strlit("backend:crossterm ");
    reveal_strlit("interval:");
    assert(a =~= a0 + a1);
    let b = text::decimal(app.interval as nat);
    let c = "ms paused:"@;
    let d = if app.paused {
        "yes"@
    } else {
        "no"@
    };
    let e = " filter:"@;
    let f = if app.filter@.len() == 0 {
        "-"@
    } else {
        app.filter@
    };
    let g = " sort:"@;
    let h = app.sort.name();
    let i = " units:"@;
    let j = app.units.name();
    let k = " trend:"@;
    let l = app.percentile_mode.name();
    let m = panels::warnings(app.snapshot);
    let t = d + (e + (f + (g + (h + (i + (j + (k + (l + m))))))));
    lemma_move(a + b + c + d + e + f + g + h + i + j + k, l, m);
    lemma_move(a + b + c + d + e + f + g + h + i + j, k, l + m);
    lemma_move(a + b + c + d + e + f + g + h + i, j, k + (l + m));
    lemma_move(a + b + c + d + e + f + g + h, i, j + (k + (l + m)));
    lemma_move(a + b + c + d + e + f + g, h, i + (j + (k + (l + m))));
    lemma_move(a + b + c + d + e + f, g, h + (i + (j + (k + (l + m)))));
    lemma_move(a + b + c + d + e, f, g + (h + (i + (j + (k + (l + m))))));
    lemma_move(a + b + c + d, e, f + (g + (h + (i + (j + (k + (l + m)))))));
    lemma_move(a + b + c, d, e + (f + (g + (h + (i + (j + (k + (l + m))))))));
    lemma_move(a + b, c, t);
    lemma_move(a, b, c + t);
    lemma_move(a0, a1, b + (c + t));
    lemma_sits(s, a0, a1, b, c, t);
    lemma_sits(s, a + b, c, d, e, f + (g + (h + (i + (j + (k + (l + m)))))));
    lemma_sits(s, a + b + c + d, e, f, g, h + (i + (j + (k + (l + m)))));
    lemma_sits(s, a + b + c + d + e + f, g, h, i, j + (k + (l + m)));
    lemma_sits(s, a + b + c + d + e + f + g + h, i, j, k, l + m);
    assert(k + (l + m) =~= k + l + m);
    lemma_ends(s, a + b + c + d + e + f + g + h + i + j, k + l, m);
}

proof fn lemma_move(p: Seq<char>, x: Seq<char>, t: Seq<char>)
    ensures
        p + x + t == p + (x + t),
{
    assert(p + x + t =~= p + (x + t));
}

proof fn lemma_sits(s: Seq<char>, p: Seq<char>, x: Seq<char>, y: Seq<char>, z: Seq<char>, t: Seq<char>)
    requires
        s == p + (x + (y + (z + t))),
    ensures
        holds(s, x + y + z),
{
    assert(s =~= p + (x + y + z) + t);
    assert(sits(s, p, x + y + z, t));
}

/// A row of the percentile table shows the kind of call, its samples and its percentiles in
/// ascending order, with the maximum last.
pub proof fn law_percentile_cells(op: BpfOpLatency)
    ensures
        panels::op_cells(op).len() == 9,
        panels::op_cells(op)[0] == op.op@,
        panels::op_cells(op)[1] == crate::format::count_text(op.dist.samples as nat),
        panels::op_cells(op)[2] == crate::format::ns_text(op.dist.p50_ns as nat),
        panels::op_cells(op)[3] == crate::format::ns_text(op.dist.p90_ns as nat),
        panels::op_cells(op)[4] == crate::format::ns_text(op.dist.p99_ns as nat),
        panels::op_cells(op)[5] == crate::format::ns_text(op.dist.p999_ns as nat),
        panels::op_cells(op)[6] == crate::format::ns_text(op.dist.p9999_ns as nat),
        panels::op_cells(op)[7] == crate::format::ns_text(op.dist.p99999_ns as nat),
        panels::op_cells(op)[8] == crate::format::ns_text(op.dist.max_ns as nat),
{
}

/// A row of the table of servers shows the host, the throughput read and written, the calls, the
/// two times and the connections asked for; the cards show the first four of these figures.
pub proof fn law_server_cells(s: ServerAgg, units: UnitsMode)
    ensures
        panels::server_cells(s, units).len() == 7,
        panels::server_cells(s, units)[0] == s.hostname@,
        panels::server_cells(s, units)[1] == crate::format::rate_text(s.read_bps, units),
        panels::server_cells(s, units)[2] == crate::format::rate_text(s.write_bps, units),
        panels::server_cells(s, units)[3] == crate::format::one_decimal(s.ops_per_sec),
        panels::server_cells(s, units)[4] == crate::format::ms_text(s.avg_rtt_ms),
        panels::server_cells(s, units)[5] == crate::format::ms_text(s.avg_exe_ms),
        s.nconnect matches Some(n) ==> panels::server_cells(s, units)[6] == text::decimal(n as nat),
        s.nconnect is None ==> panels::server_cells(s, units)[6] == seq!['-'],
        panels::card_texts(Some(s), units).len() == 4,
        panels::card_texts(Some(s), units)[0] == crate::format::rate_text(s.read_bps, units),
        panels::card_texts(Some(s), units)[1] == crate::format::rate_text(s.write_bps, units),
        panels::card_texts(Some(s), units)[2] == crate::format::one_decimal(s.ops_per_sec),
        panels::card_texts(Some(s), units)[3] == crate::format::ms_text(s.avg_rtt_ms) + " ms"@,
{
    reveal_strlit("-");
    assert("-"@ =~= seq!['-']);
}

/// A padded text is as wide as asked for, or as the text where that is wider; the text stands at
/// one end and blanks fill the rest.
pub proof fn law_padding(s: Seq<char>, width: nat, i: int)
    ensures
        panels::pad_end(s, width).len() == if s.len() < width {
            width
        } else {
            s.len()
        },
        panels::pad_start(s, width).len() == panels::pad_end(s, width).len(),
        panels::pad_end(s, width).take(s.len() as int) == s,
        panels::pad_start(s, width).skip(panels::pad_start(s, width).len() - s.len()) == s,
        s.len() <= i < width ==> panels::pad_end(s, width)[i] == ' ',
        0 <= i < width - s.len() ==> panels::pad_start(s, width)[i] == ' ',
{
    assert(panels::pad_end(s, width).take(s.len() as int) =~= s);
    assert(panels::pad_start(s, width).skip(panels::pad_start(s, width).len() - s.len()) =~= s);
}

/// The line of a kind of call shows its name, its calls, its share and its two times.
pub proof fn law_call_line(op: OpDerived)
    ensures
        holds(panels::op_line(op), "  "@ + panels::pad_end(op.op@, 10) + " "@),
        holds(
            panels::op_line(op),
            " "@ + panels::pad_start(crate::format::one_decimal(op.ops_per_sec), 8) + " ops/s  "@,
        ),
        holds(
            panels::op_line(op),
            " ops/s  "@ + panels::pad_start(crate::format::one_decimal(op.share_pct), 5) + "%  rtt:"@,
        ),
        holds(panels::op_line(op), "%  rtt:"@ + crate::format::ms_text(op.avg_rtt_ms) + " exe:"@),
        holds(panels::op_line(op), " exe:"@ + crate::format::ms_text(op.avg_exe_ms)),
{
    let s = panels::op_line(op);
    let a = "  "@;
    let b = panels::pad_end(op.op@, 10);
    let c = " "@;
    let d = panels::pad_start(crate::format::one_decimal(op.ops_per_sec), 8);
    let e = " ops/s  "@;
    let f = panels::pad_start(crate::format::one_decimal(op.share_pct), 5);
    let g = "%  rtt:"@;
    let h = crate::format::ms_text(op.avg_rtt_ms);
    let i = " exe:"@;
    let j = crate::format::ms_text(op.avg_exe_ms);
    lemma_move(a + b + c + d + e + f + g + h, i, j);
    lemma_move(a + b + c + d + e + f + g, h, i + j);
    lemma_move(a + b + c + d + e + f, g, h + (i + j));
    lemma_move(a + b + c + d + e, f, g + (h + (i + j)));
    lemma_move(a + b + c + d, e, f + (g + (h + (i + j))));
    lemma_move(a + b + c, d, e + (f + (g + (h + (i + j)))));
    lemma_move(a + b, c, d + (e + (f + (g + (h + (i + j))))));
    lemma_starts(s, a, b, c, d + (e + (f + (g + (h + (i + j))))));
    lemma_sits(s, a + b, c, d, e, f + (g + (h + (i + j))));
    lemma_sits(s, a + b + c + d, e, f, g, h + (i + j));
    lemma_sits(s, a + b + c + d + e + f, g, h, i, j);
    lemma_ends(s, a + b + c + d + e + f + g + h, i, j);
}

proof fn lemma_starts(s: Seq<char>, x: Seq<char>, y: Seq<char>, z: Seq<char>, t: Seq<char>)
    requires
        s == x + y + (z + t),
    ensures
        holds(s, x + y + z),
{
    assert(s =~= Seq::<char>::empty() + (x + y + z) + t);
    assert(sits(s, Seq::empty(), x + y + z, t));
}

proof fn lemma_ends(s: Seq<char>, p: Seq<char>, x: Seq<char>, y: Seq<char>)
    requires
        s == p + (x + y),
    ensures
        holds(s, x + y),
{
    assert(s =~= p + (x + y) + Seq::<char>::empty());
    assert(sits(s, p, x + y, Seq::empty()));
}

/// Kinds of calls behind the eighth are not shown, and up to there each line stands under the one
/// before.
pub proof fn law_call_lines(per_op: Seq<OpDerived>, op: OpDerived)
    ensures
        panels::top_lines(Seq::empty()).len() == 0,
        panels::top_lines(seq![op]) == panels::op_line(op),
        0 < per_op.len() < 8 ==> panels::top_lines(per_op.push(op)) == panels::top_lines(per_op) + seq!['\n']
            + panels::op_line(op),
        per_op.len() >= 8 ==> panels::top_lines(per_op.push(op)) == panels::top_lines(per_op),
{
    reveal_strlit("\n");
    assert("\n"@ =~= seq!['\n']);
    assert(per_op.push(op).drop_last() =~= per_op);
    if per_op.len() >= 8 {
        assert(per_op.push(op).take(8) =~= per_op.take(8));
        assert(per_op.len() == 8 ==> per_op.take(8) =~= per_op);
    }
}

/// The details of a server show its host, its mounts, the connections asked for and its calls.
pub proof fn law_details_show(s: ServerAgg)
    ensures
        holds(panels::details(Some(s)), "host: "@ + s.hostname@ + "\nmounts: "@),
        s.mounts@.len() > 0 ==> holds(
            panels::details(Some(s)),
            "\nmounts: "@ + text::joined(s.mounts@, ", "@) + "\nnconnect: "@,
        ),
        s.mounts@.len() == 0 ==> holds(panels::details(Some(s)), "\nmounts: "@ + "-"@ + "\nnconnect: "@),
        s.nconnect matches Some(n) ==> holds(
            panels::details(Some(s)),
            "\nnconnect: "@ + text::decimal(n as nat) + "\n\nRPC mix (top 8):\n"@,
        ),
        s.nconnect is None ==> holds(
            panels::details(Some(s)),
            "\nnconnect: "@ + "-"@ + "\n\nRPC mix (top 8):\n"@,
        ),
        holds(panels::details(Some(s)), "\n\nRPC mix (top 8):\n"@ + panels::top_lines(s.per_op@)),
{
    let t = panels::details(Some(s));
    let a = "host: "@;
    let b = s.hostname@;
    let c = "\nmounts: "@;
    let d = if s.mounts@.len() == 0 {
        "-"@
    } else {
        text::joined(s.mounts@, ", "@)
    };
    let e = "\nnconnect: "@;
    let f = panels::optional_count(s.nconnect);
    let g = "\n\nRPC mix (top 8):\n"@;
    let h = panels::top_lines(s.per_op@);
    lemma_move(a + b + c + d + e + f, g, h);
    lemma_move(a + b + c + d + e, f, g + h);
    lemma_move(a + b + c + d, e, f + (g + h));
    lemma_move(a + b + c, d, e + (f + (g + h)));
    lemma_move(a + b, c, d + (e + (f + (g + h))));
    lemma_starts(t, a, b, c, d + (e + (f + (g + h))));
    lemma_sits(t, a + b, c, d, e, f + (g + h));
    lemma_sits(t, a + b + c + d, e, f, g, h);
    lemma_ends(t, a + b + c + d + e + f, g, h);
}

/// Texts are joined one after the other, with the separator between neighbours.
pub proof fn law_joined(parts: Seq<String>, part: String, sep: Seq<char>)
    ensures
        text::joined(Seq::empty(), sep).len() == 0,
        text::joined(seq![part], sep) == part@,
        parts.len() > 0 ==> text::joined(parts.push(part), sep) == text::joined(parts, sep) + sep + part@,
{
    assert(parts.push(part).drop_last() =~= parts);
}

/// The title of the histogram names the selected mount, and the range of a distribution the kind
/// of call, where its first bucket starts and where its last one ends.
pub proof fn law_histogram_texts(m: MountView, op: Seq<char>, lo: nat, hi: nat)
    ensures
        holds(panels::hist_title_text(Some(m)), m.counters.mountpoint@),
        holds(panels::range_text(op, lo, hi), op + " distribution  ("@),
        holds(panels::range_text(op, lo, hi), "("@ + crate::format::ns_text(hist::lower_bound(lo)) + " → "@),
        holds(panels::range_text(op, lo, hi), " → "@ + crate::format::ns_text(hist::upper_bound(hi)) + ")"@),
{
    let s = panels::hist_title_text(Some(m));
    assert(sits(s, "Latency histogram (eBPF) — "@, m.counters.mountpoint@, " — j/k to select op"@));
    let t = panels::range_text(op, lo, hi);
    let a = " distribution  ("@;
    let a0 = " distribution  "@;
    let a1 = "("@;
    reveal_strlit(" distribution  (");
    reveal_strlit(" distribution  ");
    reveal_strlit("(");
    assert(a =~= a0 + a1);
    let b = crate::format::ns_text(hist::lower_bound(lo));
    let c = " → "@;
    let d = crate::format::ns_text(hist::upper_bound(hi));
    let e = ")"@;
    lemma_move(op + a + b + c, d, e);
    lemma_move(op + a + b, c, d + e);
    lemma_move(op + a, b, c + (d + e));
    lemma_move(op, a0, a1);
    lemma_move(op + a0, a1, b + (c + (d + e)));
    lemma_sits(t, op + a0, a1, b, c, d + e);
    assert(sits(t, Seq::empty(), op + a, b + (c + (d + e)))) by {
        assert(t =~= Seq::<char>::empty() + (op + a) + (b + (c + (d + e))));
    }
    assert(c + (d + e) =~= c + d + e);
    lemma_ends(t, op + a + b, c + d, e);
}

/// A curve has a point for each sample, over its place in the series; a sample that is not finite
/// is plotted as zero. The horizontal axis reaches to the last of several points.
pub proof fn law_curve_points(c: Curve, series: Seq<Binary64>, i: int)
    requires
        panels::is_curve(c, series),
        0 <= i < series.len() <= 0x20_0000_0000_0000,
    ensures
        c.points@.len() == series.len(),
        c.points@[i].0 == binary64::whole(i as nat),
        series[i].finite() ==> c.points@[i].1 == series[i],
        !series[i].finite() ==> c.points@[i].1 == binary64::zero(),
        series.len() == 1 ==> c.x_max == binary64::whole(1),
        series.len() > 1 ==> c.x_max == binary64::whole((series.len() - 1) as nat),
{
    let n = series.len();
    exact::law_whole_difference(n, 1);
    exact::law_whole_order(1, (n - 1) as nat);
}

/// The highest value is one that is plotted, or zero where none is above it.
pub proof fn law_highest(series: Seq<Binary64>)
    ensures
        panels::highest(series) == binary64::zero() || exists|i: int|
            0 <= i < series.len() && #[trigger] series[i] == panels::highest(series) && series[i].finite(),
    decreases series.len(),
{
    if series.len() > 0 {
        let front = series.drop_last();
        law_highest(front);
        let h = panels::highest(front);
        if panels::highest(series) == h {
            if h != binary64::zero() {
                let i = choose|i: int| 0 <= i < front.len() && #[trigger] front[i] == h && front[i].finite();
                assert(series[i] == h);
            }
        } else if series.last().finite() {
            assert(series[series.len() - 1] == panels::highest(series));
        }
    }
}

/// A mount has latency samples where some kind of call has.
pub proof fn law_has_samples(m: MountView)
    ensures
        m.derived.bpf is None ==> !panels::has_samples(m),
        m.derived.bpf matches Some(l) ==> (panels::has_samples(m) <==> l.per_op@.len() > 0),
{
}

/// Whether probes are attached.
pub open spec fn attached(app: App) -> bool {
    match app.snapshot {
        Some(snap) => snap.bpf_attached,
        None => false,
    }
}

/// Why there is no histogram: without probes built in, or attached, the reason is the same
/// whatever is selected; with them it names the selected mount where another mount has samples,
/// and is the same for all mounts where none has.
pub proof fn law_no_histogram(a: App, b: App, m: MountView, i: int)
    ensures
        panels::no_hist_text(a, false) == panels::no_hist_text(b, false),
        !attached(a) && !attached(b) ==> panels::no_hist_text(a, true) == panels::no_hist_text(b, true),
        attached(a) && a.mount_in_row(a.selected as int) == Some(m) && 0 <= i < a.mounts().len() && panels::has_samples(
            a.mounts()[i],
        ) ==> holds(
            panels::no_hist_text(a, true),
            "no samples for "@ + m.counters.mountpoint@ + " this tick."@,
        ),
        attached(a) && attached(b) && a.mount_in_row(a.selected as int) is Some && b.mount_in_row(
            b.selected as int,
        ) is Some && (forall|k: int|
            0 <= k < a.mounts().len() ==> !panels::has_samples(#[trigger] a.mounts()[k])) && (forall|k: int|
            0 <= k < b.mounts().len() ==> !panels::has_samples(#[trigger] b.mounts()[k])) ==> panels::no_hist_text(
            a,
            true,
        ) == panels::no_hist_text(b, true),
{
    if attached(a) && a.mount_in_row(a.selected as int) == Some(m) && 0 <= i < a.mounts().len() && panels::has_samples(
        a.mounts()[i],
    ) {
        let head = "eBPF probes attached — no samples for "@;
        let first = "eBPF probes attached — "@;
        let second = "no samples for "@;
        reveal_strlit("eBPF probes attached — no samples for ");
        reveal_strlit("eBPF probes attached — ");
        reveal_strlit("no samples for ");
        assert(head =~= first + second);
        let name = m.counters.mountpoint@;
        let end = " this tick."@;
        lemma_move(head, name, end);
        lemma_move(first, second, name + end);
        assert(second + (name + end) =~= second + name + end);
        lemma_ends(panels::no_hist_text(a, true), first, second + name, end);
    }
}

} // verus!
