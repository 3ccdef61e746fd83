//! Numbers as text.

use crate::binary64;
use crate::binary64::{power_of_two, unpack, Binary64, INFINITY, SIGN};
use crate::natural::Natural;
use crate::text;
use crate::text::{digit_char, push_decimal};
use crate::types::UnitsMode;
use vstd::arithmetic::div_mod::*;
use vstd::arithmetic::power2::*;
use vstd::prelude::*;
use vstd::string::*;

verus! {

/// A finite magnitude in tenths, rounded to the nearest, ties to even.
pub open spec fn tenths(x: Binary64) -> nat {
    binary64::half_even(x.magnitude() * 10, pow2(1074))
}

/// A number with one digit after the decimal point.
pub open spec fn one_decimal(x: Binary64) -> Seq<char> {
    let sign = if x.negative() {
        seq!['-']
    } else {
        Seq::empty()
    };
    if x.nan() {
        "NaN"@
    } else if x.infinite() {
        sign + "inf"@
    } else {
        sign + text::decimal(tenths(x) / 10) + seq!['.', text::digit(tenths(x) % 10)]
    }
}

/// A number without a fraction has ten times its value in tenths.
pub(crate) proof fn lemma_tenths_whole(m: nat, d: nat, mag: nat)
    requires
        mag == m * pow2(1074 + d),
    ensures
        binary64::half_even(mag * 10, pow2(1074)) == (m * pow2(d)) * 10,
{
    let one = pow2(1074);
    let w = m * pow2(d);
    lemma_pow2_pos(1074);
    lemma_pow2_adds(1074, d);
    assert(mag * 10 == (w * 10) * one) by (nonlinear_arith)
        requires
            mag == m * (one * pow2(d)),
            w == m * pow2(d),
    ;
    lemma_div_by_multiple((w * 10) as int, one as int);
    lemma_mod_multiples_basic((w * 10) as int, one as int);
}

/// The tenths depend on the significand and the number of its bits after the point.
proof fn lemma_tenths_fraction(m: nat, e: nat, mag: nat)
    requires
        e < 1074,
        mag == m * pow2(e),
    ensures
        binary64::half_even(mag * 10, pow2(1074)) == binary64::half_even(m * 10, pow2((1074 - e) as nat)),
{
    let sh = (1074 - e) as nat;
    lemma_pow2_pos(e);
    lemma_pow2_pos(sh);
    lemma_pow2_adds(sh, e);
    assert((m * 10) * pow2(e) == mag * 10) by (nonlinear_arith)
        requires
            mag == m * pow2(e),
    ;
    binary64::lemma_half_even_scale(m * 10, pow2(sh), pow2(e));
}

/// A number with one digit after the decimal point.
pub fn fmt_one_decimal(x: Binary64) -> (s: String)
    ensures
        s@ == one_decimal(x),
{
    let low: u64 = x.bits % SIGN;
    if low > INFINITY {
        return "NaN".to_string();
    }
    let mut s: String = String::new();
    if x.bits >= SIGN {
        s.push('-');
    }
    let ghost sign = s@;
    assert(sign =~= if x.negative() {
        seq!['-']
    } else {
        Seq::empty()
    });
    if low == INFINITY {
        s.append("inf");
        return s;
    }
    if low == 0 {
        proof {
            lemma_pow2_pos(1074);
            lemma_basic_div(0, pow2(1074) as int);
            lemma_small_mod(0, pow2(1074));
        }
        s.push('0');
        s.push('.');
        s.push('0');
        assert(s@ =~= sign + text::decimal(0) + seq!['.', text::digit(0)]);
        return s;
    }
    let (m, e) = unpack(low);
    if e >= 1074 {
        let mut n: Natural = Natural::from_u64(m);
        let mut i: u64 = 0;
        let count: u64 = e - 1074;
        proof {
            binary64::lemma_pow2_53();
            assert(m * 1 == m);
        }
        while i < count
            invariant
                i <= count,
                n@ == m * pow2(i as nat),
            decreases count - i,
        {
            proof {
                lemma_pow2_unfold((i + 1) as nat);
                assert((m * pow2(i as nat)) * 2 == m * (2 * pow2(i as nat))) by (nonlinear_arith);
            }
            n.multiply(2);
            i = i + 1;
        }
        proof {
            lemma_tenths_whole(m as nat, count as nat, x.magnitude());
        }
        n.push_decimal(&mut s);
        s.push('.');
        s.push('0');
        assert(s@ =~= sign + text::decimal(tenths(x) / 10) + seq!['.', text::digit(tenths(x) % 10)]);
        s
    } else {
        let shift: u64 = 1074 - e;
        let top: u128 = m as u128 * 10;
        proof {
            lemma_tenths_fraction(m as nat, e as nat, x.magnitude());
            lemma2_to64();
        }
        let mut t: u64 = 0;
        if shift < 64 {
            let unit: u128 = power_of_two(shift);
            proof {
                lemma_pow2_pos(shift as nat);
            }
            let q: u128 = top / unit;
            let r: u128 = top % unit;
            proof {
                lemma_pow2_strictly_increases(shift as nat, 64);
                lemma_div_is_ordered_by_denominator(top as int, 1, unit as int);
            }
            t = if 2 * r < unit || (2 * r == unit && q % 2 == 0) {
                q as u64
            } else {
                q as u64 + 1
            };
        } else {
            proof {
                if shift > 64 {
                    lemma_pow2_strictly_increases(64, shift as nat);
                }
                lemma_basic_div(top as int, pow2(shift as nat) as int);
                lemma_small_mod(top as nat, pow2(shift as nat));
            }
        }
        push_decimal(&mut s, t / 10);
        s.push('.');
        s.push(digit_char(t % 10));
        assert(s@ =~= sign + text::decimal(tenths(x) / 10) + seq!['.', text::digit(tenths(x) % 10)]);
        s
    }
}

/// `n / unit` as a number with one digit after the decimal point.
pub open spec fn scaled(n: nat, unit: nat) -> Seq<char> {
    one_decimal(binary64::quotient(binary64::whole(n), binary64::whole(unit)))
}

/// Appends `n / unit` with one digit after the decimal point, then `suffix`.
fn fmt_scaled(n: u64, unit: u64, suffix: &str) -> (s: String)
    ensures
        s@ == scaled(n as nat, unit as nat) + suffix@,
{
    let mut s: String = fmt_one_decimal(Binary64::from_u64(n).over(Binary64::from_u64(unit)));
    s.append(suffix);
    s
}

/// A count in at most a few digits: as it is below ten thousand, then in thousands, millions and
/// billions.
pub open spec fn count_text(n: nat) -> Seq<char> {
    if n < 10_000 {
        text::decimal(n)
    } else if n < 1_000_000 {
        scaled(n, 1_000) + "K"@
    } else if n < 1_000_000_000 {
        scaled(n, 1_000_000) + "M"@
    } else {
        scaled(n, 1_000_000_000) + "G"@
    }
}

/// A count in at most a few digits.
pub fn fmt_count(n: u64) -> (s: String)
    ensures
        s@ == count_text(n as nat),
{
    if n < 10_000 {
        text::decimal_text(n)
    } else if n < 1_000_000 {
        fmt_scaled(n, 1_000, "K")
    } else if n < 1_000_000_000 {
        fmt_scaled(n, 1_000_000, "M")
    } else {
        fmt_scaled(n, 1_000_000_000, "G")
    }
}

/// A latency in the largest unit that it reaches; a dash for none.
pub open spec fn ns_text(ns: nat) -> Seq<char> {
    if ns == 0 {
        "-"@
    } else if ns >= 1_000_000_000 {
        scaled(ns, 1_000_000_000) + "s"@
    } else if ns >= 1_000_000 {
        scaled(ns, 1_000_000) + "ms"@
    } else if ns >= 1_000 {
        scaled(ns, 1_000) + "us"@
    } else {
        text::decimal(ns) + "ns"@
    }
}

/// A latency in the largest unit that it reaches; a dash for none.
pub fn fmt_ns(ns: u64) -> (s: String)
    ensures
        s@ == ns_text(ns as nat),
{
    if ns == 0 {
        return "-".to_string();
    }
    if ns >= 1_000_000_000 {
        fmt_scaled(ns, 1_000_000_000, "s")
    } else if ns >= 1_000_000 {
        fmt_scaled(ns, 1_000_000, "ms")
    } else if ns >= 1_000 {
        fmt_scaled(ns, 1_000, "us")
    } else {
        let mut s: String = text::decimal_text(ns);
        s.append("ns");
        s
    }
}

/// A time in milliseconds; a dash for none.
pub open spec fn ms_text(x: Option<Binary64>) -> Seq<char> {
    match x {
        Some(t) => one_decimal(t),
        None => "-"@,
    }
}

/// A time in milliseconds; a dash for none.
pub fn fmt_ms(x: Option<Binary64>) -> (s: String)
    ensures
        s@ == ms_text(x),
{
    match x {
        Some(t) => fmt_one_decimal(t),
        None => "-".to_string(),
    }
}

/// The units that a rate is shown in: of its own the largest that it reaches.
pub open spec fn rate_units(bps: Binary64, units: UnitsMode) -> UnitsMode {
    match units {
        UnitsMode::Auto => if !binary64::less(bps, binary64::whole(0x100_0000_0000)) {
            UnitsMode::TiB
        } else if !binary64::less(bps, binary64::whole(0x4000_0000)) {
            UnitsMode::GiB
        } else {
            UnitsMode::MiB
        },
        _ => units,
    }
}

/// A rate of bytes per second.
pub open spec fn rate_text(bps: Binary64, units: UnitsMode) -> Seq<char> {
    match rate_units(bps, units) {
        UnitsMode::TiB => one_decimal(binary64::quotient(bps, binary64::whole(0x100_0000_0000)))
            + " TiB/s"@,
        UnitsMode::GiB => one_decimal(binary64::quotient(bps, binary64::whole(0x4000_0000)))
            + " GiB/s"@,
        _ => one_decimal(binary64::quotient(bps, binary64::whole(0x10_0000))) + " MiB/s"@,
    }
}

/// A rate of bytes per second.
pub fn fmt_rate(bps: Binary64, units: UnitsMode) -> (s: String)
    ensures
        s@ == rate_text(bps, units),
{
    let tib: Binary64 = Binary64::from_u64(0x100_0000_0000);
    let gib: Binary64 = Binary64::from_u64(0x4000_0000);
    let mib: Binary64 = Binary64::from_u64(0x10_0000);
    let shown: UnitsMode = match units {
        UnitsMode::Auto => if !bps.is_less(tib) {
            UnitsMode::TiB
        } else if !bps.is_less(gib) {
            UnitsMode::GiB
        } else {
            UnitsMode::MiB
        },
        _ => units,
    };
    match shown {
        UnitsMode::TiB => fmt_one_decimal(bps.over(tib)).concat(" TiB/s"),
        UnitsMode::GiB => fmt_one_decimal(bps.over(gib)).concat(" GiB/s"),
        _ => fmt_one_decimal(bps.over(mib)).concat(" MiB/s"),
    }
}

} // verus!
