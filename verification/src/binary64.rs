//! IEEE 754 binary64 numbers, held by their bit patterns.
//!
//! Every finite number is a whole multiple of the smallest positive one, `2^-1074`. The
//! contracts measure magnitudes in that unit, so that exact results are integers or quotients of
//! integers, and say that each operation returns the number nearest to the exact result.

use vstd::arithmetic::div_mod::*;
use vstd::arithmetic::mul::*;
use vstd::arithmetic::power2::*;
use vstd::prelude::*;

verus! {

/// The number of patterns that share one exponent, `2^52`.
pub const FRACTION: u64 = 0x10_0000_0000_0000;

/// The sign bit.
pub const SIGN: u64 = 0x8000_0000_0000_0000;

/// The pattern of positive infinity; the unsigned patterns above it are not numbers.
pub const INFINITY: u64 = 0x7FF0_0000_0000_0000;

/// The pattern of the quiet not-a-number that the operations return.
pub const NOT_A_NUMBER: u64 = 0x7FF8_0000_0000_0000;

/// A binary64 number. `==` compares patterns, not numbers.
#[derive(Clone, Copy, Debug, PartialEq, Eq, Structural)]
pub struct Binary64 {
    pub bits: u64,
}

/// The magnitude, in units of `2^-1074`, of the finite number with the unsigned pattern `low`.
pub open spec fn quanta(low: nat) -> nat {
    if low < 2 * FRACTION {
        low
    } else {
        (FRACTION as nat + low % (FRACTION as nat)) * pow2((low / (FRACTION as nat) - 1) as nat)
    }
}

/// The number with the given sign and unsigned pattern.
pub open spec fn signed(neg: bool, low: nat) -> Binary64 {
    Binary64 { bits: (if neg { SIGN + low } else { low as int }) as u64 }
}

/// `num / den` rounded to the nearest integer, ties to the even one.
pub open spec fn half_even(num: nat, den: nat) -> nat {
    let q = num / den;
    let r = num % den;
    if 2 * r < den || (2 * r == den && q % 2 == 0) {
        q
    } else {
        q + 1
    }
}

/// The exponent of the distance between neighbouring numbers around `num / den`: the least `k`
/// for which `num / den` is below `2^(53 + k)`.
pub open spec fn spacing(num: nat, den: nat) -> nat
    decreases num - den,
{
    if den == 0 || num < pow2(53) * den {
        0
    } else {
        proof {
            lemma_pow2_53();
            assert(num >= 2 * den) by (nonlinear_arith)
                requires
                    num >= pow2(53) * den,
                    pow2(53) == 0x20_0000_0000_0000nat,
                    den > 0,
            ;
        }
        1 + spacing(num, 2 * den)
    }
}

/// The number nearest to `num / den` units of `2^-1074`, ties to the even pattern; infinity
/// where that is past the largest finite number.
pub open spec fn nearest(neg: bool, num: nat, den: nat) -> Binary64 {
    let k = spacing(num, den);
    let low = k * FRACTION as nat + half_even(num, den * pow2(k));
    signed(neg, if low < INFINITY { low } else { INFINITY as nat })
}

/// Positive zero.
pub open spec fn zero() -> Binary64 {
    Binary64 { bits: 0 }
}

/// Not a number.
pub open spec fn not_a_number() -> Binary64 {
    Binary64 { bits: NOT_A_NUMBER }
}

impl Binary64 {
    /// The pattern without its sign bit.
    pub open spec fn low(self) -> nat {
        (self.bits % SIGN) as nat
    }

    /// Whether the sign bit is set.
    pub open spec fn negative(self) -> bool {
        self.bits >= SIGN
    }

    /// Whether this is not a number.
    pub open spec fn nan(self) -> bool {
        self.low() > INFINITY
    }

    /// Whether this is an infinity.
    pub open spec fn infinite(self) -> bool {
        self.low() == INFINITY
    }

    /// Whether this is a finite number.
    pub open spec fn finite(self) -> bool {
        self.low() < INFINITY
    }

    /// The magnitude of a finite number, in units of `2^-1074`.
    pub open spec fn magnitude(self) -> nat {
        quanta(self.low())
    }

    /// A finite number, in units of `2^-1074`.
    pub open spec fn value(self) -> int {
        if self.negative() {
            -(self.magnitude() as int)
        } else {
            self.magnitude() as int
        }
    }
}

/// The integer `n` as a number.
pub open spec fn whole(n: nat) -> Binary64 {
    nearest(false, n * pow2(1074), 1)
}

/// The rounded sum.
pub open spec fn sum(a: Binary64, b: Binary64) -> Binary64 {
    if a.nan() || b.nan() {
        not_a_number()
    } else if a.infinite() {
        if b.infinite() && a.negative() != b.negative() {
            not_a_number()
        } else {
            a
        }
    } else if b.infinite() {
        b
    } else {
        let v = a.value() + b.value();
        if v == 0 {
            signed(a.negative() && b.negative(), 0)
        } else if v < 0 {
            nearest(true, (-v) as nat, 1)
        } else {
            nearest(false, v as nat, 1)
        }
    }
}

/// The number with the other sign.
pub open spec fn opposite(a: Binary64) -> Binary64 {
    signed(!a.negative(), a.low())
}

/// The rounded difference.
pub open spec fn difference(a: Binary64, b: Binary64) -> Binary64 {
    sum(a, opposite(b))
}

/// The rounded product.
pub open spec fn product(a: Binary64, b: Binary64) -> Binary64 {
    let neg = a.negative() != b.negative();
    if a.nan() || b.nan() {
        not_a_number()
    } else if a.infinite() || b.infinite() {
        if a.low() == 0 || b.low() == 0 {
            not_a_number()
        } else {
            signed(neg, INFINITY as nat)
        }
    } else {
        nearest(neg, a.magnitude() * b.magnitude(), pow2(1074))
    }
}

/// The rounded quotient.
pub open spec fn quotient(a: Binary64, b: Binary64) -> Binary64 {
    let neg = a.negative() != b.negative();
    if a.nan() || b.nan() {
        not_a_number()
    } else if a.infinite() {
        if b.infinite() {
            not_a_number()
        } else {
            signed(neg, INFINITY as nat)
        }
    } else if b.infinite() {
        signed(neg, 0)
    } else if b.low() == 0 {
        if a.low() == 0 {
            not_a_number()
        } else {
            signed(neg, INFINITY as nat)
        }
    } else {
        nearest(neg, a.magnitude() * pow2(1074), b.magnitude())
    }
}

/// Whether `a` is less than `b` as a number; false where either is not one.
pub open spec fn less(a: Binary64, b: Binary64) -> bool {
    if a.nan() || b.nan() {
        false
    } else if a.infinite() {
        a.negative() && !(b.infinite() && b.negative())
    } else if b.infinite() {
        !b.negative()
    } else {
        a.value() < b.value()
    }
}

pub proof fn lemma_pow2_53()
    ensures
        pow2(52) == FRACTION,
        pow2(53) == 2 * FRACTION,
        pow2(54) == 4 * FRACTION,
        pow2(0) == 1,
        pow2(1) == 2,
{
    lemma2_to64();
    lemma2_to64_rest();
}

/// What determines the spacing.
pub(crate) proof fn lemma_spacing(num: nat, den: nat, k: nat)
    requires
        den > 0,
        num < pow2(53 + k) * den,
        k > 0 ==> num >= pow2((52 + k) as nat) * den,
    ensures
        spacing(num, den) == k,
    decreases k,
{
    if k > 0 {
        lemma_pow2_53();
        let k1 = (k - 1) as nat;
        lemma_pow2_unfold(53 + k);
        lemma_pow2_unfold((52 + k) as nat);
        let a = pow2(53 + k1);
        assert(pow2(53 + k) == 2 * a);
        assert(num < a * (2 * den)) by (nonlinear_arith)
            requires
                num < (2 * a) * den,
        ;
        if k > 1 {
            let b = pow2((52 + k1) as nat);
            assert(a == 2 * b);
            assert(num >= b * (2 * den)) by (nonlinear_arith)
                requires
                    num >= (2 * b) * den,
            ;
        }
        if k1 > 0 {
            lemma_pow2_strictly_increases(53, (52 + k) as nat);
        }
        assert(num >= pow2(53) * den) by (nonlinear_arith)
            requires
                num >= pow2((52 + k) as nat) * den,
                pow2((52 + k) as nat) >= pow2(53),
        ;
        lemma_spacing(num, 2 * den, k1);
    }
}

/// Rounding a quotient depends on the quotient alone.
pub(crate) proof fn lemma_half_even_scale(num: nat, den: nat, c: nat)
    requires
        den > 0,
        c > 0,
    ensures
        half_even(num * c, den * c) == half_even(num, den),
{
    let q = num / den;
    let r = num % den;
    lemma_fundamental_div_mod(num as int, den as int);
    assert(num * c == q * (den * c) + r * c) by (nonlinear_arith)
        requires
            num == den * q + r,
    ;
    assert(0 <= r * c < den * c) by (nonlinear_arith)
        requires
            0 <= r < den,
            c > 0,
    ;
    lemma_fundamental_div_mod_converse((num * c) as int, (den * c) as int, q as int, (r * c) as int);
    assert(2 * (r * c) < den * c <==> 2 * r < den) by (nonlinear_arith)
        requires
            c > 0,
    ;
    assert(2 * (r * c) == den * c <==> 2 * r == den) by (nonlinear_arith)
        requires
            c > 0,
    ;
}

/// Rounding in two steps: the quotient by `den`, cut off, then by the even number `unit`, with
/// the cut part deciding ties.
proof fn lemma_half_even_split(num: nat, den: nat, unit: nat, half: nat)
    requires
        den > 0,
        half > 0,
        unit == 2 * half,
    ensures
        ({
            let m = num / den;
            let q = m / unit;
            let r = m % unit;
            half_even(num, den * unit) == if r < half || (r == half && num % den == 0 && q % 2
                == 0) {
                q
            } else {
                q + 1
            }
        }),
{
    let m = num / den;
    let cut = num % den;
    let q = m / unit;
    let r = m % unit;
    let rest = den * r + cut;
    lemma_fundamental_div_mod(num as int, den as int);
    lemma_fundamental_div_mod(m as int, unit as int);
    assert(num == q * (den * unit) + rest) by (nonlinear_arith)
        requires
            num == den * m + cut,
            m == unit * q + r,
            rest == den * r + cut,
    ;
    assert(0 <= rest < den * unit) by (nonlinear_arith)
        requires
            rest == den * r + cut,
            0 <= r < unit,
            0 <= cut < den,
    ;
    lemma_fundamental_div_mod_converse(num as int, (den * unit) as int, q as int, rest as int);
    if r < half {
        assert(2 * rest < den * unit) by (nonlinear_arith)
            requires
                rest == den * r + cut,
                r + 1 <= half,
                unit == 2 * half,
                0 <= cut < den,
        ;
    } else if r == half {
        assert(2 * rest == den * unit + 2 * cut) by (nonlinear_arith)
            requires
                rest == den * r + cut,
                r == half,
                unit == 2 * half,
        ;
    } else {
        assert(2 * rest > den * unit) by (nonlinear_arith)
            requires
                rest == den * r + cut,
                r >= half + 1,
                unit == 2 * half,
                0 <= cut,
                den > 0,
        ;
    }
}

proof fn lemma_cancel_below(num: nat, den: nat, pq: nat, pp: nat, hi: nat, top: nat)
    requires
        num * pq < hi * (den * pp),
        top * pq >= hi * pp,
        pq > 0,
    ensures
        num < top * den,
{
    assert(hi * (den * pp) == (hi * pp) * den) by (nonlinear_arith);
    assert((top * den) * pq == (top * pq) * den) by (nonlinear_arith);
    assert((top * pq) * den >= (hi * pp) * den) by (nonlinear_arith)
        requires
            top * pq >= hi * pp,
    ;
    if num >= top * den {
        lemma_mul_inequality((top * den) as int, num as int, pq as int);
    }
}

proof fn lemma_cancel_above(num: nat, den: nat, pq: nat, pp: nat, lo: nat, bottom: nat)
    requires
        num * pq >= lo * (den * pp),
        bottom * pq == lo * pp,
        pq > 0,
    ensures
        num >= bottom * den,
{
    assert(lo * (den * pp) == (lo * pp) * den) by (nonlinear_arith);
    assert((bottom * den) * pq == (bottom * pq) * den) by (nonlinear_arith);
    if num < bottom * den {
        lemma_mul_strict_inequality(num as int, (bottom * den) as int, pq as int);
    }
}

/// How the pattern of `num / den` follows from the quotient `m` of `num * 2^q` by `den * 2^p`
/// when `m` has `len` bits.
proof fn lemma_nearest(num: nat, den: nat, m: nat, p: nat, q: nat, len: nat, k: nat)
    requires
        den > 0,
        m == (num * pow2(q)) / (den * pow2(p)),
        len >= 54,
        pow2((len - 1) as nat) <= m < pow2(len),
        k == if len + p > 53 + q {
            len + p - 53 - q
        } else {
            0
        },
    ensures
        k + q > p,
        spacing(num, den) == k,
        half_even(num, den * pow2(k)) == half_even(
            num * pow2(q),
            (den * pow2(p)) * pow2((k + q - p) as nat),
        ),
{
    let pq = pow2(q);
    let pp = pow2(p);
    let n = num * pq;
    let d = den * pp;
    let sh = (k + q - p) as nat;
    lemma_pow2_pos(q);
    lemma_pow2_pos(p);
    assert(d > 0) by (nonlinear_arith)
        requires
            den > 0,
            pp > 0,
            d == den * pp,
    ;
    lemma_fundamental_div_mod(n as int, d as int);
    let hi = pow2(len);
    let lo = pow2((len - 1) as nat);
    assert(n < hi * d) by (nonlinear_arith)
        requires
            n == d * m + n % d,
            0 <= n % d < d,
            m + 1 <= hi,
    ;
    assert(n >= lo * d) by (nonlinear_arith)
        requires
            n == d * m + n % d,
            0 <= n % d,
            lo <= m,
            d > 0,
    ;
    // num < 2^(53 + k) * den
    let top = pow2(53 + k);
    lemma_pow2_adds(53 + k, q);
    lemma_pow2_adds(len, p);
    let a = pow2(len + p);
    if 53 + k + q > len + p {
        lemma_pow2_strictly_increases(len + p, 53 + k + q);
    }
    lemma_cancel_below(num, den, pq, pp, hi, top);
    if k > 0 {
        let bottom = pow2((52 + k) as nat);
        lemma_pow2_adds((52 + k) as nat, q);
        lemma_pow2_adds((len - 1) as nat, p);
        assert(bottom * pq == lo * pp);
        lemma_cancel_above(num, den, pq, pp, lo, bottom);
    }
    lemma_spacing(num, den, k);
    let pk = pow2(k);
    let ps = pow2(sh);
    lemma_pow2_pos(k);
    lemma_pow2_adds(k, q);
    lemma_pow2_adds(p, sh);
    assert(p + sh == k + q);
    assert((den * pk) * pq == d * ps) by (nonlinear_arith)
        requires
            pk * pq == pp * ps,
            d == den * pp,
    ;
    assert(den * pk > 0) by (nonlinear_arith)
        requires
            den > 0,
            pk > 0,
    ;
    lemma_half_even_scale(num, den * pk, pq);
}

/// `2^n`.
pub(crate) fn power_of_two(n: u64) -> (r: u128)
    requires
        n <= 126,
    ensures
        r == pow2(n as nat),
        r <= 0x4000_0000_0000_0000_0000_0000_0000_0000,
{
    let mut r: u128 = 1;
    let mut i: u64 = 0;
    proof {
        lemma_pow2_53();
    }
    while i < n
        invariant
            i <= n <= 126,
            r == pow2(i as nat),
        decreases n - i,
    {
        proof {
            lemma_pow2_bound(i as nat + 1);
            lemma_pow2_unfold(i as nat + 1);
        }
        r = r * 2;
        i = i + 1;
    }
    proof {
        lemma_pow2_bound(i as nat);
    }
    r
}

proof fn lemma_pow2_bound(n: nat)
    requires
        n <= 126,
    ensures
        pow2(n) <= 0x4000_0000_0000_0000_0000_0000_0000_0000,
{
    lemma2_to64();
    lemma2_to64_rest();
    lemma_pow2_adds(63, 63);
    if n < 126 {
        lemma_pow2_strictly_increases(n, 126);
    }
}

/// The number nearest to `num / den`, from the quotient `m` of `num * 2^q` by `den * 2^p` and
/// whether that division left a remainder.
fn round(neg: bool, m: u128, p: u64, q: u64, inexact: bool, Ghost(num): Ghost<nat>, Ghost(den): Ghost<nat>) -> (r: Binary64)
    requires
        den > 0,
        0x20_0000_0000_0000 <= m < 0x100_0000_0000_0000_0000_0000_0000_0000,
        p <= 0x10000,
        q <= 0x10000,
        m == (num * pow2(q as nat)) / (den * pow2(p as nat)),
        inexact == ((num * pow2(q as nat)) % (den * pow2(p as nat)) != 0),
    ensures
        r == nearest(neg, num, den),
{
    // The number of bits of `m`.
    let mut len: u64 = 54;
    let mut above: u128 = 0x40_0000_0000_0000;
    proof {
        lemma_pow2_53();
    }
    while above <= m
        invariant
            54 <= len <= 120,
            above == pow2(len as nat),
            pow2((len - 1) as nat) <= m < 0x100_0000_0000_0000_0000_0000_0000_0000,
        decreases 120 - len,
    {
        proof {
            lemma_pow2_120();
            lemma_pow2_unfold((len + 1) as nat);
            if len == 120 {
                assert(false);
            }
        }
        above = above * 2;
        len = len + 1;
    }
    let k: u64 = if len + p > 53 + q {
        len + p - 53 - q
    } else {
        0
    };
    proof {
        lemma_nearest(num, den, m as nat, p as nat, q as nat, len as nat, k as nat);
    }
    let shift: u64 = k + q - p;
    let ghost n = num * pow2(q as nat);
    let ghost d = den * pow2(p as nat);
    proof {
        lemma_pow2_pos(p as nat);
        assert(d > 0) by (nonlinear_arith)
            requires
                den > 0,
                pow2(p as nat) > 0,
                d == den * pow2(p as nat),
        ;
        let half = pow2((shift - 1) as nat);
        lemma_pow2_pos((shift - 1) as nat);
        lemma_pow2_unfold(shift as nat);
        lemma_half_even_split(n, d, pow2(shift as nat), half);
    }
    let s: u64;
    if shift > 121 {
        proof {
            lemma_pow2_120();
            lemma_pow2_strictly_increases(120, (shift - 1) as nat);
            lemma_pow2_unfold(shift as nat);
            lemma_basic_div(m as int, pow2(shift as nat) as int);
            lemma_small_mod(m as nat, pow2(shift as nat));
        }
        s = 0;
    } else {
        let half: u128 = power_of_two(shift - 1);
        proof {
            lemma_pow2_unfold(shift as nat);
        }
        let unit: u128 = half * 2;
        let whole: u128 = m / unit;
        let rest: u128 = m % unit;
        proof {
            lemma_quotient_bound(m as nat, len as nat, k as nat, p as nat, q as nat);
        }
        if rest < half || (rest == half && !inexact && whole % 2 == 0) {
            s = whole as u64;
        } else {
            s = whole as u64 + 1;
        }
    }
    let low: u64 = if k >= 2046 {
        INFINITY
    } else {
        let low: u64 = k * FRACTION + s;
        if low < INFINITY {
            low
        } else {
            INFINITY
        }
    };
    if neg {
        Binary64 { bits: SIGN + low }
    } else {
        Binary64 { bits: low }
    }
}

proof fn lemma_pow2_120()
    ensures
        pow2(120) == 0x100_0000_0000_0000_0000_0000_0000_0000,
{
    lemma2_to64();
    lemma2_to64_rest();
    lemma_pow2_adds(60, 60);
}

proof fn lemma_quotient_bound(m: nat, len: nat, k: nat, p: nat, q: nat)
    requires
        m < pow2(len),
        len >= 54,
        len <= 53 + k + q - p,
        k + q > p,
    ensures
        m / pow2((k + q - p) as nat) < 2 * FRACTION,
        k > 0 && len == 53 + k + q - p && m >= pow2((len - 1) as nat) ==> m / pow2((k + q - p) as nat) >= FRACTION,
{
    let sh = (k + q - p) as nat;
    let unit = pow2(sh);
    lemma_pow2_pos(sh);
    lemma_pow2_53();
    lemma_pow2_adds(53, sh);
    lemma_pow2_adds(52, sh);
    if len < 53 + sh {
        lemma_pow2_strictly_increases(len, 53 + sh);
    }
    lemma_fundamental_div_mod(m as int, unit as int);
    let w = m / unit;
    assert(w < 2 * FRACTION) by (nonlinear_arith)
        requires
            m == unit * w + m % unit,
            0 <= m % unit,
            m < pow2(53) * unit,
            pow2(53) == 2 * FRACTION,
            unit > 0,
    ;
    if k > 0 && len == 53 + sh && m >= pow2((len - 1) as nat) {
        assert(w >= FRACTION) by (nonlinear_arith)
            requires
                m == unit * w + m % unit,
                m % unit < unit,
                m >= pow2(52) * unit,
                pow2(52) == FRACTION,
                unit > 0,
        ;
    }
}

/// Larger unsigned patterns have larger magnitudes.
pub proof fn lemma_quanta_increases(a: nat, b: nat)
    requires
        a < b,
    ensures
        quanta(a) < quanta(b),
{
    let f = FRACTION as nat;
    if b >= 2 * f {
        let eb = (b / f - 1) as nat;
        let fb = b % f;
        lemma_fundamental_div_mod(b as int, f as int);
        lemma_pow2_pos(eb);
        if a < 2 * f {
            lemma_pow2_unfold(eb);
            assert(pow2(eb) >= 2) by {
                lemma_pow2_pos((eb - 1) as nat);
            }
            assert((f + fb) * pow2(eb) >= 2 * f) by (nonlinear_arith)
                requires
                    pow2(eb) >= 2,
                    fb >= 0,
            ;
        } else {
            let ea = (a / f - 1) as nat;
            let fa = a % f;
            lemma_fundamental_div_mod(a as int, f as int);
            lemma_pow2_pos(ea);
            if ea == eb {
                assert((f + fa) * pow2(ea) < (f + fb) * pow2(ea)) by (nonlinear_arith)
                    requires
                        fa < fb,
                        pow2(ea) > 0,
                ;
            } else {
                assert(ea < eb);
                lemma_pow2_unfold(ea + 1);
                if ea + 1 < eb {
                    lemma_pow2_strictly_increases(ea + 1, eb);
                }
                assert((f + fa) * pow2(ea) < (f + fb) * pow2(eb)) by (nonlinear_arith)
                    requires
                        fa < f,
                        fb >= 0,
                        pow2(eb) >= 2 * pow2(ea),
                        pow2(ea) > 0,
                ;
            }
        }
    }
}

/// The significand and the exponent of a finite number above zero.
pub(crate) fn unpack(low: u64) -> (r: (u64, u64))
    requires
        0 < low < INFINITY,
    ensures
        quanta(low as nat) == r.0 * pow2(r.1 as nat),
        0 < r.0 < 2 * FRACTION,
        r.1 <= 2045,
        r.1 > 0 ==> r.0 >= FRACTION,
{
    if low < 2 * FRACTION {
        proof {
            lemma_pow2_53();
        }
        (low, 0)
    } else {
        (FRACTION + low % FRACTION, low / FRACTION - 1)
    }
}

/// A significand and an exponent as by `unpack`, the significand scaled up by a power of two to
/// at least `2^52`; the third number is the exponent of that power.
fn unpack_full(low: u64) -> (r: (u64, u64, u64))
    requires
        0 < low < INFINITY,
    ensures
        quanta(low as nat) * pow2(r.2 as nat) == r.0 * pow2(r.1 as nat),
        FRACTION <= r.0 < 2 * FRACTION,
        r.1 <= 2045,
        r.2 <= 52,
{
    let (start, e) = unpack(low);
    let mut m: u64 = start;
    let mut t: u64 = 0;
    proof {
        lemma_pow2_53();
    }
    while m < FRACTION
        invariant
            0 < m < 2 * FRACTION,
            t <= 52,
            m == start * pow2(t as nat),
            start > 0,
            pow2(52) == FRACTION,
        decreases 2 * FRACTION - m,
    {
        proof {
            lemma_pow2_unfold((t + 1) as nat);
            assert(start * pow2((t + 1) as nat) == 2 * (start * pow2(t as nat))) by (nonlinear_arith)
                requires
                    pow2((t + 1) as nat) == 2 * pow2(t as nat),
            ;
            if t == 52 {
                assert(start * pow2(52) >= FRACTION) by (nonlinear_arith)
                    requires
                        start >= 1,
                        pow2(52) == FRACTION,
                ;
            }
        }
        m = 2 * m;
        t = t + 1;
    }
    proof {
        assert((start * pow2(e as nat)) * pow2(t as nat) == (start * pow2(t as nat)) * pow2(e as nat))
            by (nonlinear_arith);
    }
    (m, e, t)
}

/// The number nearest to `m * 2^e` units.
fn exact(neg: bool, m: u128, e: u64) -> (r: Binary64)
    requires
        0 < m < 0x40_0000_0000_0000_0000_0000_0000_0000,
        e <= 2045,
    ensures
        r == nearest(neg, m as nat * pow2(e as nat), 1),
{
    let ghost num = m as nat * pow2(e as nat);
    let ghost d = pow2(e as nat);
    proof {
        lemma_pow2_pos(e as nat);
        lemma_pow2_53();
        lemma2_to64();
        assert(1 * d == d);
    }
    if m >= 0x20_0000_0000_0000 {
        proof {
            assert(num * pow2(0) == num) by (nonlinear_arith)
                requires
                    pow2(0) == 1,
            ;
            lemma_div_by_multiple(m as int, d as int);
            lemma_mod_multiples_basic(m as int, d as int);
        }
        round(neg, m, e, 0, false, Ghost(num), Ghost(1))
    } else {
        let big: u128 = m * 0x1_0000_0000_0000_0000;
        proof {
            assert(num * pow2(64) == big as nat * d) by (nonlinear_arith)
                requires
                    num == m as nat * d,
                    big as nat == m as nat * pow2(64),
            ;
            lemma_div_by_multiple(big as int, d as int);
            lemma_mod_multiples_basic(big as int, d as int);
        }
        round(neg, big, e, 64, false, Ghost(num), Ghost(1))
    }
}

/// Numbers with a significand far above a small magnitude: the sum of the two, or their
/// difference.
fn far(neg: bool, m: u64, e: u64, away: bool, Ghost(small): Ghost<nat>) -> (r: Binary64)
    requires
        FRACTION <= m < 2 * FRACTION,
        10 <= e <= 2045,
        0 < small,
        small * 1024 < pow2(e as nat),
    ensures
        away ==> r == nearest(neg, m as nat * pow2(e as nat) + small, 1),
        !away ==> m as nat * pow2(e as nat) > small && r == nearest(
            neg,
            (m as nat * pow2(e as nat) - small) as nat,
            1,
        ),
{
    let ghost d = pow2(e as nat);
    let wide: u128 = m as u128 * 1024;
    proof {
        lemma_pow2_pos(e as nat);
        lemma2_to64();
        assert(1 * d == d);
        assert(m as nat * d > small) by (nonlinear_arith)
            requires
                m >= FRACTION,
                small * 1024 < d,
        ;
    }
    if away {
        let ghost num = m as nat * d + small;
        proof {
            assert(num * pow2(10) == d * wide as nat + small * 1024) by (nonlinear_arith)
                requires
                    num == m as nat * d + small,
                    pow2(10) == 1024,
                    wide as nat == m as nat * 1024,
            ;
            lemma_fundamental_div_mod_converse(
                (num * pow2(10)) as int,
                d as int,
                wide as int,
                (small * 1024) as int,
            );
        }
        round(neg, wide, e, 10, true, Ghost(num), Ghost(1))
    } else {
        let ghost num = (m as nat * d - small) as nat;
        proof {
            assert(num * pow2(10) == d * (wide - 1) + (d - small * 1024)) by (nonlinear_arith)
                requires
                    num == m as nat * d - small,
                    pow2(10) == 1024,
                    wide == m as nat * 1024,
            ;
            lemma_fundamental_div_mod_converse(
                (num * pow2(10)) as int,
                d as int,
                (wide - 1) as int,
                d - small * 1024,
            );
        }
        round(neg, wide - 1, e, 10, true, Ghost(num), Ghost(1))
    }
}

/// The sum of two finite numbers above zero, or the difference in magnitude where `away` does
/// not hold, the first exponent being at least the second. `neg` is the sign of the first.
fn combine(neg: bool, a: (u64, u64), b: (u64, u64), away: bool) -> (r: Binary64)
    requires
        0 < a.0 < 2 * FRACTION,
        0 < b.0 < 2 * FRACTION,
        b.1 <= a.1 <= 2045,
        a.1 > 0 ==> a.0 >= FRACTION,
    ensures
        ({
            let x = a.0 as nat * pow2(a.1 as nat);
            let y = b.0 as nat * pow2(b.1 as nat);
            r == if away {
                nearest(neg, x + y, 1)
            } else if x == y {
                signed(false, 0)
            } else if x > y {
                nearest(neg, (x - y) as nat, 1)
            } else {
                nearest(!neg, (y - x) as nat, 1)
            }
        }),
{
    let gap: u64 = a.1 - b.1;
    let ghost u = pow2(b.1 as nat);
    let ghost x = a.0 as nat * pow2(a.1 as nat);
    let ghost y = b.0 as nat * pow2(b.1 as nat);
    proof {
        lemma_pow2_pos(b.1 as nat);
        lemma_pow2_adds(b.1 as nat, gap as nat);
    }
    if gap <= 64 {
        let scale: u128 = power_of_two(gap);
        proof {
            lemma2_to64();
            if gap < 64 {
                lemma_pow2_strictly_increases(gap as nat, 64);
            }
            assert(a.0 as nat * scale as nat <= 0x20_0000_0000_0000 * 0x1_0000_0000_0000_0000)
                by (nonlinear_arith)
                requires
                    a.0 < 0x20_0000_0000_0000,
                    scale <= 0x1_0000_0000_0000_0000,
            ;
            lemma_pow2_pos(gap as nat);
            assert(a.0 as nat * scale as nat > 0) by (nonlinear_arith)
                requires
                    a.0 > 0,
                    scale > 0,
            ;
        }
        let high: u128 = a.0 as u128 * scale;
        let low: u128 = b.0 as u128;
        proof {
            assert(x == high as nat * u) by (nonlinear_arith)
                requires
                    x == a.0 as nat * (u * scale as nat),
                    high as nat == a.0 as nat * scale as nat,
            ;
            assert((high + low) * u == x + y) by (nonlinear_arith)
                requires
                    x == high * u,
                    y == low * u,
            ;
            assert((high - low) * u == x - y) by (nonlinear_arith)
                requires
                    x == high * u,
                    y == low * u,
            ;
            assert((low - high) * u == y - x) by (nonlinear_arith)
                requires
                    x == high * u,
                    y == low * u,
            ;
            assert(high > low ==> (high - low) * u > 0) by (nonlinear_arith)
                requires
                    u > 0,
            ;
            assert(low > high ==> (low - high) * u > 0) by (nonlinear_arith)
                requires
                    u > 0,
            ;
            assert(low == high ==> (low - high) * u == 0) by (nonlinear_arith);
        }
        if away {
            exact(neg, high + low, b.1)
        } else if high == low {
            Binary64 { bits: 0 }
        } else if high > low {
            exact(neg, high - low, b.1)
        } else {
            exact(!neg, low - high, b.1)
        }
    } else {
        proof {
            lemma_pow2_53();
            lemma2_to64();
            lemma2_to64_rest();
            lemma_pow2_adds(63, b.1 as nat);
            lemma_pow2_strictly_increases((63 + b.1) as nat, a.1 as nat);
            assert(y > 0) by (nonlinear_arith)
                requires
                    y == b.0 as nat * u,
                    b.0 > 0,
                    u > 0,
            ;
            assert(y * 1024 < pow2(63) * u) by (nonlinear_arith)
                requires
                    y == b.0 as nat * u,
                    b.0 < 0x20_0000_0000_0000,
                    pow2(63) == 0x8000_0000_0000_0000,
                    u > 0,
            ;
        }
        far(neg, a.0, a.1, away, Ghost(y))
    }
}

proof fn lemma_divide_scaled(a: nat, b: nat, c: nat)
    requires
        b > 0,
        c > 0,
    ensures
        (a * c) / (b * c) == a / b,
        (a * c) % (b * c) == 0 <==> a % b == 0,
{
    let q = a / b;
    let r = a % b;
    lemma_fundamental_div_mod(a as int, b as int);
    assert(a * c == q * (b * c) + r * c) by (nonlinear_arith)
        requires
            a == b * q + r,
    ;
    assert(0 <= r * c < b * c) by (nonlinear_arith)
        requires
            0 <= r < b,
            c > 0,
    ;
    lemma_fundamental_div_mod_converse((a * c) as int, (b * c) as int, q as int, (r * c) as int);
    assert(r * c == 0 <==> r == 0) by (nonlinear_arith)
        requires
            c > 0,
    ;
}

impl Binary64 {
    /// Positive zero.
    pub fn zero() -> (r: Binary64)
        ensures
            r == zero(),
    {
        Binary64 { bits: 0 }
    }

    /// The number with this bit pattern.
    pub fn from_bits(bits: u64) -> (r: Binary64)
        ensures
            r.bits == bits,
    {
        Binary64 { bits }
    }

    /// The bit pattern.
    pub fn to_bits(self) -> (bits: u64)
        ensures
            bits == self.bits,
    {
        self.bits
    }

    /// Whether this is not a number.
    pub fn is_nan(self) -> (b: bool)
        ensures
            b == self.nan(),
    {
        self.bits % SIGN > INFINITY
    }

    /// Whether this is neither infinite nor not a number.
    pub fn is_finite(self) -> (b: bool)
        ensures
            b == self.finite(),
    {
        self.bits % SIGN < INFINITY
    }

    /// The number nearest to an integer.
    pub fn from_u64(n: u64) -> (r: Binary64)
        ensures
            r == whole(n as nat),
    {
        if n == 0 {
            proof {
                lemma_nearest_zero(false, 1);
                assert(0 * pow2(1074) == 0) by (nonlinear_arith);
            }
            Binary64 { bits: 0 }
        } else {
            exact(false, n as u128, 1074)
        }
    }

    /// The number with the other sign.
    pub fn negate(self) -> (r: Binary64)
        ensures
            r == opposite(self),
    {
        if self.bits >= SIGN {
            Binary64 { bits: self.bits - SIGN }
        } else {
            Binary64 { bits: SIGN + self.bits }
        }
    }

    /// The rounded sum.
    pub fn plus(self, other: Binary64) -> (r: Binary64)
        ensures
            r == sum(self, other),
    {
        let a: u64 = self.bits % SIGN;
        let b: u64 = other.bits % SIGN;
        let neg_a: bool = self.bits >= SIGN;
        let neg_b: bool = other.bits >= SIGN;
        if a > INFINITY || b > INFINITY {
            return Binary64 { bits: NOT_A_NUMBER };
        }
        if a == INFINITY {
            return if b == INFINITY && neg_a != neg_b {
                Binary64 { bits: NOT_A_NUMBER }
            } else {
                self
            };
        }
        if b == INFINITY {
            return other;
        }
        proof {
            lemma_quanta_zero(a as nat);
            lemma_quanta_zero(b as nat);
        }
        if a == 0 {
            if b == 0 {
                return if neg_a && neg_b {
                    Binary64 { bits: SIGN }
                } else {
                    Binary64 { bits: 0 }
                };
            }
            let (m, e) = unpack(b);
            return exact(neg_b, m as u128, e);
        }
        let x: (u64, u64) = unpack(a);
        if b == 0 {
            return exact(neg_a, x.0 as u128, x.1);
        }
        let y: (u64, u64) = unpack(b);
        if x.1 >= y.1 {
            combine(neg_a, x, y, neg_a == neg_b)
        } else {
            combine(neg_b, y, x, neg_a == neg_b)
        }
    }

    /// The rounded difference.
    pub fn minus(self, other: Binary64) -> (r: Binary64)
        ensures
            r == difference(self, other),
    {
        self.plus(other.negate())
    }

    /// The rounded product.
    pub fn times(self, other: Binary64) -> (r: Binary64)
        ensures
            r == product(self, other),
    {
        let a: u64 = self.bits % SIGN;
        let b: u64 = other.bits % SIGN;
        let neg: bool = (self.bits >= SIGN) != (other.bits >= SIGN);
        let sign: u64 = if neg {
            SIGN
        } else {
            0
        };
        if a > INFINITY || b > INFINITY {
            return Binary64 { bits: NOT_A_NUMBER };
        }
        if a == INFINITY || b == INFINITY {
            return if a == 0 || b == 0 {
                Binary64 { bits: NOT_A_NUMBER }
            } else {
                Binary64 { bits: sign + INFINITY }
            };
        }
        let ghost one = pow2(1074);
        let ghost num = self.magnitude() * other.magnitude();
        proof {
            lemma_pow2_pos(1074);
            lemma_quanta_zero(a as nat);
            lemma_quanta_zero(b as nat);
        }
        if a == 0 || b == 0 {
            proof {
                assert(num == 0) by (nonlinear_arith)
                    requires
                        num == self.magnitude() * other.magnitude(),
                        self.magnitude() == 0 || other.magnitude() == 0,
                ;
                lemma_nearest_zero(neg, one);
            }
            return Binary64 { bits: sign };
        }
        let (ma, ea, ta) = unpack_full(a);
        let (mb, eb, tb) = unpack_full(b);
        proof {
            assert(ma as nat * mb as nat <= 0x20_0000_0000_0000 * 0x20_0000_0000_0000)
                by (nonlinear_arith)
                requires
                    ma < 0x20_0000_0000_0000,
                    mb < 0x20_0000_0000_0000,
            ;
            assert(ma as nat * mb as nat >= 0x10_0000_0000_0000 * 0x10_0000_0000_0000)
                by (nonlinear_arith)
                requires
                    ma >= 0x10_0000_0000_0000,
                    mb >= 0x10_0000_0000_0000,
            ;
        }
        let m: u128 = ma as u128 * mb as u128;
        let p: u64 = ea + eb;
        let q: u64 = ta + tb + 1074;
        proof {
            let d = one * pow2(p as nat);
            lemma_pow2_adds(ea as nat, eb as nat);
            lemma_pow2_adds(ta as nat, tb as nat);
            lemma_pow2_adds((ta + tb) as nat, 1074);
            let pa = pow2(ta as nat);
            let pb = pow2(tb as nat);
            let xa = self.magnitude();
            let xb = other.magnitude();
            assert((xa * xb) * (pa * pb * one) == ((xa * pa) * (xb * pb)) * one) by (nonlinear_arith);
            let qa = pow2(ea as nat);
            let qb = pow2(eb as nat);
            assert(((ma as nat * qa) * (mb as nat * qb)) * one == (ma as nat * mb as nat) * (one * (
            qa * qb))) by (nonlinear_arith);
            assert(num * pow2(q as nat) == m as nat * d);
            lemma_pow2_pos(p as nat);
            assert(d > 0) by (nonlinear_arith)
                requires
                    d == one * pow2(p as nat),
                    one > 0,
                    pow2(p as nat) > 0,
            ;
            lemma_div_by_multiple(m as int, d as int);
            lemma_mod_multiples_basic(m as int, d as int);
        }
        round(neg, m, p, q, false, Ghost(num), Ghost(one))
    }

    /// The rounded quotient.
    pub fn over(self, other: Binary64) -> (r: Binary64)
        ensures
            r == quotient(self, other),
    {
        let a: u64 = self.bits % SIGN;
        let b: u64 = other.bits % SIGN;
        let neg: bool = (self.bits >= SIGN) != (other.bits >= SIGN);
        let sign: u64 = if neg {
            SIGN
        } else {
            0
        };
        if a > INFINITY || b > INFINITY {
            return Binary64 { bits: NOT_A_NUMBER };
        }
        if a == INFINITY {
            return if b == INFINITY {
                Binary64 { bits: NOT_A_NUMBER }
            } else {
                Binary64 { bits: sign + INFINITY }
            };
        }
        if b == INFINITY {
            return Binary64 { bits: sign };
        }
        if b == 0 {
            return if a == 0 {
                Binary64 { bits: NOT_A_NUMBER }
            } else {
                Binary64 { bits: sign + INFINITY }
            };
        }
        let ghost one = pow2(1074);
        let ghost num = self.magnitude() * one;
        let ghost den = other.magnitude();
        proof {
            lemma_pow2_pos(1074);
            lemma_quanta_zero(a as nat);
            lemma_quanta_zero(b as nat);
        }
        if a == 0 {
            proof {
                assert(num == 0) by (nonlinear_arith)
                    requires
                        num == self.magnitude() * one,
                        self.magnitude() == 0,
                ;
                lemma_nearest_zero(neg, den);
            }
            return Binary64 { bits: sign };
        }
        let (ma, ea, ta) = unpack_full(a);
        let (mb, eb, tb) = unpack_full(b);
        let top: u128 = ma as u128 * 0x1000_0000_0000_0000;
        let m: u128 = top / mb as u128;
        let inexact: bool = top % mb as u128 != 0;
        let p: u64 = tb + ea + 1074;
        let q: u64 = ta + 60 + eb;
        proof {
            lemma2_to64();
            lemma2_to64_rest();
            lemma_quotient_range(ma as nat, mb as nat);
            let xa = self.magnitude();
            let pa = pow2(ta as nat);
            let pb = pow2(tb as nat);
            let qa = pow2(ea as nat);
            let qb = pow2(eb as nat);
            let sixty = pow2(60);
            lemma_pow2_adds(ta as nat, 60);
            lemma_pow2_adds((ta + 60) as nat, eb as nat);
            lemma_pow2_adds(tb as nat, ea as nat);
            lemma_pow2_adds((tb + ea) as nat, 1074);
            let c = qa * qb * one;
            assert((xa * one) * (pa * sixty * qb) == ((xa * pa) * sixty) * (qb * one)) by (nonlinear_arith);
            assert(((ma as nat * qa) * sixty) * (qb * one) == (ma as nat * sixty) * c) by (nonlinear_arith)
                requires
                    c == qa * qb * one,
            ;
            assert(num * pow2(q as nat) == top as nat * c);
            assert(den * (pb * qa * one) == (den * pb) * (qa * one)) by (nonlinear_arith);
            assert((mb as nat * qb) * (qa * one) == mb as nat * c) by (nonlinear_arith)
                requires
                    c == qa * qb * one,
            ;
            assert(den * pow2(p as nat) == mb as nat * c);
            lemma_pow2_pos(ea as nat);
            lemma_pow2_pos(eb as nat);
            assert(c > 0) by (nonlinear_arith)
                requires
                    c == qa * qb * one,
                    qa > 0,
                    qb > 0,
                    one > 0,
            ;
            lemma_divide_scaled(top as nat, mb as nat, c);
        }
        round(neg, m, p, q, inexact, Ghost(num), Ghost(den))
    }

    /// Whether this is the smaller number.
    pub fn is_less(self, other: Binary64) -> (b: bool)
        ensures
            b == less(self, other),
    {
        let a: u64 = self.bits % SIGN;
        let b: u64 = other.bits % SIGN;
        let neg_a: bool = self.bits >= SIGN;
        let neg_b: bool = other.bits >= SIGN;
        if a > INFINITY || b > INFINITY {
            return false;
        }
        proof {
            lemma_quanta_zero(a as nat);
            lemma_quanta_zero(b as nat);
            if a < b {
                lemma_quanta_increases(a as nat, b as nat);
            }
            if b < a {
                lemma_quanta_increases(b as nat, a as nat);
            }
        }
        if neg_a {
            if neg_b {
                b < a
            } else {
                a != 0 || b != 0
            }
        } else {
            !neg_b && a < b
        }
    }
}

proof fn lemma_quotient_range(ma: nat, mb: nat)
    requires
        FRACTION <= ma < 2 * FRACTION,
        FRACTION <= mb < 2 * FRACTION,
    ensures
        0x20_0000_0000_0000 <= (ma * 0x1000_0000_0000_0000) / mb < 0x100_0000_0000_0000_0000_0000_0000_0000,
{
    let top = ma * 0x1000_0000_0000_0000;
    let q = top / mb;
    lemma_fundamental_div_mod(top as int, mb as int);
    assert(q >= 0x20_0000_0000_0000) by (nonlinear_arith)
        requires
            top == mb * q + top % mb,
            0 <= top % mb < mb,
            top >= 0x10_0000_0000_0000 * 0x1000_0000_0000_0000,
            mb < 0x20_0000_0000_0000,
    ;
    assert(q <= top) by (nonlinear_arith)
        requires
            top == mb * q + top % mb,
            0 <= top % mb,
            mb >= 1,
    ;
}

pub(crate) proof fn lemma_quanta_zero(low: nat)
    ensures
        quanta(low) == 0 <==> low == 0,
{
    if low > 0 {
        lemma_quanta_increases(0, low);
    }
}

pub(crate) proof fn lemma_nearest_zero(neg: bool, den: nat)
    requires
        den > 0,
    ensures
        nearest(neg, 0, den) == signed(neg, 0),
{
    lemma_pow2_53();
    assert(pow2(53) * den > 0) by (nonlinear_arith)
        requires
            pow2(53) > 0,
            den > 0,
    ;
    assert(den * 1 == den);
    lemma_basic_div(0, den as int);
    lemma_small_mod(0, den);
}

/// The defining bounds of the spacing.
pub(crate) proof fn lemma_spacing_bounds(num: nat, den: nat)
    requires
        den > 0,
    ensures
        ({
            let k = spacing(num, den);
            &&& num < pow2(53 + k) * den
            &&& k > 0 ==> num >= pow2((52 + k) as nat) * den
        }),
    decreases num - den,
{
    lemma_pow2_53();
    if num >= pow2(53) * den {
        assert(num >= 2 * den) by (nonlinear_arith)
            requires
                num >= pow2(53) * den,
                pow2(53) == 0x20_0000_0000_0000nat,
                den > 0,
        ;
        lemma_spacing_bounds(num, 2 * den);
        let j = spacing(num, 2 * den);
        let k = j + 1;
        lemma_pow2_unfold(53 + k);
        lemma_pow2_unfold((52 + k) as nat);
        let a = pow2(53 + j);
        assert(num < (2 * a) * den) by (nonlinear_arith)
            requires
                num < a * (2 * den),
        ;
        if j > 0 {
            let b = pow2((52 + j) as nat);
            assert(num >= (2 * b) * den) by (nonlinear_arith)
                requires
                    num >= b * (2 * den),
            ;
        }
    }
}

/// Rounding keeps the order of a quotient and an integer.
pub(crate) proof fn lemma_half_even_bounds(num: nat, den: nat, bound: nat)
    requires
        den > 0,
    ensures
        num >= bound * den ==> half_even(num, den) >= bound,
        num <= bound * den ==> half_even(num, den) <= bound,
{
    let q = num / den;
    let r = num % den;
    lemma_fundamental_div_mod(num as int, den as int);
    if num >= bound * den {
        assert(q >= bound) by (nonlinear_arith)
            requires
                num == den * q + r,
                r < den,
                num >= bound * den,
                den > 0,
        ;
    }
    if num <= bound * den {
        assert(q <= bound && (r > 0 ==> q < bound)) by (nonlinear_arith)
            requires
                num == den * q + r,
                0 <= r < den,
                num <= bound * den,
                den > 0,
        ;
    }
}

/// The significand of a rounded quotient.
pub(crate) proof fn lemma_significand(num: nat, den: nat)
    requires
        den > 0,
    ensures
        ({
            let k = spacing(num, den);
            let s = half_even(num, den * pow2(k));
            &&& s <= 2 * FRACTION
            &&& k > 0 ==> s >= FRACTION
        }),
{
    let k = spacing(num, den);
    let unit = den * pow2(k);
    lemma_spacing_bounds(num, den);
    lemma_pow2_53();
    lemma_pow2_pos(k);
    lemma_pow2_adds(53, k);
    lemma_pow2_adds(52, k);
    assert(unit > 0) by (nonlinear_arith)
        requires
            unit == den * pow2(k),
            den > 0,
            pow2(k) > 0,
    ;
    assert(pow2(53 + k) * den == pow2(53) * unit) by (nonlinear_arith)
        requires
            pow2(53 + k) == pow2(53) * pow2(k),
            unit == den * pow2(k),
    ;
    assert(pow2((52 + k) as nat) * den == pow2(52) * unit) by (nonlinear_arith)
        requires
            pow2((52 + k) as nat) == pow2(52) * pow2(k),
            unit == den * pow2(k),
    ;
    lemma_half_even_bounds(num, unit, pow2(53));
    lemma_half_even_bounds(num, unit, pow2(52));
}

/// The magnitude behind a pattern made of an exponent and a significand.
pub(crate) proof fn lemma_quanta_parts(k: nat, s: nat)
    requires
        s <= 2 * FRACTION,
        k > 0 ==> s >= FRACTION,
    ensures
        quanta(k * FRACTION as nat + s) == s * pow2(k),
{
    let f = FRACTION as nat;
    let low = k * f + s;
    lemma_pow2_53();
    assert(s * 1 == s);
    if low >= 2 * f {
        if s == 2 * f {
            assert(low == (k + 2) * f + 0) by (nonlinear_arith)
                requires
                    low == k * f + s,
                    s == 2 * f,
            ;
            lemma_fundamental_div_mod_converse(low as int, f as int, k as int + 2, 0);
            lemma_pow2_unfold(k + 1);
            assert(f * pow2(k + 1) == s * pow2(k)) by (nonlinear_arith)
                requires
                    s == 2 * f,
                    pow2(k + 1) == 2 * pow2(k),
            ;
        } else {
            if k == 0 {
                assert(low == s) by (nonlinear_arith)
                    requires
                        low == k * f + s,
                        k == 0,
                ;
            }
            assert(low == (k + 1) * f + (s - f)) by (nonlinear_arith)
                requires
                    low == k * f + s,
            ;
            lemma_fundamental_div_mod_converse(low as int, f as int, k as int + 1, s - f);
        }
    } else if k > 0 {
        assert(k == 1 && s == f) by (nonlinear_arith)
            requires
                k * f + s < 2 * f,
                k >= 1,
                s >= f,
                f == 0x10_0000_0000_0000nat,
        ;
    } else {
        assert(low == s) by (nonlinear_arith)
            requires
                low == k * f + s,
                k == 0,
        ;
    }
}

/// A finite number is the one nearest to itself.
pub proof fn law_nearest_exact(neg: bool, low: nat)
    requires
        low < INFINITY,
    ensures
        nearest(neg, quanta(low), 1) == signed(neg, low),
{
    let f = FRACTION as nat;
    lemma_pow2_53();
    if low < 2 * f {
        lemma_spacing(low, 1, 0);
        assert(half_even(low, 1) == low);
    } else {
        let e = (low / f - 1) as nat;
        let m = f + low % f;
        let u = pow2(e);
        lemma_fundamental_div_mod(low as int, f as int);
        lemma_pow2_pos(e);
        lemma_pow2_adds(53, e);
        lemma_pow2_adds(52, e);
        assert(m * u < pow2(53) * u) by (nonlinear_arith)
            requires
                m < pow2(53),
                u > 0,
        ;
        assert(m * u >= pow2(52) * u) by (nonlinear_arith)
            requires
                m >= pow2(52),
        ;
        lemma_spacing(m * u, 1, e);
        assert(1 * u == u);
        lemma_div_by_multiple(m as int, u as int);
        lemma_mod_multiples_basic(m as int, u as int);
        assert(e * f + m == low) by (nonlinear_arith)
            requires
                low == f * (e + 1) + low % f,
                m == f + low % f,
        ;
    }
}

/// Rounding keeps the order: of two quotients the larger is not rounded to a smaller number.
pub proof fn law_nearest_increases(n1: nat, d1: nat, n2: nat, d2: nat)
    requires
        d1 > 0,
        d2 > 0,
        n1 * d2 <= n2 * d1,
    ensures
        nearest(false, n1, d1).low() <= nearest(false, n2, d2).low(),
{
    let f = FRACTION as nat;
    let k1 = spacing(n1, d1);
    let k2 = spacing(n2, d2);
    let s1 = half_even(n1, d1 * pow2(k1));
    let s2 = half_even(n2, d2 * pow2(k2));
    lemma_significand(n1, d1);
    lemma_significand(n2, d2);
    lemma_spacing_bounds(n1, d1);
    lemma_spacing_bounds(n2, d2);
    if k1 > k2 {
        // n1 / d1 is at least 2^(52 + k1), n2 / d2 below 2^(53 + k2)
        let a = pow2((52 + k1) as nat);
        let b = pow2(53 + k2);
        if 53 + k2 < 52 + k1 {
            lemma_pow2_strictly_increases(53 + k2, (52 + k1) as nat);
        }
        assert(false) by (nonlinear_arith)
            requires
                n1 >= a * d1,
                n2 < b * d2,
                a >= b,
                n1 * d2 <= n2 * d1,
                d1 > 0,
                d2 > 0,
        {
            assert(n1 * d2 >= (a * d1) * d2);
            assert(n2 * d1 < (b * d2) * d1);
            assert((a * d1) * d2 == a * (d1 * d2));
            assert((b * d2) * d1 == b * (d1 * d2));
            assert(a * (d1 * d2) >= b * (d1 * d2));
        }
    } else if k1 == k2 {
        let u = pow2(k1);
        lemma_pow2_pos(k1);
        lemma_half_even_increases(n1, d1 * u, n2, d2 * u, d1, d2, u);
    } else {
        assert(k1 * f + s1 <= k2 * f + s2) by (nonlinear_arith)
            requires
                k1 + 1 <= k2,
                s1 <= 2 * f,
                s2 >= f,
        ;
    }
}

proof fn lemma_half_even_increases(n1: nat, u1: nat, n2: nat, u2: nat, d1: nat, d2: nat, u: nat)
    requires
        d1 > 0,
        d2 > 0,
        u > 0,
        u1 == d1 * u,
        u2 == d2 * u,
        n1 * d2 <= n2 * d1,
    ensures
        half_even(n1, u1) <= half_even(n2, u2),
{
    let q1 = n1 / u1;
    let q2 = n2 / u2;
    let r1 = n1 % u1;
    let r2 = n2 % u2;
    assert(u1 > 0 && u2 > 0) by (nonlinear_arith)
        requires
            d1 > 0,
            d2 > 0,
            u > 0,
            u1 == d1 * u,
            u2 == d2 * u,
    ;
    assert(n1 * u2 <= n2 * u1) by (nonlinear_arith)
        requires
            n1 * d2 <= n2 * d1,
            u1 == d1 * u,
            u2 == d2 * u,
            u > 0,
    {
        assert(n1 * (d2 * u) == (n1 * d2) * u);
        assert(n2 * (d1 * u) == (n2 * d1) * u);
        assert((n1 * d2) * u <= (n2 * d1) * u);
    }
    lemma_fundamental_div_mod(n1 as int, u1 as int);
    lemma_fundamental_div_mod(n2 as int, u2 as int);
    // n1 / u1 == q1 + r1 / u1 and n2 / u2 == q2 + r2 / u2
    lemma_cross(n1, u1, n2, u2, q1, r1, q2, r2);
}

proof fn lemma_cross(n1: nat, u1: nat, n2: nat, u2: nat, q1: nat, r1: nat, q2: nat, r2: nat)
    requires
        u1 > 0,
        u2 > 0,
        n1 == u1 * q1 + r1,
        n2 == u2 * q2 + r2,
        r1 < u1,
        r2 < u2,
        n1 * u2 <= n2 * u1,
    ensures
        q1 <= q2,
        q1 == q2 ==> r1 * u2 <= r2 * u1,
        q1 == q2 && 2 * r2 < u2 ==> 2 * r1 < u1,
        q1 == q2 && 2 * r2 == u2 ==> 2 * r1 <= u1,
{
    let w = u1 * u2;
    assert(n1 * u2 == w * q1 + r1 * u2) by (nonlinear_arith)
        requires
            n1 == u1 * q1 + r1,
            w == u1 * u2,
    ;
    assert(n2 * u1 == w * q2 + r2 * u1) by (nonlinear_arith)
        requires
            n2 == u2 * q2 + r2,
            w == u1 * u2,
    ;
    assert(r2 * u1 < w) by (nonlinear_arith)
        requires
            r2 < u2,
            u1 > 0,
            w == u1 * u2,
    ;
    assert(q1 <= q2) by (nonlinear_arith)
        requires
            w * q1 + r1 * u2 <= w * q2 + r2 * u1,
            r2 * u1 < w,
            r1 * u2 >= 0,
    ;
    if q1 == q2 {
        if 2 * r2 < u2 {
            assert(2 * r1 < u1) by (nonlinear_arith)
                requires
                    r1 * u2 <= r2 * u1,
                    2 * r2 < u2,
                    u1 > 0,
                    u2 > 0,
            {
                assert(2 * (r2 * u1) < u2 * u1);
                assert(2 * (r1 * u2) < u1 * u2);
            }
        }
        if 2 * r2 == u2 {
            assert(2 * r1 <= u1) by (nonlinear_arith)
                requires
                    r1 * u2 <= r2 * u1,
                    2 * r2 == u2,
                    u1 > 0,
                    u2 > 0,
            {
                assert(2 * (r2 * u1) == u2 * u1);
                assert(2 * (r1 * u2) <= u1 * u2);
            }
        }
    }
}

/// The distance of two integers.
pub open spec fn distance(a: int, b: int) -> int {
    if a < b {
        b - a
    } else {
        a - b
    }
}

/// Rounding a quotient to an integer leaves none closer.
pub(crate) proof fn lemma_half_even_closest(num: nat, unit: nat, t: nat)
    requires
        unit > 0,
    ensures
        distance((half_even(num, unit) * unit) as int, num as int) <= distance((t * unit) as int, num as int),
{
    let q = num / unit;
    let r = num % unit;
    lemma_fundamental_div_mod(num as int, unit as int);
    assert(q * unit == num - r) by (nonlinear_arith)
        requires
            num == unit * q + r,
    ;
    assert((q + 1) * unit == num - r + unit) by (nonlinear_arith)
        requires
            q * unit == num - r,
    ;
    if t <= q {
        assert(t * unit <= q * unit) by (nonlinear_arith)
            requires
                t <= q,
        ;
    } else {
        assert(t * unit >= (q + 1) * unit) by (nonlinear_arith)
            requires
                t >= q + 1,
        ;
    }
}

/// Where rounding gives a finite number, no other finite number is closer to the exact quotient.
pub proof fn law_nearest_closest(neg: bool, num: nat, den: nat, low: nat)
    requires
        den > 0,
        low < INFINITY,
        nearest(neg, num, den).finite(),
    ensures
        distance((nearest(neg, num, den).magnitude() * den) as int, num as int) <= distance(
            (quanta(low) * den) as int,
            num as int,
        ),
{
    let f = FRACTION as nat;
    let k = spacing(num, den);
    let p = pow2(k);
    let u = den * p;
    let s = half_even(num, u);
    lemma_pow2_53();
    lemma_pow2_pos(k);
    lemma_significand(num, den);
    lemma_quanta_parts(k, s);
    lemma_spacing_bounds(num, den);
    assert(u > 0) by (nonlinear_arith)
        requires
            u == den * p,
            den > 0,
            p > 0,
    ;
    assert(nearest(neg, num, den).magnitude() == s * p);
    assert((s * p) * den == s * u) by (nonlinear_arith)
        requires
            u == den * p,
    ;
    let e = if low < 2 * f {
        0
    } else {
        (low / f - 1) as nat
    };
    let m = if low < 2 * f {
        low
    } else {
        f + low % f
    };
    assert(quanta(low) == m * pow2(e)) by {
        assert(m * 1 == m);
    }
    if e >= k {
        let d = (e - k) as nat;
        lemma_pow2_adds(k, d);
        let t = m * pow2(d);
        assert((m * pow2(e)) * den == t * u) by (nonlinear_arith)
            requires
                pow2(e) == p * pow2(d),
                t == m * pow2(d),
                u == den * p,
        ;
        lemma_half_even_closest(num, u, t);
    } else {
        lemma_half_even_closest(num, u, f);
        lemma_pow2_adds(52, k);
        assert(f * u == pow2((52 + k) as nat) * den) by (nonlinear_arith)
            requires
                f == pow2(52),
                pow2((52 + k) as nat) == pow2(52) * p,
                u == den * p,
        ;
        lemma_pow2_unfold(e + 1);
        if e + 1 < k {
            lemma_pow2_strictly_increases(e + 1, k);
        }
        let pe = pow2(e);
        assert(m * pe <= f * p) by (nonlinear_arith)
            requires
                m <= 2 * f,
                p >= 2 * pe,
                f > 0,
        ;
        assert((m * pe) * den <= f * u) by (nonlinear_arith)
            requires
                m * pe <= f * p,
                u == den * p,
        ;
    }
}

} // verus!
