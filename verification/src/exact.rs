//! Where arithmetic on binary64 numbers is exact, and where its results are not negative.

use crate::binary64;
use crate::binary64::{Binary64, FRACTION, INFINITY};
use vstd::arithmetic::mul::*;
use vstd::arithmetic::power2::*;
use vstd::prelude::*;

verus! {

/// Whether this is a number, and not less than zero.
pub open spec fn not_negative(x: Binary64) -> bool {
    !x.nan() && !binary64::less(x, binary64::zero())
}

/// How often a small integer can be doubled until it has the full width of a significand.
proof fn lemma_normalized(n: nat) -> (j: nat)
    requires
        0 < n < 2 * FRACTION,
    ensures
        j <= 52,
        FRACTION <= n * pow2(j) < 2 * FRACTION,
    decreases 2 * FRACTION - n,
{
    binary64::lemma_pow2_53();
    if n >= FRACTION {
        assert(n * 1 == n);
        0
    } else {
        let i = lemma_normalized(2 * n);
        let j = i + 1;
        lemma_pow2_unfold(j);
        let p = pow2(i);
        assert(n * (2 * p) == (2 * n) * p) by (nonlinear_arith);
        if j > 52 {
            lemma_pow2_strictly_increases(52, j);
            let q = pow2(j);
            assert(n * q >= q) by (nonlinear_arith)
                requires
                    n >= 1,
            ;
            lemma_pow2_unfold(53);
            if j > 53 {
                lemma_pow2_strictly_increases(53, j);
            }
        }
        j
    }
}

/// The integers up to `2^53` are numbers.
pub proof fn law_whole_exact(n: nat)
    requires
        n <= 2 * FRACTION,
    ensures
        binary64::whole(n).finite(),
        !binary64::whole(n).negative(),
        binary64::whole(n).magnitude() == n * pow2(1074),
        n == 0 ==> binary64::whole(n) == binary64::zero(),
        n > 0 ==> binary64::whole(n).low() > 0,
{
    let f = FRACTION as nat;
    let p = pow2(1074);
    lemma_pow2_pos(1074);
    if n == 0 {
        binary64::lemma_nearest_zero(false, 1);
        assert(0 * p == 0) by (nonlinear_arith);
    } else {
        let (k, s) = if n == 2 * f {
            (1074nat, n)
        } else {
            let j = lemma_normalized(n);
            let k = (1074 - j) as nat;
            lemma_pow2_adds(j, k);
            lemma_mul_is_associative(n as int, pow2(j) as int, pow2(k) as int);
            (k, n * pow2(j))
        };
        let low = k * f + s;
        binary64::lemma_quanta_parts(k, s);
        assert(low < INFINITY) by (nonlinear_arith)
            requires
                low == k * f + s,
                k <= 1074,
                s <= 2 * f,
                f == 0x10_0000_0000_0000nat,
                INFINITY == 0x7FF0_0000_0000_0000u64,
        ;
        assert(binary64::quanta(low) == n * p);
        binary64::law_nearest_exact(false, low);
        assert(low > 0) by (nonlinear_arith)
            requires
                low == k * f + s,
                s >= f,
                f > 0,
        ;
    }
}

/// Rounding a quotient of units depends on the quotient alone.
pub(crate) proof fn lemma_nearest_scale(neg: bool, num: nat, den: nat, c: nat)
    requires
        den > 0,
        c > 0,
    ensures
        binary64::nearest(neg, num * c, den * c) == binary64::nearest(neg, num, den),
{
    let k = binary64::spacing(num, den);
    binary64::lemma_spacing_bounds(num, den);
    let a = pow2(53 + k);
    assert(den * c > 0) by (nonlinear_arith)
        requires
            den > 0,
            c > 0,
    ;
    assert(num * c < a * (den * c)) by (nonlinear_arith)
        requires
            num < a * den,
            c > 0,
    ;
    if k > 0 {
        let b = pow2((52 + k) as nat);
        assert(num * c >= b * (den * c)) by (nonlinear_arith)
            requires
                num >= b * den,
        ;
    }
    binary64::lemma_spacing(num * c, den * c, k);
    let u = pow2(k);
    lemma_pow2_pos(k);
    assert(den * u > 0) by (nonlinear_arith)
        requires
            den > 0,
            u > 0,
    ;
    binary64::lemma_half_even_scale(num, den * u, c);
    assert((den * u) * c == (den * c) * u) by (nonlinear_arith);
}

/// Integers are added exactly where the sum is at most `2^53`.
pub proof fn law_whole_sum(a: nat, b: nat)
    requires
        a + b <= 2 * FRACTION,
    ensures
        binary64::sum(binary64::whole(a), binary64::whole(b)) == binary64::whole(a + b),
{
    let p = pow2(1074);
    law_whole_exact(a);
    law_whole_exact(b);
    law_whole_exact(a + b);
    lemma_pow2_pos(1074);
    assert(a * p + b * p == (a + b) * p) by (nonlinear_arith);
    assert((a + b) * p == 0 <==> a + b == 0) by (nonlinear_arith)
        requires
            p > 0,
    ;
}

/// The difference of two integers up to `2^53`, the larger one first, is exact.
pub proof fn law_whole_difference(a: nat, b: nat)
    requires
        b <= a <= 2 * FRACTION,
    ensures
        binary64::difference(binary64::whole(a), binary64::whole(b)) == binary64::whole(
            (a - b) as nat,
        ),
{
    let p = pow2(1074);
    let d = (a - b) as nat;
    law_whole_exact(a);
    law_whole_exact(b);
    law_whole_exact(d);
    lemma_pow2_pos(1074);
    assert(a * p - b * p == d * p) by (nonlinear_arith)
        requires
            d == a - b,
    ;
    assert(d * p == 0 <==> d == 0) by (nonlinear_arith)
        requires
            p > 0,
    ;
}

/// The product of two integers up to `2^53` is rounded once.
pub proof fn law_whole_product(a: nat, b: nat)
    requires
        a <= 2 * FRACTION,
        b <= 2 * FRACTION,
    ensures
        binary64::product(binary64::whole(a), binary64::whole(b)) == binary64::whole(a * b),
{
    let p = pow2(1074);
    law_whole_exact(a);
    law_whole_exact(b);
    lemma_pow2_pos(1074);
    assert((a * p) * (b * p) == ((a * b) * p) * p) by (nonlinear_arith);
    assert(1 * p == p);
    lemma_nearest_scale(false, (a * b) * p, 1, p);
}

/// The quotient of two integers up to `2^53` is rounded once, and exact where it is an integer.
pub proof fn law_whole_quotient(a: nat, b: nat)
    requires
        a <= 2 * FRACTION,
        0 < b <= 2 * FRACTION,
    ensures
        binary64::quotient(binary64::whole(a), binary64::whole(b)) == binary64::nearest(
            false,
            a * pow2(1074),
            b,
        ),
        forall|q: nat|
            a == #[trigger] (q * b) ==> binary64::quotient(binary64::whole(a), binary64::whole(b))
                == binary64::whole(q),
{
    let p = pow2(1074);
    law_whole_exact(a);
    law_whole_exact(b);
    lemma_pow2_pos(1074);
    lemma_nearest_scale(false, a * p, b, p);
    assert forall|q: nat| a == #[trigger] (q * b) implies binary64::quotient(
        binary64::whole(a),
        binary64::whole(b),
    ) == binary64::whole(q) by {
        assert(a * p == (q * p) * b) by (nonlinear_arith)
            requires
                a == q * b,
        ;
        assert(1 * b == b);
        lemma_nearest_scale(false, q * p, 1, b);
    }
}

/// Integers up to `2^53` compare as integers.
pub proof fn law_whole_order(a: nat, b: nat)
    requires
        a <= 2 * FRACTION,
        b <= 2 * FRACTION,
    ensures
        binary64::less(binary64::whole(a), binary64::whole(b)) == (a < b),
{
    let p = pow2(1074);
    law_whole_exact(a);
    law_whole_exact(b);
    lemma_pow2_pos(1074);
    assert(a * p < b * p <==> a < b) by (nonlinear_arith)
        requires
            p > 0,
    ;
}

/// The integers up to `2^72` are rounded to finite numbers, and all but zero to some above it.
pub proof fn law_whole_positive(n: nat)
    ensures
        n > 0 ==> binary64::less(binary64::zero(), binary64::whole(n)),
        n <= 0x100_0000_0000_0000_0000 ==> binary64::whole(n).finite(),
{
    let p = pow2(1074);
    let top = 0x100_0000_0000_0000_0000nat;
    let f = FRACTION as nat;
    lemma_pow2_pos(1074);
    if n > 0 {
        law_whole_exact(1);
        assert(1 * p <= n * p) by (nonlinear_arith)
            requires
                n >= 1,
        ;
        binary64::law_nearest_increases(1 * p, 1, n * p, 1);
        binary64::lemma_quanta_zero(binary64::whole(n).low());
    }
    if n <= top {
        lemma2_to64();
        lemma_pow2_adds(20, 1074);
        binary64::lemma_quanta_parts(1094, f);
        assert(f * pow2(1094) == top * p) by (nonlinear_arith)
            requires
                pow2(1094) == 0x10_0000 * p,
                f == 0x10_0000_0000_0000nat,
                top == 0x100_0000_0000_0000_0000nat,
        ;
        binary64::law_nearest_exact(false, 1095 * f);
        assert(n * p <= top * p) by (nonlinear_arith)
            requires
                n <= top,
        ;
        binary64::law_nearest_increases(n * p, 1, top * p, 1);
    }
}

/// No integer is negative.
pub proof fn law_whole_not_negative(n: nat)
    ensures
        not_negative(binary64::whole(n)),
{
}

/// A sum of numbers that are not negative is not negative.
pub proof fn law_sum_not_negative(a: Binary64, b: Binary64)
    requires
        not_negative(a),
        not_negative(b),
    ensures
        not_negative(binary64::sum(a, b)),
{
}

/// A product of finite numbers that are not negative is not negative.
pub proof fn law_product_not_negative(a: Binary64, b: Binary64)
    requires
        not_negative(a),
        not_negative(b),
        a.finite(),
        b.finite(),
    ensures
        not_negative(binary64::product(a, b)),
{
    lemma_pow2_pos(1074);
    binary64::lemma_nearest_zero(true, pow2(1074));
    binary64::lemma_quanta_zero(a.low());
    binary64::lemma_quanta_zero(b.low());
    assert(a.magnitude() == 0 || b.magnitude() == 0 ==> a.magnitude() * b.magnitude() == 0)
        by (nonlinear_arith);
}

/// A number that is not negative, over one above zero that is not infinite with it, is not
/// negative.
pub proof fn law_quotient_not_negative(a: Binary64, b: Binary64)
    requires
        not_negative(a),
        binary64::less(binary64::zero(), b),
        a.finite() || b.finite(),
    ensures
        not_negative(binary64::quotient(a, b)),
{
    binary64::lemma_quanta_zero(a.low());
    binary64::lemma_quanta_zero(b.low());
    if b.finite() {
        binary64::lemma_nearest_zero(true, b.magnitude());
        assert(a.magnitude() == 0 ==> a.magnitude() * pow2(1074) == 0) by (nonlinear_arith);
    }
}

} // verus!
