//! That arithmetic is as exact as the numbers allow.

use crate::binary64;
use crate::binary64::{Binary64, INFINITY};
use vstd::arithmetic::power2::*;
use vstd::prelude::*;

verus! {

proof fn lemma_signed(neg: bool, low: nat)
    requires
        low <= INFINITY,
    ensures
        binary64::signed(neg, low).low() == low,
        binary64::signed(neg, low).negative() == neg,
{
}

proof fn lemma_sign(neg: bool, num: nat, den: nat)
    ensures
        binary64::nearest(neg, num, den).negative() == neg,
{
    let k = binary64::spacing(num, den);
    let low = k * binary64::FRACTION as nat + binary64::half_even(num, den * pow2(k));
    lemma_signed(
        neg,
        if low < INFINITY {
            low
        } else {
            INFINITY as nat
        },
    );
}

/// No finite number is closer to the exact sum of two finite numbers than their sum.
pub proof fn law_sum_closest(a: Binary64, b: Binary64, other: Binary64)
    requires
        a.finite(),
        b.finite(),
        other.finite(),
        binary64::sum(a, b).finite(),
    ensures
        binary64::distance(binary64::sum(a, b).value(), a.value() + b.value()) <= binary64::distance(
            other.value(),
            a.value() + b.value(),
        ),
{
    let v = a.value() + b.value();
    binary64::lemma_quanta_zero(0);
    if v == 0 {
        lemma_signed(a.negative() && b.negative(), 0);
    } else {
        let neg = v < 0;
        let num = if neg {
            (-v) as nat
        } else {
            v as nat
        };
        lemma_sign(neg, num, 1);
        binary64::law_nearest_closest(neg, num, 1, other.low());
        binary64::law_nearest_closest(neg, num, 1, 0);
        assert(binary64::nearest(neg, num, 1).magnitude() * 1 == binary64::nearest(neg, num, 1).magnitude());
        assert(binary64::quanta(other.low()) * 1 == binary64::quanta(other.low()));
    }
}

/// A difference is the sum with the sign of the second number turned.
pub proof fn law_difference_closest(a: Binary64, b: Binary64, other: Binary64)
    requires
        a.finite(),
        b.finite(),
        other.finite(),
        binary64::difference(a, b).finite(),
    ensures
        binary64::distance(binary64::difference(a, b).value(), a.value() - b.value()) <= binary64::distance(
            other.value(),
            a.value() - b.value(),
        ),
{
    let c = binary64::opposite(b);
    lemma_signed(!b.negative(), b.low());
    assert(c.value() == -b.value());
    law_sum_closest(a, c, other);
}

/// No finite number is closer to the exact product of two finite numbers than their product, and
/// its sign is set where just one of theirs is.
pub proof fn law_product_closest(a: Binary64, b: Binary64, other: Binary64)
    requires
        a.finite(),
        b.finite(),
        other.finite(),
    ensures
        binary64::product(a, b).negative() == (a.negative() != b.negative()),
        binary64::product(a, b).finite() ==> binary64::distance(
            (binary64::product(a, b).magnitude() * pow2(1074)) as int,
            (a.magnitude() * b.magnitude()) as int,
        ) <= binary64::distance(
            (other.magnitude() * pow2(1074)) as int,
            (a.magnitude() * b.magnitude()) as int,
        ),
{
    lemma_pow2_pos(1074);
    let neg = a.negative() != b.negative();
    lemma_sign(neg, a.magnitude() * b.magnitude(), pow2(1074));
    if binary64::product(a, b).finite() {
        binary64::law_nearest_closest(neg, a.magnitude() * b.magnitude(), pow2(1074), other.low());
    }
}

/// No finite number is closer to the exact quotient of two finite numbers than their quotient, and
/// its sign is set where just one of theirs is.
pub proof fn law_quotient_closest(a: Binary64, b: Binary64, other: Binary64)
    requires
        a.finite(),
        b.finite(),
        b.magnitude() > 0,
        other.finite(),
    ensures
        binary64::quotient(a, b).negative() == (a.negative() != b.negative()),
        binary64::quotient(a, b).finite() ==> binary64::distance(
            (binary64::quotient(a, b).magnitude() * b.magnitude()) as int,
            (a.magnitude() * pow2(1074)) as int,
        ) <= binary64::distance(
            (other.magnitude() * b.magnitude()) as int,
            (a.magnitude() * pow2(1074)) as int,
        ),
{
    binary64::lemma_quanta_zero(b.low());
    let neg = a.negative() != b.negative();
    lemma_sign(neg, a.magnitude() * pow2(1074), b.magnitude());
    if binary64::quotient(a, b).finite() {
        binary64::law_nearest_closest(neg, a.magnitude() * pow2(1074), b.magnitude(), other.low());
    }
}

/// Sums and products do not depend on the order of two numbers.
pub proof fn law_commute(a: Binary64, b: Binary64)
    ensures
        binary64::sum(a, b) == binary64::sum(b, a),
        binary64::product(a, b) == binary64::product(b, a),
{
    assert(a.magnitude() * b.magnitude() == b.magnitude() * a.magnitude()) by (nonlinear_arith);
}

/// Zero added to a finite number other than zero leaves it as it is.
pub proof fn law_sum_with_zero(a: Binary64)
    requires
        a.finite(),
        a.magnitude() > 0,
    ensures
        binary64::sum(a, binary64::zero()) == a,
        binary64::sum(binary64::zero(), a) == a,
{
    binary64::lemma_quanta_zero(0);
    binary64::law_nearest_exact(a.negative(), a.low());
    assert(binary64::signed(a.negative(), a.low()) == a);
}

/// Finite numbers compare as their values, and infinities are past all of them.
pub proof fn law_compare(a: Binary64, b: Binary64)
    ensures
        a.finite() && b.finite() ==> (binary64::less(a, b) <==> a.value() < b.value()),
        a.finite() && b.infinite() ==> (binary64::less(a, b) <==> !b.negative()),
        a.infinite() && b.finite() ==> (binary64::less(a, b) <==> a.negative()),
        a.nan() || b.nan() ==> !binary64::less(a, b),
{
}

} // verus!
