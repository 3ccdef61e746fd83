//! Latency histograms with one bucket per power of two of nanoseconds.

use crate::natural::Natural;
use vstd::arithmetic::power::*;
use vstd::arithmetic::power2::*;
use vstd::prelude::*;

verus! {

/// The least latency that bucket `i` counts; the last bucket stands for all past it.
pub open spec fn lower_bound(i: nat) -> nat {
    if i == 0 {
        0
    } else if i >= 63 {
        pow2(63)
    } else {
        pow2(i)
    }
}

/// The latency up to which bucket `i` counts.
pub open spec fn upper_bound(i: nat) -> nat {
    if i >= 63 {
        u64::MAX as nat
    } else {
        pow2(i + 1)
    }
}

/// `2^i`.
fn power(i: usize) -> (r: u64)
    requires
        i <= 63,
    ensures
        r == pow2(i as nat),
{
    let mut r: u64 = 1;
    let mut j: usize = 0;
    proof {
        lemma2_to64();
        lemma2_to64_rest();
    }
    while j < i
        invariant
            j <= i <= 63,
            r == pow2(j as nat),
            pow2(63) == 0x8000_0000_0000_0000,
        decreases i - j,
    {
        proof {
            lemma_pow2_unfold((j + 1) as nat);
            if j + 1 < 63 {
                lemma_pow2_strictly_increases((j + 1) as nat, 63);
            }
        }
        r = r * 2;
        j = j + 1;
    }
    r
}

/// The least latency that bucket `i` counts.
pub fn bucket_lower_ns(i: usize) -> (r: u64)
    ensures
        r == lower_bound(i as nat),
{
    if i == 0 {
        0
    } else if i >= 63 {
        power(63)
    } else {
        power(i)
    }
}

/// The latency up to which bucket `i` counts.
pub fn bucket_upper_ns(i: usize) -> (r: u64)
    ensures
        r == upper_bound(i as nat),
{
    if i >= 63 {
        u64::MAX
    } else {
        power(i + 1)
    }
}

/// Each bucket up to the last one ends where the next begins, and none is empty.
pub proof fn law_buckets_adjoin(i: nat)
    ensures
        lower_bound(i) < upper_bound(i),
        i < 63 ==> upper_bound(i) == lower_bound(i + 1),
{
    lemma2_to64();
    lemma2_to64_rest();
    lemma_pow2_pos(i + 1);
    lemma_pow2_strictly_increases(i, i + 1);
}

/// Whether `7 * log2(count + 1) / log2(max + 1)` is at least `k - 1/2`, with the logarithms
/// raised away.
pub open spec fn reaches(count: nat, max: nat, k: nat) -> bool {
    pow(max as int + 1, (2 * k - 1) as nat) <= pow(count as int + 1, 14)
}

/// The height of a bar: none for an empty bucket, else `log2(count + 1)` as a share of
/// `log2(max + 1)` in sevenths, rounded to the nearest, half up, and at least one.
///
/// The heights follow the exact logarithms. Floating-point logarithms carry rounding errors of
/// their own, which differ between machines: at or next to a half step, such a computation can
/// come out on the other side of it, so that a bar here stands one step above or below that one.
pub open spec fn level(count: nat, max: nat) -> nat {
    if count == 0 {
        0
    } else if reaches(count, max, 7) {
        7
    } else if reaches(count, max, 6) {
        6
    } else if reaches(count, max, 5) {
        5
    } else if reaches(count, max, 4) {
        4
    } else if reaches(count, max, 3) {
        3
    } else if reaches(count, max, 2) {
        2
    } else {
        1
    }
}

/// The bar of a height from 0 to 7.
pub open spec fn glyph(level: nat) -> char {
    if level == 0 {
        ' '
    } else if level == 1 {
        '▁'
    } else if level == 2 {
        '▂'
    } else if level == 3 {
        '▃'
    } else if level == 4 {
        '▄'
    } else if level == 5 {
        '▅'
    } else if level == 6 {
        '▆'
    } else {
        '▇'
    }
}

/// `n` raised to the power `e`.
fn raise(n: u64, e: u64) -> (r: Natural)
    ensures
        r@ == pow(n as int, e as nat),
{
    let mut r: Natural = Natural::from_u64(1);
    let mut i: u64 = 0;
    proof {
        lemma_pow0(n as int);
    }
    while i < e
        invariant
            i <= e,
            r@ == pow(n as int, i as nat),
        decreases e - i,
    {
        r.multiply(n);
        i = i + 1;
        proof {
            reveal_with_fuel(pow, 2);
            assert(pow(n as int, (i - 1) as nat) * n == n * pow(n as int, (i - 1) as nat))
                by (nonlinear_arith);
        }
    }
    r
}

/// The height of a bar.
fn bar_level(count: u64, max: u64) -> (r: u64)
    requires
        count < u64::MAX,
        max < u64::MAX,
    ensures
        r == level(count as nat, max as nat),
        r <= 7,
{
    if count == 0 {
        return 0;
    }
    let height: Natural = raise(count + 1, 14);
    let mut k: u64 = 7;
    while k > 1
        invariant
            1 <= k <= 7,
            0 < count < u64::MAX,
            max < u64::MAX,
            height@ == pow(count as int + 1, 14),
            forall|j: nat| k < j <= 7 ==> !reaches(count as nat, max as nat, j),
        decreases k,
    {
        let bound: Natural = raise(max + 1, 2 * k - 1);
        if height.at_least(&bound) {
            assert(reaches(count as nat, max as nat, k as nat));
            assert(forall|j: nat| k < j <= 7 ==> !reaches(count as nat, max as nat, j));
            return k;
        }
        k = k - 1;
    }
    1
}

/// The bar of a height from 0 to 7.
fn bar(level: u64) -> (c: char)
    ensures
        c == glyph(level as nat),
{
    if level == 0 {
        ' '
    } else if level == 1 {
        '▁'
    } else if level == 2 {
        '▂'
    } else if level == 3 {
        '▃'
    } else if level == 4 {
        '▄'
    } else if level == 5 {
        '▅'
    } else if level == 6 {
        '▆'
    } else {
        '▇'
    }
}

/// The first bucket that counts something; the first of all where none does.
pub open spec fn is_first(buckets: Seq<u64>, lo: int) -> bool {
    &&& 0 <= lo < buckets.len()
    &&& forall|i: int| 0 <= i < lo ==> buckets[i] == 0
    &&& buckets[lo] > 0 || (lo == 0 && forall|i: int| 0 <= i < buckets.len() ==> buckets[i] == 0)
}

/// The last bucket that counts something; the first of all where none does.
pub open spec fn is_last(buckets: Seq<u64>, hi: int) -> bool {
    &&& 0 <= hi < buckets.len()
    &&& buckets[hi] > 0 || (hi == 0 && forall|i: int| 0 <= i < buckets.len() ==> buckets[i] == 0)
    &&& forall|i: int| hi < i < buckets.len() ==> buckets[i] == 0
}

/// The largest count, and one where there is none.
pub open spec fn peak(buckets: Seq<u64>) -> nat
    decreases buckets.len(),
{
    if buckets.len() == 0 {
        1
    } else if buckets.last() > peak(buckets.drop_last()) {
        buckets.last() as nat
    } else {
        peak(buckets.drop_last())
    }
}

/// The bars of the buckets from `lo` to `hi`.
pub open spec fn bars(buckets: Seq<u64>, lo: int, hi: int) -> Seq<char> {
    Seq::new((hi + 1 - lo) as nat, |i: int| glyph(level(buckets[lo + i] as nat, peak(buckets))))
}

/// The bars of a histogram over the window of its buckets that count something, and the ends of
/// that window. The heights are those of the exact logarithms: see `level`.
pub fn bucket_sparkline(buckets: &[u64]) -> (r: (String, usize, usize))
    requires
        buckets@.len() > 0,
        forall|i: int| 0 <= i < buckets@.len() ==> buckets@[i] < u64::MAX,
    ensures
        is_first(buckets@, r.1 as int),
        is_last(buckets@, r.2 as int),
        r.1 <= r.2,
        r.0@ == bars(buckets@, r.1 as int, r.2 as int),
{
    let n: usize = buckets.len();
    let mut max: u64 = 1;
    let mut lo: usize = 0;
    let mut hi: usize = 0;
    let mut i: usize = 0;
    let mut any: bool = false;
    while i < n
        invariant
            n == buckets@.len(),
            i <= n,
            forall|i: int| 0 <= i < buckets@.len() ==> buckets@[i] < u64::MAX,
            max < u64::MAX,
            max == peak(buckets@.take(i as int)),
            any ==> lo <= hi < i && buckets@[lo as int] > 0 && buckets@[hi as int] > 0,
            !any ==> lo == 0 && hi == 0 && forall|j: int| 0 <= j < i ==> buckets@[j] == 0,
            forall|j: int| 0 <= j < lo ==> buckets@[j] == 0,
            any ==> forall|j: int| hi < j < i ==> buckets@[j] == 0,
        decreases n - i,
    {
        if buckets[i] > 0 {
            if !any {
                lo = i;
                any = true;
            }
            hi = i;
        }
        if buckets[i] > max {
            max = buckets[i];
        }
        i = i + 1;
        assert(buckets@.take(i as int).drop_last() =~= buckets@.take(i - 1));
    }
    assert(buckets@.take(n as int) =~= buckets@);
    let mut s: String = String::new();
    let mut j: usize = lo;
    while j <= hi
        invariant
            n == buckets@.len(),
            lo <= hi < n,
            lo <= j <= hi + 1,
            max < u64::MAX,
            max == peak(buckets@),
            forall|i: int| 0 <= i < buckets@.len() ==> buckets@[i] < u64::MAX,
            s@ == bars(buckets@, lo as int, j - 1),
        decreases hi + 1 - j,
    {
        let l: u64 = bar_level(buckets[j], max);
        s.push(bar(l));
        j = j + 1;
        assert(s@ =~= bars(buckets@, lo as int, j - 1));
    }
    (s, lo, hi)
}

/// No bucket counts more than the peak.
proof fn lemma_peak(buckets: Seq<u64>, i: int)
    requires
        0 <= i < buckets.len(),
    ensures
        buckets[i] <= peak(buckets),
    decreases buckets.len(),
{
    if i < buckets.len() - 1 {
        lemma_peak(buckets.drop_last(), i);
    }
}

/// A bar is blank only where its bucket is empty, and the fullest bucket has the full bar.
pub proof fn law_bars_follow_counts(buckets: Seq<u64>, lo: int, hi: int, i: int)
    requires
        0 <= lo <= i <= hi < buckets.len(),
    ensures
        bars(buckets, lo, hi)[i - lo] == ' ' <==> buckets[i] == 0,
        buckets[i] > 0 && buckets[i] == peak(buckets) ==> bars(buckets, lo, hi)[i - lo] == '▇',
{
    lemma_peak(buckets, i);
    if buckets[i] > 0 {
        law_level_ends(buckets[i] as nat, peak(buckets));
    }
}

/// The fullest bucket has the full bar; a bar is blank only where its bucket is empty.
pub proof fn law_level_ends(count: nat, max: nat)
    requires
        0 < count <= max,
    ensures
        level(max, max) == 7,
        1 <= level(count, max) <= 7,
        level(0, max) == 0,
{
    lemma_pow_increases((max + 1) as nat, 13, 14);
}

/// Of two buckets the fuller one has no lower bar.
pub proof fn law_level_increases(a: nat, b: nat, max: nat)
    requires
        a <= b,
    ensures
        level(a, max) <= level(b, max),
{
    lemma_pow_base_increases(a + 1, b + 1, 14);
}

proof fn lemma_pow_base_increases(a: nat, b: nat, e: nat)
    requires
        a <= b,
    ensures
        0 <= pow(a as int, e) <= pow(b as int, e),
    decreases e,
{
    reveal_with_fuel(pow, 2);
    if e > 0 {
        lemma_pow_base_increases(a, b, (e - 1) as nat);
        let x = pow(a as int, (e - 1) as nat);
        let y = pow(b as int, (e - 1) as nat);
        assert(0 <= a * x <= b * y) by (nonlinear_arith)
            requires
                0 <= x <= y,
                0 <= a <= b,
        ;
    }
}

} // verus!
