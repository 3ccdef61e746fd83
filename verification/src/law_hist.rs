//! What the bars of a histogram show.

use crate::hist;
use vstd::arithmetic::power::*;
use vstd::arithmetic::power2::*;
use vstd::prelude::*;

verus! {

/// The first bucket starts at zero and the second at two; from there each starts at twice the
/// bound of the one before, up to the last, and each ends where the next starts, but for the last,
/// which takes all.
pub proof fn law_bounds_double(i: nat)
    ensures
        hist::lower_bound(0) == 0,
        hist::lower_bound(1) == 2,
        1 <= i < 63 ==> hist::lower_bound(i + 1) == 2 * hist::lower_bound(i),
        i >= 63 ==> hist::lower_bound(i) == hist::lower_bound(63),
        i < 63 ==> hist::upper_bound(i) == hist::lower_bound(i + 1),
        i >= 63 ==> hist::upper_bound(i) == u64::MAX,
{
    lemma2_to64();
    lemma_pow2_unfold(i + 1);
}

/// The height of a bar is the nearest number of sevenths of the logarithm of the fullest bucket,
/// and at least one: the fourteenth power of the count and one lies between the odd powers of the
/// peak and one next to twice the height.
pub proof fn law_level_nearest(count: nat, max: nat)
    requires
        0 < count <= max,
    ensures
        ({
            let k = hist::level(count, max);
            &&& 1 <= k <= 7
            &&& k >= 2 ==> pow(max as int + 1, (2 * k - 1) as nat) <= pow(count as int + 1, 14)
            &&& k <= 6 ==> pow(count as int + 1, 14) < pow(max as int + 1, (2 * k + 1) as nat)
        }),
{
}

/// The bars rise by an eighth of a cell with each step of height, from none.
pub proof fn law_bars_rise(level: nat)
    requires
        level <= 7,
    ensures
        level == 0 ==> hist::glyph(level) == ' ',
        level > 0 ==> hist::glyph(level) as int == 0x2580 + level,
{
}

/// The peak is the largest count, or one where nothing is counted.
pub proof fn law_peak(buckets: Seq<u64>, i: int)
    ensures
        0 <= i < buckets.len() ==> buckets[i] <= hist::peak(buckets),
        hist::peak(buckets) >= 1,
        hist::peak(buckets) == 1 || exists|j: int|
            0 <= j < buckets.len() && #[trigger] buckets[j] == hist::peak(buckets),
    decreases buckets.len(),
{
    if buckets.len() > 0 {
        let front = buckets.drop_last();
        law_peak(front, i);
        if 0 <= i < front.len() {
            assert(front[i] == buckets[i]);
        }
        if hist::peak(buckets) == hist::peak(front) {
            if hist::peak(front) != 1 {
                let j = choose|j: int| 0 <= j < front.len() && #[trigger] front[j] == hist::peak(front);
                assert(buckets[j] == hist::peak(buckets));
            }
        } else {
            assert(buckets[buckets.len() - 1] == hist::peak(buckets));
        }
    }
}

/// There is a bar for each bucket of the window, in order, and its height is that of its count.
pub proof fn law_bar_of_bucket(buckets: Seq<u64>, lo: int, hi: int, i: int)
    requires
        0 <= lo <= i <= hi < buckets.len(),
    ensures
        hist::bars(buckets, lo, hi).len() == hi - lo + 1,
        hist::bars(buckets, lo, hi)[i - lo] == hist::glyph(hist::level(buckets[i] as nat, hist::peak(buckets))),
{
}

/// The window starts and ends with buckets that count something and leaves none out that does.
pub proof fn law_window(buckets: Seq<u64>, lo: int, hi: int, i: int)
    requires
        hist::is_first(buckets, lo),
        hist::is_last(buckets, hi),
        0 <= i < buckets.len(),
    ensures
        buckets[i] > 0 ==> lo <= i <= hi && buckets[lo] > 0 && buckets[hi] > 0,
        (forall|j: int| 0 <= j < buckets.len() ==> #[trigger] buckets[j] == 0) ==> lo == 0 && hi == 0,
{
}

} // verus!
