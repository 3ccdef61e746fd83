//! Stable sorting.

use vstd::prelude::*;
use vstd::set_lib::*;

verus! {

/// A way to tell which of two items comes later.
pub trait Order<T> {
    /// Whether `a` comes later than `b`.
    spec fn later(self, a: T, b: T) -> bool;

    /// Whether `a` comes later than `b`.
    fn is_later(&self, a: &T, b: &T) -> (r: bool)
        ensures
            r == self.later(*a, *b),
    ;
}

/// Whether `after` holds the items of `before` at the indices that `perm` lists, each once.
pub open spec fn arranges<T>(before: Seq<T>, after: Seq<T>, perm: Seq<int>) -> bool {
    &&& perm.len() == before.len()
    &&& after.len() == before.len()
    &&& forall|i: int| 0 <= i < perm.len() ==> 0 <= #[trigger] perm[i] < before.len()
    &&& forall|i: int, j: int| 0 <= i < j < perm.len() ==> #[trigger] perm[i] != #[trigger] perm[j]
    &&& forall|i: int| 0 <= i < perm.len() ==> #[trigger] after[i] == before[perm[i]]
}

/// Whether on the items of `s` the relation orders: never both ways round, and transitive where
/// it does not hold.
pub open spec fn orders<T>(s: Seq<T>, later: spec_fn(T, T) -> bool) -> bool {
    &&& forall|i: int, j: int|
        0 <= i < s.len() && 0 <= j < s.len() ==> !(#[trigger] later(s[i], s[j]) && later(s[j], s[i]))
    &&& forall|i: int, j: int, k: int|
        0 <= i < s.len() && 0 <= j < s.len() && 0 <= k < s.len() && !(#[trigger] later(s[i], s[j]))
            && !(#[trigger] later(s[j], s[k])) ==> !later(s[i], s[k])
}

/// Whether no item comes later than one behind it, and items of which neither comes later keep
/// the order that they had.
pub open spec fn in_order<T>(after: Seq<T>, perm: Seq<int>, later: spec_fn(T, T) -> bool) -> bool {
    forall|i: int, j: int|
        0 <= i < j < after.len() ==> !later(#[trigger] after[i], #[trigger] after[j]) && (!later(
            after[j],
            after[i],
        ) ==> perm[i] < perm[j])
}

/// Whether `after` is `before` in stable order. Where the relation does not order the items,
/// only that the items are the same.
pub open spec fn sorted<T>(before: Seq<T>, after: Seq<T>, later: spec_fn(T, T) -> bool) -> bool {
    exists|perm: Seq<int>|
        #[trigger] arranges(before, after, perm) && (orders(before, later) ==> in_order(
            after,
            perm,
            later,
        ))
}

/// Sorts the items, keeping the order of equals.
pub fn sort<T, O: Order<T>>(v: &mut Vec<T>, order: &O)
    ensures
        sorted(old(v)@, final(v)@, |a: T, b: T| order.later(a, b)),
{
    let ghost before = v@;
    let ghost later = |a: T, b: T| order.later(a, b);
    let n: usize = v.len();
    let mut out: Vec<T> = Vec::new();
    let ghost mut perm: Seq<int> = Seq::empty();
    let mut i: usize = 0;
    let mut rest: Vec<T> = Vec::new();
    // Taken from the back of `v`, the items stand in `rest` with the first one last.
    while v.len() > 0
        invariant
            n == before.len(),
            v@.len() + rest@.len() == n,
            v@ == before.take(v@.len() as int),
            forall|j: int| 0 <= j < rest@.len() ==> #[trigger] rest@[j] == before[n - 1 - j],
        decreases v@.len(),
    {
        match v.pop() {
            Some(x) => {
                rest.push(x);
            },
            None => {},
        }
        assert(v@ =~= before.take(v@.len() as int));
    }
    while rest.len() > 0
        invariant
            n == before.len(),
            i + rest@.len() == n,
            later == (|a: T, b: T| order.later(a, b)),
            forall|j: int| 0 <= j < rest@.len() ==> #[trigger] rest@[j] == before[n - 1 - j],
            arranges(before.take(i as int), out@, perm),
            orders(before, later) ==> in_order(out@, perm, later),
        decreases rest@.len(),
    {
        if let Some(x) = rest.pop() {
            assert(x == before[i as int]);
            let mut j: usize = out.len();
            let ghost out0 = out@;
            while j > 0 && order.is_later(&out[j - 1], &x)
                invariant
                    j <= out@.len(),
                    out@ == out0,
                    later == (|a: T, b: T| order.later(a, b)),
                    forall|t: int| j <= t < out0.len() ==> later(#[trigger] out0[t], x),
                decreases j,
            {
                j = j - 1;
            }
            out.insert(j, x);
            proof {
                lemma_insert(before, i as int, out0, perm, j as int, later);
                perm = perm.insert(j as int, i as int);
            }
            i = i + 1;
        }
    }
    assert(before.take(n as int) =~= before);
    *v = out;
    assert(arranges(before, v@, perm));
}

proof fn lemma_insert<T>(
    before: Seq<T>,
    i: int,
    out: Seq<T>,
    perm: Seq<int>,
    j: int,
    later: spec_fn(T, T) -> bool,
)
    requires
        0 <= i < before.len(),
        arranges(before.take(i), out, perm),
        orders(before, later) ==> in_order(out, perm, later),
        0 <= j <= out.len(),
        forall|t: int| j <= t < out.len() ==> later(#[trigger] out[t], before[i]),
        j > 0 ==> !later(out[j - 1], before[i]),
    ensures
        arranges(before.take(i + 1), out.insert(j, before[i]), perm.insert(j, i)),
        orders(before, later) ==> in_order(out.insert(j, before[i]), perm.insert(j, i), later),
{
    let x = before[i];
    let out1 = out.insert(j, x);
    let perm1 = perm.insert(j, i);
    assert forall|a: int| 0 <= a < perm1.len() implies 0 <= #[trigger] perm1[a] < i + 1 && out1[a]
        == before.take(i + 1)[perm1[a]] by {
        if a < j {
            assert(out[a] == before.take(i)[perm[a]]);
        } else if a > j {
            assert(out[a - 1] == before.take(i)[perm[a - 1]]);
        }
    }
    assert forall|a: int, b: int| 0 <= a < b < perm1.len() implies #[trigger] perm1[a]
        != #[trigger] perm1[b] by {
        let a0 = if a < j {
            a
        } else {
            a - 1
        };
        let b0 = if b < j {
            b
        } else {
            b - 1
        };
        if a == j {
            assert(0 <= perm[b0] < i);
        } else if b == j {
            assert(0 <= perm[a0] < i);
        } else {
            assert(perm[a0] != perm[b0]);
        }
    }
    if orders(before, later) {
        assert forall|a: int, b: int| 0 <= a < b < out1.len() implies !later(
            #[trigger] out1[a],
            #[trigger] out1[b],
        ) && (!later(out1[b], out1[a]) ==> perm1[a] < perm1[b]) by {
            if b < j {
                assert(out1[a] == out[a] && out1[b] == out[b]);
            } else if a > j {
                assert(out1[a] == out[a - 1] && out1[b] == out[b - 1]);
            } else if a < j && b > j {
                assert(out1[a] == out[a] && out1[b] == out[b - 1]);
            } else if b == j {
                // An item before the place of `x`.
                assert(out[a] == before[perm[a]]);
                assert(0 <= perm[a] < i);
                if a < j - 1 {
                    assert(!later(out[a], out[j - 1]));
                    assert(out[j - 1] == before[perm[j - 1]]);
                    assert(0 <= perm[j - 1] < i);
                    assert(!later(before[perm[a]], before[perm[j - 1]]));
                    assert(!later(before[perm[j - 1]], before[i]));
                }
            } else {
                // An item behind the place of `x`.
                assert(a == j);
                assert(out1[b] == out[b - 1]);
                assert(later(out[b - 1], x));
                assert(out[b - 1] == before[perm[b - 1]]);
                assert(0 <= perm[b - 1] < i);
            }
        }
    }
}

/// Where the relation orders the items, there is one way to sort them.
pub proof fn law_sorted_unique<T>(before: Seq<T>, x: Seq<T>, y: Seq<T>, later: spec_fn(T, T) -> bool)
    requires
        orders(before, later),
        sorted(before, x, later),
        sorted(before, y, later),
    ensures
        x == y,
{
    let p = choose|perm: Seq<int>| #[trigger] arranges(before, x, perm) && in_order(x, perm, later);
    let q = choose|perm: Seq<int>| #[trigger] arranges(before, y, perm) && in_order(y, perm, later);
    lemma_same_arrangement(before, x, y, p, q, later, before.len());
    assert forall|i: int| 0 <= i < x.len() implies x[i] == y[i] by {
        assert(p[i] == q[i]);
    }
    assert(x =~= y);
}

proof fn lemma_same_arrangement<T>(
    before: Seq<T>,
    x: Seq<T>,
    y: Seq<T>,
    p: Seq<int>,
    q: Seq<int>,
    later: spec_fn(T, T) -> bool,
    n: nat,
)
    requires
        arranges(before, x, p),
        arranges(before, y, q),
        in_order(x, p, later),
        in_order(y, q, later),
        n <= before.len(),
    ensures
        forall|i: int| 0 <= i < n ==> p[i] == q[i],
    decreases n,
{
    if n > 0 {
        let i = n - 1;
        lemma_same_arrangement(before, x, y, p, q, later, i as nat);
        lemma_covers(p, before.len(), q[i]);
        lemma_covers(q, before.len(), p[i]);
        let k = choose|k: int| 0 <= k < p.len() && #[trigger] p[k] == q[i];
        let j = choose|j: int| 0 <= j < q.len() && #[trigger] q[j] == p[i];
        if k < i {
            assert(q[k] == p[k]);
        }
        if j < i {
            assert(p[j] == q[j]);
        }
        if k > i && j > i {
            assert(x[i] == before[p[i]] && x[k] == before[p[k]]);
            assert(y[i] == before[q[i]] && y[j] == before[q[j]]);
            assert(!later(x[i], x[k]));
            assert(!later(y[i], y[j]));
        }
    }
}

/// Different indices below `n`, as many as there are, leave none out.
pub proof fn lemma_covers(perm: Seq<int>, n: nat, v: int)
    requires
        perm.len() == n,
        forall|i: int| 0 <= i < n ==> 0 <= #[trigger] perm[i] < n,
        forall|i: int, j: int| 0 <= i < j < n ==> #[trigger] perm[i] != #[trigger] perm[j],
        0 <= v < n,
    ensures
        exists|i: int| 0 <= i < n && #[trigger] perm[i] == v,
{
    assert(perm.no_duplicates());
    perm.unique_seq_to_set();
    let all = set_int_range(0, n as int);
    lemma_int_range(0, n as int);
    assert(perm.to_set().subset_of(all));
    lemma_subset_equality(perm.to_set(), all);
    assert(perm.to_set().contains(v));
    let i = choose|i: int| 0 <= i < perm.len() && perm[i] == v;
    assert(perm[i] == v);
}

} // verus!
