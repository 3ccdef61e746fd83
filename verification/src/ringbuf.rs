//! A sequence that keeps its latest items.

use std::collections::VecDeque;
use vstd::prelude::*;

verus! {

/// The latest `cap` items after `x` has come last.
pub open spec fn pushed<T>(s: Seq<T>, cap: nat, x: T) -> Seq<T> {
    let t = s.push(x);
    if t.len() > cap {
        t.skip(t.len() - cap)
    } else {
        t
    }
}

/// At most `cap` items, the oldest first.
#[derive(Debug)]
pub struct RingBuf<T> {
    pub items: VecDeque<T>,
    pub cap: usize,
}

impl<T> View for RingBuf<T> {
    type V = Seq<T>;

    open spec fn view(&self) -> Seq<T> {
        self.items@
    }
}

impl<T> RingBuf<T> {
    /// Whether the items are within the limit.
    pub open spec fn wf(&self) -> bool {
        self.items@.len() <= self.cap
    }

    /// No items, and room for `cap` of them.
    pub fn new(cap: usize) -> (r: RingBuf<T>)
        ensures
            r.wf(),
            r.cap == cap,
            r@ == Seq::<T>::empty(),
    {
        RingBuf { items: VecDeque::new(), cap }
    }

    /// Adds an item, dropping the oldest where there is no room.
    pub fn push(&mut self, x: T)
        requires
            old(self).wf(),
        ensures
            final(self).wf(),
            final(self).cap == old(self).cap,
            final(self)@ == pushed(old(self)@, old(self).cap as nat, x),
    {
        if self.cap == 0 {
            assert(self@ =~= pushed(old(self)@, 0, x));
            return;
        }
        if self.items.len() == self.cap {
            let oldest: Option<T> = self.items.pop_front();
        }
        self.items.push_back(x);
        assert(self@ =~= pushed(old(self)@, old(self).cap as nat, x));
    }

    /// Drops all items.
    pub fn clear(&mut self)
        ensures
            final(self).wf(),
            final(self).cap == old(self).cap,
            final(self)@ == Seq::<T>::empty(),
    {
        self.items.clear();
    }

    /// The number of items.
    pub fn len(&self) -> (n: usize)
        ensures
            n == self@.len(),
    {
        self.items.len()
    }

    /// The items, the oldest first.
    pub fn to_vec(&self) -> (v: Vec<T>)
        where T: Copy
        ensures
            v@ == self@,
    {
        let mut v: Vec<T> = Vec::new();
        let mut i: usize = 0;
        while i < self.items.len()
            invariant
                i <= self.items@.len(),
                v@ == self@.take(i as int),
            decreases self.items@.len() - i,
        {
            v.push(self.items[i]);
            i = i + 1;
            assert(self@.take(i as int) =~= self@.take(i - 1).push(self@[i - 1]));
        }
        assert(self@.take(i as int) =~= self@);
        v
    }
}

/// A push keeps every item but the oldest, and keeps no more than the limit.
pub proof fn law_pushed_latest<T>(s: Seq<T>, cap: nat, x: T)
    requires
        s.len() <= cap,
        cap > 0,
    ensures
        pushed(s, cap, x).len() == if s.len() < cap {
            s.len() + 1
        } else {
            cap
        },
        pushed(s, cap, x).last() == x,
        pushed(s, cap, x).drop_last() == if s.len() < cap {
            s
        } else {
            s.skip(1)
        },
{
    assert(pushed(s, cap, x).drop_last() =~= if s.len() < cap {
        s
    } else {
        s.skip(1)
    });
}

} // verus!
