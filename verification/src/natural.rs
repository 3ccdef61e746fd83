//! Natural numbers of any size.

use crate::text;
use crate::text::digit_char;
use vstd::arithmetic::div_mod::*;
use vstd::arithmetic::mul::*;
use vstd::arithmetic::power::*;
use vstd::prelude::*;

verus! {

/// The base of the digits of a `Natural`, `2^64`.
pub open spec fn base() -> nat {
    0x1_0000_0000_0000_0000
}

/// The digit at place `i`; zero past the end.
pub open spec fn place(limbs: Seq<u64>, i: int) -> nat {
    if 0 <= i < limbs.len() {
        limbs[i] as nat
    } else {
        0
    }
}

/// The number that the lowest `n` digits denote.
pub open spec fn lowest(limbs: Seq<u64>, n: nat) -> nat
    decreases n,
{
    if n == 0 {
        0
    } else {
        lowest(limbs, (n - 1) as nat) + place(limbs, n - 1) * pow(
            base() as int,
            (n - 1) as nat,
        ) as nat
    }
}

/// A natural number by its digits in base `2^64`, the lowest first.
pub struct Natural {
    pub limbs: Vec<u64>,
}

impl View for Natural {
    type V = nat;

    open spec fn view(&self) -> nat {
        lowest(self.limbs@, self.limbs@.len())
    }
}

proof fn lemma_base_power(n: nat)
    ensures
        pow(base() as int, n) > 0,
        pow(base() as int, n + 1) == base() * pow(base() as int, n),
        pow(base() as int, 0) == 1,
{
    lemma_pow_positive(base() as int, n);
    lemma_pow0(base() as int);
    reveal_with_fuel(pow, 2);
}

proof fn lemma_lowest_bound(limbs: Seq<u64>, n: nat)
    ensures
        lowest(limbs, n) < pow(base() as int, n),
    decreases n,
{
    if n > 0 {
        let m = (n - 1) as nat;
        lemma_lowest_bound(limbs, m);
        lemma_base_power(m);
        let p = pow(base() as int, m);
        let d = place(limbs, m as int);
        assert(d * p + p <= base() * p) by (nonlinear_arith)
            requires
                d + 1 <= base(),
                p > 0,
        ;
    } else {
        lemma_base_power(0);
    }
}

proof fn lemma_lowest_same(a: Seq<u64>, b: Seq<u64>, n: nat)
    requires
        forall|i: int| 0 <= i < n ==> place(a, i) == place(b, i),
    ensures
        lowest(a, n) == lowest(b, n),
    decreases n,
{
    if n > 0 {
        lemma_lowest_same(a, b, (n - 1) as nat);
    }
}

proof fn lemma_lowest_past(limbs: Seq<u64>, n: nat)
    requires
        n >= limbs.len(),
    ensures
        lowest(limbs, n) == lowest(limbs, limbs.len()),
    decreases n,
{
    if n > limbs.len() {
        lemma_lowest_past(limbs, (n - 1) as nat);
        let p = pow(base() as int, (n - 1) as nat) as nat;
        assert(0 * p == 0) by (nonlinear_arith);
    }
}

impl Natural {
    /// The number `n`.
    pub fn from_u64(n: u64) -> (r: Natural)
        ensures
            r@ == n,
    {
        let mut limbs: Vec<u64> = Vec::new();
        limbs.push(n);
        proof {
            lemma_base_power(0);
            reveal_with_fuel(lowest, 2);
            assert(n * 1 == n);
        }
        Natural { limbs }
    }

    /// Multiplies by `k`.
    pub fn multiply(&mut self, k: u64)
        ensures
            final(self)@ == old(self)@ * k,
    {
        let mut out: Vec<u64> = Vec::new();
        let mut carry: u64 = 0;
        let mut i: usize = 0;
        proof {
            lemma_base_power(0);
            assert(0 * k == 0);
        }
        while i < self.limbs.len()
            invariant
                *self == *old(self),
                i <= self.limbs.len(),
                out.len() == i,
                lowest(out@, i as nat) + carry * pow(base() as int, i as nat) == lowest(
                    self.limbs@,
                    i as nat,
                ) * k,
            decreases self.limbs.len() - i,
        {
            let limb: u64 = self.limbs[i];
            let ghost p = pow(base() as int, i as nat) as nat;
            let ghost before = out@;
            proof {
                lemma_base_power(i as nat);
                assert(limb * k <= 0xffff_ffff_ffff_ffff * 0xffff_ffff_ffff_ffff) by (nonlinear_arith)
                    requires
                        limb <= 0xffff_ffff_ffff_ffff,
                        k <= 0xffff_ffff_ffff_ffff,
                ;
            }
            let wide: u128 = limb as u128 * k as u128 + carry as u128;
            let digit: u64 = (wide % 0x1_0000_0000_0000_0000) as u64;
            let next: u64 = (wide / 0x1_0000_0000_0000_0000) as u64;
            out.push(digit);
            proof {
                lemma_lowest_same(before, out@, i as nat);
                assert(limb * k + carry == digit + next * base());
                let low = lowest(self.limbs@, i as nat);
                assert((low + limb * p) * k == low * k + (limb * k) * p) by (nonlinear_arith);
                assert((limb * k) * p + carry * p == digit * p + next * (base() * p)) by (nonlinear_arith)
                    requires
                        limb * k + carry == digit + next * base(),
                ;
            }
            carry = next;
            i = i + 1;
        }
        let ghost before = out@;
        let ghost n = i as nat;
        out.push(carry);
        proof {
            lemma_base_power(n);
            lemma_lowest_same(before, out@, n);
        }
        self.limbs = out;
    }

    /// Divides by `k`, dropping the remainder, which is returned.
    pub fn divide(&mut self, k: u64) -> (rem: u64)
        requires
            k > 0,
        ensures
            final(self)@ == old(self)@ / k as nat,
            rem == old(self)@ % k as nat,
    {
        let n: usize = self.limbs.len();
        let ghost start = self.limbs@;
        let ghost total = self@;
        let mut i: usize = n;
        let mut rem: u64 = 0;
        proof {
            lemma_base_power(n as nat);
            assert(0 * pow(base() as int, n as nat) == 0) by (nonlinear_arith);
            assert(0 * k == 0);
        }
        let ghost mut done: nat = 0;
        // `done` is the part of the quotient in the places from `i` on.
        while i > 0
            invariant
                i <= n,
                k > 0,
                n == self.limbs.len(),
                n == start.len(),
                total == lowest(start, n as nat),
                rem < k,
                forall|j: int| 0 <= j < i ==> self.limbs@[j] == start[j],
                total == done * k + rem * pow(base() as int, i as nat) + lowest(start, i as nat),
                lowest(self.limbs@, n as nat) == done + lowest(start, i as nat),
            decreases i,
        {
            let ghost prev = self.limbs@;
            let ghost m = (i - 1) as nat;
            let ghost p = pow(base() as int, m) as nat;
            i = i - 1;
            let limb: u64 = self.limbs[i];
            proof {
                assert(rem * base() + limb < k * base()) by (nonlinear_arith)
                    requires
                        rem + 1 <= k,
                        limb < base(),
                ;
            }
            let wide: u128 = rem as u128 * 0x1_0000_0000_0000_0000 + limb as u128;
            let digit128: u128 = wide / k as u128;
            proof {
                lemma_fundamental_div_mod(wide as int, k as int);
                assert(digit128 < base()) by (nonlinear_arith)
                    requires
                        wide == k * digit128 + wide as int % k as int,
                        wide as int % k as int >= 0,
                        wide < k * base(),
                        k > 0,
                ;
            }
            let digit: u64 = digit128 as u64;
            let old_rem: u64 = rem;
            rem = (wide % k as u128) as u64;
            self.limbs.set(i, digit);
            proof {
                lemma_base_power(m);
                lemma_replace(prev, self.limbs@, i as int, n as nat);
                assert(old_rem * (base() * p) + limb * p == (digit * p) * k + rem * p) by (nonlinear_arith)
                    requires
                        old_rem * base() + limb == k * digit + rem,
                ;
                assert((done + digit * p) * k == done * k + (digit * p) * k) by (nonlinear_arith);
                done = done + digit as nat * p;
            }
        }
        proof {
            lemma_base_power(0);
            assert(rem * 1 == rem);
            lemma_fundamental_div_mod_converse(total as int, k as int, done as int, rem as int);
        }
        rem
    }

    /// Whether this is at least `other`.
    pub fn at_least(&self, other: &Natural) -> (b: bool)
        ensures
            b == (self@ >= other@),
    {
        let n: usize = if self.limbs.len() < other.limbs.len() {
            other.limbs.len()
        } else {
            self.limbs.len()
        };
        let mut b: bool = true;
        let mut i: usize = 0;
        while i < n
            invariant
                i <= n,
                n >= self.limbs.len(),
                n >= other.limbs.len(),
                b == (lowest(self.limbs@, i as nat) >= lowest(other.limbs@, i as nat)),
            decreases n - i,
        {
            let x: u64 = if i < self.limbs.len() {
                self.limbs[i]
            } else {
                0
            };
            let y: u64 = if i < other.limbs.len() {
                other.limbs[i]
            } else {
                0
            };
            proof {
                let p = pow(base() as int, i as nat) as nat;
                lemma_base_power(i as nat);
                lemma_lowest_bound(self.limbs@, i as nat);
                lemma_lowest_bound(other.limbs@, i as nat);
                assert(x > y ==> x * p >= y * p + p) by (nonlinear_arith)
                    requires
                        p > 0,
                ;
                assert(y > x ==> y * p >= x * p + p) by (nonlinear_arith)
                    requires
                        p > 0,
                ;
            }
            if x > y {
                b = true;
            } else if x < y {
                b = false;
            }
            i = i + 1;
        }
        proof {
            lemma_lowest_past(self.limbs@, n as nat);
            lemma_lowest_past(other.limbs@, n as nat);
        }
        b
    }

    /// Whether this is below ten, and then its digit.
    fn small(&self) -> (r: Option<u64>)
        ensures
            match r {
                Some(d) => d < 10 && d == self@,
                None => self@ >= 10,
            },
    {
        let mut i: usize = 0;
        let mut d: u64 = 0;
        proof {
            lemma_base_power(0);
        }
        while i < self.limbs.len()
            invariant
                i <= self.limbs.len(),
                d < 10,
                lowest(self.limbs@, i as nat) == d,
            decreases self.limbs.len() - i,
        {
            let limb: u64 = self.limbs[i];
            let ghost p = pow(base() as int, i as nat) as nat;
            proof {
                lemma_base_power(i as nat);
                if i > 0 {
                    lemma_base_power((i - 1) as nat);
                    assert(p >= base()) by (nonlinear_arith)
                        requires
                            p == base() * pow(base() as int, (i - 1) as nat),
                            pow(base() as int, (i - 1) as nat) >= 1,
                    ;
                }
                assert(0 * p == 0) by (nonlinear_arith);
                assert(limb > 0 ==> limb * p >= p) by (nonlinear_arith)
                    requires
                        p > 0,
                ;
                assert(i == 0 ==> limb * p == limb) by (nonlinear_arith)
                    requires
                        i == 0 ==> p == 1,
                ;
            }
            if limb > 0 && (i > 0 || limb >= 10) {
                proof {
                    lemma_lowest_grows(self.limbs@, (i + 1) as nat, self.limbs@.len());
                }
                return None;
            }
            if i == 0 {
                d = limb;
            }
            i = i + 1;
        }
        Some(d)
    }

    /// Appends the decimal numeral to a text.
    pub fn push_decimal(self, s: &mut String)
        ensures
            final(s)@ == old(s)@ + text::decimal(self@),
        decreases self@,
    {
        match self.small() {
            Some(d) => {
                s.push(digit_char(d));
                assert(s@ =~= old(s)@ + text::decimal(self@));
            },
            None => {
                let ghost n = self@;
                let mut rest: Natural = self;
                let d: u64 = rest.divide(10);
                rest.push_decimal(s);
                s.push(digit_char(d));
                assert(s@ =~= old(s)@ + text::decimal(n));
            },
        }
    }
}

proof fn lemma_lowest_grows(limbs: Seq<u64>, m: nat, n: nat)
    requires
        m <= n,
    ensures
        lowest(limbs, m) <= lowest(limbs, n),
    decreases n,
{
    if m < n {
        lemma_lowest_grows(limbs, m, (n - 1) as nat);
        lemma_base_power((n - 1) as nat);
        let d = place(limbs, n - 1);
        let p = pow(base() as int, (n - 1) as nat) as nat;
        assert(d * p >= 0) by (nonlinear_arith);
    }
}

proof fn lemma_replace(a: Seq<u64>, b: Seq<u64>, i: int, n: nat)
    requires
        0 <= i < n,
        forall|j: int| 0 <= j < n && j != i ==> place(a, j) == place(b, j),
    ensures
        lowest(b, n) == lowest(a, n) - place(a, i) * pow(base() as int, i as nat) + place(b, i)
            * pow(base() as int, i as nat),
    decreases n,
{
    if i == n - 1 {
        lemma_lowest_same(a, b, i as nat);
        lemma_base_power(i as nat);
    } else {
        lemma_replace(a, b, i, (n - 1) as nat);
    }
}

} // verus!
