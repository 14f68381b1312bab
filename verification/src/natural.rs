//! Natural numbers of any size, as far as reading and writing binary
//! fractions in decimal needs them: multiplication by a small factor,
//! addition of a small number, and comparison.

use vstd::prelude::*;

verus! {

/// One more than the largest limb.
pub open spec fn limb_base() -> nat {
    0x1_0000_0000
}

/// The weight of limb `i`.
pub open spec fn weight(i: nat) -> nat
    decreases i,
{
    if i == 0 {
        1
    } else {
        weight((i - 1) as nat) * limb_base()
    }
}

/// The number that limbs denote, least significant limb first.
pub open spec fn limbs_value(limbs: Seq<u32>) -> nat
    decreases limbs.len(),
{
    if limbs.len() == 0 {
        0
    } else {
        limbs_value(limbs.drop_last()) + limbs.last() as nat * weight((limbs.len() - 1) as nat)
    }
}

/// `limbs` without the leading zero limbs, which stand last.
pub open spec fn significant(limbs: Seq<u32>) -> Seq<u32>
    decreases limbs.len(),
{
    if limbs.len() > 0 && limbs.last() == 0 {
        significant(limbs.drop_last())
    } else {
        limbs
    }
}

/// `base` to the power `n`.
pub open spec fn power(base: nat, n: nat) -> nat
    decreases n,
{
    if n == 0 {
        1
    } else {
        power(base, (n - 1) as nat) * base
    }
}

/// A natural number.
pub struct Natural {
    limbs: Vec<u32>,
}

impl View for Natural {
    type V = nat;

    closed spec fn view(&self) -> nat {
        limbs_value(self.limbs@)
    }
}

proof fn lemma_limbs_bound(limbs: Seq<u32>)
    ensures
        limbs_value(limbs) < weight(limbs.len()),
    decreases limbs.len(),
{
    if limbs.len() > 0 {
        lemma_limbs_bound(limbs.drop_last());
        let w = weight((limbs.len() - 1) as nat);
        assert(limbs.last() * w + w <= limb_base() * w) by (nonlinear_arith)
            requires
                limbs.last() + 1 <= limb_base(),
        ;
        assert(weight(limbs.len()) == w * limb_base());
        assert(w * limb_base() == limb_base() * w) by (nonlinear_arith);
    }
}

/// Powers add up in the exponent.
pub proof fn lemma_power_add(base: nat, m: nat, n: nat)
    ensures
        power(base, m + n) == power(base, m) * power(base, n),
    decreases n,
{
    if n > 0 {
        lemma_power_add(base, m, (n - 1) as nat);
        let a = power(base, m);
        let b = power(base, (n - 1) as nat);
        assert(power(base, m + n) == power(base, (m + n - 1) as nat) * base);
        assert((a * b) * base == a * (b * base)) by (nonlinear_arith);
    } else {
        assert(power(base, m) * 1 == power(base, m));
    }
}

/// A power of a positive base is positive.
pub proof fn lemma_power_positive(base: nat, n: nat)
    requires
        base > 0,
    ensures
        power(base, n) > 0,
    decreases n,
{
    if n > 0 {
        lemma_power_positive(base, (n - 1) as nat);
        let p = power(base, (n - 1) as nat);
        assert(p * base > 0) by (nonlinear_arith)
            requires
                p > 0,
                base > 0,
        ;
    }
}

impl Natural {
    /// The number `n`.
    pub fn from_u64(n: u64) -> (r: Natural)
        ensures
            r@ == n,
    {
        let limbs: Vec<u32> = vec![(n % 0x1_0000_0000) as u32, (n / 0x1_0000_0000) as u32];
        proof {
            reveal_with_fuel(limbs_value, 3);
            reveal_with_fuel(weight, 2);
            assert(limbs@.drop_last().drop_last() =~= Seq::<u32>::empty());
            let (lo, hi) = (limbs@[0] as nat, limbs@[1] as nat);
            assert(weight(0) == 1 && weight(1) == 0x1_0000_0000);
            assert(lo * 1 == lo);
            assert(limbs_value(limbs@.drop_last()) == lo);
            assert(limbs_value(limbs@) == lo + hi * 0x1_0000_0000);
        }
        Natural { limbs }
    }

    /// A copy of the number.
    pub fn copy(&self) -> (r: Natural)
        ensures
            r@ == self@,
    {
        Natural { limbs: self.limbs.clone() }
    }

    /// Multiply by `factor` and add `addend`.
    pub fn mul_add(&mut self, factor: u32, addend: u32)
        ensures
            final(self)@ == old(self)@ * factor + addend,
    {
        let ghost start = self.limbs@;
        let mut carry: u64 = addend as u64;
        let mut i: usize = 0;
        proof {
            assert(start.take(0) =~= Seq::<u32>::empty());
            assert(self.limbs@.take(0) =~= Seq::<u32>::empty());
            assert(weight(0) == 1);
            assert(0 * factor == 0) by (nonlinear_arith);
            assert(carry * 1 == carry);
        }
        while i < self.limbs.len()
            invariant
                i <= self.limbs@.len() == start.len(),
                carry < 0x1_0000_0000,
                forall|j: int| i <= j < start.len() ==> self.limbs@[j] == start[j],
                limbs_value(self.limbs@.take(i as int)) + carry * weight(i as nat) == limbs_value(
                    start.take(i as int),
                ) * factor + addend,
            decreases self.limbs@.len() - i,
        {
            let ghost before = self.limbs@;
            let ghost c0 = carry;
            let limb: u32 = self.limbs[i];
            proof {
                assert(limb * factor <= 0xFFFF_FFFF * 0xFFFF_FFFF) by (nonlinear_arith)
                    requires
                        limb <= 0xFFFF_FFFF,
                        factor <= 0xFFFF_FFFF,
                ;
            }
            let sum: u64 = limb as u64 * factor as u64 + carry;
            self.limbs[i] = (sum % 0x1_0000_0000) as u32;
            carry = sum / 0x1_0000_0000;
            proof {
                let w = weight(i as nat);
                let now = self.limbs@.take(i + 1);
                let was = start.take(i + 1);
                assert(now.drop_last() =~= before.take(i as int));
                assert(was.drop_last() =~= start.take(i as int));
                assert(now.last() == sum % 0x1_0000_0000);
                assert(was.last() == limb);
                let a = limbs_value(before.take(i as int));
                let b = limbs_value(start.take(i as int));
                let lo = (sum % 0x1_0000_0000) as nat;
                let hi = (sum / 0x1_0000_0000) as nat;
                assert(weight((i + 1) as nat) == w * limb_base());
                assert(a + lo * w + hi * (w * 0x1_0000_0000) == (b + limb * w) * factor + addend)
                    by (nonlinear_arith)
                    requires
                        a + c0 * w == b * factor + addend,
                        lo + hi * 0x1_0000_0000 == limb * factor + c0,
                ;
            }
            i = i + 1;
        }
        proof {
            assert(self.limbs@.take(i as int) =~= self.limbs@);
            assert(start.take(i as int) =~= start);
        }
        let ghost middle = self.limbs@;
        self.limbs.push(carry as u32);
        proof {
            assert(self.limbs@.drop_last() =~= middle);
        }
        self.normalize();
    }

    /// Multiply by `factor`.
    pub fn mul(&mut self, factor: u32)
        ensures
            final(self)@ == old(self)@ * factor,
    {
        self.mul_add(factor, 0);
    }

    /// Drop leading zero limbs; the number stays.
    fn normalize(&mut self)
        ensures
            final(self)@ == old(self)@,
            final(self).limbs@ == significant(old(self).limbs@),
    {
        let ghost value = self@;
        let ghost start = self.limbs@;
        while self.limbs.len() > 0 && self.limbs[self.limbs.len() - 1] == 0
            invariant
                self@ == value,
                significant(self.limbs@) == significant(start),
            decreases self.limbs@.len(),
        {
            proof {
                assert(0 * weight((self.limbs@.len() - 1) as nat) == 0) by (nonlinear_arith);
            }
            self.limbs.pop();
        }
    }

    /// True when the number is not above `other`.
    pub fn at_most(&self, other: &Natural) -> (b: bool)
        ensures
            b == (self@ <= other@),
    {
        let mut x = self.copy();
        let mut y = other.copy();
        x.widen(y.limbs.len());
        y.widen(x.limbs.len());
        let mut i: usize = x.limbs.len();
        proof {
            assert(x.limbs@.take(i as int) =~= x.limbs@);
            assert(y.limbs@.take(i as int) =~= y.limbs@);
        }
        while i > 0
            invariant
                i <= x.limbs@.len() == y.limbs@.len(),
                self@ - other@ == limbs_value(x.limbs@.take(i as int)) - limbs_value(
                    y.limbs@.take(i as int),
                ),
            decreases i,
        {
            let p: u32 = x.limbs[i - 1];
            let q: u32 = y.limbs[i - 1];
            proof {
                let a = x.limbs@.take(i as int);
                let b = y.limbs@.take(i as int);
                assert(a.drop_last() =~= x.limbs@.take(i - 1));
                assert(b.drop_last() =~= y.limbs@.take(i - 1));
                lemma_limbs_bound(a.drop_last());
                lemma_limbs_bound(b.drop_last());
                let w = weight((i - 1) as nat);
                if p < q {
                    assert(p * w + w <= q * w) by (nonlinear_arith)
                        requires
                            p + 1 <= q,
                    ;
                } else if q < p {
                    assert(q * w + w <= p * w) by (nonlinear_arith)
                        requires
                            q + 1 <= p,
                    ;
                }
            }
            if p < q {
                return true;
            }
            if p > q {
                return false;
            }
            i = i - 1;
        }
        true
    }

    /// Grow to at least `n` limbs.
    fn widen(&mut self, n: usize)
        ensures
            final(self)@ == old(self)@,
            final(self).limbs@.len() == (if old(self).limbs@.len() < n {
                n as nat
            } else {
                old(self).limbs@.len()
            }),
    {
        let ghost value = self@;
        let ghost start = self.limbs@.len();
        while self.limbs.len() < n
            invariant
                self@ == value,
                start <= self.limbs@.len(),
                self.limbs@.len() <= n || self.limbs@.len() == start,
            decreases n - self.limbs@.len(),
        {
            let ghost before = self.limbs@;
            self.limbs.push(0);
            proof {
                assert(self.limbs@.drop_last() =~= before);
                assert(0 * weight(before.len()) == 0) by (nonlinear_arith);
            }
        }
    }

    /// Multiply by `2` to the power `n`.
    pub fn mul_pow2(&mut self, n: u64)
        ensures
            final(self)@ == old(self)@ * power(2, n as nat),
    {
        let ghost start = self@;
        let mut left: u64 = n;
        proof {
            assert(power(2, 0) == 1);
            assert(start * 1 == start);
        }
        while left >= 16
            invariant
                left <= n,
                self@ == start * power(2, (n - left) as nat),
            decreases left,
        {
            let ghost before = self@;
            self.mul(0x1_0000);
            proof {
                assert(power(2, 16) == 0x1_0000) by {
                    reveal_with_fuel(power, 17);
                }
                lemma_power_add(2, (n - left) as nat, 16);
                let p = power(2, (n - left) as nat);
                assert((start * p) * 0x1_0000 == start * (p * 0x1_0000)) by (nonlinear_arith);
            }
            left = left - 16;
        }
        while left > 0
            invariant
                left <= n,
                self@ == start * power(2, (n - left) as nat),
            decreases left,
        {
            self.mul(2);
            proof {
                let p = power(2, (n - left) as nat);
                assert(power(2, (n - left + 1) as nat) == p * 2);
                assert((start * p) * 2 == start * (p * 2)) by (nonlinear_arith);
            }
            left = left - 1;
        }
    }

    /// Multiply by `10` to the power `n`.
    pub fn mul_pow10(&mut self, n: u128)
        ensures
            final(self)@ == old(self)@ * power(10, n as nat),
    {
        let ghost start = self@;
        let mut left: u128 = n;
        proof {
            assert(power(10, 0) == 1);
            assert(start * 1 == start);
        }
        while left >= 9
            invariant
                left <= n,
                self@ == start * power(10, (n - left) as nat),
            decreases left,
        {
            self.mul(1_000_000_000);
            proof {
                assert(power(10, 9) == 1_000_000_000) by {
                    reveal_with_fuel(power, 10);
                }
                lemma_power_add(10, (n - left) as nat, 9);
                let p = power(10, (n - left) as nat);
                assert((start * p) * 1_000_000_000 == start * (p * 1_000_000_000))
                    by (nonlinear_arith);
            }
            left = left - 9;
        }
        while left > 0
            invariant
                left <= n,
                self@ == start * power(10, (n - left) as nat),
            decreases left,
        {
            self.mul(10);
            proof {
                let p = power(10, (n - left) as nat);
                assert(power(10, (n - left + 1) as nat) == p * 10);
                assert((start * p) * 10 == start * (p * 10)) by (nonlinear_arith);
            }
            left = left - 1;
        }
    }
}

} // verus!
