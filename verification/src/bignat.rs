//! Natural numbers of any size, as far as reading decimal numerals needs them.

use vstd::arithmetic::power::pow;
use vstd::prelude::*;

verus! {

/// What one limb counts up to.
pub open spec fn base() -> nat {
    0x1_0000_0000
}

/// The number written by `limbs`, lowest limb first.
pub open spec fn value(limbs: Seq<u32>) -> nat
    decreases limbs.len(),
{
    if limbs.len() == 0 {
        0
    } else {
        limbs[0] as nat + base() * value(limbs.skip(1))
    }
}

proof fn lemma_value_push(limbs: Seq<u32>, top: u32)
    ensures
        value(limbs.push(top)) == value(limbs) + top * pow(base() as int, limbs.len()),
    decreases limbs.len(),
{
    reveal(pow);
    if limbs.len() == 0 {
        assert(limbs.push(top).skip(1) =~= Seq::<u32>::empty());
        assert(value(limbs.push(top).skip(1)) == 0);
    } else {
        lemma_value_push(limbs.skip(1), top);
        assert(limbs.push(top).skip(1) =~= limbs.skip(1).push(top));
        let b = base() as int;
        let p = pow(b, (limbs.len() - 1) as nat);
        let rest = value(limbs.skip(1)) as int;
        assert(b * (rest + top * p) == b * rest + top * (b * p)) by (nonlinear_arith);
    }
}

proof fn lemma_value_skip(limbs: Seq<u32>, i: int)
    requires
        0 <= i < limbs.len(),
    ensures
        value(limbs.skip(i)) == limbs[i] as nat + base() * value(limbs.skip(i + 1)),
{
    assert(limbs.skip(i).skip(1) =~= limbs.skip(i + 1));
}

proof fn lemma_value_skip_least(limbs: Seq<u32>, i: int)
    requires
        0 <= i <= limbs.len(),
    ensures
        value(limbs) >= value(limbs.skip(i)),
    decreases i,
{
    if i == 0 {
        assert(limbs.skip(0) =~= limbs);
    } else {
        lemma_value_skip(limbs, i - 1);
        lemma_value_skip_least(limbs, i - 1);
    }
}

/// A natural number of any size.
pub struct BigNat {
    /// The limbs, lowest first.
    pub limbs: Vec<u32>,
}

impl View for BigNat {
    type V = nat;

    open spec fn view(&self) -> nat {
        value(self.limbs@)
    }
}

impl BigNat {
    /// Nought.
    pub fn zero() -> (n: BigNat)
        ensures
            n@ == 0,
    {
        BigNat { limbs: Vec::new() }
    }

    /// Multiplies the number by `factor` and then adds `addend`.
    pub fn mul_add(&mut self, factor: u32, addend: u32)
        ensures
            final(self)@ == old(self)@ * factor + addend,
    {
        let ghost before = self.limbs@;
        let ghost b = base() as int;
        let n = self.limbs.len();
        let mut product: Vec<u32> = Vec::new();
        let mut carry: u32 = addend;
        let mut i: usize = 0;
        proof {
            reveal(pow);
            assert(before.skip(0) =~= before);
        }
        while i < n
            invariant
                i <= n,
                n == before.len(),
                self.limbs@ == before,
                product@.len() == i,
                b == base(),
                value(before) * factor + addend == value(product@) + pow(b, i as nat) * (value(
                    before.skip(i as int),
                ) * factor + carry),
            decreases n - i,
        {
            let limb = self.limbs[i];
            assert(limb * factor + carry <= 0xffff_ffff * 0xffff_ffff + 0xffff_ffff) by (nonlinear_arith)
                requires
                    limb <= 0xffff_ffff,
                    factor <= 0xffff_ffff,
                    carry <= 0xffff_ffff,
            ;
            assert(0 <= limb * factor) by (nonlinear_arith)
                requires
                    0 <= limb,
                    0 <= factor,
            ;
            let t: u64 = limb as u64 * factor as u64 + carry as u64;
            let low: u32 = (t % 0x1_0000_0000) as u32;
            let next: u32 = (t / 0x1_0000_0000) as u32;
            proof {
                lemma_value_skip(before, i as int);
                lemma_value_push(product@, low);
                let p = pow(b, i as nat);
                let high = value(before.skip(i + 1)) as int;
                let f = factor as int;
                let l = limb as int;
                let c = carry as int;
                let lo = low as int;
                let nx = next as int;
                reveal(pow);
                assert(pow(b, (i + 1) as nat) == b * p);
                assert(l * f + c == lo + b * nx);
                assert(p * ((l + b * high) * f + c) == lo * p + (b * p) * (high * f + nx))
                    by (nonlinear_arith)
                    requires
                        l * f + c == lo + b * nx,
                ;
            }
            product.push(low);
            carry = next;
            i += 1;
        }
        proof {
            assert(before.skip(n as int) =~= Seq::<u32>::empty());
            lemma_value_push(product@, carry);
            assert(pow(b, n as nat) * (0 * factor + carry) == carry * pow(b, n as nat))
                by (nonlinear_arith);
        }
        if carry != 0 {
            product.push(carry);
        }
        self.limbs = product;
    }

    /// Divides the number by `divisor`, and gives back the remainder.
    pub fn div_rem(&mut self, divisor: u32) -> (rem: u32)
        requires
            divisor > 0,
        ensures
            final(self)@ == old(self)@ / divisor as nat,
            rem == old(self)@ % divisor as nat,
    {
        let ghost before = self.limbs@;
        let n = self.limbs.len();
        let mut rem: u32 = 0;
        let mut i: usize = n;
        proof {
            assert(before.skip(n as int) =~= Seq::<u32>::empty());
            assert(value(before.skip(n as int)) == 0);
            assert(0 * divisor == 0);
        }
        while i > 0
            invariant
                i <= n,
                n == before.len(),
                self.limbs@.len() == n,
                divisor > 0,
                rem < divisor,
                forall|j: int| 0 <= j < i ==> self.limbs@[j] == before[j],
                value(before.skip(i as int)) == value(self.limbs@.skip(i as int)) * divisor + rem,
            decreases i,
        {
            i -= 1;
            let limb = self.limbs[i];
            assert(rem * 0x1_0000_0000 + limb < divisor * 0x1_0000_0000);
            let t: u64 = rem as u64 * 0x1_0000_0000 + limb as u64;
            let digit: u64 = t / divisor as u64;
            assert(digit < 0x1_0000_0000) by (nonlinear_arith)
                requires
                    digit == t / divisor as u64,
                    t < divisor * 0x1_0000_0000,
                    divisor > 0,
            ;
            let left: u64 = t % divisor as u64;
            let ghost high = self.limbs@.skip(i + 1);
            proof {
                lemma_value_skip(before, i as int);
                vstd::arithmetic::div_mod::lemma_fundamental_div_mod(t as int, divisor as int);
            }
            self.limbs.set(i, digit as u32);
            proof {
                assert(self.limbs@.skip(i + 1) =~= high);
                lemma_value_skip(self.limbs@, i as int);
                let b = base() as int;
                let h = value(high) as int;
                let d = divisor as int;
                let r = rem as int;
                let q = digit as int;
                let l = limb as int;
                let s = left as int;
                assert(l + b * (h * d + r) == (q + b * h) * d + s) by (nonlinear_arith)
                    requires
                        r * b + l == d * q + s,
                ;
            }
            rem = left as u32;
        }
        proof {
            assert(before.skip(0) =~= before);
            assert(self.limbs@.skip(0) =~= self.limbs@);
            vstd::arithmetic::div_mod::lemma_fundamental_div_mod_converse(
                value(before) as int,
                divisor as int,
                value(self.limbs@) as int,
                rem as int,
            );
        }
        rem
    }

    /// The number as a machine integer, where it fits one.
    pub fn to_u128(&self) -> (r: Option<u128>)
        ensures
            match r {
                Some(n) => n == self@,
                None => self@ > u128::MAX,
            },
    {
        let n = self.limbs.len();
        let mut acc: u128 = 0;
        let mut i: usize = n;
        proof {
            assert(self.limbs@.skip(n as int) =~= Seq::<u32>::empty());
        }
        while i > 0
            invariant
                i <= n,
                n == self.limbs@.len(),
                acc == value(self.limbs@.skip(i as int)),
            decreases i,
        {
            proof {
                lemma_value_skip(self.limbs@, i - 1);
                lemma_value_skip_least(self.limbs@, i - 1);
            }
            if acc >= 0x1_0000_0000_0000_0000_0000_0000 {
                return None;
            }
            i -= 1;
            acc = acc * 0x1_0000_0000 + self.limbs[i] as u128;
        }
        proof {
            assert(self.limbs@.skip(0) =~= self.limbs@);
        }
        Some(acc)
    }
}

} // verus!
