//! Multiplication: in-place scaling by one machine word, and schoolbook
//! long multiplication built from scaled, shifted partial products.

use vstd::prelude::*;
use vstd::arithmetic::power2::pow2;
use vstd::arithmetic::power2::lemma_pow2_adds;
use vstd::arithmetic::power2::lemma2_to64;
use crate::biguint::BigUint;
use crate::limbs::limbs_val;
use crate::limbs::limbs_wf;
use crate::limbs::lemma_limbs_val_push;
use crate::limbs::lemma_limbs_val_bound;
use crate::limbs::lemma_limbs_val_lower;
use crate::limbs::lemma_limbs_val_last;
use crate::limbs::lemma_limbs_val_take_succ;

verus! {

impl BigUint {
    /// Scales this magnitude in place by one machine word, using a
    /// double-width multiply per limb and carrying the high half into the
    /// next limb; a final carry appends a new most-significant limb.
    pub fn mul_by_limb(&mut self, n: u64)
        requires
            old(self).wf(),
        ensures
            final(self).wf(),
            final(self).as_nat() == old(self).as_nat() * n,
            final(self).limbs@.len() <= old(self).limbs@.len() + 1,
    {
        if n == 0 {
            self.limbs.truncate(0);
            proof {
                assert(self.limbs@ =~= Seq::<u64>::empty());
                assert(limbs_val(Seq::<u64>::empty()) == 0);
                let v = old(self).as_nat();
                assert(v * 0 == 0) by (nonlinear_arith);
            }
            return ;
        }
        let len = self.limbs.len();
        let ghost orig = self.limbs@;
        let mut carry: u64 = 0;
        let mut i: usize = 0;
        proof {
            assert(orig.take(0) =~= Seq::<u64>::empty());
            assert(limbs_val(Seq::<u64>::empty()) == 0);
            assert(orig.take(0) =~= self.limbs@.take(0));
        }
        while i < len
            invariant
                i <= len,
                n >= 1,
                len == self.limbs@.len(),
                len == orig.len(),
                forall|k: int| i <= k < len ==> #[trigger] self.limbs@[k] == orig[k],
                limbs_val(self.limbs@.take(i as int)) + carry * pow2((64 * i) as nat)
                    == limbs_val(orig.take(i as int)) * n,
            decreases len - i,
        {
            let x: u64 = self.limbs[i];
            proof {
                assert(x as nat * n as nat <= 0xffff_ffff_ffff_ffff * 0xffff_ffff_ffff_ffff)
                    by (nonlinear_arith)
                    requires
                        x <= 0xffff_ffff_ffff_ffffu64,
                        n <= 0xffff_ffff_ffff_ffffu64,
                ;
            }
            let wide: u128 = x as u128 * n as u128 + carry as u128;
            let limb: u64 = (wide % 0x1_0000_0000_0000_0000u128) as u64;
            let newcarry: u64 = (wide / 0x1_0000_0000_0000_0000u128) as u64;
            proof {
                lemma_wide_split(wide as nat);
            }
            let ghost s0 = self.limbs@;
            self.limbs[i] = limb;
            proof {
                assert(x == orig[i as int]);
                assert(self.limbs@.take(i + 1) =~= s0.take(i as int).push(limb));
                assert(self.limbs@.take(i as int) =~= s0.take(i as int));
                assert(orig.take(i + 1) =~= orig.take(i as int).push(orig[i as int]));
                lemma_limbs_val_push(s0.take(i as int), limb);
                lemma_limbs_val_take_succ(orig, i as int);
                lemma_pow2_adds((64 * i) as nat, 64);
                let p = pow2((64 * i) as nat);
                let pn = pow2((64 * (i + 1)) as nat);
                assert((64 * i) as nat + 64 == (64 * (i + 1)) as nat);
                assert(limbs_val(self.limbs@.take(i + 1)) + newcarry * pn == limbs_val(
                    orig.take(i + 1),
                ) * n) by (nonlinear_arith)
                    requires
                        limbs_val(self.limbs@.take(i + 1)) == limbs_val(s0.take(i as int)) + limb
                            * p,
                        limbs_val(s0.take(i as int)) + carry * p == limbs_val(orig.take(i as int))
                            * n,
                        limbs_val(orig.take(i + 1)) == limbs_val(orig.take(i as int)) + x * p,
                        pn == p * pow2(64),
                        limb + newcarry * pow2(64) == x * n + carry,
                ;
            }
            carry = newcarry;
            i = i + 1;
        }
        proof {
            assert(self.limbs@.take(len as int) =~= self.limbs@);
            assert(orig.take(len as int) =~= orig);
        }
        if carry > 0 {
            proof {
                lemma_limbs_val_push(self.limbs@, carry);
            }
            self.limbs.push(carry);
            proof {
                assert(self.limbs@[self.limbs@.len() - 1] == carry);
            }
        } else {
            proof {
                // The scaled value is at least the original, whose top
                // limb is nonzero, so the top limb here cannot be zero
                // either.
                assert(limbs_val(self.limbs@) == limbs_val(orig) * n);
                if self.limbs@.len() > 1 && self.limbs@[self.limbs@.len() - 1] == 0 {
                    assert(orig[orig.len() - 1] != 0);
                    lemma_limbs_val_lower(orig);
                    assert(limbs_val(orig) * n >= limbs_val(orig) * 1) by (nonlinear_arith)
                        requires
                            n >= 1,
                            limbs_val(orig) >= 0,
                    ;
                    lemma_limbs_val_last(self.limbs@);
                    assert(self.limbs@.last() == 0);
                    assert(limbs_val(self.limbs@) == limbs_val(self.limbs@.drop_last()));
                    lemma_limbs_val_bound(self.limbs@.drop_last());
                    assert(false);
                }
            }
        }
    }
    /// Schoolbook long multiplication: for each limb of the shorter
    /// operand, the whole longer operand is shifted, scaled by that limb
    /// and accumulated into a running total.  Neither operand is changed.
    pub fn mul(&self, other: &BigUint) -> (r: BigUint)
        requires
            self.wf(),
            other.wf(),
            self.limbs@.len() + other.limbs@.len() <= usize::MAX,
        ensures
            r.wf(),
            r.as_nat() == self.as_nat() * other.as_nat(),
    {
        let z1 = self.is_zero();
        let z2 = other.is_zero();
        if z1 || z2 {
            proof {
                let a = self.as_nat();
                let b = other.as_nat();
                assert(a == 0 || b == 0);
                assert(a * b == 0) by (nonlinear_arith)
                    requires
                        a == 0 || b == 0,
                ;
            }
            return BigUint::from_u64(0);
        }
        let (bigger, smaller): (&BigUint, &BigUint) = if self.limbs.len() > other.limbs.len() {
            (self, other)
        } else {
            (other, self)
        };
        let minlen = smaller.limbs.len();
        let mut result = BigUint::from_u64(0);
        let mut i: usize = 0;
        proof {
            assert(smaller.limbs@.take(0) =~= Seq::<u64>::empty());
            assert(limbs_val(Seq::<u64>::empty()) == 0);
            let bv = bigger.as_nat();
            assert(bv * 0 == 0) by (nonlinear_arith);
        }
        while i < minlen
            invariant
                i <= minlen,
                minlen == smaller.limbs@.len(),
                limbs_wf(bigger.limbs@),
                limbs_wf(smaller.limbs@),
                bigger.limbs@.len() + minlen <= usize::MAX,
                result.wf(),
                result.as_nat() == bigger.as_nat() * limbs_val(smaller.limbs@.take(i as int)),
            decreases minlen - i,
        {
            let mut copy = bigger.clone();
            copy.limb_shift_left(i);
            copy.mul_by_limb(smaller.limbs[i]);
            let ghost prev = result.as_nat();
            result = result.add(&copy);
            proof {
                lemma_limbs_val_take_succ(smaller.limbs@, i as int);
                let bv = bigger.as_nat();
                let p = pow2(64 * (i as nat));
                let s = smaller.limbs@[i as int];
                assert((64 * (i as int)) as nat == 64 * (i as nat));
                assert(copy.as_nat() == (bv * p) * s);
                assert(prev + (bv * p) * s == bv * (limbs_val(smaller.limbs@.take(i as int)) + s
                    * p)) by (nonlinear_arith)
                    requires
                        prev == bv * limbs_val(smaller.limbs@.take(i as int)),
                ;
                assert(result.as_nat() == bv * limbs_val(smaller.limbs@.take(i + 1)));
            }
            i = i + 1;
        }
        proof {
            assert(smaller.limbs@.take(minlen as int) =~= smaller.limbs@);
            let a = self.as_nat();
            let b = other.as_nat();
            assert(bigger.as_nat() * smaller.as_nat() == a * b) by (nonlinear_arith)
                requires
                    (bigger.as_nat() == a && smaller.as_nat() == b) || (bigger.as_nat() == b
                        && smaller.as_nat() == a),
            ;
        }
        result
    }
}

/// Splitting a double-width product into a low limb and a high carry at
/// weight `2^64`.
proof fn lemma_wide_split(wide: nat)
    requires
        wide <= 0xffff_ffff_ffff_ffff * 0xffff_ffff_ffff_ffff + 0xffff_ffff_ffff_ffff,
    ensures
        wide % 0x1_0000_0000_0000_0000 + (wide / 0x1_0000_0000_0000_0000)
            * 0x1_0000_0000_0000_0000 == wide,
        wide / 0x1_0000_0000_0000_0000 < 0x1_0000_0000_0000_0000,
        wide % 0x1_0000_0000_0000_0000 < 0x1_0000_0000_0000_0000,
        0x1_0000_0000_0000_0000 == pow2(64),
{
    assert(pow2(64) == 0x10000000000000000) by {
        lemma2_to64();
    }
    let d: int = 0x1_0000_0000_0000_0000;
    vstd::arithmetic::div_mod::lemma_fundamental_div_mod(wide as int, d);
    assert(wide as int % d < d) by {
        vstd::arithmetic::div_mod::lemma_mod_division_less_than_divisor(wide as int, d);
    }
    assert(wide as int / d < d) by (nonlinear_arith)
        requires
            wide as int == 0x1_0000_0000_0000_0000 * (wide as int / 0x1_0000_0000_0000_0000)
                + wide as int % 0x1_0000_0000_0000_0000,
            0 <= wide as int % 0x1_0000_0000_0000_0000,
            (wide as int) < 0x1_0000_0000_0000_0000 * 0x1_0000_0000_0000_0000,
            d == 0x1_0000_0000_0000_0000,
    ;
}

} // verus!
