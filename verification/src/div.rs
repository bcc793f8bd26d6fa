//! Restoring binary long division: the divisor is shifted up to the
//! dividend's top bit, then repeatedly subtracted while walking back down
//! one bit at a time.

use vstd::prelude::*;
use vstd::arithmetic::power2::pow2;
use vstd::arithmetic::power2::lemma_pow2_adds;
use vstd::arithmetic::power2::lemma_pow2_pos;
use vstd::arithmetic::power2::lemma2_to64;
use crate::biguint::BigUint;
use crate::bigint::IntSign;
use crate::limbs::limb_bit_clear;
use crate::limbs::lemma_limbs_val_bound;
use crate::limbs::lemma_limbs_val_lower;
use crate::limbs::lemma_multiple_bit_clear;
use crate::limbs::lemma_pow2_le;

verus! {

impl BigUint {
    /// Quotient and remainder of this magnitude by a nonzero divisor,
    /// computed by restoring binary long division.  Neither operand is
    /// changed.
    pub fn divmod(&self, divisor: &BigUint) -> (r: (BigUint, BigUint))
        requires
            self.wf(),
            divisor.wf(),
            divisor.as_nat() != 0,
            self.limbs@.len() * 64 + 192 <= usize::MAX,
            divisor.limbs@.len() * 64 <= usize::MAX,
        ensures
            r.0.wf(),
            r.1.wf(),
            r.0.as_nat() * divisor.as_nat() + r.1.as_nat() == self.as_nat(),
            r.1.as_nat() < divisor.as_nat(),
    {
        let self_bits = self.highest_bit();
        let divisor_bits = divisor.highest_bit();
        proof {
            lemma_pow2_pos(divisor_bits as nat);
            lemma_pow2_pos(self_bits as nat);
        }
        if self_bits < divisor_bits {
            // The dividend has fewer bits, so it is smaller than the
            // divisor: the quotient is zero and the remainder is the
            // dividend itself.
            proof {
                if self.as_nat() != 0 {
                    lemma_pow2_le((self_bits + 1) as nat, divisor_bits as nat);
                }
                let d = divisor.as_nat();
                assert(0 * d == 0) by (nonlinear_arith);
            }
            return (BigUint::from_u64(0), self.clone());
        }
        let max_shift = self_bits - divisor_bits;
        let mut tmp = self.clone();
        let mut result = BigUint::from_u64(0);
        let mut subtracting = divisor.clone();
        proof {
            // The shifted divisor still fits comfortably in limb counts.
            let d = divisor.as_nat();
            let dlen = divisor.limbs@.len();
            if dlen > 1 {
                lemma_limbs_val_lower(divisor.limbs@);
                assert(pow2((64 * (dlen - 1)) as nat) <= d);
                if 64 * (dlen - 1) > divisor_bits {
                    lemma_pow2_le((divisor_bits + 1) as nat, (64 * (dlen - 1)) as nat);
                    assert(false);
                }
            }
            if self.as_nat() != 0 {
                lemma_limbs_val_bound(self.limbs@);
                if self_bits >= 64 * self.limbs@.len() {
                    lemma_pow2_le(64 * self.limbs@.len(), self_bits as nat);
                    assert(false);
                }
            }
        }
        subtracting.bit_shift_left(max_shift);
        proof {
            let d = divisor.as_nat();
            let s = self.as_nat();
            let p1 = pow2((max_shift + 1) as nat);
            lemma_pow2_pos((max_shift + 1) as nat);
            lemma_pow2_adds(max_shift as nat, 1);
            assert(pow2(1) == 2) by {
                lemma2_to64();
            }
            if s == 0 {
                assert(s < d * p1) by (nonlinear_arith)
                    requires
                        s == 0,
                        d >= 1,
                        p1 >= 1,
                ;
            } else {
                // s < 2^(self_bits+1) <= d * 2^(max_shift+1).
                lemma_pow2_adds(divisor_bits as nat, (max_shift + 1) as nat);
                assert(divisor_bits as nat + (max_shift + 1) as nat == (self_bits + 1) as nat);
                assert(s < d * p1) by (nonlinear_arith)
                    requires
                        s < pow2((self_bits + 1) as nat),
                        pow2((self_bits + 1) as nat) == pow2(divisor_bits as nat) * p1,
                        d >= pow2(divisor_bits as nat),
                        p1 > 0,
                ;
            }
            let q0 = result.as_nat();
            assert(q0 * d == 0) by (nonlinear_arith)
                requires
                    q0 == 0,
            ;
            vstd::arithmetic::div_mod::lemma_small_mod(0, pow2((max_shift + 1) as nat));
        }
        let mut i = max_shift + 1;
        while i > 0
            invariant
                i <= max_shift + 1,
                tmp.wf(),
                result.wf(),
                subtracting.wf(),
                divisor.as_nat() >= 1,
                i >= 1 ==> subtracting.as_nat() == divisor.as_nat() * pow2((i - 1) as nat),
                tmp.as_nat() < divisor.as_nat() * pow2(i as nat),
                result.as_nat() % pow2(i as nat) == 0,
                result.as_nat() * divisor.as_nat() + tmp.as_nat() == self.as_nat(),
            decreases i,
        {
            i = i - 1;
            let s = tmp.sub(&subtracting);
            let ghost d = divisor.as_nat();
            let ghost pi = pow2(i as nat);
            let ghost q0 = result.as_nat();
            let ghost t0 = tmp.as_nat();
            proof {
                lemma_pow2_pos(i as nat);
                lemma_pow2_adds(i as nat, 1);
                assert(pow2(1) == 2) by {
                    lemma2_to64();
                }
                assert(pow2((i + 1) as nat) == pi * 2);
            }
            if s.sign == IntSign::Pos {
                proof {
                    // The quotient has no bits at or below position i
                    // yet, so setting bit i adds exactly 2^i.
                    lemma_multiple_bit_clear(result.limbs@, i as nat);
                }
                result.set_bit(i);
                tmp = s.num;
                proof {
                    assert(limb_bit_clear(result.limbs@, i as nat) || result.as_nat() == q0 + pi);
                    assert(result.as_nat() == q0 + pi);
                    assert(tmp.as_nat() == t0 - d * pi);
                    assert((q0 + pi) * d + (t0 - d * pi) == q0 * d + t0) by (nonlinear_arith);
                    assert(tmp.as_nat() < d * pi) by (nonlinear_arith)
                        requires
                            tmp.as_nat() == t0 - d * pi,
                            t0 < d * (pi * 2),
                    ;
                    // The new quotient is still a multiple of 2^i.
                    assert((q0 + pi) % pi == 0) by {
                        vstd::arithmetic::div_mod::lemma_mod_multiples_vanish(
                            1,
                            q0 as int,
                            pi as int,
                        );
                        assert(q0 % pi == 0) by {
                            lemma_mod_of_double(q0, pi);
                        }
                        assert(1 * pi + q0 == q0 + pi);
                    }
                }
            } else {
                proof {
                    // The subtraction went negative, so the remainder is
                    // already below the shifted divisor.
                    assert(t0 < subtracting.as_nat());
                    assert(result.as_nat() % pi == 0) by {
                        lemma_mod_of_double(q0, pi);
                    }
                }
            }
            subtracting.bit_shift_right(1);
            proof {
                if i >= 1 {
                    // d * 2^i halves to d * 2^(i-1) exactly.
                    let pm = pow2((i - 1) as nat);
                    lemma_pow2_pos((i - 1) as nat);
                    lemma_pow2_adds((i - 1) as nat, 1);
                    assert(pi == pm * 2);
                    assert(d * pi == (d * pm) * 2) by (nonlinear_arith)
                        requires
                            pi == pm * 2,
                    ;
                    assert(subtracting.as_nat() == (d * pi) / pow2(1));
                    assert(pow2(1) == 2) by {
                        lemma2_to64();
                    }
                    assert(((d * pm) * 2) / 2 == d * pm) by {
                        vstd::arithmetic::div_mod::lemma_div_by_multiple((d * pm) as int, 2);
                    }
                }
            }
        }
        proof {
            assert(pow2(0) == 1) by {
                lemma2_to64();
            }
            let d = divisor.as_nat();
            assert(tmp.as_nat() < d * 1) by (nonlinear_arith)
                requires
                    tmp.as_nat() < d * pow2(0),
                    pow2(0) == 1,
            ;
        }
        (result, tmp)
    }
}

/// A multiple of `2^(i+1)` is also a multiple of `2^i`.
proof fn lemma_mod_of_double(q: nat, pi: nat)
    requires
        pi >= 1,
        q % (pi * 2) == 0,
    ensures
        q % pi == 0,
{
    let k = q / (pi * 2);
    vstd::arithmetic::div_mod::lemma_fundamental_div_mod(q as int, (pi * 2) as int);
    assert(q == (pi * 2) * k);
    assert(q == pi * (2 * k)) by (nonlinear_arith)
        requires
            q == (pi * 2) * k,
    ;
    assert(2 * k >= 0) by (nonlinear_arith)
        requires
            q == pi * (2 * k),
            q >= 0,
            pi >= 1,
            k == q / (pi * 2),
    ;
    vstd::arithmetic::div_mod::lemma_mod_multiples_basic((2 * k) as int, pi as int);
    assert(q as int == (2 * k) as int * pi as int) by (nonlinear_arith)
        requires
            q == pi * (2 * k),
    ;
    assert(q as int % pi as int == 0);
}

} // verus!
