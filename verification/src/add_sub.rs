//! Addition and subtraction of magnitudes: limb-by-limb carry and borrow
//! propagation, with subtraction producing a signed result.

use vstd::prelude::*;
use vstd::arithmetic::power2::pow2;
use vstd::arithmetic::power2::lemma_pow2_adds;
use vstd::arithmetic::power2::lemma_pow2_pos;
use vstd::arithmetic::power2::lemma2_to64;
use std::cmp::Ordering;
use crate::biguint::BigUint;
use crate::bigint::BigInt;
use crate::bigint::IntSign;
use crate::limbs::limbs_val;
use crate::limbs::lemma_limbs_val_push;
use crate::limbs::lemma_limbs_val_bound;
use crate::limbs::lemma_limbs_val_lower;
use crate::limbs::lemma_limbs_val_last;
use crate::limbs::lemma_limbs_val_take_succ;

verus! {

impl BigUint {
    /// The sum of two magnitudes, as a fresh magnitude.  Neither operand
    /// is changed.
    pub fn add(&self, other: &BigUint) -> (r: BigUint)
        requires
            self.wf(),
            other.wf(),
        ensures
            r.wf(),
            r.as_nat() == self.as_nat() + other.as_nat(),
    {
        let (bigger, smaller): (&Vec<u64>, &Vec<u64>) = if self.limbs.len() > other.limbs.len() {
            (&self.limbs, &other.limbs)
        } else {
            (&other.limbs, &self.limbs)
        };
        let minlen = smaller.len();
        let maxlen = bigger.len();
        let mut result: Vec<u64> = Vec::new();
        let mut carry: u64 = 0;
        let mut i: usize = 0;
        proof {
            assert(bigger@.take(0) =~= Seq::<u64>::empty());
            assert(smaller@.take(0) =~= Seq::<u64>::empty());
            assert(limbs_val(Seq::<u64>::empty()) == 0);
        }
        while i < minlen
            invariant
                i <= minlen,
                minlen == smaller@.len(),
                maxlen == bigger@.len(),
                minlen <= maxlen,
                result@.len() == i,
                carry <= 1,
                limbs_val(result@) + carry * pow2((64 * i) as nat) == limbs_val(
                    bigger@.take(i as int),
                ) + limbs_val(smaller@.take(i as int)),
            decreases minlen - i,
        {
            let b: u64 = bigger[i];
            let s: u64 = smaller[i];
            let sum: u128 = b as u128 + s as u128 + carry as u128;
            let limb: u64 = (sum % 0x1_0000_0000_0000_0000u128) as u64;
            let newcarry: u64 = (sum / 0x1_0000_0000_0000_0000u128) as u64;
            proof {
                lemma_carry_split(sum as nat, b as nat + s as nat + carry as nat);
                lemma_limbs_val_push(result@, limb);
                lemma_limbs_val_take_succ(bigger@, i as int);
                lemma_limbs_val_take_succ(smaller@, i as int);
                lemma_pow2_adds((64 * i) as nat, 64);
                let p = pow2((64 * i) as nat);
                let pn = pow2((64 * (i + 1)) as nat);
                assert((64 * i) as nat + 64 == (64 * (i + 1)) as nat);
                assert(limbs_val(result@.push(limb)) + (sum / 0x1_0000_0000_0000_0000u128) * pn
                    == limbs_val(result@) + carry * p + b * p + s * p) by (nonlinear_arith)
                    requires
                        limbs_val(result@.push(limb)) == limbs_val(result@) + limb * p,
                        pn == p * pow2(64),
                        limb + (sum / 0x1_0000_0000_0000_0000u128) * pow2(64) == b + s + carry,
                ;
            }
            result.push(limb);
            carry = newcarry;
            i = i + 1;
        }
        proof {
            assert(smaller@.take(minlen as int) =~= smaller@);
        }
        while i < maxlen
            invariant
                minlen <= i <= maxlen,
                minlen == smaller@.len(),
                maxlen == bigger@.len(),
                result@.len() == i,
                carry <= 1,
                limbs_val(result@) + carry * pow2((64 * i) as nat) == limbs_val(
                    bigger@.take(i as int),
                ) + limbs_val(smaller@),
            decreases maxlen - i,
        {
            let b: u64 = bigger[i];
            let sum: u128 = b as u128 + carry as u128;
            let limb: u64 = (sum % 0x1_0000_0000_0000_0000u128) as u64;
            let newcarry: u64 = (sum / 0x1_0000_0000_0000_0000u128) as u64;
            proof {
                lemma_carry_split(sum as nat, b as nat + carry as nat);
                lemma_limbs_val_push(result@, limb);
                lemma_limbs_val_take_succ(bigger@, i as int);
                lemma_pow2_adds((64 * i) as nat, 64);
                let p = pow2((64 * i) as nat);
                let pn = pow2((64 * (i + 1)) as nat);
                assert((64 * i) as nat + 64 == (64 * (i + 1)) as nat);
                assert(limbs_val(result@.push(limb)) + (sum / 0x1_0000_0000_0000_0000u128) * pn
                    == limbs_val(result@) + carry * p + b * p) by (nonlinear_arith)
                    requires
                        limbs_val(result@.push(limb)) == limbs_val(result@) + limb * p,
                        pn == p * pow2(64),
                        limb + (sum / 0x1_0000_0000_0000_0000u128) * pow2(64) == b + carry,
                ;
            }
            result.push(limb);
            carry = newcarry;
            i = i + 1;
        }
        proof {
            assert(bigger@.take(maxlen as int) =~= bigger@);
        }
        if carry > 0 {
            proof {
                lemma_limbs_val_push(result@, carry);
            }
            result.push(carry);
            proof {
                // The appended carry limb is nonzero, so the result is
                // canonical.
                assert(result@[result@.len() - 1] == carry);
            }
        } else {
            proof {
                // Without a final carry the top limb of the result cannot
                // be zero unless the whole result is one limb or empty:
                // the sum is at least the bigger operand, which reaches
                // its own top limb's weight.
                assert(limbs_val(result@) == limbs_val(bigger@) + limbs_val(smaller@));
                if result@.len() > 1 && result@[result@.len() - 1] == 0 {
                    assert(bigger@.len() == result@.len());
                    assert(bigger@[bigger@.len() - 1] != 0);
                    lemma_limbs_val_lower(bigger@);
                    assert(limbs_val(bigger@) >= pow2((64 * (bigger@.len() - 1)) as nat));
                    lemma_limbs_val_last(result@);
                    assert(result@.last() == 0);
                    assert(limbs_val(result@) == limbs_val(result@.drop_last()) + result@.last()
                        * pow2((64 * (result@.len() - 1)) as nat));
                    assert(limbs_val(result@) == limbs_val(result@.drop_last()));
                    lemma_limbs_val_bound(result@.drop_last());
                    assert(limbs_val(result@) < pow2((64 * (result@.len() - 1)) as nat));
                    assert(false);
                }
            }
        }
        BigUint { limbs: result }
    }

    /// The difference of two magnitudes, as a signed value: the sign
    /// records which operand was larger, and equal operands give a
    /// positive zero.  Neither operand is changed.
    pub fn sub(&self, other: &BigUint) -> (r: BigInt)
        requires
            self.wf(),
            other.wf(),
        ensures
            r.wf(),
            r.as_int() == self.as_nat() - other.as_nat(),
    {
        let ord = self.cmp(other);
        let (pos, bigger, smaller): (bool, &BigUint, &BigUint) = match ord {
            Ordering::Equal => {
                return BigInt { sign: IntSign::Pos, num: BigUint::from_u64(0) };
            },
            Ordering::Greater => (true, self, other),
            Ordering::Less => (false, other, self),
        };
        let maxlen = bigger.limbs.len();
        let minlen = smaller.limbs.len();
        proof {
            // The numerically smaller canonical operand cannot have more
            // limbs than the larger one.
            if minlen > maxlen {
                lemma_limbs_val_bound(bigger.limbs@);
                lemma_limbs_val_lower(smaller.limbs@);
                crate::limbs::lemma_pow2_le(
                    (64 * maxlen) as nat,
                    (64 * (minlen - 1)) as nat,
                );
                assert(false);
            }
        }
        let mut result: Vec<u64> = bigger.limbs.clone();
        let mut borrow: u64 = 0;
        let mut i: usize = 0;
        proof {
            assert(bigger.limbs@.take(0) =~= Seq::<u64>::empty());
            assert(smaller.limbs@.take(0) =~= Seq::<u64>::empty());
            assert(result@.take(0) =~= Seq::<u64>::empty());
            assert(limbs_val(Seq::<u64>::empty()) == 0);
        }
        while i < minlen
            invariant
                i <= minlen,
                minlen == smaller.limbs@.len(),
                maxlen == bigger.limbs@.len(),
                minlen <= maxlen,
                result@.len() == maxlen,
                forall|k: int| i <= k < maxlen ==> #[trigger] result@[k] == bigger.limbs@[k],
                borrow <= 1,
                limbs_val(result@.take(i as int)) + limbs_val(smaller.limbs@.take(i as int))
                    == limbs_val(bigger.limbs@.take(i as int)) + borrow * pow2((64 * i) as nat),
            decreases minlen - i,
        {
            let b: u64 = result[i];
            let s: u64 = smaller.limbs[i];
            let diff: i128 = b as i128 - borrow as i128 - s as i128;
            let (limb, newborrow): (u64, u64) = if diff >= 0 {
                (diff as u64, 0u64)
            } else {
                ((diff + 0x1_0000_0000_0000_0000i128) as u64, 1u64)
            };
            let ghost r0 = result@;
            result[i] = limb;
            proof {
                assert(b == bigger.limbs@[i as int]);
                assert(result@.take(i + 1) =~= r0.take(i as int).push(limb));
                assert(result@.take(i as int) =~= r0.take(i as int));
                lemma_limbs_val_push(r0.take(i as int), limb);
                lemma_limbs_val_take_succ(bigger.limbs@, i as int);
                lemma_limbs_val_take_succ(smaller.limbs@, i as int);
                lemma_pow2_adds((64 * i) as nat, 64);
                let p = pow2((64 * i) as nat);
                let pn = pow2((64 * (i + 1)) as nat);
                assert((64 * i) as nat + 64 == (64 * (i + 1)) as nat);
                assert(pow2(64) == 0x10000000000000000) by {
                    lemma2_to64();
                }
                assert(limbs_val(result@.take(i + 1)) + limbs_val(smaller.limbs@.take(i + 1))
                    == limbs_val(bigger.limbs@.take(i + 1)) + newborrow * pn) by (nonlinear_arith)
                    requires
                        limbs_val(result@.take(i + 1)) == limbs_val(result@.take(i as int))
                            + limb * p,
                        limbs_val(result@.take(i as int)) + limbs_val(
                            smaller.limbs@.take(i as int),
                        ) == limbs_val(bigger.limbs@.take(i as int)) + borrow * p,
                        limbs_val(smaller.limbs@.take(i + 1)) == limbs_val(
                            smaller.limbs@.take(i as int),
                        ) + s * p,
                        limbs_val(bigger.limbs@.take(i + 1)) == limbs_val(
                            bigger.limbs@.take(i as int),
                        ) + b * p,
                        pn == p * pow2(64),
                        limb as int == b as int - borrow as int - s as int + newborrow as int
                            * pow2(64),
                ;
            }
            borrow = newborrow;
            i = i + 1;
        }
        proof {
            assert(smaller.limbs@.take(minlen as int) =~= smaller.limbs@);
        }
        while i < maxlen
            invariant
                minlen <= i <= maxlen,
                minlen == smaller.limbs@.len(),
                maxlen == bigger.limbs@.len(),
                result@.len() == maxlen,
                forall|k: int| i <= k < maxlen ==> #[trigger] result@[k] == bigger.limbs@[k],
                borrow <= 1,
                limbs_val(result@.take(i as int)) + limbs_val(smaller.limbs@) == limbs_val(
                    bigger.limbs@.take(i as int),
                ) + borrow * pow2((64 * i) as nat),
            decreases maxlen - i,
        {
            let b: u64 = result[i];
            let diff: i128 = b as i128 - borrow as i128;
            let (limb, newborrow): (u64, u64) = if diff >= 0 {
                (diff as u64, 0u64)
            } else {
                ((diff + 0x1_0000_0000_0000_0000i128) as u64, 1u64)
            };
            let ghost r0 = result@;
            result[i] = limb;
            proof {
                assert(b == bigger.limbs@[i as int]);
                assert(result@.take(i + 1) =~= r0.take(i as int).push(limb));
                assert(result@.take(i as int) =~= r0.take(i as int));
                lemma_limbs_val_push(r0.take(i as int), limb);
                lemma_limbs_val_take_succ(bigger.limbs@, i as int);
                lemma_pow2_adds((64 * i) as nat, 64);
                let p = pow2((64 * i) as nat);
                let pn = pow2((64 * (i + 1)) as nat);
                assert((64 * i) as nat + 64 == (64 * (i + 1)) as nat);
                assert(pow2(64) == 0x10000000000000000) by {
                    lemma2_to64();
                }
                assert(limbs_val(result@.take(i + 1)) + limbs_val(smaller.limbs@) == limbs_val(
                    bigger.limbs@.take(i + 1),
                ) + newborrow * pn) by (nonlinear_arith)
                    requires
                        limbs_val(result@.take(i + 1)) == limbs_val(result@.take(i as int))
                            + limb * p,
                        limbs_val(result@.take(i as int)) + limbs_val(smaller.limbs@)
                            == limbs_val(bigger.limbs@.take(i as int)) + borrow * p,
                        limbs_val(bigger.limbs@.take(i + 1)) == limbs_val(
                            bigger.limbs@.take(i as int),
                        ) + b * p,
                        pn == p * pow2(64),
                        limb as int == b as int - borrow as int + newborrow as int * pow2(64),
                ;
            }
            borrow = newborrow;
            i = i + 1;
        }
        proof {
            assert(result@.take(maxlen as int) =~= result@);
            assert(bigger.limbs@.take(maxlen as int) =~= bigger.limbs@);
            // A final borrow would mean the subtrahend exceeded the
            // minuend, contradicting the comparison made above.
            if borrow == 1 {
                lemma_limbs_val_bound(result@);
                lemma_pow2_pos((64 * maxlen) as nat);
                assert(false);
            }
            assert(limbs_val(result@) + limbs_val(smaller.limbs@) == limbs_val(bigger.limbs@));
        }
        // Canonicalize: drop trailing zero limbs down to a single limb.
        while result.len() > 1 && result[result.len() - 1] == 0
            invariant
                result@.len() >= 1,
                limbs_val(result@) + limbs_val(smaller.limbs@) == limbs_val(bigger.limbs@),
            decreases result@.len(),
        {
            proof {
                lemma_limbs_val_last(result@);
            }
            let _ = result.pop();
        }
        let r = BigInt {
            sign: if pos {
                IntSign::Pos
            } else {
                IntSign::Neg
            },
            num: BigUint { limbs: result },
        };
        proof {
            if pos {
                assert(self.as_nat() > other.as_nat());
            } else {
                assert(other.as_nat() > self.as_nat());
            }
        }
        r
    }
}

/// Splitting a small sum into a low limb and a single-bit carry at weight
/// `2^64`.
proof fn lemma_carry_split(sum: nat, parts: nat)
    requires
        sum == parts,
        parts < 2 * 0x1_0000_0000_0000_0000,
    ensures
        sum % 0x1_0000_0000_0000_0000 + (sum / 0x1_0000_0000_0000_0000) * 0x1_0000_0000_0000_0000
            == parts,
        sum / 0x1_0000_0000_0000_0000 <= 1,
        sum % 0x1_0000_0000_0000_0000 < 0x1_0000_0000_0000_0000,
        0x1_0000_0000_0000_0000 == pow2(64),
{
    assert(pow2(64) == 0x10000000000000000) by {
        lemma2_to64();
    }
    let d: int = 0x1_0000_0000_0000_0000;
    vstd::arithmetic::div_mod::lemma_fundamental_div_mod(sum as int, d);
    assert(sum as int % d < d) by {
        vstd::arithmetic::div_mod::lemma_mod_division_less_than_divisor(sum as int, d);
    }
    assert(sum as int / d <= 1) by (nonlinear_arith)
        requires
            sum as int == d * (sum as int / d) + sum as int % d,
            0 <= sum as int % d,
            (sum as int) < 2 * d,
    ;
}

} // verus!
