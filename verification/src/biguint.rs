//! The unsigned magnitude type and its basic queries: construction from a
//! machine word, zero test, duplication, most-significant-bit queries,
//! comparison, and in-place bit setting.

use vstd::prelude::*;
use vstd::arithmetic::power2::pow2;
use vstd::arithmetic::power2::lemma_pow2_adds;
use vstd::arithmetic::power2::lemma_pow2_pos;
use vstd::arithmetic::power2::lemma2_to64;
use std::cmp::Ordering;
use crate::limbs::limbs_val;
use crate::limbs::limbs_wf;
use crate::limbs::lemma_limbs_wf_zero;
use crate::limbs::lemma_limbs_val_push;
use crate::limbs::lemma_limbs_val_bound;
use crate::limbs::lemma_limbs_val_lower;
use crate::limbs::lemma_limbs_val_last;
use crate::limbs::lemma_limbs_val_lex;
use crate::limbs::lemma_limbs_val_update;
use crate::limbs::lemma_pow2_le;
use crate::limbs::limb_bit_clear;
use crate::limbs::lemma_bit_clear_bound;

verus! {

/// An unsigned magnitude of arbitrary size: 64-bit limbs stored least
/// significant first.
pub struct BigUint {
    pub limbs: Vec<u64>,
}

impl BigUint {
    /// The natural number this magnitude denotes.
    pub open spec fn as_nat(&self) -> nat {
        limbs_val(self.limbs@)
    }

    /// Canonical form: no trailing zero limb, except that zero itself may
    /// be empty or a single zero limb.
    pub open spec fn wf(&self) -> bool {
        limbs_wf(self.limbs@)
    }

    /// A magnitude holding the value of one machine word.
    #[verifier::rlimit(50)]
    pub fn from_u64(num: u64) -> (r: BigUint)
        ensures
            r.wf(),
            r.as_nat() == num,
            r.limbs@.len() == 1,
    {
        let mut limbs: Vec<u64> = Vec::new();
        limbs.push(num);
        proof {
            lemma_limbs_val_push(Seq::<u64>::empty(), num);
            assert(pow2(0) == 1) by {
                lemma2_to64();
            }
            assert(limbs_val(Seq::<u64>::empty()) == 0);
            assert(limbs@ == Seq::<u64>::empty().push(num));
            assert(limbs_val(Seq::<u64>::empty().push(num)) == limbs_val(Seq::<u64>::empty())
                + num * pow2(64 * Seq::<u64>::empty().len()));
            assert(64 * Seq::<u64>::empty().len() == 0);
            assert(limbs_val(limbs@) == num);
        }
        BigUint { limbs }
    }

    /// True exactly when the denoted value is zero.
    pub fn is_zero(&self) -> (r: bool)
        requires
            self.wf(),
        ensures
            r <==> self.as_nat() == 0,
    {
        proof {
            lemma_limbs_wf_zero(self.limbs@);
        }
        if self.limbs.len() == 0 {
            true
        } else {
            self.limbs.len() == 1 && self.limbs[0] == 0
        }
    }

    /// An independent copy with the same limbs.
    pub fn clone(&self) -> (r: BigUint)
        ensures
            r.limbs@ == self.limbs@,
    {
        let limbs = self.limbs.clone();
        proof {
            assert(limbs@ =~= self.limbs@);
        }
        BigUint { limbs }
    }

    /// The index of the most significant set bit of one machine word, or
    /// zero for a zero word.
    pub fn highest_u64_bit(n: u64) -> (r: usize)
        ensures
            n == 0 ==> r == 0,
            n != 0 ==> r <= 63 && pow2(r as nat) <= n < pow2((r + 1) as nat),
    {
        if n == 0 {
            return 0;
        }
        let mut tmp = n;
        let mut i: usize = 0;
        proof {
            assert(pow2(0) == 1) by {
                lemma2_to64();
            }
            assert(n as nat / 1 == n as nat) by (nonlinear_arith);
        }
        while tmp >= 2
            invariant
                1 <= tmp,
                i <= 63,
                tmp == n as nat / pow2(i as nat),
                pow2(i as nat) <= n,
            decreases tmp,
        {
            proof {
                lemma_pow2_adds(i as nat, 1);
                assert(pow2(1) == 2) by {
                    lemma2_to64();
                }
                lemma_pow2_pos(i as nat);
                vstd::arithmetic::div_mod::lemma_fundamental_div_mod(
                    n as int,
                    pow2(i as nat) as int,
                );
                vstd::arithmetic::div_mod::lemma_div_denominator(
                    n as int,
                    pow2(i as nat) as int,
                    2,
                );
                assert(n as nat / pow2((i + 1) as nat) == tmp / 2);
                // tmp >= 2 means the next power of two still fits below n.
                assert(pow2((i + 1) as nat) <= n) by (nonlinear_arith)
                    requires
                        tmp == n as nat / pow2(i as nat),
                        tmp >= 2,
                        pow2((i + 1) as nat) == 2 * pow2(i as nat),
                        pow2(i as nat) > 0,
                        n as nat == pow2(i as nat) * (n as nat / pow2(i as nat)) + n as nat % pow2(
                            i as nat,
                        ),
                        n as nat % pow2(i as nat) >= 0,
                ;
                assert((i + 1) <= 63) by {
                    if i + 1 > 63 {
                        lemma_pow2_le(64, (i + 1) as nat);
                        assert(pow2(64) == 0x10000000000000000) by {
                            lemma2_to64();
                        }
                    }
                }
            }
            tmp = tmp / 2;
            i = i + 1;
        }
        proof {
            // tmp == 1, so pow2(i) <= n < pow2(i + 1).
            lemma_pow2_pos(i as nat);
            vstd::arithmetic::div_mod::lemma_fundamental_div_mod(n as int, pow2(i as nat) as int);
            lemma_pow2_adds(i as nat, 1);
            assert(pow2(1) == 2) by {
                lemma2_to64();
            }
            assert(n < pow2((i + 1) as nat)) by (nonlinear_arith)
                requires
                    n as nat / pow2(i as nat) == 1,
                    pow2(i as nat) > 0,
                    pow2((i + 1) as nat) == 2 * pow2(i as nat),
                    n as int == pow2(i as nat) as int * (n as nat / pow2(i as nat)) as int + (
                    n as nat % pow2(i as nat)) as int,
                    n as nat % pow2(i as nat) < pow2(i as nat),
            ;
        }
        i
    }

    /// The index of the most significant set bit across the whole
    /// magnitude, or zero for a zero magnitude.
    pub fn highest_bit(&self) -> (r: usize)
        requires
            self.wf(),
            self.limbs@.len() * 64 <= usize::MAX,
        ensures
            self.as_nat() == 0 ==> r == 0,
            self.as_nat() != 0 ==> pow2(r as nat) <= self.as_nat() < pow2((r + 1) as nat),
    {
        if self.limbs.len() == 0 {
            return 0;
        }
        let len = self.limbs.len();
        let last = self.limbs[len - 1];
        let guaranteed_bits = (len - 1) * 64;
        let word_bit = Self::highest_u64_bit(last);
        proof {
            lemma_limbs_wf_zero(self.limbs@);
            lemma_limbs_val_last(self.limbs@);
            lemma_limbs_val_bound(self.limbs@.drop_last());
            let p = pow2((64 * (len - 1)) as nat);
            if last != 0 {
                let w = pow2(word_bit as nat);
                let w1 = pow2((word_bit + 1) as nat);
                lemma_pow2_adds((64 * (len - 1)) as nat, word_bit as nat);
                lemma_pow2_adds((64 * (len - 1)) as nat, (word_bit + 1) as nat);
                lemma_pow2_pos((64 * (len - 1)) as nat);
                assert(self.as_nat() >= w * p) by (nonlinear_arith)
                    requires
                        self.as_nat() == limbs_val(self.limbs@.drop_last()) + last * p,
                        last >= w,
                        p > 0,
                        limbs_val(self.limbs@.drop_last()) >= 0,
                ;
                assert(self.as_nat() < w1 * p) by (nonlinear_arith)
                    requires
                        self.as_nat() == limbs_val(self.limbs@.drop_last()) + last * p,
                        last < w1,
                        limbs_val(self.limbs@.drop_last()) < p,
                ;
                let r = guaranteed_bits + word_bit;
                assert((64 * (len - 1)) as nat + word_bit as nat == r as nat);
                assert(pow2(r as nat) == p * w);
                assert((64 * (len - 1)) as nat + (word_bit + 1) as nat == (r + 1) as nat);
                assert(pow2((r + 1) as nat) == p * w1);
                assert(p * w == w * p) by (nonlinear_arith);
                assert(p * w1 == w1 * p) by (nonlinear_arith);
                assert(pow2(r as nat) <= self.as_nat());
                assert(self.as_nat() < pow2((r + 1) as nat));
            } else {
                // Canonical form with a zero top limb means a single zero
                // limb, so the value is zero.
                assert(self.limbs@.len() == 1);
                assert(self.as_nat() == 0);
            }
        }
        guaranteed_bits + word_bit
    }

    /// Three-way comparison of the denoted values.  Both magnitudes must
    /// be canonical; zero compares equal whether it is stored as an empty
    /// sequence or as a single zero limb.
    pub fn cmp(&self, other: &BigUint) -> (r: Ordering)
        requires
            self.wf(),
            other.wf(),
        ensures
            r == Ordering::Less <==> self.as_nat() < other.as_nat(),
            r == Ordering::Greater <==> self.as_nat() > other.as_nat(),
            r == Ordering::Equal <==> self.as_nat() == other.as_nat(),
    {
        let self_zero = self.is_zero();
        let other_zero = other.is_zero();
        if self_zero && other_zero {
            return Ordering::Equal;
        }
        if self_zero {
            return Ordering::Less;
        }
        if other_zero {
            return Ordering::Greater;
        }
        proof {
            // Both values are nonzero, so both top limbs are nonzero.
            lemma_limbs_wf_zero(self.limbs@);
            lemma_limbs_wf_zero(other.limbs@);
        }
        let l1 = self.limbs.len();
        let l2 = other.limbs.len();
        if l1 < l2 {
            proof {
                lemma_limbs_val_bound(self.limbs@);
                lemma_limbs_val_lower(other.limbs@);
                lemma_pow2_le((64 * l1) as nat, (64 * (l2 - 1)) as nat);
            }
            return Ordering::Less;
        }
        if l1 > l2 {
            proof {
                lemma_limbs_val_bound(other.limbs@);
                lemma_limbs_val_lower(self.limbs@);
                lemma_pow2_le((64 * l2) as nat, (64 * (l1 - 1)) as nat);
            }
            return Ordering::Greater;
        }
        let mut i = l1;
        while i > 0
            invariant
                i <= l1,
                l1 == self.limbs@.len(),
                l1 == other.limbs@.len(),
                self.limbs@.skip(i as int) =~= other.limbs@.skip(i as int),
            decreases i,
        {
            i = i - 1;
            let a = self.limbs[i];
            let b = other.limbs[i];
            if a > b {
                proof {
                    lemma_limbs_val_lex(self.limbs@, other.limbs@, i as int);
                }
                return Ordering::Greater;
            }
            if a < b {
                proof {
                    lemma_limbs_val_lex(other.limbs@, self.limbs@, i as int);
                }
                return Ordering::Less;
            }
            proof {
                let s = self.limbs@;
                let t = other.limbs@;
                assert forall|j: int| 0 <= j < s.skip(i as int).len() implies s.skip(i as int)[j]
                    == t.skip(i as int)[j] by {
                    if j == 0 {
                        assert(s.skip(i as int)[0] == s[i as int]);
                        assert(t.skip(i as int)[0] == t[i as int]);
                    } else {
                        assert(s.skip(i as int)[j] == s[i + j]);
                        assert(s.skip(i as int + 1)[j - 1] == s[i + j]);
                        assert(t.skip(i as int)[j] == t[i + j]);
                        assert(t.skip(i as int + 1)[j - 1] == t[i + j]);
                    }
                }
                assert(self.limbs@.skip(i as int) =~= other.limbs@.skip(i as int));
            }
        }
        proof {
            assert(self.limbs@.skip(0) =~= self.limbs@);
            assert(other.limbs@.skip(0) =~= other.limbs@);
            assert(self.limbs@ == other.limbs@);
        }
        Ordering::Equal
    }

    /// Sets the bit at absolute position `pos`, growing the magnitude
    /// with zero limbs first if the position lies beyond its end.
    pub fn set_bit(&mut self, pos: usize)
        requires
            old(self).wf(),
        ensures
            final(self).wf(),
            final(self).as_nat() == old(self).as_nat() + if limb_bit_clear(
                old(self).limbs@,
                pos as nat,
            ) {
                pow2(pos as nat)
            } else {
                0
            },
    {
        let limb_idx = pos / 64;
        let bit = pos % 64;
        let ghost orig = self.limbs@;
        proof {
            vstd::arithmetic::div_mod::lemma_fundamental_div_mod(pos as int, 64);
            assert(limb_idx < usize::MAX);
        }
        if limb_idx >= self.limbs.len() {
            while self.limbs.len() <= limb_idx
                invariant
                    orig.len() <= self.limbs@.len() <= limb_idx + 1,
                    limbs_val(self.limbs@) == limbs_val(orig),
                    self.limbs@.take(orig.len() as int) == orig,
                    forall|k: int|
                        orig.len() <= k < self.limbs@.len() ==> self.limbs@[k] == 0,
                decreases limb_idx + 1 - self.limbs@.len(),
            {
                proof {
                    lemma_limbs_val_push(self.limbs@, 0u64);
                    assert(self.limbs@.push(0u64).take(orig.len() as int) =~= self.limbs@.take(
                        orig.len() as int,
                    ));
                }
                self.limbs.push(0);
            }
        }
        let ghost s1 = self.limbs@;
        let m = pow2_u64(bit);
        let x = self.limbs[limb_idx];
        proof {
            lemma_pow2_pos(bit as nat);
        }
        if (x / m) % 2 == 0 {
            proof {
                lemma_bit_clear_bound(x, bit as nat);
                assert(pow2(64) == 0x10000000000000000) by {
                    lemma2_to64();
                }
            }
            let newval = x + m;
            self.limbs[limb_idx] = newval;
            proof {
                let j = limb_idx as int;
                let p = pow2((64 * j) as nat);
                lemma_limbs_val_update(s1, j, newval);
                assert(newval * p == x * p + m * p) by (nonlinear_arith)
                    requires
                        newval == x + m,
                ;
                lemma_pow2_adds((64 * j) as nat, bit as nat);
                assert(64 * j + bit == pos);
                assert(m * p == p * m) by (nonlinear_arith);
                assert(limbs_val(self.limbs@) == limbs_val(s1) + pow2(pos as nat));
                if limb_idx < orig.len() {
                    // The tested limb is an original limb, so the tested
                    // bit was clear in the original magnitude.
                    assert(s1 == orig);
                    assert(limb_bit_clear(orig, pos as nat));
                } else {
                    assert(limb_bit_clear(orig, pos as nat));
                }
                // Canonical form: only the top limb could be at issue,
                // and it is either untouched or now nonzero.
                if self.limbs@.len() > 1 {
                    if j == self.limbs@.len() - 1 {
                        assert(self.limbs@[j] == newval);
                        assert(newval > 0);
                    } else {
                        assert(self.limbs@[self.limbs@.len() - 1] == s1[s1.len() - 1]);
                        if limb_idx >= orig.len() {
                            assert(false);
                        }
                        assert(s1[s1.len() - 1] != 0 || s1.len() <= 1);
                    }
                }
            }
        } else {
            proof {
                assert(limb_idx < orig.len());
                assert(s1 == orig);
                assert(!limb_bit_clear(orig, pos as nat));
            }
        }
    }
}

/// `2^e` as one machine word.
pub(crate) fn pow2_u64(e: usize) -> (r: u64)
    requires
        e < 64,
    ensures
        r == pow2(e as nat),
{
    let mut r: u64 = 1;
    let mut i: usize = 0;
    proof {
        assert(pow2(0) == 1) by {
            lemma2_to64();
        }
    }
    while i < e
        invariant
            i <= e,
            e < 64,
            r == pow2(i as nat),
        decreases e - i,
    {
        proof {
            lemma_pow2_adds(i as nat, 1);
            assert(pow2(1) == 2) by {
                lemma2_to64();
            }
            lemma_pow2_le((i + 1) as nat, 63);
            assert(pow2(63) == 0x8000000000000000) by {
                vstd::arithmetic::power2::lemma2_to64_rest();
            }
        }
        r = r * 2;
        i = i + 1;
    }
    r
}

} // verus!
