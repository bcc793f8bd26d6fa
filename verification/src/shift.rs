//! In-place shifts: whole-limb moves with zero fill, and bit shifts that
//! decompose into a whole-limb move and a sub-limb scaling.

use vstd::prelude::*;
use vstd::arithmetic::power2::pow2;
use vstd::arithmetic::power2::lemma_pow2_adds;
use vstd::arithmetic::power2::lemma_pow2_pos;
use vstd::arithmetic::power2::lemma2_to64;
use crate::biguint::BigUint;
use crate::biguint::pow2_u64;
use crate::limbs::limbs_val;
use crate::limbs::limbs_wf;
use crate::limbs::lemma_limbs_val_split;
use crate::limbs::lemma_limbs_val_zero;
use crate::limbs::lemma_limbs_val_bound;
use crate::limbs::lemma_limbs_wf_zero;
use crate::limbs::lemma_pow2_le;

verus! {

impl BigUint {
    /// Shifts in place by whole limbs towards the most significant end,
    /// filling with zero limbs.  A zero magnitude is left unchanged.
    pub fn limb_shift_left(&mut self, n: usize)
        requires
            old(self).wf(),
            old(self).limbs@.len() + n <= usize::MAX,
        ensures
            final(self).wf(),
            final(self).as_nat() == old(self).as_nat() * pow2(64 * (n as nat)),
    {
        proof {
            lemma_pow2_pos(64 * (n as nat));
        }
        if self.is_zero() {
            proof {
                let p = pow2(64 * (n as nat));
                assert(0 * p == 0) by (nonlinear_arith);
            }
            return ;
        }
        let len = self.limbs.len();
        let mut newlimbs: Vec<u64> = Vec::new();
        let mut k: usize = 0;
        while k < n
            invariant
                k <= n,
                newlimbs@.len() == k,
                forall|j: int| 0 <= j < k ==> newlimbs@[j] == 0,
            decreases n - k,
        {
            newlimbs.push(0);
            k = k + 1;
        }
        let mut j: usize = 0;
        while j < len
            invariant
                j <= len,
                len == self.limbs@.len(),
                newlimbs@.len() == n + j,
                forall|t: int| 0 <= t < n ==> newlimbs@[t] == 0,
                forall|t: int| 0 <= t < j ==> newlimbs@[n + t] == self.limbs@[t],
            decreases len - j,
        {
            newlimbs.push(self.limbs[j]);
            j = j + 1;
        }
        proof {
            let new = newlimbs@;
            let orig = self.limbs@;
            lemma_limbs_val_split(new, n as int);
            assert(new.skip(n as int) =~= orig);
            lemma_limbs_val_zero(new.take(n as int));
            assert(limbs_val(new.take(n as int)) == 0) by {
                assert(forall|t: int|
                    0 <= t < new.take(n as int).len() ==> new.take(n as int)[t] == 0);
            }
            let p = pow2(64 * (n as nat));
            assert((64 * (n as int)) as nat == 64 * (n as nat));
            assert(limbs_val(new) == p * limbs_val(orig));
            assert(p * limbs_val(orig) == limbs_val(orig) * p) by (nonlinear_arith);
            // Canonical form: the top limb is the original top limb,
            // which is nonzero because the value is nonzero.
            lemma_limbs_wf_zero(orig);
            assert(orig[orig.len() - 1] != 0);
            assert(new[new.len() - 1] == orig[orig.len() - 1]);
        }
        self.limbs = newlimbs;
    }

    /// Shifts in place by whole limbs towards the least significant end,
    /// dropping the lowest limbs.
    pub fn limb_shift_right(&mut self, n: usize)
        requires
            old(self).wf(),
        ensures
            final(self).wf(),
            final(self).as_nat() == old(self).as_nat() / pow2(64 * (n as nat)),
    {
        proof {
            lemma_pow2_pos(64 * (n as nat));
        }
        let len = self.limbs.len();
        let ghost orig = self.limbs@;
        if n >= len {
            self.limbs.truncate(0);
            proof {
                assert(self.limbs@ =~= Seq::<u64>::empty());
                assert(limbs_val(Seq::<u64>::empty()) == 0);
                lemma_limbs_val_bound(orig);
                lemma_pow2_le(64 * orig.len(), 64 * (n as nat));
                vstd::arithmetic::div_mod::lemma_basic_div(
                    limbs_val(orig) as int,
                    pow2(64 * (n as nat)) as int,
                );
            }
            return ;
        }
        let new_len = len - n;
        let mut i: usize = 0;
        while i < new_len
            invariant
                i <= new_len,
                new_len == len - n,
                n < len,
                len == self.limbs@.len(),
                len == orig.len(),
                forall|k: int| 0 <= k < i ==> #[trigger] self.limbs@[k] == orig[k + n],
                forall|k: int| i <= k < len ==> #[trigger] self.limbs@[k] == orig[k],
            decreases new_len - i,
        {
            let v = self.limbs[i + n];
            self.limbs[i] = v;
            i = i + 1;
        }
        self.limbs.truncate(new_len);
        proof {
            let new = self.limbs@;
            assert(new =~= orig.skip(n as int));
            lemma_limbs_val_split(orig, n as int);
            lemma_limbs_val_bound(orig.take(n as int));
            let p = pow2(64 * (n as nat));
            assert((64 * (n as int)) as nat == 64 * (n as nat));
            vstd::arithmetic::div_mod::lemma_fundamental_div_mod_converse(
                limbs_val(orig) as int,
                p as int,
                limbs_val(orig.skip(n as int)) as int,
                limbs_val(orig.take(n as int)) as int,
            );
            // Canonical form: the top limb is unchanged.
            assert(limbs_wf(new)) by {
                if new.len() > 1 {
                    assert(new[new.len() - 1] == orig[orig.len() - 1]);
                }
            }
        }
    }

    /// Shifts in place towards the most significant end by `n` bits: a
    /// sub-limb scaling by a power of two, then a whole-limb shift.  May
    /// append a new most-significant limb for bits that spill past the
    /// top.
    pub fn bit_shift_left(&mut self, n: usize)
        requires
            old(self).wf(),
            old(self).limbs@.len() + n / 64 + 1 <= usize::MAX,
        ensures
            final(self).wf(),
            final(self).as_nat() == old(self).as_nat() * pow2(n as nat),
    {
        let limb_shift = n / 64;
        let rest = n % 64;
        let ghost v0 = self.as_nat();
        if rest > 0 {
            let m = pow2_u64(rest);
            self.mul_by_limb(m);
        }
        proof {
            assert(self.as_nat() == v0 * pow2((n % 64) as nat)) by {
                if rest == 0 {
                    assert(pow2(0) == 1) by {
                        lemma2_to64();
                    }
                }
            }
        }
        self.limb_shift_left(limb_shift);
        proof {
            let a = pow2((n % 64) as nat);
            let b = pow2(64 * ((n / 64) as nat));
            lemma_pow2_adds((n % 64) as nat, 64 * ((n / 64) as nat));
            assert((n % 64) as nat + 64 * ((n / 64) as nat) == n as nat);
            assert((v0 * a) * b == v0 * (a * b)) by (nonlinear_arith);
        }
    }

    /// Shifts in place towards the least significant end by `n` bits: a
    /// whole-limb shift, then a sub-limb division by a power of two done
    /// as a scaling past the limb boundary.  Pops limbs that empty out.
    pub fn bit_shift_right(&mut self, n: usize)
        requires
            old(self).wf(),
        ensures
            final(self).wf(),
            final(self).as_nat() == old(self).as_nat() / pow2(n as nat),
    {
        let limb_shift = n / 64;
        let rest = n % 64;
        let ghost v0 = self.as_nat();
        self.limb_shift_right(limb_shift);
        let ghost v1 = self.as_nat();
        if rest > 0 {
            let m = pow2_u64(64 - rest);
            self.mul_by_limb(m);
            self.limb_shift_right(1);
            proof {
                lemma_scale_then_drop_is_div(v1, rest as nat);
                assert(64 * 1nat == 64);
            }
        } else {
            proof {
                assert(pow2(0) == 1) by {
                    lemma2_to64();
                }
                vstd::arithmetic::div_mod::lemma_div_basics_1(v1 as int);
            }
        }
        proof {
            let a = pow2(64 * ((n / 64) as nat));
            let b = pow2((n % 64) as nat);
            lemma_pow2_pos(64 * ((n / 64) as nat));
            lemma_pow2_pos((n % 64) as nat);
            vstd::arithmetic::div_mod::lemma_div_denominator(v0 as int, a as int, b as int);
            lemma_pow2_adds(64 * ((n / 64) as nat), (n % 64) as nat);
            assert(64 * ((n / 64) as nat) + (n % 64) as nat == n as nat);
            assert(self.as_nat() == v0 / pow2(n as nat));
        }
    }
}

/// Multiplying by `2^(64 - r)` and then dropping one whole limb divides
/// by `2^r`: the low `r` bits fall off the limb boundary.
proof fn lemma_scale_then_drop_is_div(v: nat, r: nat)
    requires
        1 <= r <= 63,
    ensures
        (v * pow2((64 - r) as nat)) / pow2(64) == v / pow2(r),
{
    let q = v / pow2(r);
    let s = v % pow2(r);
    lemma_pow2_pos(r);
    lemma_pow2_pos((64 - r) as nat);
    lemma_pow2_pos(64);
    vstd::arithmetic::div_mod::lemma_fundamental_div_mod(v as int, pow2(r) as int);
    assert(v % pow2(r) < pow2(r)) by {
        vstd::arithmetic::div_mod::lemma_mod_division_less_than_divisor(v as int, pow2(r) as int);
    }
    lemma_pow2_adds(r, (64 - r) as nat);
    assert(pow2(r) * pow2((64 - r) as nat) == pow2(64));
    assert(v * pow2((64 - r) as nat) == q * pow2(64) + s * pow2((64 - r) as nat))
        by (nonlinear_arith)
        requires
            v == pow2(r) * q + s,
            pow2(r) * pow2((64 - r) as nat) == pow2(64),
    ;
    assert(s * pow2((64 - r) as nat) < pow2(64)) by (nonlinear_arith)
        requires
            s < pow2(r),
            pow2((64 - r) as nat) > 0,
            pow2(r) * pow2((64 - r) as nat) == pow2(64),
    ;
    vstd::arithmetic::div_mod::lemma_fundamental_div_mod_converse(
        (v * pow2((64 - r) as nat)) as int,
        pow2(64) as int,
        q as int,
        (s * pow2((64 - r) as nat)) as int,
    );
}

} // verus!
