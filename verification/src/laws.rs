//! Algebraic laws of the arithmetic operations, stated over the
//! mathematical model that the operations' contracts use.  Equality of
//! magnitudes is equality of denoted values; by canonical-form
//! uniqueness it coincides with limb-for-limb equality for nonempty
//! representations.

use vstd::prelude::*;
use crate::biguint::BigUint;
use crate::limbs::lemma_limbs_wf_unique;
use crate::base::render_digits;
use crate::base::nat_digits;
use crate::base::all_digits;
use crate::base::text_val;
use crate::base::digit_symbol;
use crate::base::char_digit;
use crate::base::lemma_nat_digits_props;

verus! {

/// Addition is commutative: any results that meet `add`'s contract for
/// the two operand orders denote the same number, and are the very same
/// limb sequence whenever both are nonempty.
pub proof fn lemma_add_commutative(a: &BigUint, b: &BigUint, ab: &BigUint, ba: &BigUint)
    requires
        ab.wf(),
        ba.wf(),
        ab.as_nat() == a.as_nat() + b.as_nat(),
        ba.as_nat() == b.as_nat() + a.as_nat(),
    ensures
        ab.as_nat() == ba.as_nat(),
        ab.limbs@.len() >= 1 && ba.limbs@.len() >= 1 ==> ab.limbs@ == ba.limbs@,
{
    if ab.limbs@.len() >= 1 && ba.limbs@.len() >= 1 {
        lemma_limbs_wf_unique(ab.limbs@, ba.limbs@);
    }
}

/// Zero is the additive identity: a result that meets `add`'s contract
/// for a zero operand denotes the other operand, and is the very same
/// limb sequence whenever both are nonempty.
pub proof fn lemma_add_zero_identity(a: &BigUint, zero: &BigUint, r: &BigUint)
    requires
        a.wf(),
        r.wf(),
        zero.as_nat() == 0,
        r.as_nat() == a.as_nat() + zero.as_nat(),
    ensures
        r.as_nat() == a.as_nat(),
        a.limbs@.len() >= 1 && r.limbs@.len() >= 1 ==> r.limbs@ == a.limbs@,
{
    if a.limbs@.len() >= 1 && r.limbs@.len() >= 1 {
        lemma_limbs_wf_unique(r.limbs@, a.limbs@);
    }
}

/// One is the multiplicative identity: a result that meets `mul`'s
/// contract for an operand denoting one denotes the other operand, and
/// is the very same limb sequence whenever both are nonempty.
pub proof fn lemma_mul_one_identity(a: &BigUint, one: &BigUint, r: &BigUint)
    requires
        a.wf(),
        r.wf(),
        one.as_nat() == 1,
        r.as_nat() == a.as_nat() * one.as_nat(),
    ensures
        r.as_nat() == a.as_nat(),
        a.limbs@.len() >= 1 && r.limbs@.len() >= 1 ==> r.limbs@ == a.limbs@,
{
    assert(a.as_nat() * 1 == a.as_nat()) by (nonlinear_arith);
    if a.limbs@.len() >= 1 && r.limbs@.len() >= 1 {
        lemma_limbs_wf_unique(r.limbs@, a.limbs@);
    }
}

/// Zero annihilates multiplication: a result that meets `mul`'s contract
/// for a zero operand denotes zero.
pub proof fn lemma_mul_zero(a: &BigUint, zero: &BigUint, r: &BigUint)
    requires
        zero.as_nat() == 0,
        r.as_nat() == a.as_nat() * zero.as_nat(),
    ensures
        r.as_nat() == 0,
{
    assert(a.as_nat() * 0 == 0) by (nonlinear_arith);
}

/// Division reconstructs the dividend: multiplying the divisor by the
/// quotient and adding the remainder, each step by its own contract,
/// yields a value that denotes the dividend, and is the very same limb
/// sequence whenever both are nonempty.  The remainder stays below the
/// divisor by `divmod`'s own contract.
pub proof fn lemma_divmod_reconstructs(
    a: &BigUint,
    d: &BigUint,
    q: &BigUint,
    rem: &BigUint,
    prod: &BigUint,
    sum: &BigUint,
)
    requires
        a.wf(),
        sum.wf(),
        q.as_nat() * d.as_nat() + rem.as_nat() == a.as_nat(),
        prod.as_nat() == d.as_nat() * q.as_nat(),
        sum.as_nat() == prod.as_nat() + rem.as_nat(),
    ensures
        sum.as_nat() == a.as_nat(),
        sum.limbs@.len() >= 1 && a.limbs@.len() >= 1 ==> sum.limbs@ == a.limbs@,
{
    assert(d.as_nat() * q.as_nat() == q.as_nat() * d.as_nat()) by (nonlinear_arith);
    if sum.limbs@.len() >= 1 && a.limbs@.len() >= 1 {
        lemma_limbs_wf_unique(sum.limbs@, a.limbs@);
    }
}

/// The alphabet is left-invertible: the symbol of a digit maps back to
/// that digit.
pub proof fn lemma_symbol_round_trip(d: u8)
    requires
        d < 64,
    ensures
        char_digit(digit_symbol(d)) == d,
{
}

/// Rendering a number in any supported base produces digit text that
/// parses back to the same number.
pub proof fn lemma_base_string_round_trip(n: nat, base: nat)
    requires
        2 <= base <= 64,
    ensures
        render_digits(n, base).len() >= 1,
        all_digits(render_digits(n, base), base),
        text_val(render_digits(n, base), base) == n,
    decreases n,
{
    let ds = nat_digits(n, base);
    let cs = render_digits(n, base);
    lemma_nat_digits_props(n, base);
    assert(forall|i: int| 0 <= i < cs.len() ==> cs[i] == digit_symbol(ds[ds.len() - 1 - i]));
    assert forall|i: int| 0 <= i < cs.len() implies 0 <= #[trigger] char_digit(cs[i])
        < base by {
        lemma_symbol_round_trip(ds[ds.len() - 1 - i]);
    }
    if n < base {
        assert(ds == seq![n as u8]);
        assert(cs.len() == 1);
        assert(cs.last() == digit_symbol(n as u8));
        lemma_symbol_round_trip(n as u8);
        assert(cs.drop_last() =~= Seq::<char>::empty());
        assert(text_val(Seq::<char>::empty(), base) == 0);
        assert(text_val(cs, base) == 0 * base + n);
    } else {
        vstd::arithmetic::div_mod::lemma_div_decreases(n as int, base as int);
        vstd::arithmetic::div_mod::lemma_fundamental_div_mod(n as int, base as int);
        vstd::arithmetic::div_mod::lemma_mod_division_less_than_divisor(n as int, base as int);
        lemma_base_string_round_trip(n / base, base);
        let tail = nat_digits(n / base, base);
        assert(ds == seq![(n % base) as u8] + tail);
        lemma_nat_digits_props(n / base, base);
        // The rendered text drops its last symbol to the rendering of
        // the quotient.
        assert(cs.drop_last() =~= render_digits(n / base, base)) by {
            assert(forall|i: int|
                0 <= i < tail.len() ==> #[trigger] render_digits(n / base, base)[i]
                    == digit_symbol(tail[tail.len() - 1 - i]));
            assert(forall|i: int| 1 <= i < ds.len() ==> #[trigger] ds[i] == tail[i - 1]);
        }
        assert(cs.last() == digit_symbol(ds[0]));
        assert(ds[0] == (n % base) as u8);
        lemma_symbol_round_trip((n % base) as u8);
        assert(text_val(cs, base) == text_val(cs.drop_last(), base) * base + (n % base));
        assert(text_val(cs.drop_last(), base) == n / base);
        assert((n / base) * base + n % base == n) by (nonlinear_arith)
            requires
                n as int == base * (n / base) + n % base,
        ;
    }
}

} // verus!
