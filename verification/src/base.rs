//! Base conversion: extracting digits of an arbitrary base from a
//! magnitude, rendering them through the fixed 64-symbol alphabet
//! (`0`-`9`, `A`-`Z`, `a`-`z`, `+`, `=`), and parsing such text back.

use vstd::prelude::*;
use vstd::arithmetic::power::pow;
use vstd::arithmetic::power::lemma_pow_positive;
use vstd::arithmetic::power::lemma_pow_adds;
use vstd::arithmetic::power2::pow2;
use vstd::arithmetic::power2::lemma2_to64;
use vstd::string::StrSliceExecFns;
use crate::biguint::BigUint;
use crate::limbs::lemma_pow2_le;

verus! {

/// The value denoted by a digit sequence, least-significant digit first:
/// digit `i` contributes `ds[i] * base^i`.
pub open spec fn digits_val(ds: Seq<u8>, base: nat) -> nat
    decreases ds.len(),
{
    if ds.len() == 0 {
        0
    } else {
        ds[0] as nat + base * digits_val(ds.drop_first(), base)
    }
}

/// The canonical base-`base` digit expansion of a number, least
/// significant first: no trailing zero digit, except that zero itself is
/// the single digit `0`.
pub open spec fn nat_digits(n: nat, base: nat) -> Seq<u8>
    decreases n,
    when base >= 2
{
    if n < base {
        seq![n as u8]
    } else {
        proof {
            vstd::arithmetic::div_mod::lemma_div_decreases(n as int, base as int);
        }
        seq![(n % base) as u8] + nat_digits(n / base, base)
    }
}

/// Appending a most-significant digit adds its weighted value.
pub proof fn lemma_digits_val_push(ds: Seq<u8>, base: nat, d: u8)
    requires
        base >= 1,
    ensures
        digits_val(ds.push(d), base) == digits_val(ds, base) + d * pow(base as int, ds.len()),
    decreases ds.len(),
{
    lemma_pow_positive(base as int, ds.len());
    if ds.len() == 0 {
        assert(ds.push(d).drop_first() =~= Seq::<u8>::empty());
        assert(digits_val(Seq::<u8>::empty(), base) == 0);
        assert(pow(base as int, 0) == 1) by {
            vstd::arithmetic::power::lemma_pow0(base as int);
        }
        assert(digits_val(ds.push(d), base) == d as nat + base * 0);
    } else {
        assert(ds.push(d).drop_first() =~= ds.drop_first().push(d));
        lemma_digits_val_push(ds.drop_first(), base, d);
        let p1 = pow(base as int, (ds.len() - 1) as nat);
        lemma_pow_positive(base as int, (ds.len() - 1) as nat);
        assert(pow(base as int, ds.len()) == base * p1) by {
            lemma_pow_adds(base as int, 1, (ds.len() - 1) as nat);
            assert(pow(base as int, 1) == base) by {
                vstd::arithmetic::power::lemma_pow1(base as int);
            }
        }
        assert(digits_val(ds.push(d), base) == ds[0] as nat + base * (digits_val(
            ds.drop_first(),
            base,
        ) + d * p1));
        assert(base * (digits_val(ds.drop_first(), base) + d * p1) == base * digits_val(
            ds.drop_first(),
            base,
        ) + d * (base * p1)) by (nonlinear_arith);
    }
}

/// A digit sequence denotes zero exactly when every digit is zero.
pub proof fn lemma_digits_val_zero(ds: Seq<u8>, base: nat)
    requires
        base >= 1,
    ensures
        digits_val(ds, base) == 0 <==> (forall|i: int| 0 <= i < ds.len() ==> ds[i] == 0),
    decreases ds.len(),
{
    if ds.len() > 0 {
        lemma_digits_val_zero(ds.drop_first(), base);
        if digits_val(ds, base) == 0 {
            assert(base * digits_val(ds.drop_first(), base) == 0);
            assert(digits_val(ds.drop_first(), base) == 0) by (nonlinear_arith)
                requires
                    base * digits_val(ds.drop_first(), base) == 0,
                    base >= 1,
            ;
            assert(forall|i: int| 0 <= i < ds.len() ==> ds[i] == 0) by {
                assert(forall|i: int| 1 <= i < ds.len() ==> ds[i] == ds.drop_first()[i - 1]);
            }
        } else {
            if forall|i: int| 0 <= i < ds.len() ==> ds[i] == 0 {
                assert(forall|i: int|
                    0 <= i < ds.drop_first().len() ==> ds.drop_first()[i] == ds[i + 1]);
                assert(digits_val(ds.drop_first(), base) == 0);
            }
        }
    }
}

/// The canonical expansion of a number denotes that number, its digits
/// are below the base, and it carries no redundant trailing zero.
pub proof fn lemma_nat_digits_props(n: nat, base: nat)
    requires
        2 <= base <= 256,
    ensures
        ({
            let ds = nat_digits(n, base);
            &&& digits_val(ds, base) == n
            &&& ds.len() >= 1
            &&& forall|i: int| 0 <= i < ds.len() ==> ds[i] < base
            &&& (ds.last() != 0 || ds.len() == 1)
        }),
    decreases n,
{
    let ds = nat_digits(n, base);
    if n < base {
        assert(ds =~= seq![n as u8]);
        assert(ds.drop_first() =~= Seq::<u8>::empty());
        assert(digits_val(Seq::<u8>::empty(), base) == 0);
        assert(digits_val(ds, base) == n as nat + base * 0);
    } else {
        vstd::arithmetic::div_mod::lemma_div_decreases(n as int, base as int);
        vstd::arithmetic::div_mod::lemma_fundamental_div_mod(n as int, base as int);
        vstd::arithmetic::div_mod::lemma_mod_division_less_than_divisor(n as int, base as int);
        assert(n / base >= 1) by (nonlinear_arith)
            requires
                n as int == base * (n / base) + n % base,
                n % base < base,
                n >= base,
                base >= 2,
        ;
        lemma_nat_digits_props(n / base, base);
        let tail = nat_digits(n / base, base);
        assert(ds == seq![(n % base) as u8] + tail);
        assert(ds[0] == (n % base) as u8);
        assert(ds.drop_first() =~= tail);
        assert(digits_val(ds, base) == (n % base) as nat + base * digits_val(tail, base));
        assert((n % base) as nat + base * (n / base) == n) by (nonlinear_arith)
            requires
                n as int == base * (n / base) + n % base,
        ;
        assert(ds.last() == tail.last());
        if tail.len() == 1 {
            assert(tail.drop_first() =~= Seq::<u8>::empty());
            assert(digits_val(Seq::<u8>::empty(), base) == 0);
            assert(digits_val(tail, base) == tail[0] as nat + base * 0);
            assert(tail.last() != 0);
        }
        assert(forall|i: int| 0 <= i < ds.len() ==> ds[i] < base) by {
            assert(forall|i: int| 1 <= i < ds.len() ==> ds[i] == tail[i - 1]);
        }
    }
}

/// Canonical digit sequences are unique: a sequence of digits below the
/// base with no redundant trailing zero is the canonical expansion of the
/// value it denotes.
pub proof fn lemma_digits_unique(ds: Seq<u8>, base: nat)
    requires
        2 <= base <= 256,
        ds.len() >= 1,
        forall|i: int| 0 <= i < ds.len() ==> ds[i] < base,
        ds.last() != 0 || ds.len() == 1,
    ensures
        ds == nat_digits(digits_val(ds, base), base),
    decreases ds.len(),
{
    let n = digits_val(ds, base);
    let tail = ds.drop_first();
    assert(n == ds[0] as nat + base * digits_val(tail, base));
    if ds.len() == 1 {
        assert(tail =~= Seq::<u8>::empty());
        assert(digits_val(tail, base) == 0);
        assert(base * 0 == 0);
        assert(n == ds[0]);
        assert(nat_digits(n, base) == seq![n as u8]);
        assert(ds =~= seq![n as u8]);
    } else {
        // The tail is itself canonical and nonzero, so the value reaches
        // past the first digit.
        assert(tail.last() == ds.last());
        assert(tail.last() != 0);
        lemma_digits_val_zero(tail, base);
        assert(digits_val(tail, base) != 0) by {
            assert(tail[tail.len() - 1] != 0);
        }
        assert(forall|i: int| 0 <= i < tail.len() ==> tail[i] < base) by {
            assert(forall|i: int| 0 <= i < tail.len() ==> tail[i] == ds[i + 1]);
        }
        assert(ds[0] < base);
        assert(n as int == digits_val(tail, base) as int * base as int + ds[0] as int)
            by (nonlinear_arith)
            requires
                n == ds[0] as nat + base * digits_val(tail, base),
        ;
        vstd::arithmetic::div_mod::lemma_fundamental_div_mod_converse(
            n as int,
            base as int,
            digits_val(tail, base) as int,
            ds[0] as int,
        );
        assert(n >= base) by (nonlinear_arith)
            requires
                n == ds[0] as nat + base * digits_val(tail, base),
                digits_val(tail, base) >= 1,
        ;
        lemma_digits_unique(tail, base);
        assert(nat_digits(n, base) == seq![(n % base) as u8] + nat_digits(n / base, base));
        assert((n % base) as u8 == ds[0]);
        assert(nat_digits(n / base, base) == tail);
        assert(ds =~= seq![(n % base) as u8] + nat_digits(n / base, base));
    }
}

impl BigUint {
    /// The largest power of `base` that fits in one machine word,
    /// together with its exponent: the number of base-`base` digits that
    /// one word can carry.
    pub fn digit_limb_base(base: u64) -> (r: (u64, u64))
        requires
            2 <= base,
        ensures
            r.0 == pow(base as int, r.1 as nat),
            r.1 >= 1,
            pow(base as int, (r.1 + 1) as nat) > u64::MAX,
    {
        let mut step: u64 = base;
        let mut c: u64 = 1;
        proof {
            assert(pow(base as int, 1) == base) by {
                vstd::arithmetic::power::lemma_pow1(base as int);
            }
            assert(pow2(1) == 2) by {
                lemma2_to64();
            }
        }
        proof {
            lemma_u64_product_fits(step as nat, base as nat);
        }
        let mut wide: u128 = step as u128 * base as u128;
        proof {
            lemma_pow_mul_step(base as nat, c as nat, step as nat);
        }
        while wide <= u64::MAX as u128
            invariant
                2 <= base,
                1 <= c,
                step >= 2,
                step == pow(base as int, c as nat),
                wide == step * base,
                wide == pow(base as int, (c + 1) as nat),
                pow2(c as nat) <= step,
            decreases u64::MAX - step,
        {
            proof {
                assert(c <= 63) by {
                    if c as nat > 63 {
                        lemma_pow2_le(64, c as nat);
                        assert(pow2(64) == 0x10000000000000000) by {
                            lemma2_to64();
                        }
                    }
                }
            }
            let ghost step0 = step as nat;
            step = wide as u64;
            c = c + 1;
            proof {
                // The step grows by at least a factor of two, so the
                // power-of-two floor keeps pace and the step strictly
                // increases.
                vstd::arithmetic::power2::lemma_pow2_unfold(c as nat);
                assert(step >= pow2(c as nat) && step > step0) by (nonlinear_arith)
                    requires
                        step == step0 * base,
                        base >= 2,
                        step0 >= 2,
                        pow2((c - 1) as nat) <= step0,
                        pow2(c as nat) == 2 * pow2((c - 1) as nat),
                ;
                lemma_u64_product_fits(step as nat, base as nat);
            }
            let ghost cnow = c as nat;
            wide = step as u128 * base as u128;
            proof {
                lemma_pow_mul_step(base as nat, cnow, step as nat);
            }
        }
        (step, c)
    }

    /// The base-`base` digits of this magnitude, least significant
    /// first, in canonical form.  Bases outside `[2, 256]` are rejected
    /// with an error value.  Digits are pulled out one word-sized chunk
    /// at a time: each division by the largest word-sized power of the
    /// base yields a single-limb remainder, which native arithmetic then
    /// splits into digits.
    pub fn digits(&self, base: u64) -> (r: Result<Vec<u8>, &'static str>)
        requires
            self.wf(),
            self.limbs@.len() * 64 + 192 <= usize::MAX,
        ensures
            match r {
                Ok(ds) => 2 <= base <= 256 && ds@ == nat_digits(self.as_nat(), base as nat),
                Err(_) => !(2 <= base <= 256),
            },
    {
        if base < 2 || base > 256 {
            return Err("The base has to be in the range [2, 256]");
        }
        let (step_u, digits_per_limb) = Self::digit_limb_base(base);
        proof {
            // The word-sized power is at least the base itself.
            vstd::arithmetic::power::lemma_pow_increases(base as nat, 1, digits_per_limb as nat);
            assert(pow(base as int, 1) == base) by {
                vstd::arithmetic::power::lemma_pow1(base as int);
            }
        }
        let step = BigUint::from_u64(step_u);
        let mut rest = self.clone();
        let mut result: Vec<u8> = Vec::new();
        proof {
            assert(pow(base as int, 0) == 1) by {
                vstd::arithmetic::power::lemma_pow0(base as int);
            }
            assert(digits_val(result@, base as nat) == 0);
        }
        let mut done = rest.is_zero();
        while !done
            invariant
                2 <= base <= 256,
                rest.wf(),
                step.wf(),
                step.limbs@.len() == 1,
                step.as_nat() == step_u,
                step_u >= 2,
                step_u == pow(base as int, digits_per_limb as nat),
                digits_per_limb >= 1,
                pow(base as int, (digits_per_limb + 1) as nat) > u64::MAX,
                self.wf(),
                self.limbs@.len() * 64 + 192 <= usize::MAX,
                rest.limbs@.len() * 64 + 192 <= usize::MAX,
                digits_val(result@, base as nat) as int + rest.as_nat() as int * pow(
                    base as int,
                    result@.len(),
                ) == self.as_nat() as int,
                forall|k: int| 0 <= k < result@.len() ==> result@[k] < base,
                done <==> rest.as_nat() == 0,
            decreases rest.as_nat(),
        {
            let ghost rest0 = rest.as_nat();
            let (quot, rem) = rest.divmod(&step);
            proof {
                // The remainder fits in a single limb.
                assert(pow2(64) == 0x10000000000000000) by {
                    lemma2_to64();
                }
                if rem.limbs@.len() >= 2 {
                    crate::limbs::lemma_limbs_val_lower(rem.limbs@);
                    lemma_pow2_le(64, (64 * (rem.limbs@.len() - 1)) as nat);
                    assert(false);
                }
            }
            let mut limb: u64 = if rem.limbs.len() == 0 {
                0
            } else {
                rem.limbs[0]
            };
            proof {
                if rem.limbs@.len() == 1 {
                    assert(rem.limbs@.drop_first() =~= Seq::<u64>::empty());
                    assert(crate::limbs::limbs_val(Seq::<u64>::empty()) == 0);
                    assert(rem.as_nat() == rem.limbs@[0] as nat + pow2(64) * 0);
                }
                assert(limb == rem.as_nat());
            }
            let ghost pre = result@;
            let ghost limb0 = limb as nat;
            let mut j: u64 = 0;
            proof {
                assert(pow(base as int, 0) == 1) by {
                    vstd::arithmetic::power::lemma_pow0(base as int);
                }
                vstd::arithmetic::div_mod::lemma_small_mod(0, 1);
                assert(limb0 as int % pow(base as int, 0) == 0) by {
                    vstd::arithmetic::div_mod::lemma_mod_division_less_than_divisor(
                        limb0 as int,
                        1,
                    );
                    vstd::arithmetic::div_mod::lemma_mod_bound(limb0 as int, 1);
                }
                assert(limb0 as int / pow(base as int, 0) == limb0) by {
                    vstd::arithmetic::div_mod::lemma_div_basics_1(limb0 as int);
                }
            }
            while j < digits_per_limb
                invariant
                    2 <= base <= 256,
                    j <= digits_per_limb,
                    limb0 < pow(base as int, digits_per_limb as nat),
                    result@.len() == pre.len() + j,
                    forall|k: int| 0 <= k < result@.len() ==> result@[k] < base,
                    limb as int == limb0 as int / pow(base as int, j as nat),
                    pow(base as int, j as nat) >= 1,
                    digits_val(result@, base as nat) as int == digits_val(pre, base as nat) as int
                        + (limb0 as int % pow(base as int, j as nat)) * pow(
                        base as int,
                        pre.len(),
                    ),
                decreases digits_per_limb - j,
            {
                let d: u8 = (limb % base) as u8;
                let ghost r0 = result@;
                result.push(d);
                limb = limb / base;
                j = j + 1;
                proof {
                    let bi = base as int;
                    let pj = pow(bi, (j - 1) as nat);
                    let pj1 = pow(bi, j as nat);
                    let pl = pow(bi, pre.len());
                    lemma_pow_positive(bi, (j - 1) as nat);
                    lemma_pow_positive(bi, j as nat);
                    lemma_pow_positive(bi, pre.len());
                    assert(pj1 == pj * bi) by {
                        lemma_pow_adds(bi, (j - 1) as nat, 1);
                        assert(pow(bi, 1) == bi) by {
                            vstd::arithmetic::power::lemma_pow1(bi);
                        }
                    }
                    lemma_digits_val_push(r0, base as nat, d);
                    assert(pow(bi, r0.len()) == pl * pj) by {
                        lemma_pow_adds(bi, pre.len(), (j - 1) as nat);
                    }
                    vstd::arithmetic::div_mod::lemma_breakdown(limb0 as int, pj, bi);
                    assert(limb0 as int % (pj * bi) == pj * ((limb0 as int / pj) % bi) + limb0
                        as int % pj);
                    vstd::arithmetic::div_mod::lemma_div_denominator(limb0 as int, pj, bi);
                    assert(d as int == (limb0 as int / pj) % bi);
                    assert(digits_val(result@, base as nat) as int == digits_val(
                        pre,
                        base as nat,
                    ) as int + (limb0 as int % pj1) * pl) by (nonlinear_arith)
                        requires
                            digits_val(result@, base as nat) as int == digits_val(
                                r0,
                                base as nat,
                            ) as int + d as int * (pl * pj),
                            digits_val(r0, base as nat) as int == digits_val(
                                pre,
                                base as nat,
                            ) as int + (limb0 as int % pj) * pl,
                            limb0 as int % pj1 == pj * ((limb0 as int / pj) % bi) + limb0 as int
                                % pj,
                            d as int == (limb0 as int / pj) % bi,
                            pj1 == pj * bi,
                    ;
                }
            }
            proof {
                // All word digits are out: the pushed digits encode the
                // whole remainder limb.
                vstd::arithmetic::div_mod::lemma_small_mod(
                    limb0,
                    pow(base as int, digits_per_limb as nat) as nat,
                );
            }
            rest = quot;
            done = rest.is_zero();
            proof {
                let bi = base as int;
                let pl = pow(bi, pre.len());
                let pc = pow(bi, digits_per_limb as nat);
                let pn = pow(bi, result@.len());
                lemma_pow_positive(bi, pre.len());
                lemma_pow_positive(bi, digits_per_limb as nat);
                lemma_pow_positive(bi, result@.len());
                assert(pn == pl * pc) by {
                    lemma_pow_adds(bi, pre.len(), digits_per_limb as nat);
                }
                assert(digits_val(result@, base as nat) as int + rest.as_nat() as int * pn
                    == self.as_nat() as int) by (nonlinear_arith)
                    requires
                        digits_val(result@, base as nat) as int == digits_val(
                            pre,
                            base as nat,
                        ) as int + limb0 as int * pl,
                        digits_val(pre, base as nat) as int + rest0 as int * pl == self.as_nat()
                            as int,
                        rest0 as int == rest.as_nat() as int * pc as int + limb0 as int,
                        pn == pl * pc,
                ;
                // The quotient shrank, and so did its limb count.
                assert(rest.as_nat() < rest0) by (nonlinear_arith)
                    requires
                        rest0 as int == rest.as_nat() as int * pc as int + limb0 as int,
                        limb0 >= 0,
                        pc >= 2,
                        rest0 >= 1,
                ;
                assert(rest.as_nat() <= self.as_nat()) by (nonlinear_arith)
                    requires
                        digits_val(result@, base as nat) as int + rest.as_nat() as int * pn
                            == self.as_nat() as int,
                        digits_val(result@, base as nat) >= 0,
                        pn >= 1,
                        rest.as_nat() >= 0,
                ;
                crate::limbs::lemma_limbs_wf_len(rest.limbs@, self.limbs@);
            }
        }
        proof {
            let pr = pow(base as int, result@.len());
            assert(0 * pr == 0) by (nonlinear_arith);
            assert(digits_val(result@, base as nat) == self.as_nat());
        }
        if result.len() == 0 {
            let ghost r0 = result@;
            result.push(0);
            proof {
                lemma_digits_val_push(r0, base as nat, 0);
                assert(0 * pow(base as int, r0.len()) == 0) by (nonlinear_arith);
            }
        } else {
            while result.len() > 1 && result[result.len() - 1] == 0
                invariant
                    2 <= base <= 256,
                    result@.len() >= 1,
                    digits_val(result@, base as nat) == self.as_nat(),
                    forall|k: int| 0 <= k < result@.len() ==> result@[k] < base,
                decreases result@.len(),
            {
                let ghost r0 = result@;
                let _ = result.pop();
                proof {
                    assert(r0 =~= result@.push(r0.last()));
                    lemma_digits_val_push(result@, base as nat, r0.last());
                    assert(r0.last() as int * pow(base as int, result@.len()) == 0)
                        by (nonlinear_arith)
                        requires
                            r0.last() == 0,
                    ;
                }
            }
        }
        proof {
            lemma_digits_unique(result@, base as nat);
        }
        Ok(result)
    }

    /// This magnitude written in base `base`, most significant digit
    /// first, each digit drawn through the fixed 64-symbol alphabet.
    /// Bases outside `[2, 64]` are rejected with an error value.
    pub fn to_base_string(&self, base: u64) -> (r: Result<String, &'static str>)
        requires
            self.wf(),
            self.limbs@.len() * 64 + 192 <= usize::MAX,
        ensures
            match r {
                Ok(s) => 2 <= base <= 64 && s@ == render_digits(self.as_nat(), base as nat),
                Err(_) => !(2 <= base <= 64),
            },
    {
        if base < 2 || base > 64 {
            return Err("The base has to be in the range [2, 64]");
        }
        let digs = match self.digits(base) {
            Ok(d) => d,
            Err(e) => {
                return Err(e);
            },
        };
        proof {
            lemma_nat_digits_props(self.as_nat(), base as nat);
        }
        let mut s = String::new();
        let len = digs.len();
        let mut i: usize = 0;
        while i < len
            invariant
                2 <= base <= 64,
                i <= len,
                len == digs@.len(),
                digs@ == nat_digits(self.as_nat(), base as nat),
                forall|k: int| 0 <= k < len ==> digs@[k] < base,
                s@.len() == i,
                forall|k: int| 0 <= k < i ==> s@[k] == digit_symbol(digs@[len - 1 - k]),
            decreases len - i,
        {
            let d = digs[len - 1 - i];
            let c = symbol_of_digit(d);
            push_char(&mut s, c);
            i = i + 1;
        }
        proof {
            assert(s@ =~= render_digits(self.as_nat(), base as nat));
        }
        Ok(s)
    }

    /// A magnitude parsed from text in base `base`, most significant
    /// digit first, accepting exactly the symbols of the fixed alphabet
    /// whose value is below the base.  Bases outside `[2, 64]`, empty
    /// text and text with a foreign symbol are rejected with an error
    /// value.
    pub fn from_base_string(text: &str, base: u64) -> (r: Result<BigUint, &'static str>)
        ensures
            match r {
                Ok(v) => {
                    &&& 2 <= base <= 64
                    &&& text@.len() >= 1
                    &&& all_digits(text@, base as nat)
                    &&& v.wf()
                    &&& v.as_nat() == text_val(text@, base as nat)
                },
                Err(_) => !(2 <= base <= 64) || text@.len() == 0 || !all_digits(
                    text@,
                    base as nat,
                ),
            },
    {
        if base < 2 || base > 64 {
            return Err("The base has to be in the range [2, 64]");
        }
        let n = text.unicode_len();
        if n == 0 {
            return Err("There are no digits in the text");
        }
        let mut acc = BigUint::from_u64(0);
        let mut i: usize = 0;
        proof {
            assert(text@.take(0) =~= Seq::<char>::empty());
        }
        while i < n
            invariant
                2 <= base <= 64,
                i <= n,
                n == text@.len(),
                acc.wf(),
                forall|k: int| 0 <= k < i ==> 0 <= #[trigger] char_digit(text@[k]) < base,
                acc.as_nat() == text_val(text@.take(i as int), base as nat),
            decreases n - i,
        {
            let c = text.get_char(i);
            let d = digit_of_char(c);
            if d < 0 || d as u64 >= base {
                proof {
                    assert(!all_digits(text@, base as nat)) by {
                        assert(0 <= i < text@.len());
                        assert(!(0 <= char_digit(text@[i as int]) < base));
                    }
                }
                return Err("The text holds a symbol that is no digit of the base");
            }
            let ghost a0 = acc.as_nat();
            acc.mul_by_limb(base);
            acc = acc.add(&BigUint::from_u64(d as u64));
            i = i + 1;
            proof {
                assert(text@.take(i as int).drop_last() =~= text@.take(i - 1));
                assert(text@.take(i as int).last() == text@[i - 1]);
                assert(acc.as_nat() == text_val(text@.take(i as int), base as nat));
            }
        }
        proof {
            assert(text@.take(n as int) =~= text@);
        }
        Ok(acc)
    }
}

/// The symbol for one digit value: `0`-`9`, then `A`-`Z`, then `a`-`z`,
/// then `+` and `=`.
pub open spec fn digit_symbol(d: u8) -> char {
    if d < 10 {
        ((48 + d) as u8) as char
    } else if d < 36 {
        ((55 + d) as u8) as char
    } else if d < 62 {
        ((61 + d) as u8) as char
    } else if d == 62 {
        '+'
    } else {
        '='
    }
}

/// The digit value of one symbol, or `-1` for a symbol outside the
/// alphabet.
pub open spec fn char_digit(c: char) -> int {
    if '0' <= c && c <= '9' {
        c as int - 48
    } else if 'A' <= c && c <= 'Z' {
        c as int - 55
    } else if 'a' <= c && c <= 'z' {
        c as int - 61
    } else if c == '+' {
        62
    } else if c == '=' {
        63
    } else {
        -1
    }
}

/// Every symbol of the text is a digit below the base.
pub open spec fn all_digits(cs: Seq<char>, base: nat) -> bool {
    forall|i: int| 0 <= i < cs.len() ==> 0 <= #[trigger] char_digit(cs[i]) < base
}

/// The value of digit text, most significant symbol first.
pub open spec fn text_val(cs: Seq<char>, base: nat) -> nat
    decreases cs.len(),
{
    if cs.len() == 0 {
        0
    } else {
        text_val(cs.drop_last(), base) * base + char_digit(cs.last()) as nat
    }
}

/// A number written in base `base`: its canonical digits, most
/// significant first, through the fixed alphabet.
pub open spec fn render_digits(n: nat, base: nat) -> Seq<char> {
    let ds = nat_digits(n, base);
    Seq::new(ds.len(), |i: int| digit_symbol(ds[ds.len() - 1 - i]))
}

/// The symbol for one digit value, as executable code.
fn symbol_of_digit(d: u8) -> (c: char)
    requires
        d < 64,
    ensures
        c == digit_symbol(d),
{
    if d < 10 {
        (48 + d) as char
    } else if d < 36 {
        (55 + d) as char
    } else if d < 62 {
        (61 + d) as char
    } else if d == 62 {
        '+'
    } else {
        '='
    }
}

/// The digit value of one symbol, or `-1` for a symbol outside the
/// alphabet, as executable code.
fn digit_of_char(c: char) -> (d: i8)
    ensures
        d as int == char_digit(c),
{
    if c >= '0' && c <= '9' {
        ((c as u32 - 48) as u8) as i8
    } else if c >= 'A' && c <= 'Z' {
        ((c as u32 - 55) as u8) as i8
    } else if c >= 'a' && c <= 'z' {
        ((c as u32 - 61) as u8) as i8
    } else if c == '+' {
        62
    } else if c == '=' {
        63
    } else {
        -1
    }
}

/// Relies on `String::push`: it appends the character at the end of the
/// string.
#[verifier::external_body]
pub(crate) fn push_char(s: &mut String, c: char)
    ensures
        final(s)@ == old(s)@.push(c),
{
    s.push(c);
}

/// The product of two machine words fits in a double-width word.
proof fn lemma_u64_product_fits(a: nat, b: nat)
    requires
        a <= 0xffff_ffff_ffff_ffff,
        b <= 0xffff_ffff_ffff_ffff,
    ensures
        a * b <= 0xffff_ffff_ffff_ffff * 0xffff_ffff_ffff_ffff,
{
    assert(a * b <= 0xffff_ffff_ffff_ffff * 0xffff_ffff_ffff_ffff) by (nonlinear_arith)
        requires
            a <= 0xffff_ffff_ffff_ffff,
            b <= 0xffff_ffff_ffff_ffff,
    ;
}

/// One more factor of the base extends the power by one.
proof fn lemma_pow_mul_step(base: nat, c: nat, step: nat)
    requires
        step == pow(base as int, c),
        base >= 1,
    ensures
        step * base == pow(base as int, (c + 1) as nat),
{
    lemma_pow_adds(base as int, c, 1);
    assert(pow(base as int, 1) == base) by {
        vstd::arithmetic::power::lemma_pow1(base as int);
    }
    lemma_pow_positive(base as int, c);
    assert(pow(base as int, c) * pow(base as int, 1) == step * base);
}

} // verus!
