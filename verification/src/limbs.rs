//! The mathematical model of a limb sequence: the value it denotes, its
//! canonical form, and the lemmas that connect the two.

use vstd::prelude::*;
use vstd::arithmetic::power2::pow2;
use vstd::arithmetic::power2::lemma_pow2_adds;
use vstd::arithmetic::power2::lemma_pow2_pos;
use vstd::arithmetic::power2::lemma_pow2_strictly_increases;
use vstd::arithmetic::power2::lemma2_to64;

verus! {

/// Number of bits in one limb.
pub const BITS_IN_LIMB: usize = 64;

/// The value denoted by a limb sequence, least-significant limb first:
/// limb `i` contributes `s[i] * 2^(64*i)`.
pub open spec fn limbs_val(s: Seq<u64>) -> nat
    decreases s.len(),
{
    if s.len() == 0 {
        0
    } else {
        s[0] as nat + pow2(64) * limbs_val(s.drop_first())
    }
}

/// Canonical form: no trailing (most-significant) zero limb, except that
/// zero itself may be either the empty sequence or a single zero limb.
pub open spec fn limbs_wf(s: Seq<u64>) -> bool {
    s.len() <= 1 || s[s.len() - 1] != 0
}

/// Appending a most-significant limb adds its weighted value.
pub proof fn lemma_limbs_val_push(s: Seq<u64>, x: u64)
    ensures
        limbs_val(s.push(x)) == limbs_val(s) + x * pow2(64 * s.len()),
    decreases s.len(),
{
    if s.len() == 0 {
        assert(s.push(x).drop_first() =~= Seq::<u64>::empty());
        assert(limbs_val(Seq::<u64>::empty()) == 0);
        assert(limbs_val(s.push(x)) == x as nat + pow2(64) * 0);
        assert(pow2(0) == 1) by {
            lemma2_to64();
        }
    } else {
        assert(s.push(x).drop_first() =~= s.drop_first().push(x));
        lemma_limbs_val_push(s.drop_first(), x);
        let n1 = (64 * (s.len() - 1)) as nat;
        assert(limbs_val(s.push(x)) == s[0] as nat + pow2(64) * (limbs_val(s.drop_first()) + x
            * pow2(n1)));
        assert(pow2(64) * (limbs_val(s.drop_first()) + x * pow2(n1)) == pow2(64) * limbs_val(
            s.drop_first(),
        ) + x * (pow2(64) * pow2(n1))) by (nonlinear_arith);
        lemma_pow2_adds(64, n1);
        assert(64 + n1 == 64 * s.len());
    }
}

/// The value of a limb sequence is bounded by the weight of the limb one
/// past its most significant position.
pub proof fn lemma_limbs_val_bound(s: Seq<u64>)
    ensures
        limbs_val(s) < pow2(64 * s.len()),
    decreases s.len(),
{
    if s.len() == 0 {
        assert(pow2(0) == 1) by {
            lemma2_to64();
        }
    } else {
        lemma_limbs_val_bound(s.drop_first());
        let n1 = (64 * (s.len() - 1)) as nat;
        assert(s[0] < pow2(64)) by {
            lemma2_to64();
        }
        assert(s[0] as nat + pow2(64) * limbs_val(s.drop_first()) < pow2(64) * pow2(n1))
            by (nonlinear_arith)
            requires
                limbs_val(s.drop_first()) < pow2(n1),
                s[0] < pow2(64),
        ;
        lemma_pow2_adds(64, n1);
        assert(64 + n1 == 64 * s.len());
    }
}

/// Splitting off the most-significant limb.
pub proof fn lemma_limbs_val_last(s: Seq<u64>)
    requires
        s.len() >= 1,
    ensures
        limbs_val(s) == limbs_val(s.drop_last()) + s.last() * pow2((64 * (s.len() - 1)) as nat),
{
    assert(s =~= s.drop_last().push(s.last()));
    lemma_limbs_val_push(s.drop_last(), s.last());
}

/// A sequence whose most-significant limb is nonzero denotes at least the
/// weight of that limb.
pub proof fn lemma_limbs_val_lower(s: Seq<u64>)
    requires
        s.len() >= 1,
        s.last() != 0,
    ensures
        limbs_val(s) >= pow2((64 * (s.len() - 1)) as nat),
{
    lemma_limbs_val_last(s);
    let n1 = (64 * (s.len() - 1)) as nat;
    assert(s.last() * pow2(n1) >= 1 * pow2(n1)) by (nonlinear_arith)
        requires
            s.last() >= 1,
            pow2(n1) >= 0,
    ;
}

/// A limb sequence denotes zero exactly when every limb is zero.
pub proof fn lemma_limbs_val_zero(s: Seq<u64>)
    ensures
        limbs_val(s) == 0 <==> (forall|i: int| 0 <= i < s.len() ==> s[i] == 0),
    decreases s.len(),
{
    if s.len() > 0 {
        lemma_limbs_val_zero(s.drop_first());
        lemma_pow2_pos(64);
        if limbs_val(s) == 0 {
            assert(pow2(64) * limbs_val(s.drop_first()) == 0);
            assert(limbs_val(s.drop_first()) == 0) by (nonlinear_arith)
                requires
                    pow2(64) * limbs_val(s.drop_first()) == 0,
                    pow2(64) > 0,
            ;
            assert(forall|i: int| 0 <= i < s.len() ==> s[i] == 0) by {
                assert(forall|i: int| 1 <= i < s.len() ==> s[i] == s.drop_first()[i - 1]);
            }
        } else {
            if forall|i: int| 0 <= i < s.len() ==> s[i] == 0 {
                assert(forall|i: int| 0 <= i < s.drop_first().len() ==> s.drop_first()[i]
                    == s[i + 1]);
                assert(limbs_val(s.drop_first()) == 0);
            }
        }
    }
}

/// In canonical form a sequence of more than one limb denotes a nonzero
/// value, so a denoted zero has at most one limb.
pub proof fn lemma_limbs_wf_zero(s: Seq<u64>)
    requires
        limbs_wf(s),
    ensures
        limbs_val(s) == 0 <==> (s.len() == 0 || (s.len() == 1 && s[0] == 0)),
{
    lemma_limbs_val_zero(s);
    if s.len() > 1 {
        lemma_limbs_val_lower(s);
        lemma_pow2_pos((64 * (s.len() - 1)) as nat);
    }
}

/// Canonical representations are unique: two nonempty canonical sequences
/// denoting the same value are the same sequence.
pub proof fn lemma_limbs_wf_unique(s: Seq<u64>, t: Seq<u64>)
    requires
        limbs_wf(s),
        limbs_wf(t),
        limbs_val(s) == limbs_val(t),
        s.len() >= 1,
        t.len() >= 1,
    ensures
        s == t,
    decreases s.len(),
{
    lemma_pow2_pos(64);
    if s.len() == 1 && t.len() == 1 {
        assert(limbs_val(s) == s[0] as nat + pow2(64) * 0);
        assert(limbs_val(t) == t[0] as nat + pow2(64) * 0);
        assert(s =~= t);
    } else if s.len() >= 2 && t.len() >= 2 {
        // The least-significant limb is the value mod 2^64, the rest is
        // the value divided by 2^64; both are determined by the value.
        lemma_limbs_val_bound(s.drop_first());
        lemma_limbs_val_bound(t.drop_first());
        assert(s[0] < pow2(64) && t[0] < pow2(64)) by {
            lemma2_to64();
        }
        let v = limbs_val(s) as int;
        assert(limbs_val(s) == s[0] as nat + pow2(64) * limbs_val(s.drop_first()));
        assert(limbs_val(t) == t[0] as nat + pow2(64) * limbs_val(t.drop_first()));
        assert(v == limbs_val(s.drop_first()) as int * pow2(64) as int + s[0] as int)
            by (nonlinear_arith)
            requires
                limbs_val(s) == s[0] as nat + pow2(64) * limbs_val(s.drop_first()),
                v == limbs_val(s) as int,
        ;
        assert(v == limbs_val(t.drop_first()) as int * pow2(64) as int + t[0] as int)
            by (nonlinear_arith)
            requires
                limbs_val(t) == t[0] as nat + pow2(64) * limbs_val(t.drop_first()),
                v == limbs_val(t) as int,
        ;
        vstd::arithmetic::div_mod::lemma_fundamental_div_mod_converse(
            v,
            pow2(64) as int,
            limbs_val(s.drop_first()) as int,
            s[0] as int,
        );
        vstd::arithmetic::div_mod::lemma_fundamental_div_mod_converse(
            v,
            pow2(64) as int,
            limbs_val(t.drop_first()) as int,
            t[0] as int,
        );
        assert(s[0] == t[0]);
        assert(limbs_val(s.drop_first()) == limbs_val(t.drop_first()));
        assert(s.drop_first().last() == s.last());
        assert(t.drop_first().last() == t.last());
        lemma_limbs_wf_unique(s.drop_first(), t.drop_first());
        assert forall|i: int| 0 <= i < s.len() implies s[i] == t[i] by {
            if i >= 1 {
                assert(s[i] == s.drop_first()[i - 1]);
                assert(t[i] == t.drop_first()[i - 1]);
            }
        }
        assert(s =~= t);
    } else {
        // One has a single limb and the other at least two: the longer
        // one is canonical with a nonzero top limb, so it denotes at
        // least 2^64, while the shorter denotes less than 2^64.
        if s.len() == 1 {
            lemma_limbs_val_bound(s);
            lemma_limbs_val_lower(t);
            lemma_pow2_le(64, (64 * (t.len() - 1)) as nat);
            assert(false);
        } else {
            lemma_limbs_val_bound(t);
            lemma_limbs_val_lower(s);
            lemma_pow2_le(64, (64 * (s.len() - 1)) as nat);
            assert(false);
        }
    }
}

/// Taking one more limb into a prefix adds that limb's weighted value.
pub proof fn lemma_limbs_val_take_succ(s: Seq<u64>, j: int)
    requires
        0 <= j < s.len(),
    ensures
        limbs_val(s.take(j + 1)) == limbs_val(s.take(j)) + s[j] * pow2((64 * j) as nat),
{
    assert(s.take(j + 1) =~= s.take(j).push(s[j]));
    lemma_limbs_val_push(s.take(j), s[j]);
}

/// A limb sequence splits at any position into a low prefix and a
/// weighted high suffix.
#[verifier::rlimit(60)]
#[verifier::spinoff_prover]
pub proof fn lemma_limbs_val_split(s: Seq<u64>, i: int)
    requires
        0 <= i <= s.len(),
    ensures
        limbs_val(s) == limbs_val(s.take(i)) + pow2((64 * i) as nat) * limbs_val(s.skip(i)),
    decreases i,
{
    if i == 0 {
        assert(s.take(0) =~= Seq::<u64>::empty());
        assert(limbs_val(Seq::<u64>::empty()) == 0);
        assert(s.skip(0) =~= s);
        assert(pow2(0) == 1) by {
            lemma2_to64();
        }
        assert((64 * i) as nat == 0);
        assert(pow2((64 * i) as nat) == 1);
        assert(limbs_val(s.skip(i)) == limbs_val(s));
        assert(1 * limbs_val(s) == limbs_val(s));
        assert(pow2((64 * i) as nat) * limbs_val(s.skip(i)) == limbs_val(s));
        assert(limbs_val(s) == limbs_val(s.take(i)) + pow2((64 * i) as nat) * limbs_val(
            s.skip(i),
        ));
    } else {
        let t = s.drop_first();
        lemma_limbs_val_split(t, i - 1);
        assert(t.take(i - 1) =~= s.take(i).drop_first());
        assert(t.skip(i - 1) =~= s.skip(i));
        assert(s.take(i)[0] == s[0]);
        assert(s.take(i).len() == i);
        assert(limbs_val(s) == s[0] as nat + pow2(64) * limbs_val(t));
        assert(limbs_val(s.take(i)) == s[0] as nat + pow2(64) * limbs_val(t.take(i - 1)));
        let p1 = pow2((64 * (i - 1)) as nat);
        let p = pow2((64 * i) as nat);
        assert(p == pow2(64) * p1) by {
            lemma_pow2_adds(64, (64 * (i - 1)) as nat);
            assert(64 + (64 * (i - 1)) as nat == (64 * i) as nat);
        }
        assert(pow2(64) * limbs_val(t) == pow2(64) * limbs_val(t.take(i - 1)) + (pow2(64) * p1)
            * limbs_val(s.skip(i))) by (nonlinear_arith)
            requires
                limbs_val(t) == limbs_val(t.take(i - 1)) + p1 * limbs_val(t.skip(i - 1)),
                limbs_val(t.skip(i - 1)) == limbs_val(s.skip(i)),
        ;
        assert(limbs_val(s) == limbs_val(s.take(i)) + p * limbs_val(s.skip(i)));
    }
}

/// Of two equally long sequences that agree above position `i`, the one
/// with the larger limb at `i` denotes the larger value.
pub proof fn lemma_limbs_val_lex(s: Seq<u64>, t: Seq<u64>, i: int)
    requires
        s.len() == t.len(),
        0 <= i < s.len(),
        s.skip(i + 1) == t.skip(i + 1),
        s[i] > t[i],
    ensures
        limbs_val(s) > limbs_val(t),
{
    lemma_limbs_val_split(s, i);
    lemma_limbs_val_split(t, i);
    assert(s.skip(i).drop_first() =~= s.skip(i + 1));
    assert(t.skip(i).drop_first() =~= t.skip(i + 1));
    assert(limbs_val(s.skip(i)) == s[i] as nat + pow2(64) * limbs_val(s.skip(i + 1)));
    assert(limbs_val(t.skip(i)) == t[i] as nat + pow2(64) * limbs_val(t.skip(i + 1)));
    lemma_limbs_val_bound(t.take(i));
    let p = pow2((64 * i) as nat);
    let c = pow2(64) * limbs_val(s.skip(i + 1));
    assert(limbs_val(s) > limbs_val(t)) by (nonlinear_arith)
        requires
            limbs_val(s) == limbs_val(s.take(i)) + p * (s[i] as nat + c),
            limbs_val(t) == limbs_val(t.take(i)) + p * (t[i] as nat + c),
            limbs_val(t.take(i)) < p,
            s[i] >= t[i] + 1,
    ;
}

/// Replacing the limb at position `j` changes the value by the weighted
/// difference of the old and new limb.
pub proof fn lemma_limbs_val_update(s: Seq<u64>, j: int, v: u64)
    requires
        0 <= j < s.len(),
    ensures
        limbs_val(s.update(j, v)) + s[j] * pow2((64 * j) as nat) == limbs_val(s) + v * pow2(
            (64 * j) as nat,
        ),
{
    let su = s.update(j, v);
    lemma_limbs_val_split(s, j);
    lemma_limbs_val_split(su, j);
    assert(su.take(j) =~= s.take(j));
    assert(s.skip(j).drop_first() =~= s.skip(j + 1));
    assert(su.skip(j).drop_first() =~= s.skip(j + 1));
    assert(limbs_val(s.skip(j)) == s[j] as nat + pow2(64) * limbs_val(s.skip(j + 1)));
    assert(limbs_val(su.skip(j)) == v as nat + pow2(64) * limbs_val(s.skip(j + 1)));
    let p = pow2((64 * j) as nat);
    let c = pow2(64) * limbs_val(s.skip(j + 1));
    assert(limbs_val(su) + s[j] * p == limbs_val(s) + v * p) by (nonlinear_arith)
        requires
            limbs_val(s) == limbs_val(s.take(j)) + p * (s[j] as nat + c),
            limbs_val(su) == limbs_val(s.take(j)) + p * (v as nat + c),
    ;
}

/// True when the bit at absolute position `pos` (limb `pos / 64`, bit
/// `pos % 64` within it) is absent or zero.
pub open spec fn limb_bit_clear(s: Seq<u64>, pos: nat) -> bool {
    pos / 64 >= s.len() || ((s[(pos / 64) as int] as nat) / pow2(pos % 64)) % 2 == 0
}

/// A word whose bit `bit` is clear can take `2^bit` without overflowing.
pub proof fn lemma_bit_clear_bound(x: u64, bit: nat)
    requires
        bit <= 63,
        ((x as nat) / pow2(bit)) % 2 == 0,
    ensures
        x as nat + pow2(bit) < pow2(64),
{
    let m = pow2(bit) as int;
    let m2 = pow2((bit + 1) as nat) as int;
    let p = pow2((63 - bit) as nat) as int;
    lemma_pow2_pos(bit);
    lemma_pow2_pos((bit + 1) as nat);
    lemma_pow2_pos((63 - bit) as nat);
    lemma_pow2_adds(bit, 1);
    lemma_pow2_adds((bit + 1) as nat, (63 - bit) as nat);
    assert(pow2(1) == 2 && pow2(64) == 0x10000000000000000) by {
        lemma2_to64();
    }
    assert(m2 == 2 * m);
    assert(pow2(64) == m2 * p);
    assert(x < pow2(64));
    let xi = x as int;
    vstd::arithmetic::div_mod::lemma_breakdown(xi, m, 2);
    assert(xi % (m * 2) == m * ((xi / m) % 2) + xi % m);
    assert(xi % m < m) by {
        vstd::arithmetic::div_mod::lemma_mod_division_less_than_divisor(xi, m);
    }
    assert(xi % m2 < m);
    vstd::arithmetic::div_mod::lemma_fundamental_div_mod(xi, m2);
    let q = xi / m2;
    assert(q < p) by (nonlinear_arith)
        requires
            xi == m2 * q + xi % m2,
            xi % m2 >= 0,
            xi < m2 * p,
            m2 > 0,
    ;
    assert(m2 * q <= m2 * (p - 1)) by (nonlinear_arith)
        requires
            q <= p - 1,
            m2 > 0,
    ;
    assert(m2 * (p - 1) == m2 * p - m2) by (nonlinear_arith);
}

/// A value divisible by `2^(pos+1)` has the bit at position `pos` clear.
pub proof fn lemma_multiple_bit_clear(s: Seq<u64>, pos: nat)
    requires
        limbs_val(s) % pow2(pos + 1) == 0,
    ensures
        limb_bit_clear(s, pos),
{
    if pos / 64 < s.len() {
        let j = (pos / 64) as int;
        let bit = pos % 64;
        let v = limbs_val(s) as int;
        let bj = pow2((64 * j) as nat) as int;
        let m2 = pow2(bit + 1) as int;
        let big = pow2(pos + 1) as int;
        lemma_pow2_pos((64 * j) as nat);
        lemma_pow2_pos(bit + 1);
        lemma_pow2_pos(pos + 1);
        lemma_pow2_pos(64);
        lemma_limbs_val_split(s, j);
        lemma_limbs_val_bound(s.take(j));
        let a = limbs_val(s.take(j)) as int;
        let w = limbs_val(s.skip(j)) as int;
        assert(64 * (pos / 64) + pos % 64 == pos) by {
            vstd::arithmetic::div_mod::lemma_fundamental_div_mod(pos as int, 64);
        }
        assert(big == bj * m2) by {
            lemma_pow2_adds((64 * j) as nat, bit + 1);
            assert((64 * j) as nat + (bit + 1) == pos + 1);
        }
        let k = v / big;
        assert(v == big * k) by {
            vstd::arithmetic::div_mod::lemma_fundamental_div_mod(v, big);
        }
        assert(v == (m2 * k) * bj) by (nonlinear_arith)
            requires
                v == big * k,
                big == bj * m2,
        ;
        assert(v == w * bj + a) by (nonlinear_arith)
            requires
                v == a + bj * w,
        ;
        // The quotient by the limb weight is unique, so the high part is
        // a multiple of the sub-limb stride.
        assert(m2 * k >= 0) by (nonlinear_arith)
            requires
                v == (m2 * k) * bj,
                v >= 0,
                bj > 0,
                m2 > 0,
                k == v / big,
                big > 0,
        ;
        vstd::arithmetic::div_mod::lemma_fundamental_div_mod_converse(v, bj, w, a);
        vstd::arithmetic::div_mod::lemma_fundamental_div_mod_converse(v, bj, m2 * k, 0);
        assert(w == m2 * k);
        // Split the high part into this limb and everything above it.
        assert(s.skip(j)[0] == s[j]);
        assert(s.skip(j).drop_first() =~= s.skip(j + 1));
        let q = limbs_val(s.skip(j + 1)) as int;
        assert(w == s[j] + pow2(64) * q);
        let c = pow2((63 - bit) as nat) as int;
        assert(pow2(64) == m2 * c) by {
            lemma_pow2_adds(bit + 1, (63 - bit) as nat);
            assert(bit + 1 + (63 - bit) as nat == 64);
        }
        assert(s[j] == m2 * (k - c * q)) by (nonlinear_arith)
            requires
                w == s[j] + pow2(64) * q,
                w == m2 * k,
                pow2(64) == m2 * c,
        ;
        let t = k - c * q;
        assert(t >= 0) by (nonlinear_arith)
            requires
                s[j] == m2 * t,
                s[j] >= 0,
                m2 > 0,
        ;
        // Finally, a multiple of `2^(bit+1)` has an even quotient by
        // `2^bit`.
        let mb = pow2(bit) as int;
        lemma_pow2_pos(bit);
        assert(m2 == mb * 2) by {
            lemma_pow2_adds(bit, 1);
            assert(pow2(1) == 2) by {
                lemma2_to64();
            }
        }
        assert(s[j] == (2 * t) * mb) by (nonlinear_arith)
            requires
                s[j] == m2 * t,
                m2 == mb * 2,
        ;
        assert(s[j] as int / mb == 2 * t) by {
            vstd::arithmetic::div_mod::lemma_div_by_multiple(2 * t, mb);
        }
        assert((2 * t) % 2 == 0) by {
            vstd::arithmetic::div_mod::lemma_mod_multiples_basic(t, 2);
        }
    }
}

/// Among canonical sequences, a smaller value never needs more limbs.
pub proof fn lemma_limbs_wf_len(s: Seq<u64>, t: Seq<u64>)
    requires
        limbs_wf(s),
        limbs_wf(t),
        limbs_val(s) <= limbs_val(t),
    ensures
        s.len() <= t.len() || s.len() <= 1,
{
    if s.len() >= 2 && s.len() > t.len() {
        lemma_limbs_val_lower(s);
        lemma_limbs_val_bound(t);
        lemma_pow2_le(64 * t.len(), (64 * (s.len() - 1)) as nat);
        assert(false);
    }
}

/// Monotonicity of powers of two, in non-strict form.
pub proof fn lemma_pow2_le(e1: nat, e2: nat)
    requires
        e1 <= e2,
    ensures
        pow2(e1) <= pow2(e2),
{
    if e1 < e2 {
        lemma_pow2_strictly_increases(e1, e2);
    }
}

} // verus!
