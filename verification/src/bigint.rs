//! The signed integer type: a sign paired with an unsigned magnitude.
//! Subtraction of magnitudes produces values of this type.

use vstd::prelude::*;
use vstd::string::StringExecFns;
use crate::biguint::BigUint;
use crate::base::render_digits;
use crate::base::push_char;

verus! {

/// The sign of a `BigInt`.
#[derive(Clone, Copy, PartialEq, Eq, Structural)]
pub enum IntSign {
    Pos,
    Neg,
}

/// A signed integer: a sign and an unsigned magnitude.  A zero magnitude
/// always carries the sign `Pos`; there is no negative zero.
pub struct BigInt {
    pub sign: IntSign,
    pub num: BigUint,
}

impl BigInt {
    /// The integer this value denotes.
    pub open spec fn as_int(&self) -> int {
        if self.sign == IntSign::Pos {
            self.num.as_nat() as int
        } else {
            -(self.num.as_nat() as int)
        }
    }

    /// Canonical form: the magnitude is canonical and zero is never
    /// negative.
    pub open spec fn wf(&self) -> bool {
        self.num.wf() && (self.sign == IntSign::Neg ==> self.num.as_nat() != 0)
    }

    /// A signed value holding the value of one signed machine word.
    pub fn from_i64(n: i64) -> (r: BigInt)
        ensures
            r.wf(),
            r.as_int() == n,
    {
        if n >= 0 {
            BigInt { sign: IntSign::Pos, num: BigUint::from_u64(n as u64) }
        } else {
            let mag: u64 = (-(n as i128)) as u64;
            BigInt { sign: IntSign::Neg, num: BigUint::from_u64(mag) }
        }
    }

    /// This value written in base `base`, most significant digit first:
    /// the magnitude through the fixed alphabet, prefixed with `-` when
    /// the value is negative.  Bases outside `[2, 64]` are rejected with
    /// an error value.
    pub fn to_base_string(&self, base: u64) -> (r: Result<String, &'static str>)
        requires
            self.wf(),
            self.num.limbs@.len() * 64 + 192 <= usize::MAX,
        ensures
            match r {
                Ok(s) => 2 <= base <= 64 && s@ == (if self.sign == IntSign::Neg {
                    seq!['-'] + render_digits(self.num.as_nat(), base as nat)
                } else {
                    render_digits(self.num.as_nat(), base as nat)
                }),
                Err(_) => !(2 <= base <= 64),
            },
    {
        let body = match self.num.to_base_string(base) {
            Ok(s) => s,
            Err(e) => {
                return Err(e);
            },
        };
        match self.sign {
            IntSign::Pos => Ok(body),
            IntSign::Neg => {
                let mut out = String::new();
                push_char(&mut out, '-');
                out.append(body.as_str());
                proof {
                    assert(out@ =~= seq!['-'] + render_digits(self.num.as_nat(), base as nat));
                }
                Ok(out)
            },
        }
    }

    /// An independent copy with the same sign and limbs.
    pub fn clone(&self) -> (r: BigInt)
        ensures
            r.sign == self.sign,
            r.num.limbs@ == self.num.limbs@,
    {
        BigInt { sign: self.sign, num: self.num.clone() }
    }
}

} // verus!
