//! Construction methods for [`Parts`].
use vstd::prelude::*;
use vstd::arithmetic::power2::*;
use vstd::arithmetic::mul::*;
use vstd::std_specs::bits::u64_trailing_zeros;

use crate::parts::{PartFlags, Parts};
use crate::significance::lemma_strip_trailing_zeros;

verus! {

impl<S> Parts<S> {
    /// A new `Parts` value: no part flags set; sign, exponent, and mantissa
    /// representing positive zero; ready to accept whole-number digits; no
    /// type suffix.
    pub fn new() -> (p: Parts<S>)
        ensures
            p.present@ == 0,
            p.sign == 1,
            p.mantissa == 0,
            p.exponent == 0,
            p.last_digit_exponent == 0,
            p.explicit_exponent == 0,
            p.exact,
            p.suffix is None,
            p.wf(),
            p.scaled() == 0,
    {
        Parts {
            present: PartFlags::empty(),
            sign: 1,
            mantissa: 0,
            exponent: 0,
            last_digit_exponent: 0,
            explicit_exponent: 0,
            exact: true,
            suffix: None,
        }
    }

    /// The `Parts` value representing `mantissa * 2**exponent`.
    ///
    /// The next digit pushed will be placed just to the right of where
    /// `exponent` places `mantissa`. Trailing zero bits of `mantissa` move
    /// into the exponent; should that overflow, the exponent saturates and the
    /// value is marked inexact.
    pub fn with_exponent(mantissa: u64, exponent: i32) -> (p: Self)
        requires
            mantissa != 0 || exponent == 0,
        ensures
            p.present@ == 0,
            p.sign == 1,
            p.explicit_exponent == 0,
            p.suffix is None,
            p.wf(),
            mantissa == 0 ==> p.mantissa == 0 && p.exponent == 0 && p.last_digit_exponent == 0
                && p.exact,
            mantissa != 0 ==> {
                let t = u64_trailing_zeros(mantissa);
                &&& p.mantissa as nat * pow2(t as nat) == mantissa
                &&& p.exponent == if exponent + t <= i32::MAX {
                    exponent + t
                } else {
                    i32::MAX as int
                }
                &&& p.exact == (exponent + t <= i32::MAX)
                &&& p.last_digit_exponent == if exponent < 0 {
                    exponent
                } else {
                    0
                }
            },
            mantissa != 0 && exponent + u64_trailing_zeros(mantissa) <= i32::MAX ==> p.scaled()
                == mantissa as nat * pow2((exponent - p.last_digit_exponent) as nat),
    {
        let mut parts = Parts::new();

        if mantissa != 0 {
            let trailing_zeros = mantissa.trailing_zeros() as i32;
            proof {
                lemma_strip_trailing_zeros(mantissa);
            }
            parts.mantissa = mantissa >> trailing_zeros as u32;
            parts.exponent = match exponent.checked_add(trailing_zeros) {
                Some(e) => e,
                None => {
                    parts.exact = false;
                    i32::MAX
                },
            };

            if exponent < 0 {
                parts.last_digit_exponent = exponent;
            }
            proof {
                if exponent + trailing_zeros <= i32::MAX {
                    let t = trailing_zeros as nat;
                    let k = (exponent - parts.last_digit_exponent) as nat;
                    lemma_pow2_adds(t, k);
                    assert((exponent + trailing_zeros - parts.last_digit_exponent) as nat == t + k);
                    lemma_mul_is_associative(
                        parts.mantissa as int,
                        pow2(t) as int,
                        pow2(k) as int,
                    );
                }
            }
        }
        parts
    }
}

} // verus!
