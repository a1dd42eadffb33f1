//! A 256-bit unsigned integer held as 32 little-endian bytes, with the
//! modular arithmetic the hash needs. The add, multiply and remainder
//! operations call num_bigint behind exact contracts; everything around
//! them is verified against the byte-level value.

use vstd::prelude::*;
use vstd::arithmetic::power::pow;
use crate::bytes::{
    le_val, be_val, lemma_le_val_zeros, lemma_le_val_concat, lemma_le_val_singleton,
    lemma_le_val_of_reversed, lemma_le_val_lt,
};

verus! {

/// A non-negative integer below 256^32, stored as exactly 32 bytes,
/// least significant first.
pub struct U256 {
    pub bytes: Vec<u8>,
}

impl U256 {
    /// The representation holds exactly 32 bytes.
    pub open spec fn wf(&self) -> bool {
        self.bytes@.len() == 32
    }

    /// The integer this value denotes.
    pub open spec fn val(&self) -> nat {
        le_val(self.bytes@)
    }

    /// The integer zero.
    pub fn zero() -> (r: U256)
        ensures
            r.wf(),
            r.val() == 0,
    {
        let mut v: Vec<u8> = Vec::new();
        let mut i: usize = 0;
        while i < 32
            invariant
                v@.len() == i,
                i <= 32,
                forall|j: int| 0 <= j < i ==> v@[j] == 0,
            decreases 32 - i,
        {
            v.push(0u8);
            i = i + 1;
        }
        proof {
            lemma_le_val_zeros(v@);
        }
        U256 { bytes: v }
    }

    /// Builds the value of a 64-bit integer.
    pub fn from_u64(x: u64) -> (r: U256)
        ensures
            r.wf(),
            r.val() == x,
    {
        let mut v: Vec<u8> = Vec::new();
        let mut rest: u64 = x;
        let mut i: usize = 0;
        proof {
            vstd::arithmetic::power::lemma_pow0(256);
        }
        while i < 32
            invariant
                v@.len() == i,
                i <= 32,
                le_val(v@) + pow(256, i as nat) * rest == x,
            decreases 32 - i,
        {
            let d: u8 = (rest % 256) as u8;
            let ghost old_v = v@;
            let ghost old_rest = rest;
            v.push(d);
            rest = rest / 256;
            proof {
                assert(v@ =~= old_v + seq![d]);
                lemma_le_val_concat(old_v, seq![d]);
                lemma_le_val_singleton(d);
                let p: int = pow(256, i as nat);
                assert(pow(256, (i + 1) as nat) == 256 * p) by {
                    reveal(pow);
                }
                assert(p * old_rest == p * d + (256 * p) * (old_rest as int / 256))
                    by (nonlinear_arith)
                    requires
                        d == old_rest as int % 256,
                        old_rest >= 0,
                ;
            }
            i = i + 1;
        }
        proof {
            assert(pow(256, 8) == 0x10000000000000000) by {
                reveal_with_fuel(vstd::arithmetic::power::pow, 9);
            }
            vstd::arithmetic::power::lemma_pow_increases(256, 8, 32);
            assert(rest == 0) by (nonlinear_arith)
                requires
                    le_val(v@) + pow(256, 32) * rest == x,
                    x <= u64::MAX,
                    pow(256, 32) > u64::MAX,
                    rest >= 0,
            ;
        }
        U256 { bytes: v }
    }

    /// Reads 32 big-endian bytes, most significant first.
    pub fn from_bytes_be(b: &Vec<u8>) -> (r: U256)
        requires
            b@.len() == 32,
        ensures
            r.wf(),
            r.val() == be_val(b@),
    {
        let mut v: Vec<u8> = Vec::new();
        let mut i: usize = 0;
        while i < 32
            invariant
                b@.len() == 32,
                v@.len() == i,
                i <= 32,
                forall|j: int| 0 <= j < i ==> v@[j] == b@[31 - j],
            decreases 32 - i,
        {
            v.push(b[31 - i]);
            i = i + 1;
        }
        proof {
            lemma_le_val_of_reversed(v@, b@);
        }
        U256 { bytes: v }
    }

    /// Compares two values.
    pub fn lt(&self, other: &U256) -> (r: bool)
        requires
            self.wf(),
            other.wf(),
        ensures
            r == (self.val() < other.val()),
    {
        let mut i: usize = 32;
        while i > 0
            invariant
                self.wf(),
                other.wf(),
                i <= 32,
                forall|j: int| i <= j < 32 ==> self.bytes@[j] == other.bytes@[j],
            decreases i,
        {
            i = i - 1;
            let a = self.bytes[i];
            let b = other.bytes[i];
            if a < b {
                proof {
                    lemma_le_val_lt(self.bytes@, other.bytes@, i as int);
                }
                return true;
            }
            if a > b {
                proof {
                    lemma_le_val_lt(other.bytes@, self.bytes@, i as int);
                }
                return false;
            }
        }
        proof {
            assert(self.bytes@ =~= other.bytes@);
        }
        false
    }
}

/// The remainder of `a` divided by `m`.
///
/// Relies on num_bigint::BigUint: `from_bytes_le` and `to_bytes_le` read
/// and write little-endian digits, and `%` is the exact integer remainder.
#[verifier::external_body]
pub fn modulus(a: &U256, m: &U256) -> (r: U256)
    requires
        a.wf(),
        m.wf(),
        m.val() > 0,
    ensures
        r.wf(),
        r.val() == a.val() % m.val(),
{
    let x = num_bigint::BigUint::from_bytes_le(&a.bytes);
    let q = num_bigint::BigUint::from_bytes_le(&m.bytes);
    let mut out = (x % q).to_bytes_le();
    out.resize(32, 0u8);
    U256 { bytes: out }
}

/// The sum of `a` and `b`, reduced by `m`.
///
/// Relies on num_bigint::BigUint: `+` is the exact integer sum and `%`
/// the exact integer remainder.
#[verifier::external_body]
pub(crate) fn add_mod(a: &U256, b: &U256, m: &U256) -> (r: U256)
    requires
        a.wf(),
        b.wf(),
        m.wf(),
        m.val() > 0,
    ensures
        r.wf(),
        r.val() == (a.val() + b.val()) % m.val(),
{
    let x = num_bigint::BigUint::from_bytes_le(&a.bytes);
    let y = num_bigint::BigUint::from_bytes_le(&b.bytes);
    let q = num_bigint::BigUint::from_bytes_le(&m.bytes);
    let mut out = ((x + y) % q).to_bytes_le();
    out.resize(32, 0u8);
    U256 { bytes: out }
}

/// The product of `a` and `b`, reduced by `m`.
///
/// Relies on num_bigint::BigUint: `*` is the exact integer product and
/// `%` the exact integer remainder.
#[verifier::external_body]
pub(crate) fn mul_mod(a: &U256, b: &U256, m: &U256) -> (r: U256)
    requires
        a.wf(),
        b.wf(),
        m.wf(),
        m.val() > 0,
    ensures
        r.wf(),
        r.val() == (a.val() * b.val()) % m.val(),
{
    let x = num_bigint::BigUint::from_bytes_le(&a.bytes);
    let y = num_bigint::BigUint::from_bytes_le(&b.bytes);
    let q = num_bigint::BigUint::from_bytes_le(&m.bytes);
    let mut out = ((x * y) % q).to_bytes_le();
    out.resize(32, 0u8);
    U256 { bytes: out }
}

} // verus!
