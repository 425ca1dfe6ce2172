//! Non-negative integers of arbitrary size, held as big-endian bytes. The
//! arithmetic on them is done by `curv::BigInt`.

use crate::numeric::{be_value, bit_and};
use curv::arithmetic::{BasicOps, Converter};
use curv::BigInt;
use vstd::arithmetic::power::pow;
use vstd::arithmetic::power2::pow2;
use vstd::prelude::*;

verus! {

/// A non-negative integer of arbitrary size.
pub struct BigNat {
    pub(crate) bytes: Vec<u8>,
}

impl View for BigNat {
    type V = nat;

    open(crate) spec fn view(&self) -> nat {
        be_value(self.bytes@)
    }
}

/// The value of eight bytes, written out.
proof fn lemma_eight_bytes(s: Seq<u8>)
    requires
        s.len() == 8,
    ensures
        be_value(s) == ((((((s[0] * 256 + s[1]) * 256 + s[2]) * 256 + s[3]) * 256 + s[4]) * 256
            + s[5]) * 256 + s[6]) * 256 + s[7],
{
    let s7 = s.drop_last();
    let s6 = s7.drop_last();
    let s5 = s6.drop_last();
    let s4 = s5.drop_last();
    let s3 = s4.drop_last();
    let s2 = s3.drop_last();
    let s1 = s2.drop_last();
    assert(be_value(s1.drop_last()) == 0);
    assert(be_value(s1) == s[0]);
    assert(be_value(s2) == be_value(s1) * 256 + s[1]);
    assert(be_value(s3) == be_value(s2) * 256 + s[2]);
    assert(be_value(s4) == be_value(s3) * 256 + s[3]);
    assert(be_value(s5) == be_value(s4) * 256 + s[4]);
    assert(be_value(s6) == be_value(s5) * 256 + s[5]);
    assert(be_value(s7) == be_value(s6) * 256 + s[6]);
    assert(be_value(s) == be_value(s7) * 256 + s[7]);
}

impl BigNat {
    /// The number that `bytes` denotes, most significant byte first.
    pub fn from_bytes(bytes: Vec<u8>) -> (r: BigNat)
        ensures
            r@ == be_value(bytes@),
    {
        BigNat { bytes }
    }

    /// A big-endian encoding of the number.
    pub fn to_bytes(self) -> (r: Vec<u8>)
        ensures
            be_value(r@) == self@,
    {
        self.bytes
    }

    /// The number `value`.
    pub fn from_u8(value: u8) -> (r: BigNat)
        ensures
            r@ == value,
    {
        let bytes = vec![value];
        proof {
            assert(bytes@.drop_last() =~= Seq::<u8>::empty());
            reveal_with_fuel(be_value, 2);
        }
        BigNat { bytes }
    }

    /// The number `value`.
    pub fn from_u64(value: u64) -> (r: BigNat)
        ensures
            r@ == value,
    {
        let q1 = value / 256;
        let q2 = q1 / 256;
        let q3 = q2 / 256;
        let q4 = q3 / 256;
        let q5 = q4 / 256;
        let q6 = q5 / 256;
        let q7 = q6 / 256;
        let bytes = vec![
            q7 as u8,
            (q6 % 256) as u8,
            (q5 % 256) as u8,
            (q4 % 256) as u8,
            (q3 % 256) as u8,
            (q2 % 256) as u8,
            (q1 % 256) as u8,
            (value % 256) as u8,
        ];
        proof {
            lemma_eight_bytes(bytes@);
        }
        BigNat { bytes }
    }

    /// `self` raised to `exponent`.
    ///
    /// Trusted: calls `BasicOps::pow` of `curv::BigInt`, which returns the
    /// power as an integer of unbounded size. The bytes go in and come out
    /// through `Converter::from_bytes` and `Converter::to_bytes`, which read and
    /// write the magnitude most significant byte first.
    #[verifier::external_body]
    pub(crate) fn pow(&self, exponent: u32) -> (r: BigNat)
        ensures
            r@ == pow(self@ as int, exponent as nat),
    {
        BigNat { bytes: BigInt::from_bytes(&self.bytes).pow(exponent).to_bytes() }
    }

    /// `self - other`, for `other` not above `self`.
    ///
    /// Trusted: calls `Sub` of `curv::BigInt`. The difference of two
    /// non-negative numbers of which the first is the larger is non-negative, so
    /// its magnitude is the difference.
    #[verifier::external_body]
    pub(crate) fn sub(&self, other: &BigNat) -> (r: BigNat)
        requires
            other@ <= self@,
        ensures
            r@ == self@ - other@,
    {
        BigNat { bytes: (BigInt::from_bytes(&self.bytes) - BigInt::from_bytes(&other.bytes)).to_bytes() }
    }

    /// The bitwise conjunction of `self` and `other`.
    ///
    /// Trusted: calls `BitAnd` of `curv::BigInt`, which on non-negative
    /// numbers keeps the bits set in both.
    #[verifier::external_body]
    pub(crate) fn bitand(&self, other: &BigNat) -> (r: BigNat)
        ensures
            r@ == bit_and(self@, other@),
    {
        BigNat { bytes: (BigInt::from_bytes(&self.bytes) & BigInt::from_bytes(&other.bytes)).to_bytes() }
    }

    /// `self` shifted right by `bits`, that is divided by `2^bits` and rounded
    /// down.
    ///
    /// Trusted: calls `Shr<usize>` of `curv::BigInt`.
    #[verifier::external_body]
    pub(crate) fn shr(&self, bits: usize) -> (r: BigNat)
        ensures
            r@ == self@ / pow2(bits as nat),
    {
        BigNat { bytes: (BigInt::from_bytes(&self.bytes) >> bits).to_bytes() }
    }
}

} // verus!
