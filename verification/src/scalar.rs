//! Elements of the scalar field of secp256k1, held as 32 big-endian bytes.
//! The field arithmetic is done by `curv::elliptic::curves::Scalar`.

use crate::bignat::BigNat;
use crate::numeric::be_value;
use curv::arithmetic::Converter;
use curv::elliptic::curves::{Scalar, Secp256k1};
use curv::BigInt;
use vstd::arithmetic::div_mod::lemma_mod_bound;
use vstd::arithmetic::power2::{lemma2_to64, lemma2_to64_rest, lemma_pow2_adds, pow2};
use vstd::prelude::*;
use vstd::slice::slice_to_vec;

verus! {

/// The order of the secp256k1 group, a prime just below `2^256`.
pub open spec fn group_order() -> nat {
    0xFFFFFFFF_FFFFFFFF_FFFFFFFF_FFFFFFFE_BAAEDCE6_AF48A03B_BFD25E8C_D0364141nat
}

/// The group order lies below `2^256`, and above `2^64`.
pub proof fn lemma_group_order_bounds()
    ensures
        pow2(64) < group_order() < pow2(256),
{
    lemma2_to64();
    lemma2_to64_rest();
    lemma_pow2_adds(64, 64);
    lemma_pow2_adds(128, 128);
    assert(pow2(128) == 0x1_00000000_00000000_00000000_00000000);
    assert(group_order() < pow2(256)) by (nonlinear_arith)
        requires
            pow2(256) == pow2(128) * pow2(128),
            pow2(128) == 0x1_00000000_00000000_00000000_00000000,
            group_order() < 0x1_00000000_00000000_00000000_00000000_00000000_00000000_00000000_00000000nat,
    ;
}

/// An element of the scalar field: a number below [`group_order`].
#[derive(Clone, Copy, Debug, PartialEq, Eq)]
pub struct FE {
    pub(crate) bytes: [u8; 32],
}

impl View for FE {
    type V = nat;

    open(crate) spec fn view(&self) -> nat {
        be_value(self.bytes@)
    }
}

/// The residue of `n` modulo the group order, as 32 big-endian bytes.
///
/// Trusted: calls `Scalar::<Secp256k1>::from_bigint`, documented as
/// constructing the scalar `n % curve_order`, on the number that
/// `Converter::from_bytes` reads from `n`, and `Scalar::to_bytes`, which for
/// this curve writes the 32 bytes of the scalar, most significant first.
#[verifier::external_body]
fn order_reduce(n: &Vec<u8>) -> (r: [u8; 32])
    ensures
        be_value(r@) == be_value(n@) % group_order(),
{
    let mut out = [0u8; 32];
    out.copy_from_slice(&Scalar::<Secp256k1>::from_bigint(&BigInt::from_bytes(n)).to_bytes());
    out
}

/// The sum of two scalars modulo the group order.
///
/// Trusted: calls `Add` of `Scalar<Secp256k1>`, addition in the field, on the
/// scalars that `Scalar::from_bigint` makes of the two numbers.
#[verifier::external_body]
fn order_add(a: &[u8; 32], b: &[u8; 32]) -> (r: [u8; 32])
    ensures
        be_value(r@) == (be_value(a@) + be_value(b@)) % group_order(),
{
    let x = Scalar::<Secp256k1>::from_bigint(&BigInt::from_bytes(a));
    let y = Scalar::<Secp256k1>::from_bigint(&BigInt::from_bytes(b));
    let mut out = [0u8; 32];
    out.copy_from_slice(&(x + y).to_bytes());
    out
}

/// The product of two scalars modulo the group order.
///
/// Trusted: calls `Mul` of `Scalar<Secp256k1>`, multiplication in the field,
/// on the scalars that `Scalar::from_bigint` makes of the two numbers.
#[verifier::external_body]
fn order_mul(a: &[u8; 32], b: &[u8; 32]) -> (r: [u8; 32])
    ensures
        be_value(r@) == (be_value(a@) * be_value(b@)) % group_order(),
{
    let x = Scalar::<Secp256k1>::from_bigint(&BigInt::from_bytes(a));
    let y = Scalar::<Secp256k1>::from_bigint(&BigInt::from_bytes(b));
    let mut out = [0u8; 32];
    out.copy_from_slice(&(x * y).to_bytes());
    out
}

/// A scalar drawn at random.
///
/// Trusted: calls `Scalar::<Secp256k1>::random`, documented as sampling a
/// random nonzero scalar. Which one comes back is not stated: two calls may
/// differ.
#[verifier::external_body]
fn order_random() -> (r: [u8; 32])
    ensures
        0 < be_value(r@) < group_order(),
{
    let mut out = [0u8; 32];
    out.copy_from_slice(&Scalar::<Secp256k1>::random().to_bytes());
    out
}

impl FE {
    #[verifier::type_invariant]
    pub(crate) open spec fn in_range(&self) -> bool {
        be_value(self.bytes@) < group_order()
    }

    /// The scalar `n mod group_order`.
    pub fn from_big_int(n: &BigNat) -> (r: FE)
        ensures
            r@ == n@ % group_order(),
            r@ < group_order(),
    {
        let bytes = order_reduce(&n.bytes);
        proof {
            lemma_mod_bound(n@ as int, group_order() as int);
        }
        FE { bytes }
    }

    /// The number that the scalar stands for.
    pub fn to_big_int(&self) -> (r: BigNat)
        ensures
            r@ == self@,
            r@ < group_order(),
    {
        proof {
            use_type_invariant(self);
        }
        BigNat { bytes: slice_to_vec(self.bytes.as_slice()) }
    }

    /// The 32 bytes of the scalar, most significant first.
    pub fn to_bytes(&self) -> (r: [u8; 32])
        ensures
            be_value(r@) == self@,
            self@ < group_order(),
    {
        proof {
            use_type_invariant(self);
        }
        self.bytes
    }

    /// A fresh random scalar, never zero.
    pub fn new_random() -> (r: FE)
        ensures
            0 < r@ < group_order(),
    {
        FE { bytes: order_random() }
    }

    /// The sum of two scalars in the field.
    pub fn add(&self, other: &FE) -> (r: FE)
        ensures
            r@ == (self@ + other@) % group_order(),
            r@ < group_order(),
    {
        let bytes = order_add(&self.bytes, &other.bytes);
        proof {
            lemma_mod_bound((self@ + other@) as int, group_order() as int);
        }
        FE { bytes }
    }

    /// The product of two scalars in the field.
    pub fn mul(&self, other: &FE) -> (r: FE)
        ensures
            r@ == (self@ * other@) % group_order(),
            r@ < group_order(),
    {
        let bytes = order_mul(&self.bytes, &other.bytes);
        proof {
            lemma_mod_bound((self@ * other@) as int, group_order() as int);
        }
        FE { bytes }
    }
}

} // verus!
