//! Points of the secp256k1 group, held in their 33-byte compressed encoding.
//! The group arithmetic is done by `curv::elliptic::curves::Point`; to this
//! crate its results are names, not formulas.

use crate::numeric::be_value;
use crate::scalar::FE;
use curv::arithmetic::Converter;
use curv::elliptic::curves::{Point, Scalar, Secp256k1};
use curv::BigInt;
use vstd::prelude::*;

verus! {

/// Whether `bytes` is the encoding of a point of the group: whether
/// `Point::<Secp256k1>::from_bytes` accepts it.
pub uninterp spec fn point_decodes(bytes: Seq<u8>) -> bool;

/// The compressed encoding of the point encoded by `point`, multiplied by the
/// scalar `scalar mod group_order`.
pub uninterp spec fn ec_mul(point: Seq<u8>, scalar: nat) -> Seq<u8>;

/// The compressed encoding of the sum of the points encoded by `a` and `b`.
pub uninterp spec fn ec_add(a: Seq<u8>, b: Seq<u8>) -> Seq<u8>;

/// The compressed encoding of the point encoded by `a` minus the one encoded
/// by `b`.
pub uninterp spec fn ec_sub(a: Seq<u8>, b: Seq<u8>) -> Seq<u8>;

/// A point of the group, the neutral element included.
#[derive(Clone, Copy, Debug, PartialEq, Eq)]
pub struct GE {
    pub(crate) bytes: [u8; 33],
}

impl View for GE {
    type V = Seq<u8>;

    open(crate) spec fn view(&self) -> Seq<u8> {
        self.bytes@
    }
}

/// Whether the 33 bytes encode a point.
///
/// Trusted: calls `Point::<Secp256k1>::from_bytes` and reports whether it
/// returned `Ok`.
#[verifier::external_body]
fn curve_decodes(bytes: &[u8; 33]) -> (ok: bool)
    ensures
        ok == point_decodes(bytes@),
{
    Point::<Secp256k1>::from_bytes(bytes).is_ok()
}

/// The point times the scalar.
///
/// Trusted: calls `Mul` of `Point<Secp256k1>` by `Scalar<Secp256k1>` on the
/// point that `Point::from_bytes` decodes and the scalar that
/// `Scalar::from_bigint` makes of the number, and writes the product with
/// `Point::to_bytes(true)`, whose output `Point::from_bytes` accepts.
#[verifier::external_body]
fn curve_mul(point: &[u8; 33], scalar: &[u8; 32]) -> (r: [u8; 33])
    requires
        point_decodes(point@),
    ensures
        r@ == ec_mul(point@, be_value(scalar@)),
        point_decodes(r@),
{
    let p = Point::<Secp256k1>::from_bytes(point).unwrap();
    let s = Scalar::<Secp256k1>::from_bigint(&BigInt::from_bytes(scalar));
    let mut out = [0u8; 33];
    out.copy_from_slice(&(p * s).to_bytes(true));
    out
}

/// The sum of two points.
///
/// Trusted: calls `Add` of `Point<Secp256k1>` on the two decoded points and
/// writes the sum with `Point::to_bytes(true)`.
#[verifier::external_body]
fn curve_add(a: &[u8; 33], b: &[u8; 33]) -> (r: [u8; 33])
    requires
        point_decodes(a@),
        point_decodes(b@),
    ensures
        r@ == ec_add(a@, b@),
        point_decodes(r@),
{
    let p = Point::<Secp256k1>::from_bytes(a).unwrap();
    let q = Point::<Secp256k1>::from_bytes(b).unwrap();
    let mut out = [0u8; 33];
    out.copy_from_slice(&(p + q).to_bytes(true));
    out
}

/// The difference of two points.
///
/// Trusted: calls `Sub` of `Point<Secp256k1>` on the two decoded points and
/// writes the difference with `Point::to_bytes(true)`.
#[verifier::external_body]
fn curve_sub(a: &[u8; 33], b: &[u8; 33]) -> (r: [u8; 33])
    requires
        point_decodes(a@),
        point_decodes(b@),
    ensures
        r@ == ec_sub(a@, b@),
        point_decodes(r@),
{
    let p = Point::<Secp256k1>::from_bytes(a).unwrap();
    let q = Point::<Secp256k1>::from_bytes(b).unwrap();
    let mut out = [0u8; 33];
    out.copy_from_slice(&(p - q).to_bytes(true));
    out
}

impl GE {
    #[verifier::type_invariant]
    pub(crate) open spec fn on_curve(&self) -> bool {
        point_decodes(self.bytes@)
    }

    /// The point that the 33 bytes of `bytes` encode in compressed form, or
    /// `None` where they encode none or are not 33.
    pub fn from_bytes(bytes: &[u8]) -> (r: Option<GE>)
        ensures
            match r {
                Some(point) => point@ == bytes@,
                None => bytes@.len() != 33 || !point_decodes(bytes@),
            },
            r is Some ==> bytes@.len() == 33 && point_decodes(bytes@),
    {
        if bytes.len() != 33 {
            return None;
        }
        let mut copy = [0u8; 33];
        let mut i: usize = 0;
        while i < 33
            invariant
                i <= 33,
                bytes@.len() == 33,
                forall|j: int| 0 <= j < i ==> copy@[j] == bytes@[j],
            decreases 33 - i,
        {
            copy[i] = bytes[i];
            i += 1;
        }
        assert(copy@ =~= bytes@);
        if curve_decodes(&copy) {
            Some(GE { bytes: copy })
        } else {
            None
        }
    }

    /// The compressed encoding of the point.
    pub fn to_bytes(&self) -> (r: [u8; 33])
        ensures
            r@ == self@,
            point_decodes(r@),
    {
        proof {
            use_type_invariant(self);
        }
        self.bytes
    }

    /// The point times `scalar`.
    pub fn mul(&self, scalar: &FE) -> (r: GE)
        ensures
            r@ == ec_mul(self@, scalar@),
    {
        proof {
            use_type_invariant(self);
        }
        GE { bytes: curve_mul(&self.bytes, &scalar.bytes) }
    }

    /// The sum of the point and `other`.
    pub fn add(&self, other: &GE) -> (r: GE)
        ensures
            r@ == ec_add(self@, other@),
    {
        proof {
            use_type_invariant(self);
            use_type_invariant(other);
        }
        GE { bytes: curve_add(&self.bytes, &other.bytes) }
    }

    /// The point minus `other`.
    pub fn sub_point(&self, other: &GE) -> (r: GE)
        ensures
            r@ == ec_sub(self@, other@),
    {
        proof {
            use_type_invariant(self);
            use_type_invariant(other);
        }
        GE { bytes: curve_sub(&self.bytes, &other.bytes) }
    }

    /// Whether the two points are the same point.
    pub fn same(&self, other: &GE) -> (r: bool)
        ensures
            r == (self@ == other@),
    {
        let mut i: usize = 0;
        while i < 33
            invariant
                i <= 33,
                forall|j: int| 0 <= j < i ==> self.bytes@[j] == other.bytes@[j],
            decreases 33 - i,
        {
            if self.bytes[i] != other.bytes[i] {
                return false;
            }
            i += 1;
        }
        assert(self.bytes@ =~= other.bytes@);
        true
    }
}

} // verus!
