//! Cutting a secret into segments, encrypting each, and the way back.

use crate::bignat::BigNat;
use crate::errors::Errors;
use crate::juggling::server::{hElGamal, hElGamalSegmented, Witness};
use crate::numeric::{
    lemma_mask_and_shift, lemma_segment_beyond_length, lemma_segment_bounds,
    lemma_segment_clipped, lemma_weighted_sum_step, segment_value, segments_of, weighted_sum,
};
use crate::point::{ec_add, ec_mul, ec_sub, GE};
use crate::scalar::{group_order, lemma_group_order_bounds, FE};
use vstd::arithmetic::div_mod::{
    lemma_add_mod_noop, lemma_mul_mod_noop, lemma_mul_mod_noop_left, lemma_mul_mod_noop_right,
    lemma_small_mod,
};
use vstd::arithmetic::power2::{
    lemma2_to64, lemma_pow2, lemma_pow2_adds, lemma_pow2_pos, lemma_pow2_strictly_increases,
    lemma_pow2_unfold, pow2,
};
use vstd::prelude::*;

verus! {

/// The widest segment that decryption searches for. A wider one is refused,
/// since the search visits up to `2^width` candidates.
pub const MAX_SEGMENT_SIZE: usize = 32;

/// What is left of a ciphertext once the holder of `private_key` has taken
/// the mask off: `D - private_key * E`.
pub open spec fn unmasked(pair: hElGamal, private_key: nat) -> Seq<u8> {
    ec_sub(pair.D@, ec_mul(pair.E@, private_key))
}

/// Whether `candidate * g` is the point `target`.
pub open spec fn opens(target: Seq<u8>, g: Seq<u8>, candidate: nat) -> bool {
    ec_mul(g, candidate) == target
}

/// Whether `x` is what the segment ciphertext `pair` decrypts to: the width
/// is within the limit, and `x` is the least number below `2^width` whose
/// multiple of `g` is the unmasked point.
pub open spec fn decrypts_to(pair: hElGamal, g: Seq<u8>, private_key: nat, width: nat, x: nat) -> bool {
    &&& width <= MAX_SEGMENT_SIZE
    &&& x < pow2(width)
    &&& opens(unmasked(pair, private_key), g, x)
    &&& forall|t: nat| t < x ==> !opens(unmasked(pair, private_key), g, t)
}

/// The plaintext of the segment ciphertext `pair`, or `None` where the search
/// finds none.
pub open spec fn segment_plaintext(pair: hElGamal, g: Seq<u8>, private_key: nat, width: nat) -> Option<nat> {
    if exists|x: nat| decrypts_to(pair, g, private_key, width, x) {
        Some(choose|x: nat| decrypts_to(pair, g, private_key, width, x))
    } else {
        None
    }
}

/// A ciphertext decrypts to at most one value.
pub proof fn lemma_plaintext_unique(pair: hElGamal, g: Seq<u8>, private_key: nat, width: nat, x: nat)
    requires
        decrypts_to(pair, g, private_key, width, x),
    ensures
        segment_plaintext(pair, g, private_key, width) == Some(x),
{
    let y = choose|y: nat| decrypts_to(pair, g, private_key, width, y);
    if y < x {
        assert(!opens(unmasked(pair, private_key), g, y));
    }
    if x < y {
        assert(!opens(unmasked(pair, private_key), g, x));
    }
}

/// The numbers that the scalars of `scalars` stand for, in order.
pub open spec fn scalar_values(scalars: Seq<FE>) -> Seq<nat> {
    Seq::new(scalars.len(), |i: int| scalars[i]@)
}

/// The weight of position `index` for segments of `width` bits, as a scalar:
/// `2^(index * width) mod group_order`.
pub open spec fn position_weight(width: nat, index: nat) -> nat {
    pow2(index * width) % group_order()
}

/// The positional sum of points: the first point, plus the second times
/// `2^width`, plus the third times `2^(2 * width)` and so on, added from the
/// left. The weights are scalars, hence taken modulo the group order.
pub open spec fn weighted_point_sum(points: Seq<GE>, width: nat) -> Seq<u8>
    recommends
        points.len() > 0,
    decreases points.len(),
{
    if points.len() <= 1 {
        points[0]@
    } else {
        ec_add(
            weighted_point_sum(points.drop_last(), width),
            ec_mul(points.last()@, position_weight(width, (points.len() - 1) as nat)),
        )
    }
}

/// The ciphertext `(D, E)` of segment `index` of `secret` under the key
/// `pub_key`, with the randomizer `random`: `E = random * g` and
/// `D = random * pub_key + segment * g`.
pub open spec fn segment_ciphertext(
    secret: nat,
    random: nat,
    width: nat,
    index: nat,
    pub_key: Seq<u8>,
    g: Seq<u8>,
) -> (Seq<u8>, Seq<u8>) {
    (
        ec_add(ec_mul(pub_key, random), ec_mul(g, segment_value(secret, width, index))),
        ec_mul(g, random),
    )
}

/// Whether `witness` and `cipher` are an encryption of `secret` in `count`
/// segments of `width` bits under `pub_key`: the witness holds the plaintext
/// segments and one randomizer for each, and each ciphertext is that of its
/// segment with its randomizer.
pub open spec fn encrypts(
    witness: Witness,
    cipher: hElGamalSegmented,
    secret: nat,
    width: nat,
    count: nat,
    pub_key: Seq<u8>,
    g: Seq<u8>,
) -> bool {
    &&& witness.r_vec@.len() == count
    &&& cipher.DE@.len() == count
    &&& scalar_values(witness.x_vec@) == segments_of(secret, width, count)
    &&& forall|i: int|
        0 <= i < count ==> (#[trigger] cipher.DE@[i].D@, cipher.DE@[i].E@) == segment_ciphertext(
            secret,
            witness.r_vec@[i]@,
            width,
            i as nat,
            pub_key,
            g,
        )
}

/// The plaintexts of all segment ciphertexts in order, or `None` where one of
/// them has none.
pub open spec fn plaintexts(pairs: Seq<hElGamal>, g: Seq<u8>, private_key: nat, width: nat) -> Option<
    Seq<nat>,
> {
    if forall|i: int| 0 <= i < pairs.len() ==> segment_plaintext(pairs[i], g, private_key, width) is Some {
        Some(
            Seq::new(pairs.len(), |i: int| segment_plaintext(pairs[i], g, private_key, width).unwrap()),
        )
    } else {
        None
    }
}

/// The secret that a segmented ciphertext decrypts to: the positional sum of
/// the segment plaintexts, as a scalar.
pub open spec fn decryption(pairs: Seq<hElGamal>, g: Seq<u8>, private_key: nat, width: nat) -> Option<
    nat,
> {
    match plaintexts(pairs, g, private_key, width) {
        Some(values) => Some(weighted_sum(values, width) % group_order()),
        None => None,
    }
}

#[allow(non_camel_case_types)]
pub struct mSegmentation;

impl mSegmentation {
    /// The `k`-th segment of `secret`: its bits
    /// `[k * segment_size, (k + 1) * segment_size)`, moved down to position
    /// zero. A segment that lies wholly above the secret's bits is zero.
    pub fn get_segment_k(secret: &FE, segment_size: &usize, k: u8) -> (r: FE)
        ensures
            r@ == segment_value(secret@, *segment_size as nat, k as nat),
            secret@ < pow2(k as nat * *segment_size as nat) ==> r@ == 0,
    {
        proof {
            if secret@ < pow2(k as nat * *segment_size as nat) {
                lemma_segment_beyond_length(secret@, *segment_size as nat, k as nat);
            }
        }
        segment_at(secret, *segment_size, k as usize)
    }

    /// Encrypts the `k`-th segment of `secret` under `pub_ke_y` with the
    /// randomizer `random`.
    #[allow(non_snake_case)]
    pub fn encrypt_segment_k(
        secret: &FE,
        random: &FE,
        segment_size: &usize,
        k: u8,
        pub_ke_y: &GE,
        G: &GE,
    ) -> (r: hElGamal)
        ensures
            (r.D@, r.E@) == segment_ciphertext(
                secret@,
                random@,
                *segment_size as nat,
                k as nat,
                pub_ke_y@,
                G@,
            ),
    {
        encrypt_at(secret, random, *segment_size, k as usize, pub_ke_y, G)
    }

    /// Puts segment values back together: the sum of `segments[i] *
    /// 2^(i * segment_size)` in the scalar field.
    pub fn assemble_fe(segments: &Vec<FE>, segment_size: &usize) -> (r: FE)
        requires
            segments.len() > 0,
        ensures
            r@ == weighted_sum(scalar_values(segments@), *segment_size as nat) % group_order(),
    {
        let ghost values = scalar_values(segments@);
        let ghost width = *segment_size as nat;
        let step = weight_of(*segment_size);
        let mut weight = FE::from_big_int(&BigNat::from_u8(1));
        let seg1 = &segments[0];
        let mut seg_sum = *seg1;
        proof {
            use_type_invariant(seg1);
            lemma_group_order_bounds();
            lemma2_to64();
            lemma_small_mod(1, group_order());
            lemma_small_mod(seg1@, group_order());
            assert(values.take(1).drop_last() =~= Seq::<nat>::empty());
            assert(weighted_sum(values.take(1).drop_last(), width) == 0);
            assert(weighted_sum(values.take(1), width) == values[0] * pow2(0));
        }
        let mut i: usize = 1;
        while i < segments.len()
            invariant
                1 <= i <= segments.len(),
                values == scalar_values(segments@),
                width == *segment_size as nat,
                step@ == pow2(width) % group_order(),
                weight@ == position_weight(width, (i - 1) as nat),
                seg_sum@ == weighted_sum(values.take(i as int), width) % group_order(),
            decreases segments.len() - i,
        {
            weight = weight.mul(&step);
            let shifted_segment = segments[i].mul(&weight);
            proof {
                lemma_next_weight(width, (i - 1) as nat);
                lemma_weighted_sum_step(values, width, i as int);
                let term = values[i as int] * pow2((i * width) as nat);
                lemma_mul_mod_noop_right(
                    values[i as int] as int,
                    pow2((i * width) as nat) as int,
                    group_order() as int,
                );
                lemma_add_mod_noop(
                    weighted_sum(values.take(i as int), width) as int,
                    term as int,
                    group_order() as int,
                );
            }
            seg_sum = seg_sum.add(&shifted_segment);
            i += 1;
        }
        proof {
            assert(values.take(i as int) =~= values);
        }
        seg_sum
    }

    /// Puts points back together as `assemble_fe` does scalars: the first
    /// point, plus each later point `segments[i]` times the scalar
    /// `2^(i * segment_size)`, added from the left.
    pub fn assemble_ge(segments: &Vec<GE>, segment_size: &usize) -> (r: GE)
        requires
            segments.len() > 0,
        ensures
            r@ == weighted_point_sum(segments@, *segment_size as nat),
    {
        let ghost width = *segment_size as nat;
        let step = weight_of(*segment_size);
        let mut weight = FE::from_big_int(&BigNat::from_u8(1));
        let mut seg_sum = segments[0];
        proof {
            lemma_group_order_bounds();
            lemma2_to64();
            lemma_small_mod(1, group_order());
            assert(position_weight(width, 0) == 1) by {
                assert(0 * width == 0);
            }
            assert(segments@.take(1)[0] == segments@[0]);
        }
        let mut i: usize = 1;
        while i < segments.len()
            invariant
                1 <= i <= segments.len(),
                width == *segment_size as nat,
                step@ == pow2(width) % group_order(),
                weight@ == position_weight(width, (i - 1) as nat),
                seg_sum@ == weighted_point_sum(segments@.take(i as int), width),
            decreases segments.len() - i,
        {
            weight = weight.mul(&step);
            let shifted_segment = segments[i].mul(&weight);
            proof {
                lemma_next_weight(width, (i - 1) as nat);
                assert(segments@.take(i + 1).drop_last() =~= segments@.take(i as int));
                assert(segments@.take(i + 1).last() == segments@[i as int]);
            }
            seg_sum = seg_sum.add(&shifted_segment);
            i += 1;
        }
        proof {
            assert(segments@.take(i as int) =~= segments@);
        }
        seg_sum
    }

    /// Cuts `secret` into `num_of_segments` segments and encrypts each under
    /// `pub_ke_y` with a randomizer of its own, freshly drawn. Returns the
    /// witness, which holds the segments and the randomizers, and the
    /// ciphertexts, least significant segment first.
    #[allow(non_snake_case)]
    pub fn to_encrypted_segments(
        secret: &FE,
        segment_size: &usize,
        num_of_segments: usize,
        pub_ke_y: &GE,
        G: &GE,
    ) -> (r: (Witness, hElGamalSegmented))
        ensures
            encrypts(
                r.0,
                r.1,
                secret@,
                *segment_size as nat,
                num_of_segments as nat,
                pub_ke_y@,
                G@,
            ),
            forall|i: int| 0 <= i < num_of_segments ==> 0 < (#[trigger] r.0.r_vec@[i])@ < group_order(),
    {
        let mut r_vec: Vec<FE> = Vec::new();
        let mut i: usize = 0;
        while i < num_of_segments
            invariant
                i <= num_of_segments,
                r_vec@.len() == i,
                forall|j: int| 0 <= j < i ==> 0 < (#[trigger] r_vec@[j])@ < group_order(),
            decreases num_of_segments - i,
        {
            r_vec.push(FE::new_random());
            i += 1;
        }
        mSegmentation::encrypt_with_randomizers(secret, r_vec, segment_size, pub_ke_y, G)
    }

    /// Cuts `secret` into as many segments as there are randomizers in
    /// `r_vec` and encrypts segment `i` under `pub_ke_y` with `r_vec[i]`.
    #[allow(non_snake_case)]
    pub fn encrypt_with_randomizers(
        secret: &FE,
        r_vec: Vec<FE>,
        segment_size: &usize,
        pub_ke_y: &GE,
        G: &GE,
    ) -> (r: (Witness, hElGamalSegmented))
        ensures
            r.0.r_vec@ == r_vec@,
            encrypts(r.0, r.1, secret@, *segment_size as nat, r_vec@.len(), pub_ke_y@, G@),
    {
        let num_of_segments = r_vec.len();
        let mut segmented_enc: Vec<hElGamal> = Vec::new();
        let mut x_vec: Vec<FE> = Vec::new();
        let mut i: usize = 0;
        while i < num_of_segments
            invariant
                i <= num_of_segments == r_vec@.len(),
                segmented_enc@.len() == i,
                x_vec@.len() == i,
                forall|j: int|
                    0 <= j < i ==> (#[trigger] x_vec@[j])@ == segment_value(
                        secret@,
                        *segment_size as nat,
                        j as nat,
                    ),
                forall|j: int|
                    0 <= j < i ==> (#[trigger] segmented_enc@[j].D@, segmented_enc@[j].E@)
                        == segment_ciphertext(
                        secret@,
                        r_vec@[j]@,
                        *segment_size as nat,
                        j as nat,
                        pub_ke_y@,
                        G@,
                    ),
            decreases num_of_segments - i,
        {
            segmented_enc.push(encrypt_at(secret, &r_vec[i], *segment_size, i, pub_ke_y, G));
            x_vec.push(segment_at(secret, *segment_size, i));
            i += 1;
        }
        proof {
            assert(scalar_values(x_vec@) =~= segments_of(
                secret@,
                *segment_size as nat,
                num_of_segments as nat,
            ));
        }
        let w = Witness { x_vec, r_vec };
        let heg_segmented = hElGamalSegmented { DE: segmented_enc };
        (w, heg_segmented)
    }

    /// Decrypts one segment by trying `0, 1, 2, ...` below `2^segment_size`
    /// in turn and returning the first candidate `t` with
    /// `t * G == D - private_key * E`.
    ///
    /// Fails with `ErrorDecrypting` where no candidate fits, and for every
    /// `segment_size` above [`MAX_SEGMENT_SIZE`].
    #[allow(non_snake_case)]
    pub fn decrypt_segment(DE: &hElGamal, G: &GE, private_key: &FE, segment_size: &usize) -> (r: Result<
        FE,
        Errors,
    >)
        ensures
            match r {
                Ok(x) => segment_plaintext(*DE, G@, private_key@, *segment_size as nat) == Some(x@),
                Err(e) => e == Errors::ErrorDecrypting && segment_plaintext(
                    *DE,
                    G@,
                    private_key@,
                    *segment_size as nat,
                ) is None,
            },
    {
        if *segment_size > MAX_SEGMENT_SIZE {
            return Err(Errors::ErrorDecrypting);
        }
        let yE = DE.E.mul(private_key);
        let D_minus_yE = DE.D.sub_point(&yE);
        let limit = power_of_two(*segment_size);
        let ghost target = unmasked(*DE, private_key@);
        let mut t: u64 = 0;
        while t < limit
            invariant
                t <= limit,
                limit == pow2(*segment_size as nat),
                *segment_size <= MAX_SEGMENT_SIZE,
                target == unmasked(*DE, private_key@),
                D_minus_yE@ == target,
                forall|u: nat| u < t ==> !opens(target, G@, u),
            decreases limit - t,
        {
            let test_fe = FE::from_big_int(&BigNat::from_u64(t));
            proof {
                lemma_small_mod(t as nat, group_order());
            }
            let test_ge = G.mul(&test_fe);
            if test_ge.same(&D_minus_yE) {
                proof {
                    lemma_plaintext_unique(*DE, G@, private_key@, *segment_size as nat, t as nat);
                }
                return Ok(test_fe);
            }
            t += 1;
        }
        Err(Errors::ErrorDecrypting)
    }

    /// Decrypts every segment in order and puts the plaintexts back together
    /// with `assemble_fe`. Fails with `ErrorDecrypting` as soon as one segment
    /// does not decrypt.
    #[allow(non_snake_case)]
    pub fn decrypt(DE_vec: &hElGamalSegmented, G: &GE, private_key: &FE, segment_size: &usize) -> (r:
        Result<FE, Errors>)
        requires
            DE_vec.DE@.len() > 0,
        ensures
            match r {
                Ok(secret) => decryption(DE_vec.DE@, G@, private_key@, *segment_size as nat) == Some(
                    secret@,
                ),
                Err(e) => e == Errors::ErrorDecrypting && decryption(
                    DE_vec.DE@,
                    G@,
                    private_key@,
                    *segment_size as nat,
                ) is None,
            },
    {
        let ghost width = *segment_size as nat;
        let mut vec_secret: Vec<FE> = Vec::new();
        let mut i: usize = 0;
        while i < DE_vec.DE.len()
            invariant
                i <= DE_vec.DE@.len(),
                vec_secret@.len() == i,
                width == *segment_size as nat,
                forall|j: int|
                    0 <= j < i ==> segment_plaintext(DE_vec.DE@[j], G@, private_key@, width) == Some(
                        (#[trigger] vec_secret@[j])@,
                    ),
            decreases DE_vec.DE@.len() - i,
        {
            match mSegmentation::decrypt_segment(&DE_vec.DE[i], G, private_key, segment_size) {
                Ok(result) => vec_secret.push(result),
                Err(e) => {
                    return Err(e);
                },
            }
            i += 1;
        }
        proof {
            let values = plaintexts(DE_vec.DE@, G@, private_key@, width);
            assert forall|j: int| 0 <= j < DE_vec.DE@.len() implies segment_plaintext(
                DE_vec.DE@[j],
                G@,
                private_key@,
                width,
            ) == Some(vec_secret@[j]@) by {
                let _ = vec_secret@[j];
            }
            assert(values is Some);
            assert(values.unwrap() =~= scalar_values(vec_secret@));
        }
        Ok(mSegmentation::assemble_fe(&vec_secret, segment_size))
    }
}

/// Encrypts the segment of `secret` at `index`, for an index of any size.
#[allow(non_snake_case)]
fn encrypt_at(secret: &FE, random: &FE, width: usize, index: usize, pub_ke_y: &GE, G: &GE) -> (r:
    hElGamal)
    ensures
        (r.D@, r.E@) == segment_ciphertext(
            secret@,
            random@,
            width as nat,
            index as nat,
            pub_ke_y@,
            G@,
        ),
{
    let segment_k = segment_at(secret, width, index);
    let E_k = G.mul(random);
    let r_kY = pub_ke_y.mul(random);
    let x_kG = G.mul(&segment_k);
    let D_k = r_kY.add(&x_kG);
    hElGamal { D: D_k, E: E_k }
}

/// The weight of the next position is the weight of this one times `2^width`.
proof fn lemma_next_weight(width: nat, index: nat)
    ensures
        (position_weight(width, index) * (pow2(width) % group_order())) % group_order()
            == position_weight(width, index + 1),
{
    lemma_pow2_adds(index * width, width);
    assert(index * width + width == (index + 1) * width) by (nonlinear_arith);
    lemma_mul_mod_noop(pow2(index * width) as int, pow2(width) as int, group_order() as int);
}

/// `2^exponent` as a scalar, by squaring.
fn weight_of(exponent: usize) -> (r: FE)
    ensures
        r@ == pow2(exponent as nat) % group_order(),
    decreases exponent,
{
    proof {
        lemma_group_order_bounds();
        lemma2_to64();
    }
    if exponent == 0 {
        proof {
            lemma_small_mod(1, group_order());
        }
        FE::from_big_int(&BigNat::from_u8(1))
    } else {
        let half = weight_of(exponent / 2);
        let square = half.mul(&half);
        let ghost h = (exponent / 2) as nat;
        proof {
            lemma_pow2_adds(h, h);
            lemma_mul_mod_noop(pow2(h) as int, pow2(h) as int, group_order() as int);
        }
        if exponent % 2 == 1 {
            let two = FE::from_big_int(&BigNat::from_u8(2));
            proof {
                lemma_small_mod(2, group_order());
                lemma_pow2_unfold(exponent as nat);
                lemma_mul_mod_noop_left(pow2(h + h) as int, 2, group_order() as int);
            }
            square.mul(&two)
        } else {
            square
        }
    }
}

/// The number of bits that hold any scalar.
const SCALAR_BITS: usize = 256;

/// The segment of `secret` at `index`, for an index of any size.
fn segment_at(secret: &FE, width: usize, index: usize) -> (r: FE)
    ensures
        r@ == segment_value(secret@, width as nat, index as nat),
{
    let ss_bn = secret.to_big_int();
    let ghost s = secret@;
    proof {
        lemma_group_order_bounds();
        lemma_segment_bounds(s, width as nat, index as nat);
        lemma_small_mod(segment_value(s, width as nat, index as nat), group_order());
    }
    let lsb = match index.checked_mul(width) {
        Some(lsb) if lsb < SCALAR_BITS => lsb,
        _ => {
            proof {
                if index * width > 256 {
                    lemma_pow2_strictly_increases(256, (index * width) as nat);
                }
                lemma_segment_beyond_length(s, width as nat, index as nat);
            }
            return FE::from_big_int(&BigNat::from_u8(0));
        },
    };
    let msb = if width >= SCALAR_BITS - lsb {
        SCALAR_BITS
    } else {
        lsb + width
    };
    let two_bn = BigNat::from_u8(2);
    let one = BigNat::from_u8(1);
    proof {
        lemma_pow2(msb as nat);
        lemma_pow2(lsb as nat);
        lemma_pow2_pos(lsb as nat);
        lemma_mask_and_shift(s, lsb as nat, msb as nat);
        if msb - lsb < width {
            lemma_segment_clipped(s, lsb as nat, width as nat, msb as nat);
        }
    }
    let max = two_bn.pow(msb as u32).sub(&one);
    let min = two_bn.pow(lsb as u32).sub(&one);
    let mask = max.sub(&min);
    let segment_k_bn = mask.bitand(&ss_bn);
    let segment_k_bn_rotated = segment_k_bn.shr(lsb);
    FE::from_big_int(&segment_k_bn_rotated)
}

/// `2^exponent`, for an exponent within the width limit.
fn power_of_two(exponent: usize) -> (r: u64)
    requires
        exponent <= MAX_SEGMENT_SIZE,
    ensures
        r == pow2(exponent as nat),
{
    let mut r: u64 = 1;
    let mut i: usize = 0;
    proof {
        lemma2_to64();
    }
    while i < exponent
        invariant
            i <= exponent <= MAX_SEGMENT_SIZE,
            r == pow2(i as nat),
            pow2(32) == 0x1_0000_0000,
        decreases exponent - i,
    {
        proof {
            lemma_pow2_unfold((i + 1) as nat);
            if i + 1 < 32 {
                lemma_pow2_strictly_increases((i + 1) as nat, 32);
            }
        }
        r = r * 2;
        i += 1;
    }
    r
}

} // verus!
