//! What holds of segmentation, encryption and decryption taken together.
//!
//! The curve arithmetic is not defined in this crate, only named. Where a
//! statement rests on the algebra of the group, it says so in its hypotheses:
//! [`mask_cancels`] and [`generator_separates`] hold in every group of prime
//! order, and nothing here proves them of the curve.

use crate::juggling::segmentation::{
    decryption, decrypts_to, encrypts, lemma_plaintext_unique, opens, plaintexts, segment_ciphertext,
    segment_plaintext, unmasked, MAX_SEGMENT_SIZE,
};
use crate::juggling::server::{hElGamal, hElGamalSegmented, Witness};
use crate::numeric::{
    lemma_segment_bounds, lemma_segments_recompose, segment_value, segments_of, weighted_sum,
};
use crate::point::{ec_add, ec_mul, ec_sub};
use crate::scalar::group_order;
use vstd::arithmetic::div_mod::lemma_small_mod;
use vstd::arithmetic::power2::pow2;
use vstd::prelude::*;

verus! {

/// Whether taking the mask `private_key * E` off the ciphertext of `x` leaves
/// `x * g`, for the key pair `(private_key, private_key * g)` and the
/// randomizer `random`:
/// `(random * (private_key * g) + x * g) - private_key * (random * g) == x * g`.
pub open spec fn mask_cancels(g: Seq<u8>, private_key: nat, random: nat, x: nat) -> bool {
    ec_sub(
        ec_add(ec_mul(ec_mul(g, private_key), random), ec_mul(g, x)),
        ec_mul(ec_mul(g, random), private_key),
    ) == ec_mul(g, x)
}

/// Whether the multiples of `g` by the numbers below `2^width` are all
/// different.
pub open spec fn generator_separates(g: Seq<u8>, width: nat) -> bool {
    forall|a: nat, b: nat| a < b < pow2(width) ==> ec_mul(g, a) != ec_mul(g, b)
}

/// Segments that cover every bit of a scalar put it back together: for
/// `secret` below `2^(count * width)`, the positional sum of its first `count`
/// segments, as a scalar, is `secret`.
pub proof fn lemma_segments_round_trip(secret: nat, width: nat, count: nat)
    requires
        secret < group_order(),
        secret < pow2(count * width),
    ensures
        weighted_sum(segments_of(secret, width, count), width) % group_order() == secret,
{
    lemma_segments_recompose(secret, width, count);
    lemma_small_mod(secret, pow2(count * width));
    lemma_small_mod(secret, group_order());
}

/// A ciphertext that opens to zero decrypts to zero, whatever else it might
/// open to.
pub proof fn lemma_zero_segment_decrypts(pair: hElGamal, g: Seq<u8>, private_key: nat, width: nat)
    requires
        width <= MAX_SEGMENT_SIZE,
        opens(unmasked(pair, private_key), g, 0),
    ensures
        segment_plaintext(pair, g, private_key, width) == Some(0nat),
{
    vstd::arithmetic::power2::lemma_pow2_pos(width);
    lemma_plaintext_unique(pair, g, private_key, width, 0);
}

/// Every value below `2^width` is recovered: a ciphertext that opens to `x`
/// decrypts to `x`, provided that no smaller number has the same multiple of
/// `g`.
pub proof fn lemma_decrypt_recovers(pair: hElGamal, g: Seq<u8>, private_key: nat, width: nat, x: nat)
    requires
        width <= MAX_SEGMENT_SIZE,
        x < pow2(width),
        opens(unmasked(pair, private_key), g, x),
        forall|t: nat| t < x ==> ec_mul(g, t) != ec_mul(g, x),
    ensures
        segment_plaintext(pair, g, private_key, width) == Some(x),
{
    lemma_plaintext_unique(pair, g, private_key, width, x);
}

/// What decryption returns is never a silent wrong answer: the value it
/// gives opens the ciphertext under the key that was used, and where no value
/// below `2^width` does, it gives none.
pub proof fn lemma_decrypt_is_sound(pair: hElGamal, g: Seq<u8>, private_key: nat, width: nat)
    ensures
        match segment_plaintext(pair, g, private_key, width) {
            Some(x) => x < pow2(width) && ec_mul(g, x) == unmasked(pair, private_key),
            None => width > MAX_SEGMENT_SIZE || forall|t: nat|
                t < pow2(width) ==> ec_mul(g, t) != unmasked(pair, private_key),
        },
{
    if segment_plaintext(pair, g, private_key, width) is None {
        if width <= MAX_SEGMENT_SIZE {
            assert forall|t: nat| t < pow2(width) implies ec_mul(g, t) != unmasked(
                pair,
                private_key,
            ) by {
                if ec_mul(g, t) == unmasked(pair, private_key) {
                    lemma_least_opening(unmasked(pair, private_key), g, t);
                    let x = choose|x: nat|
                        x <= t && opens(unmasked(pair, private_key), g, x) && forall|u: nat|
                            u < x ==> !opens(unmasked(pair, private_key), g, u);
                    assert(decrypts_to(pair, g, private_key, width, x));
                }
            }
        }
    }
}

/// Among the numbers up to one that opens `target` there is a least one that
/// does.
proof fn lemma_least_opening(target: Seq<u8>, g: Seq<u8>, t: nat)
    requires
        opens(target, g, t),
    ensures
        exists|x: nat|
            x <= t && opens(target, g, x) && forall|u: nat| u < x ==> !opens(target, g, u),
    decreases t,
{
    if exists|u: nat| u < t && opens(target, g, u) {
        let u = choose|u: nat| u < t && opens(target, g, u);
        lemma_least_opening(target, g, u);
        let x = choose|x: nat|
            x <= u && opens(target, g, x) && forall|v: nat| v < x ==> !opens(target, g, v);
        assert(x <= t && opens(target, g, x) && forall|v: nat| v < x ==> !opens(target, g, v));
    } else {
        assert(t <= t && opens(target, g, t) && forall|v: nat| v < t ==> !opens(target, g, v));
    }
}

/// Decryption undoes encryption. Let `secret` be a scalar below
/// `2^(count * width)`, encrypted in `count` segments of `width` bits under
/// the public key `private_key * g`. If the mask cancels for each segment and
/// its randomizer, and `g` separates the numbers below `2^width`, then the
/// ciphertext decrypts under `private_key` to `secret`.
pub proof fn lemma_encrypt_decrypt_round_trip(
    witness: Witness,
    cipher: hElGamalSegmented,
    secret: nat,
    width: nat,
    count: nat,
    private_key: nat,
    g: Seq<u8>,
)
    requires
        secret < group_order(),
        secret < pow2(count * width),
        width <= MAX_SEGMENT_SIZE,
        encrypts(witness, cipher, secret, width, count, ec_mul(g, private_key), g),
        generator_separates(g, width),
        forall|i: int|
            0 <= i < count ==> mask_cancels(
                g,
                private_key,
                (#[trigger] witness.r_vec@[i])@,
                segment_value(secret, width, i as nat),
            ),
    ensures
        decryption(cipher.DE@, g, private_key, width) == Some(secret),
{
    let pairs = cipher.DE@;
    assert forall|i: int| 0 <= i < pairs.len() implies segment_plaintext(
        pairs[i],
        g,
        private_key,
        width,
    ) == Some(segment_value(secret, width, i as nat)) by {
        let x = segment_value(secret, width, i as nat);
        let random = witness.r_vec@[i]@;
        assert((pairs[i].D@, pairs[i].E@) == segment_ciphertext(
            secret,
            random,
            width,
            i as nat,
            ec_mul(g, private_key),
            g,
        ));
        assert(mask_cancels(g, private_key, random, x));
        lemma_segment_bounds(secret, width, i as nat);
        assert forall|t: nat| t < x implies ec_mul(g, t) != ec_mul(g, x) by {
            assert(t < x < pow2(width));
        }
        lemma_decrypt_recovers(pairs[i], g, private_key, width, x);
    }
    assert(plaintexts(pairs, g, private_key, width).unwrap() =~= segments_of(secret, width, count));
    lemma_segments_round_trip(secret, width, count);
}

} // verus!
