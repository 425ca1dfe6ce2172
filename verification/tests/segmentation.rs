use curv::arithmetic::{BasicOps, Converter};
use curv::elliptic::curves::{Point, Scalar, Secp256k1};
use curv::BigInt;
use escrow_recovery::bignat::BigNat;
use escrow_recovery::errors::Errors;
use escrow_recovery::juggling::segmentation::{mSegmentation, MAX_SEGMENT_SIZE};
use escrow_recovery::juggling::server::{hElGamal, hElGamalSegmented};
use escrow_recovery::point::GE;
use escrow_recovery::scalar::FE;

fn fe(value: u64) -> FE {
    FE::from_big_int(&BigNat::from_u64(value))
}

fn fe_of(scalar: &Scalar<Secp256k1>) -> FE {
    FE::from_big_int(&BigNat::from_bytes(scalar.to_bigint().to_bytes()))
}

fn scalar_of(value: &FE) -> Scalar<Secp256k1> {
    Scalar::from_bigint(&BigInt::from_bytes(&value.to_bytes()))
}

fn ge_of(point: &Point<Secp256k1>) -> GE {
    GE::from_bytes(&point.to_bytes(true)).unwrap()
}

fn point_of(value: &GE) -> Point<Secp256k1> {
    Point::from_bytes(&value.to_bytes()).unwrap()
}

fn generator() -> GE {
    ge_of(&Point::<Secp256k1>::generator().to_point())
}

fn key_pair() -> (FE, GE) {
    let y = FE::new_random();
    let public = generator().mul(&y);
    (y, public)
}

#[test]
fn test_m_segmentation() {
    let segment_size = 8;
    let y = FE::new_random();
    let g = generator();
    let public = g.mul(&y);
    let x = FE::new_random();
    let (segments, encryptions) =
        mSegmentation::to_encrypted_segments(&x, &segment_size, 32, &public, &g);
    let secret_new = mSegmentation::assemble_fe(&segments.x_vec, &segment_size);
    let secret_decrypted = mSegmentation::decrypt(&encryptions, &g, &y, &segment_size);
    assert_eq!(x, secret_new);
    assert_eq!(Ok(x), secret_decrypted);
}

#[test]
fn segments_of_181_are_5_and_11() {
    let secret = fe(0b10110101);
    assert_eq!(mSegmentation::get_segment_k(&secret, &4, 0), fe(0b0101));
    assert_eq!(mSegmentation::get_segment_k(&secret, &4, 1), fe(0b1011));
}

#[test]
fn assemble_5_and_11_gives_181() {
    let segments = vec![fe(5), fe(11)];
    assert_eq!(mSegmentation::assemble_fe(&segments, &4), fe(181));
}

#[test]
fn encrypt_and_decrypt_181() {
    let (y, public) = key_pair();
    let g = generator();
    let secret = fe(181);
    let (witness, cipher) = mSegmentation::to_encrypted_segments(&secret, &4, 2, &public, &g);
    assert_eq!(witness.x_vec, vec![fe(5), fe(11)]);
    assert_eq!(witness.r_vec.len(), 2);
    assert_eq!(cipher.DE.len(), 2);
    assert_eq!(mSegmentation::decrypt(&cipher, &g, &y, &4), Ok(fe(181)));
}

#[test]
fn segment_is_shifted_down_and_masked() {
    let secret = fe(0xABCD_EF01_2345_6789);
    assert_eq!(mSegmentation::get_segment_k(&secret, &16, 0), fe(0x6789));
    assert_eq!(mSegmentation::get_segment_k(&secret, &16, 1), fe(0x2345));
    assert_eq!(mSegmentation::get_segment_k(&secret, &16, 2), fe(0xEF01));
    assert_eq!(mSegmentation::get_segment_k(&secret, &16, 3), fe(0xABCD));
    assert_eq!(mSegmentation::get_segment_k(&secret, &12, 1), fe(0x456));
    assert_eq!(mSegmentation::get_segment_k(&secret, &1, 0), fe(1));
    assert_eq!(mSegmentation::get_segment_k(&secret, &1, 1), fe(0));
}

#[test]
fn segment_beyond_bit_length_is_zero() {
    let secret = fe(181);
    assert_eq!(mSegmentation::get_segment_k(&secret, &4, 2), fe(0));
    assert_eq!(mSegmentation::get_segment_k(&secret, &4, 255), fe(0));
    assert_eq!(mSegmentation::get_segment_k(&secret, &8, 31), fe(0));
    let full = FE::new_random();
    assert_eq!(mSegmentation::get_segment_k(&full, &8, 32), fe(0));
    assert_eq!(mSegmentation::get_segment_k(&full, &8, 255), fe(0));
    assert_eq!(mSegmentation::get_segment_k(&full, &256, 1), fe(0));
}

#[test]
fn segment_of_any_width() {
    let secret = FE::new_random();
    assert_eq!(mSegmentation::get_segment_k(&secret, &0, 0), fe(0));
    assert_eq!(mSegmentation::get_segment_k(&secret, &0, 7), fe(0));
    assert_eq!(mSegmentation::get_segment_k(&secret, &256, 0), secret);
    assert_eq!(mSegmentation::get_segment_k(&secret, &1000, 0), secret);
    assert_eq!(mSegmentation::get_segment_k(&secret, &usize::MAX, 0), secret);
    assert_eq!(mSegmentation::get_segment_k(&secret, &usize::MAX, 3), fe(0));
}

#[test]
fn top_segment_of_a_full_scalar() {
    let secret = FE::new_random();
    let value = BigInt::from_bytes(&secret.to_bytes());
    let expected = (&value >> 248usize) & BigInt::from(0xff);
    let top = mSegmentation::get_segment_k(&secret, &8, 31);
    assert_eq!(BigInt::from_bytes(&top.to_bytes()), expected);
    let wide = mSegmentation::get_segment_k(&secret, &100, 2);
    assert_eq!(BigInt::from_bytes(&wide.to_bytes()), &value >> 200usize);
}

#[test]
fn plaintext_round_trip() {
    for (segment_size, count) in [(8usize, 32usize), (16, 16), (1, 256), (13, 20), (32, 8), (256, 1), (300, 2)] {
        let secret = FE::new_random();
        let mut segments = Vec::new();
        for k in 0..count {
            segments.push(mSegmentation::get_segment_k(&secret, &segment_size, k as u8));
        }
        assert_eq!(mSegmentation::assemble_fe(&segments, &segment_size), secret);
    }
}

#[test]
fn too_few_segments_truncate_the_secret() {
    let secret = fe(0x1_2345);
    let segments = vec![
        mSegmentation::get_segment_k(&secret, &8, 0),
        mSegmentation::get_segment_k(&secret, &8, 1),
    ];
    assert_eq!(mSegmentation::assemble_fe(&segments, &8), fe(0x2345));
}

#[test]
fn assemble_one_segment_is_that_segment() {
    let x = FE::new_random();
    assert_eq!(mSegmentation::assemble_fe(&vec![x], &8), x);
    let p = generator().mul(&x);
    assert_eq!(mSegmentation::assemble_ge(&vec![p], &8), p);
}

#[test]
fn assemble_reduces_modulo_the_group_order() {
    let order = Scalar::<Secp256k1>::group_order();
    let a = FE::new_random();
    let b = FE::new_random();
    let c = FE::new_random();
    for segment_size in [0usize, 1, 7, 64, 200, 255, 256, 257, 1000] {
        let weight = BigInt::from(2).pow(segment_size as u32);
        let expected = (BigInt::from_bytes(&a.to_bytes())
            + BigInt::from_bytes(&b.to_bytes()) * &weight
            + BigInt::from_bytes(&c.to_bytes()) * &weight * &weight)
            % order;
        let sum = mSegmentation::assemble_fe(&vec![a, b, c], &segment_size);
        assert_eq!(BigInt::from_bytes(&sum.to_bytes()), expected);
    }
}

#[test]
fn assemble_ge_weights_points_as_assemble_fe_weights_scalars() {
    let g = generator();
    let scalars = vec![fe(5), fe(11), fe(200), FE::new_random()];
    let points: Vec<GE> = scalars.iter().map(|x| g.mul(x)).collect();
    for segment_size in [4usize, 8, 100] {
        let sum = mSegmentation::assemble_fe(&scalars, &segment_size);
        assert_eq!(mSegmentation::assemble_ge(&points, &segment_size), g.mul(&sum));
    }
}

#[test]
fn assemble_ge_of_two_points() {
    let g = Point::<Secp256k1>::generator().to_point();
    let p = &g * Scalar::<Secp256k1>::from(7u64);
    let q = &g * Scalar::<Secp256k1>::from(9u64);
    let expected = &p + &q * Scalar::<Secp256k1>::from(16u64);
    let sum = mSegmentation::assemble_ge(&vec![ge_of(&p), ge_of(&q)], &4);
    assert_eq!(point_of(&sum), expected);
}

#[test]
fn encrypt_segment_is_elgamal_in_the_exponent() {
    let g = Point::<Secp256k1>::generator().to_point();
    let y = Scalar::<Secp256k1>::random();
    let public = &g * &y;
    let r = Scalar::<Secp256k1>::random();
    let secret = fe(0xABCD);
    let pair =
        mSegmentation::encrypt_segment_k(&secret, &fe_of(&r), &8, 1, &ge_of(&public), &ge_of(&g));
    assert_eq!(point_of(&pair.E), &g * &r);
    assert_eq!(point_of(&pair.D), &public * &r + &g * Scalar::<Secp256k1>::from(0xABu64));
}

#[test]
fn zero_segment_decrypts_to_zero() {
    let (y, public) = key_pair();
    let g = generator();
    let secret = fe(0x0500);
    let pair = mSegmentation::encrypt_segment_k(&secret, &FE::new_random(), &8, 0, &public, &g);
    assert_eq!(mSegmentation::decrypt_segment(&pair, &g, &y, &8), Ok(fe(0)));
    let (_, cipher) = mSegmentation::to_encrypted_segments(&secret, &8, 3, &public, &g);
    assert_eq!(mSegmentation::decrypt(&cipher, &g, &y, &8), Ok(secret));
    let zero = fe(0);
    let (witness, cipher) = mSegmentation::to_encrypted_segments(&zero, &8, 2, &public, &g);
    assert_eq!(witness.x_vec, vec![zero, zero]);
    assert_eq!(mSegmentation::decrypt(&cipher, &g, &y, &8), Ok(zero));
}

#[test]
fn every_value_below_the_width_is_recovered() {
    let (y, public) = key_pair();
    let g = generator();
    for x in 0..16u64 {
        let pair = mSegmentation::encrypt_segment_k(&fe(x), &FE::new_random(), &4, 0, &public, &g);
        assert_eq!(mSegmentation::decrypt_segment(&pair, &g, &y, &4), Ok(fe(x)));
    }
    let pair = mSegmentation::encrypt_segment_k(&fe(255), &FE::new_random(), &8, 0, &public, &g);
    assert_eq!(mSegmentation::decrypt_segment(&pair, &g, &y, &8), Ok(fe(255)));
    let pair = mSegmentation::encrypt_segment_k(&fe(1), &FE::new_random(), &0, 0, &public, &g);
    assert_eq!(mSegmentation::decrypt_segment(&pair, &g, &y, &0), Ok(fe(0)));
}

#[test]
fn value_outside_the_width_is_not_found() {
    let (y, public) = key_pair();
    let g = generator();
    let pair = mSegmentation::encrypt_segment_k(&fe(16), &FE::new_random(), &8, 0, &public, &g);
    assert_eq!(mSegmentation::decrypt_segment(&pair, &g, &y, &4), Err(Errors::ErrorDecrypting));
    assert_eq!(mSegmentation::decrypt_segment(&pair, &g, &y, &5), Ok(fe(16)));
}

#[test]
fn wrong_key_fails() {
    let (_, public) = key_pair();
    let (other, _) = key_pair();
    let g = generator();
    let secret = fe(0xBEEF);
    let (_, cipher) = mSegmentation::to_encrypted_segments(&secret, &8, 2, &public, &g);
    assert_eq!(
        mSegmentation::decrypt_segment(&cipher.DE[0], &g, &other, &8),
        Err(Errors::ErrorDecrypting)
    );
    assert_eq!(mSegmentation::decrypt(&cipher, &g, &other, &8), Err(Errors::ErrorDecrypting));
}

#[test]
fn one_bad_segment_fails_the_whole_decryption() {
    let (y, public) = key_pair();
    let g = generator();
    let secret = fe(0x0102_03);
    let (_, mut cipher) = mSegmentation::to_encrypted_segments(&secret, &8, 3, &public, &g);
    assert_eq!(mSegmentation::decrypt(&cipher, &g, &y, &8), Ok(secret));
    let bad = hElGamal { D: cipher.DE[1].D.add(&g.mul(&fe(1000))), E: cipher.DE[1].E };
    cipher.DE[1] = bad;
    assert_eq!(mSegmentation::decrypt(&cipher, &g, &y, &8), Err(Errors::ErrorDecrypting));
}

#[test]
fn width_above_the_limit_is_refused() {
    let (y, public) = key_pair();
    let g = generator();
    assert_eq!(MAX_SEGMENT_SIZE, 32);
    let pair = mSegmentation::encrypt_segment_k(&fe(0), &FE::new_random(), &33, 0, &public, &g);
    assert_eq!(mSegmentation::decrypt_segment(&pair, &g, &y, &33), Err(Errors::ErrorDecrypting));
    assert_eq!(
        mSegmentation::decrypt_segment(&pair, &g, &y, &usize::MAX),
        Err(Errors::ErrorDecrypting)
    );
    assert_eq!(mSegmentation::decrypt_segment(&pair, &g, &y, &32), Ok(fe(0)));
    let cipher = hElGamalSegmented { DE: vec![pair] };
    assert_eq!(mSegmentation::decrypt(&cipher, &g, &y, &40), Err(Errors::ErrorDecrypting));
}

#[test]
fn two_encryptions_differ() {
    let (_, public) = key_pair();
    let g = generator();
    let secret = fe(181);
    let (w1, c1) = mSegmentation::to_encrypted_segments(&secret, &4, 2, &public, &g);
    let (w2, c2) = mSegmentation::to_encrypted_segments(&secret, &4, 2, &public, &g);
    assert_eq!(w1.x_vec, w2.x_vec);
    for k in 0..2 {
        assert_ne!(w1.r_vec[k], w2.r_vec[k]);
        assert_ne!(c1.DE[k], c2.DE[k]);
    }
    assert_ne!(w1.r_vec[0], w1.r_vec[1]);
}

#[test]
fn given_randomizers_fix_the_ciphertext() {
    let (y, public) = key_pair();
    let g = generator();
    let secret = fe(0x1234);
    let r_vec = vec![fe(3), fe(4)];
    let (w1, c1) = mSegmentation::encrypt_with_randomizers(&secret, r_vec.clone(), &8, &public, &g);
    let (w2, c2) = mSegmentation::encrypt_with_randomizers(&secret, r_vec.clone(), &8, &public, &g);
    assert_eq!(w1, w2);
    assert_eq!(c1, c2);
    assert_eq!(w1.r_vec, r_vec);
    assert_eq!(w1.x_vec, vec![fe(0x34), fe(0x12)]);
    assert_eq!(c1.DE[0], mSegmentation::encrypt_segment_k(&secret, &fe(3), &8, 0, &public, &g));
    assert_eq!(c1.DE[1], mSegmentation::encrypt_segment_k(&secret, &fe(4), &8, 1, &public, &g));
    assert_eq!(mSegmentation::decrypt(&c1, &g, &y, &8), Ok(secret));
}

#[test]
fn more_than_256_segments() {
    let (y, public) = key_pair();
    let g = generator();
    let secret = FE::new_random();
    let (witness, cipher) = mSegmentation::to_encrypted_segments(&secret, &1, 300, &public, &g);
    assert_eq!(witness.x_vec.len(), 300);
    for k in 256..300 {
        assert_eq!(witness.x_vec[k], fe(0));
    }
    assert_eq!(mSegmentation::assemble_fe(&witness.x_vec, &1), secret);
    assert_eq!(mSegmentation::decrypt(&cipher, &g, &y, &1), Ok(secret));
}

#[test]
fn no_segments_give_an_empty_encryption() {
    let (_, public) = key_pair();
    let g = generator();
    let (witness, cipher) = mSegmentation::to_encrypted_segments(&fe(9), &8, 0, &public, &g);
    assert!(witness.x_vec.is_empty());
    assert!(witness.r_vec.is_empty());
    assert!(cipher.DE.is_empty());
}

#[test]
fn scalars_convert_both_ways() {
    let s = Scalar::<Secp256k1>::random();
    assert_eq!(scalar_of(&fe_of(&s)), s);
    assert_eq!(scalar_of(&fe(181)), Scalar::<Secp256k1>::from(181u64));
}
