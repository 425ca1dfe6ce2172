use curv::arithmetic::Converter;
use curv::elliptic::curves::{Point, Scalar, Secp256k1};
use curv::BigInt;
use escrow_recovery::bignat::BigNat;
use escrow_recovery::point::GE;
use escrow_recovery::scalar::FE;

fn fe(value: u64) -> FE {
    FE::from_big_int(&BigNat::from_u64(value))
}

fn order_bytes() -> Vec<u8> {
    Scalar::<Secp256k1>::group_order().to_bytes()
}

#[test]
fn bignat_from_u64_is_big_endian() {
    assert_eq!(
        BigNat::from_u64(0x0102_0304_0506_0708).to_bytes(),
        vec![1, 2, 3, 4, 5, 6, 7, 8]
    );
    assert_eq!(BigNat::from_u64(0).to_bytes(), vec![0; 8]);
    assert_eq!(BigNat::from_u64(u64::MAX).to_bytes(), vec![0xff; 8]);
    assert_eq!(BigNat::from_u8(7).to_bytes(), vec![7]);
    assert_eq!(BigNat::from_bytes(vec![9, 8]).to_bytes(), vec![9, 8]);
}

#[test]
fn scalar_bytes_are_32_big_endian() {
    let mut expected = [0u8; 32];
    expected[30] = 0x12;
    expected[31] = 0x34;
    assert_eq!(fe(0x1234).to_bytes(), expected);
    assert_eq!(fe(0).to_bytes(), [0u8; 32]);
    assert_eq!(fe(0x1234).to_big_int().to_bytes(), expected.to_vec());
}

#[test]
fn scalar_is_reduced_modulo_the_group_order() {
    assert_eq!(
        order_bytes(),
        vec![
            0xff, 0xff, 0xff, 0xff, 0xff, 0xff, 0xff, 0xff, 0xff, 0xff, 0xff, 0xff, 0xff, 0xff,
            0xff, 0xfe, 0xba, 0xae, 0xdc, 0xe6, 0xaf, 0x48, 0xa0, 0x3b, 0xbf, 0xd2, 0x5e, 0x8c,
            0xd0, 0x36, 0x41, 0x41
        ]
    );
    assert_eq!(FE::from_big_int(&BigNat::from_bytes(order_bytes())), fe(0));
    let mut above = order_bytes();
    above[31] += 5;
    assert_eq!(FE::from_big_int(&BigNat::from_bytes(above)), fe(5));
    let mut below = order_bytes();
    below[31] -= 1;
    let largest = FE::from_big_int(&BigNat::from_bytes(below.clone()));
    assert_eq!(largest.to_bytes().to_vec(), below);
    let mut long = vec![1u8];
    long.extend_from_slice(&[0u8; 40]);
    let expected = BigInt::from_bytes(&long) % Scalar::<Secp256k1>::group_order();
    let reduced = FE::from_big_int(&BigNat::from_bytes(long));
    assert_eq!(BigInt::from_bytes(&reduced.to_bytes()), expected);
    assert_eq!(FE::from_big_int(&BigNat::from_bytes(vec![])), fe(0));
}

#[test]
fn scalar_arithmetic_is_modular() {
    assert_eq!(fe(5).add(&fe(11)), fe(16));
    assert_eq!(fe(5).mul(&fe(11)), fe(55));
    assert_eq!(fe(0).add(&fe(0)), fe(0));
    assert_eq!(fe(0).mul(&fe(7)), fe(0));
    let mut below = order_bytes();
    below[31] -= 1;
    let minus_one = FE::from_big_int(&BigNat::from_bytes(below));
    assert_eq!(minus_one.add(&fe(1)), fe(0));
    assert_eq!(minus_one.add(&fe(3)), fe(2));
    assert_eq!(minus_one.mul(&minus_one), fe(1));
    assert_eq!(minus_one.mul(&fe(2)).add(&fe(2)), fe(0));
}

#[test]
fn random_scalars_are_nonzero_and_differ() {
    let a = FE::new_random();
    let b = FE::new_random();
    assert_ne!(a, fe(0));
    assert_ne!(b, fe(0));
    assert_ne!(a, b);
}

#[test]
fn point_bytes_round_trip() {
    let g = Point::<Secp256k1>::generator().to_point();
    let encoded = g.to_bytes(true);
    let point = GE::from_bytes(&encoded).unwrap();
    assert_eq!(point.to_bytes().to_vec(), encoded.to_vec());
    assert_eq!(point.to_bytes()[0], 0x02);
    assert_eq!(point.to_bytes()[1], 0x79);
    assert!(point.same(&point));
}

#[test]
fn point_from_bytes_refuses_what_is_no_point() {
    assert!(GE::from_bytes(&[]).is_none());
    assert!(GE::from_bytes(&[2u8; 32]).is_none());
    assert!(GE::from_bytes(&[0xffu8; 33]).is_none());
    let mut off_curve = [0u8; 33];
    off_curve[0] = 0x02;
    off_curve[32] = 5;
    assert!(GE::from_bytes(&off_curve).is_none());
    let g = Point::<Secp256k1>::generator().to_point();
    assert!(GE::from_bytes(&g.to_bytes(false)).is_none());
    assert!(GE::from_bytes(&[0u8; 33]).is_some());
}

#[test]
fn point_arithmetic_is_that_of_the_curve() {
    let g = Point::<Secp256k1>::generator().to_point();
    let base = GE::from_bytes(&g.to_bytes(true)).unwrap();
    let three = base.mul(&fe(3));
    let five = base.mul(&fe(5));
    assert_eq!(three.to_bytes().to_vec(), (&g * Scalar::<Secp256k1>::from(3u64)).to_bytes(true).to_vec());
    assert_eq!(three.add(&five), base.mul(&fe(8)));
    assert_eq!(five.sub_point(&three), base.mul(&fe(2)));
    assert_ne!(three, five);
    assert!(!three.same(&five));
    assert!(three.add(&five).same(&five.add(&three)));
    let zero = GE::from_bytes(&[0u8; 33]).unwrap();
    assert_eq!(base.mul(&fe(0)), zero);
    assert_eq!(three.sub_point(&three), zero);
    assert_eq!(three.add(&zero), three);
    assert_eq!(three.mul(&fe(5)), five.mul(&fe(3)));
}
