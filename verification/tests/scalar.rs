use goldilocks_field::field::GoldilocksField;
use goldilocks_field::reduce::{
    add_lane, mul_lane, neg_lane, pow_lane, reduce_lane, sub_lane, EPSILON, ORDER, ORDER_BITS,
    TWO_ADICITY,
};
use goldilocks_field::traits::PrimeFieldLike;

const P: u64 = 0xFFFF_FFFF_0000_0001;

#[test]
fn constants_of_the_field() {
    assert_eq!(ORDER, 18446744069414584321);
    assert_eq!(EPSILON, 4294967295);
    assert_eq!(ORDER_BITS, 64);
    assert_eq!(TWO_ADICITY, 32);
    assert_eq!((ORDER - 1) % (1u64 << TWO_ADICITY), 0);
    assert_eq!(((ORDER - 1) >> TWO_ADICITY) % 2, 1);
    assert_eq!(GoldilocksField::ORDER, ORDER);
    assert_eq!(GoldilocksField::zero().0, 0);
    assert_eq!(GoldilocksField::one().0, 1);
    assert_eq!(GoldilocksField::minus_one().0, P - 1);
}

#[test]
fn reduce_lane_exact() {
    assert_eq!(reduce_lane(0), 0);
    assert_eq!(reduce_lane(P - 1), P - 1);
    assert_eq!(reduce_lane(P), 0);
    assert_eq!(reduce_lane(P + 1), 1);
    assert_eq!(reduce_lane(u64::MAX), 0xFFFF_FFFE);
}

#[test]
fn add_lane_exact() {
    assert_eq!(add_lane(1, 2), 3);
    assert_eq!(add_lane(P - 1, 1), 0);
    assert_eq!(add_lane(P - 1, P - 1), P - 2);
    assert_eq!(add_lane(5, P), 5);
    assert_eq!(add_lane(5, u64::MAX), 5 + 0xFFFF_FFFE);
    // a non-canonical left operand keeps what it had above p
    assert_eq!(add_lane(u64::MAX, P - 1), u64::MAX - 1);
    assert_eq!(add_lane(u64::MAX, 1), 0xFFFF_FFFF);
}

#[test]
fn sub_lane_exact() {
    assert_eq!(sub_lane(3, 2), 1);
    assert_eq!(sub_lane(2, 3), P - 1);
    assert_eq!(sub_lane(0, P - 1), 1);
    assert_eq!(sub_lane(0, P), 0);
    assert_eq!(sub_lane(1, 0x0000000001000000), P - 0x0000000000FFFFFF);
    assert_eq!(sub_lane(u64::MAX, 0), u64::MAX);
    assert_eq!(sub_lane(0, u64::MAX), P - 0xFFFF_FFFE);
}

#[test]
fn neg_lane_exact() {
    assert_eq!(neg_lane(0), 0);
    assert_eq!(neg_lane(1), P - 1);
    assert_eq!(neg_lane(P - 1), 1);
    assert_eq!(neg_lane(P), 0);
    assert_eq!(neg_lane(P + 1), P - 1);
    assert_eq!(neg_lane(P + 4), P - 4);
    assert_eq!(neg_lane(u64::MAX), P - 0xFFFF_FFFE);
    assert_eq!(neg_lane(neg_lane(u64::MAX)), 0xFFFF_FFFE);
}

#[test]
fn mul_lane_exact() {
    assert_eq!(mul_lane(0, 12345), 0);
    assert_eq!(mul_lane(3, 5), 15);
    assert_eq!(mul_lane(P - 1, P - 1), 1);
    assert_eq!(mul_lane(1 << 32, 1 << 32), 0xFFFF_FFFF);
    assert_eq!(mul_lane(u64::MAX, u64::MAX), 0xFFFF_FFFEu64 * 0xFFFF_FFFE % P);
    assert_eq!(mul_lane(P, 99), 0);
    assert_eq!(mul_lane(P + 2, P + 3), 6);
    let a: u64 = 0x1234_5678_9ABC_DEF0;
    let b: u64 = 0x0FED_CBA9_8765_4321;
    let want = ((a as u128 * b as u128) % (P as u128)) as u64;
    assert_eq!(mul_lane(a, b), want);
}

#[test]
fn pow_lane_exact() {
    assert_eq!(pow_lane(2, 0), 1);
    assert_eq!(pow_lane(0, 0), 1);
    assert_eq!(pow_lane(2, 10), 1024);
    assert_eq!(pow_lane(2, 64), 0xFFFF_FFFF);
    assert_eq!(pow_lane(2, 96), P - 1);
    assert_eq!(pow_lane(2, 192), 1);
    assert_eq!(pow_lane(7, P - 1), 1);
    assert_eq!(pow_lane(P + 3, 3), 27);
}

#[test]
fn scalar_operations() {
    let mut x = GoldilocksField(P - 1);
    x.add_assign(&GoldilocksField(2)).mul_assign(&GoldilocksField(10));
    assert_eq!(x.0, 10);
    x.sub_assign(&GoldilocksField(11));
    assert_eq!(x.0, P - 1);
    x.square();
    assert_eq!(x.0, 1);
    x.double();
    assert_eq!(x.0, 2);
    x.negate();
    assert_eq!(x.0, P - 2);
    let mut y = GoldilocksField(P + 4);
    y.negate();
    assert_eq!(y.0, P - 4);
    y.negate();
    assert_eq!(y.0, 4);
    assert_eq!(GoldilocksField(3).pow_u64(4).0, 81);
    assert_eq!(GoldilocksField::from_nonreduced_u64(u64::MAX).0, u64::MAX);
    assert_eq!(GoldilocksField(u64::MAX).to_reduced_u64(), 0xFFFF_FFFE);
}

#[test]
fn scalar_inverse() {
    assert!(GoldilocksField(0).inverse().is_none());
    assert!(GoldilocksField(P).inverse().is_none());
    assert_eq!(GoldilocksField(1).inverse().unwrap().0, 1);
    assert_eq!(GoldilocksField(2).inverse().unwrap().0, (P + 1) / 2);
    for w in [3u64, 7, P - 1, P + 5, u64::MAX, 0x1234_5678_9ABC_DEF0] {
        let inv = GoldilocksField(w).inverse().unwrap();
        assert_eq!(mul_lane(inv.0, w), 1);
        assert!(inv.0 < P);
    }
}

#[test]
fn scalar_equality_goes_by_the_element() {
    assert_eq!(GoldilocksField(P + 1), GoldilocksField(1));
    assert_eq!(GoldilocksField(P), GoldilocksField(0));
    assert_ne!(GoldilocksField(1), GoldilocksField(2));
    assert!(GoldilocksField(P).is_zero());
    assert!(!GoldilocksField(P - 1).is_zero());
    assert_eq!(GoldilocksField::default().0, 0);
}

#[test]
fn scalar_as_one_lane() {
    let mut ctx = ();
    let mut x = <GoldilocksField as PrimeFieldLike>::constant(GoldilocksField(5), &mut ctx);
    PrimeFieldLike::add_assign(&mut x, &GoldilocksField(P + 1), &mut ctx);
    assert_eq!(x.0, 6);
    PrimeFieldLike::sub_assign(&mut x, &GoldilocksField(7), &mut ctx);
    assert_eq!(x.0, P - 1);
    PrimeFieldLike::mul_assign(&mut x, &GoldilocksField(P - 1), &mut ctx);
    assert_eq!(x.0, 1);
    PrimeFieldLike::double(&mut x, &mut ctx);
    assert_eq!(x.0, 2);
    PrimeFieldLike::square(&mut x, &mut ctx);
    assert_eq!(x.0, 4);
    PrimeFieldLike::negate(&mut x, &mut ctx);
    assert_eq!(x.0, P - 4);
    let inv = PrimeFieldLike::inverse(&GoldilocksField(4), &mut ctx);
    assert_eq!(mul_lane(inv.0, 4), 1);
    assert_eq!(<GoldilocksField as PrimeFieldLike>::zero(&mut ctx).0, 0);
    assert_eq!(<GoldilocksField as PrimeFieldLike>::one(&mut ctx).0, 1);
    assert_eq!(<GoldilocksField as PrimeFieldLike>::minus_one(&mut ctx).0, P - 1);
}
