use nova_snark::field::{Fp65537, PrimeField};

fn f(n: u64) -> Fp65537 {
    Fp65537::from_u64(n)
}

#[test]
fn from_u64_reduces_modulo_the_order() {
    assert_eq!(f(65537).value(), 0);
    assert_eq!(f(65540).value(), 3);
    assert_eq!(f(u64::MAX).value(), u64::MAX % 65537);
}

#[test]
fn zero_and_one() {
    assert_eq!(Fp65537::zero().value(), 0);
    assert_eq!(Fp65537::one().value(), 1);
}

#[test]
fn addition_wraps_around() {
    assert_eq!(f(65536).add(&f(5)).value(), 4);
    assert_eq!(f(12).add(&f(30)).value(), 42);
    assert_eq!(f(40000).double().value(), 80000 - 65537);
}

#[test]
fn subtraction_and_negation() {
    assert_eq!(f(3).sub(&f(5)).value(), 65535);
    assert_eq!(f(10).sub(&f(4)).value(), 6);
    assert_eq!(f(1).neg().value(), 65536);
    assert_eq!(f(0).neg().value(), 0);
}

#[test]
fn multiplication() {
    assert_eq!(f(256).mul(&f(256)).value(), 65536);
    assert_eq!(f(256).mul(&f(512)).value(), 65535);
    assert_eq!(f(7).mul(&f(6)).value(), 42);
}

#[test]
fn inverses_exist_exactly_for_nonzero_elements() {
    assert!(f(0).invert().is_none());
    for n in [1u64, 2, 3, 12345, 65536] {
        let inv = f(n).invert().unwrap();
        assert_eq!(f(n).mul(&inv).value(), 1);
    }
    assert_eq!(f(2).invert().unwrap().value(), 32769);
}

#[test]
fn equality_is_by_value() {
    assert!(f(5).equals(&f(65542)));
    assert!(!f(5).equals(&f(6)));
}

#[test]
fn little_endian_bits() {
    let bits = f(6).to_le_bits();
    let mut v: u64 = 0;
    for (i, b) in bits.iter().enumerate() {
        if *b {
            v += 1u64 << i;
        }
    }
    assert_eq!(v, 6);
    assert!(!bits[0] && bits[1] && bits[2]);
}
