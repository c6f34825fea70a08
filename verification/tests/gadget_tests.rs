use nova_snark::field::{Fp65537, PrimeField};
use nova_snark::gadgets::{
    alloc_const, alloc_num_equals, alloc_num_equals_const, alloc_one, alloc_scalar_as_base,
    alloc_zero, boolean_value_exec, conditionally_select, conditionally_select2,
    conditionally_select_vec, le_bits_to_num, scalar_as_base, select_num_or_one,
    select_num_or_zero, select_num_or_zero2, select_one_or_diff2, select_one_or_num2,
    select_zero_or_num2,
};
use nova_snark::r1cs::{alloc_bit, AllocatedBit, Boolean, ConstraintSystem};

fn f(n: u64) -> Fp65537 {
    Fp65537::from_u64(n)
}

#[test]
fn scalar_as_base_keeps_the_value() {
    let b: Fp65537 = scalar_as_base::<Fp65537, Fp65537>(f(1234));
    assert_eq!(b.value(), 1234);
    let z: Fp65537 = scalar_as_base::<Fp65537, Fp65537>(f(0));
    assert_eq!(z.value(), 0);
}

#[test]
fn alloc_scalar_as_base_allocates_the_value_or_zero() {
    let mut cs = ConstraintSystem::<Fp65537>::new();
    let n = alloc_scalar_as_base::<Fp65537, Fp65537>(&mut cs, Some(f(77))).unwrap();
    assert_eq!(n.value.value(), 77);
    let z = alloc_scalar_as_base::<Fp65537, Fp65537>(&mut cs, None).unwrap();
    assert_eq!(z.value.value(), 0);
    assert_eq!(cs.num_constraints(), 0);
    assert!(cs.is_satisfied());
}

#[test]
fn constants_are_allocated_and_constrained() {
    let mut cs = ConstraintSystem::<Fp65537>::new();
    let zero = alloc_zero(&mut cs);
    let one = alloc_one(&mut cs);
    let c = alloc_const(&mut cs, f(99)).unwrap();
    assert_eq!(zero.value.value(), 0);
    assert_eq!(one.value.value(), 1);
    assert_eq!(c.value.value(), 99);
    assert_eq!(cs.num_constraints(), 3);
    assert!(cs.is_satisfied());
    // a wrong value for the constant breaks its constraint
    cs.values[c.variable] = f(98);
    assert!(!cs.is_satisfied());
}

#[test]
fn bits_pack_into_a_number() {
    let mut cs = ConstraintSystem::<Fp65537>::new();
    let bits: Vec<AllocatedBit> = [true, false, true, true].iter().map(|b| alloc_bit(&mut cs, *b)).collect();
    let n = le_bits_to_num(&mut cs, &bits).unwrap();
    assert_eq!(n.value.value(), 13);
    assert!(cs.is_satisfied());
    cs.values[n.variable] = f(12);
    assert!(!cs.is_satisfied());
}

#[test]
fn a_bit_must_be_boolean() {
    let mut cs = ConstraintSystem::<Fp65537>::new();
    let bit = alloc_bit(&mut cs, true);
    assert!(cs.is_satisfied());
    cs.values[bit.variable] = f(2);
    assert!(!cs.is_satisfied());
}

#[test]
fn equality_of_two_numbers() {
    let mut cs = ConstraintSystem::<Fp65537>::new();
    let a = cs.allocate(f(5));
    let b = cs.allocate(f(5));
    let c = cs.allocate(f(6));
    let eq = alloc_num_equals(&mut cs, &a, &b).unwrap();
    let ne = alloc_num_equals(&mut cs, &a, &c).unwrap();
    assert!(eq.value);
    assert!(!ne.value);
    assert!(cs.is_satisfied());
    // claiming the numbers differ when they are equal is refused
    cs.values[eq.variable] = f(0);
    assert!(!cs.is_satisfied());
}

#[test]
fn claiming_equality_of_different_numbers_is_refused() {
    let mut cs = ConstraintSystem::<Fp65537>::new();
    let a = cs.allocate(f(5));
    let c = cs.allocate(f(6));
    let ne = alloc_num_equals(&mut cs, &a, &c).unwrap();
    assert!(cs.is_satisfied());
    cs.values[ne.variable] = f(1);
    assert!(!cs.is_satisfied());
}

#[test]
fn equality_with_a_constant() {
    let mut cs = ConstraintSystem::<Fp65537>::new();
    let a = cs.allocate(f(42));
    let yes = alloc_num_equals_const(&mut cs, &a, f(42)).unwrap();
    let no = alloc_num_equals_const(&mut cs, &a, f(41)).unwrap();
    assert!(yes.value);
    assert!(!no.value);
    assert!(cs.is_satisfied());
    cs.values[no.variable] = f(1);
    assert!(!cs.is_satisfied());
}

#[test]
fn select_by_boolean() {
    for cond in [true, false] {
        let mut cs = ConstraintSystem::<Fp65537>::new();
        let a = cs.allocate(f(10));
        let b = cs.allocate(f(20));
        let bit = alloc_bit(&mut cs, cond);
        let c = conditionally_select(&mut cs, &a, &b, &Boolean::Is(bit)).unwrap();
        assert_eq!(c.value.value(), if cond { 10 } else { 20 });
        let d = conditionally_select(&mut cs, &a, &b, &Boolean::Not(bit)).unwrap();
        assert_eq!(d.value.value(), if cond { 20 } else { 10 });
        let e = conditionally_select(&mut cs, &a, &b, &Boolean::Constant(true)).unwrap();
        assert_eq!(e.value.value(), 10);
        assert!(cs.is_satisfied());
        cs.values[c.variable] = f(15);
        assert!(!cs.is_satisfied());
    }
}

#[test]
fn select_by_number() {
    for cond in [0u64, 1] {
        let mut cs = ConstraintSystem::<Fp65537>::new();
        let a = cs.allocate(f(10));
        let b = cs.allocate(f(20));
        let c = cs.allocate(f(cond));
        let r = conditionally_select2(&mut cs, &a, &b, &c).unwrap();
        assert_eq!(r.value.value(), if cond == 1 { 10 } else { 20 });
        let z = select_zero_or_num2(&mut cs, &a, &c).unwrap();
        assert_eq!(z.value.value(), if cond == 1 { 0 } else { 10 });
        let n = select_num_or_zero2(&mut cs, &a, &c).unwrap();
        assert_eq!(n.value.value(), if cond == 1 { 10 } else { 0 });
        let o = select_one_or_num2(&mut cs, &a, &c).unwrap();
        assert_eq!(o.value.value(), if cond == 1 { 1 } else { 10 });
        let d = select_one_or_diff2(&mut cs, &a, &b, &c).unwrap();
        assert_eq!(d.value.value(), if cond == 1 { 1 } else { 65537 - 10 });
        assert!(cs.is_satisfied());
        cs.values[d.variable] = f(3);
        assert!(!cs.is_satisfied());
    }
}

#[test]
fn select_number_or_constant_by_boolean() {
    for cond in [true, false] {
        let mut cs = ConstraintSystem::<Fp65537>::new();
        let a = cs.allocate(f(33));
        let bit = alloc_bit(&mut cs, cond);
        let z = select_num_or_zero(&mut cs, &a, &Boolean::Is(bit)).unwrap();
        assert_eq!(z.value.value(), if cond { 33 } else { 0 });
        let o = select_num_or_one(&mut cs, &a, &Boolean::Is(bit)).unwrap();
        assert_eq!(o.value.value(), if cond { 33 } else { 1 });
        assert!(cs.is_satisfied());
        cs.values[o.variable] = f(2);
        assert!(!cs.is_satisfied());
    }
}

#[test]
fn select_vectors() {
    let mut cs = ConstraintSystem::<Fp65537>::new();
    let a: Vec<_> = [1u64, 2, 3].iter().map(|v| cs.allocate(f(*v))).collect();
    let b: Vec<_> = [4u64, 5, 6].iter().map(|v| cs.allocate(f(*v))).collect();
    let bit = alloc_bit(&mut cs, false);
    let c = conditionally_select_vec(&mut cs, &a, &b, &Boolean::Is(bit)).unwrap();
    let values: Vec<u64> = c.iter().map(|n| n.value.value()).collect();
    assert_eq!(values, vec![4, 5, 6]);
    assert!(cs.is_satisfied());
}

#[test]
fn boolean_values() {
    let mut cs = ConstraintSystem::<Fp65537>::new();
    let bit = alloc_bit(&mut cs, true);
    assert!(boolean_value_exec(&Boolean::Is(bit)));
    assert!(!boolean_value_exec(&Boolean::Not(bit)));
    assert!(!boolean_value_exec(&Boolean::Constant(false)));
}
