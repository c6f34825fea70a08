use nova_snark::field::{Fp65537, PrimeField};
use nova_snark::gadgets::{alloc_const, boolean_value_exec};
use nova_snark::r1cs::{Boolean, ConstraintSystem};
use nova_snark::supernova::utils::get_selector_vec_from_index;

#[test]
fn test_get_selector() {
    for n in 1..4 {
        for selected in 0..n {
            let mut cs = ConstraintSystem::<Fp65537>::new();

            let allocated_target = alloc_const(&mut cs, Fp65537::from_u64(selected as u64)).unwrap();

            let selector_vec = get_selector_vec_from_index(&mut cs, &allocated_target, n).unwrap();

            let is_valid = selector_vec
                .iter()
                .fold(false, |res, bit| res | boolean_value_exec(bit));

            if selected < n {
                assert!(cs.is_satisfied());
                assert!(is_valid);
            } else {
                // If selected is out of range, the circuit must be unsatisfied.
                assert!(!cs.is_satisfied());
                assert!(!is_valid);
            }
        }
    }
}

#[test]
fn selector_is_one_hot_at_the_target() {
    let mut cs = ConstraintSystem::<Fp65537>::new();
    let target = alloc_const(&mut cs, Fp65537::from_u64(2)).unwrap();
    let sel = get_selector_vec_from_index(&mut cs, &target, 5).unwrap();
    let bits: Vec<bool> = sel.iter().map(boolean_value_exec).collect();
    assert_eq!(bits, vec![false, false, true, false, false]);
    assert!(cs.is_satisfied());
}

#[test]
fn selector_of_one_index_is_constant_true() {
    let mut cs = ConstraintSystem::<Fp65537>::new();
    let target = alloc_const(&mut cs, Fp65537::from_u64(0)).unwrap();
    let before = cs.num_constraints();
    let sel = get_selector_vec_from_index(&mut cs, &target, 1).unwrap();
    assert_eq!(sel.len(), 1);
    assert!(matches!(sel[0], Boolean::Constant(true)));
    assert_eq!(cs.num_constraints(), before);
}

#[test]
fn selector_out_of_range_is_unsatisfied() {
    for selected in 3..6u64 {
        let mut cs = ConstraintSystem::<Fp65537>::new();
        let target = alloc_const(&mut cs, Fp65537::from_u64(selected)).unwrap();
        let sel = get_selector_vec_from_index(&mut cs, &target, 3).unwrap();
        assert!(!sel.iter().any(boolean_value_exec));
        assert!(!cs.is_satisfied());
    }
}

#[test]
fn selector_refuses_a_wrong_bit() {
    let mut cs = ConstraintSystem::<Fp65537>::new();
    let target = alloc_const(&mut cs, Fp65537::from_u64(1)).unwrap();
    let sel = get_selector_vec_from_index(&mut cs, &target, 3).unwrap();
    assert!(cs.is_satisfied());
    if let Boolean::Is(bit) = sel[0] {
        cs.values[bit.variable] = Fp65537::from_u64(1);
    } else {
        panic!("expected an allocated bit");
    }
    assert!(!cs.is_satisfied());
}
