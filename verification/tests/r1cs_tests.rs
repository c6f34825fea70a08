use nova_snark::field::{Fp65537, PrimeField};
use nova_snark::instances::{
    copy_vec, zeros, Commitment, R1CSInstance, R1CSShapeSize, R1CSWitness, RelaxedR1CSInstance,
    RelaxedR1CSWitness,
};
use nova_snark::r1cs::{
    eval_lc, lc_constant, lc_diff, lc_var, minus_one, ConstraintSystem, LinearCombination,
};

fn f(n: u64) -> Fp65537 {
    Fp65537::from_u64(n)
}

#[test]
fn a_new_system_has_only_the_constant_one() {
    let cs = ConstraintSystem::<Fp65537>::new();
    assert_eq!(cs.values.len(), 1);
    assert_eq!(cs.values[ConstraintSystem::<Fp65537>::one()].value(), 1);
    assert_eq!(cs.num_constraints(), 0);
    assert!(cs.is_satisfied());
}

#[test]
fn constraints_hold_or_fail_by_the_assignment() {
    let mut cs = ConstraintSystem::<Fp65537>::new();
    let a = cs.allocate(f(6));
    let b = cs.allocate(f(7));
    let c = cs.allocate(f(42));
    cs.enforce(lc_var(a.variable), lc_var(b.variable), lc_var(c.variable));
    assert!(cs.is_satisfied());
    cs.values[c.variable] = f(41);
    assert!(!cs.is_satisfied());
}

#[test]
fn linear_combinations_evaluate() {
    let values = vec![f(1), f(10), f(3)];
    let lc = LinearCombination::zero().add_term(1, f(2)).add_term(2, f(5));
    assert_eq!(eval_lc(&lc, &values).value(), 35);
    assert_eq!(eval_lc(&lc_diff(1, 2), &values).value(), 7);
    assert_eq!(eval_lc(&lc_constant(f(9)), &values).value(), 9);
    assert_eq!(eval_lc(&LinearCombination::zero(), &values).value(), 0);
    assert_eq!(minus_one::<Fp65537>().value(), 65536);
}

#[test]
fn zero_vectors_and_copies() {
    let z: Vec<Fp65537> = zeros(3);
    assert_eq!(z.len(), 3);
    assert!(z.iter().all(|x| x.value() == 0));
    let v = vec![f(1), f(2)];
    let c = copy_vec(&v);
    assert_eq!(c.iter().map(|x| x.value()).collect::<Vec<_>>(), vec![1, 2]);
}

#[test]
fn relaxed_instances_from_plain_ones() {
    let shape = R1CSShapeSize { num_cons: 4, num_vars: 3, num_io: 2 };
    let u = R1CSInstance { comm_w: Commitment::Point(5u8), x: vec![f(7), f(8)] };
    let ru = RelaxedR1CSInstance::from_r1cs_instance(&u);
    assert_eq!(ru.comm_w, Commitment::Point(5));
    assert_eq!(ru.comm_e, Commitment::Identity);
    assert_eq!(ru.u.value(), 1);
    assert_eq!(ru.x[1].value(), 8);
    let w = R1CSWitness { w: vec![f(1), f(2), f(3)] };
    let rw = RelaxedR1CSWitness::from_r1cs_witness(&shape, &w);
    assert_eq!(rw.w.len(), 3);
    assert_eq!(rw.e.len(), 4);
    assert!(rw.e.iter().all(|x| x.value() == 0));
    let d: RelaxedR1CSInstance<Fp65537, u8> = RelaxedR1CSInstance::default(&shape);
    assert_eq!(d.u.value(), 0);
    assert_eq!(d.x.len(), 2);
    assert_eq!(d.comm_w, Commitment::Identity);
    let dw: RelaxedR1CSWitness<Fp65537> = RelaxedR1CSWitness::default(&shape);
    assert_eq!((dw.w.len(), dw.e.len()), (3, 4));
    let copied = ru.copy();
    assert_eq!(copied.x[0].value(), 7);
}
