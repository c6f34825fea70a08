use nova_snark::errors::{NovaError, SuperNovaError};
use nova_snark::field::{Fp65537, PrimeField};
use nova_snark::instances::{
    commitment_key_size, Commitment, R1CSInstance, R1CSShapeSize, R1CSWitness, RelaxedR1CSInstance,
    RelaxedR1CSWitness,
};
use nova_snark::supernova::{
    BaseStepResults, NonUniformCircuit, PublicParams, RecursiveSNARK, RunningClaim, RunningClaimParams,
    RunningClaims, StepResults, StepSynthesis, VerifyResults, BN_LIMB_WIDTH, BN_N_LIMBS,
};

type Snark = RecursiveSNARK<Fp65537, Fp65537, u8, u8>;

fn f(n: u64) -> Fp65537 {
    Fp65537::from_u64(n)
}

fn shape(num_cons: usize, num_vars: usize, num_io: usize) -> R1CSShapeSize {
    R1CSShapeSize { num_cons, num_vars, num_io }
}

fn params() -> RunningClaimParams<Fp65537, Fp65537> {
    RunningClaimParams::new(vec![(1, shape(10, 12, 2)), (1, shape(30, 8, 2))], 1, shape(20, 5, 2))
}

fn instance(c: u8, x: &[u64]) -> R1CSInstance<Fp65537, u8> {
    R1CSInstance { comm_w: Commitment::Point(c), x: x.iter().map(|v| f(*v)).collect() }
}

fn witness(w: &[u64]) -> R1CSWitness<Fp65537> {
    R1CSWitness { w: w.iter().map(|v| f(*v)).collect() }
}

fn relaxed(c: u8, x: &[u64], u: u64) -> (RelaxedR1CSInstance<Fp65537, u8>, RelaxedR1CSWitness<Fp65537>) {
    (
        RelaxedR1CSInstance {
            comm_w: Commitment::Point(c),
            comm_e: Commitment::Point(c + 1),
            x: x.iter().map(|v| f(*v)).collect(),
            u: f(u),
        },
        RelaxedR1CSWitness { w: vec![f(1)], e: vec![f(2)] },
    )
}

fn synthesis(pc: Option<u64>, outputs: &[u64]) -> StepSynthesis<Fp65537> {
    StepSynthesis { program_counter: Some(pc.map(f)), outputs: outputs.iter().map(|v| Some(f(*v))).collect() }
}

fn base_results() -> BaseStepResults<Fp65537, Fp65537, u8, u8> {
    BaseStepResults {
        primary: Some(synthesis(Some(1), &[5])),
        primary_instance: Some((instance(7, &[1, 2]), witness(&[3]))),
        secondary: Some(StepSynthesis { program_counter: None, outputs: vec![Some(f(6))] }),
        secondary_instance: Some((instance(9, &[11, 12]), witness(&[4]))),
    }
}

fn step_results() -> StepResults<Fp65537, Fp65537, u8, u8> {
    StepResults {
        secondary_fold: Ok(relaxed(20, &[21, 22], 23)),
        secondary_cross_term: Ok(()),
        primary: Some(synthesis(Some(0), &[8])),
        primary_instance: Some((instance(30, &[31, 32]), witness(&[33]))),
        primary_fold: Ok(relaxed(40, &[41, 42], 43)),
        primary_cross_term: Ok(()),
        secondary: Some(StepSynthesis { program_counter: None, outputs: vec![Some(f(9))] }),
        secondary_instance: Some((instance(50, &[51, 52]), witness(&[53]))),
    }
}

fn verify_results(h1: u64, h2: u64) -> VerifyResults<Fp65537, Fp65537> {
    VerifyResults { hash_primary: f(h1), hash_secondary: f(h2), sat_primary: Ok(()), sat_secondary: Ok(()), sat_last_secondary: Ok(()) }
}

fn base_snark(rcp: &RunningClaimParams<Fp65537, Fp65537>) -> Snark {
    let pp = rcp.index(0);
    let claim = RunningClaim::new(pp, 0, 0u8, 0u8, 2);
    Snark::iter_base_step(pp, &claim, f(42), None, 0, 2, &vec![f(0)], &vec![f(0)], base_results()).unwrap()
}

#[test]
fn public_params_without_keys() {
    let pp: PublicParams<Fp65537, Fp65537> =
        PublicParams::setup_without_commitkey(2, 1, shape(10, 12, 3), shape(20, 5, 2));
    assert_eq!(pp.num_constraints(), (10, 20));
    assert_eq!(pp.num_variables(), (12, 5));
    assert!(pp.ck_primary.is_none() && pp.ck_secondary.is_none());
    assert_eq!(pp.augmented_circuit_params_primary.limb_width, BN_LIMB_WIDTH);
    assert_eq!(pp.augmented_circuit_params_primary.get_n_limbs(), BN_N_LIMBS);
    assert!(pp.augmented_circuit_params_primary.is_primary_circuit);
    assert!(!pp.augmented_circuit_params_secondary.is_primary_circuit);
    assert_eq!(pp.num_ro_inputs(3), (3 + 4 + 15, 2 + 2 + 3 * 15));
}

#[test]
fn commitment_keys_cover_every_shape() {
    assert_eq!(commitment_key_size(&shape(10, 12, 2)), 12);
    assert_eq!(commitment_key_size(&shape(30, 8, 2)), 30);
    let rcp = params();
    for i in 0..2 {
        assert_eq!(rcp.index(i).ck_primary.unwrap().length(), 30);
        assert_eq!(rcp.index(i).ck_secondary.unwrap().length(), 20);
    }
    assert!(rcp.digest.is_none());
    // parameters whose keys already agree are kept as they are
    let again = RunningClaimParams::from_pp_vec(rcp.pp_vec, Some(f(5)));
    assert_eq!(again.index(1).ck_primary.unwrap().length(), 30);
    assert_eq!(again.digest.unwrap().value(), 5);
}

#[test]
fn keys_are_recomputed_when_they_disagree() {
    let mut pp0 = PublicParams::<Fp65537, Fp65537>::setup_without_commitkey(1, 1, shape(10, 12, 2), shape(20, 5, 2));
    pp0.ck_primary = Some(nova_snark::instances::CommitmentKey::setup(100));
    let pp1 = PublicParams::setup_without_commitkey(1, 1, shape(30, 8, 2), shape(4, 6, 2));
    let rcp = RunningClaimParams::from_pp_vec(vec![pp0, pp1], None);
    assert_eq!(rcp.index(1).ck_primary.unwrap().length(), 100);
    assert_eq!(rcp.index(0).ck_secondary.unwrap().length(), 20);
}

#[test]
fn running_claims() {
    let rcp = params();
    let claim: RunningClaim<u8, u8> = RunningClaim::new(rcp.index(1), 1, 3u8, 4u8, 2);
    assert_eq!(claim.get_circuit_index(), 1);
    assert_eq!(claim.c_secondary, 4);
    let claims = RunningClaims::new(vec![claim]);
    assert_eq!(claims.index(0).get_circuit_index(), 1);
}

struct TwoCircuits;

impl NonUniformCircuit<Fp65537, Fp65537, u8, u8> for TwoCircuits {
    fn num_circuits(&self) -> usize {
        2
    }

    fn primary_circuit(&self, circuit_index: usize) -> u8 {
        circuit_index as u8 + 10
    }
}

#[test]
fn non_uniform_circuit_defaults() {
    let rcp = params();
    let circuits = TwoCircuits;
    assert_eq!(circuits.initial_program_counter().value(), 0);
    assert_eq!(circuits.secondary_circuit(), 0);
    let claims = circuits.setup_running_claims(&rcp);
    assert_eq!(claims.index(0).get_circuit_index(), 0);
    assert_eq!(claims.index(1).get_circuit_index(), 1);
}

#[test]
fn base_step_starts_the_proof() {
    let rcp = params();
    let snark = base_snark(&rcp);
    assert_eq!(snark.i, 0);
    assert_eq!(snark.get_program_counter().value(), 1);
    assert_eq!(snark.pp_digest.value(), 42);
    assert_eq!(snark.zi_primary[0].value(), 5);
    assert_eq!(snark.zi_secondary[0].value(), 6);
    assert!(snark.r_u_primary[0].is_some() && snark.r_u_primary[1].is_none());
    let ru = snark.r_u_primary[0].as_ref().unwrap();
    assert_eq!(ru.u.value(), 1);
    assert_eq!(ru.comm_w, Commitment::Point(7));
    assert_eq!(ru.comm_e, Commitment::Identity);
    let ru2 = snark.r_u_secondary[0].as_ref().unwrap();
    assert_eq!(ru2.u.value(), 0);
    assert_eq!(ru2.x.len(), 2);
    assert_eq!(snark.l_u_secondary.x[1].value(), 12);
}

#[test]
fn base_step_errors() {
    let rcp = params();
    let pp = rcp.index(0);
    let claim: RunningClaim<u8, u8> = RunningClaim::new(pp, 0, 0u8, 0u8, 2);
    let bare = PublicParams::setup_without_commitkey(1, 1, shape(1, 1, 2), shape(1, 1, 2));
    let missing = Snark::iter_base_step(&bare, &claim, f(0), None, 0, 2, &vec![f(0)], &vec![f(0)], base_results());
    assert_eq!(missing.err().unwrap(), SuperNovaError::MissingCK);
    let short = Snark::iter_base_step(pp, &claim, f(0), None, 0, 2, &vec![], &vec![f(0)], base_results());
    assert_eq!(short.err().unwrap(), SuperNovaError::NovaError(NovaError::InvalidStepOutputLength));
    let mut no_primary = base_results();
    no_primary.primary = None;
    let failed = Snark::iter_base_step(pp, &claim, f(0), None, 0, 2, &vec![f(0)], &vec![f(0)], no_primary);
    assert_eq!(failed.err().unwrap(), SuperNovaError::NovaError(NovaError::SynthesisError));
    let mut unsat = base_results();
    unsat.secondary_instance = None;
    let failed = Snark::iter_base_step(pp, &claim, f(0), None, 0, 2, &vec![f(0)], &vec![f(0)], unsat);
    assert_eq!(failed.err().unwrap(), SuperNovaError::NovaError(NovaError::UnSat));
}

#[test]
fn prove_steps() {
    let rcp = params();
    let pp = rcp.index(0);
    let claim = RunningClaim::new(pp, 0, 0u8, 0u8, 2);
    let mut snark = base_snark(&rcp);
    // the first step was proved by the base step
    snark.prove_step(pp, &claim, &vec![f(0)], &vec![f(0)], step_results()).unwrap();
    assert_eq!(snark.i, 1);
    assert_eq!(snark.zi_primary[0].value(), 5);
    snark.prove_step(pp, &claim, &vec![f(0)], &vec![f(0)], step_results()).unwrap();
    assert_eq!(snark.i, 2);
    assert_eq!(snark.zi_primary[0].value(), 8);
    assert_eq!(snark.zi_secondary[0].value(), 9);
    assert_eq!(snark.get_program_counter().value(), 0);
    assert_eq!(snark.r_u_primary[0].as_ref().unwrap().u.value(), 43);
    assert_eq!(snark.r_u_secondary[0].as_ref().unwrap().u.value(), 23);
    assert_eq!(snark.l_u_secondary.x[0].value(), 51);
    assert!(snark.r_u_primary[1].is_none());
}

#[test]
fn prove_step_errors() {
    let rcp = params();
    let pp = rcp.index(0);
    let claim = RunningClaim::new(pp, 0, 0u8, 0u8, 2);
    let mut snark = base_snark(&rcp);
    snark.prove_step(pp, &claim, &vec![f(0)], &vec![f(0)], step_results()).unwrap();
    let mut bad_fold = step_results();
    bad_fold.secondary_fold = Err(NovaError::ProofVerifyError);
    let r = snark.prove_step(pp, &claim, &vec![f(0)], &vec![f(0)], bad_fold);
    assert_eq!(r.unwrap_err(), SuperNovaError::NovaError(NovaError::ProofVerifyError));
    assert_eq!(snark.i, 1);
    let r = snark.prove_step(pp, &claim, &vec![], &vec![f(0)], step_results());
    assert_eq!(r.unwrap_err(), SuperNovaError::NovaError(NovaError::InvalidInitialInputLength));
    let mut unsat = step_results();
    unsat.primary_instance = None;
    let r = snark.prove_step(pp, &claim, &vec![f(0)], &vec![f(0)], unsat);
    assert_eq!(r.unwrap_err(), SuperNovaError::NovaError(NovaError::UnSat));
}

#[test]
fn verification() {
    let rcp = params();
    let pp = rcp.index(0);
    let claim = RunningClaim::new(pp, 0, 0u8, 0u8, 2);
    let mut snark = base_snark(&rcp);
    // nothing proved yet
    let r = snark.verify(pp, &claim, &vec![f(0)], &vec![f(0)], &verify_results(11, 12));
    assert_eq!(r.unwrap_err(), SuperNovaError::NovaError(NovaError::ProofVerifyError));
    snark.prove_step(pp, &claim, &vec![f(0)], &vec![f(0)], step_results()).unwrap();
    assert!(snark.verify(pp, &claim, &vec![f(0)], &vec![f(0)], &verify_results(11, 12)).is_ok());
    // the hashes must be the public outputs of the last secondary step
    let r = snark.verify(pp, &claim, &vec![f(0)], &vec![f(0)], &verify_results(11, 13));
    assert_eq!(r.unwrap_err(), SuperNovaError::NovaError(NovaError::ProofVerifyError));
    let mut unsat = verify_results(11, 12);
    unsat.sat_primary = Err(NovaError::UnSatIndex(3));
    let r = snark.verify(pp, &claim, &vec![f(0)], &vec![f(0)], &unsat);
    assert_eq!(r.unwrap_err(), SuperNovaError::UnSatIndex("r_primary", 3));
    let mut unsat2 = verify_results(11, 12);
    unsat2.sat_last_secondary = Err(NovaError::UnSat);
    let r = snark.verify(pp, &claim, &vec![f(0)], &vec![f(0)], &unsat2);
    assert_eq!(r.unwrap_err(), SuperNovaError::NovaError(NovaError::UnSat));
}

#[test]
fn backend_errors_are_passed_on() {
    let rcp = params();
    let pp = rcp.index(0);
    let claim = RunningClaim::new(pp, 0, 0u8, 0u8, 2);
    let mut snark = base_snark(&rcp);
    snark.prove_step(pp, &claim, &vec![f(0)], &vec![f(0)], step_results()).unwrap();
    let mut bad = step_results();
    bad.primary_cross_term = Err(NovaError::DecompressionError);
    let r = snark.prove_step(pp, &claim, &vec![f(0)], &vec![f(0)], bad);
    assert_eq!(r.unwrap_err(), SuperNovaError::NovaError(NovaError::DecompressionError));
    assert_eq!(snark.get_program_counter().value(), 1);
}

#[test]
fn what_the_next_steps_fold_and_hash() {
    let rcp = params();
    let snark = base_snark(&rcp);
    let pp = rcp.index(0);
    // the circuit that ran folds into its stored pair, the other into a trivial one
    let (u0, w0) = snark.primary_running_pair(pp, 0);
    assert_eq!(u0.comm_w, Commitment::Point(7));
    assert_eq!(u0.u.value(), 1);
    assert_eq!(w0.e.len(), 10);
    let (u1, w1) = snark.primary_running_pair(pp, 1);
    assert_eq!((u1.comm_w, u1.comm_e), (Commitment::Identity, Commitment::Identity));
    assert_eq!((u1.x.len(), u1.u.value()), (2, 0));
    assert_eq!((w1.w.len(), w1.e.len()), (12, 10));
    assert!(w1.w.iter().all(|v| v.value() == 0));
    // the hashes absorb digest, step count, program counter, initial inputs, state
    let h1: Vec<u64> = snark.primary_hash_inputs(&vec![f(9)]).iter().map(|v| v.value()).collect();
    assert_eq!(h1, vec![42, 0, 1, 9, 5]);
    let h2: Vec<u64> = snark.secondary_hash_inputs(&vec![f(8)]).iter().map(|v| v.value()).collect();
    assert_eq!(h2, vec![42, 0, 8, 6]);
    let insts = snark.primary_instances_to_hash(pp);
    assert_eq!(insts.len(), 2);
    assert_eq!(insts[0].comm_w, Commitment::Point(7));
    assert_eq!((insts[1].comm_w, insts[1].u.value(), insts[1].x.len()), (Commitment::Identity, 0, 2));
}
