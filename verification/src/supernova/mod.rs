//! SuperNova: non-uniform incrementally verifiable computation.
//!
//! A recursive proof keeps one running (relaxed) instance per augmented primary
//! circuit and one running instance for the secondary circuit. Each step folds
//! the previous secondary step into the secondary running instance, runs the
//! primary circuit selected by the program counter, folds it into that circuit's
//! running instance, and runs the secondary circuit over the result.
//!
//! Circuit synthesis, folding and hashing are performed by the proving backend;
//! the functions here take what the backend produced for a step and decide, as the
//! proof system prescribes, whether the step is accepted and what the new proof is.
pub mod utils;

use crate::errors::{NovaError, SuperNovaError};
use crate::field::PrimeField;
use crate::gadgets::scalar_as_base;
use crate::instances::{
    commitment_key_size, copy_vec, opt_instance_model, opt_witness_model,
    spec_commitment_key_size, CommitmentKey, R1CSInstance, R1CSShapeSize, R1CSWitness,
    RelaxedR1CSInstance, RelaxedR1CSWitness,
};
use std::marker::PhantomData;
use vstd::prelude::*;

verus! {

/// Width in bits of a limb of a big natural number in the circuits.
pub const BN_LIMB_WIDTH: usize = 64;

/// Number of limbs of a big natural number in the circuits.
pub const BN_N_LIMBS: usize = 4;

/// Parameters of an augmented circuit.
#[derive(Clone, Copy, Debug, PartialEq, Eq)]
pub struct SuperNovaAugmentedCircuitParams {
    pub limb_width: usize,
    pub n_limbs: usize,
    pub is_primary_circuit: bool,
}

impl SuperNovaAugmentedCircuitParams {
    /// New parameters.
    pub fn new(limb_width: usize, n_limbs: usize, is_primary_circuit: bool) -> (r: Self)
        ensures
            r.limb_width == limb_width,
            r.n_limbs == n_limbs,
            r.is_primary_circuit == is_primary_circuit,
    {
        SuperNovaAugmentedCircuitParams { limb_width, n_limbs, is_primary_circuit }
    }

    /// Number of limbs.
    pub fn get_n_limbs(&self) -> (r: usize)
        ensures
            r == self.n_limbs,
    {
        self.n_limbs
    }
}

/// The public parameters of one augmented primary circuit and of the secondary
/// circuit.
pub struct PublicParams<F1, F2> {
    /// Number of inputs and outputs of the primary step circuit.
    pub f_arity_primary: usize,
    /// Number of inputs and outputs of the secondary step circuit.
    pub f_arity_secondary: usize,
    /// Commitment key of the primary circuit, shared by all the circuits' parameters.
    pub ck_primary: Option<CommitmentKey>,
    /// Shape of the augmented primary circuit.
    pub r1cs_shape_primary: R1CSShapeSize,
    /// Commitment key of the secondary circuit, shared by all the circuits' parameters.
    pub ck_secondary: Option<CommitmentKey>,
    /// Shape of the augmented secondary circuit.
    pub r1cs_shape_secondary: R1CSShapeSize,
    pub augmented_circuit_params_primary: SuperNovaAugmentedCircuitParams,
    pub augmented_circuit_params_secondary: SuperNovaAugmentedCircuitParams,
    pub _p: PhantomData<(F1, F2)>,
}

impl<F1: PrimeField, F2: PrimeField> PublicParams<F1, F2> {
    /// Public parameters without commitment keys, for step circuits of the given
    /// arities whose augmented circuits synthesize to the given shapes.
    pub fn setup_without_commitkey(
        arity_primary: usize,
        arity_secondary: usize,
        r1cs_shape_primary: R1CSShapeSize,
        r1cs_shape_secondary: R1CSShapeSize,
    ) -> (r: Self)
        ensures
            r == params_without_keys::<F1, F2>(arity_primary, arity_secondary, r1cs_shape_primary, r1cs_shape_secondary),
            r.f_arity_primary == arity_primary,
            r.f_arity_secondary == arity_secondary,
            r.ck_primary is None,
            r.ck_secondary is None,
            r.r1cs_shape_primary == r1cs_shape_primary,
            r.r1cs_shape_secondary == r1cs_shape_secondary,
            r.augmented_circuit_params_primary == (SuperNovaAugmentedCircuitParams {
                limb_width: BN_LIMB_WIDTH,
                n_limbs: BN_N_LIMBS,
                is_primary_circuit: true,
            }),
            r.augmented_circuit_params_secondary == (SuperNovaAugmentedCircuitParams {
                limb_width: BN_LIMB_WIDTH,
                n_limbs: BN_N_LIMBS,
                is_primary_circuit: false,
            }),
    {
        PublicParams {
            f_arity_primary: arity_primary,
            f_arity_secondary: arity_secondary,
            ck_primary: None,
            r1cs_shape_primary,
            ck_secondary: None,
            r1cs_shape_secondary,
            augmented_circuit_params_primary: SuperNovaAugmentedCircuitParams::new(
                BN_LIMB_WIDTH,
                BN_N_LIMBS,
                true,
            ),
            augmented_circuit_params_secondary: SuperNovaAugmentedCircuitParams::new(
                BN_LIMB_WIDTH,
                BN_N_LIMBS,
                false,
            ),
            _p: PhantomData,
        }
    }

    /// The number of constraints in the primary and secondary circuits.
    pub fn num_constraints(&self) -> (r: (usize, usize))
        ensures
            r == (self.r1cs_shape_primary.num_cons, self.r1cs_shape_secondary.num_cons),
    {
        (self.r1cs_shape_primary.num_cons, self.r1cs_shape_secondary.num_cons)
    }

    /// The number of variables in the primary and secondary circuits.
    pub fn num_variables(&self) -> (r: (usize, usize))
        ensures
            r == (self.r1cs_shape_primary.num_vars, self.r1cs_shape_secondary.num_vars),
    {
        (self.r1cs_shape_primary.num_vars, self.r1cs_shape_secondary.num_vars)
    }

    /// The number of field elements that the hash of the primary running state
    /// absorbs (program digest, step counter, program counter, initial and current
    /// primary state, and the secondary running instance), and the number that the
    /// hash of the secondary running state absorbs (digest, counter, initial and
    /// current secondary state, and every primary running instance).
    pub fn num_ro_inputs(&self, num_augmented_circuits: usize) -> (r: (usize, usize))
        requires
            3 + 2 * self.f_arity_primary + 7 + 2 * self.augmented_circuit_params_primary.n_limbs
                <= usize::MAX,
            2 + 2 * self.f_arity_secondary + num_augmented_circuits * (7 + 2
                * self.augmented_circuit_params_primary.n_limbs) <= usize::MAX,
        ensures
            r.0 == 3 + 2 * self.f_arity_primary + (7 + 2
                * self.augmented_circuit_params_primary.n_limbs),
            r.1 == 2 + 2 * self.f_arity_secondary + num_augmented_circuits * (7 + 2
                * self.augmented_circuit_params_primary.n_limbs),
    {
        let n_limbs = self.augmented_circuit_params_primary.get_n_limbs();
        let per_instance = 7 + 2 * n_limbs;
        let primary = 3 + 2 * self.f_arity_primary + per_instance;
        assert(num_augmented_circuits * per_instance <= usize::MAX) by (nonlinear_arith)
            requires
                2 + 2 * self.f_arity_secondary + num_augmented_circuits * per_instance
                    <= usize::MAX,
                per_instance == 7 + 2 * self.augmented_circuit_params_primary.n_limbs,
        ;
        let secondary = 2 + 2 * self.f_arity_secondary + num_augmented_circuits * per_instance;
        (primary, secondary)
    }
}

/// Whether the commitment keys of a set of parameters are in place.
#[derive(Clone, Copy, Debug, PartialEq, Eq)]
pub enum Stage {
    Incomplete,
    Complete,
}

/// The length of an optional commitment key, zero when absent.
pub open spec fn ck_len(ck: Option<CommitmentKey>) -> nat {
    match ck {
        Some(k) => k.length as nat,
        None => 0,
    }
}

/// The larger of two numbers.
pub open spec fn max_nat(a: nat, b: nat) -> nat {
    if a >= b {
        a
    } else {
        b
    }
}

/// The number of generators that a primary commitment key needs to serve every
/// parameter set in `pps`, including keys they already have.
pub open spec fn needed_primary<F1, F2>(pps: Seq<PublicParams<F1, F2>>) -> nat
    decreases pps.len(),
{
    if pps.len() == 0 {
        0
    } else {
        max_nat(
            needed_primary(pps.drop_last()),
            max_nat(ck_len(pps.last().ck_primary), spec_commitment_key_size(pps.last().r1cs_shape_primary)),
        )
    }
}

/// The same, for the secondary commitment key.
pub open spec fn needed_secondary<F1, F2>(pps: Seq<PublicParams<F1, F2>>) -> nat
    decreases pps.len(),
{
    if pps.len() == 0 {
        0
    } else {
        max_nat(
            needed_secondary(pps.drop_last()),
            max_nat(ck_len(pps.last().ck_secondary), spec_commitment_key_size(pps.last().r1cs_shape_secondary)),
        )
    }
}

/// Every parameter set carries commitment keys of the same lengths as the first.
pub open spec fn keys_aligned<F1, F2>(pps: Seq<PublicParams<F1, F2>>) -> bool {
    forall|i: int|
        0 <= i < pps.len() ==> {
            &&& (#[trigger] pps[i]).ck_primary is Some
            &&& pps[i].ck_secondary is Some
            &&& ck_len(pps[i].ck_primary) == ck_len(pps[0].ck_primary)
            &&& ck_len(pps[i].ck_secondary) == ck_len(pps[0].ck_secondary)
        }
}

/// `a` and `b` agree on everything but their commitment keys.
pub open spec fn same_but_keys<F1, F2>(a: PublicParams<F1, F2>, b: PublicParams<F1, F2>) -> bool {
    &&& a.f_arity_primary == b.f_arity_primary
    &&& a.f_arity_secondary == b.f_arity_secondary
    &&& a.r1cs_shape_primary == b.r1cs_shape_primary
    &&& a.r1cs_shape_secondary == b.r1cs_shape_secondary
    &&& a.augmented_circuit_params_primary == b.augmented_circuit_params_primary
    &&& a.augmented_circuit_params_secondary == b.augmented_circuit_params_secondary
}

/// The parameters of a circuit before its commitment keys are known.
pub open spec fn params_without_keys<F1, F2>(
    arity_primary: usize,
    arity_secondary: usize,
    shape_primary: R1CSShapeSize,
    shape_secondary: R1CSShapeSize,
) -> PublicParams<F1, F2> {
    PublicParams {
        f_arity_primary: arity_primary,
        f_arity_secondary: arity_secondary,
        ck_primary: None,
        r1cs_shape_primary: shape_primary,
        ck_secondary: None,
        r1cs_shape_secondary: shape_secondary,
        augmented_circuit_params_primary: SuperNovaAugmentedCircuitParams {
            limb_width: BN_LIMB_WIDTH,
            n_limbs: BN_N_LIMBS,
            is_primary_circuit: true,
        },
        augmented_circuit_params_secondary: SuperNovaAugmentedCircuitParams {
            limb_width: BN_LIMB_WIDTH,
            n_limbs: BN_N_LIMBS,
            is_primary_circuit: false,
        },
        _p: PhantomData,
    }
}

/// The parameters of each primary circuit, given by its step arity and augmented
/// shape, beside the secondary circuit, before the keys are known.
pub open spec fn keyless_params<F1, F2>(
    circuits: Seq<(usize, R1CSShapeSize)>,
    arity_secondary: usize,
    shape_secondary: R1CSShapeSize,
) -> Seq<PublicParams<F1, F2>> {
    Seq::new(
        circuits.len(),
        |i: int| params_without_keys(circuits[i].0, arity_secondary, circuits[i].1, shape_secondary),
    )
}

/// The public parameters of every augmented circuit of a non-uniform computation.
pub struct RunningClaimParams<F1, F2> {
    /// The parameters of each augmented circuit.
    pub pp_vec: Vec<PublicParams<F1, F2>>,
    /// The digest of these parameters, if known.
    pub digest: Option<F1>,
    stage: Stage,
}

impl<F1, F2> RunningClaimParams<F1, F2> {
    /// The parameters of each augmented circuit.
    pub closed spec fn params(&self) -> Seq<PublicParams<F1, F2>> {
        self.pp_vec@
    }

    /// The digest of the parameters, if known.
    pub closed spec fn known_digest(&self) -> Option<F1> {
        self.digest
    }

    /// The parameters are complete: every circuit's keys are in place, or were
    /// given aligned.
    pub closed spec fn is_complete(&self) -> bool {
        self.stage == Stage::Complete
    }

    /// Complete parameters carry keys of one common length each.
    pub open spec fn wf(&self) -> bool {
        self.is_complete() ==> keys_aligned(self.params())
    }
}

impl<F1: PrimeField, F2: PrimeField> RunningClaimParams<F1, F2> {
    /// Parameters of the non-uniform computation whose primary circuit `i` has step
    /// arity `circuits[i].0` and synthesizes to the augmented shape
    /// `circuits[i].1`, beside the secondary circuit of arity `arity_secondary` and
    /// augmented shape `shape_secondary`: each circuit's parameters are set up
    /// without keys, then completed with keys large enough for every circuit.
    pub fn new(
        circuits: Vec<(usize, R1CSShapeSize)>,
        arity_secondary: usize,
        shape_secondary: R1CSShapeSize,
    ) -> (r: Self)
        requires
            circuits@.len() > 0,
        ensures
            r.wf(),
            keys_aligned(r.params()),
            r.is_complete(),
            r.known_digest() is None,
            r.params().len() == circuits@.len(),
            forall|i: int|
                0 <= i < circuits@.len() ==> {
                    let bare = keyless_params::<F1, F2>(circuits@, arity_secondary, shape_secondary);
                    &&& same_but_keys(#[trigger] r.params()[i], bare[i])
                    &&& r.params()[i].ck_primary == Some(CommitmentKey { length: needed_primary(bare) as usize })
                    &&& r.params()[i].ck_secondary == Some(CommitmentKey { length: needed_secondary(bare) as usize })
                },
    {
        let ghost bare = keyless_params::<F1, F2>(circuits@, arity_secondary, shape_secondary);
        let mut pp_vec: Vec<PublicParams<F1, F2>> = Vec::new();
        let mut i: usize = 0;
        while i < circuits.len()
            invariant
                i <= circuits@.len(),
                bare == keyless_params::<F1, F2>(circuits@, arity_secondary, shape_secondary),
                pp_vec@.len() == i,
                forall|j: int| 0 <= j < i ==> #[trigger] pp_vec@[j] == bare[j],
            decreases circuits@.len() - i,
        {
            let (arity, shape) = circuits[i];
            pp_vec.push(PublicParams::setup_without_commitkey(arity, arity_secondary, shape, shape_secondary));
            i = i + 1;
        }
        proof {
            assert(pp_vec@ =~= bare);
            lemma_needed_fits(pp_vec@);
        }
        let mut params = RunningClaimParams { pp_vec, digest: None, stage: Stage::Incomplete };
        params.complete();
        params
    }

    /// Parameters from per-circuit parameters and a digest, taken on trust, that
    /// matches them once completed. They are complete as given when every one of
    /// them carries both keys at the lengths of the first one's; otherwise they are
    /// completed with keys large enough for every circuit.
    pub fn from_pp_vec(pp_vec: Vec<PublicParams<F1, F2>>, digest: Option<F1>) -> (r: Self)
        requires
            pp_vec@.len() > 0,
        ensures
            r.wf(),
            keys_aligned(r.params()),
            r.is_complete(),
            r.known_digest() == digest,
            r.params().len() == pp_vec@.len(),
            keys_aligned(pp_vec@) ==> r.params() == pp_vec@,
            !keys_aligned(pp_vec@) ==> forall|i: int|
                0 <= i < pp_vec@.len() ==> {
                    &&& same_but_keys(#[trigger] r.params()[i], pp_vec@[i])
                    &&& r.params()[i].ck_primary == Some(CommitmentKey { length: needed_primary(pp_vec@) as usize })
                    &&& r.params()[i].ck_secondary == Some(CommitmentKey { length: needed_secondary(pp_vec@) as usize })
                },
    {
        proof {
            lemma_needed_fits(pp_vec@);
        }
        let num_pp = pp_vec.len();
        let primary_len = ck_length_or_zero(&pp_vec[0].ck_primary);
        let secondary_len = ck_length_or_zero(&pp_vec[0].ck_secondary);
        let mut num_complete: usize = 0;
        let mut i: usize = 0;
        while i < num_pp
            invariant
                num_pp == pp_vec@.len(),
                i <= num_pp,
                num_complete <= i,
                primary_len == ck_len(pp_vec@[0].ck_primary),
                secondary_len == ck_len(pp_vec@[0].ck_secondary),
                num_complete == i <==> forall|j: int|
                    0 <= j < i ==> {
                        &&& (#[trigger] pp_vec@[j]).ck_primary is Some
                        &&& pp_vec@[j].ck_secondary is Some
                        &&& ck_len(pp_vec@[j].ck_primary) == ck_len(pp_vec@[0].ck_primary)
                        &&& ck_len(pp_vec@[j].ck_secondary) == ck_len(pp_vec@[0].ck_secondary)
                    },
            decreases num_pp - i,
        {
            let pp = &pp_vec[i];
            if pp.ck_primary.is_some() && pp.ck_secondary.is_some()
                && ck_length_or_zero(&pp.ck_primary) == primary_len
                && ck_length_or_zero(&pp.ck_secondary) == secondary_len {
                num_complete = num_complete + 1;
            }
            i = i + 1;
        }
        let stage = if num_complete == num_pp {
            Stage::Complete
        } else {
            Stage::Incomplete
        };
        let mut params = RunningClaimParams { pp_vec, digest, stage };
        params.complete();
        params
    }

    /// Primary and secondary commitment keys sized for the largest of the circuits,
    /// and no smaller than any key already present.
    pub fn compute_commitment_keys(&self) -> (r: (CommitmentKey, CommitmentKey))
        requires
            self.params().len() > 0,
        ensures
            r.0.length == needed_primary(self.params()),
            r.1.length == needed_secondary(self.params()),
    {
        proof {
            lemma_needed_fits(self.params());
        }
        let mut size_primary: usize = 0;
        let mut size_secondary: usize = 0;
        let mut i: usize = 0;
        proof {
            assert(self.params().subrange(0, 0) =~= Seq::<PublicParams<F1, F2>>::empty());
        }
        while i < self.pp_vec.len()
            invariant
                i <= self.params().len(),
                needed_primary(self.params()) <= usize::MAX,
                needed_secondary(self.params()) <= usize::MAX,
                size_primary == needed_primary(self.params().subrange(0, i as int)),
                size_secondary == needed_secondary(self.params().subrange(0, i as int)),
            decreases self.params().len() - i,
        {
            let pp = &self.pp_vec[i];
            let cp = ck_length_or_zero(&pp.ck_primary);
            let sp = commitment_key_size(&pp.r1cs_shape_primary);
            let np = if cp >= sp {
                cp
            } else {
                sp
            };
            let cs = ck_length_or_zero(&pp.ck_secondary);
            let ss = commitment_key_size(&pp.r1cs_shape_secondary);
            let ns = if cs >= ss {
                cs
            } else {
                ss
            };
            if np > size_primary {
                size_primary = np;
            }
            if ns > size_secondary {
                size_secondary = ns;
            }
            proof {
                let pre = self.params().subrange(0, i as int);
                let nxt = self.params().subrange(0, i + 1);
                assert(nxt.drop_last() =~= pre);
                assert(nxt.last() == self.params()[i as int]);
                lemma_needed_prefix_bound(self.params(), i + 1);
            }
            i = i + 1;
        }
        proof {
            assert(self.params().subrange(0, self.params().len() as int) =~= self.params());
        }
        (CommitmentKey::setup(size_primary), CommitmentKey::setup(size_secondary))
    }

    /// Gives every parameter set the shared commitment keys, unless complete.
    pub fn set_commitment_keys(&mut self)
        requires
            old(self).wf(),
            old(self).params().len() > 0,
        ensures
            final(self).wf(),
            keys_aligned(final(self).params()),
            final(self).is_complete(),
            final(self).known_digest() == old(self).known_digest(),
            final(self).params().len() == old(self).params().len(),
            old(self).is_complete() ==> final(self).params() == old(self).params(),
            !old(self).is_complete() ==> forall|i: int|
                0 <= i < old(self).params().len() ==> {
                    &&& same_but_keys(#[trigger] final(self).params()[i], old(self).params()[i])
                    &&& final(self).params()[i].ck_primary == Some(CommitmentKey { length: needed_primary(old(self).params()) as usize })
                    &&& final(self).params()[i].ck_secondary == Some(CommitmentKey { length: needed_secondary(old(self).params()) as usize })
                },
    {
        proof {
            lemma_needed_fits(self.params());
        }
        if matches!(self.stage, Stage::Complete) {
            return;
        }
        let (ck_primary, ck_secondary) = self.compute_commitment_keys();
        let n = self.pp_vec.len();
        let ghost old_pps = self.params();
        let ghost old_digest = self.digest;
        let mut i: usize = 0;
        while i < n
            invariant
                self.digest == old_digest,
                n == old_pps.len(),
                i <= n,
                self.params().len() == n,
                ck_primary.length == needed_primary(old_pps),
                ck_secondary.length == needed_secondary(old_pps),
                forall|j: int|
                    0 <= j < n ==> same_but_keys(#[trigger] self.params()[j], old_pps[j]),
                forall|j: int|
                    0 <= j < i ==> {
                        &&& (#[trigger] self.params()[j]).ck_primary == Some(ck_primary)
                        &&& self.params()[j].ck_secondary == Some(ck_secondary)
                    },
            decreases n - i,
        {
            self.pp_vec[i].ck_primary = Some(ck_primary);
            self.pp_vec[i].ck_secondary = Some(ck_secondary);
            i = i + 1;
        }
        self.stage = Stage::Complete;
    }

    /// Completes the parameters: puts the shared commitment keys in place unless
    /// they already are.
    pub fn complete(&mut self)
        requires
            old(self).wf(),
            old(self).params().len() > 0,
        ensures
            final(self).wf(),
            keys_aligned(final(self).params()),
            final(self).is_complete(),
            final(self).known_digest() == old(self).known_digest(),
            final(self).params().len() == old(self).params().len(),
            old(self).is_complete() ==> final(self).params() == old(self).params(),
            !old(self).is_complete() ==> forall|i: int|
                0 <= i < old(self).params().len() ==> {
                    &&& same_but_keys(#[trigger] final(self).params()[i], old(self).params()[i])
                    &&& final(self).params()[i].ck_primary == Some(CommitmentKey { length: needed_primary(old(self).params()) as usize })
                    &&& final(self).params()[i].ck_secondary == Some(CommitmentKey { length: needed_secondary(old(self).params()) as usize })
                },
            !old(self).is_complete() ==> forall|i: int|
                0 <= i < final(self).params().len() ==> {
                    &&& spec_commitment_key_size((#[trigger] final(self).params()[i]).r1cs_shape_primary) <= ck_len(final(self).params()[i].ck_primary)
                    &&& spec_commitment_key_size(final(self).params()[i].r1cs_shape_secondary) <= ck_len(final(self).params()[i].ck_secondary)
                },
    {
        proof {
            lemma_needed_fits(self.params());
        }
        if matches!(self.stage, Stage::Complete) {
            return;
        }
        self.set_commitment_keys();
        proof {
            assert forall|i: int| 0 <= i < final(self).params().len() implies {
                &&& spec_commitment_key_size((#[trigger] final(self).params()[i]).r1cs_shape_primary) <= ck_len(final(self).params()[i].ck_primary)
                &&& spec_commitment_key_size(final(self).params()[i].r1cs_shape_secondary) <= ck_len(final(self).params()[i].ck_secondary)
            } by {
                lemma_needed_covers_all(old(self).params(), i);
            }
        }
    }

    /// The parameters of the circuit at `index`.
    pub fn index(&self, index: usize) -> (r: &PublicParams<F1, F2>)
        requires
            index < self.params().len(),
        ensures
            *r == self.params()[index as int],
    {
        &self.pp_vec[index]
    }
}

/// The length of an optional commitment key, zero when absent.
pub fn ck_length_or_zero(ck: &Option<CommitmentKey>) -> (r: usize)
    ensures
        r == ck_len(*ck),
{
    match ck {
        Some(k) => k.length(),
        None => 0,
    }
}

/// The needed sizes fit in a `usize`: each is the length of a key or a dimension
/// of a shape.
pub proof fn lemma_needed_fits<F1, F2>(pps: Seq<PublicParams<F1, F2>>)
    ensures
        needed_primary(pps) <= usize::MAX,
        needed_secondary(pps) <= usize::MAX,
    decreases pps.len(),
{
    if pps.len() > 0 {
        lemma_needed_fits(pps.drop_last());
    }
}

/// The needed sizes only grow along prefixes.
pub proof fn lemma_needed_prefix_bound<F1, F2>(pps: Seq<PublicParams<F1, F2>>, k: int)
    requires
        0 <= k <= pps.len(),
    ensures
        needed_primary(pps.subrange(0, k)) <= needed_primary(pps),
        needed_secondary(pps.subrange(0, k)) <= needed_secondary(pps),
    decreases pps.len() - k,
{
    if k < pps.len() {
        lemma_needed_prefix_bound(pps, k + 1);
        let a = pps.subrange(0, k + 1);
        assert(a.drop_last() =~= pps.subrange(0, k));
    } else {
        assert(pps.subrange(0, k) =~= pps);
    }
}

/// Keys sized by `needed_primary` and `needed_secondary` serve every circuit.
pub proof fn lemma_needed_covers_all<F1, F2>(pps: Seq<PublicParams<F1, F2>>, i: int)
    requires
        0 <= i < pps.len(),
    ensures
        spec_commitment_key_size(pps[i].r1cs_shape_primary) <= needed_primary(pps),
        spec_commitment_key_size(pps[i].r1cs_shape_secondary) <= needed_secondary(pps),
        ck_len(pps[i].ck_primary) <= needed_primary(pps),
        ck_len(pps[i].ck_secondary) <= needed_secondary(pps),
    decreases pps.len(),
{
    if i < pps.len() - 1 {
        lemma_needed_covers_all(pps.drop_last(), i);
        assert(pps.drop_last()[i] == pps[i]);
    }
}

/// One running claim of a non-uniform computation: the index of its augmented
/// circuit, and the secondary circuit that runs alongside it.
pub struct RunningClaim<C1, C2> {
    pub augmented_circuit_index: usize,
    pub c_secondary: C2,
    pub _phantom: PhantomData<C1>,
}

impl<C1, C2> RunningClaim<C1, C2> {
    /// A running claim for the augmented circuit at `augmented_circuit_index`.
    pub fn new<F1, F2>(
        _pp: &PublicParams<F1, F2>,
        augmented_circuit_index: usize,
        _circuit_primary: C1,
        circuit_secondary: C2,
        _num_augmented_circuits: usize,
    ) -> (r: Self)
        ensures
            r.augmented_circuit_index == augmented_circuit_index,
            r.c_secondary == circuit_secondary,
    {
        RunningClaim { augmented_circuit_index, c_secondary: circuit_secondary, _phantom: PhantomData }
    }

    /// The claim's augmented circuit index.
    pub fn get_circuit_index(&self) -> (r: usize)
        ensures
            r == self.augmented_circuit_index,
    {
        self.augmented_circuit_index
    }
}

/// The running claims of a computation, indexed by augmented circuit.
pub struct RunningClaims<C1, C2> {
    pub claims: Vec<RunningClaim<C1, C2>>,
}

impl<C1, C2> RunningClaims<C1, C2> {
    /// Claims from a list.
    pub fn new(running_claims: Vec<RunningClaim<C1, C2>>) -> (r: Self)
        ensures
            r.claims@ == running_claims@,
    {
        RunningClaims { claims: running_claims }
    }

    /// The claim at `index`.
    pub fn index(&self, index: usize) -> (r: &RunningClaim<C1, C2>)
        requires
            index < self.claims@.len(),
        ensures
            *r == self.claims@[index as int],
    {
        &self.claims[index]
    }
}

/// A non-uniform computation: a family of primary step circuits, selected by the
/// program counter, and the secondary circuit that runs alongside each.
pub trait NonUniformCircuit<F1: PrimeField, F2: PrimeField, C1, C2: Default> {
    /// The initial program counter, zero unless overridden.
    fn initial_program_counter(&self) -> (r: F1)
        default_ensures
            r.val() == 0,
    {
        F1::zero()
    }

    /// The initial running claims, one per augmented circuit, in order.
    fn setup_running_claims(&self, running_claim_params: &RunningClaimParams<F1, F2>) -> (r: RunningClaims<C1, C2>)
        default_ensures
            r.claims@.len() == running_claim_params.params().len(),
            forall|j: int|
                0 <= j < r.claims@.len() ==> (#[trigger] r.claims@[j]).augmented_circuit_index == j
                    && call_ensures(Self::secondary_circuit, (self,), r.claims@[j].c_secondary),
    {
        let mut claims: Vec<RunningClaim<C1, C2>> = Vec::new();
        let mut i: usize = 0;
        while i < running_claim_params.pp_vec.len()
            invariant
                i <= running_claim_params.params().len(),
                claims@.len() == i,
                forall|j: int| 0 <= j < i ==> (#[trigger] claims@[j]).augmented_circuit_index == j
                    && call_ensures(Self::secondary_circuit, (self,), claims@[j].c_secondary),
            decreases running_claim_params.params().len() - i,
        {
            let claim = RunningClaim::new(
                &running_claim_params.pp_vec[i],
                i,
                self.primary_circuit(i),
                self.secondary_circuit(),
                self.num_circuits(),
            );
            claims.push(claim);
            i = i + 1;
        }
        RunningClaims::new(claims)
    }

    /// How many primary circuits there are.
    fn num_circuits(&self) -> usize;

    /// The primary circuit at `circuit_index`.
    fn primary_circuit(&self, circuit_index: usize) -> C1;

    /// The secondary circuit.
    fn secondary_circuit(&self) -> (r: C2)
        default_ensures
            call_ensures(C2::default, (), r),
    {
        C2::default()
    }
}

/// What synthesizing one augmented circuit produced: the next program counter, if
/// the circuit allocated one, with its value if assigned; and the step outputs with
/// their values if assigned.
pub struct StepSynthesis<F> {
    pub program_counter: Option<Option<F>>,
    pub outputs: Vec<Option<F>>,
}

/// Every entry is present.
pub open spec fn all_some<F>(s: Seq<Option<F>>) -> bool {
    forall|i: int| 0 <= i < s.len() ==> (#[trigger] s[i]) is Some
}

/// The entries' contents.
pub open spec fn unwrap_all<F>(s: Seq<Option<F>>) -> Seq<F> {
    s.map_values(|o: Option<F>| o->0)
}

/// The values of all entries, if every entry has one.
pub fn collect_values<F: PrimeField>(v: &Vec<Option<F>>) -> (r: Option<Vec<F>>)
    ensures
        r is Some <==> all_some(v@),
        r matches Some(x) ==> x@ == unwrap_all(v@),
{
    let mut out: Vec<F> = Vec::new();
    let mut i: usize = 0;
    while i < v.len()
        invariant
            i <= v@.len(),
            out@ == unwrap_all(v@.subrange(0, i as int)),
            all_some(v@.subrange(0, i as int)),
        decreases v@.len() - i,
    {
        match v[i] {
            Some(x) => {
                out.push(x);
            },
            None => {
                return None;
            },
        }
        i = i + 1;
        proof {
            assert(out@ =~= unwrap_all(v@.subrange(0, i as int)));
            assert forall|j: int| 0 <= j < i implies (#[trigger] v@.subrange(0, i as int)[j]) is Some by {
                if j < i - 1 {
                    assert(v@.subrange(0, i as int)[j] == v@.subrange(0, i - 1)[j]);
                }
            }
        }
    }
    proof {
        assert(v@.subrange(0, v@.len() as int) =~= v@);
    }
    Some(out)
}

/// What the backend produced for the base step.
pub struct BaseStepResults<F1, F2, C1, C2> {
    /// Synthesis of the primary augmented circuit, or `None` if it failed.
    pub primary: Option<StepSynthesis<F1>>,
    /// The primary instance and witness, or `None` if they could not be formed.
    pub primary_instance: Option<(R1CSInstance<F1, C1>, R1CSWitness<F1>)>,
    /// Synthesis of the secondary augmented circuit, or `None` if it failed.
    pub secondary: Option<StepSynthesis<F2>>,
    /// The secondary instance and witness, or `None` if they do not satisfy the shape.
    pub secondary_instance: Option<(R1CSInstance<F2, C2>, R1CSWitness<F2>)>,
}

/// The error with which the base step stops, if any.
pub open spec fn base_step_error<F1: PrimeField, F2: PrimeField, C1, C2>(
    pp: PublicParams<F1, F2>,
    z0_primary_len: nat,
    z0_secondary_len: nat,
    res: BaseStepResults<F1, F2, C1, C2>,
) -> Option<SuperNovaError> {
    if pp.ck_primary is None || pp.ck_secondary is None {
        Some(SuperNovaError::MissingCK)
    } else if z0_primary_len != pp.f_arity_primary || z0_secondary_len != pp.f_arity_secondary {
        Some(SuperNovaError::NovaError(NovaError::InvalidStepOutputLength))
    } else if res.primary is None {
        Some(SuperNovaError::NovaError(NovaError::SynthesisError))
    } else if res.primary->0.outputs@.len() != pp.f_arity_primary {
        Some(SuperNovaError::NovaError(NovaError::InvalidStepOutputLength))
    } else if res.primary_instance is None {
        Some(SuperNovaError::NovaError(NovaError::SynthesisError))
    } else if res.secondary is None {
        Some(SuperNovaError::NovaError(NovaError::SynthesisError))
    } else if res.secondary->0.outputs@.len() != pp.f_arity_secondary {
        Some(SuperNovaError::NovaError(NovaError::InvalidStepOutputLength))
    } else if res.secondary_instance is None {
        Some(SuperNovaError::NovaError(NovaError::UnSat))
    } else if !all_some(res.primary->0.outputs@) {
        Some(SuperNovaError::NovaError(NovaError::SynthesisError))
    } else if res.primary->0.program_counter->0 is None {
        Some(SuperNovaError::NovaError(NovaError::SynthesisError))
    } else if !all_some(res.secondary->0.outputs@) {
        Some(SuperNovaError::NovaError(NovaError::SynthesisError))
    } else {
        None
    }
}

/// What the backend produced for a step after the base step.
pub struct StepResults<F1, F2, C1, C2> {
    /// Folding the last secondary step into the secondary running instance.
    pub secondary_fold: Result<(RelaxedR1CSInstance<F2, C2>, RelaxedR1CSWitness<F2>), NovaError>,
    /// Decompressing the secondary fold's cross-term commitment.
    pub secondary_cross_term: Result<(), NovaError>,
    /// Synthesis of the primary augmented circuit, or `None` if it failed.
    pub primary: Option<StepSynthesis<F1>>,
    /// The primary instance and witness, or `None` if they do not satisfy the shape.
    pub primary_instance: Option<(R1CSInstance<F1, C1>, R1CSWitness<F1>)>,
    /// Folding the primary step into its circuit's running instance.
    pub primary_fold: Result<(RelaxedR1CSInstance<F1, C1>, RelaxedR1CSWitness<F1>), NovaError>,
    /// Decompressing the primary fold's cross-term commitment.
    pub primary_cross_term: Result<(), NovaError>,
    /// Synthesis of the secondary augmented circuit, or `None` if it failed.
    pub secondary: Option<StepSynthesis<F2>>,
    /// The secondary instance and witness, or `None` if they do not satisfy the shape.
    pub secondary_instance: Option<(R1CSInstance<F2, C2>, R1CSWitness<F2>)>,
}

/// The error with which a step after the base step stops, if any.
pub open spec fn step_error<F1: PrimeField, F2: PrimeField, C1, C2>(
    snark: RecursiveSNARK<F1, F2, C1, C2>,
    pp: PublicParams<F1, F2>,
    z0_primary_len: nat,
    z0_secondary_len: nat,
    res: StepResults<F1, F2, C1, C2>,
) -> Option<SuperNovaError> {
    if snark.r_u_secondary@.len() != 1 || snark.r_w_secondary@.len() != 1 {
        Some(SuperNovaError::NovaError(NovaError::ProofVerifyError))
    } else if pp.ck_primary is None || pp.ck_secondary is None {
        Some(SuperNovaError::MissingCK)
    } else if z0_primary_len != pp.f_arity_primary || z0_secondary_len != pp.f_arity_secondary {
        Some(SuperNovaError::NovaError(NovaError::InvalidInitialInputLength))
    } else if res.secondary_fold is Err {
        Some(SuperNovaError::NovaError(res.secondary_fold->Err_0))
    } else if res.secondary_cross_term is Err {
        Some(SuperNovaError::NovaError(res.secondary_cross_term->Err_0))
    } else if res.primary is None {
        Some(SuperNovaError::NovaError(NovaError::SynthesisError))
    } else if res.primary->0.outputs@.len() != pp.f_arity_primary {
        Some(SuperNovaError::NovaError(NovaError::InvalidInitialInputLength))
    } else if res.primary_instance is None {
        Some(SuperNovaError::NovaError(NovaError::UnSat))
    } else if res.primary_fold is Err {
        Some(SuperNovaError::NovaError(res.primary_fold->Err_0))
    } else if res.primary_cross_term is Err {
        Some(SuperNovaError::NovaError(res.primary_cross_term->Err_0))
    } else if res.secondary is None {
        Some(SuperNovaError::NovaError(NovaError::SynthesisError))
    } else if res.secondary->0.outputs@.len() != pp.f_arity_secondary {
        Some(SuperNovaError::NovaError(NovaError::InvalidInitialInputLength))
    } else if res.secondary_instance is None {
        Some(SuperNovaError::NovaError(NovaError::UnSat))
    } else if !all_some(res.primary->0.outputs@) {
        Some(SuperNovaError::NovaError(NovaError::SynthesisError))
    } else if res.primary->0.program_counter->0 is None {
        Some(SuperNovaError::NovaError(NovaError::SynthesisError))
    } else if !all_some(res.secondary->0.outputs@) {
        Some(SuperNovaError::NovaError(NovaError::SynthesisError))
    } else {
        None
    }
}

/// What the backend computed for verifying a proof: the two hashes of the running
/// state, and whether each running instance and the last secondary instance satisfy
/// their shapes.
pub struct VerifyResults<F1, F2> {
    pub hash_primary: F2,
    pub hash_secondary: F1,
    pub sat_primary: Result<(), NovaError>,
    pub sat_secondary: Result<(), NovaError>,
    pub sat_last_secondary: Result<(), NovaError>,
}

/// A failed satisfiability check, named by the instance it concerns.
pub open spec fn named_sat_error(name: &'static str, e: NovaError) -> SuperNovaError {
    match e {
        NovaError::UnSatIndex(i) => SuperNovaError::UnSatIndex(name, i),
        e => SuperNovaError::NovaError(e),
    }
}

/// Names a failed satisfiability check by the instance it concerns.
pub fn name_sat_error(name: &'static str, e: NovaError) -> (r: SuperNovaError)
    ensures
        r == named_sat_error(name, e),
{
    match e {
        NovaError::UnSatIndex(i) => SuperNovaError::UnSatIndex(name, i),
        e => SuperNovaError::NovaError(e),
    }
}

/// The error with which verification stops, if any.
pub open spec fn verify_error<F1: PrimeField, F2: PrimeField, C1, C2, P1, P2>(
    snark: RecursiveSNARK<F1, F2, C1, C2>,
    pp: PublicParams<F1, F2>,
    claim: RunningClaim<P1, P2>,
    res: VerifyResults<F1, F2>,
) -> Option<SuperNovaError> {
    let idx = claim.augmented_circuit_index as int;
    if snark.i == 0 {
        Some(SuperNovaError::NovaError(NovaError::ProofVerifyError))
    } else if snark.l_u_secondary.x@.len() != 2 {
        Some(SuperNovaError::NovaError(NovaError::ProofVerifyError))
    } else if snark.r_u_secondary@.len() != 1 || snark.r_w_secondary@.len() != 1 {
        Some(SuperNovaError::NovaError(NovaError::ProofVerifyError))
    } else if pp.ck_primary is None {
        Some(SuperNovaError::MissingCK)
    } else if snark.r_u_primary@[idx] matches Some(u) && u.x@.len() != 2 {
        Some(SuperNovaError::NovaError(NovaError::ProofVerifyError))
    } else if snark.r_u_secondary@[0] matches Some(u) && u.x@.len() != 2 {
        Some(SuperNovaError::NovaError(NovaError::ProofVerifyError))
    } else if snark.r_u_secondary@[0] is None {
        Some(SuperNovaError::NovaError(NovaError::ProofVerifyError))
    } else if res.hash_primary.val() != snark.l_u_secondary.x@[0].val() {
        Some(SuperNovaError::NovaError(NovaError::ProofVerifyError))
    } else if res.hash_secondary.val() != snark.l_u_secondary.x@[1].val() % F1::modulus() {
        Some(SuperNovaError::NovaError(NovaError::ProofVerifyError))
    } else if res.sat_primary is Err {
        Some(named_sat_error("r_primary", res.sat_primary->Err_0))
    } else if res.sat_secondary is Err {
        Some(named_sat_error("r_secondary", res.sat_secondary->Err_0))
    } else if res.sat_last_secondary is Err {
        Some(named_sat_error("l_secondary", res.sat_last_secondary->Err_0))
    } else {
        None
    }
}

/// Verification gets as far as the satisfiability checks.
pub open spec fn verify_reaches_sat<F1: PrimeField, F2: PrimeField, C1, C2, P1, P2>(
    snark: RecursiveSNARK<F1, F2, C1, C2>,
    pp: PublicParams<F1, F2>,
    claim: RunningClaim<P1, P2>,
    res: VerifyResults<F1, F2>,
) -> bool {
    verify_error(snark, pp, claim, VerifyResults {
        hash_primary: res.hash_primary,
        hash_secondary: res.hash_secondary,
        sat_primary: Ok(()),
        sat_secondary: Ok(()),
        sat_last_secondary: Ok(()),
    }) is None
}

/// Verification accepts a proof only when the hash the backend computed over the
/// primary running state is the last secondary step's first public output, the
/// hash over the secondary running state its second, the primary key is present
/// and every satisfiability check passed; a primary hash that differs, with the
/// outputs and the key in place, is refused as an invalid proof.
pub proof fn lemma_verify_accepts_only_matching_hashes<F1: PrimeField, F2: PrimeField, C1, C2, P1, P2>(
    snark: RecursiveSNARK<F1, F2, C1, C2>,
    pp: PublicParams<F1, F2>,
    claim: RunningClaim<P1, P2>,
    res: VerifyResults<F1, F2>,
)
    ensures
        verify_error(snark, pp, claim, res) is None ==> {
            &&& snark.i > 0
            &&& snark.l_u_secondary.x@.len() == 2
            &&& snark.r_u_secondary@.len() == 1
            &&& snark.r_w_secondary@.len() == 1
            &&& snark.r_u_secondary@[0] is Some && snark.r_u_secondary@[0]->0.x@.len() == 2
            &&& (snark.r_u_primary@[claim.augmented_circuit_index as int] is Some ==> snark.r_u_primary@[claim.augmented_circuit_index as int]->0.x@.len() == 2)
            &&& pp.ck_primary is Some
            &&& res.hash_primary.val() == snark.l_u_secondary.x@[0].val()
            &&& res.hash_secondary.val() == snark.l_u_secondary.x@[1].val() % F1::modulus()
            &&& res.sat_primary is Ok
            &&& res.sat_secondary is Ok
            &&& res.sat_last_secondary is Ok
        },
        snark.l_u_secondary.x@.len() == 2 && pp.ck_primary is Some && res.hash_primary.val()
            != snark.l_u_secondary.x@[0].val() ==> verify_error(snark, pp, claim, res) == Some(
            SuperNovaError::NovaError(NovaError::ProofVerifyError),
        ),
{
}

/// A step after the first cannot be proved without both commitment keys: with the
/// secondary running state in shape, a missing key is reported as such, and no
/// step succeeds without both keys and inputs and outputs of the declared arities.
pub proof fn lemma_step_needs_keys<F1: PrimeField, F2: PrimeField, C1, C2>(
    snark: RecursiveSNARK<F1, F2, C1, C2>,
    pp: PublicParams<F1, F2>,
    z0_primary_len: nat,
    z0_secondary_len: nat,
    res: StepResults<F1, F2, C1, C2>,
)
    requires
        res.primary is Some ==> res.primary->0.program_counter is Some,
    ensures
        snark.r_u_secondary@.len() == 1 && snark.r_w_secondary@.len() == 1 && (pp.ck_primary is None
            || pp.ck_secondary is None) ==> step_error(snark, pp, z0_primary_len, z0_secondary_len, res) == Some(
            SuperNovaError::MissingCK,
        ),
        step_error(snark, pp, z0_primary_len, z0_secondary_len, res) is None ==> {
            &&& snark.r_u_secondary@.len() == 1
            &&& snark.r_w_secondary@.len() == 1
            &&& res.secondary_fold is Ok
            &&& res.secondary_cross_term is Ok
            &&& res.primary_instance is Some
            &&& res.primary_fold is Ok
            &&& res.primary_cross_term is Ok
            &&& res.secondary_instance is Some
            &&& res.primary is Some && all_some(res.primary->0.outputs@) && res.primary->0.program_counter is Some
                && res.primary->0.program_counter->0 is Some
            &&& res.secondary is Some && all_some(res.secondary->0.outputs@)
            &&& pp.ck_primary is Some
            &&& pp.ck_secondary is Some
            &&& z0_primary_len == pp.f_arity_primary
            &&& z0_secondary_len == pp.f_arity_secondary
            &&& res.primary->0.outputs@.len() == pp.f_arity_primary
            &&& res.secondary->0.outputs@.len() == pp.f_arity_secondary
        },
{
}

/// The base step starts a proof only with both keys, initial inputs of the
/// declared arities and step outputs of those arities; with the keys and inputs
/// in place, primary outputs of another arity are refused as such.
pub proof fn lemma_base_step_checks_arities<F1: PrimeField, F2: PrimeField, C1, C2>(
    pp: PublicParams<F1, F2>,
    z0_primary_len: nat,
    z0_secondary_len: nat,
    res: BaseStepResults<F1, F2, C1, C2>,
)
    requires
        res.primary is Some ==> res.primary->0.program_counter is Some,
    ensures
        base_step_error(pp, z0_primary_len, z0_secondary_len, res) is None ==> {
            &&& res.primary_instance is Some
            &&& res.secondary_instance is Some
            &&& res.primary is Some && all_some(res.primary->0.outputs@) && res.primary->0.program_counter is Some
                && res.primary->0.program_counter->0 is Some
            &&& res.secondary is Some && all_some(res.secondary->0.outputs@)
            &&& pp.ck_primary is Some
            &&& pp.ck_secondary is Some
            &&& z0_primary_len == pp.f_arity_primary
            &&& z0_secondary_len == pp.f_arity_secondary
            &&& res.primary->0.outputs@.len() == pp.f_arity_primary
            &&& res.secondary->0.outputs@.len() == pp.f_arity_secondary
        },
        pp.ck_primary is Some && pp.ck_secondary is Some && z0_primary_len == pp.f_arity_primary
            && z0_secondary_len == pp.f_arity_secondary && res.primary is Some
            && res.primary->0.outputs@.len() != pp.f_arity_primary ==> base_step_error(pp, z0_primary_len, z0_secondary_len, res) == Some(
            SuperNovaError::NovaError(NovaError::InvalidStepOutputLength),
        ),
{
}

/// A non-uniform incrementally verifiable computation proof.
pub struct RecursiveSNARK<F1, F2, C1, C2> {
    /// Running witness of each augmented primary circuit, once it has run.
    pub r_w_primary: Vec<Option<RelaxedR1CSWitness<F1>>>,
    /// Running instance of each augmented primary circuit, once it has run.
    pub r_u_primary: Vec<Option<RelaxedR1CSInstance<F1, C1>>>,
    /// Running witness of the secondary circuit.
    pub r_w_secondary: Vec<Option<RelaxedR1CSWitness<F2>>>,
    /// Running instance of the secondary circuit.
    pub r_u_secondary: Vec<Option<RelaxedR1CSInstance<F2, C2>>>,
    /// Witness of the last secondary step.
    pub l_w_secondary: R1CSWitness<F2>,
    /// Instance of the last secondary step.
    pub l_u_secondary: R1CSInstance<F2, C2>,
    /// Digest of the public parameters.
    pub pp_digest: F1,
    /// Number of steps proved.
    pub i: usize,
    /// Current primary state.
    pub zi_primary: Vec<F1>,
    /// Current secondary state.
    pub zi_secondary: Vec<F2>,
    /// Index of the next augmented circuit to run.
    pub program_counter: F1,
    /// Index of the augmented circuit that ran last.
    pub augmented_circuit_index: usize,
    /// Number of augmented primary circuits.
    pub num_augmented_circuits: usize,
}

impl<F1: PrimeField, F2: PrimeField, C1: Copy, C2: Copy> RecursiveSNARK<F1, F2, C1, C2> {
    /// The base step of the computation: checks the parameters, the initial inputs
    /// and what the backend produced, and starts the proof with the first primary
    /// step as the running instance of `first_augmented_circuit_index`, a trivial
    /// secondary running instance, and the step counter at zero.
    pub fn iter_base_step<P1, P2>(
        pp: &PublicParams<F1, F2>,
        claim: &RunningClaim<P1, P2>,
        pp_digest: F1,
        initial_program_counter: Option<F1>,
        first_augmented_circuit_index: usize,
        num_augmented_circuits: usize,
        z0_primary: &Vec<F1>,
        z0_secondary: &Vec<F2>,
        res: BaseStepResults<F1, F2, C1, C2>,
    ) -> (r: Result<Self, SuperNovaError>)
        requires
            res.primary matches Some(p) ==> p.program_counter is Some,
        ensures
            match base_step_error(*pp, z0_primary@.len(), z0_secondary@.len(), res) {
                Some(e) => r == Err::<Self, SuperNovaError>(e),
                None => r matches Ok(s) && {
                    let (u1, w1) = res.primary_instance->0;
                    let (u2, w2) = res.secondary_instance->0;
                    &&& s.r_u_primary@.len() == num_augmented_circuits
                    &&& s.r_w_primary@.len() == num_augmented_circuits
                    &&& forall|j: int|
                        0 <= j < num_augmented_circuits ==> {
                            &&& (#[trigger] s.r_u_primary@[j]) is Some <==> j
                                == first_augmented_circuit_index
                            &&& s.r_w_primary@[j] is Some <==> j == first_augmented_circuit_index
                        }
                    &&& first_augmented_circuit_index < num_augmented_circuits ==> {
                        let ru = s.r_u_primary@[first_augmented_circuit_index as int]->0;
                        let rw = s.r_w_primary@[first_augmented_circuit_index as int]->0;
                        &&& ru.comm_w == u1.comm_w
                        &&& ru.comm_e == crate::instances::Commitment::<C1>::Identity
                        &&& ru.x@ == u1.x@
                        &&& ru.u.val() == 1
                        &&& rw.w@ == w1.w@
                        &&& rw.e@.len() == pp.r1cs_shape_primary.num_cons
                        &&& forall|k: int| 0 <= k < rw.e@.len() ==> (#[trigger] rw.e@[k]).val() == 0
                    }
                    &&& s.r_u_secondary@.len() == 1
                    &&& s.r_w_secondary@.len() == 1
                    &&& s.r_u_secondary@[0] matches Some(ru2) && {
                        &&& ru2.comm_w == crate::instances::Commitment::<C2>::Identity
                        &&& ru2.comm_e == crate::instances::Commitment::<C2>::Identity
                        &&& ru2.x@.len() == pp.r1cs_shape_secondary.num_io
                        &&& forall|k: int| 0 <= k < ru2.x@.len() ==> (#[trigger] ru2.x@[k]).val() == 0
                        &&& ru2.u.val() == 0
                    }
                    &&& s.r_w_secondary@[0] matches Some(rw2) && {
                        &&& rw2.w@.len() == pp.r1cs_shape_secondary.num_vars
                        &&& rw2.e@.len() == pp.r1cs_shape_secondary.num_cons
                        &&& forall|k: int| 0 <= k < rw2.w@.len() ==> (#[trigger] rw2.w@[k]).val() == 0
                        &&& forall|k: int| 0 <= k < rw2.e@.len() ==> (#[trigger] rw2.e@[k]).val() == 0
                    }
                    &&& s.l_u_secondary.model() == u2.model()
                    &&& s.l_w_secondary.model() == w2.model()
                    &&& s.pp_digest == pp_digest
                    &&& s.i == 0
                    &&& s.zi_primary@ == unwrap_all(res.primary->0.outputs@)
                    &&& s.zi_secondary@ == unwrap_all(res.secondary->0.outputs@)
                    &&& s.program_counter == res.primary->0.program_counter->0->0
                    &&& s.augmented_circuit_index == first_augmented_circuit_index
                    &&& s.num_augmented_circuits == num_augmented_circuits
                },
            },
            // the proof starts only with both keys, initial inputs of the declared
            // arities, and step outputs of those arities
            r matches Ok(s) ==> {
                &&& res.primary_instance is Some
                &&& res.secondary_instance is Some
                &&& res.primary is Some && all_some(res.primary->0.outputs@) && res.primary->0.program_counter is Some
                && res.primary->0.program_counter->0 is Some
                &&& res.secondary is Some && all_some(res.secondary->0.outputs@)
                &&& pp.ck_primary is Some
                &&& pp.ck_secondary is Some
                &&& z0_primary@.len() == pp.f_arity_primary
                &&& z0_secondary@.len() == pp.f_arity_secondary
                &&& s.zi_primary@.len() == pp.f_arity_primary
                &&& s.zi_secondary@.len() == pp.f_arity_secondary
            },
            // a primary step with outputs of the wrong arity is refused
            pp.ck_primary is Some && pp.ck_secondary is Some && z0_primary@.len() == pp.f_arity_primary
                && z0_secondary@.len() == pp.f_arity_secondary && res.primary is Some
                && res.primary->0.outputs@.len() != pp.f_arity_primary ==> r == Err::<Self, SuperNovaError>(
                SuperNovaError::NovaError(NovaError::InvalidStepOutputLength),
            ),
    {
        let ck_ok = pp.ck_primary.is_some() && pp.ck_secondary.is_some();
        if !ck_ok {
            return Err(SuperNovaError::MissingCK);
        }
        if z0_primary.len() != pp.f_arity_primary || z0_secondary.len() != pp.f_arity_secondary {
            return Err(SuperNovaError::NovaError(NovaError::InvalidStepOutputLength));
        }
        let BaseStepResults { primary, primary_instance, secondary, secondary_instance } = res;
        let primary = match primary {
            Some(p) => p,
            None => {
                return Err(SuperNovaError::NovaError(NovaError::SynthesisError));
            },
        };
        if primary.outputs.len() != pp.f_arity_primary {
            return Err(SuperNovaError::NovaError(NovaError::InvalidStepOutputLength));
        }
        let (u_primary, w_primary) = match primary_instance {
            Some(p) => p,
            None => {
                return Err(SuperNovaError::NovaError(NovaError::SynthesisError));
            },
        };
        let secondary = match secondary {
            Some(s) => s,
            None => {
                return Err(SuperNovaError::NovaError(NovaError::SynthesisError));
            },
        };
        if secondary.outputs.len() != pp.f_arity_secondary {
            return Err(SuperNovaError::NovaError(NovaError::InvalidStepOutputLength));
        }
        let (u_secondary, w_secondary) = match secondary_instance {
            Some(s) => s,
            None => {
                return Err(SuperNovaError::NovaError(NovaError::UnSat));
            },
        };
        // running instances: the primary step relaxed, a trivial secondary one
        let r_w_primary = RelaxedR1CSWitness::from_r1cs_witness(&pp.r1cs_shape_primary, &w_primary);
        let r_u_primary = RelaxedR1CSInstance::<F1, C1>::from_r1cs_instance(&u_primary);
        let mut r_w_secondary: Vec<Option<RelaxedR1CSWitness<F2>>> = Vec::new();
        r_w_secondary.push(Some(RelaxedR1CSWitness::default(&pp.r1cs_shape_secondary)));
        let mut r_u_secondary: Vec<Option<RelaxedR1CSInstance<F2, C2>>> = Vec::new();
        r_u_secondary.push(Some(RelaxedR1CSInstance::default(&pp.r1cs_shape_secondary)));
        // outputs of the two circuits and the next program counter
        let zi_primary = match collect_values(&primary.outputs) {
            Some(v) => v,
            None => {
                return Err(SuperNovaError::NovaError(NovaError::SynthesisError));
            },
        };
        let program_counter = match primary.program_counter {
            Some(Some(pc)) => pc,
            _ => {
                return Err(SuperNovaError::NovaError(NovaError::SynthesisError));
            },
        };
        let zi_secondary = match collect_values(&secondary.outputs) {
            Some(v) => v,
            None => {
                return Err(SuperNovaError::NovaError(NovaError::SynthesisError));
            },
        };
        // the first circuit's running instance; the others have not run yet
        let mut r_w_list: Vec<Option<RelaxedR1CSWitness<F1>>> = Vec::new();
        let mut r_u_list: Vec<Option<RelaxedR1CSInstance<F1, C1>>> = Vec::new();
        let mut j: usize = 0;
        while j < num_augmented_circuits
            invariant
                j <= num_augmented_circuits,
                r_w_list@.len() == j,
                r_u_list@.len() == j,
                forall|k: int|
                    0 <= k < j ==> {
                        &&& (#[trigger] r_u_list@[k]) is Some <==> k == first_augmented_circuit_index
                        &&& r_w_list@[k] is Some <==> k == first_augmented_circuit_index
                        &&& r_u_list@[k] is Some ==> r_u_list@[k]->0.model() == r_u_primary.model()
                        &&& r_w_list@[k] is Some ==> r_w_list@[k]->0.model() == r_w_primary.model()
                    },
            decreases num_augmented_circuits - j,
        {
            if j == first_augmented_circuit_index {
                r_w_list.push(Some(r_w_primary.copy()));
                r_u_list.push(Some(r_u_primary.copy()));
            } else {
                r_w_list.push(None);
                r_u_list.push(None);
            }
            j = j + 1;
        }
        Ok(RecursiveSNARK {
            r_w_primary: r_w_list,
            r_u_primary: r_u_list,
            r_w_secondary,
            r_u_secondary,
            l_w_secondary: w_secondary,
            l_u_secondary: u_secondary,
            pp_digest,
            i: 0,
            zi_primary,
            zi_secondary,
            program_counter,
            augmented_circuit_index: first_augmented_circuit_index,
            num_augmented_circuits,
        })
    }

    /// Proves one more step. The first call after the base step only counts it;
    /// later calls check the proof's shape, the parameters, the initial inputs and
    /// what the backend produced, and then record the folded running instances,
    /// the last secondary step, the new state and program counter, and count the
    /// step.
    pub fn prove_step<P1, P2>(
        &mut self,
        pp: &PublicParams<F1, F2>,
        claim: &RunningClaim<P1, P2>,
        z0_primary: &Vec<F1>,
        z0_secondary: &Vec<F2>,
        res: StepResults<F1, F2, C1, C2>,
    ) -> (r: Result<(), SuperNovaError>)
        requires
            old(self).i < usize::MAX,
            old(self).i > 0 && step_error(*old(self), *pp, z0_primary@.len(), z0_secondary@.len(), res) is None
                ==> {
                &&& claim.augmented_circuit_index < old(self).r_u_primary@.len()
                &&& claim.augmented_circuit_index < old(self).r_w_primary@.len()
            },
            res.primary matches Some(p) ==> p.program_counter is Some,
        ensures
            old(self).i == 0 ==> r is Ok && *final(self) == (RecursiveSNARK { i: 1, ..*old(self) }),
            old(self).i > 0 ==> match step_error(*old(self), *pp, z0_primary@.len(), z0_secondary@.len(), res) {
                Some(e) => r == Err::<(), SuperNovaError>(e) && *final(self) == *old(self),
                None => {
                    let idx = claim.augmented_circuit_index as int;
                    let (fu1, fw1) = res.primary_fold->Ok_0;
                    let (fu2, fw2) = res.secondary_fold->Ok_0;
                    let (u2, w2) = res.secondary_instance->0;
                    &&& r is Ok
                    &&& final(self).r_u_primary@.len() == old(self).r_u_primary@.len()
                    &&& final(self).r_w_primary@.len() == old(self).r_w_primary@.len()
                    &&& forall|j: int|
                        0 <= j < old(self).r_u_primary@.len() && j != idx ==> opt_instance_model(
                            #[trigger] final(self).r_u_primary@[j],
                        ) == opt_instance_model(old(self).r_u_primary@[j])
                    &&& forall|j: int|
                        0 <= j < old(self).r_w_primary@.len() && j != idx ==> opt_witness_model(
                            #[trigger] final(self).r_w_primary@[j],
                        ) == opt_witness_model(old(self).r_w_primary@[j])
                    &&& opt_instance_model(final(self).r_u_primary@[idx]) == Some(fu1.model())
                    &&& opt_witness_model(final(self).r_w_primary@[idx]) == Some(fw1.model())
                    &&& final(self).r_u_secondary@.len() == 1
                    &&& final(self).r_w_secondary@.len() == 1
                    &&& opt_instance_model(final(self).r_u_secondary@[0]) == Some(fu2.model())
                    &&& opt_witness_model(final(self).r_w_secondary@[0]) == Some(fw2.model())
                    &&& final(self).l_u_secondary.model() == u2.model()
                    &&& final(self).l_w_secondary.model() == w2.model()
                    &&& final(self).i == old(self).i + 1
                    &&& final(self).zi_primary@ == unwrap_all(res.primary->0.outputs@)
                    &&& final(self).zi_secondary@ == unwrap_all(res.secondary->0.outputs@)
                    &&& final(self).program_counter == res.primary->0.program_counter->0->0
                    &&& final(self).augmented_circuit_index == claim.augmented_circuit_index
                    &&& final(self).pp_digest == old(self).pp_digest
                    &&& final(self).num_augmented_circuits == old(self).num_augmented_circuits
                },
            },
            // a step after the first needs both keys; without one it is refused and
            // the proof is left as it was
            old(self).i > 0 && old(self).r_u_secondary@.len() == 1 && old(self).r_w_secondary@.len() == 1 && (
            pp.ck_primary is None || pp.ck_secondary is None) ==> r == Err::<(), SuperNovaError>(
                SuperNovaError::MissingCK,
            ) && *final(self) == *old(self),
            old(self).i > 0 && r is Ok ==> {
                &&& old(self).r_u_secondary@.len() == 1
                &&& old(self).r_w_secondary@.len() == 1
                &&& res.secondary_fold is Ok
                &&& res.secondary_cross_term is Ok
                &&& res.primary_instance is Some
                &&& res.primary_fold is Ok
                &&& res.primary_cross_term is Ok
                &&& res.secondary_instance is Some
                &&& res.primary is Some && all_some(res.primary->0.outputs@) && res.primary->0.program_counter is Some
                && res.primary->0.program_counter->0 is Some
                &&& res.secondary is Some && all_some(res.secondary->0.outputs@)
                &&& pp.ck_primary is Some
                &&& pp.ck_secondary is Some
                &&& z0_primary@.len() == pp.f_arity_primary
                &&& z0_secondary@.len() == pp.f_arity_secondary
                &&& final(self).zi_primary@.len() == pp.f_arity_primary
                &&& final(self).zi_secondary@.len() == pp.f_arity_secondary
                &&& final(self).i == old(self).i + 1
            },
            r is Err ==> *final(self) == *old(self),
    {
        // the first step was proved by the base step
        if self.i == 0 {
            self.i = 1;
            return Ok(());
        }
        if self.r_u_secondary.len() != 1 || self.r_w_secondary.len() != 1 {
            return Err(SuperNovaError::NovaError(NovaError::ProofVerifyError));
        }
        if pp.ck_primary.is_none() || pp.ck_secondary.is_none() {
            return Err(SuperNovaError::MissingCK);
        }
        if z0_primary.len() != pp.f_arity_primary || z0_secondary.len() != pp.f_arity_secondary {
            return Err(SuperNovaError::NovaError(NovaError::InvalidInitialInputLength));
        }
        let StepResults {
            secondary_fold,
            secondary_cross_term,
            primary,
            primary_instance,
            primary_fold,
            primary_cross_term,
            secondary,
            secondary_instance,
        } = res;
        let (r_u_secondary_next, r_w_secondary_next) = match secondary_fold {
            Ok(f) => f,
            Err(e) => {
                return Err(SuperNovaError::NovaError(e));
            },
        };
        match secondary_cross_term {
            Ok(()) => {},
            Err(e) => {
                return Err(SuperNovaError::NovaError(e));
            },
        }
        let primary = match primary {
            Some(p) => p,
            None => {
                return Err(SuperNovaError::NovaError(NovaError::SynthesisError));
            },
        };
        if primary.outputs.len() != pp.f_arity_primary {
            return Err(SuperNovaError::NovaError(NovaError::InvalidInitialInputLength));
        }
        match primary_instance {
            Some(_) => {},
            None => {
                return Err(SuperNovaError::NovaError(NovaError::UnSat));
            },
        }
        let (r_u_primary_folded, r_w_primary_folded) = match primary_fold {
            Ok(f) => f,
            Err(e) => {
                return Err(SuperNovaError::NovaError(e));
            },
        };
        match primary_cross_term {
            Ok(()) => {},
            Err(e) => {
                return Err(SuperNovaError::NovaError(e));
            },
        }
        let secondary = match secondary {
            Some(s) => s,
            None => {
                return Err(SuperNovaError::NovaError(NovaError::SynthesisError));
            },
        };
        if secondary.outputs.len() != pp.f_arity_secondary {
            return Err(SuperNovaError::NovaError(NovaError::InvalidInitialInputLength));
        }
        let (l_u_secondary_next, l_w_secondary_next) = match secondary_instance {
            Some(s) => s,
            None => {
                return Err(SuperNovaError::NovaError(NovaError::UnSat));
            },
        };
        let zi_primary = match collect_values(&primary.outputs) {
            Some(v) => v,
            None => {
                return Err(SuperNovaError::NovaError(NovaError::SynthesisError));
            },
        };
        let zi_primary_pc_next = match primary.program_counter {
            Some(Some(pc)) => pc,
            _ => {
                return Err(SuperNovaError::NovaError(NovaError::SynthesisError));
            },
        };
        let zi_secondary = match collect_values(&secondary.outputs) {
            Some(v) => v,
            None => {
                return Err(SuperNovaError::NovaError(NovaError::SynthesisError));
            },
        };
        if zi_primary.len() != pp.f_arity_primary || zi_secondary.len() != pp.f_arity_secondary {
            return Err(SuperNovaError::NovaError(NovaError::InvalidStepOutputLength));
        }
        // update the running instance of the circuit that ran
        let idx = claim.get_circuit_index();
        self.r_u_primary.set(idx, Some(r_u_primary_folded));
        self.r_w_primary.set(idx, Some(r_w_primary_folded));
        let mut r_w_secondary: Vec<Option<RelaxedR1CSWitness<F2>>> = Vec::new();
        r_w_secondary.push(Some(r_w_secondary_next));
        let mut r_u_secondary: Vec<Option<RelaxedR1CSInstance<F2, C2>>> = Vec::new();
        r_u_secondary.push(Some(r_u_secondary_next));
        self.r_w_secondary = r_w_secondary;
        self.r_u_secondary = r_u_secondary;
        self.l_w_secondary = l_w_secondary_next;
        self.l_u_secondary = l_u_secondary_next;
        self.i = self.i + 1;
        self.zi_primary = zi_primary;
        self.zi_secondary = zi_secondary;
        self.program_counter = zi_primary_pc_next;
        self.augmented_circuit_index = idx;
        Ok(())
    }

    /// Verifies the proof for `claim`: checks that steps were proved, the shape
    /// of the running instances, that the hashes the backend computed over the
    /// running state are the public outputs of the last secondary step, and that
    /// the running instances and the last secondary step satisfy their shapes.
    pub fn verify<P1, P2>(
        &self,
        pp: &PublicParams<F1, F2>,
        claim: &RunningClaim<P1, P2>,
        z0_primary: &Vec<F1>,
        z0_secondary: &Vec<F2>,
        res: &VerifyResults<F1, F2>,
    ) -> (r: Result<(), SuperNovaError>)
        requires
            self.i > 0 && self.l_u_secondary.x@.len() == 2 && self.r_u_secondary@.len() == 1
                && self.r_w_secondary@.len() == 1 && pp.ck_primary is Some
                ==> claim.augmented_circuit_index < self.r_u_primary@.len(),
            verify_error(*self, *pp, *claim, *res) is None || verify_reaches_sat(*self, *pp, *claim, *res)
                ==> pp.ck_secondary is Some && self.r_w_secondary@[0] is Some,
        ensures
            match verify_error(*self, *pp, *claim, *res) {
                Some(e) => r == Err::<(), SuperNovaError>(e),
                None => r is Ok,
            },
            // a proof is accepted only when both hashes of the running state are the
            // last secondary step's public outputs and every instance is satisfied
            r is Ok ==> {
                &&& self.i > 0
                &&& self.l_u_secondary.x@.len() == 2
                &&& self.r_u_secondary@.len() == 1
                &&& self.r_w_secondary@.len() == 1
                &&& self.r_u_secondary@[0] is Some && self.r_u_secondary@[0]->0.x@.len() == 2
                &&& (self.r_u_primary@[claim.augmented_circuit_index as int] is Some ==> self.r_u_primary@[claim.augmented_circuit_index as int]->0.x@.len() == 2)
                &&& pp.ck_primary is Some
                &&& res.hash_primary.val() == self.l_u_secondary.x@[0].val()
                &&& res.hash_secondary.val() == self.l_u_secondary.x@[1].val() % F1::modulus()
                &&& res.sat_primary is Ok
                &&& res.sat_secondary is Ok
                &&& res.sat_last_secondary is Ok
            },
            // a primary hash that is not the first public output is refused
            self.l_u_secondary.x@.len() == 2 && pp.ck_primary is Some && res.hash_primary.val()
                != self.l_u_secondary.x@[0].val() ==> r == Err::<(), SuperNovaError>(
                SuperNovaError::NovaError(NovaError::ProofVerifyError),
            ),
    {
        if self.i == 0 {
            return Err(SuperNovaError::NovaError(NovaError::ProofVerifyError));
        }
        if self.l_u_secondary.x.len() != 2 {
            return Err(SuperNovaError::NovaError(NovaError::ProofVerifyError));
        }
        if self.r_u_secondary.len() != 1 || self.r_w_secondary.len() != 1 {
            return Err(SuperNovaError::NovaError(NovaError::ProofVerifyError));
        }
        if pp.ck_primary.is_none() {
            return Err(SuperNovaError::MissingCK);
        }
        let idx = claim.get_circuit_index();
        match &self.r_u_primary[idx] {
            Some(u) => {
                if u.x.len() != 2 {
                    return Err(SuperNovaError::NovaError(NovaError::ProofVerifyError));
                }
            },
            None => {},
        }
        match &self.r_u_secondary[0] {
            Some(u) => {
                if u.x.len() != 2 {
                    return Err(SuperNovaError::NovaError(NovaError::ProofVerifyError));
                }
            },
            None => {
                return Err(SuperNovaError::NovaError(NovaError::ProofVerifyError));
            },
        }
        if !res.hash_primary.equals(&self.l_u_secondary.x[0]) {
            return Err(SuperNovaError::NovaError(NovaError::ProofVerifyError));
        }
        let x1_as_base = scalar_as_base::<F2, F1>(self.l_u_secondary.x[1]);
        if !res.hash_secondary.equals(&x1_as_base) {
            return Err(SuperNovaError::NovaError(NovaError::ProofVerifyError));
        }
        match res.sat_primary {
            Ok(()) => {},
            Err(e) => {
                return Err(name_sat_error("r_primary", e));
            },
        }
        match res.sat_secondary {
            Ok(()) => {},
            Err(e) => {
                return Err(name_sat_error("r_secondary", e));
            },
        }
        match res.sat_last_secondary {
            Ok(()) => {},
            Err(e) => {
                return Err(name_sat_error("l_secondary", e));
            },
        }
        Ok(())
    }
    /// The running instance and witness that the primary step of the circuit at
    /// `index` folds into: the stored pair once that circuit has run, otherwise the
    /// trivially satisfying pair of the primary shape.
    pub fn primary_running_pair(&self, pp: &PublicParams<F1, F2>, index: usize) -> (r: (
        RelaxedR1CSInstance<F1, C1>,
        RelaxedR1CSWitness<F1>,
    ))
        ensures
            ({
                &&& index < self.r_u_primary@.len()
                &&& index < self.r_w_primary@.len()
                &&& self.r_u_primary@[index as int] is Some
                &&& self.r_w_primary@[index as int] is Some
            }) ==> {
                &&& r.0.model() == self.r_u_primary@[index as int]->0.model()
                &&& r.1.model() == self.r_w_primary@[index as int]->0.model()
            },
            !({
                &&& index < self.r_u_primary@.len()
                &&& index < self.r_w_primary@.len()
                &&& self.r_u_primary@[index as int] is Some
                &&& self.r_w_primary@[index as int] is Some
            }) ==> {
                &&& r.0.comm_w == crate::instances::Commitment::<C1>::Identity
                &&& r.0.comm_e == crate::instances::Commitment::<C1>::Identity
                &&& r.0.x@.len() == pp.r1cs_shape_primary.num_io
                &&& forall|i: int| 0 <= i < r.0.x@.len() ==> (#[trigger] r.0.x@[i]).val() == 0
                &&& r.0.u.val() == 0
                &&& r.1.w@.len() == pp.r1cs_shape_primary.num_vars
                &&& r.1.e@.len() == pp.r1cs_shape_primary.num_cons
                &&& forall|i: int| 0 <= i < r.1.w@.len() ==> (#[trigger] r.1.w@[i]).val() == 0
                &&& forall|i: int| 0 <= i < r.1.e@.len() ==> (#[trigger] r.1.e@[i]).val() == 0
            },
    {
        if index < self.r_u_primary.len() && index < self.r_w_primary.len() {
            match (&self.r_u_primary[index], &self.r_w_primary[index]) {
                (Some(u), Some(w)) => {
                    return (u.copy(), w.copy());
                },
                _ => {},
            }
        }
        (
            RelaxedR1CSInstance::default(&pp.r1cs_shape_primary),
            RelaxedR1CSWitness::default(&pp.r1cs_shape_primary),
        )
    }

    /// The field elements that the primary hash of the running state absorbs before
    /// the secondary running instance: the parameters' digest, the step count, the
    /// program counter, the initial inputs and the current state.
    pub fn primary_hash_inputs(&self, z0_primary: &Vec<F1>) -> (r: Vec<F1>)
        requires
            self.i <= u64::MAX,
        ensures
            r@.len() == 3 + z0_primary@.len() + self.zi_primary@.len(),
            r@[0] == self.pp_digest,
            r@[1].val() == self.i as nat % F1::modulus(),
            r@[2] == self.program_counter,
            r@.subrange(3, 3 + z0_primary@.len() as int) == z0_primary@,
            r@.subrange(3 + z0_primary@.len() as int, r@.len() as int) == self.zi_primary@,
    {
        let mut out: Vec<F1> = Vec::new();
        out.push(self.pp_digest);
        out.push(F1::from_u64(self.i as u64));
        out.push(self.program_counter);
        let mut j: usize = 0;
        while j < z0_primary.len()
            invariant
                j <= z0_primary@.len(),
                out@.len() == 3 + j,
                out@[0] == self.pp_digest,
                out@[1].val() == self.i as nat % F1::modulus(),
                out@[2] == self.program_counter,
                out@.subrange(3, 3 + j as int) == z0_primary@.subrange(0, j as int),
            decreases z0_primary@.len() - j,
        {
            out.push(z0_primary[j]);
            j = j + 1;
            proof {
                assert(out@.subrange(3, 3 + j as int) =~= z0_primary@.subrange(0, j as int));
            }
        }
        let n0 = z0_primary.len();
        let mut j: usize = 0;
        while j < self.zi_primary.len()
            invariant
                n0 == z0_primary@.len(),
                j <= self.zi_primary@.len(),
                out@.len() == 3 + n0 + j,
                out@[0] == self.pp_digest,
                out@[1].val() == self.i as nat % F1::modulus(),
                out@[2] == self.program_counter,
                out@.subrange(3, 3 + n0 as int) == z0_primary@,
                out@.subrange(3 + n0 as int, out@.len() as int) == self.zi_primary@.subrange(0, j as int),
            decreases self.zi_primary@.len() - j,
        {
            out.push(self.zi_primary[j]);
            j = j + 1;
            proof {
                assert(out@.subrange(3, 3 + n0 as int) =~= z0_primary@);
                assert(out@.subrange(3 + n0 as int, out@.len() as int) =~= self.zi_primary@.subrange(0, j as int));
            }
        }
        proof {
            assert(self.zi_primary@.subrange(0, j as int) =~= self.zi_primary@);
            assert(z0_primary@.subrange(0, n0 as int) =~= z0_primary@);
        }
        out
    }

    /// The field elements that the secondary hash of the running state absorbs
    /// before the primary running instances: the parameters' digest in the
    /// secondary field, the step count, the initial inputs and the current state.
    pub fn secondary_hash_inputs(&self, z0_secondary: &Vec<F2>) -> (r: Vec<F2>)
        requires
            self.i <= u64::MAX,
        ensures
            r@.len() == 2 + z0_secondary@.len() + self.zi_secondary@.len(),
            r@[0].val() == self.pp_digest.val() % F2::modulus(),
            r@[1].val() == self.i as nat % F2::modulus(),
            r@.subrange(2, 2 + z0_secondary@.len() as int) == z0_secondary@,
            r@.subrange(2 + z0_secondary@.len() as int, r@.len() as int) == self.zi_secondary@,
    {
        let mut out: Vec<F2> = Vec::new();
        out.push(scalar_as_base::<F1, F2>(self.pp_digest));
        out.push(F2::from_u64(self.i as u64));
        let mut j: usize = 0;
        while j < z0_secondary.len()
            invariant
                j <= z0_secondary@.len(),
                out@.len() == 2 + j,
                out@[0].val() == self.pp_digest.val() % F2::modulus(),
                out@[1].val() == self.i as nat % F2::modulus(),
                out@.subrange(2, 2 + j as int) == z0_secondary@.subrange(0, j as int),
            decreases z0_secondary@.len() - j,
        {
            out.push(z0_secondary[j]);
            j = j + 1;
            proof {
                assert(out@.subrange(2, 2 + j as int) =~= z0_secondary@.subrange(0, j as int));
            }
        }
        let n0 = z0_secondary.len();
        let mut j: usize = 0;
        while j < self.zi_secondary.len()
            invariant
                n0 == z0_secondary@.len(),
                j <= self.zi_secondary@.len(),
                out@.len() == 2 + n0 + j,
                out@[0].val() == self.pp_digest.val() % F2::modulus(),
                out@[1].val() == self.i as nat % F2::modulus(),
                out@.subrange(2, 2 + n0 as int) == z0_secondary@,
                out@.subrange(2 + n0 as int, out@.len() as int) == self.zi_secondary@.subrange(0, j as int),
            decreases self.zi_secondary@.len() - j,
        {
            out.push(self.zi_secondary[j]);
            j = j + 1;
            proof {
                assert(out@.subrange(2, 2 + n0 as int) =~= z0_secondary@);
                assert(out@.subrange(2 + n0 as int, out@.len() as int) =~= self.zi_secondary@.subrange(0, j as int));
            }
        }
        proof {
            assert(self.zi_secondary@.subrange(0, j as int) =~= self.zi_secondary@);
            assert(z0_secondary@.subrange(0, n0 as int) =~= z0_secondary@);
        }
        out
    }

    /// The primary running instances that the secondary hash absorbs, in order:
    /// each circuit's once it has run, otherwise the trivially satisfying instance
    /// of the primary shape.
    pub fn primary_instances_to_hash(&self, pp: &PublicParams<F1, F2>) -> (r: Vec<RelaxedR1CSInstance<F1, C1>>)
        ensures
            r@.len() == self.r_u_primary@.len(),
            forall|j: int|
                0 <= j < r@.len() ==> match self.r_u_primary@[j] {
                    Some(u) => (#[trigger] r@[j]).model() == u.model(),
                    None => {
                        &&& r@[j].comm_w == crate::instances::Commitment::<C1>::Identity
                        &&& r@[j].comm_e == crate::instances::Commitment::<C1>::Identity
                        &&& r@[j].x@.len() == pp.r1cs_shape_primary.num_io
                        &&& forall|i: int| 0 <= i < r@[j].x@.len() ==> (#[trigger] r@[j].x@[i]).val() == 0
                        &&& r@[j].u.val() == 0
                    },
                },
    {
        let mut out: Vec<RelaxedR1CSInstance<F1, C1>> = Vec::new();
        let mut j: usize = 0;
        while j < self.r_u_primary.len()
            invariant
                j <= self.r_u_primary@.len(),
                out@.len() == j,
                forall|k: int|
                    0 <= k < j ==> match self.r_u_primary@[k] {
                        Some(u) => (#[trigger] out@[k]).model() == u.model(),
                        None => {
                            &&& out@[k].comm_w == crate::instances::Commitment::<C1>::Identity
                            &&& out@[k].comm_e == crate::instances::Commitment::<C1>::Identity
                            &&& out@[k].x@.len() == pp.r1cs_shape_primary.num_io
                            &&& forall|i: int| 0 <= i < out@[k].x@.len() ==> (#[trigger] out@[k].x@[i]).val() == 0
                            &&& out@[k].u.val() == 0
                        },
                    },
            decreases self.r_u_primary@.len() - j,
        {
            let inst = match &self.r_u_primary[j] {
                Some(u) => u.copy(),
                None => RelaxedR1CSInstance::default(&pp.r1cs_shape_primary),
            };
            out.push(inst);
            j = j + 1;
        }
        out
    }


    /// The program counter: the index of the next augmented circuit to run.
    pub fn get_program_counter(&self) -> (r: F1)
        ensures
            r == self.program_counter,
    {
        self.program_counter
    }
}

} // verus!
