//! R1CS instances and witnesses, relaxed and plain, and the sizes of the shapes
//! they belong to.
use crate::field::PrimeField;
use vstd::prelude::*;

verus! {

/// The dimensions of an R1CS shape.
#[derive(Clone, Copy, Debug, PartialEq, Eq)]
pub struct R1CSShapeSize {
    /// Number of constraints.
    pub num_cons: usize,
    /// Number of witness variables.
    pub num_vars: usize,
    /// Number of public inputs and outputs.
    pub num_io: usize,
}

/// The number of generators a commitment key needs for a shape: enough to commit
/// to its witness and to its error vector.
pub open spec fn spec_commitment_key_size(shape: R1CSShapeSize) -> nat {
    if shape.num_cons >= shape.num_vars {
        shape.num_cons as nat
    } else {
        shape.num_vars as nat
    }
}

/// The number of generators a commitment key needs for a shape.
pub fn commitment_key_size(shape: &R1CSShapeSize) -> (r: usize)
    ensures
        r == spec_commitment_key_size(*shape),
{
    if shape.num_cons >= shape.num_vars {
        shape.num_cons
    } else {
        shape.num_vars
    }
}

/// A commitment key, known by the number of generators it holds.
#[derive(Clone, Copy, Debug, PartialEq, Eq)]
pub struct CommitmentKey {
    /// Number of generators.
    pub length: usize,
}

impl CommitmentKey {
    /// A key with `n` generators.
    pub fn setup(n: usize) -> (r: Self)
        ensures
            r.length == n,
    {
        CommitmentKey { length: n }
    }

    /// Number of generators.
    pub fn length(&self) -> (r: usize)
        ensures
            r == self.length,
    {
        self.length
    }
}

/// A commitment: the identity or a group element.
#[derive(Clone, Copy, Debug, PartialEq, Eq)]
pub enum Commitment<C> {
    /// The commitment to the all-zero vector.
    Identity,
    /// A commitment given by a group element.
    Point(C),
}

/// An R1CS instance: a commitment to the witness and the public inputs and outputs.
#[derive(Debug)]
pub struct R1CSInstance<F, C> {
    pub comm_w: Commitment<C>,
    pub x: Vec<F>,
}

/// An R1CS witness.
#[derive(Debug)]
pub struct R1CSWitness<F> {
    pub w: Vec<F>,
}

/// A relaxed R1CS instance: commitments to the witness and to the error vector,
/// the public inputs and outputs, and the scalar `u`.
#[derive(Debug)]
pub struct RelaxedR1CSInstance<F, C> {
    pub comm_w: Commitment<C>,
    pub comm_e: Commitment<C>,
    pub x: Vec<F>,
    pub u: F,
}

/// A relaxed R1CS witness: the witness and the error vector.
#[derive(Debug)]
pub struct RelaxedR1CSWitness<F> {
    pub w: Vec<F>,
    pub e: Vec<F>,
}

/// `n` zeros.
pub fn zeros<F: PrimeField>(n: usize) -> (r: Vec<F>)
    ensures
        r@.len() == n,
        forall|i: int| 0 <= i < n ==> (#[trigger] r@[i]).val() == 0,
{
    let mut v: Vec<F> = Vec::new();
    let mut i: usize = 0;
    while i < n
        invariant
            i <= n,
            v@.len() == i,
            forall|j: int| 0 <= j < i ==> (#[trigger] v@[j]).val() == 0,
        decreases n - i,
    {
        v.push(F::zero());
        i = i + 1;
    }
    v
}

/// A copy of a vector of field elements.
pub fn copy_vec<F: PrimeField>(v: &Vec<F>) -> (r: Vec<F>)
    ensures
        r@ == v@,
{
    let mut out: Vec<F> = Vec::new();
    let mut i: usize = 0;
    while i < v.len()
        invariant
            i <= v@.len(),
            out@ == v@.subrange(0, i as int),
        decreases v@.len() - i,
    {
        out.push(v[i]);
        i = i + 1;
        proof {
            assert(out@ =~= v@.subrange(0, i as int));
        }
    }
    proof {
        assert(v@.subrange(0, v@.len() as int) =~= v@);
    }
    out
}

impl<F, C> R1CSInstance<F, C> {
    /// The instance as mathematical values.
    pub open spec fn model(&self) -> (Commitment<C>, Seq<F>) {
        (self.comm_w, self.x@)
    }
}

impl<F> R1CSWitness<F> {
    /// The witness as a sequence.
    pub open spec fn model(&self) -> Seq<F> {
        self.w@
    }
}

impl<F, C> RelaxedR1CSInstance<F, C> {
    /// The instance as mathematical values.
    pub open spec fn model(&self) -> (Commitment<C>, Commitment<C>, Seq<F>, F) {
        (self.comm_w, self.comm_e, self.x@, self.u)
    }
}

impl<F> RelaxedR1CSWitness<F> {
    /// The witness as sequences.
    pub open spec fn model(&self) -> (Seq<F>, Seq<F>) {
        (self.w@, self.e@)
    }
}

/// The model of an optional relaxed instance.
pub open spec fn opt_instance_model<F, C>(o: Option<RelaxedR1CSInstance<F, C>>) -> Option<
    (Commitment<C>, Commitment<C>, Seq<F>, F),
> {
    match o {
        Some(u) => Some(u.model()),
        None => None,
    }
}

/// The model of an optional relaxed witness.
pub open spec fn opt_witness_model<F>(o: Option<RelaxedR1CSWitness<F>>) -> Option<(Seq<F>, Seq<F>)> {
    match o {
        Some(w) => Some(w.model()),
        None => None,
    }
}

impl<F: PrimeField, C: Copy> R1CSInstance<F, C> {
    /// A copy of the instance.
    pub fn copy(&self) -> (r: Self)
        ensures
            r.comm_w == self.comm_w,
            r.x@ == self.x@,
    {
        R1CSInstance { comm_w: self.comm_w, x: copy_vec(&self.x) }
    }
}

impl<F: PrimeField> R1CSWitness<F> {
    /// A copy of the witness.
    pub fn copy(&self) -> (r: Self)
        ensures
            r.w@ == self.w@,
    {
        R1CSWitness { w: copy_vec(&self.w) }
    }
}

impl<F: PrimeField, C: Copy> RelaxedR1CSInstance<F, C> {
    /// A copy of the instance.
    pub fn copy(&self) -> (r: Self)
        ensures
            r.comm_w == self.comm_w,
            r.comm_e == self.comm_e,
            r.x@ == self.x@,
            r.u == self.u,
    {
        RelaxedR1CSInstance {
            comm_w: self.comm_w,
            comm_e: self.comm_e,
            x: copy_vec(&self.x),
            u: self.u,
        }
    }

    /// The trivially satisfying instance of a shape: identity commitments, zero
    /// inputs and outputs, and `u = 0`.
    pub fn default(shape: &R1CSShapeSize) -> (r: Self)
        ensures
            r.comm_w == Commitment::<C>::Identity,
            r.comm_e == Commitment::<C>::Identity,
            r.x@.len() == shape.num_io,
            forall|i: int| 0 <= i < shape.num_io ==> (#[trigger] r.x@[i]).val() == 0,
            r.u.val() == 0,
    {
        RelaxedR1CSInstance {
            comm_w: Commitment::Identity,
            comm_e: Commitment::Identity,
            x: zeros(shape.num_io),
            u: F::zero(),
        }
    }

    /// The relaxed form of an R1CS instance: the same witness commitment and
    /// inputs, the identity error commitment, and `u = 1`.
    pub fn from_r1cs_instance(instance: &R1CSInstance<F, C>) -> (r: Self)
        ensures
            r.comm_w == instance.comm_w,
            r.comm_e == Commitment::<C>::Identity,
            r.x@ == instance.x@,
            r.u.val() == 1,
    {
        RelaxedR1CSInstance {
            comm_w: instance.comm_w,
            comm_e: Commitment::Identity,
            x: copy_vec(&instance.x),
            u: F::one(),
        }
    }
}

impl<F: PrimeField> RelaxedR1CSWitness<F> {
    /// A copy of the witness.
    pub fn copy(&self) -> (r: Self)
        ensures
            r.w@ == self.w@,
            r.e@ == self.e@,
    {
        RelaxedR1CSWitness { w: copy_vec(&self.w), e: copy_vec(&self.e) }
    }

    /// The trivially satisfying witness of a shape: all zeros.
    pub fn default(shape: &R1CSShapeSize) -> (r: Self)
        ensures
            r.w@.len() == shape.num_vars,
            r.e@.len() == shape.num_cons,
            forall|i: int| 0 <= i < shape.num_vars ==> (#[trigger] r.w@[i]).val() == 0,
            forall|i: int| 0 <= i < shape.num_cons ==> (#[trigger] r.e@[i]).val() == 0,
    {
        RelaxedR1CSWitness { w: zeros(shape.num_vars), e: zeros(shape.num_cons) }
    }

    /// The relaxed form of an R1CS witness: the same witness and a zero error vector.
    pub fn from_r1cs_witness(shape: &R1CSShapeSize, witness: &R1CSWitness<F>) -> (r: Self)
        ensures
            r.w@ == witness.w@,
            r.e@.len() == shape.num_cons,
            forall|i: int| 0 <= i < shape.num_cons ==> (#[trigger] r.e@[i]).val() == 0,
    {
        RelaxedR1CSWitness { w: copy_vec(&witness.w), e: zeros(shape.num_cons) }
    }
}

} // verus!
