//! The transcript the sum-check protocol draws its challenges from, with the
//! record of every call made on it.
use crate::errors::NovaError;
use crate::field::PrimeField;
use crate::spartan::polys::{vals, UniPoly};
use vstd::prelude::*;

verus! {

/// One call on a transcript: a polynomial absorbed under a label, given by the
/// values of its coefficients, or a challenge drawn under a label, with what the
/// draw gave.
pub enum TranscriptEvent<F> {
    Absorb(Seq<char>, Seq<int>),
    Squeeze(Seq<char>, Result<F, NovaError>),
}

/// The source of the verifier's challenges: every prover message is absorbed,
/// and each challenge is derived from what was absorbed before it.
pub trait TranscriptEngine<F: PrimeField> {
    /// Appends a round polynomial under `label`.
    fn absorb_poly(&mut self, label: &'static str, poly: &UniPoly<F>);

    /// Derives the next challenge.
    fn squeeze(&mut self, label: &'static str) -> Result<F, NovaError>;
}

/// A transcript engine together with the record of the calls made on it. The
/// engine is reachable only through `absorb_poly` and `squeeze`, which record
/// each call, so the record holds every call made on the engine since `new`.
pub struct Transcript<F, T> {
    engine: T,
    calls: Ghost<Seq<TranscriptEvent<F>>>,
}

impl<F, T> Transcript<F, T> {
    /// The calls made on the engine so far, in order.
    pub closed spec fn log(&self) -> Seq<TranscriptEvent<F>> {
        self.calls@
    }

    /// The engine, in its current state.
    pub closed spec fn held_engine(&self) -> T {
        self.engine
    }
}

impl<F: PrimeField, T: TranscriptEngine<F>> Transcript<F, T> {
    /// A transcript over `engine` on which nothing has been called yet.
    pub fn new(engine: T) -> (r: Self)
        ensures
            r.held_engine() == engine,
            r.log() == Seq::<TranscriptEvent<F>>::empty(),
    {
        Transcript { engine, calls: Ghost(Seq::empty()) }
    }

    /// The engine, to be read.
    pub fn engine(&self) -> (r: &T)
        ensures
            *r == self.held_engine(),
    {
        &self.engine
    }

    /// Absorbs a round polynomial under `label`.
    pub fn absorb_poly(&mut self, label: &'static str, poly: &UniPoly<F>)
        ensures
            final(self).log() == old(self).log().push(TranscriptEvent::Absorb(label@, vals(poly.coeffs@))),
    {
        self.engine.absorb_poly(label, poly);
        self.calls = Ghost(self.calls@.push(TranscriptEvent::Absorb(label@, vals(poly.coeffs@))));
    }

    /// Draws the next challenge under `label`.
    pub fn squeeze(&mut self, label: &'static str) -> (r: Result<F, NovaError>)
        ensures
            final(self).log() == old(self).log().push(TranscriptEvent::Squeeze(label@, r)),
    {
        let r = self.engine.squeeze(label);
        self.calls = Ghost(self.calls@.push(TranscriptEvent::Squeeze(label@, r)));
        r
    }
}

} // verus!
