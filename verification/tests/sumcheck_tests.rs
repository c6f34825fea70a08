use nova_snark::errors::NovaError;
use nova_snark::field::{Fp65537, PrimeField};
use nova_snark::spartan::polys::{CompressedUniPoly, MultilinearPolynomial, UniPoly};
use nova_snark::spartan::transcript::{Transcript, TranscriptEngine};
use nova_snark::spartan::sumcheck::{
    combine_claims, max_rounds, power_of_two, weighted_sum, CombineTwo, Product, ProductMinusTerm, QuadraticCombination,
    SumcheckProof, TripleProduct,
};

const P: u64 = 65537;

fn f(n: u64) -> Fp65537 {
    Fp65537::from_u64(n)
}

fn table(v: &[u64]) -> MultilinearPolynomial<Fp65537> {
    MultilinearPolynomial::new(v.iter().map(|x| f(*x)).collect())
}

/// Binds the top variable of `z` to each challenge in turn.
fn bind_all_ref(z: &[u64], rs: &[u64]) -> Vec<u64> {
    let mut t = z.to_vec();
    for r in rs {
        let h = t.len() / 2;
        t = (0..h).map(|i| (t[i] + r * ((t[i + h] + P - t[i]) % P)) % P).collect();
    }
    t
}

fn vals(v: &[Fp65537]) -> Vec<u64> {
    v.iter().map(|x| x.value()).collect()
}

/// A deterministic transcript for tests: hashes what it absorbs into a counter.
struct TestTranscript {
    state: u64,
}

impl TestTranscript {
    fn new(seed: u64) -> Self {
        TestTranscript { state: seed }
    }
}

impl TranscriptEngine<Fp65537> for TestTranscript {
    fn absorb_poly(&mut self, label: &'static str, poly: &UniPoly<Fp65537>) {
        self.state = self.state.wrapping_add(label.len() as u64);
        for c in poly.coeffs.iter() {
            self.state = self.state.wrapping_mul(1_000_003).wrapping_add(c.value() + 7);
        }
    }

    fn squeeze(&mut self, _label: &'static str) -> Result<Fp65537, NovaError> {
        self.state = self.state.wrapping_mul(6364136223846793005).wrapping_add(1442695040888963407);
        Ok(f(self.state >> 33))
    }
}

/// A transcript that cannot produce challenges.
struct FailingTranscript;

impl TranscriptEngine<Fp65537> for FailingTranscript {
    fn absorb_poly(&mut self, _label: &'static str, _poly: &UniPoly<Fp65537>) {}

    fn squeeze(&mut self, _label: &'static str) -> Result<Fp65537, NovaError> {
        Err(NovaError::TranscriptError)
    }
}

fn dot(a: &[u64], b: &[u64]) -> u64 {
    a.iter().zip(b.iter()).fold(0, |s, (x, y)| (s + x * y) % P)
}

fn pmt(a: &[u64], b: &[u64], c: &[u64], d: &[u64]) -> u64 {
    (0..a.len()).fold(0, |s, i| (s + a[i] * ((b[i] * c[i] % P + P - d[i]) % P)) % P)
}

#[test]
fn quad_eval_points() {
    let a = table(&[1, 2, 3, 4]);
    let b = table(&[5, 6, 7, 8]);
    let (e0, e2) = SumcheckProof::<Fp65537>::compute_eval_points_quad(&a, &b, &Product);
    assert_eq!(e0.value(), 17);
    assert_eq!(e2.value(), 105);
}

#[test]
fn cubic_eval_points() {
    let a = table(&[1, 2, 3, 4]);
    let b = table(&[5, 6, 7, 8]);
    let c = table(&[1, 1, 2, 2]);
    let d = table(&[0, 1, 2, 3]);
    let (e0, e2, e3) = SumcheckProof::<Fp65537>::compute_eval_points_cubic(&a, &b, &c, &TripleProduct);
    assert_eq!((e0.value(), e2.value(), e3.value()), (17, 315, 692));
    let (g0, g2, g3) = SumcheckProof::<Fp65537>::compute_eval_points_cubic_with_additive_term(
        &a,
        &b,
        &c,
        &d,
        &ProductMinusTerm,
    );
    assert_eq!((g0.value(), g2.value(), g3.value()), (15, 265, 594));
}

#[test]
fn batch_helpers() {
    assert_eq!(power_of_two(10), 1024);
    assert_eq!(power_of_two(0), 1);
    assert_eq!(max_rounds(&[2, 5, 3]), 5);
    assert_eq!(max_rounds(&[]), 0);
    let c = combine_claims(&[f(2), f(3)], &[1, 3], &[f(5), f(7)], 3);
    assert_eq!(c.value(), 4 * 2 * 5 + 3 * 7);
    assert_eq!(weighted_sum(&vec![f(2), f(3)], &[f(4), f(5)]).value(), 23);
}

#[test]
fn quad_proof_verifies_and_reduces_to_one_point() {
    let av = [1u64, 2, 3, 4, 5, 6, 7, 8];
    let bv = [8u64, 7, 6, 5, 4, 3, 2, 1];
    let claim = f(dot(&av, &bv));
    assert_eq!(claim.value(), 120);
    let mut a = table(&av);
    let mut b = table(&bv);
    let (proof, r, evals) =
        SumcheckProof::prove_quad(&claim, 3, &mut a, &mut b, Product, &mut Transcript::new(TestTranscript::new(1))).unwrap();
    assert_eq!(proof.compressed_polys.len(), 3);
    assert_eq!(r.len(), 3);
    let rv = vals(&r);
    assert_eq!(evals[0].value(), bind_all_ref(&av, &rv)[0]);
    assert_eq!(evals[1].value(), bind_all_ref(&bv, &rv)[0]);
    assert_eq!(a.num_vars, 0);
    let (e, r2) = proof.verify(claim, 3, 2, &mut Transcript::new(TestTranscript::new(1))).unwrap();
    assert_eq!(vals(&r2), rv);
    assert_eq!(e.value(), evals[0].mul(&evals[1]).value());
}

#[test]
fn quad_proof_with_fewer_rounds() {
    let av = [3u64, 1, 4, 1, 5, 9, 2, 6];
    let bv = [2u64, 7, 1, 8, 2, 8, 1, 8];
    let claim = f(dot(&av, &bv));
    let mut a = table(&av);
    let mut b = table(&bv);
    let (proof, r, _) =
        SumcheckProof::prove_quad(&claim, 2, &mut a, &mut b, Product, &mut Transcript::new(TestTranscript::new(9))).unwrap();
    assert_eq!(a.num_vars, 1);
    let rv = vals(&r);
    let (e, _) = proof.verify(claim, 2, 2, &mut Transcript::new(TestTranscript::new(9))).unwrap();
    // two entries remain; the claim is their sum of products
    assert_eq!(e.value(), dot(&bind_all_ref(&av, &rv), &bind_all_ref(&bv, &rv)));
}

#[test]
fn verifier_rejects_a_wrong_number_of_rounds_or_degree() {
    let av = [1u64, 2, 3, 4];
    let bv = [5u64, 6, 7, 8];
    let claim = f(dot(&av, &bv));
    let (proof, _, _) = SumcheckProof::prove_quad(
        &claim,
        2,
        &mut table(&av),
        &mut table(&bv),
        Product,
        &mut Transcript::new(TestTranscript::new(3)),
    )
    .unwrap();
    assert_eq!(
        proof.verify(claim, 3, 2, &mut Transcript::new(TestTranscript::new(3))).unwrap_err(),
        NovaError::InvalidSumcheckProof
    );
    assert_eq!(
        proof.verify(claim, 2, 3, &mut Transcript::new(TestTranscript::new(3))).unwrap_err(),
        NovaError::InvalidSumcheckProof
    );
}

#[test]
fn a_false_claim_does_not_reduce_to_the_tables() {
    let av = [1u64, 2, 3, 4];
    let bv = [5u64, 6, 7, 8];
    let claim = f(dot(&av, &bv));
    let (proof, _, evals) = SumcheckProof::prove_quad(
        &claim,
        2,
        &mut table(&av),
        &mut table(&bv),
        Product,
        &mut Transcript::new(TestTranscript::new(4)),
    )
    .unwrap();
    let (e, _) = proof.verify(f(dot(&av, &bv) + 1), 2, 2, &mut Transcript::new(TestTranscript::new(4))).unwrap();
    assert_ne!(e.value(), evals[0].mul(&evals[1]).value());
}

#[test]
fn transcript_errors_are_passed_on() {
    let mut a = table(&[1, 2, 3, 4]);
    let mut b = table(&[5, 6, 7, 8]);
    let res = SumcheckProof::prove_quad(&f(70), 2, &mut a, &mut b, Product, &mut Transcript::new(FailingTranscript));
    assert_eq!(res.unwrap_err(), NovaError::TranscriptError);
    let proof = SumcheckProof::new(vec![]);
    assert_eq!(proof.verify(f(0), 0, 2, &mut Transcript::new(FailingTranscript)).unwrap().1.len(), 0);
}

#[test]
fn zero_rounds_leave_the_tables() {
    let mut a = table(&[1, 2]);
    let mut b = table(&[3, 4]);
    let (proof, r, evals) =
        SumcheckProof::prove_quad(&f(11), 0, &mut a, &mut b, Product, &mut Transcript::new(TestTranscript::new(0))).unwrap();
    assert_eq!(proof.compressed_polys.len(), 0);
    assert!(r.is_empty());
    assert_eq!(vals(&evals), vec![1, 3]);
    let (e, _) = proof.verify(f(11), 0, 2, &mut Transcript::new(TestTranscript::new(0))).unwrap();
    assert_eq!(e.value(), 11);
}

#[test]
fn cubic_proof_verifies_and_reduces_to_one_point() {
    let av = [1u64, 2, 3, 4];
    let bv = [5u64, 6, 7, 8];
    let cv = [9u64, 10, 11, 12];
    let dv = [13u64, 14, 15, 16];
    let claim = f(pmt(&av, &bv, &cv, &dv));
    let mut a = table(&av);
    let mut b = table(&bv);
    let mut c = table(&cv);
    let mut d = table(&dv);
    let (proof, r, evals) = SumcheckProof::prove_cubic_with_additive_term(
        &claim,
        2,
        &mut a,
        &mut b,
        &mut c,
        &mut d,
        ProductMinusTerm,
        &mut Transcript::new(TestTranscript::new(5)),
    )
    .unwrap();
    let rv = vals(&r);
    assert_eq!(evals[2].value(), bind_all_ref(&cv, &rv)[0]);
    assert_eq!(evals[3].value(), bind_all_ref(&dv, &rv)[0]);
    let (e, _) = proof.verify(claim, 2, 3, &mut Transcript::new(TestTranscript::new(5))).unwrap();
    let expected = evals[0].mul(&evals[1].mul(&evals[2]).sub(&evals[3]));
    assert_eq!(e.value(), expected.value());
}

#[test]
fn quad_batch_verifies() {
    let a0 = [1u64, 2, 3, 4];
    let b0 = [4u64, 3, 2, 1];
    let a1 = [1u64, 1, 2, 3, 5, 8, 13, 21];
    let b1 = [2u64, 3, 5, 7, 11, 13, 17, 19];
    let claims = [f(dot(&a0, &b0)), f(dot(&a1, &b1))];
    let coeffs = [f(3), f(5)];
    let rounds = [2usize, 3];
    let (proof, r, (ea, eb)) = SumcheckProof::prove_quad_batch(
        &claims,
        &rounds,
        vec![table(&a0), table(&a1)],
        vec![table(&b0), table(&b1)],
        &coeffs,
        Product,
        &mut Transcript::new(TestTranscript::new(6)),
    )
    .unwrap();
    let rv = vals(&r);
    assert_eq!(rv.len(), 3);
    // the shorter instance takes part in the last two rounds
    assert_eq!(ea[0].value(), bind_all_ref(&a0, &rv[1..])[0]);
    assert_eq!(ea[1].value(), bind_all_ref(&a1, &rv)[0]);
    assert_eq!(eb[0].value(), bind_all_ref(&b0, &rv[1..])[0]);
    let (e, r2) = proof.verify_batch(&claims, &rounds, &coeffs, 2, &mut Transcript::new(TestTranscript::new(6))).unwrap();
    assert_eq!(vals(&r2), rv);
    let expected = ea[0].mul(&eb[0]).mul(&coeffs[0]).add(&ea[1].mul(&eb[1]).mul(&coeffs[1]));
    assert_eq!(e.value(), expected.value());
    assert_eq!(
        proof.verify_batch(&claims, &[2, 2], &coeffs, 2, &mut Transcript::new(TestTranscript::new(6))).unwrap_err(),
        NovaError::InvalidSumcheckProof
    );
}

#[test]
fn cubic_batch_verifies() {
    let a0 = [1u64, 2];
    let b0 = [3u64, 4];
    let c0 = [5u64, 6];
    let d0 = [7u64, 8];
    let a1 = [1u64, 2, 3, 4];
    let b1 = [5u64, 6, 7, 8];
    let c1 = [9u64, 10, 11, 12];
    let d1 = [2u64, 4, 6, 8];
    let claims = [f(pmt(&a0, &b0, &c0, &d0)), f(pmt(&a1, &b1, &c1, &d1))];
    let coeffs = [f(2), f(7)];
    let rounds = [1usize, 2];
    let (proof, r, evals) = SumcheckProof::prove_cubic_with_additive_term_batch(
        &claims,
        &rounds,
        vec![table(&a0), table(&a1)],
        vec![table(&b0), table(&b1)],
        vec![table(&c0), table(&c1)],
        vec![table(&d0), table(&d1)],
        &coeffs,
        ProductMinusTerm,
        &mut Transcript::new(TestTranscript::new(8)),
    )
    .unwrap();
    let rv = vals(&r);
    assert_eq!(evals.len(), 4);
    assert_eq!(evals[0][0].value(), bind_all_ref(&a0, &rv[1..])[0]);
    assert_eq!(evals[3][1].value(), bind_all_ref(&d1, &rv)[0]);
    let (e, _) = proof.verify_batch(&claims, &rounds, &coeffs, 3, &mut Transcript::new(TestTranscript::new(8))).unwrap();
    let inst = |i: usize| evals[0][i].mul(&evals[1][i].mul(&evals[2][i]).sub(&evals[3][i]));
    let expected = inst(0).mul(&coeffs[0]).add(&inst(1).mul(&coeffs[1]));
    assert_eq!(e.value(), expected.value());
}

/// `a * b + a`: a combination of degree two that is not a plain product.
fn product_plus_first_comb() -> QuadraticCombination<Fp65537> {
    QuadraticCombination { coeffs: [f(0), f(1), f(0), f(0), f(1), f(0)] }
}

fn product_plus_first(a: &[u64], b: &[u64]) -> u64 {
    a.iter().zip(b.iter()).fold(0, |s, (x, y)| (s + x * y + x) % P)
}

#[test]
fn quadratic_combinations_reduce_to_one_point() {
    let av = [1u64, 2, 3, 4, 5, 6, 7, 8];
    let bv = [3u64, 1, 4, 1, 5, 9, 2, 6];
    let claim = f(product_plus_first(&av, &bv));
    let (proof, _, evals) = SumcheckProof::prove_quad(
        &claim,
        3,
        &mut table(&av),
        &mut table(&bv),
        product_plus_first_comb(),
        &mut Transcript::new(TestTranscript::new(10)),
    )
    .unwrap();
    let (e, _) = proof.verify(claim, 3, 2, &mut Transcript::new(TestTranscript::new(10))).unwrap();
    assert_eq!(e.value(), evals[0].mul(&evals[1]).add(&evals[0]).value());
}

#[test]
fn quadratic_combination_batch() {
    let a0 = [1u64, 2];
    let b0 = [3u64, 4];
    let a1 = [5u64, 6, 7, 8];
    let b1 = [9u64, 10, 11, 12];
    let claims = [f(product_plus_first(&a0, &b0)), f(product_plus_first(&a1, &b1))];
    let coeffs = [f(4), f(9)];
    let rounds = [1usize, 2];
    let (proof, _, (ea, eb)) = SumcheckProof::prove_quad_batch(
        &claims,
        &rounds,
        vec![table(&a0), table(&a1)],
        vec![table(&b0), table(&b1)],
        &coeffs,
        product_plus_first_comb(),
        &mut Transcript::new(TestTranscript::new(11)),
    )
    .unwrap();
    let (e, _) = proof.verify_batch(&claims, &rounds, &coeffs, 2, &mut Transcript::new(TestTranscript::new(11))).unwrap();
    let inst = |i: usize| ea[i].mul(&eb[i]).add(&ea[i]);
    let expected = inst(0).mul(&coeffs[0]).add(&inst(1).mul(&coeffs[1]));
    assert_eq!(e.value(), expected.value());
}

#[test]
fn quadratic_combination_values() {
    let comb = QuadraticCombination { coeffs: [f(1), f(2), f(3), f(4), f(5), f(6)] };
    // 1 + 2*2 + 3*3 + 4*4 + 5*6 + 6*9
    assert_eq!(comb.combine(&f(2), &f(3)).value(), 1 + 4 + 9 + 16 + 30 + 54);
    assert_eq!(Product.combine(&f(7), &f(6)).value(), 42);
}

#[test]
fn zero_round_batches_need_no_challenge() {
    let claims = [f(12), f(35)];
    let coeffs = [f(1), f(2)];
    let rounds = [0usize, 0];
    let (proof, r, (ea, eb)) = SumcheckProof::prove_quad_batch(
        &claims,
        &rounds,
        vec![table(&[3]), table(&[5])],
        vec![table(&[4]), table(&[7])],
        &coeffs,
        Product,
        &mut Transcript::new(FailingTranscript),
    )
    .unwrap();
    assert_eq!(proof.compressed_polys.len(), 0);
    assert_eq!(r.len(), 0);
    assert_eq!((ea[1].value(), eb[1].value()), (5, 7));
    let (proof, r, evals) = SumcheckProof::prove_cubic_with_additive_term_batch(
        &[f(3 * (4 * 5 - 6))],
        &[0],
        vec![table(&[3])],
        vec![table(&[4])],
        vec![table(&[5])],
        vec![table(&[6])],
        &[f(1)],
        ProductMinusTerm,
        &mut Transcript::new(FailingTranscript),
    )
    .unwrap();
    assert_eq!(proof.compressed_polys.len(), 0);
    assert_eq!(r.len(), 0);
    assert_eq!(evals[3][0].value(), 6);
}

/// Records every call, then answers as `TestTranscript` does.
struct RecordingTranscript {
    inner: TestTranscript,
    calls: Vec<(&'static str, Vec<u64>)>,
}

impl TranscriptEngine<Fp65537> for RecordingTranscript {
    fn absorb_poly(&mut self, label: &'static str, poly: &UniPoly<Fp65537>) {
        self.calls.push((label, vals(&poly.coeffs)));
        self.inner.absorb_poly(label, poly);
    }

    fn squeeze(&mut self, label: &'static str) -> Result<Fp65537, NovaError> {
        let r = self.inner.squeeze(label);
        self.calls.push((label, vec![r.unwrap().value()]));
        r
    }
}

fn recording(seed: u64) -> Transcript<Fp65537, RecordingTranscript> {
    Transcript::new(RecordingTranscript { inner: TestTranscript::new(seed), calls: Vec::new() })
}

fn eval_poly(c: &[u64], x: u64) -> u64 {
    c.iter().rev().fold(0u64, |acc, &k| (acc * x + k) % P)
}

#[test]
fn prover_and_verifier_make_the_same_transcript_calls() {
    let av = [3u64, 1, 4, 1, 5, 9, 2, 6];
    let bv = [2u64, 7, 1, 8, 2, 8, 1, 8];
    let claim = f(dot(&av, &bv));
    let (mut a, mut b) = (table(&av), table(&bv));
    let mut tp = recording(21);
    let (proof, r, _) = SumcheckProof::prove_quad(&claim, 3, &mut a, &mut b, Product, &mut tp).unwrap();
    let mut tv = recording(21);
    let (_, r2) = proof.verify(claim, 3, 2, &mut tv).unwrap();
    assert_eq!(vals(&r), vals(&r2));
    assert_eq!(tp.engine().calls, tv.engine().calls);
    // each round absorbs under "p" a polynomial summing to the running claim over
    // 0 and 1, then draws under "c" the challenge that gives the next claim
    let calls = &tp.engine().calls;
    assert_eq!(calls.len(), 6);
    let mut running = claim.value();
    for j in 0..3 {
        let (lp, p) = &calls[2 * j];
        let (lc, x) = &calls[2 * j + 1];
        assert_eq!((*lp, *lc), ("p", "c"));
        assert_eq!(p.len(), 3);
        assert_eq!((eval_poly(p, 0) + eval_poly(p, 1)) % P, running);
        assert_eq!(x[0], r[j].value());
        running = eval_poly(p, x[0]);
    }
}

#[test]
fn cubic_batch_round_polynomial_takes_the_instances_shares() {
    // instance 0 takes part in the one round; instance 1, with no rounds, waits
    let claims = [f(40), f(14)];
    let (proof, _, _) = SumcheckProof::prove_cubic_with_additive_term_batch(
        &claims,
        &[1, 0],
        vec![table(&[1, 2]), table(&[2])],
        vec![table(&[3, 4]), table(&[3])],
        vec![table(&[5, 6]), table(&[4])],
        vec![table(&[7, 8]), table(&[5])],
        &[f(1), f(3)],
        ProductMinusTerm,
        &mut Transcript::new(TestTranscript::new(12)),
    )
    .unwrap();
    // the combined claim is 40 + 2 * 3 * 14 == 124
    let p = proof.compressed_polys[0].decompress(&f(124));
    let at = |x: u64| p.evaluate(&f(x)).value();
    assert_eq!(at(0), 8 + 42);
    assert_eq!(at(1), 32 + 42);
    assert_eq!(at(2), 78 + 42);
    assert_eq!(at(3), 152 + 42);
}

#[test]
fn verifier_rejects_an_empty_round_polynomial() {
    let proof = SumcheckProof::new(vec![CompressedUniPoly { coeffs_except_linear_term: vec![] }]);
    let mut t = recording(3);
    assert_eq!(proof.verify(f(5), 1, 2, &mut t).unwrap_err(), NovaError::InvalidSumcheckProof);
    assert!(t.engine().calls.is_empty());
    // an empty proof of no rounds is accepted with the claim, and nothing is drawn
    let empty: SumcheckProof<Fp65537> = SumcheckProof::new(vec![]);
    let mut t = recording(3);
    let (e, r) = empty.verify(f(7), 0, 2, &mut t).unwrap();
    assert_eq!((e.value(), r.len()), (7, 0));
    assert!(t.engine().calls.is_empty());
}
