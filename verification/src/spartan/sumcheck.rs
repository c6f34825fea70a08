//! The sum-check protocol: the prover reduces a claim about the sum, over the
//! boolean hypercube, of a combination of multilinear polynomials to a claim about
//! one point; the verifier checks each round's polynomial against the running claim.
use crate::errors::NovaError;
use crate::field::PrimeField;
use crate::r1cs::{
    congruent, lemma_congruent_iff_mod_eq, lemma_cong_add, lemma_cong_add_chain, lemma_cong_mod, lemma_cong_mul,
    lemma_cong_refl, lemma_cong_sub, lemma_cong_sym, lemma_cong_trans,
};
use crate::spartan::transcript::{Transcript, TranscriptEngine, TranscriptEvent};
use crate::spartan::polys::{
    bind_all, bind_top, compress_coeffs, lemma_decompress_compress, decompress_coeffs, field_add, field_mul, field_sub, lemma_poly_eval_congruent,
    lemma_seq_sum_push, poly_eval, seq_congruent, seq_sum, vals, CompressedUniPoly,
    MultilinearPolynomial, UniPoly,
};
use vstd::arithmetic::div_mod::*;
use vstd::arithmetic::power::pow;
use vstd::arithmetic::power2::pow2;
use vstd::bits::{lemma_u64_pow2_no_overflow, lemma_u64_shl_is_mul};
use vstd::prelude::*;

verus! {

/// The pointwise combination of two polynomials whose sum is claimed.
pub trait CombineTwo<F: PrimeField> {
    /// The combination on integers, which the field operation follows.
    spec fn combine_spec(&self, a: int, b: int) -> int;

    /// Combines two field elements.
    fn combine(&self, a: &F, b: &F) -> (r: F)
        ensures
            congruent::<F>(r.val() as int, self.combine_spec(a.val() as int, b.val() as int)),
    ;
}

/// The pointwise combination of three polynomials whose sum is claimed.
pub trait CombineThree<F: PrimeField> {
    /// The combination on integers, which the field operation follows.
    spec fn combine_spec(&self, a: int, b: int, c: int) -> int;

    /// Combines three field elements.
    fn combine(&self, a: &F, b: &F, c: &F) -> (r: F)
        ensures
            congruent::<F>(
                r.val() as int,
                self.combine_spec(a.val() as int, b.val() as int, c.val() as int),
            ),
    ;
}

/// The pointwise combination of four polynomials whose sum is claimed.
pub trait CombineFour<F: PrimeField> {
    /// The combination on integers, which the field operation follows.
    spec fn combine_spec(&self, a: int, b: int, c: int, d: int) -> int;

    /// Combines four field elements.
    fn combine(&self, a: &F, b: &F, c: &F, d: &F) -> (r: F)
        ensures
            congruent::<F>(
                r.val() as int,
                self.combine_spec(a.val() as int, b.val() as int, c.val() as int, d.val() as int),
            ),
    ;
}

/// `a * b`: the combination of an inner-product sum-check.
#[derive(Clone, Copy, Debug)]
pub struct Product;

impl<F: PrimeField> CombineTwo<F> for Product {
    open spec fn combine_spec(&self, a: int, b: int) -> int {
        a * b
    }

    fn combine(&self, a: &F, b: &F) -> (r: F) {
        field_mul(a, b)
    }
}

/// `k0 + k1 a + k2 b + k3 a^2 + k4 a b + k5 b^2`: any combination of degree at
/// most two, given by its coefficients.
#[derive(Clone, Copy, Debug)]
pub struct QuadraticCombination<F> {
    pub coeffs: [F; 6],
}

impl<F: PrimeField> QuadraticCombination<F> {
    /// The coefficients as integers.
    pub open spec fn coeff_vals(&self) -> (int, int, int, int, int, int) {
        (
            self.coeffs[0].val() as int,
            self.coeffs[1].val() as int,
            self.coeffs[2].val() as int,
            self.coeffs[3].val() as int,
            self.coeffs[4].val() as int,
            self.coeffs[5].val() as int,
        )
    }
}

/// `c * x` in the field, added to `acc`.
fn add_term<F: PrimeField>(acc: &F, c: &F, x: &F) -> (r: F)
    ensures
        congruent::<F>(r.val() as int, acc.val() + (c.val() * x.val()) as int),
{
    let t = field_mul(c, x);
    let r = field_add(acc, &t);
    proof {
        lemma_cong_refl::<F>(acc.val() as int);
        lemma_cong_add_chain::<F>(r.val() as int, acc.val() as int, t.val() as int, acc.val() as int, (c.val() * x.val()) as int);
    }
    r
}

impl<F: PrimeField> CombineTwo<F> for QuadraticCombination<F> {
    open spec fn combine_spec(&self, a: int, b: int) -> int {
        quad_poly(self.coeff_vals(), a, b)
    }

    fn combine(&self, a: &F, b: &F) -> (r: F) {
        let aa = field_mul(a, a);
        let ab = field_mul(a, b);
        let bb = field_mul(b, b);
        let t1 = add_term(&self.coeffs[0], &self.coeffs[1], a);
        let t2 = add_term(&t1, &self.coeffs[2], b);
        let t3 = add_term(&t2, &self.coeffs[3], &aa);
        let t4 = add_term(&t3, &self.coeffs[4], &ab);
        let r = add_term(&t4, &self.coeffs[5], &bb);
        proof {
            let k = self.coeff_vals();
            let (av, bv) = (a.val() as int, b.val() as int);
            lemma_cong_refl::<F>(k.3);
            lemma_cong_refl::<F>(k.4);
            lemma_cong_refl::<F>(k.5);
            lemma_cong_refl::<F>(k.0 + k.1 * av);
            lemma_cong_refl::<F>(k.2 * bv);
            lemma_cong_mul::<F>(k.3, k.3, aa.val() as int, av * av);
            lemma_cong_mul::<F>(k.4, k.4, ab.val() as int, av * bv);
            lemma_cong_mul::<F>(k.5, k.5, bb.val() as int, bv * bv);
            lemma_cong_add_chain::<F>(t2.val() as int, t1.val() as int, k.2 * bv, k.0 + k.1 * av, k.2 * bv);
            lemma_cong_add_chain::<F>(t3.val() as int, t2.val() as int, k.3 * aa.val(), k.0 + k.1 * av + k.2 * bv, k.3 * (av * av));
            lemma_cong_add_chain::<F>(
                t4.val() as int,
                t3.val() as int,
                k.4 * ab.val(),
                k.0 + k.1 * av + k.2 * bv + k.3 * (av * av),
                k.4 * (av * bv),
            );
            lemma_cong_add_chain::<F>(
                r.val() as int,
                t4.val() as int,
                k.5 * bb.val(),
                k.0 + k.1 * av + k.2 * bv + k.3 * (av * av) + k.4 * (av * bv),
                k.5 * (bv * bv),
            );
        }
        r
    }
}

/// `a * b * c`: the combination of a product of three polynomials.
#[derive(Clone, Copy, Debug)]
pub struct TripleProduct;

impl<F: PrimeField> CombineThree<F> for TripleProduct {
    open spec fn combine_spec(&self, a: int, b: int, c: int) -> int {
        a * b * c
    }

    fn combine(&self, a: &F, b: &F, c: &F) -> (r: F) {
        let ab = field_mul(a, b);
        let r = field_mul(&ab, c);
        proof {
            let (av, bv, cv) = (a.val() as int, b.val() as int, c.val() as int);
            lemma_cong_refl::<F>(cv);
            lemma_cong_mul::<F>(ab.val() as int, av * bv, cv, cv);
            lemma_cong_trans::<F>(r.val() as int, ab.val() * cv, av * bv * cv);
        }
        r
    }
}

/// `a * (b * c - d)`: the combination of the outer sum-check of Spartan, where `a`
/// is the equality polynomial and `b * c - d` the relaxed constraint residue.
#[derive(Clone, Copy, Debug)]
pub struct ProductMinusTerm;

impl<F: PrimeField> CombineFour<F> for ProductMinusTerm {
    open spec fn combine_spec(&self, a: int, b: int, c: int, d: int) -> int {
        a * (b * c - d)
    }

    fn combine(&self, a: &F, b: &F, c: &F, d: &F) -> (r: F) {
        let bc = field_mul(b, c);
        let t = field_sub(&bc, d);
        let r = field_mul(a, &t);
        proof {
            let (av, bv, cv, dv) = (a.val() as int, b.val() as int, c.val() as int, d.val() as int);
            let (bcv, tv) = (bc.val() as int, t.val() as int);
            lemma_cong_refl::<F>(av);
            lemma_cong_refl::<F>(dv);
            lemma_cong_sub::<F>(bcv, bv * cv, dv, dv);
            lemma_cong_trans::<F>(tv, bcv - dv, bv * cv - dv);
            lemma_cong_mul::<F>(av, av, tv, bv * cv - dv);
            lemma_cong_trans::<F>(r.val() as int, av * tv, av * (bv * cv - dv));
        }
        r
    }
}

/// The value at `2` of the line through `lo` (at `0`) and `hi` (at `1`), reduced.
pub open spec fn point_two<F: PrimeField>(lo: int, hi: int) -> int {
    (2 * hi - lo) % (F::modulus() as int)
}

/// The value at `3` of the line through `lo` (at `0`) and `hi` (at `1`), reduced.
pub open spec fn point_three<F: PrimeField>(lo: int, hi: int) -> int {
    (3 * hi - 2 * lo) % (F::modulus() as int)
}

/// For `i < h`, the value at `2` of the line from `z[i]` to `z[i + h]`.
pub open spec fn line_two<F: PrimeField>(z: Seq<int>, h: nat) -> Seq<int> {
    Seq::new(h, |i: int| point_two::<F>(z[i], z[i + h]))
}

/// For `i < h`, the value at `3` of the line from `z[i]` to `z[i + h]`.
pub open spec fn line_three<F: PrimeField>(z: Seq<int>, h: nat) -> Seq<int> {
    Seq::new(h, |i: int| point_three::<F>(z[i], z[i + h]))
}

/// `sum_{i < n} comb(a[i], b[i])`.
pub open spec fn sum_two<F: PrimeField, C: CombineTwo<F>>(
    comb: C,
    a: Seq<int>,
    b: Seq<int>,
    n: nat,
) -> int
    decreases n,
{
    if n == 0 {
        0
    } else {
        sum_two::<F, C>(comb, a, b, (n - 1) as nat) + comb.combine_spec(a[n - 1], b[n - 1])
    }
}

/// `sum_{i < n} comb(a[i], b[i], c[i])`.
pub open spec fn sum_three<F: PrimeField, C: CombineThree<F>>(
    comb: C,
    a: Seq<int>,
    b: Seq<int>,
    c: Seq<int>,
    n: nat,
) -> int
    decreases n,
{
    if n == 0 {
        0
    } else {
        sum_three::<F, C>(comb, a, b, c, (n - 1) as nat) + comb.combine_spec(a[n - 1], b[n - 1], c[n - 1])
    }
}

/// `sum_{i < n} comb(a[i], b[i], c[i], d[i])`.
pub open spec fn sum_four<F: PrimeField, C: CombineFour<F>>(
    comb: C,
    a: Seq<int>,
    b: Seq<int>,
    c: Seq<int>,
    d: Seq<int>,
    n: nat,
) -> int
    decreases n,
{
    if n == 0 {
        0
    } else {
        sum_four::<F, C>(comb, a, b, c, d, (n - 1) as nat) + comb.combine_spec(
            a[n - 1],
            b[n - 1],
            c[n - 1],
            d[n - 1],
        )
    }
}

/// `2 * hi - lo` in the field.
pub fn line_at_two<F: PrimeField>(lo: &F, hi: &F) -> (r: F)
    ensures
        r.val() == point_two::<F>(lo.val() as int, hi.val() as int),
{
    let t = hi.add(hi);
    let r = t.sub(lo);
    proof {
        F::lemma_modulus_is_prime();
        let p = F::modulus() as int;
        F::lemma_val_bound(lo);
        lemma_small_mod(lo.val(), F::modulus());
        let h = hi.val() as int;
        lemma_sub_mod_noop(h + h, lo.val() as int, p);
        lemma_mod_twice(h + h, p);
        assert(h + h == 2 * h);
    }
    r
}

/// `3 * hi - 2 * lo` in the field, from the value at two.
pub fn line_at_three<F: PrimeField>(at_two: &F, lo: &F, hi: &F) -> (r: F)
    requires
        at_two.val() == point_two::<F>(lo.val() as int, hi.val() as int),
    ensures
        r.val() == point_three::<F>(lo.val() as int, hi.val() as int),
{
    let t = at_two.add(hi);
    let r = t.sub(lo);
    proof {
        F::lemma_modulus_is_prime();
        let p = F::modulus() as int;
        let (l, h) = (lo.val() as int, hi.val() as int);
        F::lemma_val_bound(lo);
        F::lemma_val_bound(hi);
        lemma_small_mod(lo.val(), F::modulus());
        lemma_small_mod(hi.val(), F::modulus());
        // t == (2h - l + h) mod p
        lemma_add_mod_noop(2 * h - l, h, p);
        // r == (t - l) mod p == (3h - 2l) mod p
        lemma_sub_mod_noop(2 * h - l + h, l, p);
        lemma_mod_twice(2 * h - l + h, p);
        assert(2 * h - l + h - l == 3 * h - 2 * l);
    }
    r
}

/// The integer coefficients of each compressed round polynomial.
pub open spec fn compressed_vals<F: PrimeField>(ps: Seq<CompressedUniPoly<F>>) -> Seq<Seq<int>> {
    ps.map_values(|p: CompressedUniPoly<F>| vals(p.coeffs_except_linear_term@))
}

/// The running claim after the rounds of `polys` with the challenges `r`: each
/// round's polynomial is recovered from the previous claim and evaluated at the
/// round's challenge.
pub open spec fn final_claim(polys: Seq<Seq<int>>, claim: int, r: Seq<int>) -> int
    decreases polys.len(),
{
    if polys.len() == 0 {
        claim
    } else {
        poly_eval(
            decompress_coeffs(polys.last(), final_claim(polys.drop_last(), claim, r)),
            r[polys.len() - 1],
        )
    }
}

/// The largest entry of `s` (zero when empty).
pub open spec fn seq_max(s: Seq<usize>) -> nat
    decreases s.len(),
{
    if s.len() == 0 {
        0
    } else {
        let m = seq_max(s.drop_last());
        if s.last() > m {
            s.last() as nat
        } else {
            m
        }
    }
}

/// `sum_{i < k} 2^(n - rounds[i]) * claims[i] * coeffs[i]`: the claims of a batch,
/// each scaled for the rounds it is padded by, combined by the coefficients.
pub open spec fn batch_claim(
    claims: Seq<int>,
    rounds: Seq<usize>,
    coeffs: Seq<int>,
    n: nat,
    k: nat,
) -> int
    decreases k,
{
    if k == 0 {
        0
    } else {
        batch_claim(claims, rounds, coeffs, n, (k - 1) as nat) + pow2((n - rounds[k - 1]) as nat)
            * claims[k - 1] * coeffs[k - 1]
    }
}

/// The running claim depends only on the challenges of its rounds.
pub proof fn lemma_final_claim_prefix(polys: Seq<Seq<int>>, claim: int, r: Seq<int>, r2: Seq<int>)
    requires
        forall|j: int| 0 <= j < polys.len() ==> r[j] == r2[j],
    ensures
        final_claim(polys, claim, r) == final_claim(polys, claim, r2),
    decreases polys.len(),
{
    if polys.len() > 0 {
        lemma_final_claim_prefix(polys.drop_last(), claim, r, r2);
    }
}

/// Congruent hints give congruent decompressed coefficients.
pub proof fn lemma_decompress_congruent<F: PrimeField>(c: Seq<int>, h1: int, h2: int)
    requires
        c.len() >= 1,
        congruent::<F>(h1, h2),
    ensures
        seq_congruent::<F>(decompress_coeffs(c, h1), decompress_coeffs(c, h2)),
{
    let d1 = decompress_coeffs(c, h1);
    let d2 = decompress_coeffs(c, h2);
    let rest = c[0] + c[0] + seq_sum(c.subrange(1, c.len() as int));
    lemma_cong_refl::<F>(rest);
    lemma_cong_sub::<F>(h1, h2, rest, rest);
    assert forall|k: int| 0 <= k < d1.len() implies congruent::<F>(#[trigger] d1[k], d2[k]) by {
        if k == 1 {
            assert(d1[1] == h1 - rest);
            assert(d2[1] == h2 - rest);
        } else {
            lemma_cong_refl::<F>(d1[k]);
        }
    }
}

/// Congruence of sequences is transitive.
pub proof fn lemma_seq_congruent_trans<F: PrimeField>(a: Seq<int>, b: Seq<int>, c: Seq<int>)
    requires
        seq_congruent::<F>(a, b),
        seq_congruent::<F>(b, c),
    ensures
        seq_congruent::<F>(a, c),
{
    assert forall|i: int| 0 <= i < a.len() implies congruent::<F>(#[trigger] a[i], c[i]) by {
        lemma_cong_trans::<F>(a[i], b[i], c[i]);
    }
}

/// The canonical representatives of `s`.
pub open spec fn reduce_all<F: PrimeField>(s: Seq<int>) -> Seq<int> {
    s.map_values(|x: int| x % (F::modulus() as int))
}

/// The polynomial of the round after the challenges `rs`, as the verifier
/// recovers it: decompressed from `polys` with the running claim as hint, in
/// canonical form.
pub open spec fn round_poly<F: PrimeField>(polys: Seq<Seq<int>>, claim: int, rs: Seq<int>) -> Seq<int> {
    reduce_all::<F>(
        decompress_coeffs(polys[rs.len() as int], final_claim(polys.take(rs.len() as int), claim, rs)),
    )
}

/// The transcript calls of the rounds with challenges `rs`: each round absorbs its
/// polynomial under `"p"`, then draws its challenge under `"c"`.
pub open spec fn rounds_log<F: PrimeField>(polys: Seq<Seq<int>>, claim: int, rs: Seq<F>) -> Seq<
    TranscriptEvent<F>,
>
    decreases rs.len(),
{
    if rs.len() == 0 {
        Seq::empty()
    } else {
        rounds_log(polys, claim, rs.drop_last()) + seq![
            TranscriptEvent::Absorb("p"@, round_poly::<F>(polys, claim, vals(rs.drop_last()))),
            TranscriptEvent::Squeeze("c"@, Ok(rs.last())),
        ]
    }
}

/// The transcript calls of a run stopped by the failed draw `err` of the round
/// after the challenges `rs`.
pub open spec fn failed_log<F: PrimeField>(
    polys: Seq<Seq<int>>,
    claim: int,
    rs: Seq<F>,
    err: NovaError,
) -> Seq<TranscriptEvent<F>> {
    rounds_log(polys, claim, rs) + seq![
        TranscriptEvent::Absorb("p"@, round_poly::<F>(polys, claim, vals(rs))),
        TranscriptEvent::Squeeze("c"@, Err(err)),
    ]
}

/// A run of `n` rounds over `polys` stopped by a failed draw: `log` holds what
/// came before, then the rounds before the failure, the failing round's
/// polynomial and the failed draw.
pub open spec fn stopped_by_draw<F: PrimeField>(
    log0: Seq<TranscriptEvent<F>>,
    log: Seq<TranscriptEvent<F>>,
    polys: Seq<Seq<int>>,
    claim: int,
    n: nat,
    err: NovaError,
) -> bool {
    exists|rs: Seq<F>|
        rs.len() < n && (forall|j: int| 0 <= j <= rs.len() ==> (#[trigger] polys[j]).len() >= 1) && log == log0
            + #[trigger] failed_log(polys, claim, rs, err)
}

/// A run of the prover stopped by a failed draw: the round polynomials before the
/// failure and the failing one are some `polys`, each recovered from the claim.
pub open spec fn prover_stopped<F: PrimeField>(
    log0: Seq<TranscriptEvent<F>>,
    log: Seq<TranscriptEvent<F>>,
    claim: int,
    n: nat,
    err: NovaError,
) -> bool {
    exists|polys: Seq<Seq<int>>, rs: Seq<F>|
        rs.len() < n && polys.len() == rs.len() + 1 && (forall|j: int|
            0 <= j < polys.len() ==> (#[trigger] polys[j]).len() >= 1) && log == log0 + #[trigger] failed_log(
            polys,
            claim,
            rs,
            err,
        )
}

/// A run of the prover stopped by a failed draw reads the same from congruent
/// claims.
pub proof fn lemma_prover_stopped_congruent<F: PrimeField>(
    log0: Seq<TranscriptEvent<F>>,
    log: Seq<TranscriptEvent<F>>,
    c1: int,
    c2: int,
    n: nat,
    err: NovaError,
)
    requires
        congruent::<F>(c1, c2),
        prover_stopped(log0, log, c1, n, err),
    ensures
        prover_stopped(log0, log, c2, n, err),
{
    let (polys, rs) = choose|polys: Seq<Seq<int>>, rs: Seq<F>|
        rs.len() < n && polys.len() == rs.len() + 1 && (forall|j: int|
            0 <= j < polys.len() ==> (#[trigger] polys[j]).len() >= 1) && log == log0 + #[trigger] failed_log(
            polys,
            c1,
            rs,
            err,
        );
    lemma_rounds_log_congruent::<F>(polys, c1, c2, rs);
    lemma_round_poly_congruent::<F>(polys, c1, c2, vals(rs));
    assert(failed_log(polys, c1, rs, err) == failed_log(polys, c2, rs, err));
}

/// A run of the verifier over `proof` stopped at a round polynomial of the wrong
/// degree: `log` holds what came before, then the rounds before it.
pub open spec fn stopped_by_shape<F: PrimeField>(
    log0: Seq<TranscriptEvent<F>>,
    log: Seq<TranscriptEvent<F>>,
    proof: Seq<CompressedUniPoly<F>>,
    claim: int,
    n: nat,
    degree_bound: nat,
) -> bool {
    exists|rs: Seq<F>|
        rs.len() < n && log == log0 + #[trigger] rounds_log(compressed_vals(proof), claim, rs) && (
        proof[rs.len() as int].coeffs_except_linear_term@.len() != degree_bound
            || proof[rs.len() as int].coeffs_except_linear_term@.len() == 0) && forall|j: int|
            0 <= j < rs.len() ==> (#[trigger] proof[j]).coeffs_except_linear_term@.len() == degree_bound
                && proof[j].coeffs_except_linear_term@.len() >= 1
}

/// Canonical values are their own representatives.
pub proof fn lemma_vals_canonical<F: PrimeField>(s: Seq<F>)
    ensures
        forall|k: int| 0 <= k < s.len() ==> 0 <= #[trigger] vals(s)[k] < F::modulus(),
{
    assert forall|k: int| 0 <= k < s.len() implies 0 <= #[trigger] vals(s)[k] < F::modulus() by {
        F::lemma_val_bound(&s[k]);
    }
}

/// Congruent sequences have the same canonical representatives, and a canonical
/// sequence is its own.
pub proof fn lemma_reduce_congruent<F: PrimeField>(a: Seq<int>, b: Seq<int>)
    requires
        seq_congruent::<F>(a, b),
    ensures
        reduce_all::<F>(a) == reduce_all::<F>(b),
        (forall|k: int| 0 <= k < a.len() ==> 0 <= #[trigger] a[k] < F::modulus()) ==> a
            == reduce_all::<F>(b),
{
    F::lemma_modulus_is_prime();
    let p = F::modulus() as int;
    assert forall|k: int| 0 <= k < a.len() implies #[trigger] reduce_all::<F>(a)[k] == reduce_all::<F>(b)[k] by {
        lemma_congruent_iff_mod_eq::<F>(a[k], b[k]);
    }
    assert(reduce_all::<F>(a) =~= reduce_all::<F>(b));
    if forall|k: int| 0 <= k < a.len() ==> 0 <= #[trigger] a[k] < F::modulus() {
        assert forall|k: int| 0 <= k < a.len() implies #[trigger] a[k] == reduce_all::<F>(a)[k] by {
            lemma_small_mod(a[k] as nat, p as nat);
        }
        assert(a =~= reduce_all::<F>(a));
    }
}

/// Congruent claims give the same round polynomials.
pub proof fn lemma_round_poly_congruent<F: PrimeField>(polys: Seq<Seq<int>>, c1: int, c2: int, rs: Seq<int>)
    requires
        congruent::<F>(c1, c2),
        rs.len() < polys.len(),
        forall|j: int| 0 <= j <= rs.len() ==> (#[trigger] polys[j]).len() >= 1,
    ensures
        round_poly::<F>(polys, c1, rs) == round_poly::<F>(polys, c2, rs),
{
    let pre = polys.take(rs.len() as int);
    assert forall|j: int| 0 <= j < pre.len() implies (#[trigger] pre[j]).len() >= 1 by {
        assert(pre[j] == polys[j]);
    }
    lemma_final_claim_congruent::<F>(pre, c1, c2, rs);
    lemma_decompress_congruent::<F>(polys[rs.len() as int], final_claim(pre, c1, rs), final_claim(pre, c2, rs));
    lemma_reduce_congruent::<F>(
        decompress_coeffs(polys[rs.len() as int], final_claim(pre, c1, rs)),
        decompress_coeffs(polys[rs.len() as int], final_claim(pre, c2, rs)),
    );
}

/// Congruent claims give the same transcript calls.
pub proof fn lemma_rounds_log_congruent<F: PrimeField>(polys: Seq<Seq<int>>, c1: int, c2: int, rs: Seq<F>)
    requires
        congruent::<F>(c1, c2),
        rs.len() <= polys.len(),
        forall|j: int| 0 <= j < rs.len() ==> (#[trigger] polys[j]).len() >= 1,
    ensures
        rounds_log(polys, c1, rs) == rounds_log(polys, c2, rs),
    decreases rs.len(),
{
    if rs.len() > 0 {
        lemma_rounds_log_congruent::<F>(polys, c1, c2, rs.drop_last());
        lemma_round_poly_congruent::<F>(polys, c1, c2, vals(rs.drop_last()));
    }
}

/// A run stopped by a failed draw reads the same from congruent claims.
pub proof fn lemma_stopped_congruent<F: PrimeField>(
    log0: Seq<TranscriptEvent<F>>,
    log: Seq<TranscriptEvent<F>>,
    polys: Seq<Seq<int>>,
    c1: int,
    c2: int,
    err: NovaError,
)
    requires
        congruent::<F>(c1, c2),
        stopped_by_draw(log0, log, polys, c1, polys.len(), err),
    ensures
        stopped_by_draw(log0, log, polys, c2, polys.len(), err),
{
    let rs = choose|rs: Seq<F>|
        rs.len() < polys.len() && (forall|j: int| 0 <= j <= rs.len() ==> (#[trigger] polys[j]).len() >= 1) && log
            == log0 + #[trigger] failed_log(polys, c1, rs, err);
    lemma_rounds_log_congruent::<F>(polys, c1, c2, rs);
    lemma_round_poly_congruent::<F>(polys, c1, c2, vals(rs));
    assert(failed_log(polys, c1, rs, err) == failed_log(polys, c2, rs, err));
}

/// A run stopped at a round polynomial of the wrong degree reads the same from
/// congruent claims.
pub proof fn lemma_stopped_by_shape_congruent<F: PrimeField>(
    log0: Seq<TranscriptEvent<F>>,
    log: Seq<TranscriptEvent<F>>,
    proof: Seq<CompressedUniPoly<F>>,
    c1: int,
    c2: int,
    d: nat,
)
    requires
        congruent::<F>(c1, c2),
        stopped_by_shape(log0, log, proof, c1, proof.len(), d),
    ensures
        stopped_by_shape(log0, log, proof, c2, proof.len(), d),
{
    let rs = choose|rs: Seq<F>|
        rs.len() < proof.len() && log == log0 + #[trigger] rounds_log(compressed_vals(proof), c1, rs) && (
        proof[rs.len() as int].coeffs_except_linear_term@.len() != d
            || proof[rs.len() as int].coeffs_except_linear_term@.len() == 0) && forall|j: int|
            0 <= j < rs.len() ==> (#[trigger] proof[j]).coeffs_except_linear_term@.len() == d
                && proof[j].coeffs_except_linear_term@.len() >= 1;
    let cv = compressed_vals(proof);
    assert forall|j: int| 0 <= j < rs.len() implies (#[trigger] cv[j]).len() >= 1 by {
        assert(proof[j].coeffs_except_linear_term@.len() >= 1);
    }
    lemma_rounds_log_congruent::<F>(cv, c1, c2, rs);
}
/// The transcript calls of the rounds depend only on those rounds' polynomials.
pub proof fn lemma_rounds_log_frame<F: PrimeField>(p1: Seq<Seq<int>>, p2: Seq<Seq<int>>, claim: int, rs: Seq<F>)
    requires
        rs.len() <= p1.len(),
        rs.len() <= p2.len(),
        forall|j: int| 0 <= j < rs.len() ==> p1[j] == p2[j],
    ensures
        rounds_log(p1, claim, rs) == rounds_log(p2, claim, rs),
    decreases rs.len(),
{
    if rs.len() > 0 {
        let k = rs.len() - 1;
        lemma_rounds_log_frame::<F>(p1, p2, claim, rs.drop_last());
        assert(p1.take(k) =~= p2.take(k));
    }
}

/// One more round extends the transcript calls by that round's.
pub proof fn lemma_rounds_log_push<F: PrimeField>(polys: Seq<Seq<int>>, claim: int, rs: Seq<F>, x: F)
    ensures
        rounds_log(polys, claim, rs.push(x)) == rounds_log(polys, claim, rs) + seq![
            TranscriptEvent::Absorb("p"@, round_poly::<F>(polys, claim, vals(rs))),
            TranscriptEvent::Squeeze("c"@, Ok(x)),
        ],
{
    assert(rs.push(x).drop_last() =~= rs);
}

/// The prover's round polynomial `p`, in canonical form and with `p(0) + p(1)`
/// the running claim, is the one the verifier recovers from its compression.
pub proof fn lemma_prover_absorb<F: PrimeField>(
    polys: Seq<Seq<int>>,
    claim: int,
    rs: Seq<int>,
    running: int,
    p: Seq<int>,
)
    requires
        p.len() >= 2,
        rs.len() == polys.len(),
        forall|k: int| 0 <= k < p.len() ==> 0 <= #[trigger] p[k] < F::modulus(),
        congruent::<F>(running, final_claim(polys, claim, rs)),
        congruent::<F>(poly_eval(p, 0) + poly_eval(p, 1), running),
    ensures
        p == round_poly::<F>(polys.push(compress_coeffs(p)), claim, rs),
{
    let ps = polys.push(compress_coeffs(p));
    assert(ps.take(rs.len() as int) =~= polys);
    let fc = final_claim(polys, claim, rs);
    lemma_decompress_compress(p);
    lemma_cong_trans::<F>(poly_eval(p, 0) + poly_eval(p, 1), running, fc);
    lemma_decompress_congruent::<F>(compress_coeffs(p), poly_eval(p, 0) + poly_eval(p, 1), fc);
    lemma_reduce_congruent::<F>(p, decompress_coeffs(compress_coeffs(p), fc));
}

/// A prover round that absorbed `p` and drew `x` extends the transcript calls by
/// that round's.
pub proof fn lemma_prover_log_ok<F: PrimeField>(
    log0: Seq<TranscriptEvent<F>>,
    polys: Seq<Seq<int>>,
    claim: int,
    rs: Seq<F>,
    p: Seq<int>,
    x: F,
)
    requires
        rs.len() == polys.len(),
        p == round_poly::<F>(polys.push(compress_coeffs(p)), claim, vals(rs)),
    ensures
        (log0 + rounds_log(polys, claim, rs)).push(TranscriptEvent::Absorb("p"@, p)).push(
            TranscriptEvent::Squeeze("c"@, Ok(x)),
        ) == log0 + rounds_log(polys.push(compress_coeffs(p)), claim, rs.push(x)),
{
    let ps = polys.push(compress_coeffs(p));
    lemma_rounds_log_frame::<F>(ps, polys, claim, rs);
    lemma_rounds_log_push::<F>(ps, claim, rs, x);
    assert((log0 + rounds_log(polys, claim, rs)).push(TranscriptEvent::Absorb("p"@, p)).push(
        TranscriptEvent::Squeeze("c"@, Ok(x)),
    ) =~= log0 + rounds_log(ps, claim, rs.push(x)));
}

/// A prover round that absorbed `p` and then failed to draw stops the run.
pub proof fn lemma_prover_log_err<F: PrimeField>(
    log0: Seq<TranscriptEvent<F>>,
    polys: Seq<Seq<int>>,
    claim: int,
    rs: Seq<F>,
    p: Seq<int>,
    n: nat,
    err: NovaError,
)
    requires
        rs.len() == polys.len(),
        rs.len() < n,
        p.len() >= 2,
        forall|j: int| 0 <= j < polys.len() ==> (#[trigger] polys[j]).len() >= 1,
        p == round_poly::<F>(polys.push(compress_coeffs(p)), claim, vals(rs)),
    ensures
        prover_stopped(
            log0,
            (log0 + rounds_log(polys, claim, rs)).push(TranscriptEvent::Absorb("p"@, p)).push(
                TranscriptEvent::Squeeze("c"@, Err(err)),
            ),
            claim,
            n,
            err,
        ),
{
    let ps = polys.push(compress_coeffs(p));
    lemma_rounds_log_frame::<F>(ps, polys, claim, rs);
    assert((log0 + rounds_log(polys, claim, rs)).push(TranscriptEvent::Absorb("p"@, p)).push(
        TranscriptEvent::Squeeze("c"@, Err(err)),
    ) =~= log0 + failed_log(ps, claim, rs, err));
    assert forall|j: int| 0 <= j < ps.len() implies (#[trigger] ps[j]).len() >= 1 by {
        if j < polys.len() {
            assert(ps[j] == polys[j]);
        }
    }
}

/// `2^k` for a shift below the word size.
pub fn power_of_two(k: usize) -> (r: u64)
    requires
        k < 64,
    ensures
        r == pow2(k as nat),
{
    proof {
        lemma_u64_pow2_no_overflow(k as nat);
        lemma_u64_shl_is_mul(1, k as u64);
    }
    1u64 << (k as u64)
}

/// The largest number of rounds in a batch.
pub fn max_rounds(num_rounds: &[usize]) -> (r: usize)
    ensures
        r == seq_max(num_rounds@),
        forall|i: int| 0 <= i < num_rounds@.len() ==> num_rounds@[i] <= r,
        num_rounds@.len() > 0 ==> exists|i: int| 0 <= i < num_rounds@.len() && num_rounds@[i] == r,
{
    let mut m: usize = 0;
    let mut i: usize = 0;
    while i < num_rounds.len()
        invariant
            i <= num_rounds@.len(),
            m == seq_max(num_rounds@.take(i as int)),
            forall|j: int| 0 <= j < i ==> num_rounds@[j] <= m,
            i > 0 ==> exists|j: int| 0 <= j < i && num_rounds@[j] == m,
        decreases num_rounds@.len() - i,
    {
        proof {
            assert(num_rounds@.take(i + 1).drop_last() =~= num_rounds@.take(i as int));
        }
        if num_rounds[i] > m {
            m = num_rounds[i];
        }
        i = i + 1;
    }
    proof {
        assert(num_rounds@.take(i as int) =~= num_rounds@);
    }
    m
}

/// `sum_i 2^(n - num_rounds[i]) * claims[i] * coeffs[i]` in the field.
pub fn combine_claims<F: PrimeField>(
    claims: &[F],
    num_rounds: &[usize],
    coeffs: &[F],
    n: usize,
) -> (r: F)
    requires
        num_rounds@.len() == claims@.len(),
        coeffs@.len() == claims@.len(),
        forall|i: int| 0 <= i < num_rounds@.len() ==> num_rounds@[i] <= n && n - num_rounds@[i] < 64,
    ensures
        congruent::<F>(
            r.val() as int,
            batch_claim(vals(claims@), num_rounds@, vals(coeffs@), n as nat, claims@.len() as nat),
        ),
{
    let mut acc = F::zero();
    let mut i: usize = 0;
    proof {
        lemma_cong_refl::<F>(0);
    }
    while i < claims.len()
        invariant
            i <= claims@.len(),
            num_rounds@.len() == claims@.len(),
            coeffs@.len() == claims@.len(),
            forall|j: int| 0 <= j < num_rounds@.len() ==> num_rounds@[j] <= n && n - num_rounds@[j] < 64,
            congruent::<F>(
                acc.val() as int,
                batch_claim(vals(claims@), num_rounds@, vals(coeffs@), n as nat, i as nat),
            ),
        decreases claims@.len() - i,
    {
        let ghost prev = acc;
        let factor = F::from_u64(power_of_two(n - num_rounds[i]));
        let scaled = field_mul(&factor, &claims[i]);
        let term = field_mul(&scaled, &coeffs[i]);
        acc = field_add(&acc, &term);
        proof {
            let k = pow2((n - num_rounds@[i as int]) as nat) as int;
            let (cv, kv) = (claims@[i as int].val() as int, coeffs@[i as int].val() as int);
            lemma_cong_mod::<F>(k);
            lemma_cong_refl::<F>(cv);
            lemma_cong_refl::<F>(kv);
            lemma_cong_sym::<F>(factor.val() as int, k);
            lemma_cong_mul::<F>(factor.val() as int, k, cv, cv);
            lemma_cong_trans::<F>(scaled.val() as int, factor.val() * cv, k * cv);
            lemma_cong_mul::<F>(scaled.val() as int, k * cv, kv, kv);
            lemma_cong_trans::<F>(term.val() as int, scaled.val() * kv, k * cv * kv);
            lemma_cong_add_chain::<F>(
                acc.val() as int,
                prev.val() as int,
                term.val() as int,
                batch_claim(vals(claims@), num_rounds@, vals(coeffs@), n as nat, i as nat),
                k * cv * kv,
            );
        }
        i = i + 1;
    }
    acc
}

/// A sum-check proof: the compressed polynomial of each round.
#[derive(Clone, Debug)]
pub struct SumcheckProof<F> {
    pub compressed_polys: Vec<CompressedUniPoly<F>>,
}

impl<F: PrimeField> SumcheckProof<F> {
    /// The proof made of these round polynomials.
    pub fn new(compressed_polys: Vec<CompressedUniPoly<F>>) -> (r: Self)
        ensures
            r.compressed_polys@ == compressed_polys@,
    {
        SumcheckProof { compressed_polys }
    }

    /// Every round polynomial has at least its constant coefficient.
    pub open spec fn well_formed(&self) -> bool {
        forall|j: int|
            0 <= j < self.compressed_polys@.len()
                ==> (#[trigger] self.compressed_polys@[j]).coeffs_except_linear_term@.len() >= 1
    }

    /// The round polynomials pass the checks of a verifier expecting `num_rounds`
    /// rounds of degree `degree_bound`.
    pub open spec fn shape_ok(&self, num_rounds: nat, degree_bound: nat) -> bool {
        &&& self.compressed_polys@.len() == num_rounds
        &&& forall|j: int|
            0 <= j < self.compressed_polys@.len() ==> {
                &&& (#[trigger] self.compressed_polys@[j]).coeffs_except_linear_term@.len() == degree_bound
                &&& self.compressed_polys@[j].coeffs_except_linear_term@.len() >= 1
            }
    }

    /// Checks the proof of `claim` over `num_rounds` rounds of degree
    /// `degree_bound`, drawing the challenges from `transcript`. On success returns
    /// the final claim and the challenges: the claim reduced to one point.
    pub fn verify<T: TranscriptEngine<F>>(
        &self,
        claim: F,
        num_rounds: usize,
        degree_bound: usize,
        transcript: &mut Transcript<F, T>,
    ) -> (res: Result<(F, Vec<F>), NovaError>)
        ensures
            self.compressed_polys@.len() != num_rounds ==> res == Err::<(F, Vec<F>), NovaError>(
                NovaError::InvalidSumcheckProof,
            ) && final(transcript).log() == old(transcript).log(),
            !self.shape_ok(num_rounds as nat, degree_bound as nat) ==> res is Err,
            // no round: nothing to check, nothing to draw
            self.compressed_polys@.len() == num_rounds && num_rounds == 0 ==> (res matches Ok((e, r)) && e
                == claim && r@.len() == 0),
            res matches Ok((e, r)) ==> {
                &&& self.shape_ok(num_rounds as nat, degree_bound as nat)
                &&& r@.len() == num_rounds
                &&& congruent::<F>(
                    e.val() as int,
                    final_claim(compressed_vals(self.compressed_polys@), claim.val() as int, vals(r@)),
                )
                &&& final(transcript).log() == old(transcript).log() + rounds_log(
                    compressed_vals(self.compressed_polys@),
                    claim.val() as int,
                    r@,
                )
            },
            // a proof of the right shape fails only by a failed draw
            res matches Err(err) ==> self.compressed_polys@.len() == num_rounds ==> stopped_by_draw(
                old(transcript).log(),
                final(transcript).log(),
                compressed_vals(self.compressed_polys@),
                claim.val() as int,
                num_rounds as nat,
                err,
            ) || (err == NovaError::InvalidSumcheckProof && stopped_by_shape(
                old(transcript).log(),
                final(transcript).log(),
                self.compressed_polys@,
                claim.val() as int,
                num_rounds as nat,
                degree_bound as nat,
            )),
            res matches Err(err) ==> self.shape_ok(num_rounds as nat, degree_bound as nat) ==> stopped_by_draw(
                old(transcript).log(),
                final(transcript).log(),
                compressed_vals(self.compressed_polys@),
                claim.val() as int,
                num_rounds as nat,
                err,
            ),
    {
        let ghost log0 = transcript.log();
        let mut e = claim;
        let mut r: Vec<F> = Vec::new();
        if self.compressed_polys.len() != num_rounds {
            return Err(NovaError::InvalidSumcheckProof);
        }
        let ghost cv = compressed_vals(self.compressed_polys@);
        proof {
            lemma_cong_refl::<F>(claim.val() as int);
            assert(cv.take(0) =~= Seq::<Seq<int>>::empty());
        }
        let mut i: usize = 0;
        while i < self.compressed_polys.len()
            invariant
                i <= self.compressed_polys@.len(),
                self.compressed_polys@.len() == num_rounds,
                cv == compressed_vals(self.compressed_polys@),
                r@.len() == i,
                forall|j: int|
                    0 <= j < i ==> (#[trigger] self.compressed_polys@[j]).coeffs_except_linear_term@.len()
                        == degree_bound && self.compressed_polys@[j].coeffs_except_linear_term@.len() >= 1,
                congruent::<F>(e.val() as int, final_claim(cv.take(i as int), claim.val() as int, vals(r@))),
                transcript.log() == log0 + rounds_log(cv, claim.val() as int, r@),
                i == 0 ==> e == claim,
                log0 == old(transcript).log(),
            decreases self.compressed_polys@.len() - i,
        {
            if self.compressed_polys[i].coeffs_except_linear_term.len() == 0 {
                proof {
                    assert(stopped_by_shape(
                        log0,
                        transcript.log(),
                        self.compressed_polys@,
                        claim.val() as int,
                        num_rounds as nat,
                        degree_bound as nat,
                    ));
                }
                return Err(NovaError::InvalidSumcheckProof);
            }
            let poly = self.compressed_polys[i].decompress(&e);
            if poly.degree() != degree_bound {
                proof {
                    assert(transcript.log() == log0 + rounds_log(cv, claim.val() as int, r@));
                    assert(stopped_by_shape(
                        log0,
                        transcript.log(),
                        self.compressed_polys@,
                        claim.val() as int,
                        num_rounds as nat,
                        degree_bound as nat,
                    ));
                }
                return Err(NovaError::InvalidSumcheckProof);
            }
            proof {
                // the absorbed polynomial is the one the running claim determines
                let pc = final_claim(cv.take(i as int), claim.val() as int, vals(r@));
                assert(cv[i as int] == vals(self.compressed_polys@[i as int].coeffs_except_linear_term@));
                lemma_decompress_congruent::<F>(cv[i as int], e.val() as int, pc);
                lemma_seq_congruent_trans::<F>(
                    vals(poly.coeffs@),
                    decompress_coeffs(cv[i as int], e.val() as int),
                    decompress_coeffs(cv[i as int], pc),
                );
                lemma_vals_canonical::<F>(poly.coeffs@);
                lemma_reduce_congruent::<F>(vals(poly.coeffs@), decompress_coeffs(cv[i as int], pc));
                assert(vals(poly.coeffs@) == round_poly::<F>(cv, claim.val() as int, vals(r@)));
            }
            transcript.absorb_poly("p", &poly);
            let r_i = match transcript.squeeze("c") {
                Ok(x) => x,
                Err(err) => {
                    proof {
                        assert(transcript.log() =~= log0 + failed_log(cv, claim.val() as int, r@, err));
                        assert forall|j: int| 0 <= j <= r@.len() implies (#[trigger] cv[j]).len() >= 1 by {
                            assert(cv[j] == vals(self.compressed_polys@[j].coeffs_except_linear_term@));
                        }
                        assert(stopped_by_draw(
                            log0,
                            transcript.log(),
                            cv,
                            claim.val() as int,
                            num_rounds as nat,
                            err,
                        ));
                    }
                    return Err(err);
                },
            };
            let ghost r_old = r@;
            r.push(r_i);
            proof {
                lemma_rounds_log_push::<F>(cv, claim.val() as int, r_old, r_i);
                assert(transcript.log() =~= log0 + rounds_log(cv, claim.val() as int, r@));
            }
            let ghost e_old = e;
            e = poly.evaluate(&r_i);
            proof {
                let pre = cv.take(i as int);
                let nxt = cv.take(i + 1);
                assert(nxt.drop_last() =~= pre);
                assert(nxt.last() == cv[i as int]);
                assert(cv[i as int] == vals(self.compressed_polys@[i as int].coeffs_except_linear_term@));
                lemma_final_claim_prefix(pre, claim.val() as int, vals(r_old), vals(r@));
                let prev_claim = final_claim(pre, claim.val() as int, vals(r@));
                // the recovered polynomial is the one the running claim determines
                lemma_decompress_congruent::<F>(cv[i as int], e_old.val() as int, prev_claim);
                lemma_seq_congruent_trans::<F>(
                    vals(poly.coeffs@),
                    decompress_coeffs(cv[i as int], e_old.val() as int),
                    decompress_coeffs(cv[i as int], prev_claim),
                );
                lemma_cong_refl::<F>(r_i.val() as int);
                lemma_poly_eval_congruent::<F>(
                    vals(poly.coeffs@),
                    decompress_coeffs(cv[i as int], prev_claim),
                    r_i.val() as int,
                    r_i.val() as int,
                );
                assert(vals(r@)[i as int] == r_i.val());
                lemma_cong_trans::<F>(
                    e.val() as int,
                    poly_eval(vals(poly.coeffs@), r_i.val() as int),
                    final_claim(nxt, claim.val() as int, vals(r@)),
                );
            }
            i = i + 1;
        }
        proof {
            assert(cv.take(i as int) =~= cv);
        }
        Ok((e, r))
    }

    /// Checks a proof of a batch of claims with `num_rounds[i]` rounds each: the
    /// claims are combined by `coeffs`, each scaled by `2^(n - num_rounds[i])` for
    /// the rounds it is padded by, `n` being the largest number of rounds.
    pub fn verify_batch<T: TranscriptEngine<F>>(
        &self,
        claims: &[F],
        num_rounds: &[usize],
        coeffs: &[F],
        degree_bound: usize,
        transcript: &mut Transcript<F, T>,
    ) -> (res: Result<(F, Vec<F>), NovaError>)
        requires
            claims@.len() > 0,
            num_rounds@.len() == claims@.len(),
            coeffs@.len() == claims@.len(),
            forall|i: int| 0 <= i < num_rounds@.len() ==> seq_max(num_rounds@) - num_rounds@[i] < 64,
        ensures
            self.compressed_polys@.len() != seq_max(num_rounds@) ==> res == Err::<(F, Vec<F>), NovaError>(
                NovaError::InvalidSumcheckProof,
            ) && final(transcript).log() == old(transcript).log(),
            !self.shape_ok(seq_max(num_rounds@), degree_bound as nat) ==> res is Err,
            // no round: nothing to check, nothing to draw
            self.compressed_polys@.len() == seq_max(num_rounds@) && seq_max(num_rounds@) == 0 ==> (res matches Ok((
                e,
                r,
            )) && r@.len() == 0),
            res matches Ok((e, r)) ==> {
                let bc = batch_claim(
                    vals(claims@),
                    num_rounds@,
                    vals(coeffs@),
                    seq_max(num_rounds@),
                    claims@.len() as nat,
                );
                &&& self.shape_ok(seq_max(num_rounds@), degree_bound as nat)
                &&& r@.len() == seq_max(num_rounds@)
                &&& congruent::<F>(e.val() as int, final_claim(compressed_vals(self.compressed_polys@), bc, vals(r@)))
                &&& final(transcript).log() == old(transcript).log() + rounds_log(
                    compressed_vals(self.compressed_polys@),
                    bc,
                    r@,
                )
            },
            // a proof of the right shape fails only by a failed draw
            res matches Err(err) ==> self.compressed_polys@.len() == seq_max(num_rounds@) ==> {
                let bc = batch_claim(
                    vals(claims@),
                    num_rounds@,
                    vals(coeffs@),
                    seq_max(num_rounds@),
                    claims@.len() as nat,
                );
                stopped_by_draw(
                    old(transcript).log(),
                    final(transcript).log(),
                    compressed_vals(self.compressed_polys@),
                    bc,
                    seq_max(num_rounds@),
                    err,
                ) || (err == NovaError::InvalidSumcheckProof && stopped_by_shape(
                    old(transcript).log(),
                    final(transcript).log(),
                    self.compressed_polys@,
                    bc,
                    seq_max(num_rounds@),
                    degree_bound as nat,
                ))
            },
            res matches Err(err) ==> self.shape_ok(seq_max(num_rounds@), degree_bound as nat) ==> stopped_by_draw(
                old(transcript).log(),
                final(transcript).log(),
                compressed_vals(self.compressed_polys@),
                batch_claim(vals(claims@), num_rounds@, vals(coeffs@), seq_max(num_rounds@), claims@.len() as nat),
                seq_max(num_rounds@),
                err,
            ),
    {
        let n = max_rounds(num_rounds);
        let claim = combine_claims(claims, num_rounds, coeffs, n);
        let res = self.verify(claim, n, degree_bound, transcript);
        proof {
            if res is Ok {
                let e = res->Ok_0.0;
                let r = res->Ok_0.1;
                let target = batch_claim(
                    vals(claims@),
                    num_rounds@,
                    vals(coeffs@),
                    n as nat,
                    claims@.len() as nat,
                );
                lemma_final_claim_congruent::<F>(
                    compressed_vals(self.compressed_polys@),
                    claim.val() as int,
                    target,
                    vals(r@),
                );
                lemma_cong_trans::<F>(
                    e.val() as int,
                    final_claim(compressed_vals(self.compressed_polys@), claim.val() as int, vals(r@)),
                    final_claim(compressed_vals(self.compressed_polys@), target, vals(r@)),
                );
                lemma_rounds_log_congruent::<F>(
                    compressed_vals(self.compressed_polys@),
                    claim.val() as int,
                    target,
                    r@,
                );
            }
            if res is Err && self.compressed_polys@.len() == n {
                let err = res->Err_0;
                let cv = compressed_vals(self.compressed_polys@);
                let target = batch_claim(
                    vals(claims@),
                    num_rounds@,
                    vals(coeffs@),
                    n as nat,
                    claims@.len() as nat,
                );
                if stopped_by_draw(old(transcript).log(), transcript.log(), cv, claim.val() as int, n as nat, err) {
                    lemma_stopped_congruent::<F>(old(transcript).log(), transcript.log(), cv, claim.val() as int, target, err);
                } else {
                    lemma_stopped_by_shape_congruent::<F>(
                        old(transcript).log(),
                        transcript.log(),
                        self.compressed_polys@,
                        claim.val() as int,
                        target,
                        degree_bound as nat,
                    );
                }
            }
        }
        res
    }
}

/// Congruent initial claims lead to congruent final claims.
pub proof fn lemma_final_claim_congruent<F: PrimeField>(
    polys: Seq<Seq<int>>,
    c1: int,
    c2: int,
    r: Seq<int>,
)
    requires
        congruent::<F>(c1, c2),
        forall|j: int| 0 <= j < polys.len() ==> (#[trigger] polys[j]).len() >= 1,
    ensures
        congruent::<F>(final_claim(polys, c1, r), final_claim(polys, c2, r)),
    decreases polys.len(),
{
    if polys.len() > 0 {
        let init = polys.drop_last();
        assert forall|j: int| 0 <= j < init.len() implies (#[trigger] init[j]).len() >= 1 by {
            assert(init[j] == polys[j]);
        }
        lemma_final_claim_congruent::<F>(init, c1, c2, r);
        let x = r[polys.len() - 1];
        lemma_decompress_congruent::<F>(
            polys.last(),
            final_claim(init, c1, r),
            final_claim(init, c2, r),
        );
        lemma_cong_refl::<F>(x);
        lemma_poly_eval_congruent::<F>(
            decompress_coeffs(polys.last(), final_claim(init, c1, r)),
            decompress_coeffs(polys.last(), final_claim(init, c2, r)),
            x,
            x,
        );
    }
}

/// Binding a table's top variable respects congruence of tables and points.
pub proof fn lemma_bind_top_congruent<F: PrimeField>(a: Seq<int>, b: Seq<int>, x: int, y: int)
    requires
        seq_congruent::<F>(a, b),
        congruent::<F>(x, y),
    ensures
        seq_congruent::<F>(bind_top(a, x), bind_top(b, y)),
{
    let h = a.len() / 2;
    assert forall|i: int| 0 <= i < h implies congruent::<F>(
        #[trigger] bind_top(a, x)[i],
        bind_top(b, y)[i],
    ) by {
        assert(congruent::<F>(a[i], b[i]));
        assert(congruent::<F>(a[i + h], b[i + h]));
        lemma_cong_sub::<F>(a[i + h], b[i + h], a[i], b[i]);
        lemma_cong_mul::<F>(x, y, a[i + h] - a[i], b[i + h] - b[i]);
        lemma_cong_add::<F>(a[i], b[i], x * (a[i + h] - a[i]), y * (b[i + h] - b[i]));
    }
}

/// Binding one more variable extends the bound table by one step.
pub proof fn lemma_bind_all_push<F: PrimeField>(t: Seq<int>, z: Seq<int>, rs: Seq<int>, x: int)
    requires
        seq_congruent::<F>(t, bind_all(z, rs)),
    ensures
        seq_congruent::<F>(bind_top(t, x), bind_all(z, rs.push(x))),
{
    assert(rs.push(x).drop_last() =~= rs);
    assert(rs.push(x).last() == x);
    lemma_cong_refl::<F>(x);
    lemma_bind_top_congruent::<F>(t, bind_all(z, rs), x, x);
}

/// The round polynomials of a proof under construction, one more pushed.
pub proof fn lemma_compressed_vals_push<F: PrimeField>(ps: Seq<CompressedUniPoly<F>>, p: CompressedUniPoly<F>)
    ensures
        compressed_vals(ps.push(p)).drop_last() == compressed_vals(ps),
        compressed_vals(ps.push(p)).last() == vals(p.coeffs_except_linear_term@),
        compressed_vals(ps.push(p)).len() == ps.len() + 1,
{
    assert(compressed_vals(ps.push(p)).drop_last() =~= compressed_vals(ps));
}

/// One prover round keeps the running claim equal to the verifier's: the round
/// polynomial `p` with `p(0) + p(1) == claim`, compressed, is recovered from the
/// claim, and the next claim is its value at the challenge.
pub proof fn lemma_prover_round<F: PrimeField>(
    polys: Seq<Seq<int>>,
    claim: int,
    r: Seq<int>,
    running: int,
    p: Seq<int>,
    x: int,
    next: int,
)
    requires
        p.len() >= 2,
        r.len() == polys.len(),
        congruent::<F>(running, final_claim(polys, claim, r)),
        congruent::<F>(poly_eval(p, 0) + poly_eval(p, 1), running),
        congruent::<F>(next, poly_eval(p, x)),
    ensures
        congruent::<F>(next, final_claim(polys.push(compress_coeffs(p)), claim, r.push(x))),
{
    let polys2 = polys.push(compress_coeffs(p));
    let r2 = r.push(x);
    assert(polys2.drop_last() =~= polys);
    lemma_final_claim_prefix(polys, claim, r, r2);
    let prev = final_claim(polys, claim, r);
    lemma_decompress_compress(p);
    lemma_cong_trans::<F>(poly_eval(p, 0) + poly_eval(p, 1), running, prev);
    lemma_decompress_congruent::<F>(compress_coeffs(p), poly_eval(p, 0) + poly_eval(p, 1), prev);
    lemma_cong_refl::<F>(x);
    lemma_poly_eval_congruent::<F>(p, decompress_coeffs(compress_coeffs(p), prev), x, x);
    lemma_cong_trans::<F>(next, poly_eval(p, x), poly_eval(decompress_coeffs(compress_coeffs(p), prev), x));
    assert(r2[polys2.len() - 1] == x);
}

/// A table of `2^k` entries and one of `2^j` entries, `k <= j`.
pub proof fn lemma_table_sizes(k: nat, j: nat)
    requires
        k <= j,
    ensures
        pow(2, k) <= pow(2, j),
        pow(2, k) >= 1,
{
    vstd::arithmetic::power::lemma_pow_positive(2, k);
    if k < j {
        vstd::arithmetic::power::lemma_pow_strictly_increases(2, k, j);
    }
}

impl<F: PrimeField> SumcheckProof<F> {
    /// The round polynomial's values at `0` and `2`, each a sum over the lower half
    /// of the tables of the combination of the points on the lines from the lower
    /// to the upper half.
    pub fn compute_eval_points_quad<C: CombineTwo<F>>(
        poly_a: &MultilinearPolynomial<F>,
        poly_b: &MultilinearPolynomial<F>,
        comb_func: &C,
    ) -> (r: (F, F))
        requires
            poly_a.z@.len() / 2 * 2 <= poly_b.z@.len(),
        ensures
            congruent::<F>(
                r.0.val() as int,
                sum_two::<F, C>(*comb_func, vals(poly_a.z@), vals(poly_b.z@), poly_a.z@.len() / 2),
            ),
            congruent::<F>(
                r.1.val() as int,
                sum_two::<F, C>(
                    *comb_func,
                    line_two::<F>(vals(poly_a.z@), poly_a.z@.len() / 2),
                    line_two::<F>(vals(poly_b.z@), poly_a.z@.len() / 2),
                    poly_a.z@.len() / 2,
                ),
            ),
    {
        let n = poly_a.len();
        let len = n / 2;
        let ghost (va, vb) = (vals(poly_a.z@), vals(poly_b.z@));
        let ghost (la, lb) = (line_two::<F>(va, len as nat), line_two::<F>(vb, len as nat));
        let mut e0 = F::zero();
        let mut e2 = F::zero();
        let mut i: usize = 0;
        proof {
            lemma_cong_refl::<F>(0);
        }
        while i < len
            invariant
                n == poly_a.z@.len(),
                len == n / 2,
                len * 2 <= poly_b.z@.len(),
                i <= len,
                va == vals(poly_a.z@),
                vb == vals(poly_b.z@),
                la == line_two::<F>(va, len as nat),
                lb == line_two::<F>(vb, len as nat),
                congruent::<F>(e0.val() as int, sum_two::<F, C>(*comb_func, va, vb, i as nat)),
                congruent::<F>(e2.val() as int, sum_two::<F, C>(*comb_func, la, lb, i as nat)),
            decreases len - i,
        {
            let (p0, p2) = (e0, e2);
            let a_lo = poly_a.get(i);
            let b_lo = poly_b.get(i);
            let t0 = comb_func.combine(&a_lo, &b_lo);
            let a_hi = poly_a.get(len + i);
            let b_hi = poly_b.get(len + i);
            let a2 = line_at_two(&a_lo, &a_hi);
            let b2 = line_at_two(&b_lo, &b_hi);
            let t2 = comb_func.combine(&a2, &b2);
            e0 = field_add(&e0, &t0);
            e2 = field_add(&e2, &t2);
            proof {
                assert(la[i as int] == a2.val());
                assert(lb[i as int] == b2.val());
                lemma_cong_add_chain::<F>(
                    e0.val() as int,
                    p0.val() as int,
                    t0.val() as int,
                    sum_two::<F, C>(*comb_func, va, vb, i as nat),
                    comb_func.combine_spec(va[i as int], vb[i as int]),
                );
                lemma_cong_add_chain::<F>(
                    e2.val() as int,
                    p2.val() as int,
                    t2.val() as int,
                    sum_two::<F, C>(*comb_func, la, lb, i as nat),
                    comb_func.combine_spec(la[i as int], lb[i as int]),
                );
            }
            i = i + 1;
        }
        (e0, e2)
    }

    /// Proves `claim == sum_x comb(A(x), B(x))` over `num_rounds` rounds, binding
    /// the tables to the challenges as it goes. Returns the proof, the
    /// challenges, and the tables' first entries, which after all rounds are the
    /// polynomials' values at the challenges.
    #[verifier::spinoff_prover]
    pub fn prove_quad<C: CombineTwo<F>, T: TranscriptEngine<F>>(
        claim: &F,
        num_rounds: usize,
        poly_a: &mut MultilinearPolynomial<F>,
        poly_b: &mut MultilinearPolynomial<F>,
        comb_func: C,
        transcript: &mut Transcript<F, T>,
    ) -> (res: Result<(Self, Vec<F>, Vec<F>), NovaError>)
        requires
            old(poly_a).wf(),
            old(poly_b).wf(),
            num_rounds <= old(poly_a).num_vars,
            num_rounds > 0 ==> old(poly_a).num_vars <= old(poly_b).num_vars,
            num_rounds > 0 ==> F::modulus() > 3,
        ensures
            final(poly_a).wf(),
            final(poly_b).wf(),
            res matches Ok((proof, r, evals)) ==> {
                &&& proof.well_formed()
                &&& proof.shape_ok(num_rounds as nat, 2)
                &&& r@.len() == num_rounds
                &&& final(poly_a).num_vars == old(poly_a).num_vars - num_rounds
                &&& final(poly_b).num_vars == old(poly_b).num_vars - num_rounds
                &&& seq_congruent::<F>(vals(final(poly_a).z@), bind_all(vals(old(poly_a).z@), vals(r@)))
                &&& seq_congruent::<F>(vals(final(poly_b).z@), bind_all(vals(old(poly_b).z@), vals(r@)))
                &&& evals@ == seq![final(poly_a).z@[0], final(poly_b).z@[0]]
                // completeness: a true claim about a combination of degree at most two
                // reduces to a true claim about the bound tables, which after all
                // rounds hold one entry each
                &&& (is_quadratic::<F, C>(comb_func) && old(poly_a).num_vars == old(poly_b).num_vars
                    && congruent::<F>(
                    claim.val() as int,
                    sum_two::<F, C>(comb_func, vals(old(poly_a).z@), vals(old(poly_b).z@), old(poly_a).z@.len()),
                )) ==> congruent::<F>(
                    final_claim(compressed_vals(proof.compressed_polys@), claim.val() as int, vals(r@)),
                    sum_two::<F, C>(comb_func, vals(final(poly_a).z@), vals(final(poly_b).z@), final(poly_a).z@.len()),
                )
            },
            res is Err ==> exists|rs: Seq<int>|
                {
                    &&& rs.len() < num_rounds
                    &&& final(poly_a).num_vars == old(poly_a).num_vars - rs.len()
                    &&& final(poly_b).num_vars == old(poly_b).num_vars - rs.len()
                    &&& seq_congruent::<F>(vals(final(poly_a).z@), bind_all(vals(old(poly_a).z@), rs))
                    &&& seq_congruent::<F>(vals(final(poly_b).z@), bind_all(vals(old(poly_b).z@), rs))
                },
            // each round absorbs its polynomial, then draws its challenge
            res matches Ok((proof, r, evals)) ==> final(transcript).log() == old(transcript).log() + rounds_log(
                compressed_vals(proof.compressed_polys@),
                claim.val() as int,
                r@,
            ),
            // the prover fails only by a failed draw
            res matches Err(err) ==> prover_stopped(
                old(transcript).log(),
                final(transcript).log(),
                claim.val() as int,
                num_rounds as nat,
                err,
            ),
            num_rounds == 0 ==> res is Ok,
            // each round's polynomial takes at 0 and 2 the sums of the combination
            // over the tables bound to the earlier challenges, whatever the combination
            res matches Ok((proof, r, evals)) ==> forall|j: int|
                0 <= j < num_rounds ==> #[trigger] quad_round_ok::<F, C>(
                    comb_func,
                    compressed_vals(proof.compressed_polys@),
                    claim.val() as int,
                    vals(old(poly_a).z@),
                    vals(old(poly_b).z@),
                    vals(r@).take(j),
                ),
    {
        let ghost log0 = transcript.log();
        let ghost a0 = *poly_a;
        let ghost b0 = *poly_b;
        let mut r: Vec<F> = Vec::new();
        let mut polys: Vec<CompressedUniPoly<F>> = Vec::new();
        let mut claim_per_round = *claim;
        let mut round: usize = 0;
        let ghost complete = is_quadratic::<F, C>(comb_func) && a0.num_vars == b0.num_vars
            && congruent::<F>(claim.val() as int, sum_two::<F, C>(comb_func, vals(a0.z@), vals(b0.z@), a0.z@.len()));
        let ghost k = choose|k: (int, int, int, int, int, int)| combines_as::<F, C>(comb_func, k);
        proof {
            if complete {
                lemma_sum_two_quadratic::<F, C>(comb_func, k, vals(a0.z@), vals(b0.z@), a0.z@.len());
                lemma_cong_trans::<F>(
                    claim.val() as int,
                    sum_two::<F, C>(comb_func, vals(a0.z@), vals(b0.z@), a0.z@.len()),
                    qsum(k, vals(a0.z@), vals(b0.z@), a0.z@.len()),
                );
            }
            lemma_cong_refl::<F>(claim.val() as int);
            assert forall|i: int| 0 <= i < vals(a0.z@).len() implies congruent::<F>(
                #[trigger] vals(poly_a.z@)[i],
                vals(a0.z@)[i],
            ) by {
                lemma_cong_refl::<F>(vals(a0.z@)[i]);
            }
            assert forall|i: int| 0 <= i < vals(b0.z@).len() implies congruent::<F>(
                #[trigger] vals(poly_b.z@)[i],
                vals(b0.z@)[i],
            ) by {
                lemma_cong_refl::<F>(vals(b0.z@)[i]);
            }
        }
        while round < num_rounds
            invariant
                round <= num_rounds,
                a0 == *old(poly_a),
                b0 == *old(poly_b),
                num_rounds <= a0.num_vars,
                num_rounds > 0 ==> a0.num_vars <= b0.num_vars,
                num_rounds > 0 ==> F::modulus() > 3,
                r@.len() == round,
                polys@.len() == round,
                poly_a.wf(),
                poly_b.wf(),
                poly_a.num_vars == a0.num_vars - round,
                poly_b.num_vars == b0.num_vars - round,
                seq_congruent::<F>(vals(poly_a.z@), bind_all(vals(a0.z@), vals(r@))),
                seq_congruent::<F>(vals(poly_b.z@), bind_all(vals(b0.z@), vals(r@))),
                forall|j: int|
                    0 <= j < round ==> (#[trigger] polys@[j]).coeffs_except_linear_term@.len() == 2,
                congruent::<F>(
                    claim_per_round.val() as int,
                    final_claim(compressed_vals(polys@), claim.val() as int, vals(r@)),
                ),
                complete == (is_quadratic::<F, C>(comb_func) && a0.num_vars == b0.num_vars
                    && congruent::<F>(claim.val() as int, sum_two::<F, C>(comb_func, vals(a0.z@), vals(b0.z@), a0.z@.len()))),
                complete ==> combines_as::<F, C>(comb_func, k),
                complete ==> congruent::<F>(
                    claim_per_round.val() as int,
                    qsum(k, vals(poly_a.z@), vals(poly_b.z@), poly_a.z@.len()),
                ),
                log0 == old(transcript).log(),
                transcript.log() == log0 + rounds_log(compressed_vals(polys@), claim.val() as int, r@),
                forall|j: int|
                    0 <= j < round ==> #[trigger] quad_round_ok::<F, C>(
                        comb_func,
                        compressed_vals(polys@),
                        claim.val() as int,
                        vals(a0.z@),
                        vals(b0.z@),
                        vals(r@).take(j),
                    ),
            decreases num_rounds - round,
        {
            proof {
                lemma_table_sizes(poly_a.num_vars as nat, poly_b.num_vars as nat);
            }
            let ghost (va, vb) = (vals(poly_a.z@), vals(poly_b.z@));
            let (eval_point_0, eval_point_2) = Self::compute_eval_points_quad(
                poly_a,
                poly_b,
                &comb_func,
            );
            let mut evals: Vec<F> = Vec::new();
            evals.push(eval_point_0);
            proof {
                lemma_bound_canonical::<F>(poly_a.z@, vals(a0.z@), vals(r@));
                lemma_bound_canonical::<F>(poly_b.z@, vals(b0.z@), vals(r@));
            }
            let diff = field_sub(&claim_per_round, &eval_point_0);
            evals.push(diff);
            evals.push(eval_point_2);
            let poly = UniPoly::from_evals(&evals);
            let ghost log_before = transcript.log();
            proof {
                // the absorbed polynomial is the one the verifier recovers
                let pv = vals(poly.coeffs@);
                assert(congruent::<F>(poly_eval(pv, 0), evals@[0].val() as int));
                assert(congruent::<F>(poly_eval(pv, 1), evals@[1].val() as int));
                lemma_cong_trans::<F>(poly_eval(pv, 1), diff.val() as int, claim_per_round.val() - eval_point_0.val());
                lemma_cong_add::<F>(
                    poly_eval(pv, 0),
                    eval_point_0.val() as int,
                    poly_eval(pv, 1),
                    claim_per_round.val() - eval_point_0.val(),
                );
                assert(eval_point_0.val() + (claim_per_round.val() - eval_point_0.val()) == claim_per_round.val());
                lemma_vals_canonical::<F>(poly.coeffs@);
                lemma_prover_absorb::<F>(
                    compressed_vals(polys@),
                    claim.val() as int,
                    vals(r@),
                    claim_per_round.val() as int,
                    pv,
                );
            }
            transcript.absorb_poly("p", &poly);
            let r_i = match transcript.squeeze("c") {
                Ok(x) => x,
                Err(e) => {
                    proof {
                        let rs = vals(r@);
                        assert(rs.len() < num_rounds);
                        assert(seq_congruent::<F>(vals(poly_a.z@), bind_all(vals(a0.z@), rs)));
                        assert(seq_congruent::<F>(vals(poly_b.z@), bind_all(vals(b0.z@), rs)));
                        assert forall|j: int| 0 <= j < compressed_vals(polys@).len() implies (#[trigger] compressed_vals(
                            polys@,
                        )[j]).len() >= 1 by {
                            assert(polys@[j].coeffs_except_linear_term@.len() >= 2);
                        }
                        lemma_prover_log_err::<F>(
                            log0,
                            compressed_vals(polys@),
                            claim.val() as int,
                            r@,
                            vals(poly.coeffs@),
                            num_rounds as nat,
                            e,
                        );
                    }
                    return Err(e);
                },
            };
            proof {
                lemma_prover_log_ok::<F>(
                    log0,
                    compressed_vals(polys@),
                    claim.val() as int,
                    r@,
                    vals(poly.coeffs@),
                    r_i,
                );
            }
            let ghost (r_old, polys_old, claim_old) = (r@, polys@, claim_per_round);
            r.push(r_i);
            let compressed = poly.compress();
            polys.push(compressed);
            claim_per_round = poly.evaluate(&r_i);
            let ghost (ta, tb) = (vals(poly_a.z@), vals(poly_b.z@));
            bind_both(poly_a, poly_b, &r_i);
            proof {
                // this round's polynomial takes the round's values; earlier rounds keep theirs
                let pv = vals(poly.coeffs@);
                let cvo = compressed_vals(polys_old);
                let cvn = compressed_vals(polys@);
                lemma_compressed_vals_push::<F>(polys_old, compressed);
                crate::spartan::polys::lemma_vals_compress::<F>(poly.coeffs@);
                assert(cvn =~= cvo.push(compress_coeffs(pv)));
                assert(vals(r@) =~= vals(r_old).push(r_i.val() as int));
                assert(vals(r@).take(round as int) =~= vals(r_old));
                assert(congruent::<F>(poly_eval(pv, 0), evals@[0].val() as int));
                assert(congruent::<F>(poly_eval(pv, 2), evals@[2].val() as int));
                let a = reduce_all::<F>(bind_all(vals(a0.z@), vals(r_old)));
                let b = reduce_all::<F>(bind_all(vals(b0.z@), vals(r_old)));
                let h = a.len() / 2;
                lemma_cong_trans::<F>(poly_eval(pv, 0), eval_point_0.val() as int, sum_two::<F, C>(comb_func, a, b, h));
                lemma_cong_trans::<F>(
                    poly_eval(pv, 2),
                    eval_point_2.val() as int,
                    sum_two::<F, C>(comb_func, line_two::<F>(a, h), line_two::<F>(b, h), h),
                );
                assert(quad_round_ok::<F, C>(comb_func, cvn, claim.val() as int, vals(a0.z@), vals(b0.z@), vals(r@).take(round as int)));
                assert forall|j: int| 0 <= j < round + 1 implies #[trigger] quad_round_ok::<F, C>(
                    comb_func,
                    cvn,
                    claim.val() as int,
                    vals(a0.z@),
                    vals(b0.z@),
                    vals(r@).take(j),
                ) by {
                    if j < round {
                        assert(vals(r@).take(j) =~= vals(r_old).take(j));
                        assert(cvn.take(j) =~= cvo.take(j));
                        assert(cvn[j] == cvo[j]);
                        assert(quad_round_ok::<F, C>(comb_func, cvo, claim.val() as int, vals(a0.z@), vals(b0.z@), vals(r_old).take(j)));
                    }
                }
            }
            proof {
                let pv = vals(poly.coeffs@);
                // p(0) + p(1) == e0 + (claim - e0) == claim
                assert(congruent::<F>(poly_eval(pv, 0), evals@[0].val() as int));
                assert(congruent::<F>(poly_eval(pv, 1), evals@[1].val() as int));
                lemma_cong_trans::<F>(poly_eval(pv, 1), diff.val() as int, claim_old.val() - eval_point_0.val());
                lemma_cong_add::<F>(
                    poly_eval(pv, 0),
                    eval_point_0.val() as int,
                    poly_eval(pv, 1),
                    claim_old.val() - eval_point_0.val(),
                );
                assert(eval_point_0.val() + (claim_old.val() - eval_point_0.val()) == claim_old.val());
                lemma_prover_round::<F>(
                    compressed_vals(polys_old),
                    claim.val() as int,
                    vals(r_old),
                    claim_old.val() as int,
                    pv,
                    r_i.val() as int,
                    claim_per_round.val() as int,
                );
                lemma_compressed_vals_push::<F>(polys_old, compressed);
                crate::spartan::polys::lemma_vals_compress::<F>(poly.coeffs@);
                assert(compressed_vals(polys@) =~= compressed_vals(polys_old).push(compress_coeffs(pv)));
                assert(vals(r@) =~= vals(r_old).push(r_i.val() as int));
                assert forall|j: int| 0 <= j < round + 1 implies (#[trigger] polys@[j]).coeffs_except_linear_term@.len() == 2 by {
                    if j < round {
                        assert(polys@[j] == polys_old[j]);
                    }
                }
                if complete {
                    let h = (ta.len() / 2) as nat;
                    assert(ta == va && tb == vb);
                    assert(ta.len() == 2 * h) by {
                        reveal(pow);
                        assert(pow(2, (poly_a.num_vars + 1) as nat) == 2 * pow(2, poly_a.num_vars as nat));
                    }
                    lemma_sum_two_quadratic::<F, C>(comb_func, k, va, vb, h);
                    lemma_sum_two_quadratic::<F, C>(
                        comb_func,
                        k,
                        line_two::<F>(va, h),
                        line_two::<F>(vb, h),
                        h,
                    );
                    lemma_cong_trans::<F>(
                        eval_point_0.val() as int,
                        sum_two::<F, C>(comb_func, va, vb, h),
                        qsum(k, va, vb, h),
                    );
                    lemma_cong_trans::<F>(
                        eval_point_2.val() as int,
                        sum_two::<F, C>(comb_func, line_two::<F>(va, h), line_two::<F>(vb, h), h),
                        qsum(k, line_two::<F>(va, h), line_two::<F>(vb, h), h),
                    );
                    assert(congruent::<F>(poly_eval(pv, 2), evals@[2].val() as int));
                    lemma_quadratic_round::<F>(
                        k,
                        va,
                        vb,
                        h,
                        claim_old.val() as int,
                        eval_point_0.val() as int,
                        diff.val() as int,
                        eval_point_2.val() as int,
                        pv,
                        r_i.val() as int,
                    );
                    lemma_cong_trans::<F>(
                        claim_per_round.val() as int,
                        poly_eval(pv, r_i.val() as int),
                        qsum(k, bind_top(va, r_i.val() as int), bind_top(vb, r_i.val() as int), h),
                    );
                    assert forall|i: int| 0 <= i < h implies congruent::<F>(
                        #[trigger] vals(poly_a.z@)[i],
                        bind_top(va, r_i.val() as int)[i],
                    ) by {}
                    assert forall|i: int| 0 <= i < h implies congruent::<F>(
                        #[trigger] vals(poly_b.z@)[i],
                        bind_top(vb, r_i.val() as int)[i],
                    ) by {}
                    lemma_qsum_congruent::<F>(
                        k,
                        vals(poly_a.z@),
                        vals(poly_b.z@),
                        bind_top(va, r_i.val() as int),
                        bind_top(vb, r_i.val() as int),
                        h,
                    );
                    lemma_cong_sym::<F>(
                        qsum(k, vals(poly_a.z@), vals(poly_b.z@), h),
                        qsum(k, bind_top(va, r_i.val() as int), bind_top(vb, r_i.val() as int), h),
                    );
                    lemma_cong_trans::<F>(
                        claim_per_round.val() as int,
                        qsum(k, bind_top(va, r_i.val() as int), bind_top(vb, r_i.val() as int), h),
                        qsum(k, vals(poly_a.z@), vals(poly_b.z@), h),
                    );
                }
                lemma_bind_all_push::<F>(ta, vals(a0.z@), vals(r_old), r_i.val() as int);
                lemma_seq_congruent_trans::<F>(vals(poly_a.z@), bind_top(ta, r_i.val() as int), bind_all(vals(a0.z@), vals(r@)));
                lemma_bind_all_push::<F>(tb, vals(b0.z@), vals(r_old), r_i.val() as int);
                lemma_seq_congruent_trans::<F>(vals(poly_b.z@), bind_top(tb, r_i.val() as int), bind_all(vals(b0.z@), vals(r@)));
            }
            round = round + 1;
        }
        proof {
            vstd::arithmetic::power::lemma_pow_positive(2, poly_a.num_vars as nat);
            vstd::arithmetic::power::lemma_pow_positive(2, poly_b.num_vars as nat);
        }
        let evals = vec![poly_a.get(0), poly_b.get(0)];
        let proof_out = SumcheckProof { compressed_polys: polys };
        proof {
            if complete {
                let (na, nb) = (vals(poly_a.z@), vals(poly_b.z@));
                lemma_sum_two_quadratic::<F, C>(comb_func, k, na, nb, poly_a.z@.len());
                lemma_cong_sym::<F>(sum_two::<F, C>(comb_func, na, nb, poly_a.z@.len()), qsum(k, na, nb, poly_a.z@.len()));
                lemma_cong_sym::<F>(
                    claim_per_round.val() as int,
                    final_claim(compressed_vals(polys@), claim.val() as int, vals(r@)),
                );
                lemma_cong_trans::<F>(
                    final_claim(compressed_vals(polys@), claim.val() as int, vals(r@)),
                    claim_per_round.val() as int,
                    qsum(k, na, nb, poly_a.z@.len()),
                );
                lemma_cong_trans::<F>(
                    final_claim(compressed_vals(polys@), claim.val() as int, vals(r@)),
                    qsum(k, na, nb, poly_a.z@.len()),
                    sum_two::<F, C>(comb_func, na, nb, poly_a.z@.len()),
                );
            }
        }
        Ok((proof_out, r, evals))
    }
}

/// Binds the top variable of both tables to `r`, the two possibly in parallel.
///
/// Trusted: `rayon::join` runs both closures to completion and returns their
/// results; each closure is one call of the verified `bind_poly_var_top`, so the
/// contract claims of `join` only that both calls happen, on their own table.
#[verifier::external_body]
fn bind_both<F: PrimeField>(
    poly_a: &mut MultilinearPolynomial<F>,
    poly_b: &mut MultilinearPolynomial<F>,
    r: &F,
)
    requires
        old(poly_a).wf(),
        old(poly_a).num_vars > 0,
        old(poly_b).wf(),
        old(poly_b).num_vars > 0,
    ensures
        final(poly_a).wf(),
        final(poly_a).num_vars == old(poly_a).num_vars - 1,
        seq_congruent::<F>(vals(final(poly_a).z@), bind_top(vals(old(poly_a).z@), r.val() as int)),
        final(poly_b).wf(),
        final(poly_b).num_vars == old(poly_b).num_vars - 1,
        seq_congruent::<F>(vals(final(poly_b).z@), bind_top(vals(old(poly_b).z@), r.val() as int)),
{
    rayon::join(|| poly_a.bind_poly_var_top(r), || poly_b.bind_poly_var_top(r));
}

/// A polynomial with three coefficients is `c0 + c1 x + c2 x^2`.
pub proof fn lemma_poly_eval_three(c: Seq<int>, x: int)
    requires
        c.len() == 3,
    ensures
        poly_eval(c, x) == c[0] + c[1] * x + c[2] * (x * x),
{
    reveal_with_fuel(poly_eval, 4);
    reveal(pow);
    assert(c.drop_last().drop_last().drop_last() =~= Seq::<int>::empty());
    assert(pow(x, 0) == 1);
    assert(pow(x, 1) == x * pow(x, 0));
    assert(pow(x, 2) == x * pow(x, 1));
}

/// If `y` is congruent to `z * 2` with two a unit, then `z` is determined.
pub proof fn lemma_cancel_two<F: PrimeField>(u: int, v: int)
    requires
        F::modulus() > 3,
        congruent::<F>(2 * u, 2 * v),
    ensures
        congruent::<F>(u, v),
{
    crate::spartan::polys::lemma_two_six_units::<F>();
    assert(2 * (u - v) == 2 * u - 2 * v);
    assert(congruent::<F>(2 * (u - v), 0));
    crate::r1cs::lemma_cong_zero_product::<F>(2, u - v);
    if congruent::<F>(2, 0) {
        assert(2nat % F::modulus() == 0);
        assert(false);
    }
}

/// A polynomial with three coefficients is fixed, up to congruence, by its
/// values at `0, 1, 2` when two is a unit.
pub proof fn lemma_quadratic_unique<F: PrimeField>(c: Seq<int>, s0: int, s1: int, s2: int, x: int)
    requires
        c.len() == 3,
        F::modulus() > 3,
        congruent::<F>(poly_eval(c, 0), s0),
        congruent::<F>(poly_eval(c, 1), s0 + s1 + s2),
        congruent::<F>(poly_eval(c, 2), s0 + 2 * s1 + 4 * s2),
    ensures
        congruent::<F>(poly_eval(c, x), s0 + x * s1 + (x * x) * s2),
{
    lemma_poly_eval_three(c, 0);
    lemma_poly_eval_three(c, 1);
    lemma_poly_eval_three(c, 2);
    lemma_poly_eval_three(c, x);
    let (c0, c1, c2) = (c[0], c[1], c[2]);
    assert(congruent::<F>(c0, s0));
    // c1 + c2 == s1 + s2
    lemma_cong_sub::<F>(c0 + c1 + c2, s0 + s1 + s2, c0, s0);
    assert(congruent::<F>(c1 + c2, s1 + s2));
    // 2 c1 + 4 c2 == 2 s1 + 4 s2
    lemma_cong_sub::<F>(c0 + c1 * 2 + c2 * 4, s0 + 2 * s1 + 4 * s2, c0, s0);
    // 2 c2 == 2 s2
    lemma_cong_refl::<F>(2);
    lemma_cong_mul::<F>(2, 2, c1 + c2, s1 + s2);
    lemma_cong_sub::<F>(c1 * 2 + c2 * 4, 2 * s1 + 4 * s2, 2 * (c1 + c2), 2 * (s1 + s2));
    assert(c1 * 2 + c2 * 4 - 2 * (c1 + c2) == 2 * c2);
    assert(2 * s1 + 4 * s2 - 2 * (s1 + s2) == 2 * s2);
    lemma_cancel_two::<F>(c2, s2);
    lemma_cong_sub::<F>(c1 + c2, s1 + s2, c2, s2);
    assert(congruent::<F>(c1, s1));
    lemma_cong_refl::<F>(x);
    lemma_cong_refl::<F>(x * x);
    lemma_cong_mul::<F>(c1, s1, x, x);
    lemma_cong_mul::<F>(c2, s2, x * x, x * x);
    lemma_cong_add::<F>(c0, s0, c1 * x, s1 * x);
    lemma_cong_add::<F>(c0 + c1 * x, s0 + s1 * x, c2 * (x * x), s2 * (x * x));
    assert(s0 + s1 * x + s2 * (x * x) == s0 + x * s1 + (x * x) * s2) by (nonlinear_arith);
}

/// `(p + x u) (q + x v) == p q + x (p v + u q) + x^2 (u v)`.
pub proof fn lemma_line_product(p: int, u: int, q: int, v: int, x: int)
    ensures
        (p + x * u) * (q + x * v) == p * q + x * (p * v + u * q) + x * x * (u * v),
{
    assert((p + x * u) * (q + x * v) == p * q + p * (x * v) + (x * u) * q + (x * u) * (x * v)) by (nonlinear_arith);
    assert(p * (x * v) == x * (p * v)) by (nonlinear_arith);
    assert((x * u) * q == x * (u * q)) by (nonlinear_arith);
    assert((x * u) * (x * v) == x * x * (u * v)) by (nonlinear_arith);
    assert(x * (p * v) + x * (u * q) == x * (p * v + u * q)) by (nonlinear_arith);
}

impl<F: PrimeField> SumcheckProof<F> {
    /// The round polynomial's values at `0`, `2` and `3` for a combination of three
    /// polynomials, each a sum over the lower half of the tables.
    pub fn compute_eval_points_cubic<C: CombineThree<F>>(
        poly_a: &MultilinearPolynomial<F>,
        poly_b: &MultilinearPolynomial<F>,
        poly_c: &MultilinearPolynomial<F>,
        comb_func: &C,
    ) -> (r: (F, F, F))
        requires
            poly_a.z@.len() / 2 * 2 <= poly_b.z@.len(),
            poly_a.z@.len() / 2 * 2 <= poly_c.z@.len(),
        ensures
            ({
                let h = poly_a.z@.len() / 2;
                let (va, vb, vc) = (vals(poly_a.z@), vals(poly_b.z@), vals(poly_c.z@));
                &&& congruent::<F>(r.0.val() as int, sum_three::<F, C>(*comb_func, va, vb, vc, h))
                &&& congruent::<F>(
                    r.1.val() as int,
                    sum_three::<F, C>(
                        *comb_func,
                        line_two::<F>(va, h),
                        line_two::<F>(vb, h),
                        line_two::<F>(vc, h),
                        h,
                    ),
                )
                &&& congruent::<F>(
                    r.2.val() as int,
                    sum_three::<F, C>(
                        *comb_func,
                        line_three::<F>(va, h),
                        line_three::<F>(vb, h),
                        line_three::<F>(vc, h),
                        h,
                    ),
                )
            }),
    {
        let n = poly_a.len();
        let len = n / 2;
        let ghost (va, vb, vc) = (vals(poly_a.z@), vals(poly_b.z@), vals(poly_c.z@));
        let ghost h = len as nat;
        let mut e0 = F::zero();
        let mut e2 = F::zero();
        let mut e3 = F::zero();
        let mut i: usize = 0;
        proof {
            lemma_cong_refl::<F>(0);
        }
        while i < len
            invariant
                n == poly_a.z@.len(),
                len == n / 2,
                h == len,
                len * 2 <= poly_b.z@.len(),
                len * 2 <= poly_c.z@.len(),
                i <= len,
                va == vals(poly_a.z@),
                vb == vals(poly_b.z@),
                vc == vals(poly_c.z@),
                congruent::<F>(e0.val() as int, sum_three::<F, C>(*comb_func, va, vb, vc, i as nat)),
                congruent::<F>(
                    e2.val() as int,
                    sum_three::<F, C>(
                        *comb_func,
                        line_two::<F>(va, h),
                        line_two::<F>(vb, h),
                        line_two::<F>(vc, h),
                        i as nat,
                    ),
                ),
                congruent::<F>(
                    e3.val() as int,
                    sum_three::<F, C>(
                        *comb_func,
                        line_three::<F>(va, h),
                        line_three::<F>(vb, h),
                        line_three::<F>(vc, h),
                        i as nat,
                    ),
                ),
            decreases len - i,
        {
            let (p0, p2, p3) = (e0, e2, e3);
            let (a_lo, b_lo, c_lo) = (poly_a.get(i), poly_b.get(i), poly_c.get(i));
            let t0 = comb_func.combine(&a_lo, &b_lo, &c_lo);
            let (a_hi, b_hi, c_hi) = (poly_a.get(len + i), poly_b.get(len + i), poly_c.get(len + i));
            let a2 = line_at_two(&a_lo, &a_hi);
            let b2 = line_at_two(&b_lo, &b_hi);
            let c2 = line_at_two(&c_lo, &c_hi);
            let t2 = comb_func.combine(&a2, &b2, &c2);
            let a3 = line_at_three(&a2, &a_lo, &a_hi);
            let b3 = line_at_three(&b2, &b_lo, &b_hi);
            let c3 = line_at_three(&c2, &c_lo, &c_hi);
            let t3 = comb_func.combine(&a3, &b3, &c3);
            e0 = field_add(&e0, &t0);
            e2 = field_add(&e2, &t2);
            e3 = field_add(&e3, &t3);
            proof {
                let k = i as int;
                lemma_cong_add_chain::<F>(
                    e0.val() as int,
                    p0.val() as int,
                    t0.val() as int,
                    sum_three::<F, C>(*comb_func, va, vb, vc, i as nat),
                    comb_func.combine_spec(va[k], vb[k], vc[k]),
                );
                lemma_cong_add_chain::<F>(
                    e2.val() as int,
                    p2.val() as int,
                    t2.val() as int,
                    sum_three::<F, C>(*comb_func, line_two::<F>(va, h), line_two::<F>(vb, h), line_two::<F>(vc, h), i as nat),
                    comb_func.combine_spec(line_two::<F>(va, h)[k], line_two::<F>(vb, h)[k], line_two::<F>(vc, h)[k]),
                );
                lemma_cong_add_chain::<F>(
                    e3.val() as int,
                    p3.val() as int,
                    t3.val() as int,
                    sum_three::<F, C>(*comb_func, line_three::<F>(va, h), line_three::<F>(vb, h), line_three::<F>(vc, h), i as nat),
                    comb_func.combine_spec(line_three::<F>(va, h)[k], line_three::<F>(vb, h)[k], line_three::<F>(vc, h)[k]),
                );
            }
            i = i + 1;
        }
        (e0, e2, e3)
    }

    /// The round polynomial's values at `0`, `2` and `3` for a combination of four
    /// polynomials, each a sum over the lower half of the tables.
    pub fn compute_eval_points_cubic_with_additive_term<C: CombineFour<F>>(
        poly_a: &MultilinearPolynomial<F>,
        poly_b: &MultilinearPolynomial<F>,
        poly_c: &MultilinearPolynomial<F>,
        poly_d: &MultilinearPolynomial<F>,
        comb_func: &C,
    ) -> (r: (F, F, F))
        requires
            poly_a.z@.len() / 2 * 2 <= poly_b.z@.len(),
            poly_a.z@.len() / 2 * 2 <= poly_c.z@.len(),
            poly_a.z@.len() / 2 * 2 <= poly_d.z@.len(),
        ensures
            ({
                let h = poly_a.z@.len() / 2;
                let (va, vb, vc, vd) = (vals(poly_a.z@), vals(poly_b.z@), vals(poly_c.z@), vals(poly_d.z@));
                &&& congruent::<F>(r.0.val() as int, sum_four::<F, C>(*comb_func, va, vb, vc, vd, h))
                &&& congruent::<F>(
                    r.1.val() as int,
                    sum_four::<F, C>(
                        *comb_func,
                        line_two::<F>(va, h),
                        line_two::<F>(vb, h),
                        line_two::<F>(vc, h),
                        line_two::<F>(vd, h),
                        h,
                    ),
                )
                &&& congruent::<F>(
                    r.2.val() as int,
                    sum_four::<F, C>(
                        *comb_func,
                        line_three::<F>(va, h),
                        line_three::<F>(vb, h),
                        line_three::<F>(vc, h),
                        line_three::<F>(vd, h),
                        h,
                    ),
                )
            }),
    {
        let n = poly_a.len();
        let len = n / 2;
        let ghost (va, vb, vc, vd) = (vals(poly_a.z@), vals(poly_b.z@), vals(poly_c.z@), vals(poly_d.z@));
        let ghost h = len as nat;
        let mut e0 = F::zero();
        let mut e2 = F::zero();
        let mut e3 = F::zero();
        let mut i: usize = 0;
        proof {
            lemma_cong_refl::<F>(0);
        }
        while i < len
            invariant
                n == poly_a.z@.len(),
                len == n / 2,
                h == len,
                len * 2 <= poly_b.z@.len(),
                len * 2 <= poly_c.z@.len(),
                len * 2 <= poly_d.z@.len(),
                i <= len,
                va == vals(poly_a.z@),
                vb == vals(poly_b.z@),
                vc == vals(poly_c.z@),
                vd == vals(poly_d.z@),
                congruent::<F>(e0.val() as int, sum_four::<F, C>(*comb_func, va, vb, vc, vd, i as nat)),
                congruent::<F>(
                    e2.val() as int,
                    sum_four::<F, C>(
                        *comb_func,
                        line_two::<F>(va, h),
                        line_two::<F>(vb, h),
                        line_two::<F>(vc, h),
                        line_two::<F>(vd, h),
                        i as nat,
                    ),
                ),
                congruent::<F>(
                    e3.val() as int,
                    sum_four::<F, C>(
                        *comb_func,
                        line_three::<F>(va, h),
                        line_three::<F>(vb, h),
                        line_three::<F>(vc, h),
                        line_three::<F>(vd, h),
                        i as nat,
                    ),
                ),
            decreases len - i,
        {
            let (p0, p2, p3) = (e0, e2, e3);
            let (a_lo, b_lo, c_lo, d_lo) = (poly_a.get(i), poly_b.get(i), poly_c.get(i), poly_d.get(i));
            let t0 = comb_func.combine(&a_lo, &b_lo, &c_lo, &d_lo);
            let (a_hi, b_hi) = (poly_a.get(len + i), poly_b.get(len + i));
            let (c_hi, d_hi) = (poly_c.get(len + i), poly_d.get(len + i));
            let a2 = line_at_two(&a_lo, &a_hi);
            let b2 = line_at_two(&b_lo, &b_hi);
            let c2 = line_at_two(&c_lo, &c_hi);
            let d2 = line_at_two(&d_lo, &d_hi);
            let t2 = comb_func.combine(&a2, &b2, &c2, &d2);
            let a3 = line_at_three(&a2, &a_lo, &a_hi);
            let b3 = line_at_three(&b2, &b_lo, &b_hi);
            let c3 = line_at_three(&c2, &c_lo, &c_hi);
            let d3 = line_at_three(&d2, &d_lo, &d_hi);
            let t3 = comb_func.combine(&a3, &b3, &c3, &d3);
            e0 = field_add(&e0, &t0);
            e2 = field_add(&e2, &t2);
            e3 = field_add(&e3, &t3);
            proof {
                let k = i as int;
                let (l2a, l2b, l2c, l2d) = (line_two::<F>(va, h), line_two::<F>(vb, h), line_two::<F>(vc, h), line_two::<F>(vd, h));
                let (l3a, l3b, l3c, l3d) = (line_three::<F>(va, h), line_three::<F>(vb, h), line_three::<F>(vc, h), line_three::<F>(vd, h));
                lemma_cong_add_chain::<F>(
                    e0.val() as int,
                    p0.val() as int,
                    t0.val() as int,
                    sum_four::<F, C>(*comb_func, va, vb, vc, vd, i as nat),
                    comb_func.combine_spec(va[k], vb[k], vc[k], vd[k]),
                );
                lemma_cong_add_chain::<F>(
                    e2.val() as int,
                    p2.val() as int,
                    t2.val() as int,
                    sum_four::<F, C>(*comb_func, l2a, l2b, l2c, l2d, i as nat),
                    comb_func.combine_spec(l2a[k], l2b[k], l2c[k], l2d[k]),
                );
                lemma_cong_add_chain::<F>(
                    e3.val() as int,
                    p3.val() as int,
                    t3.val() as int,
                    sum_four::<F, C>(*comb_func, l3a, l3b, l3c, l3d, i as nat),
                    comb_func.combine_spec(l3a[k], l3b[k], l3c[k], l3d[k]),
                );
            }
            i = i + 1;
        }
        (e0, e2, e3)
    }
}

/// `comb` is `a * (b * c - d)`.
pub open spec fn is_product_minus_term<F: PrimeField, C: CombineFour<F>>(comb: C) -> bool {
    forall|a: int, b: int, c: int, d: int| #[trigger] comb.combine_spec(a, b, c, d) == a * (b * c - d)
}

/// `sum_{i < n} a[i] * (b[i] * c[i] - d[i])`.
pub open spec fn pmt(a: Seq<int>, b: Seq<int>, c: Seq<int>, d: Seq<int>, n: nat) -> int
    decreases n,
{
    if n == 0 {
        0
    } else {
        let i = n - 1;
        pmt(a, b, c, d, (n - 1) as nat) + a[i] * (b[i] * c[i] - d[i])
    }
}

/// `sum_{i < n} a[h + i] * (b[h + i] * c[h + i] - d[h + i])`.
pub open spec fn pmt_upper(a: Seq<int>, b: Seq<int>, c: Seq<int>, d: Seq<int>, h: nat, n: nat) -> int
    decreases n,
{
    if n == 0 {
        0
    } else {
        let i = h + n - 1;
        pmt_upper(a, b, c, d, h, (n - 1) as nat) + a[i] * (b[i] * c[i] - d[i])
    }
}

/// The coefficient of `x^k`, `k` in `1..=3`, of one term
/// `(p + x u) ((q + x v) (r + x w) - (s + x t))`.
pub open spec fn cubic_term_coeff(k: int, p: int, u: int, q: int, v: int, r: int, w: int, s: int, t: int) -> int {
    if k == 1 {
        p * (q * w + v * r - t) + u * (q * r - s)
    } else if k == 2 {
        p * (v * w) + u * (q * w + v * r - t)
    } else {
        u * (v * w)
    }
}

/// The coefficient of `x^k` of the sum of the combination along the lines between
/// the halves, over the first `n` lines.
pub open spec fn cubic_coeff(k: int, a: Seq<int>, b: Seq<int>, c: Seq<int>, d: Seq<int>, h: nat, n: nat) -> int
    decreases n,
{
    if n == 0 {
        0
    } else {
        let i = n - 1;
        cubic_coeff(k, a, b, c, d, h, (n - 1) as nat) + cubic_term_coeff(
            k,
            a[i],
            a[i + h] - a[i],
            b[i],
            b[i + h] - b[i],
            c[i],
            c[i + h] - c[i],
            d[i],
            d[i + h] - d[i],
        )
    }
}

/// The combination along a line is a cubic in the line's parameter.
pub proof fn lemma_line_cubic(p: int, u: int, q: int, v: int, r: int, w: int, s: int, t: int, x: int)
    ensures
        (p + x * u) * ((q + x * v) * (r + x * w) - (s + x * t)) == p * (q * r - s) + x
            * cubic_term_coeff(1, p, u, q, v, r, w, s, t) + x * x * cubic_term_coeff(2, p, u, q, v, r, w, s, t)
            + x * x * x * cubic_term_coeff(3, p, u, q, v, r, w, s, t),
{
    lemma_line_product(q, v, r, w, x);
    let m0 = q * r - s;
    let m1 = q * w + v * r - t;
    let m2 = v * w;
    assert((q + x * v) * (r + x * w) - (s + x * t) == m0 + x * m1 + x * x * m2) by (nonlinear_arith)
        requires
            (q + x * v) * (r + x * w) == q * r + x * (q * w + v * r) + x * x * (v * w),
            m0 == q * r - s,
            m1 == q * w + v * r - t,
            m2 == v * w,
    ;
    let mm = m0 + x * m1 + x * x * m2;
    assert((p + x * u) * mm == p * mm + (x * u) * mm) by (nonlinear_arith);
    assert(p * mm == p * m0 + p * (x * m1) + p * (x * x * m2)) by (nonlinear_arith)
        requires
            mm == m0 + x * m1 + x * x * m2,
    ;
    assert((x * u) * mm == (x * u) * m0 + (x * u) * (x * m1) + (x * u) * (x * x * m2)) by (nonlinear_arith)
        requires
            mm == m0 + x * m1 + x * x * m2,
    ;
    assert(p * (x * m1) == x * (p * m1)) by (nonlinear_arith);
    assert((x * u) * m0 == x * (u * m0)) by (nonlinear_arith);
    assert(x * (p * m1) + x * (u * m0) == x * (p * m1 + u * m0)) by (nonlinear_arith);
    assert(p * (x * x * m2) == x * x * (p * m2)) by (nonlinear_arith);
    assert((x * u) * (x * m1) == x * x * (u * m1)) by (nonlinear_arith);
    assert(x * x * (p * m2) + x * x * (u * m1) == x * x * (p * m2 + u * m1)) by (nonlinear_arith);
    assert((x * u) * (x * x * m2) == x * x * x * (u * m2)) by (nonlinear_arith);
}

/// Along the lines between the halves, the sum of `a (b c - d)` is a cubic.
pub proof fn lemma_bind_expand_cubic(
    a: Seq<int>,
    b: Seq<int>,
    c: Seq<int>,
    d: Seq<int>,
    h: nat,
    x: int,
    n: nat,
)
    requires
        a.len() == 2 * h,
        b.len() == 2 * h,
        c.len() == 2 * h,
        d.len() == 2 * h,
        n <= h,
    ensures
        pmt(bind_top(a, x), bind_top(b, x), bind_top(c, x), bind_top(d, x), n) == pmt(a, b, c, d, n) + x
            * cubic_coeff(1, a, b, c, d, h, n) + x * x * cubic_coeff(2, a, b, c, d, h, n) + x * x * x
            * cubic_coeff(3, a, b, c, d, h, n),
    decreases n,
{
    if n > 0 {
        let i = n - 1;
        lemma_bind_expand_cubic(a, b, c, d, h, x, (n - 1) as nat);
        let (p, u) = (a[i], a[i + h] - a[i]);
        let (q, v) = (b[i], b[i + h] - b[i]);
        let (r, w) = (c[i], c[i + h] - c[i]);
        let (s, t) = (d[i], d[i + h] - d[i]);
        assert(bind_top(a, x)[i] == p + x * u);
        assert(bind_top(b, x)[i] == q + x * v);
        assert(bind_top(c, x)[i] == r + x * w);
        assert(bind_top(d, x)[i] == s + x * t);
        lemma_line_cubic(p, u, q, v, r, w, s, t, x);
        let (k1, k2, k3) = (
            cubic_term_coeff(1, p, u, q, v, r, w, s, t),
            cubic_term_coeff(2, p, u, q, v, r, w, s, t),
            cubic_term_coeff(3, p, u, q, v, r, w, s, t),
        );
        let (c1, c2, c3) = (
            cubic_coeff(1, a, b, c, d, h, (n - 1) as nat),
            cubic_coeff(2, a, b, c, d, h, (n - 1) as nat),
            cubic_coeff(3, a, b, c, d, h, (n - 1) as nat),
        );
        assert(x * (c1 + k1) == x * c1 + x * k1) by (nonlinear_arith);
        assert(x * x * (c2 + k2) == x * x * c2 + x * x * k2) by (nonlinear_arith);
        assert(x * x * x * (c3 + k3) == x * x * x * c3 + x * x * x * k3) by (nonlinear_arith);
    }
}

/// Sums of `a (b c - d)` over congruent entries are congruent.
pub proof fn lemma_pmt_congruent<F: PrimeField>(
    a: Seq<int>,
    b: Seq<int>,
    c: Seq<int>,
    d: Seq<int>,
    a2: Seq<int>,
    b2: Seq<int>,
    c2: Seq<int>,
    d2: Seq<int>,
    n: nat,
)
    requires
        forall|i: int| 0 <= i < n ==> congruent::<F>(#[trigger] a[i], a2[i]),
        forall|i: int| 0 <= i < n ==> congruent::<F>(#[trigger] b[i], b2[i]),
        forall|i: int| 0 <= i < n ==> congruent::<F>(#[trigger] c[i], c2[i]),
        forall|i: int| 0 <= i < n ==> congruent::<F>(#[trigger] d[i], d2[i]),
    ensures
        congruent::<F>(pmt(a, b, c, d, n), pmt(a2, b2, c2, d2, n)),
    decreases n,
{
    if n == 0 {
        lemma_cong_refl::<F>(0);
    } else {
        let i = n - 1;
        lemma_pmt_congruent::<F>(a, b, c, d, a2, b2, c2, d2, (n - 1) as nat);
        assert(congruent::<F>(a[i], a2[i]));
        assert(congruent::<F>(b[i], b2[i]));
        assert(congruent::<F>(c[i], c2[i]));
        assert(congruent::<F>(d[i], d2[i]));
        lemma_cong_mul::<F>(b[i], b2[i], c[i], c2[i]);
        lemma_cong_sub::<F>(b[i] * c[i], b2[i] * c2[i], d[i], d2[i]);
        lemma_cong_mul::<F>(a[i], a2[i], b[i] * c[i] - d[i], b2[i] * c2[i] - d2[i]);
        lemma_cong_add::<F>(
            pmt(a, b, c, d, (n - 1) as nat),
            pmt(a2, b2, c2, d2, (n - 1) as nat),
            a[i] * (b[i] * c[i] - d[i]),
            a2[i] * (b2[i] * c2[i] - d2[i]),
        );
    }
}

/// The sum over the first `h + m` entries splits at `h`.
pub proof fn lemma_pmt_split(a: Seq<int>, b: Seq<int>, c: Seq<int>, d: Seq<int>, h: nat, m: nat)
    ensures
        pmt(a, b, c, d, h + m) == pmt(a, b, c, d, h) + pmt_upper(a, b, c, d, h, m),
    decreases m,
{
    if m > 0 {
        lemma_pmt_split(a, b, c, d, h, (m - 1) as nat);
        assert((h + m - 1) as nat == h + (m - 1));
    }
}

/// At one, the lines reach the upper halves.
pub proof fn lemma_pmt_at_one(a: Seq<int>, b: Seq<int>, c: Seq<int>, d: Seq<int>, h: nat, n: nat)
    requires
        a.len() == 2 * h,
        b.len() == 2 * h,
        c.len() == 2 * h,
        d.len() == 2 * h,
        n <= h,
    ensures
        pmt(bind_top(a, 1), bind_top(b, 1), bind_top(c, 1), bind_top(d, 1), n) == pmt_upper(a, b, c, d, h, n),
    decreases n,
{
    if n > 0 {
        let i = n - 1;
        lemma_pmt_at_one(a, b, c, d, h, (n - 1) as nat);
        assert(bind_top(a, 1)[i] == a[i + h]);
        assert(bind_top(b, 1)[i] == b[i + h]);
        assert(bind_top(c, 1)[i] == c[i + h]);
        assert(bind_top(d, 1)[i] == d[i + h]);
    }
}

/// At two and three, the lines reach the points that the prover evaluates.
pub proof fn lemma_line_points<F: PrimeField>(z: Seq<int>, h: nat)
    requires
        z.len() == 2 * h,
    ensures
        forall|i: int| 0 <= i < h ==> congruent::<F>(#[trigger] bind_top(z, 2)[i], line_two::<F>(z, h)[i]),
        forall|i: int| 0 <= i < h ==> congruent::<F>(#[trigger] bind_top(z, 3)[i], line_three::<F>(z, h)[i]),
{
    assert forall|i: int| 0 <= i < h implies congruent::<F>(#[trigger] bind_top(z, 2)[i], line_two::<F>(z, h)[i]) by {
        assert(bind_top(z, 2)[i] == 2 * z[i + h] - z[i]);
        lemma_cong_mod::<F>(2 * z[i + h] - z[i]);
    }
    assert forall|i: int| 0 <= i < h implies congruent::<F>(#[trigger] bind_top(z, 3)[i], line_three::<F>(z, h)[i]) by {
        assert(bind_top(z, 3)[i] == 3 * z[i + h] - 2 * z[i]);
        lemma_cong_mod::<F>(3 * z[i + h] - 2 * z[i]);
    }
}

/// A polynomial with four coefficients is `c0 + c1 x + c2 x^2 + c3 x^3`.
pub proof fn lemma_poly_eval_four(c: Seq<int>, x: int)
    requires
        c.len() == 4,
    ensures
        poly_eval(c, x) == c[0] + c[1] * x + c[2] * (x * x) + c[3] * (x * x * x),
{
    reveal_with_fuel(poly_eval, 5);
    reveal(pow);
    assert(c.drop_last().drop_last().drop_last().drop_last() =~= Seq::<int>::empty());
    assert(pow(x, 0) == 1);
    assert(pow(x, 1) == x * pow(x, 0));
    assert(pow(x, 2) == x * pow(x, 1));
    assert(pow(x, 3) == x * pow(x, 2));
    assert(x * (x * x) == x * x * x) by (nonlinear_arith);
}

/// Six is a unit when the characteristic exceeds three.
pub proof fn lemma_cancel_six<F: PrimeField>(u: int, v: int)
    requires
        F::modulus() > 3,
        congruent::<F>(6 * u, 6 * v),
    ensures
        congruent::<F>(u, v),
{
    crate::spartan::polys::lemma_two_six_units::<F>();
    assert(6 * (u - v) == 6 * u - 6 * v);
    assert(congruent::<F>(6 * (u - v), 0));
    crate::r1cs::lemma_cong_zero_product::<F>(6, u - v);
    if congruent::<F>(6, 0) {
        assert(6nat % F::modulus() == 0);
        assert(false);
    }
}

/// A polynomial with four coefficients is fixed, up to congruence, by its values
/// at `0, 1, 2, 3` when two and three are units.
pub proof fn lemma_cubic_unique<F: PrimeField>(c: Seq<int>, s0: int, s1: int, s2: int, s3: int, x: int)
    requires
        c.len() == 4,
        F::modulus() > 3,
        congruent::<F>(poly_eval(c, 0), s0),
        congruent::<F>(poly_eval(c, 1), s0 + s1 + s2 + s3),
        congruent::<F>(poly_eval(c, 2), s0 + 2 * s1 + 4 * s2 + 8 * s3),
        congruent::<F>(poly_eval(c, 3), s0 + 3 * s1 + 9 * s2 + 27 * s3),
    ensures
        congruent::<F>(poly_eval(c, x), s0 + x * s1 + (x * x) * s2 + (x * x * x) * s3),
{
    lemma_poly_eval_four(c, 0);
    lemma_poly_eval_four(c, 1);
    lemma_poly_eval_four(c, 2);
    lemma_poly_eval_four(c, 3);
    lemma_poly_eval_four(c, x);
    let (c0, c1, c2, c3) = (c[0], c[1], c[2], c[3]);
    assert(c1 * 0 == 0 && c2 * (0 * 0) == 0 && c3 * (0 * 0 * 0) == 0) by (nonlinear_arith);
    assert(c1 * 1 == c1 && c2 * (1 * 1) == c2 && c3 * (1 * 1 * 1) == c3) by (nonlinear_arith);
    assert(c2 * (2 * 2) == c2 * 4 && c3 * (2 * 2 * 2) == c3 * 8) by (nonlinear_arith);
    assert(c2 * (3 * 3) == c2 * 9 && c3 * (3 * 3 * 3) == c3 * 27) by (nonlinear_arith);
    assert(poly_eval(c, 0) == c0);
    assert(poly_eval(c, 1) == c0 + c1 + c2 + c3);
    assert(poly_eval(c, 2) == c0 + c1 * 2 + c2 * 4 + c3 * 8);
    assert(poly_eval(c, 3) == c0 + c1 * 3 + c2 * 9 + c3 * 27);
    assert(congruent::<F>(c0, s0));
    // A: c1 + c2 + c3 == s1 + s2 + s3
    lemma_cong_sub::<F>(c0 + c1 + c2 + c3, s0 + s1 + s2 + s3, c0, s0);
    let (ca, sa) = (c1 + c2 + c3, s1 + s2 + s3);
    assert(congruent::<F>(ca, sa));
    // B: 2 c1 + 4 c2 + 8 c3 == 2 s1 + 4 s2 + 8 s3
    lemma_cong_sub::<F>(c0 + c1 * 2 + c2 * 4 + c3 * 8, s0 + 2 * s1 + 4 * s2 + 8 * s3, c0, s0);
    let (cb, sb) = (c1 * 2 + c2 * 4 + c3 * 8, 2 * s1 + 4 * s2 + 8 * s3);
    assert(congruent::<F>(cb, sb));
    // C: 3 c1 + 9 c2 + 27 c3 == 3 s1 + 9 s2 + 27 s3
    lemma_cong_sub::<F>(c0 + c1 * 3 + c2 * 9 + c3 * 27, s0 + 3 * s1 + 9 * s2 + 27 * s3, c0, s0);
    let (cc, sc) = (c1 * 3 + c2 * 9 + c3 * 27, 3 * s1 + 9 * s2 + 27 * s3);
    assert(congruent::<F>(cc, sc));
    // D = B - 2A: 2 c2 + 6 c3;  E = C - 3A: 6 c2 + 24 c3
    lemma_cong_refl::<F>(2);
    lemma_cong_refl::<F>(3);
    lemma_cong_mul::<F>(2, 2, ca, sa);
    lemma_cong_mul::<F>(3, 3, ca, sa);
    lemma_cong_sub::<F>(cb, sb, 2 * ca, 2 * sa);
    lemma_cong_sub::<F>(cc, sc, 3 * ca, 3 * sa);
    let (cd, sd) = (cb - 2 * ca, sb - 2 * sa);
    let (ce, se) = (cc - 3 * ca, sc - 3 * sa);
    assert(cd == 2 * c2 + 6 * c3 && sd == 2 * s2 + 6 * s3);
    assert(ce == 6 * c2 + 24 * c3 && se == 6 * s2 + 24 * s3);
    // E - 3D: 6 c3 == 6 s3
    lemma_cong_mul::<F>(3, 3, cd, sd);
    lemma_cong_sub::<F>(ce, se, 3 * cd, 3 * sd);
    assert(ce - 3 * cd == 6 * c3 && se - 3 * sd == 6 * s3);
    lemma_cancel_six::<F>(c3, s3);
    // then 2 c2 == 2 s2, and c1 == s1
    lemma_cong_refl::<F>(6);
    lemma_cong_mul::<F>(6, 6, c3, s3);
    lemma_cong_sub::<F>(cd, sd, 6 * c3, 6 * s3);
    assert(cd - 6 * c3 == 2 * c2 && sd - 6 * s3 == 2 * s2);
    lemma_cancel_two::<F>(c2, s2);
    lemma_cong_sub::<F>(ca, sa, c2, s2);
    lemma_cong_sub::<F>(ca - c2, sa - s2, c3, s3);
    assert(ca - c2 - c3 == c1 && sa - s2 - s3 == s1);
    lemma_cong_refl::<F>(x);
    lemma_cong_refl::<F>(x * x);
    lemma_cong_refl::<F>(x * x * x);
    lemma_cong_mul::<F>(c1, s1, x, x);
    lemma_cong_mul::<F>(c2, s2, x * x, x * x);
    lemma_cong_mul::<F>(c3, s3, x * x * x, x * x * x);
    lemma_cong_add::<F>(c0, s0, c1 * x, s1 * x);
    lemma_cong_add::<F>(c0 + c1 * x, s0 + s1 * x, c2 * (x * x), s2 * (x * x));
    lemma_cong_add::<F>(c0 + c1 * x + c2 * (x * x), s0 + s1 * x + s2 * (x * x), c3 * (x * x * x), s3 * (x * x * x));
    assert(s0 + s1 * x + s2 * (x * x) + s3 * (x * x * x) == s0 + x * s1 + (x * x) * s2 + (x * x * x) * s3) by (nonlinear_arith);
}

/// One round of the cubic prover is complete: if the running claim is the sum of
/// `a (b c - d)` over the tables, the interpolated round polynomial is, at every
/// point, that sum over the tables bound to the point.
pub proof fn lemma_cubic_round<F: PrimeField>(
    a: Seq<int>,
    b: Seq<int>,
    c: Seq<int>,
    d: Seq<int>,
    h: nat,
    claim: int,
    e0: int,
    e1: int,
    e2: int,
    e3: int,
    poly: Seq<int>,
    x: int,
)
    requires
        a.len() == 2 * h,
        b.len() == 2 * h,
        c.len() == 2 * h,
        d.len() == 2 * h,
        F::modulus() > 3,
        congruent::<F>(claim, pmt(a, b, c, d, 2 * h)),
        congruent::<F>(e0, pmt(a, b, c, d, h)),
        congruent::<F>(e1, claim - e0),
        congruent::<F>(
            e2,
            pmt(line_two::<F>(a, h), line_two::<F>(b, h), line_two::<F>(c, h), line_two::<F>(d, h), h),
        ),
        congruent::<F>(
            e3,
            pmt(line_three::<F>(a, h), line_three::<F>(b, h), line_three::<F>(c, h), line_three::<F>(d, h), h),
        ),
        poly.len() == 4,
        congruent::<F>(poly_eval(poly, 0), e0),
        congruent::<F>(poly_eval(poly, 1), e1),
        congruent::<F>(poly_eval(poly, 2), e2),
        congruent::<F>(poly_eval(poly, 3), e3),
    ensures
        congruent::<F>(
            poly_eval(poly, x),
            pmt(bind_top(a, x), bind_top(b, x), bind_top(c, x), bind_top(d, x), h),
        ),
{
    let s0 = pmt(a, b, c, d, h);
    let s1 = cubic_coeff(1, a, b, c, d, h, h);
    let s2 = cubic_coeff(2, a, b, c, d, h, h);
    let s3 = cubic_coeff(3, a, b, c, d, h, h);
    lemma_bind_expand_cubic(a, b, c, d, h, 0, h);
    lemma_bind_expand_cubic(a, b, c, d, h, 1, h);
    lemma_bind_expand_cubic(a, b, c, d, h, 2, h);
    lemma_bind_expand_cubic(a, b, c, d, h, 3, h);
    lemma_bind_expand_cubic(a, b, c, d, h, x, h);
    assert(0 * s1 == 0 && 0 * 0 * s2 == 0 && 0 * 0 * 0 * s3 == 0) by (nonlinear_arith);
    assert(1 * s1 == s1 && 1 * 1 * s2 == s2 && 1 * 1 * 1 * s3 == s3) by (nonlinear_arith);
    assert(2 * 2 * s2 == 4 * s2 && 2 * 2 * 2 * s3 == 8 * s3) by (nonlinear_arith);
    assert(3 * 3 * s2 == 9 * s2 && 3 * 3 * 3 * s3 == 27 * s3) by (nonlinear_arith);
    let (b2a, b2b, b2c, b2d) = (bind_top(a, 2), bind_top(b, 2), bind_top(c, 2), bind_top(d, 2));
    let (b3a, b3b, b3c, b3d) = (bind_top(a, 3), bind_top(b, 3), bind_top(c, 3), bind_top(d, 3));
    // at 0
    lemma_cong_trans::<F>(poly_eval(poly, 0), e0, s0);
    // at 1
    lemma_pmt_split(a, b, c, d, h, h);
    lemma_pmt_at_one(a, b, c, d, h, h);
    lemma_cong_sub::<F>(claim, pmt(a, b, c, d, 2 * h), e0, s0);
    lemma_cong_trans::<F>(e1, claim - e0, pmt(a, b, c, d, 2 * h) - s0);
    lemma_cong_trans::<F>(poly_eval(poly, 1), e1, pmt(a, b, c, d, 2 * h) - s0);
    // at 2 and 3
    lemma_line_points::<F>(a, h);
    lemma_line_points::<F>(b, h);
    lemma_line_points::<F>(c, h);
    lemma_line_points::<F>(d, h);
    let (l2a, l2b, l2c, l2d) = (line_two::<F>(a, h), line_two::<F>(b, h), line_two::<F>(c, h), line_two::<F>(d, h));
    let (l3a, l3b, l3c, l3d) = (line_three::<F>(a, h), line_three::<F>(b, h), line_three::<F>(c, h), line_three::<F>(d, h));
    lemma_pmt_congruent::<F>(b2a, b2b, b2c, b2d, l2a, l2b, l2c, l2d, h);
    lemma_pmt_congruent::<F>(b3a, b3b, b3c, b3d, l3a, l3b, l3c, l3d, h);
    lemma_cong_sym::<F>(pmt(b2a, b2b, b2c, b2d, h), pmt(l2a, l2b, l2c, l2d, h));
    lemma_cong_sym::<F>(pmt(b3a, b3b, b3c, b3d, h), pmt(l3a, l3b, l3c, l3d, h));
    lemma_cong_trans::<F>(e2, pmt(l2a, l2b, l2c, l2d, h), pmt(b2a, b2b, b2c, b2d, h));
    lemma_cong_trans::<F>(e3, pmt(l3a, l3b, l3c, l3d, h), pmt(b3a, b3b, b3c, b3d, h));
    lemma_cong_trans::<F>(poly_eval(poly, 2), e2, pmt(b2a, b2b, b2c, b2d, h));
    lemma_cong_trans::<F>(poly_eval(poly, 3), e3, pmt(b3a, b3b, b3c, b3d, h));
    lemma_cubic_unique::<F>(poly, s0, s1, s2, s3, x);
    assert(s0 + x * s1 + (x * x) * s2 + (x * x * x) * s3 == s0 + x * s1 + x * x * s2 + x * x * x * s3) by (nonlinear_arith);
}

/// `comb` at the point `x` of the line from `p` in the direction `dir`.
pub open spec fn comb_line<F: PrimeField, C: CombineFour<F>>(
    comb: C,
    p: (int, int, int, int),
    dir: (int, int, int, int),
    x: int,
) -> int {
    comb.combine_spec(p.0 + x * dir.0, p.1 + x * dir.1, p.2 + x * dir.2, p.3 + x * dir.3)
}

/// The fourth difference of `comb` along the line from `p` in the direction `dir`,
/// at `x`.
pub open spec fn comb_line_diff4<F: PrimeField, C: CombineFour<F>>(
    comb: C,
    p: (int, int, int, int),
    dir: (int, int, int, int),
    x: int,
) -> int {
    comb_line::<F, C>(comb, p, dir, x + 4) - 4 * comb_line::<F, C>(comb, p, dir, x + 3) + 6 * comb_line::<F, C>(
        comb,
        p,
        dir,
        x + 2,
    ) - 4 * comb_line::<F, C>(comb, p, dir, x + 1) + comb_line::<F, C>(comb, p, dir, x)
}

/// The combination is a polynomial of degree at most three over the field: it
/// maps congruent points to congruent values, and along every line its fourth
/// differences vanish.
pub open spec fn is_cubic<F: PrimeField, C: CombineFour<F>>(comb: C) -> bool {
    &&& forall|a1: int, b1: int, c1: int, d1: int, a2: int, b2: int, c2: int, d2: int|
        congruent::<F>(a1, a2) && congruent::<F>(b1, b2) && congruent::<F>(c1, c2) && congruent::<F>(d1, d2)
            ==> congruent::<F>(
            #[trigger] comb.combine_spec(a1, b1, c1, d1),
            #[trigger] comb.combine_spec(a2, b2, c2, d2),
        )
    &&& forall|p: (int, int, int, int), dir: (int, int, int, int), x: int|
        congruent::<F>(#[trigger] comb_line_diff4::<F, C>(comb, p, dir, x), 0)
}

/// A combination of degree at most three sums congruent tables to congruent sums.
pub proof fn lemma_sum_four_congruent<F: PrimeField, C: CombineFour<F>>(
    comb: C,
    a: Seq<int>,
    b: Seq<int>,
    c: Seq<int>,
    d: Seq<int>,
    a2: Seq<int>,
    b2: Seq<int>,
    c2: Seq<int>,
    d2: Seq<int>,
    n: nat,
)
    requires
        is_cubic::<F, C>(comb),
        forall|i: int| 0 <= i < n ==> congruent::<F>(#[trigger] a[i], a2[i]),
        forall|i: int| 0 <= i < n ==> congruent::<F>(#[trigger] b[i], b2[i]),
        forall|i: int| 0 <= i < n ==> congruent::<F>(#[trigger] c[i], c2[i]),
        forall|i: int| 0 <= i < n ==> congruent::<F>(#[trigger] d[i], d2[i]),
    ensures
        congruent::<F>(sum_four::<F, C>(comb, a, b, c, d, n), sum_four::<F, C>(comb, a2, b2, c2, d2, n)),
    decreases n,
{
    if n == 0 {
        lemma_cong_refl::<F>(0);
    } else {
        let i = n - 1;
        lemma_sum_four_congruent::<F, C>(comb, a, b, c, d, a2, b2, c2, d2, (n - 1) as nat);
        assert(congruent::<F>(a[i], a2[i]) && congruent::<F>(b[i], b2[i]));
        assert(congruent::<F>(c[i], c2[i]) && congruent::<F>(d[i], d2[i]));
        assert(congruent::<F>(comb.combine_spec(a[i], b[i], c[i], d[i]), comb.combine_spec(a2[i], b2[i], c2[i], d2[i])));
        lemma_cong_add::<F>(
            sum_four::<F, C>(comb, a, b, c, d, (n - 1) as nat),
            sum_four::<F, C>(comb, a2, b2, c2, d2, (n - 1) as nat),
            comb.combine_spec(a[i], b[i], c[i], d[i]),
            comb.combine_spec(a2[i], b2[i], c2[i], d2[i]),
        );
    }
}

/// `sum_{i < m} comb(a[h + i], b[h + i], c[h + i], d[h + i])`.
pub open spec fn sum_four_upper<F: PrimeField, C: CombineFour<F>>(
    comb: C,
    a: Seq<int>,
    b: Seq<int>,
    c: Seq<int>,
    d: Seq<int>,
    h: nat,
    m: nat,
) -> int
    decreases m,
{
    if m == 0 {
        0
    } else {
        let i = h + m - 1;
        sum_four_upper::<F, C>(comb, a, b, c, d, h, (m - 1) as nat) + comb.combine_spec(a[i], b[i], c[i], d[i])
    }
}

/// A sum splits into its lower and upper parts; at one, the lines reach the
/// upper halves.
pub proof fn lemma_sum_four_split<F: PrimeField, C: CombineFour<F>>(
    comb: C,
    a: Seq<int>,
    b: Seq<int>,
    c: Seq<int>,
    d: Seq<int>,
    h: nat,
    m: nat,
)
    requires
        a.len() == 2 * h,
        b.len() == 2 * h,
        c.len() == 2 * h,
        d.len() == 2 * h,
        m <= h,
    ensures
        sum_four::<F, C>(comb, a, b, c, d, h + m) == sum_four::<F, C>(comb, a, b, c, d, h) + sum_four_upper::<F, C>(
            comb,
            a,
            b,
            c,
            d,
            h,
            m,
        ),
        sum_four::<F, C>(comb, bind_top(a, 1), bind_top(b, 1), bind_top(c, 1), bind_top(d, 1), m)
            == sum_four_upper::<F, C>(comb, a, b, c, d, h, m),
    decreases m,
{
    if m > 0 {
        let i = m - 1;
        lemma_sum_four_split::<F, C>(comb, a, b, c, d, h, (m - 1) as nat);
        assert((h + m - 1) as nat == h + (m - 1));
        assert(bind_top(a, 1)[i] == a[i + h]);
        assert(bind_top(b, 1)[i] == b[i + h]);
        assert(bind_top(c, 1)[i] == c[i + h]);
        assert(bind_top(d, 1)[i] == d[i + h]);
    }
}

/// The sum of `comb` over the lines between the halves, at `x`.
pub open spec fn line_sum<F: PrimeField, C: CombineFour<F>>(
    comb: C,
    a: Seq<int>,
    b: Seq<int>,
    c: Seq<int>,
    d: Seq<int>,
    n: nat,
    x: int,
) -> int {
    sum_four::<F, C>(comb, bind_top(a, x), bind_top(b, x), bind_top(c, x), bind_top(d, x), n)
}

/// Along the lines between the halves, the sum of a combination of degree at most
/// three has vanishing fourth differences.
pub proof fn lemma_line_sum_diff4<F: PrimeField, C: CombineFour<F>>(
    comb: C,
    a: Seq<int>,
    b: Seq<int>,
    c: Seq<int>,
    d: Seq<int>,
    h: nat,
    n: nat,
    x: int,
)
    requires
        is_cubic::<F, C>(comb),
        a.len() == 2 * h,
        b.len() == 2 * h,
        c.len() == 2 * h,
        d.len() == 2 * h,
        n <= h,
    ensures
        congruent::<F>(
            line_sum::<F, C>(comb, a, b, c, d, n, x + 4) - 4 * line_sum::<F, C>(comb, a, b, c, d, n, x + 3) + 6
                * line_sum::<F, C>(comb, a, b, c, d, n, x + 2) - 4 * line_sum::<F, C>(comb, a, b, c, d, n, x + 1)
                + line_sum::<F, C>(comb, a, b, c, d, n, x),
            0,
        ),
    decreases n,
{
    if n == 0 {
        lemma_cong_refl::<F>(0);
    } else {
        let i = n - 1;
        lemma_line_sum_diff4::<F, C>(comb, a, b, c, d, h, (n - 1) as nat, x);
        let pt = (a[i], b[i], c[i], d[i]);
        let dir = (a[i + h] - a[i], b[i + h] - b[i], c[i + h] - c[i], d[i + h] - d[i]);
        assert forall|y: int|
            #![trigger line_sum::<F, C>(comb, a, b, c, d, n, y)]
            true implies line_sum::<F, C>(comb, a, b, c, d, n, y) == line_sum::<F, C>(
                comb,
                a,
                b,
                c,
                d,
                (n - 1) as nat,
                y,
            ) + comb_line::<F, C>(comb, pt, dir, y) by {
            assert(bind_top(a, y)[i] == pt.0 + y * dir.0);
            assert(bind_top(b, y)[i] == pt.1 + y * dir.1);
            assert(bind_top(c, y)[i] == pt.2 + y * dir.2);
            assert(bind_top(d, y)[i] == pt.3 + y * dir.3);
        }
        let prev = line_sum::<F, C>(comb, a, b, c, d, (n - 1) as nat, x + 4) - 4 * line_sum::<F, C>(
            comb,
            a,
            b,
            c,
            d,
            (n - 1) as nat,
            x + 3,
        ) + 6 * line_sum::<F, C>(comb, a, b, c, d, (n - 1) as nat, x + 2) - 4 * line_sum::<F, C>(
            comb,
            a,
            b,
            c,
            d,
            (n - 1) as nat,
            x + 1,
        ) + line_sum::<F, C>(comb, a, b, c, d, (n - 1) as nat, x);
        assert(congruent::<F>(comb_line_diff4::<F, C>(comb, pt, dir, x), 0));
        lemma_cong_add::<F>(prev, 0, comb_line_diff4::<F, C>(comb, pt, dir, x), 0);
        assert(line_sum::<F, C>(comb, a, b, c, d, n, x + 4) == line_sum::<F, C>(comb, a, b, c, d, (n - 1) as nat, x + 4)
            + comb_line::<F, C>(comb, pt, dir, x + 4));
        assert(line_sum::<F, C>(comb, a, b, c, d, n, x + 3) == line_sum::<F, C>(comb, a, b, c, d, (n - 1) as nat, x + 3)
            + comb_line::<F, C>(comb, pt, dir, x + 3));
        assert(line_sum::<F, C>(comb, a, b, c, d, n, x + 2) == line_sum::<F, C>(comb, a, b, c, d, (n - 1) as nat, x + 2)
            + comb_line::<F, C>(comb, pt, dir, x + 2));
        assert(line_sum::<F, C>(comb, a, b, c, d, n, x + 1) == line_sum::<F, C>(comb, a, b, c, d, (n - 1) as nat, x + 1)
            + comb_line::<F, C>(comb, pt, dir, x + 1));
        assert(line_sum::<F, C>(comb, a, b, c, d, n, x) == line_sum::<F, C>(comb, a, b, c, d, (n - 1) as nat, x)
            + comb_line::<F, C>(comb, pt, dir, x));
    }
}

/// A polynomial with four coefficients at `x + k`, expanded around `x`.
pub proof fn lemma_cubic_poly_shift(p: Seq<int>, x: int, k: int)
    requires
        p.len() == 4,
    ensures
        poly_eval(p, x + k) == p[0] + p[1] * x + k * p[1] + p[2] * (x * x) + 2 * k * (p[2] * x) + k * k * p[2] + p[3] * (
        x * x * x) + 3 * k * (p[3] * (x * x)) + 3 * k * k * (p[3] * x) + k * k * k * p[3],
{
    let (c0, c1, c2, c3) = (p[0], p[1], p[2], p[3]);
    lemma_poly_eval_four(p, x + k);
    assert(c1 * (x + k) == c1 * x + k * c1) by (nonlinear_arith);
    let sq = (x + k) * (x + k);
    assert(sq == x * x + 2 * k * x + k * k) by (nonlinear_arith)
        requires
            sq == (x + k) * (x + k),
    ;
    assert(c2 * sq == c2 * (x * x) + 2 * k * (c2 * x) + k * k * c2) by (nonlinear_arith)
        requires
            sq == x * x + 2 * k * x + k * k,
    ;
    let cu = (x + k) * (x + k) * (x + k);
    assert(cu == sq * (x + k)) by (nonlinear_arith)
        requires
            sq == (x + k) * (x + k),
            cu == (x + k) * (x + k) * (x + k),
    ;
    assert(cu == x * x * x + 3 * k * (x * x) + 3 * k * k * x + k * k * k) by (nonlinear_arith)
        requires
            cu == sq * (x + k),
            sq == x * x + 2 * k * x + k * k,
    ;
    let (a1, a2, a3) = (x * x * x, x * x, x);
    assert(c3 * cu == c3 * a1 + 3 * k * (c3 * a2) + 3 * k * k * (c3 * a3) + k * k * k * c3) by (nonlinear_arith)
        requires
            cu == a1 + 3 * k * a2 + 3 * k * k * a3 + k * k * k,
    ;
}

/// A polynomial with four coefficients has vanishing fourth differences.
pub proof fn lemma_cubic_poly_diff4(p: Seq<int>, x: int)
    requires
        p.len() == 4,
    ensures
        poly_eval(p, x + 4) - 4 * poly_eval(p, x + 3) + 6 * poly_eval(p, x + 2) - 4 * poly_eval(p, x + 1) + poly_eval(p, x)
            == 0,
{
    lemma_cubic_poly_shift(p, x, 0);
    lemma_cubic_poly_shift(p, x, 1);
    lemma_cubic_poly_shift(p, x, 2);
    lemma_cubic_poly_shift(p, x, 3);
    lemma_cubic_poly_shift(p, x, 4);
    assert(x + 0 == x);
    let (c0, c1, c2, c3) = (p[0], p[1], p[2], p[3]);
    let (s1, s2, t2, s3, t3, u3) = (c1 * x, c2 * (x * x), c2 * x, c3 * (x * x * x), c3 * (x * x), c3 * x);
    let (v0, v1, v2, v3, v4) = (poly_eval(p, x), poly_eval(p, x + 1), poly_eval(p, x + 2), poly_eval(p, x + 3), poly_eval(p, x + 4));
    assert(v0 == c0 + s1 + s2 + s3);
    assert(v1 == c0 + s1 + c1 + s2 + 2 * t2 + c2 + s3 + 3 * t3 + 3 * u3 + c3) by (nonlinear_arith)
        requires
            v1 == c0 + c1 * x + 1 * c1 + c2 * (x * x) + 2 * 1 * (c2 * x) + 1 * 1 * c2 + c3 * (x * x * x) + 3 * 1 * (c3 * (x
                * x)) + 3 * 1 * 1 * (c3 * x) + 1 * 1 * 1 * c3,
            s1 == c1 * x,
            s2 == c2 * (x * x),
            t2 == c2 * x,
            s3 == c3 * (x * x * x),
            t3 == c3 * (x * x),
            u3 == c3 * x,
    ;
    assert(v2 == c0 + s1 + 2 * c1 + s2 + 4 * t2 + 4 * c2 + s3 + 6 * t3 + 12 * u3 + 8 * c3) by (nonlinear_arith)
        requires
            v2 == c0 + c1 * x + 2 * c1 + c2 * (x * x) + 2 * 2 * (c2 * x) + 2 * 2 * c2 + c3 * (x * x * x) + 3 * 2 * (c3 * (x
                * x)) + 3 * 2 * 2 * (c3 * x) + 2 * 2 * 2 * c3,
            s1 == c1 * x,
            s2 == c2 * (x * x),
            t2 == c2 * x,
            s3 == c3 * (x * x * x),
            t3 == c3 * (x * x),
            u3 == c3 * x,
    ;
    assert(v3 == c0 + s1 + 3 * c1 + s2 + 6 * t2 + 9 * c2 + s3 + 9 * t3 + 27 * u3 + 27 * c3) by (nonlinear_arith)
        requires
            v3 == c0 + c1 * x + 3 * c1 + c2 * (x * x) + 2 * 3 * (c2 * x) + 3 * 3 * c2 + c3 * (x * x * x) + 3 * 3 * (c3 * (x
                * x)) + 3 * 3 * 3 * (c3 * x) + 3 * 3 * 3 * c3,
            s1 == c1 * x,
            s2 == c2 * (x * x),
            t2 == c2 * x,
            s3 == c3 * (x * x * x),
            t3 == c3 * (x * x),
            u3 == c3 * x,
    ;
    assert(v4 == c0 + s1 + 4 * c1 + s2 + 8 * t2 + 16 * c2 + s3 + 12 * t3 + 48 * u3 + 64 * c3) by (nonlinear_arith)
        requires
            v4 == c0 + c1 * x + 4 * c1 + c2 * (x * x) + 2 * 4 * (c2 * x) + 4 * 4 * c2 + c3 * (x * x * x) + 3 * 4 * (c3 * (x
                * x)) + 3 * 4 * 4 * (c3 * x) + 4 * 4 * 4 * c3,
            s1 == c1 * x,
            s2 == c2 * (x * x),
            t2 == c2 * x,
            s3 == c3 * (x * x * x),
            t3 == c3 * (x * x),
            u3 == c3 * x,
    ;
}

/// A table sum with vanishing fourth differences that agrees with a polynomial of
/// four coefficients at `0`, `1`, `2` and `3` agrees with it at every `x >= 0`.
pub proof fn lemma_line_sum_agrees<F: PrimeField, C: CombineFour<F>>(
    comb: C,
    a: Seq<int>,
    b: Seq<int>,
    c: Seq<int>,
    d: Seq<int>,
    h: nat,
    p: Seq<int>,
    x: nat,
)
    requires
        is_cubic::<F, C>(comb),
        a.len() == 2 * h,
        b.len() == 2 * h,
        c.len() == 2 * h,
        d.len() == 2 * h,
        p.len() == 4,
        forall|k: int| 0 <= k < 4 ==> congruent::<F>(#[trigger] line_sum::<F, C>(comb, a, b, c, d, h, k), poly_eval(p, k)),
    ensures
        congruent::<F>(line_sum::<F, C>(comb, a, b, c, d, h, x as int), poly_eval(p, x as int)),
    decreases x,
{
    if x >= 4 {
        let y = x - 4;
        lemma_line_sum_agrees::<F, C>(comb, a, b, c, d, h, p, (x - 1) as nat);
        lemma_line_sum_agrees::<F, C>(comb, a, b, c, d, h, p, (x - 2) as nat);
        lemma_line_sum_agrees::<F, C>(comb, a, b, c, d, h, p, (x - 3) as nat);
        lemma_line_sum_agrees::<F, C>(comb, a, b, c, d, h, p, (x - 4) as nat);
        lemma_line_sum_diff4::<F, C>(comb, a, b, c, d, h, h, y);
        lemma_cubic_poly_diff4(p, y);
        let g = |k: int| line_sum::<F, C>(comb, a, b, c, d, h, y + k);
        let q = |k: int| poly_eval(p, y + k);
        let u1 = g(3) - q(3);
        let u2 = g(2) - q(2);
        let u3 = g(1) - q(1);
        let u4 = g(0) - q(0);
        assert(congruent::<F>(u1, 0) && congruent::<F>(u2, 0) && congruent::<F>(u3, 0) && congruent::<F>(u4, 0));
        let dg = g(4) - 4 * g(3) + 6 * g(2) - 4 * g(1) + g(0);
        assert(congruent::<F>(dg, 0));
        lemma_cong_refl::<F>(4);
        lemma_cong_refl::<F>(6);
        lemma_cong_mul::<F>(4, 4, u1, 0);
        lemma_cong_mul::<F>(6, 6, u2, 0);
        lemma_cong_mul::<F>(4, 4, u3, 0);
        assert(4 * 0int == 0 && 6 * 0int == 0);
        lemma_cong_add::<F>(dg, 0, 4 * u1, 0);
        lemma_cong_sub::<F>(dg + 4 * u1, 0, 6 * u2, 0);
        lemma_cong_add::<F>(dg + 4 * u1 - 6 * u2, 0, 4 * u3, 0);
        lemma_cong_sub::<F>(dg + 4 * u1 - 6 * u2 + 4 * u3, 0, u4, 0);
        assert(g(4) - q(4) == dg + 4 * u1 - 6 * u2 + 4 * u3 - u4);
        assert(y + 4 == x);
    }
}

/// One round of the cubic prover keeps a true claim true, for any combination of
/// degree at most three: the round polynomial at the challenge is the sum over
/// the bound tables.
pub proof fn lemma_cubic_round_general<F: PrimeField, C: CombineFour<F>>(
    comb: C,
    a: Seq<int>,
    b: Seq<int>,
    c: Seq<int>,
    d: Seq<int>,
    h: nat,
    claim: int,
    e0: int,
    e1: int,
    e2: int,
    e3: int,
    poly: Seq<int>,
    x: nat,
)
    requires
        is_cubic::<F, C>(comb),
        a.len() == 2 * h,
        b.len() == 2 * h,
        c.len() == 2 * h,
        d.len() == 2 * h,
        congruent::<F>(claim, sum_four::<F, C>(comb, a, b, c, d, 2 * h)),
        congruent::<F>(e0, sum_four::<F, C>(comb, a, b, c, d, h)),
        congruent::<F>(e1, claim - e0),
        congruent::<F>(
            e2,
            sum_four::<F, C>(comb, line_two::<F>(a, h), line_two::<F>(b, h), line_two::<F>(c, h), line_two::<F>(d, h), h),
        ),
        congruent::<F>(
            e3,
            sum_four::<F, C>(
                comb,
                line_three::<F>(a, h),
                line_three::<F>(b, h),
                line_three::<F>(c, h),
                line_three::<F>(d, h),
                h,
            ),
        ),
        poly.len() == 4,
        congruent::<F>(poly_eval(poly, 0), e0),
        congruent::<F>(poly_eval(poly, 1), e1),
        congruent::<F>(poly_eval(poly, 2), e2),
        congruent::<F>(poly_eval(poly, 3), e3),
    ensures
        congruent::<F>(poly_eval(poly, x as int), line_sum::<F, C>(comb, a, b, c, d, h, x as int)),
{
    // at 0, the lines start at the lower halves
    assert forall|i: int| 0 <= i < h implies congruent::<F>(#[trigger] bind_top(a, 0)[i], a[i]) by {
        lemma_cong_refl::<F>(a[i]);
    }
    assert forall|i: int| 0 <= i < h implies congruent::<F>(#[trigger] bind_top(b, 0)[i], b[i]) by {
        lemma_cong_refl::<F>(b[i]);
    }
    assert forall|i: int| 0 <= i < h implies congruent::<F>(#[trigger] bind_top(c, 0)[i], c[i]) by {
        lemma_cong_refl::<F>(c[i]);
    }
    assert forall|i: int| 0 <= i < h implies congruent::<F>(#[trigger] bind_top(d, 0)[i], d[i]) by {
        lemma_cong_refl::<F>(d[i]);
    }
    lemma_sum_four_congruent::<F, C>(comb, bind_top(a, 0), bind_top(b, 0), bind_top(c, 0), bind_top(d, 0), a, b, c, d, h);
    lemma_cong_sym::<F>(poly_eval(poly, 0), e0);
    lemma_cong_sym::<F>(e0, sum_four::<F, C>(comb, a, b, c, d, h));
    lemma_cong_trans::<F>(
        line_sum::<F, C>(comb, a, b, c, d, h, 0),
        sum_four::<F, C>(comb, a, b, c, d, h),
        e0,
    );
    lemma_cong_trans::<F>(line_sum::<F, C>(comb, a, b, c, d, h, 0), e0, poly_eval(poly, 0));
    // at 1, they reach the upper halves, whose sum is the claim less the lower one
    lemma_sum_four_split::<F, C>(comb, a, b, c, d, h, h);
    assert(h + h == 2 * h);
    lemma_cong_sub::<F>(claim, sum_four::<F, C>(comb, a, b, c, d, 2 * h), e0, sum_four::<F, C>(comb, a, b, c, d, h));
    lemma_cong_trans::<F>(e1, claim - e0, sum_four_upper::<F, C>(comb, a, b, c, d, h, h));
    lemma_cong_trans::<F>(poly_eval(poly, 1), e1, sum_four_upper::<F, C>(comb, a, b, c, d, h, h));
    lemma_cong_sym::<F>(poly_eval(poly, 1), line_sum::<F, C>(comb, a, b, c, d, h, 1));
    // at 2 and 3, they pass the points the prover evaluated
    lemma_line_points::<F>(a, h);
    lemma_line_points::<F>(b, h);
    lemma_line_points::<F>(c, h);
    lemma_line_points::<F>(d, h);
    let (l2a, l2b, l2c, l2d) = (line_two::<F>(a, h), line_two::<F>(b, h), line_two::<F>(c, h), line_two::<F>(d, h));
    let (l3a, l3b, l3c, l3d) = (line_three::<F>(a, h), line_three::<F>(b, h), line_three::<F>(c, h), line_three::<F>(d, h));
    lemma_sum_four_congruent::<F, C>(comb, bind_top(a, 2), bind_top(b, 2), bind_top(c, 2), bind_top(d, 2), l2a, l2b, l2c, l2d, h);
    lemma_sum_four_congruent::<F, C>(comb, bind_top(a, 3), bind_top(b, 3), bind_top(c, 3), bind_top(d, 3), l3a, l3b, l3c, l3d, h);
    lemma_cong_sym::<F>(poly_eval(poly, 2), e2);
    lemma_cong_sym::<F>(poly_eval(poly, 3), e3);
    lemma_cong_sym::<F>(e2, sum_four::<F, C>(comb, l2a, l2b, l2c, l2d, h));
    lemma_cong_sym::<F>(e3, sum_four::<F, C>(comb, l3a, l3b, l3c, l3d, h));
    lemma_cong_trans::<F>(line_sum::<F, C>(comb, a, b, c, d, h, 2), sum_four::<F, C>(comb, l2a, l2b, l2c, l2d, h), e2);
    lemma_cong_trans::<F>(line_sum::<F, C>(comb, a, b, c, d, h, 2), e2, poly_eval(poly, 2));
    lemma_cong_trans::<F>(line_sum::<F, C>(comb, a, b, c, d, h, 3), sum_four::<F, C>(comb, l3a, l3b, l3c, l3d, h), e3);
    lemma_cong_trans::<F>(line_sum::<F, C>(comb, a, b, c, d, h, 3), e3, poly_eval(poly, 3));
    assert forall|k: int| 0 <= k < 4 implies congruent::<F>(
        #[trigger] line_sum::<F, C>(comb, a, b, c, d, h, k),
        poly_eval(poly, k),
    ) by {
        if k == 1 {
            lemma_cong_sym::<F>(poly_eval(poly, 1), line_sum::<F, C>(comb, a, b, c, d, h, 1));
        }
    }
    lemma_line_sum_agrees::<F, C>(comb, a, b, c, d, h, poly, x);
    lemma_cong_sym::<F>(line_sum::<F, C>(comb, a, b, c, d, h, x as int), poly_eval(poly, x as int));
}

/// A product-minus-term combination sums to `pmt`.
pub proof fn lemma_sum_four_pmt<F: PrimeField, C: CombineFour<F>>(
    comb: C,
    a: Seq<int>,
    b: Seq<int>,
    c: Seq<int>,
    d: Seq<int>,
    n: nat,
)
    requires
        is_product_minus_term::<F, C>(comb),
    ensures
        sum_four::<F, C>(comb, a, b, c, d, n) == pmt(a, b, c, d, n),
    decreases n,
{
    if n > 0 {
        lemma_sum_four_pmt::<F, C>(comb, a, b, c, d, (n - 1) as nat);
        assert(comb.combine_spec(a[n - 1], b[n - 1], c[n - 1], d[n - 1]) == a[n - 1] * (b[n - 1] * c[n - 1] - d[n - 1]));
    }
}

/// The state of one table over the rounds: well formed, bound to the challenges
/// drawn so far.
pub open spec fn bound_to<F: PrimeField>(
    t: MultilinearPolynomial<F>,
    t0: MultilinearPolynomial<F>,
    rs: Seq<int>,
) -> bool {
    &&& t.wf()
    &&& t.num_vars == t0.num_vars - rs.len()
    &&& seq_congruent::<F>(vals(t.z@), bind_all(vals(t0.z@), rs))
}

/// One more bound variable for a table in the state above.
pub proof fn lemma_bound_to_push<F: PrimeField>(
    t_old: MultilinearPolynomial<F>,
    t: MultilinearPolynomial<F>,
    t0: MultilinearPolynomial<F>,
    rs: Seq<int>,
    x: int,
)
    requires
        bound_to::<F>(t_old, t0, rs),
        t.wf(),
        t.num_vars == t_old.num_vars - 1,
        seq_congruent::<F>(vals(t.z@), bind_top(vals(t_old.z@), x)),
    ensures
        bound_to::<F>(t, t0, rs.push(x)),
{
    lemma_bind_all_push::<F>(vals(t_old.z@), vals(t0.z@), rs, x);
    lemma_seq_congruent_trans::<F>(vals(t.z@), bind_top(vals(t_old.z@), x), bind_all(vals(t0.z@), rs.push(x)));
}

/// A table before any round is bound to no challenge.
pub proof fn lemma_bound_to_start<F: PrimeField>(t: MultilinearPolynomial<F>)
    requires
        t.wf(),
    ensures
        bound_to::<F>(t, t, Seq::<int>::empty()),
{
    assert forall|i: int| 0 <= i < vals(t.z@).len() implies congruent::<F>(
        #[trigger] vals(t.z@)[i],
        bind_all(vals(t.z@), Seq::<int>::empty())[i],
    ) by {
        lemma_cong_refl::<F>(vals(t.z@)[i]);
    }
}

impl<F: PrimeField> SumcheckProof<F> {
    /// Proves `claim == sum_x comb(A(x), B(x), C(x), D(x))` over `num_rounds`
    /// rounds of degree three, binding the tables to the challenges as it goes.
    /// Returns the proof, the challenges, and the tables' first entries.
    #[verifier::spinoff_prover]
    pub fn prove_cubic_with_additive_term<C: CombineFour<F>, T: TranscriptEngine<F>>(
        claim: &F,
        num_rounds: usize,
        poly_a: &mut MultilinearPolynomial<F>,
        poly_b: &mut MultilinearPolynomial<F>,
        poly_c: &mut MultilinearPolynomial<F>,
        poly_d: &mut MultilinearPolynomial<F>,
        comb_func: C,
        transcript: &mut Transcript<F, T>,
    ) -> (res: Result<(Self, Vec<F>, Vec<F>), NovaError>)
        requires
            old(poly_a).wf(),
            old(poly_b).wf(),
            old(poly_c).wf(),
            old(poly_d).wf(),
            num_rounds <= old(poly_a).num_vars,
            num_rounds > 0 ==> old(poly_a).num_vars <= old(poly_b).num_vars,
            num_rounds > 0 ==> old(poly_a).num_vars <= old(poly_c).num_vars,
            num_rounds > 0 ==> old(poly_a).num_vars <= old(poly_d).num_vars,
            num_rounds > 0 ==> F::modulus() > 3,
        ensures
            final(poly_a).wf(),
            final(poly_b).wf(),
            final(poly_c).wf(),
            final(poly_d).wf(),
            res matches Ok((proof, r, evals)) ==> {
                &&& proof.well_formed()
                &&& proof.shape_ok(num_rounds as nat, 3)
                &&& r@.len() == num_rounds
                &&& bound_to::<F>(*final(poly_a), *old(poly_a), vals(r@))
                &&& bound_to::<F>(*final(poly_b), *old(poly_b), vals(r@))
                &&& bound_to::<F>(*final(poly_c), *old(poly_c), vals(r@))
                &&& bound_to::<F>(*final(poly_d), *old(poly_d), vals(r@))
                &&& evals@ == seq![
                    final(poly_a).z@[0],
                    final(poly_b).z@[0],
                    final(poly_c).z@[0],
                    final(poly_d).z@[0],
                ]
                // completeness: a true claim reduces to a true claim about the
                // bound tables
                &&& (is_product_minus_term::<F, C>(comb_func)
                    && old(poly_a).num_vars == old(poly_b).num_vars
                    && old(poly_a).num_vars == old(poly_c).num_vars
                    && old(poly_a).num_vars == old(poly_d).num_vars
                    && congruent::<F>(
                    claim.val() as int,
                    sum_four::<F, C>(
                        comb_func,
                        vals(old(poly_a).z@),
                        vals(old(poly_b).z@),
                        vals(old(poly_c).z@),
                        vals(old(poly_d).z@),
                        old(poly_a).z@.len(),
                    ),
                )) ==> congruent::<F>(
                    final_claim(compressed_vals(proof.compressed_polys@), claim.val() as int, vals(r@)),
                    sum_four::<F, C>(
                        comb_func,
                        vals(final(poly_a).z@),
                        vals(final(poly_b).z@),
                        vals(final(poly_c).z@),
                        vals(final(poly_d).z@),
                        final(poly_a).z@.len(),
                    ),
                )
            },
            res is Err ==> exists|rs: Seq<int>|
                {
                    &&& rs.len() < num_rounds
                    &&& bound_to::<F>(*final(poly_a), *old(poly_a), rs)
                    &&& bound_to::<F>(*final(poly_b), *old(poly_b), rs)
                    &&& bound_to::<F>(*final(poly_c), *old(poly_c), rs)
                    &&& bound_to::<F>(*final(poly_d), *old(poly_d), rs)
                },
            // each round absorbs its polynomial, then draws its challenge
            res matches Ok((proof, r, evals)) ==> final(transcript).log() == old(transcript).log() + rounds_log(
                compressed_vals(proof.compressed_polys@),
                claim.val() as int,
                r@,
            ),
            // the prover fails only by a failed draw
            res matches Err(err) ==> prover_stopped(
                old(transcript).log(),
                final(transcript).log(),
                claim.val() as int,
                num_rounds as nat,
                err,
            ),
            num_rounds == 0 ==> res is Ok,
            // completeness for any combination of degree at most three
            res matches Ok((proof, r, evals)) ==> (is_cubic::<F, C>(comb_func)
                && old(poly_a).num_vars == old(poly_b).num_vars
                && old(poly_a).num_vars == old(poly_c).num_vars
                && old(poly_a).num_vars == old(poly_d).num_vars
                && congruent::<F>(
                claim.val() as int,
                sum_four::<F, C>(
                    comb_func,
                    vals(old(poly_a).z@),
                    vals(old(poly_b).z@),
                    vals(old(poly_c).z@),
                    vals(old(poly_d).z@),
                    old(poly_a).z@.len(),
                ),
            )) ==> congruent::<F>(
                final_claim(compressed_vals(proof.compressed_polys@), claim.val() as int, vals(r@)),
                sum_four::<F, C>(
                    comb_func,
                    vals(final(poly_a).z@),
                    vals(final(poly_b).z@),
                    vals(final(poly_c).z@),
                    vals(final(poly_d).z@),
                    final(poly_a).z@.len(),
                ),
            ),
            // each round's polynomial takes at 0, 2 and 3 the sums of the combination
            // over the tables bound to the earlier challenges, whatever the combination
            res matches Ok((proof, r, evals)) ==> forall|j: int|
                0 <= j < num_rounds ==> #[trigger] cubic_round_ok::<F, C>(
                    comb_func,
                    compressed_vals(proof.compressed_polys@),
                    claim.val() as int,
                    (vals(old(poly_a).z@), vals(old(poly_b).z@), vals(old(poly_c).z@), vals(old(poly_d).z@)),
                    vals(r@).take(j),
                ),
    {
        let ghost log0 = transcript.log();
        let ghost (a0, b0, c0, d0) = (*poly_a, *poly_b, *poly_c, *poly_d);
        let mut r: Vec<F> = Vec::new();
        let mut polys: Vec<CompressedUniPoly<F>> = Vec::new();
        let mut claim_per_round = *claim;
        let mut round: usize = 0;
        let ghost complete_gen = is_cubic::<F, C>(comb_func) && a0.num_vars == b0.num_vars
            && a0.num_vars == c0.num_vars && a0.num_vars == d0.num_vars
            && congruent::<F>(
            claim.val() as int,
            sum_four::<F, C>(comb_func, vals(a0.z@), vals(b0.z@), vals(c0.z@), vals(d0.z@), a0.z@.len()),
        );
        let ghost complete = is_product_minus_term::<F, C>(comb_func) && a0.num_vars == b0.num_vars
            && a0.num_vars == c0.num_vars && a0.num_vars == d0.num_vars
            && congruent::<F>(
            claim.val() as int,
            sum_four::<F, C>(comb_func, vals(a0.z@), vals(b0.z@), vals(c0.z@), vals(d0.z@), a0.z@.len()),
        );
        proof {
            if complete {
                lemma_sum_four_pmt::<F, C>(comb_func, vals(a0.z@), vals(b0.z@), vals(c0.z@), vals(d0.z@), a0.z@.len());
            }
            lemma_cong_refl::<F>(claim.val() as int);
            lemma_bound_to_start::<F>(a0);
            lemma_bound_to_start::<F>(b0);
            lemma_bound_to_start::<F>(c0);
            lemma_bound_to_start::<F>(d0);
            assert(vals(r@) =~= Seq::<int>::empty());
        }
        while round < num_rounds
            invariant
                round <= num_rounds,
                a0 == *old(poly_a),
                b0 == *old(poly_b),
                c0 == *old(poly_c),
                d0 == *old(poly_d),
                num_rounds <= a0.num_vars,
                num_rounds > 0 ==> a0.num_vars <= b0.num_vars,
                num_rounds > 0 ==> a0.num_vars <= c0.num_vars,
                num_rounds > 0 ==> a0.num_vars <= d0.num_vars,
                num_rounds > 0 ==> F::modulus() > 3,
                r@.len() == round,
                polys@.len() == round,
                bound_to::<F>(*poly_a, a0, vals(r@)),
                bound_to::<F>(*poly_b, b0, vals(r@)),
                bound_to::<F>(*poly_c, c0, vals(r@)),
                bound_to::<F>(*poly_d, d0, vals(r@)),
                forall|j: int|
                    0 <= j < round ==> (#[trigger] polys@[j]).coeffs_except_linear_term@.len() == 3,
                congruent::<F>(
                    claim_per_round.val() as int,
                    final_claim(compressed_vals(polys@), claim.val() as int, vals(r@)),
                ),
                complete == (is_product_minus_term::<F, C>(comb_func) && a0.num_vars == b0.num_vars
                    && a0.num_vars == c0.num_vars && a0.num_vars == d0.num_vars
                    && congruent::<F>(
                    claim.val() as int,
                    sum_four::<F, C>(comb_func, vals(a0.z@), vals(b0.z@), vals(c0.z@), vals(d0.z@), a0.z@.len()),
                )),
                complete ==> congruent::<F>(
                    claim_per_round.val() as int,
                    pmt(vals(poly_a.z@), vals(poly_b.z@), vals(poly_c.z@), vals(poly_d.z@), poly_a.z@.len()),
                ),
                complete_gen == (is_cubic::<F, C>(comb_func) && a0.num_vars == b0.num_vars
                    && a0.num_vars == c0.num_vars && a0.num_vars == d0.num_vars
                    && congruent::<F>(
                    claim.val() as int,
                    sum_four::<F, C>(comb_func, vals(a0.z@), vals(b0.z@), vals(c0.z@), vals(d0.z@), a0.z@.len()),
                )),
                complete_gen ==> congruent::<F>(
                    claim_per_round.val() as int,
                    sum_four::<F, C>(
                        comb_func,
                        vals(poly_a.z@),
                        vals(poly_b.z@),
                        vals(poly_c.z@),
                        vals(poly_d.z@),
                        poly_a.z@.len(),
                    ),
                ),
                log0 == old(transcript).log(),
                transcript.log() == log0 + rounds_log(compressed_vals(polys@), claim.val() as int, r@),
                forall|j: int|
                    0 <= j < round ==> #[trigger] cubic_round_ok::<F, C>(
                        comb_func,
                        compressed_vals(polys@),
                        claim.val() as int,
                        (vals(a0.z@), vals(b0.z@), vals(c0.z@), vals(d0.z@)),
                        vals(r@).take(j),
                    ),
            decreases num_rounds - round,
        {
            proof {
                lemma_table_sizes(poly_a.num_vars as nat, poly_b.num_vars as nat);
                lemma_table_sizes(poly_a.num_vars as nat, poly_c.num_vars as nat);
                lemma_table_sizes(poly_a.num_vars as nat, poly_d.num_vars as nat);
            }
            let ghost (ta, tb, tc, td) = (*poly_a, *poly_b, *poly_c, *poly_d);
            let ghost (va, vb, vc, vd) = (vals(ta.z@), vals(tb.z@), vals(tc.z@), vals(td.z@));
            let (eval_point_0, eval_point_2, eval_point_3) =
                Self::compute_eval_points_cubic_with_additive_term(
                poly_a,
                poly_b,
                poly_c,
                poly_d,
                &comb_func,
            );
            let mut evals: Vec<F> = Vec::new();
            evals.push(eval_point_0);
            proof {
                lemma_bound_canonical::<F>(poly_a.z@, vals(a0.z@), vals(r@));
                lemma_bound_canonical::<F>(poly_b.z@, vals(b0.z@), vals(r@));
                lemma_bound_canonical::<F>(poly_c.z@, vals(c0.z@), vals(r@));
                lemma_bound_canonical::<F>(poly_d.z@, vals(d0.z@), vals(r@));
            }
            let diff = field_sub(&claim_per_round, &eval_point_0);
            evals.push(diff);
            evals.push(eval_point_2);
            evals.push(eval_point_3);
            let poly = UniPoly::from_evals(&evals);
            proof {
                // the absorbed polynomial is the one the verifier recovers
                let pv = vals(poly.coeffs@);
                assert(congruent::<F>(poly_eval(pv, 0), evals@[0].val() as int));
                assert(congruent::<F>(poly_eval(pv, 1), evals@[1].val() as int));
                lemma_cong_trans::<F>(poly_eval(pv, 1), diff.val() as int, claim_per_round.val() - eval_point_0.val());
                lemma_cong_add::<F>(
                    poly_eval(pv, 0),
                    eval_point_0.val() as int,
                    poly_eval(pv, 1),
                    claim_per_round.val() - eval_point_0.val(),
                );
                assert(eval_point_0.val() + (claim_per_round.val() - eval_point_0.val()) == claim_per_round.val());
                lemma_vals_canonical::<F>(poly.coeffs@);
                lemma_prover_absorb::<F>(
                    compressed_vals(polys@),
                    claim.val() as int,
                    vals(r@),
                    claim_per_round.val() as int,
                    pv,
                );
            }
            transcript.absorb_poly("p", &poly);
            let r_i = match transcript.squeeze("c") {
                Ok(x) => x,
                Err(e) => {
                    proof {
                        assert(vals(r@).len() < num_rounds);
                        assert forall|j: int| 0 <= j < compressed_vals(polys@).len() implies (#[trigger] compressed_vals(
                            polys@,
                        )[j]).len() >= 1 by {
                            assert(polys@[j].coeffs_except_linear_term@.len() >= 2);
                        }
                        lemma_prover_log_err::<F>(
                            log0,
                            compressed_vals(polys@),
                            claim.val() as int,
                            r@,
                            vals(poly.coeffs@),
                            num_rounds as nat,
                            e,
                        );
                    }
                    return Err(e);
                },
            };
            proof {
                lemma_prover_log_ok::<F>(
                    log0,
                    compressed_vals(polys@),
                    claim.val() as int,
                    r@,
                    vals(poly.coeffs@),
                    r_i,
                );
            }
            let ghost (r_old, polys_old, claim_old) = (r@, polys@, claim_per_round);
            r.push(r_i);
            let compressed = poly.compress();
            polys.push(compressed);
            claim_per_round = poly.evaluate(&r_i);
            bind_both(poly_a, poly_b, &r_i);
            bind_both(poly_c, poly_d, &r_i);
            proof {
                // this round's polynomial takes the round's values; earlier rounds keep theirs
                let pv = vals(poly.coeffs@);
                let t0 = (vals(a0.z@), vals(b0.z@), vals(c0.z@), vals(d0.z@));
                let cvo = compressed_vals(polys_old);
                let cvn = compressed_vals(polys@);
                lemma_compressed_vals_push::<F>(polys_old, compressed);
                crate::spartan::polys::lemma_vals_compress::<F>(poly.coeffs@);
                assert(cvn =~= cvo.push(compress_coeffs(pv)));
                assert(vals(r@) =~= vals(r_old).push(r_i.val() as int));
                assert(vals(r@).take(round as int) =~= vals(r_old));
                assert(congruent::<F>(poly_eval(pv, 0), evals@[0].val() as int));
                assert(congruent::<F>(poly_eval(pv, 2), evals@[2].val() as int));
                assert(congruent::<F>(poly_eval(pv, 3), evals@[3].val() as int));
                let a = reduce_all::<F>(bind_all(t0.0, vals(r_old)));
                let b = reduce_all::<F>(bind_all(t0.1, vals(r_old)));
                let c = reduce_all::<F>(bind_all(t0.2, vals(r_old)));
                let d = reduce_all::<F>(bind_all(t0.3, vals(r_old)));
                let h = a.len() / 2;
                lemma_cong_trans::<F>(poly_eval(pv, 0), eval_point_0.val() as int, sum_four::<F, C>(comb_func, a, b, c, d, h));
                lemma_cong_trans::<F>(
                    poly_eval(pv, 2),
                    eval_point_2.val() as int,
                    sum_four::<F, C>(comb_func, line_two::<F>(a, h), line_two::<F>(b, h), line_two::<F>(c, h), line_two::<F>(d, h), h),
                );
                lemma_cong_trans::<F>(
                    poly_eval(pv, 3),
                    eval_point_3.val() as int,
                    sum_four::<F, C>(
                        comb_func,
                        line_three::<F>(a, h),
                        line_three::<F>(b, h),
                        line_three::<F>(c, h),
                        line_three::<F>(d, h),
                        h,
                    ),
                );
                assert(cubic_round_ok::<F, C>(comb_func, cvn, claim.val() as int, t0, vals(r@).take(round as int)));
                assert forall|j: int| 0 <= j < round + 1 implies #[trigger] cubic_round_ok::<F, C>(
                    comb_func,
                    cvn,
                    claim.val() as int,
                    t0,
                    vals(r@).take(j),
                ) by {
                    if j < round {
                        assert(vals(r@).take(j) =~= vals(r_old).take(j));
                        assert(cvn.take(j) =~= cvo.take(j));
                        assert(cvn[j] == cvo[j]);
                        assert(cubic_round_ok::<F, C>(comb_func, cvo, claim.val() as int, t0, vals(r_old).take(j)));
                    }
                }
            }
            proof {
                let pv = vals(poly.coeffs@);
                let x = r_i.val() as int;
                assert(congruent::<F>(poly_eval(pv, 0), evals@[0].val() as int));
                assert(congruent::<F>(poly_eval(pv, 1), evals@[1].val() as int));
                assert(congruent::<F>(poly_eval(pv, 2), evals@[2].val() as int));
                assert(congruent::<F>(poly_eval(pv, 3), evals@[3].val() as int));
                lemma_cong_trans::<F>(poly_eval(pv, 1), diff.val() as int, claim_old.val() - eval_point_0.val());
                lemma_cong_add::<F>(
                    poly_eval(pv, 0),
                    eval_point_0.val() as int,
                    poly_eval(pv, 1),
                    claim_old.val() - eval_point_0.val(),
                );
                assert(eval_point_0.val() + (claim_old.val() - eval_point_0.val()) == claim_old.val());
                lemma_prover_round::<F>(
                    compressed_vals(polys_old),
                    claim.val() as int,
                    vals(r_old),
                    claim_old.val() as int,
                    pv,
                    x,
                    claim_per_round.val() as int,
                );
                lemma_compressed_vals_push::<F>(polys_old, compressed);
                crate::spartan::polys::lemma_vals_compress::<F>(poly.coeffs@);
                assert(compressed_vals(polys@) =~= compressed_vals(polys_old).push(compress_coeffs(pv)));
                assert(vals(r@) =~= vals(r_old).push(x));
                assert forall|j: int| 0 <= j < round + 1 implies (#[trigger] polys@[j]).coeffs_except_linear_term@.len() == 3 by {
                    if j < round {
                        assert(polys@[j] == polys_old[j]);
                    }
                }
                if complete {
                    let h = (va.len() / 2) as nat;
                    assert(va.len() == 2 * h) by {
                        reveal(pow);
                        assert(pow(2, (poly_a.num_vars + 1) as nat) == 2 * pow(2, poly_a.num_vars as nat));
                    }
                    lemma_sum_four_pmt::<F, C>(comb_func, va, vb, vc, vd, h);
                    lemma_sum_four_pmt::<F, C>(
                        comb_func,
                        line_two::<F>(va, h),
                        line_two::<F>(vb, h),
                        line_two::<F>(vc, h),
                        line_two::<F>(vd, h),
                        h,
                    );
                    lemma_sum_four_pmt::<F, C>(
                        comb_func,
                        line_three::<F>(va, h),
                        line_three::<F>(vb, h),
                        line_three::<F>(vc, h),
                        line_three::<F>(vd, h),
                        h,
                    );
                    lemma_cubic_round::<F>(
                        va,
                        vb,
                        vc,
                        vd,
                        h,
                        claim_old.val() as int,
                        eval_point_0.val() as int,
                        diff.val() as int,
                        eval_point_2.val() as int,
                        eval_point_3.val() as int,
                        pv,
                        x,
                    );
                    let (ba, bb, bc, bd) = (bind_top(va, x), bind_top(vb, x), bind_top(vc, x), bind_top(vd, x));
                    lemma_cong_trans::<F>(claim_per_round.val() as int, poly_eval(pv, x), pmt(ba, bb, bc, bd, h));
                    assert forall|i: int| 0 <= i < h implies congruent::<F>(#[trigger] vals(poly_a.z@)[i], ba[i]) by {}
                    assert forall|i: int| 0 <= i < h implies congruent::<F>(#[trigger] vals(poly_b.z@)[i], bb[i]) by {}
                    assert forall|i: int| 0 <= i < h implies congruent::<F>(#[trigger] vals(poly_c.z@)[i], bc[i]) by {}
                    assert forall|i: int| 0 <= i < h implies congruent::<F>(#[trigger] vals(poly_d.z@)[i], bd[i]) by {}
                    let (na, nb, nc, nd) = (vals(poly_a.z@), vals(poly_b.z@), vals(poly_c.z@), vals(poly_d.z@));
                    lemma_pmt_congruent::<F>(na, nb, nc, nd, ba, bb, bc, bd, h);
                    lemma_cong_sym::<F>(pmt(na, nb, nc, nd, h), pmt(ba, bb, bc, bd, h));
                    lemma_cong_trans::<F>(claim_per_round.val() as int, pmt(ba, bb, bc, bd, h), pmt(na, nb, nc, nd, h));
                }
                if complete_gen {
                    let h = (va.len() / 2) as nat;
                    assert(va.len() == 2 * h) by {
                        reveal(pow);
                        assert(pow(2, (poly_a.num_vars + 1) as nat) == 2 * pow(2, poly_a.num_vars as nat));
                    }
                    lemma_cubic_round_general::<F, C>(
                        comb_func,
                        va,
                        vb,
                        vc,
                        vd,
                        h,
                        claim_old.val() as int,
                        eval_point_0.val() as int,
                        diff.val() as int,
                        eval_point_2.val() as int,
                        eval_point_3.val() as int,
                        pv,
                        r_i.val() as nat,
                    );
                    let (ba, bb, bc, bd) = (bind_top(va, x), bind_top(vb, x), bind_top(vc, x), bind_top(vd, x));
                    lemma_cong_trans::<F>(
                        claim_per_round.val() as int,
                        poly_eval(pv, x),
                        sum_four::<F, C>(comb_func, ba, bb, bc, bd, h),
                    );
                    assert forall|i: int| 0 <= i < h implies congruent::<F>(#[trigger] vals(poly_a.z@)[i], ba[i]) by {}
                    assert forall|i: int| 0 <= i < h implies congruent::<F>(#[trigger] vals(poly_b.z@)[i], bb[i]) by {}
                    assert forall|i: int| 0 <= i < h implies congruent::<F>(#[trigger] vals(poly_c.z@)[i], bc[i]) by {}
                    assert forall|i: int| 0 <= i < h implies congruent::<F>(#[trigger] vals(poly_d.z@)[i], bd[i]) by {}
                    let (na, nb, nc, nd) = (vals(poly_a.z@), vals(poly_b.z@), vals(poly_c.z@), vals(poly_d.z@));
                    lemma_sum_four_congruent::<F, C>(comb_func, na, nb, nc, nd, ba, bb, bc, bd, h);
                    lemma_cong_sym::<F>(
                        sum_four::<F, C>(comb_func, na, nb, nc, nd, h),
                        sum_four::<F, C>(comb_func, ba, bb, bc, bd, h),
                    );
                    lemma_cong_trans::<F>(
                        claim_per_round.val() as int,
                        sum_four::<F, C>(comb_func, ba, bb, bc, bd, h),
                        sum_four::<F, C>(comb_func, na, nb, nc, nd, h),
                    );
                }
                lemma_bound_to_push::<F>(ta, *poly_a, a0, vals(r_old), x);
                lemma_bound_to_push::<F>(tb, *poly_b, b0, vals(r_old), x);
                lemma_bound_to_push::<F>(tc, *poly_c, c0, vals(r_old), x);
                lemma_bound_to_push::<F>(td, *poly_d, d0, vals(r_old), x);
            }
            round = round + 1;
        }
        proof {
            vstd::arithmetic::power::lemma_pow_positive(2, poly_a.num_vars as nat);
            vstd::arithmetic::power::lemma_pow_positive(2, poly_b.num_vars as nat);
            vstd::arithmetic::power::lemma_pow_positive(2, poly_c.num_vars as nat);
            vstd::arithmetic::power::lemma_pow_positive(2, poly_d.num_vars as nat);
        }
        let evals = vec![poly_a.get(0), poly_b.get(0), poly_c.get(0), poly_d.get(0)];
        let proof_out = SumcheckProof { compressed_polys: polys };
        proof {
            if complete_gen {
                let (na, nb, nc, nd) = (vals(poly_a.z@), vals(poly_b.z@), vals(poly_c.z@), vals(poly_d.z@));
                lemma_cong_sym::<F>(
                    claim_per_round.val() as int,
                    final_claim(compressed_vals(polys@), claim.val() as int, vals(r@)),
                );
                lemma_cong_trans::<F>(
                    final_claim(compressed_vals(polys@), claim.val() as int, vals(r@)),
                    claim_per_round.val() as int,
                    sum_four::<F, C>(comb_func, na, nb, nc, nd, poly_a.z@.len()),
                );
            }
            if complete {
                let (na, nb, nc, nd) = (vals(poly_a.z@), vals(poly_b.z@), vals(poly_c.z@), vals(poly_d.z@));
                lemma_sum_four_pmt::<F, C>(comb_func, na, nb, nc, nd, poly_a.z@.len());
                lemma_cong_sym::<F>(
                    claim_per_round.val() as int,
                    final_claim(compressed_vals(polys@), claim.val() as int, vals(r@)),
                );
                lemma_cong_trans::<F>(
                    final_claim(compressed_vals(polys@), claim.val() as int, vals(r@)),
                    claim_per_round.val() as int,
                    pmt(na, nb, nc, nd, poly_a.z@.len()),
                );
            }
        }
        Ok((proof_out, r, evals))
    }
}

/// `sum_{i < k} f(i) * w[i]`.
pub open spec fn wsum(f: spec_fn(int) -> int, w: Seq<int>, k: nat) -> int
    decreases k,
{
    if k == 0 {
        0
    } else {
        wsum(f, w, (k - 1) as nat) + f(k - 1) * w[k - 1]
    }
}

/// Weighted sums of congruent terms are congruent.
pub proof fn lemma_wsum_congruent<F: PrimeField>(f: spec_fn(int) -> int, g: spec_fn(int) -> int, w: Seq<int>, k: nat)
    requires
        forall|i: int| 0 <= i < k ==> congruent::<F>(#[trigger] f(i), g(i)),
    ensures
        congruent::<F>(wsum(f, w, k), wsum(g, w, k)),
    decreases k,
{
    if k == 0 {
        lemma_cong_refl::<F>(0);
    } else {
        lemma_wsum_congruent::<F>(f, g, w, (k - 1) as nat);
        assert(congruent::<F>(f(k - 1), g(k - 1)));
        lemma_cong_refl::<F>(w[k - 1]);
        lemma_cong_mul::<F>(f(k - 1), g(k - 1), w[k - 1], w[k - 1]);
        lemma_cong_add::<F>(wsum(f, w, (k - 1) as nat), wsum(g, w, (k - 1) as nat), f(k - 1) * w[k - 1], g(k - 1) * w[k - 1]);
    }
}

/// A weighted sum of `f0 + x f1 + x^2 f2` splits into weighted sums.
pub proof fn lemma_wsum_quadratic(
    f0: spec_fn(int) -> int,
    f1: spec_fn(int) -> int,
    f2: spec_fn(int) -> int,
    w: Seq<int>,
    x: int,
    k: nat,
)
    ensures
        wsum(|i: int| f0(i) + x * f1(i) + x * x * f2(i), w, k) == wsum(f0, w, k) + x * wsum(f1, w, k) + x
            * x * wsum(f2, w, k),
    decreases k,
{
    if k > 0 {
        let j = k - 1;
        lemma_wsum_quadratic(f0, f1, f2, w, x, (k - 1) as nat);
        let (a, b, c, m) = (f0(j), f1(j), f2(j), w[j]);
        let (s0, s1, s2) = (wsum(f0, w, (k - 1) as nat), wsum(f1, w, (k - 1) as nat), wsum(f2, w, (k - 1) as nat));
        assert((a + x * b + x * x * c) * m == a * m + x * (b * m) + x * x * (c * m)) by (nonlinear_arith);
        assert(x * (s1 + b * m) == x * s1 + x * (b * m)) by (nonlinear_arith);
        assert(x * x * (s2 + c * m) == x * x * s2 + x * x * (c * m)) by (nonlinear_arith);
    }
}

/// Weighted sums add.
pub proof fn lemma_wsum_add(f: spec_fn(int) -> int, g: spec_fn(int) -> int, w: Seq<int>, k: nat)
    ensures
        wsum(|i: int| f(i) + g(i), w, k) == wsum(f, w, k) + wsum(g, w, k),
    decreases k,
{
    if k > 0 {
        lemma_wsum_add(f, g, w, (k - 1) as nat);
        assert((f(k - 1) + g(k - 1)) * w[k - 1] == f(k - 1) * w[k - 1] + g(k - 1) * w[k - 1]) by (nonlinear_arith);
    }
}

/// Weighted sums of equal terms are equal.
pub proof fn lemma_wsum_ext(f: spec_fn(int) -> int, g: spec_fn(int) -> int, w: Seq<int>, k: nat)
    requires
        forall|i: int| 0 <= i < k ==> #[trigger] f(i) == g(i),
    ensures
        wsum(f, w, k) == wsum(g, w, k),
    decreases k,
{
    if k > 0 {
        lemma_wsum_ext(f, g, w, (k - 1) as nat);
        assert(f(k - 1) == g(k - 1));
    }
}

/// `sum_i values[i] * coeffs[i]` in the field.
pub fn weighted_sum<F: PrimeField>(values: &Vec<F>, coeffs: &[F]) -> (r: F)
    requires
        values@.len() == coeffs@.len(),
    ensures
        congruent::<F>(r.val() as int, wsum(|i: int| values@[i].val() as int, vals(coeffs@), values@.len() as nat)),
{
    let ghost f = |i: int| values@[i].val() as int;
    let mut acc = F::zero();
    let mut i: usize = 0;
    proof {
        lemma_cong_refl::<F>(0);
    }
    while i < values.len()
        invariant
            i <= values@.len(),
            values@.len() == coeffs@.len(),
            f == (|i: int| values@[i].val() as int),
            congruent::<F>(acc.val() as int, wsum(f, vals(coeffs@), i as nat)),
        decreases values@.len() - i,
    {
        let ghost prev = acc;
        let t = field_mul(&values[i], &coeffs[i]);
        acc = field_add(&acc, &t);
        proof {
            lemma_cong_add_chain::<F>(
                acc.val() as int,
                prev.val() as int,
                t.val() as int,
                wsum(f, vals(coeffs@), i as nat),
                (values@[i as int].val() * coeffs@[i as int].val()) as int,
            );
        }
        i = i + 1;
    }
    acc
}

/// The challenges of the rounds in which instance `i` of a batch, with `ni` of the
/// `n` rounds, takes part: the last `ni`.
pub open spec fn own_challenges(r: Seq<int>, n: nat, ni: nat) -> Seq<int> {
    if r.len() <= n - ni {
        Seq::<int>::empty()
    } else {
        r.subrange(n - ni, r.len() as int)
    }
}

/// The running claim of one instance of a quadratic batch with `remaining` rounds
/// to go: its scaled claim while it waits, then the sum over its tables of the
/// combination, a polynomial with coefficients `k`.
pub open spec fn inst_claim2<F: PrimeField>(
    k: (int, int, int, int, int, int),
    a: MultilinearPolynomial<F>,
    b: MultilinearPolynomial<F>,
    claim: int,
    remaining: nat,
    ni: nat,
) -> int {
    if remaining > ni {
        pow2((remaining - ni) as nat) * claim
    } else {
        qsum(k, vals(a.z@), vals(b.z@), a.z@.len())
    }
}

/// The coefficients of one instance's round polynomial in a quadratic batch.
pub open spec fn inst_coeffs2<F: PrimeField>(
    k: (int, int, int, int, int, int),
    a: MultilinearPolynomial<F>,
    b: MultilinearPolynomial<F>,
    claim: int,
    remaining: nat,
    ni: nat,
) -> (int, int, int) {
    if remaining > ni {
        (pow2((remaining - ni - 1) as nat) * claim, 0, 0)
    } else {
        let h = a.z@.len() / 2;
        let (va, vb) = (vals(a.z@), vals(b.z@));
        (qsum(k, va, vb, h), qlin_sum(k, va, vb, h, h), qsq_sum(k, va, vb, h, h))
    }
}

/// `2^(k + 1) == 2 * 2^k`.
pub proof fn lemma_pow2_succ(k: nat)
    ensures
        pow2(k + 1) == 2 * pow2(k),
{
    vstd::arithmetic::power2::lemma_pow2_unfold(k + 1);
}

/// One round for one instance of a quadratic batch: its evaluations are the
/// values at `0` and `2` of its round polynomial, its running claim is the sum of
/// the values at `0` and `1`, and its next running claim is the value at the
/// challenge.
pub proof fn lemma_batch_quad_instance<F: PrimeField>(
    k: (int, int, int, int, int, int),
    a: MultilinearPolynomial<F>,
    b: MultilinearPolynomial<F>,
    a2: MultilinearPolynomial<F>,
    b2: MultilinearPolynomial<F>,
    claim: int,
    remaining: nat,
    ni: nat,
    ev0: int,
    ev2: int,
    x: int,
)
    requires
        remaining >= 1,
        remaining <= ni ==> {
            &&& a.wf() && b.wf() && a.num_vars == remaining && b.num_vars == remaining
            &&& congruent::<F>(ev0, qsum(k, vals(a.z@), vals(b.z@), a.z@.len() / 2))
            &&& congruent::<F>(
                ev2,
                qsum(k, line_two::<F>(vals(a.z@), a.z@.len() / 2), line_two::<F>(vals(b.z@), a.z@.len() / 2), a.z@.len() / 2),
            )
            &&& a2.wf() && b2.wf() && a2.num_vars == remaining - 1 && b2.num_vars == remaining - 1
            &&& seq_congruent::<F>(vals(a2.z@), bind_top(vals(a.z@), x))
            &&& seq_congruent::<F>(vals(b2.z@), bind_top(vals(b.z@), x))
        },
        remaining > ni ==> {
            &&& congruent::<F>(ev0, pow2((remaining - ni - 1) as nat) * claim)
            &&& congruent::<F>(ev2, pow2((remaining - ni - 1) as nat) * claim)
            &&& a2 == a && b2 == b
            &&& remaining - 1 == ni ==> congruent::<F>(claim, qsum(k, vals(a.z@), vals(b.z@), a.z@.len()))
        },
    ensures
        inst_round_ok2::<F>(k, a, b, a2, b2, claim, remaining, ni, ev0, ev2, x),
{
    let c = inst_coeffs2::<F>(k, a, b, claim, remaining, ni);
    if remaining <= ni {
        let (va, vb) = (vals(a.z@), vals(b.z@));
        let h = (a.z@.len() / 2) as nat;
        assert(a.z@.len() == 2 * h && b.z@.len() == 2 * h) by {
            reveal(pow);
            assert(pow(2, remaining) == 2 * pow(2, (remaining - 1) as nat));
        }
        lemma_qsum_line(k, va, vb, h, 1, h);
        lemma_qsum_line(k, va, vb, h, 2, h);
        lemma_qsum_line(k, va, vb, h, x, h);
        let (s0, s1, s2) = (c.0, c.1, c.2);
        assert(1 * s1 == s1 && 1 * 1 * s2 == s2) by (nonlinear_arith);
        assert(2 * 2 * s2 == 4 * s2) by (nonlinear_arith);
        // at 2
        lemma_line_points::<F>(va, h);
        lemma_line_points::<F>(vb, h);
        lemma_qsum_congruent::<F>(k, bind_top(va, 2), bind_top(vb, 2), line_two::<F>(va, h), line_two::<F>(vb, h), h);
        lemma_cong_sym::<F>(qsum(k, bind_top(va, 2), bind_top(vb, 2), h), qsum(k, line_two::<F>(va, h), line_two::<F>(vb, h), h));
        lemma_cong_trans::<F>(ev2, qsum(k, line_two::<F>(va, h), line_two::<F>(vb, h), h), qsum(k, bind_top(va, 2), bind_top(vb, 2), h));
        // running claim: the lower and the upper half
        lemma_qsum_split(k, va, vb, h, h);
        lemma_qsum_at_one(k, va, vb, h, h);
        // next claim: the bound tables
        assert(a2.z@.len() == h && b2.z@.len() == h) by {
            reveal(pow);
        }
        assert forall|i: int| 0 <= i < h implies congruent::<F>(#[trigger] vals(a2.z@)[i], bind_top(va, x)[i]) by {}
        assert forall|i: int| 0 <= i < h implies congruent::<F>(#[trigger] vals(b2.z@)[i], bind_top(vb, x)[i]) by {}
        lemma_qsum_congruent::<F>(k, vals(a2.z@), vals(b2.z@), bind_top(va, x), bind_top(vb, x), h);
    } else {
        let kk = (remaining - ni - 1) as nat;
        lemma_pow2_succ(kk);
        assert((remaining - ni) as nat == kk + 1);
        assert(pow2(kk + 1) * claim == 2 * (pow2(kk) * claim)) by (nonlinear_arith)
            requires
                pow2(kk + 1) == 2 * pow2(kk),
        ;
        assert(c.0 + 2 * c.1 + 4 * c.2 == c.0);
        assert(c.0 + x * c.1 + x * x * c.2 == c.0) by (nonlinear_arith)
            requires
                c.1 == 0,
                c.2 == 0,
        ;
        if remaining - 1 == ni {
            assert(kk == 0);
            assert(pow2(0) == 1) by {
                vstd::arithmetic::power2::lemma2_to64();
            }
            let pz = pow2(kk) as int;
            assert(pz * claim == claim) by (nonlinear_arith)
                requires
                    pz == 1,
            ;
            lemma_cong_sym::<F>(claim, qsum(k, vals(a.z@), vals(b.z@), a.z@.len()));
        } else {
            assert(((remaining - 1) - ni) as nat == kk);
            lemma_cong_refl::<F>(c.0);
        }
    }
}

/// What one round establishes for one instance of a quadratic batch (see
/// `lemma_batch_quad_instance`).
pub open spec fn inst_round_ok2<F: PrimeField>(
    k: (int, int, int, int, int, int),
    a: MultilinearPolynomial<F>,
    b: MultilinearPolynomial<F>,
    a2: MultilinearPolynomial<F>,
    b2: MultilinearPolynomial<F>,
    claim: int,
    remaining: nat,
    ni: nat,
    ev0: int,
    ev2: int,
    x: int,
) -> bool {
    let c = inst_coeffs2::<F>(k, a, b, claim, remaining, ni);
    &&& congruent::<F>(ev0, c.0)
    &&& congruent::<F>(ev2, c.0 + 2 * c.1 + 4 * c.2)
    &&& inst_claim2::<F>(k, a, b, claim, remaining, ni) == 2 * c.0 + c.1 + c.2
    &&& congruent::<F>(inst_claim2::<F>(k, a2, b2, claim, (remaining - 1) as nat, ni), c.0 + x * c.1 + x * x * c.2)
}

/// One round of a quadratic batch is complete: the combined round polynomial,
/// interpolated from the combined evaluations, takes at the challenge the
/// combination of the instances' next running claims.
pub proof fn lemma_batch_quad_round<F: PrimeField>(
    k: (int, int, int, int, int, int),
    a: Seq<MultilinearPolynomial<F>>,
    b: Seq<MultilinearPolynomial<F>>,
    a2: Seq<MultilinearPolynomial<F>>,
    b2: Seq<MultilinearPolynomial<F>>,
    claims: Seq<int>,
    rounds: Seq<usize>,
    w: Seq<int>,
    count: nat,
    remaining: nat,
    ev0: Seq<int>,
    ev2: Seq<int>,
    e: int,
    big_e0: int,
    diff: int,
    big_e2: int,
    pv: Seq<int>,
    x: int,
)
    requires
        F::modulus() > 3,
        remaining >= 1,
        forall|i: int|
            0 <= i < count ==> #[trigger] inst_round_ok2::<F>(k, 
                a[i],
                b[i],
                a2[i],
                b2[i],
                claims[i],
                remaining,
                rounds[i] as nat,
                ev0[i],
                ev2[i],
                x,
            ),
        congruent::<F>(e, wsum(|i: int| inst_claim2::<F>(k, a[i], b[i], claims[i], remaining, rounds[i] as nat), w, count)),
        congruent::<F>(big_e0, wsum(|i: int| ev0[i], w, count)),
        congruent::<F>(big_e2, wsum(|i: int| ev2[i], w, count)),
        congruent::<F>(diff, e - big_e0),
        pv.len() == 3,
        congruent::<F>(poly_eval(pv, 0), big_e0),
        congruent::<F>(poly_eval(pv, 1), diff),
        congruent::<F>(poly_eval(pv, 2), big_e2),
    ensures
        congruent::<F>(
            poly_eval(pv, x),
            wsum(|i: int| inst_claim2::<F>(k, a2[i], b2[i], claims[i], (remaining - 1) as nat, rounds[i] as nat), w, count),
        ),
{
    let f0 = |i: int| inst_coeffs2::<F>(k, a[i], b[i], claims[i], remaining, rounds[i] as nat).0;
    let f1 = |i: int| inst_coeffs2::<F>(k, a[i], b[i], claims[i], remaining, rounds[i] as nat).1;
    let f2 = |i: int| inst_coeffs2::<F>(k, a[i], b[i], claims[i], remaining, rounds[i] as nat).2;
    let run = |i: int| inst_claim2::<F>(k, a[i], b[i], claims[i], remaining, rounds[i] as nat);
    let next = |i: int| inst_claim2::<F>(k, a2[i], b2[i], claims[i], (remaining - 1) as nat, rounds[i] as nat);
    let (s0, s1, s2) = (wsum(f0, w, count), wsum(f1, w, count), wsum(f2, w, count));
    let at1 = |i: int| f0(i) + 1 * f1(i) + 1 * 1 * f2(i);
    let at2 = |i: int| f0(i) + 2 * f1(i) + 2 * 2 * f2(i);
    let atx = |i: int| f0(i) + x * f1(i) + x * x * f2(i);
    assert forall|i: int| 0 <= i < count implies congruent::<F>(#[trigger] ev0[i], f0(i)) by {
        assert(inst_round_ok2::<F>(k, a[i], b[i], a2[i], b2[i], claims[i], remaining, rounds[i] as nat, ev0[i], ev2[i], x));
    }
    assert forall|i: int| 0 <= i < count implies congruent::<F>(#[trigger] ev2[i], at2(i)) by {
        assert(inst_round_ok2::<F>(k, a[i], b[i], a2[i], b2[i], claims[i], remaining, rounds[i] as nat, ev0[i], ev2[i], x));
        assert(2 * 2 * f2(i) == 4 * f2(i));
    }
    assert forall|i: int| 0 <= i < count implies #[trigger] run(i) == f0(i) + at1(i) by {
        assert(inst_round_ok2::<F>(k, a[i], b[i], a2[i], b2[i], claims[i], remaining, rounds[i] as nat, ev0[i], ev2[i], x));
        assert(1 * f1(i) == f1(i) && 1 * 1 * f2(i) == f2(i)) by (nonlinear_arith);
    }
    assert forall|i: int| 0 <= i < count implies congruent::<F>(#[trigger] next(i), atx(i)) by {
        assert(inst_round_ok2::<F>(k, a[i], b[i], a2[i], b2[i], claims[i], remaining, rounds[i] as nat, ev0[i], ev2[i], x));
    }
    lemma_wsum_congruent::<F>(|i: int| ev0[i], f0, w, count);
    lemma_wsum_congruent::<F>(|i: int| ev2[i], at2, w, count);
    lemma_wsum_congruent::<F>(next, atx, w, count);
    lemma_wsum_quadratic(f0, f1, f2, w, 1, count);
    lemma_wsum_quadratic(f0, f1, f2, w, 2, count);
    lemma_wsum_quadratic(f0, f1, f2, w, x, count);
    lemma_wsum_ext(run, |i: int| f0(i) + at1(i), w, count);
    lemma_wsum_add(f0, at1, w, count);
    assert(1 * s1 == s1 && 1 * 1 * s2 == s2) by (nonlinear_arith);
    assert(2 * 2 * s2 == 4 * s2) by (nonlinear_arith);
    // the values at 0, 1, 2
    lemma_cong_trans::<F>(poly_eval(pv, 0), big_e0, wsum(|i: int| ev0[i], w, count));
    lemma_cong_trans::<F>(poly_eval(pv, 0), wsum(|i: int| ev0[i], w, count), s0);
    lemma_cong_trans::<F>(big_e0, wsum(|i: int| ev0[i], w, count), s0);
    lemma_cong_sub::<F>(e, wsum(run, w, count), big_e0, s0);
    lemma_cong_trans::<F>(diff, e - big_e0, wsum(run, w, count) - s0);
    lemma_cong_trans::<F>(poly_eval(pv, 1), diff, wsum(run, w, count) - s0);
    lemma_cong_trans::<F>(poly_eval(pv, 2), big_e2, wsum(|i: int| ev2[i], w, count));
    lemma_cong_trans::<F>(poly_eval(pv, 2), wsum(|i: int| ev2[i], w, count), wsum(at2, w, count));
    lemma_quadratic_unique::<F>(pv, s0, s1, s2, x);
    assert(s0 + x * s1 + (x * x) * s2 == s0 + x * s1 + x * x * s2) by (nonlinear_arith);
    lemma_cong_sym::<F>(wsum(next, w, count), wsum(atx, w, count));
    lemma_cong_trans::<F>(poly_eval(pv, x), wsum(atx, w, count), wsum(next, w, count));
}

/// An instance has taken part in the rounds after the first `n - ni`.
pub proof fn lemma_own_challenges_len(r: Seq<int>, n: nat, ni: nat)
    requires
        ni <= n,
        r.len() <= n,
    ensures
        own_challenges(r, n, ni).len() == (if r.len() <= n - ni { 0 } else { r.len() - (n - ni) }),
{
}

/// Appending a challenge extends the challenges of the instances taking part.
pub proof fn lemma_own_challenges_push(r: Seq<int>, n: nat, ni: nat, x: int)
    requires
        ni <= n,
        r.len() < n,
    ensures
        r.len() >= n - ni ==> own_challenges(r.push(x), n, ni) == own_challenges(r, n, ni).push(x),
        r.len() < n - ni ==> own_challenges(r.push(x), n, ni) == Seq::<int>::empty(),
{
    if r.len() >= n - ni {
        assert(own_challenges(r.push(x), n, ni) =~= own_challenges(r, n, ni).push(x));
    }
}

/// Binds the top variable of the `i`-th tables of both vectors to `r`.
fn bind_pair_in<F: PrimeField>(
    avec: &mut Vec<MultilinearPolynomial<F>>,
    bvec: &mut Vec<MultilinearPolynomial<F>>,
    i: usize,
    r: &F,
)
    requires
        i < old(avec)@.len(),
        i < old(bvec)@.len(),
        old(avec)@[i as int].wf(),
        old(avec)@[i as int].num_vars > 0,
        old(bvec)@[i as int].wf(),
        old(bvec)@[i as int].num_vars > 0,
    ensures
        final(avec)@.len() == old(avec)@.len(),
        final(bvec)@.len() == old(bvec)@.len(),
        forall|j: int| 0 <= j < old(avec)@.len() && j != i ==> final(avec)@[j] == old(avec)@[j],
        forall|j: int| 0 <= j < old(bvec)@.len() && j != i ==> final(bvec)@[j] == old(bvec)@[j],
        final(avec)@[i as int].wf(),
        final(avec)@[i as int].num_vars == old(avec)@[i as int].num_vars - 1,
        seq_congruent::<F>(vals(final(avec)@[i as int].z@), bind_top(vals(old(avec)@[i as int].z@), r.val() as int)),
        final(bvec)@[i as int].wf(),
        final(bvec)@[i as int].num_vars == old(bvec)@[i as int].num_vars - 1,
        seq_congruent::<F>(vals(final(bvec)@[i as int].z@), bind_top(vals(old(bvec)@[i as int].z@), r.val() as int)),
{
    let mut pa = MultilinearPolynomial { num_vars: 0, z: Vec::new() };
    let mut pb = MultilinearPolynomial { num_vars: 0, z: Vec::new() };
    avec.set_and_swap(i, &mut pa);
    bvec.set_and_swap(i, &mut pb);
    bind_both(&mut pa, &mut pb, r);
    avec.set_and_swap(i, &mut pa);
    bvec.set_and_swap(i, &mut pb);
}

/// Binds the tables of the instances taking part in a round with `remaining`
/// rounds to go.
#[verifier::spinoff_prover]
fn bind_active<F: PrimeField>(
    avec: &mut Vec<MultilinearPolynomial<F>>,
    bvec: &mut Vec<MultilinearPolynomial<F>>,
    num_rounds: &[usize],
    remaining: usize,
    r: &F,
)
    requires
        old(avec)@.len() == num_rounds@.len(),
        old(bvec)@.len() == num_rounds@.len(),
        forall|i: int|
            0 <= i < num_rounds@.len() && remaining <= num_rounds@[i] ==> {
                &&& (#[trigger] old(avec)@[i]).wf()
                &&& old(avec)@[i].num_vars > 0
                &&& old(bvec)@[i].wf()
                &&& old(bvec)@[i].num_vars > 0
            },
    ensures
        final(avec)@.len() == num_rounds@.len(),
        final(bvec)@.len() == num_rounds@.len(),
        forall|i: int|
            0 <= i < num_rounds@.len() && remaining <= num_rounds@[i] ==> {
                &&& (#[trigger] final(avec)@[i]).wf()
                &&& final(avec)@[i].num_vars == old(avec)@[i].num_vars - 1
                &&& seq_congruent::<F>(vals(final(avec)@[i].z@), bind_top(vals(old(avec)@[i].z@), r.val() as int))
                &&& final(bvec)@[i].wf()
                &&& final(bvec)@[i].num_vars == old(bvec)@[i].num_vars - 1
                &&& seq_congruent::<F>(vals(final(bvec)@[i].z@), bind_top(vals(old(bvec)@[i].z@), r.val() as int))
            },
        forall|i: int|
            0 <= i < num_rounds@.len() && remaining > num_rounds@[i] ==> final(avec)@[i] == old(avec)@[i]
                && final(bvec)@[i] == old(bvec)@[i],
{
    let ghost (a0, b0) = (avec@, bvec@);
    let mut i: usize = 0;
    while i < num_rounds.len()
        invariant
            i <= num_rounds@.len(),
            a0.len() == num_rounds@.len(),
            b0.len() == num_rounds@.len(),
            avec@.len() == num_rounds@.len(),
            bvec@.len() == num_rounds@.len(),
            forall|j: int|
                0 <= j < num_rounds@.len() && remaining <= num_rounds@[j] ==> {
                    &&& (#[trigger] a0[j]).wf()
                    &&& a0[j].num_vars > 0
                    &&& b0[j].wf()
                    &&& b0[j].num_vars > 0
                },
            forall|j: int|
                0 <= j < num_rounds@.len() ==> {
                    &&& (j < i && remaining <= num_rounds@[j]) ==> bound_once::<F>(
                        a0[j],
                        #[trigger] avec@[j],
                        a0[j].num_vars as nat,
                        r.val() as int,
                    ) && bound_once::<F>(b0[j], bvec@[j], b0[j].num_vars as nat, r.val() as int)
                    &&& !(j < i && remaining <= num_rounds@[j]) ==> avec@[j] == a0[j] && bvec@[j] == b0[j]
                },
        decreases num_rounds@.len() - i,
    {
        let ghost (pa, pb) = (avec@, bvec@);
        proof {
            assert(pa[i as int] == a0[i as int] && pb[i as int] == b0[i as int]);
        }
        if remaining <= num_rounds[i] {
            proof {
                assert(a0[i as int].wf());
            }
            bind_pair_in(avec, bvec, i, r);
        }
        proof {
            assert forall|j: int| 0 <= j < num_rounds@.len() implies {
                &&& (j < i + 1 && remaining <= num_rounds@[j]) ==> bound_once::<F>(
                    a0[j],
                    #[trigger] avec@[j],
                    a0[j].num_vars as nat,
                    r.val() as int,
                ) && bound_once::<F>(b0[j], bvec@[j], b0[j].num_vars as nat, r.val() as int)
                &&& !(j < i + 1 && remaining <= num_rounds@[j]) ==> avec@[j] == a0[j] && bvec@[j] == b0[j]
            } by {
                let _ = pa[j];
                if j != i {
                    assert(avec@[j] == pa[j] && bvec@[j] == pb[j]);
                } else if remaining <= num_rounds@[j] {
                    assert(a0[j].wf());
                }
            }
        }
        i = i + 1;
    }
    proof {
        assert forall|j: int| 0 <= j < num_rounds@.len() && remaining <= num_rounds@[j] implies {
            &&& (#[trigger] avec@[j]).wf()
            &&& avec@[j].num_vars == a0[j].num_vars - 1
            &&& seq_congruent::<F>(vals(avec@[j].z@), bind_top(vals(a0[j].z@), r.val() as int))
            &&& bvec@[j].wf()
            &&& bvec@[j].num_vars == b0[j].num_vars - 1
            &&& seq_congruent::<F>(vals(bvec@[j].z@), bind_top(vals(b0[j].z@), r.val() as int))
        } by {
            assert(a0[j].wf());
        }
        assert forall|j: int| 0 <= j < num_rounds@.len() && remaining > num_rounds@[j] implies (#[trigger] avec@[j]) == a0[j]
            && bvec@[j] == b0[j] by {}
    }
}

/// The evaluations of each instance of a quadratic batch in a round with
/// `remaining` rounds to go: those of its tables while it takes part, its claim
/// scaled for the rounds still to wait before.
#[verifier::spinoff_prover]
fn batch_eval_points_quad<F: PrimeField, C: CombineTwo<F>>(
    claims: &[F],
    num_rounds: &[usize],
    avec: &Vec<MultilinearPolynomial<F>>,
    bvec: &Vec<MultilinearPolynomial<F>>,
    comb_func: &C,
    remaining: usize,
) -> (r: (Vec<F>, Vec<F>))
    requires
        num_rounds@.len() == claims@.len(),
        avec@.len() == claims@.len(),
        bvec@.len() == claims@.len(),
        forall|i: int|
            0 <= i < claims@.len() && remaining <= num_rounds@[i] ==> (#[trigger] avec@[i]).z@.len() / 2 * 2
                <= bvec@[i].z@.len(),
        forall|i: int| 0 <= i < claims@.len() && remaining > num_rounds@[i] ==> remaining - #[trigger] num_rounds@[i] - 1 < 64,
    ensures
        r.0@.len() == claims@.len(),
        r.1@.len() == claims@.len(),
        forall|i: int|
            0 <= i < claims@.len() && remaining <= num_rounds@[i] ==> {
                let h = avec@[i].z@.len() / 2;
                let (va, vb) = (vals(avec@[i].z@), vals(bvec@[i].z@));
                &&& congruent::<F>((#[trigger] r.0@[i]).val() as int, sum_two::<F, C>(*comb_func, va, vb, h))
                &&& congruent::<F>(
                    r.1@[i].val() as int,
                    sum_two::<F, C>(*comb_func, line_two::<F>(va, h), line_two::<F>(vb, h), h),
                )
            },
        forall|i: int|
            0 <= i < claims@.len() && remaining > num_rounds@[i] ==> {
                let s = (pow2((remaining - num_rounds@[i] - 1) as nat) * claims@[i].val()) as int;
                &&& congruent::<F>((#[trigger] r.0@[i]).val() as int, s)
                &&& congruent::<F>(r.1@[i].val() as int, s)
            },
{
    let mut ev0: Vec<F> = Vec::new();
    let mut ev2: Vec<F> = Vec::new();
    let mut i: usize = 0;
    while i < claims.len()
        invariant
            i <= claims@.len(),
            num_rounds@.len() == claims@.len(),
            avec@.len() == claims@.len(),
            bvec@.len() == claims@.len(),
            forall|j: int|
                0 <= j < claims@.len() && remaining <= num_rounds@[j] ==> (#[trigger] avec@[j]).z@.len() / 2 * 2
                    <= bvec@[j].z@.len(),
            forall|j: int| 0 <= j < claims@.len() && remaining > num_rounds@[j] ==> remaining - #[trigger] num_rounds@[j] - 1 < 64,
            ev0@.len() == i,
            ev2@.len() == i,
            forall|j: int|
                0 <= j < i && remaining <= num_rounds@[j] ==> {
                    let h = avec@[j].z@.len() / 2;
                    let (va, vb) = (vals(avec@[j].z@), vals(bvec@[j].z@));
                    &&& congruent::<F>((#[trigger] ev0@[j]).val() as int, sum_two::<F, C>(*comb_func, va, vb, h))
                    &&& congruent::<F>(
                        ev2@[j].val() as int,
                        sum_two::<F, C>(*comb_func, line_two::<F>(va, h), line_two::<F>(vb, h), h),
                    )
                },
            forall|j: int|
                0 <= j < i && remaining > num_rounds@[j] ==> {
                    let s = (pow2((remaining - num_rounds@[j] - 1) as nat) * claims@[j].val()) as int;
                    &&& congruent::<F>((#[trigger] ev0@[j]).val() as int, s)
                    &&& congruent::<F>(ev2@[j].val() as int, s)
                },
        decreases claims@.len() - i,
    {
        if remaining <= num_rounds[i] {
            let (p0, p2) = SumcheckProof::<F>::compute_eval_points_quad(&avec[i], &bvec[i], comb_func);
            ev0.push(p0);
            ev2.push(p2);
        } else {
            let remaining_variables = remaining - num_rounds[i] - 1;
            let factor = F::from_u64(power_of_two(remaining_variables));
            let scaled_claim = field_mul(&factor, &claims[i]);
            proof {
                let kk = pow2(remaining_variables as nat) as int;
                let cv = claims@[i as int].val() as int;
                lemma_cong_mod::<F>(kk);
                lemma_cong_refl::<F>(cv);
                lemma_cong_sym::<F>(factor.val() as int, kk);
                lemma_cong_mul::<F>(factor.val() as int, kk, cv, cv);
                lemma_cong_trans::<F>(scaled_claim.val() as int, factor.val() * cv, kk * cv);
            }
            ev0.push(scaled_claim);
            ev2.push(scaled_claim);
        }
        i = i + 1;
    }
    (ev0, ev2)
}

/// The combined claim of a batch as a weighted sum.
pub proof fn lemma_batch_claim_wsum(claims: Seq<int>, rounds: Seq<usize>, coeffs: Seq<int>, n: nat, k: nat)
    ensures
        batch_claim(claims, rounds, coeffs, n, k) == wsum(
            |i: int| pow2((n - rounds[i]) as nat) * claims[i],
            coeffs,
            k,
        ),
    decreases k,
{
    if k > 0 {
        lemma_batch_claim_wsum(claims, rounds, coeffs, n, (k - 1) as nat);
    }
}

/// Every table of a batch is bound to the challenges of its instance's rounds.
pub open spec fn batch_bound<F: PrimeField>(
    t: Seq<MultilinearPolynomial<F>>,
    t0: Seq<MultilinearPolynomial<F>>,
    r: Seq<int>,
    n: nat,
    rounds: Seq<usize>,
) -> bool {
    forall|i: int|
        0 <= i < t0.len() ==> bound_to::<F>(#[trigger] t[i], t0[i], own_challenges(r, n, rounds[i] as nat))
}

/// Where an instance of a batch stands after the first `r.len()` rounds.
pub proof fn lemma_batch_table<F: PrimeField>(
    t: MultilinearPolynomial<F>,
    t0: MultilinearPolynomial<F>,
    r: Seq<int>,
    n: nat,
    ni: nat,
)
    requires
        bound_to::<F>(t, t0, own_challenges(r, n, ni)),
        t0.num_vars == ni,
        ni <= n,
        r.len() <= n,
    ensures
        r.len() >= n - ni ==> t.num_vars == n - r.len(),
        r.len() <= n - ni ==> own_challenges(r, n, ni) == Seq::<int>::empty(),
{
    lemma_own_challenges_len(r, n, ni);
}

impl<F: PrimeField> SumcheckProof<F> {
    /// Proves a batch of claims `claims[i] == sum_x comb(A_i(x), B_i(x))` over
    /// `num_rounds[i]` rounds each, combined by `coeffs` into one sum-check over the
    /// largest number of rounds `n`; instance `i` takes part in the last
    /// `num_rounds[i]` rounds. Returns the proof, the challenges, and the
    /// instances' tables at their challenges.
    #[verifier::spinoff_prover]
    pub fn prove_quad_batch<C: CombineTwo<F>, T: TranscriptEngine<F>>(
        claims: &[F],
        num_rounds: &[usize],
        poly_a_vec: Vec<MultilinearPolynomial<F>>,
        poly_b_vec: Vec<MultilinearPolynomial<F>>,
        coeffs: &[F],
        comb_func: C,
        transcript: &mut Transcript<F, T>,
    ) -> (res: Result<(Self, Vec<F>, (Vec<F>, Vec<F>)), NovaError>)
        requires
            claims@.len() > 0,
            num_rounds@.len() == claims@.len(),
            poly_a_vec@.len() == claims@.len(),
            poly_b_vec@.len() == claims@.len(),
            coeffs@.len() == claims@.len(),
            forall|i: int|
                0 <= i < claims@.len() ==> {
                    &&& (#[trigger] poly_a_vec@[i]).wf()
                    &&& poly_a_vec@[i].num_vars == num_rounds@[i]
                    &&& poly_b_vec@[i].wf()
                    &&& poly_b_vec@[i].num_vars == num_rounds@[i]
                },
            forall|i: int| 0 <= i < claims@.len() ==> seq_max(num_rounds@) - #[trigger] num_rounds@[i] < 64,
            seq_max(num_rounds@) > 0 ==> F::modulus() > 3,
            is_quadratic::<F, C>(comb_func),
            forall|i: int|
                0 <= i < claims@.len() ==> congruent::<F>(
                    (#[trigger] claims@[i]).val() as int,
                    sum_two::<F, C>(
                        comb_func,
                        vals(poly_a_vec@[i].z@),
                        vals(poly_b_vec@[i].z@),
                        poly_a_vec@[i].z@.len(),
                    ),
                ),
        ensures
            // no round, no challenge to draw: nothing can fail
            seq_max(num_rounds@) == 0 ==> res is Ok,
            // each round absorbs its polynomial, then draws its challenge
            res matches Ok((proof, r, evals)) ==> final(transcript).log() == old(transcript).log() + rounds_log(
                compressed_vals(proof.compressed_polys@),
                batch_claim(vals(claims@), num_rounds@, vals(coeffs@), seq_max(num_rounds@), claims@.len() as nat),
                r@,
            ),
            // the prover fails only by a failed draw
            res matches Err(err) ==> prover_stopped(
                old(transcript).log(),
                final(transcript).log(),
                batch_claim(vals(claims@), num_rounds@, vals(coeffs@), seq_max(num_rounds@), claims@.len() as nat),
                seq_max(num_rounds@),
                err,
            ),
            // each round's polynomial takes at 0 and 2 the weighted sums of the
            // instances' shares, whatever the combination
            res matches Ok((proof, r, evals)) ==> forall|j: int|
                0 <= j < seq_max(num_rounds@) ==> #[trigger] quad_batch_round_ok::<F, C>(
                    comb_func,
                    compressed_vals(proof.compressed_polys@),
                    batch_claim(vals(claims@), num_rounds@, vals(coeffs@), seq_max(num_rounds@), claims@.len() as nat),
                    poly_a_vec@,
                    poly_b_vec@,
                    vals(claims@),
                    num_rounds@,
                    vals(coeffs@),
                    seq_max(num_rounds@),
                    vals(r@).take(j),
                ),
            res matches Ok((proof, r, evals)) ==> {
                let n = seq_max(num_rounds@);
                let k = claims@.len();
                &&& proof.well_formed()
                &&& proof.shape_ok(n, 2)
                &&& r@.len() == n
                &&& evals.0@.len() == k
                &&& evals.1@.len() == k
                &&& forall|i: int|
                    0 <= i < k ==> {
                        let own = own_challenges(vals(r@), n, num_rounds@[i] as nat);
                        &&& congruent::<F>(
                            (#[trigger] evals.0@[i]).val() as int,
                            bind_all(vals(poly_a_vec@[i].z@), own)[0],
                        )
                        &&& congruent::<F>(evals.1@[i].val() as int, bind_all(vals(poly_b_vec@[i].z@), own)[0])
                    }
                &&& congruent::<F>(
                    final_claim(
                        compressed_vals(proof.compressed_polys@),
                        batch_claim(vals(claims@), num_rounds@, vals(coeffs@), n, k),
                        vals(r@),
                    ),
                    wsum(
                        |i: int| comb_func.combine_spec(evals.0@[i].val() as int, evals.1@[i].val() as int),
                        vals(coeffs@),
                        k,
                    ),
                )
            },
    {
        let ghost log0 = transcript.log();
        let ghost (a0s, b0s) = (poly_a_vec@, poly_b_vec@);
        let ghost (cl, w, rounds) = (vals(claims@), vals(coeffs@), num_rounds@);
        let k = claims.len();
        let ghost kq = choose|kq: (int, int, int, int, int, int)| combines_as::<F, C>(comb_func, kq);
        let n = max_rounds(num_rounds);
        let e_init = combine_claims(claims, num_rounds, coeffs, n);
        let mut e = e_init;
        let mut r: Vec<F> = Vec::new();
        let mut quad_polys: Vec<CompressedUniPoly<F>> = Vec::new();
        let mut avec = poly_a_vec;
        let mut bvec = poly_b_vec;
        let mut current_round: usize = 0;
        proof {
            assert(vals(r@) =~= Seq::<int>::empty());
            assert forall|i: int| 0 <= i < k implies {
                &&& bound_to::<F>(#[trigger] avec@[i], a0s[i], own_challenges(vals(r@), n as nat, rounds[i] as nat))
                &&& bound_to::<F>(bvec@[i], b0s[i], own_challenges(vals(r@), n as nat, rounds[i] as nat))
            } by {
                assert(own_challenges(vals(r@), n as nat, rounds[i] as nat) =~= Seq::<int>::empty());
                lemma_bound_to_start::<F>(a0s[i]);
                lemma_bound_to_start::<F>(b0s[i]);
            }
            assert(batch_bound::<F>(avec@, a0s, vals(r@), n as nat, rounds));
            assert forall|i: int| 0 <= i < k implies bound_to::<F>(#[trigger] bvec@[i], b0s[i], own_challenges(vals(r@), n as nat, rounds[i] as nat)) by {
                assert(bound_to::<F>(avec@[i], a0s[i], own_challenges(vals(r@), n as nat, rounds[i] as nat)));
            }
            assert(batch_bound::<F>(bvec@, b0s, vals(r@), n as nat, rounds));
            lemma_cong_refl::<F>(e_init.val() as int);
            let start = |i: int| inst_claim2::<F>(kq, avec@[i], bvec@[i], cl[i], n as nat, rounds[i] as nat);
            let scaled = |i: int| pow2((n - rounds[i]) as nat) * cl[i];
            assert forall|i: int| 0 <= i < k implies congruent::<F>(#[trigger] start(i), scaled(i)) by {
                assert(rounds[i] <= n);
                if n > rounds[i] {
                    assert(start(i) == scaled(i));
                    lemma_cong_refl::<F>(scaled(i));
                } else {
                    assert(pow2(0) == 1) by {
                        vstd::arithmetic::power2::lemma2_to64();
                    }
                    assert(claims@[i].val() == cl[i]);
                    let (va, vb) = (vals(a0s[i].z@), vals(b0s[i].z@));
                    lemma_sum_two_quadratic::<F, C>(comb_func, kq, va, vb, a0s[i].z@.len());
                    lemma_cong_trans::<F>(cl[i], sum_two::<F, C>(comb_func, va, vb, a0s[i].z@.len()), qsum(kq, va, vb, a0s[i].z@.len()));
                    assert(start(i) == qsum(kq, va, vb, a0s[i].z@.len()));
                    let z = (n - rounds[i]) as nat;
                    assert(z == 0nat);
                    assert(pow2(z) == 1);
                    assert(scaled(i) == pow2(z) * cl[i]);
                    let pz = pow2(z) as int;
                    assert(pz * cl[i] == cl[i]) by (nonlinear_arith)
                        requires
                            pz == 1,
                    ;
                    assert(scaled(i) == cl[i]);
                    lemma_cong_sym::<F>(cl[i], start(i));
                }
            }
            lemma_wsum_congruent::<F>(start, scaled, w, k as nat);
            lemma_batch_claim_wsum(cl, rounds, w, n as nat, k as nat);
            lemma_cong_sym::<F>(wsum(start, w, k as nat), wsum(scaled, w, k as nat));
            lemma_cong_trans::<F>(e_init.val() as int, wsum(scaled, w, k as nat), wsum(start, w, k as nat));
        }
        while current_round < n
            invariant
                k == claims@.len(),
                n == seq_max(rounds),
                rounds == num_rounds@,
                cl == vals(claims@),
                w == vals(coeffs@),
                rounds.len() == k,
                a0s.len() == k,
                b0s.len() == k,
                w.len() == k,
                forall|i: int|
                    0 <= i < k ==> {
                        &&& (#[trigger] a0s[i]).wf()
                        &&& a0s[i].num_vars == rounds[i]
                        &&& b0s[i].wf()
                        &&& b0s[i].num_vars == rounds[i]
                    },
                forall|i: int| 0 <= i < k ==> #[trigger] rounds[i] <= n,
                forall|i: int| 0 <= i < k ==> n - #[trigger] rounds[i] < 64,
                n > 0 ==> F::modulus() > 3,
                combines_as::<F, C>(comb_func, kq),
                forall|i: int|
                    0 <= i < k ==> congruent::<F>(
                        #[trigger] cl[i],
                        sum_two::<F, C>(comb_func, vals(a0s[i].z@), vals(b0s[i].z@), a0s[i].z@.len()),
                    ),
                current_round <= n,
                r@.len() == current_round,
                quad_polys@.len() == current_round,
                forall|j: int|
                    0 <= j < current_round ==> (#[trigger] quad_polys@[j]).coeffs_except_linear_term@.len() == 2,
                avec@.len() == k,
                bvec@.len() == k,
                batch_bound::<F>(avec@, a0s, vals(r@), n as nat, rounds),
                batch_bound::<F>(bvec@, b0s, vals(r@), n as nat, rounds),
                forall|i: int|
                    0 <= i < k && current_round <= n - rounds[i] ==> (#[trigger] avec@[i]) == a0s[i] && bvec@[i]
                        == b0s[i],
                congruent::<F>(
                    e.val() as int,
                    final_claim(compressed_vals(quad_polys@), e_init.val() as int, vals(r@)),
                ),
                congruent::<F>(
                    e.val() as int,
                    wsum(
                        |i: int| inst_claim2::<F>(kq, avec@[i], bvec@[i], cl[i], (n - current_round) as nat, rounds[i] as nat),
                        w,
                        k as nat,
                    ),
                ),
                log0 == old(transcript).log(),
                transcript.log() == log0 + rounds_log(compressed_vals(quad_polys@), e_init.val() as int, r@),
                congruent::<F>(e_init.val() as int, batch_claim(cl, rounds, w, n as nat, k as nat)),
                forall|j: int|
                    0 <= j < current_round ==> #[trigger] quad_batch_round_ok::<F, C>(
                        comb_func,
                        compressed_vals(quad_polys@),
                        batch_claim(cl, rounds, w, n as nat, k as nat),
                        a0s,
                        b0s,
                        cl,
                        rounds,
                        w,
                        n as nat,
                        vals(r@).take(j),
                    ),
            decreases n - current_round,
        {
            let remaining = n - current_round;
            proof {
                assert forall|i: int| 0 <= i < k implies (remaining <= rounds[i] ==> {
                    &&& (#[trigger] avec@[i]).wf() && avec@[i].num_vars == remaining
                    &&& bvec@[i].wf() && bvec@[i].num_vars == remaining
                }) by {
                    lemma_batch_table::<F>(avec@[i], a0s[i], vals(r@), n as nat, rounds[i] as nat);
                    lemma_batch_table::<F>(bvec@[i], b0s[i], vals(r@), n as nat, rounds[i] as nat);
                }
            }
            let (ev0s, ev2s) = batch_eval_points_quad(claims, num_rounds, &avec, &bvec, &comb_func, remaining);
            let e0 = weighted_sum(&ev0s, coeffs);
            let e2 = weighted_sum(&ev2s, coeffs);
            proof {
                // the round's values are the weighted sums of the instances' shares
                let rs = vals(r@);
                assert forall|i: int|
                    #![trigger ev0s@[i]]
                    #![trigger ev2s@[i]]
                    0 <= i < k implies {
                    let sh = quad_inst_round::<F, C>(comb_func, a0s[i], b0s[i], cl[i], n as nat, rounds[i] as nat, rs);
                    &&& congruent::<F>(ev0s@[i].val() as int, sh.0)
                    &&& congruent::<F>(ev2s@[i].val() as int, sh.1)
                } by {
                    if remaining <= rounds[i] {
                        assert(bound_to::<F>(avec@[i], a0s[i], own_challenges(rs, n as nat, rounds[i] as nat)));
                        assert(bound_to::<F>(bvec@[i], b0s[i], own_challenges(rs, n as nat, rounds[i] as nat)));
                        lemma_batch_table_canonical::<F>(avec@[i], a0s[i], rs, n as nat, rounds[i] as nat);
                        lemma_batch_table_canonical::<F>(bvec@[i], b0s[i], rs, n as nat, rounds[i] as nat);
                    } else {
                        assert(claims@[i].val() == cl[i]);
                    }
                }
                lemma_wsum_congruent::<F>(
                    |i: int| ev0s@[i].val() as int,
                    |i: int| quad_inst_round::<F, C>(comb_func, a0s[i], b0s[i], cl[i], n as nat, rounds[i] as nat, rs).0,
                    w,
                    k as nat,
                );
                lemma_wsum_congruent::<F>(
                    |i: int| ev2s@[i].val() as int,
                    |i: int| quad_inst_round::<F, C>(comb_func, a0s[i], b0s[i], cl[i], n as nat, rounds[i] as nat, rs).1,
                    w,
                    k as nat,
                );
                let v = quad_batch_points::<F, C>(comb_func, a0s, b0s, cl, rounds, w, n as nat, rs);
                lemma_cong_trans::<F>(e0.val() as int, wsum(|i: int| ev0s@[i].val() as int, w, k as nat), v.0);
                lemma_cong_trans::<F>(e2.val() as int, wsum(|i: int| ev2s@[i].val() as int, w, k as nat), v.1);
            }
            let diff = field_sub(&e, &e0);
            let evals = vec![e0, diff, e2];
            let poly = UniPoly::from_evals(&evals);
            proof {
                // the absorbed polynomial is the one the verifier recovers
                let pv = vals(poly.coeffs@);
                assert(congruent::<F>(poly_eval(pv, 0), evals@[0].val() as int));
                assert(congruent::<F>(poly_eval(pv, 1), evals@[1].val() as int));
                lemma_cong_trans::<F>(poly_eval(pv, 1), diff.val() as int, e.val() - e0.val());
                lemma_cong_add::<F>(poly_eval(pv, 0), e0.val() as int, poly_eval(pv, 1), e.val() - e0.val());
                assert(e0.val() + (e.val() - e0.val()) == e.val());
                lemma_vals_canonical::<F>(poly.coeffs@);
                lemma_prover_absorb::<F>(
                    compressed_vals(quad_polys@),
                    e_init.val() as int,
                    vals(r@),
                    e.val() as int,
                    pv,
                );
            }
            transcript.absorb_poly("p", &poly);
            let r_i = match transcript.squeeze("c") {
                Ok(x) => x,
                Err(err) => {
                    proof {
                        assert forall|j: int| 0 <= j < compressed_vals(quad_polys@).len() implies (#[trigger] compressed_vals(
                            quad_polys@,
                        )[j]).len() >= 1 by {
                            assert(quad_polys@[j].coeffs_except_linear_term@.len() >= 2);
                        }
                        lemma_prover_log_err::<F>(
                            log0,
                            compressed_vals(quad_polys@),
                            e_init.val() as int,
                            r@,
                            vals(poly.coeffs@),
                            n as nat,
                            err,
                        );
                        lemma_prover_stopped_congruent::<F>(
                            log0,
                            transcript.log(),
                            e_init.val() as int,
                            batch_claim(cl, rounds, w, n as nat, k as nat),
                            n as nat,
                            err,
                        );
                    }
                    return Err(err);
                },
            };
            proof {
                lemma_prover_log_ok::<F>(
                    log0,
                    compressed_vals(quad_polys@),
                    e_init.val() as int,
                    r@,
                    vals(poly.coeffs@),
                    r_i,
                );
            }
            let ghost (r_old, polys_old, e_old) = (r@, quad_polys@, e);
            let ghost (as_old, bs_old) = (avec@, bvec@);
            r.push(r_i);
            bind_active(&mut avec, &mut bvec, num_rounds, remaining, &r_i);
            e = poly.evaluate(&r_i);
            let compressed = poly.compress();
            quad_polys.push(compressed);
            proof {
                // this round's polynomial takes the round's values; earlier rounds keep theirs
                let pv = vals(poly.coeffs@);
                let bc = batch_claim(cl, rounds, w, n as nat, k as nat);
                let cvo = compressed_vals(polys_old);
                let cvn = compressed_vals(quad_polys@);
                lemma_compressed_vals_push::<F>(polys_old, compressed);
                crate::spartan::polys::lemma_vals_compress::<F>(poly.coeffs@);
                assert(cvn =~= cvo.push(compress_coeffs(pv)));
                assert(vals(r@) =~= vals(r_old).push(r_i.val() as int));
                assert forall|j: int| 0 <= j < cvn.len() implies (#[trigger] cvn[j]).len() >= 1 by {
                    if j < current_round {
                        assert(cvn[j] == cvo[j]);
                        assert(polys_old[j].coeffs_except_linear_term@.len() == 2);
                    }
                }
                lemma_round_poly_congruent::<F>(cvn, e_init.val() as int, bc, vals(r_old));
                assert(vals(r@).take(current_round as int) =~= vals(r_old));
                assert(congruent::<F>(poly_eval(pv, 0), evals@[0].val() as int));
                assert(congruent::<F>(poly_eval(pv, 2), evals@[2].val() as int));
                let v = quad_batch_points::<F, C>(comb_func, a0s, b0s, cl, rounds, w, n as nat, vals(r_old));
                lemma_cong_trans::<F>(poly_eval(pv, 0), e0.val() as int, v.0);
                lemma_cong_trans::<F>(poly_eval(pv, 2), e2.val() as int, v.1);
                assert(quad_batch_round_ok::<F, C>(comb_func, cvn, bc, a0s, b0s, cl, rounds, w, n as nat, vals(r@).take(current_round as int)));
                assert forall|j: int| 0 <= j < current_round + 1 implies #[trigger] quad_batch_round_ok::<F, C>(
                    comb_func,
                    cvn,
                    bc,
                    a0s,
                    b0s,
                    cl,
                    rounds,
                    w,
                    n as nat,
                    vals(r@).take(j),
                ) by {
                    if j < current_round {
                        assert(vals(r@).take(j) =~= vals(r_old).take(j));
                        assert(cvn.take(j) =~= cvo.take(j));
                        assert(cvn[j] == cvo[j]);
                        assert(quad_batch_round_ok::<F, C>(comb_func, cvo, bc, a0s, b0s, cl, rounds, w, n as nat, vals(r_old).take(j)));
                    }
                }
            }
            proof {
                let pv = vals(poly.coeffs@);
                let x = r_i.val() as int;
                // the proof so far is accepted with the running claim
                assert(congruent::<F>(poly_eval(pv, 0), evals@[0].val() as int));
                assert(congruent::<F>(poly_eval(pv, 1), evals@[1].val() as int));
                assert(congruent::<F>(poly_eval(pv, 2), evals@[2].val() as int));
                lemma_cong_trans::<F>(poly_eval(pv, 1), diff.val() as int, e_old.val() - e0.val());
                lemma_cong_add::<F>(poly_eval(pv, 0), e0.val() as int, poly_eval(pv, 1), e_old.val() - e0.val());
                assert(e0.val() + (e_old.val() - e0.val()) == e_old.val());
                lemma_prover_round::<F>(
                    compressed_vals(polys_old),
                    e_init.val() as int,
                    vals(r_old),
                    e_old.val() as int,
                    pv,
                    x,
                    e.val() as int,
                );
                lemma_compressed_vals_push::<F>(polys_old, compressed);
                crate::spartan::polys::lemma_vals_compress::<F>(poly.coeffs@);
                assert(compressed_vals(quad_polys@) =~= compressed_vals(polys_old).push(compress_coeffs(pv)));
                assert(vals(r@) =~= vals(r_old).push(x));
                assert forall|j: int| 0 <= j < current_round + 1 implies (#[trigger] quad_polys@[j]).coeffs_except_linear_term@.len() == 2 by {
                    if j < current_round {
                        assert(quad_polys@[j] == polys_old[j]);
                    }
                }
                // each instance: its tables, and its share of the round
                assert forall|i: int| 0 <= i < k implies {
                    &&& bound_to::<F>(#[trigger] avec@[i], a0s[i], own_challenges(vals(r@), n as nat, rounds[i] as nat))
                    &&& bound_to::<F>(bvec@[i], b0s[i], own_challenges(vals(r@), n as nat, rounds[i] as nat))
                    &&& (current_round + 1 <= n - rounds[i] ==> avec@[i] == a0s[i] && bvec@[i] == b0s[i])
                    &&& inst_round_ok2::<F>(
                        kq,
                        as_old[i],
                        bs_old[i],
                        avec@[i],
                        bvec@[i],
                        cl[i],
                        remaining as nat,
                        rounds[i] as nat,
                        vals(ev0s@)[i],
                        vals(ev2s@)[i],
                        x,
                    )
                } by {
                    let ni = rounds[i] as nat;
                    lemma_own_challenges_push(vals(r_old), n as nat, ni, x);
                    lemma_batch_table::<F>(as_old[i], a0s[i], vals(r_old), n as nat, ni);
                    lemma_batch_table::<F>(bs_old[i], b0s[i], vals(r_old), n as nat, ni);
                    if remaining <= rounds[i] {
                        lemma_bound_to_push::<F>(as_old[i], avec@[i], a0s[i], own_challenges(vals(r_old), n as nat, ni), x);
                        lemma_bound_to_push::<F>(bs_old[i], bvec@[i], b0s[i], own_challenges(vals(r_old), n as nat, ni), x);
                        let h = as_old[i].z@.len() / 2;
                        let (va, vb) = (vals(as_old[i].z@), vals(bs_old[i].z@));
                        lemma_sum_two_quadratic::<F, C>(comb_func, kq, va, vb, h);
                        lemma_sum_two_quadratic::<F, C>(comb_func, kq, line_two::<F>(va, h), line_two::<F>(vb, h), h);
                        lemma_cong_trans::<F>(vals(ev0s@)[i], sum_two::<F, C>(comb_func, va, vb, h), qsum(kq, va, vb, h));
                        lemma_cong_trans::<F>(
                            vals(ev2s@)[i],
                            sum_two::<F, C>(comb_func, line_two::<F>(va, h), line_two::<F>(vb, h), h),
                            qsum(kq, line_two::<F>(va, h), line_two::<F>(vb, h), h),
                        );
                    } else {
                        assert(as_old[i] == a0s[i] && bs_old[i] == b0s[i]);
                        if remaining - 1 == rounds[i] {
                            let (va, vb) = (vals(a0s[i].z@), vals(b0s[i].z@));
                            lemma_sum_two_quadratic::<F, C>(comb_func, kq, va, vb, a0s[i].z@.len());
                            lemma_cong_trans::<F>(cl[i], sum_two::<F, C>(comb_func, va, vb, a0s[i].z@.len()), qsum(kq, va, vb, a0s[i].z@.len()));
                        }
                    }
                    lemma_batch_quad_instance::<F>(
                        kq,
                        as_old[i],
                        bs_old[i],
                        avec@[i],
                        bvec@[i],
                        cl[i],
                        remaining as nat,
                        ni,
                        vals(ev0s@)[i],
                        vals(ev2s@)[i],
                        x,
                    );
                }
                assert(batch_bound::<F>(avec@, a0s, vals(r@), n as nat, rounds));
                assert forall|i: int| 0 <= i < k implies bound_to::<F>(#[trigger] bvec@[i], b0s[i], own_challenges(vals(r@), n as nat, rounds[i] as nat)) by {
                    assert(bound_to::<F>(avec@[i], a0s[i], own_challenges(vals(r@), n as nat, rounds[i] as nat)));
                }
                assert(batch_bound::<F>(bvec@, b0s, vals(r@), n as nat, rounds));
                // the combined round
                lemma_wsum_ext(|i: int| ev0s@[i].val() as int, |i: int| vals(ev0s@)[i], w, k as nat);
                lemma_wsum_ext(|i: int| ev2s@[i].val() as int, |i: int| vals(ev2s@)[i], w, k as nat);
                lemma_batch_quad_round::<F>(
                    kq,
                    as_old,
                    bs_old,
                    avec@,
                    bvec@,
                    cl,
                    rounds,
                    w,
                    k as nat,
                    remaining as nat,
                    vals(ev0s@),
                    vals(ev2s@),
                    e_old.val() as int,
                    e0.val() as int,
                    diff.val() as int,
                    e2.val() as int,
                    pv,
                    x,
                );
                lemma_cong_trans::<F>(
                    e.val() as int,
                    poly_eval(pv, x),
                    wsum(
                        |i: int| inst_claim2::<F>(kq, avec@[i], bvec@[i], cl[i], (remaining - 1) as nat, rounds[i] as nat),
                        w,
                        k as nat,
                    ),
                );
            }
            current_round = current_round + 1;
        }
        // every instance has taken part in all its rounds: one entry is left
        let mut a_final: Vec<F> = Vec::new();
        let mut b_final: Vec<F> = Vec::new();
        let mut i: usize = 0;
        proof {
            assert forall|i: int| 0 <= i < k implies (#[trigger] avec@[i]).wf() && avec@[i].num_vars == 0 by {
                lemma_batch_table::<F>(avec@[i], a0s[i], vals(r@), n as nat, rounds[i] as nat);
            }
            assert forall|i: int| 0 <= i < k implies (#[trigger] bvec@[i]).wf() && bvec@[i].num_vars == 0 by {
                assert(bound_to::<F>(avec@[i], a0s[i], own_challenges(vals(r@), n as nat, rounds[i] as nat)));
                lemma_batch_table::<F>(bvec@[i], b0s[i], vals(r@), n as nat, rounds[i] as nat);
            }
        }
        while i < k
            invariant
                i <= k,
                k == claims@.len(),
                avec@.len() == k,
                bvec@.len() == k,
                forall|j: int| 0 <= j < k ==> (#[trigger] avec@[j]).wf() && avec@[j].num_vars == 0,
                forall|j: int| 0 <= j < k ==> (#[trigger] bvec@[j]).wf() && bvec@[j].num_vars == 0,
                a_final@.len() == i,
                b_final@.len() == i,
                forall|j: int| 0 <= j < i ==> (#[trigger] a_final@[j]) == avec@[j].z@[0],
                forall|j: int| 0 <= j < i ==> (#[trigger] b_final@[j]) == bvec@[j].z@[0],
            decreases k - i,
        {
            proof {
                assert(avec@[i as int].wf() && bvec@[i as int].wf());
                reveal(pow);
            }
            a_final.push(avec[i].get(0));
            b_final.push(bvec[i].get(0));
            i = i + 1;
        }
        proof {
            let run = |i: int| inst_claim2::<F>(kq, avec@[i], bvec@[i], cl[i], 0, rounds[i] as nat);
            let out = |i: int| comb_func.combine_spec(a_final@[i].val() as int, b_final@[i].val() as int);
            assert forall|i: int| 0 <= i < k implies congruent::<F>(#[trigger] run(i), out(i)) by {
                assert(avec@[i].wf() && bvec@[i].wf());
                assert(avec@[i].z@.len() == 1 && bvec@[i].z@.len() == 1) by {
                    reveal(pow);
                }
                assert(a_final@[i] == avec@[i].z@[0]);
                assert(b_final@[i] == bvec@[i].z@[0]);
                let (va, vb) = (vals(avec@[i].z@), vals(bvec@[i].z@));
                assert(qsum(kq, va, vb, 0) == 0);
                assert(va[0] == a_final@[i].val() && vb[0] == b_final@[i].val());
                assert(run(i) == qsum(kq, va, vb, 1));
                assert(congruent::<F>(out(i), quad_poly(kq, va[0], vb[0])));
                lemma_cong_sym::<F>(out(i), quad_poly(kq, va[0], vb[0]));
            }
            lemma_wsum_congruent::<F>(run, out, w, k as nat);
            // the proof, checked against the combined claim, ends at the final claim
            lemma_cong_sym::<F>(e.val() as int, final_claim(compressed_vals(quad_polys@), e_init.val() as int, vals(r@)));
            assert forall|j: int| 0 <= j < compressed_vals(quad_polys@).len() implies (#[trigger] compressed_vals(quad_polys@)[j]).len() >= 1 by {
                assert(quad_polys@[j].coeffs_except_linear_term@.len() == 2);
            }
            lemma_final_claim_congruent::<F>(
                compressed_vals(quad_polys@),
                e_init.val() as int,
                batch_claim(cl, rounds, w, n as nat, k as nat),
                vals(r@),
            );
            lemma_cong_sym::<F>(
                final_claim(compressed_vals(quad_polys@), e_init.val() as int, vals(r@)),
                final_claim(compressed_vals(quad_polys@), batch_claim(cl, rounds, w, n as nat, k as nat), vals(r@)),
            );
            lemma_cong_trans::<F>(
                final_claim(compressed_vals(quad_polys@), batch_claim(cl, rounds, w, n as nat, k as nat), vals(r@)),
                final_claim(compressed_vals(quad_polys@), e_init.val() as int, vals(r@)),
                e.val() as int,
            );
            lemma_cong_trans::<F>(
                final_claim(compressed_vals(quad_polys@), batch_claim(cl, rounds, w, n as nat, k as nat), vals(r@)),
                e.val() as int,
                wsum(run, w, k as nat),
            );
            lemma_cong_trans::<F>(
                final_claim(compressed_vals(quad_polys@), batch_claim(cl, rounds, w, n as nat, k as nat), vals(r@)),
                wsum(run, w, k as nat),
                wsum(out, w, k as nat),
            );
            assert forall|i: int| 0 <= i < k implies {
                let own = own_challenges(vals(r@), n as nat, rounds[i] as nat);
                &&& congruent::<F>((#[trigger] a_final@[i]).val() as int, bind_all(vals(a0s[i].z@), own)[0])
                &&& congruent::<F>(b_final@[i].val() as int, bind_all(vals(b0s[i].z@), own)[0])
            } by {
                assert(avec@[i].wf() && bvec@[i].wf());
                assert(avec@[i].z@.len() == 1 && bvec@[i].z@.len() == 1) by {
                    reveal(pow);
                }
                assert(vals(avec@[i].z@)[0] == a_final@[i].val());
                assert(vals(bvec@[i].z@)[0] == b_final@[i].val());
            }
        }
        let ghost qp = quad_polys@;
        let proof_out = SumcheckProof::new(quad_polys);
        proof {
            let nn = seq_max(num_rounds@);
            assert(proof_out.well_formed()) by {
                assert forall|j: int| 0 <= j < qp.len() implies (#[trigger] proof_out.compressed_polys@[j]).coeffs_except_linear_term@.len() >= 1 by {
                    assert(qp[j].coeffs_except_linear_term@.len() == 2);
                }
            }
            assert(proof_out.shape_ok(nn, 2));
            assert(r@.len() == nn);
            assert(forall|i: int|
                0 <= i < k ==> {
                    let own = own_challenges(vals(r@), nn, num_rounds@[i] as nat);
                    &&& congruent::<F>(
                        (#[trigger] a_final@[i]).val() as int,
                        bind_all(vals(poly_a_vec@[i].z@), own)[0],
                    )
                    &&& congruent::<F>(b_final@[i].val() as int, bind_all(vals(poly_b_vec@[i].z@), own)[0])
                });
            assert(congruent::<F>(
                final_claim(
                    compressed_vals(proof_out.compressed_polys@),
                    batch_claim(vals(claims@), num_rounds@, vals(coeffs@), nn, k as nat),
                    vals(r@),
                ),
                wsum(
                    |i: int| comb_func.combine_spec(a_final@[i].val() as int, b_final@[i].val() as int),
                    vals(coeffs@),
                    k as nat,
                ),
            ));
        }
        proof {
            assert forall|j: int| 0 <= j < compressed_vals(qp).len() implies (#[trigger] compressed_vals(qp)[j]).len()
                >= 1 by {
                assert(qp[j].coeffs_except_linear_term@.len() == 2);
            }
            lemma_rounds_log_congruent::<F>(
                compressed_vals(qp),
                e_init.val() as int,
                batch_claim(cl, rounds, w, n as nat, k as nat),
                r@,
            );
        }
        Ok((proof_out, r, (a_final, b_final)))
    }
}

/// The running claim of one instance of a cubic batch with `remaining` rounds to
/// go: its scaled claim while it waits, then the sum over its tables.
pub open spec fn inst_claim4<F: PrimeField>(
    t: (MultilinearPolynomial<F>, MultilinearPolynomial<F>, MultilinearPolynomial<F>, MultilinearPolynomial<F>),
    claim: int,
    remaining: nat,
    ni: nat,
) -> int {
    if remaining > ni {
        pow2((remaining - ni) as nat) * claim
    } else {
        pmt(vals(t.0.z@), vals(t.1.z@), vals(t.2.z@), vals(t.3.z@), t.0.z@.len())
    }
}

/// The coefficients of one instance's round polynomial in a cubic batch.
pub open spec fn inst_coeffs4<F: PrimeField>(
    t: (MultilinearPolynomial<F>, MultilinearPolynomial<F>, MultilinearPolynomial<F>, MultilinearPolynomial<F>),
    claim: int,
    remaining: nat,
    ni: nat,
) -> (int, int, int, int) {
    if remaining > ni {
        (pow2((remaining - ni - 1) as nat) * claim, 0, 0, 0)
    } else {
        let h = t.0.z@.len() / 2;
        let (a, b, c, d) = (vals(t.0.z@), vals(t.1.z@), vals(t.2.z@), vals(t.3.z@));
        (pmt(a, b, c, d, h), cubic_coeff(1, a, b, c, d, h, h), cubic_coeff(2, a, b, c, d, h, h), cubic_coeff(3, a, b, c, d, h, h))
    }
}

/// What one round establishes for one instance of a cubic batch.
pub open spec fn inst_round_ok4<F: PrimeField>(
    t: (MultilinearPolynomial<F>, MultilinearPolynomial<F>, MultilinearPolynomial<F>, MultilinearPolynomial<F>),
    t2: (MultilinearPolynomial<F>, MultilinearPolynomial<F>, MultilinearPolynomial<F>, MultilinearPolynomial<F>),
    claim: int,
    remaining: nat,
    ni: nat,
    ev0: int,
    ev2: int,
    ev3: int,
    x: int,
) -> bool {
    let c = inst_coeffs4::<F>(t, claim, remaining, ni);
    &&& congruent::<F>(ev0, c.0)
    &&& congruent::<F>(ev2, c.0 + 2 * c.1 + 4 * c.2 + 8 * c.3)
    &&& congruent::<F>(ev3, c.0 + 3 * c.1 + 9 * c.2 + 27 * c.3)
    &&& inst_claim4::<F>(t, claim, remaining, ni) == 2 * c.0 + c.1 + c.2 + c.3
    &&& congruent::<F>(
        inst_claim4::<F>(t2, claim, (remaining - 1) as nat, ni),
        c.0 + x * c.1 + x * x * c.2 + x * x * x * c.3,
    )
}

/// One table of an instance bound by one variable.
pub open spec fn bound_once<F: PrimeField>(t: MultilinearPolynomial<F>, t2: MultilinearPolynomial<F>, remaining: nat, x: int) -> bool {
    &&& t.wf() && t.num_vars == remaining
    &&& t2.wf() && t2.num_vars == remaining - 1
    &&& seq_congruent::<F>(vals(t2.z@), bind_top(vals(t.z@), x))
}

/// One round for one instance of a cubic batch.
pub proof fn lemma_batch_cubic_instance<F: PrimeField>(
    t: (MultilinearPolynomial<F>, MultilinearPolynomial<F>, MultilinearPolynomial<F>, MultilinearPolynomial<F>),
    t2: (MultilinearPolynomial<F>, MultilinearPolynomial<F>, MultilinearPolynomial<F>, MultilinearPolynomial<F>),
    claim: int,
    remaining: nat,
    ni: nat,
    ev0: int,
    ev2: int,
    ev3: int,
    x: int,
)
    requires
        remaining >= 1,
        remaining <= ni ==> {
            let h = t.0.z@.len() / 2;
            let (a, b, c, d) = (vals(t.0.z@), vals(t.1.z@), vals(t.2.z@), vals(t.3.z@));
            &&& bound_once::<F>(t.0, t2.0, remaining, x)
            &&& bound_once::<F>(t.1, t2.1, remaining, x)
            &&& bound_once::<F>(t.2, t2.2, remaining, x)
            &&& bound_once::<F>(t.3, t2.3, remaining, x)
            &&& congruent::<F>(ev0, pmt(a, b, c, d, h))
            &&& congruent::<F>(ev2, pmt(line_two::<F>(a, h), line_two::<F>(b, h), line_two::<F>(c, h), line_two::<F>(d, h), h))
            &&& congruent::<F>(ev3, pmt(line_three::<F>(a, h), line_three::<F>(b, h), line_three::<F>(c, h), line_three::<F>(d, h), h))
        },
        remaining > ni ==> {
            &&& congruent::<F>(ev0, pow2((remaining - ni - 1) as nat) * claim)
            &&& congruent::<F>(ev2, pow2((remaining - ni - 1) as nat) * claim)
            &&& congruent::<F>(ev3, pow2((remaining - ni - 1) as nat) * claim)
            &&& t2 == t
            &&& remaining - 1 == ni ==> congruent::<F>(
                claim,
                pmt(vals(t.0.z@), vals(t.1.z@), vals(t.2.z@), vals(t.3.z@), t.0.z@.len()),
            )
        },
    ensures
        inst_round_ok4::<F>(t, t2, claim, remaining, ni, ev0, ev2, ev3, x),
{
    let cf = inst_coeffs4::<F>(t, claim, remaining, ni);
    if remaining <= ni {
        let (a, b, c, d) = (vals(t.0.z@), vals(t.1.z@), vals(t.2.z@), vals(t.3.z@));
        let h = (t.0.z@.len() / 2) as nat;
        assert(a.len() == 2 * h && b.len() == 2 * h && c.len() == 2 * h && d.len() == 2 * h) by {
            reveal(pow);
            assert(pow(2, remaining) == 2 * pow(2, (remaining - 1) as nat));
        }
        lemma_bind_expand_cubic(a, b, c, d, h, 1, h);
        lemma_bind_expand_cubic(a, b, c, d, h, 2, h);
        lemma_bind_expand_cubic(a, b, c, d, h, 3, h);
        lemma_bind_expand_cubic(a, b, c, d, h, x, h);
        let (s0, s1, s2, s3) = (cf.0, cf.1, cf.2, cf.3);
        assert(1 * s1 == s1 && 1 * 1 * s2 == s2 && 1 * 1 * 1 * s3 == s3) by (nonlinear_arith);
        assert(2 * 2 * s2 == 4 * s2 && 2 * 2 * 2 * s3 == 8 * s3) by (nonlinear_arith);
        assert(3 * 3 * s2 == 9 * s2 && 3 * 3 * 3 * s3 == 27 * s3) by (nonlinear_arith);
        // at 2 and 3
        lemma_line_points::<F>(a, h);
        lemma_line_points::<F>(b, h);
        lemma_line_points::<F>(c, h);
        lemma_line_points::<F>(d, h);
        let (b2a, b2b, b2c, b2d) = (bind_top(a, 2), bind_top(b, 2), bind_top(c, 2), bind_top(d, 2));
        let (b3a, b3b, b3c, b3d) = (bind_top(a, 3), bind_top(b, 3), bind_top(c, 3), bind_top(d, 3));
        let (l2a, l2b, l2c, l2d) = (line_two::<F>(a, h), line_two::<F>(b, h), line_two::<F>(c, h), line_two::<F>(d, h));
        let (l3a, l3b, l3c, l3d) = (line_three::<F>(a, h), line_three::<F>(b, h), line_three::<F>(c, h), line_three::<F>(d, h));
        lemma_pmt_congruent::<F>(b2a, b2b, b2c, b2d, l2a, l2b, l2c, l2d, h);
        lemma_pmt_congruent::<F>(b3a, b3b, b3c, b3d, l3a, l3b, l3c, l3d, h);
        lemma_cong_sym::<F>(pmt(b2a, b2b, b2c, b2d, h), pmt(l2a, l2b, l2c, l2d, h));
        lemma_cong_sym::<F>(pmt(b3a, b3b, b3c, b3d, h), pmt(l3a, l3b, l3c, l3d, h));
        lemma_cong_trans::<F>(ev2, pmt(l2a, l2b, l2c, l2d, h), pmt(b2a, b2b, b2c, b2d, h));
        lemma_cong_trans::<F>(ev3, pmt(l3a, l3b, l3c, l3d, h), pmt(b3a, b3b, b3c, b3d, h));
        // running claim: the lower and the upper half
        lemma_pmt_split(a, b, c, d, h, h);
        lemma_pmt_at_one(a, b, c, d, h, h);
        // next claim: the bound tables
        assert(t2.0.z@.len() == h) by {
            reveal(pow);
        }
        let (na, nb, nc, nd) = (vals(t2.0.z@), vals(t2.1.z@), vals(t2.2.z@), vals(t2.3.z@));
        let (xa, xb, xc, xd) = (bind_top(a, x), bind_top(b, x), bind_top(c, x), bind_top(d, x));
        assert forall|i: int| 0 <= i < h implies congruent::<F>(#[trigger] na[i], xa[i]) by {}
        assert forall|i: int| 0 <= i < h implies congruent::<F>(#[trigger] nb[i], xb[i]) by {}
        assert forall|i: int| 0 <= i < h implies congruent::<F>(#[trigger] nc[i], xc[i]) by {}
        assert forall|i: int| 0 <= i < h implies congruent::<F>(#[trigger] nd[i], xd[i]) by {}
        lemma_pmt_congruent::<F>(na, nb, nc, nd, xa, xb, xc, xd, h);
    } else {
        let k = (remaining - ni - 1) as nat;
        lemma_pow2_succ(k);
        assert((remaining - ni) as nat == k + 1);
        assert(pow2(k + 1) * claim == 2 * (pow2(k) * claim)) by (nonlinear_arith)
            requires
                pow2(k + 1) == 2 * pow2(k),
        ;
        assert(cf.0 + x * cf.1 + x * x * cf.2 + x * x * x * cf.3 == cf.0) by (nonlinear_arith)
            requires
                cf.1 == 0,
                cf.2 == 0,
                cf.3 == 0,
        ;
        if remaining - 1 == ni {
            assert(k == 0);
            assert(pow2(0) == 1) by {
                vstd::arithmetic::power2::lemma2_to64();
            }
            let pz = pow2(k) as int;
            assert(pz * claim == claim) by (nonlinear_arith)
                requires
                    pz == 1,
            ;
            lemma_cong_sym::<F>(claim, pmt(vals(t.0.z@), vals(t.1.z@), vals(t.2.z@), vals(t.3.z@), t.0.z@.len()));
        } else {
            assert(((remaining - 1) - ni) as nat == k);
            lemma_cong_refl::<F>(cf.0);
        }
    }
}

/// A weighted sum of `f0 + x f1 + x^2 f2 + x^3 f3` splits into weighted sums.
pub proof fn lemma_wsum_cubic(
    f0: spec_fn(int) -> int,
    f1: spec_fn(int) -> int,
    f2: spec_fn(int) -> int,
    f3: spec_fn(int) -> int,
    w: Seq<int>,
    x: int,
    k: nat,
)
    ensures
        wsum(|i: int| f0(i) + x * f1(i) + x * x * f2(i) + x * x * x * f3(i), w, k) == wsum(f0, w, k) + x
            * wsum(f1, w, k) + x * x * wsum(f2, w, k) + x * x * x * wsum(f3, w, k),
    decreases k,
{
    if k > 0 {
        let j = k - 1;
        lemma_wsum_cubic(f0, f1, f2, f3, w, x, (k - 1) as nat);
        let (a, b, c, d, m) = (f0(j), f1(j), f2(j), f3(j), w[j]);
        let km = (k - 1) as nat;
        let (s1, s2, s3) = (wsum(f1, w, km), wsum(f2, w, km), wsum(f3, w, km));
        assert((a + x * b + x * x * c + x * x * x * d) * m == a * m + x * (b * m) + x * x * (c * m) + x * x * x * (d * m)) by (nonlinear_arith);
        assert(x * (s1 + b * m) == x * s1 + x * (b * m)) by (nonlinear_arith);
        assert(x * x * (s2 + c * m) == x * x * s2 + x * x * (c * m)) by (nonlinear_arith);
        assert(x * x * x * (s3 + d * m) == x * x * x * s3 + x * x * x * (d * m)) by (nonlinear_arith);
    }
}

/// One round of a cubic batch is complete.
pub proof fn lemma_batch_cubic_round<F: PrimeField>(
    t: spec_fn(int) -> (MultilinearPolynomial<F>, MultilinearPolynomial<F>, MultilinearPolynomial<F>, MultilinearPolynomial<F>),
    t2: spec_fn(int) -> (MultilinearPolynomial<F>, MultilinearPolynomial<F>, MultilinearPolynomial<F>, MultilinearPolynomial<F>),
    claims: Seq<int>,
    rounds: Seq<usize>,
    w: Seq<int>,
    k: nat,
    remaining: nat,
    ev0: Seq<int>,
    ev2: Seq<int>,
    ev3: Seq<int>,
    e: int,
    big_e0: int,
    diff: int,
    big_e2: int,
    big_e3: int,
    pv: Seq<int>,
    x: int,
)
    requires
        F::modulus() > 3,
        remaining >= 1,
        forall|i: int|
            0 <= i < k ==> #[trigger] inst_round_ok4::<F>(
                t(i),
                t2(i),
                claims[i],
                remaining,
                rounds[i] as nat,
                ev0[i],
                ev2[i],
                ev3[i],
                x,
            ),
        congruent::<F>(e, wsum(|i: int| inst_claim4::<F>(t(i), claims[i], remaining, rounds[i] as nat), w, k)),
        congruent::<F>(big_e0, wsum(|i: int| ev0[i], w, k)),
        congruent::<F>(big_e2, wsum(|i: int| ev2[i], w, k)),
        congruent::<F>(big_e3, wsum(|i: int| ev3[i], w, k)),
        congruent::<F>(diff, e - big_e0),
        pv.len() == 4,
        congruent::<F>(poly_eval(pv, 0), big_e0),
        congruent::<F>(poly_eval(pv, 1), diff),
        congruent::<F>(poly_eval(pv, 2), big_e2),
        congruent::<F>(poly_eval(pv, 3), big_e3),
    ensures
        congruent::<F>(
            poly_eval(pv, x),
            wsum(|i: int| inst_claim4::<F>(t2(i), claims[i], (remaining - 1) as nat, rounds[i] as nat), w, k),
        ),
{
    let f0 = |i: int| inst_coeffs4::<F>(t(i), claims[i], remaining, rounds[i] as nat).0;
    let f1 = |i: int| inst_coeffs4::<F>(t(i), claims[i], remaining, rounds[i] as nat).1;
    let f2 = |i: int| inst_coeffs4::<F>(t(i), claims[i], remaining, rounds[i] as nat).2;
    let f3 = |i: int| inst_coeffs4::<F>(t(i), claims[i], remaining, rounds[i] as nat).3;
    let run = |i: int| inst_claim4::<F>(t(i), claims[i], remaining, rounds[i] as nat);
    let next = |i: int| inst_claim4::<F>(t2(i), claims[i], (remaining - 1) as nat, rounds[i] as nat);
    let (s0, s1, s2, s3) = (wsum(f0, w, k), wsum(f1, w, k), wsum(f2, w, k), wsum(f3, w, k));
    let at1 = |i: int| f0(i) + 1 * f1(i) + 1 * 1 * f2(i) + 1 * 1 * 1 * f3(i);
    let at2 = |i: int| f0(i) + 2 * f1(i) + 2 * 2 * f2(i) + 2 * 2 * 2 * f3(i);
    let at3 = |i: int| f0(i) + 3 * f1(i) + 3 * 3 * f2(i) + 3 * 3 * 3 * f3(i);
    let atx = |i: int| f0(i) + x * f1(i) + x * x * f2(i) + x * x * x * f3(i);
    assert forall|i: int| 0 <= i < k implies {
        &&& congruent::<F>(#[trigger] ev0[i], f0(i))
        &&& congruent::<F>(ev2[i], at2(i))
        &&& congruent::<F>(ev3[i], at3(i))
        &&& run(i) == f0(i) + at1(i)
        &&& congruent::<F>(next(i), atx(i))
    } by {
        assert(inst_round_ok4::<F>(t(i), t2(i), claims[i], remaining, rounds[i] as nat, ev0[i], ev2[i], ev3[i], x));
        assert(1 * f1(i) == f1(i) && 1 * 1 * f2(i) == f2(i) && 1 * 1 * 1 * f3(i) == f3(i)) by (nonlinear_arith);
    }
    assert forall|i: int| 0 <= i < k implies congruent::<F>(#[trigger] ev2[i], at2(i)) by {
        assert(congruent::<F>(ev0[i], f0(i)));
    }
    assert forall|i: int| 0 <= i < k implies congruent::<F>(#[trigger] ev3[i], at3(i)) by {
        assert(congruent::<F>(ev0[i], f0(i)));
    }
    assert forall|i: int| 0 <= i < k implies #[trigger] run(i) == f0(i) + at1(i) by {
        assert(congruent::<F>(ev0[i], f0(i)));
    }
    assert forall|i: int| 0 <= i < k implies congruent::<F>(#[trigger] next(i), atx(i)) by {
        assert(congruent::<F>(ev0[i], f0(i)));
    }
    lemma_wsum_congruent::<F>(|i: int| ev0[i], f0, w, k);
    lemma_wsum_congruent::<F>(|i: int| ev2[i], at2, w, k);
    lemma_wsum_congruent::<F>(|i: int| ev3[i], at3, w, k);
    lemma_wsum_congruent::<F>(next, atx, w, k);
    lemma_wsum_cubic(f0, f1, f2, f3, w, 1, k);
    lemma_wsum_cubic(f0, f1, f2, f3, w, 2, k);
    lemma_wsum_cubic(f0, f1, f2, f3, w, 3, k);
    lemma_wsum_cubic(f0, f1, f2, f3, w, x, k);
    lemma_wsum_ext(run, |i: int| f0(i) + at1(i), w, k);
    lemma_wsum_add(f0, at1, w, k);
    assert(1 * s1 == s1 && 1 * 1 * s2 == s2 && 1 * 1 * 1 * s3 == s3) by (nonlinear_arith);
    assert(2 * 2 * s2 == 4 * s2 && 2 * 2 * 2 * s3 == 8 * s3) by (nonlinear_arith);
    assert(3 * 3 * s2 == 9 * s2 && 3 * 3 * 3 * s3 == 27 * s3) by (nonlinear_arith);
    lemma_cong_trans::<F>(poly_eval(pv, 0), big_e0, wsum(|i: int| ev0[i], w, k));
    lemma_cong_trans::<F>(poly_eval(pv, 0), wsum(|i: int| ev0[i], w, k), s0);
    lemma_cong_trans::<F>(big_e0, wsum(|i: int| ev0[i], w, k), s0);
    lemma_cong_sub::<F>(e, wsum(run, w, k), big_e0, s0);
    lemma_cong_trans::<F>(diff, e - big_e0, wsum(run, w, k) - s0);
    lemma_cong_trans::<F>(poly_eval(pv, 1), diff, wsum(run, w, k) - s0);
    lemma_cong_trans::<F>(poly_eval(pv, 2), big_e2, wsum(|i: int| ev2[i], w, k));
    lemma_cong_trans::<F>(poly_eval(pv, 2), wsum(|i: int| ev2[i], w, k), wsum(at2, w, k));
    lemma_cong_trans::<F>(poly_eval(pv, 3), big_e3, wsum(|i: int| ev3[i], w, k));
    lemma_cong_trans::<F>(poly_eval(pv, 3), wsum(|i: int| ev3[i], w, k), wsum(at3, w, k));
    lemma_cubic_unique::<F>(pv, s0, s1, s2, s3, x);
    assert(s0 + x * s1 + (x * x) * s2 + (x * x * x) * s3 == s0 + x * s1 + x * x * s2 + x * x * x * s3) by (nonlinear_arith);
    lemma_cong_sym::<F>(wsum(next, w, k), wsum(atx, w, k));
    lemma_cong_trans::<F>(poly_eval(pv, x), wsum(atx, w, k), wsum(next, w, k));
}

/// The evaluations of each instance of a cubic batch in a round with `remaining`
/// rounds to go.
#[verifier::spinoff_prover]
fn batch_eval_points_cubic<F: PrimeField, C: CombineFour<F>>(
    claims: &[F],
    num_rounds: &[usize],
    avec: &Vec<MultilinearPolynomial<F>>,
    bvec: &Vec<MultilinearPolynomial<F>>,
    cvec: &Vec<MultilinearPolynomial<F>>,
    dvec: &Vec<MultilinearPolynomial<F>>,
    comb_func: &C,
    remaining: usize,
) -> (r: (Vec<F>, Vec<F>, Vec<F>))
    requires
        num_rounds@.len() == claims@.len(),
        avec@.len() == claims@.len(),
        bvec@.len() == claims@.len(),
        cvec@.len() == claims@.len(),
        dvec@.len() == claims@.len(),
        forall|i: int|
            0 <= i < claims@.len() && remaining <= num_rounds@[i] ==> {
                &&& (#[trigger] avec@[i]).z@.len() / 2 * 2 <= bvec@[i].z@.len()
                &&& avec@[i].z@.len() / 2 * 2 <= cvec@[i].z@.len()
                &&& avec@[i].z@.len() / 2 * 2 <= dvec@[i].z@.len()
            },
        forall|i: int| 0 <= i < claims@.len() && remaining > num_rounds@[i] ==> remaining - #[trigger] num_rounds@[i] - 1 < 64,
    ensures
        r.0@.len() == claims@.len(),
        r.1@.len() == claims@.len(),
        r.2@.len() == claims@.len(),
        forall|i: int|
            0 <= i < claims@.len() && remaining <= num_rounds@[i] ==> {
                let h = avec@[i].z@.len() / 2;
                let (va, vb, vc, vd) = (vals(avec@[i].z@), vals(bvec@[i].z@), vals(cvec@[i].z@), vals(dvec@[i].z@));
                &&& congruent::<F>((#[trigger] r.0@[i]).val() as int, sum_four::<F, C>(*comb_func, va, vb, vc, vd, h))
                &&& congruent::<F>(
                    r.1@[i].val() as int,
                    sum_four::<F, C>(*comb_func, line_two::<F>(va, h), line_two::<F>(vb, h), line_two::<F>(vc, h), line_two::<F>(vd, h), h),
                )
                &&& congruent::<F>(
                    r.2@[i].val() as int,
                    sum_four::<F, C>(*comb_func, line_three::<F>(va, h), line_three::<F>(vb, h), line_three::<F>(vc, h), line_three::<F>(vd, h), h),
                )
            },
        forall|i: int|
            0 <= i < claims@.len() && remaining > num_rounds@[i] ==> {
                let s = (pow2((remaining - num_rounds@[i] - 1) as nat) * claims@[i].val()) as int;
                &&& congruent::<F>((#[trigger] r.0@[i]).val() as int, s)
                &&& congruent::<F>(r.1@[i].val() as int, s)
                &&& congruent::<F>(r.2@[i].val() as int, s)
            },
{
    let mut ev0: Vec<F> = Vec::new();
    let mut ev2: Vec<F> = Vec::new();
    let mut ev3: Vec<F> = Vec::new();
    let mut i: usize = 0;
    while i < claims.len()
        invariant
            i <= claims@.len(),
            num_rounds@.len() == claims@.len(),
            avec@.len() == claims@.len(),
            bvec@.len() == claims@.len(),
            cvec@.len() == claims@.len(),
            dvec@.len() == claims@.len(),
            forall|j: int|
                0 <= j < claims@.len() && remaining <= num_rounds@[j] ==> {
                    &&& (#[trigger] avec@[j]).z@.len() / 2 * 2 <= bvec@[j].z@.len()
                    &&& avec@[j].z@.len() / 2 * 2 <= cvec@[j].z@.len()
                    &&& avec@[j].z@.len() / 2 * 2 <= dvec@[j].z@.len()
                },
            forall|j: int| 0 <= j < claims@.len() && remaining > num_rounds@[j] ==> remaining - #[trigger] num_rounds@[j] - 1 < 64,
            ev0@.len() == i,
            ev2@.len() == i,
            ev3@.len() == i,
            forall|j: int|
                0 <= j < i && remaining <= num_rounds@[j] ==> {
                    let h = avec@[j].z@.len() / 2;
                    let (va, vb, vc, vd) = (vals(avec@[j].z@), vals(bvec@[j].z@), vals(cvec@[j].z@), vals(dvec@[j].z@));
                    &&& congruent::<F>((#[trigger] ev0@[j]).val() as int, sum_four::<F, C>(*comb_func, va, vb, vc, vd, h))
                    &&& congruent::<F>(
                        ev2@[j].val() as int,
                        sum_four::<F, C>(*comb_func, line_two::<F>(va, h), line_two::<F>(vb, h), line_two::<F>(vc, h), line_two::<F>(vd, h), h),
                    )
                    &&& congruent::<F>(
                        ev3@[j].val() as int,
                        sum_four::<F, C>(*comb_func, line_three::<F>(va, h), line_three::<F>(vb, h), line_three::<F>(vc, h), line_three::<F>(vd, h), h),
                    )
                },
            forall|j: int|
                0 <= j < i && remaining > num_rounds@[j] ==> {
                    let s = (pow2((remaining - num_rounds@[j] - 1) as nat) * claims@[j].val()) as int;
                    &&& congruent::<F>((#[trigger] ev0@[j]).val() as int, s)
                    &&& congruent::<F>(ev2@[j].val() as int, s)
                    &&& congruent::<F>(ev3@[j].val() as int, s)
                },
        decreases claims@.len() - i,
    {
        if remaining <= num_rounds[i] {
            let (p0, p2, p3) = SumcheckProof::<F>::compute_eval_points_cubic_with_additive_term(
                &avec[i],
                &bvec[i],
                &cvec[i],
                &dvec[i],
                comb_func,
            );
            ev0.push(p0);
            ev2.push(p2);
            ev3.push(p3);
        } else {
            let remaining_variables = remaining - num_rounds[i] - 1;
            let factor = F::from_u64(power_of_two(remaining_variables));
            let scaled_claim = field_mul(&factor, &claims[i]);
            proof {
                let kk = pow2(remaining_variables as nat) as int;
                let cv = claims@[i as int].val() as int;
                lemma_cong_mod::<F>(kk);
                lemma_cong_refl::<F>(cv);
                lemma_cong_sym::<F>(factor.val() as int, kk);
                lemma_cong_mul::<F>(factor.val() as int, kk, cv, cv);
                lemma_cong_trans::<F>(scaled_claim.val() as int, factor.val() * cv, kk * cv);
            }
            ev0.push(scaled_claim);
            ev2.push(scaled_claim);
            ev3.push(scaled_claim);
        }
        i = i + 1;
    }
    (ev0, ev2, ev3)
}

/// The round polynomial after the challenges `rs` of a sum-check over the tables
/// `a0` and `b0` takes at `0` and `2` the sums of the combination over the lines
/// between the halves of the tables bound to `rs`.
pub open spec fn quad_round_ok<F: PrimeField, C: CombineTwo<F>>(
    comb: C,
    polys: Seq<Seq<int>>,
    claim: int,
    a0: Seq<int>,
    b0: Seq<int>,
    rs: Seq<int>,
) -> bool {
    let p = round_poly::<F>(polys, claim, rs);
    let a = reduce_all::<F>(bind_all(a0, rs));
    let b = reduce_all::<F>(bind_all(b0, rs));
    let h = a.len() / 2;
    &&& congruent::<F>(poly_eval(p, 0), sum_two::<F, C>(comb, a, b, h))
    &&& congruent::<F>(poly_eval(p, 2), sum_two::<F, C>(comb, line_two::<F>(a, h), line_two::<F>(b, h), h))
}

/// The same for a cubic sum-check over four tables, at `0`, `2` and `3`.
pub open spec fn cubic_round_ok<F: PrimeField, C: CombineFour<F>>(
    comb: C,
    polys: Seq<Seq<int>>,
    claim: int,
    t0: (Seq<int>, Seq<int>, Seq<int>, Seq<int>),
    rs: Seq<int>,
) -> bool {
    let p = round_poly::<F>(polys, claim, rs);
    let a = reduce_all::<F>(bind_all(t0.0, rs));
    let b = reduce_all::<F>(bind_all(t0.1, rs));
    let c = reduce_all::<F>(bind_all(t0.2, rs));
    let d = reduce_all::<F>(bind_all(t0.3, rs));
    let h = a.len() / 2;
    &&& congruent::<F>(poly_eval(p, 0), sum_four::<F, C>(comb, a, b, c, d, h))
    &&& congruent::<F>(
        poly_eval(p, 2),
        sum_four::<F, C>(comb, line_two::<F>(a, h), line_two::<F>(b, h), line_two::<F>(c, h), line_two::<F>(d, h), h),
    )
    &&& congruent::<F>(
        poly_eval(p, 3),
        sum_four::<F, C>(
            comb,
            line_three::<F>(a, h),
            line_three::<F>(b, h),
            line_three::<F>(c, h),
            line_three::<F>(d, h),
            h,
        ),
    )
}

/// A table congruent to another bound to `rs` is, in canonical form, that table.
pub proof fn lemma_bound_canonical<F: PrimeField>(t: Seq<F>, t0: Seq<int>, rs: Seq<int>)
    requires
        seq_congruent::<F>(vals(t), bind_all(t0, rs)),
    ensures
        vals(t) == reduce_all::<F>(bind_all(t0, rs)),
{
    lemma_vals_canonical::<F>(t);
    lemma_reduce_congruent::<F>(vals(t), bind_all(t0, rs));
}

/// An instance's share of a quadratic round's values at `0` and `2` after the
/// challenges `rs`: the sums over its tables of the combination on the lines
/// between their halves while it takes part, its scaled claim while it waits.
pub open spec fn quad_inst_round<F: PrimeField, C: CombineTwo<F>>(
    comb: C,
    a0: MultilinearPolynomial<F>,
    b0: MultilinearPolynomial<F>,
    claim: int,
    n: nat,
    ni: nat,
    rs: Seq<int>,
) -> (int, int) {
    let remaining = (n - rs.len()) as nat;
    if remaining <= ni {
        let a = batch_table::<F>(a0, rs, n, ni);
        let b = batch_table::<F>(b0, rs, n, ni);
        let h = a.len() / 2;
        (sum_two::<F, C>(comb, a, b, h), sum_two::<F, C>(comb, line_two::<F>(a, h), line_two::<F>(b, h), h))
    } else {
        let s = pow2((remaining - ni - 1) as nat) * claim;
        (s, s)
    }
}

/// The values at `0` and `2` of the round of a quadratic batch after the
/// challenges `rs`: the weighted sums of the instances' shares.
pub open spec fn quad_batch_points<F: PrimeField, C: CombineTwo<F>>(
    comb: C,
    a0s: Seq<MultilinearPolynomial<F>>,
    b0s: Seq<MultilinearPolynomial<F>>,
    claims: Seq<int>,
    rounds: Seq<usize>,
    w: Seq<int>,
    n: nat,
    rs: Seq<int>,
) -> (int, int) {
    (
        wsum(|i: int| quad_inst_round::<F, C>(comb, a0s[i], b0s[i], claims[i], n, rounds[i] as nat, rs).0, w, claims.len()),
        wsum(|i: int| quad_inst_round::<F, C>(comb, a0s[i], b0s[i], claims[i], n, rounds[i] as nat, rs).1, w, claims.len()),
    )
}

/// The round polynomial of a quadratic batch after the challenges `rs` takes
/// these values at `0` and `2`.
pub open spec fn quad_batch_round_ok<F: PrimeField, C: CombineTwo<F>>(
    comb: C,
    polys: Seq<Seq<int>>,
    claim: int,
    a0s: Seq<MultilinearPolynomial<F>>,
    b0s: Seq<MultilinearPolynomial<F>>,
    claims: Seq<int>,
    rounds: Seq<usize>,
    w: Seq<int>,
    n: nat,
    rs: Seq<int>,
) -> bool {
    let p = round_poly::<F>(polys, claim, rs);
    let v = quad_batch_points::<F, C>(comb, a0s, b0s, claims, rounds, w, n, rs);
    &&& congruent::<F>(poly_eval(p, 0), v.0)
    &&& congruent::<F>(poly_eval(p, 2), v.1)
}

/// The table of a batch instance after the challenges `rs`, in canonical form:
/// the instance's table bound to its own challenges.
pub open spec fn batch_table<F: PrimeField>(t0: MultilinearPolynomial<F>, rs: Seq<int>, n: nat, ni: nat) -> Seq<int> {
    reduce_all::<F>(bind_all(vals(t0.z@), own_challenges(rs, n, ni)))
}

/// An instance's share of a cubic round's values at `0`, `2` and `3`, with
/// `remaining` rounds to go: the sums over its tables of the combination on the
/// lines between their halves while it takes part, its scaled claim while it waits.
pub open spec fn cubic_inst_points<F: PrimeField, C: CombineFour<F>>(
    comb: C,
    a: Seq<int>,
    b: Seq<int>,
    c: Seq<int>,
    d: Seq<int>,
    claim: int,
    remaining: nat,
    ni: nat,
) -> (int, int, int) {
    if remaining <= ni {
        let h = a.len() / 2;
        (
            sum_four::<F, C>(comb, a, b, c, d, h),
            sum_four::<F, C>(comb, line_two::<F>(a, h), line_two::<F>(b, h), line_two::<F>(c, h), line_two::<F>(d, h), h),
            sum_four::<F, C>(
                comb,
                line_three::<F>(a, h),
                line_three::<F>(b, h),
                line_three::<F>(c, h),
                line_three::<F>(d, h),
                h,
            ),
        )
    } else {
        let s = pow2((remaining - ni - 1) as nat) * claim;
        (s, s, s)
    }
}

/// An instance's share of the cubic round after the challenges `rs`.
pub open spec fn cubic_inst_round<F: PrimeField, C: CombineFour<F>>(
    comb: C,
    t0: (MultilinearPolynomial<F>, MultilinearPolynomial<F>, MultilinearPolynomial<F>, MultilinearPolynomial<F>),
    claim: int,
    n: nat,
    ni: nat,
    rs: Seq<int>,
) -> (int, int, int) {
    cubic_inst_points::<F, C>(
        comb,
        batch_table::<F>(t0.0, rs, n, ni),
        batch_table::<F>(t0.1, rs, n, ni),
        batch_table::<F>(t0.2, rs, n, ni),
        batch_table::<F>(t0.3, rs, n, ni),
        claim,
        (n - rs.len()) as nat,
        ni,
    )
}

/// The values at `0`, `2` and `3` of the round of a cubic batch after the
/// challenges `rs`: the weighted sums of the instances' shares.
pub open spec fn cubic_batch_points<F: PrimeField, C: CombineFour<F>>(
    comb: C,
    t0s: Seq<(MultilinearPolynomial<F>, MultilinearPolynomial<F>, MultilinearPolynomial<F>, MultilinearPolynomial<F>)>,
    claims: Seq<int>,
    rounds: Seq<usize>,
    w: Seq<int>,
    n: nat,
    rs: Seq<int>,
) -> (int, int, int) {
    (
        wsum(|i: int| cubic_inst_round::<F, C>(comb, t0s[i], claims[i], n, rounds[i] as nat, rs).0, w, claims.len()),
        wsum(|i: int| cubic_inst_round::<F, C>(comb, t0s[i], claims[i], n, rounds[i] as nat, rs).1, w, claims.len()),
        wsum(|i: int| cubic_inst_round::<F, C>(comb, t0s[i], claims[i], n, rounds[i] as nat, rs).2, w, claims.len()),
    )
}

/// The round polynomial of a cubic batch after the challenges `rs` takes these
/// values at `0`, `2` and `3`.
pub open spec fn cubic_batch_round_ok<F: PrimeField, C: CombineFour<F>>(
    comb: C,
    polys: Seq<Seq<int>>,
    claim: int,
    t0s: Seq<(MultilinearPolynomial<F>, MultilinearPolynomial<F>, MultilinearPolynomial<F>, MultilinearPolynomial<F>)>,
    claims: Seq<int>,
    rounds: Seq<usize>,
    w: Seq<int>,
    n: nat,
    rs: Seq<int>,
) -> bool {
    let p = round_poly::<F>(polys, claim, rs);
    let v = cubic_batch_points::<F, C>(comb, t0s, claims, rounds, w, n, rs);
    &&& congruent::<F>(poly_eval(p, 0), v.0)
    &&& congruent::<F>(poly_eval(p, 2), v.1)
    &&& congruent::<F>(poly_eval(p, 3), v.2)
}

/// The instances' tables of a cubic batch, side by side.
pub open spec fn zip_tables<F: PrimeField>(
    a: Seq<MultilinearPolynomial<F>>,
    b: Seq<MultilinearPolynomial<F>>,
    c: Seq<MultilinearPolynomial<F>>,
    d: Seq<MultilinearPolynomial<F>>,
) -> Seq<(MultilinearPolynomial<F>, MultilinearPolynomial<F>, MultilinearPolynomial<F>, MultilinearPolynomial<F>)> {
    Seq::new(a.len(), |i: int| (a[i], b[i], c[i], d[i]))
}

/// A table bound to its own challenges is, in canonical form, the batch table.
pub proof fn lemma_batch_table_canonical<F: PrimeField>(
    t: MultilinearPolynomial<F>,
    t0: MultilinearPolynomial<F>,
    rs: Seq<int>,
    n: nat,
    ni: nat,
)
    requires
        bound_to::<F>(t, t0, own_challenges(rs, n, ni)),
    ensures
        vals(t.z@) == batch_table::<F>(t0, rs, n, ni),
{
    lemma_vals_canonical::<F>(t.z@);
    lemma_reduce_congruent::<F>(vals(t.z@), bind_all(vals(t0.z@), own_challenges(rs, n, ni)));
}

impl<F: PrimeField> SumcheckProof<F> {
    /// Proves a batch of claims `claims[i] == sum_x comb(A_i(x), B_i(x), C_i(x),
    /// D_i(x))` over `num_rounds[i]` rounds each, combined by `coeffs` into one
    /// sum-check of degree three over the largest number of rounds `n`; instance
    /// `i` takes part in the last `num_rounds[i]` rounds. Returns the proof, the
    /// challenges, and the four families of tables at their challenges.
    #[verifier::spinoff_prover]
    pub fn prove_cubic_with_additive_term_batch<C: CombineFour<F>, T: TranscriptEngine<F>>(
        claims: &[F],
        num_rounds: &[usize],
        poly_a_vec: Vec<MultilinearPolynomial<F>>,
        poly_b_vec: Vec<MultilinearPolynomial<F>>,
        poly_c_vec: Vec<MultilinearPolynomial<F>>,
        poly_d_vec: Vec<MultilinearPolynomial<F>>,
        coeffs: &[F],
        comb_func: C,
        transcript: &mut Transcript<F, T>,
    ) -> (res: Result<(Self, Vec<F>, Vec<Vec<F>>), NovaError>)
        requires
            claims@.len() > 0,
            num_rounds@.len() == claims@.len(),
            coeffs@.len() == claims@.len(),
            poly_a_vec@.len() == claims@.len(),
            poly_b_vec@.len() == claims@.len(),
            poly_c_vec@.len() == claims@.len(),
            poly_d_vec@.len() == claims@.len(),
            forall|i: int|
                0 <= i < claims@.len() ==> {
                    &&& (#[trigger] poly_a_vec@[i]).wf() && poly_a_vec@[i].num_vars == num_rounds@[i]
                    &&& poly_b_vec@[i].wf() && poly_b_vec@[i].num_vars == num_rounds@[i]
                    &&& poly_c_vec@[i].wf() && poly_c_vec@[i].num_vars == num_rounds@[i]
                    &&& poly_d_vec@[i].wf() && poly_d_vec@[i].num_vars == num_rounds@[i]
                },
            forall|i: int| 0 <= i < claims@.len() ==> seq_max(num_rounds@) - #[trigger] num_rounds@[i] < 64,
            seq_max(num_rounds@) > 0 ==> F::modulus() > 3,
        ensures
            // no round, no challenge to draw: nothing can fail
            seq_max(num_rounds@) == 0 ==> res is Ok,
            // each round absorbs its polynomial, then draws its challenge
            res matches Ok((proof, r, evals)) ==> final(transcript).log() == old(transcript).log() + rounds_log(
                compressed_vals(proof.compressed_polys@),
                batch_claim(vals(claims@), num_rounds@, vals(coeffs@), seq_max(num_rounds@), claims@.len() as nat),
                r@,
            ),
            // the prover fails only by a failed draw
            res matches Err(err) ==> prover_stopped(
                old(transcript).log(),
                final(transcript).log(),
                batch_claim(vals(claims@), num_rounds@, vals(coeffs@), seq_max(num_rounds@), claims@.len() as nat),
                seq_max(num_rounds@),
                err,
            ),
            // each round's polynomial takes at 0, 2 and 3 the weighted sums of the
            // instances' shares, whatever the combination
            res matches Ok((proof, r, evals)) ==> forall|j: int|
                0 <= j < seq_max(num_rounds@) ==> #[trigger] cubic_batch_round_ok::<F, C>(
                    comb_func,
                    compressed_vals(proof.compressed_polys@),
                    batch_claim(vals(claims@), num_rounds@, vals(coeffs@), seq_max(num_rounds@), claims@.len() as nat),
                    zip_tables::<F>(poly_a_vec@, poly_b_vec@, poly_c_vec@, poly_d_vec@),
                    vals(claims@),
                    num_rounds@,
                    vals(coeffs@),
                    seq_max(num_rounds@),
                    vals(r@).take(j),
                ),
            res matches Ok((proof, r, evals)) ==> {
                let n = seq_max(num_rounds@);
                let k = claims@.len();
                &&& proof.well_formed()
                &&& proof.shape_ok(n, 3)
                &&& r@.len() == n
                &&& evals@.len() == 4
                &&& evals@[0]@.len() == k && evals@[1]@.len() == k
                &&& evals@[2]@.len() == k && evals@[3]@.len() == k
                &&& forall|i: int|
                    0 <= i < k ==> {
                        let own = own_challenges(vals(r@), n, num_rounds@[i] as nat);
                        &&& congruent::<F>((#[trigger] evals@[0]@[i]).val() as int, bind_all(vals(poly_a_vec@[i].z@), own)[0])
                        &&& congruent::<F>(evals@[1]@[i].val() as int, bind_all(vals(poly_b_vec@[i].z@), own)[0])
                        &&& congruent::<F>(evals@[2]@[i].val() as int, bind_all(vals(poly_c_vec@[i].z@), own)[0])
                        &&& congruent::<F>(evals@[3]@[i].val() as int, bind_all(vals(poly_d_vec@[i].z@), own)[0])
                    }
                // completeness: true claims about `a (b c - d)` reduce to the
                // combination at the challenges
                &&& (is_product_minus_term::<F, C>(comb_func) && forall|i: int|
                    0 <= i < k ==> congruent::<F>(
                        (#[trigger] claims@[i]).val() as int,
                        sum_four::<F, C>(
                            comb_func,
                            vals(poly_a_vec@[i].z@),
                            vals(poly_b_vec@[i].z@),
                            vals(poly_c_vec@[i].z@),
                            vals(poly_d_vec@[i].z@),
                            poly_a_vec@[i].z@.len(),
                        ),
                    )) ==> congruent::<F>(
                    final_claim(
                        compressed_vals(proof.compressed_polys@),
                        batch_claim(vals(claims@), num_rounds@, vals(coeffs@), n, k),
                        vals(r@),
                    ),
                    wsum(
                        |i: int|
                            comb_func.combine_spec(
                                evals@[0]@[i].val() as int,
                                evals@[1]@[i].val() as int,
                                evals@[2]@[i].val() as int,
                                evals@[3]@[i].val() as int,
                            ),
                        vals(coeffs@),
                        k,
                    ),
                )
            },
    {
        let ghost log0 = transcript.log();
        let ghost (a0s, b0s, c0s, d0s) = (poly_a_vec@, poly_b_vec@, poly_c_vec@, poly_d_vec@);
        let ghost (cl, w, rounds) = (vals(claims@), vals(coeffs@), num_rounds@);
        let k = claims.len();
        let n = max_rounds(num_rounds);
        let ghost complete = is_product_minus_term::<F, C>(comb_func) && forall|i: int|
            0 <= i < k ==> congruent::<F>(
                (#[trigger] claims@[i]).val() as int,
                sum_four::<F, C>(
                    comb_func,
                    vals(a0s[i].z@),
                    vals(b0s[i].z@),
                    vals(c0s[i].z@),
                    vals(d0s[i].z@),
                    a0s[i].z@.len(),
                ),
            );
        let e_init = combine_claims(claims, num_rounds, coeffs, n);
        let mut e = e_init;
        let mut r: Vec<F> = Vec::new();
        let mut polys: Vec<CompressedUniPoly<F>> = Vec::new();
        let mut avec = poly_a_vec;
        let mut bvec = poly_b_vec;
        let mut cvec = poly_c_vec;
        let mut dvec = poly_d_vec;
        let mut current_round: usize = 0;
        proof {
            assert(vals(r@) =~= Seq::<int>::empty());
            assert forall|i: int| 0 <= i < k implies own_challenges(vals(r@), n as nat, #[trigger] rounds[i] as nat) == Seq::<int>::empty() by {
                assert(own_challenges(vals(r@), n as nat, rounds[i] as nat) =~= Seq::<int>::empty());
            }
            assert forall|i: int| 0 <= i < k implies bound_to::<F>(#[trigger] avec@[i], a0s[i], own_challenges(vals(r@), n as nat, rounds[i] as nat)) by {
                lemma_bound_to_start::<F>(a0s[i]);
            }
            assert forall|i: int| 0 <= i < k implies bound_to::<F>(#[trigger] bvec@[i], b0s[i], own_challenges(vals(r@), n as nat, rounds[i] as nat)) by {
                assert(a0s[i].wf());
                lemma_bound_to_start::<F>(b0s[i]);
            }
            assert forall|i: int| 0 <= i < k implies bound_to::<F>(#[trigger] cvec@[i], c0s[i], own_challenges(vals(r@), n as nat, rounds[i] as nat)) by {
                assert(a0s[i].wf());
                lemma_bound_to_start::<F>(c0s[i]);
            }
            assert forall|i: int| 0 <= i < k implies bound_to::<F>(#[trigger] dvec@[i], d0s[i], own_challenges(vals(r@), n as nat, rounds[i] as nat)) by {
                assert(a0s[i].wf());
                lemma_bound_to_start::<F>(d0s[i]);
            }
            lemma_cong_refl::<F>(e_init.val() as int);
            if complete {
                let start = |i: int| inst_claim4::<F>((avec@[i], bvec@[i], cvec@[i], dvec@[i]), cl[i], n as nat, rounds[i] as nat);
                let scaled = |i: int| pow2((n - rounds[i]) as nat) * cl[i];
                assert forall|i: int| 0 <= i < k implies congruent::<F>(#[trigger] start(i), scaled(i)) by {
                    assert(rounds[i] <= n);
                    if n > rounds[i] {
                        assert(start(i) == scaled(i));
                        lemma_cong_refl::<F>(scaled(i));
                    } else {
                        let z = (n - rounds[i]) as nat;
                        assert(z == 0nat);
                        assert(pow2(z) == 1) by {
                            vstd::arithmetic::power2::lemma2_to64();
                        }
                        let pz = pow2(z) as int;
                        assert(pz * cl[i] == cl[i]) by (nonlinear_arith)
                            requires
                                pz == 1,
                        ;
                        assert(claims@[i].val() == cl[i]);
                        lemma_sum_four_pmt::<F, C>(comb_func, vals(a0s[i].z@), vals(b0s[i].z@), vals(c0s[i].z@), vals(d0s[i].z@), a0s[i].z@.len());
                        lemma_cong_sym::<F>(cl[i], start(i));
                    }
                }
                lemma_wsum_congruent::<F>(start, scaled, w, k as nat);
                lemma_batch_claim_wsum(cl, rounds, w, n as nat, k as nat);
                lemma_cong_sym::<F>(wsum(start, w, k as nat), wsum(scaled, w, k as nat));
                lemma_cong_trans::<F>(e_init.val() as int, wsum(scaled, w, k as nat), wsum(start, w, k as nat));
            }
        }
        while current_round < n
            invariant
                k == claims@.len(),
                n == seq_max(rounds),
                rounds == num_rounds@,
                cl == vals(claims@),
                w == vals(coeffs@),
                rounds.len() == k,
                a0s.len() == k,
                b0s.len() == k,
                c0s.len() == k,
                d0s.len() == k,
                w.len() == k,
                forall|i: int|
                    0 <= i < k ==> {
                        &&& (#[trigger] a0s[i]).wf() && a0s[i].num_vars == rounds[i]
                        &&& b0s[i].wf() && b0s[i].num_vars == rounds[i]
                        &&& c0s[i].wf() && c0s[i].num_vars == rounds[i]
                        &&& d0s[i].wf() && d0s[i].num_vars == rounds[i]
                    },
                forall|i: int| 0 <= i < k ==> #[trigger] rounds[i] <= n,
                forall|i: int| 0 <= i < k ==> n - #[trigger] rounds[i] < 64,
                n > 0 ==> F::modulus() > 3,
                complete == (is_product_minus_term::<F, C>(comb_func) && forall|i: int|
                    0 <= i < k ==> congruent::<F>(
                        (#[trigger] claims@[i]).val() as int,
                        sum_four::<F, C>(
                            comb_func,
                            vals(a0s[i].z@),
                            vals(b0s[i].z@),
                            vals(c0s[i].z@),
                            vals(d0s[i].z@),
                            a0s[i].z@.len(),
                        ),
                    )),
                current_round <= n,
                r@.len() == current_round,
                polys@.len() == current_round,
                forall|j: int|
                    0 <= j < current_round ==> (#[trigger] polys@[j]).coeffs_except_linear_term@.len() == 3,
                avec@.len() == k,
                bvec@.len() == k,
                cvec@.len() == k,
                dvec@.len() == k,
                batch_bound::<F>(avec@, a0s, vals(r@), n as nat, rounds),
                batch_bound::<F>(bvec@, b0s, vals(r@), n as nat, rounds),
                batch_bound::<F>(cvec@, c0s, vals(r@), n as nat, rounds),
                batch_bound::<F>(dvec@, d0s, vals(r@), n as nat, rounds),
                forall|i: int|
                    0 <= i < k && current_round <= n - rounds[i] ==> {
                        &&& (#[trigger] avec@[i]) == a0s[i]
                        &&& bvec@[i] == b0s[i]
                        &&& cvec@[i] == c0s[i]
                        &&& dvec@[i] == d0s[i]
                    },
                congruent::<F>(
                    e.val() as int,
                    final_claim(compressed_vals(polys@), e_init.val() as int, vals(r@)),
                ),
                complete ==> congruent::<F>(
                    e.val() as int,
                    wsum(
                        |i: int|
                            inst_claim4::<F>(
                                (avec@[i], bvec@[i], cvec@[i], dvec@[i]),
                                cl[i],
                                (n - current_round) as nat,
                                rounds[i] as nat,
                            ),
                        w,
                        k as nat,
                    ),
                ),
                log0 == old(transcript).log(),
                transcript.log() == log0 + rounds_log(compressed_vals(polys@), e_init.val() as int, r@),
                congruent::<F>(e_init.val() as int, batch_claim(cl, rounds, w, n as nat, k as nat)),
                forall|j: int|
                    0 <= j < current_round ==> #[trigger] cubic_batch_round_ok::<F, C>(
                        comb_func,
                        compressed_vals(polys@),
                        batch_claim(cl, rounds, w, n as nat, k as nat),
                        zip_tables::<F>(a0s, b0s, c0s, d0s),
                        cl,
                        rounds,
                        w,
                        n as nat,
                        vals(r@).take(j),
                    ),
            decreases n - current_round,
        {
            let remaining = n - current_round;
            proof {
                assert forall|i: int| 0 <= i < k implies (remaining <= rounds[i] ==> {
                    &&& (#[trigger] avec@[i]).wf() && avec@[i].num_vars == remaining
                    &&& bvec@[i].wf() && bvec@[i].num_vars == remaining
                    &&& cvec@[i].wf() && cvec@[i].num_vars == remaining
                    &&& dvec@[i].wf() && dvec@[i].num_vars == remaining
                }) by {
                    lemma_batch_table::<F>(avec@[i], a0s[i], vals(r@), n as nat, rounds[i] as nat);
                    lemma_batch_table::<F>(bvec@[i], b0s[i], vals(r@), n as nat, rounds[i] as nat);
                    lemma_batch_table::<F>(cvec@[i], c0s[i], vals(r@), n as nat, rounds[i] as nat);
                    lemma_batch_table::<F>(dvec@[i], d0s[i], vals(r@), n as nat, rounds[i] as nat);
                }
                assert forall|i: int| 0 <= i < k && remaining <= rounds[i] implies (#[trigger] cvec@[i]).wf() && cvec@[i].num_vars > 0
                    && dvec@[i].wf() && dvec@[i].num_vars > 0 by {
                    assert(avec@[i].wf());
                }
            }
            let (ev0s, ev2s, ev3s) = batch_eval_points_cubic(
                claims,
                num_rounds,
                &avec,
                &bvec,
                &cvec,
                &dvec,
                &comb_func,
                remaining,
            );
            let e0 = weighted_sum(&ev0s, coeffs);
            let e2 = weighted_sum(&ev2s, coeffs);
            let e3 = weighted_sum(&ev3s, coeffs);
            proof {
                // the round's values are the weighted sums of the instances' shares
                let t0s = zip_tables::<F>(a0s, b0s, c0s, d0s);
                let rs = vals(r@);
                assert forall|i: int|
                    #![trigger ev0s@[i]]
                    #![trigger ev2s@[i]]
                    #![trigger ev3s@[i]]
                    0 <= i < k implies {
                    let sh = cubic_inst_round::<F, C>(comb_func, t0s[i], cl[i], n as nat, rounds[i] as nat, rs);
                    &&& congruent::<F>(ev0s@[i].val() as int, sh.0)
                    &&& congruent::<F>(ev2s@[i].val() as int, sh.1)
                    &&& congruent::<F>(ev3s@[i].val() as int, sh.2)
                } by {
                    assert(t0s[i] == (a0s[i], b0s[i], c0s[i], d0s[i]));
                    if remaining <= rounds[i] {
                        assert(bound_to::<F>(avec@[i], a0s[i], own_challenges(rs, n as nat, rounds[i] as nat)));
                        assert(bound_to::<F>(bvec@[i], b0s[i], own_challenges(rs, n as nat, rounds[i] as nat)));
                        assert(bound_to::<F>(cvec@[i], c0s[i], own_challenges(rs, n as nat, rounds[i] as nat)));
                        assert(bound_to::<F>(dvec@[i], d0s[i], own_challenges(rs, n as nat, rounds[i] as nat)));
                        lemma_batch_table_canonical::<F>(avec@[i], a0s[i], rs, n as nat, rounds[i] as nat);
                        lemma_batch_table_canonical::<F>(bvec@[i], b0s[i], rs, n as nat, rounds[i] as nat);
                        lemma_batch_table_canonical::<F>(cvec@[i], c0s[i], rs, n as nat, rounds[i] as nat);
                        lemma_batch_table_canonical::<F>(dvec@[i], d0s[i], rs, n as nat, rounds[i] as nat);
                    } else {
                        assert(claims@[i].val() == cl[i]);
                    }
                }
                lemma_wsum_congruent::<F>(
                    |i: int| ev0s@[i].val() as int,
                    |i: int| cubic_inst_round::<F, C>(comb_func, t0s[i], cl[i], n as nat, rounds[i] as nat, rs).0,
                    w,
                    k as nat,
                );
                lemma_wsum_congruent::<F>(
                    |i: int| ev2s@[i].val() as int,
                    |i: int| cubic_inst_round::<F, C>(comb_func, t0s[i], cl[i], n as nat, rounds[i] as nat, rs).1,
                    w,
                    k as nat,
                );
                lemma_wsum_congruent::<F>(
                    |i: int| ev3s@[i].val() as int,
                    |i: int| cubic_inst_round::<F, C>(comb_func, t0s[i], cl[i], n as nat, rounds[i] as nat, rs).2,
                    w,
                    k as nat,
                );
                let v = cubic_batch_points::<F, C>(comb_func, t0s, cl, rounds, w, n as nat, rs);
                lemma_cong_trans::<F>(e0.val() as int, wsum(|i: int| ev0s@[i].val() as int, w, k as nat), v.0);
                lemma_cong_trans::<F>(e2.val() as int, wsum(|i: int| ev2s@[i].val() as int, w, k as nat), v.1);
                lemma_cong_trans::<F>(e3.val() as int, wsum(|i: int| ev3s@[i].val() as int, w, k as nat), v.2);
            }
            let diff = field_sub(&e, &e0);
            let evals = vec![e0, diff, e2, e3];
            let poly = UniPoly::from_evals(&evals);
            proof {
                // the absorbed polynomial is the one the verifier recovers
                let pv = vals(poly.coeffs@);
                assert(congruent::<F>(poly_eval(pv, 0), evals@[0].val() as int));
                assert(congruent::<F>(poly_eval(pv, 1), evals@[1].val() as int));
                lemma_cong_trans::<F>(poly_eval(pv, 1), diff.val() as int, e.val() - e0.val());
                lemma_cong_add::<F>(poly_eval(pv, 0), e0.val() as int, poly_eval(pv, 1), e.val() - e0.val());
                assert(e0.val() + (e.val() - e0.val()) == e.val());
                lemma_vals_canonical::<F>(poly.coeffs@);
                lemma_prover_absorb::<F>(
                    compressed_vals(polys@),
                    e_init.val() as int,
                    vals(r@),
                    e.val() as int,
                    pv,
                );
            }
            transcript.absorb_poly("p", &poly);
            let r_i = match transcript.squeeze("c") {
                Ok(x) => x,
                Err(err) => {
                    proof {
                        assert forall|j: int| 0 <= j < compressed_vals(polys@).len() implies (#[trigger] compressed_vals(
                            polys@,
                        )[j]).len() >= 1 by {
                            assert(polys@[j].coeffs_except_linear_term@.len() >= 2);
                        }
                        lemma_prover_log_err::<F>(
                            log0,
                            compressed_vals(polys@),
                            e_init.val() as int,
                            r@,
                            vals(poly.coeffs@),
                            n as nat,
                            err,
                        );
                        lemma_prover_stopped_congruent::<F>(
                            log0,
                            transcript.log(),
                            e_init.val() as int,
                            batch_claim(cl, rounds, w, n as nat, k as nat),
                            n as nat,
                            err,
                        );
                    }
                    return Err(err);
                },
            };
            proof {
                lemma_prover_log_ok::<F>(
                    log0,
                    compressed_vals(polys@),
                    e_init.val() as int,
                    r@,
                    vals(poly.coeffs@),
                    r_i,
                );
            }
            let ghost (r_old, polys_old, e_old) = (r@, polys@, e);
            let ghost (as_old, bs_old, cs_old, ds_old) = (avec@, bvec@, cvec@, dvec@);
            r.push(r_i);
            let compressed = poly.compress();
            polys.push(compressed);
            e = poly.evaluate(&r_i);
            bind_active(&mut avec, &mut bvec, num_rounds, remaining, &r_i);
            bind_active(&mut cvec, &mut dvec, num_rounds, remaining, &r_i);
            proof {
                // this round's polynomial takes the round's values; earlier rounds keep theirs
                let pv = vals(poly.coeffs@);
                let bc = batch_claim(cl, rounds, w, n as nat, k as nat);
                let t0s = zip_tables::<F>(a0s, b0s, c0s, d0s);
                let cvo = compressed_vals(polys_old);
                let cvn = compressed_vals(polys@);
                lemma_compressed_vals_push::<F>(polys_old, compressed);
                crate::spartan::polys::lemma_vals_compress::<F>(poly.coeffs@);
                assert(cvn =~= cvo.push(compress_coeffs(pv)));
                assert(vals(r@) =~= vals(r_old).push(r_i.val() as int));
                assert forall|j: int| 0 <= j < cvn.len() implies (#[trigger] cvn[j]).len() >= 1 by {
                    if j < current_round {
                        assert(cvn[j] == cvo[j]);
                        assert(polys_old[j].coeffs_except_linear_term@.len() == 3);
                    }
                }
                lemma_round_poly_congruent::<F>(cvn, e_init.val() as int, bc, vals(r_old));
                assert(vals(r@).take(current_round as int) =~= vals(r_old));
                assert(congruent::<F>(poly_eval(pv, 0), evals@[0].val() as int));
                assert(congruent::<F>(poly_eval(pv, 2), evals@[2].val() as int));
                assert(congruent::<F>(poly_eval(pv, 3), evals@[3].val() as int));
                let v = cubic_batch_points::<F, C>(comb_func, t0s, cl, rounds, w, n as nat, vals(r_old));
                lemma_cong_trans::<F>(poly_eval(pv, 0), e0.val() as int, v.0);
                lemma_cong_trans::<F>(poly_eval(pv, 2), e2.val() as int, v.1);
                lemma_cong_trans::<F>(poly_eval(pv, 3), e3.val() as int, v.2);
                assert(cubic_batch_round_ok::<F, C>(comb_func, cvn, bc, t0s, cl, rounds, w, n as nat, vals(r@).take(current_round as int)));
                assert forall|j: int| 0 <= j < current_round + 1 implies #[trigger] cubic_batch_round_ok::<F, C>(
                    comb_func,
                    cvn,
                    bc,
                    t0s,
                    cl,
                    rounds,
                    w,
                    n as nat,
                    vals(r@).take(j),
                ) by {
                    if j < current_round {
                        assert(vals(r@).take(j) =~= vals(r_old).take(j));
                        assert(cvn.take(j) =~= cvo.take(j));
                        assert(cvn[j] == cvo[j]);
                        assert(cubic_batch_round_ok::<F, C>(comb_func, cvo, bc, t0s, cl, rounds, w, n as nat, vals(r_old).take(j)));
                    }
                }
            }
            proof {
                let pv = vals(poly.coeffs@);
                let x = r_i.val() as int;
                assert(congruent::<F>(poly_eval(pv, 0), evals@[0].val() as int));
                assert(congruent::<F>(poly_eval(pv, 1), evals@[1].val() as int));
                assert(congruent::<F>(poly_eval(pv, 2), evals@[2].val() as int));
                assert(congruent::<F>(poly_eval(pv, 3), evals@[3].val() as int));
                lemma_cong_trans::<F>(poly_eval(pv, 1), diff.val() as int, e_old.val() - e0.val());
                lemma_cong_add::<F>(poly_eval(pv, 0), e0.val() as int, poly_eval(pv, 1), e_old.val() - e0.val());
                assert(e0.val() + (e_old.val() - e0.val()) == e_old.val());
                lemma_prover_round::<F>(
                    compressed_vals(polys_old),
                    e_init.val() as int,
                    vals(r_old),
                    e_old.val() as int,
                    pv,
                    x,
                    e.val() as int,
                );
                lemma_compressed_vals_push::<F>(polys_old, compressed);
                crate::spartan::polys::lemma_vals_compress::<F>(poly.coeffs@);
                assert(compressed_vals(polys@) =~= compressed_vals(polys_old).push(compress_coeffs(pv)));
                assert(vals(r@) =~= vals(r_old).push(x));
                assert forall|j: int| 0 <= j < current_round + 1 implies (#[trigger] polys@[j]).coeffs_except_linear_term@.len() == 3 by {
                    if j < current_round {
                        assert(polys@[j] == polys_old[j]);
                    }
                }
                let told = |i: int| (as_old[i], bs_old[i], cs_old[i], ds_old[i]);
                let tnew = |i: int| (avec@[i], bvec@[i], cvec@[i], dvec@[i]);
                assert forall|i: int| 0 <= i < k implies {
                    &&& bound_to::<F>(#[trigger] avec@[i], a0s[i], own_challenges(vals(r@), n as nat, rounds[i] as nat))
                    &&& bound_to::<F>(bvec@[i], b0s[i], own_challenges(vals(r@), n as nat, rounds[i] as nat))
                    &&& bound_to::<F>(cvec@[i], c0s[i], own_challenges(vals(r@), n as nat, rounds[i] as nat))
                    &&& bound_to::<F>(dvec@[i], d0s[i], own_challenges(vals(r@), n as nat, rounds[i] as nat))
                    &&& (current_round + 1 <= n - rounds[i] ==> avec@[i] == a0s[i] && bvec@[i] == b0s[i]
                        && cvec@[i] == c0s[i] && dvec@[i] == d0s[i])
                    &&& (complete ==> inst_round_ok4::<F>(
                        told(i),
                        tnew(i),
                        cl[i],
                        remaining as nat,
                        rounds[i] as nat,
                        vals(ev0s@)[i],
                        vals(ev2s@)[i],
                        vals(ev3s@)[i],
                        x,
                    ))
                } by {
                    let ni = rounds[i] as nat;
                    let own_old = own_challenges(vals(r_old), n as nat, ni);
                    lemma_own_challenges_push(vals(r_old), n as nat, ni, x);
                    lemma_batch_table::<F>(as_old[i], a0s[i], vals(r_old), n as nat, ni);
                    lemma_batch_table::<F>(bs_old[i], b0s[i], vals(r_old), n as nat, ni);
                    lemma_batch_table::<F>(cs_old[i], c0s[i], vals(r_old), n as nat, ni);
                    lemma_batch_table::<F>(ds_old[i], d0s[i], vals(r_old), n as nat, ni);
                    if remaining <= rounds[i] {
                        lemma_bound_to_push::<F>(as_old[i], avec@[i], a0s[i], own_old, x);
                        lemma_bound_to_push::<F>(bs_old[i], bvec@[i], b0s[i], own_old, x);
                        lemma_bound_to_push::<F>(cs_old[i], cvec@[i], c0s[i], own_old, x);
                        lemma_bound_to_push::<F>(ds_old[i], dvec@[i], d0s[i], own_old, x);
                    }
                    if complete {
                        if remaining <= rounds[i] {
                            let h = as_old[i].z@.len() / 2;
                            let (va, vb, vc, vd) = (vals(as_old[i].z@), vals(bs_old[i].z@), vals(cs_old[i].z@), vals(ds_old[i].z@));
                            lemma_sum_four_pmt::<F, C>(comb_func, va, vb, vc, vd, h);
                            lemma_sum_four_pmt::<F, C>(comb_func, line_two::<F>(va, h), line_two::<F>(vb, h), line_two::<F>(vc, h), line_two::<F>(vd, h), h);
                            lemma_sum_four_pmt::<F, C>(comb_func, line_three::<F>(va, h), line_three::<F>(vb, h), line_three::<F>(vc, h), line_three::<F>(vd, h), h);
                        } else {
                            assert(as_old[i] == a0s[i] && bs_old[i] == b0s[i] && cs_old[i] == c0s[i] && ds_old[i] == d0s[i]);
                            if remaining - 1 == rounds[i] {
                                assert(claims@[i].val() == cl[i]);
                                lemma_sum_four_pmt::<F, C>(comb_func, vals(a0s[i].z@), vals(b0s[i].z@), vals(c0s[i].z@), vals(d0s[i].z@), a0s[i].z@.len());
                            }
                        }
                        lemma_batch_cubic_instance::<F>(
                            told(i),
                            tnew(i),
                            cl[i],
                            remaining as nat,
                            ni,
                            vals(ev0s@)[i],
                            vals(ev2s@)[i],
                            vals(ev3s@)[i],
                            x,
                        );
                    }
                }
                assert forall|i: int| 0 <= i < k implies bound_to::<F>(#[trigger] bvec@[i], b0s[i], own_challenges(vals(r@), n as nat, rounds[i] as nat)) by {
                    assert(bound_to::<F>(avec@[i], a0s[i], own_challenges(vals(r@), n as nat, rounds[i] as nat)));
                }
                assert forall|i: int| 0 <= i < k implies bound_to::<F>(#[trigger] cvec@[i], c0s[i], own_challenges(vals(r@), n as nat, rounds[i] as nat)) by {
                    assert(bound_to::<F>(avec@[i], a0s[i], own_challenges(vals(r@), n as nat, rounds[i] as nat)));
                }
                assert forall|i: int| 0 <= i < k implies bound_to::<F>(#[trigger] dvec@[i], d0s[i], own_challenges(vals(r@), n as nat, rounds[i] as nat)) by {
                    assert(bound_to::<F>(avec@[i], a0s[i], own_challenges(vals(r@), n as nat, rounds[i] as nat)));
                }
                assert(batch_bound::<F>(avec@, a0s, vals(r@), n as nat, rounds));
                assert(batch_bound::<F>(bvec@, b0s, vals(r@), n as nat, rounds));
                assert(batch_bound::<F>(cvec@, c0s, vals(r@), n as nat, rounds));
                assert(batch_bound::<F>(dvec@, d0s, vals(r@), n as nat, rounds));
                if complete {
                    lemma_wsum_ext(|i: int| ev0s@[i].val() as int, |i: int| vals(ev0s@)[i], w, k as nat);
                    lemma_wsum_ext(|i: int| ev2s@[i].val() as int, |i: int| vals(ev2s@)[i], w, k as nat);
                    lemma_wsum_ext(|i: int| ev3s@[i].val() as int, |i: int| vals(ev3s@)[i], w, k as nat);
                    let run_old = |i: int| inst_claim4::<F>((as_old[i], bs_old[i], cs_old[i], ds_old[i]), cl[i], remaining as nat, rounds[i] as nat);
                    lemma_wsum_ext(run_old, |i: int| inst_claim4::<F>(told(i), cl[i], remaining as nat, rounds[i] as nat), w, k as nat);
                    assert forall|i: int| 0 <= i < k implies #[trigger] inst_round_ok4::<F>(
                        told(i),
                        tnew(i),
                        cl[i],
                        remaining as nat,
                        rounds[i] as nat,
                        vals(ev0s@)[i],
                        vals(ev2s@)[i],
                        vals(ev3s@)[i],
                        x,
                    ) by {
                        assert(bound_to::<F>(avec@[i], a0s[i], own_challenges(vals(r@), n as nat, rounds[i] as nat)));
                    }
                    lemma_batch_cubic_round::<F>(
                        told,
                        tnew,
                        cl,
                        rounds,
                        w,
                        k as nat,
                        remaining as nat,
                        vals(ev0s@),
                        vals(ev2s@),
                        vals(ev3s@),
                        e_old.val() as int,
                        e0.val() as int,
                        diff.val() as int,
                        e2.val() as int,
                        e3.val() as int,
                        pv,
                        x,
                    );
                    let run_new = |i: int| inst_claim4::<F>((avec@[i], bvec@[i], cvec@[i], dvec@[i]), cl[i], (remaining - 1) as nat, rounds[i] as nat);
                    lemma_wsum_ext(|i: int| inst_claim4::<F>(tnew(i), cl[i], (remaining - 1) as nat, rounds[i] as nat), run_new, w, k as nat);
                    lemma_cong_trans::<F>(e.val() as int, poly_eval(pv, x), wsum(run_new, w, k as nat));
                }
            }
            current_round = current_round + 1;
        }
        // every instance has taken part in all its rounds: one entry is left
        proof {
            assert forall|i: int| 0 <= i < k implies {
                &&& (#[trigger] avec@[i]).wf() && avec@[i].num_vars == 0
                &&& bvec@[i].wf() && bvec@[i].num_vars == 0
                &&& cvec@[i].wf() && cvec@[i].num_vars == 0
                &&& dvec@[i].wf() && dvec@[i].num_vars == 0
            } by {
                lemma_batch_table::<F>(avec@[i], a0s[i], vals(r@), n as nat, rounds[i] as nat);
                assert(bound_to::<F>(bvec@[i], b0s[i], own_challenges(vals(r@), n as nat, rounds[i] as nat)));
                assert(bound_to::<F>(cvec@[i], c0s[i], own_challenges(vals(r@), n as nat, rounds[i] as nat)));
                assert(bound_to::<F>(dvec@[i], d0s[i], own_challenges(vals(r@), n as nat, rounds[i] as nat)));
                lemma_batch_table::<F>(bvec@[i], b0s[i], vals(r@), n as nat, rounds[i] as nat);
                lemma_batch_table::<F>(cvec@[i], c0s[i], vals(r@), n as nat, rounds[i] as nat);
                lemma_batch_table::<F>(dvec@[i], d0s[i], vals(r@), n as nat, rounds[i] as nat);
                reveal(pow);
            }
        }
        let a_final = first_entries(&avec);
        let b_final = first_entries(&bvec);
        let c_final = first_entries(&cvec);
        let d_final = first_entries(&dvec);
        let ghost pp = polys@;
        let proof_out = SumcheckProof::new(polys);
        proof {
            assert forall|j: int| 0 <= j < compressed_vals(pp).len() implies (#[trigger] compressed_vals(pp)[j]).len()
                >= 1 by {
                assert(pp[j].coeffs_except_linear_term@.len() == 3);
            }
            lemma_rounds_log_congruent::<F>(
                compressed_vals(pp),
                e_init.val() as int,
                batch_claim(cl, rounds, w, n as nat, k as nat),
                r@,
            );
        }
        proof {
            let nn = n as nat;
            assert(proof_out.well_formed()) by {
                assert forall|j: int| 0 <= j < pp.len() implies (#[trigger] proof_out.compressed_polys@[j]).coeffs_except_linear_term@.len() >= 1 by {
                    assert(pp[j].coeffs_except_linear_term@.len() == 3);
                }
            }
            assert forall|i: int| 0 <= i < k implies {
                let own = own_challenges(vals(r@), nn, rounds[i] as nat);
                &&& congruent::<F>((#[trigger] a_final@[i]).val() as int, bind_all(vals(a0s[i].z@), own)[0])
                &&& congruent::<F>(b_final@[i].val() as int, bind_all(vals(b0s[i].z@), own)[0])
                &&& congruent::<F>(c_final@[i].val() as int, bind_all(vals(c0s[i].z@), own)[0])
                &&& congruent::<F>(d_final@[i].val() as int, bind_all(vals(d0s[i].z@), own)[0])
            } by {
                assert(avec@[i].wf());
                assert(bound_to::<F>(bvec@[i], b0s[i], own_challenges(vals(r@), nn, rounds[i] as nat)));
                assert(bound_to::<F>(cvec@[i], c0s[i], own_challenges(vals(r@), nn, rounds[i] as nat)));
                assert(bound_to::<F>(dvec@[i], d0s[i], own_challenges(vals(r@), nn, rounds[i] as nat)));
                assert(bvec@[i].wf() && cvec@[i].wf() && dvec@[i].wf());
                assert(avec@[i].z@.len() == 1 && bvec@[i].z@.len() == 1) by {
                    reveal(pow);
                }
                assert(vals(avec@[i].z@)[0] == a_final@[i].val());
                assert(vals(bvec@[i].z@)[0] == b_final@[i].val());
                assert(vals(cvec@[i].z@)[0] == c_final@[i].val());
                assert(vals(dvec@[i].z@)[0] == d_final@[i].val());
            }
            if complete {
                let run = |i: int| inst_claim4::<F>((avec@[i], bvec@[i], cvec@[i], dvec@[i]), cl[i], 0, rounds[i] as nat);
                let out = |i: int|
                    comb_func.combine_spec(
                        a_final@[i].val() as int,
                        b_final@[i].val() as int,
                        c_final@[i].val() as int,
                        d_final@[i].val() as int,
                    );
                assert forall|i: int| 0 <= i < k implies #[trigger] run(i) == out(i) by {
                    assert(avec@[i].wf() && bvec@[i].wf() && cvec@[i].wf() && dvec@[i].wf());
                    assert(avec@[i].z@.len() == 1 && bvec@[i].z@.len() == 1) by {
                        reveal(pow);
                    }
                    assert(cvec@[i].z@.len() == 1 && dvec@[i].z@.len() == 1) by {
                        reveal(pow);
                    }
                    let (va, vb, vc, vd) = (vals(avec@[i].z@), vals(bvec@[i].z@), vals(cvec@[i].z@), vals(dvec@[i].z@));
                    assert(pmt(va, vb, vc, vd, 0) == 0);
                    assert(va[0] == a_final@[i].val() && vb[0] == b_final@[i].val());
                    assert(vc[0] == c_final@[i].val() && vd[0] == d_final@[i].val());
                    assert(run(i) == pmt(va, vb, vc, vd, 1));
                }
                lemma_wsum_ext(run, out, w, k as nat);
                assert forall|j: int| 0 <= j < compressed_vals(pp).len() implies (#[trigger] compressed_vals(pp)[j]).len() >= 1 by {
                    assert(pp[j].coeffs_except_linear_term@.len() == 3);
                }
                lemma_final_claim_congruent::<F>(
                    compressed_vals(pp),
                    e_init.val() as int,
                    batch_claim(cl, rounds, w, nn, k as nat),
                    vals(r@),
                );
                lemma_cong_sym::<F>(e.val() as int, final_claim(compressed_vals(pp), e_init.val() as int, vals(r@)));
                lemma_cong_sym::<F>(
                    final_claim(compressed_vals(pp), e_init.val() as int, vals(r@)),
                    final_claim(compressed_vals(pp), batch_claim(cl, rounds, w, nn, k as nat), vals(r@)),
                );
                lemma_cong_trans::<F>(
                    final_claim(compressed_vals(pp), batch_claim(cl, rounds, w, nn, k as nat), vals(r@)),
                    final_claim(compressed_vals(pp), e_init.val() as int, vals(r@)),
                    e.val() as int,
                );
                lemma_cong_trans::<F>(
                    final_claim(compressed_vals(pp), batch_claim(cl, rounds, w, nn, k as nat), vals(r@)),
                    e.val() as int,
                    wsum(run, w, k as nat),
                );
            }
        }
        let evals = vec![a_final, b_final, c_final, d_final];
        Ok((proof_out, r, evals))
    }
}

/// The first entry of each table.
fn first_entries<F: PrimeField>(tables: &Vec<MultilinearPolynomial<F>>) -> (r: Vec<F>)
    requires
        forall|i: int| 0 <= i < tables@.len() ==> (#[trigger] tables@[i]).wf(),
    ensures
        r@.len() == tables@.len(),
        forall|i: int| 0 <= i < tables@.len() ==> (#[trigger] r@[i]) == tables@[i].z@[0],
{
    let mut out: Vec<F> = Vec::new();
    let mut i: usize = 0;
    while i < tables.len()
        invariant
            i <= tables@.len(),
            forall|j: int| 0 <= j < tables@.len() ==> (#[trigger] tables@[j]).wf(),
            out@.len() == i,
            forall|j: int| 0 <= j < i ==> (#[trigger] out@[j]) == tables@[j].z@[0],
        decreases tables@.len() - i,
    {
        proof {
            assert(tables@[i as int].wf());
            vstd::arithmetic::power::lemma_pow_positive(2, tables@[i as int].num_vars as nat);
        }
        out.push(tables[i].get(0));
        i = i + 1;
    }
    out
}

/// `k.0 + k.1 a + k.2 b + k.3 a^2 + k.4 a b + k.5 b^2`.
pub open spec fn quad_poly(k: (int, int, int, int, int, int), a: int, b: int) -> int {
    k.0 + k.1 * a + k.2 * b + k.3 * (a * a) + k.4 * (a * b) + k.5 * (b * b)
}

/// `comb` is, in the field, the polynomial with coefficients `k`.
pub open spec fn combines_as<F: PrimeField, C: CombineTwo<F>>(comb: C, k: (int, int, int, int, int, int)) -> bool {
    forall|a: int, b: int| congruent::<F>(#[trigger] comb.combine_spec(a, b), quad_poly(k, a, b))
}

/// `comb` is, in the field, a polynomial of degree at most two.
pub open spec fn is_quadratic<F: PrimeField, C: CombineTwo<F>>(comb: C) -> bool {
    exists|k: (int, int, int, int, int, int)| combines_as::<F, C>(comb, k)
}

/// `sum_{i < n} quad_poly(k, a[i], b[i])`.
pub open spec fn qsum(k: (int, int, int, int, int, int), a: Seq<int>, b: Seq<int>, n: nat) -> int
    decreases n,
{
    if n == 0 {
        0
    } else {
        qsum(k, a, b, (n - 1) as nat) + quad_poly(k, a[n - 1], b[n - 1])
    }
}

/// `sum_{i < n} quad_poly(k, a[h + i], b[h + i])`.
pub open spec fn qsum_upper(k: (int, int, int, int, int, int), a: Seq<int>, b: Seq<int>, h: nat, n: nat) -> int
    decreases n,
{
    if n == 0 {
        0
    } else {
        qsum_upper(k, a, b, h, (n - 1) as nat) + quad_poly(k, a[h + n - 1], b[h + n - 1])
    }
}

/// The linear coefficient of `quad_poly(k, p + x u, q + x v)` in `x`.
pub open spec fn quad_lin(k: (int, int, int, int, int, int), p: int, u: int, q: int, v: int) -> int {
    k.1 * u + k.2 * v + k.3 * (2 * (p * u)) + k.4 * (p * v + u * q) + k.5 * (2 * (q * v))
}

/// The quadratic coefficient of `quad_poly(k, p + x u, q + x v)` in `x`.
pub open spec fn quad_sq(k: (int, int, int, int, int, int), u: int, v: int) -> int {
    k.3 * (u * u) + k.4 * (u * v) + k.5 * (v * v)
}

/// The linear coefficient of the sum along the lines between the halves.
pub open spec fn qlin_sum(k: (int, int, int, int, int, int), a: Seq<int>, b: Seq<int>, h: nat, n: nat) -> int
    decreases n,
{
    if n == 0 {
        0
    } else {
        let i = n - 1;
        qlin_sum(k, a, b, h, (n - 1) as nat) + quad_lin(k, a[i], a[i + h] - a[i], b[i], b[i + h] - b[i])
    }
}

/// The quadratic coefficient of the sum along the lines between the halves.
pub open spec fn qsq_sum(k: (int, int, int, int, int, int), a: Seq<int>, b: Seq<int>, h: nat, n: nat) -> int
    decreases n,
{
    if n == 0 {
        0
    } else {
        let i = n - 1;
        qsq_sum(k, a, b, h, (n - 1) as nat) + quad_sq(k, a[i + h] - a[i], b[i + h] - b[i])
    }
}

/// `c (A0 + x A1 + x^2 A2) == c A0 + x (c A1) + x^2 (c A2)`.
pub proof fn lemma_scale_quadratic(c: int, a0: int, a1: int, a2: int, x: int)
    ensures
        c * (a0 + x * a1 + x * x * a2) == c * a0 + x * (c * a1) + x * x * (c * a2),
{
    assert(c * (a0 + x * a1 + x * x * a2) == c * a0 + c * (x * a1) + c * (x * x * a2)) by (nonlinear_arith);
    assert(c * (x * a1) == x * (c * a1)) by (nonlinear_arith);
    assert(c * (x * x * a2) == x * x * (c * a2)) by (nonlinear_arith);
}

/// Along a line, a polynomial of degree two is quadratic in the line's parameter.
pub proof fn lemma_quad_poly_line(k: (int, int, int, int, int, int), p: int, u: int, q: int, v: int, x: int)
    ensures
        quad_poly(k, p + x * u, q + x * v) == quad_poly(k, p, q) + x * quad_lin(k, p, u, q, v) + x * x
            * quad_sq(k, u, v),
{
    lemma_line_product(p, u, p, u, x);
    lemma_line_product(p, u, q, v, x);
    lemma_line_product(q, v, q, v, x);
    assert(p * u + u * p == 2 * (p * u)) by (nonlinear_arith);
    assert(q * v + v * q == 2 * (q * v)) by (nonlinear_arith);
    lemma_scale_quadratic(k.1, p, u, 0, x);
    lemma_scale_quadratic(k.2, q, v, 0, x);
    lemma_scale_quadratic(k.3, p * p, 2 * (p * u), u * u, x);
    lemma_scale_quadratic(k.4, p * q, p * v + u * q, u * v, x);
    lemma_scale_quadratic(k.5, q * q, 2 * (q * v), v * v, x);
    assert(x * x * 0 == 0 && k.1 * 0 == 0 && k.2 * 0 == 0) by (nonlinear_arith);
    let (l1, l2, l3, l4, l5) = (k.1 * u, k.2 * v, k.3 * (2 * (p * u)), k.4 * (p * v + u * q), k.5 * (2 * (q * v)));
    let (s3, s4, s5) = (k.3 * (u * u), k.4 * (u * v), k.5 * (v * v));
    assert(x * l1 + x * l2 + x * l3 + x * l4 + x * l5 == x * (l1 + l2 + l3 + l4 + l5)) by (nonlinear_arith);
    assert(x * x * s3 + x * x * s4 + x * x * s5 == x * x * (s3 + s4 + s5)) by (nonlinear_arith);
}

/// Along the lines between the halves, the sum of a degree-two polynomial is
/// quadratic in the lines' parameter.
pub proof fn lemma_qsum_line(k: (int, int, int, int, int, int), a: Seq<int>, b: Seq<int>, h: nat, x: int, n: nat)
    requires
        a.len() == 2 * h,
        b.len() == 2 * h,
        n <= h,
    ensures
        qsum(k, bind_top(a, x), bind_top(b, x), n) == qsum(k, a, b, n) + x * qlin_sum(k, a, b, h, n) + x * x
            * qsq_sum(k, a, b, h, n),
    decreases n,
{
    if n > 0 {
        let i = n - 1;
        lemma_qsum_line(k, a, b, h, x, (n - 1) as nat);
        let (p, u, q, v) = (a[i], a[i + h] - a[i], b[i], b[i + h] - b[i]);
        assert(bind_top(a, x)[i] == p + x * u);
        assert(bind_top(b, x)[i] == q + x * v);
        lemma_quad_poly_line(k, p, u, q, v, x);
        let (s1, s2) = (qlin_sum(k, a, b, h, (n - 1) as nat), qsq_sum(k, a, b, h, (n - 1) as nat));
        let (t1, t2) = (quad_lin(k, p, u, q, v), quad_sq(k, u, v));
        assert(x * (s1 + t1) == x * s1 + x * t1) by (nonlinear_arith);
        assert(x * x * (s2 + t2) == x * x * s2 + x * x * t2) by (nonlinear_arith);
    }
}

/// The sum over the first `h + m` entries splits at `h`.
pub proof fn lemma_qsum_split(k: (int, int, int, int, int, int), a: Seq<int>, b: Seq<int>, h: nat, m: nat)
    ensures
        qsum(k, a, b, h + m) == qsum(k, a, b, h) + qsum_upper(k, a, b, h, m),
    decreases m,
{
    if m > 0 {
        lemma_qsum_split(k, a, b, h, (m - 1) as nat);
        assert((h + m - 1) as nat == h + (m - 1));
    }
}

/// At one, the lines reach the upper halves.
pub proof fn lemma_qsum_at_one(k: (int, int, int, int, int, int), a: Seq<int>, b: Seq<int>, h: nat, n: nat)
    requires
        a.len() == 2 * h,
        b.len() == 2 * h,
        n <= h,
    ensures
        qsum(k, bind_top(a, 1), bind_top(b, 1), n) == qsum_upper(k, a, b, h, n),
    decreases n,
{
    if n > 0 {
        let i = n - 1;
        lemma_qsum_at_one(k, a, b, h, (n - 1) as nat);
        assert(bind_top(a, 1)[i] == a[i + h]);
        assert(bind_top(b, 1)[i] == b[i + h]);
    }
}

/// A polynomial takes congruent values at congruent points.
pub proof fn lemma_quad_poly_congruent<F: PrimeField>(k: (int, int, int, int, int, int), a: int, b: int, a2: int, b2: int)
    requires
        congruent::<F>(a, a2),
        congruent::<F>(b, b2),
    ensures
        congruent::<F>(quad_poly(k, a, b), quad_poly(k, a2, b2)),
{
    lemma_cong_refl::<F>(k.0);
    lemma_cong_refl::<F>(k.1);
    lemma_cong_refl::<F>(k.2);
    lemma_cong_refl::<F>(k.3);
    lemma_cong_refl::<F>(k.4);
    lemma_cong_refl::<F>(k.5);
    lemma_cong_mul::<F>(k.1, k.1, a, a2);
    lemma_cong_mul::<F>(k.2, k.2, b, b2);
    lemma_cong_mul::<F>(a, a2, a, a2);
    lemma_cong_mul::<F>(a, a2, b, b2);
    lemma_cong_mul::<F>(b, b2, b, b2);
    lemma_cong_mul::<F>(k.3, k.3, a * a, a2 * a2);
    lemma_cong_mul::<F>(k.4, k.4, a * b, a2 * b2);
    lemma_cong_mul::<F>(k.5, k.5, b * b, b2 * b2);
    lemma_cong_add::<F>(k.0, k.0, k.1 * a, k.1 * a2);
    lemma_cong_add::<F>(k.0 + k.1 * a, k.0 + k.1 * a2, k.2 * b, k.2 * b2);
    lemma_cong_add::<F>(k.0 + k.1 * a + k.2 * b, k.0 + k.1 * a2 + k.2 * b2, k.3 * (a * a), k.3 * (a2 * a2));
    lemma_cong_add::<F>(
        k.0 + k.1 * a + k.2 * b + k.3 * (a * a),
        k.0 + k.1 * a2 + k.2 * b2 + k.3 * (a2 * a2),
        k.4 * (a * b),
        k.4 * (a2 * b2),
    );
    lemma_cong_add::<F>(
        k.0 + k.1 * a + k.2 * b + k.3 * (a * a) + k.4 * (a * b),
        k.0 + k.1 * a2 + k.2 * b2 + k.3 * (a2 * a2) + k.4 * (a2 * b2),
        k.5 * (b * b),
        k.5 * (b2 * b2),
    );
}

/// Sums of a polynomial over congruent entries are congruent.
pub proof fn lemma_qsum_congruent<F: PrimeField>(
    k: (int, int, int, int, int, int),
    a: Seq<int>,
    b: Seq<int>,
    a2: Seq<int>,
    b2: Seq<int>,
    n: nat,
)
    requires
        forall|i: int| 0 <= i < n ==> congruent::<F>(#[trigger] a[i], a2[i]),
        forall|i: int| 0 <= i < n ==> congruent::<F>(#[trigger] b[i], b2[i]),
    ensures
        congruent::<F>(qsum(k, a, b, n), qsum(k, a2, b2, n)),
    decreases n,
{
    if n == 0 {
        lemma_cong_refl::<F>(0);
    } else {
        let i = n - 1;
        lemma_qsum_congruent::<F>(k, a, b, a2, b2, (n - 1) as nat);
        assert(congruent::<F>(a[i], a2[i]));
        assert(congruent::<F>(b[i], b2[i]));
        lemma_quad_poly_congruent::<F>(k, a[i], b[i], a2[i], b2[i]);
        lemma_cong_add::<F>(
            qsum(k, a, b, (n - 1) as nat),
            qsum(k, a2, b2, (n - 1) as nat),
            quad_poly(k, a[i], b[i]),
            quad_poly(k, a2[i], b2[i]),
        );
    }
}

/// A combination that is a polynomial sums as the polynomial does.
pub proof fn lemma_sum_two_quadratic<F: PrimeField, C: CombineTwo<F>>(
    comb: C,
    k: (int, int, int, int, int, int),
    a: Seq<int>,
    b: Seq<int>,
    n: nat,
)
    requires
        combines_as::<F, C>(comb, k),
    ensures
        congruent::<F>(sum_two::<F, C>(comb, a, b, n), qsum(k, a, b, n)),
    decreases n,
{
    if n == 0 {
        lemma_cong_refl::<F>(0);
    } else {
        lemma_sum_two_quadratic::<F, C>(comb, k, a, b, (n - 1) as nat);
        assert(congruent::<F>(comb.combine_spec(a[n - 1], b[n - 1]), quad_poly(k, a[n - 1], b[n - 1])));
        lemma_cong_add::<F>(
            sum_two::<F, C>(comb, a, b, (n - 1) as nat),
            qsum(k, a, b, (n - 1) as nat),
            comb.combine_spec(a[n - 1], b[n - 1]),
            quad_poly(k, a[n - 1], b[n - 1]),
        );
    }
}

/// One round of the quadratic prover is complete for any combination of degree at
/// most two: if the running claim is the sum of the combination over the tables,
/// the interpolated round polynomial is, at every point, that sum over the tables
/// bound to the point.
pub proof fn lemma_quadratic_round<F: PrimeField>(
    k: (int, int, int, int, int, int),
    a: Seq<int>,
    b: Seq<int>,
    h: nat,
    claim: int,
    e0: int,
    e1: int,
    e2: int,
    c: Seq<int>,
    x: int,
)
    requires
        a.len() == 2 * h,
        b.len() == 2 * h,
        F::modulus() > 3,
        congruent::<F>(claim, qsum(k, a, b, 2 * h)),
        congruent::<F>(e0, qsum(k, a, b, h)),
        congruent::<F>(e1, claim - e0),
        congruent::<F>(e2, qsum(k, line_two::<F>(a, h), line_two::<F>(b, h), h)),
        c.len() == 3,
        congruent::<F>(poly_eval(c, 0), e0),
        congruent::<F>(poly_eval(c, 1), e1),
        congruent::<F>(poly_eval(c, 2), e2),
    ensures
        congruent::<F>(poly_eval(c, x), qsum(k, bind_top(a, x), bind_top(b, x), h)),
{
    let s0 = qsum(k, a, b, h);
    let s1 = qlin_sum(k, a, b, h, h);
    let s2 = qsq_sum(k, a, b, h, h);
    lemma_qsum_line(k, a, b, h, 1, h);
    lemma_qsum_line(k, a, b, h, 2, h);
    lemma_qsum_line(k, a, b, h, x, h);
    assert(1 * s1 == s1 && 1 * 1 * s2 == s2) by (nonlinear_arith);
    assert(2 * 2 * s2 == 4 * s2) by (nonlinear_arith);
    // at 0
    lemma_cong_trans::<F>(poly_eval(c, 0), e0, s0);
    // at 1: the upper half
    lemma_qsum_split(k, a, b, h, h);
    lemma_qsum_at_one(k, a, b, h, h);
    lemma_cong_sub::<F>(claim, qsum(k, a, b, 2 * h), e0, s0);
    lemma_cong_trans::<F>(e1, claim - e0, qsum(k, a, b, 2 * h) - s0);
    lemma_cong_trans::<F>(poly_eval(c, 1), e1, qsum(k, a, b, 2 * h) - s0);
    // at 2
    lemma_line_points::<F>(a, h);
    lemma_line_points::<F>(b, h);
    lemma_qsum_congruent::<F>(k, bind_top(a, 2), bind_top(b, 2), line_two::<F>(a, h), line_two::<F>(b, h), h);
    lemma_cong_sym::<F>(qsum(k, bind_top(a, 2), bind_top(b, 2), h), qsum(k, line_two::<F>(a, h), line_two::<F>(b, h), h));
    lemma_cong_trans::<F>(e2, qsum(k, line_two::<F>(a, h), line_two::<F>(b, h), h), qsum(k, bind_top(a, 2), bind_top(b, 2), h));
    lemma_cong_trans::<F>(poly_eval(c, 2), e2, qsum(k, bind_top(a, 2), bind_top(b, 2), h));
    lemma_quadratic_unique::<F>(c, s0, s1, s2, x);
    assert(s0 + x * s1 + (x * x) * s2 == s0 + x * s1 + x * x * s2) by (nonlinear_arith);
}

} // verus!
