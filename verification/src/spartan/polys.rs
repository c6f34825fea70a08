//! Polynomials for the sum-check protocol: univariate polynomials in coefficient
//! form, their compressed form without the linear term, and multilinear
//! polynomials given by their evaluations over the boolean hypercube.
use crate::field::PrimeField;
use crate::r1cs::{
    congruent, lemma_cong_add, lemma_cong_add_chain, lemma_cong_eq, lemma_cong_mod,
    lemma_cong_mul, lemma_cong_mul_chain, lemma_cong_refl, lemma_cong_sub, lemma_cong_sub_chain,
    lemma_cong_sym, lemma_cong_trans,
};
use vstd::arithmetic::div_mod::*;
use vstd::arithmetic::power::pow;
use vstd::prelude::*;

verus! {

/// The integers that a sequence of field elements stands for.
pub open spec fn vals<F: PrimeField>(s: Seq<F>) -> Seq<int> {
    s.map_values(|x: F| x.val() as int)
}

/// The sum of a sequence.
pub open spec fn seq_sum(s: Seq<int>) -> int
    decreases s.len(),
{
    if s.len() == 0 {
        0
    } else {
        s[0] + seq_sum(s.drop_first())
    }
}

/// `sum_i c[i] * x^i`.
pub open spec fn poly_eval(c: Seq<int>, x: int) -> int
    decreases c.len(),
{
    if c.len() == 0 {
        0
    } else {
        poly_eval(c.drop_last(), x) + c.last() * pow(x, (c.len() - 1) as nat)
    }
}

/// Corresponding entries are congruent.
pub open spec fn seq_congruent<F: PrimeField>(a: Seq<int>, b: Seq<int>) -> bool {
    a.len() == b.len() && forall|i: int| 0 <= i < a.len() ==> congruent::<F>(#[trigger] a[i], b[i])
}

/// The coefficients without the linear one.
pub open spec fn compress_coeffs<T>(c: Seq<T>) -> Seq<T> {
    seq![c[0]] + c.subrange(2, c.len() as int)
}

/// The coefficients recovered from the compressed ones and the value of
/// `p(0) + p(1)`.
pub open spec fn decompress_coeffs(c: Seq<int>, hint: int) -> Seq<int> {
    seq![c[0], hint - c[0] - c[0] - seq_sum(c.subrange(1, c.len() as int))] + c.subrange(
        1,
        c.len() as int,
    )
}

/// `a + b` in the field.
pub fn field_add<F: PrimeField>(a: &F, b: &F) -> (r: F)
    ensures
        congruent::<F>(r.val() as int, (a.val() + b.val()) as int),
{
    let r = a.add(b);
    proof {
        lemma_cong_mod::<F>((a.val() + b.val()) as int);
    }
    r
}

/// `a - b` in the field.
pub fn field_sub<F: PrimeField>(a: &F, b: &F) -> (r: F)
    ensures
        congruent::<F>(r.val() as int, a.val() - b.val()),
{
    let r = a.sub(b);
    proof {
        lemma_cong_mod::<F>(a.val() - b.val());
    }
    r
}

/// `a * b` in the field.
pub fn field_mul<F: PrimeField>(a: &F, b: &F) -> (r: F)
    ensures
        congruent::<F>(r.val() as int, (a.val() * b.val()) as int),
{
    let r = a.mul(b);
    proof {
        lemma_cong_mod::<F>((a.val() * b.val()) as int);
    }
    r
}

/// The inverse of a small non-zero constant `n`.
pub fn small_inverse<F: PrimeField>(n: u64) -> (r: F)
    requires
        n as nat % F::modulus() != 0,
    ensures
        congruent::<F>(n * r.val(), 1),
{
    let c = F::from_u64(n);
    proof {
        F::lemma_modulus_is_prime();
    }
    match c.invert() {
        Some(inv) => {
            proof {
                lemma_cong_mod::<F>(n * inv.val());
                lemma_small_mod(1, F::modulus());
                lemma_mul_mod_noop_left(n as int, inv.val() as int, F::modulus() as int);
            }
            inv
        },
        None => {
            proof {
                assert(false);
            }
            F::zero()
        },
    }
}

/// In a prime field of characteristic above three, two and six are units.
pub proof fn lemma_two_six_units<F: PrimeField>()
    requires
        F::modulus() > 3,
    ensures
        2nat % F::modulus() != 0,
        6nat % F::modulus() != 0,
{
    F::lemma_modulus_is_prime();
    let p = F::modulus();
    lemma_small_mod(2, p);
    if p > 6 {
        lemma_small_mod(6, p);
    } else {
        // p is 5: 4 and 6 are not prime
        assert(p % 2 != 0);
        assert(p == 5);
        assert(6nat % 5nat == 1nat);
    }
}

/// Appending to a sum adds the new entry.
pub proof fn lemma_seq_sum_push(s: Seq<int>, x: int)
    ensures
        seq_sum(s.push(x)) == seq_sum(s) + x,
    decreases s.len(),
{
    let t = s.push(x);
    assert(t[0] == if s.len() == 0 { x } else { s[0] });
    if s.len() == 0 {
        assert(t.drop_first() =~= Seq::<int>::empty());
        assert(seq_sum(t.drop_first()) == 0);
    } else {
        assert(t.drop_first() =~= s.drop_first().push(x));
        lemma_seq_sum_push(s.drop_first(), x);
    }
}

/// At one, a polynomial is the sum of its coefficients.
pub proof fn lemma_poly_eval_one(c: Seq<int>)
    ensures
        poly_eval(c, 1) == seq_sum(c),
    decreases c.len(),
{
    if c.len() > 0 {
        lemma_poly_eval_one(c.drop_last());
        vstd::arithmetic::power::lemma1_pow((c.len() - 1) as nat);
        lemma_seq_sum_push(c.drop_last(), c.last());
        assert(c.drop_last().push(c.last()) =~= c);
    }
}

/// At zero, a polynomial is its constant coefficient.
pub proof fn lemma_poly_eval_zero(c: Seq<int>)
    ensures
        c.len() > 0 ==> poly_eval(c, 0) == c[0],
        c.len() == 0 ==> poly_eval(c, 0) == 0,
    decreases c.len(),
{
    if c.len() > 0 {
        lemma_poly_eval_zero(c.drop_last());
        if c.len() > 1 {
            vstd::arithmetic::power::lemma0_pow((c.len() - 1) as nat);
            assert(c.drop_last()[0] == c[0]);
        } else {
            vstd::arithmetic::power::lemma_pow0(0);
        }
    }
}

/// Congruent coefficients give congruent values.
pub proof fn lemma_poly_eval_congruent<F: PrimeField>(a: Seq<int>, b: Seq<int>, x: int, y: int)
    requires
        seq_congruent::<F>(a, b),
        congruent::<F>(x, y),
    ensures
        congruent::<F>(poly_eval(a, x), poly_eval(b, y)),
    decreases a.len(),
{
    if a.len() == 0 {
        lemma_cong_refl::<F>(0);
    } else {
        lemma_poly_eval_congruent::<F>(a.drop_last(), b.drop_last(), x, y);
        lemma_pow_congruent::<F>(x, y, (a.len() - 1) as nat);
        assert(congruent::<F>(a.last(), b.last()));
        lemma_cong_mul::<F>(a.last(), b.last(), pow(x, (a.len() - 1) as nat), pow(y, (a.len() - 1) as nat));
        lemma_cong_add::<F>(poly_eval(a.drop_last(), x), poly_eval(b.drop_last(), y), a.last() * pow(x, (a.len() - 1) as nat), b.last() * pow(y, (a.len() - 1) as nat));
    }
}

/// Powers of congruent bases are congruent.
pub proof fn lemma_pow_congruent<F: PrimeField>(x: int, y: int, e: nat)
    requires
        congruent::<F>(x, y),
    ensures
        congruent::<F>(pow(x, e), pow(y, e)),
    decreases e,
{
    reveal(pow);
    if e == 0 {
        lemma_cong_refl::<F>(1);
    } else {
        lemma_pow_congruent::<F>(x, y, (e - 1) as nat);
        lemma_cong_mul::<F>(x, y, pow(x, (e - 1) as nat), pow(y, (e - 1) as nat));
    }
}

/// Compressing and then decompressing with `p(0) + p(1)` gives back `p`.
pub proof fn lemma_decompress_compress(c: Seq<int>)
    requires
        c.len() >= 2,
    ensures
        decompress_coeffs(compress_coeffs(c), poly_eval(c, 0) + poly_eval(c, 1)) == c,
{
    let cc = compress_coeffs(c);
    lemma_poly_eval_zero(c);
    lemma_poly_eval_one(c);
    let tail = cc.subrange(1, cc.len() as int);
    assert(tail =~= c.subrange(2, c.len() as int));
    // sum c == c0 + c1 + sum of the rest
    assert(c.drop_first().drop_first() =~= tail);
    assert(seq_sum(c) == c[0] + c[1] + seq_sum(tail)) by {
        assert(seq_sum(c) == c[0] + seq_sum(c.drop_first()));
        assert(c.drop_first()[0] == c[1]);
    }
    assert(decompress_coeffs(cc, poly_eval(c, 0) + poly_eval(c, 1)) =~= c);
}

/// A decompressed polynomial's values at zero and one add up to the hint.
pub proof fn lemma_decompress_sum(c: Seq<int>, hint: int)
    requires
        c.len() >= 1,
    ensures
        poly_eval(decompress_coeffs(c, hint), 0) + poly_eval(decompress_coeffs(c, hint), 1) == hint,
{
    let d = decompress_coeffs(c, hint);
    let tail = c.subrange(1, c.len() as int);
    lemma_poly_eval_zero(d);
    lemma_poly_eval_one(d);
    assert(d.drop_first().drop_first() =~= tail);
    assert(seq_sum(d) == d[0] + d[1] + seq_sum(tail)) by {
        assert(seq_sum(d) == d[0] + seq_sum(d.drop_first()));
        assert(d.drop_first()[0] == d[1]);
    }
}

/// A univariate polynomial in coefficient form, lowest degree first.
#[derive(Clone, Debug)]
pub struct UniPoly<F> {
    pub coeffs: Vec<F>,
}

/// A univariate polynomial without its linear coefficient, which the value of
/// `p(0) + p(1)` determines.
#[derive(Clone, Debug)]
pub struct CompressedUniPoly<F> {
    pub coeffs_except_linear_term: Vec<F>,
}

impl<F: PrimeField> UniPoly<F> {
    /// The polynomial of degree two or three that takes the values `evals` at
    /// `0, 1, 2` (and `3`).
    #[verifier::spinoff_prover]
    pub fn from_evals(evals: &Vec<F>) -> (r: Self)
        requires
            evals@.len() == 3 || evals@.len() == 4,
            F::modulus() > 3,
        ensures
            r.coeffs@.len() == evals@.len(),
            forall|i: int|
                0 <= i < evals@.len() ==> congruent::<F>(
                    #[trigger] poly_eval(vals(r.coeffs@), i),
                    evals@[i].val() as int,
                ),
    {
        let e0 = evals[0];
        let e1 = evals[1];
        let e2 = evals[2];
        let ghost (x0, x1, x2) = (e0.val() as int, e1.val() as int, e2.val() as int);
        proof {
            lemma_two_six_units::<F>();
        }
        if evals.len() == 3 {
            // a x^2 + b x + c
            let two_inv = small_inverse::<F>(2);
            let c = e0;
            let t1 = field_sub(&e2, &e1);
            let t2 = field_sub(&t1, &e1);
            let t3 = field_add(&t2, &c);
            let a = field_mul(&two_inv, &t3);
            let t4 = field_sub(&e1, &c);
            let b = field_sub(&t4, &a);
            let mut coeffs: Vec<F> = Vec::new();
            coeffs.push(c);
            coeffs.push(b);
            coeffs.push(a);
            proof {
                let (av, bv, cv, iv) = (a.val() as int, b.val() as int, c.val() as int, two_inv.val() as int);
                lemma_cong_refl::<F>(x0);
                lemma_cong_refl::<F>(x1);
                lemma_cong_refl::<F>(x2);
                lemma_cong_refl::<F>(iv);
                lemma_cong_sub_chain::<F>(t1.val() as int, x2, x1, x2, x1);
                lemma_cong_sub_chain::<F>(t2.val() as int, t1.val() as int, x1, x2 - x1, x1);
                lemma_cong_add_chain::<F>(t3.val() as int, t2.val() as int, cv, x2 - x1 - x1, x0);
                lemma_cong_mul_chain::<F>(av, iv, t3.val() as int, iv, x2 - x1 - x1 + x0);
                lemma_cong_sub_chain::<F>(t4.val() as int, x1, cv, x1, x0);
                lemma_cong_refl::<F>(av);
                lemma_cong_sub_chain::<F>(bv, t4.val() as int, av, x1 - x0, av);
                let cs = vals(coeffs@);
                assert(cs =~= seq![cv, bv, av]);
                reveal_with_fuel(poly_eval, 4);
                assert(cs.drop_last() =~= seq![cv, bv]);
                assert(cs.drop_last().drop_last() =~= seq![cv]);
                assert(cs.drop_last().drop_last().drop_last() =~= Seq::<int>::empty());
                assert(pow(0, 0) == 1 && pow(0, 1) == 0 && pow(0, 2) == 0) by {
                    reveal_with_fuel(pow, 3);
                }
                assert(pow(1, 0) == 1 && pow(1, 1) == 1 && pow(1, 2) == 1) by {
                    reveal_with_fuel(pow, 3);
                }
                assert(pow(2, 0) == 1 && pow(2, 1) == 2 && pow(2, 2) == 4) by {
                    reveal_with_fuel(pow, 3);
                }
                // p(0) == c == e0
                assert(poly_eval(cs, 0) == cv);
                lemma_cong_eq::<F>(poly_eval(cs, 0), x0);
                // p(1) == c + b + a == e1
                assert(poly_eval(cs, 1) == cv + bv + av);
                lemma_cong_add::<F>(cv + av, x0 + av, bv, x1 - x0 - av);
                lemma_cong_trans::<F>(poly_eval(cs, 1), x0 + av + (x1 - x0 - av), x1);
                // p(2) == c + 2 b + 4 a == 2 e1 - e0 + 2 a == e2
                assert(poly_eval(cs, 2) == cv + 2 * bv + 4 * av);
                lemma_cong_refl::<F>(2);
                lemma_cong_mul::<F>(2, 2, bv, x1 - x0 - av);
                lemma_cong_add::<F>(cv + 4 * av, x0 + 4 * av, 2 * bv, 2 * (x1 - x0 - av));
                assert(x0 + 4 * av + 2 * (x1 - x0 - av) == 2 * x1 - x0 + 2 * av);
                // 2 a == 2 * inv2 * (e2 - 2 e1 + e0) == e2 - 2 e1 + e0
                lemma_cong_mul::<F>(2, 2, av, iv * (x2 - x1 - x1 + x0));
                assert(2 * (iv * (x2 - x1 - x1 + x0)) == (2 * iv) * (x2 - x1 - x1 + x0)) by (nonlinear_arith);
                lemma_cong_refl::<F>(x2 - x1 - x1 + x0);
                lemma_cong_mul::<F>(2 * iv, 1, x2 - x1 - x1 + x0, x2 - x1 - x1 + x0);
                lemma_cong_trans::<F>(2 * av, 2 * (iv * (x2 - x1 - x1 + x0)), x2 - x1 - x1 + x0);
                lemma_cong_refl::<F>(2 * x1 - x0);
                lemma_cong_add::<F>(2 * x1 - x0, 2 * x1 - x0, 2 * av, x2 - x1 - x1 + x0);
                lemma_cong_trans::<F>(poly_eval(cs, 2), 2 * x1 - x0 + 2 * av, x2);
                assert forall|i: int| 0 <= i < 3 implies congruent::<F>(
                    #[trigger] poly_eval(vals(coeffs@), i),
                    evals@[i].val() as int,
                ) by {
                    if i == 0 {
                    } else if i == 1 {
                    } else {
                    }
                }
            }
            UniPoly { coeffs }
        } else {
            // a x^3 + b x^2 + c x + d
            let e3 = evals[3];
            let ghost x3 = e3.val() as int;
            let two_inv = small_inverse::<F>(2);
            let six_inv = small_inverse::<F>(6);
            let d = e0;
            // a = (e3 - 3 e2 + 3 e1 - e0) / 6
            let s1 = field_sub(&e3, &e2);
            let s2 = field_sub(&s1, &e2);
            let s3 = field_sub(&s2, &e2);
            let s4 = field_add(&s3, &e1);
            let s5 = field_add(&s4, &e1);
            let s6 = field_add(&s5, &e1);
            let s7 = field_sub(&s6, &e0);
            let a = field_mul(&six_inv, &s7);
            // b = (2 e0 - 5 e1 + 4 e2 - e3) / 2
            let u1 = field_add(&e0, &e0);
            let u2 = field_sub(&u1, &e1);
            let u3 = field_sub(&u2, &e1);
            let u4 = field_sub(&u3, &e1);
            let u5 = field_sub(&u4, &e1);
            let u6 = field_sub(&u5, &e1);
            let u7 = field_add(&u6, &e2);
            let u8 = field_add(&u7, &e2);
            let u9 = field_add(&u8, &e2);
            let u10 = field_add(&u9, &e2);
            let u11 = field_sub(&u10, &e3);
            let b = field_mul(&two_inv, &u11);
            // c = e1 - d - a - b
            let v1 = field_sub(&e1, &d);
            let v2 = field_sub(&v1, &a);
            let c = field_sub(&v2, &b);
            let mut coeffs: Vec<F> = Vec::new();
            coeffs.push(d);
            coeffs.push(c);
            coeffs.push(b);
            coeffs.push(a);
            proof {
                let (av, bv, cv, dv) = (a.val() as int, b.val() as int, c.val() as int, d.val() as int);
                let (i2, i6) = (two_inv.val() as int, six_inv.val() as int);
                lemma_cong_refl::<F>(x0);
                lemma_cong_refl::<F>(x1);
                lemma_cong_refl::<F>(x2);
                lemma_cong_refl::<F>(x3);
                lemma_cong_refl::<F>(i2);
                lemma_cong_refl::<F>(i6);
                lemma_cong_sub_chain::<F>(s1.val() as int, x3, x2, x3, x2);
                lemma_cong_sub_chain::<F>(s2.val() as int, s1.val() as int, x2, x3 - x2, x2);
                lemma_cong_sub_chain::<F>(s3.val() as int, s2.val() as int, x2, x3 - x2 - x2, x2);
                lemma_cong_add_chain::<F>(s4.val() as int, s3.val() as int, x1, x3 - x2 - x2 - x2, x1);
                lemma_cong_add_chain::<F>(s5.val() as int, s4.val() as int, x1, x3 - x2 - x2 - x2 + x1, x1);
                lemma_cong_add_chain::<F>(s6.val() as int, s5.val() as int, x1, x3 - x2 - x2 - x2 + x1 + x1, x1);
                lemma_cong_sub_chain::<F>(s7.val() as int, s6.val() as int, x0, x3 - x2 - x2 - x2 + x1 + x1 + x1, x0);
                let ea = x3 - x2 - x2 - x2 + x1 + x1 + x1 - x0;
                lemma_cong_mul_chain::<F>(av, i6, s7.val() as int, i6, ea);
                lemma_cong_add_chain::<F>(u1.val() as int, x0, x0, x0, x0);
                lemma_cong_sub_chain::<F>(u2.val() as int, u1.val() as int, x1, x0 + x0, x1);
                lemma_cong_sub_chain::<F>(u3.val() as int, u2.val() as int, x1, x0 + x0 - x1, x1);
                lemma_cong_sub_chain::<F>(u4.val() as int, u3.val() as int, x1, x0 + x0 - x1 - x1, x1);
                lemma_cong_sub_chain::<F>(u5.val() as int, u4.val() as int, x1, x0 + x0 - x1 - x1 - x1, x1);
                lemma_cong_sub_chain::<F>(u6.val() as int, u5.val() as int, x1, x0 + x0 - x1 - x1 - x1 - x1, x1);
                lemma_cong_add_chain::<F>(u7.val() as int, u6.val() as int, x2, x0 + x0 - x1 - x1 - x1 - x1 - x1, x2);
                lemma_cong_add_chain::<F>(u8.val() as int, u7.val() as int, x2, x0 + x0 - x1 - x1 - x1 - x1 - x1 + x2, x2);
                lemma_cong_add_chain::<F>(u9.val() as int, u8.val() as int, x2, x0 + x0 - x1 - x1 - x1 - x1 - x1 + x2 + x2, x2);
                lemma_cong_add_chain::<F>(u10.val() as int, u9.val() as int, x2, x0 + x0 - x1 - x1 - x1 - x1 - x1 + x2 + x2 + x2, x2);
                lemma_cong_sub_chain::<F>(u11.val() as int, u10.val() as int, x3, x0 + x0 - x1 - x1 - x1 - x1 - x1 + x2 + x2 + x2 + x2, x3);
                let eb = x0 + x0 - x1 - x1 - x1 - x1 - x1 + x2 + x2 + x2 + x2 - x3;
                lemma_cong_mul_chain::<F>(bv, i2, u11.val() as int, i2, eb);
                lemma_cong_sub_chain::<F>(v1.val() as int, x1, dv, x1, x0);
                lemma_cong_refl::<F>(av);
                lemma_cong_refl::<F>(bv);
                lemma_cong_sub_chain::<F>(v2.val() as int, v1.val() as int, av, x1 - x0, av);
                lemma_cong_sub_chain::<F>(cv, v2.val() as int, bv, x1 - x0 - av, bv);
                // 6 a == ea and 2 b == eb
                lemma_cong_refl::<F>(6);
                lemma_cong_refl::<F>(2);
                lemma_cong_mul::<F>(6, 6, av, i6 * ea);
                assert(6 * (i6 * ea) == (6 * i6) * ea) by (nonlinear_arith);
                lemma_cong_refl::<F>(ea);
                lemma_cong_mul::<F>(6 * i6, 1, ea, ea);
                lemma_cong_trans::<F>(6 * av, 6 * (i6 * ea), ea);
                lemma_cong_mul::<F>(2, 2, bv, i2 * eb);
                assert(2 * (i2 * eb) == (2 * i2) * eb) by (nonlinear_arith);
                lemma_cong_refl::<F>(eb);
                lemma_cong_mul::<F>(2 * i2, 1, eb, eb);
                lemma_cong_trans::<F>(2 * bv, 2 * (i2 * eb), eb);
                let cs = vals(coeffs@);
                assert(cs =~= seq![dv, cv, bv, av]);
                reveal_with_fuel(poly_eval, 5);
                assert(cs.drop_last() =~= seq![dv, cv, bv]);
                assert(cs.drop_last().drop_last() =~= seq![dv, cv]);
                assert(cs.drop_last().drop_last().drop_last() =~= seq![dv]);
                assert(cs.drop_last().drop_last().drop_last().drop_last() =~= Seq::<int>::empty());
                assert(pow(0, 0) == 1 && pow(0, 1) == 0 && pow(0, 2) == 0 && pow(0, 3) == 0) by {
                    reveal_with_fuel(pow, 4);
                }
                assert(pow(1, 0) == 1 && pow(1, 1) == 1 && pow(1, 2) == 1 && pow(1, 3) == 1) by {
                    reveal_with_fuel(pow, 4);
                }
                assert(pow(2, 0) == 1 && pow(2, 1) == 2 && pow(2, 2) == 4 && pow(2, 3) == 8) by {
                    reveal_with_fuel(pow, 4);
                }
                assert(pow(3, 0) == 1 && pow(3, 1) == 3 && pow(3, 2) == 9 && pow(3, 3) == 27) by {
                    reveal_with_fuel(pow, 4);
                }
                // c == e1 - e0 - a - b
                let ec = x1 - x0 - av - bv;
                // p(0) == d == e0
                assert(poly_eval(cs, 0) == dv);
                lemma_cong_eq::<F>(poly_eval(cs, 0), x0);
                // p(1) == d + c + b + a == e1
                assert(poly_eval(cs, 1) == dv + cv + bv + av);
                lemma_cong_refl::<F>(dv + bv + av);
                lemma_cong_add::<F>(dv + bv + av, dv + bv + av, cv, ec);
                assert(dv + bv + av + ec == x1);
                lemma_cong_trans::<F>(poly_eval(cs, 1), dv + bv + av + ec, x1);
                // p(2) == d + 2 c + 4 b + 8 a == 2 e1 - e0 + 2 b + 6 a == e2
                assert(poly_eval(cs, 2) == dv + 2 * cv + 4 * bv + 8 * av);
                lemma_cong_mul::<F>(2, 2, cv, ec);
                lemma_cong_refl::<F>(dv + 4 * bv + 8 * av);
                lemma_cong_add::<F>(dv + 4 * bv + 8 * av, dv + 4 * bv + 8 * av, 2 * cv, 2 * ec);
                assert(dv + 4 * bv + 8 * av + 2 * ec == 2 * x1 - x0 + 2 * bv + 6 * av);
                lemma_cong_refl::<F>(2 * x1 - x0);
                lemma_cong_add::<F>(2 * x1 - x0, 2 * x1 - x0, 2 * bv, eb);
                lemma_cong_add::<F>(2 * x1 - x0 + 2 * bv, 2 * x1 - x0 + eb, 6 * av, ea);
                assert(2 * x1 - x0 + eb + ea == x2);
                lemma_cong_trans::<F>(poly_eval(cs, 2), 2 * x1 - x0 + 2 * bv + 6 * av, x2);
                // p(3) == d + 3 c + 9 b + 27 a == 3 e1 - 2 e0 + 6 b + 24 a == e3
                assert(poly_eval(cs, 3) == dv + 3 * cv + 9 * bv + 27 * av);
                lemma_cong_refl::<F>(3);
                lemma_cong_mul::<F>(3, 3, cv, ec);
                lemma_cong_refl::<F>(dv + 9 * bv + 27 * av);
                lemma_cong_add::<F>(dv + 9 * bv + 27 * av, dv + 9 * bv + 27 * av, 3 * cv, 3 * ec);
                assert(dv + 9 * bv + 27 * av + 3 * ec == 3 * x1 - 2 * x0 + 3 * (2 * bv) + 4 * (6 * av));
                lemma_cong_mul::<F>(3, 3, 2 * bv, eb);
                lemma_cong_refl::<F>(4);
                lemma_cong_mul::<F>(4, 4, 6 * av, ea);
                lemma_cong_refl::<F>(3 * x1 - 2 * x0);
                lemma_cong_add::<F>(3 * x1 - 2 * x0, 3 * x1 - 2 * x0, 3 * (2 * bv), 3 * eb);
                lemma_cong_add::<F>(3 * x1 - 2 * x0 + 3 * (2 * bv), 3 * x1 - 2 * x0 + 3 * eb, 4 * (6 * av), 4 * ea);
                assert(3 * x1 - 2 * x0 + 3 * eb + 4 * ea == x3);
                lemma_cong_trans::<F>(poly_eval(cs, 3), 3 * x1 - 2 * x0 + 3 * (2 * bv) + 4 * (6 * av), x3);
                assert forall|i: int| 0 <= i < 4 implies congruent::<F>(
                    #[trigger] poly_eval(vals(coeffs@), i),
                    evals@[i].val() as int,
                ) by {
                    if i == 0 {
                    } else if i == 1 {
                    } else if i == 2 {
                    } else {
                    }
                }
            }
            UniPoly { coeffs }
        }
    }

    /// The degree, by the number of coefficients.
    pub fn degree(&self) -> (r: usize)
        requires
            self.coeffs@.len() > 0,
        ensures
            r == self.coeffs@.len() - 1,
    {
        self.coeffs.len() - 1
    }

    /// The value at zero.
    pub fn eval_at_zero(&self) -> (r: F)
        requires
            self.coeffs@.len() > 0,
        ensures
            r == self.coeffs@[0],
            congruent::<F>(r.val() as int, poly_eval(vals(self.coeffs@), 0)),
    {
        proof {
            lemma_poly_eval_zero(vals(self.coeffs@));
            lemma_cong_refl::<F>(self.coeffs@[0].val() as int);
        }
        self.coeffs[0]
    }

    /// The value at one: the sum of the coefficients.
    pub fn eval_at_one(&self) -> (r: F)
        ensures
            congruent::<F>(r.val() as int, poly_eval(vals(self.coeffs@), 1)),
    {
        let mut acc = F::zero();
        let mut i: usize = 0;
        proof {
            lemma_cong_refl::<F>(0);
            assert(vals(self.coeffs@).subrange(0, 0) =~= Seq::<int>::empty());
        }
        while i < self.coeffs.len()
            invariant
                i <= self.coeffs@.len(),
                congruent::<F>(acc.val() as int, seq_sum(vals(self.coeffs@).subrange(0, i as int))),
            decreases self.coeffs@.len() - i,
        {
            let ghost prev = acc;
            acc = field_add(&acc, &self.coeffs[i]);
            proof {
                let s = vals(self.coeffs@);
                assert(s.subrange(0, i + 1) =~= s.subrange(0, i as int).push(s[i as int]));
                lemma_seq_sum_push(s.subrange(0, i as int), s[i as int]);
                lemma_cong_refl::<F>(s[i as int]);
                lemma_cong_add_chain::<F>(acc.val() as int, prev.val() as int, s[i as int], seq_sum(s.subrange(0, i as int)), s[i as int]);
            }
            i = i + 1;
        }
        proof {
            assert(vals(self.coeffs@).subrange(0, self.coeffs@.len() as int) =~= vals(self.coeffs@));
            lemma_poly_eval_one(vals(self.coeffs@));
        }
        acc
    }

    /// The value at `r`.
    pub fn evaluate(&self, r: &F) -> (e: F)
        requires
            self.coeffs@.len() > 0,
        ensures
            congruent::<F>(e.val() as int, poly_eval(vals(self.coeffs@), r.val() as int)),
    {
        let mut eval = self.coeffs[0];
        let mut power = *r;
        let mut i: usize = 1;
        let ghost x = r.val() as int;
        proof {
            let s = vals(self.coeffs@);
            assert(s.subrange(0, 1).drop_last() =~= Seq::<int>::empty());
            assert(s.subrange(0, 1).last() == s[0]);
            assert(poly_eval(Seq::<int>::empty(), x) == 0);
            vstd::arithmetic::power::lemma_pow0(x);
            vstd::arithmetic::power::lemma_pow1(x);
            assert(poly_eval(s.subrange(0, 1), x) == s[0]);
            lemma_cong_refl::<F>(s[0]);
            lemma_cong_refl::<F>(x);
        }
        while i < self.coeffs.len()
            invariant
                1 <= i <= self.coeffs@.len(),
                x == r.val(),
                congruent::<F>(eval.val() as int, poly_eval(vals(self.coeffs@).subrange(0, i as int), x)),
                congruent::<F>(power.val() as int, pow(x, i as nat)),
            decreases self.coeffs@.len() - i,
        {
            let ghost (pe, pp) = (eval, power);
            let term = field_mul(&power, &self.coeffs[i]);
            eval = field_add(&eval, &term);
            power = field_mul(&power, r);
            proof {
                let s = vals(self.coeffs@);
                let pre = s.subrange(0, i as int);
                let nxt = s.subrange(0, i + 1);
                assert(nxt.drop_last() =~= pre);
                assert(nxt.last() == s[i as int]);
                lemma_cong_refl::<F>(s[i as int]);
                lemma_cong_mul_chain::<F>(term.val() as int, pp.val() as int, s[i as int], pow(x, i as nat), s[i as int]);
                assert(pow(x, i as nat) * s[i as int] == s[i as int] * pow(x, i as nat)) by (nonlinear_arith);
                lemma_cong_add_chain::<F>(eval.val() as int, pe.val() as int, term.val() as int, poly_eval(pre, x), s[i as int] * pow(x, i as nat));
                lemma_cong_refl::<F>(x);
                lemma_cong_mul_chain::<F>(power.val() as int, pp.val() as int, x, pow(x, i as nat), x);
                assert(pow(x, (i + 1) as nat) == x * pow(x, i as nat)) by {
                    reveal(pow);
                }
                assert(pow(x, i as nat) * x == x * pow(x, i as nat)) by (nonlinear_arith);
            }
            i = i + 1;
        }
        proof {
            assert(vals(self.coeffs@).subrange(0, self.coeffs@.len() as int) =~= vals(self.coeffs@));
        }
        eval
    }

    /// Drops the linear coefficient.
    pub fn compress(&self) -> (r: CompressedUniPoly<F>)
        requires
            self.coeffs@.len() >= 2,
        ensures
            r.coeffs_except_linear_term@ == compress_coeffs(self.coeffs@),
    {
        let mut out: Vec<F> = Vec::new();
        out.push(self.coeffs[0]);
        let mut i: usize = 2;
        while i < self.coeffs.len()
            invariant
                2 <= i <= self.coeffs@.len(),
                out@ == seq![self.coeffs@[0]] + self.coeffs@.subrange(2, i as int),
            decreases self.coeffs@.len() - i,
        {
            out.push(self.coeffs[i]);
            i = i + 1;
            proof {
                assert(out@ =~= seq![self.coeffs@[0]] + self.coeffs@.subrange(2, i as int));
            }
        }
        CompressedUniPoly { coeffs_except_linear_term: out }
    }
}

/// The values of compressed coefficients are the compressed values.
pub proof fn lemma_vals_compress<F: PrimeField>(c: Seq<F>)
    requires
        c.len() >= 2,
    ensures
        vals(compress_coeffs(c)) == compress_coeffs(vals(c)),
{
    assert(vals(compress_coeffs(c)) =~= compress_coeffs(vals(c)));
}

impl<F: PrimeField> CompressedUniPoly<F> {
    /// Recovers the polynomial from `hint`, the value of `p(0) + p(1)`.
    pub fn decompress(&self, hint: &F) -> (r: UniPoly<F>)
        requires
            self.coeffs_except_linear_term@.len() >= 1,
        ensures
            r.coeffs@.len() == self.coeffs_except_linear_term@.len() + 1,
            seq_congruent::<F>(
                vals(r.coeffs@),
                decompress_coeffs(vals(self.coeffs_except_linear_term@), hint.val() as int),
            ),
    {
        let c = &self.coeffs_except_linear_term;
        let ghost cv = vals(c@);
        let mut linear_term = field_sub(hint, &c[0]);
        linear_term = {
            let ghost prev = linear_term;
            let t = field_sub(&linear_term, &c[0]);
            proof {
                lemma_cong_refl::<F>(hint.val() as int);
                lemma_cong_refl::<F>(cv[0]);
                lemma_cong_sub_chain::<F>(t.val() as int, prev.val() as int, cv[0], hint.val() - cv[0], cv[0]);
            }
            t
        };
        let mut i: usize = 1;
        proof {
            assert(cv.subrange(1, 1) =~= Seq::<int>::empty());
        }
        while i < c.len()
            invariant
                1 <= i <= c@.len(),
                cv == vals(c@),
                congruent::<F>(linear_term.val() as int, hint.val() - cv[0] - cv[0] - seq_sum(cv.subrange(1, i as int))),
            decreases c@.len() - i,
        {
            let ghost prev = linear_term;
            linear_term = field_sub(&linear_term, &c[i]);
            proof {
                assert(cv.subrange(1, i + 1) =~= cv.subrange(1, i as int).push(cv[i as int]));
                lemma_seq_sum_push(cv.subrange(1, i as int), cv[i as int]);
                lemma_cong_refl::<F>(cv[i as int]);
                lemma_cong_sub_chain::<F>(linear_term.val() as int, prev.val() as int, cv[i as int], hint.val() - cv[0] - cv[0] - seq_sum(cv.subrange(1, i as int)), cv[i as int]);
            }
            i = i + 1;
        }
        let mut coeffs: Vec<F> = Vec::new();
        coeffs.push(c[0]);
        coeffs.push(linear_term);
        let mut j: usize = 1;
        while j < c.len()
            invariant
                1 <= j <= c@.len(),
                coeffs@ == seq![c@[0], linear_term] + c@.subrange(1, j as int),
            decreases c@.len() - j,
        {
            coeffs.push(c[j]);
            j = j + 1;
            proof {
                assert(coeffs@ =~= seq![c@[0], linear_term] + c@.subrange(1, j as int));
            }
        }
        proof {
            let d = decompress_coeffs(cv, hint.val() as int);
            assert(cv.subrange(1, c@.len() as int) =~= cv.subrange(1, i as int));
            assert forall|k: int| 0 <= k < d.len() implies congruent::<F>(#[trigger] vals(coeffs@)[k], d[k]) by {
                if k != 1 {
                    lemma_cong_refl::<F>(d[k]);
                }
            }
        }
        UniPoly { coeffs }
    }
}

/// Binding the top variable of a multilinear polynomial to `r`:
/// `z'[i] = z[i] + r * (z[i + n] - z[i])` for the lower half.
pub open spec fn bind_top(z: Seq<int>, r: int) -> Seq<int> {
    Seq::new(z.len() / 2, |i: int| z[i] + r * (z[i + z.len() / 2] - z[i]))
}

/// Binding the top variables one after another to `rs`.
pub open spec fn bind_all(z: Seq<int>, rs: Seq<int>) -> Seq<int>
    decreases rs.len(),
{
    if rs.len() == 0 {
        z
    } else {
        bind_top(bind_all(z, rs.drop_last()), rs.last())
    }
}

/// A multilinear polynomial in `num_vars` variables, by its evaluations over the
/// boolean hypercube, the first variable being the most significant bit.
#[derive(Clone, Debug)]
pub struct MultilinearPolynomial<F> {
    pub num_vars: usize,
    pub z: Vec<F>,
}

impl<F: PrimeField> MultilinearPolynomial<F> {
    /// The evaluation table has `2^num_vars` entries.
    pub open spec fn wf(&self) -> bool {
        self.z@.len() == pow(2, self.num_vars as nat)
    }

    /// A polynomial from its evaluations; their number must be a power of two.
    pub fn new(z: Vec<F>) -> (r: Self)
        requires
            exists|k: nat| z@.len() == pow(2, k),
        ensures
            r.wf(),
            r.z@ == z@,
    {
        let n = z.len();
        let mut num_vars: usize = 0;
        let mut size: usize = 1;
        proof {
            vstd::arithmetic::power::lemma_pow0(2);
        }
        let ghost k = choose|k: nat| z@.len() == pow(2, k);
        proof {
            vstd::arithmetic::power::lemma_pow_positive(2, k);
        }
        while size < n
            invariant
                size == pow(2, num_vars as nat),
                n == z@.len(),
                n == pow(2, k),
                num_vars <= k,
                num_vars < size,
                size <= n,
            decreases n - size,
        {
            proof {
                if num_vars == k {
                    assert(false);
                }
                vstd::arithmetic::power::lemma_pow_increases(2, (num_vars + 1) as nat, k);
                assert(pow(2, (num_vars + 1) as nat) == 2 * pow(2, num_vars as nat)) by {
                    reveal(pow);
                }
            }
            size = size * 2;
            num_vars = num_vars + 1;
        }
        proof {
            if num_vars < k {
                vstd::arithmetic::power::lemma_pow_strictly_increases(2, num_vars as nat, k);
            }
        }
        MultilinearPolynomial { num_vars, z }
    }

    /// The number of evaluations.
    pub fn len(&self) -> (r: usize)
        ensures
            r == self.z@.len(),
    {
        self.z.len()
    }

    /// The evaluation at index `i`.
    pub fn get(&self, i: usize) -> (r: F)
        requires
            i < self.z@.len(),
        ensures
            r == self.z@[i as int],
    {
        self.z[i]
    }

    /// Binds the top variable to `r`, halving the table.
    pub fn bind_poly_var_top(&mut self, r: &F)
        requires
            old(self).wf(),
            old(self).num_vars > 0,
        ensures
            final(self).wf(),
            final(self).num_vars == old(self).num_vars - 1,
            seq_congruent::<F>(vals(final(self).z@), bind_top(vals(old(self).z@), r.val() as int)),
    {
        let n = self.z.len() / 2;
        let ghost old_z = vals(self.z@);
        proof {
            reveal(pow);
            assert(pow(2, self.num_vars as nat) == 2 * pow(2, (self.num_vars - 1) as nat));
        }
        let len = self.z.len();
        let nv = self.num_vars;
        let mut i: usize = 0;
        while i < n
            invariant
                n == old_z.len() / 2,
                old_z.len() == self.z@.len(),
                len == self.z@.len(),
                old_z.len() == 2 * n,
                i <= n,
                forall|j: int| i <= j < 2 * n ==> (#[trigger] vals(self.z@)[j]) == old_z[j],
                forall|j: int|
                    0 <= j < i ==> congruent::<F>(
                        #[trigger] vals(self.z@)[j],
                        old_z[j] + r.val() * (old_z[j + n] - old_z[j]),
                    ),
            decreases n - i,
        {
            let a = self.z[i];
            let b = self.z[i + n];
            let d = field_sub(&b, &a);
            let m = field_mul(r, &d);
            let v = field_add(&a, &m);
            let ghost prev_z = self.z@;
            self.z.set(i, v);
            proof {
                assert(self.z@ == prev_z.update(i as int, v));
                assert forall|j: int| i + 1 <= j < 2 * n implies (#[trigger] vals(self.z@)[j]) == old_z[j] by {
                    assert(vals(prev_z)[j] == old_z[j]);
                }
                assert(vals(prev_z)[i as int] == old_z[i as int]);
                assert(vals(prev_z)[i + n] == old_z[i + n]);
                assert forall|j: int| 0 <= j < i implies (#[trigger] vals(self.z@)[j]) == vals(prev_z)[j] by {}
                let (av, bv) = (a.val() as int, b.val() as int);
                lemma_cong_refl::<F>(av);
                lemma_cong_refl::<F>(bv);
                lemma_cong_refl::<F>(r.val() as int);
                lemma_cong_sub_chain::<F>(d.val() as int, bv, av, bv, av);
                lemma_cong_mul_chain::<F>(m.val() as int, r.val() as int, d.val() as int, r.val() as int, bv - av);
                lemma_cong_add_chain::<F>(v.val() as int, av, m.val() as int, av, r.val() * (bv - av));
            }
            i = i + 1;
        }
        let ghost before = self.z@;
        self.z.truncate(n);
        self.num_vars = nv - 1;
        proof {
            assert(self.z@ == before.subrange(0, n as int));
            let bt = bind_top(old_z, r.val() as int);
            assert forall|j: int| 0 <= j < n implies congruent::<F>(#[trigger] vals(self.z@)[j], bt[j]) by {
                assert(vals(self.z@)[j] == vals(before)[j]);
            }
        }
    }
}

} // verus!
