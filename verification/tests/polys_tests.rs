use nova_snark::field::{Fp65537, PrimeField};
use nova_snark::spartan::polys::{CompressedUniPoly, MultilinearPolynomial, UniPoly};

fn f(n: u64) -> Fp65537 {
    Fp65537::from_u64(n)
}

fn values(v: &[Fp65537]) -> Vec<u64> {
    v.iter().map(|x| x.value()).collect()
}

#[test]
fn quadratic_from_evaluations() {
    // (x + 1)^2 at 0, 1, 2
    let p = UniPoly::from_evals(&vec![f(1), f(4), f(9)]);
    assert_eq!(values(&p.coeffs), vec![1, 2, 1]);
    assert_eq!(p.degree(), 2);
}

#[test]
fn cubic_from_evaluations() {
    // x^3 at 0, 1, 2, 3
    let p = UniPoly::from_evals(&vec![f(0), f(1), f(8), f(27)]);
    assert_eq!(values(&p.coeffs), vec![0, 0, 0, 1]);
    // 2x^3 - x + 5 at 0, 1, 2, 3
    let q = UniPoly::from_evals(&vec![f(5), f(6), f(19), f(56)]);
    assert_eq!(values(&q.coeffs), vec![5, 65536, 0, 2]);
}

#[test]
fn evaluation() {
    let p = UniPoly { coeffs: vec![f(1), f(2), f(3)] };
    assert_eq!(p.evaluate(&f(5)).value(), 86);
    assert_eq!(p.eval_at_zero().value(), 1);
    assert_eq!(p.eval_at_one().value(), 6);
    let big = UniPoly { coeffs: vec![f(0), f(0), f(1)] };
    assert_eq!(big.evaluate(&f(256)).value(), 65536);
}

#[test]
fn compress_then_decompress_gives_back_the_polynomial() {
    let p = UniPoly { coeffs: vec![f(1), f(2), f(3), f(4)] };
    let c = p.compress();
    assert_eq!(values(&c.coeffs_except_linear_term), vec![1, 3, 4]);
    let hint = p.eval_at_zero().add(&p.eval_at_one());
    let q = c.decompress(&hint);
    assert_eq!(values(&q.coeffs), vec![1, 2, 3, 4]);
}

#[test]
fn decompressed_polynomial_meets_the_hint() {
    let c = CompressedUniPoly { coeffs_except_linear_term: vec![f(7), f(100)] };
    let q = c.decompress(&f(11));
    assert_eq!(q.eval_at_zero().add(&q.eval_at_one()).value(), 11);
    assert_eq!(values(&q.coeffs), vec![7, 65537 - 103, 100]);
}

#[test]
fn multilinear_table_size_gives_the_variables() {
    let m = MultilinearPolynomial::new(vec![f(1), f(2), f(3), f(4)]);
    assert_eq!(m.num_vars, 2);
    assert_eq!(m.len(), 4);
    assert_eq!(m.get(2).value(), 3);
    let one = MultilinearPolynomial::new(vec![f(9)]);
    assert_eq!(one.num_vars, 0);
}

#[test]
fn binding_the_top_variable() {
    let mut m = MultilinearPolynomial::new(vec![f(1), f(2), f(5), f(10)]);
    m.bind_poly_var_top(&f(3));
    // 1 + 3 (5 - 1) = 13, 2 + 3 (10 - 2) = 26
    assert_eq!(values(&m.z), vec![13, 26]);
    assert_eq!(m.num_vars, 1);
    m.bind_poly_var_top(&f(0));
    assert_eq!(values(&m.z), vec![13]);
    assert_eq!(m.num_vars, 0);
}
