use zkpd::ff::bls12_381::Bls381K12Scalar;
use zkpd::util::{
    evaluations, interpolate, interpolate_eval, is_power_of_two, naive_add, naive_mul, scalar_div,
    scalar_mul,
};
use zkpd::FiniteField;

type F = Bls381K12Scalar;

fn f(n: usize) -> F {
    F::from_usize(n)
}

fn fs(v: &[usize]) -> Vec<F> {
    v.iter().map(|&n| f(n)).collect()
}

#[test]
fn power_of_two_cases() {
    assert!(!is_power_of_two(0));
    assert!(is_power_of_two(1));
    assert!(is_power_of_two(2));
    assert!(!is_power_of_two(3));
    assert!(is_power_of_two(1024));
    assert!(!is_power_of_two(1023));
    assert!(is_power_of_two(1usize << 40));
}

#[test]
fn evaluations_by_horner() {
    // 2 + 3x + x^2 at 1, 2, 3
    assert_eq!(evaluations(&fs(&[2, 3, 1]), 3), fs(&[6, 12, 20]));
    assert_eq!(evaluations(&fs(&[9]), 5), fs(&[9, 9, 9, 9, 9]));
    assert_eq!(evaluations(&[] as &[F], 0), Vec::<F>::new());
}

#[test]
fn naive_add_pads_shorter() {
    assert_eq!(naive_add(&fs(&[1, 2, 3]), &fs(&[10, 20])), fs(&[11, 22, 3]));
    assert_eq!(naive_add(&fs(&[]), &fs(&[4])), fs(&[4]));
}

#[test]
fn naive_mul_convolves() {
    // (1 + 2x)(3 + x + x^2) = 3 + 7x + 3x^2 + 2x^3
    assert_eq!(naive_mul(&fs(&[1, 2]), &fs(&[3, 1, 1])), fs(&[3, 7, 3, 2]));
    assert_eq!(naive_mul(&fs(&[5]), &fs(&[])), Vec::<F>::new());
}

#[test]
fn naive_mul_evaluates_to_product() {
    let a = fs(&[3, 1, 4, 1]);
    let b = fs(&[5, 9, 2]);
    let prod = naive_mul(&a, &b);
    let ea = evaluations(&a, 6);
    let eb = evaluations(&b, 6);
    let ep = evaluations(&prod, 6);
    for i in 0..6 {
        assert_eq!(ea[i].mul(&eb[i]), ep[i]);
    }
}

#[test]
fn scalar_mul_and_div() {
    assert_eq!(scalar_mul(&fs(&[1, 2, 3]), &f(4)), fs(&[4, 8, 12]));
    assert_eq!(scalar_div(&fs(&[4, 8, 12]), &f(4)), fs(&[1, 2, 3]));
    let third = scalar_div(&fs(&[1]), &f(3));
    assert_eq!(third[0].mul(&f(3)), f(1));
}

#[test]
fn interpolate_recovers_coefficients() {
    let poly = fs(&[11, 0, 7, 3, 5]);
    let evals = evaluations(&poly, 5);
    assert_eq!(interpolate(&evals, 5), poly);
    // A lower-degree polynomial comes back padded with zeros.
    let line = fs(&[2, 1]);
    let evals = evaluations(&line, 3);
    assert_eq!(interpolate(&evals, 3), fs(&[2, 1, 0]));
}

#[test]
fn interpolate_eval_reproduces_values() {
    let poly = fs(&[8, 6, 1]);
    let points = fs(&[2, 7, 11]);
    let values: Vec<F> = points
        .iter()
        .map(|x| poly[0].add(&poly[1].mul(x)).add(&poly[2].mul(x).mul(x)))
        .collect();
    assert_eq!(interpolate_eval(&points, &values, &f(0)), f(8));
    assert_eq!(interpolate_eval(&points, &values, &f(1)), f(15));
    assert_eq!(interpolate_eval(&points, &values, &f(7)), values[1]);
}

#[test]
fn interpolate_of_pointwise_products_is_the_product() {
    let a = fs(&[1, 2, 3]);
    let b = fs(&[4, 5, 6]);
    let n = 5;
    let ea = evaluations(&a, n);
    let eb = evaluations(&b, n);
    let products: Vec<F> = (0..n).map(|i| ea[i].mul(&eb[i])).collect();
    assert_eq!(interpolate(&products, n), naive_mul(&a, &b));
}

#[test]
fn naive_mul_commutes_and_has_a_unit() {
    let p = fs(&[3, 0, 7, 1]);
    let q = fs(&[2, 5]);
    assert_eq!(naive_mul(&p, &q), naive_mul(&q, &p));
    assert_eq!(naive_mul(&p, &[F::one()]), p);
}
