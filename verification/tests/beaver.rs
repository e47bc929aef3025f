use zkpd::beaver_triple_generatoor::{setup_random_shares, BeaverTripleGeneratoor};
use zkpd::ff::bls12_381::Bls381K12Scalar;
use zkpd::mode::poly::{beaver_interpolate, masked_evaluations, recover_polynomial, recover_shifted_poly, share_polynomial};
use zkpd::mode::scalar::{beaver_combine, beaver_shift, cubic_combine};
use zkpd::p2p::scalar_worker::recover_shifted;
use zkpd::secret_sharing::SecretSharing;
use zkpd::util::naive_mul;
use zkpd::{BeaverTripleGeneratoor as BeaverTripleGeneratoorTrait, FiniteField, SecretSharing as SecretSharingTrait};

type F = Bls381K12Scalar;

fn f(n: usize) -> F {
    F::from_usize(n)
}

#[test]
fn generated_triple_multiplies() {
    let (a, b, c) = BeaverTripleGeneratoor::<F>::generate();
    assert_eq!(a.mul(&b), c);
}

#[test]
fn beaver_shift_and_combine_single_party() {
    // With one party every share is the value itself.
    let (x, y) = (f(12), f(30));
    let triple = (f(7), f(9), f(63));
    let (d, e) = beaver_shift(x, y, &triple);
    assert_eq!(d, f(5));
    assert_eq!(e, f(21));
    assert_eq!(beaver_combine(&(d, e), &triple), f(360));
}

#[test]
fn cubic_combine_value() {
    // 100^3 + 5 * 100^2 + 3 * 100 + 2
    assert_eq!(cubic_combine(f(100), f(10_000), f(1_000_000)), f(1_050_302));
}

/// The example computation of the delegator and three workers:
/// x^3 + 5 x^2 + 3 x + 2 at x = 100, every step run for every worker.
#[test]
fn delegated_cubic_evaluation() {
    let n = 3;
    let x = f(100);
    let indexes: Vec<usize> = vec![1, 2, 3];
    let triples = setup_random_shares::<F>(n, 2);
    let input_shares = SecretSharing::share(x, n, n);
    // Stage 0: x * x; stage 1: x^2 * x.
    let mut current: Vec<F> = input_shares.clone();
    let mut x2_shares: Vec<F> = vec![];
    for stage in 0..2 {
        let shifted: Vec<(F, F)> = (0..n)
            .map(|w| beaver_shift(current[w], input_shares[w], &triples[w][stage]))
            .collect();
        let opened = recover_shifted(&shifted, &indexes);
        let products: Vec<F> = (0..n).map(|w| beaver_combine(&opened, &triples[w][stage])).collect();
        if stage == 0 {
            x2_shares = products.clone();
        }
        current = products;
    }
    let outputs: Vec<F> = (0..n)
        .map(|w| cubic_combine(input_shares[w], x2_shares[w], current[w]))
        .collect();
    let result = SecretSharing::recover(outputs, indexes, n, n);
    let expected = x.mul(&x).mul(&x).add(&f(5).mul(&x).mul(&x)).add(&f(3).mul(&x)).add(&f(2));
    assert_eq!(result, expected);
    assert_eq!(result, f(1_050_302));
}

/// The polynomial example: three workers multiply two shared polynomials.
#[test]
fn delegated_polynomial_multiplication() {
    let workers = 3;
    let poly1: Vec<F> = (0..3).map(|_| F::random()).collect();
    let poly2: Vec<F> = vec![f(4), f(0), f(9)];
    let expected = naive_mul(&poly1, &poly2);
    let product_coeffs = poly1.len() + poly2.len() - 1;
    let random_shares = setup_random_shares::<F>(workers, product_coeffs);
    let shares1 = share_polynomial(&poly1, workers);
    let shares2 = share_polynomial(&poly2, workers);
    let indexes: Vec<usize> = vec![1, 2, 3];
    let mut broadcasts: Vec<Vec<(F, F)>> = vec![];
    let mut n = 0;
    for w in 0..workers {
        let (points, to_broadcast) = masked_evaluations(&shares1[w], &shares2[w], &random_shares[w]);
        n = points;
        broadcasts.push(to_broadcast);
    }
    assert_eq!(n, product_coeffs);
    let opened = recover_shifted_poly(&broadcasts, &indexes);
    let outputs: Vec<Vec<F>> = (0..workers)
        .map(|w| beaver_interpolate(&opened, &random_shares[w], n))
        .collect();
    let result = recover_polynomial(&outputs, &indexes, product_coeffs);
    assert_eq!(result, expected);
}

#[test]
fn shared_triples_recover_to_a_product() {
    let workers = 5;
    let shares = setup_random_shares::<F>(workers, 2);
    assert_eq!(shares.len(), workers);
    let indexes: Vec<usize> = (1..=workers).collect();
    for k in 0..2 {
        let column = |j: usize| -> Vec<F> {
            shares
                .iter()
                .map(|row| match j {
                    0 => row[k].0,
                    1 => row[k].1,
                    _ => row[k].2,
                })
                .collect()
        };
        let a = SecretSharing::recover(column(0), indexes.clone(), workers, workers);
        let b = SecretSharing::recover(column(1), indexes.clone(), workers, workers);
        let c = SecretSharing::recover(column(2), indexes.clone(), workers, workers);
        assert_eq!(a.mul(&b), c);
    }
}
