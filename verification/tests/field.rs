use zkpd::ff::bls12_381::Bls381K12Scalar;
use zkpd::util::{evaluations, interpolate, interpolate_eval, naive_mul};
use zkpd::FiniteField;

fn f(n: usize) -> Bls381K12Scalar {
    Bls381K12Scalar::from_usize(n)
}

#[test]
fn field_arithmetic_small_values() {
    assert_eq!(f(3).mul(&f(5)), f(15));
    assert_eq!(f(3).add(&f(5)), f(8));
    assert_eq!(f(3).sub(&f(5)).add(&f(2)), f(0));
    assert_eq!(f(15).div(&f(5)), f(3));
    assert_eq!(f(7).minus().add(&f(7)), Bls381K12Scalar::zero());
    assert_eq!(f(1).div(&f(2)).mul(&f(2)), Bls381K12Scalar::one());
}

#[test]
fn interpolation_roundtrip_small() {
    let poly = vec![f(7), f(3), f(2)];
    let evals = evaluations(&poly, 3);
    assert_eq!(evals, vec![f(12), f(21), f(34)]);
    let back = interpolate(&evals, 3);
    assert_eq!(back, poly);
    let points = vec![f(1), f(2), f(3)];
    assert_eq!(interpolate_eval(&points, &evals, &Bls381K12Scalar::zero()), f(7));
    assert_eq!(naive_mul(&[f(1), f(1)], &[f(2), f(1)]), vec![f(2), f(3), f(1)]);
}

#[test]
fn limbs_round_trip_and_range() {
    let x = f(123456789).mul(&f(987654321)).mul(&f(555555555));
    let limbs = x.to_limbs();
    assert_eq!(Bls381K12Scalar::from_limbs(limbs), Some(x));
    let p = [
        18446744069414584321u64,
        6034159408538082302,
        3691218898639771653,
        8353516859464449352,
    ];
    assert_eq!(Bls381K12Scalar::from_limbs(p), None);
    let p_minus_one = [p[0] - 1, p[1], p[2], p[3]];
    let m1 = Bls381K12Scalar::from_limbs(p_minus_one).unwrap();
    assert_eq!(m1, Bls381K12Scalar::one().minus());
    assert_eq!(m1.mul(&m1), Bls381K12Scalar::one());
    assert_eq!(m1.add(&f(2)), f(1));
}

#[test]
fn random_elements_are_reduced_and_invertible() {
    for _ in 0..8 {
        let r = Bls381K12Scalar::random();
        assert!(Bls381K12Scalar::from_limbs(r.to_limbs()).is_some());
        if !r.equals(&Bls381K12Scalar::zero()) {
            assert_eq!(Bls381K12Scalar::one().div(&r).mul(&r), Bls381K12Scalar::one());
        }
    }
}

#[test]
fn equals_and_from_usize() {
    assert!(f(7).equals(&f(3).add(&f(4))));
    assert!(!f(7).equals(&f(8)));
    assert_eq!(Bls381K12Scalar::horner_fold(&f(3), &f(4), &f(10)), f(34));
    assert_eq!(f(usize::MAX).add(&f(1)).sub(&f(usize::MAX)), f(1));
}

#[test]
fn random_words_to_elements() {
    let p = [
        18446744069414584321u64,
        6034159408538082302,
        3691218898639771653,
        8353516859464449352,
    ];
    assert_eq!(Bls381K12Scalar::from_random_words([5, 0, 0, 0]), Some(f(5)));
    // The top bit is cleared before the test against p.
    assert_eq!(Bls381K12Scalar::from_random_words([5, 0, 0, 1u64 << 63]), Some(f(5)));
    assert_eq!(Bls381K12Scalar::from_random_words(p), None);
    assert_eq!(Bls381K12Scalar::reduce_random_words(p), f(0));
    assert_eq!(Bls381K12Scalar::reduce_random_words([p[0] + 7, p[1], p[2], p[3]]), f(7));
    assert_eq!(Bls381K12Scalar::reduce_random_words([9, 0, 0, 1u64 << 63]), f(9));
}
