use zkpd::ff::bls12_381::Bls381K12Scalar;
use zkpd::secret_sharing::SecretSharing;
use zkpd::{FiniteField, SecretSharing as SecretSharingTrait};

fn f(n: usize) -> Bls381K12Scalar {
    Bls381K12Scalar::from_usize(n)
}

#[test]
fn share_and_recover_works() {
    let secret = Bls381K12Scalar::random();
    let shares = SecretSharing::share(secret.clone(), 5, 5);
    assert_eq!(
        secret,
        SecretSharing::recover(shares.clone(), vec![1, 2, 3, 4, 5], 5, 5)
    );
    assert_ne!(
        secret,
        SecretSharing::recover(shares, vec![1, 2, 4, 5, 3], 5, 5)
    );
}

#[test]
fn recover_from_any_threshold_subset() {
    let secret = f(424242);
    let shares = SecretSharing::share(secret, 5, 3);
    assert_eq!(shares.len(), 5);
    let picked = vec![shares[1], shares[3], shares[4]];
    assert_eq!(SecretSharing::recover(picked, vec![2, 4, 5], 5, 3), secret);
    let picked = vec![shares[4], shares[0], shares[2]];
    assert_eq!(SecretSharing::recover(picked, vec![5, 1, 3], 5, 3), secret);
}

#[test]
fn share_with_threshold_one_is_constant() {
    let secret = f(99);
    let shares = SecretSharing::share(secret, 3, 1);
    assert_eq!(shares, vec![secret, secret, secret]);
    let shares = SecretSharing::share(secret, 3, 0);
    assert_eq!(shares, vec![secret, secret, secret]);
}

#[test]
fn recover_single_share() {
    assert_eq!(SecretSharing::recover(vec![f(17)], vec![3], 3, 1), f(17));
}

#[test]
fn shares_lie_on_a_low_degree_polynomial() {
    let secret = f(5);
    let shares = SecretSharing::share(secret, 6, 2);
    // Degree-one polynomial: consecutive differences are equal.
    let d1 = shares[1].sub(&shares[0]);
    for i in 1..6 {
        assert_eq!(shares[i].sub(&shares[i - 1]), d1);
    }
    assert_eq!(shares[0].sub(&d1), secret);
}

#[test]
fn recovery_is_linear_and_keeps_constants() {
    let indexes = vec![1, 2, 3];
    let a = SecretSharing::share(f(11), 3, 3);
    let b = SecretSharing::share(f(31), 3, 3);
    let sum: Vec<Bls381K12Scalar> = (0..3).map(|i| a[i].add(&b[i])).collect();
    assert_eq!(SecretSharing::recover(sum, indexes.clone(), 3, 3), f(42));
    let affine: Vec<Bls381K12Scalar> = (0..3).map(|i| a[i].mul(&f(2)).add(&f(5))).collect();
    assert_eq!(SecretSharing::recover(affine, indexes, 3, 3), f(27));
}
