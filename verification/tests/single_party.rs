use std::cell::RefCell;
use std::collections::HashMap;

use zkpd::ff::bls12_381::Bls381K12Scalar;
use zkpd::mode::poly::{Base as PolyBase, Worker as PolyWorker};
use zkpd::mode::scalar::{cubic_work, Base, Worker};
use zkpd::FiniteField;

type F = Bls381K12Scalar;

fn f(n: usize) -> F {
    F::from_usize(n)
}

/// A worker without peers: what it broadcasts is what opens.
struct Alone {
    pairs: RefCell<HashMap<usize, (F, F)>>,
    evaluations: RefCell<HashMap<usize, Vec<(F, F)>>>,
}

impl Alone {
    fn new() -> Self {
        Alone {
            pairs: RefCell::new(HashMap::new()),
            evaluations: RefCell::new(HashMap::new()),
        }
    }
}

impl Base<F> for Alone {
    fn index(&self) -> usize {
        1
    }

    fn work(&self, beaver_triple_shares: Vec<(F, F, F)>, input_shares: Vec<F>) -> Vec<F> {
        cubic_work(self, &beaver_triple_shares, &input_shares)
    }
}

impl Worker<F> for Alone {
    fn opened(&self, stage: usize) -> (F, F) {
        self.pairs.borrow()[&stage]
    }

    fn broadcast(&self, a_b_share_shifted: (F, F), stage: usize) {
        self.pairs.borrow_mut().insert(stage, a_b_share_shifted);
    }

    fn wait_for_broadcast(&self, stage: usize) -> (F, F) {
        self.pairs.borrow()[&stage]
    }
}

impl PolyBase<F> for Alone {
    fn index(&self) -> usize {
        1
    }

    fn work(
        &self,
        beaver_triple_shares: Vec<(F, F, F)>,
        poly1_shares: Vec<F>,
        poly2_shares: Vec<F>,
    ) -> Vec<F> {
        self.multiply_poly(0, poly1_shares, poly2_shares, &beaver_triple_shares)
    }
}

impl PolyWorker<F> for Alone {
    fn opened_poly(&self, stage: usize) -> Vec<(F, F)> {
        self.evaluations.borrow()[&stage].clone()
    }

    fn broadcast_poly(&self, a_b_share_shifted: Vec<(F, F)>, stage: usize) {
        self.evaluations.borrow_mut().insert(stage, a_b_share_shifted);
    }

    fn wait_for_broadcast_poly(&self, stage: usize) -> Vec<(F, F)> {
        self.evaluations.borrow()[&stage].clone()
    }
}

#[test]
fn single_party_multiply_is_the_product() {
    let w = Alone::new();
    assert_eq!(w.multiply(0, f(12), f(30), &(f(7), f(9), f(63))), f(360));
    assert_eq!(w.opened(0), (f(5), f(21)));
}

#[test]
fn single_party_cubic_work() {
    let w = Alone::new();
    let triples = vec![(f(2), f(3), f(6)), (f(4), f(5), f(20))];
    assert_eq!(Base::work(&w, triples, vec![f(100)]), vec![f(1_050_302)]);
}

#[test]
fn single_party_multiply_poly_is_the_product() {
    let w = Alone::new();
    let rs = vec![(f(2), f(3), f(6)); 5];
    let product = w.multiply_poly(0, vec![f(1), f(2), f(3)], vec![f(4), f(5), f(6)], &rs);
    assert_eq!(product, vec![f(4), f(13), f(28), f(27), f(18)]);
}
