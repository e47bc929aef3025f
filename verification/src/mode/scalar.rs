//! Multiplying secret-shared scalars with a Beaver triple.
use vstd::prelude::*;

use crate::algebra::{beaver_product, lagrange_interp, vals};
use crate::lagrange::{
    beaver_shares, distinct_mod, is_prime, lemma_beaver_multiplication, lemma_interp_constant,
    lemma_interp_linear, masked_shares,
};
use crate::FiniteField;
use std::sync::Arc;

verus! {

/// What every worker offers: its index and the computation it performs on
/// its shares.
pub trait Base<T: FiniteField> {
    fn index(&self) -> usize;

    fn work(&self, beaver_triple_shares: Vec<(T, T, T)>, input_shares: Vec<T>) -> Vec<T>;
}

/// The masked shares `(a_share - alpha, b_share - beta)` that a worker
/// broadcasts for one Beaver multiplication with the triple shares
/// `(alpha, beta, gamma)`.
pub fn beaver_shift<T: FiniteField>(a_share: T, b_share: T, r: &(T, T, T)) -> (res: (T, T))
    ensures
        res.0.value() == (a_share.value() - r.0.value()) % T::modulus(),
        res.1.value() == (b_share.value() - r.1.value()) % T::modulus(),
{
    let (alpha, beta, _) = r;
    let a_share_shifted = a_share.sub(alpha);
    let b_share_shifted = b_share.sub(beta);
    (a_share_shifted, b_share_shifted)
}

/// A worker's share of the product, from the opened masked values
/// `(d, e) = (a - alpha, b - beta)` and its triple shares:
/// `gamma + d * beta + e * alpha + d * e`.
pub fn beaver_combine<T: FiniteField>(recovered: &(T, T), r: &(T, T, T)) -> (res: T)
    ensures
        res.value() == beaver_product(
            recovered.0.value(),
            recovered.1.value(),
            r.0.value(),
            r.1.value(),
            r.2.value(),
            T::modulus(),
        ),
{
    let (alpha, beta, gamma) = r;
    let (recovered_a_share_shifted, recovered_b_share_shifted) = recovered;
    let t1 = recovered_a_share_shifted.mul(beta);
    let t2 = recovered_b_share_shifted.mul(alpha);
    let t3 = recovered_a_share_shifted.mul(recovered_b_share_shifted);
    let res = gamma.add(&t1).add(&t2).add(&t3);
    proof {
        T::lemma_value_bound(r.2);
        crate::algebra::lemma_beaver_product_steps(
            recovered.0.value(),
            recovered.1.value(),
            r.0.value(),
            r.1.value(),
            r.2.value(),
            T::modulus(),
        );
        T::lemma_modulus();
    }
    res
}

/// A worker that exchanges masked shares with its peers.
pub trait Worker<T: FiniteField>: Base<T> {
    /// The pair `(d, e)` that the masked shares broadcast at `stage` by all
    /// the workers open to.
    spec fn opened(&self, stage: usize) -> (T, T);

    /// Holds of each masked pair that this worker may have broadcast at
    /// `stage`: at least of every pair handed to `broadcast` there (where an
    /// implementation does not say more, of every pair).
    closed spec fn sent(&self, stage: usize, pair: (T, T)) -> bool {
        true
    }

    /// Hands this worker's masked pair of `stage` to its peers.
    fn broadcast(&self, a_b_share_shifted: (T, T), stage: usize)
        ensures
            self.sent(stage, a_b_share_shifted),
    ;

    /// Waits until every worker has broadcast at `stage`, and returns the
    /// pair that their masked shares open to.
    fn wait_for_broadcast(&self, stage: usize) -> (r: (T, T))
        ensures
            r == self.opened(stage),
    ;

    /// One Beaver multiplication at `stage`: broadcasts the masked shares
    /// `beaver_shift(a_share, b_share, r)`, waits for the opened pair and
    /// combines it with the triple (`beaver_combine`). Where the opened pair
    /// is the worker's own masked pair (a single party) and the triple is
    /// one, the result is `a_share * b_share`.
    fn multiply(&self, stage: usize, a_share: T, b_share: T, r: &(T, T, T)) -> (res: T)
        ensures
            res.value() == beaver_product(
                self.opened(stage).0.value(),
                self.opened(stage).1.value(),
                r.0.value(),
                r.1.value(),
                r.2.value(),
                T::modulus(),
            ),
            ({
                &&& self.opened(stage).0.value() == (a_share.value() - r.0.value()) % T::modulus()
                &&& self.opened(stage).1.value() == (b_share.value() - r.1.value()) % T::modulus()
                &&& is_triple(*r)
            }) ==> res.value() == (a_share.value() * b_share.value()) % T::modulus(),
            exists|p: (T, T)|
                #[trigger] self.sent(stage, p) && p.0.value() == (a_share.value() - r.0.value())
                    % T::modulus() && p.1.value() == (b_share.value() - r.1.value())
                    % T::modulus(),
    {
        let shifted = beaver_shift(a_share, b_share, r);
        self.broadcast(shifted, stage);
        assert(self.sent(stage, shifted));
        let recovered = self.wait_for_broadcast(stage);
        let res = beaver_combine(&recovered, r);
        proof {
            T::lemma_modulus();
            crate::algebra::lemma_beaver_identity(
                a_share.value(),
                b_share.value(),
                r.0.value(),
                r.1.value(),
                T::modulus(),
            );
        }
        res
    }
}

/// What a worker's peers may ask of it: to take the masked shares that
/// another worker broadcast, and to hand over its own.
pub trait Peer<T: FiniteField>: Base<T> + Send + Sync {
    fn send_share(&self, from_worker: usize, a_b_share_shifted: (T, T), stage: usize);

    fn receive_share(&self, stage: usize) -> (T, T);
}

/// The delegator's handle on a worker, which also tells the worker its
/// peers.
pub trait WorkerClient<T: FiniteField>: Peer<T> {
    fn set_peer_workers(&self, peer_workers: Vec<Arc<dyn Peer<T>>>);
}

/// Hands a computation out to workers and recovers its result.
pub trait Delegator<T: FiniteField>: Sized {
    fn new(workers: Vec<Arc<dyn WorkerClient<T>>>) -> Self;

    fn delegate(&self, inputs: Vec<T>) -> Vec<T>;
}

/// Shares of `x^3 + 5 x^2 + 3 x + 2`, from shares of `x`, `x^2` and `x^3`.
pub fn cubic_combine<T: FiniteField>(x: T, x_2: T, x_3: T) -> (r: T)
    ensures
        r.value() == (x_3.value() + x_2.value() * 5 + x.value() * 3 + 2) % T::modulus(),
{
    let ghost m = T::modulus();
    proof {
        T::lemma_modulus();
        T::lemma_value_bound(x_3);
    }
    let five = T::from_usize(5);
    let three = T::from_usize(3);
    let two = T::from_usize(2);
    let t5 = x_2.mul(&five);
    let t3 = x.mul(&three);
    proof {
        vstd::arithmetic::div_mod::lemma_mul_mod_noop_right(x_2.value(), 5, m);
        vstd::arithmetic::div_mod::lemma_mul_mod_noop_right(x.value(), 3, m);
    }
    let s1 = x_3.add(&t5);
    let s2 = s1.add(&t3);
    let target = s2.add(&two);
    proof {
        vstd::arithmetic::div_mod::lemma_add_mod_noop(x_3.value(), x_2.value() * 5, m);
        vstd::arithmetic::div_mod::lemma_small_mod(x_3.value() as nat, m as nat);
        vstd::arithmetic::div_mod::lemma_mod_twice(x_2.value() * 5, m);
        assert(s1.value() == (x_3.value() + x_2.value() * 5) % m);
        let a1 = x_3.value() + x_2.value() * 5;
        vstd::arithmetic::div_mod::lemma_add_mod_noop(a1, x.value() * 3, m);
        vstd::arithmetic::div_mod::lemma_mod_twice(a1, m);
        vstd::arithmetic::div_mod::lemma_mod_twice(x.value() * 3, m);
        assert(s2.value() == (a1 + x.value() * 3) % m);
        let a2 = a1 + x.value() * 3;
        vstd::arithmetic::div_mod::lemma_add_mod_noop(a2, 2, m);
        vstd::arithmetic::div_mod::lemma_mod_twice(a2, m);
        vstd::arithmetic::div_mod::lemma_mod_twice(2, m);
    }
    target
}

/// A worker's share of a Beaver product at `stage`, from the pair opened
/// there and its triple shares `r`.
pub open spec fn opened_product<T: FiniteField, W: Worker<T>>(
    worker: &W,
    stage: usize,
    r: (T, T, T),
) -> int {
    beaver_product(
        worker.opened(stage).0.value(),
        worker.opened(stage).1.value(),
        r.0.value(),
        r.1.value(),
        r.2.value(),
        T::modulus(),
    )
}

/// What one Beaver multiplication at `stage` does: the worker broadcast
/// the masked pair `(a_share - alpha, b_share - beta)` of its shares for the
/// triple shares `r = (alpha, beta, gamma)`, and `res` is the Beaver
/// combination `gamma + d * beta + e * alpha + d * e` of the pair `(d, e)`
/// opened at `stage`.
pub open spec fn multiply_outcome<T: FiniteField, W: Worker<T> + ?Sized>(
    worker: &W,
    stage: usize,
    a_share: T,
    b_share: T,
    r: (T, T, T),
    res: T,
) -> bool {
    &&& exists|p: (T, T)|
        #[trigger] worker.sent(stage, p) && p.0.value() == (a_share.value() - r.0.value())
            % T::modulus() && p.1.value() == (b_share.value() - r.1.value()) % T::modulus()
    &&& res.value() == beaver_product(
        worker.opened(stage).0.value(),
        worker.opened(stage).1.value(),
        r.0.value(),
        r.1.value(),
        r.2.value(),
        T::modulus(),
    )
}

/// What the example workers' computation does: with some `x_2` and `x_3`,
/// the worker multiplied `x * x` into `x_2` at stage 0 with the first triple
/// shares and `x_2 * x` into `x_3` at stage 1 with the second, and `out` is
/// `x_3 + 5 x_2 + 3 x + 2`.
pub open spec fn cubic_outcome<T: FiniteField, W: Worker<T>>(
    worker: &W,
    x: T,
    t0: (T, T, T),
    t1: (T, T, T),
    out: T,
    x_2: T,
    x_3: T,
) -> bool {
    &&& multiply_outcome(worker, 0, x, x, t0, x_2)
    &&& multiply_outcome(worker, 1, x_2, x, t1, x_3)
    &&& out.value() == (x_3.value() + x_2.value() * 5 + x.value() * 3 + 2) % T::modulus()
}

/// The pair opened at `stage` is the worker's own masked pair
/// `(a - alpha, b - beta)` for the triple shares `r`: so it is where the
/// worker is the only party.
pub open spec fn opened_is_own_masked_pair<T: FiniteField, W: Worker<T>>(
    worker: &W,
    stage: usize,
    a: int,
    b: int,
    r: (T, T, T),
) -> bool {
    &&& worker.opened(stage).0.value() == (a - r.0.value()) % T::modulus()
    &&& worker.opened(stage).1.value() == (b - r.1.value()) % T::modulus()
}

/// The triple shares `r` are a triple: `gamma = alpha * beta`.
pub open spec fn is_triple<T: FiniteField>(r: (T, T, T)) -> bool {
    r.2.value() == (r.0.value() * r.1.value()) % T::modulus()
}

/// The example workers' computation: from the shares of `x` (first input)
/// and two Beaver triple shares, the share of `x^3 + 5 x^2 + 3 x + 2`,
/// with `x^2 = x * x` multiplied at stage 0 with the first triple and
/// `x^3 = x^2 * x` at stage 1 with the second. For a single party, whose
/// opened pairs are its own masked pairs, and true triples, the result is
/// `x^3 + 5 x^2 + 3 x + 2` itself.
pub fn cubic_work<T: FiniteField, W: Worker<T>>(
    worker: &W,
    beaver_triple_shares: &[(T, T, T)],
    input_shares: &[T],
) -> (r: Vec<T>)
    requires
        beaver_triple_shares.len() >= 2,
        input_shares.len() >= 1,
    ensures
        r.len() == 1,
        ({
            let m = T::modulus();
            let x = input_shares[0].value();
            let x_2 = opened_product(worker, 0, beaver_triple_shares[0]);
            let x_3 = opened_product(worker, 1, beaver_triple_shares[1]);
            r[0].value() == (x_3 + x_2 * 5 + x * 3 + 2) % m
        }),
        ({
            &&& is_triple(beaver_triple_shares[0])
            &&& is_triple(beaver_triple_shares[1])
            &&& opened_is_own_masked_pair(
                worker,
                0,
                input_shares[0].value(),
                input_shares[0].value(),
                beaver_triple_shares[0],
            )
            &&& opened_is_own_masked_pair(
                worker,
                1,
                opened_product(worker, 0, beaver_triple_shares[0]),
                input_shares[0].value(),
                beaver_triple_shares[1],
            )
        }) ==> r[0].value() == (input_shares[0].value() * input_shares[0].value()
            * input_shares[0].value() + 5 * (input_shares[0].value() * input_shares[0].value())
            + 3 * input_shares[0].value() + 2) % T::modulus(),
        exists|x_2: T, x_3: T|
            #[trigger] cubic_outcome(
                worker,
                input_shares[0],
                beaver_triple_shares[0],
                beaver_triple_shares[1],
                r[0],
                x_2,
                x_3,
            ),
{
    let x = input_shares[0];
    let x_2 = worker.multiply(0, x, x, &beaver_triple_shares[0]);
    let x_3 = worker.multiply(1, x_2, x, &beaver_triple_shares[1]);
    let target = cubic_combine(x, x_2, x_3);
    proof {
        assert(cubic_outcome(
            worker,
            x,
            beaver_triple_shares[0],
            beaver_triple_shares[1],
            target,
            x_2,
            x_3,
        ));
        let m = T::modulus();
        let xv = x.value();
        T::lemma_modulus();
        if is_triple(beaver_triple_shares[0]) && is_triple(beaver_triple_shares[1])
            && opened_is_own_masked_pair(worker, 0, xv, xv, beaver_triple_shares[0])
            && opened_is_own_masked_pair(worker, 1, x_2.value(), xv, beaver_triple_shares[1]) {
            assert(x_2.value() == (xv * xv) % m);
            assert(x_3.value() == (x_2.value() * xv) % m);
            lemma_cubic_mod(xv, x_2.value(), x_3.value(), m);
        }
    }
    let mut r: Vec<T> = Vec::new();
    r.push(target);
    assert(r[0] == target);
    r
}

/// With `x_2 = x * x` and `x_3 = x_2 * x` modulo `m`, the combination
/// `x_3 + 5 x_2 + 3 x + 2` is `x^3 + 5 x^2 + 3 x + 2` modulo `m`.
proof fn lemma_cubic_mod(x: int, x_2: int, x_3: int, m: int)
    requires
        m > 1,
        x_2 == (x * x) % m,
        x_3 == (x_2 * x) % m,
    ensures
        (x_3 + x_2 * 5 + x * 3 + 2) % m == (x * x * x + 5 * (x * x) + 3 * x + 2) % m,
{
    vstd::arithmetic::div_mod::lemma_mul_mod_noop_left(x * x, x, m);
    assert(x_3 == (x * x * x) % m);
    vstd::arithmetic::div_mod::lemma_mul_mod_noop_left(x * x, 5, m);
    assert((x_2 * 5) % m == ((x * x) * 5) % m);
    let a = x * x * x;
    let b = (x * x) * 5;
    let c = x * 3 + 2;
    vstd::arithmetic::div_mod::lemma_add_mod_noop(x_3 + x_2 * 5, c, m);
    vstd::arithmetic::div_mod::lemma_add_mod_noop(x_3, x_2 * 5, m);
    vstd::arithmetic::div_mod::lemma_add_mod_noop(a, b, m);
    vstd::arithmetic::div_mod::lemma_add_mod_noop(a + b, c, m);
    vstd::arithmetic::div_mod::lemma_mod_twice(a, m);
    vstd::arithmetic::div_mod::lemma_mod_twice(b, m);
    assert((x_3 + x_2 * 5) % m == (a + b) % m);
    assert((x * x) * 5 == 5 * (x * x)) by (nonlinear_arith);
    assert(x * 3 == 3 * x);
}
/// The values of the first components of pairs.
pub open spec fn firsts<T: FiniteField>(s: Seq<(T, T)>) -> Seq<int> {
    Seq::new(s.len(), |j: int| s[j].0.value())
}

/// The values of the second components of pairs.
pub open spec fn seconds<T: FiniteField>(s: Seq<(T, T)>) -> Seq<int> {
    Seq::new(s.len(), |j: int| s[j].1.value())
}

/// The values of component `c` (0, 1 or 2) of triples.
pub open spec fn triple_part<T: FiniteField>(rs: Seq<(T, T, T)>, c: int) -> Seq<int> {
    Seq::new(
        rs.len(),
        |j: int|
            if c == 0 {
                rs[j].0.value()
            } else if c == 1 {
                rs[j].1.value()
            } else {
                rs[j].2.value()
            },
    )
}

/// Beaver multiplication by all the workers of a stage: when worker `j`,
/// at point `xs[j]`, has run `multiply` at `stage` on its shares `a_sh[j]`
/// and `b_sh[j]` with its shares `rs[j]` of a triple `(alpha, beta,
/// alpha * beta)`, each worker broadcast one pair there (`pairs[j]`), and
/// every worker was opened the recovery at zero of those pairs, then the
/// results are shares of the product: they recover to `a * b` over a prime
/// field.
pub proof fn lemma_multiply_over_workers<T: FiniteField, W: Worker<T>>(
    workers: Seq<W>,
    stage: usize,
    xs: Seq<int>,
    a_sh: Seq<T>,
    b_sh: Seq<T>,
    rs: Seq<(T, T, T)>,
    res: Seq<T>,
    pairs: Seq<(T, T)>,
)
    requires
        is_prime(T::modulus()),
        distinct_mod(xs, T::modulus()),
        xs.len() >= 1,
        workers.len() == xs.len(),
        a_sh.len() == xs.len(),
        b_sh.len() == xs.len(),
        rs.len() == xs.len(),
        res.len() == xs.len(),
        pairs.len() == xs.len(),
        forall|j: int|
            0 <= j < xs.len() ==> #[trigger] multiply_outcome(
                &workers[j],
                stage,
                a_sh[j],
                b_sh[j],
                rs[j],
                res[j],
            ),
        forall|j: int, p: (T, T)|
            0 <= j < xs.len() && #[trigger] workers[j].sent(stage, p) ==> p == pairs[j],
        forall|j: int|
            0 <= j < xs.len() ==> {
                &&& (#[trigger] workers[j].opened(stage)).0.value() == lagrange_interp(
                    xs,
                    firsts(pairs),
                    0,
                    T::modulus(),
                )
                &&& workers[j].opened(stage).1.value() == lagrange_interp(
                    xs,
                    seconds(pairs),
                    0,
                    T::modulus(),
                )
            },
        lagrange_interp(xs, triple_part(rs, 2), 0, T::modulus()) == (lagrange_interp(
            xs,
            triple_part(rs, 0),
            0,
            T::modulus(),
        ) * lagrange_interp(xs, triple_part(rs, 1), 0, T::modulus())) % T::modulus(),
    ensures
        lagrange_interp(xs, vals(res), 0, T::modulus()) == (lagrange_interp(
            xs,
            vals(a_sh),
            0,
            T::modulus(),
        ) * lagrange_interp(xs, vals(b_sh), 0, T::modulus())) % T::modulus(),
{
    let m = T::modulus();
    let n = xs.len();
    let alphas = triple_part(rs, 0);
    let betas = triple_part(rs, 1);
    let gammas = triple_part(rs, 2);
    assert forall|j: int| 0 <= j < n implies firsts(pairs)[j] == masked_shares(
        vals(a_sh),
        alphas,
        m,
    )[j] && seconds(pairs)[j] == masked_shares(vals(b_sh), betas, m)[j] by {
        assert(multiply_outcome(&workers[j], stage, a_sh[j], b_sh[j], rs[j], res[j]));
        let p = choose|p: (T, T)|
            #[trigger] workers[j].sent(stage, p) && p.0.value() == (a_sh[j].value() - rs[j].0.value())
                % m && p.1.value() == (b_sh[j].value() - rs[j].1.value()) % m;
        assert(p == pairs[j]);
    }
    assert(firsts(pairs) =~= masked_shares(vals(a_sh), alphas, m));
    assert(seconds(pairs) =~= masked_shares(vals(b_sh), betas, m));
    let d = lagrange_interp(xs, firsts(pairs), 0, m);
    let e = lagrange_interp(xs, seconds(pairs), 0, m);
    assert forall|j: int| 0 <= j < n implies #[trigger] vals(res)[j] == beaver_shares(
        d,
        e,
        alphas,
        betas,
        gammas,
        m,
    )[j] by {
        assert(multiply_outcome(&workers[j], stage, a_sh[j], b_sh[j], rs[j], res[j]));
        assert(workers[j].opened(stage).0.value() == d);
    }
    assert(vals(res) =~= beaver_shares(d, e, alphas, betas, gammas, m));
    lemma_beaver_multiplication(xs, vals(a_sh), vals(b_sh), alphas, betas, gammas, m);
}

/// `((a + b) mod m + c) mod m + d mod m`, reduced, is `a + b + c + d` reduced.
proof fn lemma_mod_sum4(a: int, b: int, c: int, d: int, m: int)
    requires
        m > 0,
    ensures
        (((a + b) % m + c) % m + d % m) % m == (a + b + c + d) % m,
{
    vstd::arithmetic::div_mod::lemma_add_mod_noop((a + b) % m + c, d, m);
    vstd::arithmetic::div_mod::lemma_mod_twice((a + b) % m + c, m);
    vstd::arithmetic::div_mod::lemma_mod_twice(d, m);
    vstd::arithmetic::div_mod::lemma_add_mod_noop((a + b) % m + c, d % m, m);
    vstd::arithmetic::div_mod::lemma_add_mod_noop((a + b) % m, c, m);
    vstd::arithmetic::div_mod::lemma_mod_twice(a + b, m);
    vstd::arithmetic::div_mod::lemma_add_mod_noop(a + b, c, m);
    vstd::arithmetic::div_mod::lemma_add_mod_noop(a + b + c, d, m);
}

/// The example computation by all the workers: when worker `j`, at point
/// `xs[j]`, has run the example computation (`cubic_work`) on its share
/// `x_sh[j]` of `x` with its shares `t0[j]`, `t1[j]` of two triples, each
/// worker broadcast one pair per stage (`pairs0[j]`, `pairs1[j]`), and
/// every worker was opened the recovery at zero of those pairs, then the
/// results recover to `x^3 + 5 x^2 + 3 x + 2` over a prime field.
pub proof fn lemma_cubic_over_workers<T: FiniteField, W: Worker<T>>(
    workers: Seq<W>,
    xs: Seq<int>,
    x_sh: Seq<T>,
    t0: Seq<(T, T, T)>,
    t1: Seq<(T, T, T)>,
    out: Seq<T>,
    x2: Seq<T>,
    x3: Seq<T>,
    pairs0: Seq<(T, T)>,
    pairs1: Seq<(T, T)>,
)
    requires
        is_prime(T::modulus()),
        distinct_mod(xs, T::modulus()),
        xs.len() >= 1,
        workers.len() == xs.len(),
        x_sh.len() == xs.len(),
        t0.len() == xs.len(),
        t1.len() == xs.len(),
        out.len() == xs.len(),
        x2.len() == xs.len(),
        x3.len() == xs.len(),
        pairs0.len() == xs.len(),
        pairs1.len() == xs.len(),
        forall|j: int|
            0 <= j < xs.len() ==> #[trigger] cubic_outcome(
                &workers[j],
                x_sh[j],
                t0[j],
                t1[j],
                out[j],
                x2[j],
                x3[j],
            ),
        forall|j: int, p: (T, T)|
            0 <= j < xs.len() && #[trigger] workers[j].sent(0, p) ==> p == pairs0[j],
        forall|j: int, p: (T, T)|
            0 <= j < xs.len() && #[trigger] workers[j].sent(1, p) ==> p == pairs1[j],
        forall|j: int|
            0 <= j < xs.len() ==> {
                &&& (#[trigger] workers[j].opened(0)).0.value() == lagrange_interp(
                    xs,
                    firsts(pairs0),
                    0,
                    T::modulus(),
                )
                &&& workers[j].opened(0).1.value() == lagrange_interp(
                    xs,
                    seconds(pairs0),
                    0,
                    T::modulus(),
                )
                &&& workers[j].opened(1).0.value() == lagrange_interp(
                    xs,
                    firsts(pairs1),
                    0,
                    T::modulus(),
                )
                &&& workers[j].opened(1).1.value() == lagrange_interp(
                    xs,
                    seconds(pairs1),
                    0,
                    T::modulus(),
                )
            },
        lagrange_interp(xs, triple_part(t0, 2), 0, T::modulus()) == (lagrange_interp(
            xs,
            triple_part(t0, 0),
            0,
            T::modulus(),
        ) * lagrange_interp(xs, triple_part(t0, 1), 0, T::modulus())) % T::modulus(),
        lagrange_interp(xs, triple_part(t1, 2), 0, T::modulus()) == (lagrange_interp(
            xs,
            triple_part(t1, 0),
            0,
            T::modulus(),
        ) * lagrange_interp(xs, triple_part(t1, 1), 0, T::modulus())) % T::modulus(),
    ensures
        ({
            let x = lagrange_interp(xs, vals(x_sh), 0, T::modulus());
            lagrange_interp(xs, vals(out), 0, T::modulus()) == (x * x * x + 5 * (x * x) + 3 * x
                + 2) % T::modulus()
        }),
{
    let m = T::modulus();
    let n = xs.len();
    T::lemma_modulus();
    assert forall|j: int| 0 <= j < n implies #[trigger] multiply_outcome(
        &workers[j],
        0,
        x_sh[j],
        x_sh[j],
        t0[j],
        x2[j],
    ) by {
        assert(cubic_outcome(&workers[j], x_sh[j], t0[j], t1[j], out[j], x2[j], x3[j]));
    }
    assert forall|j: int| 0 <= j < n implies #[trigger] multiply_outcome(
        &workers[j],
        1,
        x2[j],
        x_sh[j],
        t1[j],
        x3[j],
    ) by {
        assert(cubic_outcome(&workers[j], x_sh[j], t0[j], t1[j], out[j], x2[j], x3[j]));
    }
    assert forall|j: int| 0 <= j < n implies (#[trigger] workers[j].opened(0)).0.value()
        == lagrange_interp(xs, firsts(pairs0), 0, m) && workers[j].opened(0).1.value()
        == lagrange_interp(xs, seconds(pairs0), 0, m) by {
    }
    assert forall|j: int| 0 <= j < n implies (#[trigger] workers[j].opened(1)).0.value()
        == lagrange_interp(xs, firsts(pairs1), 0, m) && workers[j].opened(1).1.value()
        == lagrange_interp(xs, seconds(pairs1), 0, m) by {
        assert(workers[j].opened(0).0.value() == lagrange_interp(xs, firsts(pairs0), 0, m));
    }
    lemma_multiply_over_workers(workers, 0, xs, x_sh, x_sh, t0, x2, pairs0);
    lemma_multiply_over_workers(workers, 1, xs, x2, x_sh, t1, x3, pairs1);
    let x = lagrange_interp(xs, vals(x_sh), 0, m);
    let xx = lagrange_interp(xs, vals(x2), 0, m);
    let xxx = lagrange_interp(xs, vals(x3), 0, m);
    // Recovery of the combination, one linear step at a time.
    let s1 = Seq::new(n, |j: int| (vals(x3)[j] + 5 * vals(x2)[j]) % m);
    lemma_interp_linear(xs, vals(x3), vals(x2), 5, 0, m);
    let s2 = Seq::new(n, |j: int| (s1[j] + 3 * vals(x_sh)[j]) % m);
    lemma_interp_linear(xs, s1, vals(x_sh), 3, 0, m);
    let two = Seq::new(n, |j: int| 2int % m);
    lemma_interp_constant(xs, 2, 0, m);
    let s3 = Seq::new(n, |j: int| (s2[j] + 1 * two[j]) % m);
    lemma_interp_linear(xs, s2, two, 1, 0, m);
    assert forall|j: int| 0 <= j < n implies #[trigger] vals(out)[j] == s3[j] by {
        assert(cubic_outcome(&workers[j], x_sh[j], t0[j], t1[j], out[j], x2[j], x3[j]));
        lemma_mod_sum4(x3[j].value(), 5 * x2[j].value(), 3 * x_sh[j].value(), 2, m);
    }
    assert(vals(out) =~= s3);
    lemma_mod_sum4(xxx, 5 * xx, 3 * x, 2, m);
    lemma_cubic_mod(x, xx, xxx, m);
}

} // verus!
