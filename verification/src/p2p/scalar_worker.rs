//! The messages that a delegator and networked workers exchange.
use std::collections::HashMap;
use vstd::prelude::*;

use crate::algebra::{index_points, lagrange_interp, nodes_ok};
use crate::FiniteField;

verus! {

/// One message between a delegator or worker and a worker.
pub enum Packet<T> {
    SetPeerWorkersRequest(SetPeerWorkersRequest),
    SetPeerWorkersResponse(SetPeerWorkersResponse),
    WorkRequest(WorkRequest<T>),
    WorkResponse(WorkResponse<T>),
    SendShareRequest(SendShareRequest<T>),
    SendShareResponse(SendShareResponse),
    ReceiveShareRequest(ReceiveShareRequest),
    ReceiveShareResponse(ReceiveShareResponse<T>),
}

/// Tells a worker its peers, each as `index@url`.
pub struct SetPeerWorkersRequest {
    pub peers: Vec<String>,
}

pub struct SetPeerWorkersResponse {}

/// Asks a worker to compute on its shares.
pub struct WorkRequest<T> {
    pub beaver_triple_shares: Vec<(T, T, T)>,
    pub input_shares: Vec<T>,
}

pub struct WorkResponse<T> {
    pub shares: Vec<T>,
}

/// Hands a worker the masked shares that worker `from_worker` broadcast at
/// `stage`.
pub struct SendShareRequest<T> {
    pub from_worker: usize,
    pub a_b_share_shifted: (T, T),
    pub stage: usize,
}

pub struct SendShareResponse {}

/// Asks a worker for its own masked shares of `stage`.
pub struct ReceiveShareRequest {
    pub stage: usize,
}

pub struct ReceiveShareResponse<T> {
    pub a_b_share_shifted: Option<(T, T)>,
}

/// An ASCII decimal digit.
pub open spec fn is_digit(c: char) -> bool {
    '0' <= c && c <= '9'
}

/// The number written by the decimal digits `s`.
pub open spec fn decimal_value(s: Seq<char>) -> int
    decreases s.len(),
{
    if s.len() == 0 {
        0
    } else {
        decimal_value(s.drop_last()) * 10 + (s.last() as int - '0' as int)
    }
}

/// The digits of a number written with an optional leading `+`.
pub open spec fn unsigned_digits(s: Seq<char>) -> Seq<char> {
    if s.len() > 0 && s[0] == '+' {
        s.skip(1)
    } else {
        s
    }
}

/// What `usize::from_str` accepts: an optional `+` followed by one or more
/// decimal digits, of value at most `usize::MAX`.
pub open spec fn is_usize_text(s: Seq<char>) -> bool {
    let d = unsigned_digits(s);
    &&& d.len() > 0
    &&& forall|i: int| 0 <= i < d.len() ==> is_digit(#[trigger] d[i])
    &&& decimal_value(d) <= usize::MAX
}

/// `s` has exactly one `@`, at position `k`.
pub open spec fn single_at(s: Seq<char>, k: int) -> bool {
    &&& 0 <= k < s.len()
    &&& s[k] == '@'
    &&& forall|j: int| 0 <= j < s.len() && j != k ==> #[trigger] s[j] != '@'
}

/// A peer written `index@url`, the index a `usize`.
pub open spec fn valid_peer(s: Seq<char>) -> bool {
    exists|k: int| #[trigger] single_at(s, k) && is_usize_text(s.take(k))
}

/// The position of the `@` of a valid peer.
pub open spec fn peer_at(s: Seq<char>) -> int {
    choose|k: int| #[trigger] single_at(s, k) && is_usize_text(s.take(k))
}

/// The character of the decimal digit `d`.
pub open spec fn digit_char(d: nat) -> char {
    (d + 48) as char
}

/// The decimal digits of `n`, most significant first, as `format!` writes
/// a number.
pub open spec fn decimal_text(n: nat) -> Seq<char>
    decreases n,
{
    if n < 10 {
        seq![digit_char(n)]
    } else {
        decimal_text(n / 10).push(digit_char(n % 10))
    }
}

/// The decimal text of `n` is made of digits and reads back as `n`.
proof fn lemma_decimal_text(n: nat)
    ensures
        decimal_text(n).len() > 0,
        forall|j: int| 0 <= j < decimal_text(n).len() ==> is_digit(#[trigger] decimal_text(n)[j]),
        decimal_value(decimal_text(n)) == n,
    decreases n,
{
    if n < 10 {
        assert(digit_char(n) as int == n + 48);
        assert('0' as int == 48);
        assert(decimal_text(n).drop_last() =~= Seq::<char>::empty());
        assert(decimal_value(decimal_text(n)) == decimal_value(Seq::<char>::empty()) * 10 + (
        decimal_text(n).last() as int - '0' as int));
    } else {
        lemma_decimal_text(n / 10);
        let t = decimal_text(n / 10);
        assert(digit_char(n % 10) as int == n % 10 + 48);
        assert(decimal_text(n).drop_last() =~= t);
        assert('0' as int == 48);
        vstd::arithmetic::div_mod::lemma_fundamental_div_mod(n as int, 10);
        assert(decimal_value(decimal_text(n)) == decimal_value(t) * 10 + (decimal_text(n).last() as int
            - '0' as int));
        assert forall|j: int| 0 <= j < decimal_text(n).len() implies is_digit(
            #[trigger] decimal_text(n)[j],
        ) by {
            if j < t.len() {
                assert(decimal_text(n)[j] == t[j]);
            }
        }
    }
}

/// Writing a peer then reading it gives it back: the text of a `usize`
/// index, `@`, and a url without `@` is a valid peer whose index and url
/// are those.
pub proof fn lemma_peer_round_trip(index: usize, url: Seq<char>)
    requires
        forall|j: int| 0 <= j < url.len() ==> #[trigger] url[j] != '@',
    ensures
        valid_peer(decimal_text(index as nat) + seq!['@'] + url),
        decimal_value(
            unsigned_digits(
                (decimal_text(index as nat) + seq!['@'] + url).take(
                    peer_at(decimal_text(index as nat) + seq!['@'] + url),
                ),
            ),
        ) == index,
        (decimal_text(index as nat) + seq!['@'] + url).skip(
            peer_at(decimal_text(index as nat) + seq!['@'] + url) + 1,
        ) == url,
{
    let d = decimal_text(index as nat);
    let s = d + seq!['@'] + url;
    let k = d.len() as int;
    lemma_decimal_text(index as nat);
    assert forall|j: int| 0 <= j < s.len() && j != k implies #[trigger] s[j] != '@' by {
        if j < k {
            assert(s[j] == d[j]);
            assert(is_digit(d[j]));
        } else {
            assert(s[j] == url[j - k - 1]);
        }
    }
    assert(single_at(s, k));
    assert(s.take(k) =~= d);
    assert(is_digit(d[0]));
    assert(unsigned_digits(d) == d);
    assert(is_usize_text(s.take(k)));
    let k2 = peer_at(s);
    assert(single_at(s, k2) && is_usize_text(s.take(k2)));
    assert(k2 == k) by {
        if k2 != k {
            assert(s[k] == '@');
        }
    }
    assert(s.skip(k + 1) =~= url);
}

proof fn lemma_decimal_prefix(s: Seq<char>, i: int)
    requires
        0 <= i <= s.len(),
        forall|j: int| 0 <= j < s.len() ==> is_digit(#[trigger] s[j]),
    ensures
        decimal_value(s.take(i)) <= decimal_value(s),
        0 <= decimal_value(s.take(i)),
    decreases s.len() - i,
{
    if i < s.len() {
        lemma_decimal_prefix(s, i + 1);
        assert(s.take(i + 1).drop_last() =~= s.take(i));
        assert(is_digit(s[i]));
    } else {
        assert(s.take(i) =~= s);
        lemma_decimal_nonneg(s);
    }
}

proof fn lemma_decimal_nonneg(s: Seq<char>)
    requires
        forall|j: int| 0 <= j < s.len() ==> is_digit(#[trigger] s[j]),
    ensures
        0 <= decimal_value(s),
    decreases s.len(),
{
    if s.len() > 0 {
        assert(is_digit(s[s.len() - 1]));
        lemma_decimal_nonneg(s.drop_last());
    }
}

fn parse_usize(s: &str) -> (r: Option<usize>)
    ensures
        r is Some <==> is_usize_text(s@),
        r matches Some(v) ==> v == decimal_value(unsigned_digits(s@)),
{
    let len = s.unicode_len();
    let start: usize = if len > 0 && s.get_char(0) == '+' {
        1
    } else {
        0
    };
    let ghost d = unsigned_digits(s@);
    proof {
        assert(d =~= s@.skip(start as int));
    }
    if start == len {
        return None;
    }
    let mut value: usize = 0;
    let mut i = start;
    while i < len
        invariant
            start <= i <= len,
            len == s@.len(),
            d =~= s@.skip(start as int),
            d == unsigned_digits(s@),
            forall|j: int| 0 <= j < i - start ==> is_digit(#[trigger] d[j]),
            value == decimal_value(d.take(i - start)),
        decreases len - i,
    {
        let c = s.get_char(i);
        if !('0' <= c && c <= '9') {
            proof {
                assert(d[i - start] == c);
                assert(!is_digit(d[i - start]));
                assert(unsigned_digits(s@) == d);
                assert(!is_usize_text(s@));
            }
            return None;
        }
        let digit = (c as u32 - '0' as u32) as usize;
        proof {
            assert(digit == c as int - '0' as int);
            assert(d.take(i - start + 1).drop_last() =~= d.take(i - start));
            assert(d.take(i - start + 1).last() == c);
        }
        let next = match value.checked_mul(10) {
            Some(t) => t.checked_add(digit),
            None => None,
        };
        match next {
            Some(v) => {
                value = v;
            },
            None => {
                proof {
                    assert forall|j: int| 0 <= j < i - start + 1 implies is_digit(
                        #[trigger] d.take(i - start + 1)[j],
                    ) by {
                        if j < i - start {
                            assert(is_digit(d[j]));
                        }
                    }
                    assert(decimal_value(d.take(i - start + 1)) == value * 10 + digit);
                    assert(value * 10 + digit > usize::MAX) by {
                        match value.checked_mul(10) {
                            Some(t) => {},
                            None => {},
                        }
                    }
                    if forall|j: int| 0 <= j < d.len() ==> is_digit(#[trigger] d[j]) {
                        lemma_decimal_prefix(d, i - start + 1);
                    }
                }
                return None;
            },
        }
        i = i + 1;
    }
    proof {
        assert(d.take(len - start) =~= d);
    }
    Some(value)
}

/// Reads a peer written `index@url`: `None` unless the text has exactly one
/// `@` and a `usize` before it.
pub fn try_parse_peer(peer: &str) -> (r: Option<(usize, String)>)
    ensures
        r is Some <==> valid_peer(peer@),
        r matches Some(p) ==> {
            &&& p.0 == decimal_value(unsigned_digits(peer@.take(peer_at(peer@))))
            &&& p.1@ == peer@.skip(peer_at(peer@) + 1)
        },
{
    let len = peer.unicode_len();
    let mut at: usize = 0;
    let mut count: usize = 0;
    for i in 0..len
        invariant
            len == peer@.len(),
            count <= 2,
            count == 0 ==> forall|j: int| 0 <= j < i ==> #[trigger] peer@[j] != '@',
            count == 1 ==> at < i && peer@[at as int] == '@' && forall|j: int|
                0 <= j < i && j != at ==> #[trigger] peer@[j] != '@',
            count == 2 ==> exists|a: int, b: int|
                0 <= a < b < i && #[trigger] peer@[a] == '@' && #[trigger] peer@[b] == '@',
    {
        if peer.get_char(i) == '@' {
            if count == 0 {
                at = i;
                count = 1;
            } else if count == 1 {
                proof {
                    assert(peer@[at as int] == '@' && peer@[i as int] == '@');
                }
                count = 2;
            }
        }
    }
    if count != 1 {
        proof {
            if count == 2 {
                let (a, b) = choose|a: int, b: int|
                    0 <= a < b < len && #[trigger] peer@[a] == '@' && #[trigger] peer@[b] == '@';
                assert forall|k: int| !#[trigger] single_at(peer@, k) by {
                    if single_at(peer@, k) {
                        assert(peer@[a] == '@' && peer@[b] == '@');
                    }
                }
            } else {
                assert forall|k: int| !#[trigger] single_at(peer@, k) by {
                    if 0 <= k < len {
                        assert(peer@[k] != '@');
                    }
                }
            }
        }
        return None;
    }
    proof {
        assert(single_at(peer@, at as int));
        assert forall|k: int| #[trigger] single_at(peer@, k) implies k == at by {
            if k != at {
                assert(peer@[at as int] != '@');
            }
        }
    }
    let id_text = peer.substring_char(0, at);
    let url_text = peer.substring_char(at + 1, len);
    proof {
        assert(id_text@ =~= peer@.take(at as int));
    }
    match parse_usize(id_text) {
        Some(id) => {
            proof {
                assert(valid_peer(peer@));
                assert(peer_at(peer@) == at);
            }
            Some((id, url_text.to_owned()))
        },
        None => {
            proof {
                assert forall|k: int| #[trigger] single_at(peer@, k) implies !is_usize_text(
                    peer@.take(k),
                ) by {
                    assert(k == at);
                }
            }
            None
        },
    }
}

/// Reads a peer written `index@url` into its index and url.
pub fn parse_peer(peer: &str) -> (r: (usize, String))
    requires
        valid_peer(peer@),
    ensures
        r.0 == decimal_value(unsigned_digits(peer@.take(peer_at(peer@)))),
        r.1@ == peer@.skip(peer_at(peer@) + 1),
{
    match try_parse_peer(peer) {
        Some(p) => p,
        None => {
            proof {
                assert(false);
            }
            (0, String::new())
        },
    }
}

/// Opens the masked pair of one stage: `shares[j]` is the pair broadcast
/// by the worker at point `indexes[j]`; each component is recovered by
/// interpolation at zero over all the workers.
pub fn recover_shifted<T: FiniteField>(shares: &Vec<(T, T)>, indexes: &Vec<usize>) -> (r: (T, T))
    requires
        shares.len() == indexes.len(),
        forall|j: int| 0 <= j < indexes.len() ==> #[trigger] indexes[j] <= indexes.len(),
        nodes_ok(index_points(indexes@, T::modulus()), T::modulus()),
    ensures
        r.0.value() == lagrange_interp(
            index_points(indexes@, T::modulus()),
            Seq::new(shares.len() as nat, |j: int| shares[j].0.value()),
            0,
            T::modulus(),
        ),
        r.1.value() == lagrange_interp(
            index_points(indexes@, T::modulus()),
            Seq::new(shares.len() as nat, |j: int| shares[j].1.value()),
            0,
            T::modulus(),
        ),
{
    let n = shares.len();
    let mut a_shares_shifted: Vec<T> = Vec::new();
    let mut b_shares_shifted: Vec<T> = Vec::new();
    let mut a_indexes: Vec<usize> = Vec::new();
    let mut b_indexes: Vec<usize> = Vec::new();
    for j in 0..n
        invariant
            n == shares.len(),
            n == indexes.len(),
            a_shares_shifted.len() == j,
            b_shares_shifted.len() == j,
            forall|v: int| 0 <= v < j ==> #[trigger] a_shares_shifted[v] == shares[v].0,
            forall|v: int| 0 <= v < j ==> #[trigger] b_shares_shifted[v] == shares[v].1,
            a_indexes@ == indexes@.take(j as int),
            b_indexes@ == indexes@.take(j as int),
    {
        a_shares_shifted.push(shares[j].0);
        b_shares_shifted.push(shares[j].1);
        a_indexes.push(indexes[j]);
        b_indexes.push(indexes[j]);
        proof {
            assert(indexes@.take(j + 1) =~= indexes@.take(j as int).push(indexes@[j as int]));
        }
    }
    proof {
        assert(indexes@.take(n as int) =~= indexes@);
        assert(crate::algebra::vals(a_shares_shifted@) =~= Seq::new(
            shares.len() as nat,
            |j: int| shares[j].0.value(),
        ));
        assert(crate::algebra::vals(b_shares_shifted@) =~= Seq::new(
            shares.len() as nat,
            |j: int| shares[j].1.value(),
        ));
    }
    (
        <crate::secret_sharing::SecretSharing<T> as crate::SecretSharing<T>>::recover(
            a_shares_shifted,
            a_indexes,
            n,
            n,
        ),
        <crate::secret_sharing::SecretSharing<T> as crate::SecretSharing<T>>::recover(
            b_shares_shifted,
            b_indexes,
            n,
            n,
        ),
    )
}

/// What the workers have broadcast, per stage and per sender (for a scalar
/// multiplication a masked pair, for a polynomial one a vector of them).
pub struct StageShares<V> {
    stages: Vec<HashMap<usize, V>>,
}

impl<V> StageShares<V> {
    /// One map per stage, from sender to what it broadcast.
    pub closed spec fn view(&self) -> Seq<Map<usize, V>> {
        self.stages@.map_values(|h: HashMap<usize, V>| h@)
    }

    pub fn new() -> (r: Self)
        ensures
            r.view() == Seq::<Map<usize, V>>::empty(),
    {
        let r = StageShares { stages: Vec::new() };
        proof {
            assert(r.view() =~= Seq::<Map<usize, V>>::empty());
        }
        r
    }

    /// The number of stages opened so far.
    pub fn stage_count(&self) -> (r: usize)
        ensures
            r == self.view().len(),
    {
        self.stages.len()
    }

    /// Records what `from_worker` broadcast at `stage`, which is either the
    /// current stage or the next one (opening it).
    pub fn insert_share(&mut self, stage: usize, from_worker: usize, a_b_share_shifted: V)
        requires
            stage == old(self).view().len() || stage + 1 == old(self).view().len(),
        ensures
            final(self).view() == (if stage == old(self).view().len() {
                old(self).view().push(Map::<usize, V>::empty().insert(from_worker, a_b_share_shifted))
            } else {
                old(self).view().update(
                    stage as int,
                    old(self).view()[stage as int].insert(from_worker, a_b_share_shifted),
                )
            }),
    {
        broadcast use vstd::std_specs::hash::group_hash_axioms;

        let ghost old_view = self.view();
        if self.stages.len() == stage {
            self.stages.push(HashMap::new());
        }
        let mut last = self.stages.pop().unwrap();
        last.insert(from_worker, a_b_share_shifted);
        self.stages.push(last);
        proof {
            if stage == old_view.len() {
                assert(self.view() =~= old_view.push(
                    Map::<usize, V>::empty().insert(from_worker, a_b_share_shifted),
                ));
            } else {
                assert(self.view() =~= old_view.update(
                    stage as int,
                    old_view[stage as int].insert(from_worker, a_b_share_shifted),
                ));
            }
        }
    }

    /// What `from_worker` broadcast at `stage`, if it has arrived.
    pub fn get_share(&self, stage: usize, from_worker: usize) -> (r: Option<&V>)
        requires
            stage < self.view().len(),
        ensures
            r == (if self.view()[stage as int].contains_key(from_worker) {
                Some(&self.view()[stage as int][from_worker])
            } else {
                None
            }),
    {
        broadcast use vstd::std_specs::hash::group_hash_axioms;

        self.stages[stage].get(&from_worker)
    }
}

} // verus!
