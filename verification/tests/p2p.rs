use zkpd::ff::bls12_381::Bls381K12Scalar;
use zkpd::p2p::scalar_worker::{parse_peer, try_parse_peer, StageShares};
use zkpd::FiniteField;

type F = Bls381K12Scalar;

#[test]
fn parse_peer_splits_index_and_url() {
    let (id, url) = parse_peer("1@ws://127.0.0.1:1080");
    assert_eq!(id, 1);
    assert_eq!(url, "ws://127.0.0.1:1080");
    let (id, url) = parse_peer("+42@");
    assert_eq!(id, 42);
    assert_eq!(url, "");
}

#[test]
fn try_parse_peer_rejects_malformed() {
    assert!(try_parse_peer("ws://127.0.0.1:1080").is_none());
    assert!(try_parse_peer("1@a@b").is_none());
    assert!(try_parse_peer("x@url").is_none());
    assert!(try_parse_peer("@url").is_none());
    assert!(try_parse_peer("+@url").is_none());
    assert!(try_parse_peer("-1@url").is_none());
    assert!(try_parse_peer("99999999999999999999999@url").is_none());
    assert_eq!(try_parse_peer("07@u"), Some((7, "u".to_string())));
}

#[test]
fn stage_shares_insert_and_get() {
    let mut s: StageShares<(F, F)> = StageShares::new();
    assert_eq!(s.stage_count(), 0);
    s.insert_share(0, 1, (F::from_usize(10), F::from_usize(11)));
    s.insert_share(0, 2, (F::from_usize(20), F::from_usize(21)));
    assert_eq!(s.stage_count(), 1);
    assert_eq!(s.get_share(0, 2), Some(&(F::from_usize(20), F::from_usize(21))));
    assert_eq!(s.get_share(0, 3), None);
    s.insert_share(1, 2, (F::from_usize(5), F::from_usize(6)));
    assert_eq!(s.stage_count(), 2);
    assert_eq!(s.get_share(1, 2), Some(&(F::from_usize(5), F::from_usize(6))));
    assert_eq!(s.get_share(1, 1), None);
    s.insert_share(1, 2, (F::from_usize(7), F::from_usize(8)));
    assert_eq!(s.get_share(1, 2), Some(&(F::from_usize(7), F::from_usize(8))));
    assert_eq!(s.get_share(0, 1), Some(&(F::from_usize(10), F::from_usize(11))));
}

#[test]
fn peer_text_round_trip() {
    for index in [0usize, 7, 1080, usize::MAX] {
        let text = format!("{}@{}", index, "ws://127.0.0.1:1081");
        assert_eq!(parse_peer(&text), (index, "ws://127.0.0.1:1081".to_string()));
    }
}
