use backend_fight::service::{is_approved, FraudService, VoteError, K};
use backend_fight::vectors::{IvfIndex, Partition};

fn vector(first: i8) -> [i8; 16] {
    let mut v = [0i8; 16];
    v[0] = first;
    v
}

fn partition(labels: &[u8]) -> Partition {
    Partition { vectors: (0..labels.len()).map(|i| vector(i as i8)).collect(), labels: labels.to_vec() }
}

fn empty_slots() -> (Vec<Option<Partition>>, Vec<Option<IvfIndex>>) {
    ((0..8).map(|_| None).collect(), (0..8).map(|_| None).collect())
}

#[test]
fn majority_of_five_decides() {
    assert_eq!(K, 5);
    assert!(is_approved(0));
    assert!(is_approved(2));
    assert!(!is_approved(3));
    assert!(!is_approved(5));
}

#[test]
fn votes_come_from_the_five_nearest_neighbours() {
    let (mut parts, idx) = empty_slots();
    // Five frauds at distance 1, then a legit vector at distance 0.
    parts[6] = Some(Partition {
        vectors: vec![vector(1), vector(1), vector(1), vector(1), vector(1), vector(0)],
        labels: vec![1, 1, 1, 1, 1, 0],
    });
    parts[2] = Some(partition(&[1, 0, 1, 1, 0, 1, 1]));
    let svc = FraudService::from_loaded(parts, idx).unwrap();
    assert_eq!(svc.fraud_votes(6, &vector(0)), Ok(4));
    // Around 3 the nearest are 3, 2, 4, 1 and 5 (the earlier of 1 and 5 first).
    assert_eq!(svc.fraud_votes(2, &vector(3)), Ok(3));
    // An empty slot gives no votes.
    assert_eq!(svc.fraud_votes(0, &vector(3)), Ok(0));
}

#[test]
fn far_vectors_vote_when_they_are_among_the_nearest() {
    let (mut parts, idx) = empty_slots();
    parts[1] = Some(Partition { vectors: vec![vector(100), vector(-100), vector(10)], labels: vec![1, 1, 1] });
    let svc = FraudService::from_loaded(parts, idx).unwrap();
    assert_eq!(svc.fraud_votes(1, &vector(0)), Ok(3));
}

#[test]
fn ivf_index_is_used_when_loaded() {
    let (mut parts, mut idx) = empty_slots();
    parts[4] = Some(partition(&[1, 1, 1, 0, 0]));
    idx[4] = Some(IvfIndex { centroids: vec![vector(3), vector(0)], lists: vec![vec![3, 4], vec![0, 1]] });
    let svc = FraudService::from_loaded(parts, idx).unwrap();
    // Only listed vectors are reached: 3, 4, 0 and 1; vector 2 is not listed.
    assert_eq!(svc.fraud_votes(4, &vector(3)), Ok(2));
}

#[test]
fn missing_vectors_are_reported_when_probed() {
    let (mut parts, mut idx) = empty_slots();
    parts[0] = Some(partition(&[0, 0]));
    idx[0] = Some(IvfIndex { centroids: vec![vector(0)], lists: vec![vec![5]] });
    parts[7] = Some(partition(&[1, 1]));
    idx[7] = Some(IvfIndex { centroids: vec![vector(0), vector(1)], lists: vec![vec![0]] });
    let svc = FraudService::from_loaded(parts, idx).unwrap();
    assert_eq!(svc.fraud_votes(0, &vector(0)), Err(VoteError::MissingVector));
    assert_eq!(svc.fraud_votes(7, &vector(0)), Err(VoteError::MissingVector));
    let (parts, _) = empty_slots();
    assert!(FraudService::from_loaded(parts, Vec::new()).is_none());
}

#[test]
fn labels_missing_count_zero_and_overflow_is_reported() {
    let (mut parts, idx) = empty_slots();
    parts[3] = Some(Partition { vectors: (0..3).map(|i| vector(i)).collect(), labels: vec![1] });
    parts[5] = Some(Partition { vectors: (0..3).map(|i| vector(i)).collect(), labels: vec![200, 50, 6] });
    let svc = FraudService::from_loaded(parts, idx).unwrap();
    assert_eq!(svc.fraud_votes(3, &vector(0)), Ok(1));
    assert_eq!(svc.fraud_votes(5, &vector(0)), Err(VoteError::TooManyVotes));
}
