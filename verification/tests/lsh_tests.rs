use backend_fight::lsh::{LshIndex, MAX_CANDIDATES};
use rustc_hash::FxHashMap;

fn vectors_for(n: usize) -> Vec<u8> {
    let mut v = vec![0u8; 14 * n];
    for id in 0..n {
        v[14 * id] = id as u8;
    }
    v
}

fn table(entries: &[(u64, Vec<u32>)]) -> FxHashMap<u64, Vec<u32>> {
    let mut m = FxHashMap::default();
    for (k, ids) in entries {
        m.insert(*k, ids.clone());
    }
    m
}

#[test]
fn gathers_each_point_once_and_keeps_the_nearest() {
    let index = LshIndex {
        tables: vec![table(&[(7, vec![5, 1, 3])]), table(&[(9, vec![3, 2, 5, 0])])],
        labels: vec![0, 1, 0, 1, 1, 0],
    };
    let vectors = vectors_for(6);
    let mut query = [0u8; 14];
    query[0] = 2;
    let mut seen = vec![0u32; 6];
    let r = index.search(&[7, 9], &query, &vectors, &mut seen, 10);
    // Fresh points in order: 5, 1, 3, 2, 0.
    assert_eq!(r, vec![(9, 0), (1, 1), (1, 1), (0, 0), (4, 0)]);
    assert_eq!(seen, vec![0; 6]);

    let mut best = index.search(&[7, 9], &query, &vectors, &mut seen, 2);
    best.sort();
    assert_eq!(best.len(), 2);
    assert_eq!(best[0], (0, 0));
    assert_eq!(best[1].0, 1);
    assert_eq!(seen, vec![0; 6]);
}

#[test]
fn missing_buckets_and_marked_points_are_skipped() {
    let index = LshIndex {
        tables: vec![table(&[(1, vec![0, 1])]), table(&[(2, vec![2])])],
        labels: vec![1, 1, 1],
    };
    let vectors = vectors_for(3);
    let query = [0u8; 14];
    let mut seen = vec![0u32, 5, 0];
    let r = index.search(&[1, 99], &query, &vectors, &mut seen, 5);
    assert_eq!(r, vec![(0, 1)]);
    assert_eq!(seen, vec![0, 5, 0]);
}

#[test]
fn gathering_stops_at_the_cap() {
    let ids: Vec<u32> = (0..150).collect();
    let index = LshIndex { tables: vec![table(&[(0, ids.clone())]), table(&[(0, ids)])], labels: vec![0; 150] };
    let vectors = vec![0u8; 14 * 150];
    let mut seen = vec![0u32; 150];
    let r = index.search(&[0, 0], &[0u8; 14], &vectors, &mut seen, 1000);
    assert_eq!(r.len(), MAX_CANDIDATES);
    assert_eq!(seen, vec![0u32; 150]);
}

#[test]
fn zero_neighbours_keep_nothing_and_clear_the_marks() {
    let index = LshIndex { tables: vec![table(&[(4, vec![0, 1, 2])])], labels: vec![1, 0, 1] };
    let vectors = vectors_for(3);
    let mut seen = vec![0u32; 3];
    let r = index.search(&[4], &[0u8; 14], &vectors, &mut seen, 0);
    assert!(r.is_empty());
    assert_eq!(seen, vec![0u32; 3]);
}
