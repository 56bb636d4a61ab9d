use backend_fight::knn::{append_cluster, knn_count, l2_sq_u8, CLUSTER_RECORD};

fn flat(vectors: &[[u8; 14]]) -> Vec<u8> {
    vectors.iter().flat_map(|v| v.iter().copied()).collect()
}

fn vec14(first: u8) -> [u8; 14] {
    let mut v = [0u8; 14];
    v[0] = first;
    v
}

#[test]
fn squared_distance_of_byte_vectors() {
    let q = [255u8; 14];
    let data = vec![0u8; 20];
    assert_eq!(l2_sq_u8(&q, &data, 3), 14 * 255 * 255);
    let mut data2 = vec![9u8; 30];
    data2[16..30].copy_from_slice(&[255u8; 14]);
    assert_eq!(l2_sq_u8(&q, &data2, 16), 0);
}

#[test]
fn counts_frauds_among_the_k_nearest() {
    let q = vec14(100);
    // Distances: 100^2, 1, 4, 50^2, 0, 9
    let vecs = flat(&[vec14(0), vec14(101), vec14(102), vec14(150), vec14(100), vec14(97)]);
    let labels = vec![1, 1, 0, 1, 1, 0];
    // The 3 nearest are positions 4 (fraud), 1 (fraud), 2 (legit).
    assert_eq!(knn_count(&q, &vecs, &labels, 6, 3), 2);
    // The 5 nearest leave out position 0 only.
    assert_eq!(knn_count(&q, &vecs, &labels, 6, 5), 3);
    // k larger than the count: all are kept.
    assert_eq!(knn_count(&q, &vecs, &labels, 6, 50), 4);
    assert_eq!(knn_count(&q, &vecs, &labels, 0, 0), 0);
}

#[test]
fn ties_keep_the_earlier_vector() {
    let q = vec14(10);
    // Three vectors at the same distance; room for one.
    let vecs = flat(&[vec14(12), vec14(8), vec14(12)]);
    assert_eq!(knn_count(&q, &vecs, &[1, 0, 0], 3, 1), 1);
    assert_eq!(knn_count(&q, &vecs, &[0, 1, 1], 3, 1), 0);
}

#[test]
fn labels_other_than_one_do_not_count() {
    let q = vec14(0);
    let vecs = flat(&[vec14(1), vec14(2)]);
    assert_eq!(knn_count(&q, &vecs, &[2, 255], 2, 2), 0);
}

#[test]
fn cluster_records_are_appended_with_the_count_capped() {
    let mut record = vec![0u8; CLUSTER_RECORD];
    record[0] = 2;
    for i in 0..140 {
        record[4 + i] = i as u8;
    }
    for i in 0..10 {
        record[144 + i] = (i % 2) as u8;
    }
    let mut vecs = vec![200u8];
    let mut labels = vec![7u8];
    let n = append_cluster(&record, &mut vecs, &mut labels);
    assert_eq!(n, 2);
    assert_eq!(vecs.len(), 1 + 28);
    assert_eq!(vecs[1], 0);
    assert_eq!(vecs[28], 27);
    assert_eq!(labels, vec![7, 0, 1]);

    record[0] = 0xff;
    record[3] = 1;
    let mut vecs = Vec::new();
    let mut labels = Vec::new();
    assert_eq!(append_cluster(&record, &mut vecs, &mut labels), 10);
    assert_eq!(vecs.len(), 140);
    assert_eq!(labels.len(), 10);
}

#[test]
fn no_neighbours_hold_no_frauds() {
    let q = vec14(0);
    let vecs = flat(&[vec14(0), vec14(1)]);
    assert_eq!(knn_count(&q, &vecs, &[1, 1], 2, 0), 0);
}

#[test]
fn a_short_slice_counts_the_bytes_present() {
    let q = [3u8; 14];
    let data = vec![0u8; 5];
    // Only the 3 bytes from position 2 on are compared.
    assert_eq!(l2_sq_u8(&q, &data, 2), 3 * 9);
    assert_eq!(l2_sq_u8(&q, &data, 5), 0);
}
