use backend_fight::vectors::{
    brute_force_knn, decode_vectors, ivf_knn, l2_sq_scalar, nearest_centroid_indices_scalar, IvfIndex,
    Partition,
};

fn vector(values: &[i8]) -> [i8; 16] {
    let mut v = [0i8; 16];
    for (i, &x) in values.iter().enumerate() {
        v[i] = x;
    }
    v
}

#[test]
fn squared_distance_uses_the_fourteen_dimensions() {
    let a = vector(&[1, 2, 3]);
    let b = vector(&[4, 6, 3]);
    assert_eq!(l2_sq_scalar(&a, &b), 9 + 16);
    let mut c = a;
    c[14] = 100;
    c[15] = -100;
    assert_eq!(l2_sq_scalar(&a, &c), 0);
    let lo = [-128i8; 16];
    let hi = [127i8; 16];
    assert_eq!(l2_sq_scalar(&lo, &hi), 14 * 255 * 255);
}

#[test]
fn probe_order_is_closest_first_then_lowest_position() {
    let centroids = vec![vector(&[10]), vector(&[2]), vector(&[-2]), vector(&[0]), vector(&[2])];
    let q = vector(&[0]);
    assert_eq!(nearest_centroid_indices_scalar(&centroids, &q, 3), vec![3, 1, 2]);
    assert_eq!(nearest_centroid_indices_scalar(&centroids, &q, 10), vec![3, 1, 2, 4, 0]);
    assert_eq!(nearest_centroid_indices_scalar(&centroids, &q, 0), Vec::<usize>::new());
}

#[test]
fn brute_force_reports_the_first_five_within_the_threshold() {
    let vectors: Vec<[i8; 16]> = (0..10).map(|i| vector(&[(i * 10) as i8])).collect();
    let p = Partition { vectors, labels: vec![0; 10] };
    let q = vector(&[0]);
    // Positions 0..=3 lie within 30 (squared 900).
    assert_eq!(brute_force_knn(&p, &q, 900), ([0, 1, 2, 3, 0], 4));
    assert_eq!(brute_force_knn(&p, &q, 100_000), ([0, 1, 2, 3, 4], 5));
    assert_eq!(brute_force_knn(&p, &vector(&[127]), 0), ([0; 5], 0));
}

#[test]
fn ivf_search_scans_probed_clusters_in_order() {
    let vectors: Vec<[i8; 16]> = vec![
        vector(&[0]),
        vector(&[1]),
        vector(&[50]),
        vector(&[51]),
        vector(&[2]),
        vector(&[52]),
    ];
    let p = Partition { vectors, labels: vec![0, 1, 0, 1, 0, 1] };
    let index = IvfIndex {
        centroids: vec![vector(&[50]), vector(&[1])],
        lists: vec![vec![2, 3, 5], vec![0, 1, 4]],
    };
    // Query near the second centroid: that cluster is probed first.
    let q = vector(&[1]);
    assert_eq!(ivf_knn(&index, &p, &q, 10_000, 2), ([0, 1, 4, 2, 3], 5));
    assert_eq!(ivf_knn(&index, &p, &q, 10_000, 1), ([0, 1, 4, 0, 0], 3));
    assert_eq!(ivf_knn(&index, &p, &q, 1, 2), ([0, 1, 4, 0, 0], 3));
}

#[test]
fn partition_decoding_pads_and_drops_the_incomplete_tail() {
    let mut bytes: Vec<u8> = (1..=14).collect();
    bytes.extend_from_slice(&[255, 128, 127, 0, 0, 0, 0, 0, 0, 0, 0, 0, 0, 200]);
    bytes.extend_from_slice(&[9, 9, 9]);
    let p = Partition::decode(&bytes, vec![1, 0]);
    assert_eq!(p.vectors.len(), 2);
    assert_eq!(p.vectors[0], vector(&[1, 2, 3, 4, 5, 6, 7, 8, 9, 10, 11, 12, 13, 14]));
    assert_eq!(p.vectors[1], vector(&[-1, -128, 127, 0, 0, 0, 0, 0, 0, 0, 0, 0, 0, -56]));
    assert_eq!(p.labels, vec![1, 0]);
    let vs = decode_vectors(&bytes);
    assert_eq!(vs.len(), 2);
    assert_eq!(vs[1][13], -56);
}

#[test]
fn ivf_file_is_decoded_field_by_field() {
    let mut bytes = vec![2u8, 0];
    bytes.extend_from_slice(&[1u8; 16]);
    bytes.extend_from_slice(&[0xffu8; 16]);
    bytes.extend_from_slice(&[1, 0, 0, 0, 2, 0, 0, 0]);
    bytes.extend_from_slice(&[7, 0, 0, 0, 0, 1, 0, 0, 1, 0, 0, 1]);
    bytes.push(42); // trailing bytes are ignored
    let index = IvfIndex::decode(&bytes).unwrap();
    assert_eq!(index.centroids, vec![[1i8; 16], [-1i8; 16]]);
    assert_eq!(index.lists, vec![vec![7], vec![256, 16777217]]);
    // One entry missing: the file is incomplete.
    assert!(IvfIndex::decode(&bytes[..bytes.len() - 2]).is_none());
    assert!(IvfIndex::decode(&[5]).is_none());
    assert!(IvfIndex::decode(&[1, 0, 3]).is_none());
    let empty = IvfIndex::decode(&[0, 0]).unwrap();
    assert!(empty.centroids.is_empty() && empty.lists.is_empty());
}

#[test]
fn ivf_file_round_trip() {
    let centroids = vec![vector(&[3, -4]), vector(&[-128, 127, 5]), vector(&[])];
    let lists = vec![vec![0u32, 5, 70000], vec![], vec![u32::MAX]];
    let bytes = IvfIndex::encode(&centroids, &lists);
    assert_eq!(bytes.len(), 2 + 3 * 16 + 3 * 4 + 4 * 4);
    assert_eq!(&bytes[..2], &[3, 0]);
    let back = IvfIndex::decode(&bytes).unwrap();
    assert_eq!(back.centroids, centroids);
    assert_eq!(back.lists, lists);
}
