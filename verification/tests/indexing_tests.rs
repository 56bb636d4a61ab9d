use backend_fight::index_files::{encode_coarse_bin, encode_ivf_bin};
use backend_fight::indexing::{assign_lists, label_code, nearest_centroid};
use backend_fight::vectors::IvfIndex;

fn vector(first: i8) -> [i8; 16] {
    let mut v = [0i8; 16];
    v[0] = first;
    v
}

#[test]
fn nearest_centroid_prefers_the_first_of_equals() {
    let cs = vec![vector(10), vector(-2), vector(2)];
    assert_eq!(nearest_centroid(&cs, &vector(0)), 1);
    assert_eq!(nearest_centroid(&cs, &vector(9)), 0);
    assert_eq!(nearest_centroid(&Vec::new(), &vector(9)), 0);
}

#[test]
fn vectors_are_grouped_by_nearest_centroid() {
    let cs = vec![vector(0), vector(100)];
    let vs = vec![vector(1), vector(90), vector(-5), vector(60), vector(50)];
    let lists = assign_lists(&cs, &vs);
    assert_eq!(lists, vec![vec![0, 2, 4], vec![1, 3]]);
    // An index built this way can be written and read back.
    let bytes = IvfIndex::encode(&cs, &lists);
    let back = IvfIndex::decode(&bytes).unwrap();
    assert_eq!(back.lists, lists);
}

#[test]
fn labels_are_coded() {
    assert_eq!(label_code("legit"), Some(0));
    assert_eq!(label_code("fraud"), Some(1));
    assert_eq!(label_code("Fraud"), None);
    assert_eq!(label_code(""), None);
    assert_eq!(label_code("frauds"), None);
}

#[test]
fn cluster_file_layout() {
    let q = vec![[1u8; 14], [2u8; 14], [3u8; 14]];
    let labels = vec![10u8, 11, 12];
    let ids = vec![1usize, 0, 1];
    let bytes = encode_ivf_bin(2, &q, &labels, &ids);
    let mut expected = vec![2u8, 0, 0, 0, 14, 0, 0, 0];
    // Cluster 0 holds vector 1; its data starts after the 8 + 2 * 16 header bytes.
    expected.extend_from_slice(&[40, 0, 0, 0, 0, 0, 0, 0, 1, 0, 0, 0, 0, 0, 0, 0]);
    expected.extend_from_slice(&[55, 0, 0, 0, 0, 0, 0, 0, 2, 0, 0, 0, 0, 0, 0, 0]);
    expected.extend_from_slice(&[2u8; 14]);
    expected.push(11);
    expected.extend_from_slice(&[1u8; 14]);
    expected.extend_from_slice(&[3u8; 14]);
    expected.extend_from_slice(&[10, 12]);
    assert_eq!(bytes, expected);
}

#[test]
fn coarse_file_layout() {
    let coarse = vec![[9u8; 14], [8u8; 14]];
    let fine = vec![[1u8; 14], [2u8; 14], [3u8; 14]];
    let asgn = vec![1usize, 1, 0];
    let bytes = encode_coarse_bin(&coarse, &fine, &asgn);
    let mut expected = vec![2u8, 0, 0, 0, 3, 0, 0, 0, 14, 0, 0, 0];
    expected.extend_from_slice(&[9u8; 14]);
    expected.extend_from_slice(&[8u8; 14]);
    expected.extend_from_slice(&[1, 0, 0, 0, 2, 0, 0, 0]);
    expected.extend_from_slice(&[3u8; 14]);
    expected.extend_from_slice(&[2, 0, 0, 0, 0, 0, 0, 0]);
    expected.extend_from_slice(&[1u8; 14]);
    expected.extend_from_slice(&[1, 0, 0, 0]);
    expected.extend_from_slice(&[2u8; 14]);
    assert_eq!(bytes, expected);
}

#[test]
fn cluster_offsets_point_at_cluster_data() {
    let q: Vec<[u8; 14]> = (0..7u8).map(|i| [i + 1; 14]).collect();
    let labels = vec![0u8, 1, 0, 1, 1, 0, 1];
    let ids = vec![2usize, 0, 2, 1, 2, 0, 1];
    let bytes = encode_ivf_bin(3, &q, &labels, &ids);
    for c in 0..3usize {
        let entry = 8 + 16 * c;
        let off = u64::from_le_bytes(bytes[entry..entry + 8].try_into().unwrap()) as usize;
        let size = u32::from_le_bytes(bytes[entry + 8..entry + 12].try_into().unwrap()) as usize;
        let members: Vec<usize> = (0..ids.len()).filter(|&i| ids[i] == c).collect();
        assert_eq!(size, members.len());
        for (k, &m) in members.iter().enumerate() {
            assert_eq!(&bytes[off + 14 * k..off + 14 * (k + 1)], &q[m][..]);
            assert_eq!(bytes[off + 14 * size + k], labels[m]);
        }
    }
}
