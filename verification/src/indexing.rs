use vstd::prelude::*;
use vstd::string::StringSliceAdditionalSpecFns;
use crate::vectors::{l2_sq_scalar, sq_dist, VECTOR_STRIDE};

verus! {

/// Position of the first centroid among the first `n` that is closest to `v`.
pub open spec fn first_nearest(centroids: Seq<[i8; VECTOR_STRIDE]>, v: Seq<i8>, n: nat) -> int
    decreases n,
{
    if n <= 1 {
        0
    } else {
        let p = first_nearest(centroids, v, (n - 1) as nat);
        if sq_dist(v, centroids[n - 1]@) < sq_dist(v, centroids[p]@) {
            n - 1
        } else {
            p
        }
    }
}

/// `first_nearest` is a closest centroid, and no earlier centroid is as close.
pub proof fn lemma_first_nearest(centroids: Seq<[i8; VECTOR_STRIDE]>, v: Seq<i8>, n: nat)
    requires
        1 <= n <= centroids.len(),
    ensures
        0 <= first_nearest(centroids, v, n) < n,
        forall|j: int|
            0 <= j < n ==> sq_dist(v, centroids[first_nearest(centroids, v, n)]@) <= sq_dist(
                v,
                #[trigger] centroids[j]@,
            ),
        forall|j: int|
            0 <= j < first_nearest(centroids, v, n) ==> sq_dist(
                v,
                centroids[first_nearest(centroids, v, n)]@,
            ) < sq_dist(v, #[trigger] centroids[j]@),
    decreases n,
{
    if n > 1 {
        lemma_first_nearest(centroids, v, (n - 1) as nat);
    }
}

/// Position of the first centroid closest to `v`; 0 when there is none.
pub fn nearest_centroid(centroids: &Vec<[i8; VECTOR_STRIDE]>, v: &[i8; VECTOR_STRIDE]) -> (r: usize)
    ensures
        r == first_nearest(centroids@, v@, centroids.len() as nat),
{
    let n = centroids.len();
    if n == 0 {
        return 0;
    }
    let mut best: usize = 0;
    let mut best_d = l2_sq_scalar(v, &centroids[0]);
    let mut i: usize = 1;
    while i < n
        invariant
            n == centroids.len(),
            1 <= i <= n,
            best == first_nearest(centroids@, v@, i as nat),
            best < i,
            best_d == sq_dist(v@, centroids@[best as int]@),
        decreases n - i,
    {
        let d = l2_sq_scalar(v, &centroids[i]);
        if d < best_d {
            best = i;
            best_d = d;
        }
        i = i + 1;
    }
    best
}

/// Positions (below `n`) of the vectors whose first nearest centroid is `c`,
/// in increasing order.
pub open spec fn cluster_members(
    centroids: Seq<[i8; VECTOR_STRIDE]>,
    vectors: Seq<[i8; VECTOR_STRIDE]>,
    c: int,
    n: nat,
) -> Seq<u32>
    decreases n,
{
    if n == 0 {
        Seq::empty()
    } else {
        let rest = cluster_members(centroids, vectors, c, (n - 1) as nat);
        if first_nearest(centroids, vectors[n - 1]@, centroids.len()) == c {
            rest.push((n - 1) as u32)
        } else {
            rest
        }
    }
}

/// Groups the vectors by their first nearest centroid: one list per
/// centroid, holding the positions of its vectors in increasing order.
pub fn assign_lists(centroids: &Vec<[i8; VECTOR_STRIDE]>, vectors: &Vec<[i8; VECTOR_STRIDE]>) -> (r:
    Vec<Vec<u32>>)
    requires
        centroids.len() > 0,
    ensures
        r.len() == centroids.len(),
        forall|c: int|
            0 <= c < r.len() ==> (#[trigger] r@[c])@ == cluster_members(
                centroids@,
                vectors@,
                c,
                vectors.len() as nat,
            ),
{
    let k = centroids.len();
    let mut lists: Vec<Vec<u32>> = Vec::new();
    let mut c: usize = 0;
    while c < k
        invariant
            c <= k,
            lists.len() == c,
            forall|c2: int| 0 <= c2 < c ==> (#[trigger] lists@[c2])@ == Seq::<u32>::empty(),
        decreases k - c,
    {
        lists.push(Vec::new());
        c = c + 1;
    }
    let n = vectors.len();
    let mut i: usize = 0;
    while i < n
        invariant
            k == centroids.len(),
            k > 0,
            n == vectors.len(),
            i <= n,
            lists.len() == k,
            forall|c2: int|
                0 <= c2 < k ==> (#[trigger] lists@[c2])@ == cluster_members(
                    centroids@,
                    vectors@,
                    c2,
                    i as nat,
                ),
        decreases n - i,
    {
        let ci = nearest_centroid(centroids, &vectors[i]);
        proof {
            lemma_first_nearest(centroids@, vectors@[i as int]@, k as nat);
        }
        lists[ci].push(i as u32);
        proof {
            assert forall|c2: int| 0 <= c2 < k implies (#[trigger] lists@[c2])@ == cluster_members(
                centroids@,
                vectors@,
                c2,
                (i + 1) as nat,
            ) by {
                if c2 != ci {
                    assert(cluster_members(centroids@, vectors@, c2, (i + 1) as nat) == cluster_members(
                        centroids@,
                        vectors@,
                        c2,
                        i as nat,
                    ));
                }
            }
        }
        i = i + 1;
    }
    lists
}

/// Grouping vectors by nearest centroid puts each vector in exactly one
/// list, once, the list of its first nearest centroid: each list is strictly
/// increasing and holds exactly the positions whose first nearest centroid
/// is its own, so an index built this way only lists vectors of the
/// partition (when positions fit 32 bits).
pub proof fn lemma_cluster_members(
    centroids: Seq<[i8; VECTOR_STRIDE]>,
    vectors: Seq<[i8; VECTOR_STRIDE]>,
    c: int,
    n: nat,
)
    requires
        n <= vectors.len(),
        n <= 4294967296,
    ensures
        forall|m: int|
            0 <= m < cluster_members(centroids, vectors, c, n).len() ==> (#[trigger] cluster_members(
                centroids,
                vectors,
                c,
                n,
            )[m]) < n,
        forall|m1: int, m2: int|
            0 <= m1 < m2 < cluster_members(centroids, vectors, c, n).len() ==> cluster_members(
                centroids,
                vectors,
                c,
                n,
            )[m1] < cluster_members(centroids, vectors, c, n)[m2],
        forall|i: int|
            0 <= i < n ==> (cluster_members(centroids, vectors, c, n).contains(i as u32) <==> first_nearest(
                centroids,
                #[trigger] vectors[i]@,
                centroids.len(),
            ) == c),
    decreases n,
{
    if n > 0 {
        lemma_cluster_members(centroids, vectors, c, (n - 1) as nat);
        let rest = cluster_members(centroids, vectors, c, (n - 1) as nat);
        let all = cluster_members(centroids, vectors, c, n);
        let x = (n - 1) as u32;
        assert forall|i: int| 0 <= i < n implies (all.contains(i as u32) <==> first_nearest(
            centroids,
            #[trigger] vectors[i]@,
            centroids.len(),
        ) == c) by {
            if i < n - 1 {
                if all.contains(i as u32) {
                    let m = choose|m: int| 0 <= m < all.len() && all[m] == i as u32;
                    if m < rest.len() {
                        assert(rest[m] == i as u32);
                    } else {
                        assert(all[m] == x);
                    }
                }
                if rest.contains(i as u32) {
                    let m = choose|m: int| 0 <= m < rest.len() && rest[m] == i as u32;
                    assert(all[m] == i as u32);
                }
            } else {
                if first_nearest(centroids, vectors[i]@, centroids.len()) == c {
                    assert(all[all.len() - 1] == x);
                } else {
                    assert(all == rest);
                }
            }
        }
    }
}

/// The bytes of the label "legit".
pub open spec fn legit_bytes() -> Seq<u8> {
    seq![108u8, 101u8, 103u8, 105u8, 116u8]
}

/// The bytes of the label "fraud".
pub open spec fn fraud_bytes() -> Seq<u8> {
    seq![102u8, 114u8, 97u8, 117u8, 100u8]
}

fn bytes_equal(a: &[u8], b: &[u8; 5]) -> (r: bool)
    ensures
        r == (a@ == b@),
{
    if a.len() != 5 {
        return false;
    }
    let mut i: usize = 0;
    while i < 5
        invariant
            a.len() == 5,
            i <= 5,
            forall|j: int| 0 <= j < i ==> a@[j] == b@[j],
        decreases 5 - i,
    {
        if a[i] != b[i] {
            return false;
        }
        i = i + 1;
    }
    assert(a@ =~= b@);
    true
}

/// Code of a reference label: 0 for "legit", 1 for "fraud", `None` for any
/// other label.
pub fn label_code(label: &str) -> (r: Option<u8>)
    ensures
        label.spec_bytes() == legit_bytes() ==> r == Some(0u8),
        label.spec_bytes() == fraud_bytes() ==> r == Some(1u8),
        label.spec_bytes() != legit_bytes() && label.spec_bytes() != fraud_bytes() ==> r is None,
{
    let b = label.as_bytes();
    let legit: [u8; 5] = [108, 101, 103, 105, 116];
    let fraud: [u8; 5] = [102, 114, 97, 117, 100];
    assert(legit@ =~= legit_bytes());
    assert(fraud@ =~= fraud_bytes());
    if bytes_equal(b, &legit) {
        Some(0)
    } else if bytes_equal(b, &fraud) {
        Some(1)
    } else {
        None
    }
}

} // verus!
