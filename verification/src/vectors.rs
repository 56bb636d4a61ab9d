use vstd::prelude::*;

verus! {

/// Number of meaningful dimensions in a reference vector.
pub const VECTOR_DIMENSION: usize = 14;
/// Stored width of a vector: the dimensions padded with zeros.
pub const VECTOR_STRIDE: usize = 16;

/// The reference vectors of one partition and their labels (1 = fraud).
pub struct Partition {
    pub vectors: Vec<[i8; VECTOR_STRIDE]>,
    pub labels: Vec<u8>,
}

/// An inverted-file index over a partition: one centroid and one list of
/// vector positions per cluster.
pub struct IvfIndex {
    pub centroids: Vec<[i8; VECTOR_STRIDE]>,
    pub lists: Vec<Vec<u32>>,
}

/// Square of a difference of two coordinates.
pub open spec fn sq_diff(x: i8, y: i8) -> int {
    (x - y) * (x - y)
}

/// Squared Euclidean distance over the first `n` coordinates.
pub open spec fn sq_dist_upto(a: Seq<i8>, b: Seq<i8>, n: nat) -> int
    decreases n,
{
    if n == 0 {
        0
    } else {
        sq_dist_upto(a, b, (n - 1) as nat) + sq_diff(a[n - 1], b[n - 1])
    }
}

/// Squared Euclidean distance over the meaningful dimensions.
pub open spec fn sq_dist(a: Seq<i8>, b: Seq<i8>) -> int {
    sq_dist_upto(a, b, VECTOR_DIMENSION as nat)
}

proof fn lemma_sq_diff_bounds(x: i8, y: i8)
    ensures
        0 <= sq_diff(x, y) <= 65025,
{
    let d = x - y;
    assert(-255 <= d <= 255);
    assert(0 <= d * d <= 65025) by (nonlinear_arith)
        requires
            -255 <= d <= 255,
    ;
}

proof fn lemma_sq_dist_upto_bounds(a: Seq<i8>, b: Seq<i8>, n: nat)
    requires
        n <= a.len(),
        n <= b.len(),
    ensures
        0 <= sq_dist_upto(a, b, n) <= 65025 * n,
    decreases n,
{
    if n > 0 {
        lemma_sq_dist_upto_bounds(a, b, (n - 1) as nat);
        lemma_sq_diff_bounds(a[n - 1], b[n - 1]);
    }
}

/// The squared distance of two stored vectors always fits comfortably in an `i32`.
pub proof fn lemma_sq_dist_bounds(a: Seq<i8>, b: Seq<i8>)
    requires
        a.len() == VECTOR_STRIDE,
        b.len() == VECTOR_STRIDE,
    ensures
        0 <= sq_dist(a, b) <= 910350,
{
    lemma_sq_dist_upto_bounds(a, b, VECTOR_DIMENSION as nat);
}

/// Squared Euclidean distance between two stored vectors, over the
/// meaningful dimensions.
pub fn l2_sq_scalar(a: &[i8; VECTOR_STRIDE], b: &[i8; VECTOR_STRIDE]) -> (r: i32)
    ensures
        r == sq_dist(a@, b@),
{
    let mut sum: i32 = 0;
    let mut d: usize = 0;
    while d < VECTOR_DIMENSION
        invariant
            d <= VECTOR_DIMENSION,
            sum == sq_dist_upto(a@, b@, d as nat),
        decreases VECTOR_DIMENSION - d,
    {
        proof {
            lemma_sq_dist_upto_bounds(a@, b@, d as nat);
            lemma_sq_diff_bounds(a@[d as int], b@[d as int]);
        }
        let diff: i32 = (a[d] as i32) - (b[d] as i32);
        sum = sum + diff * diff;
        d = d + 1;
    }
    sum
}


/// Order in which clusters are probed: closer centroid first, lower position
/// first among equally close ones.
pub open spec fn key_lt(dists: Seq<int>, i: int, j: int) -> bool {
    dists[i] < dists[j] || (dists[i] == dists[j] && i < j)
}

/// `r` lists the `min(nprobe, dists.len())` positions that come first in the
/// order `key_lt`, in that order.
pub open spec fn is_probe_order(dists: Seq<int>, nprobe: int, r: Seq<usize>) -> bool {
    &&& r.len() == if nprobe < dists.len() { nprobe } else { dists.len() as int }
    &&& forall|k: int| 0 <= k < r.len() ==> r[k] < dists.len()
    &&& forall|k1: int, k2: int|
        0 <= k1 < k2 < r.len() ==> key_lt(dists, r[k1] as int, r[k2] as int)
    &&& forall|j: usize, k: int|
        j < dists.len() && !r.contains(j) && 0 <= k < r.len() ==> key_lt(
            dists,
            r[k] as int,
            j as int,
        )
}

/// Distances from a query to each of `points`.
pub open spec fn dists_to(points: Seq<[i8; VECTOR_STRIDE]>, query: Seq<i8>) -> Seq<int> {
    Seq::new(points.len(), |i: int| sq_dist(points[i]@, query))
}

/// A sequence of distinct positions below `n` that is shorter than `n`
/// misses one of them.
proof fn lemma_missing_position(r: Seq<usize>, n: usize)
    requires
        r.len() < n,
        forall|k: int| 0 <= k < r.len() ==> r[k] < n,
        forall|k1: int, k2: int| 0 <= k1 < k2 < r.len() ==> r[k1] != r[k2],
    ensures
        exists|j: usize| j < n && !r.contains(j),
    decreases n,
{
    let top: usize = (n - 1) as usize;
    if !r.contains(top) {
        assert(!r.contains(top));
    } else {
        let idx = choose|k: int| 0 <= k < r.len() && r[k] == top;
        let r2 = r.remove(idx);
        assert forall|k: int| 0 <= k < r2.len() implies r2[k] < n - 1 by {
            if k < idx {
                assert(r2[k] == r[k]);
                assert(r[k] != r[idx]);
            } else {
                assert(r2[k] == r[k + 1]);
                assert(r[k + 1] != r[idx]);
            }
        }
        assert forall|k1: int, k2: int| 0 <= k1 < k2 < r2.len() implies r2[k1] != r2[k2] by {
            let a = if k1 < idx { k1 } else { k1 + 1 };
            let b = if k2 < idx { k2 } else { k2 + 1 };
            assert(r2[k1] == r[a]);
            assert(r2[k2] == r[b]);
        }
        lemma_missing_position(r2, (n - 1) as usize);
        let j = choose|j: usize| j < n - 1 && !r2.contains(j);
        if r.contains(j) {
            let k = choose|k: int| 0 <= k < r.len() && r[k] == j;
            assert(k != idx);
            if k < idx {
                assert(r2[k] == r[k]);
                assert(r2.contains(j));
            } else {
                assert(r2[k - 1] == r[k]);
                assert(r2.contains(j));
            }
        }
        assert(!r.contains(j));
    }
}

/// Whether position `c` may still be chosen after `last` was.
spec fn after_last(dists: Seq<int>, has_last: bool, last: usize, c: int) -> bool {
    !has_last || key_lt(dists, last as int, c)
}

/// Positions of the `nprobe` centroids closest to `query`, closest first;
/// among equally close centroids the lower position comes first.
pub fn nearest_centroid_indices_scalar(
    centroids: &Vec<[i8; VECTOR_STRIDE]>,
    query: &[i8; VECTOR_STRIDE],
    nprobe: usize,
) -> (r: Vec<usize>)
    ensures
        is_probe_order(dists_to(centroids@, query@), nprobe as int, r@),
        r@ == probe_order(dists_to(centroids@, query@), nprobe as int),
{
    let n = centroids.len();
    let ghost dists = dists_to(centroids@, query@);
    let mut dist: Vec<i32> = Vec::new();
    let mut i: usize = 0;
    while i < n
        invariant
            n == centroids.len(),
            dists == dists_to(centroids@, query@),
            i <= n,
            dist.len() == i,
            forall|k: int| 0 <= k < i ==> dist[k] == dists[k],
        decreases n - i,
    {
        let d = l2_sq_scalar(query, &centroids[i]);
        proof {
            assert(sq_dist(query@, centroids@[i as int]@) == sq_dist(centroids@[i as int]@, query@))
                by {
                lemma_sq_dist_symmetric(query@, centroids@[i as int]@, VECTOR_DIMENSION as nat);
            }
        }
        dist.push(d);
        i = i + 1;
    }
    let mut r: Vec<usize> = Vec::new();
    while r.len() < nprobe && r.len() < n
        invariant
            n == centroids.len(),
            n == dists.len(),
            dist.len() == n,
            forall|k: int| 0 <= k < n ==> dist[k] == dists[k],
            r.len() <= n,
            r.len() <= nprobe,
            forall|k: int| 0 <= k < r.len() ==> r[k] < n,
            forall|k1: int, k2: int|
                0 <= k1 < k2 < r.len() ==> key_lt(dists, r[k1] as int, r[k2] as int),
            forall|j: usize, k: int|
                j < n && !r@.contains(j) && 0 <= k < r.len() ==> key_lt(
                    dists,
                    r[k] as int,
                    j as int,
                ),
        decreases n - r.len(),
    {
        proof {
            assert forall|k1: int, k2: int| 0 <= k1 < k2 < r.len() implies r[k1] != r[k2] by {
                assert(key_lt(dists, r[k1] as int, r[k2] as int));
            }
            lemma_missing_position(r@, n);
        }
        let has_last = r.len() > 0;
        let last: usize = if has_last { r[r.len() - 1] } else { 0 };
        let mut best: usize = n;
        let mut j: usize = 0;
        while j < n
            invariant
                n == dists.len(),
                dist.len() == n,
                forall|k: int| 0 <= k < n ==> dist[k] == dists[k],
                j <= n,
                has_last == (r.len() > 0),
                has_last ==> last == r[r.len() - 1] && last < n,
                best == n || best < j,
                best < n ==> after_last(dists, has_last, last, best as int),
                forall|c: int|
                    0 <= c < j && #[trigger] after_last(dists, has_last, last, c) ==> best < n && (
                    c == best || key_lt(dists, best as int, c)),
            decreases n - j,
        {
            let above_last = !has_last || dist[last] < dist[j] || (dist[last] == dist[j] && last < j);
            assert(above_last == after_last(dists, has_last, last, j as int));
            let ghost old_best = best;
            if above_last && (best == n || dist[j] < dist[best] || (dist[j] == dist[best] && j < best)) {
                best = j;
            }
            assert forall|c: int|
                0 <= c < j + 1 && #[trigger] after_last(dists, has_last, last, c) implies best < n && (
                c == best || key_lt(dists, best as int, c)) by {
                if c < j {
                    assert(old_best < n && (c == old_best || key_lt(dists, old_best as int, c)));
                }
            }
            j = j + 1;
        }
        proof {
            let m = choose|m: usize| m < n && !r@.contains(m);
            if has_last {
                assert(key_lt(dists, r[r.len() - 1] as int, m as int));
            }
            assert(after_last(dists, has_last, last, m as int));
            assert(best < n);
            assert(!r@.contains(best)) by {
                if r@.contains(best) {
                    let k = choose|k: int| 0 <= k < r.len() && r[k] == best;
                    if k < r.len() - 1 {
                        assert(key_lt(dists, r[k] as int, last as int));
                    }
                }
            }
        }
        let ghost old_r = r@;
        r.push(best);
        proof {
            assert forall|j2: usize, k: int|
                j2 < n && !r@.contains(j2) && 0 <= k < r.len() implies key_lt(
                dists,
                r[k] as int,
                j2 as int,
            ) by {
                assert(!old_r.contains(j2)) by {
                    if old_r.contains(j2) {
                        let kk = choose|kk: int| 0 <= kk < old_r.len() && old_r[kk] == j2;
                        assert(r@[kk] == j2);
                    }
                }
                assert(j2 != best) by {
                    assert(r@[r.len() - 1] == best);
                }
                if old_r.len() > 0 {
                    assert(key_lt(dists, last as int, j2 as int));
                }
                assert(after_last(dists, has_last, last, j2 as int));
                if k < old_r.len() {
                    assert(r[k] == old_r[k]);
                }
            }
        }
    }
    proof {
        let dd = dists_to(centroids@, query@);
        assert(is_probe_order(dd, nprobe as int, r@));
        lemma_probe_order_unique(dd, nprobe as int, r@, probe_order(dd, nprobe as int));
    }
    r
}

proof fn lemma_sq_dist_symmetric(a: Seq<i8>, b: Seq<i8>, n: nat)
    ensures
        sq_dist_upto(a, b, n) == sq_dist_upto(b, a, n),
    decreases n,
{
    if n > 0 {
        lemma_sq_dist_symmetric(a, b, (n - 1) as nat);
        let x = a[n - 1];
        let y = b[n - 1];
        assert((x - y) * (x - y) == (y - x) * (y - x)) by (nonlinear_arith);
    }
}


/// Two sequences that both list the first positions in the order `key_lt`
/// are the same sequence.
pub proof fn lemma_probe_order_unique(dists: Seq<int>, nprobe: int, r1: Seq<usize>, r2: Seq<usize>)
    requires
        is_probe_order(dists, nprobe, r1),
        is_probe_order(dists, nprobe, r2),
    ensures
        r1 == r2,
{
    assert forall|k: int| 0 <= k < r1.len() implies r1[k] == r2[k] by {
        lemma_probe_order_agree_upto(dists, nprobe, r1, r2, k);
    }
    assert(r1 =~= r2);
}

proof fn lemma_probe_order_agree_upto(
    dists: Seq<int>,
    nprobe: int,
    r1: Seq<usize>,
    r2: Seq<usize>,
    k: int,
)
    requires
        is_probe_order(dists, nprobe, r1),
        is_probe_order(dists, nprobe, r2),
        0 <= k < r1.len(),
    ensures
        r1[k] == r2[k],
    decreases k,
{
    if k > 0 {
        lemma_probe_order_agree_upto(dists, nprobe, r1, r2, k - 1);
    }
    assert forall|p: int| 0 <= p < k implies r1[p] == r2[p] by {
        lemma_probe_order_agree_upto(dists, nprobe, r1, r2, p);
    }
    let a = r1[k];
    let b = r2[k];
    if a != b {
        if key_lt(dists, a as int, b as int) {
            if r2.contains(a) {
                let p = choose|p: int| 0 <= p < r2.len() && r2[p] == a;
                if p < k {
                    assert(r1[p] == a);
                    assert(key_lt(dists, r1[p] as int, r1[k] as int));
                } else {
                    assert(key_lt(dists, r2[k] as int, r2[p] as int));
                }
            } else {
                assert(key_lt(dists, r2[k] as int, a as int));
            }
        } else {
            assert(key_lt(dists, b as int, a as int));
            if r1.contains(b) {
                let p = choose|p: int| 0 <= p < r1.len() && r1[p] == b;
                if p < k {
                    assert(r2[p] == b);
                    assert(key_lt(dists, r2[p] as int, r2[k] as int));
                } else {
                    assert(key_lt(dists, r1[k] as int, r1[p] as int));
                }
            } else {
                assert(key_lt(dists, r1[k] as int, b as int));
            }
        }
    }
}

/// The first position below `m` missing from `r` in the order `key_lt`,
/// or -1 when `r` holds every position below `m`.
spec fn min_missing(dists: Seq<int>, r: Seq<usize>, m: nat) -> int
    decreases m,
{
    if m == 0 {
        -1
    } else {
        let b = min_missing(dists, r, (m - 1) as nat);
        let j = m - 1;
        if r.contains(j as usize) {
            b
        } else if b < 0 || dists[j] < dists[b] {
            j
        } else {
            b
        }
    }
}

proof fn lemma_min_missing(dists: Seq<int>, r: Seq<usize>, m: nat)
    requires
        m <= dists.len(),
        dists.len() <= usize::MAX,
    ensures
        min_missing(dists, r, m) < m,
        min_missing(dists, r, m) < 0 ==> forall|j: int| 0 <= j < m ==> #[trigger] r.contains(j as usize),
        min_missing(dists, r, m) >= 0 ==> !r.contains(min_missing(dists, r, m) as usize),
        min_missing(dists, r, m) >= 0 ==> forall|j: int|
            0 <= j < m && !r.contains(j as usize) && j != min_missing(dists, r, m) ==> #[trigger] key_lt(
                dists,
                min_missing(dists, r, m),
                j,
            ),
    decreases m,
{
    if m > 0 {
        lemma_min_missing(dists, r, (m - 1) as nat);
        let b = min_missing(dists, r, (m - 1) as nat);
        let res = min_missing(dists, r, m);
        let jm = m - 1;
        if res >= 0 {
            assert forall|j: int|
                0 <= j < m && !r.contains(j as usize) && j != res implies #[trigger] key_lt(dists, res, j) by {
                if j < m - 1 {
                    if res == jm {
                        if b >= 0 {
                            assert(key_lt(dists, b, j) || j == b);
                        }
                    }
                } else {
                    assert(j == jm);
                    assert(res == b);
                }
            }
        }
    }
}

proof fn lemma_probe_order_exists(dists: Seq<int>, p: nat)
    requires
        dists.len() <= usize::MAX,
    ensures
        exists|r: Seq<usize>| #[trigger] is_probe_order(dists, p as int, r),
    decreases p,
{
    let n = dists.len();
    if p == 0 {
        assert(is_probe_order(dists, 0, Seq::<usize>::empty()));
    } else {
        lemma_probe_order_exists(dists, (p - 1) as nat);
        let r = choose|r: Seq<usize>| #[trigger] is_probe_order(dists, (p - 1) as int, r);
        if n < p {
            assert(r.len() == n);
            assert(is_probe_order(dists, p as int, r));
        } else {
            assert forall|k1: int, k2: int| 0 <= k1 < k2 < r.len() implies r[k1] != r[k2] by {
                assert(key_lt(dists, r[k1] as int, r[k2] as int));
            }
            lemma_missing_position(r, n as usize);
            lemma_min_missing(dists, r, n);
            let m = min_missing(dists, r, n);
            if m < 0 {
                let j = choose|j: usize| j < n && !r.contains(j);
                assert(r.contains((j as int) as usize));
            }
            let r2 = r.push(m as usize);
            assert forall|k1: int, k2: int| 0 <= k1 < k2 < r2.len() implies key_lt(
                dists,
                r2[k1] as int,
                r2[k2] as int,
            ) by {
                if k2 < r.len() {
                    assert(r2[k1] == r[k1] && r2[k2] == r[k2]);
                } else {
                    assert(r2[k1] == r[k1]);
                    assert(r2[k2] == m as usize);
                }
            }
            assert forall|j: usize, k: int|
                j < dists.len() && !r2.contains(j) && 0 <= k < r2.len() implies key_lt(
                dists,
                r2[k] as int,
                j as int,
            ) by {
                assert(!r.contains(j)) by {
                    if r.contains(j) {
                        let w = choose|w: int| 0 <= w < r.len() && r[w] == j;
                        assert(r2[w] == j);
                    }
                }
                assert(j != m as usize) by {
                    assert(r2[r.len() as int] == m as usize);
                }
                if k < r.len() {
                    assert(r2[k] == r[k]);
                } else {
                    assert(r2[k] == m as usize);
                    assert(((j as int) as usize) == j);
                }
            }
            assert(is_probe_order(dists, p as int, r2));
        }
    }
}

/// A probe order always exists: `probe_order` lists the
/// `min(nprobe, dists.len())` positions that come first in the order
/// `key_lt`, in that order.
pub proof fn lemma_probe_order(dists: Seq<int>, nprobe: int)
    requires
        0 <= nprobe,
        dists.len() <= usize::MAX,
    ensures
        is_probe_order(dists, nprobe, probe_order(dists, nprobe)),
{
    lemma_probe_order_exists(dists, nprobe as nat);
}

/// The probe order of clusters for given centroid distances.
pub open spec fn probe_order(dists: Seq<int>, nprobe: int) -> Seq<usize> {
    choose|r: Seq<usize>| is_probe_order(dists, nprobe, r)
}

/// Positions below `n` whose vector lies within `threshold_sq` of `query`,
/// in increasing order.
pub open spec fn close_positions(
    vectors: Seq<[i8; VECTOR_STRIDE]>,
    query: Seq<i8>,
    threshold_sq: int,
    n: nat,
) -> Seq<usize>
    decreases n,
{
    if n == 0 {
        Seq::empty()
    } else {
        let rest = close_positions(vectors, query, threshold_sq, (n - 1) as nat);
        if sq_dist(query, vectors[n - 1]@) <= threshold_sq {
            rest.push((n - 1) as usize)
        } else {
            rest
        }
    }
}

proof fn lemma_close_positions_prefix(
    vectors: Seq<[i8; VECTOR_STRIDE]>,
    query: Seq<i8>,
    threshold_sq: int,
    a: nat,
    b: nat,
)
    requires
        a <= b,
    ensures
        close_positions(vectors, query, threshold_sq, a).len() <= close_positions(
            vectors,
            query,
            threshold_sq,
            b,
        ).len(),
        forall|k: int|
            0 <= k < close_positions(vectors, query, threshold_sq, a).len() ==> close_positions(
                vectors,
                query,
                threshold_sq,
                a,
            )[k] == close_positions(vectors, query, threshold_sq, b)[k],
    decreases b,
{
    if a < b {
        lemma_close_positions_prefix(vectors, query, threshold_sq, a, (b - 1) as nat);
    }
}

/// Whether `(offsets, count)` reports the first matches of `matches`, at most
/// five of them, with the unused slots left at zero.
pub open spec fn reports_first_five(offsets: Seq<usize>, count: usize, matches: Seq<usize>) -> bool {
    &&& offsets.len() == 5
    &&& count == if matches.len() < 5 { matches.len() as int } else { 5 }
    &&& forall|k: int| 0 <= k < count ==> offsets[k] == matches[k]
    &&& forall|k: int| count <= k < 5 ==> offsets[k] == 0
}

/// Scans the whole partition in order and reports the first (at most five)
/// vectors whose squared distance to `query` is at most `threshold_sq`.
pub fn brute_force_knn(partition: &Partition, query: &[i8; VECTOR_STRIDE], threshold_sq: i32) -> (r: (
    [usize; 5],
    usize,
))
    ensures
        reports_first_five(
            r.0@,
            r.1,
            close_positions(
                partition.vectors@,
                query@,
                threshold_sq as int,
                partition.vectors.len() as nat,
            ),
        ),
{
    let ghost vs = partition.vectors@;
    let ghost q = query@;
    let ghost thr = threshold_sq as int;
    let n = partition.vectors.len();
    let mut offsets: [usize; 5] = [0usize; 5];
    let mut count: usize = 0;
    let mut i: usize = 0;
    while i < n
        invariant_except_break
            count < 5,
        invariant
            n == vs.len(),
            vs == partition.vectors@,
            q == query@,
            thr == threshold_sq as int,
            i <= n,
            count <= 5,
            count == close_positions(vs, q, thr, i as nat).len(),
            forall|k: int| 0 <= k < count ==> offsets@[k] == close_positions(vs, q, thr, i as nat)[k],
            forall|k: int| count <= k < 5 ==> offsets@[k] == 0,
        ensures
            count == 5 || i == n,
        decreases n - i,
    {
        let d = l2_sq_scalar(query, &partition.vectors[i]);
        proof {
            let next = close_positions(vs, q, thr, (i + 1) as nat);
            let prev = close_positions(vs, q, thr, i as nat);
            assert(d == sq_dist(q, vs[i as int]@));
            if d <= threshold_sq {
                assert(next == prev.push(i));
            } else {
                assert(next == prev);
            }
        }
        if d <= threshold_sq {
            offsets[count] = i;
            count = count + 1;
            i = i + 1;
            if count >= 5 {
                break;
            }
        } else {
            i = i + 1;
        }
    }
    proof {
        lemma_close_positions_prefix(vs, q, thr, i as nat, n as nat);
    }
    (offsets, count)
}


/// The vector positions listed by the probed clusters, cluster after cluster.
pub open spec fn probed_ids(lists: Seq<Vec<u32>>, probe: Seq<usize>) -> Seq<u32>
    decreases probe.len(),
{
    if probe.len() == 0 {
        Seq::empty()
    } else {
        probed_ids(lists, probe.drop_last()) + lists[probe.last() as int]@
    }
}

/// The positions among `ids` whose vector lies within `threshold_sq` of
/// `query`, in the order of `ids`.
pub open spec fn close_ids(
    vectors: Seq<[i8; VECTOR_STRIDE]>,
    query: Seq<i8>,
    threshold_sq: int,
    ids: Seq<u32>,
) -> Seq<usize>
    decreases ids.len(),
{
    if ids.len() == 0 {
        Seq::empty()
    } else {
        let rest = close_ids(vectors, query, threshold_sq, ids.drop_last());
        if sq_dist(query, vectors[ids.last() as int]@) <= threshold_sq {
            rest.push(ids.last() as usize)
        } else {
            rest
        }
    }
}

proof fn lemma_close_ids_append(
    vectors: Seq<[i8; VECTOR_STRIDE]>,
    query: Seq<i8>,
    threshold_sq: int,
    a: Seq<u32>,
    b: Seq<u32>,
)
    ensures
        close_ids(vectors, query, threshold_sq, a + b) == close_ids(vectors, query, threshold_sq, a)
            + close_ids(vectors, query, threshold_sq, b),
    decreases b.len(),
{
    if b.len() == 0 {
        assert(a + b =~= a);
        assert(close_ids(vectors, query, threshold_sq, b) =~= Seq::<usize>::empty());
        assert(close_ids(vectors, query, threshold_sq, a) + Seq::<usize>::empty() =~= close_ids(
            vectors,
            query,
            threshold_sq,
            a,
        ));
    } else {
        lemma_close_ids_append(vectors, query, threshold_sq, a, b.drop_last());
        assert((a + b).drop_last() =~= a + b.drop_last());
        assert((a + b).last() == b.last());
        let ca = close_ids(vectors, query, threshold_sq, a);
        let cb = close_ids(vectors, query, threshold_sq, b.drop_last());
        assert((ca + cb).push(b.last() as usize) =~= ca + cb.push(b.last() as usize));
    }
}

proof fn lemma_probed_ids_append(lists: Seq<Vec<u32>>, p1: Seq<usize>, p2: Seq<usize>)
    ensures
        probed_ids(lists, p1 + p2) == probed_ids(lists, p1) + probed_ids(lists, p2),
    decreases p2.len(),
{
    if p2.len() == 0 {
        assert(p1 + p2 =~= p1);
        assert(probed_ids(lists, p1) + Seq::<u32>::empty() =~= probed_ids(lists, p1));
    } else {
        lemma_probed_ids_append(lists, p1, p2.drop_last());
        assert((p1 + p2).drop_last() =~= p1 + p2.drop_last());
        assert((p1 + p2).last() == p2.last());
        let a = probed_ids(lists, p1);
        let b = probed_ids(lists, p2.drop_last());
        let c = lists[p2.last() as int]@;
        assert((a + b) + c =~= a + (b + c));
    }
}

/// IVF search: probes the `nprobe` clusters whose centroids are closest to
/// `query` (closest first) and reports the first (at most five) listed vectors
/// whose squared distance to `query` is at most `threshold_sq`, scanning the
/// probed clusters in that order.
pub fn ivf_knn(
    index: &IvfIndex,
    partition: &Partition,
    query: &[i8; VECTOR_STRIDE],
    threshold_sq: i32,
    nprobe: usize,
) -> (r: ([usize; 5], usize))
    requires
        lists_fit(
            index.lists@,
            probe_order(dists_to(index.centroids@, query@), nprobe as int),
            partition.vectors.len() as int,
        ),
    ensures
        reports_first_five(
            r.0@,
            r.1,
            close_ids(
                partition.vectors@,
                query@,
                threshold_sq as int,
                probed_ids(
                    index.lists@,
                    probe_order(dists_to(index.centroids@, query@), nprobe as int),
                ),
            ),
        ),
{
    let probed = nearest_centroid_indices_scalar(&index.centroids, query, nprobe);
    let ghost probe = probed@;
    let ghost lists = index.lists@;
    let ghost vs = partition.vectors@;
    let ghost q = query@;
    let ghost thr = threshold_sq as int;
    let ghost full = probed_ids(lists, probe);
    proof {
        lemma_probed_ids_fit(lists, probe, partition.vectors.len() as int);
    }
    let mut offsets: [usize; 5] = [0usize; 5];
    let mut count: usize = 0;
    let mut pi: usize = 0;
    while pi < probed.len()
        invariant_except_break
            count < 5,
            count == close_ids(vs, q, thr, probed_ids(lists, probe.take(pi as int))).len(),
            forall|k: int|
                0 <= k < count ==> offsets@[k] == close_ids(
                    vs,
                    q,
                    thr,
                    probed_ids(lists, probe.take(pi as int)),
                )[k],
        invariant
            probe == probed@,
            lists == index.lists@,
            vs == partition.vectors@,
            q == query@,
            thr == threshold_sq as int,
            full == probed_ids(lists, probe),
            forall|t: int| 0 <= t < full.len() ==> #[trigger] full[t] < vs.len(),
            forall|k: int| 0 <= k < probe.len() ==> probe[k] < index.lists.len(),
            pi <= probe.len(),
            count <= 5,
            forall|k: int| count <= k < 5 ==> offsets@[k] == 0,
        ensures
            count == 5 ==> exists|pre: Seq<u32>, post: Seq<u32>|
                full == pre + post && count == close_ids(vs, q, thr, pre).len() && forall|k: int|
                    0 <= k < count ==> offsets@[k] == #[trigger] close_ids(vs, q, thr, pre)[k],
            count < 5 ==> pi == probe.len(),
            count < 5 ==> count == close_ids(vs, q, thr, probed_ids(lists, probe.take(pi as int))).len(),
            count < 5 ==> forall|k: int|
                0 <= k < count ==> offsets@[k] == close_ids(
                    vs,
                    q,
                    thr,
                    probed_ids(lists, probe.take(pi as int)),
                )[k],
        decreases probe.len() - pi,
    {
        let ci = probed[pi];
        let list = &index.lists[ci];
        let ghost before = probed_ids(lists, probe.take(pi as int));
        let ghost lv = list@;
        proof {
            lemma_probed_ids_append(lists, probe.take(pi as int), probe.skip(pi as int));
            assert(probe.take(pi as int) + probe.skip(pi as int) =~= probe);
            lemma_probed_ids_append(lists, seq![probe[pi as int]], probe.skip(pi as int + 1));
            assert(seq![probe[pi as int]] + probe.skip(pi as int + 1) =~= probe.skip(pi as int));
            assert(seq![probe[pi as int]].drop_last() =~= Seq::<usize>::empty());
            assert(seq![probe[pi as int]].last() == ci);
            assert(lists[ci as int]@ == lv);
            assert(probed_ids(lists, Seq::<usize>::empty()) =~= Seq::<u32>::empty());
            assert(probed_ids(lists, seq![probe[pi as int]]) =~= Seq::<u32>::empty() + lv);
            assert(full =~= before + (lv + probed_ids(lists, probe.skip(pi as int + 1))));
        }
        let mut li: usize = 0;
        while li < list.len()
            invariant_except_break
                count < 5,
                count == close_ids(vs, q, thr, before + lv.take(li as int)).len(),
                forall|k: int|
                    0 <= k < count ==> offsets@[k] == close_ids(vs, q, thr, before + lv.take(li as int))[k],
            invariant
                lv == list@,
                vs == partition.vectors@,
                q == query@,
                thr == threshold_sq as int,
                full == before + (lv + probed_ids(lists, probe.skip(pi as int + 1))),
                forall|t: int| 0 <= t < full.len() ==> #[trigger] full[t] < vs.len(),
                li <= lv.len(),
                count <= 5,
                forall|k: int| count <= k < 5 ==> offsets@[k] == 0,
            ensures
                count == 5 ==> exists|pre: Seq<u32>, post: Seq<u32>|
                    full == pre + post && count == close_ids(vs, q, thr, pre).len() && forall|k: int|
                        0 <= k < count ==> offsets@[k] == #[trigger] close_ids(vs, q, thr, pre)[k],
                count < 5 ==> li == lv.len(),
                count < 5 ==> count == close_ids(vs, q, thr, before + lv.take(li as int)).len(),
                count < 5 ==> forall|k: int|
                    0 <= k < count ==> offsets@[k] == close_ids(vs, q, thr, before + lv.take(li as int))[k],
            decreases lv.len() - li,
        {
            let vec_idx = list[li];
            proof {
                assert(full[before.len() + li] == lv[li as int]);
            }
            let d = l2_sq_scalar(query, &partition.vectors[vec_idx as usize]);
            let ghost prev_seq = before + lv.take(li as int);
            let ghost next_seq = before + lv.take(li as int + 1);
            proof {
                assert(next_seq.drop_last() =~= prev_seq);
                assert(next_seq.last() == vec_idx);
                assert(d == sq_dist(q, vs[vec_idx as int]@));
            }
            if d <= threshold_sq {
                offsets[count] = vec_idx as usize;
                count = count + 1;
                li = li + 1;
                if count >= 5 {
                    proof {
                        let post = lv.skip(li as int) + probed_ids(lists, probe.skip(pi as int + 1));
                        assert(lv.take(li as int) + lv.skip(li as int) =~= lv);
                        assert(full =~= next_seq + post);
                    }
                    break;
                }
            } else {
                li = li + 1;
            }
        }
        if count >= 5 {
            break;
        }
        proof {
            assert(lv.take(lv.len() as int) =~= lv);
            assert(probe.take(pi as int + 1).drop_last() =~= probe.take(pi as int));
            assert(probe.take(pi as int + 1).last() == ci);
            assert(lists[ci as int]@ == lv);
            assert(probed_ids(lists, probe.take(pi as int + 1)) == before + lv);
            assert(before + lv.take(li as int) == before + lv);
        }
        pi = pi + 1;
    }
    proof {
        if count == 5 {
            let (pre, post) = choose|pre: Seq<u32>, post: Seq<u32>|
                full == pre + post && count == close_ids(vs, q, thr, pre).len() && forall|k: int|
                    0 <= k < count ==> offsets@[k] == #[trigger] close_ids(vs, q, thr, pre)[k];
            lemma_close_ids_append(vs, q, thr, pre, post);
        } else {
            assert(probe.take(pi as int) =~= probe);
        }
    }
    (offsets, count)
}


/// Whether `v` holds the `i`-th group of `VECTOR_DIMENSION` bytes of `b`,
/// each read as a signed byte, in its first `VECTOR_DIMENSION` coordinates.
pub open spec fn holds_chunk(v: Seq<i8>, b: Seq<u8>, i: int) -> bool {
    forall|d: int| 0 <= d < VECTOR_DIMENSION ==> #[trigger] v[d] == (b[VECTOR_DIMENSION * i + d] as i8)
}

proof fn lemma_chunk_in_range(i: int, d: int, n: int)
    requires
        0 <= i < n,
        0 <= d < VECTOR_DIMENSION,
    ensures
        0 <= VECTOR_DIMENSION * i + d < VECTOR_DIMENSION * n,
{
    assert(VECTOR_DIMENSION * i + d < VECTOR_DIMENSION * n) by (nonlinear_arith)
        requires
            0 <= i < n,
            0 <= d < VECTOR_DIMENSION,
    ;
}

impl Partition {
    /// Builds a partition from the bytes of its vector file and its label
    /// file: every complete group of `VECTOR_DIMENSION` bytes is one vector
    /// (each byte read as a signed byte, padded with zeros to
    /// `VECTOR_STRIDE`); a trailing incomplete group is ignored.
    pub fn decode(vec_bytes: &[u8], labels: Vec<u8>) -> (r: Partition)
        ensures
            r.labels@ == labels@,
            r.vectors.len() == vec_bytes.len() / VECTOR_DIMENSION,
            forall|i: int|
                0 <= i < r.vectors.len() ==> holds_chunk(#[trigger] r.vectors@[i]@, vec_bytes@, i),
            forall|i: int, d: int|
                0 <= i < r.vectors.len() && VECTOR_DIMENSION <= d < VECTOR_STRIDE
                    ==> #[trigger] r.vectors@[i]@[d] == 0,
    {
        let n = vec_bytes.len() / VECTOR_DIMENSION;
        let mut vectors: Vec<[i8; VECTOR_STRIDE]> = Vec::new();
        let mut i: usize = 0;
        while i < n
            invariant
                n == vec_bytes.len() / VECTOR_DIMENSION,
                i <= n,
                vectors.len() == i,
                forall|i2: int| 0 <= i2 < i ==> holds_chunk(#[trigger] vectors@[i2]@, vec_bytes@, i2),
                forall|i2: int, d: int|
                    0 <= i2 < i && VECTOR_DIMENSION <= d < VECTOR_STRIDE
                        ==> #[trigger] vectors@[i2]@[d] == 0,
            decreases n - i,
        {
            let mut v: [i8; VECTOR_STRIDE] = [0i8; VECTOR_STRIDE];
            let mut d: usize = 0;
            while d < VECTOR_DIMENSION
                invariant
                    n == vec_bytes.len() / VECTOR_DIMENSION,
                    i < n,
                    d <= VECTOR_DIMENSION,
                    forall|d2: int| 0 <= d2 < d ==> #[trigger] v@[d2] == (vec_bytes@[VECTOR_DIMENSION * i + d2] as i8),
                    forall|d2: int| VECTOR_DIMENSION <= d2 < VECTOR_STRIDE ==> #[trigger] v@[d2] == 0,
                decreases VECTOR_DIMENSION - d,
            {
                proof {
                    lemma_chunk_in_range(i as int, d as int, n as int);
                }
                v[d] = vec_bytes[VECTOR_DIMENSION * i + d] as i8;
                d = d + 1;
            }
            vectors.push(v);
            i = i + 1;
        }
        Partition { vectors, labels }
    }
}

/// Splits a vector file into its vectors: every complete group of
/// `VECTOR_DIMENSION` bytes, each byte read as a signed byte; a trailing
/// incomplete group is ignored.
pub fn decode_vectors(bytes: &[u8]) -> (r: Vec<[i8; VECTOR_DIMENSION]>)
    ensures
        r.len() == bytes.len() / VECTOR_DIMENSION,
        forall|i: int| 0 <= i < r.len() ==> holds_chunk(#[trigger] r@[i]@, bytes@, i),
{
    let n = bytes.len() / VECTOR_DIMENSION;
    let mut out: Vec<[i8; VECTOR_DIMENSION]> = Vec::new();
    let mut i: usize = 0;
    while i < n
        invariant
            n == bytes.len() / VECTOR_DIMENSION,
            i <= n,
            out.len() == i,
            forall|i2: int| 0 <= i2 < i ==> holds_chunk(#[trigger] out@[i2]@, bytes@, i2),
        decreases n - i,
    {
        let mut v: [i8; VECTOR_DIMENSION] = [0i8; VECTOR_DIMENSION];
        let mut d: usize = 0;
        while d < VECTOR_DIMENSION
            invariant
                n == bytes.len() / VECTOR_DIMENSION,
                i < n,
                d <= VECTOR_DIMENSION,
                forall|d2: int| 0 <= d2 < d ==> #[trigger] v@[d2] == (bytes@[VECTOR_DIMENSION * i + d2] as i8),
            decreases VECTOR_DIMENSION - d,
        {
            proof {
                lemma_chunk_in_range(i as int, d as int, n as int);
            }
            v[d] = bytes[VECTOR_DIMENSION * i + d] as i8;
            d = d + 1;
        }
        out.push(v);
        i = i + 1;
    }
    out
}


/// Whether every probed cluster has a list and every probed list names
/// positions below `n`.
pub open spec fn lists_fit(lists: Seq<Vec<u32>>, probe: Seq<usize>, n: int) -> bool {
    &&& forall|k: int| 0 <= k < probe.len() ==> #[trigger] probe[k] < lists.len()
    &&& forall|k: int, e: int|
        0 <= k < probe.len() && 0 <= e < lists[probe[k] as int]@.len() ==> #[trigger] lists[probe[k] as int]@[e]
            < n
}

/// The stream of probed lists only names positions below `n` when every
/// probed list does.
pub proof fn lemma_probed_ids_fit(lists: Seq<Vec<u32>>, probe: Seq<usize>, n: int)
    requires
        lists_fit(lists, probe, n),
    ensures
        forall|t: int| 0 <= t < probed_ids(lists, probe).len() ==> #[trigger] probed_ids(lists, probe)[t] < n,
    decreases probe.len(),
{
    if probe.len() > 0 {
        let init = probe.drop_last();
        assert forall|k: int, e: int|
            0 <= k < init.len() && 0 <= e < lists[init[k] as int]@.len() implies #[trigger] lists[init[k] as int]@[e]
            < n by {
            assert(init[k] == probe[k]);
        }
        assert forall|k: int| 0 <= k < init.len() implies #[trigger] init[k] < lists.len() by {
            assert(init[k] == probe[k]);
        }
        lemma_probed_ids_fit(lists, init, n);
        let a = probed_ids(lists, init);
        let c = probe.last() as int;
        let b = lists[c]@;
        assert forall|t: int| 0 <= t < probed_ids(lists, probe).len() implies #[trigger] probed_ids(lists, probe)[t]
            < n by {
            if t >= a.len() {
                assert(probed_ids(lists, probe)[t] == b[t - a.len()]);
                assert(lists[probe[probe.len() - 1] as int]@[t - a.len()] < n);
            } else {
                assert(probed_ids(lists, probe)[t] == a[t]);
            }
        }
    }
}


proof fn lemma_sq_dist_upto_update(a: Seq<i8>, b: Seq<i8>, n: nat, i: int, x: i8)
    requires
        0 <= i < b.len(),
        n <= b.len(),
        n <= a.len(),
    ensures
        sq_dist_upto(a, b.update(i, x), n) == sq_dist_upto(a, b, n) + if i < n {
            (a[i] - x) * (a[i] - x) - (a[i] - b[i]) * (a[i] - b[i])
        } else {
            0
        },
    decreases n,
{
    if n > 0 {
        lemma_sq_dist_upto_update(a, b, (n - 1) as nat, i, x);
    }
}

proof fn lemma_sq_dist_upto_zero(a: Seq<i8>, b: Seq<i8>, n: nat)
    requires
        n <= a.len(),
        n <= b.len(),
    ensures
        sq_dist_upto(a, b, n) == 0 <==> forall|i: int| 0 <= i < n ==> #[trigger] a[i] == b[i],
    decreases n,
{
    if n > 0 {
        lemma_sq_dist_upto_zero(a, b, (n - 1) as nat);
        lemma_sq_dist_upto_bounds(a, b, (n - 1) as nat);
        let d = a[n - 1] - b[n - 1];
        assert(d * d >= 0) by (nonlinear_arith);
        assert(d * d == 0 <==> d == 0) by (nonlinear_arith);
        if sq_dist_upto(a, b, n) == 0 {
            assert forall|i: int| 0 <= i < n implies #[trigger] a[i] == b[i] by {
                if i < n - 1 {
                    assert(sq_dist_upto(a, b, (n - 1) as nat) == 0);
                }
            }
        }
    }
}

/// The squared distance compares each coordinate with the same coordinate:
/// it is 0 exactly when the meaningful coordinates agree, and changing
/// coordinate `i` of `b` changes it by the change of `(a[i] - b[i])^2`
/// (nothing for a padding coordinate).
pub proof fn lemma_sq_dist_by_coordinate(a: Seq<i8>, b: Seq<i8>, i: int, x: i8)
    requires
        a.len() == VECTOR_STRIDE,
        b.len() == VECTOR_STRIDE,
        0 <= i < VECTOR_STRIDE,
    ensures
        sq_dist(a, b) == 0 <==> forall|d: int| 0 <= d < VECTOR_DIMENSION ==> #[trigger] a[d] == b[d],
        sq_dist(a, b.update(i, x)) == sq_dist(a, b) + if i < VECTOR_DIMENSION {
            (a[i] - x) * (a[i] - x) - (a[i] - b[i]) * (a[i] - b[i])
        } else {
            0
        },
{
    lemma_sq_dist_upto_zero(a, b, VECTOR_DIMENSION as nat);
    lemma_sq_dist_upto_update(a, b, VECTOR_DIMENSION as nat, i, x);
}

/// The close positions are exactly the positions below `n` whose vector
/// lies within `threshold_sq` of `query`, in increasing order.
pub proof fn lemma_close_positions(
    vectors: Seq<[i8; VECTOR_STRIDE]>,
    query: Seq<i8>,
    threshold_sq: int,
    n: nat,
)
    requires
        n <= vectors.len(),
        n <= usize::MAX,
    ensures
        forall|k: int|
            0 <= k < close_positions(vectors, query, threshold_sq, n).len() ==> #[trigger] close_positions(
                vectors,
                query,
                threshold_sq,
                n,
            )[k] < n,
        forall|k1: int, k2: int|
            0 <= k1 < k2 < close_positions(vectors, query, threshold_sq, n).len() ==> close_positions(
                vectors,
                query,
                threshold_sq,
                n,
            )[k1] < close_positions(vectors, query, threshold_sq, n)[k2],
        forall|i: int|
            0 <= i < n ==> (#[trigger] close_positions(vectors, query, threshold_sq, n).contains(i as usize)
                <==> sq_dist(query, vectors[i]@) <= threshold_sq),
    decreases n,
{
    if n > 0 {
        lemma_close_positions(vectors, query, threshold_sq, (n - 1) as nat);
        let rest = close_positions(vectors, query, threshold_sq, (n - 1) as nat);
        let all = close_positions(vectors, query, threshold_sq, n);
        let last = (n - 1) as usize;
        assert forall|i: int| 0 <= i < n implies (#[trigger] all.contains(i as usize) <==> sq_dist(
            query,
            vectors[i]@,
        ) <= threshold_sq) by {
            if all.contains(i as usize) {
                let w = choose|w: int| 0 <= w < all.len() && all[w] == i as usize;
                if w < rest.len() {
                    assert(rest[w] == i as usize);
                    assert(rest.contains(i as usize));
                }
            }
            if i < n - 1 {
                if rest.contains(i as usize) {
                    let w = choose|w: int| 0 <= w < rest.len() && rest[w] == i as usize;
                    assert(all[w] == i as usize);
                }
            } else {
                if sq_dist(query, vectors[i]@) <= threshold_sq {
                    assert(all[all.len() - 1] == last);
                }
            }
        }
    }
}

/// The close ids are the ids of `ids` whose vector lies within
/// `threshold_sq` of `query`: every one is an id of `ids` and lies within,
/// and every id of `ids` that lies within is kept.
pub proof fn lemma_close_ids(
    vectors: Seq<[i8; VECTOR_STRIDE]>,
    query: Seq<i8>,
    threshold_sq: int,
    ids: Seq<u32>,
)
    ensures
        close_ids(vectors, query, threshold_sq, ids).len() <= ids.len(),
        forall|k: int|
            0 <= k < close_ids(vectors, query, threshold_sq, ids).len() ==> sq_dist(
                query,
                vectors[#[trigger] close_ids(vectors, query, threshold_sq, ids)[k] as int]@,
            ) <= threshold_sq && ids.map_values(|id: u32| id as usize).contains(
                close_ids(vectors, query, threshold_sq, ids)[k],
            ),
        forall|t: int|
            0 <= t < ids.len() && sq_dist(query, vectors[#[trigger] ids[t] as int]@) <= threshold_sq
                ==> close_ids(vectors, query, threshold_sq, ids).contains(ids[t] as usize),
    decreases ids.len(),
{
    if ids.len() > 0 {
        let init = ids.drop_last();
        lemma_close_ids(vectors, query, threshold_sq, init);
        let rest = close_ids(vectors, query, threshold_sq, init);
        let all = close_ids(vectors, query, threshold_sq, ids);
        let im = init.map_values(|id: u32| id as usize);
        let am = ids.map_values(|id: u32| id as usize);
        assert forall|k: int| 0 <= k < all.len() implies sq_dist(query, vectors[#[trigger] all[k] as int]@)
            <= threshold_sq && am.contains(all[k]) by {
            if k < rest.len() {
                assert(all[k] == rest[k]);
                assert(im.contains(rest[k]));
                let w = choose|w: int| 0 <= w < im.len() && im[w] == rest[k];
                assert(am[w] == im[w]);
            } else {
                assert(all == rest.push(ids.last() as usize));
                assert(am[ids.len() - 1] == ids.last() as usize);
            }
        }
        assert forall|t: int|
            0 <= t < ids.len() && sq_dist(query, vectors[#[trigger] ids[t] as int]@) <= threshold_sq implies all.contains(
            ids[t] as usize,
        ) by {
            if t < ids.len() - 1 {
                assert(init[t] == ids[t]);
                assert(rest.contains(init[t] as usize));
                let w = choose|w: int| 0 <= w < rest.len() && rest[w] == init[t] as usize;
                assert(all[w] == rest[w]);
            } else {
                assert(all[all.len() - 1] == ids.last() as usize);
            }
        }
    }
}

/// The stream of probed lists holds exactly the entries of the probed
/// lists: an id is in it when and only when some probed cluster's list
/// holds it.
pub proof fn lemma_probed_ids(lists: Seq<Vec<u32>>, probe: Seq<usize>, x: u32)
    ensures
        probed_ids(lists, probe).contains(x) <==> exists|k: int|
            0 <= k < probe.len() && (#[trigger] lists[probe[k] as int])@.contains(x),
    decreases probe.len(),
{
    if probe.len() > 0 {
        let init = probe.drop_last();
        lemma_probed_ids(lists, init, x);
        let a = probed_ids(lists, init);
        let b = lists[probe.last() as int]@;
        let all = probed_ids(lists, probe);
        if all.contains(x) {
            let w = choose|w: int| 0 <= w < all.len() && all[w] == x;
            if w < a.len() {
                assert(a[w] == x);
                assert(a.contains(x));
                let k = choose|k: int| 0 <= k < init.len() && (#[trigger] lists[init[k] as int])@.contains(x);
                assert(probe[k] == init[k]);
            } else {
                assert(b[w - a.len()] == x);
                assert(b.contains(x));
                assert(lists[probe[probe.len() - 1] as int]@.contains(x));
            }
        }
        if exists|k: int| 0 <= k < probe.len() && (#[trigger] lists[probe[k] as int])@.contains(x) {
            let k = choose|k: int| 0 <= k < probe.len() && (#[trigger] lists[probe[k] as int])@.contains(x);
            if k < init.len() {
                assert(init[k] == probe[k]);
                assert(a.contains(x));
                let w = choose|w: int| 0 <= w < a.len() && a[w] == x;
                assert(all[w] == x);
            } else {
                let w = choose|w: int| 0 <= w < b.len() && b[w] == x;
                assert(all[a.len() + w] == x);
            }
        }
    }
}

} // verus!
