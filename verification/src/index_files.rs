use vstd::prelude::*;
use crate::ivf_format::u32_le;
use crate::knn::DIM;

verus! {

/// Positions below `n` whose cluster is `c`, in increasing order.
pub open spec fn members(ids: Seq<usize>, c: int, n: nat) -> Seq<int>
    decreases n,
{
    if n == 0 {
        Seq::empty()
    } else {
        let rest = members(ids, c, (n - 1) as nat);
        if ids[n - 1] == c {
            rest.push(n - 1)
        } else {
            rest
        }
    }
}

/// Number of vectors in cluster `c`.
pub open spec fn cluster_size(ids: Seq<usize>, c: int) -> int {
    members(ids, c, ids.len()).len() as int
}

/// Data bytes taken by the clusters before cluster `c`: each vector takes
/// `DIM` bytes and one label byte.
pub open spec fn data_before(ids: Seq<usize>, c: nat) -> int
    decreases c,
{
    if c == 0 {
        0
    } else {
        data_before(ids, (c - 1) as nat) + (DIM + 1) * cluster_size(ids, c - 1)
    }
}

/// Little-endian bytes of the low 64 bits of `x`.
pub open spec fn u64_le(x: int) -> Seq<u8> {
    Seq::new(8, |j: int| ((x / pow256(j)) % 256) as u8)
}

/// `256` to the power `j`.
pub open spec fn pow256(j: int) -> int
    decreases j,
{
    if j <= 0 {
        1
    } else {
        256 * pow256(j - 1)
    }
}

/// Offset in the file of the data of cluster `c`.
pub open spec fn cluster_offset(ids: Seq<usize>, n_centroids: int, c: nat) -> int {
    8 + 16 * n_centroids + data_before(ids, c)
}

/// Offset-table entries of the clusters before `c`: offset (`u64`), size
/// (`u32`), then four zero bytes.
pub open spec fn table_bytes(ids: Seq<usize>, n_centroids: int, c: nat) -> Seq<u8>
    decreases c,
{
    if c == 0 {
        Seq::empty()
    } else {
        table_bytes(ids, n_centroids, (c - 1) as nat) + u64_le(
            cluster_offset(ids, n_centroids, (c - 1) as nat),
        ) + u32_le(cluster_size(ids, c - 1)) + u32_le(0)
    }
}

/// The vectors of the positions `mem`, one after the other.
pub open spec fn vector_bytes(qvecs: Seq<[u8; DIM]>, mem: Seq<int>) -> Seq<u8>
    decreases mem.len(),
{
    if mem.len() == 0 {
        Seq::empty()
    } else {
        vector_bytes(qvecs, mem.drop_last()) + qvecs[mem.last()]@
    }
}

/// The data of the clusters before `c`: for each, its vectors then its labels.
pub open spec fn data_bytes(ids: Seq<usize>, qvecs: Seq<[u8; DIM]>, labels: Seq<u8>, c: nat) -> Seq<u8>
    decreases c,
{
    if c == 0 {
        Seq::empty()
    } else {
        let mem = members(ids, c - 1, ids.len());
        data_bytes(ids, qvecs, labels, (c - 1) as nat) + vector_bytes(qvecs, mem) + mem.map_values(
            |i: int| labels[i],
        )
    }
}

/// The cluster file for `n_centroids` clusters: the cluster count and the
/// dimension (`u32` each), the offset table, then the data of each cluster.
pub open spec fn ivf_bin_bytes(
    n_centroids: int,
    qvecs: Seq<[u8; DIM]>,
    labels: Seq<u8>,
    ids: Seq<usize>,
) -> Seq<u8> {
    u32_le(n_centroids) + u32_le(DIM as int) + table_bytes(ids, n_centroids, n_centroids as nat)
        + data_bytes(ids, qvecs, labels, n_centroids as nat)
}

proof fn lemma_members_bounds(ids: Seq<usize>, c: int, n: nat)
    requires
        n <= ids.len(),
    ensures
        members(ids, c, n).len() <= n,
        forall|m: int| 0 <= m < members(ids, c, n).len() ==> 0 <= #[trigger] members(ids, c, n)[m] < n,
    decreases n,
{
    if n > 0 {
        lemma_members_bounds(ids, c, (n - 1) as nat);
    }
}

/// The members of cluster `c` are exactly the positions below `n` assigned
/// to `c`, each once, in increasing order.
pub proof fn lemma_members(ids: Seq<usize>, c: int, n: nat)
    requires
        n <= ids.len(),
    ensures
        forall|m: int|
            0 <= m < members(ids, c, n).len() ==> 0 <= #[trigger] members(ids, c, n)[m] < n && ids[members(
                ids,
                c,
                n,
            )[m]] == c,
        forall|m1: int, m2: int|
            0 <= m1 < m2 < members(ids, c, n).len() ==> members(ids, c, n)[m1] < members(ids, c, n)[m2],
        forall|i: int| 0 <= i < n && #[trigger] ids[i] == c ==> members(ids, c, n).contains(i),
    decreases n,
{
    if n > 0 {
        lemma_members(ids, c, (n - 1) as nat);
        let rest = members(ids, c, (n - 1) as nat);
        let all = members(ids, c, n);
        assert forall|i: int| 0 <= i < n && #[trigger] ids[i] == c implies all.contains(i) by {
            if i < n - 1 {
                let w = choose|w: int| 0 <= w < rest.len() && rest[w] == i;
                assert(all[w] == i);
            } else {
                assert(all[all.len() - 1] == i);
            }
        }
    }
}

proof fn lemma_data_before_bounds(ids: Seq<usize>, c: nat)
    ensures
        0 <= data_before(ids, c),
    decreases c,
{
    if c > 0 {
        lemma_data_before_bounds(ids, (c - 1) as nat);
    }
}

proof fn lemma_sizes_sum(ids: Seq<usize>, n_centroids: nat, c: nat, n: nat)
    requires
        n <= ids.len(),
        c <= n_centroids,
        forall|i: int| 0 <= i < ids.len() ==> ids[i] < n_centroids,
    ensures
        sum_sizes(ids, c, n) <= n,
    decreases c,
{
    if c > 0 {
        lemma_sizes_sum(ids, n_centroids, (c - 1) as nat, n);
        lemma_sum_sizes_total(ids, n_centroids, n);
        lemma_sum_sizes_monotone(ids, c, n_centroids, n);
    }
}

/// Number of positions below `n` whose cluster is below `c`.
pub open spec fn sum_sizes(ids: Seq<usize>, c: nat, n: nat) -> int
    decreases c,
{
    if c == 0 {
        0
    } else {
        sum_sizes(ids, (c - 1) as nat, n) + members(ids, c - 1, n).len()
    }
}

proof fn lemma_sum_sizes_monotone(ids: Seq<usize>, a: nat, b: nat, n: nat)
    requires
        a <= b,
    ensures
        sum_sizes(ids, a, n) <= sum_sizes(ids, b, n),
    decreases b,
{
    if a < b {
        lemma_sum_sizes_monotone(ids, a, (b - 1) as nat, n);
    }
}

proof fn lemma_sum_sizes_total(ids: Seq<usize>, n_centroids: nat, n: nat)
    requires
        n <= ids.len(),
        forall|i: int| 0 <= i < ids.len() ==> ids[i] < n_centroids,
    ensures
        sum_sizes(ids, n_centroids, n) == n,
    decreases n,
{
    if n > 0 {
        lemma_sum_sizes_total(ids, n_centroids, (n - 1) as nat);
        lemma_sum_sizes_step(ids, n_centroids, n);
    } else {
        lemma_sum_sizes_empty(ids, n_centroids);
    }
}

proof fn lemma_sum_sizes_empty(ids: Seq<usize>, c: nat)
    ensures
        sum_sizes(ids, c, 0) == 0,
    decreases c,
{
    if c > 0 {
        lemma_sum_sizes_empty(ids, (c - 1) as nat);
    }
}

proof fn lemma_sum_sizes_step(ids: Seq<usize>, c: nat, n: nat)
    requires
        1 <= n <= ids.len(),
    ensures
        sum_sizes(ids, c, n) == sum_sizes(ids, c, (n - 1) as nat) + if ids[n - 1] < c {
            1int
        } else {
            0int
        },
    decreases c,
{
    if c > 0 {
        lemma_sum_sizes_step(ids, (c - 1) as nat, n);
    }
}

proof fn lemma_data_before_is_sum(ids: Seq<usize>, c: nat)
    ensures
        data_before(ids, c) == (DIM + 1) * sum_sizes(ids, c, ids.len()),
    decreases c,
{
    if c > 0 {
        lemma_data_before_is_sum(ids, (c - 1) as nat);
    }
}

fn push_u64(out: &mut Vec<u8>, x: u64)
    ensures
        final(out)@ == old(out)@ + u64_le(x as int),
{
    let ghost start = old(out)@;
    let mut v = x;
    let mut j: usize = 0;
    while j < 8
        invariant
            j <= 8,
            v == x as int / pow256(j as int),
            out@ == start + u64_le(x as int).take(j as int),
        decreases 8 - j,
    {
        proof {
            lemma_pow256_positive(j as int);
        }
        out.push((v % 256) as u8);
        proof {
            assert(u64_le(x as int).take(j as int + 1) =~= u64_le(x as int).take(j as int).push(
                ((x as int / pow256(j as int)) % 256) as u8,
            ));
            vstd::arithmetic::div_mod::lemma_div_denominator(x as int, pow256(j as int), 256);
            assert(pow256(j as int + 1) == pow256(j as int) * 256);
        }
        v = v / 256;
        j = j + 1;
    }
    proof {
        assert(u64_le(x as int).take(8) =~= u64_le(x as int));
    }
}

proof fn lemma_pow256_positive(j: int)
    ensures
        pow256(j) > 0,
    decreases j,
{
    if j > 0 {
        lemma_pow256_positive(j - 1);
    }
}

fn push_u32_le(out: &mut Vec<u8>, x: u32)
    ensures
        final(out)@ == old(out)@ + u32_le(x as int),
{
    out.push((x % 256) as u8);
    out.push(((x / 256) % 256) as u8);
    out.push(((x / 65536) % 256) as u8);
    out.push(((x / 16777216) % 256) as u8);
    proof {
        assert(out@ =~= old(out)@ + u32_le(x as int));
    }
}

/// The low 32 bits of a count, which have the same little-endian bytes.
fn low_bits(n: usize) -> (r: u32)
    ensures
        u32_le(r as int) == u32_le(n as int),
{
    let r = (n as u64 % 4294967296u64) as u32;
    proof {
        let l = n as u64;
        let r64 = r as u64;
        assert(r64 % 256 == l % 256) by (bit_vector)
            requires
                r64 == l % 4294967296,
        ;
        assert((r64 / 256) % 256 == (l / 256) % 256) by (bit_vector)
            requires
                r64 == l % 4294967296,
        ;
        assert((r64 / 65536) % 256 == (l / 65536) % 256) by (bit_vector)
            requires
                r64 == l % 4294967296,
        ;
        assert((r64 / 16777216) % 256 == (l / 16777216) % 256) by (bit_vector)
            requires
                r64 == l % 4294967296,
        ;
        assert(u32_le(r as int) =~= u32_le(n as int));
    }
    r
}

/// Writes the cluster file: vector `i` (already quantized) and label `i`
/// belong to cluster `cluster_ids[i]`. The header holds the cluster count
/// and the dimension; the offset table holds, for each cluster, where its
/// data starts, how many vectors it has, and four zero bytes; the data holds,
/// for each cluster, its vectors in increasing position, then their labels.
pub fn encode_ivf_bin(
    n_centroids: usize,
    qvecs: &Vec<[u8; DIM]>,
    labels: &Vec<u8>,
    cluster_ids: &Vec<usize>,
) -> (r: Vec<u8>)
    requires
        forall|i: int| 0 <= i < cluster_ids.len() ==> cluster_ids@[i] < n_centroids,
        qvecs.len() >= cluster_ids.len(),
        labels.len() >= cluster_ids.len(),
        8 + 16 * n_centroids + (DIM + 1) * cluster_ids.len() <= u64::MAX,
        8 + 16 * n_centroids + (DIM + 1) * cluster_ids.len() <= usize::MAX,
    ensures
        r@ == ivf_bin_bytes(n_centroids as int, qvecs@, labels@, cluster_ids@),
{
    let ghost ids = cluster_ids@;
    let n = cluster_ids.len();
    let mut clusters: Vec<Vec<usize>> = Vec::new();
    let mut c: usize = 0;
    while c < n_centroids
        invariant
            c <= n_centroids,
            clusters.len() == c,
            forall|c2: int| 0 <= c2 < c ==> (#[trigger] clusters@[c2])@ == Seq::<usize>::empty(),
        decreases n_centroids - c,
    {
        clusters.push(Vec::new());
        c = c + 1;
    }
    let mut i: usize = 0;
    while i < n
        invariant
            ids == cluster_ids@,
            n == ids.len(),
            forall|i2: int| 0 <= i2 < n ==> ids[i2] < n_centroids,
            i <= n,
            clusters.len() == n_centroids,
            forall|c2: int|
                0 <= c2 < n_centroids ==> (#[trigger] clusters@[c2])@.map_values(|x: usize| x as int)
                    == members(ids, c2, i as nat),
        decreases n - i,
    {
        let ci = cluster_ids[i];
        clusters[ci].push(i);
        proof {
            assert forall|c2: int| 0 <= c2 < n_centroids implies (#[trigger] clusters@[c2])@.map_values(
                |x: usize| x as int,
            ) == members(ids, c2, (i + 1) as nat) by {
                if c2 == ci {
                    assert(clusters@[c2]@.map_values(|x: usize| x as int) =~= members(ids, c2, i as nat).push(
                        i as int,
                    ));
                }
            }
        }
        i = i + 1;
    }
    let mut out: Vec<u8> = Vec::new();
    push_u32_le(&mut out, low_bits(n_centroids));
    push_u32_le(&mut out, DIM as u32);
    let ghost head = out@;
    proof {
        assert(head == u32_le(n_centroids as int) + u32_le(DIM as int));
        lemma_sum_sizes_total(ids, n_centroids as nat, n as nat);
        lemma_data_before_is_sum(ids, n_centroids as nat);
    }
    let mut cur: u64 = 8 + 16 * n_centroids as u64;
    let mut c: usize = 0;
    while c < n_centroids
        invariant
            ids == cluster_ids@,
            n == ids.len(),
            forall|i2: int| 0 <= i2 < n ==> ids[i2] < n_centroids,
            clusters.len() == n_centroids,
            forall|c2: int|
                0 <= c2 < n_centroids ==> (#[trigger] clusters@[c2])@.map_values(|x: usize| x as int)
                    == members(ids, c2, n as nat),
            8 + 16 * n_centroids + (DIM + 1) * n <= u64::MAX,
            8 + 16 * n_centroids + (DIM + 1) * n <= usize::MAX,
            sum_sizes(ids, n_centroids as nat, n as nat) == n,
            c <= n_centroids,
            cur == cluster_offset(ids, n_centroids as int, c as nat),
            out@ == head + table_bytes(ids, n_centroids as int, c as nat),
        decreases n_centroids - c,
    {
        let size = clusters[c].len();
        proof {
            assert(size == cluster_size(ids, c as int)) by {
                assert(clusters@[c as int]@.map_values(|x: usize| x as int).len() == size);
            }
            lemma_data_before_is_sum(ids, (c + 1) as nat);
            lemma_sum_sizes_monotone(ids, (c + 1) as nat, n_centroids as nat, n as nat);
            lemma_data_before_bounds(ids, c as nat);
            assert(sum_sizes(ids, (c + 1) as nat, n as nat) <= n);
            assert((DIM + 1) * sum_sizes(ids, (c + 1) as nat, n as nat) <= (DIM + 1) * n) by (nonlinear_arith)
                requires
                    sum_sizes(ids, (c + 1) as nat, n as nat) <= n,
            ;
            lemma_members_bounds(ids, c as int, n as nat);
            assert(size * DIM + size <= (DIM + 1) * n) by (nonlinear_arith)
                requires
                    size <= n,
            ;
            assert(data_before(ids, (c + 1) as nat) == data_before(ids, c as nat) + (DIM + 1) * size);
            assert(data_before(ids, (c + 1) as nat) <= (DIM + 1) * n);
            assert(cur + (DIM + 1) * size == cluster_offset(ids, n_centroids as int, (c + 1) as nat));
            assert(cur + (DIM + 1) * size <= u64::MAX);
        }
        push_u64(&mut out, cur);
        push_u32_le(&mut out, low_bits(size));
        push_u32_le(&mut out, 0);
        proof {
            assert(out@ =~= head + table_bytes(ids, n_centroids as int, (c + 1) as nat));
        }
        let step = (size * DIM + size) as u64;
        assert(step == size * DIM + size);
        assert(size * DIM + size == (DIM + 1) * size) by (nonlinear_arith);
        cur = cur + step;
        c = c + 1;
    }
    let ghost mid = out@;
    let mut c: usize = 0;
    while c < n_centroids
        invariant
            ids == cluster_ids@,
            n == ids.len(),
            qvecs.len() >= n,
            labels.len() >= n,
            clusters.len() == n_centroids,
            forall|c2: int|
                0 <= c2 < n_centroids ==> (#[trigger] clusters@[c2])@.map_values(|x: usize| x as int)
                    == members(ids, c2, n as nat),
            c <= n_centroids,
            out@ == mid + data_bytes(ids, qvecs@, labels@, c as nat),
        decreases n_centroids - c,
    {
        let cluster = &clusters[c];
        let ghost mem = members(ids, c as int, n as nat);
        proof {
            lemma_members_bounds(ids, c as int, n as nat);
            assert(cluster@.map_values(|x: usize| x as int) == mem);
        }
        let ghost before = out@;
        let mut m: usize = 0;
        while m < cluster.len()
            invariant
                cluster@.map_values(|x: usize| x as int) == mem,
                forall|m2: int| 0 <= m2 < mem.len() ==> 0 <= #[trigger] mem[m2] < n,
                qvecs.len() >= n,
                m <= cluster.len(),
                out@ == before + vector_bytes(qvecs@, mem.take(m as int)),
            decreases cluster.len() - m,
        {
            let vi = cluster[m];
            proof {
                assert(mem[m as int] == vi as int);
            }
            let v = &qvecs[vi];
            let ghost b2 = out@;
            let mut j: usize = 0;
            while j < DIM
                invariant
                    j <= DIM,
                    out@ == b2 + v@.take(j as int),
                decreases DIM - j,
            {
                out.push(v[j]);
                proof {
                    assert(v@.take(j as int + 1) =~= v@.take(j as int).push(v@[j as int]));
                }
                j = j + 1;
            }
            proof {
                assert(v@.take(DIM as int) =~= v@);
                assert(mem.take(m as int + 1).drop_last() =~= mem.take(m as int));
                assert(mem.take(m as int + 1).last() == vi as int);
                assert(out@ =~= before + vector_bytes(qvecs@, mem.take(m as int + 1)));
            }
            m = m + 1;
        }
        proof {
            assert(mem.take(mem.len() as int) =~= mem);
        }
        let ghost before2 = out@;
        let mut m: usize = 0;
        while m < cluster.len()
            invariant
                cluster@.map_values(|x: usize| x as int) == mem,
                forall|m2: int| 0 <= m2 < mem.len() ==> 0 <= #[trigger] mem[m2] < n,
                labels.len() >= n,
                m <= cluster.len(),
                out@ == before2 + mem.take(m as int).map_values(|i: int| labels@[i]),
            decreases cluster.len() - m,
        {
            let vi = cluster[m];
            proof {
                assert(mem[m as int] == vi as int);
            }
            out.push(labels[vi]);
            proof {
                assert(mem.take(m as int + 1).map_values(|i: int| labels@[i]) =~= mem.take(m as int).map_values(
                    |i: int| labels@[i],
                ).push(labels@[vi as int]));
            }
            m = m + 1;
        }
        proof {
            assert(mem.take(mem.len() as int) =~= mem);
            assert(out@ =~= mid + data_bytes(ids, qvecs@, labels@, (c + 1) as nat));
        }
        c = c + 1;
    }
    proof {
        assert(out@ =~= ivf_bin_bytes(n_centroids as int, qvecs@, labels@, cluster_ids@));
    }
    out
}


proof fn lemma_table_len(ids: Seq<usize>, n_centroids: int, k: nat)
    ensures
        table_bytes(ids, n_centroids, k).len() == 16 * (k as int),
    decreases k,
{
    if k > 0 {
        lemma_table_len(ids, n_centroids, (k - 1) as nat);
    }
}

proof fn lemma_table_entry(ids: Seq<usize>, n_centroids: int, k: nat, c: nat)
    requires
        c < k,
    ensures
        table_bytes(ids, n_centroids, k).subrange(16 * (c as int), 16 * (c as int) + 8) == u64_le(
            cluster_offset(ids, n_centroids, c),
        ),
        table_bytes(ids, n_centroids, k).subrange(16 * (c as int) + 8, 16 * (c as int) + 12) == u32_le(
            cluster_size(ids, c as int),
        ),
    decreases k,
{
    let prev = table_bytes(ids, n_centroids, (k - 1) as nat);
    let t = table_bytes(ids, n_centroids, k);
    lemma_table_len(ids, n_centroids, (k - 1) as nat);
    if c < k - 1 {
        lemma_table_entry(ids, n_centroids, (k - 1) as nat, c);
        assert(t.subrange(16 * (c as int), 16 * (c as int) + 8) =~= prev.subrange(16 * (c as int), 16 * (c as int) + 8));
        assert(t.subrange(16 * (c as int) + 8, 16 * (c as int) + 12) =~= prev.subrange(16 * (c as int) + 8, 16 * (c as int) + 12));
    } else {
        assert(t.subrange(16 * (c as int), 16 * (c as int) + 8) =~= u64_le(cluster_offset(ids, n_centroids, c)));
        assert(t.subrange(16 * (c as int) + 8, 16 * (c as int) + 12) =~= u32_le(cluster_size(ids, c as int)));
    }
}

proof fn lemma_vector_bytes_len(qvecs: Seq<[u8; DIM]>, mem: Seq<int>)
    ensures
        vector_bytes(qvecs, mem).len() == DIM * mem.len(),
    decreases mem.len(),
{
    if mem.len() > 0 {
        lemma_vector_bytes_len(qvecs, mem.drop_last());
    }
}

proof fn lemma_data_len(ids: Seq<usize>, qvecs: Seq<[u8; DIM]>, labels: Seq<u8>, k: nat)
    ensures
        data_bytes(ids, qvecs, labels, k).len() == data_before(ids, k),
    decreases k,
{
    if k > 0 {
        lemma_data_len(ids, qvecs, labels, (k - 1) as nat);
        lemma_vector_bytes_len(qvecs, members(ids, k - 1, ids.len()));
    }
}

proof fn lemma_data_before_monotone(ids: Seq<usize>, a: nat, b: nat)
    requires
        a <= b,
    ensures
        data_before(ids, a) <= data_before(ids, b),
    decreases b,
{
    if a < b {
        lemma_data_before_monotone(ids, a, (b - 1) as nat);
    }
}

proof fn lemma_data_entry(ids: Seq<usize>, qvecs: Seq<[u8; DIM]>, labels: Seq<u8>, k: nat, c: nat)
    requires
        c < k,
    ensures
        ({
            let d = data_bytes(ids, qvecs, labels, k);
            let start = data_before(ids, c);
            let size = cluster_size(ids, c as int);
            let mem = members(ids, c as int, ids.len());
            &&& d.subrange(start, start + DIM * size) == vector_bytes(qvecs, mem)
            &&& d.subrange(start + DIM * size, start + (DIM + 1) * size) == mem.map_values(
                |i: int| labels[i],
            )
        }),
    decreases k,
{
    let prev = data_bytes(ids, qvecs, labels, (k - 1) as nat);
    let d = data_bytes(ids, qvecs, labels, k);
    let start = data_before(ids, c);
    let size = cluster_size(ids, c as int);
    let mem = members(ids, c as int, ids.len());
    lemma_data_len(ids, qvecs, labels, (k - 1) as nat);
    lemma_vector_bytes_len(qvecs, mem);
    lemma_data_before_bounds(ids, c);
    if c < k - 1 {
        lemma_data_entry(ids, qvecs, labels, (k - 1) as nat, c);
        lemma_data_before_monotone(ids, c + 1, (k - 1) as nat);
        assert(d.subrange(start, start + DIM * size) =~= prev.subrange(start, start + DIM * size));
        assert(d.subrange(start + DIM * size, start + (DIM + 1) * size) =~= prev.subrange(
            start + DIM * size,
            start + (DIM + 1) * size,
        ));
    } else {
        assert(d.subrange(start, start + DIM * size) =~= vector_bytes(qvecs, mem));
        assert(d.subrange(start + DIM * size, start + (DIM + 1) * size) =~= mem.map_values(
            |i: int| labels[i],
        ));
    }
}

/// The offset table of the cluster file points at the data of each cluster:
/// the entry of cluster `c` holds where the cluster's data starts and how
/// many vectors it has, and from that offset the file holds the vectors of
/// the cluster's members, then their labels.
pub proof fn lemma_ivf_bin_offsets(
    n_centroids: nat,
    qvecs: Seq<[u8; DIM]>,
    labels: Seq<u8>,
    ids: Seq<usize>,
    c: nat,
)
    requires
        c < n_centroids,
    ensures
        ({
            let f = ivf_bin_bytes(n_centroids as int, qvecs, labels, ids);
            let off = cluster_offset(ids, n_centroids as int, c);
            let size = cluster_size(ids, c as int);
            let mem = members(ids, c as int, ids.len());
            &&& f.subrange(8 + 16 * (c as int), 16 + 16 * (c as int)) == u64_le(off)
            &&& f.subrange(16 + 16 * (c as int), 20 + 16 * (c as int)) == u32_le(size)
            &&& f.subrange(off, off + DIM * size) == vector_bytes(qvecs, mem)
            &&& f.subrange(off + DIM * size, off + (DIM + 1) * size) == mem.map_values(
                |i: int| labels[i],
            )
        }),
{
    let n = n_centroids as int;
    let head = u32_le(n) + u32_le(DIM as int);
    let t = table_bytes(ids, n, n_centroids);
    let d = data_bytes(ids, qvecs, labels, n_centroids);
    let f = ivf_bin_bytes(n, qvecs, labels, ids);
    let off = cluster_offset(ids, n, c);
    let size = cluster_size(ids, c as int);
    let start = data_before(ids, c);
    assert(f == head + t + d);
    assert(head.len() == 8);
    lemma_table_len(ids, n, n_centroids);
    lemma_table_entry(ids, n, n_centroids, c);
    lemma_data_entry(ids, qvecs, labels, n_centroids, c);
    lemma_data_len(ids, qvecs, labels, n_centroids);
    lemma_data_before_bounds(ids, c);
    lemma_data_before_monotone(ids, c + 1, n_centroids);
    assert(size >= 0);
    assert(f.subrange(8 + 16 * (c as int), 16 + 16 * (c as int)) =~= t.subrange(16 * (c as int), 16 * (c as int) + 8));
    assert(f.subrange(16 + 16 * (c as int), 20 + 16 * (c as int)) =~= t.subrange(16 * (c as int) + 8, 16 * (c as int) + 12));
    assert(f.subrange(off, off + DIM * size) =~= d.subrange(start, start + DIM * size));
    assert(f.subrange(off + DIM * size, off + (DIM + 1) * size) =~= d.subrange(
        start + DIM * size,
        start + (DIM + 1) * size,
    ));
}

/// One entry of a coarse bucket: the fine centroid's position (`u32`), then
/// its quantized coordinates.
pub open spec fn fine_entries(fine_q: Seq<[u8; DIM]>, mem: Seq<int>) -> Seq<u8>
    decreases mem.len(),
{
    if mem.len() == 0 {
        Seq::empty()
    } else {
        fine_entries(fine_q, mem.drop_last()) + u32_le(mem.last()) + fine_q[mem.last()]@
    }
}

/// The buckets before `b`: each its size (`u32`) then its entries.
pub open spec fn bucket_bytes(asgn: Seq<usize>, fine_q: Seq<[u8; DIM]>, b: nat) -> Seq<u8>
    decreases b,
{
    if b == 0 {
        Seq::empty()
    } else {
        let mem = members(asgn, b - 1, asgn.len());
        bucket_bytes(asgn, fine_q, (b - 1) as nat) + u32_le(mem.len() as int) + fine_entries(fine_q, mem)
    }
}

/// The coordinates of each centroid in turn.
pub open spec fn centroid_list_bytes(cs: Seq<[u8; DIM]>) -> Seq<u8>
    decreases cs.len(),
{
    if cs.len() == 0 {
        Seq::empty()
    } else {
        centroid_list_bytes(cs.drop_last()) + cs.last()@
    }
}

/// The coarse file: coarse count, fine count and dimension (`u32` each), the
/// quantized coarse centroids, then for each coarse centroid the bucket of
/// fine centroids assigned to it.
pub open spec fn coarse_bin_bytes(coarse_q: Seq<[u8; DIM]>, fine_q: Seq<[u8; DIM]>, asgn: Seq<usize>) -> Seq<u8> {
    u32_le(coarse_q.len() as int) + u32_le(fine_q.len() as int) + u32_le(DIM as int) + centroid_list_bytes(
        coarse_q,
    ) + bucket_bytes(asgn, fine_q, coarse_q.len())
}

fn push_vector(out: &mut Vec<u8>, v: &[u8; DIM])
    ensures
        final(out)@ == old(out)@ + v@,
{
    let ghost start = old(out)@;
    let mut j: usize = 0;
    while j < DIM
        invariant
            j <= DIM,
            out@ == start + v@.take(j as int),
        decreases DIM - j,
    {
        out.push(v[j]);
        proof {
            assert(v@.take(j as int + 1) =~= v@.take(j as int).push(v@[j as int]));
        }
        j = j + 1;
    }
    proof {
        assert(v@.take(DIM as int) =~= v@);
    }
}

fn push_entries(out: &mut Vec<u8>, bucket: &Vec<usize>, fine_q: &Vec<[u8; DIM]>, Ghost(mem): Ghost<Seq<int>>)
    requires
        bucket@.map_values(|x: usize| x as int) == mem,
        forall|m2: int| 0 <= m2 < mem.len() ==> 0 <= #[trigger] mem[m2] < fine_q.len(),
    ensures
        final(out)@ == old(out)@ + fine_entries(fine_q@, mem),
{
    let ghost before = old(out)@;
    let mut m: usize = 0;
    while m < bucket.len()
        invariant
            bucket@.map_values(|x: usize| x as int) == mem,
            forall|m2: int| 0 <= m2 < mem.len() ==> 0 <= #[trigger] mem[m2] < fine_q.len(),
            m <= bucket.len(),
            out@ == before + fine_entries(fine_q@, mem.take(m as int)),
        decreases bucket.len() - m,
    {
        let fi = bucket[m];
        proof {
            assert(mem[m as int] == fi as int);
        }
        push_u32_le(out, low_bits(fi));
        push_vector(out, &fine_q[fi]);
        proof {
            assert(mem.take(m as int + 1).drop_last() =~= mem.take(m as int));
            assert(mem.take(m as int + 1).last() == fi as int);
            assert(out@ =~= before + fine_entries(fine_q@, mem.take(m as int + 1)));
        }
        m = m + 1;
    }
    proof {
        assert(mem.take(mem.len() as int) =~= mem);
    }
}

/// Writes the coarse file: fine centroid `i` belongs to the bucket of coarse
/// centroid `coarse_asgn[i]`; within a bucket, fine centroids come in
/// increasing position.
pub fn encode_coarse_bin(coarse_q: &Vec<[u8; DIM]>, fine_q: &Vec<[u8; DIM]>, coarse_asgn: &Vec<usize>) -> (r:
    Vec<u8>)
    requires
        forall|i: int| 0 <= i < coarse_asgn.len() ==> coarse_asgn@[i] < coarse_q.len(),
        fine_q.len() >= coarse_asgn.len(),
    ensures
        r@ == coarse_bin_bytes(coarse_q@, fine_q@, coarse_asgn@),
{
    let ghost ids = coarse_asgn@;
    let nc = coarse_q.len();
    let n = coarse_asgn.len();
    let mut buckets: Vec<Vec<usize>> = Vec::new();
    let mut c: usize = 0;
    while c < nc
        invariant
            c <= nc,
            buckets.len() == c,
            forall|c2: int| 0 <= c2 < c ==> (#[trigger] buckets@[c2])@ == Seq::<usize>::empty(),
        decreases nc - c,
    {
        buckets.push(Vec::new());
        c = c + 1;
    }
    let mut i: usize = 0;
    while i < n
        invariant
            ids == coarse_asgn@,
            n == ids.len(),
            nc == coarse_q.len(),
            forall|i2: int| 0 <= i2 < n ==> ids[i2] < nc,
            i <= n,
            buckets.len() == nc,
            forall|c2: int|
                0 <= c2 < nc ==> (#[trigger] buckets@[c2])@.map_values(|x: usize| x as int)
                    == members(ids, c2, i as nat),
        decreases n - i,
    {
        let ci = coarse_asgn[i];
        buckets[ci].push(i);
        proof {
            assert forall|c2: int| 0 <= c2 < nc implies (#[trigger] buckets@[c2])@.map_values(
                |x: usize| x as int,
            ) == members(ids, c2, (i + 1) as nat) by {
                if c2 == ci {
                    assert(buckets@[c2]@.map_values(|x: usize| x as int) =~= members(ids, c2, i as nat).push(
                        i as int,
                    ));
                }
            }
        }
        i = i + 1;
    }
    let mut out: Vec<u8> = Vec::new();
    push_u32_le(&mut out, low_bits(nc));
    push_u32_le(&mut out, low_bits(fine_q.len()));
    push_u32_le(&mut out, DIM as u32);
    let ghost head = out@;
    let mut c: usize = 0;
    while c < nc
        invariant
            nc == coarse_q.len(),
            c <= nc,
            out@ == head + centroid_list_bytes(coarse_q@.take(c as int)),
        decreases nc - c,
    {
        push_vector(&mut out, &coarse_q[c]);
        proof {
            assert(coarse_q@.take(c as int + 1).drop_last() =~= coarse_q@.take(c as int));
            assert(out@ =~= head + centroid_list_bytes(coarse_q@.take(c as int + 1)));
        }
        c = c + 1;
    }
    proof {
        assert(coarse_q@.take(nc as int) =~= coarse_q@);
    }
    let ghost mid = out@;
    let mut c: usize = 0;
    while c < nc
        invariant
            ids == coarse_asgn@,
            n == ids.len(),
            nc == coarse_q.len(),
            fine_q.len() >= n,
            buckets.len() == nc,
            forall|c2: int|
                0 <= c2 < nc ==> (#[trigger] buckets@[c2])@.map_values(|x: usize| x as int)
                    == members(ids, c2, n as nat),
            c <= nc,
            out@ == mid + bucket_bytes(ids, fine_q@, c as nat),
        decreases nc - c,
    {
        let bucket = &buckets[c];
        let ghost mem = members(ids, c as int, n as nat);
        proof {
            lemma_members_bounds(ids, c as int, n as nat);
            assert(bucket@.map_values(|x: usize| x as int) == mem);
        }
        push_u32_le(&mut out, low_bits(bucket.len()));
        push_entries(&mut out, bucket, fine_q, Ghost(mem));
        proof {
            assert(out@ =~= mid + bucket_bytes(ids, fine_q@, (c + 1) as nat));
        }
        c = c + 1;
    }
    proof {
        assert(out@ =~= coarse_bin_bytes(coarse_q@, fine_q@, coarse_asgn@));
    }
    out
}

} // verus!
