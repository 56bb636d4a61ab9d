use vstd::prelude::*;
use crate::partition::PARTITION_COUNT;
use crate::vectors::{
    dists_to, is_probe_order, key_lt, lemma_probe_order, lists_fit, nearest_centroid_indices_scalar,
    probe_order, probed_ids, sq_dist, IvfIndex, Partition, VECTOR_STRIDE,
};

verus! {

/// Number of neighbours that vote.
pub const K: usize = 5;
/// Number of clusters probed by an IVF search.
pub const NPROBE: usize = 10;

/// The loaded partitions and IVF indexes, by partition position.
pub struct FraudService {
    partitions: Vec<Option<Partition>>,
    ivf_indexes: Vec<Option<IvfIndex>>,
}

/// Why a partition could not vote.
#[derive(PartialEq, Eq, Structural, Debug, Clone, Copy)]
pub enum VoteError {
    /// A probed cluster has no list, or a probed list names a vector that the
    /// partition lacks.
    MissingVector,
    /// The sum of the neighbours' labels does not fit a byte.
    TooManyVotes,
}

/// The clusters that the IVF index probes for `query`, closest first.
pub open spec fn probed_clusters(index: IvfIndex, query: Seq<i8>) -> Seq<usize> {
    probe_order(dists_to(index.centroids@, query), NPROBE as int)
}

/// Whether a search for `query` can read every vector it is pointed to: with
/// an IVF index, every probed cluster has a list and every probed list names
/// vectors of the partition.
pub open spec fn searchable(partition: Partition, index: Option<IvfIndex>, query: Seq<i8>) -> bool {
    match index {
        Some(ivf) => lists_fit(ivf.lists@, probed_clusters(ivf, query), partition.vectors.len() as int),
        None => true,
    }
}

/// The positions of the vectors among which the neighbours are chosen: those
/// named by the probed lists, in probe order, with an IVF index; every vector
/// of the partition otherwise.
pub open spec fn pool_ids(partition: Partition, index: Option<IvfIndex>, query: Seq<i8>) -> Seq<usize> {
    match index {
        Some(ivf) => probed_ids(ivf.lists@, probed_clusters(ivf, query)).map_values(|id: u32| id as usize),
        None => Seq::new(partition.vectors.len() as nat, |i: int| i as usize),
    }
}

/// The vectors at `pool_ids`.
pub open spec fn pool(partition: Partition, index: Option<IvfIndex>, query: Seq<i8>) -> Seq<[i8; VECTOR_STRIDE]> {
    pool_ids(partition, index, query).map_values(|id: usize| partition.vectors@[id as int])
}

/// The `K` nearest vectors of the pool to `query` (all of it when smaller),
/// nearest first, the earlier one first among equally near ones.
pub open spec fn neighbours(partition: Partition, index: Option<IvfIndex>, query: Seq<i8>) -> Seq<usize> {
    let ids = pool_ids(partition, index, query);
    probe_order(dists_to(pool(partition, index, query), query), K as int).map_values(
        |p: usize| ids[p as int],
    )
}

/// Label of a vector, 0 when the partition has no label for it.
pub open spec fn label_or_zero(labels: Seq<u8>, i: usize) -> int {
    if i < labels.len() {
        labels[i as int] as int
    } else {
        0
    }
}

/// Sum of the labels of `ids`.
pub open spec fn label_sum(labels: Seq<u8>, ids: Seq<usize>) -> int
    decreases ids.len(),
{
    if ids.len() == 0 {
        0
    } else {
        label_sum(labels, ids.drop_last()) + label_or_zero(labels, ids.last())
    }
}

/// The votes that a partition gives: the sum of the labels of the `K`
/// nearest neighbours of `query`.
pub open spec fn partition_votes(partition: Partition, index: Option<IvfIndex>, query: Seq<i8>) -> int {
    label_sum(partition.labels@, neighbours(partition, index, query))
}

/// What voting in a partition gives.
pub open spec fn vote_outcome(partition: Partition, index: Option<IvfIndex>, query: Seq<i8>) -> Result<u8, VoteError> {
    if !searchable(partition, index, query) {
        Err(VoteError::MissingVector)
    } else if partition_votes(partition, index, query) <= 255 {
        Ok(partition_votes(partition, index, query) as u8)
    } else {
        Err(VoteError::TooManyVotes)
    }
}

/// Whether a transaction with `votes` fraud votes among `K` neighbours is
/// approved: fewer than half of the neighbours are frauds.
pub open spec fn approves(votes: int) -> bool {
    2 * votes < K
}

/// The `K` vectors of the pool nearest to `query`, as positions in the
/// partition; `None` when the search is pointed to a vector that the
/// partition lacks. The neighbours are nearest in the sense of
/// `is_probe_order`: no vector of the pool left out is nearer than one kept.
pub fn nearest_neighbours(partition: &Partition, index: &Option<IvfIndex>, query: &[i8; VECTOR_STRIDE]) -> (r:
    Option<Vec<usize>>)
    ensures
        r is Some <==> searchable(*partition, *index, query@),
        r matches Some(v) ==> v@ == neighbours(*partition, *index, query@),
        r is Some ==> is_probe_order(
            dists_to(pool(*partition, *index, query@), query@),
            K as int,
            probe_order(dists_to(pool(*partition, *index, query@), query@), K as int),
        ),
{
    let ghost q = query@;
    let ghost vs = partition.vectors@;
    match index {
        None => {
            let pos = nearest_centroid_indices_scalar(&partition.vectors, query, K);
            proof {
                assert(pool(*partition, *index, q) =~= vs);
                assert(pos@.map_values(|p: usize| pool_ids(*partition, *index, q)[p as int]) =~= pos@);
            }
            Some(pos)
        },
        Some(ivf) => {
            let probed = nearest_centroid_indices_scalar(&ivf.centroids, query, NPROBE);
            let ghost probe = probed@;
            let ghost lists = ivf.lists@;
            let n = partition.vectors.len();
            let mut ids: Vec<u32> = Vec::new();
            let mut cands: Vec<[i8; VECTOR_STRIDE]> = Vec::new();
            let mut pi: usize = 0;
            while pi < probed.len()
                invariant
                    probe == probed@,
                    probe == probed_clusters(*ivf, q),
                    q == query@,
                    *index == Some(*ivf),
                    lists == ivf.lists@,
                    vs == partition.vectors@,
                    n == vs.len(),
                    pi <= probe.len(),
                    forall|k: int| 0 <= k < pi ==> #[trigger] probe[k] < lists.len(),
                    forall|k: int, e: int|
                        0 <= k < pi && 0 <= e < lists[probe[k] as int]@.len() ==> #[trigger] lists[probe[k] as int]@[e]
                            < n,
                    ids@ == probed_ids(lists, probe.take(pi as int)),
                    cands@ == ids@.map_values(|id: u32| vs[id as int]),
                decreases probe.len() - pi,
            {
                let ci = probed[pi];
                if ci >= ivf.lists.len() {
                    proof {
                        assert(!(probe[pi as int] < lists.len()));
                    }
                    return None;
                }
                let list = &ivf.lists[ci];
                let ghost before = ids@;
                let mut li: usize = 0;
                while li < list.len()
                    invariant
                        probe == probed@,
                        probe == probed_clusters(*ivf, q),
                        q == query@,
                        *index == Some(*ivf),
                        lists == ivf.lists@,
                        vs == partition.vectors@,
                        n == vs.len(),
                        pi < probe.len(),
                        ci == probe[pi as int],
                        ci < lists.len(),
                        list@ == lists[ci as int]@,
                        li <= list.len(),
                        forall|e: int| 0 <= e < li ==> #[trigger] list@[e] < n,
                        ids@ == before + list@.take(li as int),
                        cands@ == ids@.map_values(|id: u32| vs[id as int]),
                    decreases list.len() - li,
                {
                    let id = list[li];
                    if id as usize >= n {
                        proof {
                            assert(lists[probe[pi as int] as int]@[li as int] == id);
                        }
                        return None;
                    }
                    ids.push(id);
                    cands.push(partition.vectors[id as usize]);
                    proof {
                        assert(list@.take(li as int + 1) =~= list@.take(li as int).push(id));
                        assert(ids@ =~= before + list@.take(li as int + 1));
                        assert(cands@ =~= ids@.map_values(|id: u32| vs[id as int]));
                    }
                    li = li + 1;
                }
                proof {
                    assert(list@.take(li as int) =~= list@);
                    assert(probe.take(pi as int + 1).drop_last() =~= probe.take(pi as int));
                    assert(probe.take(pi as int + 1).last() == ci);
                    assert(probed_ids(lists, probe.take(pi as int + 1)) == before + list@);
                    assert forall|k: int, e: int|
                        0 <= k < pi + 1 && 0 <= e < lists[probe[k] as int]@.len() implies #[trigger] lists[probe[k] as int]@[e]
                            < n by {
                        if k == pi {
                            assert(list@[e] < n);
                        }
                    }
                }
                pi = pi + 1;
            }
            proof {
                assert(probe.take(pi as int) =~= probe);
                assert(pool_ids(*partition, *index, q) =~= ids@.map_values(|id: u32| id as usize));
                assert(pool(*partition, *index, q) =~= cands@);
            }
            let pos = nearest_centroid_indices_scalar(&cands, query, K);
            let mut out: Vec<usize> = Vec::new();
            let mut i: usize = 0;
            while i < pos.len()
                invariant
                    ids@.len() == cands@.len(),
                    forall|k: int| 0 <= k < pos.len() ==> pos@[k] < cands.len(),
                    i <= pos.len(),
                    out@ == pos@.take(i as int).map_values(|p: usize| ids@[p as int] as usize),
                decreases pos.len() - i,
            {
                let p = pos[i];
                out.push(ids[p] as usize);
                proof {
                    assert(pos@.take(i as int + 1) =~= pos@.take(i as int).push(p));
                    assert(out@ =~= pos@.take(i as int + 1).map_values(|p: usize| ids@[p as int] as usize));
                }
                i = i + 1;
            }
            proof {
                assert(pos@.take(i as int) =~= pos@);
                assert(out@ =~= neighbours(*partition, *index, q));
            }
            Some(out)
        },
    }
}

impl FraudService {
    /// The loaded partitions, by position.
    pub closed spec fn partition_at(self, slot: int) -> Option<Partition> {
        self.partitions@[slot]
    }

    /// The loaded IVF indexes, by position.
    pub closed spec fn index_at(self, slot: int) -> Option<IvfIndex> {
        self.ivf_indexes@[slot]
    }

    /// One entry per partition.
    pub closed spec fn wf(self) -> bool {
        &&& self.partitions.len() == PARTITION_COUNT
        &&& self.ivf_indexes.len() == PARTITION_COUNT
    }

    /// Builds the service from what was loaded for each partition position
    /// (`None` where nothing was found). `None` when there is not one entry per
    /// partition.
    pub fn from_loaded(partitions: Vec<Option<Partition>>, ivf_indexes: Vec<Option<IvfIndex>>) -> (r:
        Option<FraudService>)
        ensures
            r is Some <==> (partitions.len() == PARTITION_COUNT && ivf_indexes.len() == PARTITION_COUNT),
            r matches Some(s) ==> s.wf() && forall|slot: int|
                0 <= slot < PARTITION_COUNT ==> #[trigger] s.partition_at(slot) == partitions@[slot]
                    && s.index_at(slot) == ivf_indexes@[slot],
    {
        if partitions.len() != PARTITION_COUNT || ivf_indexes.len() != PARTITION_COUNT {
            return None;
        }
        Some(FraudService { partitions, ivf_indexes })
    }

    /// The fraud votes for a query vector in the partition at `slot`: the sum
    /// of the labels of its `K` nearest reference vectors, among those that
    /// the partition's IVF index points to when it has one and among all of
    /// the partition otherwise (a vector without a label counts 0). No
    /// partition at `slot` gives no votes. An error when the search is pointed
    /// to a vector that the partition lacks, or when the sum does not fit a
    /// byte.
    pub fn fraud_votes(&self, slot: usize, query: &[i8; VECTOR_STRIDE]) -> (r: Result<u8, VoteError>)
        requires
            self.wf(),
            slot < PARTITION_COUNT,
        ensures
            r == match self.partition_at(slot as int) {
                None => Ok(0u8),
                Some(p) => vote_outcome(p, self.index_at(slot as int), query@),
            },
            self.partition_at(slot as int) matches Some(p) ==> searchable(p, self.index_at(slot as int), query@)
                ==> is_probe_order(
                dists_to(pool(p, self.index_at(slot as int), query@), query@),
                K as int,
                probe_order(dists_to(pool(p, self.index_at(slot as int), query@), query@), K as int),
            ),
    {
        match &self.partitions[slot] {
            None => Ok(0),
            Some(p) => {
                let found = match nearest_neighbours(p, &self.ivf_indexes[slot], query) {
                    None => {
                        return Err(VoteError::MissingVector);
                    },
                    Some(found) => found,
                };
                let ghost all = found@;
                let mut sum: u8 = 0;
                let mut i: usize = 0;
                while i < found.len()
                    invariant
                        all == found@,
                        self.partition_at(slot as int) == Some(*p),
                        all == neighbours(*p, self.index_at(slot as int), query@),
                        searchable(*p, self.index_at(slot as int), query@),
                        is_probe_order(
                            dists_to(pool(*p, self.index_at(slot as int), query@), query@),
                            K as int,
                            probe_order(dists_to(pool(*p, self.index_at(slot as int), query@), query@), K as int),
                        ),
                        i <= found.len(),
                        sum == label_sum(p.labels@, all.take(i as int)),
                    decreases found.len() - i,
                {
                    let idx = found[i];
                    let label: u8 = if idx < p.labels.len() {
                        p.labels[idx]
                    } else {
                        0
                    };
                    proof {
                        assert(all.take(i as int + 1).drop_last() =~= all.take(i as int));
                        assert(all.take(i as int + 1).last() == idx);
                    }
                    match sum.checked_add(label) {
                        Some(next) => {
                            sum = next;
                        },
                        None => {
                            proof {
                                lemma_label_sum_grows(p.labels@, all, (i + 1) as int, all.len() as int);
                                assert(all.take(all.len() as int) =~= all);
                            }
                            return Err(VoteError::TooManyVotes);
                        },
                    }
                    i = i + 1;
                }
                proof {
                    assert(all.take(all.len() as int) =~= all);
                }
                Ok(sum)
            },
        }
    }
}

/// The votes approve a transaction when fewer than half of the `K`
/// neighbours are frauds.
pub fn is_approved(votes: u8) -> (r: bool)
    ensures
        r == approves(votes as int),
{
    (votes as usize) * 2 < K
}

/// The decision is a majority vote: with `K` neighbours, a transaction is
/// approved exactly when at most two of them are frauds, and fewer fraud
/// votes never turn an approval into a refusal.
pub proof fn lemma_majority_vote(v1: int, v2: int)
    requires
        0 <= v1 <= v2,
    ensures
        approves(v1) <==> v1 <= 2,
        approves(v2) ==> approves(v1),
{
}

proof fn lemma_label_sum_grows(labels: Seq<u8>, found: Seq<usize>, i: int, n: int)
    requires
        0 <= i <= n <= found.len(),
    ensures
        label_sum(labels, found.take(i)) <= label_sum(labels, found.take(n)),
    decreases n - i,
{
    if i < n {
        lemma_label_sum_grows(labels, found, i, n - 1);
        assert(found.take(n).drop_last() =~= found.take(n - 1));
        assert(label_or_zero(labels, found.take(n).last()) >= 0);
    }
}

/// The clusters probed for a query are the `min(10, centroids)` centroids
/// nearest to it, nearest first: distinct clusters, and no cluster left out
/// is nearer than one probed.
pub proof fn lemma_probed_clusters_nearest(index: IvfIndex, query: Seq<i8>)
    ensures
        probed_clusters(index, query).len() == if index.centroids.len() < 10 {
            index.centroids.len() as int
        } else {
            10
        },
        forall|k: int|
            0 <= k < probed_clusters(index, query).len() ==> #[trigger] probed_clusters(index, query)[k]
                < index.centroids.len(),
        forall|k1: int, k2: int|
            0 <= k1 < k2 < probed_clusters(index, query).len() ==> probed_clusters(index, query)[k1]
                != probed_clusters(index, query)[k2] && sq_dist(
                index.centroids@[probed_clusters(index, query)[k1] as int]@,
                query,
            ) <= sq_dist(index.centroids@[probed_clusters(index, query)[k2] as int]@, query),
        forall|c: usize, k: int|
            c < index.centroids.len() && !(#[trigger] probed_clusters(index, query).contains(c)) && 0 <= k
                < probed_clusters(index, query).len() ==> sq_dist(
                index.centroids@[#[trigger] probed_clusters(index, query)[k] as int]@,
                query,
            ) <= sq_dist(index.centroids@[c as int]@, query),
{
    let d = dists_to(index.centroids@, query);
    vstd::std_specs::vec::axiom_spec_len(&index.centroids);
    lemma_probe_order(d, NPROBE as int);
    let p = probed_clusters(index, query);
    assert forall|k1: int, k2: int| 0 <= k1 < k2 < p.len() implies p[k1] != p[k2] && sq_dist(
        index.centroids@[p[k1] as int]@,
        query,
    ) <= sq_dist(index.centroids@[p[k2] as int]@, query) by {
        assert(key_lt(d, p[k1] as int, p[k2] as int));
    }
    assert forall|c: usize, k: int|
        c < index.centroids.len() && !(#[trigger] p.contains(c)) && 0 <= k < p.len() implies sq_dist(
        index.centroids@[#[trigger] p[k] as int]@,
        query,
    ) <= sq_dist(index.centroids@[c as int]@, query) by {
        assert(key_lt(d, p[k] as int, c as int));
    }
}

/// The neighbours of a query are its `min(K, pool)` nearest vectors of the
/// pool, nearest first: each is a vector of the pool, and a vector of the
/// pool nearer than a neighbour is itself a neighbour.
pub proof fn lemma_neighbours_nearest(partition: Partition, index: Option<IvfIndex>, query: Seq<i8>)
    requires
        pool_ids(partition, index, query).len() <= usize::MAX,
    ensures
        neighbours(partition, index, query).len() == if pool_ids(partition, index, query).len() < 5 {
            pool_ids(partition, index, query).len() as int
        } else {
            5
        },
        forall|k: int|
            0 <= k < neighbours(partition, index, query).len() ==> pool_ids(partition, index, query).contains(
                #[trigger] neighbours(partition, index, query)[k],
            ),
        forall|k1: int, k2: int|
            0 <= k1 < k2 < neighbours(partition, index, query).len() ==> sq_dist(
                partition.vectors@[neighbours(partition, index, query)[k1] as int]@,
                query,
            ) <= sq_dist(partition.vectors@[neighbours(partition, index, query)[k2] as int]@, query),
        forall|t: int, k: int|
            0 <= t < pool_ids(partition, index, query).len() && 0 <= k < neighbours(
                partition,
                index,
                query,
            ).len() && sq_dist(
                partition.vectors@[#[trigger] pool_ids(partition, index, query)[t] as int]@,
                query,
            ) < sq_dist(partition.vectors@[#[trigger] neighbours(partition, index, query)[k] as int]@, query)
                ==> neighbours(partition, index, query).contains(pool_ids(partition, index, query)[t]),
{
    let ids = pool_ids(partition, index, query);
    let pl = pool(partition, index, query);
    let d = dists_to(pl, query);
    let ns = neighbours(partition, index, query);
    lemma_probe_order(d, K as int);
    let pos = probe_order(d, K as int);
    assert(ns == pos.map_values(|p: usize| ids[p as int]));
    assert forall|i: int| 0 <= i < ids.len() implies #[trigger] d[i] == sq_dist(
        partition.vectors@[ids[i] as int]@,
        query,
    ) by {
        assert(pl[i] == partition.vectors@[ids[i] as int]);
    }
    assert forall|k: int| 0 <= k < ns.len() implies ids.contains(#[trigger] ns[k]) by {
        assert(ids[pos[k] as int] == ns[k]);
    }
    assert forall|k1: int, k2: int| 0 <= k1 < k2 < ns.len() implies sq_dist(
        partition.vectors@[ns[k1] as int]@,
        query,
    ) <= sq_dist(partition.vectors@[ns[k2] as int]@, query) by {
        assert(key_lt(d, pos[k1] as int, pos[k2] as int));
        assert(d[pos[k1] as int] == sq_dist(partition.vectors@[ids[pos[k1] as int] as int]@, query));
        assert(d[pos[k2] as int] == sq_dist(partition.vectors@[ids[pos[k2] as int] as int]@, query));
    }
    assert forall|t: int, k: int|
        0 <= t < ids.len() && 0 <= k < ns.len() && sq_dist(
            partition.vectors@[#[trigger] ids[t] as int]@,
            query,
        ) < sq_dist(partition.vectors@[#[trigger] ns[k] as int]@, query) implies ns.contains(ids[t]) by {
        assert(d[t] == sq_dist(partition.vectors@[ids[t] as int]@, query));
        assert(d[pos[k] as int] == sq_dist(partition.vectors@[ids[pos[k] as int] as int]@, query));
        if !pos.contains(t as usize) {
            assert(key_lt(d, pos[k] as int, (t as usize) as int));
        } else {
            let w = choose|w: int| 0 <= w < pos.len() && pos[w] == t as usize;
            assert(ns[w] == ids[t]);
        }
    }
}

/// With fraud labels 1 and legit labels 0, the votes of a set of
/// neighbours are the number of them labelled fraud (a neighbour without a
/// label is not a fraud).
pub proof fn lemma_votes_count_frauds(labels: Seq<u8>, ids: Seq<usize>)
    requires
        forall|i: int| 0 <= i < labels.len() ==> #[trigger] labels[i] <= 1,
    ensures
        label_sum(labels, ids) == ids.filter(|x: usize| x < labels.len() && labels[x as int] == 1).len(),
    decreases ids.len(),
{
    reveal(Seq::filter);
    if ids.len() > 0 {
        lemma_votes_count_frauds(labels, ids.drop_last());
    }
}

} // verus!
