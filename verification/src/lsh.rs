use vstd::prelude::*;
use rustc_hash::{FxBuildHasher, FxHashMap};
use crate::knn::{l2_sq_u8, sq_dist_u8, DIM};

verus! {

/// Most candidates gathered by one search.
pub const MAX_CANDIDATES: usize = 100;

#[verifier::external_type_specification]
#[verifier::external_body]
pub struct ExFxBuildHasher(FxBuildHasher);

/// `HashMap::get` on a table hashed with `rustc_hash::FxBuildHasher`: the
/// bucket stored under `key`, if any. The hasher is deterministic, so the
/// lookup agrees with the map's contents.
#[verifier::external_body]
fn bucket_get(table: &FxHashMap<u64, Vec<u32>>, key: u64) -> (r: Option<&Vec<u32>>)
    ensures
        match r {
            Some(ids) => table@.contains_key(key) && table@[key] == *ids,
            None => !table@.contains_key(key),
        },
{
    table.get(&key)
}

/// `slice::select_nth_unstable_by_key` keyed on the distance: reorders the
/// candidates so that the one at `index` is where sorting by distance would
/// put it, nothing before it is farther and nothing after it is closer.
#[verifier::external_body]
fn select_nth_by_distance(v: &mut Vec<(u32, u8)>, index: usize)
    requires
        index < old(v).len(),
    ensures
        final(v)@.to_multiset() == old(v)@.to_multiset(),
        final(v)@.len() == old(v)@.len(),
        forall|i: int| 0 <= i < index ==> (#[trigger] final(v)@[i]).0 <= final(v)@[index as int].0,
        forall|i: int|
            index < i < final(v)@.len() ==> final(v)@[index as int].0 <= (#[trigger] final(v)@[i]).0,
{
    v.select_nth_unstable_by_key(index, |c: &(u32, u8)| c.0);
}

/// The hash tables of an LSH index and the label of every indexed point.
pub struct LshIndex {
    pub tables: Vec<FxHashMap<u64, Vec<u32>>>,
    pub labels: Vec<u8>,
}

/// The contents of each table.
pub open spec fn tables_view(tables: Seq<FxHashMap<u64, Vec<u32>>>) -> Seq<Map<u64, Vec<u32>>> {
    tables.map_values(|m: FxHashMap<u64, Vec<u32>>| m@)
}

/// The points of the bucket that `key` selects in `table` (none when absent).
pub open spec fn bucket(table: Map<u64, Vec<u32>>, key: u64) -> Seq<u32> {
    if table.contains_key(key) {
        table[key]@
    } else {
        Seq::empty()
    }
}

/// The points of the selected buckets of the first `n` tables, table after table.
pub open spec fn lsh_stream(tables: Seq<Map<u64, Vec<u32>>>, keys: Seq<u64>, n: nat) -> Seq<u32>
    decreases n,
{
    if n == 0 {
        Seq::empty()
    } else {
        lsh_stream(tables, keys, (n - 1) as nat) + bucket(tables[n - 1], keys[n - 1])
    }
}

/// The points of `ids` in order, skipping points already marked in `seen`
/// and repeated points.
pub open spec fn fresh(seen: Seq<u32>, ids: Seq<u32>) -> Seq<u32>
    decreases ids.len(),
{
    if ids.len() == 0 {
        Seq::empty()
    } else {
        let f = fresh(seen, ids.drop_last());
        if seen[ids.last() as int] == 0 && !f.contains(ids.last()) {
            f.push(ids.last())
        } else {
            f
        }
    }
}

/// The candidate made of a point: its distance to the query and its label.
pub open spec fn candidate(query: Seq<u8>, vectors: Seq<u8>, labels: Seq<u8>, id: u32) -> (u32, u8) {
    (sq_dist_u8(query, vectors, DIM * id) as u32, labels[id as int])
}

/// The points that a search gathers from the stream `ids`: its fresh points,
/// at most `MAX_CANDIDATES` of them.
pub open spec fn gathered(seen: Seq<u32>, ids: Seq<u32>) -> Seq<u32> {
    let f = fresh(seen, ids);
    if f.len() < MAX_CANDIDATES {
        f
    } else {
        f.take(MAX_CANDIDATES as int)
    }
}

/// Whether `r` holds `k` candidates of `cands` that are no farther than the
/// others (all of `cands`, in order, when there are at most `k`).
pub open spec fn is_nearest_k(r: Seq<(u32, u8)>, cands: Seq<(u32, u8)>, k: int) -> bool {
    if cands.len() <= k {
        r == cands
    } else {
        &&& r.len() == k
        &&& exists|rest: Seq<(u32, u8)>|
            #![trigger (r + rest).to_multiset()]
            (r + rest).to_multiset() == cands.to_multiset() && forall|i: int, j: int|
                0 <= i < r.len() && 0 <= j < rest.len() ==> r[i].0 <= rest[j].0
    }
}

proof fn lemma_fresh_prefix(seen: Seq<u32>, a: Seq<u32>, b: Seq<u32>)
    ensures
        fresh(seen, a).len() <= fresh(seen, a + b).len(),
        forall|i: int|
            0 <= i < fresh(seen, a).len() ==> #[trigger] fresh(seen, a + b)[i] == fresh(seen, a)[i],
    decreases b.len(),
{
    if b.len() == 0 {
        assert(a + b =~= a);
    } else {
        lemma_fresh_prefix(seen, a, b.drop_last());
        assert((a + b).drop_last() =~= a + b.drop_last());
    }
}

proof fn lemma_fresh_members(seen: Seq<u32>, ids: Seq<u32>)
    ensures
        forall|i: int| 0 <= i < fresh(seen, ids).len() ==> seen[#[trigger] fresh(seen, ids)[i] as int] == 0,
        forall|i: int, j: int|
            0 <= i < j < fresh(seen, ids).len() ==> fresh(seen, ids)[i] != fresh(seen, ids)[j],
        forall|i: int| 0 <= i < fresh(seen, ids).len() ==> ids.contains(#[trigger] fresh(seen, ids)[i]),
    decreases ids.len(),
{
    if ids.len() > 0 {
        let init = ids.drop_last();
        lemma_fresh_members(seen, init);
        let f = fresh(seen, init);
        assert forall|i: int| 0 <= i < fresh(seen, ids).len() implies ids.contains(
            #[trigger] fresh(seen, ids)[i],
        ) by {
            if i < f.len() {
                assert(init.contains(f[i]));
                let k = choose|k: int| 0 <= k < init.len() && init[k] == f[i];
                assert(ids[k] == f[i]);
            } else {
                assert(ids[ids.len() - 1] == ids.last());
            }
        }
    }
}

proof fn lemma_fresh_complete(seen: Seq<u32>, ids: Seq<u32>)
    ensures
        forall|t: int|
            0 <= t < ids.len() && seen[#[trigger] ids[t] as int] == 0 ==> fresh(seen, ids).contains(ids[t]),
    decreases ids.len(),
{
    if ids.len() > 0 {
        let init = ids.drop_last();
        lemma_fresh_complete(seen, init);
        let f = fresh(seen, init);
        let all = fresh(seen, ids);
        assert forall|t: int| 0 <= t < ids.len() && seen[#[trigger] ids[t] as int] == 0 implies all.contains(
            ids[t],
        ) by {
            if t < ids.len() - 1 {
                assert(init[t] == ids[t]);
                assert(f.contains(init[t]));
                let w = choose|w: int| 0 <= w < f.len() && f[w] == ids[t];
                assert(all[w] == f[w]);
            } else if !f.contains(ids.last()) {
                assert(all[all.len() - 1] == ids.last());
            } else {
                assert(all == f);
            }
        }
    }
}

/// What a search gathers from the stream `ids`: at most `MAX_CANDIDATES`
/// distinct points, each unmarked in `seen` and present in the stream; when
/// fewer than `MAX_CANDIDATES` are gathered, every unmarked point of the
/// stream is gathered.
pub proof fn lemma_gathered(seen: Seq<u32>, ids: Seq<u32>)
    ensures
        gathered(seen, ids).len() <= MAX_CANDIDATES,
        forall|i: int|
            0 <= i < gathered(seen, ids).len() ==> seen[#[trigger] gathered(seen, ids)[i] as int] == 0
                && ids.contains(gathered(seen, ids)[i]),
        forall|i: int, j: int|
            0 <= i < j < gathered(seen, ids).len() ==> gathered(seen, ids)[i] != gathered(seen, ids)[j],
        gathered(seen, ids).len() < MAX_CANDIDATES ==> forall|t: int|
            0 <= t < ids.len() && seen[#[trigger] ids[t] as int] == 0 ==> gathered(seen, ids).contains(ids[t]),
{
    lemma_fresh_members(seen, ids);
    lemma_fresh_complete(seen, ids);
    let f = fresh(seen, ids);
    let g = gathered(seen, ids);
    assert forall|i: int| 0 <= i < g.len() implies seen[#[trigger] g[i] as int] == 0 && ids.contains(g[i]) by {
        assert(g[i] == f[i]);
    }
    assert forall|i: int, j: int| 0 <= i < j < g.len() implies g[i] != g[j] by {
        assert(g[i] == f[i] && g[j] == f[j]);
    }
}

/// `seen` with every point of `d` marked.
pub open spec fn mark(seen: Seq<u32>, d: Seq<u32>) -> Seq<u32>
    decreases d.len(),
{
    if d.len() == 0 {
        seen
    } else {
        mark(seen, d.drop_last()).update(d.last() as int, 1)
    }
}

proof fn lemma_mark(seen: Seq<u32>, d: Seq<u32>)
    requires
        forall|m: int| 0 <= m < d.len() ==> (#[trigger] d[m]) < seen.len(),
    ensures
        mark(seen, d).len() == seen.len(),
        forall|x: u32|
            x < seen.len() ==> #[trigger] mark(seen, d)[x as int] == if d.contains(x) {
                1
            } else {
                seen[x as int]
            },
    decreases d.len(),
{
    if d.len() > 0 {
        let init = d.drop_last();
        lemma_mark(seen, init);
        assert forall|x: u32| x < seen.len() implies #[trigger] mark(seen, d)[x as int] == if d.contains(x) {
            1
        } else {
            seen[x as int]
        } by {
            if x != d.last() {
                assert(d.contains(x) == init.contains(x)) by {
                    if d.contains(x) {
                        let m = choose|m: int| 0 <= m < d.len() && d[m] == x;
                        assert(init[m] == x);
                    }
                    if init.contains(x) {
                        let m = choose|m: int| 0 <= m < init.len() && init[m] == x;
                        assert(d[m] == x);
                    }
                }
            } else {
                assert(d[d.len() - 1] == x);
            }
        }
    }
}

proof fn lemma_stream_bounds(
    tables: Seq<Map<u64, Vec<u32>>>,
    keys: Seq<u64>,
    n: nat,
    bound: int,
)
    requires
        n <= tables.len(),
        forall|t: int, i: int|
            0 <= t < n && 0 <= i < bucket(tables[t], keys[t]).len() ==> (#[trigger] bucket(
                tables[t],
                keys[t],
            )[i]) < bound,
    ensures
        forall|i: int| 0 <= i < lsh_stream(tables, keys, n).len() ==> (#[trigger] lsh_stream(tables, keys, n)[i]) < bound,
    decreases n,
{
    if n > 0 {
        lemma_stream_bounds(tables, keys, (n - 1) as nat, bound);
        let a = lsh_stream(tables, keys, (n - 1) as nat);
        let b = bucket(tables[n - 1], keys[n - 1]);
        assert forall|i: int| 0 <= i < lsh_stream(tables, keys, n).len() implies (#[trigger] lsh_stream(
            tables,
            keys,
            n,
        )[i]) < bound by {
            if i >= a.len() {
                assert(lsh_stream(tables, keys, n)[i] == b[i - a.len()]);
            } else {
                assert(lsh_stream(tables, keys, n)[i] == a[i]);
            }
        }
    }
}

impl LshIndex {
    /// Gathers candidates for a query: for each table in turn, the points of
    /// the bucket selected by that table's key, skipping points already marked
    /// in `seen` and points already gathered, until `MAX_CANDIDATES` are
    /// gathered. Each candidate is the point's squared distance to `query_u8`
    /// and its label. When more than `k` are gathered, `k` of them that are no
    /// farther than the others are returned. The marks that the search sets in
    /// `seen` are cleared again before it returns.
    pub fn search(
        &self,
        keys: &[u64],
        query_u8: &[u8; DIM],
        vectors: &[u8],
        seen: &mut Vec<u32>,
        k: usize,
    ) -> (r: Vec<(u32, u8)>)
        requires
            keys.len() == self.tables.len(),
            forall|t: int, i: int|
                0 <= t < self.tables.len() && 0 <= i < bucket(tables_view(self.tables@)[t], keys@[t]).len()
                    ==> ({
                    let id = #[trigger] bucket(tables_view(self.tables@)[t], keys@[t])[i];
                    &&& id < old(seen).len()
                    &&& id < self.labels.len()
                    &&& DIM * id + DIM <= vectors.len()
                }),
        ensures
            final(seen)@ == old(seen)@,
            is_nearest_k(
                r@,
                gathered(old(seen)@, lsh_stream(tables_view(self.tables@), keys@, self.tables.len() as nat)).map_values(
                    |id: u32| candidate(query_u8@, vectors@, self.labels@, id),
                ),
                k as int,
            ),
    {
        let ghost seen0 = seen@;
        let ghost tv = tables_view(self.tables@);
        let ghost q = query_u8@;
        let ghost vs = vectors@;
        let ghost ls = self.labels@;
        let ntables = self.tables.len();
        let ghost all = lsh_stream(tv, keys@, ntables as nat);
        proof {
            lemma_stream_bounds(tv, keys@, ntables as nat, seen0.len() as int);
        }
        let mut dirty: Vec<u32> = Vec::new();
        let mut candidates: Vec<(u32, u8)> = Vec::new();
        let mut full = false;
        let ghost mut processed: Seq<u32> = Seq::empty();
        proof {
            assert(processed + all =~= all);
        }
        let mut t: usize = 0;
        while t < ntables && !full
            invariant
                ntables == self.tables.len(),
                tv == tables_view(self.tables@),
                keys.len() == ntables,
                q == query_u8@,
                vs == vectors@,
                ls == self.labels@,
                all == lsh_stream(tv, keys@, ntables as nat),
                forall|i: int| 0 <= i < all.len() ==> (#[trigger] all[i]) < seen0.len(),
                forall|t2: int, i: int|
                    0 <= t2 < ntables && 0 <= i < bucket(tv[t2], keys@[t2]).len() ==> ({
                        let id = #[trigger] bucket(tv[t2], keys@[t2])[i];
                        &&& id < seen0.len()
                        &&& id < ls.len()
                        &&& DIM * id + DIM <= vs.len()
                    }),
                t <= ntables,
                exists|post: Seq<u32>| #[trigger] (processed + post) == all,
                !full ==> processed == lsh_stream(tv, keys@, t as nat),
                dirty@ == fresh(seen0, processed),
                full ==> dirty.len() == MAX_CANDIDATES,
                !full ==> dirty.len() < MAX_CANDIDATES,
                candidates@ == dirty@.map_values(|id: u32| candidate(q, vs, ls, id)),
                seen@ == mark(seen0, dirty@),
            decreases ntables - t, if full { 0int } else { 1int },
        {
            proof {
                assert(tv[t as int] == self.tables@[t as int]@);
            }
            match bucket_get(&self.tables[t], keys[t]) {
                Some(ids) => {
                    let ghost before = processed;
                    let ghost b = ids@;
                    proof {
                        assert(b == bucket(tv[t as int], keys@[t as int]));
                        lemma_stream_split(tv, keys@, t as nat, ntables as nat);
                    }
                    let mut j: usize = 0;
                    while j < ids.len()
                        invariant_except_break
                            dirty.len() < MAX_CANDIDATES,
                            !full,
                        invariant
                            b == ids@,
                            b == bucket(tv[t as int], keys@[t as int]),
                            t < ntables,
                            ntables == self.tables.len(),
                            q == query_u8@,
                            vs == vectors@,
                            ls == self.labels@,
                            forall|i: int| 0 <= i < all.len() ==> (#[trigger] all[i]) < seen0.len(),
                            forall|i: int|
                                0 <= i < b.len() ==> ({
                                    let id = #[trigger] b[i];
                                    &&& id < seen0.len()
                                    &&& id < ls.len()
                                    &&& DIM * id + DIM <= vs.len()
                                }),
                            before == lsh_stream(tv, keys@, t as nat),
                            exists|post: Seq<u32>| #[trigger] (before + b + post) == all,
                            j <= b.len(),
                            processed == before + b.take(j as int),
                            dirty@ == fresh(seen0, processed),
                            dirty.len() <= MAX_CANDIDATES,
                            candidates@ == dirty@.map_values(|id: u32| candidate(q, vs, ls, id)),
                            seen@ == mark(seen0, dirty@),
                            full ==> dirty.len() == MAX_CANDIDATES,
                        ensures
                            full ==> dirty.len() == MAX_CANDIDATES,
                            !full ==> dirty.len() < MAX_CANDIDATES && j == b.len(),
                        decreases b.len() - j,
                    {
                        let id = ids[j];
                        proof {
                            assert(id == b[j as int]);
                            assert(DIM * id + DIM <= vs.len());
                            assert(DIM * (id as usize) + DIM <= vectors.len());
                            assert(before + b.take(j as int + 1) =~= (before + b.take(j as int)).push(id));
                            lemma_fresh_members(seen0, processed);
                            assert forall|m: int| 0 <= m < dirty@.len() implies (#[trigger] dirty@[m]) < seen0.len() by {
                                let post = choose|post: Seq<u32>| #[trigger] (before + b + post) == all;
                                assert(processed.contains(dirty@[m]));
                                let w = choose|w: int| 0 <= w < processed.len() && processed[w] == dirty@[m];
                                assert(b.take(j as int) + b.skip(j as int) =~= b);
                                assert(all =~= processed + (b.skip(j as int) + post));
                                assert(all[w] == processed[w]);
                            }
                            lemma_mark(seen0, dirty@);
                        }
                        let ghost old_processed = processed;
                        proof {
                            processed = before + b.take(j as int + 1);
                            assert(processed.drop_last() =~= old_processed);
                            assert(processed == before + b.take(j as int + 1));
                            assert(processed.last() == id);
                        }
                        let ghost f = dirty@;
                        if seen[id as usize] == 0 {
                            proof {
                                assert(mark(seen0, f)[id as int] == 0);
                                assert(!f.contains(id));
                                assert(seen0[id as int] == 0);
                            }
                            seen.set(id as usize, 1);
                            dirty.push(id);
                            let dist = l2_sq_u8(query_u8, vectors, DIM * id as usize);
                            candidates.push((dist, self.labels[id as usize]));
                            proof {
                                assert(dirty@ == fresh(seen0, processed));
                                assert(dirty@.drop_last() =~= f);
                                assert(seen@ =~= mark(seen0, dirty@));
                                assert(candidates@ =~= dirty@.map_values(|id: u32| candidate(q, vs, ls, id)));
                            }
                            if dirty.len() == MAX_CANDIDATES {
                                full = true;
                                j = j + 1;
                                break;
                            }
                        } else {
                            proof {
                                assert(mark(seen0, f)[id as int] != 0);
                                assert(fresh(seen0, processed) == f);
                            }
                        }
                        j = j + 1;
                    }
                    proof {
                        if !full {
                            assert(b.take(b.len() as int) =~= b);
                            assert(processed == lsh_stream(tv, keys@, (t + 1) as nat));
                        }
                        let post = choose|post: Seq<u32>| #[trigger] (before + b + post) == all;
                        assert(processed + (b.skip(j as int) + post) =~= all) by {
                            assert(b.take(j as int) + b.skip(j as int) =~= b);
                        }
                    }
                },
                None => {
                    proof {
                        assert(bucket(tv[t as int], keys@[t as int]) =~= Seq::<u32>::empty());
                        assert(lsh_stream(tv, keys@, (t + 1) as nat) =~= processed);
                    }
                },
            }
            t = t + 1;
        }
        proof {
            if !full {
                assert(processed == all);
                assert(processed + Seq::<u32>::empty() =~= all);
            }
            let post = choose|post: Seq<u32>| #[trigger] (processed + post) == all;
            lemma_fresh_prefix(seen0, processed, post);
            lemma_fresh_members(seen0, processed);
            let fa = fresh(seen0, all);
            assert(gathered(seen0, all) =~= dirty@);
            assert forall|m: int| 0 <= m < dirty@.len() implies (#[trigger] dirty@[m]) < seen0.len() by {
                assert(processed.contains(dirty@[m]));
                let w = choose|w: int| 0 <= w < processed.len() && processed[w] == dirty@[m];
                assert(all[w] == processed[w]);
            }
        }
        while dirty.len() > 0
            invariant
                forall|m: int| 0 <= m < dirty@.len() ==> seen0[#[trigger] dirty@[m] as int] == 0,
                forall|m: int| 0 <= m < dirty@.len() ==> (#[trigger] dirty@[m]) < seen0.len(),
                forall|m1: int, m2: int| 0 <= m1 < m2 < dirty@.len() ==> dirty@[m1] != dirty@[m2],
                seen@ == mark(seen0, dirty@),
            decreases dirty.len(),
        {
            let ghost d = dirty@;
            let id = dirty.pop().unwrap();
            proof {
                lemma_mark(seen0, dirty@);
                assert(d.drop_last() =~= dirty@);
                assert(!dirty@.contains(id)) by {
                    if dirty@.contains(id) {
                        let m = choose|m: int| 0 <= m < dirty@.len() && dirty@[m] == id;
                        assert(d[m] == d[d.len() - 1]);
                    }
                }
                assert(seen0[id as int] == 0);
            }
            seen.set(id as usize, 0);
            proof {
                assert(seen@ =~= mark(seen0, dirty@));
            }
        }
        proof {
            assert(dirty@ =~= Seq::<u32>::empty());
        }
        if candidates.len() > k && k == 0 {
            let ghost arranged = candidates@;
            candidates.truncate(0);
            proof {
                assert(candidates@ + arranged =~= arranged);
                assert((candidates@ + arranged).to_multiset() == arranged.to_multiset());
            }
        } else if candidates.len() > k {
            select_nth_by_distance(&mut candidates, k - 1);
            let ghost arranged = candidates@;
            candidates.truncate(k);
            proof {
                let rest = arranged.skip(k as int);
                assert(candidates@ + rest =~= arranged);
                assert forall|i2: int, j2: int|
                    0 <= i2 < candidates@.len() && 0 <= j2 < rest.len() implies candidates@[i2].0
                    <= rest[j2].0 by {
                    assert(arranged[i2].0 <= arranged[k - 1].0);
                    assert(arranged[k - 1].0 <= arranged[k + j2].0);
                }
            }
        }
        candidates
    }
}

proof fn lemma_stream_split(tables: Seq<Map<u64, Vec<u32>>>, keys: Seq<u64>, t: nat, n: nat)
    requires
        t < n,
    ensures
        exists|post: Seq<u32>|
            #[trigger] (lsh_stream(tables, keys, t) + bucket(tables[t as int], keys[t as int]) + post)
                == lsh_stream(tables, keys, n),
    decreases n,
{
    if t + 1 == n {
        let post = Seq::<u32>::empty();
        assert(lsh_stream(tables, keys, t) + bucket(tables[t as int], keys[t as int]) + post =~= lsh_stream(
            tables,
            keys,
            n,
        ));
    } else {
        lemma_stream_split(tables, keys, t, (n - 1) as nat);
        let post = choose|post: Seq<u32>|
            #[trigger] (lsh_stream(tables, keys, t) + bucket(tables[t as int], keys[t as int]) + post)
                == lsh_stream(tables, keys, (n - 1) as nat);
        let post2 = post + bucket(tables[n - 1], keys[n - 1]);
        assert(lsh_stream(tables, keys, t) + bucket(tables[t as int], keys[t as int]) + post2 =~= lsh_stream(
            tables,
            keys,
            n,
        ));
    }
}

} // verus!
