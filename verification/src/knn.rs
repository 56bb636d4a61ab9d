use vstd::prelude::*;
use crate::ivf_format::le_u32;

verus! {

/// Number of dimensions of a quantized vector.
pub const DIM: usize = 14;
/// Number of vector slots in one cluster record.
pub const SLOTS_PER_CLUSTER: usize = 10;
/// Size in bytes of one cluster record: count, vector slots, label slots.
pub const CLUSTER_RECORD: usize = 4 + SLOTS_PER_CLUSTER * (DIM + 1);

/// Squared Euclidean distance between `a` and the `n` first coordinates of
/// the vector that starts at `at` in `b`.
pub open spec fn sq_dist_u8_upto(a: Seq<u8>, b: Seq<u8>, at: int, n: nat) -> int
    decreases n,
{
    if n == 0 {
        0
    } else {
        sq_dist_u8_upto(a, b, at, (n - 1) as nat) + (a[n - 1] - b[at + n - 1]) * (a[n - 1] - b[at
            + n - 1])
    }
}

/// Squared Euclidean distance between `a` and the vector that starts at `at` in `b`.
pub open spec fn sq_dist_u8(a: Seq<u8>, b: Seq<u8>, at: int) -> int {
    sq_dist_u8_upto(a, b, at, DIM as nat)
}

proof fn lemma_sq_dist_u8_bounds(a: Seq<u8>, b: Seq<u8>, at: int, n: nat)
    ensures
        0 <= sq_dist_u8_upto(a, b, at, n) <= 65025 * n,
    decreases n,
{
    if n > 0 {
        lemma_sq_dist_u8_bounds(a, b, at, (n - 1) as nat);
        let x = a[n - 1];
        let y = b[at + n - 1];
        assert(0 <= (x - y) * (x - y) <= 65025) by (nonlinear_arith)
            requires
                0 <= x < 256,
                0 <= y < 256,
        ;
    }
}

/// Number of bytes of `b` from `at` on that a distance reads: `DIM`, or
/// fewer when `b` ends sooner.
pub open spec fn present(len: int, at: int) -> nat {
    if len - at < DIM {
        (len - at) as nat
    } else {
        DIM as nat
    }
}

/// Squared Euclidean distance between `a` and the bytes of `b` that start at
/// `at`: the first `DIM` of them, or those there are when `b` ends sooner.
pub fn l2_sq_u8(a: &[u8; DIM], b: &[u8], at: usize) -> (r: u32)
    requires
        at <= b.len(),
    ensures
        r == sq_dist_u8_upto(a@, b@, at as int, present(b.len() as int, at as int)),
        at + DIM <= b.len() ==> r == sq_dist_u8(a@, b@, at as int),
{
    let n: usize = if b.len() - at < DIM {
        b.len() - at
    } else {
        DIM
    };
    let mut sum: u32 = 0;
    let mut i: usize = 0;
    while i < n
        invariant
            at <= b.len(),
            n == present(b.len() as int, at as int),
            i <= n,
            sum == sq_dist_u8_upto(a@, b@, at as int, i as nat),
        decreases n - i,
    {
        proof {
            lemma_sq_dist_u8_bounds(a@, b@, at as int, (i + 1) as nat);
        }
        let d: i32 = a[i] as i32 - b[at + i] as i32;
        assert(0 <= d * d <= 65025) by (nonlinear_arith)
            requires
                -255 <= d <= 255,
        ;
        sum = sum + (d * d) as u32;
        i = i + 1;
    }
    sum
}

/// Distance from the query to vector slot `s`.
pub open spec fn slot_dist(query: Seq<u8>, vecs: Seq<u8>, s: int) -> int {
    sq_dist_u8(query, vecs, DIM * s)
}

/// Position of the last farthest slot among the first `n` entries of `h`.
pub open spec fn farthest(query: Seq<u8>, vecs: Seq<u8>, h: Seq<int>, n: nat) -> int
    decreases n,
{
    if n <= 1 {
        0
    } else {
        let p = farthest(query, vecs, h, (n - 1) as nat);
        if slot_dist(query, vecs, h[n - 1]) >= slot_dist(query, vecs, h[p]) {
            n - 1
        } else {
            p
        }
    }
}

/// The slots kept after scanning the first `s` slots with room for `kk`:
/// the first `kk` slots fill the room; afterwards a slot replaces the last
/// farthest kept one when it is strictly closer.
pub open spec fn kept_slots(query: Seq<u8>, vecs: Seq<u8>, kk: nat, s: nat) -> Seq<int>
    decreases s,
{
    if s == 0 {
        Seq::empty()
    } else {
        let h = kept_slots(query, vecs, kk, (s - 1) as nat);
        if h.len() < kk {
            h.push(s - 1)
        } else if kk > 0 && slot_dist(query, vecs, s - 1) < slot_dist(
            query,
            vecs,
            h[farthest(query, vecs, h, kk)],
        ) {
            h.update(farthest(query, vecs, h, kk), s - 1)
        } else {
            h
        }
    }
}

/// Whether a heap entry holds the distance and label of slot `s`.
pub open spec fn entry_ok(query: Seq<u8>, vecs: Seq<u8>, labels: Seq<u8>, e: (u32, u8), s: int) -> bool {
    e.0 == slot_dist(query, vecs, s) && e.1 == labels[s]
}

/// Number of kept slots labelled 1.
pub open spec fn fraud_in(labels: Seq<u8>, h: Seq<int>) -> int
    decreases h.len(),
{
    if h.len() == 0 {
        0
    } else {
        fraud_in(labels, h.drop_last()) + if labels[h.last()] == 1 {
            1int
        } else {
            0int
        }
    }
}

/// Room used when looking for the `k` nearest of `count` slots.
pub open spec fn room(k: int, count: int) -> int {
    let a = if k < count { k } else { count };
    if a < SLOTS_PER_CLUSTER { a } else { SLOTS_PER_CLUSTER as int }
}

proof fn lemma_farthest_bounds(query: Seq<u8>, vecs: Seq<u8>, h: Seq<int>, n: nat)
    requires
        n >= 1,
    ensures
        0 <= farthest(query, vecs, h, n) < n,
        forall|i: int|
            0 <= i < n ==> slot_dist(query, vecs, #[trigger] h[i]) <= slot_dist(
                query,
                vecs,
                h[farthest(query, vecs, h, n)],
            ),
    decreases n,
{
    if n > 1 {
        lemma_farthest_bounds(query, vecs, h, (n - 1) as nat);
    }
}

proof fn lemma_fraud_in_update(labels: Seq<u8>, h: Seq<int>, p: int, x: int)
    requires
        0 <= p < h.len(),
    ensures
        fraud_in(labels, h.update(p, x)) == fraud_in(labels, h) - (if labels[h[p]] == 1 {
            1int
        } else {
            0int
        }) + (if labels[x] == 1 {
            1int
        } else {
            0int
        }),
    decreases h.len(),
{
    let h2 = h.update(p, x);
    if p == h.len() - 1 {
        assert(h2.drop_last() =~= h.drop_last());
    } else {
        lemma_fraud_in_update(labels, h.drop_last(), p, x);
        assert(h2.drop_last() =~= h.drop_last().update(p, x));
    }
}

/// With no room, no slot is kept.
proof fn lemma_no_room(query: Seq<u8>, vecs: Seq<u8>, s: nat)
    ensures
        kept_slots(query, vecs, 0, s) == Seq::<int>::empty(),
    decreases s,
{
    if s > 0 {
        lemma_no_room(query, vecs, (s - 1) as nat);
    }
}

/// Number of fraud labels (label 1) among the `k` vectors nearest to `query`
/// among the first `count` vectors of `vecs` (at most `SLOTS_PER_CLUSTER`
/// of them are kept). The vectors are scanned in order; the first ones fill
/// the room, and a later vector replaces the last farthest kept vector when it
/// is strictly closer.
pub fn knn_count(query: &[u8; DIM], vecs: &[u8], labels: &[u8], count: usize, k: usize) -> (r: usize)
    requires
        DIM * count <= vecs.len(),
        count <= labels.len(),
    ensures
        r == fraud_in(labels@, kept_slots(query@, vecs@, room(k as int, count as int) as nat, count as nat)),
{
    if k == 0 {
        proof {
            lemma_no_room(query@, vecs@, count as nat);
        }
        return 0;
    }
    let mut heap: [(u32, u8); SLOTS_PER_CLUSTER] = [(u32::MAX, 0u8); SLOTS_PER_CLUSTER];
    let kk = if k < count { k } else { count };
    let kk = if kk < SLOTS_PER_CLUSTER { kk } else { SLOTS_PER_CLUSTER };
    let ghost q = query@;
    let ghost vs = vecs@;
    let ghost ls = labels@;
    let mut filled: usize = 0;
    let mut max_pos: usize = 0;
    let mut fraud: usize = 0;
    let mut slot: usize = 0;
    while slot < count
        invariant
            q == query@,
            vs == vecs@,
            ls == labels@,
            DIM * count <= vecs.len(),
            count <= labels.len(),
            kk == room(k as int, count as int),
            kk <= SLOTS_PER_CLUSTER,
            count > 0 ==> kk > 0,
            slot <= count,
            filled == kept_slots(q, vs, kk as nat, slot as nat).len(),
            filled <= kk,
            filled < kk ==> filled == slot,
            forall|i: int|
                0 <= i < filled ==> entry_ok(
                    q,
                    vs,
                    ls,
                    #[trigger] heap@[i],
                    kept_slots(q, vs, kk as nat, slot as nat)[i],
                ),
            max_pos < SLOTS_PER_CLUSTER,
            forall|i: int|
                0 <= i < filled ==> 0 <= #[trigger] kept_slots(q, vs, kk as nat, slot as nat)[i] < slot,
            filled == kk && kk > 0 ==> max_pos == farthest(
                q,
                vs,
                kept_slots(q, vs, kk as nat, slot as nat),
                kk as nat,
            ),
            fraud == fraud_in(ls, kept_slots(q, vs, kk as nat, slot as nat)),
            fraud <= filled,
        decreases count - slot,
    {
        let ghost h = kept_slots(q, vs, kk as nat, slot as nat);
        let ghost hp = heap@;
        proof {
            assert(DIM * slot + DIM <= DIM * count) by (nonlinear_arith)
                requires
                    slot < count,
            ;
            lemma_sq_dist_u8_bounds(q, vs, DIM * slot, DIM as nat);
        }
        let d = l2_sq_u8(query, vecs, DIM * slot);
        let label = labels[slot];
        if filled < kk {
            heap[filled] = (d, label);
            if label == 1 {
                fraud = fraud + 1;
            }
            filled = filled + 1;
            proof {
                let h2 = kept_slots(q, vs, kk as nat, (slot + 1) as nat);
                assert(h2 == h.push(slot as int));
                assert(h2.drop_last() == h);
                assert forall|i: int| 0 <= i < filled implies entry_ok(q, vs, ls, #[trigger] heap@[i], h2[i]) && 0 <= h2[i] < slot + 1 by {
                    if i < filled - 1 {
                        assert(h2[i] == h[i]);
                        assert(entry_ok(q, vs, ls, hp[i], h[i]) && 0 <= h[i] < slot);
                        assert(heap@[i] == hp[i]);
                    } else {
                        assert(h2[i] == slot);
                        assert(heap@[i].0 == d);
                        assert(d == slot_dist(q, vs, slot as int));
                        assert(heap@[i].1 == label);
                    }
                }
            }
            if filled == kk {
                max_pos = last_farthest(&heap, kk, Ghost(kept_slots(q, vs, kk as nat, (slot + 1) as nat)), Ghost(q), Ghost(vs));
            }
        } else if d < heap[max_pos].0 {
            proof {
                lemma_farthest_bounds(q, vs, h, kk as nat);
                lemma_sq_dist_u8_bounds(q, vs, DIM * h[max_pos as int], DIM as nat);
                lemma_fraud_in_update(ls, h, max_pos as int, slot as int);
                lemma_fraud_in_bound(ls, h.update(max_pos as int, slot as int));
            }
            proof {
                if heap@[max_pos as int].1 == 1 {
                    lemma_fraud_in_member(ls, h, max_pos as int);
                }
            }
            if heap[max_pos].1 == 1 {
                fraud = fraud - 1;
            }
            heap[max_pos] = (d, label);
            if label == 1 {
                fraud = fraud + 1;
            }
            proof {
                let h2 = kept_slots(q, vs, kk as nat, (slot + 1) as nat);
                assert(h2 == h.update(max_pos as int, slot as int));
                assert forall|i: int| 0 <= i < filled implies entry_ok(q, vs, ls, #[trigger] heap@[i], h2[i]) && 0 <= h2[i] < slot + 1 by {
                    if i != max_pos {
                        assert(h2[i] == h[i]);
                        assert(entry_ok(q, vs, ls, hp[i], h[i]) && 0 <= h[i] < slot);
                        assert(heap@[i] == hp[i]);
                    } else {
                        assert(h2[i] == slot);
                        assert(heap@[i].0 == d);
                        assert(d == slot_dist(q, vs, slot as int));
                        assert(heap@[i].1 == label);
                    }
                }
            }
            max_pos = last_farthest(&heap, kk, Ghost(kept_slots(q, vs, kk as nat, (slot + 1) as nat)), Ghost(q), Ghost(vs));
        } else {
            proof {
                lemma_farthest_bounds(q, vs, h, kk as nat);
                let h2 = kept_slots(q, vs, kk as nat, (slot + 1) as nat);
                assert(h2 == h);
            }
        }
        slot = slot + 1;
    }
    fraud
}

/// The slots kept after scanning `s` slots are `min(kk, s)` distinct scanned
/// slots, and no kept slot is farther from the query than a scanned slot that
/// was not kept: they are `min(kk, s)` nearest scanned slots.
pub proof fn lemma_kept_slots_are_nearest(query: Seq<u8>, vecs: Seq<u8>, kk: nat, s: nat)
    ensures
        kept_slots(query, vecs, kk, s).len() == if kk < s {
            kk as int
        } else {
            s as int
        },
        forall|i: int|
            0 <= i < kept_slots(query, vecs, kk, s).len() ==> 0 <= #[trigger] kept_slots(
                query,
                vecs,
                kk,
                s,
            )[i] < s,
        forall|i: int, j: int|
            0 <= i < j < kept_slots(query, vecs, kk, s).len() ==> kept_slots(query, vecs, kk, s)[i]
                != kept_slots(query, vecs, kk, s)[j],
        forall|i: int, t: int|
            #![trigger kept_slots(query, vecs, kk, s)[i], slot_dist(query, vecs, t)]
            0 <= i < kept_slots(query, vecs, kk, s).len() && 0 <= t < s && !kept_slots(
                query,
                vecs,
                kk,
                s,
            ).contains(t) ==> slot_dist(query, vecs, kept_slots(query, vecs, kk, s)[i])
                <= slot_dist(query, vecs, t),
    decreases s,
{
    if s > 0 {
        lemma_kept_slots_are_nearest(query, vecs, kk, (s - 1) as nat);
        let h = kept_slots(query, vecs, kk, (s - 1) as nat);
        let h2 = kept_slots(query, vecs, kk, s);
        let x = s - 1;
        if h.len() < kk {
            assert(h2 == h.push(x));
            assert forall|t: int| 0 <= t < s - 1 implies h.contains(t) by {
                lemma_all_kept_when_room(query, vecs, kk, (s - 1) as nat, t);
            }
            assert forall|i: int, t: int|
                #![trigger h2[i], slot_dist(query, vecs, t)]
                0 <= i < h2.len() && 0 <= t < s && !h2.contains(t) implies slot_dist(
                query,
                vecs,
                h2[i],
            ) <= slot_dist(query, vecs, t) by {
                if t < s - 1 {
                    assert(h.contains(t));
                    let k = choose|k: int| 0 <= k < h.len() && h[k] == t;
                    assert(h2[k] == t);
                } else {
                    assert(h2[h.len() as int] == t);
                }
            }
        } else if kk > 0 && slot_dist(query, vecs, x) < slot_dist(query, vecs, h[farthest(query, vecs, h, kk)]) {
            let p = farthest(query, vecs, h, kk);
            lemma_farthest_bounds(query, vecs, h, kk);
            assert(h2 == h.update(p, x));
            assert forall|i: int, j: int| 0 <= i < j < h2.len() implies h2[i] != h2[j] by {
                if i == p {
                    assert(h[j] < x);
                } else if j == p {
                    assert(h[i] < x);
                }
            }
            assert forall|i: int, t: int|
                #![trigger h2[i], slot_dist(query, vecs, t)]
                0 <= i < h2.len() && 0 <= t < s && !h2.contains(t) implies slot_dist(
                query,
                vecs,
                h2[i],
            ) <= slot_dist(query, vecs, t) by {
                assert(t != x) by {
                    assert(h2[p] == x);
                }
                if t == h[p] {
                    if i != p {
                        assert(h2[i] == h[i]);
                    }
                } else {
                    assert(!h.contains(t)) by {
                        if h.contains(t) {
                            let k = choose|k: int| 0 <= k < h.len() && h[k] == t;
                            assert(k != p);
                            assert(h2[k] == t);
                        }
                    }
                    assert(slot_dist(query, vecs, h[p]) <= slot_dist(query, vecs, t));
                    if i != p {
                        assert(h2[i] == h[i]);
                    }
                }
            }
        } else {
            assert(h2 == h);
            if kk > 0 {
                lemma_farthest_bounds(query, vecs, h, kk);
            }
            assert forall|i: int, t: int|
                #![trigger h2[i], slot_dist(query, vecs, t)]
                0 <= i < h2.len() && 0 <= t < s && !h2.contains(t) implies slot_dist(
                query,
                vecs,
                h2[i],
            ) <= slot_dist(query, vecs, t) by {
                if t == x {
                    assert(h.len() == kk);
                    assert(slot_dist(query, vecs, h[i]) <= slot_dist(
                        query,
                        vecs,
                        h[farthest(query, vecs, h, kk)],
                    ));
                }
            }
        }
    }
}

proof fn lemma_all_kept_when_room(query: Seq<u8>, vecs: Seq<u8>, kk: nat, s: nat, t: int)
    requires
        kept_slots(query, vecs, kk, s).len() < kk,
        0 <= t < s,
    ensures
        kept_slots(query, vecs, kk, s).contains(t),
    decreases s,
{
    let h = kept_slots(query, vecs, kk, (s - 1) as nat);
    lemma_kept_slots_are_nearest(query, vecs, kk, (s - 1) as nat);
    if h.len() >= kk {
        lemma_farthest_bounds(query, vecs, h, kk);
        assert(kept_slots(query, vecs, kk, s).len() == h.len());
    }
    assert(h.len() < kk);
    assert(kept_slots(query, vecs, kk, s) == h.push(s - 1));
    if t < s - 1 {
        lemma_all_kept_when_room(query, vecs, kk, (s - 1) as nat, t);
        let k = choose|k: int| 0 <= k < h.len() && h[k] == t;
        assert(h.push(s - 1)[k] == t);
    } else {
        assert(h.push(s - 1)[h.len() as int] == t);
    }
}

proof fn lemma_fraud_in_member(labels: Seq<u8>, h: Seq<int>, p: int)
    requires
        0 <= p < h.len(),
        labels[h[p]] == 1,
    ensures
        fraud_in(labels, h) >= 1,
    decreases h.len(),
{
    lemma_fraud_in_bound(labels, h.drop_last());
    if p < h.len() - 1 {
        lemma_fraud_in_member(labels, h.drop_last(), p);
    }
}

proof fn lemma_fraud_in_bound(labels: Seq<u8>, h: Seq<int>)
    ensures
        0 <= fraud_in(labels, h) <= h.len(),
    decreases h.len(),
{
    if h.len() > 0 {
        lemma_fraud_in_bound(labels, h.drop_last());
    }
}

/// Position of the last entry with the greatest distance among the first
/// `kk` entries of `heap`.
fn last_farthest(
    heap: &[(u32, u8); SLOTS_PER_CLUSTER],
    kk: usize,
    Ghost(h): Ghost<Seq<int>>,
    Ghost(q): Ghost<Seq<u8>>,
    Ghost(vs): Ghost<Seq<u8>>,
) -> (r: usize)
    requires
        0 < kk <= SLOTS_PER_CLUSTER,
        h.len() == kk,
        forall|i: int| 0 <= i < kk ==> (#[trigger] heap@[i]).0 == slot_dist(q, vs, h[i]),
    ensures
        r == farthest(q, vs, h, kk as nat),
        r < kk,
{
    let mut best: usize = 0;
    let mut i: usize = 1;
    while i < kk
        invariant
            0 < kk <= SLOTS_PER_CLUSTER,
            h.len() == kk,
            forall|i2: int| 0 <= i2 < kk ==> (#[trigger] heap@[i2]).0 == slot_dist(q, vs, h[i2]),
            1 <= i <= kk,
            best == farthest(q, vs, h, i as nat),
            best < i,
        decreases kk - i,
    {
        if heap[i].0 >= heap[best].0 {
            best = i;
        }
        i = i + 1;
    }
    best
}


/// Appends the vectors and labels held by one cluster record: a
/// little-endian `u32` count (at most `SLOTS_PER_CLUSTER` of it is used),
/// `SLOTS_PER_CLUSTER` vector slots of `DIM` bytes, then `SLOTS_PER_CLUSTER`
/// label bytes. Returns the number of vectors appended.
pub fn append_cluster(record: &[u8], all_vecs: &mut Vec<u8>, all_labels: &mut Vec<u8>) -> (r: usize)
    requires
        record.len() >= CLUSTER_RECORD,
    ensures
        r == if le_u32(record@, 0) < SLOTS_PER_CLUSTER {
            le_u32(record@, 0)
        } else {
            SLOTS_PER_CLUSTER as int
        },
        final(all_vecs)@ == old(all_vecs)@ + record@.subrange(4, 4 + DIM * r),
        final(all_labels)@ == old(all_labels)@ + record@.subrange(
            4 + SLOTS_PER_CLUSTER * DIM,
            4 + SLOTS_PER_CLUSTER * DIM + r,
        ),
{
    let announced = (record[0] as u32) + (record[1] as u32) * 256 + (record[2] as u32) * 65536
        + (record[3] as u32) * 16777216;
    let count: usize = if announced < SLOTS_PER_CLUSTER as u32 {
        announced as usize
    } else {
        SLOTS_PER_CLUSTER
    };
    let ghost v0 = all_vecs@;
    let ghost l0 = all_labels@;
    let mut i: usize = 0;
    while i < DIM * count
        invariant
            count <= SLOTS_PER_CLUSTER,
            record.len() >= CLUSTER_RECORD,
            i <= DIM * count,
            all_vecs@ == v0 + record@.subrange(4, 4 + i as int),
        decreases DIM * count - i,
    {
        all_vecs.push(record[4 + i]);
        proof {
            assert(record@.subrange(4, 4 + i as int + 1) =~= record@.subrange(4, 4 + i as int).push(
                record@[4 + i as int],
            ));
        }
        i = i + 1;
    }
    let base = 4 + SLOTS_PER_CLUSTER * DIM;
    let mut j: usize = 0;
    while j < count
        invariant
            count <= SLOTS_PER_CLUSTER,
            record.len() >= CLUSTER_RECORD,
            base == 4 + SLOTS_PER_CLUSTER * DIM,
            j <= count,
            all_labels@ == l0 + record@.subrange(base as int, base + j),
        decreases count - j,
    {
        all_labels.push(record[base + j]);
        proof {
            assert(record@.subrange(base as int, base + j + 1) =~= record@.subrange(
                base as int,
                base + j,
            ).push(record@[base + j]));
        }
        j = j + 1;
    }
    count
}


proof fn lemma_sq_dist_u8_upto_update(a: Seq<u8>, b: Seq<u8>, at: int, n: nat, j: int, x: u8)
    requires
        0 <= at,
        n <= a.len(),
        at + n <= b.len(),
        0 <= j < b.len(),
    ensures
        sq_dist_u8_upto(a, b.update(j, x), at, n) == sq_dist_u8_upto(a, b, at, n) + if at <= j < at + n {
            (a[j - at] - x) * (a[j - at] - x) - (a[j - at] - b[j]) * (a[j - at] - b[j])
        } else {
            0
        },
    decreases n,
{
    if n > 0 {
        lemma_sq_dist_u8_upto_update(a, b, at, (n - 1) as nat, j, x);
    }
}

proof fn lemma_sq_dist_u8_upto_zero(a: Seq<u8>, b: Seq<u8>, at: int, n: nat)
    requires
        0 <= at,
        n <= a.len(),
        at + n <= b.len(),
    ensures
        sq_dist_u8_upto(a, b, at, n) == 0 <==> forall|d: int| 0 <= d < n ==> #[trigger] a[d] == b[at + d],
    decreases n,
{
    if n > 0 {
        lemma_sq_dist_u8_upto_zero(a, b, at, (n - 1) as nat);
        lemma_sq_dist_u8_bounds(a, b, at, (n - 1) as nat);
        let e = a[n - 1] - b[at + n - 1];
        assert(e * e >= 0) by (nonlinear_arith);
        assert(e * e == 0 <==> e == 0) by (nonlinear_arith);
        if sq_dist_u8_upto(a, b, at, n) == 0 {
            assert forall|d: int| 0 <= d < n implies #[trigger] a[d] == b[at + d] by {
                if d < n - 1 {
                    assert(sq_dist_u8_upto(a, b, at, (n - 1) as nat) == 0);
                }
            }
        }
    }
}

/// The distance between `a` and the vector at `at` in `b` compares each
/// coordinate with the same coordinate: it is 0 exactly when the `DIM` bytes
/// from `at` on are `a`; changing byte `at + i` changes it by the change of
/// `(a[i] - b[at + i])^2`, and changing a byte outside those `DIM` bytes
/// does not change it.
pub proof fn lemma_sq_dist_u8_by_coordinate(a: Seq<u8>, b: Seq<u8>, at: int, j: int, x: u8)
    requires
        a.len() == DIM,
        0 <= at,
        at + DIM <= b.len(),
        0 <= j < b.len(),
    ensures
        sq_dist_u8(a, b, at) == 0 <==> b.subrange(at, at + DIM) == a,
        sq_dist_u8(a, b.update(j, x), at) == sq_dist_u8(a, b, at) + if at <= j < at + DIM {
            (a[j - at] - x) * (a[j - at] - x) - (a[j - at] - b[j]) * (a[j - at] - b[j])
        } else {
            0
        },
{
    lemma_sq_dist_u8_upto_zero(a, b, at, DIM as nat);
    lemma_sq_dist_u8_upto_update(a, b, at, DIM as nat, j, x);
    if sq_dist_u8(a, b, at) == 0 {
        assert(b.subrange(at, at + DIM) =~= a);
    }
    if b.subrange(at, at + DIM) == a {
        assert forall|d: int| 0 <= d < DIM implies #[trigger] a[d] == b[at + d] by {
            assert(b.subrange(at, at + DIM)[d] == b[at + d]);
        }
    }
}

/// The frauds among kept slots are the kept slots labelled 1: their number.
pub proof fn lemma_fraud_in_counts(labels: Seq<u8>, h: Seq<int>)
    ensures
        fraud_in(labels, h) == h.filter(|s: int| labels[s] == 1).len(),
    decreases h.len(),
{
    reveal(Seq::filter);
    if h.len() > 0 {
        lemma_fraud_in_counts(labels, h.drop_last());
    }
}

} // verus!
