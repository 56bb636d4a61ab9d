use vstd::prelude::*;
use crate::vectors::{IvfIndex, VECTOR_STRIDE};

verus! {

/// Little-endian value of the two bytes at `at`.
pub open spec fn le_u16(b: Seq<u8>, at: int) -> int {
    b[at] + 256 * b[at + 1]
}

/// Little-endian value of the four bytes at `at`.
pub open spec fn le_u32(b: Seq<u8>, at: int) -> int {
    b[at] + 256 * b[at + 1] + 65536 * b[at + 2] + 16777216 * b[at + 3]
}

/// Number of clusters announced by an IVF file.
pub open spec fn ivf_count(b: Seq<u8>) -> int {
    le_u16(b, 0)
}

/// Offset of the byte `d` of centroid `k`.
pub open spec fn centroid_at(k: int, d: int) -> int {
    2 + VECTOR_STRIDE * k + d
}

/// Length announced for list `k`.
pub open spec fn list_len(b: Seq<u8>, k: int) -> int {
    le_u32(b, 2 + 16 * ivf_count(b) + 4 * k)
}

/// Sum of the lengths of the lists before list `k`.
pub open spec fn lists_total(b: Seq<u8>, k: nat) -> int
    decreases k,
{
    if k == 0 {
        0
    } else {
        lists_total(b, (k - 1) as nat) + list_len(b, k - 1)
    }
}

/// Offset at which the entries of list `k` start.
pub open spec fn list_start(b: Seq<u8>, k: nat) -> int {
    2 + 20 * ivf_count(b) + 4 * lists_total(b, k)
}

/// Whether the file holds every byte that its header announces.
pub open spec fn ivf_complete(b: Seq<u8>) -> bool {
    &&& b.len() >= 2
    &&& b.len() >= 2 + 20 * ivf_count(b)
    &&& b.len() >= list_start(b, ivf_count(b) as nat)
}

/// Whether `centroids` and `lists` are what the IVF file `b` describes.
pub open spec fn ivf_decodes_to(
    b: Seq<u8>,
    centroids: Seq<[i8; VECTOR_STRIDE]>,
    lists: Seq<Seq<u32>>,
) -> bool {
    &&& centroids.len() == ivf_count(b)
    &&& lists.len() == ivf_count(b)
    &&& forall|k: int, d: int|
        0 <= k < centroids.len() && 0 <= d < VECTOR_STRIDE ==> #[trigger] centroids[k]@[d] == (
        b[centroid_at(k, d)] as i8)
    &&& forall|k: int| 0 <= k < lists.len() ==> #[trigger] lists[k].len() == list_len(b, k)
    &&& forall|k: int, e: int|
        0 <= k < lists.len() && 0 <= e < lists[k].len() ==> #[trigger] lists[k][e] == le_u32(
            b,
            list_start(b, k as nat) + 4 * e,
        )
}

/// The contents of each list.
pub open spec fn lists_view(lists: Seq<Vec<u32>>) -> Seq<Seq<u32>> {
    lists.map_values(|l: Vec<u32>| l@)
}

proof fn lemma_lists_total_monotone(b: Seq<u8>, j: nat, k: nat)
    requires
        j <= k,
    ensures
        lists_total(b, j) <= lists_total(b, k),
    decreases k,
{
    if j < k {
        lemma_lists_total_monotone(b, j, (k - 1) as nat);
        assert(list_len(b, k - 1) >= 0);
    }
}

fn read_u16(b: &[u8], at: usize) -> (r: u16)
    requires
        at + 2 <= b.len(),
    ensures
        r == le_u16(b@, at as int),
{
    (b[at] as u16) + (b[at + 1] as u16) * 256
}

fn read_u32(b: &[u8], at: usize) -> (r: u32)
    requires
        at + 4 <= b.len(),
    ensures
        r == le_u32(b@, at as int),
{
    (b[at] as u32) + (b[at + 1] as u32) * 256 + (b[at + 2] as u32) * 65536 + (b[at + 3] as u32)
        * 16777216
}

impl IvfIndex {
    /// Reads an IVF file: a little-endian `u16` cluster count `n`, then `n`
    /// centroids of `VECTOR_STRIDE` signed bytes, then `n` little-endian `u32`
    /// list lengths, then the entries of every list in turn as little-endian
    /// `u32` values. Bytes after the last entry are ignored. `None` when the
    /// file is shorter than its header announces.
    pub fn decode(bytes: &[u8]) -> (r: Option<IvfIndex>)
        ensures
            r is Some <==> ivf_complete(bytes@),
            r matches Some(index) ==> ivf_decodes_to(
                bytes@,
                index.centroids@,
                lists_view(index.lists@),
            ),
    {
        let ghost b = bytes@;
        if bytes.len() < 2 {
            return None;
        }
        let n = read_u16(bytes, 0) as usize;
        if bytes.len() < 2 + 20 * n {
            return None;
        }
        let mut centroids: Vec<[i8; VECTOR_STRIDE]> = Vec::new();
        let mut k: usize = 0;
        while k < n
            invariant
                b == bytes@,
                n == ivf_count(b),
                bytes.len() >= 2 + 20 * n,
                k <= n,
                centroids.len() == k,
                forall|k2: int, d: int|
                    0 <= k2 < k && 0 <= d < VECTOR_STRIDE ==> #[trigger] centroids@[k2]@[d] == (
                    b[centroid_at(k2, d)] as i8),
            decreases n - k,
        {
            let mut c: [i8; VECTOR_STRIDE] = [0i8; VECTOR_STRIDE];
            let mut d: usize = 0;
            while d < VECTOR_STRIDE
                invariant
                    b == bytes@,
                    bytes.len() >= 2 + 20 * n,
                    k < n,
                    d <= VECTOR_STRIDE,
                    forall|d2: int| 0 <= d2 < d ==> #[trigger] c@[d2] == (b[centroid_at(k as int, d2)] as i8),
                decreases VECTOR_STRIDE - d,
            {
                c[d] = bytes[2 + VECTOR_STRIDE * k + d] as i8;
                d = d + 1;
            }
            centroids.push(c);
            k = k + 1;
        }
        let mut lens: Vec<u32> = Vec::new();
        let mut k: usize = 0;
        while k < n
            invariant
                b == bytes@,
                n == ivf_count(b),
                bytes.len() >= 2 + 20 * n,
                k <= n,
                lens.len() == k,
                forall|k2: int| 0 <= k2 < k ==> #[trigger] lens@[k2] == list_len(b, k2),
            decreases n - k,
        {
            lens.push(read_u32(bytes, 2 + 16 * n + 4 * k));
            k = k + 1;
        }
        let mut lists: Vec<Vec<u32>> = Vec::new();
        let mut cur: usize = 2 + 20 * n;
        let mut k: usize = 0;
        while k < n
            invariant
                b == bytes@,
                n == ivf_count(b),
                bytes.len() >= 2 + 20 * n,
                lens.len() == n,
                forall|k2: int| 0 <= k2 < n ==> #[trigger] lens@[k2] == list_len(b, k2),
                k <= n,
                lists.len() == k,
                cur == list_start(b, k as nat),
                cur <= bytes.len(),
                forall|k2: int| 0 <= k2 < k ==> #[trigger] lists@[k2]@.len() == list_len(b, k2),
                forall|k2: int, e: int|
                    0 <= k2 < k && 0 <= e < lists@[k2]@.len() ==> #[trigger] lists@[k2]@[e] == le_u32(
                        b,
                        list_start(b, k2 as nat) + 4 * e,
                    ),
            decreases n - k,
        {
            let len = lens[k];
            if (len as u64) * 4 > (bytes.len() - cur) as u64 {
                proof {
                    lemma_lists_total_monotone(b, (k + 1) as nat, n as nat);
                }
                return None;
            }
            let len = len as usize;
            let mut list: Vec<u32> = Vec::new();
            let mut e: usize = 0;
            while e < len
                invariant
                    b == bytes@,
                    cur + 4 * len <= bytes.len(),
                    e <= len,
                    list.len() == e,
                    forall|e2: int| 0 <= e2 < e ==> #[trigger] list@[e2] == le_u32(b, cur + 4 * e2),
                decreases len - e,
            {
                list.push(read_u32(bytes, cur + 4 * e));
                e = e + 1;
            }
            lists.push(list);
            cur = cur + 4 * len;
            k = k + 1;
        }
        let index = IvfIndex { centroids, lists };
        proof {
            let lv = lists_view(index.lists@);
            assert forall|k2: int| 0 <= k2 < lv.len() implies #[trigger] lv[k2].len() == list_len(b, k2) by {
                assert(lv[k2] == lists@[k2]@);
            }
            assert forall|k2: int, e: int|
                0 <= k2 < lv.len() && 0 <= e < lv[k2].len() implies #[trigger] lv[k2][e] == le_u32(
                b,
                list_start(b, k2 as nat) + 4 * e,
            ) by {
                assert(lv[k2] == lists@[k2]@);
            }
        }
        Some(index)
    }
}


/// Little-endian bytes of the low 16 bits of `x`.
pub open spec fn u16_le(x: int) -> Seq<u8> {
    seq![(x % 256) as u8, ((x / 256) % 256) as u8]
}

/// Little-endian bytes of the low 32 bits of `x`.
pub open spec fn u32_le(x: int) -> Seq<u8> {
    seq![(x % 256) as u8, ((x / 256) % 256) as u8, ((x / 65536) % 256) as u8, ((x / 16777216) % 256) as u8]
}

/// The bytes of each centroid in turn, each signed byte stored as is.
pub open spec fn centroid_bytes(cs: Seq<[i8; VECTOR_STRIDE]>) -> Seq<u8>
    decreases cs.len(),
{
    if cs.len() == 0 {
        Seq::empty()
    } else {
        centroid_bytes(cs.drop_last()) + cs.last()@.map_values(|v: i8| v as u8)
    }
}

/// The length of each list in turn, as little-endian `u32` values.
pub open spec fn length_bytes(ls: Seq<Seq<u32>>) -> Seq<u8>
    decreases ls.len(),
{
    if ls.len() == 0 {
        Seq::empty()
    } else {
        length_bytes(ls.drop_last()) + u32_le(ls.last().len() as int)
    }
}

/// The entries of one list, as little-endian `u32` values.
pub open spec fn entry_bytes(l: Seq<u32>) -> Seq<u8>
    decreases l.len(),
{
    if l.len() == 0 {
        Seq::empty()
    } else {
        entry_bytes(l.drop_last()) + u32_le(l.last() as int)
    }
}

/// The entries of every list, list after list.
pub open spec fn lists_bytes(ls: Seq<Seq<u32>>) -> Seq<u8>
    decreases ls.len(),
{
    if ls.len() == 0 {
        Seq::empty()
    } else {
        lists_bytes(ls.drop_last()) + entry_bytes(ls.last())
    }
}

/// The IVF file that describes `cs` and `ls`.
pub open spec fn ivf_bytes(cs: Seq<[i8; VECTOR_STRIDE]>, ls: Seq<Seq<u32>>) -> Seq<u8> {
    u16_le(cs.len() as int) + centroid_bytes(cs) + length_bytes(ls) + lists_bytes(ls)
}

/// Sum of the lengths of the lists before list `k`.
pub open spec fn total_before(ls: Seq<Seq<u32>>, k: nat) -> int
    decreases k,
{
    if k == 0 {
        0
    } else {
        total_before(ls, (k - 1) as nat) + ls[k - 1].len()
    }
}

proof fn lemma_u16_round_trip(x: int)
    requires
        0 <= x < 65536,
    ensures
        u16_le(x)[0] + 256 * u16_le(x)[1] == x,
{
    let y = x as u16;
    assert(y == y % 256 + 256 * ((y / 256) % 256)) by (bit_vector);
}

proof fn lemma_u32_round_trip(x: int)
    requires
        0 <= x < 4294967296,
    ensures
        u32_le(x)[0] + 256 * u32_le(x)[1] + 65536 * u32_le(x)[2] + 16777216 * u32_le(x)[3] == x,
{
    let y = x as u32;
    assert(y == y % 256 + 256 * ((y / 256) % 256) + 65536 * ((y / 65536) % 256) + 16777216 * ((y
        / 16777216) % 256)) by (bit_vector);
}

proof fn lemma_i8_u8_round_trip(v: i8)
    ensures
        (v as u8) as i8 == v,
{
    assert((v as u8) as i8 == v) by (bit_vector);
}

proof fn lemma_centroid_bytes(cs: Seq<[i8; VECTOR_STRIDE]>)
    ensures
        centroid_bytes(cs).len() == VECTOR_STRIDE * cs.len(),
        forall|k: int, d: int|
            0 <= k < cs.len() && 0 <= d < VECTOR_STRIDE ==> #[trigger] centroid_bytes(cs)[VECTOR_STRIDE
                * k + d] == cs[k]@[d] as u8,
    decreases cs.len(),
{
    if cs.len() > 0 {
        let init = cs.drop_last();
        lemma_centroid_bytes(init);
        assert forall|k: int, d: int|
            0 <= k < cs.len() && 0 <= d < VECTOR_STRIDE implies #[trigger] centroid_bytes(
            cs,
        )[VECTOR_STRIDE * k + d] == cs[k]@[d] as u8 by {
            if k < cs.len() - 1 {
                assert(init[k] == cs[k]);
                assert(centroid_bytes(init)[VECTOR_STRIDE * k + d] == init[k]@[d] as u8);
            }
        }
    }
}

proof fn lemma_length_bytes(ls: Seq<Seq<u32>>)
    ensures
        length_bytes(ls).len() == 4 * ls.len(),
        forall|k: int, j: int|
            0 <= k < ls.len() && 0 <= j < 4 ==> #[trigger] length_bytes(ls)[4 * k + j] == u32_le(
                ls[k].len() as int,
            )[j],
    decreases ls.len(),
{
    if ls.len() > 0 {
        let init = ls.drop_last();
        lemma_length_bytes(init);
        assert forall|k: int, j: int|
            0 <= k < ls.len() && 0 <= j < 4 implies #[trigger] length_bytes(ls)[4 * k + j] == u32_le(
            ls[k].len() as int,
        )[j] by {
            if k < ls.len() - 1 {
                assert(init[k] == ls[k]);
                assert(length_bytes(init)[4 * k + j] == u32_le(init[k].len() as int)[j]);
            }
        }
    }
}

proof fn lemma_entry_bytes(l: Seq<u32>)
    ensures
        entry_bytes(l).len() == 4 * l.len(),
        forall|e: int, j: int|
            0 <= e < l.len() && 0 <= j < 4 ==> #[trigger] entry_bytes(l)[4 * e + j] == u32_le(
                l[e] as int,
            )[j],
    decreases l.len(),
{
    if l.len() > 0 {
        let init = l.drop_last();
        lemma_entry_bytes(init);
        assert forall|e: int, j: int|
            0 <= e < l.len() && 0 <= j < 4 implies #[trigger] entry_bytes(l)[4 * e + j] == u32_le(
            l[e] as int,
        )[j] by {
            if e < l.len() - 1 {
                assert(init[e] == l[e]);
                assert(entry_bytes(init)[4 * e + j] == u32_le(init[e] as int)[j]);
            }
        }
    }
}

proof fn lemma_lists_bytes(ls: Seq<Seq<u32>>)
    ensures
        lists_bytes(ls).len() == 4 * total_before(ls, ls.len()),
        forall|k: int, e: int, j: int|
            0 <= k < ls.len() && 0 <= e < ls[k].len() && 0 <= j < 4 ==> #[trigger] lists_bytes(
                ls,
            )[4 * total_before(ls, k as nat) + 4 * e + j] == u32_le(ls[k][e] as int)[j],
    decreases ls.len(),
{
    if ls.len() > 0 {
        let init = ls.drop_last();
        lemma_lists_bytes(init);
        lemma_entry_bytes(ls.last());
        assert forall|k: nat| k <= init.len() implies total_before(init, k) == total_before(ls, k) by {
            lemma_total_before_prefix(init, ls, k);
        }
        assert forall|k: int, e: int, j: int|
            0 <= k < ls.len() && 0 <= e < ls[k].len() && 0 <= j < 4 implies #[trigger] lists_bytes(
            ls,
        )[4 * total_before(ls, k as nat) + 4 * e + j] == u32_le(ls[k][e] as int)[j] by {
            assert(total_before(init, k as nat) == total_before(ls, k as nat));
            let lib = lists_bytes(init);
            let t = total_before(ls, k as nat);
            lemma_total_before_monotone(ls, 0, k as nat);
            if k < ls.len() - 1 {
                assert(init[k] == ls[k]);
                assert(total_before(init, (k + 1) as nat) == t + init[k].len());
                lemma_total_before_monotone(init, (k + 1) as nat, init.len());
                assert(4 * t + 4 * e + j < lib.len());
                assert(lib[4 * total_before(init, k as nat) + 4 * e + j] == u32_le(init[k][e] as int)[j]);
            } else {
                assert(t == total_before(init, init.len()));
                assert(lists_bytes(ls) == lib + entry_bytes(ls.last()));
                assert(entry_bytes(ls.last())[4 * e + j] == u32_le(ls.last()[e] as int)[j]);
            }
        }
    }
}

proof fn lemma_total_before_prefix(init: Seq<Seq<u32>>, ls: Seq<Seq<u32>>, k: nat)
    requires
        k <= init.len() <= ls.len(),
        forall|i: int| 0 <= i < init.len() ==> init[i] == ls[i],
    ensures
        total_before(init, k) == total_before(ls, k),
    decreases k,
{
    if k > 0 {
        lemma_total_before_prefix(init, ls, (k - 1) as nat);
    }
}

proof fn lemma_total_before_monotone(ls: Seq<Seq<u32>>, j: nat, k: nat)
    requires
        j <= k,
    ensures
        total_before(ls, j) <= total_before(ls, k),
    decreases k,
{
    if j < k {
        lemma_total_before_monotone(ls, j, (k - 1) as nat);
    }
}

/// Reading back an IVF file written from centroids and lists gives those
/// centroids and lists, provided the cluster count fits the 16-bit header,
/// every centroid has a list, and every list length fits 32 bits. The file
/// ends exactly after the last entry.
pub proof fn lemma_ivf_round_trip(cs: Seq<[i8; VECTOR_STRIDE]>, ls: Seq<Seq<u32>>)
    requires
        cs.len() == ls.len(),
        cs.len() < 65536,
        forall|k: int| 0 <= k < ls.len() ==> #[trigger] ls[k].len() < 4294967296,
    ensures
        ivf_complete(ivf_bytes(cs, ls)),
        ivf_decodes_to(ivf_bytes(cs, ls), cs, ls),
        ivf_bytes(cs, ls).len() == list_start(ivf_bytes(cs, ls), cs.len()),
{
    let b = ivf_bytes(cs, ls);
    let n = cs.len();
    let head = u16_le(n as int);
    let cb = centroid_bytes(cs);
    let lb = length_bytes(ls);
    let eb = lists_bytes(ls);
    lemma_centroid_bytes(cs);
    lemma_length_bytes(ls);
    lemma_lists_bytes(ls);
    lemma_u16_round_trip(n as int);
    assert(b[0] == head[0] && b[1] == head[1]);
    assert(ivf_count(b) == n);
    assert forall|k: int, d: int|
        0 <= k < n && 0 <= d < VECTOR_STRIDE implies b[#[trigger] centroid_at(k, d)] == cb[VECTOR_STRIDE * k + d] by {
        assert(0 <= VECTOR_STRIDE * k + d < VECTOR_STRIDE * n) by (nonlinear_arith)
            requires
                0 <= k < n,
                0 <= d < VECTOR_STRIDE,
        ;
    }
    assert forall|k: int| 0 <= k < n implies #[trigger] list_len(b, k) == ls[k].len() by {
        let at = 2 + 16 * n + 4 * k;
        assert(b[at] == lb[4 * k + 0]);
        assert(b[at + 1] == lb[4 * k + 1]);
        assert(b[at + 2] == lb[4 * k + 2]);
        assert(b[at + 3] == lb[4 * k + 3]);
        lemma_u32_round_trip(ls[k].len() as int);
    }
    assert forall|k: nat| k <= n implies #[trigger] lists_total(b, k) == total_before(ls, k) by {
        lemma_lists_total_matches(b, ls, k);
    }
    lemma_total_before_monotone(ls, 0, n);
    assert forall|k: int, d: int|
        0 <= k < n && 0 <= d < VECTOR_STRIDE implies #[trigger] cs[k]@[d] == (b[centroid_at(k, d)] as i8) by {
        assert(cb[VECTOR_STRIDE * k + d] == cs[k]@[d] as u8);
        lemma_i8_u8_round_trip(cs[k]@[d]);
    }
    assert forall|k: int, e: int|
        0 <= k < n && 0 <= e < ls[k].len() implies #[trigger] ls[k][e] == le_u32(
        b,
        list_start(b, k as nat) + 4 * e,
    ) by {
        let t = total_before(ls, k as nat);
        assert(lists_total(b, k as nat) == t);
        assert(total_before(ls, (k + 1) as nat) == t + ls[k].len());
        lemma_total_before_monotone(ls, (k + 1) as nat, n);
        assert(t + e < total_before(ls, n));
        lemma_ivf_bytes_entry(cs, ls, k, e);
        lemma_u32_round_trip(ls[k][e] as int);
    }
}

proof fn lemma_ivf_bytes_entry(cs: Seq<[i8; VECTOR_STRIDE]>, ls: Seq<Seq<u32>>, k: int, e: int)
    requires
        cs.len() == ls.len(),
        0 <= k < ls.len(),
        0 <= e < ls[k].len(),
    ensures
        ({
            let at = 2 + 20 * cs.len() + 4 * total_before(ls, k as nat) + 4 * e;
            let w = u32_le(ls[k][e] as int);
            &&& ivf_bytes(cs, ls)[at] == w[0]
            &&& ivf_bytes(cs, ls)[at + 1] == w[1]
            &&& ivf_bytes(cs, ls)[at + 2] == w[2]
            &&& ivf_bytes(cs, ls)[at + 3] == w[3]
        }),
{
    let n = cs.len();
    let head = u16_le(n as int);
    let cb = centroid_bytes(cs);
    let lb = length_bytes(ls);
    let eb = lists_bytes(ls);
    lemma_centroid_bytes(cs);
    lemma_length_bytes(ls);
    lemma_lists_bytes(ls);
    let t = total_before(ls, k as nat);
    assert(total_before(ls, (k + 1) as nat) == t + ls[k].len());
    lemma_total_before_monotone(ls, (k + 1) as nat, n);
    let pre = head + cb + lb;
    assert(pre.len() == 2 + 20 * n);
    let b = ivf_bytes(cs, ls);
    assert(b == pre + eb);
    let base = 4 * t + 4 * e;
    assert(t + e < total_before(ls, n));
    assert(eb.len() == 4 * total_before(ls, n));
    lemma_total_before_monotone(ls, 0, k as nat);
    assert(0 <= base);
    assert(base + 3 < eb.len());
    assert((pre + eb)[pre.len() + base] == eb[base]);
    assert((pre + eb)[pre.len() + base + 1] == eb[base + 1]);
    assert((pre + eb)[pre.len() + base + 2] == eb[base + 2]);
    assert((pre + eb)[pre.len() + base + 3] == eb[base + 3]);
    assert(eb[4 * t + 4 * e + 0] == u32_le(ls[k][e] as int)[0]);
    assert(eb[4 * t + 4 * e + 1] == u32_le(ls[k][e] as int)[1]);
    assert(eb[4 * t + 4 * e + 2] == u32_le(ls[k][e] as int)[2]);
    assert(eb[4 * t + 4 * e + 3] == u32_le(ls[k][e] as int)[3]);
}

proof fn lemma_lists_total_matches(b: Seq<u8>, ls: Seq<Seq<u32>>, k: nat)
    requires
        k <= ls.len(),
        forall|i: int| 0 <= i < ls.len() ==> #[trigger] list_len(b, i) == ls[i].len(),
    ensures
        lists_total(b, k) == total_before(ls, k),
    decreases k,
{
    if k > 0 {
        lemma_lists_total_matches(b, ls, (k - 1) as nat);
        assert(list_len(b, k - 1) == ls[k - 1].len());
    }
}

proof fn lemma_length_bytes_step(ls: Seq<Seq<u32>>, k: int)
    requires
        0 <= k < ls.len(),
    ensures
        length_bytes(ls.take(k + 1)) == length_bytes(ls.take(k)) + u32_le(ls[k].len() as int),
{
    assert(ls.take(k + 1).drop_last() =~= ls.take(k));
    assert(ls.take(k + 1).last() == ls[k]);
}

proof fn lemma_lists_bytes_step(ls: Seq<Seq<u32>>, k: int)
    requires
        0 <= k < ls.len(),
    ensures
        lists_bytes(ls.take(k + 1)) == lists_bytes(ls.take(k)) + entry_bytes(ls[k]),
{
    assert(ls.take(k + 1).drop_last() =~= ls.take(k));
    assert(ls.take(k + 1).last() == ls[k]);
}

/// The low 32 bits of a length, which have the same little-endian bytes.
fn low_u32(len: usize) -> (r: u32)
    ensures
        u32_le(r as int) == u32_le(len as int),
{
    let r = (len as u64 % 4294967296u64) as u32;
    proof {
        let l = len as u64;
        let r64 = r as u64;
        assert(r64 == l % 4294967296);
        assert(r64 % 256 == l % 256) by (bit_vector)
            requires r64 == l % 4294967296;
        assert((r64 / 256) % 256 == (l / 256) % 256) by (bit_vector)
            requires r64 == l % 4294967296;
        assert((r64 / 65536) % 256 == (l / 65536) % 256) by (bit_vector)
            requires r64 == l % 4294967296;
        assert((r64 / 16777216) % 256 == (l / 16777216) % 256) by (bit_vector)
            requires r64 == l % 4294967296;
        assert(u32_le(r as int) =~= u32_le(len as int));
    }
    r
}

fn push_u32(out: &mut Vec<u8>, x: u32)
    ensures
        final(out)@ == old(out)@ + u32_le(x as int),
{
    out.push((x % 256) as u8);
    out.push(((x / 256) % 256) as u8);
    out.push(((x / 65536) % 256) as u8);
    out.push(((x / 16777216) % 256) as u8);
    proof {
        assert(out@ =~= old(out)@ + u32_le(x as int));
    }
}

impl IvfIndex {
    /// Writes the IVF file that `IvfIndex::decode` reads: the cluster count
    /// (low 16 bits), the centroids, the list lengths (low 32 bits), then the
    /// list entries.
    pub fn encode(centroids: &Vec<[i8; VECTOR_STRIDE]>, lists: &Vec<Vec<u32>>) -> (r: Vec<u8>)
        ensures
            r@ == ivf_bytes(centroids@, lists_view(lists@)),
    {
        let ghost ls = lists_view(lists@);
        let mut out: Vec<u8> = Vec::new();
        let n = centroids.len();
        out.push((n % 256) as u8);
        out.push(((n / 256) % 256) as u8);
        proof {
            assert(out@ =~= u16_le(n as int));
        }
        let mut k: usize = 0;
        while k < n
            invariant
                n == centroids.len(),
                k <= n,
                out@ == u16_le(n as int) + centroid_bytes(centroids@.take(k as int)),
            decreases n - k,
        {
            let ghost before = out@;
            let c = &centroids[k];
            let mut d: usize = 0;
            while d < VECTOR_STRIDE
                invariant
                    d <= VECTOR_STRIDE,
                    out@ == before + c@.take(d as int).map_values(|v: i8| v as u8),
                decreases VECTOR_STRIDE - d,
            {
                out.push(c[d] as u8);
                proof {
                    assert(c@.take(d as int + 1).map_values(|v: i8| v as u8) =~= c@.take(d as int).map_values(
                        |v: i8| v as u8,
                    ).push(c@[d as int] as u8));
                }
                d = d + 1;
            }
            proof {
                assert(c@.take(VECTOR_STRIDE as int) =~= c@);
                assert(centroids@.take(k as int + 1).drop_last() =~= centroids@.take(k as int));
                assert(centroids@.take(k as int + 1).last() == *c);
            }
            k = k + 1;
        }
        proof {
            assert(centroids@.take(n as int) =~= centroids@);
        }
        let m = lists.len();
        let ghost mid = out@;
        let mut k: usize = 0;
        while k < m
            invariant
                m == lists.len(),
                ls == lists_view(lists@),
                k <= m,
                out@ == mid + length_bytes(ls.take(k as int)),
            decreases m - k,
        {
            let len = lists[k].len();
            let l32 = low_u32(len);
            push_u32(&mut out, l32);
            proof {
                lemma_length_bytes_step(ls, k as int);
                assert(ls[k as int].len() == len);
                assert((mid + length_bytes(ls.take(k as int))) + u32_le(len as int) =~= mid
                    + length_bytes(ls.take(k as int + 1)));
            }
            k = k + 1;
        }
        proof {
            assert(ls.take(m as int) =~= ls);
        }
        let ghost mid2 = out@;
        let mut k: usize = 0;
        while k < m
            invariant
                m == lists.len(),
                ls == lists_view(lists@),
                k <= m,
                out@ == mid2 + lists_bytes(ls.take(k as int)),
            decreases m - k,
        {
            let list = &lists[k];
            let ghost before = out@;
            let mut e: usize = 0;
            while e < list.len()
                invariant
                    e <= list.len(),
                    out@ == before + entry_bytes(list@.take(e as int)),
                decreases list.len() - e,
            {
                push_u32(&mut out, list[e]);
                proof {
                    assert(list@.take(e as int + 1).drop_last() =~= list@.take(e as int));
                    assert((before + entry_bytes(list@.take(e as int))) + u32_le(list@[e as int] as int)
                        =~= before + entry_bytes(list@.take(e as int + 1)));
                }
                e = e + 1;
            }
            proof {
                assert(list@.take(list.len() as int) =~= list@);
                lemma_lists_bytes_step(ls, k as int);
                assert(ls[k as int] == list@);
                assert(before + entry_bytes(list@) =~= mid2 + lists_bytes(ls.take(k as int + 1)));
            }
            k = k + 1;
        }
        proof {
            assert(ls.take(m as int) =~= ls);
            assert(out@ =~= ivf_bytes(centroids@, ls));
        }
        out
    }
}

} // verus!
