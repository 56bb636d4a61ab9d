use vstd::prelude::*;

verus! {

/// Names the partitions of the reference data: by channel (offline or
/// online) and by merchant-category risk bucket.
pub struct PartitionFactory;

/// Number of partitions.
pub const PARTITION_COUNT: usize = 8;

/// The partition names, in the order `initialize_partitions` lists them.
pub open spec fn partition_names() -> Seq<Seq<char>> {
    seq![
        "OFFLINE_025"@,
        "OFFLINE_050"@,
        "OFFLINE_075"@,
        "OFFLINE_100"@,
        "ONLINE_025"@,
        "ONLINE_050"@,
        "ONLINE_075"@,
        "ONLINE_100"@,
    ]
}

/// Position among the partitions of the one for a channel and a risk bucket
/// (0: risk up to 0.25, 1: up to 0.50, 2: up to 0.75, 3: above). Any pair
/// outside these falls to the last partition.
pub open spec fn partition_slot(is_offline: bool, risk_bucket: u8) -> int {
    if is_offline && risk_bucket <= 3 {
        risk_bucket as int
    } else if !is_offline && risk_bucket <= 2 {
        4 + risk_bucket
    } else {
        7
    }
}

impl PartitionFactory {
    /// Position of the partition for a channel and a risk bucket.
    pub fn slot_for(is_offline: bool, risk_bucket: u8) -> (r: usize)
        ensures
            r == partition_slot(is_offline, risk_bucket),
            r < PARTITION_COUNT,
    {
        if is_offline && risk_bucket <= 3 {
            risk_bucket as usize
        } else if !is_offline && risk_bucket <= 2 {
            4 + risk_bucket as usize
        } else {
            7
        }
    }

    /// Name of the partition for a channel and a risk bucket.
    pub fn name_for(is_offline: bool, risk_bucket: u8) -> (r: &'static str)
        ensures
            r@ == partition_names()[partition_slot(is_offline, risk_bucket)],
    {
        match (is_offline, risk_bucket) {
            (true, 0) => "OFFLINE_025",
            (true, 1) => "OFFLINE_050",
            (true, 2) => "OFFLINE_075",
            (true, 3) => "OFFLINE_100",
            (false, 0) => "ONLINE_025",
            (false, 1) => "ONLINE_050",
            (false, 2) => "ONLINE_075",
            _ => "ONLINE_100",
        }
    }

    /// The names of all partitions.
    pub fn initialize_partitions() -> (r: Vec<&'static str>)
        ensures
            r.len() == PARTITION_COUNT,
            forall|i: int| 0 <= i < PARTITION_COUNT ==> (#[trigger] r@[i])@ == partition_names()[i],
    {
        let r = vec![
            "OFFLINE_025",
            "OFFLINE_050",
            "OFFLINE_075",
            "OFFLINE_100",
            "ONLINE_025",
            "ONLINE_050",
            "ONLINE_075",
            "ONLINE_100",
        ];
        r
    }
}

/// Every channel and risk bucket has a partition of its own: distinct pairs
/// (with buckets 0 to 3) get distinct partitions, and distinct partitions
/// have distinct names.
pub proof fn lemma_partitions_distinct(o1: bool, b1: u8, o2: bool, b2: u8)
    requires
        b1 <= 3,
        b2 <= 3,
        (o1, b1) != (o2, b2),
    ensures
        partition_slot(o1, b1) != partition_slot(o2, b2),
        partition_names()[partition_slot(o1, b1)] != partition_names()[partition_slot(o2, b2)],
{
    reveal_strlit("OFFLINE_025");
    reveal_strlit("OFFLINE_050");
    reveal_strlit("OFFLINE_075");
    reveal_strlit("OFFLINE_100");
    reveal_strlit("ONLINE_025");
    reveal_strlit("ONLINE_050");
    reveal_strlit("ONLINE_075");
    reveal_strlit("ONLINE_100");
    let n1 = partition_names()[partition_slot(o1, b1)];
    let n2 = partition_names()[partition_slot(o2, b2)];
    if o1 != o2 {
        assert(n1.len() != n2.len());
    } else {
        assert(n1[9] != n2[9] || n1[10] != n2[10] || n1[8] != n2[8] || n1[7] != n2[7]);
    }
}

} // verus!
