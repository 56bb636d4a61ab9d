use backend_fight::partition::PartitionFactory;

#[test]
fn partition_names_follow_channel_and_risk() {
    assert_eq!(PartitionFactory::name_for(true, 0), "OFFLINE_025");
    assert_eq!(PartitionFactory::name_for(true, 1), "OFFLINE_050");
    assert_eq!(PartitionFactory::name_for(true, 2), "OFFLINE_075");
    assert_eq!(PartitionFactory::name_for(true, 3), "OFFLINE_100");
    assert_eq!(PartitionFactory::name_for(false, 0), "ONLINE_025");
    assert_eq!(PartitionFactory::name_for(false, 1), "ONLINE_050");
    assert_eq!(PartitionFactory::name_for(false, 2), "ONLINE_075");
    assert_eq!(PartitionFactory::name_for(false, 3), "ONLINE_100");
}

#[test]
fn every_named_partition_is_initialized() {
    let all = PartitionFactory::initialize_partitions();
    assert_eq!(all.len(), 8);
    for offline in [true, false] {
        for bucket in 0..4u8 {
            let slot = PartitionFactory::slot_for(offline, bucket);
            assert_eq!(all[slot], PartitionFactory::name_for(offline, bucket));
        }
    }
    let mut sorted = all.clone();
    sorted.sort();
    sorted.dedup();
    assert_eq!(sorted.len(), 8);
}
