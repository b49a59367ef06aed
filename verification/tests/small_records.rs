use std::time::{Duration, SystemTime};
use zettacache::base_types::PoolGuid;
use zettacache::pool_id::{PoolGuidMapping, PoolGuidMappingPhys, PoolId};
use zettacache::size_histogram::SizeHistogramPhys;
use zettacache::zcachedb::{
    CommandScope, DumpSlabsOptions, DumpStructuresOptions, ZettaCacheDBCommand,
};

#[test]
fn pool_ids_are_stable() {
    let mut mapping = PoolGuidMapping::open(PoolGuidMappingPhys(vec![]));
    assert_eq!(mapping.map_pool_guid(PoolGuid(77)), PoolId(0));
    assert_eq!(mapping.map_pool_guid(PoolGuid(99)), PoolId(1));
    assert_eq!(mapping.map_pool_guid(PoolGuid(77)), PoolId(0));
    let mut reopened = PoolGuidMapping::open(mapping.to_phys());
    assert_eq!(reopened.map_pool_guid(PoolGuid(99)), PoolId(1));
    assert_eq!(reopened.map_pool_guid(PoolGuid(5)), PoolId(2));
}

#[test]
fn there_are_ids_for_256_pools() {
    let guids = (0..255).map(PoolGuid).collect();
    let mut mapping = PoolGuidMapping::open(PoolGuidMappingPhys(guids));
    assert_eq!(mapping.map_pool_guid(PoolGuid(1000)), PoolId(255));
    assert_eq!(mapping.map_pool_guid(PoolGuid(254)), PoolId(254));
}

#[test]
fn hits_are_counted_by_size() {
    let mut histogram = SizeHistogramPhys::new(1000, 500, 50, 10);
    assert_eq!(histogram.bucket_size, 100);
    histogram.live_hit(0);
    histogram.live_hit(49);
    histogram.live_hit(50);
    histogram.ghost_hit(850);
    histogram.lookup();
    assert_eq!(histogram.live_histogram, vec![2, 1, 0, 0, 0, 0, 0, 0, 0, 0]);
    assert_eq!(histogram.ghost_histogram, vec![0, 0, 0, 0, 0, 0, 0, 0, 0, 1]);
    assert_eq!(histogram.lookups, 1);
    assert_eq!(histogram.cache_capacity, 500);
}

#[test]
fn hits_behind_the_range_are_not_counted() {
    let mut histogram = SizeHistogramPhys::new(1000, 500, 50, 10);
    histogram.live_hit(950);
    histogram.ghost_hit(1 << 40);
    assert_eq!(histogram.live_histogram, vec![0; 10]);
    assert_eq!(histogram.ghost_histogram, vec![0; 10]);
}

#[test]
fn histogram_starts_now() {
    let before = SystemTime::now();
    let histogram = SizeHistogramPhys::new(1000, 500, 50, 10);
    assert!(histogram.started().duration_since(before).unwrap() < Duration::from_secs(10));
    let then = SystemTime::UNIX_EPOCH + Duration::from_secs(5);
    let histogram = SizeHistogramPhys::new_at(then, 1000, 500, 50, 0);
    assert_eq!(histogram.started(), then);
    assert_eq!(histogram.bucket_size, 0);
}

#[test]
fn dump_options() {
    let options = DumpStructuresOptions::new().spacemaps(true).index_log_raw(true);
    assert!(options.dump_defaults);
    assert!(options.dump_spacemaps);
    assert!(options.dump_index_log_raw);
    assert!(!options.dump_operation_log_raw);
    assert!(!options.dump_rebalance_log_raw);
    let options = DumpStructuresOptions::default()
        .defaults(false)
        .operation_log_raw(true)
        .rebalance_log_raw(true)
        .atime_histogram(true);
    assert!(!options.dump_defaults);
    assert!(options.dump_operation_log_raw);
    assert!(options.dump_rebalance_log_raw);
    assert!(options.dump_atime_histogram);
    assert_eq!(DumpSlabsOptions::new().verbosity, 0);
    assert_eq!(DumpSlabsOptions::default().verbosity(3).verbosity, 3);
}

#[test]
fn command_scopes() {
    assert_eq!(ZettaCacheDBCommand::DumpSuperblocks.scope(), CommandScope::Superblocks);
    assert_eq!(ZettaCacheDBCommand::VerifyIndex.scope(), CommandScope::PoolState);
    assert_eq!(
        ZettaCacheDBCommand::DumpSlabs(DumpSlabsOptions::new()).scope(),
        CommandScope::PoolState
    );
}
