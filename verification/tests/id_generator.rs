use mpdelta::id_generator::{node_id, subsec_nanos, unix_seconds, UniqueIdGenerator};
use std::collections::HashSet;

#[test]
fn node_id_is_low_48_bits_big_endian() {
    assert_eq!(node_id(0), [0, 0, 0, 0, 0, 0]);
    assert_eq!(node_id(1), [0, 0, 0, 0, 0, 1]);
    assert_eq!(node_id(0x0102_0304_0506), [1, 2, 3, 4, 5, 6]);
    assert_eq!(node_id(0xffff_0102_0304_0506), [1, 2, 3, 4, 5, 6]);
    assert_eq!(node_id(u64::MAX), [0xff; 6]);
    assert_eq!(node_id(0x1_0000_0000_0000), [0, 0, 0, 0, 0, 0]);
}

#[test]
fn unix_seconds_wraps_before_epoch() {
    assert_eq!(unix_seconds(0), 0);
    assert_eq!(unix_seconds(1_700_000_000), 1_700_000_000);
    assert_eq!(unix_seconds(-1), u64::MAX);
}

#[test]
fn subsec_nanos_takes_the_remainder() {
    assert_eq!(subsec_nanos(0), 0);
    assert_eq!(subsec_nanos(1_700_000_000_123_456_789), 123_456_789);
    assert_eq!(subsec_nanos(999_999_999), 999_999_999);
    assert_eq!(subsec_nanos(-2_000_000_000), 0);
    assert_eq!(subsec_nanos(-1), (-1i32) as u32);
}

#[test]
fn unique_id_generator_makes_distinct_ids() {
    let generator = UniqueIdGenerator::new();
    let mut set = HashSet::new();
    for _ in 0..100_000 {
        assert!(set.insert(generator.generate_new()));
    }
}

#[test]
fn unique_id_generator_node_counts_up() {
    let generator = UniqueIdGenerator::default();
    for i in 0u64..5 {
        let id = generator.generate_new();
        assert_eq!(uuid::Uuid::from_bytes(id.bytes).get_version_num(), 1);
        assert_eq!(id.bytes[6] >> 4, 1);
        assert_eq!(id.bytes[8] >> 6, 2);
        assert_eq!(&id.bytes[10..16], &node_id(i));
    }
}
