use mpdelta::invalidate_range::{InvalidateRange, ValidityRange};
use std::ops::Range;

#[test]
fn test_invalidate_range() {
    fn all_range(range: Range<usize>) -> impl Iterator<Item = Range<usize>> {
        range.clone().flat_map(move |start| (start..range.end).map(move |end| start..end + 1))
    }
    const MAX: usize = 6;
    for range1 in all_range(1..MAX) {
        for range2 in all_range(1..MAX) {
            for range3 in all_range(1..MAX) {
                let mut invalidate_range = InvalidateRange::new();
                let mut vector_validity = [true; MAX + 1];
                for range in [&range1, &range2, &range3] {
                    vector_validity[range.clone()].fill(false);
                    invalidate_range.invalidate(range.clone());
                    assert!(vector_validity.iter().enumerate().all(|(i, &v)| invalidate_range.validity(&i) == v), "{invalidate_range:?}.validity() != {vector_validity:?}.validity()");
                    assert_eq!(vector_validity.windows(2).filter(|w| w == &[true, false]).count(), invalidate_range.size(), "{invalidate_range:?} != {vector_validity:?}");
                    for range in all_range(0..MAX + 1) {
                        let validity_range = invalidate_range.validity_range(&range.start..&range.end);
                        let expected_validity_range = {
                            let range = &vector_validity[range.clone()];
                            if range.iter().all(|&v| v) {
                                ValidityRange::Valid
                            } else if range.iter().all(|&v| !v) {
                                ValidityRange::Invalid
                            } else {
                                ValidityRange::PartiallyInvalid
                            }
                        };
                        assert_eq!(validity_range, expected_validity_range, "{invalidate_range:?}.validity_range({range:?}) != {vector_validity:?}.validity_range({range:?})");
                    }
                }
            }
        }
    }
}

#[test]
fn invalidate_range_empty_is_valid() {
    let ranges = InvalidateRange::new();
    assert_eq!(ranges.size(), 0);
    assert!(ranges.validity(&0));
    assert!(ranges.validity(&usize::MAX));
    assert_eq!(ranges.validity_range(&0..&10), ValidityRange::Valid);
    assert_eq!(ranges.validity_range(&3..&3), ValidityRange::Valid);
    let default = InvalidateRange::default();
    assert_eq!(default.size(), 0);
}

#[test]
fn invalidate_range_merges_touching_intervals() {
    let mut ranges = InvalidateRange::new();
    ranges.invalidate(10..20);
    ranges.invalidate(20..30);
    assert_eq!(ranges.size(), 1);
    assert!(!ranges.validity(&10));
    assert!(!ranges.validity(&29));
    assert!(ranges.validity(&30));
    assert!(ranges.validity(&9));
    assert_eq!(ranges.validity_range(&10..&30), ValidityRange::Invalid);
    assert_eq!(ranges.validity_range(&5..&15), ValidityRange::PartiallyInvalid);
    assert_eq!(ranges.validity_range(&25..&35), ValidityRange::PartiallyInvalid);
    assert_eq!(ranges.validity_range(&30..&40), ValidityRange::Valid);
}

#[test]
fn invalidate_range_bridges_gaps() {
    let mut ranges = InvalidateRange::new();
    ranges.invalidate(0..2);
    ranges.invalidate(5..7);
    ranges.invalidate(10..12);
    assert_eq!(ranges.size(), 3);
    assert_eq!(ranges.validity_range(&2..&5), ValidityRange::Valid);
    ranges.invalidate(1..11);
    assert_eq!(ranges.size(), 1);
    assert_eq!(ranges.validity_range(&0..&12), ValidityRange::Invalid);
    assert!(ranges.validity(&12));
}

#[test]
fn invalidate_range_inside_existing_changes_nothing() {
    let mut ranges = InvalidateRange::new();
    ranges.invalidate(0..100);
    ranges.invalidate(10..20);
    assert_eq!(ranges.size(), 1);
    ranges.invalidate(50..40);
    assert_eq!(ranges.size(), 1);
    assert!(ranges.validity(&100));
}

#[test]
fn invalidate_range_reversed_query_decided_by_start_interval() {
    let mut ranges = InvalidateRange::new();
    ranges.invalidate(0..5);
    assert_eq!(ranges.validity_range(&7..&3), ValidityRange::Invalid);
    assert_eq!(ranges.validity_range(&4..&2), ValidityRange::Invalid);
}

#[test]
fn invalidate_range_clone_is_independent() {
    let mut ranges = InvalidateRange::new();
    ranges.invalidate(3..4);
    let copy = ranges.clone();
    ranges.invalidate(8..9);
    assert_eq!(copy.size(), 1);
    assert_eq!(ranges.size(), 2);
    assert!(copy.validity(&8));
    assert!(!ranges.validity(&8));
}

#[test]
fn invalidate_range_empty_range_is_kept_as_a_mark() {
    let mut ranges = InvalidateRange::new();
    ranges.invalidate(5..5);
    assert_eq!(ranges.size(), 1);
    assert!(ranges.validity(&4));
    assert!(ranges.validity(&5));
    assert_eq!(ranges.validity_range(&4..&6), ValidityRange::PartiallyInvalid);
    ranges.invalidate(5..8);
    assert_eq!(ranges.size(), 1);
    assert!(!ranges.validity(&5));
    assert_eq!(ranges.validity_range(&5..&8), ValidityRange::Invalid);
}
