use rvh_classifier::range_vector_hash_map::{get_masks, is_match, popcount, RVHashMap};
use rvh_classifier::types::{Packet, Rule};

#[test]
fn range_vector_hash_map_it_works() {
    assert_eq!(2 + 2, 4);
}

#[test]
fn test_is_match() {
    assert!(is_match(0b1101, 0b0101, 0b0111));
    assert!(is_match(0b0101, 0b1101, 0b0111));

    assert!(!is_match(0b1111, 0b1101, 0b0111));
    assert!(!is_match(0b1101, 0b1111, 0b0111));
}

#[test]
fn test_get_mask() {
    let ranges = vec![(3, 5), (6, 10), (1, 2), (0, 1)];

    assert_eq!(get_masks(&ranges), vec![0b111, 0b11_1111, 0b1, 0b0]);
}

#[test]
fn test_popcount() {
    assert_eq!(popcount(0), 0);
    assert_eq!(popcount(0b1011), 3);
    assert_eq!(popcount(u32::MAX), 32);
}

#[test]
fn test_rv_hash_map_can_insert_if_can_insert() {
    let map = RVHashMap::new(vec![(3, 5)]);

    let yes1 = Rule::new(vec![0b101], vec![0b111], 1);
    let yes2 = Rule::new(vec![0b101], vec![0b1111], 1);

    assert!(map.can_insert(&yes1));
    assert!(map.can_insert(&yes2));
}

#[test]
fn test_rv_hash_map_can_insert_if_cannot_insert() {
    let map = RVHashMap::new(vec![(3, 5)]);

    let no1 = Rule::new(vec![0b101], vec![0b11], 1);
    let no2 = Rule::new(vec![0b101], vec![0b11111], 1);

    assert!(!map.can_insert(&no1));
    assert!(!map.can_insert(&no2));
}

#[test]
fn test_rv_hash_map_insert_if_priority_is_not_unique() {
    let mut map = RVHashMap::new(vec![(3, 5)]);

    let yes1 = Rule::new(vec![0b101], vec![0b111], 1);
    map.insert(yes1);

    let no1 = Rule::new(vec![0b101], vec![0b111], 1);
    assert!(!map.insert(no1))
}

#[test]
fn test_rv_hash_map_insert_updates_priorities() {
    let mut map = RVHashMap::new(vec![(3, 5)]);

    let r = Rule::new(vec![0b101], vec![0b111], 1);
    map.insert(r);
    assert_eq!(map.highest_priority(), 1);

    let r = Rule::new(vec![0b101], vec![0b1111], 4);
    map.insert(r);
    assert_eq!(map.highest_priority(), 4);

    let r = Rule::new(vec![0b111], vec![0b111], 2);
    map.insert(r);
    assert_eq!(map.highest_priority(), 4);
}

#[test]
fn test_rv_hash_map_remove_updates_priorities() {
    let mut map = RVHashMap::new(vec![(3, 5)]);

    let r1 = Rule::new(vec![0b101], vec![0b111], 1);
    let r2 = Rule::new(vec![0b11], vec![0b1111], 4);
    let r3 = Rule::new(vec![0b1001], vec![0b1111], 6);

    map.insert(r1.clone());
    map.insert(r2.clone());
    map.insert(r3.clone());

    map.remove(&r2);
    assert_eq!(map.highest_priority(), 6);

    map.remove(&r3);
    assert_eq!(map.highest_priority(), 1);
}

#[test]
fn test_rv_hash_map_classifies_packets_correctly() {
    let mut map = RVHashMap::new(vec![(3, 5)]);

    let r1 = Rule::new(vec![0b101], vec![0b111], 1);
    let r2 = Rule::new(vec![0b1101], vec![0b1111], 4);
    let r3 = Rule::new(vec![0b1001], vec![0b1111], 6);

    map.insert(r1);
    map.insert(r2);
    map.insert(r3);

    let p1 = Packet::new(vec![0b101]);
    let p2 = Packet::new(vec![0b1101]);
    let p3 = Packet::new(vec![0b1001]);
    let p4 = Packet::new(vec![0b1010]);

    assert_eq!(map.check_match(&p1).expect("should match").priority(), 1);
    assert_eq!(map.check_match(&p2).expect("should match").priority(), 4);
    assert_eq!(map.check_match(&p3).expect("should match").priority(), 6);
    assert!(map.check_match(&p4).is_none());
}

#[test]
fn test_rv_hash_map_check_match_on_multiple_fields() {
    let mut map = RVHashMap::new(vec![(3, 5), (3, 5)]);
    let r1 = Rule::new(vec![0b101, 0b1010], vec![0b111, 0b1111], 1);
    map.insert(r1);

    let p1 = Packet::new(vec![0b101, 0b1000]);
    let p2 = Packet::new(vec![0b100, 0b1010]);
    let p3 = Packet::new(vec![0b101, 0b1010]);

    assert!(map.check_match(&p1).is_none());
    assert!(map.check_match(&p2).is_none());

    assert!(map.check_match(&p3).is_some());
}

#[test]
fn test_rv_hash_map_matching_rule_found_despite_high_bits() {
    // the fingerprint mixes only the masked low bits, so a packet that
    // differs from the rule above the mask still probes the same bucket
    let mut map = RVHashMap::new(vec![(2, 5)]);
    let r = Rule::new(vec![0b011], vec![0b111], 9);
    map.insert(r);

    // same low two bits (same bucket), but bit 2 differs inside the
    // rule's mask: probed, scanned, and rejected
    let p = Packet::new(vec![0b111]);
    assert!(map.check_match(&p).is_none());

    // bits above the rule's mask are free: still a match
    let q = Packet::new(vec![0b1000_0011]);
    assert_eq!(map.check_match(&q).expect("should match").priority(), 9);
}

#[test]
fn test_rv_hash_map_remove_missing_priority() {
    let mut map = RVHashMap::new(vec![(0, 33)]);
    let r = Rule::new(vec![0b1], vec![0b1], 2);
    assert!(!map.remove(&r));
    assert_eq!(map.highest_priority(), 0);
}
