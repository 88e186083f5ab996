use rvh_classifier::types::{Packet, Rule};
use rvh_classifier::RVHClassifier;

#[test]
fn lib_it_works() {
    assert_eq!(2 + 2, 4);
}

#[test]
fn test_insertions_keep_correct_order_of_hash_tables() {
    let mut rvh = RVHClassifier::new(vec![
        vec![(3, 6), (0, 3)],
        vec![(0, 3), (3, 6)],
        vec![(0, 3), (0, 3)],
        vec![(3, 6), (3, 6)],
    ]);

    let r11 = Rule::new(vec![0b1, 0b10], vec![0b11, 0b1], 1);
    assert!(rvh.add_rule(r11));

    let r21 = Rule::new(vec![0b1, 0b10], vec![0b111, 0b1], 3);
    assert!(rvh.add_rule(r21));

    assert_eq!(rvh.hash_maps[0].highest_priority(), 3);
    assert_eq!(rvh.hash_maps[1].highest_priority(), 1);

    let r31 = Rule::new(vec![0b1, 0b10], vec![0b11, 0b111], 5);
    assert!(rvh.add_rule(r31));

    assert_eq!(rvh.hash_maps[0].highest_priority(), 5);

    let r41 = Rule::new(vec![0b1, 0b10], vec![0b111, 0b11_111], 7);
    assert!(rvh.add_rule(r41));

    assert_eq!(rvh.hash_maps[0].highest_priority(), 7);
    assert_eq!(rvh.hash_maps[1].highest_priority(), 5);
    assert_eq!(rvh.hash_maps[2].highest_priority(), 3);
    assert_eq!(rvh.hash_maps[3].highest_priority(), 1);
}

#[test]
fn test_removals_keep_correct_order_of_hash_tables() {
    let mut rvh = RVHClassifier::new(vec![
        vec![(3, 6), (0, 3)],
        vec![(0, 3), (3, 6)],
        vec![(0, 3), (0, 3)],
        vec![(3, 6), (3, 6)],
    ]);

    let r11 = Rule::new(vec![0b1, 0b10], vec![0b11, 0b1], 1);
    assert!(rvh.add_rule(r11.clone()));

    let r21 = Rule::new(vec![0b1, 0b10], vec![0b111, 0b1], 3);
    assert!(rvh.add_rule(r21.clone()));

    let r31 = Rule::new(vec![0b1, 0b10], vec![0b11, 0b111], 5);
    assert!(rvh.add_rule(r31.clone()));

    let r41 = Rule::new(vec![0b1, 0b10], vec![0b111, 0b11_111], 7);
    assert!(rvh.add_rule(r41.clone()));

    assert!(rvh.remove_rule(&r31));
    assert_eq!(rvh.hash_maps[0].highest_priority(), 7);
    assert_eq!(rvh.hash_maps[1].highest_priority(), 3);

    assert!(rvh.remove_rule(&r41));
    assert_eq!(rvh.hash_maps[0].highest_priority(), 3);
    assert_eq!(rvh.hash_maps[1].highest_priority(), 1);
}

#[test]
fn test_add_rule_inserts_rule_into_correct_table() {
    let mut rvh = RVHClassifier::new(vec![
        vec![(0, 3), (0, 3)],
        vec![(3, 6), (0, 3)],
        vec![(0, 3), (3, 6)],
        vec![(3, 6), (3, 6)],
    ]);

    let r11 = Rule::new(vec![0b1, 0b10], vec![0b11, 0b1], 1);
    let r12 = Rule::new(vec![0b1, 0b10], vec![0b1, 0b11], 2);
    assert!(rvh.add_rule(r11));
    assert!(rvh.add_rule(r12));

    let r21 = Rule::new(vec![0b1, 0b10], vec![0b111, 0b1], 3);
    let r22 = Rule::new(vec![0b1, 0b10], vec![0b11_111, 0b11], 4);
    assert!(rvh.add_rule(r21));
    assert!(rvh.add_rule(r22));

    let r31 = Rule::new(vec![0b1, 0b10], vec![0b11, 0b111], 5);
    let r32 = Rule::new(vec![0b1, 0b10], vec![0b1, 0b11_111], 6);
    assert!(rvh.add_rule(r31));
    assert!(rvh.add_rule(r32));

    let r41 = Rule::new(vec![0b1, 0b10], vec![0b111, 0b11_111], 7);
    let r42 = Rule::new(vec![0b1, 0b10], vec![0b11_111, 0b111], 8);
    assert!(rvh.add_rule(r41));
    assert!(rvh.add_rule(r42));

    let prios: Vec<_> = rvh.hash_maps[0].priorities.iter().collect();
    assert_eq!(prios, vec![&7, &8]);

    let prios: Vec<_> = rvh.hash_maps[1].priorities.iter().collect();
    assert_eq!(prios, vec![&5, &6]);

    let prios: Vec<_> = rvh.hash_maps[2].priorities.iter().collect();
    assert_eq!(prios, vec![&3, &4]);

    let prios: Vec<_> = rvh.hash_maps[3].priorities.iter().collect();
    assert_eq!(prios, vec![&1, &2]);
}

#[test]
fn test_classifier_classifies_correctly() {
    let mut rvh = RVHClassifier::new(vec![vec![(0, 3)], vec![(3, 6)], vec![(6, 9)]]);

    let r11 = Rule::new(vec![0b11], vec![0b11], 1);
    let r12 = Rule::new(vec![0b1], vec![0b1], 3);
    rvh.add_rule(r11);
    rvh.add_rule(r12);

    let r21 = Rule::new(vec![0b100], vec![0b111], 4);
    let r22 = Rule::new(vec![0b101], vec![0b1_1111], 2);
    rvh.add_rule(r21);
    rvh.add_rule(r22);

    let r31 = Rule::new(vec![0b11_1001], vec![0b11_1111], 6);
    let r32 = Rule::new(vec![0b11_1100], vec![0b1111_1111], 5);
    rvh.add_rule(r31);
    rvh.add_rule(r32);

    let p31 = Packet::new(vec![0b11_1001]); // matches r12, r31
    let p32 = Packet::new(vec![0b11_1100]); // matches r21, r32

    let p12 = Packet::new(vec![0b00_101]); // matches r22, r12
    let p21 = Packet::new(vec![0b00_100]); // matches r21

    let p_none = Packet::new(vec![0b0]);

    assert_eq!(rvh.classify(&p31).expect("should match").priority(), 6);
    assert_eq!(rvh.classify(&p32).expect("should match").priority(), 5);
    assert_eq!(rvh.classify(&p12).expect("should match").priority(), 3);
    assert_eq!(rvh.classify(&p21).expect("should match").priority(), 4);
    assert!(rvh.classify(&p_none).is_none());
}

#[test]
fn test_duplicate_priority_rejected_and_bank_unchanged() {
    let mut rvh = RVHClassifier::new(vec![vec![(0, 3)], vec![(3, 6)]]);

    let r1 = Rule::new(vec![0b1], vec![0b1], 4);
    assert!(rvh.add_rule(r1));

    // same priority, same region: refused, nothing moves
    let r2 = Rule::new(vec![0b10], vec![0b11], 4);
    assert!(!rvh.add_rule(r2));

    assert_eq!(rvh.hash_maps[0].highest_priority(), 4);
    assert_eq!(rvh.hash_maps[1].highest_priority(), 0);
    assert_eq!(rvh.hash_maps[0].priorities.len(), 1);
}

#[test]
fn test_remove_rule_never_inserted() {
    let mut rvh = RVHClassifier::new(vec![vec![(0, 3)], vec![(3, 6)]]);

    let r1 = Rule::new(vec![0b1], vec![0b1], 4);
    assert!(rvh.add_rule(r1));

    let never = Rule::new(vec![0b10], vec![0b11], 7);
    assert!(!rvh.remove_rule(&never));
    assert_eq!(rvh.hash_maps[0].highest_priority(), 4);
}

#[test]
fn test_prefix_length_bounds_are_half_open() {
    let mut rvh = RVHClassifier::new(vec![vec![(1, 3)]]);

    // prefix length equal to the upper bound: rejected
    let at_high = Rule::new(vec![0b111], vec![0b111], 1);
    assert!(!rvh.add_rule(at_high));

    // prefix length equal to the lower bound: accepted
    let at_low = Rule::new(vec![0b1], vec![0b1], 2);
    assert!(rvh.add_rule(at_low));
}

#[test]
fn test_classify_on_empty_classifier() {
    let rvh = RVHClassifier::new(vec![vec![(0, 3)], vec![(3, 6)]]);
    let p = Packet::new(vec![0b1]);
    assert!(rvh.classify(&p).is_none());

    let bare = RVHClassifier::new(vec![]);
    let q = Packet::new(vec![]);
    assert!(bare.classify(&q).is_none());
}

#[test]
fn test_add_then_remove_restores_classification() {
    let mut rvh = RVHClassifier::new(vec![vec![(0, 3)], vec![(3, 6)]]);

    let r1 = Rule::new(vec![0b1], vec![0b1], 3);
    let r2 = Rule::new(vec![0b100], vec![0b111], 4);
    assert!(rvh.add_rule(r1));
    assert!(rvh.add_rule(r2));

    let p = Packet::new(vec![0b101]);
    assert_eq!(rvh.classify(&p).expect("should match").priority(), 3);

    let shadow = Rule::new(vec![0b101], vec![0b11111], 9);
    assert!(rvh.add_rule(shadow.clone()));
    assert_eq!(rvh.classify(&p).expect("should match").priority(), 9);

    assert!(rvh.remove_rule(&shadow));
    assert_eq!(rvh.classify(&p).expect("should match").priority(), 3);
    assert_eq!(rvh.hash_maps[0].highest_priority(), 4);
}
