use ndn_face_wireless::wireless::{
    select_for, BearerInfo, BearerKind, BroadcastAllBearers, Dedup, NameReachClassifier,
    ReachClass, ReachClassPolicy, SendOutcome, DEDUP_CAP,
};

fn wifi_and_ble() -> Vec<BearerInfo> {
    vec![
        BearerInfo { kind: BearerKind::Wifi, mtu: 2000, range_rank: 1 },
        BearerInfo { kind: BearerKind::Ble, mtu: 200, range_rank: 3 },
    ]
}

#[test]
fn broadcast_all_bearers_delivers_once_despite_two_paths() {
    assert_eq!(BroadcastAllBearers.select(b"/x", &wifi_and_ble()).as_slice(), [0, 1]);
    let mut d = Dedup::new(DEDUP_CAP);
    assert!(!d.is_dup(b"/ndn/obj hello"), "the first copy is delivered");
    assert!(d.is_dup(b"/ndn/obj hello"), "the copy via the other bearer is not");
    assert!(!d.is_dup(b"/ndn/obj other"));
}

#[test]
fn reach_class_policy_selects_the_intended_bearer() {
    let policy = ReachClassPolicy {
        classify: |w: &[u8]| match w.first() {
            Some(b'R') => ReachClass::Robust,
            Some(b'T') => ReachClass::Throughput,
            _ => ReachClass::Redundant,
        },
    };
    let bearers = wifi_and_ble();
    assert_eq!(policy.select(b"R-far", &bearers).as_slice(), [1], "Robust rides the long-reach bearer");
    assert_eq!(policy.select(b"T-fast", &bearers).as_slice(), [0], "Throughput the high-MTU one");
    assert_eq!(policy.select(b"other", &bearers).as_slice(), [0, 1]);
    assert!(policy.select(b"R", &vec![]).is_empty());
}

#[test]
fn the_last_of_equal_bearers_is_taken() {
    let same = BearerInfo { kind: BearerKind::LoRa, mtu: 250, range_rank: 7 };
    let bearers = vec![same, same, BearerInfo { range_rank: 2, mtu: 9, ..same }];
    assert_eq!(select_for(ReachClass::Robust, &bearers).as_slice(), [1]);
    assert_eq!(select_for(ReachClass::Throughput, &bearers).as_slice(), [1]);
    assert_eq!(select_for(ReachClass::Redundant, &bearers).as_slice(), [0, 1, 2]);
    assert!(select_for(ReachClass::Robust, &vec![]).is_empty());
}

#[test]
fn name_reach_classifier_maps_names_to_classes() {
    let clf = NameReachClassifier::new(ReachClass::Redundant)
        .rule(b"/emergency".to_vec(), ReachClass::Robust)
        .rule(b"/video".to_vec(), ReachClass::Throughput);
    assert_eq!(clf.classify(Some(b"/emergency/fire/1")), ReachClass::Robust);
    assert_eq!(clf.classify(Some(b"/video/stream/9")), ReachClass::Throughput);
    assert_eq!(clf.classify(Some(b"/misc/x")), ReachClass::Redundant, "unmatched → default");
    assert_eq!(clf.classify(Some(b"/videos/x")), ReachClass::Redundant, "whole components");
    assert_eq!(clf.classify(None), ReachClass::Redundant);
}

#[test]
fn a_rule_for_the_root_covers_every_name() {
    let clf = NameReachClassifier::new(ReachClass::Throughput)
        .rule(b"/".to_vec(), ReachClass::Robust)
        .rule(b"/a".to_vec(), ReachClass::Redundant);
    assert_eq!(clf.classify(Some(b"/b/c")), ReachClass::Robust);
    assert_eq!(clf.classify(Some(b"/a/c")), ReachClass::Redundant, "a longer rule wins");
    assert_eq!(clf.classify(None), ReachClass::Throughput);
}

#[test]
fn a_selection_holds_more_than_fits_inline() {
    let one = BearerInfo { kind: BearerKind::Other, mtu: 1, range_rank: 1 };
    let sel = BroadcastAllBearers.select(b"/x", &vec![one; 5]);
    assert_eq!(sel.as_slice(), [0, 1, 2, 3, 4]);
    assert!(!sel.is_empty());
}

#[test]
fn the_longest_rule_counts() {
    let clf = NameReachClassifier::new(ReachClass::Redundant)
        .rule(b"/a".to_vec(), ReachClass::Robust)
        .rule(b"/a/b".to_vec(), ReachClass::Throughput)
        .rule(b"/a".to_vec(), ReachClass::Redundant);
    assert_eq!(clf.classify(Some(b"/a/b/c")), ReachClass::Throughput);
    assert_eq!(clf.classify(Some(b"/a/x")), ReachClass::Robust, "the earlier of two equals");
}

#[test]
fn only_the_oldest_packet_is_forgotten() {
    let mut d = Dedup::new(2);
    assert!(!d.is_dup(b"one"));
    assert!(!d.is_dup(b"two"));
    assert!(d.is_dup(b"one"));
    assert!(!d.is_dup(b"three"));
    assert!(d.is_dup(b"two"));
    assert!(d.is_dup(b"three"));
    assert!(!d.is_dup(b"one"), "it gave way to the third");
}

#[test]
fn the_last_failure_is_the_answer() {
    let mut s: SendOutcome<u8> = SendOutcome::new();
    s.note(Err(1));
    s.note(Ok(()));
    s.note(Err(2));
    s.note(Ok(()));
    assert_eq!(s.finish(), Err(2));
    let mut s: SendOutcome<u8> = SendOutcome::new();
    s.note(Ok(()));
    assert_eq!(s.finish(), Ok(()));
    assert_eq!(SendOutcome::<u8>::new().finish(), Ok(()));
}
