use argus::reorg::{BlockHeader, Reorg, ReorgDetector};

fn hash(byte: u8) -> [u8; 32] {
    [byte; 32]
}

fn header(number: u64, hash: [u8; 32], parent_hash: [u8; 32]) -> BlockHeader {
    BlockHeader { number, hash, parent_hash }
}

#[test]
fn first_observed_block_seeds_without_detection() {
    let mut detector = ReorgDetector::default();
    assert!(detector.observe(&header(100, hash(1), hash(0))).is_none());
}

#[test]
fn continuous_chain_produces_no_detections() {
    let mut detector = ReorgDetector::default();
    assert!(detector.observe(&header(100, hash(1), hash(0))).is_none());
    assert!(detector.observe(&header(101, hash(2), hash(1))).is_none());
    assert!(detector.observe(&header(102, hash(3), hash(2))).is_none());
}

#[test]
fn parent_hash_mismatch_is_detected_with_details() {
    let mut detector = ReorgDetector::default();
    detector.observe(&header(100, hash(1), hash(0)));

    let reorg = detector.observe(&header(101, hash(3), hash(2))).unwrap();

    assert_eq!(
        reorg,
        Reorg {
            block_number: 101,
            parent_block_number: 100,
            expected_parent_hash: hash(1),
            actual_parent_hash: hash(2),
        }
    );
}

#[test]
fn number_gap_advances_tip_without_detection() {
    let mut detector = ReorgDetector::default();
    detector.observe(&header(100, hash(1), hash(0)));

    assert!(detector.observe(&header(105, hash(2), hash(9))).is_none());
    assert!(detector.observe(&header(106, hash(3), hash(2))).is_none());
}

#[test]
fn seeded_tip_checks_the_first_observed_block() {
    let mut resumed = ReorgDetector::seeded(Some((100, hash(1))));
    assert!(resumed.observe(&header(101, hash(2), hash(1))).is_none());
    assert!(resumed.observe(&header(102, hash(4), hash(3))).is_some());
}

#[test]
fn seeded_tip_reports_a_mismatch_on_the_first_block() {
    let mut resumed = ReorgDetector::seeded(Some((100, hash(1))));
    let reorg = resumed.observe(&header(101, hash(2), hash(7))).unwrap();
    assert_eq!(reorg.block_number, 101);
    assert_eq!(reorg.parent_block_number, 100);
    assert_eq!(reorg.expected_parent_hash, hash(1));
    assert_eq!(reorg.actual_parent_hash, hash(7));
}

#[test]
fn seeded_with_nothing_seeds_on_first_block() {
    let mut detector = ReorgDetector::seeded(None);
    assert!(detector.observe(&header(5, hash(5), hash(99))).is_none());
    assert!(detector.observe(&header(6, hash(6), hash(98))).is_some());
}

#[test]
fn same_number_or_going_back_is_not_checked() {
    let mut detector = ReorgDetector::default();
    detector.observe(&header(100, hash(1), hash(0)));
    // A different block at the same height, then an older one: neither is the next block.
    assert!(detector.observe(&header(100, hash(8), hash(9))).is_none());
    assert!(detector.observe(&header(90, hash(7), hash(6))).is_none());
    // The tip followed the last header: block 91 must extend hash(7).
    assert!(detector.observe(&header(91, hash(5), hash(7))).is_none());
    assert!(detector.observe(&header(92, hash(4), hash(3))).is_some());
}

#[test]
fn tip_at_the_largest_block_number_has_no_successor() {
    let mut detector = ReorgDetector::seeded(Some((u64::MAX, hash(1))));
    assert!(detector.observe(&header(0, hash(2), hash(3))).is_none());
}

#[test]
fn a_single_differing_byte_is_a_mismatch() {
    let mut parent = hash(1);
    parent[31] = 2;
    let mut detector = ReorgDetector::seeded(Some((7, hash(1))));
    assert!(detector.observe(&header(8, hash(2), parent)).is_some());
}
