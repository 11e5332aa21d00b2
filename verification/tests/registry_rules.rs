//! The registry's rules on concrete values: the order in which checks
//! decide, what a read gives back, and the digest helpers.

use harpocrates_registry::{
    contains_digest, digests_equal, has_repeated_digest, Digest, LineageError, LineageRecord, LineageRegistry,
    MAX_LINEAGE_DEPTH, MAX_LINEAGE_FANOUT,
};

fn digest(value: u8) -> Digest {
    [value; 32]
}

fn record(
    registry: &mut LineageRegistry,
    parents: Vec<Digest>,
    output: u8,
    depth: u32,
) -> Result<LineageRecord, LineageError> {
    registry.register_lineage(
        String::from("GACTOR"),
        parents,
        digest(output.wrapping_add(1)),
        String::from("crop"),
        digest(output),
        depth,
    )
}

fn with_source(value: u8) -> LineageRegistry {
    let mut registry = LineageRegistry::new();
    registry.register_source(digest(value)).unwrap();
    registry
}

#[test]
fn the_caps_are_four() {
    assert_eq!(MAX_LINEAGE_FANOUT, 4);
    assert_eq!(MAX_LINEAGE_DEPTH, 4);
}

#[test]
fn a_source_is_recorded_once() {
    let mut registry = with_source(1);
    assert_eq!(registry.register_source(digest(1)), Err(LineageError::DigestAlreadyRecorded));
    assert_eq!(registry.register_source(digest(2)), Ok(()));
    assert_eq!(registry.get_lineage_child_count(&digest(1)), 0);
}

#[test]
fn an_output_may_not_be_registered_source_evidence() {
    let mut registry = with_source(1);
    registry.register_source(digest(2)).unwrap();
    assert_eq!(record(&mut registry, vec![digest(1)], 2, 1), Err(LineageError::DigestAlreadyRecorded));
    assert_eq!(registry.get_lineage_child_count(&digest(1)), 0);
    assert_eq!(registry.get_lineage(&digest(2)), None);
}

#[test]
fn a_derivative_cannot_become_source_evidence() {
    let mut registry = with_source(1);
    record(&mut registry, vec![digest(1)], 2, 1).unwrap();
    assert_eq!(registry.register_source(digest(2)), Err(LineageError::DigestAlreadyRecorded));
}

#[test]
fn the_record_is_read_back_as_written() {
    let mut registry = with_source(1);
    registry.register_source(digest(3)).unwrap();
    let written = registry
        .register_lineage(
            String::from("GWRITER"),
            vec![digest(3), digest(1)],
            digest(9),
            String::from("compose"),
            digest(7),
            1,
        )
        .unwrap();
    assert_eq!(written.actor, "GWRITER");
    assert_eq!(written.parent_proof_ids, vec![digest(3), digest(1)]);
    assert_eq!(written.transform_digest, digest(9));
    assert_eq!(written.transform, "compose");
    assert_eq!(written.output_digest, digest(7));
    assert_eq!(written.depth, 1);
    assert_eq!(registry.get_lineage(&digest(7)), Some(written.clone()));
    assert_eq!(written.duplicate(), written);
}

#[test]
fn unknown_digests_have_no_lineage_and_no_children() {
    let registry = with_source(1);
    assert_eq!(registry.get_lineage(&digest(1)), None);
    assert_eq!(registry.get_lineage(&digest(5)), None);
    assert_eq!(registry.get_lineage_child_count(&digest(5)), 0);
}

#[test]
fn too_many_parents_is_decided_before_self_reference() {
    let mut registry = LineageRegistry::new();
    let parents = vec![digest(1), digest(2), digest(3), digest(4), digest(6)];
    assert_eq!(record(&mut registry, parents, 6, 1), Err(LineageError::FanoutExceeded));
}

#[test]
fn self_reference_is_decided_before_repetition() {
    let mut registry = with_source(1);
    assert_eq!(record(&mut registry, vec![digest(1), digest(1)], 1, 1), Err(LineageError::SelfReferentialLineage));
}

#[test]
fn a_recorded_output_is_decided_before_unknown_parents() {
    let mut registry = with_source(1);
    assert_eq!(record(&mut registry, vec![digest(8)], 1, 1), Err(LineageError::DigestAlreadyRecorded));
}

#[test]
fn the_depth_cap_is_decided_before_the_claimed_depth() {
    let mut registry = with_source(0x10);
    let mut parent = 0x10u8;
    for depth in 1..=MAX_LINEAGE_DEPTH {
        let output: u8 = 0x10 + depth as u8;
        record(&mut registry, vec![digest(parent)], output, depth).unwrap();
        parent = output;
    }
    assert_eq!(record(&mut registry, vec![digest(parent)], 0x30, 1), Err(LineageError::DepthCapExceeded));
}

#[test]
fn the_claimed_depth_is_decided_before_a_spent_budget() {
    let mut registry = with_source(1);
    for i in 0..MAX_LINEAGE_FANOUT {
        record(&mut registry, vec![digest(1)], 0x40 + i as u8, 1).unwrap();
    }
    assert_eq!(record(&mut registry, vec![digest(1)], 0x50, 2), Err(LineageError::DepthMismatch));
    assert_eq!(record(&mut registry, vec![digest(1)], 0x50, 1), Err(LineageError::FanoutExceeded));
}

#[test]
fn depth_is_one_below_the_deepest_parent() {
    let mut registry = with_source(1);
    registry.register_source(digest(2)).unwrap();
    record(&mut registry, vec![digest(1)], 0x11, 1).unwrap();
    record(&mut registry, vec![digest(0x11)], 0x12, 2).unwrap();
    record(&mut registry, vec![digest(0x12)], 0x13, 3).unwrap();
    assert_eq!(record(&mut registry, vec![digest(2), digest(0x13), digest(0x11)], 0x20, 3), Err(LineageError::DepthMismatch));
    let child = record(&mut registry, vec![digest(2), digest(0x13), digest(0x11)], 0x20, 4).unwrap();
    assert_eq!(child.depth, 4);
    assert_eq!(registry.get_lineage_child_count(&digest(2)), 1);
    assert_eq!(registry.get_lineage_child_count(&digest(0x13)), 1);
    assert_eq!(registry.get_lineage_child_count(&digest(0x11)), 2);
    assert_eq!(registry.get_lineage_child_count(&digest(0x20)), 0);
}

#[test]
fn a_refused_edge_changes_nothing() {
    let mut registry = with_source(1);
    registry.register_source(digest(2)).unwrap();
    let kept = record(&mut registry, vec![digest(1)], 0x11, 1).unwrap();
    assert!(record(&mut registry, vec![digest(1), digest(9)], 0x12, 1).is_err());
    assert_eq!(registry.get_lineage_child_count(&digest(1)), 1);
    assert_eq!(registry.get_lineage_child_count(&digest(2)), 0);
    assert_eq!(registry.get_lineage(&digest(0x12)), None);
    assert_eq!(registry.get_lineage(&digest(0x11)), Some(kept));
}

#[test]
fn digest_helpers() {
    let mut a = digest(3);
    assert!(digests_equal(&a, &digest(3)));
    a[31] = 4;
    assert!(!digests_equal(&a, &digest(3)));
    let list = vec![digest(1), a, digest(2)];
    assert!(contains_digest(&list, &a));
    assert!(!contains_digest(&list, &digest(3)));
    assert!(!has_repeated_digest(&list));
    assert!(has_repeated_digest(&vec![digest(1), a, digest(1)]));
    assert!(!has_repeated_digest(&Vec::new()));
}
