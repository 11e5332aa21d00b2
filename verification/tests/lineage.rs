//! Lineage graph bounds: both directions of an edge, the depth an edge
//! implies, and that a refused edge costs a parent nothing.

use harpocrates_registry::{
    Digest, LineageError, LineageRecord, LineageRegistry, MAX_LINEAGE_DEPTH, MAX_LINEAGE_FANOUT,
};

// ---------------------------------------------------------------------------
// Helpers
// ---------------------------------------------------------------------------

fn bytes32(value: u8) -> Digest {
    [value; 32]
}

/// A parent set from a list of seed bytes.
fn parents(seeds: &[u8]) -> Vec<Digest> {
    let mut out = Vec::new();
    for seed in seeds.iter() {
        out.push(bytes32(*seed));
    }
    out
}

/// A single-parent vector built from an explicit digest.
fn one_parent(parent: &Digest) -> Vec<Digest> {
    vec![*parent]
}

fn actor() -> String {
    String::from("GACTOR")
}

/// A registry with one registered source proof, returning the registry, the
/// actor, and the digest of the registered evidence.
fn setup() -> (LineageRegistry, String, Digest) {
    let mut registry = LineageRegistry::new();
    let evidence = bytes32(0xE1);
    registry.register_source(evidence).unwrap();
    (registry, actor(), evidence)
}

fn register(
    registry: &mut LineageRegistry,
    actor: &str,
    parents: Vec<Digest>,
    transform_digest: Digest,
    transform: &str,
    output: Digest,
    depth: u32,
) -> Result<LineageRecord, LineageError> {
    registry.register_lineage(
        String::from(actor),
        parents,
        transform_digest,
        String::from(transform),
        output,
        depth,
    )
}

/// Record one derivative with a single parent, returning its depth.
fn derive(registry: &mut LineageRegistry, actor: &str, parent: &Digest, output: u8, depth: u32) -> u32 {
    let record = register(
        registry,
        actor,
        one_parent(parent),
        bytes32(output.wrapping_add(1)),
        "crop",
        bytes32(output),
        depth,
    )
    .unwrap();
    record.depth
}

// ---------------------------------------------------------------------------
// Positive paths
// ---------------------------------------------------------------------------

#[test]
fn registers_lineage_with_bounded_validation() {
    let mut registry = LineageRegistry::new();
    let actor = actor();
    let parent = bytes32(1);
    registry.register_source(parent).unwrap();

    let lineage = register(&mut registry, &actor, one_parent(&parent), bytes32(4), "crop", bytes32(5), 1)
        .unwrap();

    assert_eq!(lineage.output_digest, bytes32(5));
    assert_eq!(lineage.depth, 1);
    assert_eq!(lineage.actor, actor);
    assert_eq!(registry.get_lineage(&bytes32(5)).unwrap(), lineage);
    assert_eq!(registry.get_lineage_child_count(&parent), 1);
}

#[test]
fn accepts_a_parent_set_exactly_at_the_fanout_cap() {
    let (mut registry, actor, evidence) = setup();

    // One registered proof plus the siblings the cap allows.
    let mut seeds: Vec<u8> = vec![0xE1];
    for i in 1..MAX_LINEAGE_FANOUT {
        let extra: u8 = 0x20 + i as u8;
        registry.register_source(bytes32(extra.wrapping_add(2))).unwrap();
        seeds.push(extra.wrapping_add(2));
    }
    assert_eq!(seeds.len(), MAX_LINEAGE_FANOUT as usize);
    let parents = parents(&seeds);

    let record = register(&mut registry, &actor, parents, bytes32(0x30), "compose", bytes32(0x31), 1).unwrap();

    assert_eq!(record.parent_proof_ids.len(), MAX_LINEAGE_FANOUT as usize);
    assert_eq!(record.depth, 1);
    // Every distinct parent was charged exactly once.
    for seed in seeds.iter() {
        assert_eq!(registry.get_lineage_child_count(&bytes32(*seed)), 1);
    }
    assert_eq!(registry.get_lineage_child_count(&evidence), 1);
}

#[test]
fn derives_depth_from_the_deepest_parent() {
    let (mut registry, actor, evidence) = setup();

    // A shallow parent and a deeper one: the derivative sits one below the
    // deeper of the two.
    assert_eq!(derive(&mut registry, &actor, &evidence, 0x40, 1), 1);
    let deep = bytes32(0x40);
    assert_eq!(derive(&mut registry, &actor, &deep, 0x41, 2), 2);

    let mixed = vec![evidence, bytes32(0x41)];
    let record = register(&mut registry, &actor, mixed, bytes32(0x42), "compose", bytes32(0x43), 3).unwrap();
    assert_eq!(record.depth, 3);
}

// ---------------------------------------------------------------------------
// Fan-out: parents per derivative
// ---------------------------------------------------------------------------

#[test]
fn rejects_excessive_fanout() {
    let mut registry = LineageRegistry::new();
    let actor = actor();
    let parents = vec![bytes32(1), bytes32(2), bytes32(3), bytes32(4), bytes32(5)];

    let result = register(&mut registry, &actor, parents, bytes32(6), "compose", bytes32(7), 1);
    assert_eq!(result, Err(LineageError::FanoutExceeded));
}

#[test]
fn rejects_an_empty_parent_set() {
    let (mut registry, actor, _) = setup();

    let result = register(&mut registry, &actor, Vec::new(), bytes32(0x50), "crop", bytes32(0x51), 1);
    assert_eq!(result, Err(LineageError::InvalidParentSet));
}

#[test]
fn rejects_a_repeated_parent() {
    let (mut registry, actor, evidence) = setup();

    // Naming the same parent twice is one edge, not two, and is refused so the
    // fan-out cap always counts distinct parents.
    let result = register(&mut registry, &actor, parents(&[0xE1, 0xE1]), bytes32(0x52), "compose", bytes32(0x53), 1);
    assert_eq!(result, Err(LineageError::InvalidParentSet));
    let _ = evidence;
}

// ---------------------------------------------------------------------------
// Fan-out: derivatives per parent
// ---------------------------------------------------------------------------

#[test]
fn enforces_the_per_parent_fanout_cap() {
    let (mut registry, actor, evidence) = setup();

    for i in 0..MAX_LINEAGE_FANOUT {
        let output: u8 = 0x60 + i as u8;
        register(
            &mut registry,
            &actor,
            one_parent(&evidence),
            bytes32(output),
            "crop",
            bytes32(output.wrapping_add(1)),
            1,
        )
        .unwrap();
    }
    assert_eq!(registry.get_lineage_child_count(&evidence), MAX_LINEAGE_FANOUT);

    // One more derivative of the same parent is refused.
    let overflow = register(&mut registry, &actor, one_parent(&evidence), bytes32(0x7F), "crop", bytes32(0x80), 1);
    assert!(overflow.is_err());
    assert_eq!(overflow, Err(LineageError::FanoutExceeded));
    assert_eq!(registry.get_lineage_child_count(&evidence), MAX_LINEAGE_FANOUT);
}

#[test]
fn a_parent_budget_is_shared_by_every_derivative_that_names_it() {
    let (mut registry, actor, evidence) = setup();

    // A second parent that is already at its cap must not be able to ride along
    // with a parent that still has room.
    let sibling = bytes32(0x90);
    registry.register_source(sibling).unwrap();
    for i in 0..MAX_LINEAGE_FANOUT {
        let output: u8 = 0x93 + i as u8;
        register(
            &mut registry,
            &actor,
            one_parent(&sibling),
            bytes32(output),
            "crop",
            bytes32(output.wrapping_add(0x10)),
            1,
        )
        .unwrap();
    }

    let both = vec![evidence, sibling];
    let result = register(&mut registry, &actor, both, bytes32(0xA0), "compose", bytes32(0xA1), 1);
    assert!(result.is_err());

    // The saturated sibling aborted the edge, so the available parent was not
    // charged for a derivative that was never recorded.
    assert_eq!(registry.get_lineage_child_count(&evidence), 0);
    assert_eq!(registry.get_lineage_child_count(&sibling), MAX_LINEAGE_FANOUT);
}

#[test]
fn a_rejected_edge_does_not_spend_a_parent_budget() {
    let (mut registry, actor, evidence) = setup();

    // A repeated parent is rejected before any budget is charged.
    let repeated = register(&mut registry, &actor, parents(&[0xE1, 0xE1]), bytes32(0xB0), "compose", bytes32(0xB1), 1);
    assert!(repeated.is_err());
    assert_eq!(registry.get_lineage_child_count(&evidence), 0);

    // A forged depth is rejected the same way.
    let forged = register(&mut registry, &actor, one_parent(&evidence), bytes32(0xB2), "crop", bytes32(0xB3), 0);
    assert!(forged.is_err());
    assert_eq!(registry.get_lineage_child_count(&evidence), 0);

    // The full budget is still available afterwards.
    for i in 0..MAX_LINEAGE_FANOUT {
        let output: u8 = 0xB4 + i as u8;
        register(
            &mut registry,
            &actor,
            one_parent(&evidence),
            bytes32(output),
            "crop",
            bytes32(output.wrapping_add(0x20)),
            1,
        )
        .unwrap();
    }
    assert_eq!(registry.get_lineage_child_count(&evidence), MAX_LINEAGE_FANOUT);
}

// ---------------------------------------------------------------------------
// Depth
// ---------------------------------------------------------------------------

#[test]
fn rejects_a_derivative_beyond_the_depth_cap() {
    let (mut registry, actor, evidence) = setup();

    // evidence(0) -> 1 -> 2 -> 3 -> 4 is the deepest legal chain.
    let mut parent = evidence;
    for depth in 1..=MAX_LINEAGE_DEPTH {
        let output: u8 = 0xC0 + depth as u8;
        assert_eq!(derive(&mut registry, &actor, &parent, output, depth), depth);
        parent = bytes32(output);
    }

    // One more step would sit at MAX_LINEAGE_DEPTH + 1.
    let result = register(
        &mut registry,
        &actor,
        one_parent(&parent),
        bytes32(0xDF),
        "crop",
        bytes32(0xE0),
        MAX_LINEAGE_DEPTH + 1,
    );
    assert_eq!(result, Err(LineageError::DepthCapExceeded));
}

#[test]
fn rejects_a_forged_shallow_depth() {
    let (mut registry, actor, evidence) = setup();

    // Build a real two-level chain, then claim a derivative of the second level
    // is only one deep. The registry believes the graph, not the caller.
    assert_eq!(derive(&mut registry, &actor, &evidence, 0xD0, 1), 1);
    assert_eq!(derive(&mut registry, &actor, &bytes32(0xD0), 0xD1, 2), 2);

    let result = register(&mut registry, &actor, one_parent(&bytes32(0xD1)), bytes32(0xD2), "crop", bytes32(0xD3), 1);
    assert_eq!(result, Err(LineageError::DepthMismatch));
}

#[test]
fn rejects_an_overstated_depth() {
    let (mut registry, actor, evidence) = setup();

    let result = register(
        &mut registry,
        &actor,
        one_parent(&evidence),
        bytes32(0xD4),
        "crop",
        bytes32(0xD5),
        MAX_LINEAGE_DEPTH,
    );
    assert_eq!(result, Err(LineageError::DepthMismatch));
}

// ---------------------------------------------------------------------------
// Edge integrity
// ---------------------------------------------------------------------------

#[test]
fn rejects_self_referential_lineage() {
    let mut registry = LineageRegistry::new();
    let actor = actor();

    let result = register(&mut registry, &actor, one_parent(&bytes32(1)), bytes32(2), "crop", bytes32(1), 1);
    assert_eq!(result, Err(LineageError::SelfReferentialLineage));
}

#[test]
fn rejects_an_unknown_parent() {
    let (mut registry, actor, _) = setup();

    let result = register(&mut registry, &actor, parents(&[0xFA, 0xFB]), bytes32(0xFC), "compose", bytes32(0xFD), 1);
    assert_eq!(result, Err(LineageError::InvalidParentSet));
}

#[test]
fn rejects_registration_of_an_existing_output_digest() {
    let (mut registry, actor, evidence) = setup();

    let original = register(&mut registry, &actor, one_parent(&evidence), bytes32(0x10), "crop", bytes32(0x11), 1)
        .unwrap();

    // A second registration for the same output digest is refused, so a
    // recorded derivation cannot be rewritten by another actor. The parent here
    // is a real, unrelated artefact, so nothing but the duplicate-output guard
    // can reject this edge.
    let replayed = register(&mut registry, &actor, one_parent(&evidence), bytes32(0x12), "blur", bytes32(0x11), 1);
    assert!(replayed.is_err());

    assert_eq!(registry.get_lineage(&bytes32(0x11)).unwrap(), original);
    // The refused attempt did not create a second edge from the parent.
    assert_eq!(registry.get_lineage_child_count(&evidence), 1);
}

#[test]
fn a_derivative_is_itself_a_valid_parent() {
    let (mut registry, actor, evidence) = setup();

    register(&mut registry, &actor, one_parent(&evidence), bytes32(0x70), "crop", bytes32(0x71), 1).unwrap();

    let child = register(&mut registry, &actor, one_parent(&bytes32(0x71)), bytes32(0x72), "blur", bytes32(0x73), 2)
        .unwrap();

    assert_eq!(child.depth, 2);
    assert_eq!(registry.get_lineage_child_count(&bytes32(0x71)), 1);
    // The evidence keeps the one edge it was charged for.
    assert_eq!(registry.get_lineage_child_count(&evidence), 1);
}
