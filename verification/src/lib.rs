//! A bounded lineage graph over registered evidence.
//!
//! Every digest the registry knows is either a registered source (depth 0)
//! or the output of a recorded derivation. A derivation names between one
//! and `MAX_LINEAGE_FANOUT` distinct, already recorded parents; its depth is
//! derived from the deepest parent and capped at `MAX_LINEAGE_DEPTH`; every
//! parent is charged for at most `MAX_LINEAGE_FANOUT` derivatives; and a
//! refused derivation changes nothing.

mod digest;
mod lineage;
mod model;
mod registry;

pub use digest::{contains_digest, digests_equal, has_repeated_digest, Digest};
pub use lineage::{LineageError, LineageRecord, LineageRecordView, MAX_LINEAGE_DEPTH, MAX_LINEAGE_FANOUT};
pub use model::{
    lemma_budget_counts_derivatives, lemma_deepest_parent_is_greatest, lemma_derived_depth_is_one_below_deepest,
    lemma_empty_is_consistent, lemma_every_refusal_is_justified, lemma_refusal_is_exactly_an_invalid_edge, lemma_lineage_keeps_consistency,
    lemma_parents_are_shallower, lemma_recorded_lineage_is_read_back, lemma_records_are_never_rewritten,
    lemma_source_keeps_consistency, names_parent, RegistryView, Standing,
};
pub use registry::LineageRegistry;
