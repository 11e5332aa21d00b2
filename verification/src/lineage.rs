use vstd::prelude::*;

use crate::digest::Digest;

verus! {

/// The most parents a derivative may name, and the most derivatives a single
/// parent may be charged for.
pub const MAX_LINEAGE_FANOUT: u32 = 4;

/// The deepest a derivative may sit below registered source evidence.
pub const MAX_LINEAGE_DEPTH: u32 = 4;

/// Why a lineage edge (or a source registration) was refused.
#[derive(Clone, Copy, Debug, PartialEq, Eq, Structural)]
pub enum LineageError {
    /// The parent set is empty, names a parent twice, or names a digest the
    /// registry has never recorded.
    InvalidParentSet,
    /// The derivative names its own output digest as a parent.
    SelfReferentialLineage,
    /// The derivative would sit deeper than `MAX_LINEAGE_DEPTH`.
    DepthCapExceeded,
    /// More than `MAX_LINEAGE_FANOUT` parents, or a parent whose budget of
    /// `MAX_LINEAGE_FANOUT` derivatives is already spent.
    FanoutExceeded,
    /// The caller's depth differs from the depth the parents imply.
    DepthMismatch,
    /// The digest is already recorded, as a source or as a derivative.
    DigestAlreadyRecorded,
}

/// One recorded derivation: an edge from its parents to its output.
#[derive(Clone, Debug, PartialEq, Eq)]
pub struct LineageRecord {
    /// Who registered the derivation.
    pub actor: String,
    /// The recorded evidence the derivative was made from, in the order given.
    pub parent_proof_ids: Vec<Digest>,
    /// The digest of the transformation's parameters.
    pub transform_digest: Digest,
    /// The name of the transformation (such as `crop` or `compose`).
    pub transform: String,
    /// The digest of the derivative itself.
    pub output_digest: Digest,
    /// One more than the depth of the deepest parent.
    pub depth: u32,
}

/// The mathematical value of a `LineageRecord`.
pub struct LineageRecordView {
    pub actor: Seq<char>,
    pub parent_proof_ids: Seq<Digest>,
    pub transform_digest: Digest,
    pub transform: Seq<char>,
    pub output_digest: Digest,
    pub depth: u32,
}

impl View for LineageRecord {
    type V = LineageRecordView;

    open spec fn view(&self) -> LineageRecordView {
        LineageRecordView {
            actor: self.actor@,
            parent_proof_ids: self.parent_proof_ids@,
            transform_digest: self.transform_digest,
            transform: self.transform@,
            output_digest: self.output_digest,
            depth: self.depth,
        }
    }
}

impl LineageRecord {
    /// A copy of the record with the same value.
    pub fn duplicate(&self) -> (copy: LineageRecord)
        ensures
            copy@ == self@,
    {
        let mut parents: Vec<Digest> = Vec::new();
        let mut i: usize = 0;
        while i < self.parent_proof_ids.len()
            invariant
                i <= self.parent_proof_ids.len(),
                parents@ == self.parent_proof_ids@.take(i as int),
            decreases self.parent_proof_ids.len() - i,
        {
            parents.push(self.parent_proof_ids[i]);
            i = i + 1;
            assert(parents@ =~= self.parent_proof_ids@.take(i as int));
        }
        assert(parents@ =~= self.parent_proof_ids@);
        LineageRecord {
            actor: self.actor.clone(),
            parent_proof_ids: parents,
            transform_digest: self.transform_digest,
            transform: self.transform.clone(),
            output_digest: self.output_digest,
            depth: self.depth,
        }
    }
}

} // verus!
