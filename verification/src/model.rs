use vstd::prelude::*;

use crate::digest::Digest;
use crate::lineage::{LineageError, LineageRecordView, MAX_LINEAGE_DEPTH, MAX_LINEAGE_FANOUT};

verus! {

/// Where a recorded digest stands in the lineage graph.
#[derive(Clone, Copy, Debug, PartialEq, Eq, Structural)]
pub struct Standing {
    /// 0 for registered source evidence, otherwise the depth of the derivation.
    pub depth: u32,
    /// How many recorded derivatives name this digest as a parent.
    pub children: u32,
}

/// The abstract state of a lineage registry.
pub struct RegistryView {
    /// Every digest the registry has recorded, sources and derivatives alike.
    pub standing: Map<Digest, Standing>,
    /// Every recorded derivation, in the order it was recorded.
    pub derivations: Seq<LineageRecordView>,
}

/// Whether a derivation names `d` among its parents.
pub open spec fn names_parent(d: Digest) -> spec_fn(LineageRecordView) -> bool {
    |r: LineageRecordView| r.parent_proof_ids.contains(d)
}

impl RegistryView {
    /// The registry that has recorded nothing.
    pub open spec fn empty() -> RegistryView {
        RegistryView { standing: Map::empty(), derivations: Seq::empty() }
    }

    pub open spec fn is_recorded(self, d: Digest) -> bool {
        self.standing.contains_key(d)
    }

    /// The number of recorded derivations that name `d` as a parent.
    pub open spec fn derivatives_of(self, d: Digest) -> nat {
        self.derivations.filter(names_parent(d)).len()
    }

    /// The derivatives charged to `d`; 0 for a digest never recorded.
    pub open spec fn child_count(self, d: Digest) -> nat {
        if self.is_recorded(d) {
            self.standing[d].children as nat
        } else {
            0
        }
    }

    /// The greatest depth among `parents` (0 for no parents).
    pub open spec fn deepest_parent(self, parents: Seq<Digest>) -> nat
        decreases parents.len(),
    {
        if parents.len() == 0 {
            0
        } else {
            let rest: nat = self.deepest_parent(parents.drop_last());
            let last: nat = self.standing[parents.last()].depth as nat;
            if rest < last {
                last
            } else {
                rest
            }
        }
    }

    /// The depth a derivative of `parents` sits at: one below its deepest parent.
    pub open spec fn derived_depth(self, parents: Seq<Digest>) -> nat {
        self.deepest_parent(parents) + 1
    }

    /// The recorded derivation whose output is `d`, if there is one.
    pub open spec fn lineage_of(self, d: Digest) -> Option<LineageRecordView> {
        if exists|i: int| 0 <= i < self.derivations.len() && #[trigger] self.derivations[i].output_digest == d {
            Some(
                self.derivations[choose|i: int|
                    0 <= i < self.derivations.len() && #[trigger] self.derivations[i].output_digest == d],
            )
        } else {
            None
        }
    }

    /// Why an edge from `parents` to `output`, claimed to sit at
    /// `claimed_depth`, is refused; `None` when it is accepted. The checks
    /// are made in this order, and the first that fails decides.
    pub open spec fn lineage_refusal(
        self,
        parents: Seq<Digest>,
        output: Digest,
        claimed_depth: u32,
    ) -> Option<LineageError> {
        if parents.len() == 0 {
            Some(LineageError::InvalidParentSet)
        } else if parents.len() > MAX_LINEAGE_FANOUT {
            Some(LineageError::FanoutExceeded)
        } else if parents.contains(output) {
            Some(LineageError::SelfReferentialLineage)
        } else if !parents.no_duplicates() {
            Some(LineageError::InvalidParentSet)
        } else if self.is_recorded(output) {
            Some(LineageError::DigestAlreadyRecorded)
        } else if exists|i: int| 0 <= i < parents.len() && !self.is_recorded(#[trigger] parents[i]) {
            Some(LineageError::InvalidParentSet)
        } else if self.derived_depth(parents) > MAX_LINEAGE_DEPTH {
            Some(LineageError::DepthCapExceeded)
        } else if claimed_depth != self.derived_depth(parents) {
            Some(LineageError::DepthMismatch)
        } else if exists|i: int|
            0 <= i < parents.len() && self.standing[#[trigger] parents[i]].children >= MAX_LINEAGE_FANOUT {
            Some(LineageError::FanoutExceeded)
        } else {
            None
        }
    }

    /// The registry after recording the derivation `r`: its output becomes
    /// recorded evidence with no children, and each of its parents is charged
    /// one derivative.
    pub open spec fn with_lineage(self, r: LineageRecordView) -> RegistryView {
        RegistryView {
            standing: Map::new(
                |d: Digest| self.standing.contains_key(d) || d == r.output_digest,
                |d: Digest|
                    if d == r.output_digest {
                        Standing { depth: r.depth, children: 0 }
                    } else if r.parent_proof_ids.contains(d) {
                        Standing {
                            depth: self.standing[d].depth,
                            children: (self.standing[d].children + 1) as u32,
                        }
                    } else {
                        self.standing[d]
                    },
            ),
            derivations: self.derivations.push(r),
        }
    }

    /// The registry after recording `d` as source evidence.
    pub open spec fn with_source(self, d: Digest) -> RegistryView {
        RegistryView {
            standing: self.standing.insert(d, Standing { depth: 0, children: 0 }),
            derivations: self.derivations,
        }
    }

    /// Whether an edge from `parents` to `output` at `claimed_depth` is one
    /// the registry must accept: one to `MAX_LINEAGE_FANOUT` distinct,
    /// recorded parents, none of them the output; a new output; every parent
    /// below its own budget of derivatives; and a claimed depth one below the
    /// deepest parent, within the cap.
    pub open spec fn accepts_edge(self, parents: Seq<Digest>, output: Digest, claimed_depth: u32) -> bool {
        &&& 0 < parents.len() <= MAX_LINEAGE_FANOUT
        &&& parents.no_duplicates()
        &&& !parents.contains(output)
        &&& !self.is_recorded(output)
        &&& forall|k: int| 0 <= k < parents.len() ==> self.is_recorded(#[trigger] parents[k])
        &&& forall|k: int|
            0 <= k < parents.len() ==> self.standing[#[trigger] parents[k]].children < MAX_LINEAGE_FANOUT
        &&& forall|k: int| 0 <= k < parents.len() ==> self.standing[#[trigger] parents[k]].depth < claimed_depth
        &&& exists|k: int| 0 <= k < parents.len() && self.standing[#[trigger] parents[k]].depth + 1 == claimed_depth
        &&& claimed_depth <= MAX_LINEAGE_DEPTH
    }

    /// What each refusal reason means about the edge, whatever order the
    /// checks are made in.
    pub open spec fn refusal_is_justified(
        self,
        reason: LineageError,
        parents: Seq<Digest>,
        output: Digest,
        claimed_depth: u32,
    ) -> bool {
        match reason {
            LineageError::InvalidParentSet => {
                ||| parents.len() == 0
                ||| !parents.no_duplicates()
                ||| exists|k: int| 0 <= k < parents.len() && !self.is_recorded(#[trigger] parents[k])
            },
            LineageError::SelfReferentialLineage => parents.contains(output),
            LineageError::DigestAlreadyRecorded => self.is_recorded(output),
            LineageError::FanoutExceeded => {
                ||| parents.len() > MAX_LINEAGE_FANOUT
                ||| exists|k: int|
                    0 <= k < parents.len() && self.is_recorded(#[trigger] parents[k])
                        && self.standing[parents[k]].children >= MAX_LINEAGE_FANOUT
            },
            LineageError::DepthCapExceeded => exists|k: int|
                0 <= k < parents.len() && self.is_recorded(#[trigger] parents[k])
                    && self.standing[parents[k]].depth + 1 > MAX_LINEAGE_DEPTH,
            LineageError::DepthMismatch => !({
                &&& forall|k: int| 0 <= k < parents.len() ==> self.standing[#[trigger] parents[k]].depth < claimed_depth
                &&& exists|k: int|
                    0 <= k < parents.len() && self.standing[#[trigger] parents[k]].depth + 1 == claimed_depth
            }),
        }
    }

    /// What a recorded derivation satisfies in this registry.
    pub open spec fn derivation_is_sound(self, r: LineageRecordView) -> bool {
        &&& 0 < r.parent_proof_ids.len() <= MAX_LINEAGE_FANOUT
        &&& r.parent_proof_ids.no_duplicates()
        &&& !r.parent_proof_ids.contains(r.output_digest)
        &&& forall|i: int|
            0 <= i < r.parent_proof_ids.len() ==> self.is_recorded(#[trigger] r.parent_proof_ids[i])
        &&& r.depth == self.derived_depth(r.parent_proof_ids)
        &&& r.depth <= MAX_LINEAGE_DEPTH
        &&& self.is_recorded(r.output_digest)
        &&& self.standing[r.output_digest].depth == r.depth
    }

    /// The invariant every reachable registry keeps.
    pub open spec fn consistent(self) -> bool {
        &&& forall|d: Digest| #[trigger]
            self.standing.contains_key(d) ==> self.standing[d].depth <= MAX_LINEAGE_DEPTH
        &&& forall|d: Digest| #[trigger]
            self.standing.contains_key(d) ==> self.standing[d].children <= MAX_LINEAGE_FANOUT
        &&& forall|d: Digest| #[trigger]
            self.standing.contains_key(d) ==> self.standing[d].children == self.derivatives_of(d)
        &&& forall|i: int, j: int|
            0 <= i < j < self.derivations.len() ==> #[trigger] self.derivations[i].output_digest
                != #[trigger] self.derivations[j].output_digest
        &&& forall|i: int|
            0 <= i < self.derivations.len() ==> self.derivation_is_sound(#[trigger] self.derivations[i])
        &&& forall|d: Digest| #[trigger]
            self.standing.contains_key(d) && self.lineage_of(d) is None ==> self.standing[d].depth == 0
    }
}

// ---------------------------------------------------------------------------
// Supporting lemmas
// ---------------------------------------------------------------------------

/// The deepest parent only depends on the depths of the parents.
proof fn lemma_deepest_parent_depends_on_depths(a: RegistryView, b: RegistryView, parents: Seq<Digest>)
    requires
        forall|i: int|
            0 <= i < parents.len() ==> a.standing[#[trigger] parents[i]].depth == b.standing[parents[i]].depth,
    ensures
        a.deepest_parent(parents) == b.deepest_parent(parents),
    decreases parents.len(),
{
    if parents.len() > 0 {
        let rest = parents.drop_last();
        assert forall|i: int| 0 <= i < rest.len() implies a.standing[#[trigger] rest[i]].depth
            == b.standing[rest[i]].depth by {
            assert(rest[i] == parents[i]);
        }
        lemma_deepest_parent_depends_on_depths(a, b, rest);
        assert(parents.last() == parents[parents.len() - 1]);
    }
}

/// Every parent is at most as deep as the deepest parent.
proof fn lemma_parent_within_deepest(v: RegistryView, parents: Seq<Digest>, k: int)
    requires
        0 <= k < parents.len(),
    ensures
        v.standing[parents[k]].depth <= v.deepest_parent(parents),
    decreases parents.len(),
{
    if k < parents.len() - 1 {
        lemma_parent_within_deepest(v, parents.drop_last(), k);
        assert(parents.drop_last()[k] == parents[k]);
    }
}

/// No recorded derivation names a digest that is not recorded.
proof fn lemma_unrecorded_has_no_derivatives(v: RegistryView, d: Digest)
    requires
        v.consistent(),
        !v.is_recorded(d),
    ensures
        v.derivatives_of(d) == 0,
{
    assert forall|i: int| 0 <= i < v.derivations.len() implies !names_parent(d)(
        #[trigger] v.derivations[i],
    ) by {
        let r = v.derivations[i];
        assert(v.derivation_is_sound(r));
        if r.parent_proof_ids.contains(d) {
            let k = choose|k: int| 0 <= k < r.parent_proof_ids.len() && r.parent_proof_ids[k] == d;
            assert(v.is_recorded(r.parent_proof_ids[k]));
        }
    }
    v.derivations.lemma_all_neg_filter_empty(names_parent(d));
}

/// A recorded derivation's output is recorded evidence.
proof fn lemma_outputs_are_recorded(v: RegistryView, i: int)
    requires
        v.consistent(),
        0 <= i < v.derivations.len(),
    ensures
        v.is_recorded(v.derivations[i].output_digest),
{
    assert(v.derivation_is_sound(v.derivations[i]));
}

// ---------------------------------------------------------------------------
// Laws
// ---------------------------------------------------------------------------

/// The deepest parent is the greatest depth among the parents: every parent
/// is at most that deep, and some parent is exactly that deep.
pub proof fn lemma_deepest_parent_is_greatest(v: RegistryView, parents: Seq<Digest>)
    requires
        parents.len() > 0,
    ensures
        forall|k: int| 0 <= k < parents.len() ==> v.standing[#[trigger] parents[k]].depth <= v.deepest_parent(parents),
        exists|k: int| 0 <= k < parents.len() && v.standing[#[trigger] parents[k]].depth == v.deepest_parent(parents),
    decreases parents.len(),
{
    assert forall|k: int| 0 <= k < parents.len() implies v.standing[#[trigger] parents[k]].depth <= v.deepest_parent(
        parents,
    ) by {
        lemma_parent_within_deepest(v, parents, k);
    }
    let last: int = parents.len() - 1;
    if parents.len() == 1 {
        assert(parents.drop_last().len() == 0);
        assert(v.deepest_parent(parents.drop_last()) == 0);
        assert(parents.last() == parents[last]);
        assert(v.standing[parents[last]].depth == v.deepest_parent(parents));
    } else {
        let rest = parents.drop_last();
        lemma_deepest_parent_is_greatest(v, rest);
        assert(parents.last() == parents[last]);
        if v.standing[parents[last]].depth == v.deepest_parent(parents) {
        } else {
            let k = choose|k: int| 0 <= k < rest.len() && v.standing[#[trigger] rest[k]].depth == v.deepest_parent(rest);
            assert(rest[k] == parents[k]);
            assert(v.standing[parents[k]].depth == v.deepest_parent(parents));
        }
    }
}

/// A derivative sits exactly one below its deepest parent: deeper than every
/// parent, and one below some parent.
pub proof fn lemma_derived_depth_is_one_below_deepest(v: RegistryView, parents: Seq<Digest>)
    requires
        parents.len() > 0,
    ensures
        forall|k: int| 0 <= k < parents.len() ==> v.standing[#[trigger] parents[k]].depth < v.derived_depth(parents),
        exists|k: int| 0 <= k < parents.len() && v.standing[#[trigger] parents[k]].depth + 1 == v.derived_depth(parents),
{
    lemma_deepest_parent_is_greatest(v, parents);
}

/// An edge is accepted exactly when it is one the registry must accept:
/// the refusal rules refuse nothing beyond a bad parent set, a
/// self-reference, a recorded output, a parent whose own budget is spent, or
/// a depth that is not one below the deepest parent or is above the cap.
pub proof fn lemma_refusal_is_exactly_an_invalid_edge(
    v: RegistryView,
    parents: Seq<Digest>,
    output: Digest,
    claimed_depth: u32,
)
    ensures
        (v.lineage_refusal(parents, output, claimed_depth) is None) == v.accepts_edge(parents, output, claimed_depth),
{
    if parents.len() > 0 {
        lemma_derived_depth_is_one_below_deepest(v, parents);
        let derived = v.derived_depth(parents);
        if v.accepts_edge(parents, output, claimed_depth) {
            let k1 = choose|k: int| 0 <= k < parents.len() && v.standing[#[trigger] parents[k]].depth + 1 == derived;
            let k2 = choose|k: int| 0 <= k < parents.len() && v.standing[#[trigger] parents[k]].depth + 1 == claimed_depth;
            assert(v.standing[parents[k1]].depth < claimed_depth);
            assert(v.standing[parents[k2]].depth < derived);
            assert(derived == claimed_depth);
            assert(!(exists|i: int| 0 <= i < parents.len() && !v.is_recorded(#[trigger] parents[i])));
            assert(!(exists|i: int|
                0 <= i < parents.len() && v.standing[#[trigger] parents[i]].children >= MAX_LINEAGE_FANOUT));
        }
        if v.lineage_refusal(parents, output, claimed_depth) is None {
            assert forall|k: int| 0 <= k < parents.len() implies v.is_recorded(#[trigger] parents[k]) by {}
            assert forall|k: int| 0 <= k < parents.len() implies v.standing[#[trigger] parents[k]].children
                < MAX_LINEAGE_FANOUT by {}
        }
    }
}

/// Every refusal is justified by what its reason names: a bad parent set,
/// a self-reference, a recorded output, too many parents or a single parent
/// whose own budget is spent, a derivative that would sit below the cap, or
/// a claimed depth other than one below the deepest parent.
pub proof fn lemma_every_refusal_is_justified(
    v: RegistryView,
    parents: Seq<Digest>,
    output: Digest,
    claimed_depth: u32,
)
    ensures
        v.lineage_refusal(parents, output, claimed_depth) matches Some(reason) ==> v.refusal_is_justified(
            reason,
            parents,
            output,
            claimed_depth,
        ),
{
    if parents.len() > 0 {
        lemma_derived_depth_is_one_below_deepest(v, parents);
        let derived = v.derived_depth(parents);
        let r = v.lineage_refusal(parents, output, claimed_depth);
        if r == Some(LineageError::DepthCapExceeded) {
            let k = choose|k: int| 0 <= k < parents.len() && v.standing[#[trigger] parents[k]].depth + 1 == derived;
            assert(v.is_recorded(parents[k]));
        }
        if r == Some(LineageError::DepthMismatch) {
            if forall|k: int| 0 <= k < parents.len() ==> v.standing[#[trigger] parents[k]].depth < claimed_depth {
                if exists|k: int| 0 <= k < parents.len() && v.standing[#[trigger] parents[k]].depth + 1 == claimed_depth {
                    let k1 = choose|k: int| 0 <= k < parents.len() && v.standing[#[trigger] parents[k]].depth + 1 == derived;
                    let k2 = choose|k: int|
                        0 <= k < parents.len() && v.standing[#[trigger] parents[k]].depth + 1 == claimed_depth;
                    assert(v.standing[parents[k1]].depth < claimed_depth);
                    assert(v.standing[parents[k2]].depth < derived);
                }
            }
        }
        if r == Some(LineageError::FanoutExceeded) && parents.len() <= MAX_LINEAGE_FANOUT {
            let k = choose|k: int|
                0 <= k < parents.len() && v.standing[#[trigger] parents[k]].children >= MAX_LINEAGE_FANOUT;
            assert(v.is_recorded(parents[k]));
        }
    }
}

/// The empty registry is consistent.
pub proof fn lemma_empty_is_consistent()
    ensures
        RegistryView::empty().consistent(),
{
    let v = RegistryView::empty();
    assert forall|d: Digest| #[trigger] v.standing.contains_key(d) implies v.standing[d].children
        == v.derivatives_of(d) by {}
}

/// Recording new source evidence keeps the registry consistent.
pub proof fn lemma_source_keeps_consistency(v: RegistryView, d: Digest)
    requires
        v.consistent(),
        !v.is_recorded(d),
    ensures
        v.with_source(d).consistent(),
{
    let w = v.with_source(d);
    lemma_unrecorded_has_no_derivatives(v, d);
    assert forall|x: Digest| #[trigger] w.standing.contains_key(x) implies w.standing[x].children
        == w.derivatives_of(x) by {
        if x != d {
            assert(v.standing.contains_key(x));
        }
    }
    assert forall|i: int| 0 <= i < w.derivations.len() implies w.derivation_is_sound(
        #[trigger] w.derivations[i],
    ) by {
        let r = v.derivations[i];
        assert(v.derivation_is_sound(r));
        assert forall|k: int| 0 <= k < r.parent_proof_ids.len() implies w.standing[
            #[trigger] r.parent_proof_ids[k]
        ].depth == v.standing[r.parent_proof_ids[k]].depth by {
            assert(v.is_recorded(r.parent_proof_ids[k]));
        }
        lemma_deepest_parent_depends_on_depths(w, v, r.parent_proof_ids);
    }
    assert forall|x: Digest| #[trigger] w.standing.contains_key(x) && w.lineage_of(x) is None implies w.standing[x].depth
        == 0 by {
        if x != d {
            assert(v.standing.contains_key(x));
            assert(v.lineage_of(x) == w.lineage_of(x));
        }
    }
}

/// Recording an accepted derivation keeps the registry consistent: depths
/// stay derived from the parents and under the cap, every parent's charge is
/// the number of derivatives that name it and stays within its budget, and
/// outputs stay distinct.
pub proof fn lemma_lineage_keeps_consistency(v: RegistryView, r: LineageRecordView)
    requires
        v.consistent(),
        v.lineage_refusal(r.parent_proof_ids, r.output_digest, r.depth) is None,
    ensures
        v.with_lineage(r).consistent(),
{
    let w = v.with_lineage(r);
    let parents = r.parent_proof_ids;
    let out = r.output_digest;
    lemma_unrecorded_has_no_derivatives(v, out);
    assert forall|i: int| 0 <= i < parents.len() implies v.is_recorded(#[trigger] parents[i]) by {}
    assert forall|x: Digest| #[trigger] w.standing.contains_key(x) implies w.standing[x].depth
        <= MAX_LINEAGE_DEPTH && w.standing[x].children <= MAX_LINEAGE_FANOUT && w.standing[x].children
        == w.derivatives_of(x) by {
        v.derivations.lemma_filter_len_push(names_parent(x), r);
        if x != out {
            assert(v.standing.contains_key(x));
            if parents.contains(x) {
                let k = choose|k: int| 0 <= k < parents.len() && parents[k] == x;
                assert(v.standing[parents[k]].children < MAX_LINEAGE_FANOUT);
            }
        }
    }
    assert forall|i: int, j: int| 0 <= i < j < w.derivations.len() implies #[trigger] w.derivations[i].output_digest
        != #[trigger] w.derivations[j].output_digest by {
        if j == v.derivations.len() {
            lemma_outputs_are_recorded(v, i);
        } else {
            assert(v.derivations[i] == w.derivations[i]);
            assert(v.derivations[j] == w.derivations[j]);
        }
    }
    assert forall|i: int| 0 <= i < w.derivations.len() implies w.derivation_is_sound(
        #[trigger] w.derivations[i],
    ) by {
        let q = w.derivations[i];
        if i < v.derivations.len() {
            assert(q == v.derivations[i]);
            assert(v.derivation_is_sound(q));
            lemma_outputs_are_recorded(v, i);
        }
        assert(v.derivation_is_sound(q) || q == r);
        assert forall|k: int| 0 <= k < q.parent_proof_ids.len() implies w.standing[
            #[trigger] q.parent_proof_ids[k]
        ].depth == v.standing[q.parent_proof_ids[k]].depth by {
            assert(v.is_recorded(q.parent_proof_ids[k]));
        }
        lemma_deepest_parent_depends_on_depths(w, v, q.parent_proof_ids);
    }
    assert forall|x: Digest| #[trigger] w.standing.contains_key(x) && w.lineage_of(x) is None implies w.standing[x].depth
        == 0 by {
        let n: int = v.derivations.len() as int;
        assert(w.derivations[n] == r);
        if x != out {
            assert(v.standing.contains_key(x));
            if exists|i: int| 0 <= i < v.derivations.len() && #[trigger] v.derivations[i].output_digest == x {
                let i = choose|i: int| 0 <= i < v.derivations.len() && #[trigger] v.derivations[i].output_digest == x;
                assert(w.derivations[i] == v.derivations[i]);
                assert(w.derivations[i].output_digest == x);
            }
            assert(v.lineage_of(x) is None);
        } else {
            assert(w.derivations[n].output_digest == x);
        }
    }
}

/// A derivative sits strictly deeper than each of its parents, so the
/// lineage graph has no cycle.
pub proof fn lemma_parents_are_shallower(v: RegistryView, i: int, k: int)
    requires
        v.consistent(),
        0 <= i < v.derivations.len(),
        0 <= k < v.derivations[i].parent_proof_ids.len(),
    ensures
        v.standing[v.derivations[i].parent_proof_ids[k]].depth < v.derivations[i].depth,
{
    let r = v.derivations[i];
    assert(v.derivation_is_sound(r));
    lemma_parent_within_deepest(v, r.parent_proof_ids, k);
}

/// Every recorded digest has at most `MAX_LINEAGE_FANOUT` derivatives, and
/// its charge is exactly the number of recorded derivations that name it.
pub proof fn lemma_budget_counts_derivatives(v: RegistryView, d: Digest)
    requires
        v.consistent(),
    ensures
        v.child_count(d) == v.derivatives_of(d),
        v.child_count(d) <= MAX_LINEAGE_FANOUT,
{
    if !v.is_recorded(d) {
        lemma_unrecorded_has_no_derivatives(v, d);
    }
}

/// A recorded derivation is read back as it was written, and each of its
/// parents is charged exactly once more while every other digest keeps its
/// charge.
pub proof fn lemma_recorded_lineage_is_read_back(v: RegistryView, r: LineageRecordView, d: Digest)
    requires
        v.consistent(),
        v.lineage_refusal(r.parent_proof_ids, r.output_digest, r.depth) is None,
    ensures
        v.with_lineage(r).lineage_of(r.output_digest) == Some(r),
        v.with_lineage(r).child_count(r.output_digest) == 0,
        d != r.output_digest ==> v.with_lineage(r).child_count(d) == v.child_count(d) + (if r.parent_proof_ids.contains(
            d,
        ) {
            1int
        } else {
            0int
        }),
{
    let w = v.with_lineage(r);
    let n: int = v.derivations.len() as int;
    assert(w.derivations[n] == r);
    let i = choose|i: int| 0 <= i < w.derivations.len() && #[trigger] w.derivations[i].output_digest == r.output_digest;
    if i < n {
        assert(w.derivations[i] == v.derivations[i]);
        lemma_outputs_are_recorded(v, i);
    }
    if d != r.output_digest && r.parent_proof_ids.contains(d) {
        let k = choose|k: int| 0 <= k < r.parent_proof_ids.len() && r.parent_proof_ids[k] == d;
        assert(v.is_recorded(r.parent_proof_ids[k]));
    }
}

/// Recording a derivation never rewrites one already recorded.
pub proof fn lemma_records_are_never_rewritten(v: RegistryView, r: LineageRecordView, d: Digest)
    requires
        v.consistent(),
        v.lineage_refusal(r.parent_proof_ids, r.output_digest, r.depth) is None,
        v.lineage_of(d) is Some,
    ensures
        v.with_lineage(r).lineage_of(d) == v.lineage_of(d),
{
    let w = v.with_lineage(r);
    let n: int = v.derivations.len() as int;
    let i = choose|i: int| 0 <= i < v.derivations.len() && #[trigger] v.derivations[i].output_digest == d;
    lemma_outputs_are_recorded(v, i);
    assert(w.derivations[i] == v.derivations[i]);
    let j = choose|j: int| 0 <= j < w.derivations.len() && #[trigger] w.derivations[j].output_digest == d;
    if j == n {
        assert(w.derivations[j] == r);
    } else {
        assert(w.derivations[j] == v.derivations[j]);
        if j != i {
            if j < i {
                assert(v.derivations[j].output_digest != v.derivations[i].output_digest);
            } else {
                assert(v.derivations[i].output_digest != v.derivations[j].output_digest);
            }
        }
    }
}

} // verus!
