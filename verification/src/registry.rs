use vstd::prelude::*;

use crate::digest::{contains_digest, digests_equal, has_repeated_digest, Digest};
use crate::lineage::{LineageError, LineageRecord, LineageRecordView, MAX_LINEAGE_DEPTH, MAX_LINEAGE_FANOUT};
use crate::model::{
    lemma_empty_is_consistent, lemma_every_refusal_is_justified, lemma_lineage_keeps_consistency,
    lemma_refusal_is_exactly_an_invalid_edge, lemma_source_keeps_consistency,
    RegistryView, Standing,
};

verus! {

/// One recorded digest and where it stands.
#[derive(Clone, Copy)]
struct Slot {
    digest: Digest,
    standing: Standing,
}

/// The lineage graph: registered sources, recorded derivations, and the
/// derivatives each digest has been charged for.
pub struct LineageRegistry {
    /// Every recorded digest, each once.
    slots: Vec<Slot>,
    /// Every recorded derivation, in the order it was recorded.
    records: Vec<LineageRecord>,
}

spec fn holds_digest(slots: Seq<Slot>, d: Digest) -> bool {
    exists|i: int| 0 <= i < slots.len() && #[trigger] slots[i].digest == d
}

spec fn slots_standing(slots: Seq<Slot>) -> Map<Digest, Standing> {
    Map::new(
        |d: Digest| holds_digest(slots, d),
        |d: Digest| slots[choose|i: int| 0 <= i < slots.len() && #[trigger] slots[i].digest == d].standing,
    )
}

spec fn distinct_slots(slots: Seq<Slot>) -> bool {
    forall|i: int, j: int| 0 <= i < j < slots.len() ==> #[trigger] slots[i].digest != #[trigger] slots[j].digest
}

proof fn lemma_slot_lookup(slots: Seq<Slot>, i: int)
    requires
        distinct_slots(slots),
        0 <= i < slots.len(),
    ensures
        slots_standing(slots).contains_key(slots[i].digest),
        slots_standing(slots)[slots[i].digest] == slots[i].standing,
{
    let d = slots[i].digest;
    assert(holds_digest(slots, d));
    let j = choose|j: int| 0 <= j < slots.len() && #[trigger] slots[j].digest == d;
    if j < i {
        assert(slots[j].digest != slots[i].digest);
    } else if j > i {
        assert(slots[i].digest != slots[j].digest);
    }
}

impl View for LineageRegistry {
    type V = RegistryView;

    closed spec fn view(&self) -> RegistryView {
        RegistryView {
            standing: slots_standing(self.slots@),
            derivations: self.records@.map_values(|r: LineageRecord| r@),
        }
    }
}

/// After the parents' charges are raised and the output is appended, the
/// slots stand for the registry with the derivation recorded.
proof fn lemma_commit_standing(
    before: Seq<Slot>,
    after: Seq<Slot>,
    v: RegistryView,
    r: LineageRecordView,
)
    requires
        distinct_slots(before),
        v.standing == slots_standing(before),
        !holds_digest(before, r.output_digest),
        after.len() == before.len() + 1,
        after[before.len() as int] == (Slot { digest: r.output_digest, standing: Standing { depth: r.depth, children: 0 } }),
        forall|i: int| 0 <= i < before.len() ==> #[trigger] after[i].digest == before[i].digest,
        forall|i: int| 0 <= i < before.len() ==> #[trigger] after[i].standing.depth == before[i].standing.depth,
        forall|i: int|
            0 <= i < before.len() ==> #[trigger] after[i].standing.children == before[i].standing.children + (
            if r.parent_proof_ids.contains(before[i].digest) {
                1int
            } else {
                0int
            }),
    ensures
        distinct_slots(after),
        slots_standing(after) == v.with_lineage(r).standing,
{
    let n: int = before.len() as int;
    assert forall|i: int, j: int| 0 <= i < j < after.len() implies #[trigger] after[i].digest
        != #[trigger] after[j].digest by {
        if j == n {
            assert(holds_digest(before, before[i].digest));
        } else {
            assert(before[i].digest != before[j].digest);
        }
    }
    let w = v.with_lineage(r);
    assert forall|d: Digest| #[trigger] slots_standing(after).contains_key(d) == w.standing.contains_key(d) by {
        if holds_digest(after, d) {
            let i = choose|i: int| 0 <= i < after.len() && #[trigger] after[i].digest == d;
            if i < n {
                assert(before[i].digest == d);
                assert(holds_digest(before, d));
            }
        }
        if holds_digest(before, d) {
            let i = choose|i: int| 0 <= i < before.len() && #[trigger] before[i].digest == d;
            assert(after[i].digest == d);
        }
        if d == r.output_digest {
            assert(after[n].digest == d);
        }
    }
    assert forall|d: Digest| #[trigger] w.standing.contains_key(d) implies slots_standing(after)[d]
        == w.standing[d] by {
        if d == r.output_digest {
            lemma_slot_lookup(after, n);
        } else {
            assert(holds_digest(before, d));
            let i = choose|i: int| 0 <= i < before.len() && #[trigger] before[i].digest == d;
            lemma_slot_lookup(before, i);
            lemma_slot_lookup(after, i);
            assert(after[i].digest == d);
            assert(v.standing[d] == before[i].standing);
            assert(after[i].standing.depth == before[i].standing.depth);
            assert(after[i].standing.children == before[i].standing.children + (if r.parent_proof_ids.contains(
                before[i].digest,
            ) {
                1int
            } else {
                0int
            }));
            if r.parent_proof_ids.contains(d) {
                assert(after[i].standing == Standing {
                    depth: v.standing[d].depth,
                    children: (v.standing[d].children + 1) as u32,
                });
            } else {
                assert(after[i].standing == v.standing[d]);
            }
        }
    }
    assert(slots_standing(after) =~= w.standing);
}

impl LineageRegistry {
    /// The registry's internal invariant: each digest is held once, and the
    /// abstract state is consistent.
    pub closed spec fn wf(&self) -> bool {
        &&& distinct_slots(self.slots@)
        &&& self@.consistent()
    }

    /// A well-formed registry's abstract state is consistent, so every law
    /// stated over consistent views holds of it.
    pub proof fn lemma_well_formed_is_consistent(&self)
        requires
            self.wf(),
        ensures
            self@.consistent(),
    {
    }

    /// An empty registry.
    pub fn new() -> (registry: LineageRegistry)
        ensures
            registry.wf(),
            registry@.consistent(),
            registry@ == RegistryView::empty(),
    {
        let registry = LineageRegistry { slots: Vec::new(), records: Vec::new() };
        proof {
            lemma_empty_is_consistent();
            assert(registry@.standing =~= Map::<Digest, Standing>::empty());
            assert(registry@.derivations =~= Seq::<LineageRecordView>::empty());
        }
        registry
    }

    /// Where `d` is held, if it is recorded.
    fn find_slot(&self, d: &Digest) -> (pos: Option<usize>)
        requires
            distinct_slots(self.slots@),
        ensures
            match pos {
                Some(i) => {
                    &&& i < self.slots.len()
                    &&& self.slots@[i as int].digest == *d
                    &&& self@.is_recorded(*d)
                    &&& self@.standing[*d] == self.slots@[i as int].standing
                },
                None => !self@.is_recorded(*d),
            },
    {
        let mut i: usize = 0;
        while i < self.slots.len()
            invariant
                distinct_slots(self.slots@),
                i <= self.slots.len(),
                forall|j: int| 0 <= j < i ==> self.slots@[j].digest != *d,
            decreases self.slots.len() - i,
        {
            if digests_equal(&self.slots[i].digest, d) {
                proof {
                    lemma_slot_lookup(self.slots@, i as int);
                }
                return Some(i);
            }
            i = i + 1;
        }
        None
    }

    /// Registers `evidence` as source evidence at depth 0. A digest that is
    /// already recorded is refused and nothing changes.
    pub fn register_source(&mut self, evidence: Digest) -> (result: Result<(), LineageError>)
        requires
            old(self).wf(),
        ensures
            final(self).wf(),
            final(self)@.consistent(),
            match result {
                Ok(()) => {
                    &&& !old(self)@.is_recorded(evidence)
                    &&& final(self)@ == old(self)@.with_source(evidence)
                },
                Err(e) => {
                    &&& e == LineageError::DigestAlreadyRecorded
                    &&& old(self)@.is_recorded(evidence)
                    &&& final(self)@ == old(self)@
                },
            },
    {
        if self.find_slot(&evidence).is_some() {
            return Err(LineageError::DigestAlreadyRecorded);
        }
        let ghost before = self.slots@;
        let ghost v = self@;
        self.slots.push(Slot { digest: evidence, standing: Standing { depth: 0, children: 0 } });
        proof {
            let after = self.slots@;
            let n: int = before.len() as int;
            assert forall|i: int, j: int| 0 <= i < j < after.len() implies #[trigger] after[i].digest
                != #[trigger] after[j].digest by {
                if j == n {
                    assert(after[i] == before[i]);
                    assert(holds_digest(before, before[i].digest));
                } else {
                    assert(before[i].digest != before[j].digest);
                }
            }
            let w = v.with_source(evidence);
            assert forall|d: Digest| #[trigger] slots_standing(after).contains_key(d) == w.standing.contains_key(d) by {
                if holds_digest(after, d) {
                    let i = choose|i: int| 0 <= i < after.len() && #[trigger] after[i].digest == d;
                    if i < n {
                        assert(before[i] == after[i]);
                        assert(holds_digest(before, d));
                    }
                }
                if holds_digest(before, d) {
                    let i = choose|i: int| 0 <= i < before.len() && #[trigger] before[i].digest == d;
                    assert(after[i] == before[i]);
                }
                if d == evidence {
                    assert(after[n].digest == d);
                }
            }
            assert forall|d: Digest| #[trigger] w.standing.contains_key(d) implies slots_standing(after)[d]
                == w.standing[d] by {
                if d == evidence {
                    lemma_slot_lookup(after, n);
                } else {
                    let i = choose|i: int| 0 <= i < before.len() && #[trigger] before[i].digest == d;
                    lemma_slot_lookup(before, i);
                    assert(after[i] == before[i]);
                    lemma_slot_lookup(after, i);
                }
            }
            assert(slots_standing(after) =~= w.standing);
            assert(self@.derivations =~= w.derivations);
            lemma_source_keeps_consistency(v, evidence);
        }
        Ok(())
    }

    /// Checks an edge from `parents` to `output` claimed to sit at
    /// `claimed_depth`, in the order `lineage_refusal` gives; on success
    /// hands back where each parent is held.
    #[verifier::loop_isolation(false)]
    fn check_lineage(&self, parents: &Vec<Digest>, output: &Digest, claimed_depth: u32) -> (checked: Result<
        Vec<usize>,
        LineageError,
    >)
        requires
            self.wf(),
        ensures
            match checked {
                Ok(positions) => {
                    &&& self@.lineage_refusal(parents@, *output, claimed_depth) is None
                    &&& positions.len() == parents.len()
                    &&& forall|j: int|
                        0 <= j < positions.len() ==> #[trigger] positions@[j] < self.slots.len()
                            && self.slots@[positions@[j] as int].digest == parents@[j]
                },
                Err(e) => self@.lineage_refusal(parents@, *output, claimed_depth) == Some(e),
            },
    {
        let ghost v = self@;
        let n: usize = parents.len();
        if n == 0 {
            return Err(LineageError::InvalidParentSet);
        }
        if n > MAX_LINEAGE_FANOUT as usize {
            return Err(LineageError::FanoutExceeded);
        }
        if contains_digest(parents, output) {
            return Err(LineageError::SelfReferentialLineage);
        }
        if has_repeated_digest(parents) {
            return Err(LineageError::InvalidParentSet);
        }
        if self.find_slot(output).is_some() {
            return Err(LineageError::DigestAlreadyRecorded);
        }
        let mut positions: Vec<usize> = Vec::new();
        let mut deepest: u32 = 0;
        let mut k: usize = 0;
        while k < n
            invariant
                self.wf(),
                v == self@,
                n == parents.len(),
                k <= n,
                positions.len() == k,
                forall|j: int|
                    0 <= j < k ==> #[trigger] positions@[j] < self.slots.len() && self.slots@[positions@[j] as int].digest
                        == parents@[j],
                forall|j: int| 0 <= j < k ==> v.is_recorded(#[trigger] parents@[j]),
                deepest == v.deepest_parent(parents@.take(k as int)),
                deepest <= MAX_LINEAGE_DEPTH,
            decreases n - k,
        {
            match self.find_slot(&parents[k]) {
                None => {
                    assert(!v.is_recorded(parents@[k as int]));
                    return Err(LineageError::InvalidParentSet);
                },
                Some(pos) => {
                    proof {
                        assert(parents@.take(k as int + 1).drop_last() =~= parents@.take(k as int));
                        assert(parents@.take(k as int + 1).last() == parents@[k as int]);
                    }
                    let depth: u32 = self.slots[pos].standing.depth;
                    if depth > deepest {
                        deepest = depth;
                    }
                    positions.push(pos);
                    k = k + 1;
                },
            }
        }
        proof {
            assert(parents@.take(n as int) =~= parents@);
        }
        let derived: u32 = deepest + 1;
        if derived > MAX_LINEAGE_DEPTH {
            return Err(LineageError::DepthCapExceeded);
        }
        if claimed_depth != derived {
            return Err(LineageError::DepthMismatch);
        }
        let mut j: usize = 0;
        while j < n
            invariant
                self.wf(),
                v == self@,
                n == parents.len(),
                j <= n,
                positions.len() == n,
                forall|i: int|
                    0 <= i < n ==> #[trigger] positions@[i] < self.slots.len() && self.slots@[positions@[i] as int].digest
                        == parents@[i],
                forall|i: int| 0 <= i < j ==> v.standing[#[trigger] parents@[i]].children < MAX_LINEAGE_FANOUT,
            decreases n - j,
        {
            let pos: usize = positions[j];
            proof {
                lemma_slot_lookup(self.slots@, pos as int);
            }
            if self.slots[pos].standing.children >= MAX_LINEAGE_FANOUT {
                assert(v.standing[parents@[j as int]].children >= MAX_LINEAGE_FANOUT);
                return Err(LineageError::FanoutExceeded);
            }
            j = j + 1;
        }
        Ok(positions)
    }

    /// Records a derivation of `parent_proof_ids` with digest `output_digest`,
    /// made by `actor` with the transformation `transform`, claimed to sit at
    /// `depth`. The edge is refused, and nothing changes, exactly when
    /// `lineage_refusal` names a reason; otherwise the output is recorded one
    /// below its deepest parent, each parent is charged one derivative, and
    /// the new record is returned.
    pub fn register_lineage(
        &mut self,
        actor: String,
        parent_proof_ids: Vec<Digest>,
        transform_digest: Digest,
        transform: String,
        output_digest: Digest,
        depth: u32,
    ) -> (result: Result<LineageRecord, LineageError>)
        requires
            old(self).wf(),
        ensures
            final(self).wf(),
            final(self)@.consistent(),
            match result {
                Ok(record) => {
                    &&& old(self)@.lineage_refusal(parent_proof_ids@, output_digest, depth) is None
                    &&& record@ == (LineageRecordView {
                        actor: actor@,
                        parent_proof_ids: parent_proof_ids@,
                        transform_digest,
                        transform: transform@,
                        output_digest,
                        depth,
                    })
                    &&& final(self)@ == old(self)@.with_lineage(record@)
                },
                Err(e) => {
                    &&& old(self)@.lineage_refusal(parent_proof_ids@, output_digest, depth) == Some(e)
                    &&& old(self)@.refusal_is_justified(e, parent_proof_ids@, output_digest, depth)
                    &&& final(self)@ == old(self)@
                },
            },
            result is Ok <==> old(self)@.accepts_edge(parent_proof_ids@, output_digest, depth),
    {
        proof {
            lemma_refusal_is_exactly_an_invalid_edge(self@, parent_proof_ids@, output_digest, depth);
            lemma_every_refusal_is_justified(self@, parent_proof_ids@, output_digest, depth);
        }
        let positions = match self.check_lineage(&parent_proof_ids, &output_digest, depth) {
            Ok(positions) => positions,
            Err(e) => {
                return Err(e);
            },
        };
        let ghost v = self@;
        let ghost before = self.slots@;
        let ghost parents = parent_proof_ids@;
        proof {
            assert forall|i: int| 0 <= i < parents.len() implies v.standing[#[trigger] parents[i]].children
                < MAX_LINEAGE_FANOUT by {
                if v.standing[parents[i]].children >= MAX_LINEAGE_FANOUT {
                    assert(v.lineage_refusal(parents, output_digest, depth) == Some(LineageError::FanoutExceeded));
                }
            }
        }
        let n: usize = positions.len();
        let mut j: usize = 0;
        while j < n
            invariant
                n == positions.len(),
                n == parents.len(),
                parents.no_duplicates(),
                distinct_slots(before),
                v.standing == slots_standing(before),
                j <= n,
                self.slots.len() == before.len(),
                self.records@ == old(self).records@,
                forall|i: int|
                    0 <= i < n ==> #[trigger] positions@[i] < before.len() && before[positions@[i] as int].digest
                        == parents[i],
                forall|i: int| 0 <= i < n ==> v.standing[#[trigger] parents[i]].children < MAX_LINEAGE_FANOUT,
                forall|i: int| 0 <= i < before.len() ==> #[trigger] self.slots@[i].digest == before[i].digest,
                forall|i: int| 0 <= i < before.len() ==> #[trigger] self.slots@[i].standing.depth == before[i].standing.depth,
                forall|i: int|
                    0 <= i < before.len() ==> #[trigger] self.slots@[i].standing.children == before[i].standing.children
                        + (if parents.take(j as int).contains(before[i].digest) {
                        1int
                    } else {
                        0int
                    }),
            decreases n - j,
        {
            let pos: usize = positions[j];
            proof {
                lemma_slot_lookup(before, pos as int);
                if parents.take(j as int).contains(parents[j as int]) {
                    let k = choose|k: int| 0 <= k < j && parents.take(j as int)[k] == parents[j as int];
                    assert(parents[k] == parents[j as int]);
                }
            }
            let ghost mid = self.slots@;
            let mut slot = self.slots[pos];
            slot.standing.children = slot.standing.children + 1;
            self.slots.set(pos, slot);
            proof {
                let t = parents.take(j as int + 1);
                let s = parents.take(j as int);
                assert forall|x: Digest| #[trigger] t.contains(x) == (s.contains(x) || x == parents[j as int]) by {
                    if x == parents[j as int] {
                        assert(t[j as int] == x);
                    }
                    if s.contains(x) {
                        let k = choose|k: int| 0 <= k < s.len() && s[k] == x;
                        assert(t[k] == x);
                    }
                    if t.contains(x) {
                        let k = choose|k: int| 0 <= k < t.len() && t[k] == x;
                        if k < j {
                            assert(s[k] == x);
                        }
                    }
                }
                assert forall|i: int| 0 <= i < before.len() implies #[trigger] self.slots@[i].standing.children
                    == before[i].standing.children + (if t.contains(before[i].digest) {
                    1int
                } else {
                    0int
                }) by {
                    assert(mid[i].standing.children == before[i].standing.children + (if s.contains(before[i].digest) {
                        1int
                    } else {
                        0int
                    }));
                    if i != pos {
                        assert(self.slots@[i] == mid[i]);
                        if i < pos {
                            assert(before[i].digest != before[pos as int].digest);
                        } else {
                            assert(before[pos as int].digest != before[i].digest);
                        }
                    }
                }
            }
            j = j + 1;
        }
        proof {
            assert(parents.take(n as int) =~= parents);
            if holds_digest(before, output_digest) {
                let i = choose|i: int| 0 <= i < before.len() && #[trigger] before[i].digest == output_digest;
                lemma_slot_lookup(before, i);
            }
        }
        self.slots.push(Slot { digest: output_digest, standing: Standing { depth, children: 0 } });
        let record = LineageRecord {
            actor,
            parent_proof_ids,
            transform_digest,
            transform,
            output_digest,
            depth,
        };
        let copy = record.duplicate();
        self.records.push(record);
        proof {
            lemma_commit_standing(before, self.slots@, v, copy@);
            assert(self@.derivations =~= v.derivations.push(copy@));
            lemma_lineage_keeps_consistency(v, copy@);
        }
        Ok(copy)
    }

    /// The recorded derivation whose output is `output_digest`, if any.
    pub fn get_lineage(&self, output_digest: &Digest) -> (found: Option<LineageRecord>)
        requires
            self.wf(),
        ensures
            match found {
                Some(record) => self@.lineage_of(*output_digest) == Some(record@),
                None => self@.lineage_of(*output_digest) is None,
            },
    {
        let ghost v = self@;
        let mut i: usize = 0;
        while i < self.records.len()
            invariant
                self.wf(),
                v == self@,
                i <= self.records.len(),
                forall|j: int| 0 <= j < i ==> self.records@[j].output_digest != *output_digest,
            decreases self.records.len() - i,
        {
            if digests_equal(&self.records[i].output_digest, output_digest) {
                proof {
                    assert(v.derivations[i as int].output_digest == *output_digest);
                    let k = choose|k: int|
                        0 <= k < v.derivations.len() && #[trigger] v.derivations[k].output_digest == *output_digest;
                    if k < i {
                        assert(v.derivations[k].output_digest != v.derivations[i as int].output_digest);
                    } else if k > i {
                        assert(v.derivations[i as int].output_digest != v.derivations[k].output_digest);
                    }
                }
                return Some(self.records[i].duplicate());
            }
            i = i + 1;
        }
        proof {
            assert forall|k: int| 0 <= k < v.derivations.len() implies #[trigger] v.derivations[k].output_digest
                != *output_digest by {
                assert(v.derivations[k] == self.records@[k]@);
            }
        }
        None
    }

    /// How many recorded derivatives name `digest` as a parent; 0 for a
    /// digest that was never recorded.
    pub fn get_lineage_child_count(&self, digest: &Digest) -> (count: u32)
        requires
            self.wf(),
        ensures
            count == self@.child_count(*digest),
    {
        match self.find_slot(digest) {
            Some(pos) => self.slots[pos].standing.children,
            None => 0,
        }
    }
}

} // verus!
