//! The partial assignment ("witness"). Targets are grouped into equivalence
//! classes by a precomputed representative map; a value is written only to a
//! class representative and read only through it, so a class is either
//! entirely unassigned or every member reads the same value.

use vstd::prelude::*;
use crate::field::FieldElement;
use crate::target::{Target, Wire};

verus! {

/// How many slots of a value table are still unassigned.
pub open spec fn count_none(s: Seq<Option<FieldElement>>) -> nat
    decreases s.len(),
{
    if s.len() == 0 {
        0
    } else {
        count_none(s.drop_last()) + (if s.last() is None {
            1nat
        } else {
            0nat
        })
    }
}

/// A slot holding no value contributes to the unassigned count.
pub proof fn lemma_count_none_at(s: Seq<Option<FieldElement>>, i: int)
    requires
        0 <= i < s.len(),
        s[i] is None,
    ensures
        count_none(s) >= 1,
    decreases s.len(),
{
    if i == s.len() - 1 {
    } else {
        lemma_count_none_at(s.drop_last(), i);
    }
}

/// Writing a value into one slot lowers the unassigned count by one when the
/// slot was empty and keeps it otherwise.
pub proof fn lemma_count_none_update(s: Seq<Option<FieldElement>>, i: int, v: FieldElement)
    requires
        0 <= i < s.len(),
    ensures
        s[i] is None ==> count_none(s.update(i, Some(v))) == count_none(s) - 1,
        s[i] is Some ==> count_none(s.update(i, Some(v))) == count_none(s),
    decreases s.len(),
{
    if s[i] is None {
        lemma_count_none_at(s, i);
    }
    if i == s.len() - 1 {
        assert(s.update(i, Some(v)).drop_last() =~= s.drop_last());
    } else {
        assert(s.update(i, Some(v)).drop_last() =~= s.drop_last().update(i, Some(v)));
        lemma_count_none_update(s.drop_last(), i, v);
    }
}

/// Externally supplied input values, to be loaded into a fresh witness.
#[derive(Clone, Debug)]
pub struct PartialWitness {
    pub target_values: Vec<(Target, FieldElement)>,
}

impl PartialWitness {
    pub fn new() -> (r: Self)
        ensures
            r.target_values@ =~= Seq::<(Target, FieldElement)>::empty(),
    {
        PartialWitness { target_values: Vec::new() }
    }

    pub fn set_target(&mut self, target: Target, value: FieldElement)
        ensures
            final(self).target_values@ == old(self).target_values@.push((target, value)),
    {
        self.target_values.push((target, value));
    }
}

/// A partial assignment keyed by equivalence-class representative.
#[derive(Clone, Debug)]
pub struct PartitionWitness {
    /// Values, indexed by flat target index; only representative slots are
    /// ever written.
    pub values: Vec<Option<FieldElement>>,
    /// Maps each flat target index to the flat index of its class
    /// representative.
    pub representative_map: Vec<usize>,
    pub num_wires: usize,
    pub degree: usize,
    pub num_virtual_targets: usize,
}

impl PartitionWitness {
    /// Total number of addressable slots.
    pub open spec fn total_slots(self) -> int {
        self.num_wires * self.degree + self.num_virtual_targets
    }

    pub open spec fn wf(self) -> bool {
        &&& self.representative_map@.len() == self.total_slots()
        &&& self.values@.len() == self.representative_map@.len()
        &&& forall|i: int|
            0 <= i < self.representative_map@.len() ==> (#[trigger] self.representative_map@[i])
                < self.values@.len()
    }

    /// Whether a target addresses a slot of this witness.
    pub open spec fn target_valid(self, t: Target) -> bool {
        t.is_valid(self.num_wires as int, self.degree as int, self.num_virtual_targets as int)
    }

    /// The flat index of a target's class representative.
    pub open spec fn rep_index(self, t: Target) -> int {
        self.representative_map@[t.spec_index(self.num_wires as int, self.degree as int)] as int
    }

    /// The value a target reads, through its representative.
    pub open spec fn value_of(self, t: Target) -> Option<FieldElement> {
        self.values@[self.rep_index(t)]
    }

    /// The two witnesses share dimensions and equivalence structure.
    pub open spec fn same_shape(self, other: PartitionWitness) -> bool {
        &&& self.num_wires == other.num_wires
        &&& self.degree == other.degree
        &&& self.num_virtual_targets == other.num_virtual_targets
        &&& self.representative_map == other.representative_map
    }

    /// A fresh, fully unassigned witness over the given equivalence structure.
    pub fn new(
        num_wires: usize,
        degree: usize,
        num_virtual_targets: usize,
        representative_map: Vec<usize>,
    ) -> (r: Self)
        requires
            representative_map@.len() == num_wires * degree + num_virtual_targets,
            forall|i: int|
                0 <= i < representative_map@.len() ==> (#[trigger] representative_map@[i])
                    < representative_map@.len(),
        ensures
            r.wf(),
            r.num_wires == num_wires,
            r.degree == degree,
            r.num_virtual_targets == num_virtual_targets,
            r.representative_map == representative_map,
            forall|i: int| 0 <= i < r.values@.len() ==> r.values@[i] is None,
    {
        let n = representative_map.len();
        let mut values: Vec<Option<FieldElement>> = Vec::new();
        for k in 0..n
            invariant
                values@.len() == k,
                forall|i: int| 0 <= i < k ==> values@[i] is None,
        {
            values.push(None);
        }
        PartitionWitness { values, representative_map, num_wires, degree, num_virtual_targets }
    }

    /// The flat index of a target's representative.
    pub fn rep(&self, t: Target) -> (r: usize)
        requires
            self.wf(),
            self.target_valid(t),
        ensures
            r as int == self.rep_index(t),
            r < self.values@.len(),
    {
        let n = self.representative_map.len();
        let idx = t.index(self.num_wires, self.degree, self.num_virtual_targets);
        self.representative_map[idx]
    }

    pub fn try_get_target(&self, t: Target) -> (r: Option<FieldElement>)
        requires
            self.wf(),
            self.target_valid(t),
        ensures
            r == self.value_of(t),
    {
        let rep = self.rep(t);
        self.values[rep]
    }

    pub fn contains(&self, t: Target) -> (r: bool)
        requires
            self.wf(),
            self.target_valid(t),
        ensures
            r == (self.value_of(t) is Some),
    {
        self.try_get_target(t).is_some()
    }

    pub fn contains_all(&self, targets: &Vec<Target>) -> (r: bool)
        requires
            self.wf(),
            forall|k: int| 0 <= k < targets@.len() ==> self.target_valid(#[trigger] targets@[k]),
        ensures
            r == (forall|k: int|
                0 <= k < targets@.len() ==> self.value_of(#[trigger] targets@[k]) is Some),
    {
        let n = targets.len();
        for k in 0..n
            invariant
                n == targets@.len(),
                self.wf(),
                forall|j: int| 0 <= j < targets@.len() ==> self.target_valid(#[trigger] targets@[j]),
                forall|j: int| 0 <= j < k ==> self.value_of(#[trigger] targets@[j]) is Some,
        {
            if !self.contains(targets[k]) {
                return false;
            }
        }
        true
    }

    /// The value of an already-assigned target.
    pub fn get_target(&self, t: Target) -> (r: FieldElement)
        requires
            self.wf(),
            self.target_valid(t),
            self.value_of(t) is Some,
        ensures
            Some(r) == self.value_of(t),
    {
        self.try_get_target(t).unwrap()
    }

    pub fn get_wire(&self, wire: Wire) -> (r: FieldElement)
        requires
            self.wf(),
            self.target_valid(Target::Wire(wire)),
            self.value_of(Target::Wire(wire)) is Some,
        ensures
            Some(r) == self.value_of(Target::Wire(wire)),
    {
        self.get_target(Target::Wire(wire))
    }

    /// Writes a value to the target's class representative.
    pub fn set_target(&mut self, t: Target, v: FieldElement)
        requires
            old(self).wf(),
            old(self).target_valid(t),
        ensures
            final(self).wf(),
            final(self).same_shape(*old(self)),
            final(self).values@ == old(self).values@.update(old(self).rep_index(t), Some(v)),
    {
        let rep = self.rep(t);
        self.values[rep] = Some(v);
    }

    /// Writes a value; reports the representative's flat index when its class
    /// was newly populated, and nothing when the class was already assigned
    /// (the later write wins).
    pub fn set_target_returning_rep(&mut self, t: Target, v: FieldElement) -> (r: Option<usize>)
        requires
            old(self).wf(),
            old(self).target_valid(t),
        ensures
            final(self).wf(),
            final(self).same_shape(*old(self)),
            final(self).values@ == old(self).values@.update(old(self).rep_index(t), Some(v)),
            r == (if old(self).value_of(t) is Some {
                Option::<usize>::None
            } else {
                Some(old(self).rep_index(t) as usize)
            }),
            count_none(final(self).values@) <= count_none(old(self).values@),
            r is Some ==> count_none(final(self).values@) < count_none(old(self).values@),
    {
        let rep = self.rep(t);
        let was_empty = self.values[rep].is_none();
        self.values[rep] = Some(v);
        proof {
            lemma_count_none_update(old(self).values@, old(self).rep_index(t), v);
        }
        if was_empty {
            Some(rep)
        } else {
            None
        }
    }
}

/// Writing one value through a representative never unassigns anything:
/// every target that read back assigned before still does, and every
/// populated slot stays populated.
pub proof fn lemma_set_preserves_assigned(
    pre: PartitionWitness,
    post: PartitionWitness,
    t: Target,
    v: FieldElement,
)
    requires
        pre.wf(),
        pre.target_valid(t),
        post.same_shape(pre),
        post.values@ == pre.values@.update(pre.rep_index(t), Some(v)),
    ensures
        forall|i: int|
            0 <= i < pre.values@.len() && pre.values@[i] is Some ==> #[trigger] post.values@[i]
                is Some,
        forall|u: Target|
            pre.target_valid(u) && pre.value_of(u) is Some ==> #[trigger] post.value_of(u)
                is Some,
{
    t.lemma_index_in_range(
        pre.num_wires as int,
        pre.degree as int,
        pre.num_virtual_targets as int,
    );
    assert forall|u: Target|
        pre.target_valid(u) && pre.value_of(u) is Some implies #[trigger] post.value_of(u)
        is Some by {
        u.lemma_index_in_range(
            pre.num_wires as int,
            pre.degree as int,
            pre.num_virtual_targets as int,
        );
    }
}

/// Setting a value on any target of a copy-constrained class makes every
/// other target of that class read back the identical value.
pub proof fn lemma_equivalence_propagation(
    pre: PartitionWitness,
    post: PartitionWitness,
    t1: Target,
    t2: Target,
    v: FieldElement,
)
    requires
        pre.wf(),
        pre.target_valid(t1),
        pre.target_valid(t2),
        pre.rep_index(t1) == pre.rep_index(t2),
        post.same_shape(pre),
        post.values@ == pre.values@.update(pre.rep_index(t1), Some(v)),
    ensures
        post.value_of(t2) == Some(v),
{
    t1.lemma_index_in_range(
        pre.num_wires as int,
        pre.degree as int,
        pre.num_virtual_targets as int,
    );
}

} // verus!
