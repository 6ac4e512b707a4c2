//! Generators: units of witness computation. A generator declares the targets
//! it watches and, when run against the current partial assignment, deposits
//! derived (target, value) pairs into a transient buffer. A simple generator
//! runs exactly once, as soon as its fixed dependency set is fully assigned.

use vstd::prelude::*;
use crate::field::{inv_m, FieldElement};
use crate::target::{BigUintTarget, BigUintValue, BoolTarget, ExtensionTarget, HashOut,
    HashOutTarget, Target, U32Target, Wire};
use crate::witness::{PartialWitness, PartitionWitness};
use crate::CircuitError;
use crate::extension::QuadraticExtension;

verus! {

/// The earlier buffer contents survive unchanged at the front.
pub open spec fn buffer_extends(
    post: Seq<(Target, FieldElement)>,
    pre: Seq<(Target, FieldElement)>,
) -> bool {
    post.len() >= pre.len() && post.subrange(0, pre.len() as int) == pre
}

/// Every target of the list reads back assigned in the witness.
pub open spec fn all_assigned(witness: PartitionWitness, targets: Seq<Target>) -> bool {
    forall|k: int| 0 <= k < targets.len() ==> witness.value_of(#[trigger] targets[k]) is Some
}

/// Exactly one pair was appended, naming the given target and a value with
/// the given residue.
pub open spec fn pushed_one(
    pre: Seq<(Target, FieldElement)>,
    post: Seq<(Target, FieldElement)>,
    t: Target,
    v: int,
) -> bool {
    &&& post.len() == pre.len() + 1
    &&& post.subrange(0, pre.len() as int) == pre
    &&& post.last().0 == t
    &&& post.last().1@ == v
}

/// Values generated by one generator invocation, merged into the witness
/// right after the run and then cleared.
#[derive(Clone, Debug)]
pub struct GeneratedValues {
    pub target_values: Vec<(Target, FieldElement)>,
}

impl From<Vec<(Target, FieldElement)>> for GeneratedValues {
    fn from(target_values: Vec<(Target, FieldElement)>) -> (r: GeneratedValues) {
        GeneratedValues { target_values }
    }
}

impl vstd::std_specs::convert::FromSpecImpl<Vec<(Target, FieldElement)>> for GeneratedValues {
    open spec fn obeys_from_spec() -> bool {
        true
    }

    open spec fn from_spec(v: Vec<(Target, FieldElement)>) -> GeneratedValues {
        GeneratedValues { target_values: v }
    }
}

impl GeneratedValues {
    pub fn with_capacity(capacity: usize) -> (r: Self)
        ensures
            r.target_values@.len() == 0,
    {
        GeneratedValues::from(Vec::with_capacity(capacity))
    }

    pub fn empty() -> (r: Self)
        ensures
            r.target_values@.len() == 0,
    {
        GeneratedValues::from(Vec::new())
    }

    pub fn singleton_target(target: Target, value: FieldElement) -> (r: Self)
        ensures
            r.target_values@ =~= seq![(target, value)],
    {
        let mut v: Vec<(Target, FieldElement)> = Vec::new();
        v.push((target, value));
        GeneratedValues::from(v)
    }

    pub fn singleton_wire(wire: Wire, value: FieldElement) -> (r: Self)
        ensures
            r.target_values@ =~= seq![(Target::Wire(wire), value)],
    {
        Self::singleton_target(Target::Wire(wire), value)
    }

    pub fn singleton_extension_target(et: ExtensionTarget, value: QuadraticExtension) -> (r: Self)
        ensures
            r.target_values@.len() == 2,
            r.target_values@[0].0 == et.0[0] && r.target_values@[0].1@ == value@.0,
            r.target_values@[1].0 == et.0[1] && r.target_values@[1].1@ == value@.1,
    {
        let mut witness = Self::with_capacity(2);
        witness.set_extension_target(et, value);
        witness
    }

    pub fn clear(&mut self)
        ensures
            final(self).target_values@.len() == 0,
    {
        self.target_values.clear();
    }

    pub fn set_target(&mut self, target: Target, value: FieldElement)
        ensures
            final(self).target_values@ == old(self).target_values@.push((target, value)),
    {
        self.target_values.push((target, value));
    }

    pub fn set_bool_target(&mut self, target: BoolTarget, value: bool)
        ensures
            pushed_one(
                old(self).target_values@,
                final(self).target_values@,
                target.target,
                if value {
                    1int
                } else {
                    0int
                },
            ),
    {
        self.set_target(target.target, FieldElement::from_bool(value));
        proof {
            assert(final(self).target_values@.subrange(0, old(self).target_values@.len() as int)
                =~= old(self).target_values@);
        }
    }

    pub fn set_u32_target(&mut self, target: U32Target, value: u32)
        ensures
            pushed_one(
                old(self).target_values@,
                final(self).target_values@,
                target.0,
                value as int,
            ),
    {
        self.set_target(target.0, FieldElement::from_canonical_u32(value));
        proof {
            assert(final(self).target_values@.subrange(0, old(self).target_values@.len() as int)
                =~= old(self).target_values@);
        }
    }

    /// Sets each limb target of a big-integer bundle; limbs beyond the value's
    /// own length are set to zero.
    pub fn set_biguint_target(&mut self, target: &BigUintTarget, value: &BigUintValue)
        requires
            value.limbs@.len() <= target.limbs@.len(),
        ensures
            final(self).target_values@.len() == old(self).target_values@.len()
                + target.limbs@.len(),
            buffer_extends(final(self).target_values@, old(self).target_values@),
            forall|i: int|
                0 <= i < target.limbs@.len() ==> {
                    let p = final(self).target_values@[old(self).target_values@.len() + i];
                    p.0 == (#[trigger] target.limbs@[i]).0 && p.1@ == (if i < value.limbs@.len() {
                        value.limbs@[i] as int
                    } else {
                        0int
                    })
                },
    {
        proof {
            assert(self.target_values@.subrange(0, self.target_values@.len() as int)
                =~= self.target_values@);
        }
        let n = target.num_limbs();
        for i in 0..n
            invariant
                n == target.limbs@.len(),
                value.limbs@.len() <= target.limbs@.len(),
                self.target_values@.len() == old(self).target_values@.len() + i,
                buffer_extends(self.target_values@, old(self).target_values@),
                forall|j: int|
                    0 <= j < i ==> {
                        let p = self.target_values@[old(self).target_values@.len() + j];
                        p.0 == (#[trigger] target.limbs@[j]).0 && p.1@ == (if j
                            < value.limbs@.len() {
                            value.limbs@[j] as int
                        } else {
                            0int
                        })
                    },
        {
            let limb: u32 = if i < value.limbs.len() {
                value.limbs[i]
            } else {
                0
            };
            self.set_u32_target(target.get_limb(i), limb);
            proof {
                assert(self.target_values@.subrange(0, old(self).target_values@.len() as int)
                    =~= old(self).target_values@);
            }
        }
    }

    /// Sets the big-integer limbs that carry a foreign-field element.
    pub fn set_nonnative_target(&mut self, target: &NonNativeTarget, value: &BigUintValue)
        requires
            value.limbs@.len() <= target.value.limbs@.len(),
        ensures
            final(self).target_values@.len() == old(self).target_values@.len()
                + target.value.limbs@.len(),
            buffer_extends(final(self).target_values@, old(self).target_values@),
            forall|i: int|
                0 <= i < target.value.limbs@.len() ==> {
                    let p = final(self).target_values@[old(self).target_values@.len() + i];
                    p.0 == (#[trigger] target.value.limbs@[i]).0 && p.1@ == (if i
                        < value.limbs@.len() {
                        value.limbs@[i] as int
                    } else {
                        0int
                    })
                },
    {
        self.set_biguint_target(&target.value, value)
    }

    pub fn set_hash_target(&mut self, ht: HashOutTarget, value: HashOut)
        ensures
            final(self).target_values@.len() == old(self).target_values@.len() + 4,
            buffer_extends(final(self).target_values@, old(self).target_values@),
            forall|i: int|
                0 <= i < 4 ==> {
                    let p = #[trigger] final(self).target_values@[old(self).target_values@.len()
                        + i];
                    p.0 == ht.elements[i] && p.1 == value.elements[i]
                },
    {
        self.set_target(ht.elements[0], value.elements[0]);
        self.set_target(ht.elements[1], value.elements[1]);
        self.set_target(ht.elements[2], value.elements[2]);
        self.set_target(ht.elements[3], value.elements[3]);
        proof {
            assert(final(self).target_values@.subrange(0, old(self).target_values@.len() as int)
                =~= old(self).target_values@);
        }
    }

    pub fn set_extension_target(&mut self, et: ExtensionTarget, value: QuadraticExtension)
        ensures
            final(self).target_values@.len() == old(self).target_values@.len() + 2,
            buffer_extends(final(self).target_values@, old(self).target_values@),
            final(self).target_values@[old(self).target_values@.len() as int].0 == et.0[0],
            final(self).target_values@[old(self).target_values@.len() as int].1@ == value@.0,
            final(self).target_values@[old(self).target_values@.len() as int + 1].0 == et.0[1],
            final(self).target_values@[old(self).target_values@.len() as int + 1].1@ == value@.1,
    {
        let limbs = value.to_basefield_array();
        self.set_target(et.0[0], limbs[0]);
        self.set_target(et.0[1], limbs[1]);
        proof {
            assert(final(self).target_values@.subrange(0, old(self).target_values@.len() as int)
                =~= old(self).target_values@);
        }
    }

    pub fn set_wire(&mut self, wire: Wire, value: FieldElement)
        ensures
            final(self).target_values@ == old(self).target_values@.push(
                (Target::Wire(wire), value),
            ),
    {
        self.set_target(Target::Wire(wire), value)
    }

    /// Pairs wires with values; the shorter of the two lists bounds how many
    /// pairs are set.
    pub fn set_wires(&mut self, wires: &Vec<Wire>, values: &Vec<FieldElement>)
        ensures
            ({
                let n = if wires@.len() <= values@.len() {
                    wires@.len() as int
                } else {
                    values@.len() as int
                };
                &&& final(self).target_values@.len() == old(self).target_values@.len() + n
                &&& buffer_extends(final(self).target_values@, old(self).target_values@)
                &&& forall|i: int|
                    0 <= i < n ==> final(self).target_values@[old(self).target_values@.len() + i]
                        == (Target::Wire(wires@[i]), values@[i])
            }),
    {
        proof {
            assert(self.target_values@.subrange(0, self.target_values@.len() as int)
                =~= self.target_values@);
        }
        let n = if wires.len() <= values.len() {
            wires.len()
        } else {
            values.len()
        };
        for i in 0..n
            invariant
                n <= wires@.len() && n <= values@.len(),
                self.target_values@.len() == old(self).target_values@.len() + i,
                buffer_extends(self.target_values@, old(self).target_values@),
                forall|j: int|
                    0 <= j < i ==> self.target_values@[old(self).target_values@.len() + j] == (
                    Target::Wire(wires@[j]),
                    values@[j],
                    ),
        {
            self.set_wire(wires[i], values[i]);
            proof {
                assert(self.target_values@.subrange(0, old(self).target_values@.len() as int)
                    =~= old(self).target_values@);
            }
        }
    }

    /// Sets a pair of wires to the two base-field coefficients of an
    /// extension value.
    pub fn set_ext_wires(&mut self, wires: &Vec<Wire>, value: QuadraticExtension)
        requires
            wires@.len() == 2,
        ensures
            final(self).target_values@.len() == old(self).target_values@.len() + 2,
            buffer_extends(final(self).target_values@, old(self).target_values@),
            final(self).target_values@[old(self).target_values@.len() as int].0 == Target::Wire(
                wires@[0],
            ),
            final(self).target_values@[old(self).target_values@.len() as int].1@ == value@.0,
            final(self).target_values@[old(self).target_values@.len() as int + 1].0 == Target::Wire(
                wires@[1],
            ),
            final(self).target_values@[old(self).target_values@.len() as int + 1].1@ == value@.1,
    {
        let parts = value.to_basefield_array();
        let mut vals: Vec<FieldElement> = Vec::new();
        vals.push(parts[0]);
        vals.push(parts[1]);
        proof {
            assert(vals@ =~= seq![parts[0], parts[1]]);
        }
        self.set_wires(wires, &vals);
    }
}

use crate::target::NonNativeTarget;

/// A generator participating in witness generation: it names the targets it
/// watches and can be run repeatedly until it reports completion.
pub trait WitnessGenerator {
    /// The targets whose population re-enqueues this generator.
    spec fn spec_watch_list(&self) -> Seq<Target>;

    /// Every target this generator names lies within the given circuit
    /// dimensions.
    spec fn valid_wires(&self, num_wires: int, degree: int, num_virtual_targets: int) -> bool;

    /// The watch list of a dimension-valid generator holds only valid targets.
    proof fn lemma_watch_list_valid(&self, num_wires: int, degree: int, num_virtual_targets: int)
        requires
            self.valid_wires(num_wires, degree, num_virtual_targets),
        ensures
            forall|k: int|
                0 <= k < self.spec_watch_list().len() ==> (
                #[trigger] self.spec_watch_list()[k]).is_valid(
                    num_wires,
                    degree,
                    num_virtual_targets,
                ),
    ;

    fn watch_list(&self) -> (v: Vec<Target>)
        ensures
            v@ == self.spec_watch_list(),
    ;

    /// Runs the generator against the current assignment; `Ok(true)` means it
    /// finished and is never run again. Whatever it appends to the buffer
    /// names only targets of the witness.
    fn run(&self, witness: &PartitionWitness, out_buffer: &mut GeneratedValues) -> (r: Result<
        bool,
        CircuitError,
    >)
        requires
            witness.wf(),
            self.valid_wires(
                witness.num_wires as int,
                witness.degree as int,
                witness.num_virtual_targets as int,
            ),
        ensures
            buffer_extends(final(out_buffer).target_values@, old(out_buffer).target_values@),
            forall|k: int|
                old(out_buffer).target_values@.len() <= k < final(out_buffer).target_values@.len() ==> witness.target_valid(
                    (#[trigger] final(out_buffer).target_values@[k]).0,
                ),
    ;
}

/// A generator that runs exactly once, as soon as every target of its fixed
/// dependency set is assigned.
pub trait SimpleGenerator: Sized {
    /// The fixed dependency set.
    spec fn spec_dependencies(&self) -> Seq<Target>;

    /// Every target this generator names lies within the given circuit
    /// dimensions.
    spec fn valid_wires(&self, num_wires: int, degree: int, num_virtual_targets: int) -> bool;

    /// The targets the compute step writes on success.
    spec fn spec_outputs(&self) -> Seq<Target>;

    /// Whether the compute step fails against this assignment.
    spec fn spec_fails(&self, witness: PartitionWitness) -> bool;

    /// The error the compute step reports when it fails.
    spec fn spec_error(&self) -> CircuitError;

    /// Exactly the buffer extensions the compute step may produce against
    /// this assignment.
    spec fn deposits(
        &self,
        witness: PartitionWitness,
        appended: Seq<(Target, FieldElement)>,
    ) -> bool;

    /// What a successful run deposits names exactly the output targets.
    proof fn lemma_deposit_targets(
        &self,
        witness: PartitionWitness,
        appended: Seq<(Target, FieldElement)>,
    )
        requires
            self.deposits(witness, appended),
        ensures
            forall|k: int|
                0 <= k < appended.len() ==> self.spec_outputs().contains(
                    (#[trigger] appended[k]).0,
                ),
            forall|j: int|
                0 <= j < self.spec_outputs().len() ==> exists|k: int|
                    0 <= k < appended.len() && appended[k].0 == (
                    #[trigger] self.spec_outputs()[j]),
    ;

    /// The outputs of a dimension-valid generator are valid targets.
    proof fn lemma_outputs_valid(&self, num_wires: int, degree: int, num_virtual_targets: int)
        requires
            self.valid_wires(num_wires, degree, num_virtual_targets),
        ensures
            forall|k: int|
                0 <= k < self.spec_outputs().len() ==> (#[trigger] self.spec_outputs()[k])
                    .is_valid(num_wires, degree, num_virtual_targets),
    ;

    /// The dependencies of a dimension-valid generator are valid targets.
    proof fn lemma_dependencies_valid(
        &self,
        num_wires: int,
        degree: int,
        num_virtual_targets: int,
    )
        requires
            self.valid_wires(num_wires, degree, num_virtual_targets),
        ensures
            forall|k: int|
                0 <= k < self.spec_dependencies().len() ==> (
                #[trigger] self.spec_dependencies()[k]).is_valid(
                    num_wires,
                    degree,
                    num_virtual_targets,
                ),
    ;

    fn dependencies(&self) -> (v: Vec<Target>)
        ensures
            v@ == self.spec_dependencies(),
    ;

    /// The single compute step, invoked once all dependencies are assigned.
    /// A generator reports only its own failures; the deadlock verdict
    /// belongs to the engine.
    fn run_once(&self, witness: &PartitionWitness, out_buffer: &mut GeneratedValues) -> (r: Result<
        (),
        CircuitError,
    >)
        requires
            witness.wf(),
            self.valid_wires(
                witness.num_wires as int,
                witness.degree as int,
                witness.num_virtual_targets as int,
            ),
            forall|k: int|
                0 <= k < self.spec_dependencies().len() ==> witness.target_valid(
                    #[trigger] self.spec_dependencies()[k],
                ) && witness.value_of(self.spec_dependencies()[k]) is Some,
        ensures
            buffer_extends(final(out_buffer).target_values@, old(out_buffer).target_values@),
            forall|k: int|
                old(out_buffer).target_values@.len() <= k < final(out_buffer).target_values@.len() ==> witness.target_valid(
                    (#[trigger] final(out_buffer).target_values@[k]).0,
                ),
            r is Err ==> r->Err_0 != CircuitError::Deadlock,
            r is Err <==> self.spec_fails(*witness),
            r is Err ==> r == Result::<(), CircuitError>::Err(self.spec_error())
                && final(out_buffer).target_values@ == old(out_buffer).target_values@,
            r is Ok ==> self.deposits(
                *witness,
                final(out_buffer).target_values@.subrange(
                    old(out_buffer).target_values@.len() as int,
                    final(out_buffer).target_values@.len() as int,
                ),
            ),
    ;

    fn adapter(self) -> (r: SimpleGeneratorAdapter<Self>)
        ensures
            r.inner == self,
    {
        SimpleGeneratorAdapter { inner: self }
    }
}

/// Lifts a one-shot generator to the repeatable interface: it waits until its
/// dependency set is fully assigned, then delegates to the single compute
/// step and reports completion.
#[derive(Clone, Debug)]
pub struct SimpleGeneratorAdapter<SG: SimpleGenerator> {
    pub inner: SG,
}

impl<SG: SimpleGenerator> WitnessGenerator for SimpleGeneratorAdapter<SG> {
    open spec fn spec_watch_list(&self) -> Seq<Target> {
        self.inner.spec_dependencies()
    }

    open spec fn valid_wires(&self, num_wires: int, degree: int, num_virtual_targets: int) -> bool {
        self.inner.valid_wires(num_wires, degree, num_virtual_targets)
    }

    proof fn lemma_watch_list_valid(&self, num_wires: int, degree: int, num_virtual_targets: int) {
        self.inner.lemma_dependencies_valid(num_wires, degree, num_virtual_targets);
    }

    fn watch_list(&self) -> (v: Vec<Target>) {
        self.inner.dependencies()
    }

    fn run(&self, witness: &PartitionWitness, out_buffer: &mut GeneratedValues) -> (r: Result<
        bool,
        CircuitError,
    >)
    // Reports "not finished" exactly when some dependency is unassigned, and
    // then deposits nothing; once every dependency is assigned, it delegates
    // to the single compute step and forwards its outcome as "finished".
        ensures
            (r == Result::<bool, CircuitError>::Ok(false)) <==> !all_assigned(
                *witness,
                self.inner.spec_dependencies(),
            ),
            r == Result::<bool, CircuitError>::Ok(false) ==> final(out_buffer).target_values@
                == old(out_buffer).target_values@,
            r is Err ==> r->Err_0 != CircuitError::Deadlock,
            r == Result::<bool, CircuitError>::Ok(true) ==> self.inner.deposits(
                *witness,
                final(out_buffer).target_values@.subrange(
                    old(out_buffer).target_values@.len() as int,
                    final(out_buffer).target_values@.len() as int,
                ),
            ),
            r is Err ==> r == Result::<bool, CircuitError>::Err(self.inner.spec_error())
                && final(out_buffer).target_values@ == old(out_buffer).target_values@
                && self.inner.spec_fails(*witness),
    {
        let deps = self.inner.dependencies();
        proof {
            self.inner.lemma_dependencies_valid(
                witness.num_wires as int,
                witness.degree as int,
                witness.num_virtual_targets as int,
            );
        }
        if witness.contains_all(&deps) {
            match self.inner.run_once(witness, out_buffer) {
                Ok(()) => Ok(true),
                Err(e) => Err(e),
            }
        } else {
            proof {
                assert(out_buffer.target_values@.subrange(
                    0,
                    out_buffer.target_values@.len() as int,
                ) =~= out_buffer.target_values@);
            }
            Ok(false)
        }
    }
}

/// A generator that copies one target's value to another.
#[derive(Clone, Copy, Debug)]
pub struct CopyGenerator {
    pub src: Target,
    pub dst: Target,
}

impl SimpleGenerator for CopyGenerator {
    open spec fn spec_dependencies(&self) -> Seq<Target> {
        seq![self.src]
    }

    open spec fn spec_outputs(&self) -> Seq<Target> {
        seq![self.dst]
    }

    open spec fn spec_fails(&self, witness: PartitionWitness) -> bool {
        false
    }

    /// Never reported: this generator cannot fail.
    open spec fn spec_error(&self) -> CircuitError {
        CircuitError::AccessIndexOutOfRange
    }

    open spec fn deposits(
        &self,
        witness: PartitionWitness,
        appended: Seq<(Target, FieldElement)>,
    ) -> bool {
        appended == seq![(self.dst, witness.value_of(self.src).unwrap())]
    }

    proof fn lemma_deposit_targets(
        &self,
        witness: PartitionWitness,
        appended: Seq<(Target, FieldElement)>,
    ) {
        assert(appended[0].0 == self.dst);
        assert(self.spec_outputs()[0] == self.dst);
        assert(self.spec_outputs().contains(self.dst));
    }

    proof fn lemma_outputs_valid(&self, num_wires: int, degree: int, num_virtual_targets: int) {
    }

    open spec fn valid_wires(&self, num_wires: int, degree: int, num_virtual_targets: int) -> bool {
        self.src.is_valid(num_wires, degree, num_virtual_targets) && self.dst.is_valid(
            num_wires,
            degree,
            num_virtual_targets,
        )
    }

    proof fn lemma_dependencies_valid(
        &self,
        num_wires: int,
        degree: int,
        num_virtual_targets: int,
    ) {
    }

    fn dependencies(&self) -> (v: Vec<Target>) {
        let mut v: Vec<Target> = Vec::new();
        v.push(self.src);
        proof {
            assert(v@ =~= seq![self.src]);
        }
        v
    }

    fn run_once(&self, witness: &PartitionWitness, out_buffer: &mut GeneratedValues) -> (r: Result<
        (),
        CircuitError,
    >)
        ensures
            r is Ok,
            final(out_buffer).target_values@ == old(out_buffer).target_values@.push(
                (self.dst, witness.value_of(self.src).unwrap()),
            ),
    {
        proof {
            assert(self.spec_dependencies()[0] == self.src);
        }
        let value = witness.get_target(self.src);
        out_buffer.set_target(self.dst, value);
        proof {
            assert(final(out_buffer).target_values@.subrange(
                0,
                old(out_buffer).target_values@.len() as int,
            ) =~= old(out_buffer).target_values@);
            assert(final(out_buffer).target_values@.subrange(
                old(out_buffer).target_values@.len() as int,
                final(out_buffer).target_values@.len() as int,
            ) =~= seq![(self.dst, witness.value_of(self.src).unwrap())]);
        }
        Ok(())
    }
}

/// A generator that deposits a freshly drawn random value.
#[derive(Clone, Copy, Debug)]
pub struct RandomValueGenerator {
    pub target: Target,
}

impl SimpleGenerator for RandomValueGenerator {
    open spec fn spec_dependencies(&self) -> Seq<Target> {
        Seq::empty()
    }

    open spec fn spec_outputs(&self) -> Seq<Target> {
        seq![self.target]
    }

    open spec fn spec_fails(&self, witness: PartitionWitness) -> bool {
        false
    }

    /// Never reported: this generator cannot fail.
    open spec fn spec_error(&self) -> CircuitError {
        CircuitError::AccessIndexOutOfRange
    }

    open spec fn deposits(
        &self,
        witness: PartitionWitness,
        appended: Seq<(Target, FieldElement)>,
    ) -> bool {
        exists|v: FieldElement|
            appended == seq![(self.target, v)] && v.value < crate::field::FIELD_ORDER
    }

    proof fn lemma_deposit_targets(
        &self,
        witness: PartitionWitness,
        appended: Seq<(Target, FieldElement)>,
    ) {
        let v = choose|v: FieldElement|
            appended == seq![(self.target, v)] && v.value < crate::field::FIELD_ORDER;
        assert(appended[0].0 == self.target);
        assert(self.spec_outputs()[0] == self.target);
        assert(self.spec_outputs().contains(self.target));
    }

    proof fn lemma_outputs_valid(&self, num_wires: int, degree: int, num_virtual_targets: int) {
    }

    open spec fn valid_wires(&self, num_wires: int, degree: int, num_virtual_targets: int) -> bool {
        self.target.is_valid(num_wires, degree, num_virtual_targets)
    }

    proof fn lemma_dependencies_valid(
        &self,
        num_wires: int,
        degree: int,
        num_virtual_targets: int,
    ) {
    }

    fn dependencies(&self) -> (v: Vec<Target>) {
        let v: Vec<Target> = Vec::new();
        proof {
            assert(v@ =~= Seq::<Target>::empty());
        }
        v
    }

    fn run_once(&self, witness: &PartitionWitness, out_buffer: &mut GeneratedValues) -> (r: Result<
        (),
        CircuitError,
    >)
        ensures
            r is Ok,
            exists|v: FieldElement|
                final(out_buffer).target_values@ == old(out_buffer).target_values@.push(
                    (self.target, v),
                ) && v.value < crate::field::FIELD_ORDER,
    {
        let random_value = FieldElement::sample();
        out_buffer.set_target(self.target, random_value);
        proof {
            assert(final(out_buffer).target_values@.subrange(
                0,
                old(out_buffer).target_values@.len() as int,
            ) =~= old(out_buffer).target_values@);
            assert(final(out_buffer).target_values@.subrange(
                old(out_buffer).target_values@.len() as int,
                final(out_buffer).target_values@.len() as int,
            ) =~= seq![(self.target, random_value)]);
        }
        Ok(())
    }
}

/// A generator that witnesses whether a value is zero: it sets the companion
/// target to one for a zero value and to the value's inverse otherwise.
#[derive(Clone, Copy, Debug)]
pub struct NonzeroTestGenerator {
    pub to_test: Target,
    pub dummy: Target,
}

impl SimpleGenerator for NonzeroTestGenerator {
    open spec fn spec_dependencies(&self) -> Seq<Target> {
        seq![self.to_test]
    }

    open spec fn spec_outputs(&self) -> Seq<Target> {
        seq![self.dummy]
    }

    open spec fn spec_fails(&self, witness: PartitionWitness) -> bool {
        false
    }

    /// Never reported: this generator cannot fail.
    open spec fn spec_error(&self) -> CircuitError {
        CircuitError::AccessIndexOutOfRange
    }

    open spec fn deposits(
        &self,
        witness: PartitionWitness,
        appended: Seq<(Target, FieldElement)>,
    ) -> bool {
        let tv = witness.value_of(self.to_test).unwrap()@;
        appended.len() == 1 && appended[0].0 == self.dummy && appended[0].1@ == (if tv == 0 {
            1int
        } else {
            inv_m(tv)
        })
    }

    proof fn lemma_deposit_targets(
        &self,
        witness: PartitionWitness,
        appended: Seq<(Target, FieldElement)>,
    ) {
        assert(appended[0].0 == self.dummy);
        assert(self.spec_outputs()[0] == self.dummy);
        assert(self.spec_outputs().contains(self.dummy));
    }

    proof fn lemma_outputs_valid(&self, num_wires: int, degree: int, num_virtual_targets: int) {
    }

    open spec fn valid_wires(&self, num_wires: int, degree: int, num_virtual_targets: int) -> bool {
        self.to_test.is_valid(num_wires, degree, num_virtual_targets) && self.dummy.is_valid(
            num_wires,
            degree,
            num_virtual_targets,
        )
    }

    proof fn lemma_dependencies_valid(
        &self,
        num_wires: int,
        degree: int,
        num_virtual_targets: int,
    ) {
    }

    fn dependencies(&self) -> (v: Vec<Target>) {
        let mut v: Vec<Target> = Vec::new();
        v.push(self.to_test);
        proof {
            assert(v@ =~= seq![self.to_test]);
        }
        v
    }

    fn run_once(&self, witness: &PartitionWitness, out_buffer: &mut GeneratedValues) -> (r: Result<
        (),
        CircuitError,
    >)
        ensures
            r is Ok,
            pushed_one(
                old(out_buffer).target_values@,
                final(out_buffer).target_values@,
                self.dummy,
                ({
                    let tv = witness.value_of(self.to_test).unwrap()@;
                    if tv == 0 {
                        1int
                    } else {
                        inv_m(tv)
                    }
                }),
            ),
    {
        proof {
            assert(self.spec_dependencies()[0] == self.to_test);
        }
        let to_test_value = witness.get_target(self.to_test);
        let dummy_value = if to_test_value.is_zero() {
            FieldElement::one()
        } else {
            to_test_value.inverse()
        };
        out_buffer.set_target(self.dummy, dummy_value);
        proof {
            assert(final(out_buffer).target_values@.subrange(
                0,
                old(out_buffer).target_values@.len() as int,
            ) =~= old(out_buffer).target_values@);
            assert(final(out_buffer).target_values@.subrange(
                old(out_buffer).target_values@.len() as int,
                final(out_buffer).target_values@.len() as int,
            ) =~= seq![(self.dummy, dummy_value)]);
        }
        Ok(())
    }
}


/// The heterogeneous generators of a circuit, behind one tagged variant per
/// concrete kind, so the engine needs only the shared interface.
#[derive(Clone, Debug)]
pub enum AnyWitnessGenerator {
    RandomAccess(SimpleGeneratorAdapter<crate::gates::RandomAccessGenerator>),
    CopyValue(SimpleGeneratorAdapter<CopyGenerator>),
    RandomValue(SimpleGeneratorAdapter<RandomValueGenerator>),
    NonzeroTest(SimpleGeneratorAdapter<NonzeroTestGenerator>),
}

impl AnyWitnessGenerator {
    /// The targets the wrapped generator writes on a successful run.
    pub open spec fn spec_outputs(&self) -> Seq<Target> {
        match self {
            AnyWitnessGenerator::RandomAccess(g) => g.inner.spec_outputs(),
            AnyWitnessGenerator::CopyValue(g) => g.inner.spec_outputs(),
            AnyWitnessGenerator::RandomValue(g) => g.inner.spec_outputs(),
            AnyWitnessGenerator::NonzeroTest(g) => g.inner.spec_outputs(),
        }
    }

    /// Whether the wrapped compute step fails against this assignment.
    pub open spec fn spec_fails_on(&self, witness: PartitionWitness) -> bool {
        match self {
            AnyWitnessGenerator::RandomAccess(g) => g.inner.spec_fails(witness),
            AnyWitnessGenerator::CopyValue(g) => g.inner.spec_fails(witness),
            AnyWitnessGenerator::RandomValue(g) => g.inner.spec_fails(witness),
            AnyWitnessGenerator::NonzeroTest(g) => g.inner.spec_fails(witness),
        }
    }

    /// The error the wrapped compute step reports when it fails.
    pub open spec fn spec_err(&self) -> CircuitError {
        match self {
            AnyWitnessGenerator::RandomAccess(g) => g.inner.spec_error(),
            AnyWitnessGenerator::CopyValue(g) => g.inner.spec_error(),
            AnyWitnessGenerator::RandomValue(g) => g.inner.spec_error(),
            AnyWitnessGenerator::NonzeroTest(g) => g.inner.spec_error(),
        }
    }

    /// Exactly the buffer extensions the wrapped compute step may produce.
    pub open spec fn spec_deposits(
        &self,
        witness: PartitionWitness,
        appended: Seq<(Target, FieldElement)>,
    ) -> bool {
        match self {
            AnyWitnessGenerator::RandomAccess(g) => g.inner.deposits(witness, appended),
            AnyWitnessGenerator::CopyValue(g) => g.inner.deposits(witness, appended),
            AnyWitnessGenerator::RandomValue(g) => g.inner.deposits(witness, appended),
            AnyWitnessGenerator::NonzeroTest(g) => g.inner.deposits(witness, appended),
        }
    }

    /// What a successful run deposits names exactly the output targets.
    pub proof fn lemma_deposit_targets(
        &self,
        witness: PartitionWitness,
        appended: Seq<(Target, FieldElement)>,
    )
        requires
            self.spec_deposits(witness, appended),
        ensures
            forall|k: int|
                0 <= k < appended.len() ==> self.spec_outputs().contains(
                    (#[trigger] appended[k]).0,
                ),
            forall|j: int|
                0 <= j < self.spec_outputs().len() ==> exists|k: int|
                    0 <= k < appended.len() && appended[k].0 == (
                    #[trigger] self.spec_outputs()[j]),
    {
        match self {
            AnyWitnessGenerator::RandomAccess(g) => g.inner.lemma_deposit_targets(
                witness,
                appended,
            ),
            AnyWitnessGenerator::CopyValue(g) => g.inner.lemma_deposit_targets(witness, appended),
            AnyWitnessGenerator::RandomValue(g) => g.inner.lemma_deposit_targets(
                witness,
                appended,
            ),
            AnyWitnessGenerator::NonzeroTest(g) => g.inner.lemma_deposit_targets(
                witness,
                appended,
            ),
        }
    }

    /// The outputs of a dimension-valid generator are valid targets.
    pub proof fn lemma_outputs_valid(
        &self,
        num_wires: int,
        degree: int,
        num_virtual_targets: int,
    )
        requires
            self.valid_wires(num_wires, degree, num_virtual_targets),
        ensures
            forall|k: int|
                0 <= k < self.spec_outputs().len() ==> (#[trigger] self.spec_outputs()[k])
                    .is_valid(num_wires, degree, num_virtual_targets),
    {
        match self {
            AnyWitnessGenerator::RandomAccess(g) => g.inner.lemma_outputs_valid(
                num_wires,
                degree,
                num_virtual_targets,
            ),
            AnyWitnessGenerator::CopyValue(g) => g.inner.lemma_outputs_valid(
                num_wires,
                degree,
                num_virtual_targets,
            ),
            AnyWitnessGenerator::RandomValue(g) => g.inner.lemma_outputs_valid(
                num_wires,
                degree,
                num_virtual_targets,
            ),
            AnyWitnessGenerator::NonzeroTest(g) => g.inner.lemma_outputs_valid(
                num_wires,
                degree,
                num_virtual_targets,
            ),
        }
    }
}

impl WitnessGenerator for AnyWitnessGenerator {
    open spec fn spec_watch_list(&self) -> Seq<Target> {
        match self {
            AnyWitnessGenerator::RandomAccess(g) => g.spec_watch_list(),
            AnyWitnessGenerator::CopyValue(g) => g.spec_watch_list(),
            AnyWitnessGenerator::RandomValue(g) => g.spec_watch_list(),
            AnyWitnessGenerator::NonzeroTest(g) => g.spec_watch_list(),
        }
    }

    open spec fn valid_wires(&self, num_wires: int, degree: int, num_virtual_targets: int) -> bool {
        match self {
            AnyWitnessGenerator::RandomAccess(g) => g.valid_wires(
                num_wires,
                degree,
                num_virtual_targets,
            ),
            AnyWitnessGenerator::CopyValue(g) => g.valid_wires(
                num_wires,
                degree,
                num_virtual_targets,
            ),
            AnyWitnessGenerator::RandomValue(g) => g.valid_wires(
                num_wires,
                degree,
                num_virtual_targets,
            ),
            AnyWitnessGenerator::NonzeroTest(g) => g.valid_wires(
                num_wires,
                degree,
                num_virtual_targets,
            ),
        }
    }

    proof fn lemma_watch_list_valid(&self, num_wires: int, degree: int, num_virtual_targets: int) {
        match self {
            AnyWitnessGenerator::RandomAccess(g) => g.lemma_watch_list_valid(
                num_wires,
                degree,
                num_virtual_targets,
            ),
            AnyWitnessGenerator::CopyValue(g) => g.lemma_watch_list_valid(
                num_wires,
                degree,
                num_virtual_targets,
            ),
            AnyWitnessGenerator::RandomValue(g) => g.lemma_watch_list_valid(
                num_wires,
                degree,
                num_virtual_targets,
            ),
            AnyWitnessGenerator::NonzeroTest(g) => g.lemma_watch_list_valid(
                num_wires,
                degree,
                num_virtual_targets,
            ),
        }
    }

    fn watch_list(&self) -> (v: Vec<Target>) {
        match self {
            AnyWitnessGenerator::RandomAccess(g) => g.watch_list(),
            AnyWitnessGenerator::CopyValue(g) => g.watch_list(),
            AnyWitnessGenerator::RandomValue(g) => g.watch_list(),
            AnyWitnessGenerator::NonzeroTest(g) => g.watch_list(),
        }
    }

    fn run(&self, witness: &PartitionWitness, out_buffer: &mut GeneratedValues) -> (r: Result<
        bool,
        CircuitError,
    >)
    // Reports "not finished" exactly when some watched target is unassigned,
    // and then deposits nothing.
        ensures
            (r == Result::<bool, CircuitError>::Ok(false)) <==> !all_assigned(
                *witness,
                self.spec_watch_list(),
            ),
            r == Result::<bool, CircuitError>::Ok(false) ==> final(out_buffer).target_values@
                == old(out_buffer).target_values@,
            r is Err ==> r->Err_0 != CircuitError::Deadlock,
            r == Result::<bool, CircuitError>::Ok(true) ==> self.spec_deposits(
                *witness,
                final(out_buffer).target_values@.subrange(
                    old(out_buffer).target_values@.len() as int,
                    final(out_buffer).target_values@.len() as int,
                ),
            ),
            r is Err ==> r == Result::<bool, CircuitError>::Err(self.spec_err())
                && final(out_buffer).target_values@ == old(out_buffer).target_values@
                && self.spec_fails_on(*witness),
    {
        match self {
            AnyWitnessGenerator::RandomAccess(g) => g.run(witness, out_buffer),
            AnyWitnessGenerator::CopyValue(g) => g.run(witness, out_buffer),
            AnyWitnessGenerator::RandomValue(g) => g.run(witness, out_buffer),
            AnyWitnessGenerator::NonzeroTest(g) => g.run(witness, out_buffer),
        }
    }
}

/// How many generators have not yet reported completion.
pub open spec fn count_unexpired(s: Seq<bool>) -> nat
    decreases s.len(),
{
    if s.len() == 0 {
        0
    } else {
        count_unexpired(s.drop_last()) + (if s.last() {
            0nat
        } else {
            1nat
        })
    }
}

/// An unexpired entry contributes to the count.
pub proof fn lemma_count_unexpired_at(s: Seq<bool>, i: int)
    requires
        0 <= i < s.len(),
        !s[i],
    ensures
        count_unexpired(s) >= 1,
    decreases s.len(),
{
    if i == s.len() - 1 {
    } else {
        lemma_count_unexpired_at(s.drop_last(), i);
    }
}

/// Expiring one unexpired entry lowers the count by one.
pub proof fn lemma_count_unexpired_update(s: Seq<bool>, i: int)
    requires
        0 <= i < s.len(),
        !s[i],
    ensures
        count_unexpired(s.update(i, true)) == count_unexpired(s) - 1,
    decreases s.len(),
{
    lemma_count_unexpired_at(s, i);
    if i == s.len() - 1 {
        assert(s.update(i, true).drop_last() =~= s.drop_last());
    } else {
        assert(s.update(i, true).drop_last() =~= s.drop_last().update(i, true));
        lemma_count_unexpired_update(s.drop_last(), i);
    }
}

/// A fully unassigned value table.
pub open spec fn blank_values(len: int) -> Seq<Option<FieldElement>> {
    Seq::new(len as nat, |i: int| None::<FieldElement>)
}

/// The value table after seeding with the given input pairs in order, each
/// through its class representative; a later write to a class wins.
pub open spec fn seeded_values(
    init: Seq<Option<FieldElement>>,
    pairs: Seq<(Target, FieldElement)>,
    num_wires: int,
    degree: int,
    rep_map: Seq<usize>,
) -> Seq<Option<FieldElement>>
    decreases pairs.len(),
{
    if pairs.len() == 0 {
        init
    } else {
        seeded_values(init, pairs.drop_last(), num_wires, degree, rep_map).update(
            rep_map[pairs.last().0.spec_index(num_wires, degree)] as int,
            Some(pairs.last().1),
        )
    }
}

/// Seeding populates the class representative of every input pair.
pub proof fn lemma_seeded_assigns(
    init: Seq<Option<FieldElement>>,
    pairs: Seq<(Target, FieldElement)>,
    num_wires: int,
    degree: int,
    rep_map: Seq<usize>,
    k: int,
)
    requires
        0 <= k < pairs.len(),
        forall|j: int|
            0 <= j < pairs.len() ==> 0 <= (rep_map[(#[trigger] pairs[j]).0.spec_index(
                num_wires,
                degree,
            )] as int) && (rep_map[pairs[j].0.spec_index(num_wires, degree)] as int)
                < init.len(),
    ensures
        seeded_values(init, pairs, num_wires, degree, rep_map).len() == init.len(),
        seeded_values(init, pairs, num_wires, degree, rep_map)[rep_map[pairs[k].0.spec_index(
            num_wires,
            degree,
        )] as int] is Some,
    decreases pairs.len(),
{
    if k == pairs.len() - 1 {
        if pairs.len() > 1 {
            lemma_seeded_assigns(init, pairs.drop_last(), num_wires, degree, rep_map, 0);
        }
    } else {
        assert(pairs.drop_last()[k] == pairs[k]);
        lemma_seeded_assigns(init, pairs.drop_last(), num_wires, degree, rep_map, k);
    }
}

/// Some entry of the list, at or past the given position, names `g`.
pub open spec fn queued_from(p: Seq<usize>, from: int, g: int) -> bool {
    exists|j: int| from <= j < p.len() && ((#[trigger] p[j]) as int) == g
}

/// Every generator's watch list is already covered by the inputs-seeded
/// assignment: all generators are ready to run at once.
pub open spec fn ready_after_seeding(
    generators: Seq<AnyWitnessGenerator>,
    pairs: Seq<(Target, FieldElement)>,
    num_wires: int,
    degree: int,
    num_virtual_targets: int,
    rep_map: Seq<usize>,
) -> bool {
    forall|g: int, k: int|
        0 <= g < generators.len() && 0 <= k < generators[g].spec_watch_list().len()
            ==> seeded_values(
            blank_values(num_wires * degree + num_virtual_targets),
            pairs,
            num_wires,
            degree,
            rep_map,
        )[rep_map[(#[trigger] generators[g].spec_watch_list()[k]).spec_index(
            num_wires,
            degree,
        )] as int] is Some
}

/// No generator writes into the equivalence class whose representative
/// slot is `i`.
pub open spec fn outputs_avoid_slot(
    generators: Seq<AnyWitnessGenerator>,
    num_wires: int,
    degree: int,
    rep_map: Seq<usize>,
    i: int,
) -> bool {
    forall|g: int, k: int|
        0 <= g < generators.len() && 0 <= k < generators[g].spec_outputs().len() ==> (rep_map[(
        #[trigger] generators[g].spec_outputs()[k]).spec_index(num_wires, degree)] as int) != i
}

/// A table with every entry expired counts none.
pub proof fn lemma_count_all_expired(s: Seq<bool>)
    requires
        forall|j: int| 0 <= j < s.len() ==> #[trigger] s[j],
    ensures
        count_unexpired(s) == 0,
    decreases s.len(),
{
    if s.len() > 0 {
        lemma_count_all_expired(s.drop_last());
    }
}

/// A table whose unexpired count is zero has every entry expired.
pub proof fn lemma_count_unexpired_zero(s: Seq<bool>)
    requires
        count_unexpired(s) == 0,
    ensures
        forall|j: int| 0 <= j < s.len() ==> #[trigger] s[j],
    decreases s.len(),
{
    if s.len() > 0 {
        lemma_count_unexpired_zero(s.drop_last());
        assert forall|j: int| 0 <= j < s.len() implies #[trigger] s[j] by {
            if j < s.len() - 1 {
                assert(s.drop_last()[j] == s[j]);
            }
        }
    }
}

/// Drives the generators to a fixpoint over a fresh partial assignment
/// seeded with the given inputs. Each pass runs the pending generators,
/// merges what they produced into the witness through the equivalence
/// structure, and re-enqueues the non-expired generators watching a
/// representative populated for the first time. The run is valid only if
/// every generator completes; otherwise generation is deadlocked and a
/// fatal configuration error is reported.
pub fn generate_partial_witness(
    inputs: PartialWitness,
    generators: &Vec<AnyWitnessGenerator>,
    num_wires: usize,
    degree: usize,
    num_virtual_targets: usize,
    representative_map: Vec<usize>,
) -> (r: Result<PartitionWitness, CircuitError>)
    requires
        representative_map@.len() == num_wires * degree + num_virtual_targets,
        forall|i: int|
            0 <= i < representative_map@.len() ==> (#[trigger] representative_map@[i])
                < representative_map@.len(),
        forall|k: int|
            0 <= k < inputs.target_values@.len() ==> (#[trigger] inputs.target_values@[k]).0
                .is_valid(num_wires as int, degree as int, num_virtual_targets as int),
        forall|g: int|
            0 <= g < generators@.len() ==> (#[trigger] generators@[g]).valid_wires(
                num_wires as int,
                degree as int,
                num_virtual_targets as int,
            ),
    ensures
        r is Ok ==> ({
            let w = r->Ok_0;
            let seeded = seeded_values(
                blank_values(num_wires * degree + num_virtual_targets),
                inputs.target_values@,
                num_wires as int,
                degree as int,
                representative_map@,
            );
            &&& w.wf()
            &&& w.num_wires == num_wires
            &&& w.degree == degree
            &&& w.num_virtual_targets == num_virtual_targets
            &&& w.representative_map == representative_map
            // Assignments grow monotonically: every slot the inputs seeded is
            // still populated on return.
            &&& forall|i: int|
                0 <= i < seeded.len() && seeded[i] is Some ==> #[trigger] w.values@[i] is Some
            // Every externally supplied input target reads back assigned,
            &&& forall|k: int|
                0 <= k < inputs.target_values@.len() ==> w.value_of(
                    (#[trigger] inputs.target_values@[k]).0,
                ) is Some
            // ... and with it every member of its copy-constrained class.
            &&& forall|k: int, t: Target|
                0 <= k < inputs.target_values@.len() && w.target_valid(t) && #[trigger] w.rep_index(
                    t,
                ) == w.rep_index((#[trigger] inputs.target_values@[k]).0) ==> w.value_of(t)
                    is Some
            // Every generator ran to completion: each one's watched dependency
            // set is fully assigned on return.
            &&& forall|g: int|
                0 <= g < generators@.len() ==> all_assigned(
                    w,
                    (#[trigger] generators@[g]).spec_watch_list(),
                )
        }),
        // On success every generator ran to completion and deposited its
        // outputs: the claimed values it computes read back assigned.
        r is Ok ==> (forall|g: int|
            0 <= g < generators@.len() ==> all_assigned(
                r->Ok_0,
                (#[trigger] generators@[g]).spec_outputs(),
            )),
        // A slot whose equivalence class no generator writes keeps exactly
        // its inputs-seeded value: seeded inputs are preserved there, and
        // every member of such a class reads back that same value.
        r is Ok ==> (forall|i: int|
            0 <= i < r->Ok_0.values@.len() && outputs_avoid_slot(
                generators@,
                num_wires as int,
                degree as int,
                representative_map@,
                i,
            ) ==> #[trigger] r->Ok_0.values@[i] == seeded_values(
                blank_values(num_wires * degree + num_virtual_targets),
                inputs.target_values@,
                num_wires as int,
                degree as int,
                representative_map@,
            )[i]),
        // A failure other than the deadlock verdict is some generator's own
        // declared error, and that generator can fail.
        (r is Err && r->Err_0 != CircuitError::Deadlock) ==> exists|g: int|
            0 <= g < generators@.len() && r->Err_0 == (#[trigger] generators@[g]).spec_err()
                && (exists|wv: PartitionWitness| generators@[g].spec_fails_on(wv)),
        // Success is owed to a ready set of generators none of which can
        // fail.
        (ready_after_seeding(
            generators@,
            inputs.target_values@,
            num_wires as int,
            degree as int,
            num_virtual_targets as int,
            representative_map@,
        ) && (forall|g: int, wv: PartitionWitness|
            0 <= g < generators@.len() ==> !(#[trigger] generators@[g].spec_fails_on(wv))))
            ==> r is Ok,
        // A generator set whose every watch list is covered by the inputs is
        // ready at once and never ends in the deadlock verdict.
        ready_after_seeding(
            generators@,
            inputs.target_values@,
            num_wires as int,
            degree as int,
            num_virtual_targets as int,
            representative_map@,
        ) ==> !(r == Result::<PartitionWitness, CircuitError>::Err(CircuitError::Deadlock)),
        // With no generators the run trivially succeeds and returns exactly
        // the inputs-seeded witness.
        generators@.len() == 0 ==> r is Ok && r->Ok_0.values@ == seeded_values(
            blank_values(num_wires * degree + num_virtual_targets),
            inputs.target_values@,
            num_wires as int,
            degree as int,
            representative_map@,
        ),
{
    let mut witness = PartitionWitness::new(
        num_wires,
        degree,
        num_virtual_targets,
        representative_map,
    );
    let ghost rep_map = witness.representative_map;
    let ghost blank = witness.values@;
    proof {
        assert(blank =~= blank_values(num_wires * degree + num_virtual_targets));
    }

    // Seed the assignment with the externally supplied inputs.
    let n_inputs = inputs.target_values.len();
    for k in 0..n_inputs
        invariant
            n_inputs == inputs.target_values@.len(),
            witness.wf(),
            witness.num_wires == num_wires,
            witness.degree == degree,
            witness.num_virtual_targets == num_virtual_targets,
            witness.representative_map == rep_map,
            witness.values@ == seeded_values(
                blank,
                inputs.target_values@.take(k as int),
                num_wires as int,
                degree as int,
                rep_map@,
            ),
            forall|j: int|
                0 <= j < inputs.target_values@.len() ==> (#[trigger] inputs.target_values@[j]).0
                    .is_valid(num_wires as int, degree as int, num_virtual_targets as int),
    {
        proof {
            assert(inputs.target_values@.take(0) =~= Seq::<(Target, FieldElement)>::empty());
        }
        let (t, v) = inputs.target_values[k];
        proof {
            assert(inputs.target_values@[k as int].0.is_valid(
                num_wires as int,
                degree as int,
                num_virtual_targets as int,
            ));
        }
        witness.set_target(t, v);
        proof {
            let pairs = inputs.target_values@;
            assert(pairs.take(k + 1).drop_last() =~= pairs.take(k as int));
            assert(pairs.take(k + 1).last() == pairs[k as int]);
        }
    }
    let ghost seeded0 = witness.values@;
    proof {
        assert(inputs.target_values@.take(n_inputs as int) =~= inputs.target_values@);
        assert(seeded0 == seeded_values(
            blank_values(num_wires * degree + num_virtual_targets),
            inputs.target_values@,
            num_wires as int,
            degree as int,
            rep_map@,
        ));
    }

    // Index the non-expired generators by the representatives they watch.
    let n_gens = generators.len();
    let n_slots = witness.representative_map.len();
    let mut watchers: Vec<Vec<usize>> = Vec::new();
    for s in 0..n_slots
        invariant
            watchers@.len() == s,
            forall|q: int| 0 <= q < s ==> (#[trigger] watchers@[q])@.len() == 0,
    {
        watchers.push(Vec::new());
    }
    for g in 0..n_gens
        invariant
            n_gens == generators@.len(),
            witness.wf(),
            witness.num_wires == num_wires,
            witness.degree == degree,
            witness.num_virtual_targets == num_virtual_targets,
            witness.representative_map == rep_map,
            watchers@.len() == witness.values@.len(),
            forall|gg: int|
                0 <= gg < generators@.len() ==> (#[trigger] generators@[gg]).valid_wires(
                    num_wires as int,
                    degree as int,
                    num_virtual_targets as int,
                ),
            forall|q: int, j: int|
                0 <= q < watchers@.len() && 0 <= j < watchers@[q]@.len() ==> ((
                    #[trigger] watchers@[q]@[j]) as int) < generators@.len(),
    {
        let wl = generators[g].watch_list();
        proof {
            generators@[g as int].lemma_watch_list_valid(num_wires as int, degree as int, num_virtual_targets as int);
        }
        let n_watch = wl.len();
        for t in 0..n_watch
            invariant
                n_gens == generators@.len(),
                g < n_gens,
                n_watch == wl@.len(),
                witness.wf(),
                witness.num_wires == num_wires,
                witness.degree == degree,
                witness.num_virtual_targets == num_virtual_targets,
                witness.representative_map == rep_map,
                watchers@.len() == witness.values@.len(),
                forall|k: int|
                    0 <= k < wl@.len() ==> (#[trigger] wl@[k]).is_valid(num_wires as int, degree as int, num_virtual_targets as int),
                forall|q: int, j: int|
                    0 <= q < watchers@.len() && 0 <= j < watchers@[q]@.len() ==> ((
                        #[trigger] watchers@[q]@[j]) as int) < generators@.len(),
        {
            proof {
                assert(wl@[t as int].is_valid(num_wires as int, degree as int, num_virtual_targets as int));
            }
            let rep = witness.rep(wl[t]);
            watchers[rep].push(g);
        }
    }

    // All generators start out pending; none has expired.
    let mut pending: Vec<usize> = Vec::new();
    for g in 0..n_gens
        invariant
            pending@.len() == g,
            forall|j: int| 0 <= j < g ==> (#[trigger] pending@[j] as int) == j,
    {
        pending.push(g);
    }
    let mut expired: Vec<bool> = Vec::new();
    for g in 0..n_gens
        invariant
            expired@.len() == g,
            forall|j: int| 0 <= j < g ==> !(#[trigger] expired@[j]),
    {
        expired.push(false);
    }
    let mut remaining = n_gens;
    let ghost all_ready = ready_after_seeding(
        generators@,
        inputs.target_values@,
        num_wires as int,
        degree as int,
        num_virtual_targets as int,
        rep_map@,
    );
    proof {
        lemma_count_all_unexpired(expired@);
        if all_ready {
            assert forall|g: int|
                0 <= g < n_gens implies all_assigned(
                witness,
                (#[trigger] generators@[g]).spec_watch_list(),
            ) by {
                assert forall|k: int|
                    0 <= k < generators@[g as int].spec_watch_list().len() implies
                    witness.value_of(
                        #[trigger] generators@[g as int].spec_watch_list()[k],
                    ) is Some by {
                    let t = generators@[g as int].spec_watch_list()[k];
                    assert(seeded0[rep_map@[t.spec_index(num_wires as int, degree as int)] as int]
                        is Some);
                }
            }
        }
    }

    proof {
        if all_ready {
            assert forall|g: int|
                0 <= g < n_gens && !(#[trigger] expired@[g]) implies queued_from(
                pending@,
                0,
                g,
            ) by {
                assert(((pending@[g]) as int) == g);
            }
        }
    }
    let mut buffer = GeneratedValues::empty();

    // Keep running generators until no progress can be made.
    while pending.len() > 0
        invariant
            n_gens == generators@.len(),
            witness.wf(),
            witness.num_wires == num_wires,
            witness.degree == degree,
            witness.num_virtual_targets == num_virtual_targets,
            witness.representative_map == rep_map,
            watchers@.len() == witness.values@.len(),
            expired@.len() == n_gens,
            remaining as nat == count_unexpired(expired@),
            buffer.target_values@.len() == 0,
            seeded0.len() == witness.values@.len(),
            forall|i: int|
                0 <= i < witness.values@.len() && seeded0[i] is Some
                    ==> #[trigger] witness.values@[i] is Some,
            forall|g: int|
                0 <= g < n_gens && (#[trigger] expired@[g]) ==> all_assigned(
                    witness,
                    generators@[g].spec_watch_list(),
                ),
            all_ready ==> (forall|g: int|
                0 <= g < n_gens ==> all_assigned(
                    witness,
                    (#[trigger] generators@[g]).spec_watch_list(),
                )),
            all_ready && remaining != 0 ==> (forall|g: int|
                0 <= g < n_gens && !(#[trigger] expired@[g]) ==> queued_from(pending@, 0, g)),
            forall|g: int|
                0 <= g < n_gens && (#[trigger] expired@[g]) ==> all_assigned(
                    witness,
                    generators@[g].spec_outputs(),
                ),
            forall|i: int|
                0 <= i < witness.values@.len() && outputs_avoid_slot(
                    generators@,
                    num_wires as int,
                    degree as int,
                    rep_map@,
                    i,
                ) ==> #[trigger] witness.values@[i] == seeded0[i],
            n_gens == 0 ==> witness.values@ == seeded0,
            forall|gg: int|
                0 <= gg < generators@.len() ==> (#[trigger] generators@[gg]).valid_wires(
                    num_wires as int,
                    degree as int,
                    num_virtual_targets as int,
                ),
            forall|j: int| 0 <= j < pending@.len() ==> (#[trigger] pending@[j] as int) < n_gens as int,
            forall|q: int, j: int|
                0 <= q < watchers@.len() && 0 <= j < watchers@[q]@.len() ==> ((
                    #[trigger] watchers@[q]@[j]) as int) < generators@.len(),
        decreases
            crate::witness::count_none(witness.values@),
            pending@.len(),
    {
        let ghost start_count = crate::witness::count_none(witness.values@);
        proof {
            assert((pending@[0] as int) < n_gens as int);
        }
        let mut next_pending: Vec<usize> = Vec::new();
        let n_pending = pending.len();
        for idx in 0..n_pending
            invariant
                n_gens == generators@.len(),
                n_pending == pending@.len(),
                witness.wf(),
                witness.num_wires == num_wires,
                witness.degree == degree,
                witness.num_virtual_targets == num_virtual_targets,
                witness.representative_map == rep_map,
                watchers@.len() == witness.values@.len(),
                expired@.len() == n_gens,
                n_gens >= 1,
                remaining as nat == count_unexpired(expired@),
                buffer.target_values@.len() == 0,
                crate::witness::count_none(witness.values@) <= start_count,
                next_pending@.len() > 0 ==> crate::witness::count_none(witness.values@)
                    < start_count,
                seeded0.len() == witness.values@.len(),
                forall|i: int|
                    0 <= i < witness.values@.len() && seeded0[i] is Some
                        ==> #[trigger] witness.values@[i] is Some,
                forall|g: int|
                    0 <= g < n_gens && (#[trigger] expired@[g]) ==> all_assigned(
                        witness,
                        generators@[g].spec_watch_list(),
                    ),
                all_ready ==> (forall|g: int|
                    0 <= g < n_gens ==> all_assigned(
                        witness,
                        (#[trigger] generators@[g]).spec_watch_list(),
                    )),
                all_ready && remaining != 0 ==> (forall|g: int|
                    0 <= g < n_gens && !(#[trigger] expired@[g]) ==> queued_from(
                        pending@,
                        idx as int,
                        g,
                    )),
                forall|g: int|
                    0 <= g < n_gens && (#[trigger] expired@[g]) ==> all_assigned(
                        witness,
                        generators@[g].spec_outputs(),
                    ),
                forall|i: int|
                    0 <= i < witness.values@.len() && outputs_avoid_slot(
                        generators@,
                        num_wires as int,
                        degree as int,
                        rep_map@,
                        i,
                    ) ==> #[trigger] witness.values@[i] == seeded0[i],
                forall|gg: int|
                    0 <= gg < generators@.len() ==> (#[trigger] generators@[gg]).valid_wires(
                        num_wires as int,
                        degree as int,
                        num_virtual_targets as int,
                    ),
                forall|j: int|
                    0 <= j < pending@.len() ==> (#[trigger] pending@[j] as int) < n_gens as int,
                forall|j: int|
                    0 <= j < next_pending@.len() ==> (#[trigger] next_pending@[j] as int)
                        < n_gens as int,
                forall|q: int, j: int|
                    0 <= q < watchers@.len() && 0 <= j < watchers@[q]@.len() ==> ((
                        #[trigger] watchers@[q]@[j]) as int) < generators@.len(),
        {
            let generator_idx = pending[idx];
            proof {
                assert((pending@[idx as int] as int) < n_gens as int);
                assert(generators@[generator_idx as int].valid_wires(num_wires as int, degree as int, num_virtual_targets as int));
            }
            if !expired[generator_idx] {
                let finished = match generators[generator_idx].run(&witness, &mut buffer) {
                    Ok(f) => f,
                    Err(e) => {
                        proof {
                            assert(generators@[generator_idx as int].spec_fails_on(witness));
                            assert(e == generators@[generator_idx as int].spec_err());
                        }
                        return Err(e);
                    },
                };
                proof {
                    if all_ready {
                        assert(all_assigned(
                            witness,
                            generators@[generator_idx as int].spec_watch_list(),
                        ));
                        assert(finished);
                    }
                    assert(buffer.target_values@.subrange(0, buffer.target_values@.len() as int)
                        =~= buffer.target_values@);
                    if finished {
                        assert(all_assigned(
                            witness,
                            generators@[generator_idx as int].spec_watch_list(),
                        ));
                        generators@[generator_idx as int].lemma_deposit_targets(
                            witness,
                            buffer.target_values@,
                        );
                    }
                }

                // Merge the generated values, enqueueing the non-expired
                // generators watching a newly populated representative.
                let n_buf = buffer.target_values.len();
                for bi in 0..n_buf
                    invariant
                        n_gens == generators@.len(),
                        n_buf == buffer.target_values@.len(),
                        witness.wf(),
                        witness.num_wires == num_wires,
                        witness.degree == degree,
                        witness.num_virtual_targets == num_virtual_targets,
                        witness.representative_map == rep_map,
                        watchers@.len() == witness.values@.len(),
                        expired@.len() == n_gens,
                        n_gens >= 1,
                        remaining as nat == count_unexpired(expired@),
                        crate::witness::count_none(witness.values@) <= start_count,
                        next_pending@.len() > 0 ==> crate::witness::count_none(witness.values@)
                            < start_count,
                        seeded0.len() == witness.values@.len(),
                        forall|i: int|
                            0 <= i < witness.values@.len() && seeded0[i] is Some
                                ==> #[trigger] witness.values@[i] is Some,
                        forall|g: int|
                            0 <= g < n_gens && (#[trigger] expired@[g]) ==> all_assigned(
                                witness,
                                generators@[g].spec_watch_list(),
                            ),
                        all_ready ==> (forall|g: int|
                            0 <= g < n_gens ==> all_assigned(
                                witness,
                                (#[trigger] generators@[g]).spec_watch_list(),
                            )),
                        forall|gg: int|
                            0 <= gg < generators@.len() ==> (
                            #[trigger] generators@[gg]).valid_wires(
                                num_wires as int,
                                degree as int,
                                num_virtual_targets as int,
                            ),
                        forall|k: int|
                            0 <= k < buffer.target_values@.len() ==> witness.target_valid(
                                (#[trigger] buffer.target_values@[k]).0,
                            ),
                        (generator_idx as int) < n_gens as int,
                        finished ==> all_assigned(
                            witness,
                            generators@[generator_idx as int].spec_watch_list(),
                        ),
                        forall|j: int|
                            0 <= j < buffer.target_values@.len() ==> generators@[
                            generator_idx as int].spec_outputs().contains(
                                (#[trigger] buffer.target_values@[j]).0,
                            ),
                        forall|j: int|
                            0 <= j < bi ==> witness.value_of(
                                (#[trigger] buffer.target_values@[j]).0,
                            ) is Some,
                        forall|g: int|
                            0 <= g < n_gens && (#[trigger] expired@[g]) ==> all_assigned(
                                witness,
                                generators@[g].spec_outputs(),
                            ),
                        forall|i: int|
                            0 <= i < witness.values@.len() && outputs_avoid_slot(
                                generators@,
                                num_wires as int,
                                degree as int,
                                rep_map@,
                                i,
                            ) ==> #[trigger] witness.values@[i] == seeded0[i],
                        forall|j: int|
                            0 <= j < next_pending@.len() ==> (#[trigger] next_pending@[j] as int)
                                < n_gens as int,
                        forall|q: int, j: int|
                            0 <= q < watchers@.len() && 0 <= j < watchers@[q]@.len() ==> ((
                            #[trigger] watchers@[q]@[j]) as int) < generators@.len(),
                {
                    let (t, v) = buffer.target_values[bi];
                    proof {
                        assert(witness.target_valid(buffer.target_values@[bi as int].0));
                        t.lemma_index_in_range(
                            witness.num_wires as int,
                            witness.degree as int,
                            witness.num_virtual_targets as int,
                        );
                    }
                    let ghost wpre = witness;
                    let new_rep = witness.set_target_returning_rep(t, v);
                    proof {
                        crate::witness::lemma_set_preserves_assigned(wpre, witness, t, v);
                        assert forall|j: int|
                            0 <= j < bi + 1 implies witness.value_of(
                            (#[trigger] buffer.target_values@[j]).0,
                        ) is Some by {
                            if j < bi {
                                assert(wpre.value_of(buffer.target_values@[j].0) is Some);
                                assert(wpre.target_valid(buffer.target_values@[j].0));
                            }
                        }
                        if finished {
                            assert forall|kk: int|
                                0 <= kk < generators@[generator_idx as int].spec_watch_list().len()
                                implies witness.value_of(
                                #[trigger] generators@[generator_idx as int].spec_watch_list()[
                                kk],
                            ) is Some by {
                                generators@[generator_idx as int].lemma_watch_list_valid(
                                    num_wires as int,
                                    degree as int,
                                    num_virtual_targets as int,
                                );
                                assert(wpre.value_of(
                                    generators@[generator_idx as int].spec_watch_list()[kk],
                                ) is Some);
                                assert(wpre.target_valid(
                                    generators@[generator_idx as int].spec_watch_list()[kk],
                                ));
                            }
                        }
                        assert forall|g: int|
                            0 <= g < n_gens && (#[trigger] expired@[g]) implies all_assigned(
                            witness,
                            generators@[g].spec_outputs(),
                        ) by {
                            generators@[g].lemma_outputs_valid(
                                num_wires as int,
                                degree as int,
                                num_virtual_targets as int,
                            );
                            assert(all_assigned(wpre, generators@[g].spec_outputs()));
                            assert forall|kk: int|
                                0 <= kk < generators@[g].spec_outputs().len() implies
                                witness.value_of(
                                    #[trigger] generators@[g].spec_outputs()[kk],
                                ) is Some by {
                                assert(wpre.value_of(generators@[g].spec_outputs()[kk])
                                    is Some);
                                assert(wpre.target_valid(generators@[g].spec_outputs()[kk]));
                            }
                        }
                        assert forall|i: int|
                            0 <= i < witness.values@.len() && outputs_avoid_slot(
                            generators@,
                            num_wires as int,
                            degree as int,
                            rep_map@,
                            i,
                        ) implies #[trigger] witness.values@[i] == seeded0[i] by {
                            let outs = generators@[generator_idx as int].spec_outputs();
                            assert(outs.contains(t));
                            let k0 = choose|k0: int| 0 <= k0 < outs.len() && outs[k0] == t;
                            assert((rep_map@[outs[k0].spec_index(
                                num_wires as int,
                                degree as int,
                            )] as int) != i);
                            assert(wpre.rep_index(t) != i);
                            assert(witness.values@[i] == wpre.values@[i]);
                        }
                        if all_ready {
                            assert forall|g: int|
                                0 <= g < n_gens implies all_assigned(
                                witness,
                                (#[trigger] generators@[g]).spec_watch_list(),
                            ) by {
                                generators@[g].lemma_watch_list_valid(
                                    num_wires as int,
                                    degree as int,
                                    num_virtual_targets as int,
                                );
                                assert(all_assigned(wpre, generators@[g].spec_watch_list()));
                                assert forall|kk: int|
                                    0 <= kk < generators@[g].spec_watch_list().len() implies
                                    witness.value_of(
                                        #[trigger] generators@[g].spec_watch_list()[kk],
                                    ) is Some by {
                                    assert(wpre.value_of(generators@[g].spec_watch_list()[kk])
                                        is Some);
                                    assert(wpre.target_valid(
                                        generators@[g].spec_watch_list()[kk],
                                    ));
                                }
                            }
                        }
                        assert forall|g: int|
                            0 <= g < n_gens && (#[trigger] expired@[g]) implies all_assigned(
                            witness,
                            generators@[g].spec_watch_list(),
                        ) by {
                            generators@[g].lemma_watch_list_valid(
                                num_wires as int,
                                degree as int,
                                num_virtual_targets as int,
                            );
                            assert(all_assigned(wpre, generators@[g].spec_watch_list()));
                            assert forall|kk: int|
                                0 <= kk < generators@[g].spec_watch_list().len() implies
                                witness.value_of(
                                    #[trigger] generators@[g].spec_watch_list()[kk],
                                ) is Some by {
                                assert(wpre.value_of(generators@[g].spec_watch_list()[kk])
                                    is Some);
                                assert(wpre.target_valid(generators@[g].spec_watch_list()[kk]));
                            }
                        }
                    }
                    if let Some(rep) = new_rep {
                        let n_w = watchers[rep].len();
                        for wi in 0..n_w
                            invariant
                                n_gens == generators@.len(),
                                rep < watchers@.len(),
                                n_w == watchers@[rep as int]@.len(),
                                expired@.len() == n_gens,
                                witness.wf(),
                                crate::witness::count_none(witness.values@) < start_count,
                                forall|j: int|
                                    0 <= j < next_pending@.len() ==> (
                                    #[trigger] next_pending@[j] as int) < n_gens as int,
                                forall|q: int, j: int|
                                    0 <= q < watchers@.len() && 0 <= j < watchers@[q]@.len() ==> ((
                                    #[trigger] watchers@[q]@[j]) as int) < generators@.len(),
                        {
                            let watching = watchers[rep][wi];
                            if !expired[watching] {
                                next_pending.push(watching);
                            }
                        }
                    }
                }
                // The generator expires only after its deposits are merged.
                if finished {
                    proof {
                        lemma_count_unexpired_update(expired@, generator_idx as int);
                        assert forall|j: int|
                            0 <= j < generators@[generator_idx as int].spec_outputs().len()
                            implies witness.value_of(
                            #[trigger] generators@[generator_idx as int].spec_outputs()[j],
                        ) is Some by {
                            let k = choose|k: int|
                                0 <= k < buffer.target_values@.len()
                                    && buffer.target_values@[k].0 == generators@[
                                generator_idx as int].spec_outputs()[j];
                            assert(witness.value_of(buffer.target_values@[k].0) is Some);
                        }
                        assert(all_assigned(
                            witness,
                            generators@[generator_idx as int].spec_outputs(),
                        ));
                    }
                    expired[generator_idx] = true;
                    remaining = remaining - 1;
                    proof {
                        assert forall|g: int|
                            0 <= g < n_gens && (#[trigger] expired@[g]) implies all_assigned(
                            witness,
                            generators@[g].spec_watch_list(),
                        ) by {}
                        assert forall|g: int|
                            0 <= g < n_gens && (#[trigger] expired@[g]) implies all_assigned(
                            witness,
                            generators@[g].spec_outputs(),
                        ) by {}
                    }
                }
                buffer.clear();
            }
            proof {
                if all_ready && remaining != 0 {
                    assert forall|g: int|
                        0 <= g < n_gens && !(#[trigger] expired@[g]) implies queued_from(
                        pending@,
                        idx as int + 1,
                        g,
                    ) by {
                        assert(queued_from(pending@, idx as int, g));
                        let j = choose|j: int|
                            idx as int <= j < pending@.len() && ((pending@[j]) as int) == g;
                        if j == idx as int {
                            assert(false);
                        }
                        assert(idx as int + 1 <= j < pending@.len() && ((pending@[j]) as int)
                            == g);
                    }
                }
            }
        }
        pending = next_pending;
    }

    // The run is valid only if every generator completed.
    if remaining != 0 {
        proof {
            if generators@.len() == 0 {
                lemma_count_all_unexpired(expired@);
            }
            if all_ready {
                assert forall|j: int| 0 <= j < expired@.len() implies #[trigger] expired@[j] by {
                    if !expired@[j] {
                        assert(queued_from(pending@, 0, j));
                        assert(false);
                    }
                }
                lemma_count_all_expired(expired@);
                assert(false);
            }
        }
        return Err(CircuitError::Deadlock);
    }
    proof {
        lemma_count_unexpired_zero(expired@);
        let pairs = inputs.target_values@;
        let total = num_wires * degree + num_virtual_targets;
        assert forall|j: int|
            0 <= j < pairs.len() implies 0 <= (rep_map@[(#[trigger] pairs[j]).0.spec_index(
            num_wires as int,
            degree as int,
        )] as int) && (rep_map@[pairs[j].0.spec_index(num_wires as int, degree as int)] as int)
            < blank.len() by {
            pairs[j].0.lemma_index_in_range(
                num_wires as int,
                degree as int,
                num_virtual_targets as int,
            );
        }
        assert forall|k: int|
            0 <= k < pairs.len() implies witness.value_of((#[trigger] pairs[k]).0) is Some by {
            pairs[k].0.lemma_index_in_range(
                num_wires as int,
                degree as int,
                num_virtual_targets as int,
            );
            lemma_seeded_assigns(blank, pairs, num_wires as int, degree as int, rep_map@, k);
            let ridx = rep_map@[pairs[k].0.spec_index(num_wires as int, degree as int)] as int;
            assert(seeded0[ridx] is Some);
            assert(witness.values@[ridx] is Some);
            assert(witness.rep_index(pairs[k].0) == ridx);
        }
        assert forall|k: int, t: Target|
            0 <= k < pairs.len() && witness.target_valid(t) && #[trigger] witness.rep_index(t)
                == witness.rep_index((#[trigger] pairs[k]).0) implies witness.value_of(t)
            is Some by {
            assert(witness.value_of(t) == witness.value_of(pairs[k].0));
        }
    }
    proof {
        assert(seeded0 == seeded_values(
            blank_values(num_wires * degree + num_virtual_targets),
            inputs.target_values@,
            num_wires as int,
            degree as int,
            representative_map@,
        ));
        assert forall|g: int|
            0 <= g < generators@.len() implies all_assigned(
            witness,
            (#[trigger] generators@[g]).spec_watch_list(),
        ) by {
            assert(expired@[g]);
        }
        assert forall|g: int|
            0 <= g < generators@.len() implies all_assigned(
            witness,
            (#[trigger] generators@[g]).spec_outputs(),
        ) by {
            assert(expired@[g]);
        }
    }
    Ok(witness)
}

/// A table with no expired entry counts all of them.
pub proof fn lemma_count_all_unexpired(s: Seq<bool>)
    requires
        forall|j: int| 0 <= j < s.len() ==> !(#[trigger] s[j]),
    ensures
        count_unexpired(s) == s.len(),
    decreases s.len(),
{
    if s.len() > 0 {
        lemma_count_all_unexpired(s.drop_last());
    }
}

} // verus!
