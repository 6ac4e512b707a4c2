//! Addressing of witness slots: a `Wire` is a (row, slot) position inside a
//! gate instance, a `Target` is either a wire or a free-standing virtual
//! value. Composite targets bundle several base targets (booleans, 32-bit
//! limbs, extension values, hashes, big integers).

use vstd::prelude::*;
use vstd::arithmetic::mul::lemma_mul_inequality;

verus! {

/// A (row, slot) position: `gate` is the row index of a gate instance,
/// `input` the slot index within that row.
#[derive(Clone, Copy, PartialEq, Eq, Hash, Debug, Structural)]
pub struct Wire {
    pub gate: usize,
    pub input: usize,
}

/// A reference to a single field-valued slot of the witness.
#[derive(Clone, Copy, PartialEq, Eq, Hash, Debug, Structural)]
pub enum Target {
    Wire(Wire),
    VirtualTarget { index: usize },
}

impl Target {
    pub fn wire(gate: usize, input: usize) -> (t: Target)
        ensures
            t == Target::Wire(Wire { gate, input }),
    {
        Target::Wire(Wire { gate, input })
    }

    pub fn virtual_target(index: usize) -> (t: Target)
        ensures
            t == (Target::VirtualTarget { index }),
    {
        Target::VirtualTarget { index }
    }

    /// Whether the target lies within a circuit of the given dimensions:
    /// `num_wires` slots per row, `degree` rows, and `num_virtual_targets`
    /// free-standing values.
    pub open spec fn is_valid(self, num_wires: int, degree: int, num_virtual_targets: int) -> bool {
        match self {
            Target::Wire(w) => w.gate < degree && w.input < num_wires,
            Target::VirtualTarget { index } => index < num_virtual_targets,
        }
    }

    /// The flat index of the target: rows first, slot-major within a row,
    /// virtual targets after all wires.
    pub open spec fn spec_index(self, num_wires: int, degree: int) -> int {
        match self {
            Target::Wire(w) => w.gate * num_wires + w.input,
            Target::VirtualTarget { index } => num_wires * degree + index,
        }
    }

    /// A valid target's flat index lies below the total slot count.
    pub proof fn lemma_index_in_range(
        self,
        num_wires: int,
        degree: int,
        num_virtual_targets: int,
    )
        requires
            self.is_valid(num_wires, degree, num_virtual_targets),
            num_wires >= 0,
            degree >= 0,
            num_virtual_targets >= 0,
        ensures
            0 <= self.spec_index(num_wires, degree) < num_wires * degree + num_virtual_targets,
    {
        match self {
            Target::Wire(w) => {
                lemma_mul_inequality(w.gate + 1, degree, num_wires);
                assert((w.gate + 1) * num_wires == w.gate * num_wires + num_wires) by (nonlinear_arith);
                assert(w.gate * num_wires >= 0) by (nonlinear_arith)
                    requires
                        w.gate >= 0,
                        num_wires >= 0,
                ;
                assert(degree * num_wires == num_wires * degree) by (nonlinear_arith);
            },
            Target::VirtualTarget { .. } => {
                assert(num_wires * degree >= 0) by (nonlinear_arith)
                    requires
                        num_wires >= 0,
                        degree >= 0,
                ;
            },
        }
    }

    /// The flat index of the target within a circuit of the given dimensions.
    pub fn index(self, num_wires: usize, degree: usize, num_virtual_targets: usize) -> (r: usize)
        requires
            self.is_valid(num_wires as int, degree as int, num_virtual_targets as int),
            num_wires * degree + num_virtual_targets <= usize::MAX,
        ensures
            r as int == self.spec_index(num_wires as int, degree as int),
            r < num_wires * degree + num_virtual_targets,
    {
        proof {
            self.lemma_index_in_range(
                num_wires as int,
                degree as int,
                num_virtual_targets as int,
            );
        }
        match self {
            Target::Wire(w) => w.gate * num_wires + w.input,
            Target::VirtualTarget { index } => num_wires * degree + index,
        }
    }
}

/// A target whose value is maintained as zero or one.
#[derive(Clone, Copy, PartialEq, Eq, Hash, Debug, Structural)]
pub struct BoolTarget {
    pub target: Target,
}

impl BoolTarget {
    pub fn new_unsafe(target: Target) -> (r: BoolTarget)
        ensures
            r.target == target,
    {
        BoolTarget { target }
    }
}

/// A target whose value is maintained below `2^32`.
#[derive(Clone, Copy, PartialEq, Eq, Hash, Debug, Structural)]
pub struct U32Target(pub Target);

/// A value of the quadratic extension, as two base-field targets.
#[derive(Clone, Copy, Debug)]
pub struct ExtensionTarget(pub [Target; 2]);

/// A hash output: four base-field elements.
#[derive(Clone, Copy, Debug)]
pub struct HashOut {
    pub elements: [crate::field::FieldElement; 4],
}

/// Targets holding a hash output.
#[derive(Clone, Copy, Debug)]
pub struct HashOutTarget {
    pub elements: [Target; 4],
}

/// Targets holding an unsigned big integer as little-endian 32-bit limbs.
#[derive(Clone, Debug)]
pub struct BigUintTarget {
    pub limbs: Vec<U32Target>,
}

impl BigUintTarget {
    pub fn num_limbs(&self) -> (r: usize)
        ensures
            r == self.limbs@.len(),
    {
        self.limbs.len()
    }

    pub fn get_limb(&self, i: usize) -> (r: U32Target)
        requires
            i < self.limbs@.len(),
        ensures
            r == self.limbs@[i as int],
    {
        self.limbs[i]
    }
}

/// An unsigned big integer value, as little-endian 32-bit limbs.
#[derive(Clone, Debug)]
pub struct BigUintValue {
    pub limbs: Vec<u32>,
}

/// Targets holding an element of a foreign field, as a big integer.
#[derive(Clone, Debug)]
pub struct NonNativeTarget {
    pub value: BigUintTarget,
}

} // verus!
